use vstd::prelude::*;

use crate::tries::bits::ToUsize;

verus! {

/// What `add` makes of the contents: a key whose number is not held yet goes
/// in; otherwise nothing changes.
pub open spec fn add_step<T: ToUsize>(m: Map<usize, T>, x: T) -> Map<usize, T> {
    if m.contains_key(x.usize_view()) {
        m
    } else {
        m.insert(x.usize_view(), x)
    }
}

/// The contents after adding each key of `xs` in turn to `m`.
pub open spec fn add_all<T: ToUsize>(m: Map<usize, T>, xs: Seq<T>) -> Map<usize, T>
    decreases xs.len(),
{
    if xs.len() == 0 {
        m
    } else {
        add_step(add_all(m, xs.drop_last()), xs.last())
    }
}

/// After adding the keys of `xs` one by one to an empty trie, looking up any
/// of them succeeds, and looking up a number that none of them has fails.
pub proof fn law_round_trip<T: ToUsize>(xs: Seq<T>, probe: usize)
    ensures
        forall|i: int|
            0 <= i < xs.len() ==> add_all(Map::<usize, T>::empty(), xs).contains_key(
                #[trigger] xs[i].usize_view(),
            ),
        (forall|i: int| 0 <= i < xs.len() ==> #[trigger] xs[i].usize_view() != probe) ==> !add_all(
            Map::<usize, T>::empty(),
            xs,
        ).contains_key(probe),
    decreases xs.len(),
{
    if xs.len() > 0 {
        let init = xs.drop_last();
        law_round_trip(init, probe);
        assert forall|i: int| 0 <= i < xs.len() implies add_all(Map::<usize, T>::empty(), xs).contains_key(
            #[trigger] xs[i].usize_view(),
        ) by {
            if i < xs.len() - 1 {
                assert(init[i] == xs[i]);
            }
        }
        if forall|i: int| 0 <= i < xs.len() ==> #[trigger] xs[i].usize_view() != probe {
            assert forall|i: int| 0 <= i < init.len() implies #[trigger] init[i].usize_view()
                != probe by {
                assert(init[i] == xs[i]);
            }
            assert(xs[xs.len() - 1].usize_view() != probe);
        }
    }
}

/// Adding a key a second time finds its number held, so the second `add`
/// reports `false` and leaves the contents as the first one left them.
pub proof fn law_add_twice<T: ToUsize>(m: Map<usize, T>, x: T)
    ensures
        add_step(m, x).contains_key(x.usize_view()),
        add_step(add_step(m, x), x) == add_step(m, x),
{
}

} // verus!
