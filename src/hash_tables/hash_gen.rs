use vstd::prelude::*;

use vstd::arithmetic::power2::pow2;
use vstd::bits::{lemma_u64_shl_is_mul, lemma_u64_shr_is_div};

use crate::tries::bits::ToUsize;

verus! {

/// Multiplicative hashing: `x` goes to the top `d` of the low `w` bits of
/// `z * x`.
pub struct HashGen {
    z: usize,
    w: u32,
    d: u32,
}

/// The hash of `x` under multiplier `z` and widths `w` and `d`.
pub open spec fn hash_of(z: usize, w: u32, d: u32, x: usize) -> nat {
    ((z * x) as nat % pow2(w as nat)) / pow2((w - d) as nat)
}

impl HashGen {
    pub closed spec fn multiplier(&self) -> usize {
        self.z
    }

    pub closed spec fn word_bits(&self) -> u32 {
        self.w
    }

    pub closed spec fn hash_bits(&self) -> u32 {
        self.d
    }

    pub fn new(z: usize, w: u32, d: u32) -> (r: Self)
        ensures
            r.multiplier() == z,
            r.word_bits() == w,
            r.hash_bits() == d,
    {
        HashGen { z, w, d }
    }

    pub fn from_usize(&self, x: usize) -> (r: usize)
        requires
            self.multiplier() * x <= usize::MAX,
            self.hash_bits() <= self.word_bits() <= 63,
        ensures
            r == hash_of(self.multiplier(), self.word_bits(), self.hash_bits(), x),
    {
        let prod = self.z * x;
        let w = self.w as u64;
        let s = (self.w - self.d) as u64;
        proof {
            vstd::bits::lemma_u64_pow2_no_overflow(w as nat);
            lemma_u64_shl_is_mul(1, w);
            vstd::arithmetic::power2::lemma_pow2_pos(w as nat);
            vstd::arithmetic::power2::lemma_pow2_pos(s as nat);
        }
        let m: u64 = 1u64 << w;
        let q = (prod as u64) % m;
        proof {
            lemma_u64_shr_is_div(q, s);
            vstd::arithmetic::div_mod::lemma_div_is_ordered_by_denominator(q as int, 1, pow2(s as nat) as int);
            vstd::arithmetic::div_mod::lemma_mod_decreases(prod as nat, m as nat);
        }
        let r = q >> s;
        assert(r <= q);
        assert(q <= prod);
        r as usize
    }

    /// The hash of the number of `x`.
    pub fn hash<K: ToUsize>(&self, x: &K) -> (r: usize)
        requires
            self.multiplier() * x.usize_view() <= usize::MAX,
            self.hash_bits() <= self.word_bits() <= 63,
        ensures
            r == hash_of(self.multiplier(), self.word_bits(), self.hash_bits(), x.usize_view()),
    {
        self.from_usize(x.to_usize())
    }
}

} // verus!
