//! Pseudo-random draws and the unbiased shuffle behind the scheduler's
//! visitation order.
//!
//! Randomness comes from a small seeded generator of the `rand` crate held
//! behind trusted wrappers; nothing is assumed of a draw beyond its range, so
//! everything proved here holds for every sequence of draws.

use vstd::prelude::*;

verus! {

use vstd::pervasive::VecAdditionalExecFns;

#[verifier::external_type_specification]
#[verifier::external_body]
pub struct ExSmallRng(rand::rngs::SmallRng);

/// A deterministically seeded pseudo-random generator.
pub struct SeededRng {
    inner: rand::rngs::SmallRng,
}

impl SeededRng {
    /// Relies on rand's `SeedableRng::seed_from_u64` to build a `SmallRng`;
    /// nothing is assumed of the stream it produces.
    #[verifier::external_body]
    pub fn from_seed(seed: u64) -> (r: SeededRng) {
        SeededRng { inner: rand::SeedableRng::seed_from_u64(seed) }
    }

    /// Relies on rand's `Rng::random_range` over `0..ubound`, which returns a
    /// value of the (non-empty) range.
    #[verifier::external_body]
    pub(crate) fn gen_index(&mut self, ubound: usize) -> (r: usize)
        requires
            ubound >= 1,
        ensures
            r < ubound,
    {
        rand::Rng::random_range(&mut self.inner, 0..ubound)
    }
}

/// Rearrange `v` in place into a pseudo-random order; the multiset of
/// elements is exactly preserved.
pub fn shuffle<T: Copy>(v: &mut Vec<T>, rng: &mut SeededRng)
    ensures
        final(v)@.to_multiset() == old(v)@.to_multiset(),
        final(v)@.len() == old(v)@.len(),
{
    let len = v.len();
    let mut i: usize = len;
    while i > 1
        invariant
            i <= len,
            v@.len() == len,
            v@.to_multiset() == old(v)@.to_multiset(),
        decreases i,
    {
        i = i - 1;
        let j = rng.gen_index(i + 1);
        let vi = v[i];
        let vj = v[j];
        let ghost before = v@;
        v.set(i, vj);
        v.set(j, vi);
        proof {
            lemma_swap_preserves_multiset(before, i as int, j as int);
        }
    }
}

/// Writing `s[j]` to slot `i` and `s[i]` to slot `j` reorders the sequence
/// without changing its multiset of elements.
proof fn lemma_swap_preserves_multiset<T>(s: Seq<T>, i: int, j: int)
    requires
        0 <= i < s.len(),
        0 <= j < s.len(),
    ensures
        s.update(i, s[j]).update(j, s[i]).to_multiset() == s.to_multiset(),
{
    broadcast use vstd::seq_lib::group_to_multiset_ensures;
    broadcast use vstd::multiset::group_multiset_axioms;
    broadcast use vstd::multiset::group_multiset_properties;

    let s1 = s.update(i, s[j]);
    let s2 = s1.update(j, s[i]);
    vstd::seq_lib::to_multiset_update(s, i, s[j]);
    vstd::seq_lib::to_multiset_update(s1, j, s[i]);
    assert(s1[j] == s[j]);
    s.to_multiset_ensures();
    assert(s.contains(s[i]));
    assert(s.contains(s[j]));
    assert(s2.to_multiset() =~= s.to_multiset());
}

} // verus!
