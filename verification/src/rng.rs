//! Randomness for the simulation: a seeded ChaCha generator behind a small
//! trusted surface, and verified helpers (coin flips with rational odds,
//! Fisher-Yates shuffling) built on top of it.
use vstd::prelude::*;
use vstd::multiset::Multiset;
use rand::Rng;
use rand::SeedableRng;

verus! {

#[verifier::external_type_specification]
#[verifier::external_body]
pub struct ExChaCha8Rng(rand_chacha::ChaCha8Rng);

/// The simulation's random number generator. Every stochastic choice the
/// engine makes is drawn from one of these, so a fixed seed replays a run.
pub struct SimRng {
    inner: rand_chacha::ChaCha8Rng,
}

impl SimRng {
    /// Relies on rand_chacha's ChaCha8Rng and rand's SeedableRng::seed_from_u64
    /// to build a deterministic generator from a 64-bit seed.
    #[verifier::external_body]
    pub fn from_seed(seed: u64) -> (r: SimRng) {
        SimRng { inner: rand_chacha::ChaCha8Rng::seed_from_u64(seed) }
    }

    /// Relies on rand's Rng::gen_range: the result lies in the half-open
    /// range `0..n`, which is non-empty by the precondition.
    #[verifier::external_body]
    pub fn below(&mut self, n: usize) -> (r: usize)
        requires
            n >= 1,
        ensures
            r < n,
    {
        self.inner.gen_range(0..n)
    }

    /// Relies on rand's Rng::gen_range over an inclusive range, which is
    /// never empty: the result is at most `n`.
    #[verifier::external_body]
    pub fn at_most(&mut self, n: usize) -> (r: usize)
        ensures
            r <= n,
    {
        self.inner.gen_range(0..=n)
    }

    /// Relies on rand's Rng::gen to draw a uniform 32-bit word.
    #[verifier::external_body]
    pub fn word(&mut self) -> (r: u32) {
        self.inner.gen()
    }

    /// A fair coin flip.
    pub fn coin(&mut self) -> bool {
        self.below(2) == 0
    }

    /// An event with probability `num` in 1,000,000 (clamped to certainty
    /// when `num` exceeds the denominator).
    pub fn chance_ppm(&mut self, num: u32) -> bool {
        let d: usize = self.below(1000000);
        d < num as usize
    }
}

/// Put the elements of `v` in a random order, by drawing positions without
/// replacement. The result holds exactly the elements that went in.
pub fn shuffle<T>(rng: &mut SimRng, v: &mut Vec<T>)
    ensures
        final(v)@.to_multiset() == old(v)@.to_multiset(),
        final(v)@.len() == old(v)@.len(),
{
    proof {
        broadcast use vstd::seq_lib::group_to_multiset_ensures;
        broadcast use vstd::multiset::group_multiset_axioms;
    }
    let ghost orig = v@;
    let mut out: Vec<T> = Vec::new();
    while v.len() > 0
        invariant
            out@.to_multiset().add(v@.to_multiset()) == orig.to_multiset(),
            out@.len() + v@.len() == orig.len(),
        decreases v@.len(),
    {
        proof {
            broadcast use vstd::seq_lib::group_to_multiset_ensures;
            broadcast use vstd::multiset::group_multiset_axioms;
        }
        let j = rng.below(v.len());
        let ghost prev_v = v@;
        let ghost prev_out = out@;
        proof {
            assert(prev_v.contains(prev_v[j as int]));
            assert(prev_v.to_multiset().count(prev_v[j as int]) > 0);
            lemma_multiset_transfer(
                prev_out.to_multiset(),
                prev_v.to_multiset(),
                prev_v[j as int],
            );
        }
        let x = v.remove(j);
        out.push(x);
        proof {
            assert(out@.to_multiset() == prev_out.to_multiset().insert(prev_v[j as int]));
            assert(v@.to_multiset() == prev_v.to_multiset().remove(prev_v[j as int]));
        }
    }
    proof {
        assert(out@.to_multiset().add(v@.to_multiset()) =~= out@.to_multiset());
    }
    *v = out;
}

/// Moving one occurrence of `x` from `b` into `a` keeps the combined
/// multiset.
proof fn lemma_multiset_transfer<T>(a: Multiset<T>, b: Multiset<T>, x: T)
    requires
        b.count(x) > 0,
    ensures
        a.insert(x).add(b.remove(x)) == a.add(b),
{
    broadcast use vstd::multiset::group_multiset_axioms;

    assert(a.insert(x).add(b.remove(x)) =~= a.add(b));
}

} // verus!
