//! A deterministic pseudo-random generator (xoshiro256** with a splitmix64
//! seeding pass). Every draw is pinned at the specification level, so two
//! generators started from the same seed produce the same stream.

use vstd::prelude::*;
use vstd::wrapping::u64_specs;

use crate::ndarray::{NdArray, products_ok};
use crate::shape::{Shape, dims_product};
use crate::storage::Storage;

verus! {

/// Left bit rotation of a 64-bit word.
pub open spec fn spec_rotl(x: u64, k: u64) -> u64
    recommends
        0 < k < 64,
{
    (x << k) | (x >> (64 - k) as u64)
}

/// One splitmix64 output mix.
pub open spec fn spec_mix(z0: u64) -> u64 {
    let z1 = u64_specs::wrapping_mul(z0 ^ (z0 >> 30u64), 0xbf58476d1ce4e5b9u64);
    let z2 = u64_specs::wrapping_mul(z1 ^ (z1 >> 27u64), 0x94d049bb133111ebu64);
    z2 ^ (z2 >> 31u64)
}

/// The `i`-th word (starting at one) of the splitmix64 stream seeded with
/// `seed`: the seed advanced `i` times by the golden-ratio increment, mixed.
pub open spec fn spec_seed_word(seed: u64, i: nat) -> u64
    decreases i,
{
    if i == 0 {
        seed
    } else {
        u64_specs::wrapping_add(spec_seed_word(seed, (i - 1) as nat), 0x9e3779b97f4a7c15u64)
    }
}

/// The four state words derived from a seed.
pub open spec fn spec_seed_state(seed: u64) -> (u64, u64, u64, u64) {
    (
        spec_mix(spec_seed_word(seed, 1)),
        spec_mix(spec_seed_word(seed, 2)),
        spec_mix(spec_seed_word(seed, 3)),
        spec_mix(spec_seed_word(seed, 4)),
    )
}

/// The output word produced from a state.
pub open spec fn spec_output(s: (u64, u64, u64, u64)) -> u64 {
    u64_specs::wrapping_mul(spec_rotl(u64_specs::wrapping_mul(s.1, 5), 7), 9)
}

/// The state transition of one draw.
pub open spec fn spec_step(s: (u64, u64, u64, u64)) -> (u64, u64, u64, u64) {
    let t = s.1 << 17u64;
    let s2a = s.2 ^ s.0;
    let s3a = s.3 ^ s.1;
    let s1a = s.1 ^ s2a;
    let s0a = s.0 ^ s3a;
    let s2b = s2a ^ t;
    let s3b = spec_rotl(s3a, 45);
    (s0a, s1a, s2b, s3b)
}

/// The state after `n` draws.
pub open spec fn spec_state_after(s: (u64, u64, u64, u64), n: nat) -> (u64, u64, u64, u64)
    decreases n,
{
    if n == 0 {
        s
    } else {
        spec_step(spec_state_after(s, (n - 1) as nat))
    }
}

/// Relies on `std::time::SystemTime::now` and `duration_since`: reads the
/// wall clock once; nothing is promised about the value.
#[verifier::external_body]
fn current_nanos() -> u64 {
    match std::time::SystemTime::now().duration_since(std::time::UNIX_EPOCH) {
        Ok(d) => d.as_nanos() as u64,
        Err(_) => 0,
    }
}

/// A xoshiro256** pseudo-random generator.
#[derive(Debug, Clone)]
pub struct Generator {
    s0: u64,
    s1: u64,
    s2: u64,
    s3: u64,
}

impl Generator {
    /// The four state words, at the specification level.
    pub closed spec fn state(&self) -> (u64, u64, u64, u64) {
        (self.s0, self.s1, self.s2, self.s3)
    }

    /// A generator seeded from the wall clock. The stream is still the
    /// deterministic expansion of whatever seed the clock supplied.
    pub fn new() -> (g: Self)
        ensures
            exists|seed: u64| g.state() == spec_seed_state(seed),
    {
        let seed = current_nanos();
        let g = Self::from_seed(seed);
        proof {
            assert(g.state() == spec_seed_state(seed));
        }
        g
    }

    /// A generator whose state is the splitmix64 expansion of `seed`.
    pub fn from_seed(seed: u64) -> (g: Self)
        ensures
            g.state() == spec_seed_state(seed),
    {
        let w1 = seed.wrapping_add(0x9e3779b97f4a7c15);
        let w2 = w1.wrapping_add(0x9e3779b97f4a7c15);
        let w3 = w2.wrapping_add(0x9e3779b97f4a7c15);
        let w4 = w3.wrapping_add(0x9e3779b97f4a7c15);
        proof {
            assert(spec_seed_word(seed, 0) == seed);
            assert(w1 == spec_seed_word(seed, 1));
            assert(w2 == spec_seed_word(seed, 2));
            assert(w3 == spec_seed_word(seed, 3));
            assert(w4 == spec_seed_word(seed, 4));
        }
        Generator { s0: Self::mix(w1), s1: Self::mix(w2), s2: Self::mix(w3), s3: Self::mix(w4) }
    }

    /// One splitmix64 mix, matching `spec_mix`.
    fn mix(z0: u64) -> (r: u64)
        ensures
            r == spec_mix(z0),
    {
        let z1 = (z0 ^ (z0 >> 30)).wrapping_mul(0xbf58476d1ce4e5b9);
        let z2 = (z1 ^ (z1 >> 27)).wrapping_mul(0x94d049bb133111eb);
        z2 ^ (z2 >> 31)
    }

    /// Left bit rotation, matching `spec_rotl`.
    fn rotl(x: u64, k: u64) -> (r: u64)
        requires
            0 < k < 64,
        ensures
            r == spec_rotl(x, k),
    {
        (x << k) | (x >> (64 - k))
    }

    /// The next draw: returns the output word of the current state and steps
    /// the state.
    pub fn next_u64(&mut self) -> (r: u64)
        ensures
            r == spec_output(old(self).state()),
            final(self).state() == spec_step(old(self).state()),
    {
        let result = Self::rotl(self.s1.wrapping_mul(5), 7).wrapping_mul(9);
        let t = self.s1 << 17;
        self.s2 = self.s2 ^ self.s0;
        self.s3 = self.s3 ^ self.s1;
        self.s1 = self.s1 ^ self.s2;
        self.s0 = self.s0 ^ self.s3;
        self.s2 = self.s2 ^ t;
        self.s3 = Self::rotl(self.s3, 45);
        result
    }

    /// An array of the given shape filled with draws from `[low, high)`:
    /// element `j` comes from the `j`-th draw, taken modulo the range width.
    pub fn randint(&mut self, low: i64, high: i64, shape: Shape) -> (a: NdArray<i64>)
        requires
            low < high,
            high - low <= i64::MAX,
            products_ok(shape@),
        ensures
            a.wf(),
            a.dims_spec() == shape@,
            a@.len() == dims_product(shape@),
            forall|j: int| 0 <= j < a@.len()
                ==> #[trigger] a@[j] == low + spec_output(
                    spec_state_after(old(self).state(), j as nat),
                ) as int % (high - low),
            forall|j: int| 0 <= j < a@.len() ==> low <= #[trigger] a@[j] < high,
            final(self).state() == spec_state_after(old(self).state(), a@.len() as nat),
    {
        proof {
            assert(shape@.take(shape@.len() as int) =~= shape@);
        }
        let n = shape.size();
        let range: u64 = (high - low) as u64;
        let mut data: Vec<i64> = Vec::new();
        let mut i: usize = 0;
        while i < n
            invariant
                low < high,
                high - low <= i64::MAX,
                range == high - low,
                i <= n,
                data@.len() == i,
                self.state() == spec_state_after(old(self).state(), i as nat),
                forall|j: int| 0 <= j < i
                    ==> #[trigger] data@[j] == low + spec_output(
                        spec_state_after(old(self).state(), j as nat),
                    ) as int % (high - low),
                forall|j: int| 0 <= j < i ==> low <= #[trigger] data@[j] < high,
            decreases n - i,
        {
            let w = self.next_u64();
            let offset = w % range;
            data.push(low + offset as i64);
            i = i + 1;
        }
        NdArray::from_vec(shape, data)
    }
}

} // verus!
