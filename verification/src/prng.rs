use vstd::prelude::*;

verus! {

/// The four words of generator state, in order `s[0]`, `s[1]`, `s[2]`, `s[3]`.
pub type PrngState = (u64, u64, u64, u64);

/// Rotation of a 64-bit word left by `k` bits, for `0 < k < 64`.
pub open spec fn rotl(x: u64, k: u64) -> u64 {
    (x << k) | (x >> (64 - k) as u64)
}

/// The word produced from a state: `rotl(s[1] * 5, 7) * 9` with wrapping products.
pub open spec fn spec_output(st: PrngState) -> u64 {
    rotl(st.1.wrapping_mul(5), 7).wrapping_mul(9)
}

/// The xoshiro256** state transition.
pub open spec fn spec_advance(st: PrngState) -> PrngState {
    let (s0, s1, s2, s3) = st;
    let t = s1 << 17u64;
    let s2a = s2 ^ s0;
    let s3a = s3 ^ s1;
    let s1a = s1 ^ s2a;
    let s0a = s0 ^ s3a;
    let s2b = s2a ^ t;
    let s3b = rotl(s3a, 45);
    (s0a, s1a, s2b, s3b)
}

/// The state after `k` transitions.
pub open spec fn spec_advance_n(st: PrngState, k: nat) -> PrngState
    decreases k,
{
    if k == 0 {
        st
    } else {
        spec_advance(spec_advance_n(st, (k - 1) as nat))
    }
}

/// The state a generator is seeded with, before warm-up.
pub open spec fn spec_seed_state(seed0: u64, seed1: u64) -> PrngState {
    (seed0, seed1, seed0 ^ 0x9e3779b97f4a7c15u64, seed1 ^ 0xbf58476d1ce4e5b9u64)
}

/// The state of a freshly built generator: the seed state advanced 16 times.
pub open spec fn spec_new_state(seed0: u64, seed1: u64) -> PrngState {
    spec_advance_n(spec_seed_state(seed0, seed1), 16)
}

/// The first `k` words produced from a state.
pub open spec fn spec_stream(st: PrngState, k: nat) -> Seq<u64>
    decreases k,
{
    if k == 0 {
        Seq::empty()
    } else {
        spec_stream(st, (k - 1) as nat).push(spec_output(spec_advance_n(st, (k - 1) as nat)))
    }
}

/// Tiny xoshiro256** -style PRNG used for weight init and shuffling.
pub struct Prng {
    s0: u64,
    s1: u64,
    s2: u64,
    s3: u64,
}

impl View for Prng {
    type V = PrngState;

    closed spec fn view(&self) -> PrngState {
        (self.s0, self.s1, self.s2, self.s3)
    }
}

impl Prng {
    pub fn new(seed0: u64, seed1: u64) -> (rng: Self)
        ensures
            rng@ == spec_new_state(seed0, seed1),
    {
        let mut rng = Prng {
            s0: seed0,
            s1: seed1,
            s2: seed0 ^ 0x9e3779b97f4a7c15u64,
            s3: seed1 ^ 0xbf58476d1ce4e5b9u64,
        };
        // warm up a bit so short seeds still mix
        let mut i: u64 = 0;
        while i < 16
            invariant
                i <= 16,
                rng@ == spec_advance_n(spec_seed_state(seed0, seed1), i as nat),
            decreases 16 - i,
        {
            let _ = rng.next_u64();
            i = i + 1;
        }
        rng
    }

    /// Produces the next word and advances the state.
    pub fn next_u64(&mut self) -> (r: u64)
        ensures
            r == spec_output(old(self)@),
            final(self)@ == spec_advance(old(self)@),
    {
        let m = self.s1.wrapping_mul(5);
        let result = ((m << 7u64) | (m >> 57u64)).wrapping_mul(9);
        let t = self.s1 << 17u64;

        self.s2 = self.s2 ^ self.s0;
        self.s3 = self.s3 ^ self.s1;
        self.s1 = self.s1 ^ self.s2;
        self.s0 = self.s0 ^ self.s3;

        self.s2 = self.s2 ^ t;
        self.s3 = (self.s3 << 45u64) | (self.s3 >> 19u64);

        result
    }
}

/// First seed of the process-wide generator (training-order shuffles, replay and
/// local-batch draws).
pub const GLOBAL_SEED0: u64 = 0x853c49e6748fea9bu64;

/// Second seed of the process-wide generator.
pub const GLOBAL_SEED1: u64 = 0xda3e39cb94b95bdbu64;

/// The generator a process-wide stream starts from.
pub fn global_prng() -> (rng: Prng)
    ensures
        rng@ == spec_new_state(GLOBAL_SEED0, GLOBAL_SEED1),
{
    Prng::new(GLOBAL_SEED0, GLOBAL_SEED1)
}

/// Two generators seeded alike produce the same words: the `k` words drawn after
/// seeding depend on the seeds alone, and each draw is the output of the state
/// reached by the draws before it.
pub proof fn lemma_stream_step(st: PrngState, k: nat)
    ensures
        spec_stream(st, k + 1) == spec_stream(st, k).push(spec_output(spec_advance_n(st, k))),
        spec_stream(st, k).len() == k,
    decreases k,
{
    if k > 0 {
        lemma_stream_step(st, (k - 1) as nat);
    }
}

} // verus!
