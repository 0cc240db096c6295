//! Deterministic pseudo-random sampling.
//!
//! Everything here is a pure function of its inputs: the generator state is a
//! plain value, each draw is pinned exactly by a spec function, and a byte
//! buffer can stand in for the generator (`BytesRand`), which makes any
//! structure built from it a deterministic function of those bytes.

use vstd::prelude::*;

use crate::ext::push_char;
use crate::DEFAULT_CONTEXT_LENGTH;
use crate::MAX_RANDOM_NUMBER;
use crate::MAX_RANDOM_SIZE;
use crate::RailcarError;

verus! {

/// Probabilities are fixed-point weights with this value standing for 1.0.
pub const WEIGHT_ONE: u64 = 0x1_0000_0000;

/// Probability 0.5 in fixed-point weight units.
pub const WEIGHT_HALF: u64 = 0x8000_0000;

/// State advance of the core generator (a splitmix-style sequence).
pub open spec fn prng_next_state(s: u64) -> u64 {
    vstd::wrapping::u64_specs::wrapping_add(s, 0x9E3779B97F4A7C15)
}

/// Output mix applied to an advanced state.
pub open spec fn prng_mix(s: u64) -> u64 {
    let z1 = vstd::wrapping::u64_specs::wrapping_mul(s ^ (s >> 30u64), 0xBF58476D1CE4E5B9);
    let z2 = vstd::wrapping::u64_specs::wrapping_mul(z1 ^ (z1 >> 27u64), 0x94D049BB133111EB);
    z2 ^ (z2 >> 31u64)
}

/// Core seeded pseudo-random generator. The whole behaviour is pinned by
/// `prng_next_state` and `prng_mix`, so every draw is a pure function of the
/// seed.
#[derive(Clone, Debug)]
pub struct Prng {
    pub state: u64,
}

impl Prng {
    pub fn with_seed(seed: u64) -> (r: Prng)
        ensures
            r.state == seed,
    {
        Prng { state: seed }
    }

    /// Draw the next 64-bit value.
    pub fn next(&mut self) -> (r: u64)
        ensures
            final(self).state == prng_next_state(old(self).state),
            r == prng_mix(final(self).state),
    {
        self.state = self.state.wrapping_add(0x9E3779B97F4A7C15);
        let s: u64 = self.state;
        let z1: u64 = (s ^ (s >> 30u64)).wrapping_mul(0xBF58476D1CE4E5B9);
        let z2: u64 = (z1 ^ (z1 >> 27u64)).wrapping_mul(0x94D049BB133111EB);
        z2 ^ (z2 >> 31u64)
    }
}

/// The 64-bit value held little-endian in the first 8 bytes of `s`.
pub open spec fn spec_u64_le(s: Seq<u8>) -> u64
    recommends
        s.len() >= 8,
{
    (s[0] as u64) | ((s[1] as u64) << 8u64) | ((s[2] as u64) << 16u64) | ((s[3] as u64) << 24u64)
        | ((s[4] as u64) << 32u64) | ((s[5] as u64) << 40u64) | ((s[6] as u64) << 48u64) | ((
    s[7] as u64) << 56u64)
}

/// Read a little-endian `u64` from the first 8 bytes of `bytes`.
pub fn next_u64(bytes: &[u8]) -> (r: u64)
    requires
        bytes@.len() >= 8,
    ensures
        r == spec_u64_le(bytes@),
{
    (bytes[0] as u64) | ((bytes[1] as u64) << 8u64) | ((bytes[2] as u64) << 16u64) | ((
    bytes[3] as u64) << 24u64) | ((bytes[4] as u64) << 32u64) | ((bytes[5] as u64) << 40u64) | ((
    bytes[6] as u64) << 48u64) | ((bytes[7] as u64) << 56u64)
}

/// A generator backed by a byte buffer: the first 8 bytes seed the fallback
/// generator, later draws consume 8 bytes at a time until the buffer runs
/// out, then fall back. A structure sampled through this is a deterministic
/// function of the buffer.
#[derive(Clone, Debug)]
pub struct BytesRand {
    pub buf: Vec<u8>,
    pub pointer: usize,
    pub rand: Prng,
}

impl BytesRand {
    /// True when the next draw still comes from the buffer.
    pub open spec fn spec_has_buffered(&self) -> bool {
        self.buf@.len() - self.pointer >= 8
    }

    pub fn new(bytes: &[u8]) -> (r: BytesRand)
        requires
            bytes@.len() >= 8,
        ensures
            r.buf@ == bytes@,
            r.pointer == 8,
            r.rand.state == spec_u64_le(bytes@),
    {
        let seed = next_u64(bytes);
        BytesRand { buf: vstd::slice::slice_to_vec(bytes), pointer: 8, rand: Prng::with_seed(seed) }
    }

    /// Draw the next 64-bit value: buffered bytes first, then the fallback
    /// generator.
    pub fn next(&mut self) -> (r: u64)
        requires
            old(self).pointer <= old(self).buf@.len(),
        ensures
            final(self).buf == old(self).buf,
            old(self).spec_has_buffered() ==> {
                &&& r == spec_u64_le(old(self).buf@.skip(old(self).pointer as int))
                &&& final(self).pointer == old(self).pointer + 8
                &&& final(self).rand == old(self).rand
            },
            !old(self).spec_has_buffered() ==> {
                &&& final(self).rand.state == prng_next_state(old(self).rand.state)
                &&& r == prng_mix(final(self).rand.state)
                &&& final(self).pointer == old(self).pointer
            },
            final(self).pointer <= final(self).buf@.len(),
    {
        if self.buf.len() - self.pointer >= 8 {
            let window: &[u8] = self.buf.as_slice();
            let p = self.pointer;
            let r = (window[p] as u64) | ((window[p + 1] as u64) << 8u64) | ((window[p
                + 2] as u64) << 16u64) | ((window[p + 3] as u64) << 24u64) | ((window[p
                + 4] as u64) << 32u64) | ((window[p + 5] as u64) << 40u64) | ((window[p
                + 6] as u64) << 48u64) | ((window[p + 7] as u64) << 56u64);
            assert(r == spec_u64_le(self.buf@.skip(p as int)));
            self.pointer = p + 8;
            r
        } else {
            self.rand.next()
        }
    }
}

/// A draw source: either the seeded generator or a byte-buffer-backed one.
/// All sampling in the crate goes through this type, so everything sampled is
/// a pure function of the source's starting value.
#[derive(Clone, Debug)]
pub enum Rand {
    Std(Prng),
    Bytes(BytesRand),
}

/// Internal consistency of a draw source.
pub open spec fn rand_wf(r: Rand) -> bool {
    match r {
        Rand::Std(_) => true,
        Rand::Bytes(b) => b.pointer <= b.buf@.len(),
    }
}

/// The source after one draw: a pure function of its value.
pub open spec fn spec_rand_step(r: Rand) -> Rand {
    match r {
        Rand::Std(p) => Rand::Std(Prng { state: prng_next_state(p.state) }),
        Rand::Bytes(b) => if b.buf@.len() - b.pointer >= 8 {
            Rand::Bytes(BytesRand { buf: b.buf, pointer: (b.pointer + 8) as usize, rand: b.rand })
        } else {
            Rand::Bytes(
                BytesRand {
                    buf: b.buf,
                    pointer: b.pointer,
                    rand: Prng { state: prng_next_state(b.rand.state) },
                },
            )
        },
    }
}

/// The value one draw yields: a pure function of the source.
pub open spec fn spec_rand_value(r: Rand) -> u64 {
    match r {
        Rand::Std(p) => prng_mix(prng_next_state(p.state)),
        Rand::Bytes(b) => if b.buf@.len() - b.pointer >= 8 {
            spec_u64_le(b.buf@.skip(b.pointer as int))
        } else {
            prng_mix(prng_next_state(b.rand.state))
        },
    }
}

impl Rand {
    pub fn with_seed(seed: u64) -> (r: Rand)
        ensures
            r == Rand::Std(Prng { state: seed }),
            rand_wf(r),
    {
        Rand::Std(Prng::with_seed(seed))
    }

    pub fn from_bytes(bytes: &[u8]) -> (r: Rand)
        requires
            bytes@.len() >= 8,
        ensures
            rand_wf(r),
            r is Bytes,
    {
        Rand::Bytes(BytesRand::new(bytes))
    }

    /// Draw the next 64-bit value: both the value and the stepped source
    /// are pure functions of the source, so every draw is deterministic.
    pub fn next(&mut self) -> (r: u64)
        requires
            rand_wf(*old(self)),
        ensures
            rand_wf(*final(self)),
            *final(self) == spec_rand_step(*old(self)),
            r == spec_rand_value(*old(self)),
    {
        match self {
            Rand::Std(prng) => {
                let r = prng.next();
                proof {
                    assert(*self == Rand::Std(Prng { state: prng_next_state(old(self)->Std_0.state) }));
                }
                r
            },
            Rand::Bytes(bytes_rand) => {
                let r = bytes_rand.next();
                proof {
                    if old(self)->Bytes_0.spec_has_buffered() {
                        assert(bytes_rand.buf@ == old(self)->Bytes_0.buf@);
                        assert(*self == spec_rand_step(*old(self)));
                    } else {
                        assert(*self == spec_rand_step(*old(self)));
                    }
                }
                r
            },
        }
    }

    /// A fixed-point probability draw in `0 .. WEIGHT_ONE`.
    pub fn next_unit(&mut self) -> (r: u64)
        requires
            rand_wf(*old(self)),
        ensures
            rand_wf(*final(self)),
            *final(self) == spec_rand_step(*old(self)),
            r == spec_rand_value(*old(self)) >> 32u64,
            r < WEIGHT_ONE,
    {
        let v = self.next();
        let r = v >> 32u64;
        assert(r < WEIGHT_ONE) by (bit_vector)
            requires
                r == v >> 32u64,
        ;
        r
    }

    /// Uniform draw from `lo ..= hi`.
    pub fn between(&mut self, lo: u64, hi: u64) -> (r: u64)
        requires
            rand_wf(*old(self)),
            lo <= hi,
            hi < u64::MAX,
        ensures
            rand_wf(*final(self)),
            *final(self) == spec_rand_step(*old(self)),
            r == (lo + spec_rand_value(*old(self)) % ((hi - lo + 1) as u64)) as u64,
            lo <= r <= hi,
    {
        let v = self.next();
        lo + v % (hi - lo + 1)
    }

    /// Uniform draw from `0 .. n`.
    pub fn below(&mut self, n: u64) -> (r: u64)
        requires
            rand_wf(*old(self)),
            n > 0,
        ensures
            rand_wf(*final(self)),
            *final(self) == spec_rand_step(*old(self)),
            r == spec_rand_value(*old(self)) % n,
            r < n,
    {
        let v = self.next();
        v % n
    }

    /// Uniform index into a collection of length `n`.
    pub fn pick_index(&mut self, n: usize) -> (r: usize)
        requires
            rand_wf(*old(self)),
            n > 0,
        ensures
            rand_wf(*final(self)),
            *final(self) == spec_rand_step(*old(self)),
            r == spec_rand_value(*old(self)) % (n as u64),
            r < n,
    {
        self.below(n as u64) as usize
    }

    /// True with fixed-point probability `p` (out of `WEIGHT_ONE`).
    pub fn coinflip(&mut self, p: u64) -> (r: bool)
        requires
            rand_wf(*old(self)),
        ensures
            rand_wf(*final(self)),
            *final(self) == spec_rand_step(*old(self)),
            r == ((spec_rand_value(*old(self)) >> 32u64) < p),
    {
        self.next_unit() < p
    }
}

/// A discrete probability distribution: keys paired with fixed-point
/// weights, walked in stored order. Construction keeps keys unique and the
/// order deterministic, so sampling is a pure function of the draw source.
#[derive(Clone, Debug)]
pub struct Distribution<K> {
    pub entries: Vec<(K, u64)>,
}

/// No key occurs twice.
pub open spec fn spec_keys_unique<K>(entries: Seq<(K, u64)>) -> bool {
    forall|i: int, j: int|
        0 <= i < j < entries.len() ==> (#[trigger] entries[i]).0 != (#[trigger] entries[j]).0
}

/// Sum of the weights of `entries[0 .. n]`.
pub open spec fn spec_weight_sum_to<K>(entries: Seq<(K, u64)>, n: int) -> int
    decreases n,
{
    if n <= 0 {
        0
    } else {
        spec_weight_sum_to(entries, n - 1) + entries[n - 1].1
    }
}

/// Sum of all weights.
pub open spec fn spec_weight_sum<K>(entries: Seq<(K, u64)>) -> int {
    spec_weight_sum_to(entries, entries.len() as int)
}

proof fn lemma_weight_sum_to_nonneg<K>(entries: Seq<(K, u64)>, n: int)
    ensures
        spec_weight_sum_to(entries, n) >= 0,
    decreases n,
{
    if n > 0 {
        lemma_weight_sum_to_nonneg(entries, n - 1);
    }
}

/// `p * rem / WEIGHT_ONE`: the share of `rem` a fixed-point probability `p`
/// takes.
pub open spec fn spec_weight_share(p: int, rem: int) -> int {
    (p * rem) / (WEIGHT_ONE as int)
}

/// What remains of the unit after the first `i` stick-breaking cuts, each cut
/// taking the drawn share of what was left: the weights `redistribute` hands
/// out are the successive differences, and the last key takes the rest.
pub open spec fn spec_stick_rem(r: Rand, i: int) -> int
    decreases i,
{
    if i <= 0 {
        WEIGHT_ONE as int
    } else {
        let rem = spec_stick_rem(r, i - 1);
        let p = spec_rand_value(spec_rand_steps(r, i - 1)) >> 32u64;
        rem - spec_weight_share(p as int, rem)
    }
}

/// `p * rem / WEIGHT_ONE`, a share of `rem` proportional to the fixed-point
/// probability `p`.
fn weight_share(p: u64, rem: u64) -> (r: u64)
    requires
        p < WEIGHT_ONE,
    ensures
        r <= rem,
        r == ((p as int) * (rem as int)) / (WEIGHT_ONE as int),
{
    proof {
        assert((p as int) * (rem as int) <= (WEIGHT_ONE as int) * (u64::MAX as int)) by (
        nonlinear_arith)
            requires
                p < WEIGHT_ONE,
                rem <= u64::MAX,
        ;
    }
    let wide: u128 = (p as u128) * (rem as u128);
    let share: u128 = wide / (WEIGHT_ONE as u128);
    proof {
        assert((p as int) * (rem as int) <= (WEIGHT_ONE as int - 1) * (rem as int)) by (
        nonlinear_arith)
            requires
                p < WEIGHT_ONE,
        ;
        assert(((WEIGHT_ONE as int - 1) * (rem as int)) / (WEIGHT_ONE as int) <= rem as int) by (
        nonlinear_arith);
        vstd::arithmetic::div_mod::lemma_div_is_ordered(
            (p as int) * (rem as int),
            (WEIGHT_ONE as int - 1) * (rem as int),
            WEIGHT_ONE as int,
        );
    }
    share as u64
}

impl<K> Distribution<K> {
    /// The empty distribution.
    pub fn new() -> (r: Distribution<K>)
        ensures
            r.entries@.len() == 0,
    {
        Distribution { entries: Vec::new() }
    }

    pub fn len(&self) -> (r: usize)
        ensures
            r == self.entries@.len(),
    {
        self.entries.len()
    }

    pub fn is_empty(&self) -> (r: bool)
        ensures
            r == (self.entries@.len() == 0),
    {
        self.entries.len() == 0
    }

    /// Overwrite the weights with a fresh random probability vector that sums
    /// to exactly `WEIGHT_ONE` (stick-breaking: each key but the last takes
    /// the drawn share of what remains; the last takes the rest, so every
    /// weight is pinned by the draw source). Keys and their order are
    /// untouched.
    pub fn redistribute(&mut self, rand: &mut Rand)
        requires
            rand_wf(*old(rand)),
            old(self).entries@.len() > 0,
        ensures
            rand_wf(*final(rand)),
            final(self).entries@.len() == old(self).entries@.len(),
            forall|i: int|
                0 <= i < final(self).entries@.len() ==> (#[trigger] final(self).entries@[i]).0
                    == old(self).entries@[i].0,
            spec_weight_sum(final(self).entries@) == WEIGHT_ONE,
            *final(rand) == spec_rand_steps(*old(rand), old(self).entries@.len() - 1),
            forall|i: int|
                0 <= i < old(self).entries@.len() - 1 ==> (#[trigger] final(self).entries@[i]).1
                    == spec_stick_rem(*old(rand), i) - spec_stick_rem(*old(rand), i + 1),
            (final(self).entries@[old(self).entries@.len() - 1]).1 == spec_stick_rem(
                *old(rand),
                old(self).entries@.len() - 1,
            ),
    {
        let n = self.entries.len();
        let ghost rand0 = *rand;
        let mut remaining: u64 = WEIGHT_ONE;
        let mut idx: usize = 0;
        while idx < n
            invariant
                rand_wf(*rand),
                idx <= n,
                n == self.entries@.len(),
                n > 0,
                forall|i: int|
                    0 <= i < n ==> (#[trigger] self.entries@[i]).0 == old(self).entries@[i].0,
                spec_weight_sum_to(self.entries@, idx as int) + remaining == WEIGHT_ONE,
                idx == n ==> remaining == 0,
                idx < n ==> *rand == spec_rand_steps(rand0, idx as int),
                idx < n ==> remaining == spec_stick_rem(rand0, idx as int),
                idx == n ==> *rand == spec_rand_steps(rand0, n as int - 1),
                forall|i: int|
                    0 <= i < idx && i < n - 1 ==> (#[trigger] self.entries@[i]).1 == spec_stick_rem(
                        rand0,
                        i,
                    ) - spec_stick_rem(rand0, i + 1),
                idx == n ==> (self.entries@[n as int - 1]).1 == spec_stick_rem(rand0, n as int - 1),
            decreases n - idx,
        {
            let w: u64 = if idx == n - 1 {
                remaining
            } else {
                let p = rand.next_unit();
                proof {
                    assert(spec_rand_steps(rand0, idx as int + 1) == spec_rand_step(
                        spec_rand_steps(rand0, idx as int),
                    ));
                }
                weight_share(p, remaining)
            };
            let ghost pre = self.entries@;
            let pair = self.entries.remove(idx);
            self.entries.insert(idx, (pair.0, w));
            proof {
                assert(self.entries@ =~= pre.update(idx as int, (pre[idx as int].0, w)));
                lemma_weight_sum_to_congruent(self.entries@, pre, idx as int);
                assert(spec_weight_sum_to(self.entries@, idx as int + 1) == spec_weight_sum_to(
                    pre,
                    idx as int,
                ) + w);
            }
            remaining = remaining - w;
            idx = idx + 1;
        }
    }

    /// Walk the weights in order, returning the index of the first entry
    /// whose running total exceeds the draw. A single entry is returned
    /// outright (probability 1); an empty distribution is an error, as is a
    /// walk that exhausts the weights (possible only when they sum to less
    /// than `WEIGHT_ONE`).
    pub fn sample_index(&self, rand: &mut Rand) -> (r: Result<usize, RailcarError>)
        requires
            rand_wf(*old(rand)),
        ensures
            rand_wf(*final(rand)),
            match r {
                Ok(idx) => idx < self.entries@.len(),
                Err(_) => self.entries@.len() != 1,
            },
            self.entries@.len() == 1 ==> r == Ok::<usize, RailcarError>(0usize),
            self.entries@.len() == 0 ==> r is Err,
            (self.entries@.len() > 1 && spec_weight_sum(self.entries@) >= WEIGHT_ONE) ==> r is Ok,
            self.entries@.len() <= 1 ==> *final(rand) == *old(rand),
            self.entries@.len() > 1 ==> *final(rand) == spec_rand_step(*old(rand)),
            self.entries@.len() > 1 ==> {
                let p = spec_rand_value(*old(rand)) >> 32u64;
                match r {
                    Ok(idx) => spec_weight_sum_to(self.entries@, idx as int) <= p
                        && spec_weight_sum_to(self.entries@, idx as int + 1) > p,
                    Err(_) => spec_weight_sum(self.entries@) <= p,
                }
            },
    {
        let n = self.entries.len();
        if n == 0 {
            return Err(RailcarError::Unknown("distribution to sample is empty".to_owned()));
        }
        if n == 1 {
            return Ok(0);
        }
        let p = rand.next_unit();
        let mut total: u64 = 0;
        let mut idx: usize = 0;
        while idx < n
            invariant
                rand_wf(*rand),
                idx <= n,
                n == self.entries@.len(),
                n > 1,
                p < WEIGHT_ONE,
                *rand == spec_rand_step(*old(rand)),
                p == spec_rand_value(*old(rand)) >> 32u64,
                total == spec_weight_sum_to(self.entries@, idx as int),
                total <= p,
            decreases n - idx,
        {
            let w = self.entries[idx].1;
            proof {
                lemma_weight_sum_to_nonneg(self.entries@, idx as int);
                assert(spec_weight_sum_to(self.entries@, idx as int + 1) == total + w);
                if total as int + w as int > u64::MAX as int {
                    assert(total as int + w as int > p as int);
                }
            }
            if w > u64::MAX - total {
                // the running total would overflow, so it certainly exceeds
                // the draw
                return Ok(idx);
            }
            total = total + w;
            if p < total {
                return Ok(idx);
            }
            idx = idx + 1;
        }
        proof {
            assert(spec_weight_sum(self.entries@) <= p);
        }
        Err(RailcarError::Unknown("sampling error".to_owned()))
    }
}

/// Sums over a prefix agree when the entries agree on that prefix's weights.
proof fn lemma_weight_sum_to_congruent<K>(a: Seq<(K, u64)>, b: Seq<(K, u64)>, n: int)
    requires
        n <= a.len(),
        n <= b.len(),
        forall|i: int| 0 <= i < n ==> (#[trigger] a[i]).1 == b[i].1,
    ensures
        spec_weight_sum_to(a, n) == spec_weight_sum_to(b, n),
    decreases n,
{
    if n > 0 {
        lemma_weight_sum_to_congruent(a, b, n - 1);
    }
}

/// Sample a value of type `T` from a description of type `Self`.
pub trait TrySample<T> {
    fn sample(&self, rand: &mut Rand) -> Result<T, RailcarError>;
}

/// Sample an integer-valued numeric constant in `0 .. MAX_RANDOM_NUMBER`.
pub fn number(rand: &mut Rand) -> (r: u64)
    requires
        rand_wf(*old(rand)),
    ensures
        rand_wf(*final(rand)),
        r < MAX_RANDOM_NUMBER,
{
    rand.below(MAX_RANDOM_NUMBER)
}

/// Sample a size in `0 ..= MAX_RANDOM_SIZE + 1`.
pub fn size(rand: &mut Rand) -> (r: usize)
    requires
        rand_wf(*old(rand)),
    ensures
        rand_wf(*final(rand)),
        r <= MAX_RANDOM_SIZE + 1,
{
    rand.between(0, (MAX_RANDOM_SIZE + 1) as u64) as usize
}

/// Sample a fair boolean.
pub fn boolean(rand: &mut Rand) -> (r: bool)
    requires
        rand_wf(*old(rand)),
    ensures
        rand_wf(*final(rand)),
{
    rand.coinflip(WEIGHT_HALF)
}

/// The source after `n` draws.
pub open spec fn spec_rand_steps(r: Rand, n: int) -> Rand
    decreases n,
{
    if n <= 0 {
        r
    } else {
        spec_rand_step(spec_rand_steps(r, n - 1))
    }
}

/// Byte `k` (little-endian) of a drawn word.
pub open spec fn spec_le_byte(v: u64, k: int) -> u8 {
    (v >> ((8 * k) as u64)) as u8
}

/// True when every character of `s` is printable ASCII.
pub open spec fn spec_printable_ascii(s: Seq<char>) -> bool {
    forall|i: int| 0 <= i < s.len() ==> 32 <= (#[trigger] s[i]) as u32 <= 126
}

/// Sample a printable-ASCII string of length at most `MAX_RANDOM_SIZE + 1`.
pub fn string(rand: &mut Rand) -> (r: String)
    requires
        rand_wf(*old(rand)),
    ensures
        rand_wf(*final(rand)),
        r@.len() <= MAX_RANDOM_SIZE + 1,
        spec_printable_ascii(r@),
{
    let target = size(rand);
    let mut s = String::new();
    let mut i: usize = 0;
    while i < target
        invariant
            rand_wf(*rand),
            i <= target,
            target <= MAX_RANDOM_SIZE + 1,
            s@.len() == i,
            spec_printable_ascii(s@),
        decreases target - i,
    {
        let c = rand.between(32, 126) as u8;
        push_char(&mut s, c as char);
        i = i + 1;
    }
    s
}

/// Fill `bytes` out to `len` (default `DEFAULT_CONTEXT_LENGTH`) with drawn
/// bytes, keeping the existing prefix; a longer buffer is cut to `len` with
/// no draw consumed. The tail is the little-endian bytes of successive
/// draws, so the result is a pure function of the buffer and the source.
#[verifier::rlimit(60)]
#[verifier::spinoff_prover]
pub fn extend_context_byte_seq(rand: &mut Rand, bytes: &mut Vec<u8>, len: Option<usize>)
    requires
        rand_wf(*old(rand)),
    ensures
        rand_wf(*final(rand)),
        final(bytes)@.len() == (match len {
            Option::Some(n) => n,
            Option::None => DEFAULT_CONTEXT_LENGTH,
        }),
        forall|i: int|
            0 <= i < old(bytes)@.len() && i < final(bytes)@.len() ==> final(bytes)@[i] == old(
                bytes,
            )@[i],
        old(bytes)@.len() >= final(bytes)@.len() ==> *final(rand) == *old(rand),
        forall|i: int|
            old(bytes)@.len() <= i < final(bytes)@.len() ==> final(bytes)@[i] == spec_le_byte(
                spec_rand_value(spec_rand_steps(*old(rand), (i - old(bytes)@.len()) / 8)),
                (i - old(bytes)@.len()) % 8,
            ),
{
    let target: usize = match len {
        Option::Some(n) => n,
        Option::None => DEFAULT_CONTEXT_LENGTH,
    };
    let old_len = bytes.len();
    if old_len >= target {
        bytes.truncate(target);
        return ;
    }
    let ghost prefix = bytes@;
    let ghost rand0 = *rand;
    let ghost mut words: int = 0;
    let mut next: usize = old_len;
    while next < target
        invariant
            rand_wf(*rand),
            old_len <= next <= target,
            bytes@.len() == next,
            forall|i: int| 0 <= i < old_len ==> bytes@[i] == prefix[i],
            words == (next - old_len + 7) / 8,
            (next - old_len) % 8 == 0 || next == target,
            *rand == spec_rand_steps(rand0, words),
            forall|i: int|
                old_len <= i < next ==> bytes@[i] == spec_le_byte(
                    spec_rand_value(spec_rand_steps(rand0, (i - old_len) / 8)),
                    (i - old_len) % 8,
                ),
        decreases target - next,
    {
        let step = if target - next < 8 {
            target - next
        } else {
            8
        };
        let ghost rand_before = *rand;
        let v = rand.next();
        proof {
            assert(spec_rand_steps(rand0, words + 1) == spec_rand_step(
                spec_rand_steps(rand0, words),
            ));
            assert(v == spec_rand_value(spec_rand_steps(rand0, words)));
        }
        let mut k: usize = 0;
        while k < step
            invariant
                rand_wf(*rand),
                k <= step,
                0 < step <= 8,
                old_len <= next,
                (next - old_len) % 8 == 0,
                next + step <= target,
                bytes@.len() == next + k,
                v == spec_rand_value(spec_rand_steps(rand0, (next - old_len) / 8)),
                forall|i: int| 0 <= i < old_len ==> bytes@[i] == prefix[i],
                forall|i: int|
                    old_len <= i < next + k ==> bytes@[i] == spec_le_byte(
                        spec_rand_value(spec_rand_steps(rand0, (i - old_len) / 8)),
                        (i - old_len) % 8,
                    ),
            decreases step - k,
        {
            let shift = (8 * k) as u64;
            bytes.push(#[verifier::truncate] ((v >> shift) as u8));
            proof {
                let i = next + k;
                assert((i - old_len) / 8 == (next - old_len) / 8 && (i - old_len) % 8
                    == k as int) by (nonlinear_arith)
                    requires
                        (next - old_len) % 8 == 0,
                        0 <= k < 8,
                        old_len <= next,
                        i == next + k,
                ;
                assert(bytes@[i as int] == spec_le_byte(v, k as int));
            }
            k = k + 1;
        }
        proof {
            words = words + 1;
            assert((next + step - old_len + 7) / 8 == words && ((next + step - old_len) % 8 == 0
                || next + step == target)) by (nonlinear_arith)
                requires
                    (next - old_len) % 8 == 0,
                    words == (next - old_len + 7) / 8 + 1,
                    0 < step <= 8,
                    step == 8 || next + step == target,
                    old_len <= next,
            ;
        }
        next = next + step;
    }
}

/// Sample a fresh context byte buffer of length `len` (default
/// `DEFAULT_CONTEXT_LENGTH`).
pub fn context_byte_seq(rand: &mut Rand, len: Option<usize>) -> (r: Vec<u8>)
    requires
        rand_wf(*old(rand)),
    ensures
        rand_wf(*final(rand)),
        r@.len() == (match len {
            Option::Some(n) => n,
            Option::None => DEFAULT_CONTEXT_LENGTH,
        }),
{
    let mut seq: Vec<u8> = Vec::new();
    extend_context_byte_seq(rand, &mut seq, len);
    seq
}

} // verus!
