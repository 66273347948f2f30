//! The 48-bit generator and the congruential engine underneath it.
//!
//! `JRand` reproduces, bit for bit, the generator the target simulation
//! uses: state steps by `s' = (s * 0x5DEECE66D + 0xB) mod 2^48`, and each
//! draw reads the top bits of the new state.  The spec functions `next48`,
//! `next_bits`, and their derived forms are the mathematical model every
//! contract is stated against.  `LCG` is the generic engine: a multiplier,
//! addend and modulus, with the algebra to compose two recurrences and to
//! jump an arbitrary number of steps ahead in logarithmic time.
use crate::random::mth::{
    from_bits, low_bits32, sig32, sig64, to_bits, wadd, wmul, wrap64, xor64,
};
use vstd::arithmetic::div_mod::lemma_mul_mod_noop_general;
use vstd::arithmetic::power::pow;
use vstd::arithmetic::power2::{lemma2_to64, lemma2_to64_rest, lemma_pow2_adds, lemma_pow2_pos, pow2};
use vstd::prelude::*;

verus! {

/// Multiplier of the target simulation's generator.
pub const JAVA_MULTIPLIER: i64 = 0x5DEECE66D;

/// Addend of the target simulation's generator.
pub const JAVA_ADDEND: i64 = 0xB;

/// One step of the 48-bit recurrence, from any 64-bit word or integer.
#[verifier::opaque]
pub open spec fn next48(s: int) -> int {
    (s * 0x5DEECE66D + 0xB) % 0x1_0000_0000_0000
}

/// The state a generator starts from: the seed's word, with the multiplier
/// folded in when scrambling is asked for.
pub open spec fn initial_state(seed: int, scramble: bool) -> int {
    if scramble {
        xor64(wrap64(seed), 0x5DEECE66D)
    } else {
        wrap64(seed)
    }
}

/// The value of a `bits`-wide draw: the top `bits` bits of the advanced
/// state, before the signed 32-bit reading is applied.
#[verifier::opaque]
pub open spec fn next_bits(s: int, bits: int) -> int {
    next48(s) / pow2((48 - bits) as nat) as int
}

/// The two words `s` and `wrap64(s)` drive the recurrence identically.
#[verifier::rlimit(30)]
pub proof fn lemma_next48_of_wrap(s: int)
    ensures
        next48(wrap64(s)) == next48(s),
{
    reveal(next48);
    let m = 0x1_0000_0000_0000_0000int;
    let w = wrap64(s);
    lemma_mul_mod_noop_general(s, 0x5DEECE66D, m);
    assert(wrap64(w * 0x5DEECE66D) == wrap64(s * 0x5DEECE66D));
    vstd::arithmetic::div_mod::lemma_add_mod_noop(w * 0x5DEECE66D, 0xB, m);
    vstd::arithmetic::div_mod::lemma_add_mod_noop(s * 0x5DEECE66D, 0xB, m);
    assert(wrap64(w * 0x5DEECE66D + 0xB) == wrap64(s * 0x5DEECE66D + 0xB));
    crate::random::mth::lemma_wrap64_keeps_low(w * 0x5DEECE66D + 0xB, 48);
    crate::random::mth::lemma_wrap64_keeps_low(s * 0x5DEECE66D + 0xB, 48);
    assert(pow2(48) == 0x1_0000_0000_0000) by {
        lemma2_to64_rest();
    }
}

/// One step of the fixed 48-bit recurrence on a state word.
fn step48(s: u64) -> (r: u64)
    ensures
        r as int == next48(s as int),
        r < 0x1_0000_0000_0000,
{
    let t = s.wrapping_mul(0x5DEECE66D).wrapping_add(0xB);
    let r = t % 0x1_0000_0000_0000;
    proof {
        reveal(next48);
        assert(t as int == wrap64(s as int * 0x5DEECE66D + 0xB));
        crate::random::mth::lemma_wrap64_keeps_low(s as int * 0x5DEECE66D + 0xB, 48);
        assert(pow2(48) == 0x1_0000_0000_0000) by {
            lemma2_to64_rest();
        }
    }
    r
}

/// The top `bits` bits of a state word below 2^48.
fn top_bits(s: u64, bits: i32) -> (r: u64)
    requires
        1 <= bits <= 32,
        s < 0x1_0000_0000_0000,
    ensures
        r as int == (s as int) / pow2((48 - bits) as nat) as int,
        r < 0x1_0000_0000,
{
    let d = crate::random::mth::pow2_u64((48 - bits) as u32);
    let r = s / d;
    proof {
        lemma_pow2_pos((48 - bits) as nat);
        lemma_pow2_adds((48 - bits) as nat, bits as nat);
        assert(pow2(48) == 0x1_0000_0000_0000 && pow2(32) == 0x1_0000_0000) by {
            lemma2_to64();
            lemma2_to64_rest();
        }
        if bits < 32 {
            vstd::arithmetic::power2::lemma_pow2_strictly_increases(bits as nat, 32);
        }
        vstd::arithmetic::div_mod::lemma_multiply_divide_lt(
            s as int,
            pow2((48 - bits) as nat) as int,
            pow2(bits as nat) as int,
        );
    }
    r
}

/// Whether one rejection-sampling candidate is accepted: only draws in the
/// biased tail of the 31-bit range, where `bits - bits % n + n - 1` would
/// run past the signed 32-bit maximum, are rejected.
pub open spec fn accept31(bits: int, n: int) -> bool {
    bits - bits % n + n - 1 < 0x8000_0000
}

/// The rejection-sampling rounds of a bounded draw: step, take 31 bits,
/// reduce mod `n`; re-draw while the candidate is rejected and fuel is
/// left.  Returns the final state and the value.
pub open spec fn bound_loop(s: int, n: int, fuel: nat) -> (int, int)
    decreases fuel,
{
    let bits = next_bits(s, 31);
    let v = bits % n;
    if fuel == 0 || accept31(bits, n) {
        (next48(s), v)
    } else {
        bound_loop(next48(s), n, (fuel - 1) as nat)
    }
}

/// Final state and value of a bounded draw on bound `n`: one scaled 31-bit
/// draw when `n` is zero or a power of two, rejection sampling otherwise,
/// with one round of fuel per state of the 48-bit recurrence.
pub open spec fn bounded_of(s: int, n: int) -> (int, int) {
    if ((n - 1) as i32) & (n as i32) == 0 {
        (next48(s), n * next_bits(s, 31) / 0x8000_0000)
    } else {
        bound_loop(s, n, 0x1_0000_0000_0000)
    }
}

/// A 31-bit draw lies in `[0, 2^31)`.
pub proof fn lemma_next_bits31_range(s: int)
    ensures
        0 <= next_bits(s, 31) < 0x8000_0000,
        sig32(next_bits(s, 31)) == next_bits(s, 31),
{
    reveal(next48);
    reveal(next_bits);
    lemma_pow2_pos(17);
    lemma_pow2_adds(17, 31);
    assert(pow2(17) == 0x2_0000 && pow2(31) == 0x8000_0000 && pow2(48) == 0x1_0000_0000_0000) by {
        lemma2_to64();
        lemma2_to64_rest();
    }
    vstd::arithmetic::div_mod::lemma_multiply_divide_lt(next48(s), pow2(17) as int, pow2(31) as int);
}

/// A bounded draw on a positive bound lands in `[0, n)`, and leaves the
/// state inside the 48-bit range.
pub proof fn lemma_bound_loop_range(s: int, n: int, fuel: nat)
    requires
        1 <= n,
    ensures
        0 <= bound_loop(s, n, fuel).1 < n,
        0 <= bound_loop(s, n, fuel).0 < 0x1_0000_0000_0000,
    decreases fuel,
{
    reveal(next48);
    lemma_next_bits31_range(s);
    if !(fuel == 0 || accept31(next_bits(s, 31), n)) {
        lemma_bound_loop_range(next48(s), n, (fuel - 1) as nat);
    }
}

/// A bounded draw on a positive 32-bit bound lands in `[0, n)`.
pub proof fn lemma_bounded_of_range(s: int, n: int)
    requires
        1 <= n <= 0x7FFF_FFFF,
    ensures
        0 <= bounded_of(s, n).1 < n,
        0 <= bounded_of(s, n).0 < 0x1_0000_0000_0000,
{
    reveal(next48);
    if ((n - 1) as i32) & (n as i32) == 0 {
        lemma_next_bits31_range(s);
        vstd::arithmetic::mul::lemma_mul_strict_inequality(next_bits(s, 31), 0x8000_0000, n);
        vstd::arithmetic::div_mod::lemma_multiply_divide_lt(
            n * next_bits(s, 31),
            0x8000_0000,
            n,
        );
        vstd::arithmetic::mul::lemma_mul_nonnegative(n, next_bits(s, 31));
    } else {
        lemma_bound_loop_range(s, n, 0x1_0000_0000_0000);
    }
}

/// `1 + b + ... + b^(e-1)`: the coefficient the addend of an affine
/// recurrence with multiplier `b` accumulates over `e` steps.
pub open spec fn geom(b: int, e: nat) -> int
    decreases e,
{
    if e == 0 {
        0
    } else {
        1 + b * geom(b, (e - 1) as nat)
    }
}

/// `k` single steps of the 48-bit recurrence.
pub open spec fn iter_next48(s: int, k: nat) -> int
    decreases k,
{
    if k == 0 {
        s
    } else {
        iter_next48(next48(s), (k - 1) as nat)
    }
}

/// The state `k` steps ahead of `s`, in closed form: one application of the
/// affine map the jump-ahead algebra computes for `k` steps.
pub open spec fn advanced48(s: int, k: nat) -> int {
    (s * pow(0x5DEECE66D, k) + geom(0x5DEECE66D, k) * 0xB) % 0x1_0000_0000_0000
}

/// Splitting the step count splits the accumulated addend coefficient:
/// `geom(b, d1 + d2) == pow(b, d2) * geom(b, d1) + geom(b, d2)`.
pub proof fn lemma_geom_adds(b: int, d1: nat, d2: nat)
    ensures
        geom(b, d1 + d2) == pow(b, d2) * geom(b, d1) + geom(b, d2),
    decreases d2,
{
    if d2 == 0 {
        vstd::arithmetic::power::lemma_pow0(b);
        assert(1 * geom(b, d1) == geom(b, d1)) by (nonlinear_arith);
    } else {
        lemma_geom_adds(b, d1, (d2 - 1) as nat);
        let g1 = geom(b, d1);
        let gd = geom(b, (d2 - 1) as nat);
        let p = pow(b, (d2 - 1) as nat);
        assert(geom(b, d1 + d2) == 1 + b * geom(b, (d1 + d2 - 1) as nat));
        assert(geom(b, (d1 + d2 - 1) as nat) == p * g1 + gd);
        assert(pow(b, d2) == b * p) by {
            vstd::arithmetic::power::lemma_pow1(b);
            vstd::arithmetic::power::lemma_pow_adds(b, 1, (d2 - 1) as nat);
        }
        assert(geom(b, d2) == 1 + b * gd);
        assert(1 + b * (p * g1 + gd) == (b * p) * g1 + (1 + b * gd)) by (nonlinear_arith);
    }
}

/// The swap rounds of the simulation's shuffle, from round `i` down to
/// round 2: each round swaps the element at `i - 1` with the element at a
/// drawn index in `[0, i)`.
pub open spec fn shuffle_rounds<T>(s: int, v: Seq<T>, i: nat) -> (int, Seq<T>)
    decreases i,
{
    if i < 2 {
        (s, v)
    } else {
        let d = bounded_of(s, i as int);
        let v2 = v.update(i - 1, v[d.1]).update(d.1, v[i - 1]);
        shuffle_rounds(d.0, v2, (i - 1) as nat)
    }
}

/// Final state and contents after shuffling `v` from state `s`.
pub open spec fn shuffled<T>(s: int, v: Seq<T>) -> (int, Seq<T>) {
    shuffle_rounds(s, v, v.len())
}

/// Shuffling keeps the length of the sequence.
pub proof fn lemma_shuffle_rounds_len<T>(s: int, v: Seq<T>, i: nat)
    requires
        i <= v.len() < 0x8000_0000,
    ensures
        shuffle_rounds(s, v, i).1.len() == v.len(),
    decreases i,
{
    if i >= 2 {
        let d = bounded_of(s, i as int);
        lemma_bounded_of_range(s, i as int);
        let v2 = v.update(i - 1, v[d.1]).update(d.1, v[i - 1]);
        lemma_shuffle_rounds_len(d.0, v2, (i - 1) as nat);
    }
}

/// Shuffling a sequence of slot indices keeps every entry below the bound
/// it started under.
pub proof fn lemma_shuffle_rounds_slots(s: int, v: Seq<usize>, i: nat, b: usize)
    requires
        i <= v.len() < 0x8000_0000,
        forall|j: int| 0 <= j < v.len() ==> (#[trigger] v[j]) < b,
    ensures
        forall|j: int|
            0 <= j < v.len() ==> (#[trigger] shuffle_rounds(s, v, i).1[j]) < b,
    decreases i,
{
    lemma_shuffle_rounds_len(s, v, i);
    if i >= 2 {
        let d = bounded_of(s, i as int);
        lemma_bounded_of_range(s, i as int);
        let v2 = v.update(i - 1, v[d.1]).update(d.1, v[i - 1]);
        assert(v2.len() == v.len());
        assert forall|j: int| 0 <= j < v2.len() implies (#[trigger] v2[j]) < b by {
            assert(v2[j] == v[d.1] || v2[j] == v[i - 1] || v2[j] == v[j]);
        }
        lemma_shuffle_rounds_slots(d.0, v2, (i - 1) as nat, b);
        assert(shuffle_rounds(s, v, i).1 == shuffle_rounds(d.0, v2, (i - 1) as nat).1);
    }
}

/// Shuffling a sequence of pairwise-distinct slot indices keeps its
/// entries pairwise distinct: each round only trades two positions.
pub proof fn lemma_shuffle_rounds_distinct(s: int, v: Seq<usize>, i: nat)
    requires
        i <= v.len() < 0x8000_0000,
        forall|a: int, b: int|
            0 <= a < v.len() && 0 <= b < v.len() && a != b ==> v[a] != v[b],
    ensures
        forall|a: int, b: int|
            0 <= a < v.len() && 0 <= b < v.len() && a != b ==> shuffle_rounds(s, v, i).1[a]
                != shuffle_rounds(s, v, i).1[b],
    decreases i,
{
    lemma_shuffle_rounds_len(s, v, i);
    if i >= 2 {
        let d = bounded_of(s, i as int);
        lemma_bounded_of_range(s, i as int);
        let j = d.1;
        let v2 = v.update(i - 1, v[j]).update(j, v[i - 1]);
        assert(v2.len() == v.len());
        assert forall|a: int, b: int|
            0 <= a < v2.len() && 0 <= b < v2.len() && a != b implies v2[a] != v2[b] by {
            let sa: int = if a == j {
                i - 1
            } else if a == i - 1 {
                j
            } else {
                a
            };
            let sb: int = if b == j {
                i - 1
            } else if b == i - 1 {
                j
            } else {
                b
            };
            assert(v2[a] == v[sa]);
            assert(v2[b] == v[sb]);
            assert(sa != sb);
        }
        lemma_shuffle_rounds_distinct(d.0, v2, (i - 1) as nat);
        assert(shuffle_rounds(s, v, i) == shuffle_rounds(d.0, v2, (i - 1) as nat));
        lemma_shuffle_rounds_len(d.0, v2, (i - 1) as nat);
    }
}

/// Remainder with the sign of the dividend, as 32-bit machine division
/// computes it.
pub open spec fn trunc_rem(a: int, n: int) -> int {
    if a >= 0 {
        a % n
    } else {
        -((-a) % n)
    }
}

/// The acceptance test of the stateless rejection loop, evaluated in
/// wrapping 32-bit arithmetic as the simulation does.
pub open spec fn static_accept(bits: int, v: int, n: int) -> bool {
    sig32(bits - v + n - 1) >= 0
}

/// The stateless rejection rounds: candidate bits come from the word as
/// given, and the word steps once per rejected round.
pub open spec fn static_bound_loop(w: int, n: int, fuel: nat) -> int
    decreases fuel,
{
    let bits = sig32(w / 0x2_0000);
    let v = trunc_rem(bits, n);
    if fuel == 0 || static_accept(bits, v, n) {
        v
    } else {
        static_bound_loop(next48(w), n, (fuel - 1) as nat)
    }
}

/// The value of a stateless bounded draw on a word already advanced by the
/// caller: a power-of-two bound scales the word's top 31 bits, the same
/// draw the rejection rounds read; any other bound uses the stateless
/// rejection rounds.
pub open spec fn static_bounded_of(seed: int, n: int) -> int {
    if (n as i32) & ((0 - n) as i32) == n as i32 {
        let bits = sig32(wrap64(seed) / 0x2_0000);
        sig32(sig64(wrap64(n * bits)) / 0x8000_0000)
    } else {
        static_bound_loop(wrap64(seed), n, 0x1_0000_0000_0000)
    }
}

/// The concrete 48-bit generator.  The view of a `JRand` is its state word.
#[derive(Debug, Copy, Clone)]
pub struct JRand {
    pub seed: u64,
}

impl View for JRand {
    type V = int;

    open spec fn view(&self) -> int {
        self.seed as int
    }
}

/// The state after a boolean draw decides `true`: the drawn bit is the top
/// bit of the advanced state.
pub open spec fn bool_of_bits(s: int) -> bool {
    next_bits(s, 1) == 1
}

/// The signed 64-bit value of two chained 32-bit draws.
#[verifier::opaque]
pub open spec fn next_long_of(s: int) -> int {
    sig64(sig32(next_bits(s, 32)) * 0x1_0000_0000 + sig32(next_bits(next48(s), 32)))
}

/// The top `bits` bits of the word one step past `seed`, as a signed 32-bit
/// value; the form every stateless draw below reduces to.
pub open spec fn get_next_of(seed: int, bits: int) -> int {
    sig32(next48(seed) / pow2((48 - bits) as nat) as int)
}

impl JRand {
    /// A generator seeded with scrambling, the simulation's convention.
    pub fn new(seed: i64) -> (r: Self)
        ensures
            r@ == initial_state(seed as int, true),
    {
        Self::new_scramble(seed, true)
    }

    /// A generator seeded with or without scrambling.
    pub fn new_scramble(seed: i64, scramble: bool) -> (r: Self)
        ensures
            r@ == initial_state(seed as int, scramble),
    {
        let mut rand = Self { seed: 0 };
        rand.set_seed(seed, scramble);
        rand
    }

    /// A generator whose state word is taken as given.
    fn of_internal_seed(seed: i64) -> (r: Self)
        ensures
            r@ == initial_state(seed as int, false),
    {
        Self::new_scramble(seed, false)
    }

    /// A generator restarted from a state word captured earlier.
    fn of_scrambled_seed(seed: i64) -> (r: Self)
        ensures
            r@ == initial_state(seed as int, false),
    {
        Self::new_scramble(seed, false)
    }

    /// Re-seed in place, folding in the multiplier when `scramble` is set.
    pub fn set_seed(&mut self, seed: i64, scramble: bool)
        ensures
            final(self)@ == initial_state(seed as int, scramble),
    {
        let b = to_bits(seed);
        self.seed = if scramble {
            b ^ 0x5DEECE66D
        } else {
            b
        };
    }

    /// Advance the state once and return the top `bits` bits of the new
    /// state, read as a signed 32-bit value.
    pub fn next(&mut self, bits: i32) -> (r: i32)
        requires
            1 <= bits <= 32,
        ensures
            final(self)@ == next48(old(self)@),
            r as int == sig32(next_bits(old(self)@, bits as int)),
            final(self)@ < 0x1_0000_0000_0000,
    {
        self.seed = step48(self.seed);
        let t = top_bits(self.seed, bits);
        proof {
            reveal(next_bits);
        }
        low_bits32(t)
    }

    /// Advance the state once and return the new state word.
    pub fn next_seed(&mut self) -> (r: i64)
        ensures
            final(self)@ == next48(old(self)@),
            r as int == final(self)@,
    {
        self.seed = step48(self.seed);
        self.seed as i64
    }

    /// The drawn boolean of a state word that was already advanced.
    pub fn next_bool(seed: i64) -> (r: bool)
        ensures
            r == (wrap64(seed as int) / 0x8000_0000_0000 % 2 == 1),
    {
        to_bits(seed) / 0x8000_0000_0000 % 2 == 1
    }

    /// The drawn 32-bit value of a state word that was already advanced.
    pub fn next_int(seed: i64) -> (r: i32)
        ensures
            r as int == sig32(wrap64(seed as int) / 0x1_0000),
    {
        low_bits32(to_bits(seed) / 0x1_0000)
    }

    /// Step `seed` once and return the top `bits` bits of the new state.
    pub fn get_next(seed: i64, bits: i32) -> (r: i32)
        requires
            1 <= bits <= 32,
        ensures
            r as int == get_next_of(seed as int, bits as int),
    {
        let s = step48(to_bits(seed));
        proof {
            lemma_next48_of_wrap(seed as int);
        }
        let t = top_bits(s, bits);
        low_bits32(t)
    }

    /// Draw one boolean.
    pub fn get_next_bool(&mut self) -> (r: bool)
        ensures
            final(self)@ == next48(old(self)@),
            r == bool_of_bits(old(self)@),
            final(self)@ < 0x1_0000_0000_0000,
    {
        let b = self.next(1);
        proof {
            reveal(next48);
            reveal(next_bits);
            lemma_pow2_pos(47);
            lemma_pow2_adds(47, 1);
            lemma2_to64_rest();
            vstd::arithmetic::div_mod::lemma_multiply_divide_lt(
                next48(old(self)@),
                pow2(47) as int,
                2,
            );
        }
        b == 1
    }

    /// Draw one signed 64-bit value: two chained 32-bit draws, the first
    /// giving the high word.
    pub fn get_next_long(&mut self) -> (r: i64)
        ensures
            final(self)@ == next48(next48(old(self)@)),
            r as int == next_long_of(old(self)@),
            final(self)@ < 0x1_0000_0000_0000,
    {
        let hi = self.next(32);
        let lo = self.next(32);
        let hw = wmul(to_bits(hi as i64), 0x1_0000_0000);
        let w = wadd(hw, to_bits(lo as i64));
        proof {
            reveal(next_long_of);
            let x = hi as int * 0x1_0000_0000;
            lemma_mul_mod_noop_general(hi as int, 0x1_0000_0000, 0x1_0000_0000_0000_0000);
            assert(hw as int == wrap64(x));
            vstd::arithmetic::div_mod::lemma_add_mod_noop(x, lo as int, 0x1_0000_0000_0000_0000);
            assert(w as int == wrap64(x + lo as int));
            assert(sig64(w as int) == sig64(x + lo as int));
        }
        from_bits(w)
    }

    /// Draw a value uniform in `[0, n)`.
    ///
    /// A power-of-two bound scales one 31-bit draw; any other bound uses
    /// rejection sampling, re-drawing while the candidate falls in the
    /// biased tail of the 31-bit range.  The sampling is given one round
    /// per state of the 48-bit recurrence — a full period, after which the
    /// draws could only repeat — and accepts the last candidate outright if
    /// every earlier round rejected.
    pub fn get_next_int_bound(&mut self, n: i32) -> (r: i32)
        requires
            0 <= n,
        ensures
            final(self)@ == bounded_of(old(self)@, n as int).0,
            r as int == bounded_of(old(self)@, n as int).1,
            final(self)@ < 0x1_0000_0000_0000,
    {
        let m = n - 1;
        if (m & n) == 0 {
            let v31 = self.next(31);
            proof {
                lemma_next_bits31_range(old(self)@);
                vstd::arithmetic::mul::lemma_mul_upper_bound(
                    n as int,
                    0x7FFF_FFFF,
                    v31 as int,
                    0x7FFF_FFFF,
                );
                vstd::arithmetic::mul::lemma_mul_nonnegative(n as int, v31 as int);
            }
            let x = (n as u64) * (v31 as u64);
            proof {
                if n > 0 {
                    vstd::arithmetic::mul::lemma_mul_is_commutative(n as int, v31 as int);
                    vstd::arithmetic::mul::lemma_mul_strict_inequality(
                        v31 as int,
                        0x8000_0000,
                        n as int,
                    );
                    vstd::arithmetic::div_mod::lemma_multiply_divide_lt(
                        x as int,
                        0x8000_0000,
                        n as int,
                    );
                }
            }
            let q = x / 0x8000_0000;
            q as i32
        } else {
            proof {
                assert(-1i32 & 0i32 == 0i32) by (bit_vector);
            }
            self.bounded_tail(n, 0x1_0000_0000_0000)
        }
    }

    /// The rejection-sampling rounds of `get_next_int_bound`.
    fn bounded_tail(&mut self, n: i32, fuel: u64) -> (r: i32)
        requires
            1 <= n,
        ensures
            final(self)@ == bound_loop(old(self)@, n as int, fuel as nat).0,
            r as int == bound_loop(old(self)@, n as int, fuel as nat).1,
            final(self)@ < 0x1_0000_0000_0000,
        decreases fuel,
    {
        let bits = self.next(31);
        proof {
            lemma_next_bits31_range(old(self)@);
        }
        let value = bits % n;
        if fuel == 0 || (bits as i64) - (value as i64) + (n as i64) - 1 < 0x8000_0000i64 {
            value
        } else {
            self.bounded_tail(n, fuel - 1)
        }
    }

    /// The value of a bounded draw on a state word that was already
    /// advanced by the caller.
    pub fn next_int_bound(seed: i64, bound: i32) -> (r: i32)
        requires
            1 <= bound,
        ensures
            r as int == static_bounded_of(seed as int, bound as int),
    {
        if (bound & (0 - bound)) == bound {
            let w = to_bits(seed);
            let bits = low_bits32(w / 0x2_0000);
            let p = wmul(to_bits(bound as i64), to_bits(bits as i64));
            proof {
                crate::random::mth::lemma_wrap64_mul_noop(bound as int, bits as int);
                assert(p as int == wrap64(bound as int * bits as int));
            }
            let sh = crate::random::mth::asr(p, 31);
            proof {
                assert(pow2(31) == 0x8000_0000) by {
                    lemma2_to64();
                }
                crate::random::mth::lemma_sig32_of_wrap64(sh as int);
            }
            low_bits32(to_bits(sh))
        } else {
            Self::static_bound_tail(to_bits(seed), bound, 0x1_0000_0000_0000)
        }
    }

    /// The rejection rounds of the stateless bounded draw.
    fn static_bound_tail(w: u64, n: i32, fuel: u64) -> (r: i32)
        requires
            1 <= n,
        ensures
            r as int == static_bound_loop(w as int, n as int, fuel as nat),
        decreases fuel,
    {
        let bits = low_bits32(w / 0x2_0000);
        let v: i32 = if bits >= 0 {
            ((bits as u64) % (n as u64)) as i32
        } else {
            let mag = (-(bits as i64)) as u64;
            (-((mag % (n as u64)) as i64)) as i32
        };
        let sum = (bits as i64) - (v as i64) + (n as i64) - 1;
        let w32 = low_bits32(to_bits(sum));
        proof {
            crate::random::mth::lemma_sig32_of_wrap64(sum as int);
        }
        if fuel == 0 || w32 >= 0 {
            v
        } else {
            Self::static_bound_tail(step48(w), n, fuel - 1)
        }
    }

    /// Shuffle in place by the simulation's convention: walk `i` from the
    /// length down to 2, swapping slot `i - 1` with a drawn slot in
    /// `[0, i)`.
    pub fn shuffle<T: Copy>(&mut self, vec: &mut Vec<T>)
        requires
            old(vec)@.len() < 0x8000_0000,
        ensures
            final(self)@ == shuffled(old(self)@, old(vec)@).0,
            final(vec)@ == shuffled(old(self)@, old(vec)@).1,
    {
        let ghost s0 = self@;
        let ghost v0 = vec@;
        let mut i: usize = vec.len();
        while i >= 2
            invariant
                i <= vec@.len(),
                vec@.len() == v0.len(),
                vec@.len() < 0x8000_0000,
                shuffled(s0, v0) == shuffle_rounds(self@, vec@, i as nat),
            decreases i,
        {
            let ghost spre = self@;
            let j = self.get_next_int_bound(i as i32);
            proof {
                lemma_bounded_of_range(spre, i as int);
            }
            let j = j as usize;
            let a = vec[i - 1];
            let b = vec[j];
            vec[i - 1] = b;
            vec[j] = a;
            i = i - 1;
        }
    }

    /// The signed 64-bit value drawn from a state word that was already
    /// advanced once: its own top 32 bits give the high word, one further
    /// step gives the low word.
    pub fn next_long(seed: i64) -> (r: i64)
        ensures
            r as int == sig64(
                wrap64(seed as int) / 0x1_0000 * 0x1_0000_0000 + next48(seed as int) / 0x1_0000,
            ),
    {
        let w = to_bits(seed);
        let hi = w / 0x1_0000;
        let lo = step48(w) / 0x1_0000;
        proof {
            lemma_next48_of_wrap(seed as int);
        }
        let p = wmul(hi, 0x1_0000_0000);
        let t = wadd(p, lo);
        proof {
            let x = hi as int * 0x1_0000_0000;
            vstd::arithmetic::div_mod::lemma_add_mod_noop(x, lo as int, 0x1_0000_0000_0000_0000);
            assert(t as int == wrap64(x + lo as int));
            assert(sig64(t as int) == sig64(x + lo as int));
        }
        from_bits(t)
    }

    /// Jump `calls` draws ahead (or back, for a negative count) without
    /// materializing the intermediate states.
    #[verifier::spinoff_prover]
    pub fn advance_calls(&mut self, calls: i64)
        ensures
            final(self)@ == advanced48(old(self)@, wrap64(calls as int) as nat),
    {
        let skip = LCG::java().combine_steps(calls);
        self.advance(skip);
        proof {
            lemma_reduced_jump_applies(
                old(self)@,
                wrap64(calls as int) as nat,
                skip.multiplier as int,
                skip.addend as int,
            );
        }
    }

    /// Re-seed through the affine map of `skip`, a combined engine over the
    /// generator's own modulus.
    fn advance(&mut self, skip: LCG)
        requires
            skip.wf(),
            skip.is_power_of_two,
            skip.modulus == 0x1_0000_0000_0000,
        ensures
            final(self)@ == (sig64(old(self)@) * skip.multiplier as int + skip.addend as int)
                % 0x1_0000_0000_0000,
    {
        let s = from_bits(self.seed);
        let n = skip.next_seed(s);
        self.seed = to_bits(n);
    }
}

/// Applying the reduced jump parameters to a state word lands on the
/// closed-form jump: the signed reading of the word agrees with the word
/// modulo 2^48, and the reduced parameters agree with the exact powers.
#[verifier::spinoff_prover]
proof fn lemma_reduced_jump_applies(s: int, k: nat, mult: int, addend: int)
    requires
        0 <= s < 0x1_0000_0000_0000_0000,
        mult == pow(0x5DEECE66D, k) % 0x1_0000_0000_0000,
        addend == (geom(0x5DEECE66D, k) * 0xB) % 0x1_0000_0000_0000,
    ensures
        (sig64(s) * mult + addend) % 0x1_0000_0000_0000 == advanced48(s, k),
{
    let p = pow(0x5DEECE66D, k);
    let g = geom(0x5DEECE66D, k);
    let m = 0x1_0000_0000_0000int;
    crate::random::mth::lemma_wrap64_of_sig64(s);
    crate::random::mth::lemma_wrap64_keeps_low(sig64(s), 48);
    crate::random::mth::lemma_wrap64_keeps_low(s, 48);
    assert(pow2(48) == 0x1_0000_0000_0000) by {
        lemma2_to64_rest();
    }
    assert(sig64(s) % m == s % m);
    lemma_mul_mod_noop_general(sig64(s), p % m, m);
    lemma_mul_mod_noop_general(s, p % m, m);
    lemma_mul_mod_noop_general(s, p, m);
    vstd::arithmetic::div_mod::lemma_add_mod_noop(s * (p % m), (g * 0xB) % m, m);
    vstd::arithmetic::div_mod::lemma_add_mod_noop(s * p, g * 0xB, m);
}

/// Stepping one more time from the `k`-step state is the `k + 1`-step state.
pub proof fn lemma_iter_next48_snoc(s: int, k: nat)
    ensures
        iter_next48(s, k + 1) == next48(iter_next48(s, k)),
    decreases k,
{
    assert(iter_next48(s, k + 1) == iter_next48(next48(s), ((k + 1) - 1) as nat));
    if k == 0 {
        assert(iter_next48(next48(s), 0) == next48(s));
        assert(iter_next48(s, 0) == s);
    } else {
        lemma_iter_next48_snoc(next48(s), (k - 1) as nat);
        assert(iter_next48(s, k) == iter_next48(next48(s), (k - 1) as nat));
    }
}

/// The jump-ahead algebra agrees with single-stepping: from any state in
/// the 48-bit range, the closed-form `k`-step map lands on the same state
/// as `k` applications of the recurrence.
pub proof fn lemma_advanced48_matches_iter(s: int, k: nat)
    requires
        0 <= s < 0x1_0000_0000_0000,
    ensures
        advanced48(s, k) == iter_next48(s, k),
    decreases k,
{
    reveal(next48);
    let b = 0x5DEECE66Dint;
    let m = 0x1_0000_0000_0000int;
    if k == 0 {
        vstd::arithmetic::power::lemma_pow0(b);
        vstd::arithmetic::mul::lemma_mul_basics(s);
        assert(geom(b, 0) * 0xB == 0) by (nonlinear_arith)
            requires
                geom(b, 0) == 0,
        ;
    } else {
        lemma_advanced48_matches_iter(s, (k - 1) as nat);
        lemma_iter_next48_snoc(s, (k - 1) as nat);
        let p = pow(b, (k - 1) as nat);
        let g = geom(b, (k - 1) as nat);
        let x = s * p + g * 0xB;
        assert(pow(b, k) == b * p) by {
            vstd::arithmetic::power::lemma_pow1(b);
            vstd::arithmetic::power::lemma_pow_adds(b, 1, (k - 1) as nat);
        }
        assert(geom(b, k) == 1 + b * g);
        lemma_mul_mod_noop_general(x, b, m);
        vstd::arithmetic::div_mod::lemma_add_mod_noop(x * b, 0xB, m);
        assert(next48(x % m) == (x * b + 0xB) % m) by {
            assert((x % m) * b % m == x * b % m);
        }
        assert(x * b + 0xB == s * (b * p) + (1 + b * g) * 0xB) by (nonlinear_arith)
            requires
                x == s * p + g * 0xB,
        ;
    }
}

/// Odd bases have odd powers.
proof fn lemma_pow_odd(b: int, e: nat)
    requires
        b % 2 == 1,
    ensures
        pow(b, e) % 2 == 1,
    decreases e,
{
    if e == 0 {
        vstd::arithmetic::power::lemma_pow0(b);
    } else {
        lemma_pow_odd(b, (e - 1) as nat);
        assert(pow(b, e) == b * pow(b, (e - 1) as nat)) by {
            vstd::arithmetic::power::lemma_pow1(b);
            vstd::arithmetic::power::lemma_pow_adds(b, 1, (e - 1) as nat);
        }
        lemma_mul_mod_noop_general(b, pow(b, (e - 1) as nat), 2);
    }
}

/// For a multiplier one above a multiple of four, the 2^j-th power sits
/// one above a multiple of 2^(j+2): each squaring gains one further bit.
proof fn lemma_pow_two_adic(b: int, j: nat)
    requires
        b % 4 == 1,
    ensures
        pow(b, pow2(j)) % pow2((j + 2) as nat) as int == 1,
    decreases j,
{
    lemma_pow2_pos(j);
    lemma_pow2_pos((j + 1) as nat);
    lemma_pow2_pos((j + 2) as nat);
    lemma_pow2_pos((j + 3) as nat);
    if j == 0 {
        assert(pow2(0) == 1 && pow2(2) == 4) by {
            lemma2_to64();
        }
        vstd::arithmetic::power::lemma_pow1(b);
    } else {
        lemma_pow_two_adic(b, (j - 1) as nat);
        let p = pow(b, pow2((j - 1) as nat));
        let q = pow2((j + 1) as nat) as int;
        assert(pow(b, pow2(j)) == p * p) by {
            vstd::arithmetic::power2::lemma_pow2_unfold(j);
            vstd::arithmetic::power::lemma_pow_adds(
                b,
                pow2((j - 1) as nat),
                pow2((j - 1) as nat),
            );
        }
        vstd::arithmetic::div_mod::lemma_fundamental_div_mod(p, q);
        let t = p / q;
        assert(p == q * t + 1);
        // (1 + tq)^2 == 1 + 2^(j+2) * (t + t^2 * 2^j), since q = 2^(j+1).
        let q2 = pow2((j + 2) as nat) as int;
        assert(q2 == 2 * q) by {
            vstd::arithmetic::power2::lemma_pow2_unfold((j + 2) as nat);
        }
        assert(q * q == q2 * pow2(j) as int) by {
            lemma_pow2_adds((j + 1) as nat, (j + 1) as nat);
            lemma_pow2_adds((j + 2) as nat, j);
        }
        assert(p * p == q2 * (t + pow2(j) as int * (t * t)) + 1) by (nonlinear_arith)
            requires
                p == q * t + 1,
                q2 == 2 * q,
                q * q == q2 * pow2(j) as int,
        ;
        vstd::arithmetic::div_mod::lemma_mod_multiples_vanish(
            t + pow2(j) as int * (t * t),
            1,
            q2,
        );
        assert(1int % q2 == 1) by {
            vstd::arithmetic::power2::lemma_pow2_strictly_increases(0, (j + 2) as nat);
            vstd::arithmetic::div_mod::lemma_small_mod(1, pow2((j + 2) as nat));
            lemma2_to64();
        }
    }
}

/// The addend coefficient over 2^j steps of an odd multiplier is a
/// multiple of 2^j.
proof fn lemma_geom_two_adic(b: int, j: nat)
    requires
        b % 2 == 1,
    ensures
        geom(b, pow2(j)) % pow2(j) as int == 0,
    decreases j,
{
    lemma_pow2_pos(j);
    if j == 0 {
        assert(pow2(0) == 1) by {
            lemma2_to64();
        }
    } else {
        lemma_pow2_pos((j - 1) as nat);
        lemma_geom_two_adic(b, (j - 1) as nat);
        let half = pow2((j - 1) as nat);
        let g = geom(b, half);
        let p = pow(b, half);
        assert(geom(b, pow2(j)) == p * g + g) by {
            vstd::arithmetic::power2::lemma_pow2_unfold(j);
            lemma_geom_adds(b, half, half);
        }
        lemma_pow_odd(b, half);
        vstd::arithmetic::div_mod::lemma_fundamental_div_mod(g, pow2((j - 1) as nat) as int);
        vstd::arithmetic::div_mod::lemma_fundamental_div_mod(p, 2);
        let u = g / pow2((j - 1) as nat) as int;
        let w = p / 2;
        assert(pow2(j) as int == 2 * pow2((j - 1) as nat) as int) by {
            vstd::arithmetic::power2::lemma_pow2_unfold(j);
        }
        assert(p * g + g == pow2(j) as int * ((w + 1) * u)) by (nonlinear_arith)
            requires
                g == pow2((j - 1) as nat) as int * u,
                p == 2 * w + 1,
                pow2(j) as int == 2 * pow2((j - 1) as nat) as int,
        ;
        vstd::arithmetic::div_mod::lemma_mod_multiples_vanish((w + 1) * u, 0, pow2(j) as int);
    }
}

/// Powers of a value that is one modulo `n` stay one modulo `n`.
proof fn lemma_pow_of_one_mod(x: int, e: nat, n: int)
    requires
        n > 1,
        x % n == 1,
    ensures
        pow(x, e) % n == 1,
    decreases e,
{
    if e == 0 {
        vstd::arithmetic::power::lemma_pow0(x);
        vstd::arithmetic::div_mod::lemma_small_mod(1, n as nat);
    } else {
        lemma_pow_of_one_mod(x, (e - 1) as nat, n);
        assert(pow(x, e) == x * pow(x, (e - 1) as nat)) by {
            vstd::arithmetic::power::lemma_pow1(x);
            vstd::arithmetic::power::lemma_pow_adds(x, 1, (e - 1) as nat);
        }
        lemma_mul_mod_noop_general(x, pow(x, (e - 1) as nat), n);
        vstd::arithmetic::div_mod::lemma_small_mod(1, n as nat);
    }
}

/// One full wrap of the 64-bit step counter is the identity on 48-bit
/// states: the multiplier's order divides 2^46, and the accumulated addend
/// vanishes modulo 2^48.
proof fn lemma_full_cycle(s: int)
    requires
        0 <= s < 0x1_0000_0000_0000,
    ensures
        advanced48(s, pow2(64)) == s,
{
    let b = 0x5DEECE66Dint;
    let n = 0x1_0000_0000_0000int;
    assert(pow2(48) == n && pow2(16) == 0x1_0000) by {
        lemma2_to64();
        lemma2_to64_rest();
    }
    lemma_pow_two_adic(b, 46);
    assert(pow(b, pow2(46)) % n == 1);
    assert(pow(b, pow2(64)) % n == 1) by {
        lemma_pow2_adds(46, 18);
        vstd::arithmetic::power::lemma_pow_multiplies(b, pow2(46), pow2(18));
        lemma_pow_of_one_mod(pow(b, pow2(46)), pow2(18), n);
    }
    lemma_geom_two_adic(b, 64);
    assert(geom(b, pow2(64)) % n == 0) by {
        lemma_pow2_pos(64);
        vstd::arithmetic::div_mod::lemma_fundamental_div_mod(
            geom(b, pow2(64)),
            pow2(64) as int,
        );
        let u = geom(b, pow2(64)) / pow2(64) as int;
        assert(pow2(64) as int == n * pow2(16) as int) by {
            lemma_pow2_adds(48, 16);
        }
        assert(geom(b, pow2(64)) == n * (pow2(16) as int * u)) by (nonlinear_arith)
            requires
                geom(b, pow2(64)) == pow2(64) as int * u,
                pow2(64) as int == n * pow2(16) as int,
        ;
        vstd::arithmetic::div_mod::lemma_mod_multiples_vanish(pow2(16) as int * u, 0, n);
    }
    let bigp = pow(b, pow2(64));
    let bigg = geom(b, pow2(64));
    lemma_mul_mod_noop_general(s, bigp, n);
    lemma_mul_mod_noop_general(bigg, 0xB, n);
    vstd::arithmetic::div_mod::lemma_add_mod_noop(s * bigp, bigg * 0xB, n);
    assert((s * (bigp % n)) % n == s % n) by (nonlinear_arith)
        requires
            bigp % n == 1,
            0 <= s < n,
            s % n == s,
    ;
    assert(((bigg % n) * 0xB) % n == 0) by (nonlinear_arith)
        requires
            bigg % n == 0,
            n > 1,
    ;
    vstd::arithmetic::div_mod::lemma_small_mod(s as nat, n as nat);
}

/// Composing two jumps is jumping the summed count.
#[verifier::spinoff_prover]
proof fn lemma_advanced48_compose(s: int, k1: nat, k2: nat)
    ensures
        advanced48(advanced48(s, k1), k2) == advanced48(s, k1 + k2),
{
    let b = 0x5DEECE66Dint;
    let n = 0x1_0000_0000_0000int;
    let p1 = pow(b, k1);
    let g1 = geom(b, k1);
    let p2 = pow(b, k2);
    let g2 = geom(b, k2);
    let x = s * p1 + g1 * 0xB;
    vstd::arithmetic::power::lemma_pow_adds(b, k1, k2);
    lemma_geom_adds(b, k1, k2);
    assert(pow(b, k1 + k2) == p1 * p2);
    assert(geom(b, k1 + k2) == p2 * g1 + g2);
    lemma_mul_mod_noop_general(x, p2, n);
    assert(((x % n) * p2) % n == (x * p2) % n);
    vstd::arithmetic::div_mod::lemma_add_mod_noop((x % n) * p2, g2 * 0xB, n);
    vstd::arithmetic::div_mod::lemma_add_mod_noop(x * p2, g2 * 0xB, n);
    assert(((x % n) * p2 + g2 * 0xB) % n == (x * p2 + g2 * 0xB) % n);
    assert(x * p2 + g2 * 0xB == s * (p1 * p2) + (p2 * g1 + g2) * 0xB) by (nonlinear_arith)
        requires
            x == s * p1 + g1 * 0xB,
    ;
}

/// Jumping backward and stepping forward return to the start: for any
/// 48-bit state, a jump of `-j` draws followed by `j` single steps is the
/// identity, because the backward jump wraps to `2^64 - j` steps and one
/// full wrap of the counter is the identity.
pub proof fn lemma_advance_back_roundtrip(s: int, j: nat)
    requires
        0 <= s < 0x1_0000_0000_0000,
        1 <= j <= 0x1_0000_0000_0000_0000,
    ensures
        iter_next48(advanced48(s, (0x1_0000_0000_0000_0000 - j) as nat), j) == s,
{
    let k1 = (0x1_0000_0000_0000_0000 - j) as nat;
    let a = advanced48(s, k1);
    assert(0 <= a < 0x1_0000_0000_0000) by {
        vstd::arithmetic::div_mod::lemma_mod_bound(
            s * pow(0x5DEECE66D, k1) + geom(0x5DEECE66D, k1) * 0xB,
            0x1_0000_0000_0000,
        );
    }
    lemma_advanced48_matches_iter(a, j);
    lemma_advanced48_compose(s, k1, j);
    assert(k1 + j == pow2(64)) by {
        lemma2_to64_rest();
    }
    lemma_full_cycle(s);
}

/// Whether a nonnegative modulus is a power of two no wider than a signed
/// 64-bit word can hold.  A zero modulus stands for 2^64.
pub open spec fn pow2_modulus(m: int) -> bool {
    exists|e: nat| e <= 62 && m == pow2(e)
}

/// An odd factor of a power of two can only be one.
proof fn lemma_pow2_odd_factor(w: int, k: nat, e: nat)
    requires
        w >= 1,
        w % 2 == 1,
        w * pow2(k) == pow2(e),
    ensures
        w == 1 && k == e,
    decreases e,
{
    lemma_pow2_pos(k);
    lemma_pow2_pos(e);
    lemma2_to64();
    if e == 0 {
        assert(w * pow2(k) == 1);
        assert(w == 1 && pow2(k) == 1) by (nonlinear_arith)
            requires
                w >= 1,
                pow2(k) >= 1,
                w * pow2(k) == 1,
        ;
        if k != 0 {
            vstd::arithmetic::power2::lemma_pow2_strictly_increases(0, k);
        }
    } else {
        vstd::arithmetic::power2::lemma_pow2_unfold(e);
        if k == 0 {
            assert(w * 1 == w) by (nonlinear_arith);
            assert(w == 2 * pow2((e - 1) as nat));
            assert(w % 2 == 0) by (nonlinear_arith)
                requires
                    w == 2 * pow2((e - 1) as nat),
                    pow2((e - 1) as nat) >= 1,
            ;
        } else {
            vstd::arithmetic::power2::lemma_pow2_unfold(k);
            assert(w * pow2(k) == 2 * (w * pow2((k - 1) as nat))) by (nonlinear_arith)
                requires
                    pow2(k) == 2 * pow2((k - 1) as nat),
            ;
            assert(w * pow2((k - 1) as nat) == pow2((e - 1) as nat));
            lemma_pow2_odd_factor(w, (k - 1) as nat, (e - 1) as nat);
        }
    }
}

/// Whether `value` is zero or a power of two: the test the engine uses to
/// pick mask reduction over remainder reduction.
fn is_power_of_two(value: i64) -> (r: bool)
    requires
        0 <= value,
    ensures
        r == (value == 0 || pow2_modulus(value as int)),
{
    let t = trailing_zeros_of(value);
    t.0
}

/// Strip the factors of two out of a nonnegative value: whether it is zero
/// or a power of two, and if so the exponent (64 for zero, matching the
/// trailing-zero count of a 64-bit word).
fn trailing_zeros_of(value: i64) -> (r: (bool, u32))
    requires
        0 <= value,
    ensures
        r.0 == (value == 0 || pow2_modulus(value as int)),
        value == 0 ==> r.0 && r.1 == 64,
        value > 0 && r.0 ==> r.1 <= 62 && value as int == pow2(r.1 as nat),
{
    if value == 0 {
        return (true, 64);
    }
    let mut w = value as u64;
    let mut k: u32 = 0;
    proof {
        assert(pow2(0) == 1) by {
            lemma2_to64();
        }
    }
    while w % 2 == 0
        invariant
            1 <= w,
            k <= 63,
            value as int == w * pow2(k as nat),
            value > 0,
        decreases w,
    {
        proof {
            vstd::arithmetic::power2::lemma_pow2_unfold((k + 1) as nat);
            assert((w / 2) * (2 * pow2(k as nat)) == w * pow2(k as nat)) by (nonlinear_arith)
                requires
                    w % 2 == 0,
            ;
            assert(k < 63) by {
                if k == 63 {
                    lemma_pow2_pos(63);
                    lemma2_to64_rest();
                    assert(w * pow2(63) >= 2 * pow2(63)) by (nonlinear_arith)
                        requires
                            w >= 2,
                            pow2(63) >= 1,
                    ;
                }
            }
        }
        w = w / 2;
        k = k + 1;
    }
    if w == 1 {
        proof {
            assert(1 * pow2(k as nat) == pow2(k as nat)) by (nonlinear_arith);
            assert(k <= 62) by {
                if k == 63 {
                    lemma2_to64_rest();
                }
            }
            assert(pow2_modulus(value as int));
        }
        (true, k)
    } else {
        proof {
            if pow2_modulus(value as int) {
                let e = choose|e: nat| e <= 62 && value as int == pow2(e);
                lemma_pow2_odd_factor(w as int, k as nat, e);
            }
        }
        (false, 0)
    }
}

/// A generic congruential engine: `next(s) = (s * multiplier + addend) mod
/// modulus`, with the modulus kept beside the reduction strategy it allows.
/// A modulus of zero stands for 2^64.
#[derive(Debug, Copy, Clone)]
pub struct LCG {
    pub multiplier: i64,
    pub addend: i64,
    pub modulus: i64,
    pub is_power_of_two: bool,
    pub trailing_zeros: i32,
}

impl LCG {
    /// The derived fields follow the modulus: the flag records whether the
    /// modulus is zero or a power of two, and the trailing-zero count
    /// records which power.
    pub open spec fn wf(&self) -> bool {
        &&& self.modulus >= 0
        &&& self.is_power_of_two == (self.modulus == 0 || pow2_modulus(self.modulus as int))
        &&& (self.modulus == 0 ==> self.trailing_zeros == 64)
        &&& (self.modulus > 0 && self.is_power_of_two ==> 0 <= self.trailing_zeros <= 62
            && self.modulus as int == pow2(self.trailing_zeros as nat))
        &&& (!self.is_power_of_two ==> self.trailing_zeros == -1)
    }

    /// An engine from its three parameters; the reduction strategy is
    /// derived from the modulus.
    pub fn new(multiplier: i64, addend: i64, modulus: i64) -> (r: Self)
        requires
            0 <= modulus,
        ensures
            r.multiplier == multiplier,
            r.addend == addend,
            r.modulus == modulus,
            r.wf(),
    {
        let t = trailing_zeros_of(modulus);
        Self {
            multiplier,
            addend,
            modulus,
            is_power_of_two: t.0,
            trailing_zeros: if t.0 {
                t.1 as i32
            } else {
                -1
            },
        }
    }

    /// The engine of the target simulation: multiplier `0x5DEECE66D`,
    /// addend `0xB`, modulus 2^48.
    pub fn java() -> (r: Self)
        ensures
            r.multiplier == 0x5DEECE66D,
            r.addend == 0xB,
            r.modulus == 0x1_0000_0000_0000,
            r.is_power_of_two,
            r.trailing_zeros == 48,
            r.wf(),
    {
        let r = Self::new(0x5DEECE66D, 0xB, 0x1_0000_0000_0000);
        proof {
            assert(pow2(48) == 0x1_0000_0000_0000) by {
                lemma2_to64_rest();
            }
            assert(pow2_modulus(0x1_0000_0000_0000));
            lemma_pow2_exponent_unique(r.trailing_zeros as nat, 48);
        }
        r
    }

    /// The smallest of the reference engines with a 23-bit modulus.
    pub fn cc65_m23() -> (r: Self)
        ensures
            r.multiplier == 65793 && r.addend == 4282663 && r.modulus == 0x80_0000 && r.wf(),
    {
        Self::new(65793, 4282663, 0x80_0000)
    }

    /// The classic dialect engine with a 24-bit modulus.
    pub fn visual_basic() -> (r: Self)
        ensures
            r.multiplier == 1140671485 && r.addend == 12820163 && r.modulus == 0x100_0000
                && r.wf(),
    {
        Self::new(1140671485, 12820163, 0x100_0000)
    }

    /// A reference engine over the Mersenne modulus 2^31 - 1.
    pub fn rtl_uniform() -> (r: Self)
        ensures
            r.multiplier == 2147483629 && r.addend == 2147483587 && r.modulus == 0x7FFF_FFFF
                && r.wf(),
    {
        Self::new(2147483629, 2147483587, 0x7FFF_FFFF)
    }

    /// The minimal-standard engine in its older parameterization.
    pub fn minstd_rand0_c() -> (r: Self)
        ensures
            r.multiplier == 16807 && r.addend == 0 && r.modulus == 0x7FFF_FFFF && r.wf(),
    {
        Self::new(16807, 0, 0x7FFF_FFFF)
    }

    /// The minimal-standard engine in its newer parameterization.
    pub fn minstd_rand_c() -> (r: Self)
        ensures
            r.multiplier == 48271 && r.addend == 0 && r.modulus == 0x7FFF_FFFF && r.wf(),
    {
        Self::new(48271, 0, 0x7FFF_FFFF)
    }

    /// The wider variant of the 23-bit reference engine.
    pub fn cc65_m31() -> (r: Self)
        ensures
            r.multiplier == 16843009 && r.addend == 826366247 && r.modulus == 0x80_0000 && r.wf(),
    {
        Self::new(16843009, 826366247, 0x80_0000)
    }

    /// The infamous multiplicative engine with modulus 2^31.
    pub fn randu() -> (r: Self)
        ensures
            r.multiplier == 65539 && r.addend == 0 && r.modulus == 0x8000_0000 && r.wf(),
    {
        Self::new(65539, 0, 0x8000_0000)
    }

    /// The C library engine with modulus 2^31.
    pub fn glib_c() -> (r: Self)
        ensures
            r.multiplier == 1103515245 && r.addend == 12345 && r.modulus == 0x8000_0000 && r.wf(),
    {
        Self::new(1103515245, 12345, 0x8000_0000)
    }

    /// A 32-bit-modulus reference engine.
    pub fn borland_c() -> (r: Self)
        ensures
            r.multiplier == 22695477 && r.addend == 1 && r.modulus == 0x1_0000_0000 && r.wf(),
    {
        Self::new(22695477, 1, 0x1_0000_0000)
    }

    /// A 32-bit-modulus reference engine.
    pub fn pascal() -> (r: Self)
        ensures
            r.multiplier == 134775813 && r.addend == 1 && r.modulus == 0x1_0000_0000 && r.wf(),
    {
        Self::new(134775813, 1, 0x1_0000_0000)
    }

    /// A 32-bit-modulus reference engine.
    pub fn open_vms() -> (r: Self)
        ensures
            r.multiplier == 69069 && r.addend == 1 && r.modulus == 0x1_0000_0000 && r.wf(),
    {
        Self::new(69069, 1, 0x1_0000_0000)
    }

    /// The textbook 32-bit-modulus engine.
    pub fn numerical_recipes() -> (r: Self)
        ensures
            r.multiplier == 1664525 && r.addend == 1013904223 && r.modulus == 0x1_0000_0000
                && r.wf(),
    {
        Self::new(1664525, 1013904223, 0x1_0000_0000)
    }

    /// A 32-bit-modulus reference engine.
    pub fn ms_visual_c() -> (r: Self)
        ensures
            r.multiplier == 214013 && r.addend == 2531011 && r.modulus == 0x1_0000_0000 && r.wf(),
    {
        Self::new(214013, 2531011, 0x1_0000_0000)
    }

    /// The older seed-uniquifier multiplier, over the full 64-bit word.
    pub fn java_uniquifier_old() -> (r: Self)
        ensures
            r.multiplier == 181783497276652981 && r.addend == 0 && r.modulus == 0 && r.wf(),
    {
        Self::new(181783497276652981, 0, 0)
    }

    /// The newer seed-uniquifier multiplier, over the full 64-bit word.
    pub fn java_uniquifier_new() -> (r: Self)
        ensures
            r.multiplier == 1181783497276652981 && r.addend == 0 && r.modulus == 0 && r.wf(),
    {
        Self::new(1181783497276652981, 0, 0)
    }

    /// The full-word reference engine with both parameters large and odd.
    pub fn mmix() -> (r: Self)
        ensures
            r.multiplier == 364136223846793005 && r.addend == 1442695040888963407 && r.modulus
                == 0 && r.wf(),
    {
        Self::new(364136223846793005, 1442695040888963407, 0)
    }

    /// A full-word reference engine with addend one.
    pub fn newlib_c() -> (r: Self)
        ensures
            r.multiplier == 6364136223846793005 && r.addend == 1 && r.modulus == 0 && r.wf(),
    {
        Self::new(6364136223846793005, 1, 0)
    }

    /// The joke engine: every draw is four.
    pub fn xkcd() -> (r: Self)
        ensures
            r.multiplier == 0 && r.addend == 4 && r.modulus == 0 && r.wf(),
    {
        Self::new(0, 4, 0)
    }

    /// Reduce `n` modulo the modulus: a mask when the modulus is a power of
    /// two, a remainder otherwise — the latter only for operands within
    /// 32-bit range, anything else being an unsupported operation.
    pub fn mod_(&self, n: i64) -> (r: i64)
        requires
            self.wf(),
            self.is_power_of_two || n <= 0x1_0000_0000,
        ensures
            self.modulus > 0 ==> r as int == wrap64(n as int) % self.modulus as int,
            self.modulus == 0 ==> r == n,
    {
        if self.is_power_of_two {
            if self.modulus == 0 {
                n
            } else {
                let wn = to_bits(n);
                let m = (self.modulus as u64) - 1;
                let r = wn & m;
                proof {
                    let k = self.trailing_zeros as nat;
                    assert(m == vstd::bits::low_bits_mask(k));
                    vstd::bits::lemma_u64_low_bits_mask_is_mod(wn, k);
                    lemma_pow2_pos(k);
                    crate::random::mth::lemma_pow2_within_i64(k);
                }
                r as i64
            }
        } else {
            let wn = to_bits(n);
            proof {
                // A negative operand passes the range test and is reduced
                // as its unsigned word.
                lemma_pow2_pos(0);
            }
            (wn % (self.modulus as u64)) as i64
        }
    }
}

impl LCG {
    /// The engine equivalent to applying this one `steps` times, computed
    /// by binary exponentiation over the affine recurrence in O(log steps).
    /// A negative count wraps to its 64-bit pattern, which for a
    /// power-of-two modulus steps the recurrence backward.
    pub fn combine_steps(&self, steps: i64) -> (r: Self)
        requires
            self.wf(),
            self.is_power_of_two,
        ensures
            r.modulus == self.modulus,
            r.wf(),
            self.modulus > 0 ==> r.multiplier as int == pow(
                self.multiplier as int,
                wrap64(steps as int) as nat,
            ) % self.modulus as int,
            self.modulus > 0 ==> r.addend as int == (geom(
                self.multiplier as int,
                wrap64(steps as int) as nat,
            ) * self.addend as int) % self.modulus as int,
            self.modulus == 0 ==> r.multiplier as int == sig64(
                pow(self.multiplier as int, wrap64(steps as int) as nat),
            ),
            self.modulus == 0 ==> r.addend as int == sig64(
                geom(self.multiplier as int, wrap64(steps as int) as nat) * self.addend as int,
            ),
    {
        let ghost b = self.multiplier as int;
        let ghost a0 = self.addend as int;
        let ghost k0: nat = wrap64(steps as int) as nat;
        let mut macc: u64 = 1;
        let mut aacc: u64 = 0;
        let mut im: u64 = to_bits(self.multiplier);
        let mut ia: u64 = to_bits(self.addend);
        let mut k: u64 = to_bits(steps);
        let ghost mut done: nat = 0;
        let ghost mut i: nat = 0;
        proof {
            vstd::arithmetic::power::lemma_pow0(b);
            vstd::arithmetic::power::lemma_pow1(b);
            assert(pow2(0) == 1) by {
                lemma2_to64();
            }
            vstd::arithmetic::mul::lemma_mul_basics(a0);
            vstd::arithmetic::mul::lemma_mul_basics(k as int);
            assert(geom(b, 1) == 1 + b * geom(b, 0));
            vstd::arithmetic::mul::lemma_mul_basics(b);
        }
        while k != 0
            invariant
                macc as int == wrap64(pow(b, done)),
                aacc as int == wrap64(geom(b, done) * a0),
                im as int == wrap64(pow(b, pow2(i))),
                ia as int == wrap64(geom(b, pow2(i)) * a0),
                k0 == done + (k as int) * pow2(i) as int,
            decreases k,
        {
            let ghost p2i: nat = pow2(i);
            if k % 2 == 1 {
                let m2 = wmul(macc, im);
                let a2 = wadd(wmul(im, aacc), ia);
                proof {
                    crate::random::mth::lemma_wrap64_mul_noop(pow(b, done), pow(b, p2i));
                    vstd::arithmetic::power::lemma_pow_adds(b, done, p2i);
                    crate::random::mth::lemma_wrap64_mul_noop(pow(b, p2i), geom(b, done) * a0);
                    vstd::arithmetic::div_mod::lemma_add_mod_noop(
                        pow(b, p2i) * (geom(b, done) * a0),
                        geom(b, p2i) * a0,
                        0x1_0000_0000_0000_0000,
                    );
                    lemma_geom_adds(b, done, p2i);
                    assert(pow(b, p2i) * (geom(b, done) * a0) + geom(b, p2i) * a0 == geom(
                        b,
                        done + p2i,
                    ) * a0) by (nonlinear_arith)
                        requires
                            geom(b, done + p2i) == pow(b, p2i) * geom(b, done) + geom(b, p2i),
                    ;
                    done = done + p2i;
                }
                macc = m2;
                aacc = a2;
            }
            let t = wadd(im, 1);
            let ia2 = wmul(ia, t);
            let im2 = wmul(im, im);
            proof {
                vstd::arithmetic::div_mod::lemma_add_mod_noop(
                    pow(b, p2i),
                    1,
                    0x1_0000_0000_0000_0000,
                );
                assert(t as int == wrap64(pow(b, p2i) + 1));
                crate::random::mth::lemma_wrap64_mul_noop(
                    geom(b, p2i) * a0,
                    pow(b, p2i) + 1,
                );
                crate::random::mth::lemma_wrap64_mul_noop(pow(b, p2i), pow(b, p2i));
                vstd::arithmetic::power::lemma_pow_adds(b, p2i, p2i);
                vstd::arithmetic::power2::lemma_pow2_unfold((i + 1) as nat);
                lemma_geom_adds(b, p2i, p2i);
                assert((geom(b, p2i) * a0) * (pow(b, p2i) + 1) == geom(b, p2i + p2i) * a0)
                    by (nonlinear_arith)
                    requires
                        geom(b, p2i + p2i) == pow(b, p2i) * geom(b, p2i) + geom(b, p2i),
                ;
                // Halving the remaining bits moves one bit into `done` and
                // doubles the per-bit exponent.
                vstd::arithmetic::div_mod::lemma_fundamental_div_mod(k as int, 2);
                assert((k as int) * p2i as int == (k as int % 2) * p2i as int + (k as int / 2)
                    * (2 * p2i as int)) by (nonlinear_arith)
                    requires
                        k as int == 2 * (k as int / 2) + (k as int % 2),
                ;
                assert((k as int / 2) * (2 * p2i as int) == (k as int / 2) * pow2(
                    (i + 1) as nat,
                ) as int) by (nonlinear_arith)
                    requires
                        pow2((i + 1) as nat) == 2 * p2i,
                ;
                assert(1 * p2i as int == p2i as int) by (nonlinear_arith);
                assert(0 * p2i as int == 0) by (nonlinear_arith);
                i = i + 1;
            }
            ia = ia2;
            im = im2;
            k = k / 2;
        }
        proof {
            vstd::arithmetic::mul::lemma_mul_basics(pow2(i) as int);
            assert(k0 == done);
        }
        let mult = self.mod_(from_bits(macc));
        let addend = self.mod_(from_bits(aacc));
        proof {
            crate::random::mth::lemma_wrap64_of_sig64(macc as int);
            crate::random::mth::lemma_wrap64_of_sig64(aacc as int);
            if self.modulus > 0 {
                let tz = self.trailing_zeros as nat;
                crate::random::mth::lemma_wrap64_keeps_low(pow(b, k0), tz);
                crate::random::mth::lemma_wrap64_keeps_low(geom(b, k0) * a0, tz);
            }
        }
        Self::new(mult, addend, self.modulus)
    }

    /// The engine equivalent to applying this one, then `lcg`.  The moduli
    /// must agree; the parameters compose in wrapping 64-bit arithmetic.
    #[verifier::rlimit(30)]
    pub fn combine_two(&self, lcg: Self) -> (r: Self)
        requires
            self.wf(),
            lcg.wf(),
            self.modulus == lcg.modulus,
        ensures
            r == combine2_vals(*self, lcg),
    {
        let mult = from_bits(wmul(to_bits(self.multiplier), to_bits(lcg.multiplier)));
        let addend = from_bits(
            wadd(wmul(to_bits(lcg.multiplier), to_bits(self.addend)), to_bits(lcg.addend)),
        );
        proof {
            crate::random::mth::lemma_wrap64_mul_noop(
                self.multiplier as int,
                lcg.multiplier as int,
            );
            crate::random::mth::lemma_wrap64_mul_noop(lcg.multiplier as int, self.addend as int);
            vstd::arithmetic::div_mod::lemma_add_mod_noop(
                lcg.multiplier as int * self.addend as int,
                lcg.addend as int,
                0x1_0000_0000_0000_0000,
            );
        }
        let r = Self::new(mult, addend, self.modulus);
        proof {
            lemma_wf_flags_functional(r, *self);
        }
        r
    }

    /// Fold a list of engines into one: the first entry is the start, and
    /// the remaining entries are composed onto it in order.
    pub fn combine(lcgs: Vec<Self>) -> (r: Self)
        requires
            lcgs@.len() >= 1,
            forall|j: int|
                0 <= j < lcgs@.len() ==> (#[trigger] lcgs@[j]).wf() && lcgs@[j].modulus
                    == lcgs@[0].modulus,
        ensures
            r == combined_from(lcgs@[0], lcgs@.subrange(1, lcgs@.len() as int)),
    {
        let mut lcg = lcgs[0];
        let n = lcgs.len();
        let mut idx: usize = 1;
        while idx < n
            invariant
                n == lcgs@.len(),
                1 <= idx <= n,
                lcg.wf(),
                lcg.modulus == lcgs@[0].modulus,
                forall|j: int|
                    0 <= j < lcgs@.len() ==> (#[trigger] lcgs@[j]).wf() && lcgs@[j].modulus
                        == lcgs@[0].modulus,
                combined_from(lcgs@[0], lcgs@.subrange(1, n as int)) == combined_from(
                    lcg,
                    lcgs@.subrange(idx as int, n as int),
                ),
            decreases n - idx,
        {
            let ghost pre = lcgs@.subrange(idx as int, n as int);
            proof {
                assert(lcgs@[idx as int].wf() && lcgs@[idx as int].modulus == lcgs@[0].modulus);
            }
            let next = lcg.combine_two(lcgs[idx]);
            proof {
                assert(pre[0] == lcgs@[idx as int]);
                assert(pre.subrange(1, pre.len() as int) =~= lcgs@.subrange(
                    idx + 1,
                    n as int,
                ));
            }
            lcg = next;
            idx = idx + 1;
        }
        proof {
            assert(lcgs@.subrange(n as int, n as int) =~= Seq::<LCG>::empty());
        }
        lcg
    }

    /// One application of this engine to a state: `(s * multiplier +
    /// addend) mod modulus`.
    pub fn next_seed(&self, seed: i64) -> (r: i64)
        requires
            self.wf(),
            self.is_power_of_two || (0 <= seed as int * self.multiplier as int
                + self.addend as int <= 0x1_0000_0000),
        ensures
            self.modulus > 0 ==> r as int == (seed as int * self.multiplier as int
                + self.addend as int) % self.modulus as int,
            self.modulus == 0 ==> r as int == sig64(
                seed as int * self.multiplier as int + self.addend as int,
            ),
    {
        let t = wadd(wmul(to_bits(seed), to_bits(self.multiplier)), to_bits(self.addend));
        proof {
            crate::random::mth::lemma_wrap64_mul_noop(seed as int, self.multiplier as int);
            vstd::arithmetic::div_mod::lemma_add_mod_noop(
                seed as int * self.multiplier as int,
                self.addend as int,
                0x1_0000_0000_0000_0000,
            );
            crate::random::mth::lemma_wrap64_of_sig64(t as int);
            if self.is_power_of_two && self.modulus > 0 {
                crate::random::mth::lemma_wrap64_keeps_low(
                    seed as int * self.multiplier as int + self.addend as int,
                    self.trailing_zeros as nat,
                );
            }
        }
        self.mod_(from_bits(t))
    }

    /// The engine that steps this one backward once.
    pub fn invert(&self) -> (r: Self)
        requires
            self.wf(),
            self.is_power_of_two,
        ensures
            r.modulus == self.modulus,
            r.wf(),
            self.modulus > 0 ==> r.multiplier as int == pow(
                self.multiplier as int,
                0xFFFF_FFFF_FFFF_FFFF,
            ) % self.modulus as int,
            self.modulus > 0 ==> r.addend as int == (geom(
                self.multiplier as int,
                0xFFFF_FFFF_FFFF_FFFF,
            ) * self.addend as int) % self.modulus as int,
    {
        self.combine_steps(-1)
    }
}

/// The composition `a` then `b` of two engines over one modulus, in the
/// wrapping arithmetic `combine_two` uses.
pub open spec fn combine2_vals(a: LCG, b: LCG) -> LCG {
    LCG {
        multiplier: sig64(a.multiplier as int * b.multiplier as int) as i64,
        addend: sig64(b.multiplier as int * a.addend as int + b.addend as int) as i64,
        modulus: a.modulus,
        is_power_of_two: a.is_power_of_two,
        trailing_zeros: a.trailing_zeros,
    }
}

/// The fold of `combine` over a list of engines.
pub open spec fn combined_from(acc: LCG, s: Seq<LCG>) -> LCG
    decreases s.len(),
{
    if s.len() == 0 {
        acc
    } else {
        combined_from(combine2_vals(acc, s[0]), s.subrange(1, s.len() as int))
    }
}

/// The derived fields are a function of the modulus: two well-formed
/// engines over one modulus carry the same flags.
pub proof fn lemma_wf_flags_functional(a: LCG, b: LCG)
    requires
        a.wf(),
        b.wf(),
        a.modulus == b.modulus,
    ensures
        a.is_power_of_two == b.is_power_of_two,
        a.trailing_zeros == b.trailing_zeros,
{
    if a.modulus > 0 && a.is_power_of_two {
        lemma_pow2_exponent_unique(a.trailing_zeros as nat, b.trailing_zeros as nat);
    }
}

/// Two powers of two are equal only at the same exponent.
proof fn lemma_pow2_exponent_unique(a: nat, b: nat)
    requires
        pow2(a) == pow2(b),
    ensures
        a == b,
{
    if a < b {
        vstd::arithmetic::power2::lemma_pow2_strictly_increases(a, b);
    }
    if b < a {
        vstd::arithmetic::power2::lemma_pow2_strictly_increases(b, a);
    }
}

} // verus!
