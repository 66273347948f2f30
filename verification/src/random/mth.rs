//! Fixed-width integer arithmetic helpers.
//!
//! The generator and the seed-derivation hashes are specified over the
//! 64-bit two's-complement words the target simulation computes with.  The
//! spec functions here give those words mathematical readings: `wrap64`
//! reduces an integer to its 64-bit word, `sig64` / `sig32` read a word back
//! as a signed value, and `xor64` is bitwise exclusive-or over word values.
//! The executable helpers convert between signed API values and word values
//! and perform wrapping products and sums, each proved against the
//! mathematical reading.
use vstd::arithmetic::div_mod::{lemma_mod_mod, lemma_mul_mod_noop_general};
use vstd::arithmetic::power2::{lemma_pow2_adds, lemma_pow2_pos, pow2};
use vstd::bits::{lemma_u64_low_bits_mask_is_mod, lemma_u64_shl_is_mul, low_bits_mask};
use vstd::prelude::*;

verus! {

pub const MASK_8: i32 = 0xFF;

pub const MASK_16: i32 = 0xFFFF;

pub const MASK_32: i64 = 0xFFFF_FFFF;

pub const MASK_48: i64 = 0xFFFF_FFFF_FFFF;

/// The 64-bit word that `x` reduces to, as a value in `[0, 2^64)`.
pub open spec fn wrap64(x: int) -> int {
    x % 0x1_0000_0000_0000_0000
}

/// The signed two's-complement reading of the 64-bit word that `x` reduces to.
pub open spec fn sig64(x: int) -> int {
    if wrap64(x) < 0x8000_0000_0000_0000 {
        wrap64(x)
    } else {
        wrap64(x) - 0x1_0000_0000_0000_0000
    }
}

/// The signed two's-complement reading of the low 32 bits of `x`.
pub open spec fn sig32(x: int) -> int {
    if x % 0x1_0000_0000 < 0x8000_0000 {
        x % 0x1_0000_0000
    } else {
        x % 0x1_0000_0000 - 0x1_0000_0000
    }
}

/// Bitwise exclusive-or of two 64-bit word values.
pub open spec fn xor64(a: int, b: int) -> int {
    ((a as u64) ^ (b as u64)) as int
}

/// The 64-bit word of a signed value.
pub fn to_bits(x: i64) -> (r: u64)
    ensures
        r as int == wrap64(x as int),
{
    if x >= 0 {
        x as u64
    } else {
        ((x as i128) + 0x1_0000_0000_0000_0000i128) as u64
    }
}

/// The 64-bit word of a signed 32-bit value, sign-extended.
pub fn to_bits32(x: i32) -> (r: u64)
    ensures
        r as int == wrap64(x as int),
{
    to_bits(x as i64)
}

/// The signed value of a 64-bit word.
pub fn from_bits(x: u64) -> (r: i64)
    ensures
        r as int == sig64(x as int),
{
    if x < 0x8000_0000_0000_0000 {
        x as i64
    } else {
        ((x as i128) - 0x1_0000_0000_0000_0000i128) as i64
    }
}

/// The signed value of the low 32 bits of a word.
pub fn low_bits32(x: u64) -> (r: i32)
    ensures
        r as int == sig32(x as int),
{
    let low = x % 0x1_0000_0000;
    if low < 0x8000_0000 {
        low as i32
    } else {
        ((low as i64) - 0x1_0000_0000i64) as i32
    }
}

/// Product of two words, wrapped to 64 bits.
pub fn wmul(a: u64, b: u64) -> (r: u64)
    ensures
        r as int == wrap64(a as int * b as int),
{
    a.wrapping_mul(b)
}

/// Sum of two words, wrapped to 64 bits.
pub fn wadd(a: u64, b: u64) -> (r: u64)
    ensures
        r as int == wrap64(a as int + b as int),
{
    a.wrapping_add(b)
}

/// A word reduced to a smaller power-of-two width keeps its residue: the
/// word of `x` and `x` itself agree modulo `2^k` for any `k <= 64`.
pub proof fn lemma_wrap64_keeps_low(x: int, k: nat)
    requires
        k <= 64,
    ensures
        wrap64(x) % pow2(k) as int == x % pow2(k) as int,
{
    lemma_pow2_adds(k, (64 - k) as nat);
    lemma_pow2_pos(k);
    lemma_pow2_pos((64 - k) as nat);
    vstd::arithmetic::power2::lemma2_to64_rest();
    assert(0x1_0000_0000_0000_0000 == pow2(k) as int * pow2((64 - k) as nat) as int);
    lemma_mod_mod(x, pow2(k) as int, pow2((64 - k) as nat) as int);
}

/// Powers of two up to the 63rd stay within the signed 64-bit range.
pub proof fn lemma_pow2_within_i64(k: nat)
    requires
        k <= 63,
    ensures
        pow2(k) <= 0x8000_0000_0000_0000,
{
    vstd::arithmetic::power2::lemma2_to64_rest();
    if k < 63 {
        vstd::arithmetic::power2::lemma_pow2_strictly_increases(k, 63);
    }
}

/// Wrapping either factor first does not change a wrapped product.
pub proof fn lemma_wrap64_mul_noop(x: int, y: int)
    ensures
        wrap64(wrap64(x) * wrap64(y)) == wrap64(x * y),
        wrap64(wrap64(x) * y) == wrap64(x * y),
        wrap64(x * wrap64(y)) == wrap64(x * y),
{
    lemma_mul_mod_noop_general(x, y, 0x1_0000_0000_0000_0000);
}

/// The signed reading of a word wraps back to the word itself.
pub proof fn lemma_wrap64_of_sig64(x: int)
    ensures
        wrap64(sig64(x)) == wrap64(x),
{
}

/// Reading the low 32 bits is unaffected by first wrapping to 64 bits.
pub proof fn lemma_sig32_of_wrap64(x: int)
    ensures
        sig32(wrap64(x)) == sig32(x),
{
    lemma_wrap64_keeps_low(x, 32);
    vstd::arithmetic::power2::lemma2_to64();
}

/// Product of two signed 32-bit values, wrapped to 32 bits and read back
/// as a signed value.
pub fn wmul32(a: i32, b: i32) -> (r: i32)
    ensures
        r as int == sig32(a as int * b as int),
{
    let w = wmul(to_bits(a as i64), to_bits(b as i64));
    proof {
        lemma_wrap64_mul_noop(a as int, b as int);
        lemma_sig32_of_wrap64(a as int * b as int);
    }
    low_bits32(w)
}

/// The 32-bit word of a signed 32-bit value.
pub fn bits_of_i32(x: i32) -> (r: u32)
    ensures
        r as int == (x as int) % 0x1_0000_0000,
{
    if x >= 0 {
        x as u32
    } else {
        ((x as i64) + 0x1_0000_0000i64) as u32
    }
}

/// Bitwise exclusive-or of two 32-bit word values.
pub open spec fn xor32(a: int, b: int) -> int {
    (((a % 0x1_0000_0000) as u32) ^ ((b % 0x1_0000_0000) as u32)) as int
}

/// Exclusive-or of two signed 32-bit values, as the simulation's 32-bit
/// integers compute it.
pub fn xor_i32(a: i32, b: i32) -> (r: i32)
    ensures
        r as int == sig32(xor32(a as int, b as int)),
{
    let w = bits_of_i32(a) ^ bits_of_i32(b);
    low_bits32(w as u64)
}

/// Division by 16 rounding toward minus infinity: the arithmetic right
/// shift by four the weak-seed hash applies to chunk coordinates.
pub fn floor_div16(x: i32) -> (r: i32)
    ensures
        r as int == (x as int) / 16,
        -0x800_0000 <= r < 0x800_0000,
{
    if x >= 0 {
        (((x as u64) / 16) as i32)
    } else {
        let mag = (-(x as i64)) as u64;
        let q = (mag + 15) / 16;
        proof {
            // Flooring a negative quotient is negating the ceiling of the
            // magnitude's quotient.
            assert((x as int) / 16 == -(((mag as int) + 15) / 16)) by {
                vstd::arithmetic::div_mod::lemma_fundamental_div_mod(mag as int + 15, 16);
                vstd::arithmetic::div_mod::lemma_fundamental_div_mod(x as int, 16);
                vstd::arithmetic::div_mod::lemma_mod_bound(mag as int + 15, 16);
                vstd::arithmetic::div_mod::lemma_mod_bound(x as int, 16);
            }
        }
        (-(q as i64)) as i32
    }
}

/// Arithmetic right shift of a word by `k`: the signed reading of `x`,
/// divided by `2^k` rounding toward minus infinity.
pub fn asr(x: u64, k: u32) -> (r: i64)
    requires
        1 <= k <= 63,
    ensures
        r as int == sig64(x as int) / pow2(k as nat) as int,
{
    let p = pow2_u64(k);
    proof {
        lemma_pow2_pos(k as nat);
        vstd::arithmetic::power2::lemma_pow2_strictly_increases(0, k as nat);
    }
    let q = x / p;
    if x < 0x8000_0000_0000_0000 {
        q as i64
    } else {
        let high = pow2_u64(64 - k);
        proof {
            // sig64(x) == x - 2^64, and 2^64 == 2^(64-k) * 2^k, so the
            // floored quotient shifts down by exactly 2^(64-k).
            assert(high as int * p as int == 0x1_0000_0000_0000_0000) by {
                lemma_pow2_adds((64 - k) as nat, k as nat);
                vstd::arithmetic::power2::lemma2_to64_rest();
            }
            vstd::arithmetic::mul::lemma_mul_unary_negation(high as int, p as int);
            vstd::arithmetic::div_mod::lemma_hoist_over_denominator(
                x as int,
                -(high as int),
                p as nat,
            );
            assert(x as int + -(high as int) * p as int == sig64(x as int));
            // The result stays within the signed 64-bit range.
            vstd::arithmetic::div_mod::lemma_div_is_ordered(
                0x8000_0000_0000_0000,
                x as int,
                p as int,
            );
            assert(0x8000_0000_0000_0000int / p as int == pow2((63 - k) as nat) as int) by {
                lemma_pow2_adds(k as nat, (63 - k) as nat);
                vstd::arithmetic::power2::lemma2_to64_rest();
                vstd::arithmetic::mul::lemma_mul_is_commutative(
                    pow2((63 - k) as nat) as int,
                    pow2(k as nat) as int,
                );
                vstd::arithmetic::div_mod::lemma_div_multiples_vanish(
                    pow2((63 - k) as nat) as int,
                    pow2(k as nat) as int,
                );
            }
            assert(pow2((63 - k) as nat) <= pow2(63)) by {
                if k > 0 {
                    vstd::arithmetic::power2::lemma_pow2_strictly_increases(
                        (63 - k) as nat,
                        63,
                    );
                }
            }
            vstd::arithmetic::power2::lemma2_to64_rest();
            assert(high as int == 2 * pow2((63 - k) as nat)) by {
                vstd::arithmetic::power2::lemma_pow2_unfold((64 - k) as nat);
            }
            assert(q < high) by {
                vstd::arithmetic::mul::lemma_mul_is_commutative(high as int, p as int);
                vstd::arithmetic::div_mod::lemma_multiply_divide_lt(
                    x as int,
                    p as int,
                    high as int,
                );
            }
        }
        ((q as i128) - (high as i128)) as i64
    }
}

/// The `k`-th power of two as a word, for widths below 64.
pub fn pow2_u64(k: u32) -> (r: u64)
    requires
        k < 64,
    ensures
        r as int == pow2(k as nat) as int,
        r >= 1,
{
    let r = 1u64 << k;
    proof {
        vstd::bits::lemma_u64_pow2_no_overflow(k as nat);
        lemma_u64_shl_is_mul(1u64, k as u64);
        lemma_pow2_pos(k as nat);
    }
    r
}

/// The low `bits` bits of `value`, as a mask of ones.
///
/// For widths below 64 this is `2^bits - 1`; from 64 up it is the all-ones
/// word, read back as `-1`.
pub fn get_mask(bits: i32) -> (r: i64)
    requires
        0 <= bits,
    ensures
        bits < 64 ==> r as int == pow2(bits as nat) as int - 1,
        bits >= 64 ==> r == -1i64,
{
    if bits >= 64 {
        -1
    } else {
        let sh: u64 = 1u64 << (bits as u32);
        proof {
            vstd::bits::lemma_u64_pow2_no_overflow(bits as nat);
            lemma_u64_shl_is_mul(1u64, bits as u64);
            lemma_pow2_pos(bits as nat);
            lemma_pow2_within_i64(bits as nat);
        }
        (sh - 1) as i64
    }
}

/// `value` reduced modulo `2^bits`, by masking its word.
pub fn mask(value: i64, bits: i32) -> (r: i64)
    requires
        0 <= bits,
    ensures
        bits < 64 ==> r as int == (value as int) % pow2(bits as nat) as int,
        bits >= 64 ==> r == value,
{
    if bits >= 64 {
        value
    } else {
        let vb = to_bits(value);
        let sh: u64 = 1u64 << (bits as u32);
        proof {
            vstd::bits::lemma_u64_pow2_no_overflow(bits as nat);
            lemma_u64_shl_is_mul(1u64, bits as u64);
            lemma_pow2_pos(bits as nat);
        }
        let m: u64 = sh - 1;
        let r = vb & m;
        proof {
            assert(m == low_bits_mask(bits as nat));
            lemma_u64_low_bits_mask_is_mod(vb, bits as nat);
            lemma_wrap64_keeps_low(value as int, bits as nat);
            lemma_pow2_within_i64(bits as nat);
        }
        r as i64
    }
}

/// The low `bits` bits of `value`, read as a signed `bits`-wide quantity.
pub fn mask_signed(value: i64, bits: i32) -> (r: i64)
    requires
        1 <= bits <= 64,
    ensures
        ({
            let w = (value as int) % pow2(bits as nat) as int;
            r as int == if w < pow2((bits - 1) as nat) as int {
                w
            } else {
                w - pow2(bits as nat) as int
            }
        }),
{
    if bits == 64 {
        proof {
            vstd::arithmetic::power2::lemma2_to64_rest();
            assert(sig64(value as int) == value as int);
        }
        value
    } else {
        let p: u64 = 1u64 << (bits as u32);
        proof {
            vstd::bits::lemma_u64_pow2_no_overflow(bits as nat);
            lemma_u64_shl_is_mul(1u64, bits as u64);
            lemma_pow2_pos(bits as nat);
        }
        let w = to_bits(value) % p;
        proof {
            lemma_wrap64_keeps_low(value as int, bits as nat);
            lemma_pow2_pos((bits - 1) as nat);
            vstd::arithmetic::power2::lemma_pow2_unfold(bits as nat);
        }
        let half = p / 2;
        if w < half {
            w as i64
        } else {
            proof {
                vstd::arithmetic::power2::lemma_pow2_strictly_increases(bits as nat, 64);
                vstd::arithmetic::power2::lemma2_to64_rest();
            }
            ((w as i128) - (p as i128)) as i64
        }
    }
}

/// Squaring an odd value leaves a residue of one modulo eight: the seed
/// fact of the inverse iteration.
proof fn lemma_odd_square(v: int)
    requires
        v % 2 == 1,
    ensures
        (v * v) % 8 == 1,
{
    let t = (v - 1) / 2;
    vstd::arithmetic::div_mod::lemma_fundamental_div_mod(v - 1, 2);
    assert(v == 2 * t + 1);
    let tt = t * (t + 1);
    assert(tt % 2 == 0) by {
        vstd::arithmetic::div_mod::lemma_fundamental_div_mod(t, 2);
        if t % 2 == 0 {
            assert(t * (t + 1) == 2 * ((t / 2) * (t + 1))) by (nonlinear_arith)
                requires
                    t == 2 * (t / 2),
            ;
            vstd::arithmetic::div_mod::lemma_mod_multiples_vanish((t / 2) * (t + 1), 0, 2);
        } else {
            assert(t * (t + 1) == 2 * (t * ((t + 1) / 2))) by (nonlinear_arith)
                requires
                    t + 1 == 2 * ((t + 1) / 2),
            ;
            vstd::arithmetic::div_mod::lemma_mod_multiples_vanish(t * ((t + 1) / 2), 0, 2);
        }
    }
    let u = tt / 2;
    vstd::arithmetic::div_mod::lemma_fundamental_div_mod(tt, 2);
    assert(v * v == 8 * u + 1) by (nonlinear_arith)
        requires
            v == 2 * t + 1,
            t * (t + 1) == 2 * u,
    ;
    vstd::arithmetic::div_mod::lemma_mod_multiples_vanish(u, 1, 8);
}

/// One Newton step of the inverse iteration doubles the width on which
/// the product reads one: from `k` correct bits to any width up to `2k`.
proof fn lemma_newton_step(v: int, x: int, k: nat, kk: nat)
    requires
        1 <= k,
        1 <= kk <= 2 * k,
        kk <= 64,
        (v * x) % pow2(k) as int == 1,
    ensures
        (v * (x * (2 - v * x))) % pow2(kk) as int == 1,
{
    lemma_pow2_pos(k);
    lemma_pow2_pos(kk);
    let e = v * x - 1;
    vstd::arithmetic::div_mod::lemma_fundamental_div_mod(e, pow2(k) as int);
    assert(e % pow2(k) as int == 0) by {
        vstd::arithmetic::div_mod::lemma_sub_mod_noop(v * x, 1, pow2(k) as int);
        if k > 1 {
            vstd::arithmetic::power2::lemma_pow2_strictly_increases(1, k);
        }
        vstd::arithmetic::power2::lemma2_to64();
        vstd::arithmetic::div_mod::lemma_small_mod(1, pow2(k));
        vstd::arithmetic::div_mod::lemma_small_mod(0, pow2(k));
        assert((v * x - 1) % pow2(k) as int == (1 - 1) % pow2(k) as int);
    }
    let t = e / pow2(k) as int;
    assert(e == pow2(k) * t);
    assert(v * (x * (2 - v * x)) - 1 == -(e * e)) by (nonlinear_arith)
        requires
            e == v * x - 1,
    ;
    // The error squares, so its power-of-two factor doubles past `kk`.
    let p = pow2(k) as int;
    let q = pow2(kk) as int;
    let rest = pow2((2 * k - kk) as nat) as int;
    assert(p * p == q * rest) by {
        lemma_pow2_adds(k, k);
        lemma_pow2_adds(kk, (2 * k - kk) as nat);
    }
    assert(e * e == q * (rest * (t * t))) by (nonlinear_arith)
        requires
            e == p * t,
            p * p == q * rest,
    ;
    assert(v * (x * (2 - v * x)) == q * (-(rest * (t * t))) + 1) by (nonlinear_arith)
        requires
            v * (x * (2 - v * x)) - 1 == -(e * e),
            e * e == q * (rest * (t * t)),
    ;
    vstd::arithmetic::div_mod::lemma_mod_multiples_vanish(-(rest * (t * t)), 1, q);
    if kk > 1 {
        vstd::arithmetic::power2::lemma_pow2_strictly_increases(1, kk);
    }
    vstd::arithmetic::power2::lemma2_to64();
    vstd::arithmetic::div_mod::lemma_small_mod(1, pow2(kk));
}

/// A wrapped product keeps its residue on widths up to 64 bits.
proof fn lemma_mul_word_mod(v: int, x: int, kk: nat)
    requires
        kk <= 64,
    ensures
        (v * wrap64(x)) % pow2(kk) as int == (v * x) % pow2(kk) as int,
{
    lemma_wrap64_mul_noop(v, x);
    assert(wrap64(v * wrap64(x)) == wrap64(v * x));
    lemma_wrap64_keeps_low(v * wrap64(x), kk);
    lemma_wrap64_keeps_low(v * x, kk);
}

/// Five Newton steps from an odd word itself reach a full 64-bit inverse:
/// the seed is correct to three bits and each step doubles the width.
proof fn lemma_inverse_chain(v: int, x1: int, x2: int, x3: int, x4: int, x5: int)
    requires
        0 <= v < 0x1_0000_0000_0000_0000,
        v % 2 == 1,
        x1 == wrap64(v * (2 - v * v)),
        x2 == wrap64(x1 * (2 - v * x1)),
        x3 == wrap64(x2 * (2 - v * x2)),
        x4 == wrap64(x3 * (2 - v * x3)),
        x5 == wrap64(x4 * (2 - v * x4)),
    ensures
        (v * x5) % 0x1_0000_0000_0000_0000 == 1,
{
    vstd::arithmetic::power2::lemma2_to64();
    vstd::arithmetic::power2::lemma2_to64_rest();
    lemma_odd_square(v);
    assert((v * v) % pow2(3) as int == 1);
    lemma_newton_step(v, v, 3, 6);
    lemma_mul_word_mod(v, v * (2 - v * v), 6);
    assert((v * x1) % pow2(6) as int == 1);
    lemma_newton_step(v, x1, 6, 12);
    lemma_mul_word_mod(v, x1 * (2 - v * x1), 12);
    assert((v * x2) % pow2(12) as int == 1);
    lemma_newton_step(v, x2, 12, 24);
    lemma_mul_word_mod(v, x2 * (2 - v * x2), 24);
    assert((v * x3) % pow2(24) as int == 1);
    lemma_newton_step(v, x3, 24, 48);
    lemma_mul_word_mod(v, x3 * (2 - v * x3), 48);
    assert((v * x4) % pow2(48) as int == 1);
    lemma_newton_step(v, x4, 48, 64);
    lemma_mul_word_mod(v, x4 * (2 - v * x4), 64);
    assert((v * x5) % pow2(64) as int == 1);
}

/// A full 64-bit inverse masked down to `bits` is the inverse there too.
proof fn lemma_inverse_masked(value: int, x: int, bits: nat)
    requires
        1 <= bits <= 63,
        0 <= x < 0x1_0000_0000_0000_0000,
        (wrap64(value) * x) % 0x1_0000_0000_0000_0000 == 1,
    ensures
        (value * (sig64(x) % pow2(bits) as int)) % pow2(bits) as int == 1,
{
    let m = pow2(bits) as int;
    lemma_pow2_pos(bits);
    lemma_wrap64_of_sig64(x);
    lemma_wrap64_keeps_low(sig64(x), bits);
    lemma_wrap64_keeps_low(x, bits);
    assert(sig64(x) % m == x % m);
    lemma_mul_mod_noop_general(value, x, m);
    assert((value * (sig64(x) % m)) % m == (value * x) % m);
    lemma_wrap64_mul_noop(value, x);
    assert(wrap64(value * x) == wrap64(wrap64(value) * x));
    lemma_wrap64_keeps_low(value * x, bits);
    lemma_wrap64_keeps_low(wrap64(value) * x, bits);
    assert((value * x) % m == (wrap64(value) * x) % m);
    let p = wrap64(value) * x;
    lemma_wrap64_keeps_low(p, bits);
    assert(p % m == wrap64(p) % m);
    if bits > 1 {
        vstd::arithmetic::power2::lemma_pow2_strictly_increases(1, bits);
    }
    vstd::arithmetic::power2::lemma2_to64();
    vstd::arithmetic::div_mod::lemma_small_mod(1, pow2(bits));
}

/// One Newton step of the inverse iteration on words.
fn newton_once(v: u64, x: u64) -> (r: u64)
    ensures
        r as int == wrap64(x as int * (2 - v as int * x as int)),
{
    let px = wmul(v, x);
    let t = 2u64.wrapping_sub(px);
    let r = wmul(x, t);
    proof {
        let m = 0x1_0000_0000_0000_0000int;
        assert(t as int == wrap64(2 - v as int * x as int));
        lemma_wrap64_mul_noop(x as int, 2 - v as int * x as int);
    }
    r
}

/// Multiplicative inverse of an odd value modulo a power of two, masked to
/// `bits`: a Newton iteration on the value's word, with the odd word
/// itself as the seed and five squaring steps to cover all 64 bits.
pub fn mod_inverse(value: i64, bits: i32) -> (r: i64)
    requires
        0 <= bits,
    ensures
        value % 2 == 1 && 1 <= bits < 64 ==> (value as int * r as int) % pow2(bits as nat) as int
            == 1,
        value % 2 == 1 && bits >= 64 ==> wrap64(value as int * r as int) == 1,
        0 <= bits < 64 ==> 0 <= r as int && (r as int) < pow2(bits as nat) as int,
{
    let v = to_bits(value);
    let x1 = newton_once(v, v);
    let x2 = newton_once(v, x1);
    let x3 = newton_once(v, x2);
    let x4 = newton_once(v, x3);
    let x5 = newton_once(v, x4);
    proof {
        if value % 2 == 1 {
            lemma_wrap64_keeps_low(value as int, 1);
            assert(pow2(1) == 2) by {
                vstd::arithmetic::power2::lemma2_to64();
            }
            assert(v as int % 2 == 1);
            lemma_inverse_chain(v as int, x1 as int, x2 as int, x3 as int, x4 as int, x5 as int);
        }
    }
    let xi = from_bits(x5);
    let r = mask(xi, bits);
    proof {
        if bits < 64 {
            lemma_pow2_pos(bits as nat);
        }
        if value % 2 == 1 {
            if 1 <= bits && bits < 64 {
                lemma_inverse_masked(value as int, x5 as int, bits as nat);
            }
            if bits >= 64 {
                lemma_wrap64_mul_noop(value as int, sig64(x5 as int));
                lemma_wrap64_of_sig64(x5 as int);
                lemma_wrap64_mul_noop(value as int, x5 as int);
                lemma_wrap64_mul_noop(wrap64(value as int), x5 as int);
                assert(wrap64(value as int * r as int) == wrap64(wrap64(value as int) * x5 as int));
            }
        }
    }
    r
}

} // verus!
