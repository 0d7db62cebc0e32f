//! Modular arithmetic and the mixing function used for key derivation.
//!
//! Nothing here is cryptographically strong: the functions are fixed,
//! deterministic and reproducible, which is all the channel asks of them.

use vstd::arithmetic::div_mod::*;
use vstd::arithmetic::power::*;
use vstd::prelude::*;

verus! {

/// Increment that `mix64` adds before the two scrambling rounds.
pub const MIX_INCREMENT: u64 = 0x9E37_79B9_7F4A_7C15;

/// Multiplier of the first scrambling round of `mix64`.
pub const MIX_FIRST_MULTIPLIER: u64 = 0xBF58_476D_1CE4_E5B9;

/// Multiplier of the second scrambling round of `mix64`.
pub const MIX_SECOND_MULTIPLIER: u64 = 0x94D0_49BB_1331_11EB;

/// `base` raised to `exp`, reduced modulo `modulus`.
pub open spec fn pow_mod(base: u64, exp: u64, modulus: u64) -> int {
    pow(base as int, exp as nat) % (modulus as int)
}

/// The value `mix64` maps `x` to: add the increment, then two rounds of
/// xor-shift and multiplication, then a last xor-shift, all wrapping at 64 bits.
pub open spec fn mixed(x: u64) -> u64 {
    let a = x.wrapping_add(MIX_INCREMENT);
    let b = (a ^ (a >> 30)).wrapping_mul(MIX_FIRST_MULTIPLIER);
    let c = (b ^ (b >> 27)).wrapping_mul(MIX_SECOND_MULTIPLIER);
    c ^ (c >> 31)
}

/// `(a * b) mod m`, computed without overflow by widening to 128 bits.
pub fn mul_mod(a: u64, b: u64, m: u64) -> (r: u64)
    requires
        m > 0,
    ensures
        r == (a * b) % (m as int),
        r < m,
{
    assert(a * b <= u64::MAX * u64::MAX) by (nonlinear_arith)
        requires
            a <= u64::MAX,
            b <= u64::MAX,
    ;
    let wide: u128 = (a as u128) * (b as u128);
    let reduced: u128 = wide % (m as u128);
    reduced as u64
}

/// One round of square-and-multiply keeps `result * base^exp` unchanged modulo `m`.
proof fn lemma_square_and_multiply(result: int, base: int, exp: nat, m: int)
    requires
        m > 0,
        exp > 0,
    ensures
        (((if exp % 2 == 1 {
            result * base
        } else {
            result
        }) % m) * pow((base * base) % m, exp / 2)) % m == (result * pow(base, exp)) % m,
{
    let q = exp / 2;
    let bit = exp % 2;
    let taken = if bit == 1 {
        result * base
    } else {
        result
    };
    let squared = base * base;
    assert(exp == 2 * q + bit);
    assert(pow(base, exp) == pow(squared, q) * pow(base, bit)) by {
        lemma_pow_adds(base, 2 * q, bit);
        lemma_pow_multiplies(base, 2, q);
        lemma_square_is_pow2(base);
    }
    assert(pow(base, bit) == if bit == 1 {
        base
    } else {
        1
    }) by {
        lemma_pow0(base);
        lemma_pow1(base);
    }
    assert(result * pow(base, exp) == taken * pow(squared, q)) by (nonlinear_arith)
        requires
            pow(base, exp) == pow(squared, q) * pow(base, bit),
            bit == 1 ==> pow(base, bit) == base && taken == result * base,
            bit != 1 ==> pow(base, bit) == 1 && taken == result,
    ;
    assert(((taken % m) * pow(squared % m, q)) % m == (taken * pow(squared, q)) % m) by {
        lemma_mul_mod_noop_general(taken, pow(squared % m, q), m);
        lemma_pow_mod_noop(squared, q, m);
        lemma_mul_mod_noop_general(taken, pow(squared, q), m);
    }
}

/// Modular exponentiation by square-and-multiply.
///
/// Every product is formed at 128 bits before it is reduced, so no input
/// overflows. A modulus of one gives zero, and an exponent of zero gives one
/// for every larger modulus.
pub fn modexp(base: u64, exp: u64, modulus: u64) -> (r: u64)
    requires
        modulus > 0,
    ensures
        r == pow_mod(base, exp, modulus),
        r < modulus,
        modulus == 1 ==> r == 0,
        exp == 0 && modulus > 1 ==> r == 1,
{
    if modulus == 1 {
        return 0;
    }
    let mut result: u64 = 1;
    let mut b: u64 = base % modulus;
    let mut e: u64 = exp;
    proof {
        lemma_pow_mod_noop(base as int, exp as nat, modulus as int);
        lemma_pow0(base as int);
        lemma_small_mod(1, modulus as nat);
        assert(1 * pow(b as int, e as nat) == pow(b as int, e as nat));
    }
    while e > 0
        invariant
            modulus > 1,
            result < modulus,
            b < modulus,
            (result * pow(b as int, e as nat)) % (modulus as int) == pow_mod(base, exp, modulus),
            exp == 0 ==> result == 1 && e == 0,
        decreases e,
    {
        let ghost before_result = result as int;
        let ghost before_b = b as int;
        let ghost before_e = e as nat;
        proof {
            lemma_square_and_multiply(before_result, before_b, before_e, modulus as int);
            assert(e & 1 == e % 2) by (bit_vector);
            assert(e >> 1 == e / 2) by (bit_vector);
        }
        if e & 1 == 1 {
            result = mul_mod(result, b, modulus);
        } else {
            proof {
                lemma_small_mod(result as nat, modulus as nat);
            }
        }
        e >>= 1;
        if e > 0 {
            b = mul_mod(b, b, modulus);
        } else {
            proof {
                lemma_pow0(before_b);
                lemma_pow0((before_b * before_b) % (modulus as int));
            }
        }
    }
    proof {
        lemma_pow0(b as int);
        lemma_small_mod(result as nat, modulus as nat);
    }
    result
}

/// A fixed 64-bit avalanche function: deterministic, and not a cryptographic hash.
pub fn mix64(x: u64) -> (r: u64)
    ensures
        r == mixed(x),
{
    let a = x.wrapping_add(MIX_INCREMENT);
    let b = (a ^ (a >> 30)).wrapping_mul(MIX_FIRST_MULTIPLIER);
    let c = (b ^ (b >> 27)).wrapping_mul(MIX_SECOND_MULTIPLIER);
    c ^ (c >> 31)
}

/// Raising to the power zero gives one, whatever the base, for every modulus above one.
pub proof fn lemma_pow_mod_zero_exponent(base: u64, modulus: u64)
    requires
        modulus > 1,
    ensures
        pow_mod(base, 0, modulus) == 1,
{
    lemma_pow0(base as int);
    lemma_small_mod(1, modulus as nat);
}

/// `pow_mod` is what repeated multiplication with a reduction after every
/// step arrives at: one more factor multiplies the previous value by the base.
pub proof fn lemma_pow_mod_unfolds(base: u64, exp: u64, modulus: u64)
    requires
        modulus > 0,
        exp > 0,
    ensures
        pow_mod(base, exp, modulus) == (pow_mod(base, (exp - 1) as u64, modulus) * base) % (
        modulus as int),
{
    let b = base as int;
    let m = modulus as int;
    let rest = pow(b, (exp - 1) as nat);
    assert(pow(b, exp as nat) == b * rest) by {
        reveal(pow);
    }
    assert(b * rest == rest * b) by (nonlinear_arith);
    lemma_mul_mod_noop_left(rest, b, m);
}

/// Multiplying by an odd constant, wrapping at 64 bits, loses nothing: the
/// product multiplied by the constant's inverse gives the factor back.
proof fn lemma_wrapping_mul_undone(a: u64, c: u64, inverse: u64)
    requires
        (c * inverse) % 0x1_0000_0000_0000_0000 == 1,
    ensures
        a.wrapping_mul(c).wrapping_mul(inverse) == a,
{
    let m = 0x1_0000_0000_0000_0000int;
    let ai = a as int;
    let ci = c as int;
    let ii = inverse as int;
    assert(0 <= ai * ci) by (nonlinear_arith)
        requires
            0 <= ai,
            0 <= ci,
    ;
    let product = (ai * ci) % m;
    assert(a.wrapping_mul(c) == product);
    assert(0 <= product * ii) by (nonlinear_arith)
        requires
            0 <= product,
            0 <= ii,
    ;
    assert(a.wrapping_mul(c).wrapping_mul(inverse) == (product * ii) % m);
    lemma_mul_mod_noop_left(ai * ci, ii, m);
    assert((ai * ci) * ii == ai * (ci * ii)) by (nonlinear_arith);
    lemma_mul_mod_noop_right(ai, ci * ii, m);
    lemma_small_mod(a as nat, m as nat);
}

/// `mix64` maps different inputs to different outputs.
pub proof fn lemma_mixed_is_injective(x: u64, y: u64)
    requires
        mixed(x) == mixed(y),
    ensures
        x == y,
{
    let xa = x.wrapping_add(MIX_INCREMENT);
    let ya = y.wrapping_add(MIX_INCREMENT);
    let xs = xa ^ (xa >> 30);
    let ys = ya ^ (ya >> 30);
    let xb = xs.wrapping_mul(MIX_FIRST_MULTIPLIER);
    let yb = ys.wrapping_mul(MIX_FIRST_MULTIPLIER);
    let xt = xb ^ (xb >> 27);
    let yt = yb ^ (yb >> 27);
    let xc = xt.wrapping_mul(MIX_SECOND_MULTIPLIER);
    let yc = yt.wrapping_mul(MIX_SECOND_MULTIPLIER);
    assert(xc == yc) by (bit_vector)
        requires
            xc ^ (xc >> 31) == yc ^ (yc >> 31),
    ;
    lemma_wrapping_mul_undone(xt, MIX_SECOND_MULTIPLIER, 0x3196_42B2_D24D_8EC3);
    lemma_wrapping_mul_undone(yt, MIX_SECOND_MULTIPLIER, 0x3196_42B2_D24D_8EC3);
    assert(xb == yb) by (bit_vector)
        requires
            xb ^ (xb >> 27) == yb ^ (yb >> 27),
    ;
    lemma_wrapping_mul_undone(xs, MIX_FIRST_MULTIPLIER, 0x96DE_1B17_3F11_9089);
    lemma_wrapping_mul_undone(ys, MIX_FIRST_MULTIPLIER, 0x96DE_1B17_3F11_9089);
    assert(xa == ya) by (bit_vector)
        requires
            xa ^ (xa >> 30) == ya ^ (ya >> 30),
    ;
}

} // verus!
