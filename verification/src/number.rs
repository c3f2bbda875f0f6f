//! Numbers of the Yarn runtime: 32-bit IEEE-754 values, held and computed by their bits.
//!
//! A finite value with bits `b` is `±significand(b) * 2^exponent(b)`. Results of arithmetic
//! are the exact value rounded to the nearest representable one, ties to an even
//! significand, as IEEE-754 prescribes for its default rounding.
use vstd::arithmetic::div_mod::{lemma_fundamental_div_mod, lemma_fundamental_div_mod_converse};
use vstd::arithmetic::power2::{
    lemma2_to64, lemma2_to64_rest, lemma_pow2_adds, lemma_pow2_pos, lemma_pow2_strictly_increases, pow2,
};
use vstd::prelude::*;

verus! {

/// Whether the sign bit of `b` is set.
pub open spec fn sign_bit(b: u32) -> bool {
    b >= 0x8000_0000
}

/// The biased exponent field of `b` (eight bits).
pub open spec fn exponent_field(b: u32) -> nat {
    ((b % 0x8000_0000) / 0x80_0000) as nat
}

/// The fraction field of `b` (twenty-three bits).
pub open spec fn fraction_field(b: u32) -> nat {
    (b % 0x80_0000) as nat
}

/// Whether `b` is a NaN.
pub open spec fn is_nan(b: u32) -> bool {
    exponent_field(b) == 255 && fraction_field(b) != 0
}

/// Whether `b` is an infinity.
pub open spec fn is_infinite(b: u32) -> bool {
    exponent_field(b) == 255 && fraction_field(b) == 0
}

/// The significand of a finite `b`: its value is `±significand(b) * 2^exponent(b)`.
pub open spec fn significand(b: u32) -> nat {
    if exponent_field(b) == 0 {
        fraction_field(b)
    } else {
        fraction_field(b) + 0x80_0000
    }
}

/// The power of two that scales the significand of a finite `b`.
pub open spec fn exponent(b: u32) -> int {
    if exponent_field(b) == 0 {
        -149
    } else {
        exponent_field(b) - 150
    }
}

/// The quiet NaN that a NaN `b` becomes when an operation passes it on.
pub open spec fn quieted(b: u32) -> u32 {
    if (b / 0x40_0000) % 2 == 1 {
        b
    } else {
        (b + 0x40_0000) as u32
    }
}

/// `a / b` rounded to the nearest integer, ties to the even one.
pub open spec fn round_half_even(a: nat, b: nat) -> nat {
    let q = a / b;
    let r = a % b;
    if 2 * r > b || (2 * r == b && q % 2 == 1) {
        q + 1
    } else {
        q
    }
}

/// `n * 2^k / 2^t`, scaled up by `2^400` so that it is a whole number.
pub open spec fn scaled(n: nat, k: int, t: int) -> nat {
    n * pow2((400 + k - t) as nat)
}

/// `d`, scaled up by `2^400` as [`scaled`] is.
pub open spec fn unit(d: nat) -> nat {
    d * pow2(400)
}

/// Whether `2^t` is the weight of the lowest of twenty-four significant bits of
/// `n * 2^k / d`: the value divided by `2^t` lies in `[2^23, 2^24)`.
pub open spec fn in_binade(n: nat, d: nat, k: int, t: int) -> bool {
    &&& 400 + k - t >= 0
    &&& 0x80_0000 * unit(d) <= scaled(n, k, t)
    &&& scaled(n, k, t) < 0x100_0000 * unit(d)
}

/// The binade exponent of a positive `n * 2^k / d`.
pub open spec fn binade(n: nat, d: nat, k: int) -> int {
    choose|t: int| in_binade(n, d, k, t)
}

/// The exponent at which `n * 2^k / d` is rounded: its binade exponent, or the
/// least one where the value is too small for twenty-four bits.
pub open spec fn rounding_exponent(n: nat, d: nat, k: int) -> int {
    let t = binade(n, d, k);
    if t < -149 {
        -149
    } else {
        t
    }
}

/// The bits of `±m * 2^t` for a significand `m < 2^24` (`m >= 2^23` unless `t` is
/// the least exponent); infinity where `t` is past the largest exponent.
pub open spec fn encode(neg: bool, m: nat, t: int) -> u32 {
    let sign: int = if neg { 0x8000_0000 } else { 0 };
    if t > 104 {
        (sign + 0x7f80_0000) as u32
    } else if m >= 0x80_0000 {
        (sign + (t + 150) * 0x80_0000 + (m - 0x80_0000)) as u32
    } else {
        (sign + m) as u32
    }
}

/// The bits of `±n * 2^k / d` rounded to the nearest representable value, ties to an
/// even significand, overflowing to infinity.
pub open spec fn rounded(neg: bool, n: nat, d: nat, k: int) -> u32 {
    if n == 0 {
        encode(neg, 0, -149)
    } else {
        let t = rounding_exponent(n, d, k);
        let m = round_half_even(scaled(n, k, t), unit(d));
        if m == 0x100_0000 {
            encode(neg, 0x80_0000, t + 1)
        } else {
            encode(neg, m, t)
        }
    }
}

/// Rounding a quotient is unchanged when both sides are scaled by the same factor.
proof fn lemma_round_scale(a: nat, b: nat, c: nat)
    requires
        b > 0,
        c > 0,
    ensures
        round_half_even(a * c, b * c) == round_half_even(a, b),
{
    let q = a / b;
    let r = a % b;
    lemma_fundamental_div_mod(a as int, b as int);
    assert(a * c == q * (b * c) + r * c) by (nonlinear_arith)
        requires
            a == b * q + r,
    ;
    assert(0 <= r * c < b * c) by (nonlinear_arith)
        requires
            0 <= r < b,
            c > 0,
    ;
    lemma_fundamental_div_mod_converse((a * c) as int, (b * c) as int, q as int, (r * c) as int);
    assert((2 * (r * c) > b * c) == (2 * r > b)) by (nonlinear_arith)
        requires
            c > 0,
    ;
    assert((2 * (r * c) == b * c) == (2 * r == b)) by (nonlinear_arith)
        requires
            c > 0,
    ;
}

/// No value lies in two binades `t1 < t2`.
proof fn lemma_binade_ordered(n: nat, d: nat, k: int, t1: int, t2: int)
    requires
        in_binade(n, d, k, t1),
        in_binade(n, d, k, t2),
        t1 <= t2,
    ensures
        t1 == t2,
{
    if t1 < t2 {
        let e2 = (400 + k - t2) as nat;
        let g = (t2 - t1) as nat;
        lemma_pow2_adds(e2, g);
        assert((400 + k - t1) as nat == e2 + g);
        lemma_pow2_pos(e2);
        lemma_pow2_pos(g);
        assert(pow2(g) >= 2) by {
            lemma_pow2_adds(1, (g - 1) as nat);
            lemma_pow2_pos((g - 1) as nat);
            lemma2_to64();
        }
        let s2 = scaled(n, k, t2);
        assert(scaled(n, k, t1) == s2 * pow2(g)) by (nonlinear_arith)
            requires
                scaled(n, k, t1) == n * pow2(e2 + g),
                pow2(e2 + g) == pow2(e2) * pow2(g),
                s2 == n * pow2(e2),
        ;
        assert(scaled(n, k, t1) >= 2 * s2) by (nonlinear_arith)
            requires
                scaled(n, k, t1) == s2 * pow2(g),
                pow2(g) >= 2,
        ;
    }
}

/// A value whose binade exponent is `t` has `t` as its [`binade`].
proof fn lemma_binade_is(n: nat, d: nat, k: int, t: int)
    requires
        in_binade(n, d, k, t),
    ensures
        binade(n, d, k) == t,
{
    let b = binade(n, d, k);
    if b <= t {
        lemma_binade_ordered(n, d, k, b, t);
    } else {
        lemma_binade_ordered(n, d, k, t, b);
    }
}

/// `2^e` as an integer.
fn two_to(e: u32) -> (r: u128)
    requires
        e < 128,
    ensures
        r == pow2(e as nat),
{
    let mut r: u128 = 1;
    let mut i: u32 = 0;
    proof {
        lemma2_to64();
    }
    while i < e
        invariant
            i <= e < 128,
            r == pow2(i as nat),
        decreases e - i,
    {
        proof {
            lemma_pow2_adds(i as nat, 1);
            lemma2_to64();
            if i + 1 < 127 {
                lemma_pow2_strictly_increases((i + 1) as nat, 127);
            }
            lemma2_to64_rest();
            lemma_pow2_adds(63, 64);
            assert(pow2(127) == 0x8000_0000_0000_0000 * 0x1_0000_0000_0000_0000);
        }
        r = r * 2;
        i = i + 1;
    }
    r
}


/// The bits of `±m * 2^t`.
fn pack(neg: bool, m: u64, t: i64) -> (r: u32)
    requires
        m < 0x100_0000,
        -149 <= t,
        m < 0x80_0000 ==> t == -149,
    ensures
        r == encode(neg, m as nat, t as int),
{
    let sign: u32 = if neg { 0x8000_0000 } else { 0 };
    if t > 104 {
        sign + 0x7f80_0000
    } else if m >= 0x80_0000 {
        let field: u32 = (t + 150) as u32;
        sign + field * 0x80_0000 + ((m - 0x80_0000) as u32)
    } else {
        sign + (m as u32)
    }
}

/// `a / b` rounded to the nearest integer, ties to even.
fn divide_rounding(a: u128, b: u128) -> (r: u128)
    requires
        0 < b < 0x8000_0000_0000_0000_0000_0000_0000_0000,
        a < 0x8000_0000_0000_0000_0000_0000_0000_0000,
    ensures
        r == round_half_even(a as nat, b as nat),
        r == a / b || r == a / b + 1,
{
    let q = a / b;
    let rem = a % b;
    if 2 * rem > b || (2 * rem == b && q % 2 == 1) {
        q + 1
    } else {
        q
    }
}

/// Scaling `n * 2^k / d` to the binade found with `n * 2^sa` over `d * 2^sb` multiplies
/// both sides by one factor.
proof fn lemma_scaled_as(n: nat, d: nat, k: int, sa: nat, sb: nat) -> (c: nat)
    requires
        sa == 0 || sb == 0,
        sb <= 400,
    ensures
        c > 0,
        scaled(n, k, k - sa + sb) == (n * pow2(sa)) * c,
        unit(d) == (d * pow2(sb)) * c,
{
    if sb == 0 {
        let c = pow2(400);
        lemma_pow2_pos(400);
        lemma_pow2_adds(sa, 400);
        assert((400 + k - (k - sa + sb)) as nat == sa + 400);
        assert(n * pow2(sa + 400) == (n * pow2(sa)) * c) by (nonlinear_arith)
            requires
                pow2(sa + 400) == pow2(sa) * c,
        ;
        assert(pow2(0) == 1) by {
            lemma2_to64();
        }
        c
    } else {
        let c = pow2((400 - sb) as nat);
        lemma_pow2_pos((400 - sb) as nat);
        lemma_pow2_adds(sb, (400 - sb) as nat);
        assert((400 + k - (k - sa + sb)) as nat == (400 - sb) as nat);
        assert(pow2(0) == 1) by {
            lemma2_to64();
        }
        assert(d * pow2(400) == (d * pow2(sb)) * c) by (nonlinear_arith)
            requires
                pow2(400) == pow2(sb) * c,
        ;
        c
    }
}

/// The bits of `±n * 2^k / d`, rounded to nearest, ties to even.
pub(crate) fn round_to_bits(neg: bool, n: u128, d: u128, k: i32) -> (r: u32)
    requires
        0 < d < 0x1_0000_0000_0000_0000,
        n < 0x8000_0000_0000_0000_0000_0000_0000_0000,
        -149 <= k <= 150,
    ensures
        r == rounded(neg, n as nat, d as nat, k as int),
{
    if n == 0 {
        return pack(neg, 0, -149);
    }
    let mut a: u128 = n;
    let mut b: u128 = d;
    let mut sa: u32 = 0;
    let mut sb: u32 = 0;
    proof {
        lemma2_to64();
        lemma2_to64_rest();
    }
    while a >= 0x100_0000 * b
        invariant
            a == n,
            0 < n < 0x8000_0000_0000_0000_0000_0000_0000_0000,
            0 < d < 0x1_0000_0000_0000_0000,
            sa == 0,
            b == d * pow2(sb as nat),
            b < 0x100_0000_0000_0000_0000_0000_0000,
            pow2(sb as nat) <= b,
            sb <= 128,
            sb > 0 ==> 0x80_0000 * b <= a,
        decreases 128 - sb,
    {
        proof {
            lemma_pow2_adds(sb as nat, 1);
            lemma2_to64();
            lemma2_to64_rest();
            assert(b < 0x80_0000_0000_0000_0000_0000_0000) by (nonlinear_arith)
                requires
                    0x100_0000 * b <= a,
                    a < 0x8000_0000_0000_0000_0000_0000_0000_0000,
            ;
            if sb >= 103 {
                if sb > 103 {
                    lemma_pow2_strictly_increases(103, sb as nat);
                }
                lemma_pow2_adds(64, 39);
                assert(pow2(39) == 0x80_0000_0000);
            }
            assert(b * 2 == d * pow2((sb + 1) as nat)) by (nonlinear_arith)
                requires
                    b == d * pow2(sb as nat),
                    pow2((sb + 1) as nat) == pow2(sb as nat) * 2,
            ;
        }
        b = b * 2;
        sb = sb + 1;
    }
    while a < 0x80_0000 * b
        invariant
            0 < n < 0x8000_0000_0000_0000_0000_0000_0000_0000,
            0 < d < 0x1_0000_0000_0000_0000,
            a == n * pow2(sa as nat),
            b == d * pow2(sb as nat),
            sa == 0 || sb == 0,
            a < 0x100_0000 * b,
            b < 0x100_0000_0000_0000_0000_0000_0000,
            sb > 0 ==> 0x80_0000 * b <= a,
            pow2(sa as nat) <= a,
            sa <= 128,
            sb <= 128,
        decreases 128 - sa,
    {
        proof {
            lemma_pow2_adds(sa as nat, 1);
            lemma2_to64();
            lemma2_to64_rest();
            assert(sb == 0);
            assert(pow2(sb as nat) == 1);
            assert(b == d) by (nonlinear_arith)
                requires
                    b == d * pow2(sb as nat),
                    pow2(sb as nat) == 1,
            ;
            assert(a < 0x80_0000_0000_0000_0000_0000) by (nonlinear_arith)
                requires
                    a < 0x80_0000 * b,
                    b == d,
                    d < 0x1_0000_0000_0000_0000,
            ;
            if sa >= 87 {
                if sa > 87 {
                    lemma_pow2_strictly_increases(87, sa as nat);
                }
                lemma_pow2_adds(64, 23);
            }
            assert(a * 2 == n * pow2((sa + 1) as nat)) by (nonlinear_arith)
                requires
                    a == n * pow2(sa as nat),
                    pow2((sa + 1) as nat) == pow2(sa as nat) * 2,
            ;
        }
        a = a * 2;
        sa = sa + 1;
    }
    let t: i64 = k as i64 - sa as i64 + sb as i64;
    let ghost c = lemma_scaled_as(n as nat, d as nat, k as int, sa as nat, sb as nat);
    proof {
        assert(scaled(n as nat, k as int, t as int) == a * c);
        assert(unit(d as nat) == b * c);
        assert(0x80_0000 * unit(d as nat) <= scaled(n as nat, k as int, t as int)) by (nonlinear_arith)
            requires
                0x80_0000 * b <= a,
                scaled(n as nat, k as int, t as int) == a * c,
                unit(d as nat) == b * c,
        ;
        assert(scaled(n as nat, k as int, t as int) < 0x100_0000 * unit(d as nat)) by (nonlinear_arith)
            requires
                a < 0x100_0000 * b,
                c > 0,
                scaled(n as nat, k as int, t as int) == a * c,
                unit(d as nat) == b * c,
        ;
        lemma_binade_is(n as nat, d as nat, k as int, t as int);
    }
    if t < -149 {
        assert(sb == 0);
        let delta: i64 = -149 - t;
        let ghost below = scaled(n as nat, k as int, -149);
        proof {
            lemma_pow2_adds((400 + k + 149) as nat, delta as nat);
            assert((400 + k - t) as nat == (400 + k + 149) as nat + delta as nat);
            assert(a * c == below * pow2(delta as nat)) by (nonlinear_arith)
                requires
                    a * c == n * pow2((400 + k - t) as nat),
                    pow2((400 + k - t) as nat) == pow2((400 + k + 149) as nat) * pow2(delta as nat),
                    below == n * pow2((400 + k + 149) as nat),
            ;
            lemma_pow2_pos(delta as nat);
            lemma_round_scale(below, unit(d as nat), pow2(delta as nat));
        }
        if delta > 30 {
            proof {
                lemma_pow2_adds(31, (delta - 31) as nat);
                lemma_pow2_pos((delta - 31) as nat);
                assert(pow2(31) == 0x8000_0000);
                assert(pow2(delta as nat) >= 0x8000_0000) by (nonlinear_arith)
                    requires
                        pow2(delta as nat) == pow2(31) * pow2((delta - 31) as nat),
                        pow2((delta - 31) as nat) > 0,
                        pow2(31) == 0x8000_0000,
                ;
                assert(2 * below < unit(d as nat)) by (nonlinear_arith)
                    requires
                        a * c == below * pow2(delta as nat),
                        unit(d as nat) == b * c,
                        a < 0x100_0000 * b,
                        c > 0,
                        pow2(delta as nat) >= 0x8000_0000,
                ;
                assert(below / unit(d as nat) == 0) by (nonlinear_arith)
                    requires
                        2 * below < unit(d as nat),
                ;
                assert(below % unit(d as nat) == below) by (nonlinear_arith)
                    requires
                        2 * below < unit(d as nat),
                ;
            }
            return pack(neg, 0, -149);
        }
        let scale = two_to(delta as u32);
        proof {
            if delta < 30 {
                lemma_pow2_strictly_increases(delta as nat, 30);
            }
            lemma2_to64();
            assert(b == d) by {
                lemma2_to64();
            }
            assert(b * scale < 0x1_0000_0000_0000_0000 * 0x4000_0000) by (nonlinear_arith)
                requires
                    b < 0x1_0000_0000_0000_0000,
                    scale <= 0x4000_0000,
            ;
            if delta >= 1 {
                lemma_pow2_adds(1, (delta - 1) as nat);
                lemma_pow2_pos((delta - 1) as nat);
            }
            assert(b * scale > 0) by (nonlinear_arith)
                requires
                    b > 0,
                    scale > 0,
            ;
        }
        let wide = b * scale;
        let m = divide_rounding(a, wide);
        proof {
            assert(unit(d as nat) * pow2(delta as nat) == wide * c) by (nonlinear_arith)
                requires
                    unit(d as nat) == b * c,
                    wide == b * pow2(delta as nat),
            ;
            lemma_round_scale(a as nat, wide as nat, c);
            assert(m <= 0x80_0000) by (nonlinear_arith)
                requires
                    a < 0x100_0000 * b,
                    wide == b * pow2(delta as nat),
                    pow2(delta as nat) >= 2,
                    m == round_half_even(a as nat, wide as nat),
            {
            }
        }
        return pack(neg, m as u64, -149);
    }
    let m = divide_rounding(a, b);
    proof {
        lemma_round_scale(a as nat, b as nat, c);
        assert(0x80_0000 <= a / b < 0x100_0000) by (nonlinear_arith)
            requires
                0x80_0000 * b <= a,
                a < 0x100_0000 * b,
                b > 0,
        {
            lemma_fundamental_div_mod(a as int, b as int);
        }
    }
    if m == 0x100_0000 {
        pack(neg, 0x80_0000, t + 1)
    } else {
        pack(neg, m as u64, t)
    }
}

/// The bits of the sum of a finite `x` times the integer `f`, rounded.
pub open spec fn product(x: u32, f: nat) -> u32 {
    if is_nan(x) {
        quieted(x)
    } else if is_infinite(x) {
        x
    } else {
        rounded(sign_bit(x), significand(x) * f, 1, exponent(x))
    }
}

/// The bits of `x` divided by the positive integer `f`, rounded.
pub open spec fn quotient(x: u32, f: nat) -> u32 {
    if is_nan(x) {
        quieted(x)
    } else if is_infinite(x) {
        x
    } else {
        rounded(sign_bit(x), significand(x), f, exponent(x))
    }
}

/// The bits of `x` rounded to an integer, halfway cases away from zero.
pub open spec fn rounded_to_integer(x: u32) -> u32 {
    if is_nan(x) {
        quieted(x)
    } else if is_infinite(x) || exponent(x) >= 0 {
        x
    } else {
        let p = pow2((-exponent(x)) as nat);
        rounded(sign_bit(x), (2 * significand(x) + p) / (2 * p), 1, 0)
    }
}

/// `10^p`.
pub open spec fn power_of_ten(p: nat) -> nat
    decreases p,
{
    if p == 0 {
        1
    } else {
        10 * power_of_ten((p - 1) as nat)
    }
}

/// The bits of `x` rounded to `places` decimal places: `x` is multiplied by `10^places`,
/// rounded to an integer and divided by `10^places` again, each step rounded.
pub open spec fn rounded_to_places(x: u32, places: nat) -> u32 {
    quotient(rounded_to_integer(product(x, power_of_ten(places))), power_of_ten(places))
}

/// The magnitude of a finite `x`, its fraction cut off.
pub open spec fn truncated_magnitude(x: u32) -> nat {
    if exponent(x) >= 0 {
        significand(x) * pow2(exponent(x) as nat)
    } else {
        significand(x) / pow2((-exponent(x)) as nat)
    }
}

/// `x` converted to a signed 32-bit integer: its fraction cut off, saturating at the
/// bounds, with NaN converted to zero.
pub open spec fn to_i32(x: u32) -> i32 {
    if is_nan(x) {
        0
    } else if is_infinite(x) {
        if sign_bit(x) { i32::MIN } else { i32::MAX }
    } else {
        let m = truncated_magnitude(x) as int;
        let v = if sign_bit(x) { -m } else { m };
        if v < i32::MIN { i32::MIN } else if v > i32::MAX { i32::MAX } else { v as i32 }
    }
}

/// `x` converted to an unsigned integer: its fraction cut off, saturating at the bounds,
/// with NaN converted to zero.
pub open spec fn to_usize(x: u32) -> usize {
    if is_nan(x) {
        0
    } else if sign_bit(x) {
        0
    } else if is_infinite(x) || truncated_magnitude(x) > usize::MAX {
        usize::MAX
    } else {
        truncated_magnitude(x) as usize
    }
}

/// The sign, biased exponent and fraction fields of `x`.
fn fields(x: u32) -> (r: (bool, u32, u32))
    ensures
        r.0 == sign_bit(x),
        r.1 == exponent_field(x),
        r.2 == fraction_field(x),
        r.1 < 256,
        r.2 < 0x80_0000,
{
    (x >= 0x8000_0000, (x % 0x8000_0000) / 0x80_0000, x % 0x80_0000)
}

/// The significand and exponent of a finite `x`.
fn significand_exponent(x: u32) -> (r: (u32, i32))
    requires
        exponent_field(x) < 255,
    ensures
        r.0 == significand(x),
        r.1 == exponent(x),
        r.0 < 0x100_0000,
        -149 <= r.1 <= 104,
        r.1 > -149 ==> r.0 >= 0x80_0000,
{
    let (_, e, f) = fields(x);
    if e == 0 {
        (f, -149)
    } else {
        (f + 0x80_0000, e as i32 - 150)
    }
}

/// The quiet NaN that the NaN `x` becomes.
fn quiet(x: u32) -> (r: u32)
    requires
        is_nan(x),
    ensures
        r == quieted(x),
        is_nan(r),
{
    if (x / 0x40_0000) % 2 == 1 {
        x
    } else {
        x + 0x40_0000
    }
}

/// `10^p` for `p <= 9`.
fn ten_to(p: u32) -> (r: u32)
    requires
        p <= 9,
    ensures
        r == power_of_ten(p as nat),
        1 <= r <= 1_000_000_000,
{
    proof {
        reveal_with_fuel(power_of_ten, 10);
    }
    match p {
        0 => 1,
        1 => 10,
        2 => 100,
        3 => 1000,
        4 => 10_000,
        5 => 100_000,
        6 => 1_000_000,
        7 => 10_000_000,
        8 => 100_000_000,
        _ => 1_000_000_000,
    }
}

/// The bits of `x + 1`, rounded.
pub open spec fn incremented(x: u32) -> u32 {
    if is_nan(x) {
        quieted(x)
    } else if is_infinite(x) {
        x
    } else {
        let m = significand(x);
        let e = exponent(x);
        if e >= 0 {
            let big = m * pow2(e as nat);
            if sign_bit(x) {
                rounded(true, (big - 1) as nat, 1, 0)
            } else {
                rounded(false, big + 1, 1, 0)
            }
        } else {
            let p = pow2((-e) as nat);
            if !sign_bit(x) {
                rounded(false, p + m, 1, e)
            } else if p >= m {
                rounded(false, (p - m) as nat, 1, e)
            } else {
                rounded(true, (m - p) as nat, 1, e)
            }
        }
    }
}

/// Encoding the sign, significand and exponent of a finite `x` gives back `x`.
pub proof fn lemma_encode_decode(x: u32)
    requires
        exponent_field(x) < 255,
    ensures
        encode(sign_bit(x), significand(x), exponent(x)) == x,
{
}

/// Where the binade of a positive value is known, rounding it is rounding at that binade.
proof fn lemma_rounded_at(neg: bool, n: nat, d: nat, k: int, t: int)
    requires
        n > 0,
        in_binade(n, d, k, t),
        t >= -149,
    ensures
        rounded(neg, n, d, k) == ({
            let m = round_half_even(scaled(n, k, t), unit(d));
            if m == 0x100_0000 {
                encode(neg, 0x80_0000, t + 1)
            } else {
                encode(neg, m, t)
            }
        }),
{
    lemma_binade_is(n, d, k, t);
}

/// Rounding `q * b + r` by `b`, for a remainder `r < b`.
proof fn lemma_round_parts(a: nat, b: nat, q: nat, r: nat)
    requires
        b > 0,
        a == q * b + r,
        r < b,
    ensures
        round_half_even(a, b) == (if 2 * r > b || (2 * r == b && q % 2 == 1) {
            q + 1
        } else {
            q
        }),
{
    lemma_fundamental_div_mod_converse(a as int, b as int, q as int, r as int);
}

/// Adding one to a number of magnitude at least `2^25` gives back the number.
proof fn lemma_increment_large(x: u32)
    requires
        exponent_field(x) < 255,
        exponent(x) >= 2,
    ensures
        incremented(x) == x,
{
    let m = significand(x);
    let e = exponent(x);
    let pe = pow2(e as nat);
    let p = pow2((400 - e) as nat);
    let u = pow2(400);
    lemma_pow2_adds(e as nat, (400 - e) as nat);
    lemma_pow2_pos((400 - e) as nat);
    lemma_pow2_adds(2, (e - 2) as nat);
    lemma_pow2_pos((e - 2) as nat);
    lemma2_to64();
    assert(pe >= 4) by (nonlinear_arith)
        requires
            pe == pow2(2) * pow2((e - 2) as nat),
            pow2(2) == 4,
            pow2((e - 2) as nat) > 0,
    ;
    assert(u == pe * p);
    assert(u >= 4 * p) by (nonlinear_arith)
        requires
            u == pe * p,
            pe >= 4,
            p > 0,
    ;
    assert(0x80_0000 <= m < 0x100_0000);
    lemma_encode_decode(x);
    if !sign_bit(x) {
        let n = m * pe + 1;
        assert(n * p == m * u + p) by (nonlinear_arith)
            requires
                n == m * pe + 1,
                u == pe * p,
        ;
        assert(scaled(n, 0, e) == n * p);
        assert(0x80_0000 * u <= m * u) by (nonlinear_arith)
            requires
                0x80_0000 <= m,
        ;
        assert(m * u + u <= 0x100_0000 * u) by (nonlinear_arith)
            requires
                m < 0x100_0000,
        ;
        lemma_rounded_at(false, n, 1, 0, e);
        lemma_round_parts(n * p, u, m, p);
    } else {
        let n = (m * pe - 1) as nat;
        assert(m * pe >= 1) by (nonlinear_arith)
            requires
                m >= 0x80_0000,
                pe >= 4,
        ;
        if m > 0x80_0000 {
            assert(n * p == (m - 1) * u + (u - p)) by (nonlinear_arith)
                requires
                    n == m * pe - 1,
                    u == pe * p,
            ;
            assert(scaled(n, 0, e) == n * p);
            assert(0x80_0000 * u <= (m - 1) * u) by (nonlinear_arith)
                requires
                    0x80_0000 < m,
            ;
            assert(m * u <= 0x100_0000 * u) by (nonlinear_arith)
                requires
                    m < 0x100_0000,
            ;
            assert((m - 1) * u + u == m * u) by (nonlinear_arith);
            lemma_rounded_at(true, n, 1, 0, e);
            lemma_round_parts(n * p, u, (m - 1) as nat, (u - p) as nat);
        } else {
            let t = e - 1;
            assert((400 - t) as nat == (400 - e) as nat + 1);
            lemma_pow2_adds((400 - e) as nat, 1);
            assert(pow2((400 - t) as nat) == 2 * p);
            assert(n * (2 * p) == (0x100_0000 - 1) * u + (u - 2 * p)) by (nonlinear_arith)
                requires
                    n == m * pe - 1,
                    m == 0x80_0000,
                    u == pe * p,
            ;
            assert(scaled(n, 0, t) == n * (2 * p));
            lemma_rounded_at(true, n, 1, 0, t);
            lemma_round_parts(n * (2 * p), u, (0x100_0000 - 1) as nat, (u - 2 * p) as nat);
        }
    }
}

/// Adding one to a number of magnitude below `2^-76` gives one.
proof fn lemma_increment_small(x: u32)
    requires
        exponent_field(x) < 255,
        exponent(x) <= -101,
    ensures
        incremented(x) == 0x3f80_0000,
{
    let m = significand(x);
    let e = exponent(x);
    let p = pow2((-e) as nat);
    let q = pow2((423 + e) as nat);
    let u = pow2(400);
    lemma2_to64();
    lemma_pow2_adds((-e) as nat, (423 + e) as nat);
    lemma_pow2_adds(23, 400);
    lemma_pow2_adds((423 + e) as nat, (-e - 23) as nat);
    lemma_pow2_pos((423 + e) as nat);
    lemma_pow2_pos((-e - 23) as nat);
    lemma_pow2_adds(24, (-e - 24) as nat);
    lemma_pow2_pos((-e - 24) as nat);
    assert(p * q == 0x80_0000 * u);
    assert(u == q * pow2((-e - 23) as nat));
    assert(pow2((-e - 23) as nat) >= 0x100_0000 * 4) by {
        lemma_pow2_adds(26, (-e - 49) as nat);
        lemma_pow2_pos((-e - 49) as nat);
        assert(pow2(26) == 0x400_0000);
        assert(pow2((-e - 23) as nat) >= pow2(26)) by (nonlinear_arith)
            requires
                pow2((-e - 23) as nat) == pow2(26) * pow2((-e - 49) as nat),
                pow2((-e - 49) as nat) > 0,
        ;
    }
    assert(4 * m * q < u) by (nonlinear_arith)
        requires
            m < 0x100_0000,
            q > 0,
            u == q * pow2((-e - 23) as nat),
            pow2((-e - 23) as nat) >= 0x100_0000 * 4,
    ;
    assert(p >= 0x100_0000) by (nonlinear_arith)
        requires
            p == pow2(24) * pow2((-e - 24) as nat),
            pow2(24) == 0x100_0000,
            pow2((-e - 24) as nat) > 0,
    ;
    assert(m * q < u) by (nonlinear_arith)
        requires
            4 * m * q < u,
    ;
    assert(unit(1) == u);
    assert(2 * m * q == 2 * (m * q) && 4 * m * q == 4 * (m * q)) by (nonlinear_arith);
    if !sign_bit(x) || m == 0 {
        let n: nat = if !sign_bit(x) { p + m } else { (p - m) as nat };
        assert(n == p + m);
        assert(n * q == 0x80_0000 * u + m * q) by (nonlinear_arith)
            requires
                n == p + m,
                p * q == 0x80_0000 * u,
        ;
        assert(scaled(n, e, -23) == n * q);
        lemma_rounded_at(false, n, 1, e, -23);
        lemma_round_parts(n * q, u, 0x80_0000, m * q);
        assert(round_half_even(n * q, u) == 0x80_0000);
        assert(encode(false, 0x80_0000, -23) == 0x3f80_0000);
        assert(rounded(false, n, 1, e) == 0x3f80_0000);
        assert(incremented(x) == rounded(false, n, 1, e));
    } else {
        let n = (p - m) as nat;
        lemma_pow2_adds((423 + e) as nat, 1);
        assert((400 + e + 24) as nat == (423 + e) as nat + 1);
        assert(scaled(n, e, -24) == n * (2 * q));
        assert(n * (2 * q) == (0x100_0000 - 1) * u + (u - 2 * m * q)) by (nonlinear_arith)
            requires
                n == p - m,
                p * q == 0x80_0000 * u,
        ;
        assert(m * q > 0) by (nonlinear_arith)
            requires
                m > 0,
                q > 0,
        ;
        assert(2 * m * q < u && 2 * m * q == 2 * (m * q)) by (nonlinear_arith)
            requires
                4 * m * q < u,
        ;
        assert(n * (2 * q) == 0x100_0000 * u - 2 * (m * q));
        lemma_rounded_at(false, n, 1, e, -24);
        lemma_round_parts(n * (2 * q), u, (0x100_0000 - 1) as nat, (u - 2 * m * q) as nat);
        assert(round_half_even(n * (2 * q), u) == 0x100_0000);
        assert(encode(false, 0x80_0000, -23) == 0x3f80_0000);
        assert(rounded(false, n, 1, e) == 0x3f80_0000);
        assert(incremented(x) == rounded(false, n, 1, e));
    }
}

impl crate::program::FloatBits {
    /// The number nearest to the integer `v`.
    pub fn from_integer(v: i64) -> (r: Self)
        ensures
            r.0 == rounded(v < 0, (if v < 0 { -(v as int) } else { v as int }) as nat, 1, 0),
    {
        let magnitude: u128 = if v < 0 { (0 - (v as i128)) as u128 } else { v as u128 };
        crate::program::FloatBits(round_to_bits(v < 0, magnitude, 1, 0))
    }

    /// This number times the positive integer `f`, rounded.
    pub fn times(self, f: u32) -> (r: Self)
        requires
            f >= 1,
        ensures
            r.0 == product(self.0, f as nat),
    {
        let (neg, e, frac) = fields(self.0);
        if e == 255 {
            if frac != 0 {
                return crate::program::FloatBits(quiet(self.0));
            }
            return self;
        }
        let (m, x) = significand_exponent(self.0);
        proof {
            assert((m as u128) * (f as u128) < 0x100_0000 * 0x1_0000_0000) by (nonlinear_arith)
                requires
                    m < 0x100_0000,
                    f < 0x1_0000_0000,
            ;
        }
        let n: u128 = (m as u128) * (f as u128);
        crate::program::FloatBits(round_to_bits(neg, n, 1, x))
    }

    /// This number divided by the positive integer `f`, rounded.
    pub fn divided_by(self, f: u32) -> (r: Self)
        requires
            f >= 1,
        ensures
            r.0 == quotient(self.0, f as nat),
    {
        let (neg, e, frac) = fields(self.0);
        if e == 255 {
            if frac != 0 {
                return crate::program::FloatBits(quiet(self.0));
            }
            return self;
        }
        let (m, x) = significand_exponent(self.0);
        crate::program::FloatBits(round_to_bits(neg, m as u128, f as u128, x))
    }

    /// This number rounded to an integer, halfway cases away from zero.
    pub fn round(self) -> (r: Self)
        ensures
            r.0 == rounded_to_integer(self.0),
    {
        let (neg, e, frac) = fields(self.0);
        if e == 255 {
            if frac != 0 {
                return crate::program::FloatBits(quiet(self.0));
            }
            return self;
        }
        let (m, x) = significand_exponent(self.0);
        if x >= 0 {
            return self;
        }
        let shift: u32 = (0 - x) as u32;
        let ghost p = pow2(shift as nat);
        if shift >= 26 {
            proof {
                lemma2_to64();
                if shift > 26 {
                    lemma_pow2_strictly_increases(26, shift as nat);
                }
                assert((2 * significand(self.0) + p) / (2 * p) == 0) by (nonlinear_arith)
                    requires
                        significand(self.0) < 0x100_0000,
                        p >= 0x400_0000,
                {
                }
            }
            return crate::program::FloatBits(round_to_bits(neg, 0, 1, 0));
        }
        let pw = two_to(shift);
        proof {
            lemma2_to64();
            if shift < 25 {
                lemma_pow2_strictly_increases(shift as nat, 25);
            }
        }
        let whole: u128 = (2 * (m as u128) + pw) / (2 * pw);
        crate::program::FloatBits(round_to_bits(neg, whole, 1, 0))
    }

    /// This number rounded to `places` decimal places, as `(x * 10^places).round() /
    /// 10^places` computes it, with `10^places` a `u32`: past nine places that power
    /// overflows, so `places` is at most nine (and the factor is then exact).
    pub fn round_places(self, places: u32) -> (r: Self)
        requires
            places <= 9,
        ensures
            r.0 == rounded_to_places(self.0, places as nat),
    {
        let factor = ten_to(places);
        self.times(factor).round().divided_by(factor)
    }

    /// This number plus one, rounded.
    pub fn plus_one(self) -> (r: Self)
        ensures
            r.0 == incremented(self.0),
    {
        let (neg, e, frac) = fields(self.0);
        if e == 255 {
            if frac != 0 {
                return crate::program::FloatBits(quiet(self.0));
            }
            return self;
        }
        let (m, x) = significand_exponent(self.0);
        if x >= 2 && x > 100 {
            proof {
                lemma_increment_large(self.0);
            }
            return self;
        }
        if x <= -101 {
            proof {
                lemma_increment_small(self.0);
            }
            return crate::program::FloatBits(0x3f80_0000);
        }
        if x >= 0 {
            let pw = two_to(x as u32);
            proof {
                lemma2_to64();
                lemma_pow2_pos(x as nat);
                if x < 100 {
                    lemma_pow2_strictly_increases(x as nat, 100);
                }
                lemma_pow2_adds(64, 36);
                lemma2_to64_rest();
                assert(m * pw < 0x100_0000 * (0x1_0000_0000_0000_0000 * 0x10_0000_0000)) by (nonlinear_arith)
                    requires
                        m < 0x100_0000,
                        pw <= 0x1_0000_0000_0000_0000 * 0x10_0000_0000,
                ;
                assert(m * pw >= 1) by (nonlinear_arith)
                    requires
                        m >= 0x80_0000,
                        pw >= 1,
                ;
            }
            let big: u128 = (m as u128) * pw;
            if neg {
                crate::program::FloatBits(round_to_bits(true, big - 1, 1, 0))
            } else {
                crate::program::FloatBits(round_to_bits(false, big + 1, 1, 0))
            }
        } else {
            let pw = two_to((0 - x) as u32);
            proof {
                lemma2_to64();
                if -x < 100 {
                    lemma_pow2_strictly_increases((-x) as nat, 100);
                }
                lemma_pow2_adds(64, 36);
                lemma2_to64_rest();
            }
            if !neg {
                crate::program::FloatBits(round_to_bits(false, pw + (m as u128), 1, x))
            } else if pw >= m as u128 {
                crate::program::FloatBits(round_to_bits(false, pw - (m as u128), 1, x))
            } else {
                crate::program::FloatBits(round_to_bits(true, (m as u128) - pw, 1, x))
            }
        }
    }

    /// This number converted to a signed 32-bit integer, as `as i32` converts.
    pub fn to_i32(self) -> (r: i32)
        ensures
            r == to_i32(self.0),
    {
        let (neg, e, frac) = fields(self.0);
        if e == 255 {
            if frac != 0 {
                return 0;
            }
            return if neg { i32::MIN } else { i32::MAX };
        }
        let (m, x) = significand_exponent(self.0);
        let magnitude: i64;
        if x >= 8 {
            proof {
                lemma2_to64();
                if x > 8 {
                    lemma_pow2_strictly_increases(8, x as nat);
                }
                assert(truncated_magnitude(self.0) >= 0x8000_0000) by (nonlinear_arith)
                    requires
                        truncated_magnitude(self.0) == significand(self.0) * pow2(x as nat),
                        significand(self.0) >= 0x80_0000,
                        pow2(x as nat) >= 0x100,
                {
                }
            }
            return if neg { i32::MIN } else { i32::MAX };
        } else if x >= 0 {
            let pw = two_to(x as u32);
            proof {
                lemma2_to64();
                if x < 7 {
                    lemma_pow2_strictly_increases(x as nat, 7);
                }
                assert(m * pw < 0x8000_0000) by (nonlinear_arith)
                    requires
                        m < 0x100_0000,
                        pw <= 0x80,
                {
                }
            }
            magnitude = ((m as u128) * pw) as i64;
        } else {
            let shift: u32 = (0 - x) as u32;
            if shift >= 25 {
                proof {
                    lemma2_to64();
                    if shift > 25 {
                        lemma_pow2_strictly_increases(25, shift as nat);
                    }
                    assert(significand(self.0) / pow2(shift as nat) == 0) by (nonlinear_arith)
                        requires
                            significand(self.0) < 0x100_0000,
                            pow2(shift as nat) >= 0x200_0000,
                    {
                    }
                }
                magnitude = 0;
            } else {
                let pw = two_to(shift);
                proof {
                    lemma_pow2_pos(shift as nat);
                }
                magnitude = ((m as u128) / pw) as i64;
            }
        }
        if neg {
            (0 - magnitude) as i32
        } else {
            magnitude as i32
        }
    }

    /// This number converted to an unsigned integer, as `as usize` converts.
    pub fn to_usize(self) -> (r: usize)
        ensures
            r == to_usize(self.0),
    {
        let (neg, e, frac) = fields(self.0);
        if e == 255 {
            if frac != 0 {
                return 0;
            }
            return if neg { 0 } else { usize::MAX };
        }
        if neg {
            return 0;
        }
        let (m, x) = significand_exponent(self.0);
        let magnitude: u128;
        if x >= 0 {
            let pw = two_to(x as u32);
            proof {
                lemma2_to64();
                lemma2_to64_rest();
                if x < 104 {
                    lemma_pow2_strictly_increases(x as nat, 104);
                }
                lemma_pow2_adds(64, 40);
                assert(m * pw < 0x1_0000_0000_0000_0000 * 0x100_0000_0000 * 0x100_0000) by (nonlinear_arith)
                    requires
                        m < 0x100_0000,
                        pw <= 0x1_0000_0000_0000_0000 * 0x100_0000_0000,
                {
                }
            }
            magnitude = (m as u128) * pw;
        } else {
            let shift: u32 = (0 - x) as u32;
            if shift >= 25 {
                proof {
                    lemma2_to64();
                    if shift > 25 {
                        lemma_pow2_strictly_increases(25, shift as nat);
                    }
                    assert(significand(self.0) / pow2(shift as nat) == 0) by (nonlinear_arith)
                        requires
                            significand(self.0) < 0x100_0000,
                            pow2(shift as nat) >= 0x200_0000,
                    {
                    }
                }
                magnitude = 0;
            } else {
                let pw = two_to(shift);
                proof {
                    lemma_pow2_pos(shift as nat);
                }
                magnitude = (m as u128) / pw;
            }
        }
        if magnitude > usize::MAX as u128 {
            usize::MAX
        } else {
            magnitude as usize
        }
    }
}
} // verus!
