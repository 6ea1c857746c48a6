//! IEEE 754 binary64 arithmetic on bit patterns.
//!
//! A finite pattern `b` without its sign bit stands for `mag(b)` times the least
//! positive number, `2^-1074`. Every operation gives the pattern nearest to the
//! exact result, and of two nearest ones the even one.

use vstd::prelude::*;
use vstd::arithmetic::power2::*;
use vstd::arithmetic::mul::*;
use vstd::arithmetic::div_mod::*;

use crate::value::{F64_INF, F64_SIGN};
use crate::value;

verus! {

/// `2^52`, the number of patterns that share an exponent.
pub const F64_STEP: u64 = 0x0010_0000_0000_0000;

/// The pattern that an invalid operation gives.
pub const F64_NAN: u64 = 0x7ff8_0000_0000_0000;

/// The magnitude of the pattern `b` (without sign) in units of `2^-1074`. The
/// pattern of infinity has the magnitude that follows the greatest finite one.
pub open spec fn mag(b: nat) -> nat {
    let e = b / (F64_STEP as nat);
    let m = b % (F64_STEP as nat);
    if e == 0 {
        m
    } else {
        (F64_STEP + m) as nat * pow2((e - 1) as nat)
    }
}

/// Whether `b` is the pattern nearest to `num / den` (in units of `2^-1074`), the
/// even one of two.
pub open spec fn rounds_to(num: nat, den: nat, b: nat) -> bool {
    &&& b <= F64_INF
    &&& b > 0 ==> {
        ||| 2 * num > (mag((b - 1) as nat) + mag(b)) * den
        ||| 2 * num == (mag((b - 1) as nat) + mag(b)) * den && b % 2 == 0
    }
    &&& b < F64_INF ==> {
        ||| 2 * num < (mag(b) + mag(b + 1)) * den
        ||| 2 * num == (mag(b) + mag(b + 1)) * den && b % 2 == 0
    }
}

/// `mag` of the pattern with `q` as its significand `k` binades up.
proof fn lemma_mag_scaled(k: nat, q: nat)
    requires
        q <= 2 * F64_STEP,
        k > 0 ==> q >= F64_STEP,
    ensures
        mag(k * F64_STEP as nat + q) == q * pow2(k),
{
    let step = F64_STEP as nat;
    let b = k * step + q;
    lemma_pow2_unfold(1);
    lemma_pow2(0);
    assert(pow2(0) == 1) by {
        lemma2_to64();
    }
    if q < step {
        assert(k == 0);
        lemma_fundamental_div_mod_converse(b as int, step as int, 0, q as int);
        assert(q * pow2(0) == q) by (nonlinear_arith)
            requires
                pow2(0) == 1,
        ;
    } else if q < 2 * step {
        assert(b == (k + 1) * step + (q - step)) by (nonlinear_arith)
            requires
                b == k * step + q,
        ;
        lemma_fundamental_div_mod_converse(b as int, step as int, k as int + 1, q - step);
    } else {
        assert(b == (k + 2) * step) by (nonlinear_arith)
            requires
                b == k * step + q,
                q == 2 * step,
        ;
        lemma_fundamental_div_mod_converse(b as int, step as int, k as int + 2, 0);
        lemma_pow2_unfold(k + 1);
        assert(step * pow2(k + 1) == q * pow2(k)) by (nonlinear_arith)
            requires
                pow2(k + 1) == 2 * pow2(k),
                q == 2 * step,
        ;
    }
}

/// The next pattern has a greater magnitude.
proof fn lemma_mag_step(b: nat)
    ensures
        mag(b) < mag(b + 1),
{
    let step = F64_STEP as nat;
    let e = b / step;
    let m = b % step;
    lemma_fundamental_div_mod(b as int, step as int);
    assert(b == e * step + m) by (nonlinear_arith)
        requires
            b == step * e + m,
    ;
    if e == 0 {
        lemma_mag_scaled(0, b);
        lemma_mag_scaled(0, b + 1);
        lemma2_to64();
    } else {
        let k = (e - 1) as nat;
        let q = step + m;
        assert(b == k * step + q) by (nonlinear_arith)
            requires
                b == e * step + m,
                k == e - 1,
                q == step + m,
        ;
        lemma_mag_scaled(k, q);
        lemma_mag_scaled(k, q + 1);
        lemma_pow2_pos(k);
        assert(q * pow2(k) < (q + 1) * pow2(k)) by (nonlinear_arith)
            requires
                pow2(k) > 0,
        ;
    }
}

/// Greater patterns have greater magnitudes.
pub proof fn lemma_mag_monotonic(a: nat, b: nat)
    requires
        a < b,
    ensures
        mag(a) < mag(b),
    decreases b - a,
{
    lemma_mag_step(a);
    if a + 1 < b {
        lemma_mag_monotonic(a + 1, b);
    }
}

/// A number rounds to one pattern only.
pub proof fn lemma_rounds_unique(num: nat, den: nat, a: nat, b: nat)
    requires
        den > 0,
        rounds_to(num, den, a),
        rounds_to(num, den, b),
    ensures
        a == b,
{
    lemma_rounds_not_above(num, den, a, b);
    lemma_rounds_not_above(num, den, b, a);
}

proof fn lemma_rounds_not_above(num: nat, den: nat, a: nat, b: nat)
    requires
        den > 0,
        rounds_to(num, den, a),
        rounds_to(num, den, b),
    ensures
        b <= a,
{
    if a < b {
        let lo = mag(a) + mag(a + 1);
        let hi = mag((b - 1) as nat) + mag(b);
        if a + 1 < b {
            lemma_mag_monotonic(a + 1, b);
            lemma_mag_monotonic(a, (b - 1) as nat);
            assert(lo * den < hi * den) by (nonlinear_arith)
                requires
                    lo < hi,
                    den > 0,
            ;
        } else {
            assert(lo == hi);
        }
    }
}

/// The pattern nearest to `num / den`.
pub open spec fn round(num: nat, den: nat) -> u64 {
    choose|b: u64| rounds_to(num, den, b as nat)
}

/// What rounds to a pattern gives that pattern.
pub proof fn lemma_round_is(num: nat, den: nat, b: u64)
    requires
        den > 0,
        rounds_to(num, den, b as nat),
    ensures
        round(num, den) == b,
{
    let c = round(num, den);
    assert(rounds_to(num, den, c as nat));
    lemma_rounds_unique(num, den, b as nat, c as nat);
}

/// Whether `num / den` is `m * 2^e` or, with `more`, lies strictly between that
/// and `(m + 1) * 2^e`.
pub open spec fn scaled(num: nat, den: nat, m: nat, e: int, more: bool) -> bool {
    let p = if e < 0 { pow2((-e) as nat) } else { 1 };
    let q = if e < 0 { 1 } else { pow2(e as nat) };
    if more {
        m * (q * den) < num * p < (m + 1) * (q * den)
    } else {
        num * p == m * (q * den)
    }
}

/// How twice `num / den` compares with an odd multiple of `kk` is how twice the
/// scaled number compares with the same odd multiple of `tt`.
proof fn lemma_half_way(num: int, den: int, p: int, q: int, tt: int, kk: int, m: int, odd: int, more: bool)
    requires
        num >= 0,
        den > 0,
        p > 0,
        q > 0,
        m >= 0,
        kk * p == tt * q,
        more ==> m * (q * den) < num * p < (m + 1) * (q * den),
        !more ==> num * p == m * (q * den),
    ensures
        2 * m > odd * tt ==> 2 * num > odd * kk * den,
        2 * m == odd * tt && !more ==> 2 * num == odd * kk * den,
        2 * m == odd * tt && more ==> 2 * num > odd * kk * den,
        2 * m < odd * tt && !more ==> 2 * num < odd * kk * den,
        2 * m + 2 <= odd * tt && more ==> 2 * num < odd * kk * den,
{
    let d = q * den;
    assert(d > 0) by (nonlinear_arith)
        requires
            d == q * den,
            q > 0,
            den > 0,
    ;
    // the target, multiplied by p
    assert((odd * kk * den) * p == (odd * tt) * d) by (nonlinear_arith)
        requires
            kk * p == tt * q,
            d == q * den,
    ;
    assert((2 * num) * p == 2 * (num * p)) by (nonlinear_arith);
    let x = odd * tt;
    let y = odd * kk * den;
    if 2 * m > x {
        assert((2 * m) * d >= (x + 1) * d) by (nonlinear_arith)
            requires
                2 * m >= x + 1,
                d > 0,
        ;
        assert(2 * (m * d) == (2 * m) * d) by (nonlinear_arith);
        assert((x + 1) * d == x * d + d) by (nonlinear_arith);
        assert((2 * num) * p > y * p);
        lemma_mul_strict_inequality_converse(y, 2 * num, p);
    }
    if 2 * m == x {
        assert(2 * (m * d) == (2 * m) * d) by (nonlinear_arith);
        if more {
            assert((2 * num) * p > y * p);
            lemma_mul_strict_inequality_converse(y, 2 * num, p);
        } else {
            assert((2 * num) * p == y * p);
            assert(p * (2 * num) == p * y) by (nonlinear_arith)
                requires
                    (2 * num) * p == y * p,
            ;
            lemma_mul_equality_converse(p, 2 * num, y);
        }
    }
    if 2 * m < x && !more {
        assert((2 * m) * d < x * d) by (nonlinear_arith)
            requires
                2 * m < x,
                d > 0,
        ;
        assert(2 * (m * d) == (2 * m) * d) by (nonlinear_arith);
        assert((2 * num) * p < y * p);
        lemma_mul_strict_inequality_converse(2 * num, y, p);
    }
    if 2 * m + 2 <= x && more {
        assert((2 * m + 2) * d <= x * d) by (nonlinear_arith)
            requires
                2 * m + 2 <= x,
                d > 0,
        ;
        assert(2 * ((m + 1) * d) == (2 * m + 2) * d) by (nonlinear_arith);
        assert((2 * num) * p < y * p);
        lemma_mul_strict_inequality_converse(2 * num, y, p);
    }
}

/// The two scales of [`scaled`] and the powers of a shift by `t` to the exponent
/// `k` belong together.
proof fn lemma_shift(e: int, k: nat, t: nat)
    requires
        k - t == e,
    ensures
        ({
            let p = if e < 0 { pow2((-e) as nat) } else { 1 };
            let q = if e < 0 { 1 } else { pow2(e as nat) };
            &&& p > 0
            &&& q > 0
            &&& pow2(k) * p == pow2(t) * q
        }),
{
    if e < 0 {
        lemma_pow2_pos((-e) as nat);
        lemma_pow2_adds(k, (-e) as nat);
    } else {
        lemma_pow2_pos(e as nat);
        lemma_pow2_adds(t, e as nat);
    }
}

/// Rounding down to the significand `q` is right below half way.
proof fn lemma_round_down(num: nat, den: nat, m: nat, e: int, more: bool, k: nat, t: nat, q: nat, r: nat)
    requires
        den > 0,
        scaled(num, den, m, e, more),
        k - t == e,
        t >= 1,
        m == q * pow2(t) + r,
        q < 2 * F64_STEP,
        k > 0 ==> q >= F64_STEP,
        k <= 2045,
        2 * r < pow2(t) || (2 * r == pow2(t) && !more && q % 2 == 0),
    ensures
        rounds_to(num, den, k * F64_STEP as nat + q),
{
    let tt = pow2(t) as int;
    let kk = pow2(k) as int;
    let pp: int = if e < 0 { pow2((-e) as nat) as int } else { 1 };
    let qq: int = if e < 0 { 1 } else { pow2(e as nat) as int };
    let b = k * F64_STEP as nat + q;
    lemma_shift(e, k, t);
    lemma_mag_scaled(k, q);
    lemma_mag_scaled(k, q + 1);
    lemma_pow2_unfold(t);
    let half = pow2((t - 1) as nat) as int;
    assert(tt == 2 * half);
    // above: the middle to the next pattern
    let odd = 2 * q + 1;
    assert(odd * tt == 2 * (q * tt) + tt) by (nonlinear_arith)
        requires
            odd == 2 * q + 1,
    ;
    lemma_half_way(num as int, den as int, pp, qq, tt, kk, m as int, odd as int, more);
    assert(odd * kk * den == (mag(b) + mag(b + 1)) * den) by {
        assert(q * kk + (q + 1) * kk == odd * kk) by (nonlinear_arith)
            requires
                odd == 2 * q + 1,
        ;
    }
    // below: the number is at least the pattern itself
    let even = 2 * q;
    assert(even * tt == 2 * (q * tt)) by (nonlinear_arith)
        requires
            even == 2 * q,
    ;
    lemma_half_way(num as int, den as int, pp, qq, tt, kk, m as int, even as int, more);
    if b > 0 {
        lemma_mag_step((b - 1) as nat);
        assert(even * kk * den > (mag((b - 1) as nat) + mag(b)) * den) by (nonlinear_arith)
            requires
                mag(b) == q * kk,
                even == 2 * q,
                mag((b - 1) as nat) < mag(b),
                den > 0,
        ;
    }
    assert(b % 2 == q % 2) by {
        assert(b == 2 * (k * 0x0008_0000_0000_0000) + q) by (nonlinear_arith)
            requires
                b == k * F64_STEP as nat + q,
                F64_STEP == 0x0010_0000_0000_0000u64,
        ;
    }
    assert(b <= F64_INF) by (nonlinear_arith)
        requires
            b == k * F64_STEP as nat + q,
            k <= 2045,
            q <= 2 * F64_STEP,
            F64_INF == 2047 * F64_STEP,
    ;
}

/// Rounding up to the significand `q + 1` is right above half way.
proof fn lemma_round_up(num: nat, den: nat, m: nat, e: int, more: bool, k: nat, t: nat, q: nat, r: nat)
    requires
        den > 0,
        scaled(num, den, m, e, more),
        k - t == e,
        t >= 1,
        m == q * pow2(t) + r,
        r < pow2(t),
        q < 2 * F64_STEP,
        k > 0 ==> q >= F64_STEP,
        k <= 2045,
        2 * r > pow2(t) || (2 * r == pow2(t) && (more || q % 2 == 1)),
    ensures
        rounds_to(num, den, k * F64_STEP as nat + q + 1),
{
    let tt = pow2(t) as int;
    let kk = pow2(k) as int;
    let pp: int = if e < 0 { pow2((-e) as nat) as int } else { 1 };
    let qq: int = if e < 0 { 1 } else { pow2(e as nat) as int };
    let b = k * F64_STEP as nat + q + 1;
    lemma_shift(e, k, t);
    lemma_mag_scaled(k, q);
    lemma_mag_scaled(k, q + 1);
    // below: the middle to the pattern before
    let odd = 2 * q + 1;
    assert(odd * tt == 2 * (q * tt) + tt) by (nonlinear_arith)
        requires
            odd == 2 * q + 1,
    ;
    lemma_half_way(num as int, den as int, pp, qq, tt, kk, m as int, odd as int, more);
    assert(odd * kk * den == (mag((b - 1) as nat) + mag(b)) * den) by {
        assert(q * kk + (q + 1) * kk == odd * kk) by (nonlinear_arith)
            requires
                odd == 2 * q + 1,
        ;
    }
    // above: the number is less than the pattern itself
    let even = 2 * q + 2;
    assert(even * tt == 2 * (q * tt) + 2 * tt) by (nonlinear_arith)
        requires
            even == 2 * q + 2,
    ;
    lemma_half_way(num as int, den as int, pp, qq, tt, kk, m as int, even as int, more);
    lemma_mag_step(b);
    assert(even * kk * den < (mag(b) + mag(b + 1)) * den) by (nonlinear_arith)
        requires
            mag(b) == (q + 1) * kk,
            even == 2 * q + 2,
            mag(b) < mag(b + 1),
            den > 0,
    ;
    assert(b % 2 == (q + 1) % 2) by {
        assert(b == 2 * (k * 0x0008_0000_0000_0000) + q + 1) by (nonlinear_arith)
            requires
                b == k * F64_STEP as nat + q + 1,
                F64_STEP == 0x0010_0000_0000_0000u64,
        ;
    }
    assert(b <= F64_INF) by (nonlinear_arith)
        requires
            b == k * F64_STEP as nat + q + 1,
            k <= 2045,
            q < 2 * F64_STEP,
            F64_INF == 2047 * F64_STEP,
    ;
}

/// A number that is a magnitude rounds to its pattern.
pub proof fn lemma_round_exact(num: nat, den: nat, b: nat)
    requires
        den > 0,
        b < F64_INF,
        num == mag(b) * den,
    ensures
        rounds_to(num, den, b),
{
    lemma_mag_step(b);
    assert(2 * num < (mag(b) + mag(b + 1)) * den) by (nonlinear_arith)
        requires
            num == mag(b) * den,
            mag(b) < mag(b + 1),
            den > 0,
    ;
    if b > 0 {
        lemma_mag_step((b - 1) as nat);
        assert(2 * num > (mag((b - 1) as nat) + mag(b)) * den) by (nonlinear_arith)
            requires
                num == mag(b) * den,
                mag((b - 1) as nat) < mag(b),
                den > 0,
        ;
    }
}

/// A number not below the magnitude that follows the greatest finite one rounds
/// to infinity.
proof fn lemma_round_overflow(num: nat, den: nat)
    requires
        den > 0,
        num >= mag(F64_INF as nat) * den,
    ensures
        rounds_to(num, den, F64_INF as nat),
{
    let b = F64_INF as nat;
    lemma_mag_step((b - 1) as nat);
    assert(2 * num > (mag((b - 1) as nat) + mag(b)) * den) by (nonlinear_arith)
        requires
            num >= mag(b) * den,
            mag((b - 1) as nat) < mag(b),
            den > 0,
    ;
}

/// `2^t`.
fn power_of_two(t: u32) -> (res: u128)
    requires
        t < 128,
    ensures
        res == pow2(t as nat),
{
    let mut res: u128 = 1;
    let mut i: u32 = 0;
    proof {
        lemma2_to64();
        lemma_pow2_127();
    }
    while i < t
        invariant
            i <= t < 128,
            res == pow2(i as nat),
            pow2(127) == 0x8000_0000_0000_0000_0000_0000_0000_0000,
        decreases t - i,
    {
        proof {
            lemma_pow2_unfold((i + 1) as nat);
            if i + 1 < 127 {
                lemma_pow2_strictly_increases((i + 1) as nat, 127);
            }
        }
        res = 2 * res;
        i += 1;
    }
    res
}

proof fn lemma_pow2_127()
    ensures
        pow2(127) == 0x8000_0000_0000_0000_0000_0000_0000_0000,
        pow2(128) == 0x1_0000_0000_0000_0000_0000_0000_0000_0000,
        pow2(52) == F64_STEP,
        pow2(53) == 2 * F64_STEP,
        pow2(0) == 1,
{
    lemma2_to64();
    lemma2_to64_rest();
    lemma_pow2_adds(64, 63);
    lemma_pow2_adds(64, 64);
}

/// The number of binary digits of `m`.
fn bit_length(m: u128) -> (res: u32)
    requires
        m > 0,
    ensures
        1 <= res <= 128,
        pow2((res - 1) as nat) <= m < pow2(res as nat),
{
    let mut rest: u128 = m;
    let mut len: u32 = 0;
    proof {
        lemma_pow2_127();
    }
    while rest > 0
        invariant
            len <= 128,
            m > 0,
            rest * pow2(len as nat) <= m < (rest + 1) * pow2(len as nat),
            rest == 0 ==> len >= 1 && pow2((len - 1) as nat) <= m,
            pow2(128) == 0x1_0000_0000_0000_0000_0000_0000_0000_0000,
        decreases rest,
    {
        proof {
            let w = pow2(len as nat);
            lemma_pow2_unfold((len + 1) as nat);
            assert(rest * w <= m);
            assert(w <= m) by (nonlinear_arith)
                requires
                    rest * w <= m,
                    rest >= 1,
            ;
            if len == 128 {
                assert(m < 0x1_0000_0000_0000_0000_0000_0000_0000_0000);
            }
            let h = rest / 2;
            assert(h * (2 * w) <= m < (h + 1) * (2 * w)) by (nonlinear_arith)
                requires
                    rest * w <= m < (rest + 1) * w,
                    rest == 2 * h || rest == 2 * h + 1,
            ;
        }
        rest = rest / 2;
        len += 1;
    }
    assert((0 + 1) * pow2(len as nat) == pow2(len as nat)) by (nonlinear_arith);
    len
}

/// The pattern nearest to `m * 2^e` or, with `more`, to a number strictly between
/// that and `(m + 1) * 2^e`.
fn pack(m: u128, e: i32, more: bool) -> (res: u64)
    requires
        m > 0,
        -10000 <= e <= 10000,
        more ==> m >= 0x0800_0000_0000_0000,
    ensures
        res <= F64_INF,
        forall|num: nat, den: nat|
            den > 0 && #[trigger] scaled(num, den, m as nat, e as int, more) ==> rounds_to(
                num,
                den,
                res as nat,
            ),
{
    let len = bit_length(m);
    proof {
        lemma_pow2_127();
        lemma2_to64_rest();
        if more && len <= 59 {
            if len < 59 {
                lemma_pow2_strictly_increases(len as nat, 59);
            }
        }
    }
    let top: i32 = e + len as i32 - 53;
    let k: i32 = if top > 0 { top } else { 0 };
    if k > 2045 {
        proof {
            assert forall|num: nat, den: nat|
                den > 0 && #[trigger] scaled(num, den, m as nat, e as int, more) implies rounds_to(
                num,
                den,
                F64_INF as nat,
            ) by {
                lemma_pack_overflow(num, den, m as nat, e as int, more, len as nat);
            }
        }
        return F64_INF;
    }
    if k <= e {
        // the number is a significand with nothing behind it
        let up: u32 = (e - k) as u32;
        let w = power_of_two(up);
        proof {
            lemma_pow2_pos(up as nat);
            lemma_pow2_adds(len as nat, up as nat);
            if len + up < 53 {
                lemma_pow2_strictly_increases((len + up) as nat, 53);
            }
            assert(m * w < pow2(len as nat) * w) by (nonlinear_arith)
                requires
                    m < pow2(len as nat),
                    w > 0,
            ;
            if k > 0 {
                lemma_pow2_adds((len - 1) as nat, up as nat);
                assert(m * w >= pow2((len - 1) as nat) * w) by (nonlinear_arith)
                    requires
                        m >= pow2((len - 1) as nat),
                        w > 0,
                ;
            }
        }
        let q = m * w;
        let res: u64 = k as u64 * F64_STEP + q as u64;
        proof {
            assert(!more);
            lemma_mag_scaled(k as nat, q as nat);
            assert forall|num: nat, den: nat|
                den > 0 && #[trigger] scaled(num, den, m as nat, e as int, more) implies rounds_to(
                num,
                den,
                res as nat,
            ) by {
                lemma_pow2_adds(up as nat, k as nat);
                assert(num == m * (pow2(e as nat) * den));
                assert(num == mag(res as nat) * den) by (nonlinear_arith)
                    requires
                        num == m * (pow2(e as nat) * den),
                        pow2(e as nat) == w * pow2(k as nat),
                        mag(res as nat) == q * pow2(k as nat),
                        q == m * w,
                ;
                lemma_round_exact(num, den, res as nat);
            }
        }
        return res;
    }
    let t: u32 = (k - e) as u32;
    if t >= 129 {
        // less than half of the least magnitude
        proof {
            assert(k == 0);
            if t > 129 {
                lemma_pow2_strictly_increases(129, t as nat);
            }
            lemma_pow2_unfold(129);
            assert forall|num: nat, den: nat|
                den > 0 && #[trigger] scaled(num, den, m as nat, e as int, more) implies rounds_to(
                num,
                den,
                0,
            ) by {
                assert(0 * pow2(t as nat) == 0) by (nonlinear_arith);
                lemma_round_down(num, den, m as nat, e as int, more, 0, t as nat, 0, m as nat);
            }
        }
        return 0;
    }
    let half = power_of_two(t - 1);
    proof {
        lemma_pow2_unfold(t as nat);
        lemma_pow2_pos((t - 1) as nat);
        if t < 127 {
            lemma_pow2_strictly_increases(t as nat, 127);
        }
    }
    let (q, r): (u128, u128) = if t == 128 {
        (0, m)
    } else {
        (m / (2 * half), m % (2 * half))
    };
    proof {
        let w = pow2(t as nat);
        assert(m == q * w + r && r < w) by {
            if t == 128 {
                assert(0 * w == 0) by (nonlinear_arith);
            } else {
                lemma_fundamental_div_mod(m as int, w as int);
                assert(w * q == q * w) by (nonlinear_arith);
            }
        }
        // q < 2^53
        lemma_pow2_pos(t as nat);
        lemma_pow2_adds(53, t as nat);
        if len < 53 + t {
            lemma_pow2_strictly_increases(len as nat, (53 + t) as nat);
        }
        assert(q < 2 * F64_STEP) by (nonlinear_arith)
            requires
                m == q * w + r,
                m < 2 * F64_STEP * w,
                w > 0,
                r >= 0,
        ;
        if k > 0 {
            lemma_pow2_adds(52, t as nat);
            assert(len - 1 == 52 + t);
            assert(q >= F64_STEP) by (nonlinear_arith)
                requires
                    m == q * w + r,
                    m >= F64_STEP * w,
                    r < w,
                    w > 0,
            ;
        }
    }
    let up = r > half || (r == half && (more || q % 2 == 1));
    let base: u64 = k as u64 * F64_STEP + q as u64;
    if up {
        proof {
            assert forall|num: nat, den: nat|
                den > 0 && #[trigger] scaled(num, den, m as nat, e as int, more) implies rounds_to(
                num,
                den,
                (base + 1) as nat,
            ) by {
                lemma_round_up(
                    num,
                    den,
                    m as nat,
                    e as int,
                    more,
                    k as nat,
                    t as nat,
                    q as nat,
                    r as nat,
                );
            }
        }
        base + 1
    } else {
        proof {
            assert forall|num: nat, den: nat|
                den > 0 && #[trigger] scaled(num, den, m as nat, e as int, more) implies rounds_to(
                num,
                den,
                base as nat,
            ) by {
                lemma_round_down(
                    num,
                    den,
                    m as nat,
                    e as int,
                    more,
                    k as nat,
                    t as nat,
                    q as nat,
                    r as nat,
                );
            }
        }
        base
    }
}

proof fn lemma_pack_overflow(num: nat, den: nat, m: nat, e: int, more: bool, len: nat)
    requires
        den > 0,
        1 <= len <= 128,
        pow2((len - 1) as nat) <= m,
        e + len - 53 > 2045,
        scaled(num, den, m, e, more),
    ensures
        rounds_to(num, den, F64_INF as nat),
{
    let inf = F64_INF as nat;
    assert(inf == 2045 * F64_STEP as nat + 2 * F64_STEP as nat);
    lemma_mag_scaled(2045, 2 * F64_STEP as nat);
    lemma_pow2_127();
    lemma_pow2_adds(53, 2045);
    lemma_pow2_adds((len - 1) as nat, e as nat);
    let top = (len - 1 + e) as nat;
    if 2098 < top {
        lemma_pow2_strictly_increases(2098, top);
    }
    let w = pow2(e as nat);
    assert(num >= m * (w * den)) by (nonlinear_arith)
        requires
            num * 1 >= m * (w * den),
    ;
    assert(num >= mag(inf) * den) by (nonlinear_arith)
        requires
            num >= m * (w * den),
            m >= pow2((len - 1) as nat),
            pow2((len - 1) as nat) * w >= mag(inf),
            den > 0,
    ;
    lemma_round_overflow(num, den);
}

/// `2^1074`, the number of units in one.
pub open spec fn units() -> nat {
    pow2(1074)
}

/// The pattern without its sign bit.
pub open spec fn magnitude_bits(b: u64) -> u64 {
    if b < F64_SIGN { b } else { (b - F64_SIGN) as u64 }
}

/// The pattern `m` with a sign.
pub open spec fn signed(negative: bool, m: u64) -> u64 {
    if negative { (m + F64_SIGN) as u64 } else { m }
}

/// The pattern nearest to an integer.
pub open spec fn int_to_f64(v: int) -> u64 {
    if v < 0 { signed(true, round(((-v) * units()) as nat, 1)) } else { round((v * units()) as nat, 1) }
}

fn with_sign(negative: bool, m: u64) -> (res: u64)
    requires
        m <= F64_INF,
    ensures
        res == signed(negative, m),
{
    if negative { m + F64_SIGN } else { m }
}

/// The pattern nearest to an unsigned integer.
pub fn f64_from_u64(v: u64) -> (res: u64)
    ensures
        res == int_to_f64(v as int),
        res <= F64_INF,
{
    if v == 0 {
        proof {
            assert(mag(0) == 0);
            assert(0 * units() == 0) by (nonlinear_arith);
            lemma_round_exact(0, 1, 0);
            lemma_round_is(0, 1, 0);
        }
        return 0;
    }
    let res = pack(v as u128, 1074, false);
    proof {
        let num = v as nat * units();
        assert(num * 1 == v as nat * (pow2(1074) * 1)) by (nonlinear_arith)
            requires
                num == v as nat * pow2(1074),
        ;
        assert(scaled(num, 1, v as nat, 1074, false));
        lemma_round_is(num, 1, res);
    }
    res
}

/// The pattern nearest to a signed integer.
pub fn f64_from_i64(v: i64) -> (res: u64)
    ensures
        res == int_to_f64(v as int),
{
    if v >= 0 {
        f64_from_u64(v as u64)
    } else {
        let m: u64 = (-(v as i128)) as u64;
        let r = f64_from_u64(m);
        with_sign(true, r)
    }
}

// ---- binary32 ----

/// `2^23`, the number of binary32 patterns that share an exponent.
pub const F32_STEP: u32 = 0x0080_0000;

/// The magnitude of a binary32 pattern (without sign) in units of `2^-149`.
pub open spec fn mag32(b: nat) -> nat {
    let e = b / (F32_STEP as nat);
    let m = b % (F32_STEP as nat);
    if e == 0 {
        m
    } else {
        (F32_STEP + m) as nat * pow2((e - 1) as nat)
    }
}

/// The binary64 pattern of a binary32 number: the same number, since every
/// magnitude in units of `2^-149` is one in units of `2^-1074`.
pub open spec fn f32_to_f64(b: u32) -> u64 {
    let negative = b >= value::F32_SIGN;
    let m = if negative { (b - value::F32_SIGN) as u32 } else { b };
    if m > value::F32_INF {
        F64_NAN
    } else if m == value::F32_INF {
        signed(negative, F64_INF)
    } else {
        signed(negative, round(mag32(m as nat) * pow2(925), 1))
    }
}

/// Widens a binary32 number.
pub fn f64_from_f32(b: u32) -> (res: u64)
    ensures
        res == f32_to_f64(b),
{
    let negative = b >= value::F32_SIGN;
    let bits: u32 = if negative { b - value::F32_SIGN } else { b };
    if bits > value::F32_INF {
        return F64_NAN;
    }
    if bits == value::F32_INF {
        return with_sign(negative, F64_INF);
    }
    let e: u32 = bits / F32_STEP;
    let (m, x): (u32, i32) = if e == 0 {
        (bits, 0)
    } else {
        (F32_STEP + bits % F32_STEP, e as i32 - 1)
    };
    proof {
        lemma2_to64();
        assert(mag32(bits as nat) == m * pow2(x as nat)) by {
            if e == 0 {
                assert(m * pow2(0) == m) by (nonlinear_arith)
                    requires
                        pow2(0) == 1,
                ;
            }
        }
        lemma_pow2_adds(x as nat, 925);
    }
    let ghost num = mag32(bits as nat) * pow2(925);
    let r: u64 = if m == 0 {
        proof {
            assert(num == 0) by (nonlinear_arith)
                requires
                    num == (m * pow2(x as nat)) * pow2(925),
                    m == 0,
            ;
            assert(mag(0) == 0);
            lemma_round_exact(0, 1, 0);
            lemma_round_is(0, 1, 0);
        }
        0
    } else {
        let r = pack(m as u128, 925 + x, false);
        proof {
            assert(num * 1 == m as nat * (pow2((925 + x) as nat) * 1)) by (nonlinear_arith)
                requires
                    num == (m as nat * pow2(x as nat)) * pow2(925),
                    pow2((925 + x) as nat) == pow2(x as nat) * pow2(925),
            ;
            assert(scaled(num, 1, m as nat, 925 + x, false));
            lemma_round_is(num, 1, r);
        }
        r
    };
    with_sign(negative, r)
}

// ---- operations ----

/// Whether the pattern has the sign bit.
pub open spec fn negative(b: u64) -> bool {
    b >= F64_SIGN
}

/// The product of two numbers.
pub open spec fn f64_product(a: u64, b: u64) -> u64 {
    let s = negative(a) != negative(b);
    let x = magnitude_bits(a);
    let y = magnitude_bits(b);
    if x > F64_INF || y > F64_INF {
        F64_NAN
    } else if x == F64_INF || y == F64_INF {
        if x == 0 || y == 0 { F64_NAN } else { signed(s, F64_INF) }
    } else {
        signed(s, round(mag(x as nat) * mag(y as nat), units()))
    }
}

/// The quotient of two numbers.
pub open spec fn f64_quotient(a: u64, b: u64) -> u64 {
    let s = negative(a) != negative(b);
    let x = magnitude_bits(a);
    let y = magnitude_bits(b);
    if x > F64_INF || y > F64_INF {
        F64_NAN
    } else if x == F64_INF {
        if y == F64_INF { F64_NAN } else { signed(s, F64_INF) }
    } else if y == F64_INF {
        signed(s, 0)
    } else if y == 0 {
        if x == 0 { F64_NAN } else { signed(s, F64_INF) }
    } else {
        signed(s, round(mag(x as nat) * units(), mag(y as nat)))
    }
}

/// The value of a finite pattern in units of `2^-1074`.
pub open spec fn finite_value(b: u64) -> int {
    if negative(b) { -(mag(magnitude_bits(b) as nat) as int) } else { mag(b as nat) as int }
}

/// The sum of two numbers. An exact zero is positive unless both are negative.
pub open spec fn f64_total(a: u64, b: u64) -> u64 {
    let x = magnitude_bits(a);
    let y = magnitude_bits(b);
    if x > F64_INF || y > F64_INF {
        F64_NAN
    } else if x == F64_INF {
        if y == F64_INF && negative(a) != negative(b) { F64_NAN } else { a }
    } else if y == F64_INF {
        b
    } else {
        let v = finite_value(a) + finite_value(b);
        if v == 0 {
            signed(negative(a) && negative(b), 0)
        } else if v > 0 {
            round(v as nat, 1)
        } else {
            signed(true, round((-v) as nat, 1))
        }
    }
}

/// The number with the other sign.
pub open spec fn f64_negated(b: u64) -> u64 {
    if negative(b) { (b - F64_SIGN) as u64 } else { (b + F64_SIGN) as u64 }
}

/// The difference of two numbers.
pub open spec fn f64_difference(a: u64, b: u64) -> u64 {
    f64_total(a, f64_negated(b))
}

/// Whether `a` is less than `b`.
pub open spec fn f64_less(a: u64, b: u64) -> bool {
    !value::f64_is_nan(a) && !value::f64_is_nan(b) && value::f64_rank(a) < value::f64_rank(b)
}

/// The greater of two numbers; of a NaN and a number, the number.
pub open spec fn f64_greater(a: u64, b: u64) -> u64 {
    if value::f64_is_nan(a) || f64_less(a, b) { b } else { a }
}

/// The integer part of a number, cut to the range of `u64`; `0` of a NaN.
pub open spec fn f64_floor(b: u64) -> u64 {
    let x = magnitude_bits(b);
    if x > F64_INF || negative(b) {
        0
    } else if x == F64_INF || mag(x as nat) / units() > u64::MAX {
        u64::MAX
    } else {
        (mag(x as nat) / units()) as u64
    }
}

/// The significand and the exponent of a finite pattern without sign.
fn split(b: u64) -> (res: (u64, i32))
    requires
        b < F64_INF,
    ensures
        res.0 < 2 * F64_STEP,
        0 <= res.1 <= 2045,
        res.1 > 0 ==> res.0 >= F64_STEP,
        mag(b as nat) == res.0 as nat * pow2(res.1 as nat),
        (res.0 == 0) == (b == 0),
        b / F64_STEP > 0 ==> res.1 == b / F64_STEP - 1,
        b / F64_STEP == 0 ==> res.1 == 0,
{
    let e: u64 = b / F64_STEP;
    let m: u64 = b % F64_STEP;
    if e == 0 {
        proof {
            lemma2_to64();
            assert(m * pow2(0) == m) by (nonlinear_arith)
                requires
                    pow2(0) == 1,
            ;
        }
        (m, 0)
    } else {
        (F64_STEP + m, (e - 1) as i32)
    }
}

proof fn lemma_round_zero(den: nat)
    requires
        den > 0,
    ensures
        round(0, den) == 0,
{
    assert(mag(0) == 0);
    assert(0 * den == 0) by (nonlinear_arith);
    lemma_round_exact(0, den, 0);
    lemma_round_is(0, den, 0);
}

/// Multiplies two numbers.
pub fn f64_mul(a: u64, b: u64) -> (res: u64)
    ensures
        res == f64_product(a, b),
{
    let na = a >= F64_SIGN;
    let nb = b >= F64_SIGN;
    let x: u64 = if na { a - F64_SIGN } else { a };
    let y: u64 = if nb { b - F64_SIGN } else { b };
    if x > F64_INF || y > F64_INF {
        return F64_NAN;
    }
    if x == F64_INF || y == F64_INF {
        if x == 0 || y == 0 {
            return F64_NAN;
        }
        return with_sign(na != nb, F64_INF);
    }
    let (m, e) = split(x);
    let (n, f) = split(y);
    let ghost num = mag(x as nat) * mag(y as nat);
    proof {
        lemma_pow2_pos(1074);
    }
    if m == 0 || n == 0 {
        proof {
            assert(num == 0) by (nonlinear_arith)
                requires
                    num == mag(x as nat) * mag(y as nat),
                    mag(x as nat) == m as nat * pow2(e as nat),
                    mag(y as nat) == n as nat * pow2(f as nat),
                    m == 0 || n == 0,
            ;
            lemma_round_zero(units());
        }
        return with_sign(na != nb, 0);
    }
    assert(0 < m * n < 0x1_0000_0000_0000_0000_0000_0000_0000_0000) by (nonlinear_arith)
        requires
            0 < m < 2 * F64_STEP,
            0 < n < 2 * F64_STEP,
            F64_STEP == 0x0010_0000_0000_0000u64,
    ;
    let p: u128 = m as u128 * n as u128;
    let g: i32 = e + f - 1074;
    let r = pack(p, g, false);
    proof {
        let w = if g < 0 { pow2((-g) as nat) } else { 1 };
        let q = if g < 0 { 1 } else { pow2(g as nat) };
        assert(pow2(e as nat) * pow2(f as nat) * w == q * pow2(1074)) by {
            lemma_pow2_adds(e as nat, f as nat);
            if g < 0 {
                lemma_pow2_adds((e + f) as nat, (-g) as nat);
            } else {
                lemma_pow2_adds(g as nat, 1074);
            }
        }
        assert(num * w == p as nat * (q * units())) by (nonlinear_arith)
            requires
                num == mag(x as nat) * mag(y as nat),
                mag(x as nat) == m as nat * pow2(e as nat),
                mag(y as nat) == n as nat * pow2(f as nat),
                p == m * n,
                pow2(e as nat) * pow2(f as nat) * w == q * pow2(1074),
                units() == pow2(1074),
        ;
        assert(scaled(num, units(), p as nat, g as int, false));
        lemma_round_is(num, units(), r);
    }
    with_sign(na != nb, r)
}

/// Divides two numbers.
pub fn f64_div(a: u64, b: u64) -> (res: u64)
    ensures
        res == f64_quotient(a, b),
{
    let na = a >= F64_SIGN;
    let nb = b >= F64_SIGN;
    let x: u64 = if na { a - F64_SIGN } else { a };
    let y: u64 = if nb { b - F64_SIGN } else { b };
    if x > F64_INF || y > F64_INF {
        return F64_NAN;
    }
    if x == F64_INF {
        if y == F64_INF {
            return F64_NAN;
        }
        return with_sign(na != nb, F64_INF);
    }
    if y == F64_INF {
        return with_sign(na != nb, 0);
    }
    if y == 0 {
        if x == 0 {
            return F64_NAN;
        }
        return with_sign(na != nb, F64_INF);
    }
    let (m, e) = split(x);
    let (n, f) = split(y);
    let ghost num = mag(x as nat) * units();
    let ghost den = mag(y as nat);
    proof {
        lemma_pow2_pos(f as nat);
        assert(den > 0) by (nonlinear_arith)
            requires
                den == n as nat * pow2(f as nat),
                n > 0,
                pow2(f as nat) > 0,
        ;
    }
    if m == 0 {
        proof {
            assert(num == 0) by (nonlinear_arith)
                requires
                    num == (m as nat * pow2(e as nat)) * units(),
                    m == 0,
            ;
            lemma_round_zero(den);
        }
        return with_sign(na != nb, 0);
    }
    // bring the dividend to at least 2^125
    let len = bit_length(m as u128);
    proof {
        lemma_pow2_127();
        lemma2_to64_rest();
        if len > 53 {
            if 53 < len - 1 {
                lemma_pow2_strictly_increases(53, (len - 1) as nat);
            }
        }
    }
    let up: u32 = 126 - len;
    let w = power_of_two(up);
    proof {
        lemma_pow2_adds(len as nat, up as nat);
        lemma_pow2_adds((len - 1) as nat, up as nat);
        lemma_pow2_unfold(127);
        lemma_pow2_unfold(126);
        lemma_pow2_pos(up as nat);
        assert(m * w < pow2(126)) by (nonlinear_arith)
            requires
                m < pow2(len as nat),
                w > 0,
                pow2(126) == pow2(len as nat) * w,
        ;
        assert(m * w >= pow2(125)) by (nonlinear_arith)
            requires
                m >= pow2((len - 1) as nat),
                w > 0,
                pow2(125) == pow2((len - 1) as nat) * w,
        ;
    }
    let dividend: u128 = m as u128 * w;
    let q: u128 = dividend / (n as u128);
    let more: bool = dividend % (n as u128) != 0;
    proof {
        lemma_fundamental_div_mod(dividend as int, n as int);
        lemma_pow2_adds(72, 53);
        lemma_pow2_adds(64, 8);
        assert(q >= 0x0800_0000_0000_0000) by (nonlinear_arith)
            requires
                dividend == n * q + dividend % (n as u128),
                dividend % (n as u128) < n,
                dividend >= 0x1000_0000_0000_0000u64 * (2 * F64_STEP),
                0 < n < 2 * F64_STEP,
        ;
    }
    let g: i32 = e - f - up as i32 + 1074;
    let r = pack(q, g, more);
    proof {
        let pp = if g < 0 { pow2((-g) as nat) } else { 1 };
        let qq = if g < 0 { 1 } else { pow2(g as nat) };
        // pow2(e) * 2^1074 * pp == qq * w * pow2(f)
        assert(pow2(e as nat) * pow2(1074) * pp == qq * w * pow2(f as nat)) by {
            lemma_pow2_adds(e as nat, 1074);
            lemma_pow2_adds(up as nat, f as nat);
            if g < 0 {
                lemma_pow2_adds((e + 1074) as nat, (-g) as nat);
            } else {
                lemma_pow2_adds(g as nat, (up + f) as nat);
                assert(qq * w * pow2(f as nat) == qq * (w * pow2(f as nat))) by (nonlinear_arith);
            }
        }
        let rem = dividend as int % n as int;
        let unit = qq * pow2(f as nat);
        lemma_pow2_pos(g as nat);
        assert(unit > 0) by (nonlinear_arith)
            requires
                unit == qq * pow2(f as nat),
                qq > 0,
                pow2(f as nat) > 0,
        ;
        assert(num * pp == dividend as nat * unit) by (nonlinear_arith)
            requires
                num == (m as nat * pow2(e as nat)) * pow2(1074),
                pow2(e as nat) * pow2(1074) * pp == qq * w * pow2(f as nat),
                dividend == m * w,
                unit == qq * pow2(f as nat),
        ;
        assert(qq * den == n as nat * unit) by (nonlinear_arith)
            requires
                den == n as nat * pow2(f as nat),
                unit == qq * pow2(f as nat),
        ;
        assert(num * pp == q as nat * (qq * den) + rem * unit) by (nonlinear_arith)
            requires
                num * pp == dividend as nat * unit,
                qq * den == n as nat * unit,
                dividend == n * q + rem,
        ;
        assert(rem * unit < qq * den) by (nonlinear_arith)
            requires
                qq * den == n as nat * unit,
                rem < n,
                unit > 0,
        ;
        assert((q as nat + 1) * (qq * den) == q as nat * (qq * den) + qq * den) by (nonlinear_arith);
        if more {
            assert(rem * unit > 0) by (nonlinear_arith)
                requires
                    rem > 0,
                    unit > 0,
            ;
        } else {
            assert(rem * unit == 0) by (nonlinear_arith)
                requires
                    rem == 0,
            ;
        }
        assert(scaled(num, den, q as nat, g as int, more));
        lemma_round_is(num, den, r);
    }
    with_sign(na != nb, r)
}

/// The pattern nearest to the sum, or with `minus` to the difference, of two
/// magnitudes of which the first is not the lesser.
fn combine(x: u64, y: u64, minus: bool) -> (res: u64)
    requires
        y <= x < F64_INF,
        x > 0,
        minus ==> y < x,
    ensures
        res <= F64_INF,
        !minus ==> res == round(mag(x as nat) + mag(y as nat), 1),
        minus ==> res == round((mag(x as nat) - mag(y as nat)) as nat, 1),
{
    let (m, e) = split(x);
    let (n, f) = split(y);
    let d: i32 = e - f;
    let ghost num: int = if minus { mag(x as nat) - mag(y as nat) } else { (mag(x as nat) + mag(y as nat)) as int };
    proof {
        lemma_pow2_127();
        if y < x {
            lemma_mag_monotonic(y as nat, x as nat);
        }
        assert(f <= e) by {
            if e < f {
                // the exponents are those of the patterns
                lemma_split_order(x, y);
            }
        }
    }
    if d <= 70 {
        let w = power_of_two(d as u32);
        proof {
            lemma_pow2_pos(d as nat);
            lemma_pow2_adds(f as nat, d as nat);
            lemma_pow2_adds(53, 70);
            if d < 70 {
                lemma_pow2_strictly_increases(d as nat, 70);
            }
            if 123 < 127 {
                lemma_pow2_strictly_increases(123, 127);
            }
            assert(m * w < pow2(123)) by (nonlinear_arith)
                requires
                    m < 2 * F64_STEP,
                    0 < w <= pow2(70),
                    pow2(123) == pow2(53) * pow2(70),
                    pow2(53) == 2 * F64_STEP,
            ;
            assert(mag(x as nat) == (m * w) * pow2(f as nat)) by (nonlinear_arith)
                requires
                    mag(x as nat) == m as nat * pow2(e as nat),
                    pow2(e as nat) == pow2(f as nat) * w,
            ;
            lemma_pow2_pos(f as nat);
            if minus {
                assert(n < m * w) by (nonlinear_arith)
                    requires
                        mag(x as nat) == (m * w) * pow2(f as nat),
                        mag(y as nat) == n as nat * pow2(f as nat),
                        mag(y as nat) < mag(x as nat),
                        pow2(f as nat) > 0,
                ;
            }
        }
        let p: u128 = if minus { m as u128 * w - n as u128 } else { m as u128 * w + n as u128 };
        proof {
            assert(p > 0) by {
                if !minus {
                    assert(m * w > 0) by (nonlinear_arith)
                        requires
                            m > 0,
                            w > 0,
                    ;
                }
            }
            let mw = m as int * w as int;
            assert(num == p as int * pow2(f as nat)) by (nonlinear_arith)
                requires
                    mag(x as nat) == mw * pow2(f as nat),
                    mag(y as nat) == n as nat * pow2(f as nat),
                    minus ==> num == mag(x as nat) - mag(y as nat) && p == mw - n,
                    !minus ==> num == mag(x as nat) + mag(y as nat) && p == mw + n,
            ;
            assert(num * 1 == p as int * (pow2(f as nat) * 1)) by (nonlinear_arith)
                requires
                    num == p as int * pow2(f as nat),
            ;
        }
        let res = pack(p, f, false);
        proof {
            assert(scaled(num as nat, 1, p as nat, f as int, false));
            lemma_round_is(num as nat, 1, res);
        }
        return res;
    }
    let g: i32 = e - 16;
    let more = n != 0;
    let p: u128 = if minus && more { m as u128 * 0x1_0000 - 1 } else { m as u128 * 0x1_0000 };
    let res = pack(p, g, more);
    proof {
        let u = pow2(g as nat);
        lemma2_to64();
        lemma_pow2_adds(g as nat, 16);
        assert(mag(x as nat) == (m * 0x1_0000) * u) by (nonlinear_arith)
            requires
                mag(x as nat) == m as nat * pow2(e as nat),
                pow2(e as nat) == u * 0x1_0000,
        ;
        // the lesser magnitude is below one unit
        lemma_pow2_adds(f as nat, 53);
        lemma_pow2_strictly_increases((f + 53) as nat, g as nat);
        lemma_pow2_pos(f as nat);
        assert(mag(y as nat) < u) by (nonlinear_arith)
            requires
                mag(y as nat) == n as nat * pow2(f as nat),
                n < pow2(53),
                pow2((f + 53) as nat) == pow2(f as nat) * pow2(53),
                pow2((f + 53) as nat) < u,
                pow2(f as nat) > 0,
        ;
        assert(more ==> mag(y as nat) > 0) by (nonlinear_arith)
            requires
                mag(y as nat) == n as nat * pow2(f as nat),
                pow2(f as nat) > 0,
                more == (n != 0),
        ;
        assert(!more ==> mag(y as nat) == 0) by (nonlinear_arith)
            requires
                mag(y as nat) == n as nat * pow2(f as nat),
                more == (n != 0),
        ;
        let big = m as int * 0x1_0000;
        assert((p as int + 1) * (u * 1) == p as int * (u * 1) + u) by (nonlinear_arith);
        assert(p as int * (u * 1) == p as int * u) by (nonlinear_arith);
        if minus && more {
            assert(p as int * u == big * u - u) by (nonlinear_arith)
                requires
                    p == big - 1,
            ;
        }
        assert(num * 1 == num);
        assert(scaled(num as nat, 1, p as nat, g as int, more));
        lemma_round_is(num as nat, 1, res);
    }
    res
}

/// A pattern with the greater exponent is the greater pattern.
proof fn lemma_split_order(x: u64, y: u64)
    requires
        y <= x,
    ensures
        y / F64_STEP <= x / F64_STEP,
{
}

/// Adds two numbers.
pub fn f64_add(a: u64, b: u64) -> (res: u64)
    ensures
        res == f64_total(a, b),
{
    let na = a >= F64_SIGN;
    let nb = b >= F64_SIGN;
    let x: u64 = if na { a - F64_SIGN } else { a };
    let y: u64 = if nb { b - F64_SIGN } else { b };
    if x > F64_INF || y > F64_INF {
        return F64_NAN;
    }
    if x == F64_INF {
        if y == F64_INF && na != nb {
            return F64_NAN;
        }
        return a;
    }
    if y == F64_INF {
        return b;
    }
    proof {
        assert(mag(0) == 0);
        if 0 < x {
            lemma_mag_monotonic(0, x as nat);
        }
        if 0 < y {
            lemma_mag_monotonic(0, y as nat);
        }
        if x < y {
            lemma_mag_monotonic(x as nat, y as nat);
        }
        if y < x {
            lemma_mag_monotonic(y as nat, x as nat);
        }
    }
    if na == nb {
        if x == 0 && y == 0 {
            return with_sign(na, 0);
        }
        if x >= y {
            let r = combine(x, y, false);
            with_sign(na, r)
        } else {
            let r = combine(y, x, false);
            with_sign(na, r)
        }
    } else if x == y {
        0
    } else if x > y {
        let r = combine(x, y, true);
        with_sign(na, r)
    } else {
        let r = combine(y, x, true);
        with_sign(nb, r)
    }
}

/// Subtracts two numbers.
pub fn f64_sub(a: u64, b: u64) -> (res: u64)
    ensures
        res == f64_difference(a, b),
{
    let minus_b: u64 = if b >= F64_SIGN { b - F64_SIGN } else { b + F64_SIGN };
    f64_add(a, minus_b)
}

/// Whether `a < b`.
pub fn f64_lt(a: u64, b: u64) -> (res: bool)
    ensures
        res == f64_less(a, b),
{
    let x: u64 = if a >= F64_SIGN { a - F64_SIGN } else { a };
    let y: u64 = if b >= F64_SIGN { b - F64_SIGN } else { b };
    if x > F64_INF || y > F64_INF {
        return false;
    }
    let p: i64 = if a >= F64_SIGN { -(x as i64) } else { x as i64 };
    let q: i64 = if b >= F64_SIGN { -(y as i64) } else { y as i64 };
    p < q
}

/// The greater of two numbers.
pub fn f64_max(a: u64, b: u64) -> (res: u64)
    ensures
        res == f64_greater(a, b),
{
    let x: u64 = if a >= F64_SIGN { a - F64_SIGN } else { a };
    if x > F64_INF || f64_lt(a, b) { b } else { a }
}

/// The integer part, cut to the range of `u64`.
pub fn f64_to_u64(b: u64) -> (res: u64)
    ensures
        res == f64_floor(b),
{
    if b >= F64_SIGN || b > F64_INF {
        return 0;
    }
    if b == F64_INF {
        return u64::MAX;
    }
    let (m, e) = split(b);
    proof {
        lemma_pow2_127();
        lemma2_to64();
        lemma2_to64_rest();
        lemma_pow2_pos(1074);
    }
    if e >= 1074 {
        let s: u32 = (e - 1074) as u32;
        let ghost whole = m as nat * pow2(s as nat);
        proof {
            lemma_pow2_adds(s as nat, 1074);
            assert(mag(b as nat) == whole * units()) by (nonlinear_arith)
                requires
                    mag(b as nat) == m as nat * pow2(e as nat),
                    pow2(e as nat) == pow2(s as nat) * units(),
                    whole == m as nat * pow2(s as nat),
            ;
            lemma_div_by_multiple(whole as int, units() as int);
        }
        if s >= 64 {
            proof {
                if s > 64 {
                    lemma_pow2_strictly_increases(64, s as nat);
                }
                assert(whole > u64::MAX) by (nonlinear_arith)
                    requires
                        whole == m as nat * pow2(s as nat),
                        m >= 1,
                        pow2(s as nat) > u64::MAX,
                ;
            }
            return u64::MAX;
        }
        let w = power_of_two(s);
        proof {
            lemma_pow2_strictly_increases(s as nat, 64);
            assert(m * w < 0x1_0000_0000_0000_0000_0000_0000_0000_0000) by (nonlinear_arith)
                requires
                    m <= u64::MAX,
                    w < 0x1_0000_0000_0000_0000,
            ;
        }
        let v: u128 = m as u128 * w;
        if v > u64::MAX as u128 { u64::MAX } else { v as u64 }
    } else {
        let s: u32 = (1074 - e) as u32;
        proof {
            lemma_pow2_adds(e as nat, s as nat);
            lemma_pow2_pos(e as nat);
            lemma_pow2_pos(s as nat);
            assert(mag(b as nat) / units() == m as nat / pow2(s as nat)) by {
                let p = pow2(e as nat) as int;
                let q = pow2(s as nat) as int;
                lemma_div_denominator(m * p, p, q);
                lemma_div_by_multiple(m as int, p);
            }
        }
        if s >= 64 {
            proof {
                if s > 64 {
                    lemma_pow2_strictly_increases(64, s as nat);
                }
                lemma_basic_div(m as int, pow2(s as nat) as int);
            }
            return 0;
        }
        let w = power_of_two(s);
        proof {
            lemma_div_decreases_or_same(m as nat, w as nat);
        }
        (m as u128 / w) as u64
    }
}

proof fn lemma_div_decreases_or_same(x: nat, d: nat)
    requires
        d > 0,
    ensures
        x / d <= x,
{
    lemma_div_nonincreasing(x as int, d as int);
}

// ---- laws of rounding ----

/// Whether `num / den` does not lie above the middle between a pattern and the next.
spec fn not_above(num: nat, den: nat, b: nat) -> bool {
    ||| 2 * num < (mag(b) + mag(b + 1)) * den
    ||| 2 * num == (mag(b) + mag(b + 1)) * den && b % 2 == 0
}

proof fn lemma_round_search(num: nat, den: nat, b: nat) -> (c: nat)
    requires
        b <= F64_INF,
        b == F64_INF || not_above(num, den, b),
    ensures
        rounds_to(num, den, c),
    decreases b,
{
    if b == 0 || !not_above(num, den, (b - 1) as nat) {
        b
    } else {
        lemma_round_search(num, den, (b - 1) as nat)
    }
}

/// Each number rounds to a pattern.
pub proof fn lemma_round(num: nat, den: nat)
    requires
        den > 0,
    ensures
        rounds_to(num, den, round(num, den) as nat),
{
    let c = lemma_round_search(num, den, F64_INF as nat);
    lemma_round_is(num, den, c as u64);
}

/// Rounding keeps the order of numbers.
pub proof fn rounding_is_monotonic(x: nat, y: nat, den: nat)
    requires
        den > 0,
        x <= y,
    ensures
        round(x, den) <= round(y, den),
{
    lemma_round(x, den);
    lemma_round(y, den);
    let (a, b) = (round(x, den) as nat, round(y, den) as nat);
    if b < a {
        let (lo, hi) = (mag(b) + mag(b + 1), mag((a - 1) as nat) + mag(a));
        if b + 1 < a {
            lemma_mag_monotonic(b, (a - 1) as nat);
            lemma_mag_monotonic(b + 1, a);
            assert(lo * den < hi * den) by (nonlinear_arith)
                requires
                    lo < hi,
                    den > 0,
            ;
        } else {
            assert(lo == hi);
        }
    }
}

/// A magnitude rounds to its pattern.
proof fn lemma_round_of_mag(b: u64)
    requires
        b < F64_INF,
    ensures
        round(mag(b as nat), 1) == b,
{
    lemma_round_exact(mag(b as nat), 1, b as nat);
    lemma_round_is(mag(b as nat), 1, b);
}

/// The sum of two numbers that are not negative is a number, and not less than either.
pub proof fn a_sum_is_not_less(a: u64, b: u64)
    requires
        a <= F64_INF,
        b <= F64_INF,
    ensures
        a <= f64_total(a, b) <= F64_INF,
        b <= f64_total(a, b),
{
    if a < F64_INF && b < F64_INF {
        let (x, y) = (mag(a as nat), mag(b as nat));
        lemma_round_of_mag(a);
        lemma_round_of_mag(b);
        rounding_is_monotonic(x, x + y, 1);
        rounding_is_monotonic(y, x + y, 1);
        lemma_round(x + y, 1);
        if x + y == 0 {
            if a > 0 {
                lemma_mag_monotonic(0, a as nat);
            }
            if b > 0 {
                lemma_mag_monotonic(0, b as nat);
            }
        }
    }
}

/// Of two numbers that are not negative, the greater one has the greater sum with a third.
pub proof fn sums_keep_the_order(a: u64, b: u64, c: u64)
    requires
        a <= b <= F64_INF,
        c <= F64_INF,
    ensures
        f64_total(a, c) <= f64_total(b, c),
{
    a_sum_is_not_less(a, c);
    a_sum_is_not_less(b, c);
    if b < F64_INF && c < F64_INF {
        let (x, y, z) = (mag(a as nat), mag(b as nat), mag(c as nat));
        if a < b {
            lemma_mag_monotonic(a as nat, b as nat);
        }
        rounding_is_monotonic(x + z, y + z, 1);
    }
}

/// The pattern of one has the magnitude of one.
proof fn lemma_one()
    ensures
        mag(0x3ff0_0000_0000_0000) == units(),
{
    let step = F64_STEP as nat;
    assert(0x3ff0_0000_0000_0000nat == 1023 * step);
    lemma_fundamental_div_mod_converse(0x3ff0_0000_0000_0000, step as int, 1023, 0);
    assert(step == pow2(52)) by {
        lemma2_to64();
        lemma2_to64_rest();
    }
    lemma_pow2_adds(52, 1022);
}

/// The product of two numbers, of which none is less than one, is a number, and not less
/// than either.
pub proof fn a_product_is_not_less(a: u64, b: u64)
    requires
        0x3ff0_0000_0000_0000 <= a <= F64_INF,
        0x3ff0_0000_0000_0000 <= b <= F64_INF,
    ensures
        a <= f64_product(a, b) <= F64_INF,
        b <= f64_product(a, b),
{
    if a < F64_INF && b < F64_INF {
        let (x, y, u) = (mag(a as nat), mag(b as nat), units());
        lemma_one();
        lemma_pow2_pos(1074);
        let one: u64 = 0x3ff0_0000_0000_0000;
        if one < a {
            lemma_mag_monotonic(one as nat, a as nat);
        }
        if one < b {
            lemma_mag_monotonic(one as nat, b as nat);
        }
        assert(x * u <= x * y && y * u <= x * y) by (nonlinear_arith)
            requires
                u <= x,
                u <= y,
        ;
        lemma_round_exact(x * u, u, a as nat);
        lemma_round_is(x * u, u, a);
        lemma_round_exact(y * u, u, b as nat);
        lemma_round_is(y * u, u, b);
        rounding_is_monotonic(x * u, x * y, u);
        rounding_is_monotonic(y * u, x * y, u);
        lemma_round(x * y, u);
    }
}

/// Whole units, rounded: where they stand on the number line.
spec fn rounded_rank(v: int) -> int {
    if v >= 0 {
        round(v as nat, 1) as int
    } else {
        -(round((-v) as nat, 1) as int)
    }
}

proof fn lemma_rounded_rank(v: int, w: int)
    requires
        v <= w,
    ensures
        rounded_rank(v) <= rounded_rank(w),
{
    if v >= 0 {
        rounding_is_monotonic(v as nat, w as nat, 1);
    } else if w < 0 {
        rounding_is_monotonic((-w) as nat, (-v) as nat, 1);
    }
}

/// A sum of finite numbers stands where its rounded value stands.
proof fn lemma_rank_of_total(a: u64, b: u64)
    requires
        magnitude_bits(a) < F64_INF,
        magnitude_bits(b) < F64_INF,
    ensures
        value::f64_rank(f64_total(a, b)) == rounded_rank(finite_value(a) + finite_value(b)),
        !value::f64_is_nan(f64_total(a, b)),
{
    let v = finite_value(a) + finite_value(b);
    lemma_round(if v >= 0 { v as nat } else { (-v) as nat }, 1);
    lemma_round_of_mag(0);
}

/// Finite numbers have their values in the order in which they stand.
proof fn lemma_values_keep_the_order(a: u64, b: u64)
    requires
        magnitude_bits(a) < F64_INF,
        magnitude_bits(b) < F64_INF,
        value::f64_rank(a) <= value::f64_rank(b),
    ensures
        finite_value(a) <= finite_value(b),
{
    let (x, y) = (magnitude_bits(a), magnitude_bits(b));
    if x < y {
        lemma_mag_monotonic(x as nat, y as nat);
    } else if y < x {
        lemma_mag_monotonic(y as nat, x as nat);
    }
    assert(mag(0) == 0);
    if negative(a) && !negative(b) {
    } else if !negative(a) && negative(b) {
        assert(x == 0 && y == 0);
    }
}

/// Of two numbers the greater one has the greater difference from a third, where both
/// differences are numbers.
pub proof fn differences_keep_the_order(a: u64, b: u64, c: u64)
    requires
        !value::f64_is_nan(a),
        !value::f64_is_nan(b),
        value::f64_rank(a) <= value::f64_rank(b),
        !value::f64_is_nan(f64_difference(a, c)),
        !value::f64_is_nan(f64_difference(b, c)),
    ensures
        value::f64_rank(f64_difference(a, c)) <= value::f64_rank(f64_difference(b, c)),
{
    let d = f64_negated(c);
    if magnitude_bits(d) < F64_INF {
        if magnitude_bits(a) < F64_INF {
            lemma_rank_of_total(a, d);
            let v = finite_value(a) + finite_value(d);
            lemma_round(if v >= 0 { v as nat } else { (-v) as nat }, 1);
        }
        if magnitude_bits(b) < F64_INF {
            lemma_rank_of_total(b, d);
            let v = finite_value(b) + finite_value(d);
            lemma_round(if v >= 0 { v as nat } else { (-v) as nat }, 1);
        }
        if magnitude_bits(a) < F64_INF && magnitude_bits(b) < F64_INF {
            lemma_values_keep_the_order(a, b);
            lemma_rounded_rank(
                finite_value(a) + finite_value(d),
                finite_value(b) + finite_value(d),
            );
        }
    }
}

/// A greater number less a smaller one is greater than zero.
pub proof fn a_difference_is_positive(a: u64, b: u64)
    requires
        f64_less(a, b),
    ensures
        !value::f64_is_nan(f64_difference(b, a)),
        value::f64_rank(f64_difference(b, a)) > 0,
{
    let d = f64_negated(a);
    if magnitude_bits(b) < F64_INF && magnitude_bits(d) < F64_INF {
        lemma_rank_of_total(b, d);
        lemma_values_keep_the_order(a, b);
        let v = finite_value(b) + finite_value(d);
        assert(finite_value(d) == -finite_value(a));
        assert(v > 0) by {
            let (x, y) = (magnitude_bits(a), magnitude_bits(b));
            if x < y {
                lemma_mag_monotonic(x as nat, y as nat);
            } else if y < x {
                lemma_mag_monotonic(y as nat, x as nat);
            } else if x > 0 {
                lemma_mag_monotonic(0, x as nat);
            }
            if x > 0 {
                lemma_mag_monotonic(0, x as nat);
            }
            if y > 0 {
                lemma_mag_monotonic(0, y as nat);
            }
            assert(mag(0) == 0);
        }
        assert(mag(1) == 1);
        lemma_round_of_mag(1);
        rounding_is_monotonic(1, v as nat, 1);
    }
}

/// Of two numbers the greater one has the greater quotient by a number greater than zero,
/// where both quotients are numbers.
pub proof fn quotients_keep_the_order(a: u64, b: u64, d: u64)
    requires
        !value::f64_is_nan(a),
        !value::f64_is_nan(b),
        !value::f64_is_nan(d),
        value::f64_rank(a) <= value::f64_rank(b),
        value::f64_rank(d) > 0,
        !value::f64_is_nan(f64_quotient(a, d)),
        !value::f64_is_nan(f64_quotient(b, d)),
    ensures
        value::f64_rank(f64_quotient(a, d)) <= value::f64_rank(f64_quotient(b, d)),
{
    let (x, y) = (magnitude_bits(a), magnitude_bits(b));
    if d < F64_INF {
        lemma_mag_monotonic(0, d as nat);
        assert(mag(0) == 0);
        let (den, u) = (mag(d as nat), units());
        let (m, n) = (mag(x as nat) * u, mag(y as nat) * u);
        lemma_round(m, den);
        lemma_round(n, den);
        if x <= y {
            if x < y {
                lemma_mag_monotonic(x as nat, y as nat);
            }
            assert(m <= n) by (nonlinear_arith)
                requires
                    mag(x as nat) <= mag(y as nat),
                    m == mag(x as nat) * u,
                    n == mag(y as nat) * u,
            ;
            rounding_is_monotonic(m, n, den);
        }
        if y <= x {
            if y < x {
                lemma_mag_monotonic(y as nat, x as nat);
            }
            assert(n <= m) by (nonlinear_arith)
                requires
                    mag(y as nat) <= mag(x as nat),
                    m == mag(x as nat) * u,
                    n == mag(y as nat) * u,
            ;
            rounding_is_monotonic(n, m, den);
        }
        if x == 0 || y == 0 {
            assert(0 * u == 0);
            lemma_round_exact(0, den, 0);
            lemma_round_is(0, den, 0);
        }
    }
}

/// What a number between zero and one leaves of one lies between zero and one too, and is the
/// less, the greater the number is.
pub proof fn a_rest_of_one_lies_between_zero_and_one(a: u64, b: u64)
    requires
        !value::f64_is_nan(a),
        !value::f64_is_nan(b),
        0 <= value::f64_rank(a) <= value::f64_rank(b) <= 0x3ff0_0000_0000_0000,
    ensures
        !value::f64_is_nan(f64_difference(0x3ff0_0000_0000_0000, b)),
        0 <= value::f64_rank(f64_difference(0x3ff0_0000_0000_0000, b))
            <= value::f64_rank(f64_difference(0x3ff0_0000_0000_0000, a))
            <= 0x3ff0_0000_0000_0000,
{
    let one: u64 = 0x3ff0_0000_0000_0000;
    let (c, d) = (f64_negated(a), f64_negated(b));
    lemma_rank_of_total(one, c);
    lemma_rank_of_total(one, d);
    lemma_values_keep_the_order(a, b);
    lemma_values_keep_the_order(b, one);
    lemma_values_keep_the_order(0, a);
    assert(mag(0) == 0);
    assert(finite_value(c) == -finite_value(a) && finite_value(d) == -finite_value(b));
    let whole = finite_value(one);
    lemma_rounded_rank(whole - finite_value(b), whole - finite_value(a));
    lemma_rounded_rank(0, whole - finite_value(b));
    lemma_rounded_rank(whole - finite_value(a), whole);
    lemma_round_of_mag(0);
    lemma_round_of_mag(one);
}

/// The difference of a number and a finite one is a number.
pub proof fn lemma_finite_difference(a: u64, b: u64)
    requires
        !value::f64_is_nan(a),
        magnitude_bits(b) < F64_INF,
    ensures
        !value::f64_is_nan(f64_difference(a, b)),
{
    if magnitude_bits(a) < F64_INF {
        lemma_rank_of_total(a, f64_negated(b));
    }
}

/// The quotient of a number by a finite one that is greater than zero is a number.
pub proof fn lemma_finite_quotient(a: u64, d: u64)
    requires
        !value::f64_is_nan(a),
        value::f64_rank(d) > 0,
        magnitude_bits(d) < F64_INF,
    ensures
        !value::f64_is_nan(f64_quotient(a, d)),
{
    let x = magnitude_bits(a);
    if x < F64_INF {
        lemma_mag_monotonic(0, d as nat);
        lemma_round(mag(x as nat) * units(), mag(d as nat));
    }
}

/// The integer part of a number from one on is at least one.
pub proof fn numbers_from_one_on_have_an_integer_part(b: u64)
    requires
        !value::f64_is_nan(b),
        value::f64_rank(b) >= 0x3ff0_0000_0000_0000,
    ensures
        f64_floor(b) >= 1,
{
    lemma_one();
    let u = units() as int;
    lemma_pow2_pos(1074);
    if b > 0x3ff0_0000_0000_0000 {
        lemma_mag_monotonic(0x3ff0_0000_0000_0000, b as nat);
    }
    let m = mag(b as nat) as int;
    assert(m / u >= 1) by (nonlinear_arith)
        requires
            m >= u,
            u > 0,
    ;
}

/// A finite number that is greater than zero, divided by itself, is one.
pub proof fn a_number_divided_by_itself_is_one(b: u64)
    requires
        0 < b < F64_INF,
    ensures
        f64_quotient(b, b) == 0x3ff0_0000_0000_0000,
{
    lemma_one();
    lemma_mag_monotonic(0, b as nat);
    assert(mag(0) == 0);
    let (m, u) = (mag(b as nat), units());
    assert(m * u == u * m) by (nonlinear_arith);
    lemma_round_exact(m * u, m, 0x3ff0_0000_0000_0000);
    lemma_round_is(m * u, m, 0x3ff0_0000_0000_0000);
}

/// Zero, divided by a finite number that is greater than zero, is zero.
pub proof fn nothing_divided_is_nothing(b: u64)
    requires
        0 < b < F64_INF,
    ensures
        f64_quotient(0, b) == 0,
{
    lemma_mag_monotonic(0, b as nat);
    assert(mag(0) == 0);
    assert(0 * units() == 0);
    lemma_round_exact(0, mag(b as nat), 0);
    lemma_round_is(0, mag(b as nat), 0);
}

// ---- what the numbers are ----

/// A pattern with a significand below `2^53` that is moved up: where the exponent is within
/// the range of finite numbers, it is the magnitude of a finite pattern.
proof fn lemma_exact_pattern(m: nat, x: nat) -> (b: u64)
    requires
        m < 2 * F64_STEP,
        x <= 2045,
    ensures
        b < F64_INF,
        mag(b as nat) == m * pow2(x),
    decreases x,
{
    let step = F64_STEP as nat;
    if x == 0 || m >= step {
        lemma_mag_scaled(x, m);
        let c = x * step + m;
        assert(x * step <= 2045 * step) by (nonlinear_arith)
            requires
                x <= 2045,
                step > 0,
        ;
        assert(c < F64_INF);
        c as u64
    } else {
        lemma_pow2_unfold(x);
        assert(m * pow2(x) == (2 * m) * pow2((x - 1) as nat)) by (nonlinear_arith)
            requires
                pow2(x) == 2 * pow2((x - 1) as nat),
        ;
        lemma_exact_pattern(2 * m, (x - 1) as nat)
    }
}

/// An integer of at most `2^53` in magnitude becomes the finite number that it is.
pub proof fn an_integer_becomes_the_number_that_it_is(v: int)
    requires
        -0x20_0000_0000_0000 <= v <= 0x20_0000_0000_0000,
    ensures
        magnitude_bits(int_to_f64(v)) < F64_INF,
        finite_value(int_to_f64(v)) == v * units(),
{
    let m: nat = if v < 0 { (-v) as nat } else { v as nat };
    let b = if m == 0x20_0000_0000_0000 {
        lemma_pow2_unfold(1075);
        let b = lemma_exact_pattern(0x10_0000_0000_0000, 1075);
        assert(0x10_0000_0000_0000 * pow2(1075) == m * pow2(1074)) by (nonlinear_arith)
            requires
                pow2(1075) == 2 * pow2(1074),
                m == 0x20_0000_0000_0000,
        ;
        b
    } else {
        lemma_exact_pattern(m, 1074)
    };
    let num = m * units();
    assert(mag(b as nat) * 1 == num);
    lemma_round_exact(num, 1, b as nat);
    lemma_round_is(num, 1, b);
    if v < 0 {
        assert(((-v) * units()) as nat == num);
        assert(-(m * units()) == v * units()) by (nonlinear_arith)
            requires
                m == -v,
        ;
    }
}

/// Greater integers become numbers that are not less.
pub proof fn integers_keep_their_order_as_numbers(v: int, w: int)
    requires
        v <= w,
    ensures
        value::f64_rank(int_to_f64(v)) <= value::f64_rank(int_to_f64(w)),
        !value::f64_is_nan(int_to_f64(v)),
{
    let u = units() as int;
    assert(v * u <= w * u) by (nonlinear_arith)
        requires
            v <= w,
            u >= 0,
    ;
    assert((-v) * u == -(v * u) && (-w) * u == -(w * u)) by (nonlinear_arith);
    assert(v >= 0 ==> v * u >= 0) by (nonlinear_arith)
        requires
            u >= 0,
    ;
    assert(w >= 0 ==> w * u >= 0) by (nonlinear_arith)
        requires
            u >= 0,
    ;
    assert(v < 0 ==> (-v) * u >= 0) by (nonlinear_arith)
        requires
            u >= 0,
    ;
    assert(w < 0 ==> (-w) * u >= 0) by (nonlinear_arith)
        requires
            u >= 0,
    ;
    lemma_round(if v < 0 { ((-v) * u) as nat } else { (v * u) as nat }, 1);
    lemma_round(if w < 0 { ((-w) * u) as nat } else { (w * u) as nat }, 1);
    if v >= 0 {
        rounding_is_monotonic((v * u) as nat, (w * u) as nat, 1);
    } else if w < 0 {
        rounding_is_monotonic(((-w) * u) as nat, ((-v) * u) as nat, 1);
    }
}

/// A binary32 number becomes the same number as a binary64 number: a finite one keeps its
/// sign and its value, an infinity stays the infinity of its sign, a NaN stays a NaN. A unit
/// of the binary32 magnitudes is `2^925` units of the binary64 ones.
pub proof fn a_binary32_number_is_widened_to_itself(b: u32)
    ensures
        value::f32_is_nan(b) <==> value::f64_is_nan(f32_to_f64(b)),
        b < value::F32_INF ==> f32_to_f64(b) < F64_INF && finite_value(f32_to_f64(b)) == mag32(
            b as nat,
        ) * pow2(925),
        value::F32_SIGN <= b < value::F32_SIGN + value::F32_INF ==> {
            &&& negative(f32_to_f64(b))
            &&& magnitude_bits(f32_to_f64(b)) < F64_INF
            &&& finite_value(f32_to_f64(b)) == -(mag32((b - value::F32_SIGN) as nat) * pow2(925))
        },
        b == value::F32_INF ==> f32_to_f64(b) == F64_INF,
        b == value::F32_SIGN + value::F32_INF ==> f32_to_f64(b) == F64_SIGN + F64_INF,
{
    let m: u32 = if b >= value::F32_SIGN { (b - value::F32_SIGN) as u32 } else { b };
    if m < value::F32_INF {
        let e = m as nat / (F32_STEP as nat);
        let q = m as nat % (F32_STEP as nat);
        let num = mag32(m as nat) * pow2(925);
        let c = if e == 0 {
            lemma_exact_pattern(q, 925)
        } else {
            lemma_pow2_adds((e - 1) as nat, 925);
            let s = (F32_STEP + q) as nat;
            let c = lemma_exact_pattern(s, (e - 1 + 925) as nat);
            assert((s * pow2((e - 1) as nat)) * pow2(925) == s * (pow2((e - 1) as nat) * pow2(925)))
                by (nonlinear_arith);
            c
        };
        assert(mag(c as nat) * 1 == num);
        lemma_round_exact(num, 1, c as nat);
        lemma_round_is(num, 1, c);
    }
}

/// Binary64 numbers compare by their values; every finite number lies between the
/// infinities, and the two zeros are equal.
pub proof fn binary64_numbers_compare_by_their_values(a: u64, b: u64)
    requires
        magnitude_bits(a) < F64_INF,
        magnitude_bits(b) < F64_INF,
    ensures
        value::val_order(value::Val::Float64(a), value::Val::Float64(b)) == Some(value::Order::Less)
            <==> finite_value(a) < finite_value(b),
        value::val_order(value::Val::Float64(a), value::Val::Float64(b)) == Some(value::Order::Equal)
            <==> finite_value(a) == finite_value(b),
        value::val_order(value::Val::Float64(a), value::Val::Float64(b)) == Some(
            value::Order::Greater,
        ) <==> finite_value(a) > finite_value(b),
        value::val_order(value::Val::Float64(a), value::Val::Float64(F64_INF)) == Some(
            value::Order::Less,
        ),
        value::val_order(
            value::Val::Float64((F64_SIGN + F64_INF) as u64),
            value::Val::Float64(a),
        ) == Some(value::Order::Less),
        value::val_order(
            value::Val::Float64((F64_SIGN + F64_INF) as u64),
            value::Val::Float64(F64_INF),
        ) == Some(value::Order::Less),
{
    lemma_values_keep_the_strict_order(a, b);
    lemma_values_keep_the_strict_order(b, a);
    if value::f64_rank(a) == value::f64_rank(b) {
        lemma_values_keep_the_order(a, b);
        lemma_values_keep_the_order(b, a);
    }
}

proof fn lemma_values_keep_the_strict_order(a: u64, b: u64)
    requires
        magnitude_bits(a) < F64_INF,
        magnitude_bits(b) < F64_INF,
    ensures
        value::f64_rank(a) < value::f64_rank(b) ==> finite_value(a) < finite_value(b),
{
    let (x, y) = (magnitude_bits(a), magnitude_bits(b));
    assert(mag(0) == 0);
    if x < y {
        lemma_mag_monotonic(x as nat, y as nat);
    } else if y < x {
        lemma_mag_monotonic(y as nat, x as nat);
    }
    if x > 0 {
        lemma_mag_monotonic(0, x as nat);
    }
    if y > 0 {
        lemma_mag_monotonic(0, y as nat);
    }
}

/// Binary32 numbers compare as the binary64 numbers that they are.
pub proof fn binary32_numbers_compare_by_their_values(a: u32, b: u32)
    ensures
        value::val_order(value::Val::Float32(a), value::Val::Float32(b)) == value::val_order(
            value::Val::Float64(f32_to_f64(a)),
            value::Val::Float64(f32_to_f64(b)),
        ),
{
    a_binary32_number_is_widened_to_itself(a);
    a_binary32_number_is_widened_to_itself(b);
    if !value::f32_is_nan(a) && !value::f32_is_nan(b) {
        let x: u32 = if a >= value::F32_SIGN { (a - value::F32_SIGN) as u32 } else { a };
        let y: u32 = if b >= value::F32_SIGN { (b - value::F32_SIGN) as u32 } else { b };
        if x < value::F32_INF && y < value::F32_INF {
            let (c, d) = (f32_to_f64(a), f32_to_f64(b));
            binary64_numbers_compare_by_their_values(c, d);
            let (p, q) = (mag32(x as nat) as int, mag32(y as nat) as int);
            let u = pow2(925) as int;
            lemma_pow2_pos(925);
            lemma_mag32_monotonic(x as nat, y as nat);
            lemma_mag32_monotonic(y as nat, x as nat);
            lemma_mag32_monotonic(0, x as nat);
            lemma_mag32_monotonic(0, y as nat);
            assert(mag32(0) == 0);
            assert(p < q ==> p * u < q * u) by (nonlinear_arith)
                requires
                    u > 0,
            ;
            assert(q < p ==> q * u < p * u) by (nonlinear_arith)
                requires
                    u > 0,
            ;
            assert(p > 0 ==> p * u > 0) by (nonlinear_arith)
                requires
                    u > 0,
            ;
            assert(q > 0 ==> q * u > 0) by (nonlinear_arith)
                requires
                    u > 0,
            ;
            assert(0 * u == 0);
        }
    }
}

proof fn lemma_mag32_monotonic(a: nat, b: nat)
    ensures
        a < b ==> mag32(a) < mag32(b),
    decreases b,
{
    if a < b {
        let step = F32_STEP as nat;
        let c = (b - 1) as nat;
        lemma_mag32_monotonic(a, c);
        lemma_fundamental_div_mod(c as int, step as int);
        let (e, m) = (c / step, c % step);
        lemma2_to64();
        if m + 1 < step {
            lemma_fundamental_div_mod_converse(b as int, step as int, e as int, m as int + 1);
            if e > 0 {
                lemma_pow2_pos((e - 1) as nat);
                let (q, u) = ((step + m) as nat, pow2((e - 1) as nat));
                assert(q * u < (q + 1) * u) by (nonlinear_arith)
                    requires
                        u > 0,
                ;
            }
        } else {
            assert(b == step * (e + 1)) by (nonlinear_arith)
                requires
                    b == c + 1,
                    c == step * e + m,
                    m + 1 == step,
            ;
            lemma_fundamental_div_mod_converse(b as int, step as int, e as int + 1, 0);
            if e > 0 {
                lemma_pow2_unfold(e);
                lemma_pow2_pos((e - 1) as nat);
                let (q, u) = ((step + m) as nat, pow2((e - 1) as nat));
                assert(q * u < step * (2 * u)) by (nonlinear_arith)
                    requires
                        u > 0,
                        q + 1 == 2 * step,
                ;
            } else {
                assert(pow2(0) == 1);
                assert(step * 1 == step);
            }
        }
    }
}

/// How far `b` is from `num / den`, times `den`.
pub open spec fn off(num: int, den: nat, b: u64) -> int {
    let d = finite_value(b) * den - num;
    if d < 0 { -d } else { d }
}

proof fn lemma_nearest(num: nat, den: nat, b: nat, c: nat)
    requires
        den > 0,
        rounds_to(num, den, b),
        b < F64_INF,
        c < F64_INF,
    ensures
        c > b ==> num - mag(b) * den <= mag(c) * den - num && mag(b) * den - num <= mag(c) * den - num,
        c < b ==> num - mag(b) * den <= num - mag(c) * den && mag(b) * den - num <= num - mag(c)
            * den,
{
    let (x, y) = (mag(b), mag(c));
    if c > b {
        let z = mag(b + 1);
        if b + 1 < c {
            lemma_mag_monotonic(b + 1, c);
        }
        lemma_mag_step(b);
        assert(z * den <= y * den && x * den <= y * den) by (nonlinear_arith)
            requires
                z <= y,
                x <= y,
        ;
        assert((x + z) * den == x * den + z * den) by (nonlinear_arith);
    } else if c < b {
        let z = mag((b - 1) as nat);
        if c < b - 1 {
            lemma_mag_monotonic(c, (b - 1) as nat);
        }
        lemma_mag_step((b - 1) as nat);
        assert(y * den <= z * den && y * den <= x * den) by (nonlinear_arith)
            requires
                y <= z,
                y <= x,
        ;
        assert((z + x) * den == z * den + x * den) by (nonlinear_arith);
    }
}

proof fn lemma_nearest_signed(minus: bool, num: nat, den: nat, c: u64)
    requires
        den > 0,
        round(num, den) < F64_INF,
        magnitude_bits(c) < F64_INF,
    ensures
        off(if minus { -(num as int) } else { num as int }, den, signed(minus, round(num, den)))
            <= off(if minus { -(num as int) } else { num as int }, den, c),
{
    lemma_round(num, den);
    let b = round(num, den) as nat;
    let y = magnitude_bits(c) as nat;
    lemma_nearest(num, den, b, y);
    lemma_nearest(num, den, b, 0);
    assert(mag(0) == 0);
    assert(0 * den == 0);
    let (p, q) = (mag(b) as int, mag(y) as int);
    assert((-p) * den == -(p * den)) by (nonlinear_arith);
    assert((-q) * den == -(q * den)) by (nonlinear_arith);
    assert(q * den >= 0) by (nonlinear_arith)
        requires
            q >= 0,
    ;
}

/// No finite number is nearer to the exact product of two finite numbers than their
/// product.
pub proof fn a_product_is_the_nearest_number(a: u64, b: u64, c: u64)
    requires
        magnitude_bits(a) < F64_INF,
        magnitude_bits(b) < F64_INF,
        magnitude_bits(c) < F64_INF,
        magnitude_bits(f64_product(a, b)) < F64_INF,
    ensures
        off(finite_value(a) * finite_value(b), units(), f64_product(a, b)) <= off(
            finite_value(a) * finite_value(b),
            units(),
            c,
        ),
{
    let minus = negative(a) != negative(b);
    let (x, y) = (mag(magnitude_bits(a) as nat) as int, mag(magnitude_bits(b) as nat) as int);
    lemma_pow2_pos(1074);
    lemma_round((x * y) as nat, units());
    assert(x * y >= 0) by (nonlinear_arith)
        requires
            x >= 0,
            y >= 0,
    ;
    assert((-x) * y == -(x * y) && x * (-y) == -(x * y) && (-x) * (-y) == x * y) by (nonlinear_arith);
    lemma_nearest_signed(minus, (x * y) as nat, units(), c);
}

/// No finite number is nearer to the exact sum of two finite numbers than their sum.
pub proof fn a_sum_is_the_nearest_number(a: u64, b: u64, c: u64)
    requires
        magnitude_bits(a) < F64_INF,
        magnitude_bits(b) < F64_INF,
        magnitude_bits(c) < F64_INF,
        magnitude_bits(f64_total(a, b)) < F64_INF,
    ensures
        off(finite_value(a) + finite_value(b), 1, f64_total(a, b)) <= off(
            finite_value(a) + finite_value(b),
            1,
            c,
        ),
{
    let v = finite_value(a) + finite_value(b);
    assert(mag(0) == 0);
    if v != 0 {
        lemma_round(if v > 0 { v as nat } else { (-v) as nat }, 1);
        lemma_nearest_signed(v < 0, if v > 0 { v as nat } else { (-v) as nat }, 1, c);
    }
}

/// The difference of two numbers is what added to the second has the first as its exact
/// sum, rounded: no finite number is nearer to the exact difference.
pub proof fn a_difference_is_the_nearest_number(a: u64, b: u64, c: u64)
    requires
        magnitude_bits(a) < F64_INF,
        magnitude_bits(b) < F64_INF,
        magnitude_bits(c) < F64_INF,
        magnitude_bits(f64_difference(a, b)) < F64_INF,
    ensures
        off(finite_value(a) - finite_value(b), 1, f64_difference(a, b)) <= off(
            finite_value(a) - finite_value(b),
            1,
            c,
        ),
{
    a_sum_is_the_nearest_number(a, f64_negated(b), c);
}

/// No finite number is nearer to the exact quotient of two finite numbers than their
/// quotient.
pub proof fn a_quotient_is_the_nearest_number(a: u64, b: u64, c: u64)
    requires
        magnitude_bits(a) < F64_INF,
        0 < magnitude_bits(b) < F64_INF,
        magnitude_bits(c) < F64_INF,
        magnitude_bits(f64_quotient(a, b)) < F64_INF,
    ensures
        !negative(b) ==> off(
            finite_value(a) * units(),
            finite_value(b) as nat,
            f64_quotient(a, b),
        ) <= off(finite_value(a) * units(), finite_value(b) as nat, c),
        negative(b) ==> off(
            -finite_value(a) * units(),
            (-finite_value(b)) as nat,
            f64_quotient(a, b),
        ) <= off(-finite_value(a) * units(), (-finite_value(b)) as nat, c),
{
    let minus = negative(a) != negative(b);
    let (x, y) = (mag(magnitude_bits(a) as nat) as int, mag(magnitude_bits(b) as nat) as int);
    lemma_mag_monotonic(0, magnitude_bits(b) as nat);
    assert(mag(0) == 0);
    let u = units() as int;
    assert(x * u >= 0) by (nonlinear_arith)
        requires
            x >= 0,
            u >= 0,
    ;
    assert((-x) * u == -(x * u)) by (nonlinear_arith);
    lemma_round((x * u) as nat, y as nat);
    lemma_nearest_signed(minus, (x * u) as nat, y as nat, c);
}

/// The integer part of a finite number that is not negative is the greatest integer that is
/// not above it, as far as 64 bits hold it; negative numbers have none.
pub proof fn the_integer_part_is_not_above_its_number(b: u64)
    requires
        magnitude_bits(b) < F64_INF,
    ensures
        !negative(b) ==> f64_floor(b) * units() <= finite_value(b),
        !negative(b) && f64_floor(b) < u64::MAX ==> finite_value(b) < (f64_floor(b) + 1) * units(),
        negative(b) ==> f64_floor(b) == 0,
{
    if !negative(b) {
        let (x, u) = (mag(b as nat) as int, units() as int);
        lemma_pow2_pos(1074);
        lemma_fundamental_div_mod(x, u);
        let q = x / u;
        let f = f64_floor(b) as int;
        assert(u * q == q * u) by (nonlinear_arith);
        assert((q + 1) * u == q * u + u) by (nonlinear_arith);
        assert(f <= q ==> f * u <= q * u) by (nonlinear_arith)
            requires
                u > 0,
        ;
    }
}

/// The greater of two numbers is one of them and not below either.
pub proof fn the_greater_number_is_not_below_either(a: u64, b: u64)
    ensures
        f64_greater(a, b) == a || f64_greater(a, b) == b,
        !f64_less(f64_greater(a, b), a),
        !f64_less(f64_greater(a, b), b),
        value::f64_is_nan(f64_greater(a, b)) ==> value::f64_is_nan(a) && value::f64_is_nan(b),
{
}

/// The operations on infinities and NaNs: a NaN stays one; what has no value is a NaN;
/// otherwise the infinity, or the zero, of the right sign.
pub proof fn infinities_are_reckoned_with(a: u64, b: u64)
    requires
        !value::f64_is_nan(a),
        !value::f64_is_nan(b),
        magnitude_bits(a) == F64_INF,
    ensures
        value::f64_is_nan(f64_product(a, b)) <==> magnitude_bits(b) == 0,
        magnitude_bits(b) > 0 ==> magnitude_bits(f64_product(a, b)) == F64_INF && (negative(
            f64_product(a, b),
        ) <==> negative(a) != negative(b)),
        f64_product(b, a) == f64_product(a, b),
        value::f64_is_nan(f64_quotient(a, b)) <==> magnitude_bits(b) == F64_INF,
        magnitude_bits(b) < F64_INF ==> magnitude_bits(f64_quotient(a, b)) == F64_INF && (negative(
            f64_quotient(a, b),
        ) <==> negative(a) != negative(b)) && magnitude_bits(f64_quotient(b, a)) == 0 && (negative(
            f64_quotient(b, a),
        ) <==> negative(a) != negative(b)),
        value::f64_is_nan(f64_total(a, b)) <==> magnitude_bits(b) == F64_INF && negative(a)
            != negative(b),
        !value::f64_is_nan(f64_total(a, b)) ==> f64_total(a, b) == a,
        value::f64_is_nan(f64_total(b, a)) <==> value::f64_is_nan(f64_total(a, b)),
        f64_floor(a) == if negative(a) { 0 } else { u64::MAX },
{
}

/// A NaN in an operation gives a NaN.
pub proof fn nans_stay(a: u64, b: u64)
    requires
        value::f64_is_nan(a) || value::f64_is_nan(b),
    ensures
        value::f64_is_nan(f64_product(a, b)),
        value::f64_is_nan(f64_quotient(a, b)),
        value::f64_is_nan(f64_total(a, b)),
        value::f64_is_nan(f64_difference(a, b)),
{
}

/// No finite number is nearer to an integer than the one that it becomes, which is finite.
pub proof fn an_integer_becomes_the_nearest_number(v: int, c: u64)
    requires
        -0x1_0000_0000_0000_0000 <= v <= 0x1_0000_0000_0000_0000,
        magnitude_bits(c) < F64_INF,
    ensures
        magnitude_bits(int_to_f64(v)) < F64_INF,
        off(v * units(), 1, int_to_f64(v)) <= off(v * units(), 1, c),
{
    let m: nat = if v < 0 { (-v) as nat } else { v as nat };
    let u = units() as int;
    let most = 0x1_0000_0000_0000_0000nat;
    let b = lemma_exact_pattern(F64_STEP as nat, 1086);
    lemma_pow2_adds(12, 1074);
    lemma2_to64();
    assert(F64_STEP as nat * pow2(1086) == most * units()) by (nonlinear_arith)
        requires
            pow2(1086) == 0x1000 * units(),
            F64_STEP as nat * 0x1000 == most,
    ;
    lemma_round_exact(most * units(), 1, b as nat);
    lemma_round_is(most * units(), 1, b);
    assert(m * u <= most * u) by (nonlinear_arith)
        requires
            m <= most,
            u >= 0,
    ;
    rounding_is_monotonic(m * units(), most * units(), 1);
    assert((-v) * u == -(v * u)) by (nonlinear_arith);
    lemma_round(m * units(), 1);
    lemma_nearest_signed(v < 0, m * units(), 1, c);
}

/// A pattern holds its number in a fraction of 52 bits below an exponent: with the exponent
/// zero the fraction counts units, and each further exponent doubles what a fraction under
/// a leading one counts. A binary32 pattern holds it alike, with a fraction of 23 bits.
pub proof fn a_pattern_holds_fraction_and_exponent(e: nat, m: nat)
    ensures
        m < 0x10_0000_0000_0000 ==> {
            &&& mag(m) == m
            &&& mag(0x10_0000_0000_0000 + m) == 0x10_0000_0000_0000 + m
            &&& e > 0 ==> mag((e + 1) * 0x10_0000_0000_0000 + m) == 2 * mag(
                e * 0x10_0000_0000_0000 + m,
            )
        },
        m < 0x80_0000 ==> {
            &&& mag32(m) == m
            &&& mag32(0x80_0000 + m) == 0x80_0000 + m
            &&& e > 0 ==> mag32((e + 1) * 0x80_0000 + m) == 2 * mag32(e * 0x80_0000 + m)
        },
{
    lemma2_to64();
    if e > 0 {
        lemma_pow2_unfold(e);
    }
    if m < 0x10_0000_0000_0000 {
        let step = F64_STEP as nat;
        assert(mag(step + m) == (step + m) * 1) by {
            assert((step + m) / step == 1 && (step + m) % step == m);
        }
        lemma_fundamental_div_mod_converse((e * step + m) as int, step as int, e as int, m as int);
        lemma_fundamental_div_mod_converse(
            ((e + 1) * step + m) as int,
            step as int,
            e as int + 1,
            m as int,
        );
        if e > 0 {
            let (q, t) = ((step + m) as nat, pow2((e - 1) as nat));
            assert(q * (2 * t) == 2 * (q * t)) by (nonlinear_arith);
        }
    }
    if m < 0x80_0000 {
        let step = F32_STEP as nat;
        assert(mag32(step + m) == (step + m) * 1) by {
            assert((step + m) / step == 1 && (step + m) % step == m);
        }
        lemma_fundamental_div_mod_converse((e * step + m) as int, step as int, e as int, m as int);
        lemma_fundamental_div_mod_converse(
            ((e + 1) * step + m) as int,
            step as int,
            e as int + 1,
            m as int,
        );
        if e > 0 {
            let (q, t) = ((step + m) as nat, pow2((e - 1) as nat));
            assert(q * (2 * t) == 2 * (q * t)) by (nonlinear_arith);
        }
    }
}

/// The pattern of one is what the integer one becomes.
pub proof fn one_is_its_pattern()
    ensures
        int_to_f64(1) == 0x3ff0_0000_0000_0000,
{
    lemma_one();
    let one: u64 = 0x3ff0_0000_0000_0000;
    assert((1 * units()) as nat == mag(one as nat) * 1);
    lemma_round_exact((1 * units()) as nat, 1, one as nat);
    lemma_round_is((1 * units()) as nat, 1, one);
}

/// A finite number times one is itself.
pub proof fn a_number_times_one_is_itself(b: u64)
    requires
        magnitude_bits(b) < F64_INF,
    ensures
        f64_product(b, 0x3ff0_0000_0000_0000) == b,
        f64_product(0x3ff0_0000_0000_0000, b) == b,
{
    lemma_one();
    lemma_pow2_pos(1074);
    let (x, u) = (magnitude_bits(b), units());
    let m = mag(x as nat);
    assert(u * m == m * u) by (nonlinear_arith);
    lemma_round_exact(m * u, u, x as nat);
    lemma_round_is(m * u, u, x);
}

/// Integers that are not negative become numbers that are not.
pub proof fn integers_are_not_negative_as_numbers(v: int)
    requires
        0 <= v <= 0x1_0000_0000_0000_0000,
    ensures
        int_to_f64(v) < F64_INF,
        int_to_f64(v) >= 0x3ff0_0000_0000_0000 || v == 0,
        v == 0 ==> int_to_f64(v) == 0,
{
    an_integer_becomes_the_nearest_number(v, 0);
    assert(v * units() >= 0) by (nonlinear_arith)
        requires
            v >= 0,
    ;
    lemma_round((v * units()) as nat, 1);
    if v == 0 {
        lemma_round_of_mag(0);
        assert(mag(0) == 0);
        assert(0 * units() == 0);
    } else {
        one_is_its_pattern();
        integers_keep_their_order_as_numbers(1, v);
    }
}

/// A widened number that is above zero stays above zero.
pub proof fn widened_numbers_stay_above_zero(b: u32)
    requires
        0 < b < value::F32_INF,
    ensures
        0 < f32_to_f64(b) < F64_INF,
{
    a_binary32_number_is_widened_to_itself(b);
    lemma_mag32_monotonic(0, b as nat);
    assert(mag32(0) == 0);
    lemma_pow2_pos(925);
    let (m, u) = (mag32(b as nat) as int, pow2(925) as int);
    assert(m * u > 0) by (nonlinear_arith)
        requires
            m > 0,
            u > 0,
    ;
    assert(mag(0) == 0);
}

/// Greater numbers have integer parts that are not less.
pub proof fn integer_parts_keep_the_order(a: u64, b: u64)
    requires
        !value::f64_is_nan(a),
        !value::f64_is_nan(b),
        value::f64_rank(a) <= value::f64_rank(b),
    ensures
        f64_floor(a) <= f64_floor(b),
{
    lemma_pow2_pos(1074);
    assert(mag(0) == 0);
    assert(0nat / units() == 0) by {
        lemma_div_basics_1(units() as int);
    }
    if !negative(a) && a < F64_INF && b < F64_INF {
        if a < b {
            lemma_mag_monotonic(a as nat, b as nat);
        }
        lemma_div_is_ordered(mag(a as nat) as int, mag(b as nat) as int, units() as int);
    }
}

/// An integer within the exact range is its own integer part.
pub proof fn an_integer_has_itself_as_its_integer_part(v: int)
    requires
        0 <= v <= 0x20_0000_0000_0000,
    ensures
        f64_floor(int_to_f64(v)) == v,
{
    an_integer_becomes_the_number_that_it_is(v);
    integers_are_not_negative_as_numbers(v);
    lemma_pow2_pos(1074);
    lemma_fundamental_div_mod_converse(v * units(), units() as int, v, 0);
}

/// Ten to the power of fifteen, an integer within the exact range, has its pattern.
pub proof fn a_quadrillion_has_its_pattern()
    ensures
        int_to_f64(1_000_000_000_000_000) == 0x430c_6bf5_2634_0000,
{
    let b: u64 = 0x430c_6bf5_2634_0000;
    lemma_mag_scaled(1071, 8_000_000_000_000_000);
    assert(1071 * F64_STEP as nat + 8_000_000_000_000_000 == b);
    lemma_pow2_adds(3, 1071);
    lemma2_to64();
    let (p, u) = (pow2(1071), units());
    assert(8_000_000_000_000_000 * p == 1_000_000_000_000_000 * u) by (nonlinear_arith)
        requires
            u == 8 * p,
    ;
    let num = (1_000_000_000_000_000 * u) as nat;
    assert(mag(b as nat) * 1 == num);
    lemma_round_exact(num, 1, b as nat);
    lemma_round_is(num, 1, b);
}

/// One divided by ten has the pattern nearest to a tenth.
pub proof fn a_tenth_has_its_pattern()
    ensures
        f64_quotient(int_to_f64(1), int_to_f64(10)) == 0x3fb9_9999_9999_999a,
{
    one_is_its_pattern();
    lemma_one();
    an_integer_becomes_the_number_that_it_is(10);
    integers_are_not_negative_as_numbers(10);
    let b: u64 = 0x3fb9_9999_9999_999a;
    let m: nat = 0x19_9999_9999_999a;
    lemma_mag_scaled(1018, (m - 1) as nat);
    lemma_mag_scaled(1018, m);
    lemma_mag_scaled(1018, m + 1);
    assert(1018 * F64_STEP as nat + m == b);
    lemma_pow2_adds(56, 1018);
    lemma2_to64();
    lemma2_to64_rest();
    lemma_pow2_pos(1018);
    lemma_pow2_pos(1074);
    let (p, u) = (pow2(1018) as int, units() as int);
    let (x, y, z) = ((m - 1) * p, m * p, (m + 1) * p);
    assert(u == 0x100_0000_0000_0000 * p);
    assert(10 * (x + y) < 2 * u < 10 * (y + z)) by (nonlinear_arith)
        requires
            p > 0,
            u == 0x100_0000_0000_0000 * p,
            x == (m - 1) * p,
            y == m * p,
            z == (m + 1) * p,
            m == 0x19_9999_9999_999a,
    ;
    let (num, den) = (u * u, 10 * u);
    assert((x + y) * den < 2 * num && 2 * num < (y + z) * den) by (nonlinear_arith)
        requires
            10 * (x + y) < 2 * u < 10 * (y + z),
            num == u * u,
            den == 10 * u,
            u > 0,
    ;
    lemma_round_is(num as nat, den as nat, b);
}

/// Of two patterns that are equally near to a number, the even one is taken, and a number half a
/// step above the greatest finite one, or more, becomes infinity.
pub proof fn of_two_nearest_patterns_the_even_one_is_taken(num: nat, den: nat, c: nat)
    requires
        den > 0,
        c < F64_INF,
        c != round(num, den),
    ensures
        round(num, den) < F64_INF && (mag(round(num, den) as nat) * den - num == num - mag(c) * den
            || mag(round(num, den) as nat) * den - num == mag(c) * den - num) ==> round(num, den) % 2
            == 0,
        round(num, den) == F64_INF <==> 2 * num >= (mag((F64_INF - 1) as nat) + mag(
            F64_INF as nat,
        )) * den,
{
    lemma_round(num, den);
    let b = round(num, den) as nat;
    let (x, y) = (mag(b), mag(c));
    if c > b {
        lemma_mag_monotonic(b, c);
        let z = mag(b + 1);
        if b + 1 < c {
            lemma_mag_monotonic(b + 1, c);
        }
        assert((x + z) * den == x * den + z * den) by (nonlinear_arith);
        assert(x * den < y * den && z * den <= y * den) by (nonlinear_arith)
            requires
                x < y,
                z <= y,
                den > 0,
        ;
    } else {
        lemma_mag_monotonic(c, b);
        let z = mag((b - 1) as nat);
        if c < b - 1 {
            lemma_mag_monotonic(c, (b - 1) as nat);
        }
        assert((z + x) * den == z * den + x * den) by (nonlinear_arith);
        assert(y * den < x * den && y * den <= z * den) by (nonlinear_arith)
            requires
                y < x,
                y <= z,
                den > 0,
        ;
    }
    let (p, q) = (mag((F64_INF - 1) as nat), mag(F64_INF as nat));
    if b < F64_INF {
        let (s, t) = (mag(b), mag(b + 1));
        if b + 1 < F64_INF {
            lemma_mag_monotonic(b + 1, F64_INF as nat);
            lemma_mag_monotonic(b, (F64_INF - 1) as nat);
        }
        assert((s + t) * den <= (p + q) * den) by (nonlinear_arith)
            requires
                s <= p,
                t <= q,
        ;
        if b + 1 < F64_INF {
            assert((s + t) * den < (p + q) * den) by (nonlinear_arith)
                requires
                    s < p,
                    t < q,
                    den > 0,
            ;
        } else {
            assert(b % 2 == 1);
        }
    }
}

/// A number that is not negative, divided by a finite one above zero, is not negative, and a
/// number.
pub proof fn a_quotient_of_numbers_above_zero_is_not_negative(a: u64, b: u64)
    requires
        a <= F64_INF,
        0 < b < F64_INF,
    ensures
        f64_quotient(a, b) <= F64_INF,
{
    lemma_mag_monotonic(0, b as nat);
    assert(mag(0) == 0);
    if a < F64_INF {
        lemma_round(mag(a as nat) * units(), mag(b as nat));
    }
}

/// The sign of a product or a quotient is negative where one of its numbers is and the other is
/// not, that of zero too. A sum that is zero is negative only where both of its numbers are.
pub proof fn signs_are_reckoned_with(a: u64, b: u64)
    requires
        magnitude_bits(a) < F64_INF,
        magnitude_bits(b) < F64_INF,
    ensures
        negative(f64_product(a, b)) <==> negative(a) != negative(b),
        magnitude_bits(b) > 0 ==> (negative(f64_quotient(a, b)) <==> negative(a) != negative(b)),
        finite_value(a) + finite_value(b) == 0 ==> (negative(f64_total(a, b)) <==> negative(a)
            && negative(b)) && magnitude_bits(f64_total(a, b)) == 0,
{
    lemma_pow2_pos(1074);
    let (x, y) = (mag(magnitude_bits(a) as nat), mag(magnitude_bits(b) as nat));
    lemma_round(x * y, units());
    if magnitude_bits(b) > 0 {
        lemma_mag_monotonic(0, magnitude_bits(b) as nat);
        assert(mag(0) == 0);
        lemma_round(x * units(), y);
    }
}

/// Zero divided by zero is a NaN, and any other finite number divided by zero is an infinity of
/// the sign of the quotient.
pub proof fn division_by_zero_is_reckoned_with(a: u64, b: u64)
    requires
        magnitude_bits(a) < F64_INF,
        magnitude_bits(b) == 0,
    ensures
        magnitude_bits(a) == 0 ==> value::f64_is_nan(f64_quotient(a, b)),
        magnitude_bits(a) > 0 ==> magnitude_bits(f64_quotient(a, b)) == F64_INF && (negative(
            f64_quotient(a, b),
        ) <==> negative(a) != negative(b)),
{
}

/// A number is less than another where their comparison says so.
pub proof fn less_is_what_the_comparison_says(a: u64, b: u64)
    ensures
        f64_less(a, b) <==> value::val_order(value::Val::Float64(a), value::Val::Float64(b)) == Some(
            value::Order::Less,
        ),
{
}

} // verus!
