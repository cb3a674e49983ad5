//! Scaling of a side by a ratio, as double precision arithmetic does it: the
//! quotient and the product are each rounded to 53 significant bits, ties to
//! even, and the product then to an integer, ties away from zero.

use vstd::prelude::*;
use vstd::arithmetic::power2::{lemma_pow2_pos, lemma_pow2_unfold, pow2};
use vstd::arithmetic::div_mod::*;
use vstd::arithmetic::mul::*;

verus! {

/// 2^52, the least significand of a normalised double.
pub const HIDDEN: u128 = 0x10_0000_0000_0000;

/// 2^53, the least integer beyond the significands.
pub const LIMIT: u128 = 0x20_0000_0000_0000;

/// The integer nearest to `n / d`; of two equally near ones the even one.
pub open spec fn round_even(n: nat, d: nat) -> nat {
    let q = n / d;
    let r = n % d;
    if 2 * r < d || (2 * r == d && q % 2 == 0) {
        q
    } else {
        q + 1
    }
}

/// How often `a` is doubled until `a / b` reaches 2^52.
pub open spec fn quotient_shift(a: nat, b: nat) -> nat
    decreases (if a < HIDDEN * b { HIDDEN * b - a } else { 0 }),
{
    if a == 0 || a >= HIDDEN * b {
        0
    } else {
        1 + quotient_shift(2 * a, b)
    }
}

/// How many low bits `p` has beyond 53.
pub open spec fn excess_bits(p: nat) -> nat
    decreases p,
{
    if p < LIMIT {
        0
    } else {
        1 + excess_bits(p / 2)
    }
}

/// `p` rounded to 53 significant bits, ties to even.
pub open spec fn round_53(p: nat) -> nat {
    round_even(p, pow2(excess_bits(p))) * pow2(excess_bits(p))
}

/// The significand of the double nearest to `a / b`, an integer that stands
/// for itself divided by `pow2(quotient_shift(a, b))`.
pub open spec fn quotient_significand(a: nat, b: nat) -> nat {
    round_even(a * pow2(quotient_shift(a, b)), b)
}

/// `side` times the double nearest to `a / b`, in double precision, rounded
/// to an integer with ties away from zero.
pub open spec fn scaled(side: nat, a: nat, b: nat) -> nat {
    let e = quotient_shift(a, b);
    let p = round_53(side * quotient_significand(a, b));
    (2 * p + pow2(e)) / pow2(e + 1)
}

/// `scaled`, cut off at the largest `u32`.
pub open spec fn scaled_u32(side: nat, a: nat, b: nat) -> u32 {
    if scaled(side, a, b) > u32::MAX {
        u32::MAX
    } else {
        scaled(side, a, b) as u32
    }
}

/// The integer nearest to `n / d`, ties to even.
fn nearest_even(n: u128, d: u128) -> (res: u128)
    requires
        d > 0,
        2 * d <= u128::MAX,
        n < u128::MAX,
    ensures
        res == round_even(n as nat, d as nat),
        res <= n / d + 1,
{
    let q: u128 = n / d;
    let r: u128 = n % d;
    proof {
        assert(q <= n) by (nonlinear_arith)
            requires
                q == n / d,
                d > 0,
        ;
    }
    if 2 * r < d || (2 * r == d && q % 2 == 0) {
        q
    } else {
        q + 1
    }
}

/// `side` scaled by `a / b` in double precision, cut off at the largest `u32`.
pub fn scale_side(side: u32, a: u32, b: u32) -> (res: u32)
    requires
        b > 0,
    ensures
        res == scaled_u32(side as nat, a as nat, b as nat),
{
    let goal: u128 = HIDDEN * b as u128;
    let mut x: u128 = a as u128;
    let mut unit: u128 = 1;
    let ghost mut e: nat = 0;
    proof {
        assert(pow2(0) == 1) by {
            vstd::arithmetic::power2::lemma2_to64();
        }
        assert(a * pow2(0) == a);
        assert(a < HIDDEN * b) by (nonlinear_arith)
            requires
                a <= u32::MAX,
                b >= 1,
                HIDDEN == 0x10_0000_0000_0000,
        ;
    }
    while x > 0 && x < goal
        invariant
            b > 0,
            goal == HIDDEN * b,
            x == a * pow2(e),
            unit == pow2(e),
            x < 2 * goal,
            a > 0 ==> unit <= x,
            a == 0 ==> unit == 1,
            unit >= 1,
            e + quotient_shift(x as nat, b as nat) == quotient_shift(a as nat, b as nat),
        decreases (if x < goal { goal - x } else { 0 }),
    {
        proof {
            lemma_pow2_unfold(e + 1);
            assert(a * (2 * pow2(e)) == 2 * (a * pow2(e))) by (nonlinear_arith);
            assert(a > 0);
            e = e + 1;
        }
        x = 2 * x;
        unit = 2 * unit;
    }
    let m: u128 = nearest_even(x, b as u128);
    proof {
        assert(e == quotient_shift(a as nat, b as nat));
        assert(m == quotient_significand(a as nat, b as nat));
        assert(x / (b as u128) < LIMIT) by (nonlinear_arith)
            requires
                x < 2 * goal,
                goal == HIDDEN * b,
                b > 0,
                HIDDEN == 0x10_0000_0000_0000,
                LIMIT == 0x20_0000_0000_0000,
        ;
        assert(side * m <= u32::MAX * LIMIT) by (nonlinear_arith)
            requires
                side <= u32::MAX,
                m <= LIMIT,
        ;
    }
    let product: u128 = side as u128 * m;
    let mut rest: u128 = product;
    let mut grain: u128 = 1;
    let ghost mut k: nat = 0;
    while rest >= LIMIT
        invariant
            product <= u32::MAX * LIMIT,
            grain == pow2(k),
            1 <= grain <= 2 * u32::MAX,
            rest * grain <= product,
            excess_bits(product as nat) == k + excess_bits(rest as nat),
        decreases rest,
    {
        proof {
            lemma_pow2_unfold(k + 1);
            assert(grain <= u32::MAX) by (nonlinear_arith)
                requires
                    rest >= LIMIT,
                    rest * grain <= product,
                    product <= u32::MAX * LIMIT,
                    LIMIT == 0x20_0000_0000_0000,
            ;
            assert((rest / 2) * (2 * grain) <= product) by (nonlinear_arith)
                requires
                    rest * grain <= product,
            ;
            k = k + 1;
        }
        rest = rest / 2;
        grain = 2 * grain;
    }
    let count: u128 = nearest_even(product, grain);
    proof {
        assert(count * grain <= product + grain) by (nonlinear_arith)
            requires
                count <= product / grain + 1,
                grain >= 1,
        ;
        assert(unit < 2 * goal);
        assert(goal <= HIDDEN * u32::MAX) by (nonlinear_arith)
            requires
                goal == HIDDEN * b,
                b <= u32::MAX,
        ;
        lemma_pow2_unfold(e + 1);
    }
    let rounded: u128 = count * grain;
    let value: u128 = (2 * rounded + unit) / (2 * unit);
    if value > u32::MAX as u128 {
        u32::MAX
    } else {
        value as u32
    }
}

/// `n` as a double holds it: rounded to 53 significant bits, ties to even.
pub fn to_double(n: u64) -> (res: u128)
    ensures
        res == round_53(n as nat),
        res <= 0x2_0000_0000_0000_0000,
{
    let mut rest: u128 = n as u128;
    let mut grain: u128 = 1;
    let ghost mut k: nat = 0;
    proof {
        vstd::arithmetic::power2::lemma2_to64();
    }
    while rest >= LIMIT
        invariant
            grain == pow2(k),
            1 <= grain <= 0x1_0000_0000,
            rest * grain <= n,
            excess_bits(n as nat) == k + excess_bits(rest as nat),
        decreases rest,
    {
        proof {
            lemma_pow2_unfold(k + 1);
            assert(grain <= 0x1000) by (nonlinear_arith)
                requires
                    rest >= LIMIT,
                    rest * grain <= n,
                    n <= u64::MAX,
                    LIMIT == 0x20_0000_0000_0000,
            ;
            assert((rest / 2) * (2 * grain) <= n) by (nonlinear_arith)
                requires
                    rest * grain <= n,
            ;
            k = k + 1;
        }
        rest = rest / 2;
        grain = 2 * grain;
    }
    let count: u128 = nearest_even(n as u128, grain);
    proof {
        assert(count * grain <= n + grain) by (nonlinear_arith)
            requires
                count <= (n as u128) / grain + 1,
                grain >= 1,
        ;
    }
    count * grain
}

// ---------------------------------------------------------------------------
// Laws
// ---------------------------------------------------------------------------

proof fn lemma_excess_bits(p: nat)
    ensures
        p < LIMIT * pow2(excess_bits(p)),
        excess_bits(p) > 0 ==> HIDDEN * pow2(excess_bits(p)) <= p,
    decreases p,
{
    if p < LIMIT {
        vstd::arithmetic::power2::lemma2_to64();
    } else {
        let k = excess_bits(p / 2);
        lemma_excess_bits(p / 2);
        lemma_pow2_unfold(k + 1);
        let d = pow2(k);
        assert(p < LIMIT * (2 * d)) by (nonlinear_arith)
            requires
                p / 2 < LIMIT * d,
        ;
        if k == 0 {
            vstd::arithmetic::power2::lemma2_to64();
        } else {
            assert(HIDDEN * (2 * d) <= p) by (nonlinear_arith)
                requires
                    HIDDEN * d <= p / 2,
            ;
        }
    }
}

proof fn lemma_excess_bits_monotone(p: nat, q: nat)
    requires
        p <= q,
    ensures
        excess_bits(p) <= excess_bits(q),
    decreases p,
{
    if p >= LIMIT {
        lemma_excess_bits_monotone(p / 2, q / 2);
    }
}

/// The nearest integer is no more than a half away.
pub proof fn lemma_round_even_bounds(n: nat, d: nat)
    requires
        d > 0,
    ensures
        2 * (round_even(n, d) * d) <= 2 * n + d,
        2 * n <= 2 * (round_even(n, d) * d) + d,
{
    let q = n / d;
    let r = n % d;
    lemma_fundamental_div_mod(n as int, d as int);
    assert(n == q * d + r) by (nonlinear_arith)
        requires
            n == d * q + r,
    ;
    assert((q + 1) * d == q * d + d) by (nonlinear_arith);
}

proof fn lemma_round_even_monotone(n: nat, m: nat, d: nat)
    requires
        d > 0,
        n <= m,
    ensures
        round_even(n, d) <= round_even(m, d),
{
    lemma_fundamental_div_mod(n as int, d as int);
    lemma_fundamental_div_mod(m as int, d as int);
    lemma_div_is_ordered(n as int, m as int, d as int);
    if n / d == m / d {
        assert(n % d <= m % d);
    }
}

proof fn lemma_round_53_monotone(p: nat, q: nat)
    requires
        p <= q,
    ensures
        round_53(p) <= round_53(q),
{
    let kp = excess_bits(p);
    let kq = excess_bits(q);
    let dp = pow2(kp);
    let dq = pow2(kq);
    lemma_pow2_pos(kp);
    lemma_pow2_pos(kq);
    lemma_excess_bits(p);
    lemma_excess_bits(q);
    lemma_excess_bits_monotone(p, q);
    if kp == kq {
        lemma_round_even_monotone(p, q, dp);
        let a = round_even(p, dp);
        let b = round_even(q, dp);
        assert(a * dp <= b * dp) by (nonlinear_arith)
            requires
                a <= b,
        ;
    } else {
        // `p` rounds to at most 2^53 of its own units, `q` to at least 2^52 of
        // its units, which are at least twice as large.
        assert(2 * dp <= dq) by {
            lemma_pow2_unfold(kq);
            vstd::arithmetic::power2::lemma_pow2_strictly_increases(kp, kq);
            if kp < kq - 1 {
                vstd::arithmetic::power2::lemma_pow2_strictly_increases(kp, (kq - 1) as nat);
            }
        }
        let a = round_even(p, dp);
        let b = round_even(q, dq);
        assert(a <= LIMIT) by {
            lemma_round_even_monotone(p, (LIMIT * dp) as nat, dp);
            lemma_round_even_exact(LIMIT as nat, dp);
        }
        assert(HIDDEN <= b) by {
            lemma_round_even_monotone((HIDDEN * dq) as nat, q, dq);
            lemma_round_even_exact(HIDDEN as nat, dq);
        }
        assert(a * dp <= LIMIT * dp) by (nonlinear_arith)
            requires
                a <= LIMIT,
        ;
        assert(HIDDEN * dq <= b * dq) by (nonlinear_arith)
            requires
                HIDDEN <= b,
        ;
        assert(LIMIT * dp <= HIDDEN * dq) by (nonlinear_arith)
            requires
                2 * dp <= dq,
                LIMIT == 2 * HIDDEN,
        ;
    }
}

proof fn lemma_round_even_exact(c: nat, d: nat)
    requires
        d > 0,
    ensures
        round_even(c * d, d) == c,
{
    lemma_div_by_multiple(c as int, d as int);
    lemma_mod_multiples_basic(c as int, d as int);
}

/// A longer side scales to at least the length of a shorter one.
pub proof fn law_scaled_monotone(s: nat, t: nat, a: nat, b: nat)
    requires
        s <= t,
    ensures
        scaled(s, a, b) <= scaled(t, a, b),
{
    let m = quotient_significand(a, b);
    let e = quotient_shift(a, b);
    assert(s * m <= t * m) by (nonlinear_arith)
        requires
            s <= t,
    ;
    lemma_round_53_monotone(s * m, t * m);
    lemma_pow2_pos(e + 1);
    lemma_div_is_ordered(
        (2 * round_53(s * m) + pow2(e)) as int,
        (2 * round_53(t * m) + pow2(e)) as int,
        pow2(e + 1) as int,
    );
}

proof fn lemma_quotient_shift(a: nat, b: nat)
    requires
        0 < a < HIDDEN * b,
    ensures
        HIDDEN * b <= a * pow2(quotient_shift(a, b)) < LIMIT * b,
    decreases HIDDEN * b - a,
{
    let e = quotient_shift(2 * a, b);
    let u = pow2(e);
    lemma_pow2_unfold(e + 1);
    assert(quotient_shift(a, b) == e + 1);
    assert(pow2(quotient_shift(a, b)) == 2 * u);
    assert(a * (2 * u) == (2 * a) * u) by (nonlinear_arith);
    if 2 * a < HIDDEN * b {
        lemma_quotient_shift(2 * a, b);
    } else {
        vstd::arithmetic::power2::lemma2_to64();
        assert(e == 0 && u == 1);
        assert((2 * a) * u == 2 * a);
        assert(LIMIT * b == 2 * (HIDDEN * b)) by (nonlinear_arith)
            requires
                LIMIT == 2 * HIDDEN,
        ;
    }
}

/// A side that is at most `b` long scales by `a / b` to at most `a`, although
/// both the quotient and the product are rounded.
pub proof fn law_scaled_within(side: nat, a: nat, b: nat)
    requires
        side <= b,
        a < b,
        b <= u16::MAX,
    ensures
        scaled(side, a, b) <= a,
{
    law_scaled_monotone(side, b, a, b);
    let e = quotient_shift(a, b);
    let m = quotient_significand(a, b);
    let u = pow2(e);
    lemma_pow2_pos(e);
    lemma_pow2_unfold(e + 1);
    if a == 0 {
        vstd::arithmetic::power2::lemma2_to64();
        assert(e == 0 && u == 1);
        assert(a * u == 0);
        lemma_small_mod(0, b);
        lemma_round_even_exact(0, b);
        assert(m == 0);
        assert(b * m == 0) by (nonlinear_arith)
            requires
                m == 0,
        ;
        lemma_round_even_exact(0, 1);
        assert(round_53(0) == 0) by {
            assert(excess_bits(0) == 0);
            assert(round_even(0, 1) * 1 == 0);
        }
        assert(pow2(e + 1) == 2);
        let z = 2 * round_53(b * m) + u;
        assert(z == 1);
        assert(scaled(b, a, b) == z / pow2(e + 1));
        assert(z / pow2(e + 1) == 0) by (nonlinear_arith)
            requires
                z == 1,
                pow2(e + 1) == 2,
        ;
    } else {
        assert(a < HIDDEN * b) by (nonlinear_arith)
            requires
                a < b,
                HIDDEN == 0x10_0000_0000_0000,
        ;
        lemma_quotient_shift(a, b);
        let n = a * u;
        lemma_round_even_bounds(n, b);
        let p = (b * m) as nat;
        assert(m * b == b * m) by (nonlinear_arith);
        assert(2 * p <= 2 * n + b);
        let k = excess_bits(p);
        let g = pow2(k);
        lemma_excess_bits(p);
        lemma_pow2_pos(k);
        lemma_round_even_bounds(p, g);
        let r = round_53(p);
        assert(2 * r <= 2 * p + g);
        assert(u > HIDDEN) by (nonlinear_arith)
            requires
                HIDDEN * b <= a * u,
                a < b,
                HIDDEN == 0x10_0000_0000_0000,
        ;
        assert(p <= LIMIT * b + b);
        assert(g <= 0x10_0000) by {
            if k == 0 {
                vstd::arithmetic::power2::lemma2_to64();
            } else {
                assert(g <= 0x10_0000) by (nonlinear_arith)
                    requires
                        HIDDEN * g <= p,
                        p <= LIMIT * b + b,
                        b <= 0xffff,
                        HIDDEN == 0x10_0000_0000_0000,
                        LIMIT == 0x20_0000_0000_0000,
                ;
            }
        }
        assert(2 * r + u < 2 * n + 2 * u);
        assert((2 * r + u) / (2 * u) <= a) by (nonlinear_arith)
            requires
                2 * r + u < 2 * (a * u) + 2 * u,
                u > 0,
        ;
        assert(scaled(b, a, b) == (2 * r + u) / (2 * u));
    }
}

proof fn lemma_cancel(b: nat, x: int, y: int)
    requires
        b > 0,
        b * x >= b * y,
    ensures
        x >= y,
{
    assert(x >= y) by (nonlinear_arith)
        requires
            b > 0,
            b * x >= b * y,
    ;
}

/// Scaled by `a / b`, a side that is at most `b` long loses no more than `b`
/// itself does, although both the quotient and the product are rounded.
pub proof fn law_scaled_loses_little(side: nat, a: nat, b: nat)
    requires
        side <= b,
        0 < a < b,
        b <= u16::MAX,
    ensures
        scaled(side, a, b) + (b - a) >= side,
{
    let e = quotient_shift(a, b);
    let m = quotient_significand(a, b);
    let u = pow2(e);
    let c = (b - a) as nat;
    lemma_pow2_pos(e);
    lemma_pow2_unfold(e + 1);
    assert(a < HIDDEN * b) by (nonlinear_arith)
        requires
            a < b,
            HIDDEN == 0x10_0000_0000_0000,
    ;
    lemma_quotient_shift(a, b);
    let n = a * u;
    lemma_round_even_bounds(n, b);
    assert(u > HIDDEN) by (nonlinear_arith)
        requires
            HIDDEN * b <= a * u,
            a < b,
            HIDDEN == 0x10_0000_0000_0000,
    ;
    let p = side * m;
    let k = excess_bits(p);
    let g = pow2(k);
    let r = round_53(p);
    lemma_excess_bits(p);
    lemma_pow2_pos(k);
    lemma_round_even_bounds(p, g);
    assert(2 * p <= 2 * r + g);
    assert(p <= LIMIT * b + b) by {
        assert(side * m <= b * m) by (nonlinear_arith)
            requires
                side <= b,
        ;
        assert(m * b == b * m) by (nonlinear_arith);
    }
    assert(g <= 0x10_0000) by {
        if k == 0 {
            vstd::arithmetic::power2::lemma2_to64();
        } else {
            assert(g <= 0x10_0000) by (nonlinear_arith)
                requires
                    HIDDEN * g <= p,
                    p <= LIMIT * b + b,
                    b <= 0xffff,
                    HIDDEN == 0x10_0000_0000_0000,
                    LIMIT == 0x20_0000_0000_0000,
            ;
        }
    }
    if side > c {
        let t = side - c;
        assert(side * a >= b * t) by (nonlinear_arith)
            requires
                side <= b,
                c == b - a,
                t == side - c,
        ;
        assert((side * a) * u >= (b * t) * u) by (nonlinear_arith)
            requires
                side * a >= b * t,
        ;
        assert(side * (2 * (m * b)) >= side * (2 * n - b)) by (nonlinear_arith)
            requires
                2 * n <= 2 * (m * b) + b,
        ;
        assert(b * (2 * p) == side * (2 * (m * b))) by (nonlinear_arith)
            requires
                p == side * m,
        ;
        assert(side * (2 * n - b) == 2 * ((side * a) * u) - side * b) by (nonlinear_arith)
            requires
                n == a * u,
        ;
        assert(b * (2 * (t * u) - side) == 2 * ((b * t) * u) - side * b) by (nonlinear_arith);
        lemma_cancel(b, (2 * p) as int, 2 * (t * u) - side);
        assert(2 * r + u >= 2 * (t * u));
        assert((2 * r + u) / (2 * u) >= t) by (nonlinear_arith)
            requires
                2 * r + u >= 2 * (t * u),
                u > 0,
        ;
        assert(scaled(side, a, b) == (2 * r + u) / (2 * u));
    }
}

/// A number of no more than 53 bits stays as it is.
pub proof fn lemma_small_is_exact(p: nat)
    requires
        p < LIMIT,
    ensures
        round_53(p) == p,
{
    vstd::arithmetic::power2::lemma2_to64();
    lemma_round_even_exact(p, 1);
    assert(p * 1 == p);
}

/// The rounding of a product to 53 bits changes it by less than one part in
/// 2^53.
proof fn lemma_round_53_near(p: nat)
    ensures
        2 * HIDDEN * round_53(p) <= 2 * HIDDEN * p + p,
        2 * HIDDEN * p <= 2 * HIDDEN * round_53(p) + p,
{
    let d = pow2(excess_bits(p));
    lemma_pow2_pos(excess_bits(p));
    lemma_excess_bits(p);
    lemma_round_even_bounds(p, d);
    let r = round_53(p);
    if excess_bits(p) == 0 {
        vstd::arithmetic::power2::lemma2_to64();
        lemma_round_even_exact(p, 1);
        assert(p * 1 == p);
        assert(r == p);
    } else {
        assert(HIDDEN * d <= p);
        assert(2 * r <= 2 * p + d && 2 * p <= 2 * r + d);
        assert(2 * HIDDEN * r <= 2 * HIDDEN * p + HIDDEN * d) by (nonlinear_arith)
            requires
                2 * r <= 2 * p + d,
                HIDDEN > 0,
        ;
        assert(2 * HIDDEN * p <= 2 * HIDDEN * r + HIDDEN * d) by (nonlinear_arith)
            requires
                2 * p <= 2 * r + d,
                HIDDEN > 0,
        ;
    }
}

/// No product of a side and a ratio's upper part is large enough to make up for
/// the precision.
proof fn lemma_precision_suffices(part: nat, u: nat, side: nat, a: nat, b: nat)
    requires
        u > 0,
        HIDDEN * b <= a * u,
        side * a < 0x1_0000_0000_0000,
        part <= 2 * HIDDEN + 1,
    ensures
        2 * (side * a * u) + part * (side * b) < 2 * (u * HIDDEN),
{
    let h = HIDDEN as int;
    let big = (side * a) as int;
    assert(h * (side * b) <= big * u) by (nonlinear_arith)
        requires
            h * b <= a * u,
            big == side * a,
            side >= 0,
    ;
    assert(h * (part * (side * b)) <= part * (big * u)) by (nonlinear_arith)
        requires
            h * (side * b) <= big * u,
            part >= 0,
    ;
    assert(part * (big * u) <= (2 * h + 1) * (big * u)) by (nonlinear_arith)
        requires
            part <= 2 * h + 1,
            big * u >= 0,
    ;
    assert((4 * h + 1) * big < 2 * h * h) by (nonlinear_arith)
        requires
            big < 0x1_0000_0000_0000,
            h == 0x10_0000_0000_0000,
    ;
    assert((4 * h + 1) * (big * u) < 2 * h * h * u) by (nonlinear_arith)
        requires
            (4 * h + 1) * big < 2 * h * h,
            u > 0,
    ;
    let left = 2 * (big * u) + part * (side * b);
    assert(h * left == 2 * h * (big * u) + h * (part * (side * b))) by (nonlinear_arith)
        requires
            left == 2 * (big * u) + part * (side * b),
    ;
    assert(2 * h * (big * u) + (2 * h + 1) * (big * u) == (4 * h + 1) * (big * u))
        by (nonlinear_arith);
    assert(2 * h * h * u == h * (2 * (u * h))) by (nonlinear_arith);
    assert(h * left < h * (2 * (u * h)));
    assert(left < 2 * (u * h)) by (nonlinear_arith)
        requires
            h * left < h * (2 * (u * h)),
            h > 0,
    ;
}

/// A scaled side is an integer nearest to the side times the ratio: it differs
/// from that product by no more than a half.
pub proof fn law_scaled_is_nearest(side: nat, a: nat, b: nat)
    requires
        side <= u16::MAX,
        a <= u32::MAX,
        b > 0,
    ensures
        2 * (b * scaled(side, a, b)) <= 2 * (side * a) + b,
        2 * (side * a) <= 2 * (b * scaled(side, a, b)) + b,
{
    let e = quotient_shift(a, b);
    let m = quotient_significand(a, b);
    let u = pow2(e);
    let product = side * m;
    let p = round_53(product);
    let s = scaled(side, a, b);
    lemma_pow2_pos(e);
    lemma_pow2_unfold(e + 1);
    lemma_round_53_near(product);
    lemma_fundamental_div_mod((2 * p + u) as int, (2 * u) as int);
    assert(2 * (u * s) <= 2 * p + u < 2 * (u * s) + 2 * u) by {
        assert((2 * u) * s == 2 * (u * s)) by (nonlinear_arith);
    }
    if a == 0 {
        vstd::arithmetic::power2::lemma2_to64();
        assert(a * u == 0) by (nonlinear_arith)
            requires
                a == 0,
        ;
        lemma_small_mod(0, b);
        lemma_round_even_exact(0, b);
        assert(m == 0);
        assert(product == 0) by (nonlinear_arith)
            requires
                product == side * m,
                m == 0,
        ;
        assert(p == 0);
        assert(s == 0);
        assert(b * s == 0 && side * a == 0) by (nonlinear_arith)
            requires
                s == 0,
                a == 0,
        ;
    } else {
        let h = HIDDEN as int;
        assert(a < HIDDEN * b) by (nonlinear_arith)
            requires
                a <= 0xffff_ffff,
                b >= 1,
                HIDDEN == 0x10_0000_0000_0000,
        ;
        lemma_quotient_shift(a, b);
        lemma_round_even_bounds(a * u, b);
        assert(side * a < 0x1_0000_0000_0000) by (nonlinear_arith)
            requires
                side <= 0xffff,
                a <= 0xffff_ffff,
        ;
        let big = (side * a) as int;
        let bp = (b * p) as int;
        let bq = (b * product) as int;
        let bs = (b * s) as int;
        assert(bs * u == b * (u * s)) by (nonlinear_arith)
            requires
                bs == b * s,
        ;
        // The product, times the denominator.
        assert(2 * bq <= 2 * (big * u) + side * b && 2 * (big * u) <= 2 * bq + side * b)
            by (nonlinear_arith)
            requires
                bq == b * (side * m),
                big == side * a,
                2 * (m * b) <= 2 * (a * u) + b,
                2 * (a * u) <= 2 * (m * b) + b,
                side >= 0,
        ;
        assert(2 * (h * bp) <= 2 * (h * bq) + bq && 2 * (h * bq) <= 2 * (h * bp) + bq)
            by (nonlinear_arith)
            requires
                bp == b * p,
                bq == b * product,
                2 * h * p <= 2 * h * product + product,
                2 * h * product <= 2 * h * p + product,
                b > 0,
        ;
        assert(2 * (bs * u) <= 2 * bp + b * u && 2 * bp < 2 * (bs * u) + b * u) by (nonlinear_arith)
            requires
                bs * u == b * (u * s),
                bp == b * p,
                2 * (u * s) <= 2 * p + u,
                2 * p + u < 2 * (u * s) + 2 * u,
                b > 0,
        ;
        if 2 * bs > 2 * big + b {
            assert(2 * (bs * u) >= 2 * (big * u) + b * u + u) by (nonlinear_arith)
                requires
                    2 * bs >= 2 * big + b + 1,
                    u > 0,
            ;
            assert(2 * bp >= 2 * (big * u) + u);
            assert(2 * (h * bp) >= 2 * (h * (big * u)) + h * u) by (nonlinear_arith)
                requires
                    2 * bp >= 2 * (big * u) + u,
                    h > 0,
            ;
            assert((2 * h + 1) * (2 * bq) <= (2 * h + 1) * (2 * (big * u) + side * b))
                by (nonlinear_arith)
                requires
                    2 * bq <= 2 * (big * u) + side * b,
                    h > 0,
            ;
            assert((2 * h + 1) * (2 * bq) == 2 * (2 * (h * bq) + bq)) by (nonlinear_arith);
            assert((2 * h + 1) * (2 * (big * u) + side * b) == 4 * (h * (big * u)) + 2 * (big * u)
                + (2 * h + 1) * (side * b)) by (nonlinear_arith);
            lemma_precision_suffices((2 * h + 1) as nat, u, side, a, b);
            assert(h * u == u * h) by (nonlinear_arith);
            assert(false);
        }
        if 2 * big > 2 * bs + b {
            assert(2 * (big * u) >= 2 * (bs * u) + b * u + u) by (nonlinear_arith)
                requires
                    2 * big >= 2 * bs + b + 1,
                    u > 0,
            ;
            assert(2 * (big * u) >= 2 * bp + u);
            assert(2 * (h * (big * u)) >= 2 * (h * bp) + h * u) by (nonlinear_arith)
                requires
                    2 * (big * u) >= 2 * bp + u,
                    h > 0,
            ;
            assert((2 * h - 1) * (2 * bq) >= (2 * h - 1) * (2 * (big * u) - side * b))
                by (nonlinear_arith)
                requires
                    2 * (big * u) <= 2 * bq + side * b,
                    h > 0,
            ;
            assert((2 * h - 1) * (2 * bq) == 2 * (2 * (h * bq) - bq)) by (nonlinear_arith);
            assert((2 * h - 1) * (2 * (big * u) - side * b) == 4 * (h * (big * u)) - 2 * (big * u)
                - (2 * h - 1) * (side * b)) by (nonlinear_arith);
            lemma_precision_suffices((2 * h - 1) as nat, u, side, a, b);
            assert(h * u == u * h) by (nonlinear_arith);
            assert(false);
        }
    }
}

} // verus!
