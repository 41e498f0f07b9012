//! Integer helpers for exact rational arithmetic: greatest common divisors,
//! divisibility, magnitudes and the comparison of fractions.

use vstd::prelude::*;
use vstd::arithmetic::div_mod::lemma_fundamental_div_mod;
use vstd::arithmetic::div_mod::lemma_fundamental_div_mod_converse;
use vstd::arithmetic::div_mod::lemma_mod_pos_bound;

verus! {

/// The greatest common divisor of two natural numbers, by Euclid's rule.
/// `gcd(a, 0)` is `a`, so `gcd(0, 0)` is `0`.
pub open spec fn gcd(a: nat, b: nat) -> nat
    decreases b,
{
    if b == 0 {
        a
    } else {
        gcd(b, a % b)
    }
}

/// `g` divides `x`: `x` is an integer multiple of the positive number `g`.
pub open spec fn divides(g: int, x: int) -> bool {
    g > 0 && x % g == 0
}

/// The magnitude of an integer.
pub open spec fn magnitude(x: int) -> nat {
    if x < 0 {
        (-x) as nat
    } else {
        x as nat
    }
}

/// The sign of an integer: `-1`, `0` or `1`.
pub open spec fn signum(x: int) -> int {
    if x < 0 {
        -1
    } else if x == 0 {
        0
    } else {
        1
    }
}

/// A divisor of `x` gives `x` back when multiplied by the quotient.
pub proof fn lemma_divides_exact(g: int, x: int)
    requires
        divides(g, x),
    ensures
        x == g * (x / g),
        (x / g) * g == x,
{
    lemma_fundamental_div_mod(x, g);
    assert((x / g) * g == g * (x / g)) by (nonlinear_arith);
}

/// Every multiple of a positive number is divisible by it, and the quotient
/// is the other factor.
pub proof fn lemma_multiple_divides(g: int, k: int)
    requires
        g > 0,
    ensures
        divides(g, g * k),
        divides(g, k * g),
        (g * k) / g == k,
        (k * g) / g == k,
{
    assert(k * g == g * k) by (nonlinear_arith);
    lemma_fundamental_div_mod_converse(g * k, g, k, 0);
}

/// Divisibility is transitive.
pub proof fn lemma_divides_transitive(g: int, h: int, x: int)
    requires
        divides(g, h),
        divides(h, x),
    ensures
        divides(g, x),
{
    lemma_divides_exact(g, h);
    lemma_divides_exact(h, x);
    let k = (h / g) * (x / h);
    assert(x == g * k) by (nonlinear_arith)
        requires
            x == h * (x / h),
            h == g * (h / g),
            k == (h / g) * (x / h),
    ;
    lemma_multiple_divides(g, k);
}

/// A divisor of an integer divides its magnitude, and the other way round.
pub proof fn lemma_divides_magnitude(g: int, x: int)
    requires
        g > 0,
    ensures
        divides(g, x) <==> divides(g, magnitude(x) as int),
{
    if x < 0 {
        if divides(g, x) {
            lemma_divides_exact(g, x);
            let k = -(x / g);
            assert(-x == g * k) by (nonlinear_arith)
                requires
                    x == g * (x / g),
                    k == -(x / g),
            ;
            lemma_multiple_divides(g, k);
        }
        if divides(g, -x) {
            lemma_divides_exact(g, -x);
            let k = -((-x) / g);
            assert(x == g * k) by (nonlinear_arith)
                requires
                    -x == g * ((-x) / g),
                    k == -((-x) / g),
            ;
            lemma_multiple_divides(g, k);
        }
    }
}

/// Divisibility survives a common positive factor: where `k` divides `x`,
/// `k * g` divides `g * x`.
pub proof fn lemma_divides_scaled(k: int, g: int, x: int)
    requires
        divides(k, x),
        g > 0,
    ensures
        divides(k * g, g * x),
        divides(k * g, x * g),
{
    lemma_divides_exact(k, x);
    let t = x / k;
    assert(k * g > 0) by (nonlinear_arith)
        requires
            k > 0,
            g > 0,
    ;
    assert(g * x == (k * g) * t) by (nonlinear_arith)
        requires
            x == k * t,
    ;
    assert(x * g == g * x) by (nonlinear_arith);
    lemma_multiple_divides(k * g, t);
}

/// A common divisor of two integers divides every integer combination of
/// them.
pub proof fn lemma_divides_combination(g: int, x: int, y: int, u: int, v: int)
    requires
        divides(g, x),
        divides(g, y),
    ensures
        divides(g, u * x + v * y),
{
    lemma_divides_exact(g, x);
    lemma_divides_exact(g, y);
    let k = u * (x / g) + v * (y / g);
    assert(u * x + v * y == g * k) by (nonlinear_arith)
        requires
            x == g * (x / g),
            y == g * (y / g),
            k == u * (x / g) + v * (y / g),
    ;
    lemma_multiple_divides(g, k);
}

/// The greatest common divisor is positive unless both numbers are zero, and
/// it divides both of them.
pub proof fn lemma_gcd_divides(a: nat, b: nat)
    requires
        a > 0 || b > 0,
    ensures
        gcd(a, b) > 0,
        divides(gcd(a, b) as int, a as int),
        divides(gcd(a, b) as int, b as int),
    decreases b,
{
    if b == 0 {
        lemma_multiple_divides(a as int, 1);
        lemma_multiple_divides(a as int, 0);
    } else {
        lemma_mod_pos_bound(a as int, b as int);
        lemma_gcd_divides(b, a % b);
        let g = gcd(b, a % b) as int;
        lemma_fundamental_div_mod(a as int, b as int);
        lemma_divides_combination(g, b as int, (a % b) as int, (a as int) / (b as int), 1);
        assert((a as int) / (b as int) * (b as int) + 1 * ((a % b) as int) == a as int)
            by (nonlinear_arith)
            requires
                a as int == (b as int) * ((a as int) / (b as int)) + (a as int) % (b as int),
        ;
    }
}

/// Every common divisor of two numbers divides their greatest common divisor.
pub proof fn lemma_gcd_greatest(a: nat, b: nat, k: int)
    requires
        divides(k, a as int),
        divides(k, b as int),
        a > 0 || b > 0,
    ensures
        divides(k, gcd(a, b) as int),
    decreases b,
{
    if b != 0 {
        lemma_mod_pos_bound(a as int, b as int);
        lemma_fundamental_div_mod(a as int, b as int);
        lemma_divides_combination(k, a as int, b as int, 1, -((a as int) / (b as int)));
        assert(1 * (a as int) + (-((a as int) / (b as int))) * (b as int) == (a % b) as int)
            by (nonlinear_arith)
            requires
                a as int == (b as int) * ((a as int) / (b as int)) + (a as int) % (b as int),
        ;
        lemma_gcd_greatest(b, a % b, k);
    }
}

/// Quotient of an exact division, rebuilt from the magnitude and the sign.
pub proof fn lemma_signed_quotient(x: int, g: int)
    requires
        divides(g, x),
    ensures
        divides(g, magnitude(x) as int),
        x / g == signum(x) * ((magnitude(x) as int) / g),
        magnitude(x / g) == (magnitude(x) as int) / g,
{
    lemma_divides_magnitude(g, x);
    lemma_divides_exact(g, x);
    lemma_divides_exact(g, magnitude(x) as int);
    let q = x / g;
    let m = (magnitude(x) as int) / g;
    if x < 0 {
        assert(q == -m) by (nonlinear_arith)
            requires
                x == g * q,
                -x == g * m,
                g > 0,
        ;
    } else if x == 0 {
        assert(q == 0 && m == 0) by (nonlinear_arith)
            requires
                0 == g * q,
                0 == g * m,
                g > 0,
        ;
    } else {
        assert(q == m) by (nonlinear_arith)
            requires
                x == g * q,
                x == g * m,
                g > 0,
        ;
    }
    assert(m >= 0) by (nonlinear_arith)
        requires
            magnitude(x) as int == g * m,
            g > 0,
    ;
}

/// The bound `2^63` on the magnitude of the factors of [`wide_product`].
pub const FACTOR_BOUND: i128 = 0x8000_0000_0000_0000;

/// The product of two integers of magnitude at most `bound` has magnitude at
/// most `bound * bound`.
pub proof fn lemma_product_bound(x: int, y: int, bound: int)
    requires
        -bound <= x <= bound,
        -bound <= y <= bound,
    ensures
        -(bound * bound) <= x * y <= bound * bound,
{
    if x >= 0 && y >= 0 {
        assert(x * y <= bound * bound && x * y >= 0) by (nonlinear_arith)
            requires
                0 <= x <= bound,
                0 <= y <= bound,
        ;
    } else if x >= 0 && y < 0 {
        assert(x * y >= -(bound * bound) && x * y <= 0) by (nonlinear_arith)
            requires
                0 <= x <= bound,
                -bound <= y < 0,
        ;
    } else if x < 0 && y >= 0 {
        assert(x * y >= -(bound * bound) && x * y <= 0) by (nonlinear_arith)
            requires
                -bound <= x < 0,
                0 <= y <= bound,
        ;
    } else {
        assert(x * y <= bound * bound && x * y >= 0) by (nonlinear_arith)
            requires
                -bound <= x < 0,
                -bound <= y < 0,
        ;
    }
}

/// The exact product of two integers of magnitude at most `2^63`.
pub fn wide_product(x: i128, y: i128) -> (p: i128)
    requires
        -FACTOR_BOUND <= x <= FACTOR_BOUND,
        -FACTOR_BOUND <= y <= FACTOR_BOUND,
    ensures
        p == x * y,
        -0x4000_0000_0000_0000_0000_0000_0000_0000 <= p <= 0x4000_0000_0000_0000_0000_0000_0000_0000,
{
    proof {
        lemma_product_bound(x as int, y as int, FACTOR_BOUND as int);
        assert(0x8000_0000_0000_0000int * 0x8000_0000_0000_0000int == 0x4000_0000_0000_0000_0000_0000_0000_0000int) by (nonlinear_arith);
    }
    x * y
}

/// The bound `2^63 - 1` on the magnitude of the factors of
/// [`numerator_product`].
pub const NUMERATOR_BOUND: i64 = 0x7fff_ffff_ffff_ffff;

/// The square of [`NUMERATOR_BOUND`].
pub const PRODUCT_BOUND: i128 = 0x3fff_ffff_ffff_ffff_0000_0000_0000_0001;

/// The exact product of two 64-bit integers other than the least one.
pub fn numerator_product(x: i64, y: i64) -> (p: i128)
    requires
        -NUMERATOR_BOUND <= x <= NUMERATOR_BOUND,
        -NUMERATOR_BOUND <= y <= NUMERATOR_BOUND,
    ensures
        p == x * y,
        -PRODUCT_BOUND <= p <= PRODUCT_BOUND,
{
    proof {
        lemma_product_bound(x as int, y as int, NUMERATOR_BOUND as int);
        assert(0x7fff_ffff_ffff_ffffint * 0x7fff_ffff_ffff_ffffint
            == 0x3fff_ffff_ffff_ffff_0000_0000_0000_0001int) by (nonlinear_arith);
    }
    (x as i128) * (y as i128)
}

/// The quotient of an exact division of a 128-bit integer by a positive
/// divisor.
pub fn exact_quotient(x: i128, g: u128) -> (q: i128)
    requires
        x > i128::MIN,
        divides(g as int, x as int),
    ensures
        q == (x as int) / (g as int),
        magnitude(q as int) == (magnitude(x as int) as int) / (g as int),
        magnitude(q as int) <= magnitude(x as int),
{
    let m = magnitude_i128(x);
    let qm = m / g;
    proof {
        lemma_signed_quotient(x as int, g as int);
        lemma_divides_exact(g as int, m as int);
        assert(qm <= m) by (nonlinear_arith)
            requires
                m as int == (g as int) * (qm as int),
                g > 0,
                qm >= 0,
        ;
    }
    if x < 0 {
        -(qm as i128)
    } else {
        qm as i128
    }
}

/// A common non-zero factor cancels from an equation.
pub proof fn lemma_cancel(g: int, a: int, b: int)
    requires
        g != 0,
        g * a == g * b,
    ensures
        a == b,
{
    assert(g * (a - b) == 0) by (nonlinear_arith)
        requires
            g * a == g * b,
    ;
    assert(a - b == 0) by (nonlinear_arith)
        requires
            g * (a - b) == 0,
            g != 0,
    ;
}

/// One more term of a weighted sum: from `gamma * su == alpha * sv + beta * sw`
/// and `gamma * u == alpha * v + beta * w` follows the same of the sums
/// extended by `u * x`, `v * x` and `w * x`.
pub proof fn lemma_combination_step(
    gamma: int,
    alpha: int,
    beta: int,
    su: int,
    sv: int,
    sw: int,
    u: int,
    v: int,
    w: int,
    x: int,
)
    requires
        gamma * su == alpha * sv + beta * sw,
        gamma * u == alpha * v + beta * w,
    ensures
        gamma * (su + u * x) == alpha * (sv + v * x) + beta * (sw + w * x),
{
    assert(gamma * (su + u * x) == gamma * su + gamma * (u * x)) by (nonlinear_arith);
    assert(gamma * (u * x) == (gamma * u) * x) by (nonlinear_arith);
    assert((alpha * v + beta * w) * x == alpha * (v * x) + beta * (w * x)) by (nonlinear_arith);
    assert(alpha * (sv + v * x) == alpha * sv + alpha * (v * x)) by (nonlinear_arith);
    assert(beta * (sw + w * x) == beta * sw + beta * (w * x)) by (nonlinear_arith);
}

/// A combination of two products by `q` is the product of the combination by
/// `q`.
pub proof fn lemma_combination_scaled(alpha: int, beta: int, a: int, b: int, q: int)
    ensures
        alpha * (a * q) + beta * (b * q) == (alpha * a + beta * b) * q,
{
    assert(alpha * (a * q) == (alpha * a) * q) by (nonlinear_arith);
    assert(beta * (b * q) == (beta * b) * q) by (nonlinear_arith);
    assert((alpha * a) * q + (beta * b) * q == (alpha * a + beta * b) * q) by (nonlinear_arith);
}

/// Ordering fractions with positive denominators is transitive: from
/// `x1/y1 < x2/y2` and `x2/y2 <= x3/y3` follows `x1/y1 < x3/y3`, each
/// comparison written as a comparison of cross products.
pub proof fn lemma_fraction_order(x1: int, y1: int, x2: int, y2: int, x3: int, y3: int)
    requires
        y1 > 0,
        y2 > 0,
        y3 > 0,
        x1 * y2 < x2 * y1,
        x2 * y3 <= x3 * y2,
    ensures
        x1 * y3 < x3 * y1,
{
    assert((x1 * y2) * y3 < (x2 * y1) * y3) by (nonlinear_arith)
        requires
            x1 * y2 < x2 * y1,
            y3 > 0,
    ;
    assert((x2 * y3) * y1 <= (x3 * y2) * y1) by (nonlinear_arith)
        requires
            x2 * y3 <= x3 * y2,
            y1 > 0,
    ;
    assert((x1 * y2) * y3 == (x1 * y3) * y2) by (nonlinear_arith);
    assert((x2 * y1) * y3 == (x2 * y3) * y1) by (nonlinear_arith);
    assert((x3 * y2) * y1 == (x3 * y1) * y2) by (nonlinear_arith);
    assert(x1 * y3 < x3 * y1) by (nonlinear_arith)
        requires
            (x1 * y3) * y2 < (x3 * y1) * y2,
            y2 > 0,
    ;
}

/// The greatest common divisor of two 128-bit numbers.
pub fn gcd_u128(a: u128, b: u128) -> (g: u128)
    ensures
        g == gcd(a as nat, b as nat),
{
    let mut x: u128 = a;
    let mut y: u128 = b;
    while y != 0
        invariant
            gcd(x as nat, y as nat) == gcd(a as nat, b as nat),
        decreases y,
    {
        let r: u128 = x % y;
        x = y;
        y = r;
    }
    x
}

/// The magnitude of a 128-bit integer other than the least one.
pub fn magnitude_i128(x: i128) -> (m: u128)
    requires
        x > i128::MIN,
    ensures
        m == magnitude(x as int),
{
    if x < 0 {
        (-x) as u128
    } else {
        x as u128
    }
}

} // verus!
