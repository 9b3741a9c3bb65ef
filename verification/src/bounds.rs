//! Bounds by powers of two, and what arithmetic makes of them.

use crate::single;
use crate::single::Single;
use vstd::arithmetic::power2::{
    lemma2_to64, lemma_pow2_adds, lemma_pow2_pos, lemma_pow2_strictly_increases, pow2,
};
use vstd::prelude::*;

verus! {

/// The magnitude of two to the `k`th.
pub open spec fn power(k: int) -> int {
    (k + 127) * 0x80_0000
}

/// Whether a number lies between two to the `low`th and two to the `high`th.
pub open spec fn between(x: Single, low: int, high: int) -> bool {
    !x.negative() && power(low) <= x.magnitude() <= power(high)
}

/// Two to the `k`th counts two to the `k + 149`th units.
pub proof fn powers_are_exact(k: int)
    requires
        -126 <= k <= 127,
    ensures
        0 < power(k) < single::INFINITE,
        single::span(power(k)) == pow2((k + 149) as nat),
{
    lemma2_to64();
    single::lemma_span(k + 126, 0x80_0000);
    lemma_pow2_adds(23, (k + 126) as nat);
}

proof fn lemma_spans(x: Single, low: int, high: int)
    requires
        between(x, low, high),
        -126 <= low,
        high <= 127,
    ensures
        low <= high,
        x.magnitude() < single::INFINITE,
        0 < pow2((low + 149) as nat) <= single::span(x.magnitude()) <= pow2((high + 149) as nat),
{
    powers_are_exact(low);
    powers_are_exact(high);
    lemma_pow2_pos((low + 149) as nat);
    if power(low) < x.magnitude() {
        single::span_increasing(power(low), x.magnitude());
    }
    if x.magnitude() < power(high) {
        single::span_increasing(x.magnitude(), power(high));
    }
}

/// Exponents of a product add up.
pub proof fn products_are_bounded(x: Single, y: Single, a: int, b: int, c: int, d: int)
    requires
        between(x, a, b),
        between(y, c, d),
        -126 <= a,
        b <= 127,
        -126 <= c,
        d <= 127,
        -126 <= a + c,
        b + d <= 127,
    ensures
        between(x.product(y), a + c, b + d),
{
    lemma_spans(x, a, b);
    lemma_spans(y, c, d);
    let (sx, sy) = (single::span(x.magnitude()), single::span(y.magnitude()));
    let u = pow2(149) as int;
    let num = sx * sy;
    lemma_pow2_pos(149);
    powers_are_exact(a + c);
    powers_are_exact(b + d);
    lemma_pow2_adds((a + 149) as nat, (c + 149) as nat);
    lemma_pow2_adds((a + c + 149) as nat, 149);
    lemma_pow2_adds((b + 149) as nat, (d + 149) as nat);
    lemma_pow2_adds((b + d + 149) as nat, 149);
    let (pa, pb, pc, pd) = (
        pow2((a + 149) as nat) as int,
        pow2((b + 149) as nat) as int,
        pow2((c + 149) as nat) as int,
        pow2((d + 149) as nat) as int,
    );
    assert(pa * pc <= num <= pb * pd) by (nonlinear_arith)
        requires
            num == sx * sy,
            0 < pa <= sx <= pb,
            0 < pc <= sy <= pd,
    ;
    assert(pa * pc >= 0) by (nonlinear_arith)
        requires
            0 < pa,
            0 < pc,
    ;
    assert(x.magnitude() > 0 && y.magnitude() > 0);
    single::rounding_respects_order(num, u, power(a + c));
    single::rounding_respects_order(num, u, power(b + d));
    assert(x.product(y) == single::signed(false, single::rounded(num, u)));
}

/// Exponents of a quotient are those of the dividend less those of the divisor.
pub proof fn quotients_are_bounded(x: Single, y: Single, a: int, b: int, c: int, d: int)
    requires
        between(x, a, b),
        between(y, c, d),
        -126 <= a,
        b <= 127,
        -126 <= c,
        d <= 127,
        -126 <= a - d,
        b - c <= 127,
    ensures
        between(x.quotient(y), a - d, b - c),
{
    lemma_spans(x, a, b);
    lemma_spans(y, c, d);
    let (sx, sy) = (single::span(x.magnitude()), single::span(y.magnitude()));
    let u = pow2(149) as int;
    let num = sx * u;
    lemma_pow2_pos(149);
    powers_are_exact(a - d);
    powers_are_exact(b - c);
    lemma_pow2_adds((a - d + 149) as nat, (d + 149) as nat);
    lemma_pow2_adds((a + 149) as nat, 149);
    lemma_pow2_adds((b - c + 149) as nat, (c + 149) as nat);
    lemma_pow2_adds((b + 149) as nat, 149);
    let (pa, pb, pc, pd) = (
        pow2((a + 149) as nat) as int,
        pow2((b + 149) as nat) as int,
        pow2((c + 149) as nat) as int,
        pow2((d + 149) as nat) as int,
    );
    let (low, high) = (pow2((a - d + 149) as nat) as int, pow2((b - c + 149) as nat) as int);
    lemma_pow2_pos((a - d + 149) as nat);
    lemma_pow2_pos((b - c + 149) as nat);
    assert(low * sy <= low * pd && high * pc <= high * sy) by (nonlinear_arith)
        requires
            0 < low,
            0 < high,
            pc <= sy <= pd,
    ;
    assert(pa * u <= num <= pb * u) by (nonlinear_arith)
        requires
            num == sx * u,
            pa <= sx <= pb,
            u > 0,
    ;
    assert(pa * u >= 0) by (nonlinear_arith)
        requires
            pa > 0,
            u > 0,
    ;
    single::rounding_respects_order(num, sy, power(a - d));
    single::rounding_respects_order(num, sy, power(b - c));
    assert(x.quotient(y) == single::signed(false, single::rounded(num, sy)));
}

/// The root of what lies between even powers lies between half of them.
pub proof fn roots_are_bounded(x: Single, a: int, b: int)
    requires
        between(x, 2 * a, 2 * b),
        -63 <= a,
        b <= 63,
    ensures
        between(x.square_root(), a, b),
{
    lemma_spans(x, 2 * a, 2 * b);
    let s = single::span(x.magnitude());
    let u = pow2(149) as int;
    let n = s * u;
    lemma_pow2_pos(149);
    powers_are_exact(a);
    powers_are_exact(b);
    lemma_pow2_adds((a + 149) as nat, (a + 149) as nat);
    lemma_pow2_adds((2 * a + 149) as nat, 149);
    lemma_pow2_adds((b + 149) as nat, (b + 149) as nat);
    lemma_pow2_adds((2 * b + 149) as nat, 149);
    let (pa, pb) = (pow2((2 * a + 149) as nat) as int, pow2((2 * b + 149) as nat) as int);
    assert(pa * u <= n <= pb * u && pa * u >= 0) by (nonlinear_arith)
        requires
            n == s * u,
            0 < pa <= s <= pb,
            u > 0,
    ;
    single::roots_respect_order(n, power(a));
    single::roots_respect_order(n, power(b));
    assert(x.square_root() == single::signed(false, single::rooted(n)));
}

/// The sum of two positive numbers is no less than either, and less than twice
/// the bound of both.
pub proof fn sums_are_bounded(x: Single, y: Single, a: int, b: int, c: int, d: int)
    requires
        between(x, a, b),
        between(y, c, d),
        -126 <= a,
        -126 <= c,
        b <= 126,
        d <= b,
    ensures
        between(x.sum(y), a, b + 1),
        between(x.sum(y), c, b + 1),
{
    lemma_spans(x, a, b);
    lemma_spans(y, c, d);
    let v = single::span(x.magnitude()) + single::span(y.magnitude());
    powers_are_exact(a);
    powers_are_exact(c);
    powers_are_exact(b + 1);
    lemma2_to64();
    lemma_pow2_adds(1, (b + 149) as nat);
    if d < b {
        lemma_pow2_strictly_increases((d + 149) as nat, (b + 149) as nat);
    }
    single::rounding_respects_order(v, 1, power(a));
    single::rounding_respects_order(v, 1, power(c));
    single::rounding_respects_order(v, 1, power(b + 1));
    assert(x.sum(y) == single::signed(false, single::rounded(v, 1)));
}

/// Dividing by at most one never makes a magnitude smaller, and dividing by at
/// least one never makes it larger. The sign stays.
pub proof fn divisions_scale(x: Single, t: Single)
    requires
        !x.nan() && !x.infinite(),
        !t.nan() && !t.infinite() && !t.negative(),
        t.magnitude() > 0,
    ensures
        !x.quotient(t).nan(),
        x.quotient(t).negative() == x.negative(),
        t.magnitude() <= power(0) ==> x.magnitude() <= x.quotient(t).magnitude(),
        t.magnitude() >= power(0) ==> x.quotient(t).magnitude() <= x.magnitude(),
{
    powers_are_exact(0);
    let (sx, st) = (single::span(x.magnitude()), single::span(t.magnitude()));
    let u = pow2(149) as int;
    lemma_pow2_pos(149);
    single::lemma_span(0, 0);
    single::span_increasing(0, t.magnitude());
    if x.magnitude() > 0 {
        single::span_increasing(0, x.magnitude());
        if t.magnitude() < power(0) {
            single::span_increasing(t.magnitude(), power(0));
        }
        if power(0) < t.magnitude() {
            single::span_increasing(power(0), t.magnitude());
        }
        let num = sx * u;
        assert(num >= 0 && (st <= u ==> sx * st <= num) && (st >= u ==> num <= sx * st))
            by (nonlinear_arith)
            requires
                num == sx * u,
                sx >= 0,
                u > 0,
        ;
        single::rounding_respects_order(num, st, x.magnitude());
        single::rounded_is_nearest(num, st);
        assert(x.quotient(t) == single::signed(x.negative(), single::rounded(num, st)));
    }
}

/// Adding zero changes nothing.
pub proof fn zero_adds_nothing(x: Single, z: Single)
    requires
        !x.nan() && !x.infinite(),
        x.magnitude() > 0,
        z.magnitude() == 0,
    ensures
        z.sum(x) == x,
        x.sum(z) == x,
{
    single::lemma_span(0, 0);
    single::span_increasing(0, x.magnitude());
    single::rounding_respects_order(single::span(x.magnitude()), 1, x.magnitude());
    assert(single::rounded(single::span(x.magnitude()), 1) == x.magnitude());
    assert(x == single::signed(x.negative(), x.magnitude()));
}

/// A product or a quotient takes the sign of its first number along.
pub proof fn signs_are_taken_along(x: Single, y: Single)
    requires
        !x.nan() && !x.infinite(),
        !y.nan() && !y.infinite(),
        x.magnitude() > 0,
        y.magnitude() > 0,
    ensures
        x.negated().product(y) == x.product(y).negated(),
        y.product(x.negated()) == y.product(x).negated(),
        x.negated().quotient(y) == x.quotient(y).negated(),
        x.negated().magnitude() == x.magnitude(),
        x.negated().negative() != x.negative(),
        x.negated().negated() == x,
{
    let (sx, sy) = (single::span(x.magnitude()), single::span(y.magnitude()));
    let u = pow2(149) as int;
    lemma_pow2_pos(149);
    single::lemma_span(0, 0);
    single::span_increasing(0, x.magnitude());
    single::span_increasing(0, y.magnitude());
    assert(sx * sy >= 0 && sx * u >= 0 && sy * sx == sx * sy) by (nonlinear_arith)
        requires
            sx > 0,
            sy > 0,
            u > 0,
    ;
    single::rounded_is_nearest(sx * sy, u);
    single::rounded_is_nearest(sx * u, sy);
}

/// Multiplying by one changes nothing.
pub proof fn one_changes_nothing(x: Single)
    requires
        !x.nan() && !x.infinite(),
    ensures
        x.product(Single { bits: 0x3f80_0000 }) == x,
{
    let one = Single { bits: 0x3f80_0000 };
    lemma_pow2_pos(149);
    powers_are_exact(0);
    single::lemma_span(0, 0);
    if x.magnitude() > 0 {
        single::span_increasing(0, x.magnitude());
        let (u, s) = (pow2(149) as int, single::span(x.magnitude()));
        assert(s * u >= 0) by (nonlinear_arith)
            requires
                u > 0,
                s > 0,
        ;
        single::rounding_respects_order(s * u, u, x.magnitude());
    }
    assert(x == single::signed(x.negative(), x.magnitude()));
}

/// One and one make two.
pub proof fn one_and_one()
    ensures
        (Single { bits: 0x3f80_0000 }).sum(Single { bits: 0x3f80_0000 }).bits == 0x4000_0000,
{
    powers_are_exact(0);
    powers_are_exact(1);
    lemma2_to64();
    lemma_pow2_adds(1, 149);
    lemma_pow2_pos(149);
    single::rounding_respects_order((2 * pow2(149)) as int, 1, power(1));
}

/// Half of a number, doubled, is the number.
pub proof fn halves_double_back(x: Single)
    requires
        !x.nan(),
        power(-120) <= x.magnitude() <= power(120),
    ensures
        (Single { bits: 0x3f00_0000 }).product(x).product(
            (Single { bits: 0x3f80_0000 }).sum(Single { bits: 0x3f80_0000 }),
        ) == x,
{
    let half = Single { bits: 0x3f00_0000 };
    let two = Single { bits: 0x4000_0000 };
    one_and_one();
    powers_are_exact(-1);
    powers_are_exact(1);
    lemma2_to64();
    lemma_pow2_adds(1, 148);
    lemma_pow2_adds(1, 149);
    lemma_pow2_pos(148);
    lemma_pow2_pos(149);
    let m = x.magnitude();
    let e = m / 0x80_0000;
    let q = 0x80_0000 + m % 0x80_0000;
    single::lemma_span(e - 1, q);
    single::lemma_span(e - 2, q);
    lemma_pow2_adds(1, (e - 2) as nat);
    lemma_pow2_pos((e - 2) as nat);
    let s = single::span(m);
    let h = single::span(m - 0x80_0000);
    let u = pow2(149) as int;
    let p = pow2((e - 2) as nat) as int;
    assert(s == 2 * h) by (nonlinear_arith)
        requires
            s == q * (2 * p),
            h == q * p,
    ;
    assert(h > 0) by (nonlinear_arith)
        requires
            h == q * p,
            q > 0,
            p > 0,
    ;
    let v = pow2(148) as int;
    assert(v * s == h * u && s * u == h * (2 * u) && h * u >= 0 && s * u >= 0) by (nonlinear_arith)
        requires
            u == 2 * v,
            s == 2 * h,
            h > 0,
            v > 0,
    ;
    single::rounding_respects_order(v * s, u, m - 0x80_0000);
    let y = half.product(x);
    assert(y == single::signed(x.negative(), m - 0x80_0000));
    single::rounding_respects_order(h * (2 * u), u, m);
    assert(x == single::signed(x.negative(), m));
}

/// A magnitude is nearest to a fraction where the fraction lies within half a
/// step of it.
pub(crate) proof fn lemma_fraction(m: int, num: int, den: int)
    requires
        0x80_0000 < m < 0x4b00_0000,
        0 < m % 0x80_0000,
        den > 0,
        num > 0,
        (2 * (0x80_0000 + m % 0x80_0000) - 1) * den < num * pow2((151 - m / 0x80_0000) as nat) < (2
            * (0x80_0000 + m % 0x80_0000) + 1) * den,
    ensures
        single::nearest(m, num * pow2(149), den),
{
    let e = m / 0x80_0000;
    let s = 0x80_0000 + m % 0x80_0000;
    assert(m == e * 0x80_0000 + m % 0x80_0000);
    let u = pow2((e - 1) as nat) as int;
    let w = pow2((151 - e) as nat) as int;
    let one = pow2(149) as int;
    lemma_pow2_pos((e - 1) as nat);
    lemma_pow2_pos((151 - e) as nat);
    lemma_pow2_adds((e - 1) as nat, (151 - e) as nat);
    lemma_pow2_adds(1, 149);
    lemma2_to64();
    assert(w * u == 2 * one) by (nonlinear_arith)
        requires
            u * w == 2 * one,
    ;
    single::lemma_span(e - 1, s - 1);
    single::lemma_span(e - 1, s);
    single::lemma_span(e - 1, s + 1);
    assert(single::span(m - 1) == (s - 1) * u);
    assert(single::span(m) == s * u);
    assert(single::span(m + 1) == (s + 1) * u);
    let num2 = num * one;
    assert(((s - 1) * u + s * u) * den < 2 * num2 && 2 * num2 < (s * u + (s + 1) * u) * den)
        by (nonlinear_arith)
        requires
            (2 * s - 1) * den < num * w,
            num * w < (2 * s + 1) * den,
            w * u == 2 * one,
            num2 == num * one,
            u > 0,
    ;
}

} // verus!
