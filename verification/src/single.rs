//! Single-precision numbers carried by their bit pattern.
//!
//! A [`Single`] is an IEEE 754 binary32 datum. The library orders such
//! numbers and adds, subtracts and divides them; each result is the exact one
//! rounded to nearest, ties to even.

use vstd::arithmetic::power2::*;
use vstd::prelude::*;

verus! {

/// Magnitude of the infinities: above it lie the magnitudes of the NaNs.
pub const INFINITE: u32 = 0x7f80_0000;

/// Weight of the sign bit.
pub const SIGN: u32 = 0x8000_0000;

/// A single-precision number. `==` compares bit patterns.
#[derive(Debug, Clone, Copy, PartialEq, Eq, Structural)]
pub struct Single {
    pub bits: u32,
}

/// The number with magnitude `m` (the bit pattern without the sign), counted
/// in units of the smallest positive number, two to the minus 149th. Infinity
/// counts as two to the 128th.
pub open spec fn span(m: int) -> int {
    let e = m / 0x80_0000;
    let f = m % 0x80_0000;
    if e <= 0 {
        f
    } else {
        (0x80_0000 + f) * pow2((e - 1) as nat)
    }
}

/// Whether `m` is the magnitude nearest to the quotient `num / den` of units,
/// with ties going to the even bit pattern: the quotient lies between the
/// midpoints to the neighbouring magnitudes.
pub open spec fn nearest(m: int, num: int, den: int) -> bool {
    &&& 0 <= m <= INFINITE
    &&& m > 0 ==> (span(m - 1) + span(m)) * den <= 2 * num
    &&& m > 0 && m % 2 == 1 ==> (span(m - 1) + span(m)) * den < 2 * num
    &&& m < INFINITE ==> 2 * num <= (span(m) + span(m + 1)) * den
    &&& m < INFINITE && m % 2 == 1 ==> 2 * num < (span(m) + span(m + 1)) * den
}

/// The magnitude nearest to `num / den` units.
pub open spec fn rounded(num: int, den: int) -> int {
    choose|m: int| #[trigger] nearest(m, num, den)
}

/// The magnitude built from a significand and an exponent.
pub(crate) proof fn lemma_span(e: int, q: int)
    requires
        0 <= e,
        0 <= q <= 0x100_0000,
        q >= 0x80_0000 || e == 0,
    ensures
        span(e * 0x80_0000 + q) == q * pow2(e as nat),
{
    let m = e * 0x80_0000 + q;
    lemma2_to64();
    if q < 0x80_0000 {
        assert(m / 0x80_0000 == 0 && m % 0x80_0000 == q);
    } else if q < 0x100_0000 {
        assert(m / 0x80_0000 == e + 1 && m % 0x80_0000 == q - 0x80_0000);
    } else {
        assert(m / 0x80_0000 == e + 2 && m % 0x80_0000 == 0);
        lemma_pow2_unfold((e + 1) as nat);
        assert(0x80_0000 * (2 * pow2(e as nat)) == 0x100_0000 * pow2(e as nat));
    }
}

/// Consecutive magnitudes denote strictly increasing numbers.
pub(crate) proof fn lemma_span_step(m: int)
    requires
        0 <= m,
    ensures
        span(m) < span(m + 1),
{
    let e0 = m / 0x80_0000;
    let f = m % 0x80_0000;
    let e = if e0 == 0 { 0 } else { e0 - 1 };
    let q = if e0 == 0 { f } else { 0x80_0000 + f };
    lemma_span(e, q);
    lemma_span(e, q + 1);
    lemma_pow2_pos(e as nat);
    assert((q + 1) * pow2(e as nat) == q * pow2(e as nat) + pow2(e as nat)) by (nonlinear_arith);
}

/// A smaller magnitude denotes a smaller number.
pub proof fn span_increasing(a: int, b: int)
    requires
        0 <= a < b,
    ensures
        span(a) < span(b),
    decreases b - a,
{
    lemma_span_step(a);
    if a + 1 < b {
        span_increasing(a + 1, b);
    }
}

/// At most one magnitude is nearest to a quotient.
pub proof fn nearest_unique(m: int, n: int, num: int, den: int)
    requires
        den > 0,
        nearest(m, num, den),
        nearest(n, num, den),
    ensures
        m == n,
{
    if m < n {
        lemma_nearest_apart(m, n, num, den);
    } else if n < m {
        lemma_nearest_apart(n, m, num, den);
    }
}

proof fn lemma_nearest_apart(m: int, n: int, num: int, den: int)
    requires
        den > 0,
        m < n,
        nearest(m, num, den),
    ensures
        !nearest(n, num, den),
{
    let hi = span(m) + span(m + 1);
    let lo = span(n - 1) + span(n);
    if m + 1 < n {
        span_increasing(m, n - 1);
        span_increasing(m + 1, n);
        assert(hi * den < lo * den) by (nonlinear_arith)
            requires
                hi < lo,
                den > 0,
        ;
    } else {
        assert(m % 2 == 1 || n % 2 == 1);
    }
}

/// `num / den` units lie at `s` times two to the `x`, or (sticky) strictly
/// between that and the next multiple of two to the `x`.
pub open spec fn brackets(s: int, sticky: bool, x: int, num: int, den: int) -> bool {
    let c = pow2(if x < 0 { (-x) as nat } else { 0 }) as int;
    let d = pow2(if x < 0 { 0 } else { x as nat }) as int;
    if sticky {
        s * d * den < num * c < (s + 1) * d * den
    } else {
        num * c == s * d * den
    }
}

/// Whether `rest` is what is left of `s` above its lowest `w - 1` bits.
spec fn leads(s: int, rest: int, w: int) -> bool {
    pow2((w - 1) as nat) * rest <= s < pow2((w - 1) as nat) * (rest + 1)
}

proof fn lemma_leads_step(s: int, rest: int, w: int, k: int, big: int)
    requires
        leads(s, rest, w),
        w >= 1,
        k >= 0,
        big == pow2(k as nat),
        rest >= 0,
    ensures
        leads(s, rest / big, w + k),
{
    let p = pow2((w - 1) as nat) as int;
    let next = rest / big;
    lemma_pow2_pos(k as nat);
    lemma_pow2_pos((w - 1) as nat);
    lemma_pow2_adds((w - 1) as nat, k as nat);
    vstd::arithmetic::div_mod::lemma_fundamental_div_mod(rest, big);
    let r = rest % big;
    assert(p * big * next <= s) by (nonlinear_arith)
        requires
            p * rest <= s,
            rest == big * next + r,
            r >= 0,
            p > 0,
    ;
    assert(s < p * big * (next + 1)) by (nonlinear_arith)
        requires
            s < p * (rest + 1),
            rest == big * next + r,
            r < big,
            p > 0,
    ;
}

/// Number of bits needed to write `s`.
fn width(s: u128) -> (w: u32)
    requires
        s > 0,
    ensures
        1 <= w <= 128,
        pow2((w - 1) as nat) <= s,
        s < pow2(w as nat),
{
    let mut w: u32 = 1;
    let mut rest: u128 = s;
    proof {
        lemma2_to64();
        assert(pow2(0) * s == s && pow2(0) * (s + 1) == s + 1);
        assert(leads(s as int, rest as int, w as int));
        lemma_leads_step(s as int, rest as int, w as int, 64, 0x1_0000_0000_0000_0000);
    }
    if rest >= 0x1_0000_0000_0000_0000 {
        rest = rest / 0x1_0000_0000_0000_0000;
        w = w + 64;
    }
    proof {
        lemma_leads_step(s as int, rest as int, w as int, 32, 0x1_0000_0000);
    }
    if rest >= 0x1_0000_0000 {
        rest = rest / 0x1_0000_0000;
        w = w + 32;
    }
    proof {
        lemma_leads_step(s as int, rest as int, w as int, 16, 0x1_0000);
    }
    if rest >= 0x1_0000 {
        rest = rest / 0x1_0000;
        w = w + 16;
    }
    proof {
        lemma_leads_step(s as int, rest as int, w as int, 8, 0x100);
    }
    if rest >= 0x100 {
        rest = rest / 0x100;
        w = w + 8;
    }
    proof {
        lemma_leads_step(s as int, rest as int, w as int, 4, 0x10);
    }
    if rest >= 0x10 {
        rest = rest / 0x10;
        w = w + 4;
    }
    proof {
        lemma_leads_step(s as int, rest as int, w as int, 2, 4);
    }
    if rest >= 4 {
        rest = rest / 4;
        w = w + 2;
    }
    proof {
        lemma_leads_step(s as int, rest as int, w as int, 1, 2);
    }
    if rest >= 2 {
        rest = rest / 2;
        w = w + 1;
    }
    proof {
        assert(rest == 1);
        lemma_pow2_unfold(w as nat);
        let p = pow2((w - 1) as nat) as int;
        assert(p * 1 == p && p * (1 + 1) == 2 * p) by (nonlinear_arith);
    }
    w
}

/// Two to the `t`.
pub(crate) fn power(t: u32) -> (p: u128)
    requires
        t < 127,
    ensures
        p == pow2(t as nat),
{
    proof {
        lemma2_to64();
        lemma2_to64_rest();
    }
    if t < 64 {
        proof {
            if t < 63 {
                lemma_pow2_strictly_increases(t as nat, 63);
            }
            vstd::bits::lemma_u64_shl_is_mul(1, t as u64);
        }
        (1u64 << (t as u64)) as u128
    } else {
        let high: u64 = t as u64 - 64;
        proof {
            if high < 63 {
                lemma_pow2_strictly_increases(high as nat, 63);
            }
            vstd::bits::lemma_u64_shl_is_mul(1, high);
            lemma_pow2_adds(high as nat, 64);
        }
        (1u64 << high) as u128 * 0x1_0000_0000_0000_0000
    }
}

/// The heart of rounding: the kept significand `q` and its remainder decide
/// between the two magnitudes that enclose the exact value.
proof fn lemma_round(
    s: int,
    sticky: bool,
    x: int,
    t: int,
    q: int,
    rem: int,
    num: int,
    den: int,
    up: bool,
)
    requires
        den > 0,
        num >= 0,
        brackets(s, sticky, x, num, den),
        t >= 1,
        x + t >= 0,
        s == q * pow2(t as nat) + rem,
        0 <= rem < pow2(t as nat),
        0 <= q < 0x100_0000,
        q >= 0x80_0000 || x + t == 0,
        up == (rem > pow2((t - 1) as nat) || (rem == pow2((t - 1) as nat) && (sticky || q % 2
            == 1))),
    ensures
        ({
            let m = (x + t) * 0x80_0000 + q + if up { 1int } else { 0 };
            nearest(if m >= INFINITE { INFINITE as int } else { m }, num, den)
        }),
{
    let e = x + t;
    let r0 = e * 0x80_0000 + q;
    let c = pow2(if x < 0 { (-x) as nat } else { 0 }) as int;
    let d = pow2(if x < 0 { 0 } else { x as nat }) as int;
    let pe = pow2(e as nat) as int;
    let pt = pow2(t as nat) as int;
    let half = pow2((t - 1) as nat) as int;
    lemma2_to64();
    lemma_pow2_pos(e as nat);
    lemma_pow2_pos(t as nat);
    lemma_pow2_pos(if x < 0 { (-x) as nat } else { 0 });
    lemma_pow2_pos(if x < 0 { 0 } else { x as nat });
    lemma_pow2_unfold(t as nat);
    assert(pe * c == pt * d) by {
        if x < 0 {
            lemma_pow2_adds(e as nat, (-x) as nat);
            assert(e + (-x) == t);
            assert(pt * d == pt) by (nonlinear_arith)
                requires
                    d == 1,
            ;
        } else {
            lemma_pow2_adds(x as nat, t as nat);
            assert(pt * d == d * pt) by (nonlinear_arith);
            assert(pe * c == pe) by (nonlinear_arith)
                requires
                    c == 1,
            ;
        }
    }
    lemma_span(e, q);
    lemma_span(e, q + 1);
    lemma_span_step(r0);
    assert(r0 % 2 == q % 2);
    let k = d * den;
    assert(k > 0) by (nonlinear_arith)
        requires
            k == d * den,
            d > 0,
            den > 0,
    ;
    let n = num * c;
    assert(s * d * den == s * k) by (nonlinear_arith)
        requires
            k == d * den,
    ;
    assert((s + 1) * d * den == (s + 1) * k) by (nonlinear_arith)
        requires
            k == d * den,
    ;
    // `span(r0) * den` and `span(r0 + 1) * den`, scaled by `c`.
    assert(span(r0) * den * c == q * pt * k) by (nonlinear_arith)
        requires
            span(r0) == q * pe,
            pe * c == pt * d,
            k == d * den,
    ;
    assert(span(r0 + 1) * den * c == (q + 1) * pt * k) by (nonlinear_arith)
        requires
            span(r0 + 1) == (q + 1) * pe,
            pe * c == pt * d,
            k == d * den,
    ;
    assert(q * pt * k + rem * k == s * k) by (nonlinear_arith)
        requires
            s == q * pt + rem,
    ;
    assert((q + 1) * pt * k == q * pt * k + pt * k) by (nonlinear_arith);
    assert((s + 1) * k == s * k + k) by (nonlinear_arith);
    assert(rem * k >= 0) by (nonlinear_arith)
        requires
            rem >= 0,
            k > 0,
    ;
    assert(rem * k + k <= pt * k) by (nonlinear_arith)
        requires
            rem + 1 <= pt,
            k > 0,
    ;
    assert(span(r0) * den <= num) by (nonlinear_arith)
        requires
            span(r0) * den * c <= num * c,
            c > 0,
    ;
    assert(num < span(r0 + 1) * den) by (nonlinear_arith)
        requires
            num * c < span(r0 + 1) * den * c,
            c > 0,
    ;
    let mid = span(r0) + span(r0 + 1);
    assert(mid * den * c == 2 * (q * pt * k) + pt * k) by (nonlinear_arith)
        requires
            mid == span(r0) + span(r0 + 1),
            span(r0) * den * c == q * pt * k,
            span(r0 + 1) * den * c == q * pt * k + pt * k,
    ;
    assert(pt * k == 2 * (half * k)) by (nonlinear_arith)
        requires
            pt == 2 * half,
    ;
    if up {
        if rem > half {
            assert(rem * k >= half * k + k) by (nonlinear_arith)
                requires
                    rem >= half + 1,
                    k > 0,
            ;
            assert(mid * den < 2 * num) by (nonlinear_arith)
                requires
                    mid * den * c < 2 * (num * c),
                    c > 0,
            ;
        } else {
            assert(rem * k == half * k);
            if sticky {
                assert(mid * den < 2 * num) by (nonlinear_arith)
                    requires
                        mid * den * c < 2 * (num * c),
                        c > 0,
                ;
            } else {
                assert(mid * den == 2 * num) by (nonlinear_arith)
                    requires
                        mid * den * c == 2 * (num * c),
                        c > 0,
                ;
            }
        }
    } else {
        assert(rem * k <= half * k) by (nonlinear_arith)
            requires
                rem <= half,
                k > 0,
        ;
        if rem < half {
            assert(rem * k + k <= half * k) by (nonlinear_arith)
                requires
                    rem + 1 <= half,
                    k > 0,
            ;
            assert(2 * num < mid * den) by (nonlinear_arith)
                requires
                    2 * (num * c) < mid * den * c,
                    c > 0,
            ;
        } else {
            assert(!sticky);
            assert(mid * den == 2 * num) by (nonlinear_arith)
                requires
                    mid * den * c == 2 * (num * c),
                    c > 0,
            ;
        }
    }
    let m = if up { r0 + 1 } else { r0 };
    if m >= INFINITE {
        if r0 >= INFINITE {
            if r0 > INFINITE {
                span_increasing(INFINITE as int, r0);
            }
            lemma_span_step(INFINITE - 1);
            assert((span(INFINITE - 1) + span(INFINITE as int)) * den <= 2 * num)
                by (nonlinear_arith)
                requires
                    span(INFINITE - 1) <= span(r0),
                    span(INFINITE as int) <= span(r0),
                    span(r0) * den <= num,
                    den > 0,
            ;
        }
    } else if up {
        lemma_span_step(m);
        assert(2 * num < (span(m) + span(m + 1)) * den) by (nonlinear_arith)
            requires
                num < span(m) * den,
                span(m) < span(m + 1),
                den > 0,
        ;
    } else if m > 0 {
        lemma_span_step(m - 1);
        assert((span(m - 1) + span(m)) * den < 2 * num) by (nonlinear_arith)
            requires
                span(m) * den <= num,
                span(m - 1) < span(m),
                den > 0,
        ;
    }
}

/// Rounds a positive number given as `s` times two to the `x` units, with
/// `sticky` telling that the exact number lies a little above that.
pub(crate) fn round_bits(s: u128, sticky: bool, x: i32, num: Ghost<int>, den: Ghost<int>) -> (m: u32)
    requires
        0x100_0000 <= s,
        s < pow2(119),
        -2000 <= x <= 2000,
        den@ > 0,
        num@ >= 0,
        brackets(s as int, sticky, x as int, num@, den@),
    ensures
        nearest(m as int, num@, den@),
        m == rounded(num@, den@),
{
    let w = width(s);
    proof {
        lemma2_to64();
        if w < 25 {
            if w < 24 {
                lemma_pow2_strictly_increases(w as nat, 24);
            }
        }
        if w > 119 {
            if w > 120 {
                lemma_pow2_strictly_increases(119, (w - 1) as nat);
            }
        }
    }
    assert(25 <= w <= 119);
    let mut t: i32 = w as i32 - 24;
    if t < -x {
        t = -x;
    }
    let mut q: u128 = 0;
    let mut up: bool = false;
    if t < 120 {
        let p = power(t as u32);
        let half = power(t as u32 - 1);
        proof {
            lemma_pow2_pos(t as nat);
        }
        proof {
            vstd::bits::lemma_u128_shr_is_div(s, t as u128);
            vstd::arithmetic::div_mod::lemma_fundamental_div_mod(s as int, p as int);
            assert(s as int / p as int * p as int <= s as int) by (nonlinear_arith)
                requires
                    s as int == p as int * (s as int / p as int) + s as int % p as int,
                    s as int % p as int >= 0,
            ;
        }
        q = s >> (t as u128);
        let rem: u128 = s - q * p;
        proof {
            let full = s as int / p as int;
            assert(q as int == full);
            assert(p as int * full == full * p as int) by (nonlinear_arith);
            assert(rem as int == s as int % p as int);
        }
        up = rem > half || (rem == half && (sticky || q % 2 == 1));
        proof {
            vstd::arithmetic::div_mod::lemma_fundamental_div_mod(s as int, p as int);
            lemma_pow2_adds((w - 24) as nat, 24);
            let low = pow2((w - 24) as nat) as int;
            if t > w - 24 {
                lemma_pow2_strictly_increases((w - 24) as nat, t as nat);
            }
            let qi = q as int;
            let pi = p as int;
            let ri = rem as int;
            assert(qi * pi + ri == s as int) by (nonlinear_arith)
                requires
                    pi * qi + ri == s as int,
            ;
            assert(qi < 0x100_0000) by (nonlinear_arith)
                requires
                    qi * pi + ri == s as int,
                    ri >= 0,
                    (s as int) < low * 0x100_0000,
                    low <= pi,
                    low > 0,
            ;
            if t == w - 24 {
                lemma_pow2_adds((w - 24) as nat, 23);
                if qi < 0x80_0000 {
                    assert(qi * pi <= 0x7f_ffff * pi) by (nonlinear_arith)
                        requires
                            qi <= 0x7f_ffff,
                            pi > 0,
                    ;
                }
            }
            lemma_round(s as int, sticky, x as int, t as int, qi, ri, num@, den@, up);
        }
    } else {
        proof {
            lemma_pow2_strictly_increases(119, t as nat);
            if t > 120 {
                lemma_pow2_strictly_increases(119, (t - 1) as nat);
            }
            lemma_round(s as int, sticky, x as int, t as int, 0, s as int, num@, den@, false);
        }
    }
    let m: u64 = (x + t) as u64 * 0x80_0000 + q as u64 + if up { 1 } else { 0 };
    let res: u32 = if m >= INFINITE as u64 { INFINITE } else { m as u32 };
    proof {
        let chosen = rounded(num@, den@);
        assert(nearest(res as int, num@, den@));
        nearest_unique(res as int, chosen, num@, den@);
    }
    res
}

/// The bit pattern given to every result that is not a number.
pub const NOT_A_NUMBER: u32 = 0x7fc0_0000;

/// The number with a sign and a magnitude.
pub open spec fn signed(negative: bool, m: int) -> Single {
    Single { bits: (m + if negative { SIGN as int } else { 0 }) as u32 }
}

pub open spec fn abs(v: int) -> int {
    if v < 0 {
        -v
    } else {
        v
    }
}

impl Single {
    pub open spec fn negative(self) -> bool {
        self.bits >= SIGN
    }

    /// The bit pattern without the sign.
    pub open spec fn magnitude(self) -> int {
        if self.bits >= SIGN {
            self.bits - SIGN
        } else {
            self.bits as int
        }
    }

    pub open spec fn nan(self) -> bool {
        self.magnitude() > INFINITE
    }

    pub open spec fn infinite(self) -> bool {
        self.magnitude() == INFINITE
    }

    /// Position in the numeric order; both zeros share a position. Only
    /// meaningful for numbers.
    pub open spec fn order(self) -> int {
        if self.negative() {
            -self.magnitude()
        } else {
            self.magnitude()
        }
    }

    /// The number in units of two to the minus 149th, for finite numbers.
    pub open spec fn value(self) -> int {
        if self.negative() {
            -span(self.magnitude())
        } else {
            span(self.magnitude())
        }
    }

    /// `self < other`; false as soon as one of them is not a number.
    pub open spec fn below(self, other: Single) -> bool {
        !self.nan() && !other.nan() && self.order() < other.order()
    }

    /// `self <= other`; false as soon as one of them is not a number.
    pub open spec fn at_most(self, other: Single) -> bool {
        !self.nan() && !other.nan() && self.order() <= other.order()
    }

    /// The same magnitude with the other sign.
    pub open spec fn negated(self) -> Single {
        signed(!self.negative(), self.magnitude())
    }

    /// The larger of two numbers; an operand that is not a number gives way.
    pub open spec fn larger(self, other: Single) -> Single {
        if self.nan() || self.below(other) {
            other
        } else {
            self
        }
    }

    /// The sum, rounded.
    pub open spec fn sum(self, other: Single) -> Single {
        if self.nan() || other.nan() || (self.infinite() && other.infinite() && self.negative()
            != other.negative()) {
            Single { bits: NOT_A_NUMBER }
        } else if self.infinite() {
            self
        } else if other.infinite() {
            other
        } else {
            let v = self.value() + other.value();
            if v == 0 {
                signed(self.negative() && other.negative(), 0)
            } else {
                signed(v < 0, rounded(abs(v), 1))
            }
        }
    }

    /// The difference, rounded.
    pub open spec fn difference(self, other: Single) -> Single {
        self.sum(other.negated())
    }

    /// The quotient, rounded.
    pub open spec fn quotient(self, other: Single) -> Single {
        let neg = self.negative() != other.negative();
        if self.nan() || other.nan() || (self.infinite() && other.infinite()) || (
        self.magnitude() == 0 && other.magnitude() == 0) {
            Single { bits: NOT_A_NUMBER }
        } else if self.infinite() || other.magnitude() == 0 {
            signed(neg, INFINITE as int)
        } else if other.infinite() || self.magnitude() == 0 {
            signed(neg, 0)
        } else {
            signed(neg, rounded(span(self.magnitude()) * pow2(149), span(other.magnitude())))
        }
    }

    /// The product, rounded.
    pub open spec fn product(self, other: Single) -> Single {
        let neg = self.negative() != other.negative();
        if self.nan() || other.nan() || (self.infinite() && other.magnitude() == 0) || (
        self.magnitude() == 0 && other.infinite()) {
            Single { bits: NOT_A_NUMBER }
        } else if self.infinite() || other.infinite() {
            signed(neg, INFINITE as int)
        } else if self.magnitude() == 0 || other.magnitude() == 0 {
            signed(neg, 0)
        } else {
            signed(
                neg,
                rounded(span(self.magnitude()) * span(other.magnitude()), pow2(149) as int),
            )
        }
    }

    /// The square root, rounded.
    pub open spec fn square_root(self) -> Single {
        if self.nan() || (self.negative() && self.magnitude() > 0) {
            Single { bits: NOT_A_NUMBER }
        } else if self.magnitude() == 0 || self.infinite() {
            self
        } else {
            signed(false, rooted(span(self.magnitude()) * pow2(149)))
        }
    }

    /// The count `n`, rounded.
    pub open spec fn counted(n: int) -> Single {
        if n == 0 {
            signed(false, 0)
        } else {
            signed(false, rounded(n * pow2(149), 1))
        }
    }

    pub fn from_bits(bits: u32) -> (s: Single)
        ensures
            s.bits == bits,
    {
        Single { bits }
    }

    pub fn is_nan(self) -> (b: bool)
        ensures
            b == self.nan(),
    {
        self.mag() > INFINITE
    }

    /// Whether the number is neither infinite nor a NaN.
    pub fn is_finite(self) -> (b: bool)
        ensures
            b == (!self.nan() && !self.infinite()),
    {
        self.mag() < INFINITE
    }

    pub(crate) fn mag(self) -> (m: u32)
        ensures
            m == self.magnitude(),
    {
        if self.bits >= SIGN {
            self.bits - SIGN
        } else {
            self.bits
        }
    }

    /// Numeric `<`.
    pub fn less(self, other: Single) -> (b: bool)
        ensures
            b == self.below(other),
    {
        let a: i64 = if self.bits >= SIGN {
            -(self.mag() as i64)
        } else {
            self.mag() as i64
        };
        let c: i64 = if other.bits >= SIGN {
            -(other.mag() as i64)
        } else {
            other.mag() as i64
        };
        !self.is_nan() && !other.is_nan() && a < c
    }

    /// Numeric `<=`.
    pub fn less_or_equal(self, other: Single) -> (b: bool)
        ensures
            b == self.at_most(other),
    {
        !self.is_nan() && !other.is_nan() && !other.less(self)
    }

    /// The larger of two numbers; an operand that is not a number gives way.
    pub fn max(self, other: Single) -> (r: Single)
        ensures
            r == self.larger(other),
    {
        if self.is_nan() || self.less(other) {
            other
        } else {
            self
        }
    }

    /// The same magnitude with the other sign.
    pub fn neg(self) -> (r: Single)
        ensures
            r == self.negated(),
    {
        if self.bits >= SIGN {
            Single { bits: self.bits - SIGN }
        } else {
            Single { bits: self.bits + SIGN }
        }
    }

    /// Significand and exponent of a finite number.
    pub(crate) fn parts(self) -> (r: (u32, u32))
        requires
            self.magnitude() < INFINITE,
        ensures
            r.0 < 0x100_0000,
            r.1 <= 253,
            r.0 >= 0x80_0000 || r.1 == 0,
            self.magnitude() == r.1 as int * 0x80_0000 + r.0,
            span(self.magnitude()) == r.0 as int * pow2(r.1 as nat),
            (r.0 == 0) == (self.magnitude() == 0),
    {
        let m = self.mag();
        let e: u32 = m / 0x80_0000;
        let f: u32 = m % 0x80_0000;
        let r: (u32, u32) = if e == 0 {
            (f, 0)
        } else {
            (f + 0x80_0000, e - 1)
        };
        proof {
            lemma_span(r.1 as int, r.0 as int);
        }
        r
    }

    /// The sum of two finite numbers whose exponents are ordered.
    fn plus_ordered(self, other: Single) -> (r: Single)
        requires
            self.magnitude() < INFINITE,
            other.magnitude() < INFINITE,
            self.magnitude() / 0x80_0000 >= other.magnitude() / 0x80_0000,
        ensures
            r == self.sum(other),
    {
        let (qh, eh) = self.parts();
        let (ql, el) = other.parts();
        let hn = self.bits >= SIGN;
        let ln = other.bits >= SIGN;
        assert(eh >= el) by (nonlinear_arith)
            requires
                self.magnitude() / 0x80_0000 >= other.magnitude() / 0x80_0000,
                self.magnitude() == eh as int * 0x80_0000 + qh,
                other.magnitude() == el as int * 0x80_0000 + ql,
                qh < 0x100_0000,
                ql < 0x100_0000,
                qh >= 0x80_0000 || eh == 0,
                ql >= 0x80_0000 || el == 0,
        ;
        let gap: u32 = eh - el;
        let ghost v = self.value() + other.value();
        if gap > 40 {
            proof {
                lemma_far(self, other, qh as int, eh as int, ql as int, el as int);
            }
            return self;
        }
        let p = power(gap);
        let ghost pl = pow2(el as nat) as int;
        proof {
            lemma2_to64();
            if gap < 40 {
                lemma_pow2_strictly_increases(gap as nat, 40);
            }
            lemma2_to64_rest();
            lemma_pow2_adds(gap as nat, el as nat);
            lemma_pow2_pos(el as nat);
            assert(qh as int * p as int <= 0x100_0000 * pow2(40)) by (nonlinear_arith)
                requires
                    qh < 0x100_0000,
                    p as int <= pow2(40),
                    p >= 0,
            ;
        }
        let wide: i128 = qh as i128 * p as i128;
        let a: i128 = if hn {
            -wide
        } else {
            wide
        };
        let b: i128 = if ln {
            -(ql as i128)
        } else {
            ql as i128
        };
        let total: i128 = a + b;
        proof {
            let pg = p as int;
            assert(span(self.magnitude()) == wide as int * pl) by (nonlinear_arith)
                requires
                    span(self.magnitude()) == qh as int * pow2(eh as nat),
                    pow2(eh as nat) == pg * pl,
                    wide as int == qh as int * pg,
            ;
            assert((-wide) as int * pl == -(wide as int * pl)) by (nonlinear_arith);
            assert((-(ql as int)) * pl == -(ql as int * pl)) by (nonlinear_arith);
            assert(v == total as int * pl) by (nonlinear_arith)
                requires
                    v == self.value() + other.value(),
                    self.value() == a as int * pl,
                    other.value() == b as int * pl,
                    total as int == a as int + b as int,
            ;
            assert(total == 0 ==> v == 0) by (nonlinear_arith)
                requires
                    v == total as int * pl,
            ;
            assert(total > 0 ==> v > 0) by (nonlinear_arith)
                requires
                    v == total as int * pl,
                    pl > 0,
            ;
            assert(total < 0 ==> v < 0) by (nonlinear_arith)
                requires
                    v == total as int * pl,
                    pl > 0,
            ;
        }
        if total == 0 {
            return Single { bits: if hn && ln { SIGN } else { 0 } };
        }
        let mag: u128 = if total < 0 {
            (-total) as u128
        } else {
            total as u128
        };
        let s: u128 = mag * 0x100_0000;
        let x: i32 = el as i32 - 24;
        proof {
            lemma_pow2_adds(64, 55);
            assert(pow2(119) == 0x1_0000_0000_0000_0000 * 0x80_0000_0000_0000);
            assert(abs(v) == mag as int * pl) by (nonlinear_arith)
                requires
                    v == total as int * pl,
                    mag as int == abs(total as int),
                    abs(v) == if total < 0 { -v } else { v },
            ;
            lemma_brackets_scaled(mag as int, el as int);
        }
        let m = round_bits(s, false, x, Ghost(abs(v)), Ghost(1));
        if total < 0 {
            Single { bits: m + SIGN }
        } else {
            Single { bits: m }
        }
    }

    /// Addition, rounded to nearest.
    pub fn plus(self, other: Single) -> (r: Single)
        ensures
            r == self.sum(other),
    {
        let a = self.mag();
        let b = other.mag();
        if a > INFINITE || b > INFINITE || (a == INFINITE && b == INFINITE && (self.bits >= SIGN)
            != (other.bits >= SIGN)) {
            Single { bits: NOT_A_NUMBER }
        } else if a == INFINITE {
            self
        } else if b == INFINITE {
            other
        } else if a / 0x80_0000 >= b / 0x80_0000 {
            self.plus_ordered(other)
        } else {
            other.plus_ordered(self)
        }
    }

    /// Subtraction, rounded to nearest.
    pub fn minus(self, other: Single) -> (r: Single)
        ensures
            r == self.difference(other),
    {
        self.plus(other.neg())
    }

    /// Division, rounded to nearest.
    pub fn over(self, other: Single) -> (r: Single)
        ensures
            r == self.quotient(other),
    {
        let a = self.mag();
        let b = other.mag();
        let neg: bool = (self.bits >= SIGN) != (other.bits >= SIGN);
        let sign: u32 = if neg {
            SIGN
        } else {
            0
        };
        if a > INFINITE || b > INFINITE || (a == INFINITE && b == INFINITE) || (a == 0 && b
            == 0) {
            return Single { bits: NOT_A_NUMBER };
        }
        if a == INFINITE || b == 0 {
            return Single { bits: INFINITE + sign };
        }
        if b == INFINITE || a == 0 {
            return Single { bits: sign };
        }
        let (qa, ea) = self.parts();
        let (qb, eb) = other.parts();
        let p = power(80);
        proof {
            lemma2_to64();
            lemma2_to64_rest();
            lemma_pow2_adds(64, 16);
            lemma_pow2_adds(64, 55);
            assert(pow2(80) == 0x1_0000_0000_0000_0000 * 0x1_0000);
            assert(pow2(119) == 0x1_0000_0000_0000_0000 * 0x80_0000_0000_0000);
        }
        let top: u128 = qa as u128 * p;
        let s: u128 = top / qb as u128;
        let rem: u128 = top % qb as u128;
        let x: i32 = ea as i32 - eb as i32 + 69;
        let ghost num = span(self.magnitude()) * pow2(149);
        let ghost den = span(other.magnitude());
        proof {
            vstd::arithmetic::div_mod::lemma_fundamental_div_mod(top as int, qb as int);
            let si = s as int;
            let qi = qb as int;
            let ti = top as int;
            let ri = rem as int;
            assert(si * qi + ri == ti) by (nonlinear_arith)
                requires
                    qi * si + ri == ti,
            ;
            if si < 0x100_0000 {
                assert(si * qi <= 0x100_0000 * 0x100_0000) by (nonlinear_arith)
                    requires
                        0 <= si < 0x100_0000,
                        0 <= qi < 0x100_0000,
                ;
            }
            assert(si <= ti) by (nonlinear_arith)
                requires
                    si * qi + ri == ti,
                    qi >= 1,
                    ri >= 0,
                    si >= 0,
            ;
            lemma_brackets_quotient(qa as int, ea as int, qi, eb as int, si, ri);
        }
        let m = round_bits(s, rem != 0, x, Ghost(num), Ghost(den));
        Single { bits: m + sign }
    }

    /// Multiplication, rounded to nearest.
    pub fn times(self, other: Single) -> (r: Single)
        ensures
            r == self.product(other),
    {
        let a = self.mag();
        let b = other.mag();
        let neg: bool = (self.bits >= SIGN) != (other.bits >= SIGN);
        let sign: u32 = if neg {
            SIGN
        } else {
            0
        };
        if a > INFINITE || b > INFINITE || (a == INFINITE && b == 0) || (a == 0 && b == INFINITE) {
            return Single { bits: NOT_A_NUMBER };
        }
        if a == INFINITE || b == INFINITE {
            return Single { bits: INFINITE + sign };
        }
        if a == 0 || b == 0 {
            return Single { bits: sign };
        }
        let (qa, ea) = self.parts();
        let (qb, eb) = other.parts();
        assert(qa as int * qb as int <= 0x100_0000 * 0x100_0000) by (nonlinear_arith)
            requires
                0 <= qa < 0x100_0000,
                0 <= qb < 0x100_0000,
        ;
        let q: u64 = qa as u64 * qb as u64;
        proof {
            lemma2_to64();
            lemma2_to64_rest();
            lemma_pow2_strictly_increases(64, 119);
            lemma_pow2_adds(64, 24);
            lemma_pow2_strictly_increases(88, 119);
            lemma_pow2_pos(149);
            assert(q >= 1) by (nonlinear_arith)
                requires
                    q as int == qa as int * qb as int,
                    qa >= 1,
                    qb >= 1,
            ;
            lemma_brackets_product(qa as int, ea as int, qb as int, eb as int, q as int);
        }
        let s: u128 = q as u128 * 0x100_0000;
        let x: i32 = ea as i32 + eb as i32 - 173;
        let m = round_bits(
            s,
            false,
            x,
            Ghost(span(self.magnitude()) * span(other.magnitude())),
            Ghost(pow2(149) as int),
        );
        Single { bits: m + sign }
    }

    /// The count `n` as a number, rounded to nearest.
    pub fn from_count(n: u64) -> (r: Single)
        ensures
            r == Single::counted(n as int),
    {
        Single::from_wide_count(n as u128)
    }

    /// The number nearest to a count of up to two to the 64.
    pub(crate) fn from_wide_count(n: u128) -> (r: Single)
        requires
            n <= 0x1_0000_0000_0000_0000,
        ensures
            r == Single::counted(n as int),
    {
        if n == 0 {
            return Single { bits: 0 };
        }
        let s: u128 = n * 0x100_0000;
        proof {
            lemma2_to64();
            lemma2_to64_rest();
            lemma_pow2_adds(64, 55);
            assert(pow2(119) == 0x1_0000_0000_0000_0000 * 0x80_0000_0000_0000);
            lemma_pow2_pos(149);
            lemma_brackets_scaled(n as int, 149);
            assert(n as int * pow2(149) >= 0) by (nonlinear_arith);
        }
        let m = round_bits(s, false, 125, Ghost(n as int * pow2(149)), Ghost(1));
        Single { bits: m }
    }
}

/// A number far above the other absorbs it.
proof fn lemma_far(a: Single, b: Single, qh: int, eh: int, ql: int, el: int)
    requires
        a.magnitude() < INFINITE,
        b.magnitude() < INFINITE,
        0x80_0000 <= qh < 0x100_0000,
        0 <= ql < 0x100_0000,
        0 <= el,
        eh - el > 40,
        a.magnitude() == eh * 0x80_0000 + qh,
        span(a.magnitude()) == qh * pow2(eh as nat),
        span(b.magnitude()) == ql * pow2(el as nat),
    ensures
        a.sum(b) == a,
{
    let m = a.magnitude();
    let pe = pow2(eh as nat) as int;
    let pl = pow2(el as nat) as int;
    let quarter = pow2((eh - 2) as nat) as int;
    lemma2_to64();
    lemma2_to64_rest();
    lemma_pow2_pos(el as nat);
    lemma_pow2_unfold(eh as nat);
    lemma_pow2_unfold((eh - 1) as nat);
    lemma_pow2_adds(el as nat, 30);
    if eh - 2 > el + 30 {
        lemma_pow2_strictly_increases((el + 30) as nat, (eh - 2) as nat);
    }
    let small = ql * pl;
    assert(small < 0x100_0000 * pl) by (nonlinear_arith)
        requires
            small == ql * pl,
            ql < 0x100_0000,
            pl > 0,
    ;
    assert(small >= 0) by (nonlinear_arith)
        requires
            small == ql * pl,
            ql >= 0,
            pl > 0,
    ;
    assert(small < quarter) by (nonlinear_arith)
        requires
            small < 0x100_0000 * pl,
            quarter >= pl * 0x4000_0000,
            pl > 0,
    ;
    assert(pe == 4 * quarter);
    lemma_span(eh, qh);
    lemma_span(eh, qh + 1);
    assert((qh + 1) * pe == qh * pe + pe) by (nonlinear_arith);
    assert(span(m + 1) == span(m) + pe);
    assert(span(m) - span(m - 1) >= 2 * quarter) by {
        if qh > 0x80_0000 {
            lemma_span(eh, qh - 1);
            assert((qh - 1) * pe == qh * pe - pe) by (nonlinear_arith);
        } else {
            let ph = pow2((eh - 1) as nat) as int;
            assert(pe == 2 * ph);
            assert(m - 1 == (eh - 1) * 0x80_0000 + 0xff_ffff);
            lemma_span(eh - 1, 0xff_ffff);
            assert(0x80_0000 * (2 * ph) == 0x100_0000 * ph);
            assert(0x100_0000 * ph == 0xff_ffff * ph + ph);
        }
    }
    assert(span(m) >= 4 * quarter) by (nonlinear_arith)
        requires
            span(m) == qh * (4 * quarter),
            qh >= 1,
            quarter > 0,
    ;
    let v = a.value() + b.value();
    assert(nearest(m, abs(v), 1));
    nearest_unique(m, rounded(abs(v), 1), abs(v), 1);
}

/// A count of `2^el` units, written with 24 more fractional bits.
pub(crate) proof fn lemma_brackets_scaled(n: int, el: int)
    requires
        n >= 0,
        el >= 0,
    ensures
        brackets(n * 0x100_0000, false, el - 24, n * pow2(el as nat), 1),
{
    lemma2_to64();
    let x = el - 24;
    let pl = pow2(el as nat) as int;
    if x < 0 {
        let c = pow2((-x) as nat) as int;
        lemma_pow2_adds(el as nat, (-x) as nat);
        assert(n * pl * c == n * 0x100_0000) by (nonlinear_arith)
            requires
                pl * c == 0x100_0000,
        ;
        assert(pow2(0) == 1);
        assert(n * 0x100_0000 * 1 * 1 == n * 0x100_0000);
    } else {
        let d = pow2(x as nat) as int;
        lemma_pow2_adds(24, x as nat);
        assert(n * pl == n * 0x100_0000 * d) by (nonlinear_arith)
            requires
                pl == 0x100_0000 * d,
        ;
        assert(n * pl * 1 == n * pl);
        assert(n * 0x100_0000 * d * 1 == n * 0x100_0000 * d);
    }
}

/// A product of significands, with 24 more fractional bits, is the product of
/// the numbers.
proof fn lemma_brackets_product(qa: int, ea: int, qb: int, eb: int, q: int)
    requires
        qa >= 1,
        qb >= 1,
        ea >= 0,
        eb >= 0,
        q == qa * qb,
    ensures
        brackets(
            q * 0x100_0000,
            false,
            ea + eb - 173,
            (qa * pow2(ea as nat)) * (qb * pow2(eb as nat)),
            pow2(149) as int,
        ),
        (qa * pow2(ea as nat)) * (qb * pow2(eb as nat)) >= 0,
{
    let x = ea + eb - 173;
    let xn = if x < 0 { (-x) as nat } else { 0 };
    let xp = if x < 0 { 0 } else { x as nat };
    let c = pow2(xn) as int;
    let d = pow2(xp) as int;
    let pa = pow2(ea as nat) as int;
    let pb = pow2(eb as nat) as int;
    let p149 = pow2(149) as int;
    lemma2_to64();
    lemma_pow2_pos(ea as nat);
    lemma_pow2_pos(eb as nat);
    lemma_pow2_adds(ea as nat, eb as nat);
    lemma_pow2_adds((ea + eb) as nat, xn);
    lemma_pow2_adds(24, xp);
    lemma_pow2_adds((24 + xp) as nat, 149);
    assert(pa * pb * c == 0x100_0000 * d * p149);
    let num = (qa * pa) * (qb * pb);
    assert(num == q * (pa * pb)) by (nonlinear_arith)
        requires
            num == (qa * pa) * (qb * pb),
            q == qa * qb,
    ;
    assert(num * c == q * (pa * pb * c)) by (nonlinear_arith)
        requires
            num == q * (pa * pb),
    ;
    assert((q * 0x100_0000) * d * p149 == q * (0x100_0000 * d * p149)) by (nonlinear_arith);
    assert(num >= 0) by (nonlinear_arith)
        requires
            num == q * (pa * pb),
            q == qa * qb,
            qa >= 1,
            qb >= 1,
            pa > 0,
            pb > 0,
    ;
}

/// A quotient of significands brackets the quotient of the numbers.
proof fn lemma_brackets_quotient(qa: int, ea: int, qb: int, eb: int, s: int, rem: int)
    requires
        qa >= 1,
        qb >= 1,
        ea >= 0,
        eb >= 0,
        s >= 0,
        0 <= rem < qb,
        s * qb + rem == qa * pow2(80),
    ensures
        brackets(
            s,
            rem != 0,
            ea - eb + 69,
            qa * pow2(ea as nat) * pow2(149),
            qb * pow2(eb as nat),
        ),
        qb * pow2(eb as nat) > 0,
        qa * pow2(ea as nat) * pow2(149) >= 0,
{
    let x = ea - eb + 69;
    let xn = if x < 0 { (-x) as nat } else { 0 };
    let xp = if x < 0 { 0 } else { x as nat };
    let c = pow2(xn) as int;
    let d = pow2(xp) as int;
    let pa = pow2(ea as nat) as int;
    let pb = pow2(eb as nat) as int;
    let p149 = pow2(149) as int;
    let p80 = pow2(80) as int;
    lemma_pow2_pos(xn);
    lemma_pow2_pos(xp);
    lemma_pow2_pos(ea as nat);
    lemma_pow2_pos(eb as nat);
    lemma_pow2_pos(149);
    lemma_pow2_adds(ea as nat, 149);
    lemma_pow2_adds((ea + 149) as nat, xn);
    lemma_pow2_adds(80, xp);
    lemma_pow2_adds((80 + xp) as nat, eb as nat);
    assert(pa * p149 * c == p80 * d * pb);
    let num = qa * pa * p149;
    let den = qb * pb;
    let k = d * pb;
    assert(k > 0) by (nonlinear_arith)
        requires
            k == d * pb,
            d > 0,
            pb > 0,
    ;
    assert(num * c == qa * (pa * p149 * c)) by (nonlinear_arith)
        requires
            num == qa * pa * p149,
    ;
    assert(p80 * d * pb == p80 * k) by (nonlinear_arith)
        requires
            k == d * pb,
    ;
    assert(qa * (p80 * k) == (qa * p80) * k) by (nonlinear_arith);
    assert(s * d * den == s * qb * k) by (nonlinear_arith)
        requires
            den == qb * pb,
            k == d * pb,
    ;
    assert((s + 1) * d * den == (s * qb + qb) * k) by (nonlinear_arith)
        requires
            den == qb * pb,
            k == d * pb,
    ;
    assert((s * qb + rem) * k == s * qb * k + rem * k) by (nonlinear_arith);
    assert((s * qb + qb) * k == s * qb * k + qb * k) by (nonlinear_arith);
    assert(rem * k < qb * k) by (nonlinear_arith)
        requires
            rem < qb,
            k > 0,
    ;
    assert(rem > 0 ==> rem * k > 0) by (nonlinear_arith)
        requires
            k > 0,
    ;
    assert(rem == 0 ==> rem * k == 0) by (nonlinear_arith);
    assert(den > 0) by (nonlinear_arith)
        requires
            den == qb * pb,
            qb >= 1,
            pb > 0,
    ;
    assert(num >= 0) by (nonlinear_arith)
        requires
            num == qa * pa * p149,
            qa >= 1,
            pa > 0,
            p149 > 0,
    ;
}

/// Searching upwards from a magnitude that is not too large finds the nearest
/// one.
proof fn lemma_nearest_from(m: int, num: int, den: int) -> (n: int)
    requires
        den > 0,
        0 <= m <= INFINITE,
        m > 0 ==> (span(m - 1) + span(m)) * den <= 2 * num,
        m > 0 && m % 2 == 1 ==> (span(m - 1) + span(m)) * den < 2 * num,
    ensures
        nearest(n, num, den),
    decreases INFINITE - m,
{
    if nearest(m, num, den) {
        m
    } else {
        lemma_nearest_from(m + 1, num, den)
    }
}

/// Every quotient has exactly one nearest magnitude, and rounding gives it.
pub proof fn rounded_is_nearest(num: int, den: int)
    requires
        num >= 0,
        den > 0,
    ensures
        nearest(rounded(num, den), num, den),
        forall|m: int| #[trigger] nearest(m, num, den) ==> m == rounded(num, den),
{
    let n = lemma_nearest_from(0, num, den);
    assert forall|m: int| #[trigger] nearest(m, num, den) implies m == rounded(num, den) by {
        nearest_unique(m, rounded(num, den), num, den);
    }
}

/// Adding a number that is not negative never gives less.
pub proof fn sum_is_no_less(a: Single, b: Single)
    requires
        !a.nan() && !a.infinite() && !a.negative(),
        !b.nan() && !b.infinite() && !b.negative(),
    ensures
        a.at_most(a.sum(b)),
{
    let v = a.value() + b.value();
    let k = a.magnitude();
    if k > 0 {
        span_increasing(0, k);
    }
    if b.magnitude() > 0 {
        span_increasing(0, b.magnitude());
    }
    if v != 0 {
        rounded_is_nearest(v, 1);
        let m = rounded(v, 1);
        if m < k {
            span_increasing(m, k);
            if m + 1 < k {
                span_increasing(m + 1, k);
            }
        }
    }
}

/// Rounding keeps the order of quotients with the same divisor.
pub proof fn rounding_keeps_order(a: int, b: int, den: int)
    requires
        0 <= a <= b,
        den > 0,
    ensures
        0 <= rounded(a, den) <= rounded(b, den) <= INFINITE,
{
    let (m, n) = (rounded(a, den), rounded(b, den));
    rounded_is_nearest(a, den);
    rounded_is_nearest(b, den);
    if n < m {
        if n < m - 1 {
            span_increasing(n, m - 1);
            span_increasing(n + 1, m);
        }
        let (low, high) = (span(n) + span(n + 1), span(m - 1) + span(m));
        assert(low * den <= high * den) by (nonlinear_arith)
            requires
                low <= high,
                den > 0,
        ;
        assert(a == b);
    }
}

/// Subtracting the same number keeps the order, as far as the differences are
/// numbers.
pub proof fn differences_keep_order(a: Single, b: Single, c: Single)
    requires
        a.at_most(b),
        !a.difference(c).nan(),
        !b.difference(c).nan(),
    ensures
        a.difference(c).at_most(b.difference(c)),
{
    if !a.infinite() && !b.infinite() && !c.infinite() {
        values_keep_order(a, b);
        assert(c.negated().value() == -c.value());
        let (v, w) = (a.value() - c.value(), b.value() - c.value());
        if v >= 0 {
            rounding_keeps_order(v, w, 1);
        } else if w <= 0 {
            rounding_keeps_order(-w, -v, 1);
        } else {
            rounded_is_nearest(-v, 1);
            rounded_is_nearest(w, 1);
        }
    } else {
        rounded_is_nearest(abs(a.value() - c.value()), 1);
        rounded_is_nearest(abs(b.value() - c.value()), 1);
        assert(c.negated().value() == -c.value());
    }
}

/// Finite numbers are ordered as their values are.
pub proof fn values_keep_order(a: Single, b: Single)
    requires
        a.at_most(b),
        !a.infinite(),
        !b.infinite(),
    ensures
        a.value() <= b.value(),
{
    lemma_span(0, 0);
    let (x, y) = (a.magnitude(), b.magnitude());
    if x > 0 {
        span_increasing(0, x);
    }
    if y > 0 {
        span_increasing(0, y);
    }
    if x < y {
        span_increasing(x, y);
    }
    if y < x {
        span_increasing(y, x);
    }
}

/// Rounding respects the order: a quotient that is at least a magnitude is
/// not rounded below it, and one that is at most a magnitude not above it.
pub proof fn rounding_respects_order(num: int, den: int, m: int)
    requires
        num >= 0,
        den > 0,
        0 <= m < INFINITE,
    ensures
        span(m) * den <= num ==> m <= rounded(num, den),
        num <= span(m) * den ==> rounded(num, den) <= m,
{
    rounded_is_nearest(num, den);
    let r = rounded(num, den);
    if r < m {
        span_increasing(r, m);
        if r + 1 < m {
            span_increasing(r + 1, m);
        }
        let mid = span(r) + span(r + 1);
        assert(mid * den < 2 * (span(m) * den)) by (nonlinear_arith)
            requires
                mid < 2 * span(m),
                den > 0,
        ;
    } else if r > m {
        span_increasing(m, r);
        if m < r - 1 {
            span_increasing(m, r - 1);
        }
        let mid = span(r - 1) + span(r);
        assert(mid * den > 2 * (span(m) * den)) by (nonlinear_arith)
            requires
                mid > 2 * span(m),
                den > 0,
        ;
    }
}

/// Whether `m` is the magnitude nearest to the square root of `n` square
/// units, with ties going to the even bit pattern: the root lies between the
/// midpoints to the neighbouring magnitudes.
pub open spec fn root_nearest(m: int, n: int) -> bool {
    &&& 0 <= m <= INFINITE
    &&& m > 0 ==> square(span(m - 1) + span(m)) <= 4 * n
    &&& m > 0 && m % 2 == 1 ==> square(span(m - 1) + span(m)) < 4 * n
    &&& m < INFINITE ==> 4 * n <= square(span(m) + span(m + 1))
    &&& m < INFINITE && m % 2 == 1 ==> 4 * n < square(span(m) + span(m + 1))
}

/// A number times itself.
pub open spec fn square(v: int) -> int {
    v * v
}

/// The magnitude nearest to the square root of `n` square units.
pub open spec fn rooted(n: int) -> int {
    choose|m: int| #[trigger] root_nearest(m, n)
}

proof fn lemma_square_order(a: int, b: int)
    requires
        0 <= a < b,
    ensures
        square(a) < square(b),
{
    assert(a * a < b * b) by (nonlinear_arith)
        requires
            0 <= a < b,
    ;
}

proof fn lemma_span_nonneg(m: int)
    requires
        0 <= m,
    ensures
        span(m) >= 0,
{
    assert(span(0) == 0);
    if m > 0 {
        span_increasing(0, m);
    }
}

proof fn lemma_root_apart(a: int, b: int, n: int)
    requires
        a < b,
        root_nearest(a, n),
    ensures
        !root_nearest(b, n),
{
    if a + 1 < b {
        span_increasing(a, b - 1);
        span_increasing(a + 1, b);
        lemma_span_nonneg(a);
        lemma_span_nonneg(a + 1);
        lemma_square_order(span(a) + span(a + 1), span(b - 1) + span(b));
    } else {
        assert(a % 2 == 1 || b % 2 == 1);
    }
}

/// At most one magnitude is nearest to a square root, and rounding gives it.
pub proof fn root_nearest_unique(m: int, n: int)
    requires
        root_nearest(m, n),
    ensures
        m == rooted(n),
{
    let k = rooted(n);
    if m < k {
        lemma_root_apart(m, k, n);
    } else if k < m {
        lemma_root_apart(k, m, n);
    }
}

/// A magnitude that is large enough denotes a multiple of a power of two.
proof fn lemma_span_multiple(k: int, x: int) -> (b: int)
    requires
        0 <= k,
        0 <= x,
        span(k) >= pow2((x + 26) as nat),
    ensures
        span(k) == b * pow2(x as nat),
{
    let e0 = k / 0x80_0000;
    let f = k % 0x80_0000;
    let e = if e0 == 0 { 0 } else { e0 - 1 };
    let q = if e0 == 0 { f } else { 0x80_0000 + f };
    lemma_span(e, q);
    lemma2_to64();
    if e < x {
        let pe = pow2(e as nat) as int;
        lemma_pow2_strictly_increases(e as nat, x as nat);
        lemma_pow2_adds(x as nat, 26);
        lemma_pow2_pos(e as nat);
        let px = pow2(x as nat) as int;
        assert(q * pe < 0x100_0000 * px) by (nonlinear_arith)
            requires
                0 <= q < 0x100_0000,
                0 < pe < px,
        ;
        0
    } else {
        lemma_pow2_adds((e - x) as nat, x as nat);
        let r = pow2((e - x) as nat) as int;
        let px = pow2(x as nat) as int;
        assert(q * (r * px) == (q * r) * px) by (nonlinear_arith);
        q * r
    }
}

/// The next magnitude denotes at most twice the number.
proof fn lemma_span_double(k: int)
    requires
        1 <= k,
    ensures
        span(k + 1) <= 2 * span(k),
{
    let e0 = k / 0x80_0000;
    let f = k % 0x80_0000;
    let e = if e0 == 0 { 0 } else { e0 - 1 };
    let q = if e0 == 0 { f } else { 0x80_0000 + f };
    lemma_span(e, q);
    lemma_span(e, q + 1);
    lemma_pow2_pos(e as nat);
    let p = pow2(e as nat) as int;
    assert((q + 1) * p <= 2 * (q * p)) by (nonlinear_arith)
        requires
            q >= 1,
            p > 0,
    ;
}

/// A midpoint, given as `b` times `2 * p`, compares with the root of `a`
/// times `p` as it does with the rounded-down root.
proof fn lemma_root_compare(mid: int, b: int, s: int, a: int, p: int)
    requires
        p > 0,
        s >= 0,
        b >= 0,
        s * s <= a < (s + 1) * (s + 1),
        mid == b * (2 * p),
    ensures
        s * s == a ==> (mid <= 2 * s * p ==> square(mid) <= 4 * (a * (p * p))),
        s * s == a ==> (mid < 2 * s * p ==> square(mid) < 4 * (a * (p * p))),
        s * s == a ==> (mid >= 2 * s * p ==> square(mid) >= 4 * (a * (p * p))),
        s * s == a ==> (mid > 2 * s * p ==> square(mid) > 4 * (a * (p * p))),
        s * s != a ==> (mid <= (2 * s + 1) * p ==> square(mid) < 4 * (a * (p * p))),
        s * s != a ==> (mid >= (2 * s + 1) * p ==> square(mid) > 4 * (a * (p * p))),
{
    let pp = p * p;
    let bb = b * b;
    assert(square(mid) == 4 * (bb * pp)) by (nonlinear_arith)
        requires
            square(mid) == mid * mid,
            mid == b * (2 * p),
            bb == b * b,
            pp == p * p,
    ;
    assert(pp > 0) by (nonlinear_arith)
        requires
            pp == p * p,
            p > 0,
    ;
    assert(mid <= 2 * s * p ==> b <= s) by (nonlinear_arith)
        requires
            mid == b * (2 * p),
            p > 0,
    ;
    assert(mid < 2 * s * p ==> b < s) by (nonlinear_arith)
        requires
            mid == b * (2 * p),
            p > 0,
    ;
    assert(mid >= 2 * s * p ==> b >= s) by (nonlinear_arith)
        requires
            mid == b * (2 * p),
            p > 0,
    ;
    assert(mid > 2 * s * p ==> b > s) by (nonlinear_arith)
        requires
            mid == b * (2 * p),
            p > 0,
    ;
    assert(mid <= (2 * s + 1) * p ==> b <= s) by (nonlinear_arith)
        requires
            mid == b * (2 * p),
            p > 0,
    ;
    assert(mid >= (2 * s + 1) * p ==> b >= s + 1) by (nonlinear_arith)
        requires
            mid == b * (2 * p),
            p > 0,
    ;
    assert(b <= s ==> bb <= s * s) by (nonlinear_arith)
        requires
            bb == b * b,
            b >= 0,
    ;
    assert(b < s ==> bb < s * s) by (nonlinear_arith)
        requires
            bb == b * b,
            b >= 0,
    ;
    assert(b >= s ==> bb >= s * s) by (nonlinear_arith)
        requires
            bb == b * b,
            s >= 0,
    ;
    assert(b > s ==> bb > s * s) by (nonlinear_arith)
        requires
            bb == b * b,
            s >= 0,
    ;
    assert(b >= s + 1 ==> bb >= (s + 1) * (s + 1)) by (nonlinear_arith)
        requires
            bb == b * b,
            s >= 0,
    ;
    assert(bb <= a ==> bb * pp <= a * pp) by (nonlinear_arith)
        requires
            pp > 0,
    ;
    assert(bb < a ==> bb * pp < a * pp) by (nonlinear_arith)
        requires
            pp > 0,
    ;
    assert(bb >= a ==> bb * pp >= a * pp) by (nonlinear_arith)
        requires
            pp > 0,
    ;
    assert(bb > a ==> bb * pp > a * pp) by (nonlinear_arith)
        requires
            pp > 0,
    ;
}

/// The magnitude nearest to a rounded-down root is nearest to the root.
proof fn lemma_root(m: int, s: int, a: int, x: int)
    requires
        0x100_0000_0000 <= s,
        s * s <= a < (s + 1) * (s + 1),
        0 <= x <= 200,
        nearest(
            m,
            (2 * s + if s * s == a { 0int } else { 1 }) * pow2(x as nat),
            2,
        ),
    ensures
        root_nearest(m, a * (pow2(x as nat) * pow2(x as nat))),
{
    let p = pow2(x as nat) as int;
    let sticky = if s * s == a { 0int } else { 1 };
    let num = (2 * s + sticky) * p;
    lemma_pow2_pos(x as nat);
    lemma2_to64();
    lemma2_to64_rest();
    lemma_pow2_adds(40, x as nat);
    lemma_pow2_adds(27, x as nat);
    lemma_pow2_adds(1, x as nat);
    assert(num >= 0x200_0000_0000 * p) by (nonlinear_arith)
        requires
            num == (2 * s + sticky) * p,
            s >= 0x100_0000_0000,
            sticky >= 0,
            p > 0,
    ;
    // The lower neighbour is large enough.
    assert(m >= 2) by {
        if m < 2 {
            lemma_span(0, 1);
            lemma_span(0, 2);
            assert(span(0) == 0);
            assert(span(1) == 1 && span(2) == 2) by {
                assert(1 * pow2(0) == 1 && 2 * pow2(0) == 2);
            }
        }
    }
    lemma_span_double(m - 1);
    lemma_span_double(m);
    if m == INFINITE {
        assert(span(INFINITE as int) >= 0x80_0000 * pow2(254)) by {
            assert(INFINITE as int / 0x80_0000 == 255);
        }
        lemma_pow2_strictly_increases((x + 27) as nat, 254);
    }
    assert(span(m - 1) >= pow2((x + 27) as nat));
    let low = lemma_span_multiple(m - 1, x + 1);
    let mid = lemma_span_multiple(m, x + 1);
    assert(pow2((x + 1) as nat) == 2 * p);
    assert(low >= 0 && mid >= 0) by (nonlinear_arith)
        requires
            span(m - 1) == low * (2 * p),
            span(m) == mid * (2 * p),
            span(m - 1) >= 0,
            span(m) >= 0,
            p > 0,
    ;
    assert((low + mid) * (2 * p) == low * (2 * p) + mid * (2 * p)) by (nonlinear_arith);
    lemma_root_compare(span(m - 1) + span(m), low + mid, s, a, p);
    if m < INFINITE {
        span_increasing(m, m + 1);
        let high = lemma_span_multiple(m + 1, x + 1);
        assert(high >= 0) by (nonlinear_arith)
            requires
                span(m + 1) == high * (2 * p),
                span(m + 1) >= 0,
                p > 0,
        ;
        assert((mid + high) * (2 * p) == mid * (2 * p) + high * (2 * p)) by (nonlinear_arith);
        lemma_root_compare(span(m) + span(m + 1), mid + high, s, a, p);
    }
}

/// The integer square root, rounded down.
fn integer_root(a: u128) -> (s: u128)
    requires
        a < 0x400_0000_0000_0000_0000_0000_0000,
    ensures
        s * s <= a < (s + 1) * (s + 1),
        s < 0x20_0000_0000_0000,
{
    let mut s: u128 = 0;
    let mut bit: u128 = 0x10_0000_0000_0000;
    proof {
        lemma2_to64_rest();
        assert(bit as int == pow2(52));
    }
    assert(0x20_0000_0000_0000 * 0x20_0000_0000_0000 == 0x400_0000_0000_0000_0000_0000_0000int)
        by (nonlinear_arith);
    while bit > 0
        invariant
            bit <= 0x10_0000_0000_0000,
            s * s <= a,
            bit > 0 ==> a < (s + 2 * bit) * (s + 2 * bit),
            bit == 0 ==> a < (s + 1) * (s + 1),
            bit > 0 ==> s + 2 * bit <= 0x20_0000_0000_0000,
            s < 0x20_0000_0000_0000,
            bit > 0 ==> (bit == 1 || bit % 2 == 0),
            is_power(bit as int),
        decreases bit,
    {
        let t: u128 = s + bit;
        assert(t as int * t as int <= 0x20_0000_0000_0000 * 0x20_0000_0000_0000)
            by (nonlinear_arith)
            requires
                0 <= t <= 0x20_0000_0000_0000,
        ;
        proof {
            lemma_power_half(bit as int);
        }
        if t * t <= a {
            s = t;
        }
        bit = bit / 2;
    }
    s
}

/// Whether a number is zero or a power of two.
spec fn is_power(b: int) -> bool {
    b == 0 || exists|k: nat| b == #[trigger] pow2(k)
}

proof fn lemma_power_half(b: int)
    requires
        is_power(b),
        b > 0,
    ensures
        is_power(b / 2),
        b == 1 || b % 2 == 0,
        b / 2 > 0 ==> (b / 2 == 1 || (b / 2) % 2 == 0),
{
    let k = choose|k: nat| b == #[trigger] pow2(k);
    lemma2_to64();
    if k == 0 {
        assert(b == 1);
    } else {
        lemma_pow2_unfold(k);
        let h = pow2((k - 1) as nat) as int;
        assert(b / 2 == h);
        if k > 1 {
            lemma_pow2_unfold((k - 1) as nat);
        }
    }
}

impl Single {
    /// Square root, rounded to nearest.
    pub fn root(self) -> (r: Single)
        ensures
            r == self.square_root(),
    {
        let m = self.mag();
        if m > INFINITE || (self.bits >= SIGN && m > 0) {
            return Single { bits: NOT_A_NUMBER };
        }
        if m == 0 || m == INFINITE {
            return self;
        }
        let (q, e) = self.parts();
        let total: u32 = e + 149;
        let odd: u32 = total % 2;
        let j: u32 = total / 2;
        let wide: u128 = if odd == 1 {
            2 * q as u128
        } else {
            q as u128
        };
        let a: u128 = wide * 0x1_0000_0000_0000_0000_0000;
        let s = integer_root(a);
        let x: i32 = j as i32 - 40;
        let sticky: bool = s * s != a;
        let ghost p = pow2(x as nat) as int;
        let ghost num = (2 * s as int + if s as int * s as int == a as int { 0int } else { 1 }) * p;
        proof {
            let si = s as int;
            let ai = a as int;
            lemma2_to64();
            lemma2_to64_rest();
            lemma_pow2_pos(x as nat);
            lemma_pow2_strictly_increases(64, 119);
            assert(0x100_0000_0000 * 0x100_0000_0000 == 0x1_0000_0000_0000_0000_0000int)
                by (nonlinear_arith);
            if si < 0x100_0000_0000 {
                assert((si + 1) * (si + 1) <= 0x100_0000_0000 * 0x100_0000_0000)
                    by (nonlinear_arith)
                    requires
                        0 <= si < 0x100_0000_0000,
                ;
            }
            assert(num >= 0) by (nonlinear_arith)
                requires
                    num == (2 * si + if si * si == ai { 0int } else { 1 }) * p,
                    si >= 0,
                    p > 0,
            ;
            assert(brackets(si, sticky, x as int, num, 2)) by {
                assert(pow2(0) == 1);
                assert(sticky ==> si * p * 2 < num * 1 < (si + 1) * p * 2) by (nonlinear_arith)
                    requires
                        sticky ==> num == (2 * si + 1) * p,
                        p > 0,
                ;
                assert(!sticky ==> num * 1 == si * p * 2) by (nonlinear_arith)
                    requires
                        !sticky ==> num == (2 * si + 0) * p,
                ;
            }
            // The square of the root, in square units.
            let pe = pow2(e as nat) as int;
            let p149 = pow2(149) as int;
            lemma_pow2_adds(e as nat, 149);
            lemma_pow2_adds(x as nat, x as nat);
            lemma_pow2_adds(80, (2 * x) as nat);
            lemma_pow2_adds(64, 16);
            assert(pow2(80) == 0x1_0000_0000_0000_0000_0000);
            lemma_pow2_adds(odd as nat, (2 * j) as nat);
            let n = span(self.magnitude()) * p149;
            let two = pow2(odd as nat) as int;
            if odd == 1 {
                assert(two == 2);
            } else {
                assert(odd == 0);
                assert(two == 1);
            }
            assert(wide as int == q as int * two);
            assert(pe * p149 == two * (0x1_0000_0000_0000_0000_0000 * (p * p)));
            let big = 0x1_0000_0000_0000_0000_0000int;
            let qi = q as int;
            assert(n == ai * (p * p)) by (nonlinear_arith)
                requires
                    n == qi * pe * p149,
                    pe * p149 == two * (big * (p * p)),
                    ai == (qi * two) * big,
            ;
        }
        let m = round_bits(s, sticky, x, Ghost(num), Ghost(2));
        proof {
            lemma_root(m as int, s as int, a as int, x as int);
            root_nearest_unique(m as int, span(self.magnitude()) * pow2(149));
        }
        Single { bits: m }
    }
}

/// A count is a finite number that is not negative, and counts keep their
/// order.
pub proof fn counts_are_ordered(a: int, b: int)
    requires
        0 <= a <= b <= u64::MAX,
    ensures
        !Single::counted(a).nan() && !Single::counted(a).infinite(),
        !Single::counted(a).negative(),
        !Single::counted(b).nan() && !Single::counted(b).infinite(),
        !Single::counted(b).negative(),
        Single::counted(a).magnitude() <= Single::counted(b).magnitude(),
        b > 0 ==> Single::counted(b).magnitude() > 0,
{
    let top = 190int * 0x80_0000 + 0x80_0000;
    lemma_span(190, 0x80_0000);
    lemma2_to64();
    lemma2_to64_rest();
    lemma_pow2_pos(149);
    lemma_pow2_adds(64, 149);
    lemma_pow2_adds(23, 190);
    let p = pow2(149) as int;
    lemma_count(a, top, p);
    lemma_count(b, top, p);
    if 0 < a {
        let ma = rounded(a * p, 1);
        let mb = rounded(b * p, 1);
        rounded_is_nearest(a * p, 1);
        rounded_is_nearest(b * p, 1);
        assert(a * p <= b * p) by (nonlinear_arith)
            requires
                a <= b,
                p > 0,
        ;
        if mb < ma {
            span_increasing(mb, ma);
            if mb + 1 < ma {
                span_increasing(mb, ma - 1);
                span_increasing(mb + 1, ma);
            } else {
                assert(ma % 2 == 1 || mb % 2 == 1);
            }
        }
    }
}

proof fn lemma_count(n: int, top: int, p: int)
    requires
        0 <= n <= u64::MAX,
        p == pow2(149),
        top == 191 * 0x80_0000,
        span(top) == pow2(213),
        pow2(213) == 0x1_0000_0000_0000_0000 * p,
    ensures
        0 <= Single::counted(n).magnitude() <= top,
        !Single::counted(n).negative(),
        n > 0 ==> Single::counted(n).magnitude() > 0,
        n > 0 ==> Single::counted(n).magnitude() == rounded(n * p, 1),
{
    lemma_pow2_pos(149);
    if n > 0 {
        assert(n * p <= 0x1_0000_0000_0000_0000 * p) by (nonlinear_arith)
            requires
                n <= 0x1_0000_0000_0000_0000,
                p > 0,
        ;
        assert(n * p >= p) by (nonlinear_arith)
            requires
                n >= 1,
                p > 0,
        ;
        lemma2_to64();
        rounding_respects_order(n * p, 1, top);
        lemma_span(0, 1);
        assert(1 * pow2(0) == 1);
        assert(span(1) == 1);
        rounding_respects_order(n * p, 1, 1);
    }
}

/// The quotient of a count by one that is no smaller lies between zero and
/// one.
pub proof fn shares_are_at_most_one(a: int, b: int)
    requires
        0 <= a <= b <= u64::MAX,
        b > 0,
    ensures
        ({
            let q = Single::counted(a).quotient(Single::counted(b));
            &&& !q.nan() && !q.infinite() && !q.negative()
            &&& q.magnitude() <= 0x3f80_0000
        }),
{
    counts_are_ordered(a, b);
    let x = Single::counted(a);
    let y = Single::counted(b);
    let sx = span(x.magnitude());
    let sy = span(y.magnitude());
    if a > 0 {
        counts_are_ordered(a, a);
        let p = pow2(149) as int;
        lemma_pow2_pos(149);
        assert(span(0) == 0);
        span_increasing(0, y.magnitude());
        span_increasing(0, x.magnitude());
        if x.magnitude() < y.magnitude() {
            span_increasing(x.magnitude(), y.magnitude());
        }
        lemma_span(126, 0x80_0000);
        lemma2_to64();
        lemma_pow2_adds(23, 126);
        assert(span(0x3f80_0000) == p);
        assert(sx * p <= p * sy) by (nonlinear_arith)
            requires
                0 <= sx <= sy,
                p > 0,
        ;
        assert(sx * p >= 0) by (nonlinear_arith)
            requires
                0 <= sx,
                p > 0,
        ;
        rounding_respects_order(sx * p, sy, 0x3f80_0000);
        rounded_is_nearest(sx * p, sy);
    }
}

/// A magnitude for `n` times two to the `e`th units.
pub(crate) proof fn lemma_exact(n: int, e: int) -> (m: int)
    requires
        1 <= n < 0x100_0000,
        23 <= e <= 200,
    ensures
        0 < m < INFINITE,
        span(m) == n * pow2(e as nat),
{
    lemma2_to64();
    let k = lemma_shift(n, 0);
    lemma_pow2_adds(k, (e - k) as nat);
    let q = n * pow2(k);
    lemma_span(e - k, q);
    assert(q * pow2((e - k) as nat) == n * (pow2(k) * pow2((e - k) as nat))) by (nonlinear_arith)
        requires
            q == n * pow2(k),
    ;
    (e - k) * 0x80_0000 + q
}

/// How far a number is to be shifted to have 24 bits.
proof fn lemma_shift(n: int, k: nat) -> (r: nat)
    requires
        1 <= n,
        k <= 23,
        n * pow2(k) < 0x100_0000,
    ensures
        k <= r <= 23,
        0x80_0000 <= n * pow2(r) < 0x100_0000,
    decreases 23 - k,
{
    lemma2_to64();
    if n * pow2(k) >= 0x80_0000 {
        k
    } else {
        lemma_pow2_adds(1, k);
        lemma_pow2_pos(k);
        let p = pow2(k) as int;
        assert(n * (2 * p) == 2 * (n * p)) by (nonlinear_arith);
        if k == 23 {
            assert(n * p >= p) by (nonlinear_arith)
                requires
                    n >= 1,
                    p > 0,
            ;
        }
        lemma_shift(n, (k + 1) as nat)
    }
}

/// Counts up to two to the 24th are exact.
pub proof fn small_counts_are_exact(n: int)
    requires
        0 <= n <= 0x100_0000,
    ensures
        !Single::counted(n).negative(),
        !Single::counted(n).nan() && !Single::counted(n).infinite(),
        Single::counted(n).value() == n * pow2(149),
{
    counts_are_ordered(n, n);
    lemma2_to64();
    lemma_pow2_pos(149);
    lemma_span(0, 0);
    if n > 0 {
        let m = if n < 0x100_0000 {
            lemma_exact(n, 149)
        } else {
            lemma_pow2_adds(24, 149);
            lemma_pow2_adds(23, 150);
            lemma_span(150, 0x80_0000);
            150int * 0x80_0000 + 0x80_0000
        };
        assert(span(m) == n * pow2(149));
        let num = n * pow2(149);
        assert(num > 0) by (nonlinear_arith)
            requires
                num == n * pow2(149),
                n > 0,
                pow2(149) > 0,
        ;
        rounding_respects_order(num, 1, m);
        assert(Single::counted(n) == signed(false, m));
    } else {
        assert(n * pow2(149) == 0) by (nonlinear_arith)
            requires
                n == 0,
        ;
    }
}

/// The quotient of two such counts is the number nearest to their ratio.
pub proof fn shares_are_nearest(a: int, b: int)
    requires
        0 <= a <= b <= 0x100_0000,
        b > 0,
    ensures
        !Single::counted(a).quotient(Single::counted(b)).negative(),
        nearest(
            Single::counted(a).quotient(Single::counted(b)).magnitude(),
            a * pow2(149),
            b,
        ),
{
    small_counts_are_exact(a);
    small_counts_are_exact(b);
    shares_are_at_most_one(a, b);
    let u = pow2(149) as int;
    lemma_pow2_pos(149);
    lemma_span(0, 0);
    let (x, y) = (Single::counted(a), Single::counted(b));
    let q = x.quotient(y);
    assert(b * u > 0) by (nonlinear_arith)
        requires
            b > 0,
            u > 0,
    ;
    if a == 0 {
        if x.magnitude() > 0 {
            span_increasing(0, x.magnitude());
        }
        assert(a * u == 0) by (nonlinear_arith)
            requires
                a == 0,
        ;
        lemma_span(0, 1);
        lemma2_to64();
        assert((span(0) + span(1)) * b >= 0) by (nonlinear_arith)
            requires
                span(0) + span(1) >= 0,
                b > 0,
        ;
    } else {
        assert(a * u > 0) by (nonlinear_arith)
            requires
                a > 0,
                u > 0,
        ;
        assert((a * u) * u >= 0) by (nonlinear_arith)
            requires
                a * u >= 0,
                u > 0,
        ;
        let (num, den) = ((a * u) * u, b * u);
        rounded_is_nearest(num, den);
        let m = q.magnitude();
        assert(nearest(m, num, den));
        if m > 0 {
            lemma_cancel(span(m - 1) + span(m), a * u, b, u);
        }
        if m < INFINITE {
            lemma_cancel(span(m) + span(m + 1), a * u, b, u);
        }
    }
}

proof fn lemma_cancel(s: int, x: int, b: int, u: int)
    requires
        u > 0,
    ensures
        s * (b * u) <= 2 * (x * u) ==> s * b <= 2 * x,
        s * (b * u) < 2 * (x * u) ==> s * b < 2 * x,
        2 * (x * u) <= s * (b * u) ==> 2 * x <= s * b,
        2 * (x * u) < s * (b * u) ==> 2 * x < s * b,
{
    let (l, r) = (s * b, 2 * x);
    assert(s * (b * u) == l * u && 2 * (x * u) == r * u) by (nonlinear_arith)
        requires
            l == s * b,
            r == 2 * x,
    ;
    assert(l * u <= r * u ==> l <= r) by (nonlinear_arith)
        requires
            u > 0,
    ;
    assert(l * u < r * u ==> l < r) by (nonlinear_arith)
        requires
            u > 0,
    ;
    assert(r * u <= l * u ==> r <= l) by (nonlinear_arith)
        requires
            u > 0,
    ;
    assert(r * u < l * u ==> r < l) by (nonlinear_arith)
        requires
            u > 0,
    ;
}

/// Searching upwards from a magnitude whose square is not too large finds the
/// one nearest to the root.
proof fn lemma_root_from(m: int, n: int) -> (r: int)
    requires
        0 <= m <= INFINITE,
        m > 0 ==> square(span(m - 1) + span(m)) <= 4 * n,
        m > 0 && m % 2 == 1 ==> square(span(m - 1) + span(m)) < 4 * n,
    ensures
        root_nearest(r, n),
    decreases INFINITE - m,
{
    if root_nearest(m, n) {
        m
    } else {
        lemma_root_from(m + 1, n)
    }
}

/// Roots respect the order: the root of at least a square is not rounded below
/// its side, and that of at most a square not above it.
pub proof fn roots_respect_order(n: int, m: int)
    requires
        n >= 0,
        0 <= m < INFINITE,
    ensures
        0 <= rooted(n) <= INFINITE,
        square(span(m)) <= n ==> m <= rooted(n),
        n <= square(span(m)) ==> rooted(n) <= m,
{
    let k = lemma_root_from(0, n);
    root_nearest_unique(k, n);
    let r = rooted(n);
    assert(root_nearest(r, n));
    lemma_span_nonneg(m);
    lemma_span_nonneg(r);
    let s = span(m);
    assert(square(2 * s) == 4 * square(s)) by (nonlinear_arith)
        requires
            square(2 * s) == (2 * s) * (2 * s),
            square(s) == s * s,
    ;
    if r < m {
        span_increasing(r, r + 1);
        if r + 1 < m {
            span_increasing(r + 1, m);
        }
        lemma_square_order(span(r) + span(r + 1), 2 * s);
    } else if m < r {
        lemma_span_nonneg(r - 1);
        span_increasing(r - 1, r);
        if m < r - 1 {
            span_increasing(m, r - 1);
        }
        lemma_square_order(2 * s, span(r - 1) + span(r));
    }
}

/// Subtracting a number that is not negative never gives more.
pub proof fn difference_is_no_more(a: Single, b: Single)
    requires
        !a.nan() && !a.infinite(),
        !b.nan() && !b.infinite() && !b.negative(),
    ensures
        a.difference(b).at_most(a),
{
    lemma_span_nonneg(a.magnitude());
    lemma_span_nonneg(b.magnitude());
    let (x, y) = (a.value(), b.value());
    let v = x - y;
    assert(b.negated().value() == -y);
    if v > 0 {
        rounding_respects_order(v, 1, a.magnitude());
        rounded_is_nearest(v, 1);
    } else if v < 0 {
        rounded_is_nearest(-v, 1);
        if a.negative() {
            rounding_respects_order(-v, 1, a.magnitude());
        }
    } else if a.negative() && a.magnitude() > 0 {
        lemma_span(0, 0);
        span_increasing(0, a.magnitude());
    }
}

/// Multiplying by the same number that is not negative keeps the order of
/// numbers that are not negative.
pub proof fn products_keep_order(a: Single, b: Single, c: Single)
    requires
        !a.negative() && !b.negative() && !c.negative(),
        !b.nan() && !b.infinite(),
        !c.nan() && !c.infinite(),
        a.at_most(b),
    ensures
        !a.product(c).negative() && !b.product(c).negative(),
        a.product(c).at_most(b.product(c)),
{
    lemma_pow2_pos(149);
    lemma_span(0, 0);
    let (x, y, z) = (a.magnitude(), b.magnitude(), c.magnitude());
    lemma_span_nonneg(x);
    lemma_span_nonneg(y);
    lemma_span_nonneg(z);
    if x < y {
        span_increasing(x, y);
    }
    let (p, q) = (span(x) * span(z), span(y) * span(z));
    assert(0 <= p <= q) by (nonlinear_arith)
        requires
            p == span(x) * span(z),
            q == span(y) * span(z),
            0 <= span(x) <= span(y),
            0 <= span(z),
    ;
    rounding_keeps_order(p, q, pow2(149) as int);
}

} // verus!
