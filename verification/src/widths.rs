//! Conversions between single precision and the half and double widths.

use crate::single;
use crate::single::{power, round_bits, Single, INFINITE, SIGN};
use vstd::arithmetic::power2::*;
use vstd::prelude::*;

verus! {

/// Magnitude of the infinities in half precision.
pub const HALF_INFINITE: u16 = 0x7c00;

/// Weight of the sign bit in half precision.
pub const HALF_SIGN: u16 = 0x8000;

/// The half-precision number with magnitude `h`, in units of two to the minus
/// 149th. Infinity counts as two to the 16th.
pub open spec fn half_span(h: int) -> int {
    let e = h / 1024;
    let f = h % 1024;
    if e <= 0 {
        f * pow2(125)
    } else {
        (1024 + f) * pow2((e + 124) as nat)
    }
}

/// Whether `h` is the half-precision magnitude nearest to `v` units, with
/// ties going to the even bit pattern.
pub open spec fn half_nearest(h: int, v: int) -> bool {
    &&& 0 <= h <= HALF_INFINITE
    &&& h > 0 ==> half_span(h - 1) + half_span(h) <= 2 * v
    &&& h > 0 && h % 2 == 1 ==> half_span(h - 1) + half_span(h) < 2 * v
    &&& h < HALF_INFINITE ==> 2 * v <= half_span(h) + half_span(h + 1)
    &&& h < HALF_INFINITE && h % 2 == 1 ==> 2 * v < half_span(h) + half_span(h + 1)
}

/// The half-precision magnitude nearest to `v` units.
pub open spec fn half_rounded(v: int) -> int {
    choose|h: int| #[trigger] half_nearest(h, v)
}

/// A single-precision number in half precision: rounded to nearest; a NaN
/// stays one and keeps the upper bits of its payload.
pub open spec fn narrowed(x: Single) -> u16 {
    let sign = if x.negative() {
        HALF_SIGN as int
    } else {
        0
    };
    let payload = (x.magnitude() % 0x80_0000) / 0x2000;
    if x.nan() {
        (sign + HALF_INFINITE + if payload >= 0x200 {
            payload
        } else {
            payload + 0x200
        }) as u16
    } else if x.infinite() {
        (sign + HALF_INFINITE) as u16
    } else {
        (sign + half_rounded(single::span(x.magnitude()))) as u16
    }
}

/// A half-precision number in single precision: the same number; a NaN stays
/// one and keeps its payload.
pub open spec fn widened(b: u16) -> Single {
    let negative = b >= HALF_SIGN;
    let h = if negative {
        b - HALF_SIGN
    } else {
        b as int
    };
    let payload = h % 1024;
    if h > HALF_INFINITE {
        single::signed(
            negative,
            INFINITE + 0x2000 * if payload >= 0x200 {
                payload
            } else {
                payload + 0x200
            },
        )
    } else if h == HALF_INFINITE {
        single::signed(negative, INFINITE as int)
    } else {
        single::signed(negative, single::rounded(half_span(h), 1))
    }
}

/// The half-precision magnitude built from a significand and an exponent.
proof fn lemma_half_span(e: int, q: int)
    requires
        0 <= e,
        0 <= q <= 2048,
        q >= 1024 || e == 0,
    ensures
        half_span(e * 1024 + q) == q * pow2((e + 125) as nat),
{
    let h = e * 1024 + q;
    if q < 1024 {
        assert(h / 1024 == 0 && h % 1024 == q);
    } else if q < 2048 {
        assert(h / 1024 == e + 1 && h % 1024 == q - 1024);
    } else {
        assert(h / 1024 == e + 2 && h % 1024 == 0);
        lemma_pow2_unfold((e + 126) as nat);
        assert(1024 * (2 * pow2((e + 125) as nat)) == 2048 * pow2((e + 125) as nat));
    }
}

proof fn lemma_half_step(h: int)
    requires
        0 <= h,
    ensures
        half_span(h) < half_span(h + 1),
{
    let e0 = h / 1024;
    let f = h % 1024;
    let e = if e0 == 0 {
        0
    } else {
        e0 - 1
    };
    let q = if e0 == 0 {
        f
    } else {
        1024 + f
    };
    lemma_half_span(e, q);
    lemma_half_span(e, q + 1);
    let p = pow2((e + 125) as nat) as int;
    lemma_pow2_pos((e + 125) as nat);
    assert((q + 1) * p == q * p + p) by (nonlinear_arith);
}

proof fn lemma_half_increasing(a: int, b: int)
    requires
        0 <= a < b,
    ensures
        half_span(a) < half_span(b),
    decreases b - a,
{
    lemma_half_step(a);
    if a + 1 < b {
        lemma_half_increasing(a + 1, b);
    }
}

proof fn lemma_half_apart(a: int, b: int, v: int)
    requires
        a < b,
        half_nearest(a, v),
    ensures
        !half_nearest(b, v),
{
    if a + 1 < b {
        lemma_half_increasing(a, b - 1);
        lemma_half_increasing(a + 1, b);
    } else {
        assert(a % 2 == 1 || b % 2 == 1);
    }
}

/// At most one half-precision magnitude is nearest to a number, and rounding
/// gives it.
pub proof fn half_nearest_unique(h: int, v: int)
    requires
        half_nearest(h, v),
    ensures
        h == half_rounded(v),
{
    let k = half_rounded(v);
    if h < k {
        lemma_half_apart(h, k, v);
    } else if k < h {
        lemma_half_apart(k, h, v);
    }
}

/// Every number of units with at most 24 significant bits is exactly some
/// magnitude.
proof fn lemma_exact(q: int, e: int) -> (m: int)
    requires
        1 <= q < 0x100_0000,
        0 <= e <= 200,
    ensures
        0 < m < INFINITE,
        single::span(m) == q * pow2(e as nat),
    decreases e,
{
    if q >= 0x80_0000 || e == 0 {
        single::lemma_span(e, q);
        e * 0x80_0000 + q
    } else {
        lemma_pow2_unfold(e as nat);
        let p = pow2((e - 1) as nat) as int;
        assert((2 * q) * p == q * (2 * p)) by (nonlinear_arith);
        lemma_exact(2 * q, e - 1)
    }
}

/// A magnitude is nearest to its own number.
proof fn lemma_own_nearest(m: int)
    requires
        0 <= m < INFINITE,
    ensures
        single::rounded(single::span(m), 1) == m,
{
    single::lemma_span_step(m);
    if m > 0 {
        single::lemma_span_step(m - 1);
        if m > 1 {
            single::span_increasing(0, m - 1);
        }
    }
    assert(single::span(0) == 0);
    assert(single::nearest(m, single::span(m), 1));
    single::nearest_unique(m, single::rounded(single::span(m), 1), single::span(m), 1);
}

/// Widening is exact: the number stays the same.
pub proof fn widening_is_exact(b: u16)
    requires
        b % HALF_SIGN < HALF_INFINITE,
    ensures
        ({
            let w = widened(b);
            &&& !w.nan() && !w.infinite()
            &&& w.negative() == (b >= HALF_SIGN)
            &&& single::span(w.magnitude()) == half_span((b % HALF_SIGN) as int)
        }),
{
    let h = (b % HALF_SIGN) as int;
    let e0 = h / 1024;
    let f = h % 1024;
    let e = if e0 == 0 {
        0
    } else {
        e0 - 1
    };
    let q = if e0 == 0 {
        f
    } else {
        1024 + f
    };
    lemma_half_span(e, q);
    if q > 0 {
        let m = lemma_exact(q, e + 125);
        lemma_own_nearest(m);
    } else {
        lemma_own_nearest(0);
        assert(0 * pow2(125) == 0);
    }
}

/// Widening a half-precision number and narrowing it again gives it back.
pub proof fn half_roundtrip(b: u16)
    requires
        b % HALF_SIGN <= HALF_INFINITE,
    ensures
        narrowed(widened(b)) == b,
{
    let h = (b % HALF_SIGN) as int;
    if h < HALF_INFINITE {
        widening_is_exact(b);
        let v = half_span(h);
        lemma_half_step(h);
        if h > 0 {
            lemma_half_step(h - 1);
        }
        assert(half_span(0) == 0) by {
            assert(0 * pow2(125) == 0);
        }
        if h > 1 {
            lemma_half_increasing(0, h - 1);
        }
        assert(half_nearest(h, v));
        half_nearest_unique(h, v);
    }
}

/// A half-precision number in single precision.
pub fn widen(b: u16) -> (res: Single)
    ensures
        res == widened(b),
{
    let sign: u32 = if b >= HALF_SIGN {
        SIGN
    } else {
        0
    };
    let h: u16 = b % HALF_SIGN;
    let f: u16 = h % 1024;
    if h > HALF_INFINITE {
        let payload: u32 = if f >= 0x200 {
            f as u32
        } else {
            f as u32 + 0x200
        };
        return Single { bits: sign + INFINITE + 0x2000 * payload };
    }
    if h == HALF_INFINITE {
        return Single { bits: sign + INFINITE };
    }
    let e: u16 = if h < 1024 {
        0
    } else {
        h / 1024 - 1
    };
    let q: u16 = if h < 1024 {
        h
    } else {
        1024 + f
    };
    proof {
        lemma_half_span(e as int, q as int);
    }
    if q == 0 {
        proof {
            lemma_own_nearest(0);
            assert(0 * pow2(125) == 0);
        }
        return Single { bits: sign };
    }
    proof {
        lemma2_to64();
        lemma2_to64_rest();
        lemma_pow2_strictly_increases(64, 119);
        lemma_pow2_pos((e + 125) as nat);
        single::lemma_brackets_scaled(q as int, e + 125);
        assert(q as int * pow2((e + 125) as nat) >= 0) by (nonlinear_arith)
            requires
                pow2((e + 125) as nat) > 0,
                q >= 0,
        ;
    }
    let m = round_bits(
        q as u128 * 0x100_0000,
        false,
        e as i32 + 101,
        Ghost(q as int * pow2((e + 125) as nat)),
        Ghost(1),
    );
    proof {
        widening_is_exact(b);
    }
    Single { bits: m + sign }
}

/// Rounding a number that lies `rem` parts of `2 * half` above a
/// half-precision magnitude.
proof fn lemma_half_choice(h: int, b: int, p: int, half: int, rem: int, v: int)
    requires
        0 <= h < HALF_INFINITE,
        p > 0,
        half > 0,
        0 <= rem < 2 * half,
        half_span(h) == b * (2 * half * p),
        half_span(h + 1) == (b + 1) * (2 * half * p),
        v == b * (2 * half * p) + rem * p,
    ensures
        half_rounded(v) == if rem > half || (rem == half && h % 2 == 1) {
            h + 1
        } else {
            h
        },
{
    let big = 2 * half * p;
    assert((b + 1) * big == b * big + big) by (nonlinear_arith);
    assert(rem < half ==> 2 * (rem * p) < big) by (nonlinear_arith)
        requires
            big == 2 * half * p,
            p > 0,
    ;
    assert(rem > half ==> 2 * (rem * p) > big) by (nonlinear_arith)
        requires
            big == 2 * half * p,
            p > 0,
    ;
    assert(rem == half ==> 2 * (rem * p) == big) by (nonlinear_arith)
        requires
            big == 2 * half * p,
    ;
    assert(rem * p < big) by (nonlinear_arith)
        requires
            big == 2 * half * p,
            rem < 2 * half,
            p > 0,
    ;
    assert(rem * p >= 0) by (nonlinear_arith)
        requires
            rem >= 0,
            p > 0,
    ;
    if rem > half || (rem == half && h % 2 == 1) {
        lemma_half_step(h + 1);
        assert(half_nearest(h + 1, v));
        half_nearest_unique(h + 1, v);
    } else {
        if h > 0 {
            lemma_half_step(h - 1);
        }
        assert(half_nearest(h, v));
        half_nearest_unique(h, v);
    }
}

/// The magnitude, in half precision, of a finite number.
fn narrow_magnitude(x: Single) -> (h: u16)
    requires
        x.magnitude() < INFINITE,
    ensures
        h == half_rounded(single::span(x.magnitude())),
        h <= HALF_INFINITE,
{
    let m = x.mag();
    let (q, e) = x.parts();
    let ghost p = pow2(e as nat) as int;
    proof {
        lemma_pow2_pos(e as nat);
        lemma2_to64();
        lemma2_to64_rest();
    }
    if m >= 0x3880_0000 {
        let t: u32 = m - 0x3800_0000;
        let h: u32 = t / 0x2000;
        let rem: u32 = t % 0x2000;
        if h >= 0x7c00 {
            proof {
                lemma_half_infinite(x, q as int, e as int);
            }
            return HALF_INFINITE;
        }
        proof {
            let b = q as int / 0x2000;
            assert(q as int == b * 0x2000 + rem);
            assert(h as int == (e - 112) * 1024 + b);
            lemma_half_span(e - 112, b);
            lemma_half_span(e - 112, b + 1);
            lemma_pow2_adds(13, e as nat);
            assert(pow2((e + 13) as nat) == 2 * 0x1000 * p);
            assert(q as int * p == b * (2 * 0x1000 * p) + rem as int * p) by (nonlinear_arith)
                requires
                    q as int == b * 0x2000 + rem as int,
            ;
            lemma_half_choice(
                h as int,
                b,
                p,
                0x1000,
                rem as int,
                single::span(x.magnitude()),
            );
        }
        if rem > 0x1000 || (rem == 0x1000 && h % 2 == 1) {
            (h + 1) as u16
        } else {
            h as u16
        }
    } else {
        let k: u32 = 125 - e;
        assert(e <= 111) by (nonlinear_arith)
            requires
                m < 0x3880_0000,
                m as int == e as int * 0x80_0000 + q as int,
                q >= 0x80_0000 || e == 0,
        ;
        let quantum = power(k);
        let half = power(k - 1);
        proof {
            lemma_pow2_pos(k as nat);
        }
        let h: u128 = q as u128 / quantum;
        let rem: u128 = q as u128 % quantum;
        proof {
            lemma_pow2_unfold(k as nat);
            if k > 14 {
                lemma_pow2_strictly_increases(14, k as nat);
            }
            assert(quantum >= 0x4000);
            assert(h < 1024) by (nonlinear_arith)
                requires
                    q < 0x100_0000,
                    quantum >= 0x4000,
                    h == q as u128 / quantum,
            ;
            lemma_pow2_adds(k as nat, e as nat);
            assert(pow2(125) == 2 * (half as int) * p);
            lemma_half_span(0, h as int);
            lemma_half_span(0, h + 1);
            vstd::arithmetic::div_mod::lemma_fundamental_div_mod(q as int, quantum as int);
            let hi = h as int;
            let qi = quantum as int;
            let ri = rem as int;
            let halfi = half as int;
            assert(q as int * p == hi * (2 * halfi * p) + ri * p) by (nonlinear_arith)
                requires
                    q as int == qi * hi + ri,
                    qi == 2 * halfi,
            ;
            lemma_half_choice(hi, hi, p, halfi, ri, single::span(x.magnitude()));
        }
        if rem > half || (rem == half && h % 2 == 1) {
            (h + 1) as u16
        } else {
            h as u16
        }
    }
}

/// Numbers from two to the 16th on are infinite in half precision.
proof fn lemma_half_infinite(x: Single, q: int, e: int)
    requires
        x.magnitude() == e * 0x80_0000 + q,
        0x80_0000 <= q < 0x100_0000,
        0 <= e,
        single::span(x.magnitude()) == q * pow2(e as nat),
        (x.magnitude() - 0x3800_0000) / 0x2000 >= 0x7c00,
    ensures
        half_rounded(single::span(x.magnitude())) == HALF_INFINITE,
{
    let v = single::span(x.magnitude());
    assert(e >= 142);
    lemma_half_span(30, 1024);
    lemma_half_step(0x7bff);
    let p = pow2(e as nat) as int;
    if e > 142 {
        lemma_pow2_strictly_increases(142, e as nat);
    }
    lemma2_to64();
    lemma_pow2_adds(13, 142);
    assert(1024 * 0x2000 == 0x80_0000);
    assert(v >= 0x80_0000 * pow2(142)) by (nonlinear_arith)
        requires
            v == q * p,
            q >= 0x80_0000,
            p >= pow2(142),
    ;
    assert(half_nearest(HALF_INFINITE as int, v));
    half_nearest_unique(HALF_INFINITE as int, v);
}

/// A single-precision number in half precision.
pub fn narrow(x: Single) -> (b: u16)
    ensures
        b == narrowed(x),
{
    let sign: u16 = if x.bits >= SIGN {
        HALF_SIGN
    } else {
        0
    };
    let m = x.mag();
    if m > INFINITE {
        let payload: u16 = ((m % 0x80_0000) / 0x2000) as u16;
        return sign + HALF_INFINITE + if payload >= 0x200 {
            payload
        } else {
            payload + 0x200
        };
    }
    if m == INFINITE {
        return sign + HALF_INFINITE;
    }
    sign + narrow_magnitude(x)
}

/// The double-precision number with the bit pattern `bits`, in single
/// precision: rounded to nearest.
pub open spec fn from_double_bits(bits: u64) -> Single {
    let negative = bits >= 0x8000_0000_0000_0000;
    let m = bits as int % 0x8000_0000_0000_0000;
    let e = m / 0x10_0000_0000_0000;
    let f = m % 0x10_0000_0000_0000;
    let q = if e == 0 {
        f
    } else {
        0x10_0000_0000_0000 + f
    };
    let x = if e == 0 {
        -925
    } else {
        e - 926
    };
    if e == 0x7ff && f > 0 {
        single::signed(negative, single::NOT_A_NUMBER as int)
    } else if e == 0x7ff {
        single::signed(negative, INFINITE as int)
    } else if q == 0 {
        single::signed(negative, 0)
    } else if x < 0 {
        single::signed(negative, single::rounded(q, pow2((-x) as nat) as int))
    } else {
        single::signed(negative, single::rounded(q * pow2(x as nat), 1))
    }
}

/// A double-precision number, given by its bit pattern, in single precision.
pub fn from_double(bits: u64) -> (res: Single)
    ensures
        res == from_double_bits(bits),
{
    let sign: u32 = if bits >= 0x8000_0000_0000_0000 {
        SIGN
    } else {
        0
    };
    let m: u64 = bits % 0x8000_0000_0000_0000;
    let e: u64 = m / 0x10_0000_0000_0000;
    let f: u64 = m % 0x10_0000_0000_0000;
    if e == 0x7ff {
        return Single {
            bits: sign + if f > 0 {
                single::NOT_A_NUMBER
            } else {
                INFINITE
            },
        };
    }
    let q: u64 = if e == 0 {
        f
    } else {
        0x10_0000_0000_0000 + f
    };
    if q == 0 {
        return Single { bits: sign };
    }
    let x: i32 = if e == 0 {
        -925
    } else {
        e as i32 - 926
    };
    let ghost qi = q as int;
    let ghost num = if x < 0 {
        qi
    } else {
        qi * pow2(x as nat)
    };
    let ghost den = if x < 0 {
        pow2((-x) as nat) as int
    } else {
        1
    };
    proof {
        lemma2_to64();
        lemma2_to64_rest();
        lemma_pow2_strictly_increases(64, 119);
        lemma_pow2_adds(64, 24);
        lemma_pow2_strictly_increases(88, 119);
        if x < 0 {
            lemma_pow2_pos((-x) as nat);
            let d = pow2((-x) as nat) as int;
            lemma_pow2_adds(24, (-x) as nat);
            let c = pow2((24 - x) as nat) as int;
            assert(qi * c == (qi * 0x100_0000) * 1 * d) by (nonlinear_arith)
                requires
                    c == 0x100_0000 * d,
            ;
        } else {
            single::lemma_brackets_scaled(qi, x as int);
            lemma_pow2_pos(x as nat);
            assert(qi * pow2(x as nat) >= 0) by (nonlinear_arith)
                requires
                    qi >= 0,
                    pow2(x as nat) > 0,
            ;
        }
    }
    let r = round_bits(q as u128 * 0x100_0000, false, x - 24, Ghost(num), Ghost(den));
    Single { bits: sign + r }
}

/// A number in single precision that is written in double precision, with its
/// exponent moved and its fraction lengthened by zeros, is read back as it was.
pub proof fn doubles_hold_singles(x: Single, wide: u64)
    requires
        0x80_0000 <= x.magnitude() < INFINITE,
        wide == x.magnitude() * 0x2000_0000 + 0x3800_0000_0000_0000 + if x.negative() {
            0x8000_0000_0000_0000int
        } else {
            0
        },
    ensures
        from_double_bits(wide) == x,
{
    let m = x.magnitude();
    let (e, f) = (m / 0x80_0000, m % 0x80_0000);
    let s = 0x80_0000 + f;
    assert(m == e * 0x80_0000 + f);
    let w = m * 0x2000_0000 + 0x3800_0000_0000_0000;
    assert(w == (e + 896) * 0x10_0000_0000_0000 + f * 0x2000_0000);
    assert(w < 0x8000_0000_0000_0000);
    assert(wide as int % 0x8000_0000_0000_0000 == w);
    assert(w / 0x10_0000_0000_0000 == e + 896);
    assert(w % 0x10_0000_0000_0000 == f * 0x2000_0000);
    let q = 0x10_0000_0000_0000 + f * 0x2000_0000;
    assert(q == s * 0x2000_0000);
    lemma2_to64();
    let k = e - 30;
    let own = pow2((e - 1) as nat) as int;
    assert(single::span(m) == s * own);
    if k < 0 {
        let den = pow2((-k) as nat) as int;
        lemma_pow2_pos((-k) as nat);
        lemma_pow2_adds((e - 1) as nat, (-k) as nat);
        assert(own * den == 0x2000_0000);
        assert((s * own) * den == s * 0x2000_0000) by (nonlinear_arith)
            requires
                own * den == 0x2000_0000,
        ;
        single::rounding_respects_order(q, den, m);
    } else {
        let by = pow2(k as nat) as int;
        lemma_pow2_pos(k as nat);
        lemma_pow2_adds(29, k as nat);
        assert((s * 0x2000_0000) * by == s * own) by (nonlinear_arith)
            requires
                0x2000_0000 * by == own,
        ;
        assert(q * by >= 0) by (nonlinear_arith)
            requires
                q >= 0,
                by > 0,
        ;
        single::rounding_respects_order(q * by, 1, m);
    }
}

} // verus!
