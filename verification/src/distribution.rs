//! Probabilities: what a softmax hands out lies between zero and one, adds up
//! to one but for rounding, and is ordered as its logits are.

use crate::head::HeadView;
use crate::mlp;
use crate::mlp::ForwardCache;
use crate::postprocess;
use crate::single;
use crate::single::Single;
use vstd::arithmetic::power2::{
    lemma2_to64, lemma_pow2_adds, lemma_pow2_pos, lemma_pow2_strictly_increases, pow2,
};
use vstd::prelude::*;

verus! {

/// Bit patterns of one, two, three and four.
pub const ONE: u32 = 0x3f80_0000;

pub const TWO: u32 = 0x4000_0000;

pub const THREE: u32 = 0x4040_0000;

pub const FOUR: u32 = 0x4080_0000;

/// Whether a number lies between zero and one.
pub open spec fn unit(s: Single) -> bool {
    !s.negative() && s.magnitude() <= ONE
}

/// Whether a function answers as an exponential does: between zero and one for
/// arguments that are not positive, one for zero, and not with a number for
/// what is not a number.
pub open spec fn exponential<X: Fn(Single) -> Single>(exp: X) -> bool {
    forall|v: Single, a: Single| #[trigger]
        call_ensures(exp, (v,), a) ==> {
            &&& v.at_most(Single { bits: 0 }) ==> unit(a)
            &&& v.magnitude() == 0 ==> a.bits == ONE
            &&& v.nan() ==> a.nan()
        }
}

/// Whether four numbers are probabilities: each lies between zero and one, and
/// their sum is one, give or take two to the minus 21st. Values count in units
/// of two to the minus 149th.
pub open spec fn distribution(p: Seq<Single>) -> bool {
    let sum = p[0].value() + p[1].value() + p[2].value() + p[3].value();
    &&& p.len() == 4
    &&& forall|k: int| 0 <= k < 4 ==> unit(#[trigger] p[k])
    &&& pow2(149) - pow2(128) <= sum <= pow2(149) + pow2(128)
}

/// Below a power of two, neighbouring magnitudes are close.
pub(crate) proof fn lemma_gap(m: int, e: int)
    requires
        0 <= m,
        2 <= e,
        m + 1 <= e * 0x80_0000,
    ensures
        0 <= single::span(m + 1) - single::span(m) <= pow2((e - 2) as nat),
{
    let x = m / 0x80_0000;
    let f = m % 0x80_0000;
    lemma_pow2_pos((e - 2) as nat);
    if x == 0 {
        single::lemma_span(0, f);
        single::lemma_span(0, f + 1);
        lemma2_to64();
        assert(m == 0 * 0x80_0000 + f);
        let p = pow2(0) as int;
        assert((f + 1) * p - f * p == p) by (nonlinear_arith);
    } else {
        assert(m == (x - 1) * 0x80_0000 + (0x80_0000 + f));
        single::lemma_span(x - 1, 0x80_0000 + f);
        single::lemma_span(x - 1, 0x80_0000 + f + 1);
        let p = pow2((x - 1) as nat) as int;
        assert((0x80_0000 + f + 1) * p - (0x80_0000 + f) * p == p) by (nonlinear_arith);
        assert(p >= 0);
        if x - 1 < e - 2 {
            lemma_pow2_strictly_increases((x - 1) as nat, (e - 2) as nat);
        }
    }
}

/// A quotient that is at most a power of two is rounded by at most half of the
/// widest gap below it.
proof fn lemma_error(num: int, den: int, e: int) -> (m: int)
    requires
        num >= 0,
        den > 0,
        2 <= e <= 254,
        num <= single::span(e * 0x80_0000) * den,
    ensures
        m == single::rounded(num, den),
        0 <= m <= e * 0x80_0000,
        2 * (single::span(m) * den) <= 2 * num + pow2((e - 2) as nat) * den,
        2 * num <= 2 * (single::span(m) * den) + pow2((e - 2) as nat) * den,
{
    let m = single::rounded(num, den);
    let top = e * 0x80_0000;
    let g = pow2((e - 2) as nat) as int;
    single::rounded_is_nearest(num, den);
    single::rounding_respects_order(num, den, top);
    lemma_pow2_pos((e - 2) as nat);
    let s = single::span(m);
    assert(2 * (s * den) <= 2 * num + g * den) by {
        if m > 0 {
            lemma_gap(m - 1, e);
            let r = single::span(m - 1);
            assert(2 * (s * den) <= (r + s) * den + g * den) by (nonlinear_arith)
                requires
                    s - r <= g,
                    den > 0,
            ;
        } else {
            single::lemma_span(0, 0);
            assert(s * den == 0) by (nonlinear_arith)
                requires
                    s == 0,
            ;
            assert(g * den >= 0) by (nonlinear_arith)
                requires
                    g >= 0,
                    den > 0,
            ;
        }
    }
    assert(2 * num <= 2 * (s * den) + g * den) by {
        if m < top {
            lemma_gap(m, e);
            let r = single::span(m + 1);
            assert((s + r) * den <= 2 * (s * den) + g * den) by (nonlinear_arith)
                requires
                    r - s <= g,
                    den > 0,
            ;
        } else {
            assert(g * den >= 0) by (nonlinear_arith)
                requires
                    g >= 0,
                    den > 0,
            ;
        }
    }
    m
}

proof fn lemma_whole_numbers()
    ensures
        single::span(ONE as int) == pow2(149),
        single::span(TWO as int) == 2 * pow2(149),
        single::span(THREE as int) == 3 * pow2(149),
        single::span(FOUR as int) == 4 * pow2(149),
{
    lemma2_to64();
    lemma_pow2_adds(23, 126);
    lemma_pow2_adds(22, 127);
    lemma_pow2_adds(1, 126);
    lemma_pow2_adds(2, 126);
    single::lemma_span(126, 0x80_0000);
    single::lemma_span(127, 0x80_0000);
    single::lemma_span(127, 0xc0_0000);
    single::lemma_span(128, 0x80_0000);
}

/// Adding to a number that is not negative one between zero and one: the sum
/// is no less than either, stays below a bound, and is off by little.
proof fn lemma_added(a: Single, b: Single, cap: int) -> (c: Single)
    requires
        !a.negative(),
        a.magnitude() <= FOUR,
        unit(b),
        0 < cap <= FOUR,
        single::span(a.magnitude()) + single::span(b.magnitude()) <= single::span(cap),
    ensures
        c == a.sum(b),
        !c.negative(),
        c.magnitude() <= cap,
        a.magnitude() <= c.magnitude(),
        b.magnitude() <= c.magnitude(),
        single::span(a.magnitude()) + single::span(b.magnitude()) - pow2(126) <= single::span(
            c.magnitude(),
        ) <= single::span(a.magnitude()) + single::span(b.magnitude()) + pow2(126),
{
    let c = a.sum(b);
    let (sa, sb) = (single::span(a.magnitude()), single::span(b.magnitude()));
    let v = sa + sb;
    single::lemma_span(0, 0);
    lemma_pow2_pos(126);
    if a.magnitude() > 0 {
        single::span_increasing(0, a.magnitude());
    }
    if b.magnitude() > 0 {
        single::span_increasing(0, b.magnitude());
    }
    if cap < FOUR {
        single::span_increasing(cap, FOUR as int);
    }
    if v > 0 {
        lemma_pow2_adds(1, 126);
        lemma2_to64();
        let m = lemma_error(v, 1, 129);
        single::rounding_respects_order(v, 1, cap);
        single::rounding_respects_order(v, 1, a.magnitude());
        single::rounding_respects_order(v, 1, b.magnitude());
        assert(c == single::signed(false, m));
    }
    c
}

spec fn spans(e: Seq<Single>) -> int {
    single::span(e[0].magnitude()) + single::span(e[1].magnitude()) + single::span(
        e[2].magnitude(),
    ) + single::span(e[3].magnitude())
}

proof fn lemma_total(e: Seq<Single>, j: int) -> (t: Single)
    requires
        e.len() == 4,
        forall|k: int| 0 <= k < 4 ==> unit(#[trigger] e[k]),
        0 <= j < 4,
        e[j].bits == ONE,
    ensures
        t == postprocess::total(e),
        !t.negative(),
        ONE <= t.magnitude() <= FOUR,
        forall|k: int| 0 <= k < 4 ==> (#[trigger] e[k]).magnitude() <= t.magnitude(),
        spans(e) - 3 * pow2(126) <= single::span(t.magnitude()) <= spans(e) + 3 * pow2(126),
{
    lemma_whole_numbers();
    assert forall|k: int| 0 <= k < 4 implies single::span((#[trigger] e[k]).magnitude()) <= pow2(
        149,
    ) by {
        if e[k].magnitude() < ONE {
            single::span_increasing(e[k].magnitude(), ONE as int);
        }
    }
    let s1 = e.drop_last().drop_last().drop_last();
    let s2 = e.drop_last().drop_last();
    let s3 = e.drop_last();
    assert(s1.drop_last() =~= Seq::<Single>::empty());
    let start = Single { bits: postprocess::NEG_ZERO };
    assert(postprocess::total(s1.drop_last()) == start);
    single::lemma_span(0, 0);
    let first = start.sum(e[0]);
    assert(first == e[0]) by {
        let m = e[0].magnitude();
        if m > 0 {
            single::span_increasing(0, m);
            single::rounding_respects_order(single::span(m), 1, m);
        }
    }
    assert(postprocess::total(s1) == first);
    let second = lemma_added(first, e[1], TWO as int);
    assert(postprocess::total(s2) == second);
    if second.magnitude() < TWO {
        single::span_increasing(second.magnitude(), TWO as int);
    }
    let third = lemma_added(second, e[2], THREE as int);
    assert(postprocess::total(s3) == third);
    if third.magnitude() < THREE {
        single::span_increasing(third.magnitude(), THREE as int);
    }
    let t = lemma_added(third, e[3], FOUR as int);
    assert(postprocess::total(e) == t);
    assert(e[0].magnitude() <= t.magnitude());
    assert(e[1].magnitude() <= t.magnitude());
    assert(e[2].magnitude() <= t.magnitude());
    assert(e[3].magnitude() <= t.magnitude());
    t
}

/// The share of a weight in a sum that is no less and at least one.
proof fn lemma_share(a: Single, t: Single) -> (q: Single)
    requires
        unit(a),
        !t.negative(),
        ONE <= t.magnitude() <= FOUR,
        a.magnitude() <= t.magnitude(),
    ensures
        q == a.quotient(t),
        unit(q),
        ({
            let (num, den) = (
                single::span(a.magnitude()) * pow2(149),
                single::span(t.magnitude()),
            );
            let got = single::span(q.magnitude()) * den;
            2 * num - pow2(125) * den <= 2 * got <= 2 * num + pow2(125) * den
        }),
{
    let q = a.quotient(t);
    let (sa, den) = (single::span(a.magnitude()), single::span(t.magnitude()));
    let u = pow2(149) as int;
    let num = sa * u;
    lemma_whole_numbers();
    single::lemma_span(0, 0);
    lemma_pow2_pos(149);
    lemma_pow2_pos(125);
    single::span_increasing(0, t.magnitude());
    if a.magnitude() == 0 {
        assert(num == 0) by (nonlinear_arith)
            requires
                num == sa * u,
                sa == 0,
        ;
        assert(single::span(q.magnitude()) * den == 0) by (nonlinear_arith)
            requires
                single::span(q.magnitude()) == 0,
        ;
        assert(pow2(125) * den >= 0) by (nonlinear_arith)
            requires
                pow2(125) >= 0,
                den > 0,
        ;
    } else {
        single::span_increasing(0, a.magnitude());
        if a.magnitude() < t.magnitude() {
            single::span_increasing(a.magnitude(), t.magnitude());
        }
        assert(0 <= num <= u * den) by (nonlinear_arith)
            requires
                num == sa * u,
                0 <= sa <= den,
                u > 0,
        ;
        let m = lemma_error(num, den, 127);
        assert(q == single::signed(false, m));
    }
    q
}

/// Shares of weights in their own sum, each off by little, add up to about one.
proof fn lemma_shares(q: int, e: int, d: int, u: int, x: int)
    requires
        x > 0,
        u > 0,
        d >= u,
        e - 3 * x <= d <= e + 3 * x,
        2 * (e * u) - 2 * (x * d) <= 2 * (q * d) <= 2 * (e * u) + 2 * (x * d),
    ensures
        u - 4 * x <= q <= u + 4 * x,
{
    assert(q * d <= (u + 4 * x) * d) by (nonlinear_arith)
        requires
            2 * (q * d) <= 2 * (e * u) + 2 * (x * d),
            e <= d + 3 * x,
            0 < u <= d,
            x > 0,
    ;
    assert((u - 4 * x) * d <= q * d) by (nonlinear_arith)
        requires
            2 * (e * u) - 2 * (x * d) <= 2 * (q * d),
            d - 3 * x <= e,
            0 < u <= d,
            x > 0,
    ;
    assert(q <= u + 4 * x) by (nonlinear_arith)
        requires
            q * d <= (u + 4 * x) * d,
            d > 0,
    ;
    assert(u - 4 * x <= q) by (nonlinear_arith)
        requires
            (u - 4 * x) * d <= q * d,
            d > 0,
    ;
}

/// The largest of some numbers is one of them, and none is above it.
proof fn lemma_peak(s: Seq<Single>) -> (j: int)
    requires
        s.len() > 0,
        postprocess::numbers(s),
    ensures
        0 <= j < s.len(),
        postprocess::peak(s) == s[j],
        forall|k: int| 0 <= k < s.len() ==> (#[trigger] s[k]).at_most(s[j]),
    decreases s.len(),
{
    let rest = s.drop_last();
    let n = s.len() - 1;
    assert(!s[n].nan());
    if rest.len() == 0 {
        let low = Single { bits: postprocess::NEG_INFINITY };
        assert(postprocess::peak(rest) == low);
        assert(postprocess::peak(s) == s[n]);
        n
    } else {
        assert forall|k: int| 0 <= k < rest.len() implies !(#[trigger] rest[k]).nan() by {
            assert(!s[k].nan());
        }
        let i = lemma_peak(rest);
        assert(rest[i] == s[i]);
        let j = if rest[i].below(s[n]) {
            n
        } else {
            i
        };
        assert forall|k: int| 0 <= k < s.len() implies (#[trigger] s[k]).at_most(s[j]) by {
            if k < n {
                assert(rest[k].at_most(rest[i]));
            }
        }
        j
    }
}

/// A number less one that is no less is not positive, where it is a number.
proof fn lemma_shifted(a: Single, b: Single)
    requires
        a.at_most(b),
    ensures
        a.difference(b).nan() || a.difference(b).at_most(Single { bits: 0 }),
{
    if !a.infinite() && !b.infinite() {
        single::values_keep_order(a, b);
        let v = a.value() - b.value();
        assert(b.negated().value() == -b.value());
        if v != 0 {
            single::rounded_is_nearest(single::abs(v), 1);
        }
    }
}

proof fn lemma_cancelled(a: Single)
    requires
        !a.nan(),
        !a.infinite(),
    ensures
        a.difference(a).magnitude() == 0,
{
    assert(a.negated().value() == -a.value());
}

/// What is no number stays none in a sum.
proof fn lemma_total_nan(e: Seq<Single>, k: int)
    requires
        0 <= k < e.len(),
        e[k].nan(),
    ensures
        postprocess::total(e).nan(),
    decreases e.len(),
{
    if k < e.len() - 1 {
        assert(e.drop_last()[k] == e[k]);
        lemma_total_nan(e.drop_last(), k);
    }
}

proof fn lemma_quarters(p: Seq<Single>)
    requires
        p.len() == 4,
        forall|k: int| 0 <= k < 4 ==> (#[trigger] p[k]).bits == postprocess::QUARTER,
    ensures
        distribution(p),
{
    lemma_pow2_adds(23, 124);
    lemma_pow2_adds(2, 147);
    lemma2_to64();
    lemma_pow2_pos(128);
    single::lemma_span(124, 0x80_0000);
    assert(p[0].value() == pow2(147));
    assert(p[1].value() == pow2(147));
    assert(p[2].value() == pow2(147));
    assert(p[3].value() == pow2(147));
}

proof fn lemma_normalized(e: Seq<Single>, j: int, p: Seq<Single>)
    requires
        e.len() == 4,
        forall|k: int| 0 <= k < 4 ==> unit(#[trigger] e[k]),
        0 <= j < 4,
        e[j].bits == ONE,
        p.len() == 4,
        postprocess::softmaxed(e, p),
    ensures
        distribution(p),
{
    let t = lemma_total(e, j);
    lemma_whole_numbers();
    let (u, d, x) = (pow2(149) as int, single::span(t.magnitude()), pow2(126) as int);
    if t.magnitude() > ONE {
        single::span_increasing(ONE as int, t.magnitude());
    }
    assert(postprocess::usable(t));
    let q0 = lemma_share(e[0], t);
    let q1 = lemma_share(e[1], t);
    let q2 = lemma_share(e[2], t);
    let q3 = lemma_share(e[3], t);
    assert(p[0] == q0 && p[1] == q1 && p[2] == q2 && p[3] == q3);
    let (e0, e1, e2, e3) = (
        single::span(e[0].magnitude()),
        single::span(e[1].magnitude()),
        single::span(e[2].magnitude()),
        single::span(e[3].magnitude()),
    );
    let (s0, s1, s2, s3) = (
        single::span(q0.magnitude()),
        single::span(q1.magnitude()),
        single::span(q2.magnitude()),
        single::span(q3.magnitude()),
    );
    lemma_pow2_adds(1, 125);
    lemma_pow2_adds(2, 126);
    lemma2_to64();
    lemma_pow2_pos(126);
    lemma_pow2_pos(149);
    let h = pow2(125) as int;
    assert((e0 + e1 + e2 + e3) * u == e0 * u + e1 * u + e2 * u + e3 * u) by (nonlinear_arith);
    assert((s0 + s1 + s2 + s3) * d == s0 * d + s1 * d + s2 * d + s3 * d) by (nonlinear_arith);
    assert(x * d == 2 * (h * d)) by (nonlinear_arith)
        requires
            x == 2 * h,
    ;
    lemma_shares(s0 + s1 + s2 + s3, e0 + e1 + e2 + e3, d, u, x);
}

/// A softmax of four logits, whatever they are, hands out probabilities, with
/// any function that answers as an exponential does.
pub proof fn softmax_is_a_distribution<X: Fn(Single) -> Single>(
    exp: X,
    logits: Seq<Single>,
    probs: Seq<Single>,
)
    requires
        exponential(exp),
        logits.len() == 4,
        probs.len() == 4,
        postprocess::softmax_of(exp, logits, probs),
    ensures
        distribution(probs),
{
    let e = choose|e: Seq<Single>| #[trigger]
        postprocess::answered(exp, logits, e) && postprocess::softmaxed(e, probs);
    let top = postprocess::peak(logits);
    if exists|k: int| 0 <= k < 4 && (#[trigger] logits[k]).difference(top).nan() {
        let k = choose|k: int| 0 <= k < 4 && (#[trigger] logits[k]).difference(top).nan();
        assert(call_ensures(exp, (logits[k].difference(top),), e[k]));
        lemma_total_nan(e, k);
        lemma_quarters(probs);
    } else {
        assert forall|k: int| 0 <= k < logits.len() implies !(#[trigger] logits[k]).nan() by {
            assert(!logits[k].difference(top).nan());
        }
        let j = lemma_peak(logits);
        assert forall|k: int| 0 <= k < 4 implies unit(#[trigger] e[k]) by {
            assert(call_ensures(exp, (logits[k].difference(top),), e[k]));
            assert(logits[k].at_most(logits[j]));
            lemma_shifted(logits[k], top);
        }
        assert(!logits[j].difference(top).nan());
        lemma_cancelled(logits[j]);
        assert(call_ensures(exp, (logits[j].difference(top),), e[j]));
        lemma_normalized(e, j, probs);
    }
}

/// Whether the answers of a function rise with its arguments, or stay.
pub open spec fn rising<X: Fn(Single) -> Single>(exp: X) -> bool {
    forall|v: Single, a: Single, w: Single, b: Single|
        #[trigger] call_ensures(exp, (v,), a) && #[trigger] call_ensures(exp, (w,), b)
            && v.at_most(w) ==> a.at_most(b)
}

/// Dividing by the same positive number keeps the order.
proof fn lemma_shares_keep_order(a: Single, b: Single, t: Single)
    requires
        unit(a),
        unit(b),
        a.at_most(b),
        postprocess::usable(t),
    ensures
        a.quotient(t).at_most(b.quotient(t)),
{
    let (x, y) = (a.magnitude(), b.magnitude());
    let d = single::span(t.magnitude());
    let u = pow2(149) as int;
    single::lemma_span(0, 0);
    single::span_increasing(0, t.magnitude());
    lemma_pow2_pos(149);
    if x > 0 {
        single::span_increasing(0, x);
    }
    if x < y {
        single::span_increasing(x, y);
    }
    let (v, w) = (single::span(x) * u, single::span(y) * u);
    assert(0 <= v <= w) by (nonlinear_arith)
        requires
            v == single::span(x) * u,
            w == single::span(y) * u,
            0 <= single::span(x) <= single::span(y),
            u > 0,
    ;
    single::rounding_keeps_order(v, w, d);
}

/// A softmax keeps the order of the logits, whatever and however many they are,
/// with any exponential that rises.
pub proof fn softmax_keeps_order<X: Fn(Single) -> Single>(
    exp: X,
    logits: Seq<Single>,
    probs: Seq<Single>,
    i: int,
    j: int,
)
    requires
        exponential(exp),
        rising(exp),
        postprocess::softmax_of(exp, logits, probs),
        0 <= i < 4,
        0 <= j < 4,
        i < logits.len(),
        j < logits.len(),
        logits[i].at_most(logits[j]),
    ensures
        probs[i].at_most(probs[j]),
{
    let e = choose|e: Seq<Single>| #[trigger]
        postprocess::answered(exp, logits, e) && postprocess::softmaxed(e, probs);
    let top = postprocess::peak(logits);
    let sum = postprocess::total(e);
    if postprocess::usable(sum) {
        assert forall|k: int| 0 <= k < logits.len() implies !(#[trigger] logits[k]).difference(
            top,
        ).nan() by {
            if logits[k].difference(top).nan() {
                assert(call_ensures(exp, (logits[k].difference(top),), e[k]));
                lemma_total_nan(e, k);
            }
        }
        assert forall|k: int| 0 <= k < logits.len() implies !(#[trigger] logits[k]).nan() by {
            assert(!logits[k].difference(top).nan());
        }
        let p = lemma_peak(logits);
        assert forall|k: int| 0 <= k < logits.len() implies unit(#[trigger] e[k]) by {
            assert(call_ensures(exp, (logits[k].difference(top),), e[k]));
            assert(logits[k].at_most(logits[p]));
            assert(!logits[k].difference(top).nan());
            lemma_shifted(logits[k], top);
        }
        assert(!logits[i].difference(top).nan());
        assert(!logits[j].difference(top).nan());
        single::differences_keep_order(logits[i], logits[j], top);
        assert(call_ensures(exp, (logits[i].difference(top),), e[i]));
        assert(call_ensures(exp, (logits[j].difference(top),), e[j]));
        assert(unit(e[i]) && unit(e[j]));
        lemma_shares_keep_order(e[i], e[j], sum);
    }
}

/// A classification, by whatever head of whatever hidden state, comes to
/// probabilities.
pub proof fn classifications_are_distributions<
    T: Fn(Single) -> Single,
    X: Fn(Single) -> Single,
>(
    head: HeadView,
    hidden: Seq<Single>,
    prev_tier: Option<u8>,
    tanh: T,
    exp: X,
    probs: [Single; 4],
)
    requires
        exponential(exp),
        head.classifies(hidden, prev_tier, tanh, exp, probs),
    ensures
        distribution(probs@),
{
    let x = head.input_layer(hidden, prev_tier);
    let c = choose|c: ForwardCache| #[trigger]
        mlp::passed(x, head.weights, tanh, exp, c) && c.probs == probs;
    softmax_is_a_distribution(exp, mlp::logits(head.weights, c.y@), c.probs@);
}

} // verus!
