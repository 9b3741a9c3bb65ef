//! Post-processing rule stack: from the four tier probabilities to the final
//! routing decision, by way of the under-routing safety upgrade and the
//! sticky tier.

use crate::config::RouterConfig;
use crate::single::Single;
use crate::tier::RouteClass;
use vstd::prelude::*;

verus! {

/// Bit pattern of one.
pub const ONE: u32 = 0x3f80_0000;

/// Bit pattern of zero.
pub const ZERO: u32 = 0;

/// Bit pattern of negative zero, which added to a number gives that number.
pub const NEG_ZERO: u32 = 0x8000_0000;

/// Bit pattern of 0.25.
pub const QUARTER: u32 = 0x3e80_0000;

/// Bit pattern of negative infinity.
pub const NEG_INFINITY: u32 = 0xff80_0000;

/// Where a routing decision came from.
#[derive(Debug, Clone, Copy, PartialEq, Eq, Structural)]
pub enum DecisionSource {
    /// Rule short-circuit (trivial acknowledgment).
    TrivialAck,
    /// Model classification probabilities.
    Model,
    /// Fallback (classification unavailable or failed).
    Fallback,
}

/// Final routing decision produced by the smart router.
#[derive(Debug, Clone, Copy)]
pub struct RoutingDecision {
    pub route: RouteClass,
    pub confidence: Single,
    pub probabilities: [Single; 4],
    /// Difference between the largest and the second largest probability.
    pub margin: Single,
    pub sticky_applied: bool,
    pub safety_applied: bool,
    pub source: DecisionSource,
}

/// Position of the largest of the first `n` items; of equal items the last.
pub open spec fn top(p: Seq<Single>, n: int) -> int
    decreases n,
{
    if n <= 1 {
        0
    } else {
        let best = top(p, n - 1);
        if p[n - 1].below(p[best]) {
            best
        } else {
            n - 1
        }
    }
}

/// `s`, in descending order, with `x` put behind everything that is not
/// below it.
pub open spec fn placed(s: Seq<Single>, x: Single) -> Seq<Single>
    decreases s.len(),
{
    if s.len() > 0 && s.last().below(x) {
        placed(s.drop_last(), x).push(s.last())
    } else {
        s.push(x)
    }
}

/// The items of `s` in descending order; equal items keep their order.
pub open spec fn ranked(s: Seq<Single>) -> Seq<Single>
    decreases s.len(),
{
    if s.len() == 0 {
        s
    } else {
        placed(ranked(s.drop_last()), s.last())
    }
}

/// The tier with the largest probability.
pub open spec fn likeliest(p: Seq<Single>) -> RouteClass {
    match RouteClass::at_rank(top(p, 4)) {
        Some(tier) => tier,
        None => RouteClass::R1,
    }
}

/// The probability that the request needs R2 or R3.
pub open spec fn heavy(p: Seq<Single>) -> Single {
    p[2].sum(p[3])
}

/// Whether the safety upgrade applies.
pub open spec fn unsafe_tier(p: Seq<Single>, config: RouterConfig) -> bool {
    likeliest(p).rank() <= 1 && config.safety_threshold.below(heavy(p))
}

/// The tier after the safety upgrade.
pub open spec fn safe_tier(p: Seq<Single>, config: RouterConfig) -> RouteClass {
    if unsafe_tier(p, config) {
        RouteClass::R2
    } else {
        likeliest(p)
    }
}

/// Whether the sticky rule lifts the decision to the previous tier.
pub open spec fn sticks(
    p: Seq<Single>,
    prev_tier: Option<RouteClass>,
    is_short: bool,
    config: RouterConfig,
) -> bool {
    config.sticky_enabled && is_short && match prev_tier {
        Some(last) => safe_tier(p, config).rank() < last.rank(),
        None => false,
    }
}

/// The tier a request is routed to.
pub open spec fn routed_tier(
    p: Seq<Single>,
    prev_tier: Option<RouteClass>,
    is_short: bool,
    config: RouterConfig,
) -> RouteClass {
    if sticks(p, prev_tier, is_short, config) {
        prev_tier->0
    } else {
        safe_tier(p, config)
    }
}

/// The decision that the rule stack makes of class probabilities.
pub open spec fn decided(
    p: [Single; 4],
    prev_tier: Option<RouteClass>,
    is_short: bool,
    config: RouterConfig,
) -> RoutingDecision {
    RoutingDecision {
        route: routed_tier(p@, prev_tier, is_short, config),
        confidence: if unsafe_tier(p@, config) {
            heavy(p@)
        } else {
            p@[top(p@, 4)]
        },
        probabilities: p,
        margin: ranked(p@)[0].difference(ranked(p@)[1]),
        sticky_applied: sticks(p@, prev_tier, is_short, config),
        safety_applied: unsafe_tier(p@, config),
        source: DecisionSource::Model,
    }
}

/// Puts `x` in its place among items in descending order.
fn place(items: &mut Vec<Single>, x: Single)
    requires
        old(items).len() < usize::MAX,
    ensures
        final(items)@ == placed(old(items)@, x),
{
    let mut i: usize = items.len();
    let ghost s = items@;
    assert(s.take(i as int) =~= s);
    assert(placed(s, x) =~= placed(s.take(i as int), x) + s.skip(i as int));
    while i > 0 && items[i - 1].less(x)
        invariant
            items@ == s,
            i <= items.len(),
            placed(s, x) == placed(s.take(i as int), x) + s.skip(i as int),
        decreases i,
    {
        proof {
            let part = s.take(i as int);
            assert(part.drop_last() =~= s.take(i - 1));
            assert(placed(part, x) == placed(s.take(i - 1), x).push(s[i - 1]));
            assert(placed(s, x) =~= placed(s.take(i - 1), x) + s.skip(i - 1));
        }
        i -= 1;
    }
    assert(placed(s.take(i as int), x) == s.take(i as int).push(x));
    items.insert(i, x);
    assert(items@ =~= placed(s, x));
}

/// Position of the largest of four numbers; of equal ones the last.
pub fn argmax(p: &[Single; 4]) -> (best: usize)
    ensures
        best == top(p@, 4),
        best < 4,
{
    let mut best: usize = 0;
    let mut i: usize = 1;
    while i < 4
        invariant
            1 <= i <= 4,
            best < 4,
            best == top(p@, i as int),
        decreases 4 - i,
    {
        if !p[i].less(p[best]) {
            best = i;
        }
        i += 1;
    }
    best
}

/// Applies the rule stack to raw class probabilities.
///
/// 1. Under-routing safety: where the likeliest tier is R0 or R1 but
///    `P(R2)+P(R3)` exceeds the threshold, the request goes to R2.
/// 2. Sticky tier: a short message is never routed below the previous turn's
///    tier.
pub fn postprocess(
    probs: &[Single; 4],
    prev_tier: Option<RouteClass>,
    is_short: bool,
    config: &RouterConfig,
) -> (decision: RoutingDecision)
    ensures
        decision == decided(*probs, prev_tier, is_short, *config),
{
    let best = argmax(probs);
    let mut order: Vec<Single> = Vec::new();
    let mut i: usize = 0;
    while i < 4
        invariant
            i <= 4,
            order@ == ranked(probs@.take(i as int)),
            order.len() == i,
        decreases 4 - i,
    {
        proof {
            assert(probs@.take(i + 1).drop_last() =~= probs@.take(i as int));
            lemma_placed_len(order@, probs@[i as int]);
        }
        place(&mut order, probs[i]);
        i += 1;
    }
    assert(probs@.take(4) =~= probs@);
    let mut route = match RouteClass::from_index(best) {
        Some(tier) => tier,
        None => RouteClass::R1,
    };
    let mut confidence = probs[best];
    let margin = order[0].minus(order[1]);
    let mut sticky_applied = false;
    let mut safety_applied = false;
    let heavy_prob = probs[2].plus(probs[3]);
    if route.index() <= 1 && config.safety_threshold.less(heavy_prob) {
        route = RouteClass::R2;
        safety_applied = true;
        confidence = heavy_prob;
    }
    if config.sticky_enabled && is_short {
        if let Some(last) = prev_tier {
            if route < last {
                route = last;
                sticky_applied = true;
            }
        }
    }
    RoutingDecision {
        route,
        confidence,
        probabilities: *probs,
        margin,
        sticky_applied,
        safety_applied,
        source: DecisionSource::Model,
    }
}

proof fn lemma_placed_len(s: Seq<Single>, x: Single)
    ensures
        placed(s, x).len() == s.len() + 1,
    decreases s.len(),
{
    if s.len() > 0 && s.last().below(x) {
        lemma_placed_len(s.drop_last(), x);
    }
}

/// The decision for an acknowledgment.
pub open spec fn trivial_decision() -> RoutingDecision {
    RoutingDecision {
        route: RouteClass::R0,
        confidence: Single { bits: ONE },
        probabilities: [
            Single { bits: ONE },
            Single { bits: ZERO },
            Single { bits: ZERO },
            Single { bits: ZERO },
        ],
        margin: Single { bits: ONE },
        sticky_applied: false,
        safety_applied: false,
        source: DecisionSource::TrivialAck,
    }
}

/// The decision where classification is unavailable.
pub open spec fn degraded_decision() -> RoutingDecision {
    RoutingDecision {
        route: RouteClass::R1,
        confidence: Single { bits: ZERO },
        probabilities: [
            Single { bits: ZERO },
            Single { bits: ZERO },
            Single { bits: ZERO },
            Single { bits: ZERO },
        ],
        margin: Single { bits: ZERO },
        sticky_applied: false,
        safety_applied: false,
        source: DecisionSource::Fallback,
    }
}

/// Builds the decision for an acknowledgment (R0 with full confidence).
pub fn trivial_ack_decision() -> (decision: RoutingDecision)
    ensures
        decision == trivial_decision(),
{
    RoutingDecision {
        route: RouteClass::R0,
        confidence: Single { bits: ONE },
        probabilities: [
            Single { bits: ONE },
            Single { bits: ZERO },
            Single { bits: ZERO },
            Single { bits: ZERO },
        ],
        margin: Single { bits: ONE },
        sticky_applied: false,
        safety_applied: false,
        source: DecisionSource::TrivialAck,
    }
}

/// Builds the decision for unavailable classification.
pub fn fallback_decision() -> (decision: RoutingDecision)
    ensures
        decision == degraded_decision(),
{
    RoutingDecision {
        route: RouteClass::R1,
        confidence: Single { bits: ZERO },
        probabilities: [
            Single { bits: ZERO },
            Single { bits: ZERO },
            Single { bits: ZERO },
            Single { bits: ZERO },
        ],
        margin: Single { bits: ZERO },
        sticky_applied: false,
        safety_applied: false,
        source: DecisionSource::Fallback,
    }
}

/// The largest of the items, negative infinity where there are none; items
/// that are not numbers are passed over.
pub open spec fn peak(s: Seq<Single>) -> Single
    decreases s.len(),
{
    if s.len() == 0 {
        Single { bits: NEG_INFINITY }
    } else {
        peak(s.drop_last()).larger(s.last())
    }
}

/// The sum of the items, added from the first to the last.
pub open spec fn total(s: Seq<Single>) -> Single
    decreases s.len(),
{
    if s.len() == 0 {
        Single { bits: NEG_ZERO }
    } else {
        total(s.drop_last()).sum(s.last())
    }
}

/// Adds the items from the first to the last.
pub fn sum_of(items: &[Single]) -> (res: Single)
    ensures
        res == total(items@),
{
    let mut sum = Single { bits: NEG_ZERO };
    let mut i: usize = 0;
    while i < items.len()
        invariant
            i <= items.len(),
            sum == total(items@.take(i as int)),
        decreases items.len() - i,
    {
        sum = sum.plus(items[i]);
        assert(items@.take(i + 1).drop_last() =~= items@.take(i as int));
        i += 1;
    }
    assert(items@.take(items.len() as int) =~= items@);
    sum
}

/// First half of the softmax: every logit, less the largest one. The
/// exponential of each of these is at most one.
pub fn softmax_shift(logits: &[Single]) -> (out: Vec<Single>)
    ensures
        out@ == logits@.map_values(|l: Single| l.difference(peak(logits@))),
{
    let mut max = Single { bits: NEG_INFINITY };
    let mut i: usize = 0;
    while i < logits.len()
        invariant
            i <= logits.len(),
            max == peak(logits@.take(i as int)),
        decreases logits.len() - i,
    {
        max = max.max(logits[i]);
        assert(logits@.take(i + 1).drop_last() =~= logits@.take(i as int));
        i += 1;
    }
    assert(logits@.take(logits.len() as int) =~= logits@);
    let mut out: Vec<Single> = Vec::new();
    let mut j: usize = 0;
    while j < logits.len()
        invariant
            j <= logits.len(),
            max == peak(logits@),
            out@ == logits@.take(j as int).map_values(|l: Single| l.difference(peak(logits@))),
        decreases logits.len() - j,
    {
        out.push(logits[j].minus(max));
        j += 1;
        assert(out@ =~= logits@.take(j as int).map_values(
            |l: Single| l.difference(peak(logits@)),
        ));
    }
    assert(logits@.take(logits.len() as int) =~= logits@);
    out
}

/// The share of item `i` in a sum, zero where there is no such item.
pub open spec fn share(exps: Seq<Single>, i: int) -> Single {
    if i < exps.len() {
        exps[i].quotient(total(exps))
    } else {
        Single { bits: ZERO }
    }
}

/// Whether a sum of weights can be divided by.
pub open spec fn usable(sum: Single) -> bool {
    !sum.at_most(Single { bits: ZERO }) && !sum.nan() && !sum.infinite()
}

/// Second half of the softmax: each of the first four weights divided by the
/// sum of all of them, or a quarter each where that sum is not a positive
/// finite number.
pub fn softmax_normalize(exps: &[Single]) -> (out: [Single; 4])
    ensures
        usable(total(exps@)) ==> forall|i: int|
            0 <= i < 4 ==> #[trigger] out@[i] == share(exps@, i),
        !usable(total(exps@)) ==> forall|i: int|
            0 <= i < 4 ==> (#[trigger] out@[i]).bits == QUARTER,
{
    let sum = sum_of(exps);
    if sum.less_or_equal(Single { bits: ZERO }) || !sum.is_finite() {
        let q = Single { bits: QUARTER };
        return [q, q, q, q];
    }
    let z = Single { bits: ZERO };
    [
        if exps.len() > 0 { exps[0].over(sum) } else { z },
        if exps.len() > 1 { exps[1].over(sum) } else { z },
        if exps.len() > 2 { exps[2].over(sum) } else { z },
        if exps.len() > 3 { exps[3].over(sum) } else { z },
    ]
}

/// Whether `probs` is the softmax that has the exponentials `exps`.
pub open spec fn softmaxed(exps: Seq<Single>, probs: Seq<Single>) -> bool {
    forall|k: int|
        0 <= k < 4 ==> #[trigger] probs[k] == if usable(total(exps)) {
            share(exps, k)
        } else {
            Single { bits: QUARTER }
        }
}

/// Whether `exps` are answers of the exponential for logits, each less the
/// largest one.
pub open spec fn answered<X: Fn(Single) -> Single>(
    exp: X,
    logits: Seq<Single>,
    exps: Seq<Single>,
) -> bool {
    &&& exps.len() == logits.len()
    &&& forall|k: int|
        0 <= k < exps.len() ==> call_ensures(
            exp,
            (logits[k].difference(peak(logits)),),
            #[trigger] exps[k],
        )
}

/// Whether `probs` is a softmax of logits, for some answers of the exponential.
pub open spec fn softmax_of<X: Fn(Single) -> Single>(
    exp: X,
    logits: Seq<Single>,
    probs: Seq<Single>,
) -> bool {
    exists|exps: Seq<Single>| #[trigger] answered(exp, logits, exps) && softmaxed(exps, probs)
}

/// The softmax of logits, with an exponential: the first four shares of it, or
/// a quarter each where they cannot be computed.
pub fn softmax<X: Fn(Single) -> Single>(logits: &[Single], exp: &X) -> (probs: [Single; 4])
    requires
        forall|v: Single| call_requires(*exp, (v,)),
    ensures
        softmax_of(*exp, logits@, probs@),
{
    let shifted = softmax_shift(logits);
    let mut exps: Vec<Single> = Vec::new();
    let mut k: usize = 0;
    while k < shifted.len()
        invariant
            k <= shifted.len(),
            exps.len() == k,
            forall|v: Single| call_requires(*exp, (v,)),
            forall|i: int| 0 <= i < k ==> call_ensures(*exp, (shifted@[i],), #[trigger] exps@[i]),
        decreases shifted.len() - k,
    {
        exps.push(exp(shifted[k]));
        k += 1;
    }
    let probs = softmax_normalize(&exps);
    proof {
        assert(answered(*exp, logits@, exps@));
        assert(softmaxed(exps@, probs@));
    }
    probs
}

/// Whether every item is a number.
pub open spec fn numbers(s: Seq<Single>) -> bool {
    forall|i: int| 0 <= i < s.len() ==> !(#[trigger] s[i]).nan()
}

/// Under the sticky rule a short message is never routed below the previous
/// turn's tier.
pub proof fn sticky_floor(
    p: Seq<Single>,
    last: RouteClass,
    config: RouterConfig,
)
    requires
        config.sticky_enabled,
    ensures
        routed_tier(p, Some(last), true, config).rank() >= last.rank(),
{
}

/// Neither rule ever lowers a tier: the safety upgrade goes up from the
/// likeliest tier, and the sticky rule goes up from there.
pub proof fn rules_only_lift(
    p: Seq<Single>,
    prev_tier: Option<RouteClass>,
    is_short: bool,
    config: RouterConfig,
)
    ensures
        likeliest(p).rank() <= safe_tier(p, config).rank(),
        safe_tier(p, config).rank() <= routed_tier(p, prev_tier, is_short, config).rank(),
{
    lemma_top_range(p, 4);
}

/// A request whose probability of needing R2 or R3 exceeds the safety
/// threshold is routed to R2 or R3.
pub proof fn heavy_requests_go_high(
    p: Seq<Single>,
    prev_tier: Option<RouteClass>,
    is_short: bool,
    config: RouterConfig,
)
    requires
        config.safety_threshold.below(heavy(p)),
    ensures
        routed_tier(p, prev_tier, is_short, config).rank() >= 2,
{
    rules_only_lift(p, prev_tier, is_short, config);
}

/// A long message, or one without a previous turn, is routed by the
/// probabilities alone.
pub proof fn no_floor_without_context(
    p: Seq<Single>,
    prev_tier: Option<RouteClass>,
    is_short: bool,
    config: RouterConfig,
)
    requires
        prev_tier is None || !is_short || !config.sticky_enabled,
    ensures
        routed_tier(p, prev_tier, is_short, config) == safe_tier(p, config),
        !sticks(p, prev_tier, is_short, config),
{
}

proof fn lemma_top_range(p: Seq<Single>, n: int)
    requires
        n >= 1,
    ensures
        0 <= top(p, n) < n,
    decreases n,
{
    if n > 1 {
        lemma_top_range(p, n - 1);
    }
}

/// Of numbers, the chosen position holds a largest one, and every later
/// position holds a strictly smaller one.
pub proof fn top_is_largest(p: Seq<Single>, n: int)
    requires
        1 <= n <= p.len(),
        numbers(p),
    ensures
        0 <= top(p, n) < n,
        forall|i: int| 0 <= i < n ==> (#[trigger] p[i]).at_most(p[top(p, n)]),
        forall|i: int| top(p, n) < i < n ==> (#[trigger] p[i]).below(p[top(p, n)]),
    decreases n,
{
    if n > 1 {
        top_is_largest(p, n - 1);
    }
}

/// Whether the items descend.
pub open spec fn descending(s: Seq<Single>) -> bool {
    forall|i: int, j: int| 0 <= i <= j < s.len() ==> (#[trigger] s[j]).at_most(#[trigger] s[i])
}

proof fn lemma_placed(s: Seq<Single>, x: Single)
    requires
        numbers(s),
        descending(s),
        !x.nan(),
    ensures
        numbers(placed(s, x)),
        descending(placed(s, x)),
        placed(s, x).to_multiset() == s.to_multiset().insert(x),
        placed(s, x).len() == s.len() + 1,
    decreases s.len(),
{
    broadcast use vstd::seq_lib::group_to_multiset_ensures;

    lemma_placed_len(s, x);
    if s.len() > 0 && s.last().below(x) {
        let front = s.drop_last();
        lemma_placed(front, x);
        let mid = placed(front, x);
        assert(s =~= front.push(s.last()));
        assert(placed(s, x).to_multiset() =~= s.to_multiset().insert(x));
        assert forall|i: int| 0 <= i < mid.len() implies s.last().at_most(#[trigger] mid[i]) by {
            assert(mid.to_multiset().contains(mid[i]));
            assert(front.to_multiset().insert(x).contains(mid[i]));
            if mid[i] != x {
                assert(front.to_multiset().contains(mid[i]));
                assert(front.contains(mid[i]));
            }
        }
    } else {
        assert(placed(s, x) =~= s.push(x));
    }
}

/// Of numbers, the ranking is a descending rearrangement: its first item is
/// the largest and its second the largest of the others, so that the margin
/// of a decision is their difference.
pub proof fn ranked_descends(s: Seq<Single>)
    requires
        numbers(s),
    ensures
        numbers(ranked(s)),
        descending(ranked(s)),
        ranked(s).to_multiset() == s.to_multiset(),
        ranked(s).len() == s.len(),
    decreases s.len(),
{
    broadcast use vstd::seq_lib::group_to_multiset_ensures;

    if s.len() > 0 {
        let front = s.drop_last();
        ranked_descends(front);
        lemma_placed(ranked(front), s.last());
        assert(s =~= front.push(s.last()));
    }
}

/// Whether the item at `k` is the largest of all, and the last of those equal
/// to it.
pub open spec fn leads(p: Seq<Single>, k: int) -> bool {
    &&& 0 <= k < p.len()
    &&& forall|i: int| 0 <= i < p.len() ==> (#[trigger] p[i]).at_most(p[k])
    &&& forall|i: int| k < i < p.len() ==> (#[trigger] p[i]).below(p[k])
}

/// Of numbers, exactly one leads.
pub proof fn one_leads(p: Seq<Single>, k: int)
    requires
        p.len() == 4,
        numbers(p),
    ensures
        leads(p, k) <==> k == top(p, 4),
{
    top_is_largest(p, 4);
    let best = top(p, 4);
    if leads(p, k) && k != best {
        assert(p[k].at_most(p[best]));
        assert(p[best].at_most(p[k]));
        if k < best {
            assert(p[best].below(p[k]));
        } else {
            assert(p[k].below(p[best]));
        }
    }
}

/// Where neither rule applies, a request goes to the tier whose probability
/// leads, with that probability as the confidence.
pub proof fn likeliest_tier_stands(
    p: [Single; 4],
    prev_tier: Option<RouteClass>,
    is_short: bool,
    config: RouterConfig,
)
    requires
        numbers(p@),
    ensures
        ({
            let d = decided(p, prev_tier, is_short, config);
            !d.safety_applied && !d.sticky_applied ==> {
                &&& leads(p@, d.route.rank())
                &&& d.confidence == p@[d.route.rank()]
            }
        }),
{
    one_leads(p@, top(p@, 4));
}

/// The safety upgrade applies exactly where R0 or R1 leads and the
/// probabilities of R2 and R3 together exceed the threshold. It sends the
/// request to R2, with that sum as the confidence; without it the confidence is
/// the largest probability.
pub proof fn safety_upgrades_to_r2(
    p: [Single; 4],
    prev_tier: Option<RouteClass>,
    is_short: bool,
    config: RouterConfig,
    k: int,
)
    requires
        numbers(p@),
        leads(p@, k),
    ensures
        ({
            let d = decided(p, prev_tier, is_short, config);
            let tail = p@[2].sum(p@[3]);
            &&& d.safety_applied == (k < 2 && config.safety_threshold.below(tail))
            &&& d.safety_applied && !d.sticky_applied ==> d.route == RouteClass::R2
            &&& d.confidence == if d.safety_applied {
                tail
            } else {
                p@[k]
            }
            &&& d.probabilities == p
        }),
{
    one_leads(p@, k);
}

/// The sticky rule applies exactly to short messages, where it is switched on
/// and the turn before went higher than this one would go by itself. It then
/// sends the request where the turn before went, and changes nothing else.
pub proof fn sticky_repeats_the_tier(
    p: [Single; 4],
    prev_tier: Option<RouteClass>,
    is_short: bool,
    config: RouterConfig,
)
    ensures
        ({
            let alone = decided(p, None, is_short, config);
            let d = decided(p, prev_tier, is_short, config);
            let higher = prev_tier matches Some(last) && alone.route.rank() < last.rank();
            &&& !alone.sticky_applied
            &&& d.sticky_applied == (config.sticky_enabled && is_short && higher)
            &&& d.sticky_applied ==> Some(d.route) == prev_tier
            &&& !d.sticky_applied ==> d.route == alone.route
            &&& d.confidence == alone.confidence
            &&& d.margin == alone.margin
            &&& d.safety_applied == alone.safety_applied
            &&& d.probabilities == alone.probabilities
            &&& d.source == DecisionSource::Model
        }),
{
}

/// The margin is the largest probability less the largest of the others.
pub proof fn margin_is_the_lead(
    p: [Single; 4],
    prev_tier: Option<RouteClass>,
    is_short: bool,
    config: RouterConfig,
    first: int,
    second: int,
)
    requires
        numbers(p@),
        0 <= first < 4,
        0 <= second < 4,
        first != second,
        p@[second].at_most(p@[first]),
        forall|i: int| 0 <= i < 4 && i != first ==> (#[trigger] p@[i]).at_most(p@[second]),
    ensures
        ({
            let d = decided(p, prev_tier, is_short, config);
            exists|a: Single, b: Single| #[trigger]
                a.difference(b) == d.margin && a.order() == p@[first].order() && b.order()
                    == p@[second].order()
        }),
{
    let r = ranked(p@);
    ranked_descends(p@);
    lemma_two_largest(p@, r, first, second);
    assert(r[0].difference(r[1]) == decided(p, prev_tier, is_short, config).margin);
}

proof fn lemma_two_largest(p: Seq<Single>, r: Seq<Single>, first: int, second: int)
    requires
        p.len() == 4,
        numbers(p),
        numbers(r),
        descending(r),
        r.len() == p.len(),
        r.to_multiset() == p.to_multiset(),
        0 <= first < 4,
        0 <= second < 4,
        first != second,
        p[second].at_most(p[first]),
        forall|i: int| 0 <= i < 4 && i != first ==> (#[trigger] p[i]).at_most(p[second]),
    ensures
        r[0].order() == p[first].order(),
        r[1].order() == p[second].order(),
{
    broadcast use vstd::seq_lib::group_to_multiset_ensures;

    assert(r.contains(p[first])) by {
        assert(r.to_multiset().count(p[first]) > 0);
    }
    assert(p.contains(r[0])) by {
        assert(p.to_multiset().count(r[0]) > 0);
    }
    let j = choose|j: int| 0 <= j < r.len() && r[j] == p[first];
    assert(r[j].at_most(r[0]));
    let i = choose|i: int| 0 <= i < p.len() && p[i] == r[0];
    assert(p[i].at_most(p[first]));
    let tail = r.remove(0);
    assert(p[i].order() == p[first].order());
    lemma_removed(r, 0);
    lemma_removed(p, i);
    let others = p.remove(i);
    assert(tail.to_multiset() =~= others.to_multiset());
    assert(others.contains(tail[0])) by {
        assert(others.to_multiset().count(tail[0]) > 0);
    }
    let kept = if i == first {
        second
    } else {
        first
    };
    let place = if kept < i {
        kept
    } else {
        kept - 1
    };
    assert(others[place] == p[kept]);
    assert(p[kept].order() == p[second].order()) by {
        if i != first {
            assert(p[i].at_most(p[second]));
        }
    }
    assert(tail.contains(p[kept])) by {
        assert(tail.to_multiset().count(p[kept]) > 0);
    }
    let t = choose|t: int| 0 <= t < tail.len() && tail[t] == p[kept];
    assert(r[t + 1].at_most(r[1]));
    let o = choose|o: int| 0 <= o < others.len() && others[o] == tail[0];
    let back = if o < i {
        o
    } else {
        o + 1
    };
    assert(p[back] == r[1]);
    if back == first {
        assert(i != first);
        assert(p[i].at_most(p[second]));
    } else {
        assert(p[back].at_most(p[second]));
    }
}

proof fn lemma_removed(s: Seq<Single>, i: int)
    requires
        0 <= i < s.len(),
    ensures
        s.remove(i).to_multiset() == s.to_multiset().remove(s[i]),
{
    broadcast use vstd::seq_lib::group_to_multiset_ensures;

    assert(s.remove(i).insert(i, s[i]) =~= s);
    assert(s.remove(i).to_multiset() =~= s.to_multiset().remove(s[i]));
}

/// The largest of some numbers is one of them, and none exceeds it.
pub proof fn peak_is_largest(s: Seq<Single>)
    requires
        s.len() > 0,
        numbers(s),
    ensures
        s.contains(peak(s)),
        forall|k: int| 0 <= k < s.len() ==> (#[trigger] s[k]).at_most(peak(s)),
    decreases s.len(),
{
    let rest = s.drop_last();
    let n = s.len() - 1;
    assert(!s[n].nan());
    if rest.len() == 0 {
        assert(peak(rest) == (Single { bits: NEG_INFINITY }));
        assert(peak(s) == s[n]);
    } else {
        assert forall|k: int| 0 <= k < rest.len() implies !(#[trigger] rest[k]).nan() by {
            assert(!s[k].nan());
        }
        peak_is_largest(rest);
        let i = choose|i: int| 0 <= i < rest.len() && rest[i] == peak(rest);
        assert(s[i] == peak(rest));
        assert forall|k: int| 0 <= k < s.len() implies (#[trigger] s[k]).at_most(peak(s)) by {
            if k < n {
                assert(rest[k].at_most(peak(rest)));
            }
        }
        assert(peak(s) == s[i] || peak(s) == s[n]);
    }
}

} // verus!
