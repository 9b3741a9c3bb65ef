//! Token sampling: penalties, temperature, top-k and nucleus selection.
//!
//! Powers, exponentials and the random draw are taken from the caller: what
//! is stated holds for whatever values these have.

use crate::bounds;
use crate::head::duplicated;
use crate::postprocess;
use crate::postprocess::{softmax_shift, sum_of};
use crate::single;
use crate::single::Single;
use vstd::arithmetic::power2::{lemma_pow2_pos, pow2};
use vstd::prelude::*;

verus! {

/// Bit pattern of one.
pub const ONE: u32 = 0x3f80_0000;

/// How often a token occurs.
pub open spec fn count_of(ids: Seq<u32>, id: int) -> nat
    decreases ids.len(),
{
    if ids.len() == 0 {
        0
    } else {
        count_of(ids.drop_last(), id) + if ids.last() as int == id {
            1nat
        } else {
            0nat
        }
    }
}

/// A logit after the penalty for a token that occurred, given the decayed
/// count.
pub open spec fn penalty_applied(
    logit: Single,
    presence: Single,
    frequency: Single,
    decayed: Single,
) -> Single {
    logit.difference(presence.sum(frequency.product(decayed)))
}

/// Whether a logit is the penalised one for a token that occurred `n` times,
/// for some answer of the power function.
pub open spec fn penalized_at<W: Fn(Single, Single) -> Single>(
    logit: Single,
    n: nat,
    presence: Single,
    frequency: Single,
    decay: Single,
    powf: W,
    out: Single,
) -> bool {
    if n == 0 {
        out == logit
    } else {
        exists|d: Single| #[trigger]
            call_ensures(powf, (Single::counted(n as int), decay), d) && out == penalty_applied(
                logit,
                presence,
                frequency,
                d,
            )
    }
}

/// Whether logits are penalised for the tokens that occurred.
pub open spec fn penalized<W: Fn(Single, Single) -> Single>(
    logits: Seq<Single>,
    ids: Seq<u32>,
    presence: Single,
    frequency: Single,
    decay: Single,
    powf: W,
    out: Seq<Single>,
) -> bool {
    &&& out.len() == logits.len()
    &&& forall|i: int|
        0 <= i < out.len() ==> penalized_at(
            logits[i],
            count_of(ids, i),
            presence,
            frequency,
            decay,
            powf,
            #[trigger] out[i],
        )
}

/// Logits divided by a positive temperature.
pub open spec fn tempered(logits: Seq<Single>, temperature: Single) -> Seq<Single> {
    if (Single { bits: 0 }).below(temperature) {
        logits.map_values(|l: Single| l.quotient(temperature))
    } else {
        logits
    }
}

/// The likeliest of the first `n` candidates that are not in `taken`; of equal
/// ones the first. Negative where there is none.
pub open spec fn leader(p: Seq<Single>, taken: Seq<int>, n: int) -> int
    decreases n,
{
    if n <= 0 {
        -1
    } else {
        let best = leader(p, taken, n - 1);
        if taken.contains(n - 1) {
            best
        } else if best < 0 || p[best].below(p[n - 1]) {
            n - 1
        } else {
            best
        }
    }
}

/// The `k` likeliest candidates, from the likeliest on.
pub open spec fn picks(p: Seq<Single>, k: int) -> Seq<int>
    decreases k,
{
    if k <= 0 {
        Seq::empty()
    } else {
        let before = picks(p, k - 1);
        before.push(leader(p, before, p.len() as int))
    }
}

/// The mass of the `k` likeliest candidates.
pub open spec fn mass(p: Seq<Single>, k: int) -> Single
    decreases k,
{
    if k <= 0 {
        Single { bits: 0 }
    } else {
        mass(p, k - 1).sum(p[picks(p, k)[k - 1]])
    }
}

/// Most candidates that top-k keeps.
pub open spec fn limit(p: Seq<Single>, top_k: int) -> int {
    if top_k < p.len() {
        top_k
    } else {
        p.len() as int
    }
}

/// How many candidates are kept, `k` of which are known to be: up to the
/// first whose mass reaches `top_p`.
pub open spec fn kept(p: Seq<Single>, top_p: Single, most: int, k: int) -> int
    decreases most - k,
{
    if k >= most || (k > 0 && top_p.at_most(mass(p, k))) {
        k
    } else {
        kept(p, top_p, most, k + 1)
    }
}

/// The first of `k` candidates, from place `j` on, whose mass reaches `r`; the
/// likeliest where none does.
pub open spec fn chosen(p: Seq<Single>, k: int, r: Single, j: int) -> int
    decreases k - j,
{
    if j >= k {
        picks(p, 1)[0]
    } else if r.at_most(mass(p, j + 1)) {
        picks(p, j + 1)[j]
    } else {
        chosen(p, k, r, j + 1)
    }
}

/// The mass that a draw is scaled by: that of the kept candidates, at most
/// one.
pub open spec fn capped(m: Single) -> Single {
    if m.nan() || (Single { bits: ONE }).below(m) {
        Single { bits: ONE }
    } else {
        m
    }
}

/// The candidate that a draw selects.
pub open spec fn selected(p: Seq<Single>, top_p: Single, top_k: int, draw: Single) -> int {
    let k = kept(p, top_p, limit(p, top_k), 0);
    chosen(p, k, draw.product(capped(mass(p, k))), 0)
}

/// The likeliest candidate.
pub open spec fn greediest(p: Seq<Single>) -> int {
    leader(p, Seq::empty(), p.len() as int)
}

proof fn lemma_count(ids: Seq<u32>, id: int)
    ensures
        count_of(ids, id) <= ids.len(),
        count_of(ids, id) > 0 <==> exists|k: int| 0 <= k < ids.len() && #[trigger] ids[k] as int
            == id,
    decreases ids.len(),
{
    if ids.len() > 0 {
        let front = ids.drop_last();
        lemma_count(front, id);
        if count_of(front, id) > 0 {
            let k = choose|k: int| 0 <= k < front.len() && #[trigger] front[k] as int == id;
            assert(ids[k] == front[k]);
        }
        if exists|k: int| 0 <= k < ids.len() && #[trigger] ids[k] as int == id {
            let k = choose|k: int| 0 <= k < ids.len() && #[trigger] ids[k] as int == id;
            if k < front.len() {
                assert(front[k] as int == id);
            }
        }
    }
}

/// Counts a token.
fn count(ids: &[u32], id: u32) -> (n: u64)
    ensures
        n == count_of(ids@, id as int),
{
    let mut n: u64 = 0;
    let mut i: usize = 0;
    while i < ids.len()
        invariant
            i <= ids.len(),
            n <= i,
            n == count_of(ids@.take(i as int), id as int),
        decreases ids.len() - i,
    {
        assert(ids@.take(i + 1).drop_last() =~= ids@.take(i as int));
        if ids[i] == id {
            n += 1;
        }
        i += 1;
    }
    assert(ids@.take(ids.len() as int) =~= ids@);
    n
}

/// Whether a token occurs before a place.
fn occurred(ids: &[u32], at: usize) -> (res: bool)
    requires
        at < ids.len(),
    ensures
        res == exists|k: int| 0 <= k < at && #[trigger] ids@[k] == ids@[at as int],
{
    let mut i: usize = 0;
    while i < at
        invariant
            i <= at < ids.len(),
            forall|k: int| 0 <= k < i ==> #[trigger] ids@[k] != ids@[at as int],
        decreases at - i,
    {
        if ids[i] == ids[at] {
            return true;
        }
        i += 1;
    }
    false
}

/// Penalises the logits of the tokens that occurred: a flat part, and one that
/// grows with the decayed count.
pub fn penalize<W: Fn(Single, Single) -> Single>(
    logits: &[Single],
    ids: &[u32],
    presence: Single,
    frequency: Single,
    decay: Single,
    powf: &W,
) -> (out: Vec<Single>)
    requires
        forall|a: Single, b: Single| call_requires(*powf, (a, b)),
    ensures
        penalized(logits@, ids@, presence, frequency, decay, *powf, out@),
{
    let mut out = duplicated(logits);
    let mut k: usize = 0;
    while k < ids.len()
        invariant
            k <= ids.len(),
            forall|a: Single, b: Single| call_requires(*powf, (a, b)),
            out.len() == logits.len(),
            forall|i: int|
                0 <= i < out.len() && (forall|j: int| 0 <= j < k ==> #[trigger] ids@[j] as int != i)
                    ==> #[trigger] out@[i] == logits@[i],
            forall|i: int|
                0 <= i < out.len() && (exists|j: int| 0 <= j < k && #[trigger] ids@[j] as int == i)
                    ==> penalized_at(
                    logits@[i],
                    count_of(ids@, i),
                    presence,
                    frequency,
                    decay,
                    *powf,
                    #[trigger] out@[i],
                ),
        decreases ids.len() - k,
    {
        let id = ids[k];
        if !occurred(ids, k) && (id as usize) < out.len() {
            let n = count(ids, id);
            proof {
                assert(ids@[k as int] as int == id);
                lemma_count(ids@, id as int);
            }
            let d = powf(Single::from_count(n), decay);
            let at = id as usize;
            let ghost before = out@;
            let v = out[at].minus(presence.plus(frequency.times(d)));
            out.set(at, v);
            proof {
                assert(before[at as int] == logits@[at as int]);
                assert(penalized_at(
                    logits@[at as int],
                    count_of(ids@, at as int),
                    presence,
                    frequency,
                    decay,
                    *powf,
                    out@[at as int],
                ));
                assert forall|i: int|
                    0 <= i < out.len() && (exists|j: int|
                        0 <= j < k + 1 && #[trigger] ids@[j] as int == i) implies penalized_at(
                    logits@[i],
                    count_of(ids@, i),
                    presence,
                    frequency,
                    decay,
                    *powf,
                    #[trigger] out@[i],
                ) by {
                    if i != at {
                        let j = choose|j: int| 0 <= j < k + 1 && #[trigger] ids@[j] as int == i;
                        assert(j < k);
                        assert(out@[i] == before[i]);
                    }
                }
            }
        } else {
            proof {
                assert forall|i: int|
                    0 <= i < out.len() && (exists|j: int|
                        0 <= j < k + 1 && #[trigger] ids@[j] as int == i) implies penalized_at(
                    logits@[i],
                    count_of(ids@, i),
                    presence,
                    frequency,
                    decay,
                    *powf,
                    #[trigger] out@[i],
                ) by {
                    let j = choose|j: int| 0 <= j < k + 1 && #[trigger] ids@[j] as int == i;
                    if j == k {
                        let e = choose|e: int| 0 <= e < k && #[trigger] ids@[e] == ids@[k as int];
                        assert(ids@[e] as int == i);
                    }
                }
            }
        }
        k += 1;
    }
    proof {
        assert forall|i: int| 0 <= i < out.len() implies penalized_at(
            logits@[i],
            count_of(ids@, i),
            presence,
            frequency,
            decay,
            *powf,
            #[trigger] out@[i],
        ) by {
            lemma_count(ids@, i);
            if count_of(ids@, i) == 0 {
                assert forall|j: int| 0 <= j < ids.len() implies #[trigger] ids@[j] as int
                    != i by {}
            }
        }
    }
    out
}

/// Divides logits by a positive temperature.
pub fn temper(logits: &[Single], temperature: Single) -> (out: Vec<Single>)
    ensures
        out@ == tempered(logits@, temperature),
{
    let scale = (Single { bits: 0 }).less(temperature);
    let mut out: Vec<Single> = Vec::new();
    let mut i: usize = 0;
    while i < logits.len()
        invariant
            i <= logits.len(),
            scale == (Single { bits: 0 }).below(temperature),
            out@ == tempered(logits@, temperature).take(i as int),
        decreases logits.len() - i,
    {
        let l = logits[i];
        out.push(
            if scale {
                l.over(temperature)
            } else {
                l
            },
        );
        i += 1;
        assert(out@ =~= tempered(logits@, temperature).take(i as int));
    }
    assert(out@ =~= tempered(logits@, temperature));
    out
}

proof fn lemma_leader(p: Seq<Single>, taken: Seq<int>, n: int)
    requires
        0 <= n <= p.len(),
    ensures
        -1 <= leader(p, taken, n) < n,
        leader(p, taken, n) >= 0 ==> !taken.contains(leader(p, taken, n)),
        (exists|i: int| 0 <= i < n && !#[trigger] taken.contains(i)) ==> leader(p, taken, n) >= 0,
    decreases n,
{
    if n > 0 {
        lemma_leader(p, taken, n - 1);
        if exists|i: int| 0 <= i < n && !#[trigger] taken.contains(i) {
            let i = choose|i: int| 0 <= i < n && !#[trigger] taken.contains(i);
            if i < n - 1 {
                assert(!taken.contains(i));
            }
        }
    }
}

/// Fewer places than candidates leave one that is not taken.
proof fn lemma_one_left(taken: Seq<int>, n: int)
    requires
        taken.len() < n,
    ensures
        exists|i: int| 0 <= i < n && !#[trigger] taken.contains(i),
    decreases n,
{
    if taken.contains(n - 1) {
        let k = choose|k: int| 0 <= k < taken.len() && taken[k] == n - 1;
        let less = taken.remove(k);
        lemma_one_left(less, n - 1);
        let i = choose|i: int| 0 <= i < n - 1 && !#[trigger] less.contains(i);
        if taken.contains(i) {
            let j = choose|j: int| 0 <= j < taken.len() && taken[j] == i;
            let moved = if j < k {
                j
            } else {
                j - 1
            };
            assert(less[moved] == i);
        }
        assert(!taken.contains(i));
    } else {
        assert(!taken.contains(n - 1));
    }
}

/// Picks are candidates, each at most once.
proof fn lemma_picks(p: Seq<Single>, k: int)
    requires
        0 <= k <= p.len(),
    ensures
        picks(p, k).len() == k,
        forall|j: int| 0 <= j < k ==> 0 <= #[trigger] picks(p, k)[j] < p.len(),
        forall|j: int|
            0 <= j <= k ==> #[trigger] picks(p, j) == picks(p, k).take(j),
    decreases k,
{
    if k > 0 {
        let before = picks(p, k - 1);
        let all = picks(p, k);
        lemma_picks(p, k - 1);
        lemma_one_left(before, p.len() as int);
        lemma_leader(p, before, p.len() as int);
        assert forall|j: int| 0 <= j <= k implies #[trigger] picks(p, j) == all.take(j) by {
            if j < k {
                assert(picks(p, j) == before.take(j));
                assert(before.take(j) =~= all.take(j));
            } else {
                assert(all.take(j) =~= all);
            }
        }
    } else {
        assert(picks(p, 0) =~= picks(p, 0).take(0));
    }
}

/// The likeliest candidate that is not taken.
fn next_pick(p: &[Single], taken: &[bool], Ghost(before): Ghost<Seq<int>>) -> (best: usize)
    requires
        p.len() == taken.len(),
        before.len() < p.len(),
        forall|i: int| 0 <= i < p.len() ==> #[trigger] taken@[i] == before.contains(i),
    ensures
        best == leader(p@, before, p.len() as int),
        best < p.len(),
        !taken@[best as int],
{
    let n: usize = p.len();
    let mut found: bool = false;
    let mut best: usize = 0;
    let mut i: usize = 0;
    while i < n
        invariant
            i <= n,
            n == p.len(),
            n == taken.len(),
            forall|i: int| 0 <= i < p.len() ==> #[trigger] taken@[i] == before.contains(i),
            found ==> best < i && best == leader(p@, before, i as int) && !taken@[best as int],
            !found ==> leader(p@, before, i as int) == -1,
        decreases n - i,
    {
        if !taken[i] {
            if !found || p[best].less(p[i]) {
                best = i;
                found = true;
            }
        }
        i += 1;
    }
    proof {
        lemma_one_left(before, n as int);
        lemma_leader(p@, before, n as int);
    }
    best
}

/// The likeliest candidate; of equal ones the first.
pub fn greedy(p: &[Single]) -> (res: u32)
    requires
        0 < p.len() <= u32::MAX,
    ensures
        res == greediest(p@),
{
    let mut taken: Vec<bool> = Vec::new();
    let mut i: usize = 0;
    while i < p.len()
        invariant
            i <= p.len(),
            taken.len() == i,
            forall|k: int| 0 <= k < i ==> !(#[trigger] taken@[k]),
        decreases p.len() - i,
    {
        taken.push(false);
        i += 1;
    }
    next_pick(p, &taken, Ghost(Seq::empty())) as u32
}

/// Selects a candidate: the likeliest ones are kept, at most `top_k` and until
/// their mass reaches `top_p`; the draw, scaled by their mass, then picks the
/// first whose running mass reaches it.
pub fn select(probs: &[Single], top_p: Single, top_k: usize, draw: Single) -> (res: u32)
    requires
        0 < probs.len() <= u32::MAX,
        top_k > 0,
    ensures
        res == selected(probs@, top_p, top_k as int, draw),
{
    let n: usize = probs.len();
    let most: usize = if top_k < n {
        top_k
    } else {
        n
    };
    let mut taken: Vec<bool> = Vec::new();
    let mut i: usize = 0;
    while i < n
        invariant
            i <= n,
            n == probs.len(),
            taken.len() == i,
            forall|k: int| 0 <= k < i ==> !(#[trigger] taken@[k]),
        decreases n - i,
    {
        taken.push(false);
        i += 1;
    }
    let mut order: Vec<usize> = Vec::new();
    let mut cumulative: Vec<Single> = Vec::new();
    let mut sum = Single { bits: 0 };
    let mut going: bool = true;
    let mut k: usize = 0;
    while going
        invariant
            k <= most <= n,
            0 < most,
            n == probs.len(),
            taken.len() == n,
            order.len() == k,
            cumulative.len() == k,
            sum == mass(probs@, k as int),
            forall|i: int| 0 <= i < n ==> #[trigger] taken@[i] == picks(probs@, k as int).contains(i),
            forall|j: int|
                0 <= j < k ==> #[trigger] order@[j] as int == picks(probs@, k as int)[j],
            forall|j: int| 0 <= j < k ==> #[trigger] order@[j] < n,
            forall|j: int| 0 <= j < k ==> #[trigger] cumulative@[j] == mass(probs@, j + 1),
            kept(probs@, top_p, most as int, k as int) == kept(probs@, top_p, most as int, 0),
            !going ==> k > 0 && kept(probs@, top_p, most as int, k as int) == k,
        decreases
            most - k,
            (if going {
                1int
            } else {
                0int
            }),
    {
        if k >= most || (k > 0 && top_p.less_or_equal(sum)) {
            going = false;
        } else {
            let ghost before = picks(probs@, k as int);
            proof {
                lemma_picks(probs@, k + 1);
                lemma_picks(probs@, k as int);
            }
            let best = next_pick(probs, &taken, Ghost(before));
            taken.set(best, true);
            order.push(best);
            sum = sum.plus(probs[best]);
            cumulative.push(sum);
            proof {
                let after = picks(probs@, k + 1);
                assert(after == before.push(best as int));
                assert forall|i: int| 0 <= i < n implies #[trigger] taken@[i]
                    == after.contains(i) by {
                    if i == best {
                        assert(after[k as int] == best as int);
                    } else if before.contains(i) {
                        let j = choose|j: int| 0 <= j < before.len() && before[j] == i;
                        assert(after[j] == i);
                    } else if after.contains(i) {
                        let j = choose|j: int| 0 <= j < after.len() && after[j] == i;
                        assert(before[j] == i);
                    }
                }
            }
            k += 1;
        }
    }
    let total = if sum.is_nan() || (Single { bits: ONE }).less(sum) {
        Single { bits: ONE }
    } else {
        sum
    };
    let r = draw.times(total);
    proof {
        lemma_picks(probs@, k as int);
        assert(picks(probs@, 1) == picks(probs@, k as int).take(1));
    }
    let mut j: usize = 0;
    while j < k
        invariant
            j <= k <= n,
            n == probs.len() <= u32::MAX,
            k == kept(probs@, top_p, limit(probs@, top_k as int), 0),
            r == draw.product(capped(mass(probs@, k as int))),
            picks(probs@, k as int).len() == k,
            order.len() == k,
            cumulative.len() == k,
            forall|i: int|
                0 <= i < k ==> #[trigger] order@[i] as int == picks(probs@, k as int)[i],
            forall|i: int| 0 <= i < k ==> #[trigger] order@[i] < n,
            forall|i: int| 0 <= i < k ==> #[trigger] cumulative@[i] == mass(probs@, i + 1),
            forall|i: int|
                0 <= i <= k ==> #[trigger] picks(probs@, i) == picks(probs@, k as int).take(i),
            chosen(probs@, k as int, r, j as int) == chosen(probs@, k as int, r, 0),
        decreases k - j,
    {
        if r.less_or_equal(cumulative[j]) {
            assert(picks(probs@, j + 1) == picks(probs@, k as int).take(j + 1));
            return order[j] as u32;
        }
        j += 1;
    }
    order[0] as u32
}

/// Whether `id` is what sampling from logits comes to, for some answers of the
/// functions: the likeliest token at a temperature of zero or less, otherwise
/// the one that the draw selects from the softmax.
pub open spec fn sampled<W: Fn(Single, Single) -> Single, X: Fn(Single) -> Single>(
    logits: Seq<Single>,
    ids: Seq<u32>,
    settings: Settings,
    draw: Single,
    powf: W,
    exp: X,
    id: int,
) -> bool {
    exists|out: Seq<Single>|
        {
            &&& #[trigger] penalized(
                logits,
                ids,
                settings.presence_penalty,
                settings.frequency_penalty,
                settings.penalty_decay,
                powf,
                out,
            )
            &&& if settings.temperature.at_most((Single { bits: 0 })) {
                id == greediest(out)
            } else {
                exists|exps: Seq<Single>|
                    {
                        &&& #[trigger] postprocess::answered(
                            exp,
                            tempered(out, settings.temperature),
                            exps,
                        )
                        &&& id == selected(
                            exps.map_values(|e: Single| e.quotient(postprocess::total(exps))),
                            settings.top_p,
                            settings.top_k as int,
                            draw,
                        )
                    }
            }
        }
}

/// Sampling settings.
#[derive(Debug, Clone, Copy)]
pub struct Settings {
    pub temperature: Single,
    pub top_p: Single,
    pub top_k: usize,
    pub presence_penalty: Single,
    pub frequency_penalty: Single,
    pub penalty_decay: Single,
}

/// Samples a token: penalties for the tokens `ids` that occurred, then the
/// likeliest token at a temperature of zero or less, otherwise a nucleus
/// sample at that temperature.
pub fn sample_token<W: Fn(Single, Single) -> Single, X: Fn(Single) -> Single>(
    logits: &[Single],
    ids: &[u32],
    settings: &Settings,
    draw: Single,
    powf: &W,
    exp: &X,
) -> (id: u32)
    requires
        0 < logits.len() <= u32::MAX,
        settings.top_k > 0,
        forall|a: Single, b: Single| call_requires(*powf, (a, b)),
        forall|v: Single| call_requires(*exp, (v,)),
    ensures
        sampled(logits@, ids@, *settings, draw, *powf, *exp, id as int),
{
    let out = penalize(
        logits,
        ids,
        settings.presence_penalty,
        settings.frequency_penalty,
        settings.penalty_decay,
        powf,
    );
    if settings.temperature.less_or_equal(Single { bits: 0 }) {
        return greedy(&out);
    }
    let warm = temper(&out, settings.temperature);
    let shifted = softmax_shift(&warm);
    let mut exps: Vec<Single> = Vec::new();
    let mut k: usize = 0;
    while k < shifted.len()
        invariant
            k <= shifted.len(),
            exps.len() == k,
            forall|v: Single| call_requires(*exp, (v,)),
            forall|i: int| 0 <= i < k ==> call_ensures(*exp, (shifted@[i],), #[trigger] exps@[i]),
        decreases shifted.len() - k,
    {
        exps.push(exp(shifted[k]));
        k += 1;
    }
    assert(postprocess::answered(*exp, tempered(out@, settings.temperature), exps@));
    let sum = sum_of(&exps);
    let mut probs: Vec<Single> = Vec::new();
    let mut j: usize = 0;
    let ghost want = exps@.map_values(|e: Single| e.quotient(postprocess::total(exps@)));
    while j < exps.len()
        invariant
            j <= exps.len(),
            sum == postprocess::total(exps@),
            want == exps@.map_values(|e: Single| e.quotient(postprocess::total(exps@))),
            probs@ == want.take(j as int),
        decreases exps.len() - j,
    {
        probs.push(exps[j].over(sum));
        j += 1;
        assert(probs@ =~= want.take(j as int));
    }
    assert(probs@ =~= want);
    select(&probs, settings.top_p, settings.top_k, draw)
}

/// Of numbers, the greedy choice is a candidate that no other exceeds, and
/// every earlier candidate is below it.
pub proof fn greedy_is_largest(p: Seq<Single>, n: int)
    requires
        0 < n <= p.len(),
        postprocess::numbers(p),
    ensures
        0 <= leader(p, Seq::empty(), n) < n,
        forall|i: int| 0 <= i < n ==> (#[trigger] p[i]).at_most(p[leader(p, Seq::empty(), n)]),
        forall|i: int|
            0 <= i < leader(p, Seq::empty(), n) ==> (#[trigger] p[i]).below(
                p[leader(p, Seq::empty(), n)],
            ),
    decreases n,
{
    assert(!Seq::<int>::empty().contains(n - 1));
    if n > 1 {
        greedy_is_largest(p, n - 1);
    } else {
        assert(leader(p, Seq::empty(), 0) == -1);
    }
}

/// Where one candidate alone is kept, by top-k or because its mass reaches
/// `top_p`, every draw selects the likeliest candidate.
pub proof fn narrow_selection_is_greedy(p: Seq<Single>, top_p: Single, top_k: int, draw: Single)
    requires
        p.len() > 0,
        top_k > 0,
        top_k == 1 || top_p.at_most(mass(p, 1)),
    ensures
        selected(p, top_p, top_k, draw) == greediest(p),
{
    let most = limit(p, top_k);
    assert(kept(p, top_p, most, 1) == 1);
    assert(kept(p, top_p, most, 0) == 1);
    assert(picks(p, 0) =~= Seq::empty());
    assert(picks(p, 1) =~= seq![greediest(p)]);
    let r = draw.product(capped(mass(p, 1)));
    assert(chosen(p, 1, r, 1) == picks(p, 1)[0]);
}

/// A positive temperature divides: each logit becomes the number nearest to the
/// ratio. A temperature up to one never makes a logit smaller in size, one
/// from one on never larger; any other changes nothing.
pub proof fn tempering_divides(logits: Seq<Single>, temperature: Single, i: int)
    requires
        0 <= i < logits.len(),
        !logits[i].nan() && !logits[i].infinite(),
        !temperature.nan() && !temperature.infinite(),
    ensures
        ({
            let (l, out) = (logits[i], tempered(logits, temperature)[i]);
            let (size, t) = (out.magnitude(), temperature.magnitude());
            &&& tempered(logits, temperature).len() == logits.len()
            &&& temperature.order() <= 0 ==> out == l
            &&& temperature.order() > 0 ==> {
                &&& out.negative() == l.negative()
                &&& single::nearest(
                    size,
                    single::span(l.magnitude()) * pow2(149),
                    single::span(t),
                )
                &&& t <= ONE ==> l.magnitude() <= size
                &&& t >= ONE ==> size <= l.magnitude()
            }
        }),
{
    let l = logits[i];
    if temperature.order() > 0 {
        bounds::divisions_scale(l, temperature);
        let (sl, st) = (single::span(l.magnitude()), single::span(temperature.magnitude()));
        let u = pow2(149) as int;
        lemma_pow2_pos(149);
        single::lemma_span(0, 0);
        single::span_increasing(0, temperature.magnitude());
        if l.magnitude() > 0 {
            single::span_increasing(0, l.magnitude());
        }
        assert(sl * u >= 0 && (sl == 0 ==> sl * u == 0)) by (nonlinear_arith)
            requires
                sl >= 0,
                u > 0,
        ;
        single::rounded_is_nearest(sl * u, st);
        if l.magnitude() == 0 {
            single::rounding_respects_order(sl * u, st, 0);
        }
    }
}

/// A token occurs as often as it stands among the tokens.
pub proof fn occurrences_are_counted(ids: Seq<u32>, id: u32)
    ensures
        count_of(ids, id as int) == ids.to_multiset().count(id),
    decreases ids.len(),
{
    broadcast use vstd::seq_lib::group_to_multiset_ensures;

    if ids.len() > 0 {
        let front = ids.drop_last();
        occurrences_are_counted(front, id);
        assert(ids =~= front.push(ids.last()));
    } else {
        assert(!ids.contains(id));
    }
}

/// Penalties never help a token that occurred, and leave every other alone. On
/// a logit of zero the flat penalty shows as it is, and so does the one for
/// the occurrences where it stands alone.
pub proof fn penalties_push_down<W: Fn(Single, Single) -> Single>(
    logits: Seq<Single>,
    ids: Seq<u32>,
    presence: Single,
    frequency: Single,
    decay: Single,
    powf: W,
    out: Seq<Single>,
    i: int,
)
    requires
        penalized(logits, ids, presence, frequency, decay, powf, out),
        0 <= i < logits.len() <= u32::MAX,
        !logits[i].nan() && !logits[i].infinite(),
        !presence.nan() && !presence.infinite() && !presence.negative(),
        !frequency.nan() && !frequency.infinite() && !frequency.negative(),
        forall|n: Single, d: Single| #[trigger]
            call_ensures(powf, (n, decay), d) ==> {
                let s = presence.sum(frequency.product(d));
                &&& !d.nan() && !d.infinite() && !d.negative()
                &&& !frequency.product(d).infinite() && !s.infinite()
            },
    ensures
        out.len() == logits.len(),
        !ids.contains(i as u32) ==> out[i] == logits[i],
        ids.contains(i as u32) ==> {
            &&& out[i].at_most(logits[i])
            &&& logits[i].magnitude() == 0 && frequency.magnitude() == 0 ==> out[i].order()
                == -presence.order()
            &&& logits[i].magnitude() == 0 && presence.magnitude() == 0 ==> exists|d: Single|
                #[trigger] call_ensures(
                    powf,
                    (Single::counted(ids.to_multiset().count(i as u32) as int), decay),
                    d,
                ) && out[i].order() == -frequency.product(d).order()
        },
{
    lemma_count(ids, i);
    occurrences_are_counted(ids, i as u32);
    let n = count_of(ids, i);
    assert(penalized_at(logits[i], n, presence, frequency, decay, powf, out[i]));
    if ids.contains(i as u32) {
        let k = choose|k: int| 0 <= k < ids.len() && ids[k] == i as u32;
        assert(ids[k] as int == i);
        let d = choose|d: Single| #[trigger]
            call_ensures(powf, (Single::counted(n as int), decay), d) && out[i] == penalty_applied(
                logits[i],
                presence,
                frequency,
                d,
            );
        let extra = frequency.product(d);
        lemma_product_sign(frequency, d);
        lemma_sum_sign(presence, extra);
        let penalty = presence.sum(extra);
        single::difference_is_no_more(logits[i], penalty);
        if logits[i].magnitude() == 0 {
            lemma_from_zero(logits[i], penalty);
            if frequency.magnitude() == 0 {
                assert(extra.magnitude() == 0);
                if presence.magnitude() > 0 {
                    bounds::zero_adds_nothing(presence, extra);
                } else {
                    single::lemma_span(0, 0);
                }
            }
            if presence.magnitude() == 0 {
                if extra.magnitude() > 0 {
                    bounds::zero_adds_nothing(extra, presence);
                } else {
                    single::lemma_span(0, 0);
                }
            }
        }
    } else {
        assert forall|k: int| 0 <= k < ids.len() implies ids[k] as int != i by {
            if ids[k] as int == i {
                assert(ids[k] == i as u32);
            }
        }
    }
}

proof fn lemma_product_sign(a: Single, b: Single)
    requires
        !a.nan() && !a.infinite() && !a.negative(),
        !b.nan() && !b.infinite() && !b.negative(),
    ensures
        !a.product(b).nan(),
        !a.product(b).negative(),
{
    lemma_pow2_pos(149);
    single::lemma_span(0, 0);
    if a.magnitude() > 0 && b.magnitude() > 0 {
        single::span_increasing(0, a.magnitude());
        single::span_increasing(0, b.magnitude());
        let n = single::span(a.magnitude()) * single::span(b.magnitude());
        assert(n >= 0) by (nonlinear_arith)
            requires
                n == single::span(a.magnitude()) * single::span(b.magnitude()),
                single::span(a.magnitude()) > 0,
                single::span(b.magnitude()) > 0,
        ;
        single::rounded_is_nearest(n, pow2(149) as int);
    }
}

proof fn lemma_sum_sign(a: Single, b: Single)
    requires
        !a.nan() && !a.infinite() && !a.negative(),
        !b.nan() && !b.infinite() && !b.negative(),
    ensures
        !a.sum(b).nan(),
        !a.sum(b).negative(),
        a.at_most(a.sum(b)),
        b.at_most(a.sum(b)),
{
    single::lemma_span(0, 0);
    if a.magnitude() > 0 {
        single::span_increasing(0, a.magnitude());
    }
    if b.magnitude() > 0 {
        single::span_increasing(0, b.magnitude());
    }
    let v = single::span(a.magnitude()) + single::span(b.magnitude());
    single::rounded_is_nearest(v, 1);
    single::rounding_respects_order(v, 1, a.magnitude());
    single::rounding_respects_order(v, 1, b.magnitude());
}

proof fn lemma_from_zero(zero: Single, x: Single)
    requires
        zero.magnitude() == 0,
        !x.nan() && !x.infinite() && !x.negative(),
    ensures
        zero.difference(x).order() == -x.order(),
{
    single::lemma_span(0, 0);
    if x.magnitude() > 0 {
        assert(x.negated().magnitude() == x.magnitude());
        bounds::zero_adds_nothing(x.negated(), zero);
    }
}

proof fn lemma_leader_largest(p: Seq<Single>, taken: Seq<int>, n: int)
    requires
        0 <= n <= p.len(),
        postprocess::numbers(p),
    ensures
        forall|i: int|
            0 <= i < n && !taken.contains(i) ==> (#[trigger] p[i]).at_most(
                p[leader(p, taken, n)],
            ),
    decreases n,
{
    if n > 0 {
        lemma_leader_largest(p, taken, n - 1);
        lemma_leader(p, taken, n - 1);
        lemma_leader(p, taken, n);
        let best = leader(p, taken, n - 1);
        assert forall|i: int| 0 <= i < n && !taken.contains(i) implies (#[trigger] p[i]).at_most(
            p[leader(p, taken, n)],
        ) by {
            assert(!p[i].nan());
            if i < n - 1 {
                assert(!taken.contains(i));
                assert(best >= 0);
                assert(p[i].at_most(p[best]));
                assert(!p[best].nan());
                assert(!p[n - 1].nan());
            } else if best >= 0 {
                assert(!p[best].nan());
            }
        }
    }
}

/// The candidates are picked from the likeliest on: each once, none before a
/// likelier one, and none left out for a less likely one.
pub proof fn picks_descend(p: Seq<Single>, k: int)
    requires
        0 <= k <= p.len(),
        postprocess::numbers(p),
    ensures
        picks(p, k).len() == k,
        forall|j: int| 0 <= j < k ==> 0 <= #[trigger] picks(p, k)[j] < p.len(),
        picks(p, k).no_duplicates(),
        forall|i: int, j: int|
            0 <= i <= j < k ==> p[#[trigger] picks(p, k)[j]].at_most(p[#[trigger] picks(p, k)[i]]),
        forall|i: int, j: int|
            0 <= i < p.len() && !picks(p, k).contains(i) && 0 <= j < k ==> (
            #[trigger] p[i]).at_most(p[#[trigger] picks(p, k)[j]]),
    decreases k,
{
    if k > 0 {
        let before = picks(p, k - 1);
        let all = picks(p, k);
        picks_descend(p, k - 1);
        lemma_one_left(before, p.len() as int);
        lemma_leader(p, before, p.len() as int);
        lemma_leader_largest(p, before, p.len() as int);
        let next = leader(p, before, p.len() as int);
        assert(all == before.push(next));
        assert(!before.contains(next));
        assert(!p[next].nan());
        assert forall|i: int, j: int| 0 <= i <= j < k implies p[#[trigger] all[j]].at_most(
            p[#[trigger] all[i]],
        ) by {
            if j < k - 1 {
                assert(p[before[j]].at_most(p[before[i]]));
            } else if i < k - 1 {
                assert(p[next].at_most(p[before[i]]));
            }
        }
        assert forall|i: int, j: int|
            0 <= i < p.len() && !all.contains(i) && 0 <= j < k implies (#[trigger] p[i]).at_most(
            p[#[trigger] all[j]],
        ) by {
            assert(!before.contains(i)) by {
                if before.contains(i) {
                    let q = choose|q: int| 0 <= q < before.len() && before[q] == i;
                    assert(all[q] == i);
                }
            }
            if j < k - 1 {
                assert(p[i].at_most(p[before[j]]));
            }
        }
        assert(all.no_duplicates()) by {
            assert forall|i: int, j: int| 0 <= i < all.len() && 0 <= j < all.len() && i
                != j implies all[i] != all[j] by {
                if i < k - 1 && j < k - 1 {
                    assert(before[i] != before[j]);
                } else if i < k - 1 {
                    assert(before.contains(before[i]));
                } else {
                    assert(before.contains(before[j]));
                }
            }
        }
    }
}

proof fn lemma_kept(p: Seq<Single>, top_p: Single, most: int, k: int)
    requires
        0 <= k <= most,
        0 < most,
        forall|i: int| 0 < i < k ==> !top_p.at_most(#[trigger] mass(p, i)),
    ensures
        1 <= kept(p, top_p, most, k) <= most,
        kept(p, top_p, most, k) == most || top_p.at_most(mass(p, kept(p, top_p, most, k))),
        forall|i: int|
            0 < i < kept(p, top_p, most, k) ==> !top_p.at_most(#[trigger] mass(p, i)),
    decreases most - k,
{
    if !(k >= most || (k > 0 && top_p.at_most(mass(p, k)))) {
        lemma_kept(p, top_p, most, k + 1);
    }
}

proof fn lemma_chosen(p: Seq<Single>, k: int, r: Single, j: int) -> (at: int)
    requires
        0 <= j <= k <= p.len(),
        1 <= k,
        forall|i: int| 0 <= i < j ==> !r.at_most(#[trigger] mass(p, i + 1)),
    ensures
        0 <= at < k,
        chosen(p, k, r, j) == picks(p, k)[at],
        (exists|i: int| j <= i < k && r.at_most(#[trigger] mass(p, i + 1))) ==> r.at_most(
            mass(p, at + 1),
        ) && forall|i: int| 0 <= i < at ==> !r.at_most(#[trigger] mass(p, i + 1)),
    decreases k - j,
{
    lemma_picks(p, k);
    if j >= k {
        assert(picks(p, 1) == picks(p, k).take(1));
        0
    } else if r.at_most(mass(p, j + 1)) {
        assert(picks(p, j + 1) == picks(p, k).take(j + 1));
        j
    } else {
        let at = lemma_chosen(p, k, r, j + 1);
        if exists|i: int| j <= i < k && r.at_most(#[trigger] mass(p, i + 1)) {
            let i = choose|i: int| j <= i < k && r.at_most(#[trigger] mass(p, i + 1));
            assert(j + 1 <= i);
        }
        at
    }
}

/// What is selected is among the likeliest: fewer than `top_k` candidates are
/// likelier, and the mass of those picked before it does not reach `top_p`.
pub proof fn selection_is_narrow(p: Seq<Single>, top_p: Single, top_k: int, draw: Single)
    requires
        p.len() > 0,
        top_k > 0,
        postprocess::numbers(p),
    ensures
        ({
            let s = selected(p, top_p, top_k, draw);
            let likelier = Set::new(|i: int| 0 <= i < p.len() && p[s].below(p[i]));
            &&& 0 <= s < p.len()
            &&& likelier.finite()
            &&& likelier.len() < top_k
            &&& exists|j: int|
                0 <= j < p.len() && s == #[trigger] picks(p, j + 1)[j] && (j > 0
                    ==> !top_p.at_most(mass(p, j)))
        }),
{
    let s = selected(p, top_p, top_k, draw);
    let most = limit(p, top_k);
    lemma_kept(p, top_p, most, 0);
    let k = kept(p, top_p, most, 0);
    let r = draw.product(capped(mass(p, k)));
    let at = lemma_chosen(p, k, r, 0);
    picks_descend(p, k);
    lemma_picks(p, k);
    let all = picks(p, k);
    let likelier = Set::new(|i: int| 0 <= i < p.len() && p[s].below(p[i]));
    let first = all.take(at);
    assert forall|i: int| likelier.contains(i) implies first.to_set().contains(i) by {
        if !all.contains(i) {
            assert(p[i].at_most(p[all[at]]));
        } else {
            let q = choose|q: int| 0 <= q < all.len() && all[q] == i;
            if q >= at {
                assert(p[all[q]].at_most(p[all[at]]));
            }
            assert(first[q] == i);
        }
    }
    vstd::seq_lib::seq_to_set_is_finite(first);
    first.lemma_cardinality_of_set();
    vstd::set_lib::lemma_len_subset(likelier, first.to_set());
    assert(picks(p, at + 1) == all.take(at + 1));
    assert(s == picks(p, at + 1)[at]);
}

proof fn lemma_masses(p: Seq<Single>, k: int)
    requires
        0 <= k <= p.len(),
        postprocess::numbers(p),
        forall|i: int| 0 <= i < p.len() ==> !(#[trigger] p[i]).negative(),
        forall|j: int| 0 <= j <= p.len() ==> !(#[trigger] mass(p, j)).infinite(),
        forall|i: int| 0 <= i < p.len() ==> !(#[trigger] p[i]).infinite(),
    ensures
        !mass(p, k).nan() && !mass(p, k).negative(),
        forall|j: int| 0 <= j <= k ==> (#[trigger] mass(p, j)).at_most(mass(p, k)),
    decreases k,
{
    if k > 0 {
        lemma_masses(p, k - 1);
        picks_descend(p, k);
        let x = p[picks(p, k)[k - 1]];
        assert(!mass(p, k - 1).infinite());
        lemma_sum_sign(mass(p, k - 1), x);
        assert forall|j: int| 0 <= j <= k implies (#[trigger] mass(p, j)).at_most(mass(p, k)) by {
            if j < k {
                assert(mass(p, j).at_most(mass(p, k - 1)));
            }
        }
    }
}

/// The larger the draw, the less likely what it selects: a draw of zero selects
/// the likeliest candidate, and a larger draw never a likelier one than a
/// smaller draw does.
pub proof fn larger_draws_go_further(
    p: Seq<Single>,
    top_p: Single,
    top_k: int,
    low: Single,
    high: Single,
)
    requires
        p.len() > 0,
        top_k > 0,
        postprocess::numbers(p),
        forall|i: int| 0 <= i < p.len() ==> !(#[trigger] p[i]).negative(),
        forall|i: int| 0 <= i < p.len() ==> !(#[trigger] p[i]).infinite(),
        forall|j: int| 0 <= j <= p.len() ==> !(#[trigger] mass(p, j)).infinite(),
        !low.negative() && !high.negative(),
        low.magnitude() <= high.magnitude() <= ONE,
    ensures
        p[selected(p, top_p, top_k, high)].at_most(p[selected(p, top_p, top_k, low)]),
        low.bits == 0 ==> selected(p, top_p, top_k, low) == greediest(p),
{
    let most = limit(p, top_k);
    lemma_kept(p, top_p, most, 0);
    let k = kept(p, top_p, most, 0);
    lemma_masses(p, k);
    let total = mass(p, k);
    assert(!total.infinite());
    let c = capped(total);
    bounds::powers_are_exact(0);
    assert(c.at_most(total));
    let one = Single { bits: ONE };
    let (r, q) = (low.product(c), high.product(c));
    single::products_keep_order(low, high, c);
    single::products_keep_order(high, one, c);
    lemma_times_one(c);
    assert(q.at_most(mass(p, k - 1 + 1)));
    assert(r.at_most(mass(p, k - 1 + 1)));
    let i = lemma_chosen(p, k, r, 0);
    let j = lemma_chosen(p, k, q, 0);
    picks_descend(p, k);
    if j < i {
        assert(q.at_most(mass(p, j + 1)));
        assert(r.at_most(mass(p, j + 1)));
    }
    assert(p[picks(p, k)[j]].at_most(p[picks(p, k)[i]]));
    if low.bits == 0 {
        assert(r.magnitude() == 0);
        assert(mass(p, 1).at_most(total));
        lemma_masses(p, 1);
        assert(r.at_most(mass(p, 0int + 1)));
        if i > 0 {
            assert(!r.at_most(mass(p, 0int + 1)));
        }
        lemma_picks(p, k);
        assert(picks(p, 1) == picks(p, k).take(1));
        assert(picks(p, 0) =~= Seq::empty());
        assert(picks(p, 1) =~= seq![greediest(p)]);
    }
}

proof fn lemma_times_one(c: Single)
    requires
        !c.nan() && !c.infinite() && !c.negative(),
    ensures
        (Single { bits: ONE }).product(c) == c,
{
    lemma_pow2_pos(149);
    bounds::powers_are_exact(0);
    single::lemma_span(0, 0);
    if c.magnitude() > 0 {
        single::span_increasing(0, c.magnitude());
        let (u, s) = (pow2(149) as int, single::span(c.magnitude()));
        assert(u * s >= 0 && u * s == s * u) by (nonlinear_arith)
            requires
                u > 0,
                s > 0,
        ;
        single::rounding_respects_order(u * s, u, c.magnitude());
    }
}

/// Without earlier tokens, sampling at a temperature of zero or less gives the
/// first of the tokens with the largest logit, whatever is drawn.
pub proof fn cold_sampling_is_greedy<W: Fn(Single, Single) -> Single, X: Fn(Single) -> Single>(
    logits: Seq<Single>,
    settings: Settings,
    draw: Single,
    powf: W,
    exp: X,
    id: int,
)
    requires
        sampled(logits, Seq::empty(), settings, draw, powf, exp, id),
        settings.temperature.at_most((Single { bits: 0 })),
        logits.len() > 0,
        postprocess::numbers(logits),
    ensures
        0 <= id < logits.len(),
        forall|i: int| 0 <= i < logits.len() ==> (#[trigger] logits[i]).at_most(logits[id]),
        forall|i: int| 0 <= i < id ==> (#[trigger] logits[i]).below(logits[id]),
{
    let s = settings;
    let none = Seq::<u32>::empty();
    let out = choose|out: Seq<Single>|
        {
            &&& #[trigger] penalized(
                logits,
                none,
                s.presence_penalty,
                s.frequency_penalty,
                s.penalty_decay,
                powf,
                out,
            )
            &&& id == greediest(out)
        };
    assert forall|i: int| 0 <= i < out.len() implies out[i] == logits[i] by {
        assert(count_of(none, i) == 0);
        assert(penalized_at(
            logits[i],
            0,
            s.presence_penalty,
            s.frequency_penalty,
            s.penalty_decay,
            powf,
            out[i],
        ));
    }
    assert(out =~= logits);
    greedy_is_largest(logits, logits.len() as int);
}

/// A draw of one goes as far as it can: what it selects completes a mass that
/// reaches `top_p`, or else the mass of all the candidates that `top_k` allows.
pub proof fn full_draws_exhaust_the_nucleus(p: Seq<Single>, top_p: Single, top_k: int)
    requires
        p.len() > 0,
        top_k > 0,
        postprocess::numbers(p),
        forall|i: int| 0 <= i < p.len() ==> !(#[trigger] p[i]).negative(),
        forall|i: int| 0 <= i < p.len() ==> !(#[trigger] p[i]).infinite(),
        forall|j: int| 0 <= j <= p.len() ==> (#[trigger] mass(p, j)).magnitude() <= ONE,
    ensures
        ({
            let s = selected(p, top_p, top_k, Single { bits: ONE });
            let most = if top_k < p.len() {
                top_k
            } else {
                p.len() as int
            };
            exists|j: int|
                0 <= j < most && s == #[trigger] picks(p, j + 1)[j] && (top_p.at_most(
                    mass(p, j + 1),
                ) || mass(p, j + 1).order() == mass(p, most).order())
        }),
{
    let one = Single { bits: ONE };
    let most = limit(p, top_k);
    bounds::powers_are_exact(0);
    lemma_kept(p, top_p, most, 0);
    let k = kept(p, top_p, most, 0);
    assert forall|j: int| 0 <= j <= p.len() implies !(#[trigger] mass(p, j)).infinite() by {
        assert(mass(p, j).magnitude() <= ONE);
    }
    lemma_masses(p, k);
    let total = mass(p, k);
    assert(total.magnitude() <= ONE);
    assert(capped(total) == total);
    lemma_times_one(total);
    let r = one.product(total);
    assert(r.at_most(mass(p, k - 1 + 1)));
    let at = lemma_chosen(p, k, r, 0);
    lemma_picks(p, k);
    assert(picks(p, at + 1) == picks(p, k).take(at + 1));
    assert(mass(p, at + 1).at_most(total));
    assert(selected(p, top_p, top_k, one) == picks(p, at + 1)[at]);
}

/// A draw goes no further than where the probabilities, the largest first, add
/// up to it, even if together they come to more than one.
pub proof fn draws_go_no_further(p: Seq<Single>, top_p: Single, top_k: int, draw: Single, j: int)
    requires
        p.len() > 0,
        top_k > 0,
        postprocess::numbers(p),
        forall|i: int| 0 <= i < p.len() ==> !(#[trigger] p[i]).negative(),
        forall|i: int| 0 <= i < p.len() ==> !(#[trigger] p[i]).infinite(),
        forall|i: int| 0 <= i <= p.len() ==> !(#[trigger] mass(p, i)).infinite(),
        !draw.negative() && draw.magnitude() <= ONE,
        0 < j <= p.len(),
        draw.at_most(mass(p, j)),
    ensures
        p[picks(p, j)[j - 1]].at_most(p[selected(p, top_p, top_k, draw)]),
{
    let most = limit(p, top_k);
    let one = Single { bits: ONE };
    lemma_kept(p, top_p, most, 0);
    let k = kept(p, top_p, most, 0);
    lemma_masses(p, k);
    bounds::powers_are_exact(0);
    let c = capped(mass(p, k));
    let r = draw.product(c);
    assert(c.at_most(one));
    single::products_keep_order(c, one, draw);
    lemma_times_one(draw);
    assert(r == c.product(draw));
    assert(r.at_most(draw));
    let at = lemma_chosen(p, k, r, 0);
    picks_descend(p, k);
    picks_descend(p, p.len() as int);
    let all = picks(p, p.len() as int);
    lemma_picks(p, p.len() as int);
    lemma_picks(p, k);
    assert(picks(p, k) == all.take(k));
    assert(picks(p, j) == all.take(j));
    if at >= j {
        assert(!r.at_most(mass(p, j - 1 + 1)));
    }
    assert(p[all[j - 1]].at_most(p[all[at]]));
}

} // verus!
