//! Fine-tuning of the classification head: what is trained on what, in which
//! order, and when to stop.
//!
//! The standardisation statistics stay frozen, the learning rate is low and
//! training stops early; whether the new head is deployed is decided
//! elsewhere, on a fixed evaluation set.

use crate::bounds;
use crate::head;
use crate::head::{HeadView, RouterHead};
use crate::mlp;
use crate::mlp::ForwardCache;
use crate::postprocess;
use crate::postprocess::argmax;
use crate::single;
use crate::single::Single;
use crate::text;
use crate::text::decimal_text;
use vstd::arithmetic::power2::{
    lemma2_to64, lemma2_to64_rest, lemma_pow2_adds, lemma_pow2_pos, pow2,
};
use vstd::prelude::*;
use vstd::string::*;

verus! {

/// Bit pattern of 1e-4: the default learning rate and weight decay, and the
/// least gain in accuracy that counts as one.
pub const TENTH_OF_MILLE: u32 = 0x38d1_b717;

/// Multiplier of the generator's output.
pub const SCRAMBLE: u64 = 0x2545_F491_4F6C_DD1D;

/// One labelled sample: the pooled hidden state, the previous turn's tier and
/// the correct tier.
#[derive(Debug, Clone)]
pub struct TrainingSample {
    pub hidden: Vec<Single>,
    /// 0 to 3; none on a first turn.
    pub prev_tier: Option<u8>,
    /// The correct tier, 0 to 3.
    pub label: u8,
}

/// Fine-tuning parameters.
#[derive(Debug, Clone, Copy)]
pub struct FinetuneOptions {
    pub lr: Single,
    pub weight_decay: Single,
    pub batch_size: usize,
    pub max_epochs: usize,
    /// Epochs without a gain after which training stops.
    pub patience: usize,
    pub seed: u64,
}

impl FinetuneOptions {
    /// The parameters that hold where none are given.
    pub open spec fn usual() -> FinetuneOptions {
        FinetuneOptions {
            lr: Single { bits: TENTH_OF_MILLE },
            weight_decay: Single { bits: TENTH_OF_MILLE },
            batch_size: 64,
            max_epochs: 30,
            patience: 3,
            seed: 42,
        }
    }
}

impl Default for FinetuneOptions {
    fn default() -> (res: Self)
        ensures
            res == FinetuneOptions::usual(),
    {
        FinetuneOptions {
            lr: Single { bits: TENTH_OF_MILLE },
            weight_decay: Single { bits: TENTH_OF_MILLE },
            batch_size: 64,
            max_epochs: 30,
            patience: 3,
            seed: 42,
        }
    }
}

/// Outcome of a fine-tuning run.
#[derive(Debug, Clone, Copy, PartialEq, Eq, Structural)]
pub struct FinetuneReport {
    pub epochs_run: usize,
    pub train_samples: usize,
    pub eval_samples: usize,
    pub final_train_loss: Single,
    pub best_eval_acc: Single,
    /// Accuracy of the old head on the evaluation set.
    pub baseline_eval_acc: Single,
}

/// Deterministic xorshift64* generator, so that a run can be repeated.
pub struct Rng {
    pub state: u64,
}

/// The generator's state after one step.
pub open spec fn stepped(x: u64) -> u64 {
    let a = x ^ (x >> 12u64);
    let b = a ^ (a << 25u64);
    b ^ (b >> 27u64)
}

/// The number drawn in a state.
pub open spec fn drawn(x: u64) -> u64 {
    stepped(x).wrapping_mul(SCRAMBLE)
}

/// `s` with two items exchanged.
pub open spec fn exchanged(s: Seq<usize>, i: int, j: int) -> Seq<usize> {
    s.update(i, s[j]).update(j, s[i])
}

/// State and order after shuffling the places `0..=i`, from the last down:
/// each place is exchanged with one drawn among those up to it.
pub open spec fn shuffled(state: u64, s: Seq<usize>, i: int) -> (u64, Seq<usize>)
    decreases i,
{
    if i < 1 {
        (state, s)
    } else {
        shuffled(
            stepped(state),
            exchanged(s, i, drawn(state) as int % (i + 1)),
            i - 1,
        )
    }
}

impl Rng {
    /// Draws the next number.
    pub fn next_u64(&mut self) -> (res: u64)
        ensures
            final(self).state == stepped(old(self).state),
            res == drawn(old(self).state),
    {
        let mut x: u64 = self.state;
        x = x ^ (x >> 12u64);
        x = x ^ (x << 25u64);
        x = x ^ (x >> 27u64);
        self.state = x;
        x.wrapping_mul(SCRAMBLE)
    }

    /// Shuffles the items.
    pub fn shuffle(&mut self, items: &mut Vec<usize>)
        ensures
            (final(self).state, final(items)@) == shuffled(
                old(self).state,
                old(items)@,
                old(items)@.len() - 1,
            ),
            final(items)@.len() == old(items)@.len(),
            final(items)@.to_multiset() == old(items)@.to_multiset(),
    {
        let n: usize = items.len();
        if n < 2 {
            return;
        }
        let mut i: usize = n - 1;
        while i >= 1
            invariant
                i < n,
                n == items.len(),
                items.len() == old(items)@.len(),
                items@.to_multiset() == old(items)@.to_multiset(),
                shuffled(self.state, items@, i as int) == shuffled(
                    old(self).state,
                    old(items)@,
                    n - 1,
                ),
            decreases i,
        {
            let ghost before = items@;
            let ghost state = self.state;
            let r = self.next_u64();
            let j: usize = (r % (i as u64 + 1)) as usize;
            let a = items[i];
            let b = items[j];
            items.set(i, b);
            items.set(j, a);
            proof {
                lemma_exchange(before, i as int, j as int);
                assert(items@ =~= exchanged(before, i as int, j as int));
                assert(drawn(state) as int % (i + 1) == j);
            }
            i -= 1;
        }
    }
}

proof fn lemma_exchange(s: Seq<usize>, i: int, j: int)
    requires
        0 <= i < s.len(),
        0 <= j < s.len(),
    ensures
        exchanged(s, i, j).to_multiset() == s.to_multiset(),
{
    broadcast use vstd::seq_lib::group_to_multiset_ensures;

    let t = s.update(i, s[j]);
    vstd::seq_lib::to_multiset_update(s, i, s[j]);
    vstd::seq_lib::to_multiset_update(t, j, s[i]);
    if i == j {
        assert(exchanged(s, i, j) =~= s);
    } else {
        assert(t[j] == s[j]);
        assert(s.to_multiset().contains(s[i]));
        assert(exchanged(s, i, j).to_multiset() =~= s.to_multiset());
    }
}

/// The labels of the samples.
pub open spec fn labels_of(samples: Seq<TrainingSample>) -> Seq<u8> {
    samples.map_values(|s: TrainingSample| s.label)
}

/// Whether two samples have different labels.
pub open spec fn mixed(labels: Seq<u8>) -> bool {
    exists|i: int| 0 < i < labels.len() && #[trigger] labels[i] != labels[0]
}

/// Why the samples cannot be trained on, if they cannot: fewer than eight, or
/// all of one class.
pub open spec fn samples_fault(samples: Seq<TrainingSample>) -> Option<Seq<char>> {
    if samples.len() < 8 {
        Some(
            "not enough labeled samples for fine-tuning: "@ + text::decimal(samples.len())
                + " (< 8)"@,
        )
    } else if !mixed(labels_of(samples)) {
        Some(
            "fine-tuning requires >= 2 distinct classes, got {"@ + text::decimal(
                samples[0].label as nat,
            ) + "}"@,
        )
    } else {
        None
    }
}

/// What is wrong with the sample at a position, if something is: its hidden
/// state does not fit the head, or its label is no tier.
pub open spec fn sample_fault(head: HeadView, sample: TrainingSample, idx: nat) -> Option<
    Seq<char>,
> {
    if sample.hidden@.len() != head.expected() {
        Some(
            "sample "@ + text::decimal(idx) + ": hidden dim "@ + text::decimal(
                sample.hidden@.len(),
            ) + " != head expected "@ + text::decimal(head.expected()),
        )
    } else if sample.label > 3 {
        Some(
            "sample "@ + text::decimal(idx) + ": invalid label "@ + text::decimal(
                sample.label as nat,
            ),
        )
    } else {
        None
    }
}

/// The first fault among the first `n` samples.
pub open spec fn first_fault(head: HeadView, samples: Seq<TrainingSample>, n: int) -> Option<
    Seq<char>,
>
    decreases n,
{
    if n <= 0 {
        None
    } else {
        match first_fault(head, samples, n - 1) {
            Some(fault) => Some(fault),
            None => sample_fault(head, samples[n - 1], (n - 1) as nat),
        }
    }
}

/// Whether `rows` are the input layers of the samples.
pub open spec fn rows_of(
    head: HeadView,
    samples: Seq<TrainingSample>,
    rows: Seq<Vec<Single>>,
) -> bool {
    &&& rows.len() == samples.len()
    &&& forall|i: int|
        0 <= i < rows.len() ==> (#[trigger] rows[i])@ == head.input_layer(
            samples[i].hidden@,
            samples[i].prev_tier,
        )
}

proof fn lemma_first_fault(head: HeadView, samples: Seq<TrainingSample>, k: int, n: int)
    requires
        0 < k <= n,
        first_fault(head, samples, k) is Some,
    ensures
        first_fault(head, samples, n) == first_fault(head, samples, k),
    decreases n,
{
    if k < n {
        lemma_first_fault(head, samples, k, n - 1);
    }
}

/// Where there is no fault, every sample fits.
pub(crate) proof fn lemma_no_fault(head: HeadView, samples: Seq<TrainingSample>, n: int)
    requires
        0 <= n <= samples.len(),
        first_fault(head, samples, n) is None,
    ensures
        forall|i: int|
            0 <= i < n ==> (#[trigger] samples[i]).hidden@.len() == head.expected()
                && samples[i].label <= 3,
    decreases n,
{
    if n > 0 {
        lemma_no_fault(head, samples, n - 1);
    }
}

/// Tests whether there are enough samples, of more than one class.
pub fn check_samples(samples: &[TrainingSample]) -> (res: Result<(), String>)
    ensures
        match samples_fault(samples@) {
            Some(fault) => res matches Err(m) && m@ == fault,
            None => res is Ok,
        },
{
    if samples.len() < 8 {
        let mut m = "not enough labeled samples for fine-tuning: ".to_owned();
        m.append(decimal_text(samples.len() as u128).as_str());
        m.append(" (< 8)");
        return Err(m);
    }
    let ghost labels = labels_of(samples@);
    let mut i: usize = 1;
    while i < samples.len()
        invariant
            1 <= i <= samples.len(),
            samples.len() >= 8,
            labels == labels_of(samples@),
            forall|k: int| 0 < k < i ==> #[trigger] labels[k] == labels[0],
        decreases samples.len() - i,
    {
        if samples[i].label != samples[0].label {
            assert(labels[i as int] != labels[0]);
            assert(mixed(labels));
            return Ok(());
        }
        assert(labels[i as int] == labels[0]);
        i += 1;
    }
    let mut m = "fine-tuning requires >= 2 distinct classes, got {".to_owned();
    m.append(decimal_text(samples[0].label as u128).as_str());
    m.append("}");
    Err(m)
}

/// The input layers of the samples; fails at the first sample that does not
/// fit.
pub fn build_inputs(base: &RouterHead, samples: &[TrainingSample]) -> (res: Result<
    Vec<Vec<Single>>,
    String,
>)
    ensures
        match first_fault(base@, samples@, samples@.len() as int) {
            Some(fault) => res matches Err(m) && m@ == fault,
            None => {
                &&& res matches Ok(rows)
                &&& rows_of(base@, samples@, rows@)
                &&& forall|i: int| 0 <= i < samples@.len() ==> (#[trigger] samples@[i]).label <= 3
            },
        },
{
    let expected = base.expected_hidden_dim();
    let mut rows: Vec<Vec<Single>> = Vec::new();
    let mut i: usize = 0;
    while i < samples.len()
        invariant
            i <= samples.len(),
            expected == base@.expected(),
            rows.len() == i,
            first_fault(base@, samples@, i as int) is None,
            forall|k: int|
                0 <= k < i ==> (#[trigger] rows@[k])@ == base@.input_layer(
                    samples@[k].hidden@,
                    samples@[k].prev_tier,
                ),
            forall|k: int| 0 <= k < i ==> (#[trigger] samples@[k]).label <= 3,
        decreases samples.len() - i,
    {
        if samples[i].hidden.len() != expected {
            let mut m = "sample ".to_owned();
            m.append(decimal_text(i as u128).as_str());
            m.append(": hidden dim ");
            m.append(decimal_text(samples[i].hidden.len() as u128).as_str());
            m.append(" != head expected ");
            m.append(decimal_text(expected as u128).as_str());
            proof {
                lemma_first_fault(base@, samples@, i + 1, samples@.len() as int);
            }
            return Err(m);
        }
        if samples[i].label > 3 {
            let mut m = "sample ".to_owned();
            m.append(decimal_text(i as u128).as_str());
            m.append(": invalid label ");
            m.append(decimal_text(samples[i].label as u128).as_str());
            proof {
                lemma_first_fault(base@, samples@, i + 1, samples@.len() as int);
            }
            return Err(m);
        }
        rows.push(base.training_row(&samples[i].hidden, samples[i].prev_tier));
        i += 1;
    }
    Ok(rows)
}

/// Positions, in ascending order, of the samples with a label.
pub open spec fn positions(labels: Seq<u8>, class: int) -> Seq<usize>
    decreases labels.len(),
{
    if labels.len() == 0 {
        Seq::empty()
    } else if labels.last() as int == class {
        positions(labels.drop_last(), class).push((labels.len() - 1) as usize)
    } else {
        positions(labels.drop_last(), class)
    }
}

/// How many of the samples of a class are set aside: 15 in a hundred, at
/// least one, but never more than half. A lone sample is trained on.
pub open spec fn set_aside(n: int) -> int {
    let v = n * 15 / 100;
    let wanted = if v < 1 {
        1
    } else {
        v
    };
    if wanted > n / 2 {
        n / 2
    } else {
        wanted
    }
}

/// Generator state, training positions and evaluation positions once the
/// classes below `c` have been shuffled and split.
pub open spec fn split_upto(labels: Seq<u8>, seed: u64, c: int) -> (u64, Seq<usize>, Seq<usize>)
    decreases c,
{
    if c <= 0 {
        (seed, Seq::empty(), Seq::empty())
    } else {
        let (state, train, eval) = split_upto(labels, seed, c - 1);
        let own = positions(labels, c - 1);
        let (next, order) = shuffled(state, own, own.len() - 1);
        let n = set_aside(own.len() as int);
        (next, train + order.skip(n), eval + order.take(n))
    }
}

/// Positions of the samples with a label.
fn positions_of(labels: &[u8], class: u8) -> (out: Vec<usize>)
    ensures
        out@ == positions(labels@, class as int),
        out.len() <= labels.len(),
{
    let mut out: Vec<usize> = Vec::new();
    let mut i: usize = 0;
    while i < labels.len()
        invariant
            i <= labels.len(),
            out@ == positions(labels@.take(i as int), class as int),
            out.len() <= i,
        decreases labels.len() - i,
    {
        assert(labels@.take(i + 1).drop_last() =~= labels@.take(i as int));
        if labels[i] == class {
            out.push(i);
        }
        i += 1;
    }
    assert(labels@.take(labels.len() as int) =~= labels@);
    out
}

/// Splits the samples, class by class, into training and evaluation
/// positions.
pub fn split(labels: &[u8], seed: u64) -> (res: (Vec<usize>, Vec<usize>))
    ensures
        res.0@ == split_upto(labels@, seed, 4).1,
        res.1@ == split_upto(labels@, seed, 4).2,
{
    let mut rng = Rng { state: seed };
    let mut train: Vec<usize> = Vec::new();
    let mut eval: Vec<usize> = Vec::new();
    let mut c: u8 = 0;
    while c < 4
        invariant
            c <= 4,
            (rng.state, train@, eval@) == split_upto(labels@, seed, c as int),
        decreases 4 - c,
    {
        let ghost t0 = train@;
        let ghost e0 = eval@;
        let mut own = positions_of(labels, c);
        rng.shuffle(&mut own);
        let total: usize = own.len();
        let v: u128 = total as u128 * 15 / 100;
        let half: usize = total / 2;
        let wanted: u128 = if v < 1 {
            1
        } else {
            v
        };
        let n: usize = if wanted > half as u128 {
            half
        } else {
            wanted as usize
        };
        assert(n == set_aside(total as int));
        let mut k: usize = 0;
        while k < total
            invariant
                k <= total,
                n <= total,
                total == own.len(),
                train@ == t0 + own@.subrange(n as int, if k < n { n as int } else { k as int }),
                eval@ == e0 + own@.take(if k < n { k as int } else { n as int }),
            decreases total - k,
        {
            if k < n {
                eval.push(own[k]);
            } else {
                train.push(own[k]);
            }
            k += 1;
            assert(train@ =~= t0 + own@.subrange(n as int, if k < n { n as int } else { k as int }));
            assert(eval@ =~= e0 + own@.take(if k < n { k as int } else { n as int }));
        }
        assert(own@.subrange(n as int, total as int) =~= own@.skip(n as int));
        c += 1;
    }
    (train, eval)
}

/// The order of positions cut into batches, from a start on.
pub open spec fn batches_from(order: Seq<usize>, size: nat, start: int) -> Seq<Seq<usize>>
    decreases
        (if start < order.len() {
            order.len() - start
        } else {
            0
        }),
{
    if start >= order.len() {
        Seq::empty()
    } else {
        let end = if start + size < order.len() {
            start + size
        } else {
            order.len() as int
        };
        seq![order.subrange(start, end)] + batches_from(
            order,
            size,
            start + if size == 0 {
                1
            } else {
                size as int
            },
        )
    }
}

/// The positions that some vectors hold.
pub open spec fn contents(batches: Seq<Vec<usize>>) -> Seq<Seq<usize>> {
    batches.map_values(|b: Vec<usize>| b@)
}

/// Cuts an order of positions into batches.
pub fn batches(order: &[usize], size: usize) -> (out: Vec<Vec<usize>>)
    ensures
        contents(out@) == batches_from(order@, size as nat, 0),
{
    let n: usize = order.len();
    let step: usize = if size == 0 {
        1
    } else {
        size
    };
    let mut out: Vec<Vec<usize>> = Vec::new();
    let mut start: usize = 0;
    while start < n
        invariant
            n == order.len(),
            step == if size == 0 { 1 } else { size as int },
            contents(out@) + batches_from(order@, size as nat, start as int) =~= batches_from(
                order@,
                size as nat,
                0,
            ),
        decreases n - start,
    {
        let end: usize = if size < n - start {
            start + size
        } else {
            n
        };
        let mut batch: Vec<usize> = Vec::new();
        let mut k: usize = start;
        while k < end
            invariant
                start <= k <= end <= order.len(),
                batch@ == order@.subrange(start as int, k as int),
            decreases end - k,
        {
            batch.push(order[k]);
            k += 1;
            assert(batch@ =~= order@.subrange(start as int, k as int));
        }
        let ghost before = out@;
        out.push(batch);
        proof {
            let rest = batches_from(order@, size as nat, start + step);
            assert(contents(out@) =~= contents(before).push(batch@));
            assert(batches_from(order@, size as nat, start as int) =~= seq![batch@] + rest);
            assert(contents(out@) + rest =~= contents(before) + batches_from(
                order@,
                size as nat,
                start as int,
            ));
        }
        if step >= n - start {
            proof {
                assert(batches_from(order@, size as nat, start + step) =~= Seq::empty());
            }
            return out;
        }
        start += step;
    }
    out
}

/// How many probability rows have their largest item at their label.
pub open spec fn hits(rows: Seq<[Single; 4]>, labels: Seq<u8>) -> nat
    decreases rows.len(),
{
    if rows.len() == 0 {
        0
    } else {
        let n = rows.len() - 1;
        hits(rows.drop_last(), labels) + if postprocess::top(rows[n]@, 4) == labels[n] as int {
            1nat
        } else {
            0nat
        }
    }
}

/// The share of rows that hit their label, zero where there are none.
pub open spec fn hit_rate(rows: Seq<[Single; 4]>, labels: Seq<u8>) -> Single {
    if rows.len() == 0 {
        Single { bits: 0 }
    } else {
        Single::counted(hits(rows, labels) as int).quotient(Single::counted(rows.len() as int))
    }
}

/// Accuracy of predicted probabilities against the labels.
pub fn accuracy(rows: &[[Single; 4]], labels: &[u8]) -> (res: Single)
    requires
        rows.len() == labels.len(),
    ensures
        res == hit_rate(rows@, labels@),
{
    if rows.len() == 0 {
        return Single { bits: 0 };
    }
    let mut hit: u64 = 0;
    let mut i: usize = 0;
    while i < rows.len()
        invariant
            i <= rows.len(),
            rows.len() == labels.len(),
            hit <= i,
            hit == hits(rows@.take(i as int), labels@),
        decreases rows.len() - i,
    {
        assert(rows@.take(i + 1).drop_last() =~= rows@.take(i as int));
        if argmax(&rows[i]) == labels[i] as usize {
            hit += 1;
        }
        i += 1;
    }
    assert(rows@.take(rows.len() as int) =~= rows@);
    Single::from_count(hit).over(Single::from_count(rows.len() as u64))
}

/// Everything a run works on: the input layers and labels of the samples, the
/// positions trained on, and the evaluation set.
pub struct Plan {
    pub rows: Vec<Vec<Single>>,
    pub labels: Vec<u8>,
    pub train: Vec<usize>,
    pub eval_rows: Vec<Vec<Single>>,
    pub eval_labels: Vec<u8>,
}

/// Whether an evaluation set was handed in.
pub open spec fn given(eval_samples: Option<&[TrainingSample]>) -> bool {
    eval_samples matches Some(ev) && ev@.len() > 0
}

/// Why a run cannot start, if it cannot.
pub open spec fn plan_fault(
    head: HeadView,
    samples: Seq<TrainingSample>,
    eval_samples: Option<&[TrainingSample]>,
) -> Option<Seq<char>> {
    match samples_fault(samples) {
        Some(fault) => Some(fault),
        None => match first_fault(head, samples, samples.len() as int) {
            Some(fault) => Some(fault),
            None => if given(eval_samples) {
                first_fault(head, eval_samples->0@, eval_samples->0@.len() as int)
            } else {
                None
            },
        },
    }
}

/// Whether a plan is the one for these samples: with an evaluation set handed
/// in, every sample is trained on; without one, part of each class is set
/// aside for evaluation.
pub open spec fn planned(
    head: HeadView,
    samples: Seq<TrainingSample>,
    eval_samples: Option<&[TrainingSample]>,
    seed: u64,
    plan: Plan,
) -> bool {
    &&& rows_of(head, samples, plan.rows@)
    &&& plan.labels@ == labels_of(samples)
    &&& plan.eval_rows@.len() == plan.eval_labels@.len()
    &&& if given(eval_samples) {
        &&& plan.train@ == Seq::new(samples.len(), |i: int| i as usize)
        &&& rows_of(head, eval_samples->0@, plan.eval_rows@)
        &&& plan.eval_labels@ == labels_of(eval_samples->0@)
    } else {
        let parts = split_upto(labels_of(samples), seed, 4);
        &&& plan.train@ == parts.1
        &&& plan.eval_rows@.len() == parts.2.len()
        &&& forall|k: int|
            0 <= k < parts.2.len() ==> (#[trigger] plan.eval_rows@[k])@
                == plan.rows@[parts.2[k] as int]@ && plan.eval_labels@[k]
                == plan.labels@[parts.2[k] as int]
    }
}

/// The labels of the samples.
fn copy_labels(samples: &[TrainingSample]) -> (out: Vec<u8>)
    ensures
        out@ == labels_of(samples@),
{
    let mut out: Vec<u8> = Vec::new();
    let mut i: usize = 0;
    while i < samples.len()
        invariant
            i <= samples.len(),
            out@ == labels_of(samples@).take(i as int),
        decreases samples.len() - i,
    {
        out.push(samples[i].label);
        i += 1;
        assert(out@ =~= labels_of(samples@).take(i as int));
    }
    assert(out@ =~= labels_of(samples@));
    out
}

/// Prepares a run on `samples`. The evaluation set is the one handed in, or
/// part of each class set aside.
pub fn prepare(
    base: &RouterHead,
    samples: &[TrainingSample],
    eval_samples: Option<&[TrainingSample]>,
    seed: u64,
) -> (res: Result<Plan, String>)
    ensures
        match plan_fault(base@, samples@, eval_samples) {
            Some(fault) => res matches Err(m) && m@ == fault,
            None => res matches Ok(plan) && planned(base@, samples@, eval_samples, seed, plan),
        },
{
    match check_samples(samples) {
        Err(m) => {
            return Err(m);
        },
        Ok(_) => {},
    }
    let rows = match build_inputs(base, samples) {
        Err(m) => {
            return Err(m);
        },
        Ok(rows) => rows,
    };
    let labels = copy_labels(samples);
    if let Some(ev) = eval_samples {
        if ev.len() > 0 {
            let eval_rows = match build_inputs(base, ev) {
                Err(m) => {
                    return Err(m);
                },
                Ok(rows) => rows,
            };
            let mut train: Vec<usize> = Vec::new();
            let mut i: usize = 0;
            while i < samples.len()
                invariant
                    i <= samples.len(),
                    train@ == Seq::new(i as nat, |i: int| i as usize),
                decreases samples.len() - i,
            {
                train.push(i);
                i += 1;
                assert(train@ =~= Seq::new(i as nat, |i: int| i as usize));
            }
            let eval_labels = copy_labels(ev);
            return Ok(Plan { rows, labels, train, eval_rows, eval_labels });
        }
    }
    let (train, eval) = split(&labels, seed);
    let count: usize = labels.len();
    proof {
        assert(labels@.len() == count);
        lemma_split_range(labels@, seed, 4);
    }
    let mut eval_rows: Vec<Vec<Single>> = Vec::new();
    let mut eval_labels: Vec<u8> = Vec::new();
    let mut k: usize = 0;
    while k < eval.len()
        invariant
            k <= eval.len(),
            rows.len() == labels.len(),
            forall|j: int| 0 <= j < eval@.len() ==> #[trigger] eval@[j] < rows.len(),
            eval_rows.len() == k,
            eval_labels.len() == k,
            forall|j: int|
                0 <= j < k ==> (#[trigger] eval_rows@[j])@ == rows@[eval@[j] as int]@
                    && eval_labels@[j] == labels@[eval@[j] as int],
        decreases eval.len() - k,
    {
        let at = eval[k];
        eval_rows.push(head::duplicated(&rows[at]));
        eval_labels.push(labels[at]);
        k += 1;
    }
    Ok(Plan { rows, labels, train, eval_rows, eval_labels })
}

/// Positions with a label are positions of samples with that label.
proof fn lemma_positions(labels: Seq<u8>, class: int)
    requires
        labels.len() <= usize::MAX,
    ensures
        forall|k: int|
            0 <= k < positions(labels, class).len() ==> (#[trigger] positions(labels, class)[k])
                < labels.len() && labels[positions(labels, class)[k] as int] as int == class,
    decreases labels.len(),
{
    if labels.len() > 0 {
        let front = labels.drop_last();
        lemma_positions(front, class);
        let all = positions(labels, class);
        let past = positions(front, class);
        assert forall|k: int| 0 <= k < all.len() implies (#[trigger] all[k]) < labels.len()
            && labels[all[k] as int] as int == class by {
            if k < past.len() {
                assert(all[k] == past[k]);
            }
        }
    }
}

/// Shuffling keeps the items and their number.
pub(crate) proof fn lemma_shuffled(state: u64, s: Seq<usize>, i: int)
    requires
        i < s.len(),
    ensures
        shuffled(state, s, i).1.to_multiset() == s.to_multiset(),
        shuffled(state, s, i).1.len() == s.len(),
    decreases i,
{
    if i >= 1 {
        let j = drawn(state) as int % (i + 1);
        lemma_exchange(s, i, j);
        lemma_shuffled(stepped(state), exchanged(s, i, j), i - 1);
    }
}

/// Every position of a split is a position of a sample.
pub(crate) proof fn lemma_split_range(labels: Seq<u8>, seed: u64, c: int)
    requires
        labels.len() <= usize::MAX,
        0 <= c <= 4,
    ensures
        forall|k: int|
            0 <= k < split_upto(labels, seed, c).1.len() ==> (#[trigger] split_upto(
                labels,
                seed,
                c,
            ).1[k]) < labels.len(),
        forall|k: int|
            0 <= k < split_upto(labels, seed, c).2.len() ==> (#[trigger] split_upto(
                labels,
                seed,
                c,
            ).2[k]) < labels.len(),
    decreases c,
{
    broadcast use vstd::seq_lib::group_to_multiset_ensures;

    if c > 0 {
        lemma_split_range(labels, seed, c - 1);
        let (state, train, eval) = split_upto(labels, seed, c - 1);
        let own = positions(labels, c - 1);
        lemma_positions(labels, c - 1);
        lemma_shuffled(state, own, own.len() - 1);
        let order = shuffled(state, own, own.len() - 1).1;
        let n = set_aside(own.len() as int);
        assert forall|k: int| 0 <= k < order.len() implies (#[trigger] order[k])
            < labels.len() by {
            assert(order.to_multiset().count(order[k]) > 0);
            assert(own.to_multiset().count(order[k]) > 0);
            assert(own.contains(order[k]));
        }
        let all = split_upto(labels, seed, c);
        assert forall|k: int| 0 <= k < all.1.len() implies (#[trigger] all.1[k])
            < labels.len() by {
            if k >= train.len() {
                assert(all.1[k] == order[k - train.len() + n]);
            }
        }
        assert forall|k: int| 0 <= k < all.2.len() implies (#[trigger] all.2[k])
            < labels.len() by {
            if k >= eval.len() {
                assert(all.2[k] == order[k - eval.len()]);
            }
        }
    }
}

/// A run: the order of the training positions, the generator, and how far
/// training has come.
pub struct Run {
    pub order: Vec<usize>,
    pub rng: Rng,
    pub opts: FinetuneOptions,
    pub baseline: Single,
    pub best: Single,
    pub stale: usize,
    pub epochs_run: usize,
    pub final_train_loss: Single,
    pub stopped: bool,
}

/// Whether an accuracy counts as a gain over the best one so far.
pub open spec fn gains(best: Single, acc: Single) -> bool {
    best.sum(Single { bits: TENTH_OF_MILLE }).below(acc)
}

impl Run {
    /// Whether another epoch is due.
    pub open spec fn due(self) -> bool {
        !self.stopped && self.epochs_run < self.opts.max_epochs
    }

    /// Starts a run whose old head has the accuracy `baseline` on the
    /// evaluation set.
    pub fn start(train: &[usize], opts: &FinetuneOptions, baseline: Single) -> (run: Run)
        ensures
            run.order@ == train@,
            run.rng.state == opts.seed.wrapping_add(1),
            run.opts == *opts,
            run.baseline == baseline,
            run.best == baseline,
            run.stale == 0,
            run.epochs_run == 0,
            run.final_train_loss.bits == 0,
            !run.stopped,
    {
        let mut order: Vec<usize> = Vec::new();
        let mut i: usize = 0;
        while i < train.len()
            invariant
                i <= train.len(),
                order@ == train@.take(i as int),
            decreases train.len() - i,
        {
            order.push(train[i]);
            i += 1;
            assert(order@ =~= train@.take(i as int));
        }
        assert(train@.take(train.len() as int) =~= train@);
        Run {
            order,
            rng: Rng { state: opts.seed.wrapping_add(1) },
            opts: *opts,
            baseline,
            best: baseline,
            stale: 0,
            epochs_run: 0,
            final_train_loss: Single { bits: 0 },
            stopped: false,
        }
    }

    /// The batches of the next epoch, or nothing where training is over: the
    /// positions are shuffled anew and cut into batches.
    pub fn next_epoch(&mut self) -> (res: Option<Vec<Vec<usize>>>)
        ensures
            !old(self).due() ==> res is None && *final(self) == *old(self),
            old(self).due() ==> {
                let (state, order) = shuffled(
                    old(self).rng.state,
                    old(self).order@,
                    old(self).order@.len() - 1,
                );
                &&& res matches Some(out)
                &&& contents(out@) == batches_from(order, old(self).opts.batch_size as nat, 0)
                &&& final(self).order@ == order
                &&& final(self).rng.state == state
                &&& *final(self) == (Run {
                    order: final(self).order,
                    rng: final(self).rng,
                    ..*old(self)
                })
            },
    {
        if self.stopped || self.epochs_run >= self.opts.max_epochs {
            return None;
        }
        self.rng.shuffle(&mut self.order);
        Some(batches(&self.order, self.opts.batch_size))
    }

    /// Books an epoch that was trained on `count` batches with the summed
    /// loss `loss` and led to the accuracy `acc`. Returns whether the weights
    /// are the best ones so far; training stops after too many epochs without
    /// a gain.
    pub fn finish_epoch(&mut self, loss: Single, count: usize, acc: Single) -> (improved: bool)
        requires
            old(self).due(),
            old(self).stale <= old(self).epochs_run,
        ensures
            improved == gains(old(self).best, acc),
            final(self).epochs_run == old(self).epochs_run + 1,
            final(self).stale == if improved {
                0
            } else {
                old(self).stale + 1
            },
            final(self).stale <= final(self).epochs_run,
            final(self).best == if improved {
                acc
            } else {
                old(self).best
            },
            final(self).stopped == (!improved && old(self).stale + 1 >= old(self).opts.patience),
            final(self).final_train_loss == if count > 0 {
                loss.quotient(Single::counted(count as int))
            } else {
                Single { bits: 0 }
            },
            *final(self) == (Run {
                epochs_run: final(self).epochs_run,
                stale: final(self).stale,
                best: final(self).best,
                stopped: final(self).stopped,
                final_train_loss: final(self).final_train_loss,
                ..*old(self)
            }),
    {
        self.epochs_run = self.epochs_run + 1;
        self.final_train_loss = if count > 0 {
            loss.over(Single::from_count(count as u64))
        } else {
            Single { bits: 0 }
        };
        if self.best.plus(Single { bits: TENTH_OF_MILLE }).less(acc) {
            self.best = acc;
            self.stale = 0;
            true
        } else {
            self.stale = self.stale + 1;
            if self.stale >= self.opts.patience {
                self.stopped = true;
            }
            false
        }
    }

    /// The report of a run over a plan.
    pub fn report(&self, plan: &Plan) -> (res: FinetuneReport)
        ensures
            res.epochs_run == self.epochs_run,
            res.train_samples == plan.train@.len(),
            res.eval_samples == plan.eval_rows@.len(),
            res.final_train_loss == self.final_train_loss,
            res.best_eval_acc == self.best,
            res.baseline_eval_acc == self.baseline,
    {
        FinetuneReport {
            epochs_run: self.epochs_run,
            train_samples: plan.train.len(),
            eval_samples: plan.eval_rows.len(),
            final_train_loss: self.final_train_loss,
            best_eval_acc: self.best,
            baseline_eval_acc: self.baseline,
        }
    }
}

/// How often a position occurs among those of the classes below `c`.
spec fn class_count(labels: Seq<u8>, c: int, x: usize) -> nat
    decreases c,
{
    if c <= 0 {
        0
    } else {
        class_count(labels, c - 1, x) + positions(labels, c - 1).to_multiset().count(x)
    }
}

proof fn lemma_class_count(labels: Seq<u8>, c: int, x: usize)
    requires
        labels.len() <= usize::MAX,
        0 <= c <= 4,
    ensures
        class_count(labels, c, x) == if x < labels.len() && labels[x as int] < c {
            1nat
        } else {
            0nat
        },
    decreases labels.len(), c,
{
    broadcast use vstd::seq_lib::group_to_multiset_ensures;

    if c > 0 {
        lemma_class_count(labels, c - 1, x);
        if labels.len() == 0 {
            assert(positions(labels, c - 1).to_multiset().count(x) == 0) by {
                if positions(labels, c - 1).to_multiset().count(x) > 0 {
                    assert(positions(labels, c - 1).contains(x));
                }
            }
        } else {
            let front = labels.drop_last();
            lemma_class_count(front, c, x);
            lemma_class_count(front, c - 1, x);
            let own = positions(labels, c - 1);
            let past = positions(front, c - 1);
            if labels.last() as int == c - 1 {
                assert(own.to_multiset() =~= past.to_multiset().insert(
                    (labels.len() - 1) as usize,
                ));
            }
        }
    }
}

proof fn lemma_split_count(labels: Seq<u8>, seed: u64, c: int, x: usize)
    requires
        0 <= c <= 4,
    ensures
        split_upto(labels, seed, c).1.to_multiset().count(x) + split_upto(
            labels,
            seed,
            c,
        ).2.to_multiset().count(x) == class_count(labels, c, x),
    decreases c,
{
    broadcast use vstd::seq_lib::group_to_multiset_ensures;

    if c > 0 {
        lemma_split_count(labels, seed, c - 1, x);
        let (state, train, eval) = split_upto(labels, seed, c - 1);
        let own = positions(labels, c - 1);
        lemma_shuffled(state, own, own.len() - 1);
        let order = shuffled(state, own, own.len() - 1).1;
        let n = set_aside(own.len() as int);
        assert(0 <= n <= order.len());
        assert(order =~= order.take(n) + order.skip(n));
        vstd::seq_lib::lemma_multiset_commutative(order.take(n), order.skip(n));
        vstd::seq_lib::lemma_multiset_commutative(train, order.skip(n));
        vstd::seq_lib::lemma_multiset_commutative(eval, order.take(n));
    } else {
        assert(Seq::<usize>::empty().to_multiset().count(x) == 0) by {
            if Seq::<usize>::empty().to_multiset().count(x) > 0 {
                assert(Seq::<usize>::empty().contains(x));
            }
        }
    }
}

/// A split uses every sample exactly once, either for training or for
/// evaluation.
pub proof fn split_is_a_partition(labels: Seq<u8>, seed: u64, x: usize)
    requires
        labels.len() <= usize::MAX,
        forall|i: int| 0 <= i < labels.len() ==> (#[trigger] labels[i]) <= 3,
    ensures
        split_upto(labels, seed, 4).1.to_multiset().count(x) + split_upto(
            labels,
            seed,
            4,
        ).2.to_multiset().count(x) == if x < labels.len() {
            1nat
        } else {
            0nat
        },
{
    lemma_split_count(labels, seed, 4, x);
    lemma_class_count(labels, 4, x);
}

/// Of every class that occurs and can be split, at least one sample is set
/// aside for evaluation, and at least as many are trained on.
pub proof fn every_class_is_on_both_sides(n: int)
    requires
        n >= 2,
    ensures
        1 <= set_aside(n) <= n - set_aside(n),
{
}

/// All batches, one behind the other.
pub open spec fn joined(batches: Seq<Seq<usize>>) -> Seq<usize>
    decreases batches.len(),
{
    if batches.len() == 0 {
        Seq::empty()
    } else {
        batches[0] + joined(batches.skip(1))
    }
}

/// With a positive batch size every position is in exactly one batch, in
/// order, and no batch is empty or too large.
pub proof fn batches_cover(order: Seq<usize>, size: nat, start: int)
    requires
        size > 0,
        0 <= start <= order.len(),
    ensures
        joined(batches_from(order, size, start)) == order.skip(start),
        forall|k: int|
            0 <= k < batches_from(order, size, start).len() ==> 0 < (#[trigger] batches_from(
                order,
                size,
                start,
            )[k]).len() <= size,
    decreases order.len() - start,
{
    let all = batches_from(order, size, start);
    if start < order.len() {
        let end = if start + size < order.len() {
            start + size
        } else {
            order.len() as int
        };
        let rest = batches_from(order, size, start + size as int);
        assert(all.skip(1) =~= rest);
        if start + size <= order.len() {
            batches_cover(order, size, start + size as int);
            assert(order.subrange(start, end) + order.skip(end) =~= order.skip(start));
        } else {
            assert(rest =~= Seq::empty());
            assert(order.subrange(start, end) =~= order.skip(start));
            assert(joined(rest) =~= Seq::empty());
            assert(joined(all) =~= order.skip(start));
        }
        assert forall|k: int| 0 <= k < all.len() implies 0 < (#[trigger] all[k]).len()
            <= size by {
            if k > 0 {
                assert(all[k] == rest[k - 1]);
            }
        }
    } else {
        assert(joined(all) =~= order.skip(start));
    }
}

/// The best accuracy of a run never falls: an epoch that counts as a gain has
/// an accuracy no lower than the best one before.
pub proof fn gains_never_lose(best: Single, acc: Single)
    requires
        !best.nan() && !best.infinite() && !best.negative(),
        gains(best, acc),
    ensures
        best.below(acc),
{
    crate::single::sum_is_no_less(best, Single { bits: TENTH_OF_MILLE });
}

/// Whether a number lies between zero and one.
pub open spec fn is_share(x: Single) -> bool {
    !x.nan() && !x.infinite() && !x.negative() && x.magnitude() <= 0x3f80_0000
}

/// An accuracy lies between zero and one.
pub proof fn accuracy_is_a_share(rows: Seq<[Single; 4]>, labels: Seq<u8>)
    requires
        rows.len() <= u64::MAX,
    ensures
        hits(rows, labels) <= rows.len(),
        is_share(hit_rate(rows, labels)),
    decreases rows.len(),
{
    if rows.len() > 0 {
        accuracy_is_a_share(rows.drop_last(), labels);
        single::shares_are_at_most_one(
            hits(rows, labels) as int,
            rows.len() as int,
        );
    }
}

/// Training sees what requests see: a pass over the row of a sample, with the
/// parameters of the head, gives the probabilities that the head gives the
/// hidden state of the sample, and no others.
pub proof fn training_rows_classify_alike<T: Fn(Single) -> Single, X: Fn(Single) -> Single>(
    head: HeadView,
    samples: Seq<TrainingSample>,
    rows: Seq<Vec<Single>>,
    tanh: T,
    exp: X,
    i: int,
    probs: [Single; 4],
)
    requires
        rows_of(head, samples, rows),
        0 <= i < samples.len(),
    ensures
        head.classifies(samples[i].hidden@, samples[i].prev_tier, tanh, exp, probs) <==> exists|
            c: ForwardCache,
        | #[trigger]
            mlp::passed(rows[i]@, head.weights, tanh, exp, c) && c.probs == probs,
{
    assert(rows[i]@ == head.input_layer(samples[i].hidden@, samples[i].prev_tier));
}

/// The positions of the rows that lead at their label.
pub open spec fn hit_positions(rows: Seq<[Single; 4]>, labels: Seq<u8>) -> Set<int> {
    Set::new(|i: int| 0 <= i < rows.len() && postprocess::leads(rows[i]@, labels[i] as int))
}

/// Exact hits are counted, and nothing else: of rows of numbers, those whose
/// largest item stands at the label.
pub proof fn only_exact_hits_count(rows: Seq<[Single; 4]>, labels: Seq<u8>)
    requires
        forall|i: int| 0 <= i < rows.len() ==> postprocess::numbers((#[trigger] rows[i])@),
    ensures
        hit_positions(rows, labels).finite(),
        hits(rows, labels) == hit_positions(rows, labels).len(),
    decreases rows.len(),
{
    let all = hit_positions(rows, labels);
    if rows.len() == 0 {
        assert(all =~= Set::empty());
    } else {
        let n = rows.len() - 1;
        let front = rows.drop_last();
        assert forall|i: int| 0 <= i < front.len() implies postprocess::numbers(
            (#[trigger] front[i])@,
        ) by {
            assert(rows[i] == front[i]);
        }
        only_exact_hits_count(front, labels);
        let some = hit_positions(front, labels);
        postprocess::one_leads(rows[n]@, labels[n] as int);
        if all.contains(n) {
            assert(all =~= some.insert(n));
        } else {
            assert(all =~= some);
        }
    }
}

/// An accuracy is the number nearest to the share of exact hits: zero where
/// there is none, one where all are.
pub proof fn accuracy_is_the_share_of_hits(rows: Seq<[Single; 4]>, labels: Seq<u8>)
    requires
        0 < rows.len() <= 0x100_0000,
        forall|i: int| 0 <= i < rows.len() ==> postprocess::numbers((#[trigger] rows[i])@),
    ensures
        !hit_rate(rows, labels).negative(),
        single::nearest(
            hit_rate(rows, labels).magnitude(),
            (hit_positions(rows, labels).len() * pow2(149)) as int,
            rows.len() as int,
        ),
{
    only_exact_hits_count(rows, labels);
    accuracy_is_a_share(rows, labels);
    single::shares_are_nearest(hits(rows, labels) as int, rows.len() as int);
}

/// Samples can be trained on where there are eight or more, and two of them
/// have different labels.
pub proof fn eight_samples_of_two_classes_suffice(samples: Seq<TrainingSample>)
    ensures
        samples_fault(samples) is None <==> samples.len() >= 8 && exists|i: int, j: int|
            0 <= i < samples.len() && 0 <= j < samples.len() && (#[trigger] samples[i]).label != (
            #[trigger] samples[j]).label,
{
    let labels = labels_of(samples);
    if mixed(labels) {
        let i = choose|i: int| 0 < i < labels.len() && #[trigger] labels[i] != labels[0];
        assert(samples[i].label != samples[0].label);
    }
    if exists|i: int, j: int|
        0 <= i < samples.len() && 0 <= j < samples.len() && (#[trigger] samples[i]).label != (
        #[trigger] samples[j]).label {
        let (i, j) = choose|i: int, j: int|
            0 <= i < samples.len() && 0 <= j < samples.len() && (#[trigger] samples[i]).label != (
            #[trigger] samples[j]).label;
        assert(labels[i] != labels[j]);
        assert(labels[i] != labels[0] || labels[j] != labels[0]);
    }
}

/// Of a class of seven or more, 15 in a hundred are set aside, rounded down; of
/// a smaller one a single sample, and of a lone one none.
pub proof fn fifteen_in_a_hundred_are_set_aside(n: int)
    requires
        0 <= n,
    ensures
        n >= 7 ==> 100 * set_aside(n) <= 15 * n < 100 * set_aside(n) + 100,
        2 <= n < 7 ==> set_aside(n) == 1,
        n < 2 ==> set_aside(n) == 0,
{
}

/// The positions with a label.
pub open spec fn labelled(at: Seq<usize>, labels: Seq<u8>, class: int) -> Seq<usize> {
    at.filter(|x: usize| labels[x as int] == class)
}

proof fn lemma_all_labelled(at: Seq<usize>, labels: Seq<u8>, class: int, own: int)
    requires
        forall|k: int| 0 <= k < at.len() ==> labels[(#[trigger] at[k]) as int] == own,
    ensures
        labelled(at, labels, class) == if class == own {
            at
        } else {
            Seq::empty()
        },
    decreases at.len(),
{
    reveal(Seq::filter);
    if at.len() > 0 {
        let front = at.drop_last();
        assert forall|k: int| 0 <= k < front.len() implies labels[(#[trigger] front[k]) as int]
            == own by {
            assert(at[k] == front[k]);
        }
        lemma_all_labelled(front, labels, class, own);
        assert(labels[at[at.len() - 1] as int] == own);
        assert(at =~= front.push(at.last()));
    }
}

proof fn lemma_class_positions(labels: Seq<u8>, class: int, whole: Seq<u8>)
    requires
        labels.len() <= whole.len() <= usize::MAX,
        labels == whole.take(labels.len() as int),
    ensures
        forall|k: int|
            0 <= k < positions(labels, class).len() ==> (#[trigger] positions(labels, class)[k])
                < labels.len() && whole[positions(labels, class)[k] as int] == class,
        positions(labels, class).len() == labels.filter(|l: u8| l == class).len(),
    decreases labels.len(),
{
    reveal(Seq::filter);
    if labels.len() > 0 {
        let front = labels.drop_last();
        assert(front =~= whole.take(front.len() as int));
        lemma_class_positions(front, class, whole);
        let n = labels.len() - 1;
        assert(labels.last() == whole[n]);
    }
}

/// Every class is split by itself: of its samples, as many are set aside for
/// evaluation as its size says, and all the others are trained on.
pub proof fn classes_are_split_apart(labels: Seq<u8>, seed: u64, class: int, c: int)
    requires
        labels.len() <= usize::MAX,
        0 <= class < 4,
        0 <= c <= 4,
    ensures
        ({
            let parts = split_upto(labels, seed, c);
            let n = labels.filter(|l: u8| l == class).len() as int;
            let aside = if class < c {
                set_aside(n)
            } else {
                0
            };
            &&& labelled(parts.2, labels, class).len() == aside
            &&& labelled(parts.1, labels, class).len() == if class < c {
                n - aside
            } else {
                0
            }
        }),
    decreases c,
{
    reveal(Seq::filter);
    let f = |x: usize| labels[x as int] == class;
    if c > 0 {
        classes_are_split_apart(labels, seed, class, c - 1);
        let (state, train, eval) = split_upto(labels, seed, c - 1);
        let own = positions(labels, c - 1);
        assert(labels =~= labels.take(labels.len() as int));
        lemma_class_positions(labels, c - 1, labels);
        lemma_shuffled(state, own, own.len() - 1);
        let order = shuffled(state, own, own.len() - 1).1;
        let n = set_aside(own.len() as int);
        assert forall|k: int| 0 <= k < order.len() implies labels[(#[trigger] order[k]) as int]
            == c - 1 by {
            broadcast use vstd::seq_lib::group_to_multiset_ensures;

            assert(order.to_multiset().count(order[k]) > 0);
            assert(own.contains(order[k]));
        }
        fifteen_in_a_hundred_are_set_aside(own.len() as int);
        assert(0 <= n <= own.len());
        lemma_all_labelled(order.skip(n), labels, class, c - 1);
        lemma_all_labelled(order.take(n), labels, class, c - 1);
        Seq::filter_distributes_over_add(train, order.skip(n), f);
        Seq::filter_distributes_over_add(eval, order.take(n), f);
        assert(labelled(train + order.skip(n), labels, class) == labelled(train, labels, class)
            + labelled(order.skip(n), labels, class));
        assert(labelled(eval + order.take(n), labels, class) == labelled(eval, labels, class)
            + labelled(order.take(n), labels, class));
    }
}

/// Shuffling goes by the generator: the last place gets the item whose position
/// is the number drawn, modulo how many items there are, and the others are
/// shuffled on with the next state.
pub proof fn shuffles_go_by_the_draws(state: u64, s: Seq<usize>)
    requires
        s.len() >= 2,
    ensures
        ({
            let n = s.len() - 1;
            let j = drawn(state) as int % s.len() as int;
            let out = shuffled(state, s, n).1;
            &&& out[n] == s[j]
            &&& out.take(n) == shuffled(stepped(state), s.update(j, s[n]).take(n), n - 1).1
            &&& out.to_multiset() == s.to_multiset()
        }),
{
    let n = s.len() - 1;
    let j = drawn(state) as int % s.len() as int;
    let next = exchanged(s, n, j);
    lemma_shuffled(state, s, n);
    lemma_shuffle_front(stepped(state), next, n - 1, n);
    assert(0 <= j <= n);
    assert(next[n] == s[j]);
    assert(shuffled(state, s, n) == shuffled(stepped(state), next, n - 1));
    assert(shuffled(stepped(state), next, n - 1).1[n] == next[n]);
    assert(next.take(n) =~= s.update(j, s[n]).take(n));
}

proof fn lemma_shuffle_front(state: u64, s: Seq<usize>, i: int, n: int)
    requires
        0 <= n,
        i < n <= s.len(),
    ensures
        forall|k: int| n <= k < s.len() ==> #[trigger] shuffled(state, s, i).1[k] == s[k],
        shuffled(state, s, i).1.len() == s.len(),
        shuffled(state, s, i).1.take(n) == shuffled(state, s.take(n), i).1,
    decreases i,
{
    if i >= 1 {
        let j = drawn(state) as int % (i + 1);
        let next = exchanged(s, i, j);
        lemma_shuffle_front(stepped(state), next, i - 1, n);
        assert(0 <= j <= i);
        assert(next.take(n) =~= exchanged(s.take(n), i, j));
        assert forall|k: int| n <= k < s.len() implies #[trigger] shuffled(state, s, i).1[k]
            == s[k] by {
            assert(next[k] == s[k]);
            assert(shuffled(stepped(state), next, i - 1).1[k] == next[k]);
        }
    }
}

/// A gain is more than a ten-thousandth: what is higher by less than two to the
/// minus 14th is none, and what is higher by two to the minus 13th is one.
pub proof fn gains_exceed_a_ten_thousandth(best: Single, acc: Single)
    requires
        is_share(best),
        is_share(acc),
    ensures
        gains(best, acc) ==> acc.value() > best.value() + pow2(135),
        acc.value() >= best.value() + pow2(136) ==> gains(best, acc),
{
    let t = Single { bits: TENTH_OF_MILLE };
    lemma2_to64();
    crate::bounds::powers_are_exact(0);
    crate::bounds::powers_are_exact(1);
    single::lemma_span(112, 0xd1_b717);
    lemma_pow2_adds(23, 112);
    lemma_pow2_adds(24, 112);
    lemma_pow2_adds(13, 112);
    lemma_pow2_adds(1, 149);
    lemma_pow2_adds(14, 135);
    lemma_pow2_adds(13, 136);
    lemma_pow2_adds(1, 135);
    lemma_pow2_pos(112);
    let p = pow2(112) as int;
    assert(t.value() == 0xd1_b717 * p);
    let v = best.value() + t.value();
    single::lemma_span(0, 0);
    if best.magnitude() > 0 {
        single::span_increasing(0, best.magnitude());
    }
    if best.magnitude() < 0x3f80_0000 {
        single::span_increasing(best.magnitude(), 0x3f80_0000);
    }
    let sum = best.sum(t);
    single::rounded_is_nearest(v, 1);
    single::rounding_respects_order(v, 1, crate::bounds::power(1));
    assert(sum == single::signed(false, single::rounded(v, 1)));
    let m = acc.magnitude();
    if acc.value() >= best.value() + pow2(136) && !gains(best, acc) {
        assert(m > 0);
        crate::distribution::lemma_gap(m - 1, 127);
        lemma_pow2_adds(11, 125);
        single::rounding_respects_order(v, 1, m - 1);
    }
    if gains(best, acc) {
        single::rounding_respects_order(v, 1, sum.magnitude());
        crate::distribution::lemma_gap(sum.magnitude(), 127);
        single::rounding_respects_order(v, 1, m);
        lemma_pow2_adds(10, 125);
        if acc.value() <= best.value() + pow2(135) {
            assert(acc.value() <= v);
        }
    }
}

/// Samples can be trained on exactly where the hidden state of each fits the
/// head and its label is a tier.
pub proof fn misfits_are_refused(head: HeadView, samples: Seq<TrainingSample>, n: int)
    requires
        0 <= n <= samples.len(),
    ensures
        first_fault(head, samples, n) is None <==> forall|i: int|
            0 <= i < n ==> (#[trigger] samples[i]).hidden@.len() == head.expected()
                && samples[i].label <= 3,
    decreases n,
{
    if n > 0 {
        misfits_are_refused(head, samples, n - 1);
        let last = samples[n - 1];
        assert(sample_fault(head, last, (n - 1) as nat) is None <==> last.hidden@.len()
            == head.expected() && last.label <= 3);
    }
}

/// A plan trains on what the head makes of each sample, under the label of the
/// sample. Evaluation samples that are given are evaluated on, and then every
/// sample is trained on.
pub proof fn plans_follow_the_samples(
    head: HeadView,
    samples: Seq<TrainingSample>,
    eval_samples: Option<&[TrainingSample]>,
    seed: u64,
    plan: Plan,
    i: int,
)
    requires
        plan_fault(head, samples, eval_samples) is None,
        planned(head, samples, eval_samples, seed, plan),
        samples.len() <= usize::MAX,
    ensures
        plan.rows@.len() == samples.len() && plan.labels@.len() == samples.len(),
        0 <= i < samples.len() ==> plan.labels@[i] == samples[i].label && plan.rows@[i]@
            == head.input_layer(samples[i].hidden@, samples[i].prev_tier),
        eval_samples matches Some(ev) ==> (ev@.len() > 0 ==> {
            &&& plan.eval_rows@.len() == ev@.len()
            &&& plan.train@.len() == samples.len()
            &&& 0 <= i < ev@.len() ==> plan.eval_labels@[i] == ev@[i].label
                && plan.eval_rows@[i]@ == head.input_layer(ev@[i].hidden@, ev@[i].prev_tier)
            &&& 0 <= i < samples.len() ==> plan.train@[i] == i
        }),
        eval_samples is None && 0 <= i < plan.eval_rows@.len() ==> exists|k: int|
            0 <= k < samples.len() && !plan.train@.contains(k as usize) && plan.eval_labels@[i]
                == samples[k].label && plan.eval_rows@[i]@ == (#[trigger] plan.rows@[k])@,
{
    misfits_are_refused(head, samples, samples.len() as int);
    if eval_samples is None && 0 <= i < plan.eval_rows@.len() {
        let labels = labels_of(samples);
        assert forall|k: int| 0 <= k < labels.len() implies (#[trigger] labels[k]) <= 3 by {
            assert(samples[k].label <= 3);
        }
        let parts = split_upto(labels, seed, 4);
        lemma_split_range(labels, seed, 4);
        let x = parts.2[i];
        assert(plan.eval_rows@[i]@ == plan.rows@[x as int]@);
        split_is_a_partition(labels, seed, x);
        assert(parts.2.contains(x));
        assert(plan.labels@[x as int] == samples[x as int].label);
        parts.2.to_multiset_ensures();
        parts.1.to_multiset_ensures();
    }
}

/// The rates of fine-tuning, and the gain that counts, are a ten-thousandth; it
/// goes over the samples thirty times at most, 64 at a time, and waits three
/// times for a gain.
pub proof fn rates_are_decimal()
    ensures
        single::nearest(TENTH_OF_MILLE as int, 1int * pow2(149), 10_000),
        FinetuneOptions::usual().lr.bits == TENTH_OF_MILLE,
        FinetuneOptions::usual().weight_decay.bits == TENTH_OF_MILLE,
        FinetuneOptions::usual().batch_size == 64,
        FinetuneOptions::usual().max_epochs == 30,
        FinetuneOptions::usual().patience == 3,
        FinetuneOptions::usual().seed == 42,
{
    lemma2_to64();
    lemma2_to64_rest();
    bounds::lemma_fraction(TENTH_OF_MILLE as int, 1, 10_000);
}

} // verus!
