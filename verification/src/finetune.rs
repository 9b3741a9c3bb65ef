//! In-place fine-tuning of the deployed head.

use crate::adam;
use crate::adam::Adam;
use crate::bounds;
use crate::head::{HeadView, RouterHead, TrainableWeights, WeightsView};
use crate::mlp;
use crate::mlp::{accumulate, forward_sample, ForwardCache};
use crate::single;
use crate::single::Single;
use crate::training;
use crate::training::{
    accuracy, prepare, FinetuneOptions, FinetuneReport, Plan, Run, TrainingSample,
};
use vstd::arithmetic::power2::{lemma2_to64, lemma2_to64_rest, lemma_pow2_pos, pow2};
use vstd::prelude::*;

verus! {

/// Bit pattern of one.
pub const ONE: u32 = 0x3f80_0000;

/// Bit pattern of 1e-9, the least probability whose logarithm is taken.
pub const LEAST_PROBABILITY: u32 = 0x3089_705f;

/// Whether the rows and labels of a plan fit parameters: every row has the
/// input width, every label is a tier.
pub open spec fn fits(rows: Seq<Vec<Single>>, labels: Seq<u8>, inputs: nat) -> bool {
    &&& rows.len() == labels.len()
    &&& forall|i: int| 0 <= i < rows.len() ==> (#[trigger] rows[i])@.len() == inputs
    &&& forall|i: int| 0 <= i < labels.len() ==> (#[trigger] labels[i]) < 4
}

/// Whether every position is below `n`.
pub open spec fn within(at: Seq<usize>, n: nat) -> bool {
    forall|i: int| 0 <= i < at.len() ==> (#[trigger] at[i]) < n
}

/// The sum of the gradients of the first `n` samples of a batch.
pub open spec fn summed(
    rows: Seq<Vec<Single>>,
    labels: Seq<u8>,
    w: WeightsView,
    batch: Seq<usize>,
    passes: Seq<ForwardCache>,
    n: int,
) -> WeightsView
    decreases n,
{
    if n <= 0 {
        mlp::zero_weights(w)
    } else {
        let at = batch[n - 1] as int;
        mlp::added_weights(
            summed(rows, labels, w, batch, passes, n - 1),
            mlp::gradient(rows[at]@, labels[at] as int, w, passes[n - 1]),
        )
    }
}

/// The sum of the first `n` losses, each the negated logarithm.
pub open spec fn summed_loss(logs: Seq<Single>, n: int) -> Single
    decreases n,
{
    if n <= 0 {
        Single { bits: 0 }
    } else {
        summed_loss(logs, n - 1).sum(logs[n - 1].negated())
    }
}

/// One over the number of samples of a batch.
pub open spec fn inverse_count(n: nat) -> Single {
    Single { bits: ONE }.quotient(Single::counted(n as int))
}

/// Whether the passes are those of the samples of a batch.
pub open spec fn passes_of<T: Fn(Single) -> Single, X: Fn(Single) -> Single>(
    rows: Seq<Vec<Single>>,
    w: WeightsView,
    batch: Seq<usize>,
    tanh: T,
    exp: X,
    passes: Seq<ForwardCache>,
) -> bool {
    &&& passes.len() == batch.len()
    &&& forall|i: int|
        0 <= i < passes.len() ==> mlp::passed(
            rows[batch[i] as int]@,
            w,
            tanh,
            exp,
            #[trigger] passes[i],
        )
}

/// Whether `logs` are answers of the logarithm for the probabilities that the
/// passes give to the labels.
pub open spec fn logs_of<L: Fn(Single) -> Single>(
    labels: Seq<u8>,
    batch: Seq<usize>,
    passes: Seq<ForwardCache>,
    ln: L,
    logs: Seq<Single>,
) -> bool {
    &&& logs.len() == passes.len()
    &&& forall|i: int|
        0 <= i < logs.len() ==> call_ensures(
            ln,
            (passes[i].probs@[labels[batch[i] as int] as int].larger(
                Single { bits: LEAST_PROBABILITY },
            ),),
            #[trigger] logs[i],
        )
}

/// Whether `g` is the mean gradient of a batch and `loss` its mean loss, for
/// some answers of the functions.
pub open spec fn batched<
    T: Fn(Single) -> Single,
    X: Fn(Single) -> Single,
    L: Fn(Single) -> Single,
>(
    rows: Seq<Vec<Single>>,
    labels: Seq<u8>,
    w: WeightsView,
    batch: Seq<usize>,
    tanh: T,
    exp: X,
    ln: L,
    g: WeightsView,
    loss: Single,
) -> bool {
    exists|passes: Seq<ForwardCache>, logs: Seq<Single>|
        {
            let n = batch.len() as int;
            &&& #[trigger] passes_of(rows, w, batch, tanh, exp, passes)
            &&& #[trigger] logs_of(labels, batch, passes, ln, logs)
            &&& g == mlp::scaled_weights(
                summed(rows, labels, w, batch, passes, n),
                inverse_count(batch.len()),
            )
            &&& loss == summed_loss(logs, n).product(inverse_count(batch.len()))
        }
}

/// Parameters under training, with the moments of their gradients.
pub struct Trainee {
    pub w: TrainableWeights,
    pub m: TrainableWeights,
    pub v: TrainableWeights,
    pub adam: Adam,
}

impl Trainee {
    /// Whether everything has the sizes for given layer widths.
    pub open spec fn sized(self, inputs: nat, hidden: nat) -> bool {
        &&& mlp::sized(self.w@, inputs, hidden)
        &&& mlp::sized(self.m@, inputs, hidden)
        &&& mlp::sized(self.v@, inputs, hidden)
    }

    /// Starts training from the parameters of a head.
    pub fn new(w: TrainableWeights, opts: &FinetuneOptions) -> (res: Trainee)
        ensures
            res.w == w,
            res.m@ == mlp::zero_weights(w@),
            res.v@ == mlp::zero_weights(w@),
            res.adam.lr == opts.lr,
            res.adam.wd == opts.weight_decay,
            res.adam.t == 0,
    {
        let m = w.zeroed();
        let v = w.zeroed();
        Trainee { w, m, v, adam: Adam::new(opts.lr, opts.weight_decay) }
    }

    /// Trains on one batch: takes the mean gradient of its samples and makes
    /// one optimiser step. Returns the mean loss.
    pub(crate) fn learn<
        T: Fn(Single) -> Single,
        X: Fn(Single) -> Single,
        L: Fn(Single) -> Single,
        P: Fn(Single, u64) -> Single,
    >(
        &mut self,
        rows: &[Vec<Single>],
        labels: &[u8],
        batch: &[usize],
        Ghost(inputs): Ghost<nat>,
        tanh: &T,
        exp: &X,
        ln: &L,
        powers: &P,
    ) -> (loss: Single)
        requires
            fits(rows@, labels@, inputs),
            within(batch@, rows@.len()),
            old(self).sized(inputs, old(self).w.b1@.len()),
            forall|v: Single| call_requires(*tanh, (v,)),
            forall|v: Single| call_requires(*exp, (v,)),
            forall|v: Single| call_requires(*ln, (v,)),
            forall|b: Single, n: u64| call_requires(*powers, (b, n)),
        ensures
            final(self).sized(inputs, old(self).w.b1@.len()),
            learned(
                *old(self),
                rows@,
                labels@,
                batch@,
                *tanh,
                *exp,
                *ln,
                *powers,
                *final(self),
                loss,
            ),
    {
        let mut g = self.w.zeroed();
        let mut batch_loss = Single { bits: 0 };
        let ghost mut passes: Seq<ForwardCache> = Seq::empty();
        let ghost mut logs: Seq<Single> = Seq::empty();
        let ghost hidden = self.w.b1@.len();
        let mut i: usize = 0;
        while i < batch.len()
            invariant
                i <= batch.len(),
                fits(rows@, labels@, inputs),
                within(batch@, rows@.len()),
                *self == *old(self),
                self.sized(inputs, hidden),
                hidden == self.w.b1@.len(),
                mlp::sized(g@, inputs, hidden),
                forall|v: Single| call_requires(*tanh, (v,)),
                forall|v: Single| call_requires(*exp, (v,)),
                forall|v: Single| call_requires(*ln, (v,)),
                passes.len() == i,
                logs.len() == i,
                forall|k: int|
                    0 <= k < i ==> mlp::passed(
                        rows@[batch@[k] as int]@,
                        self.w@,
                        *tanh,
                        *exp,
                        #[trigger] passes[k],
                    ),
                forall|k: int|
                    0 <= k < i ==> call_ensures(
                        *ln,
                        (passes[k].probs@[labels@[batch@[k] as int] as int].larger(
                            (Single { bits: LEAST_PROBABILITY }),
                        ),),
                        #[trigger] logs[k],
                    ),
                g@ == summed(rows@, labels@, self.w@, batch@, passes, i as int),
                batch_loss == summed_loss(logs, i as int),
            decreases batch.len() - i,
        {
            let at = batch[i];
            assert(rows@[at as int]@.len() == inputs);
            assert(labels@[at as int] < 4);
            let label = labels[at] as usize;
            let c = forward_sample(&rows[at], &self.w, tanh, exp);
            let log = ln(c.probs[label].max(Single { bits: LEAST_PROBABILITY }));
            let ghost old_passes = passes;
            let ghost old_logs = logs;
            batch_loss = batch_loss.plus(log.neg());
            accumulate(&mut g, &rows[at], label, &self.w, &c);
            proof {
                passes = passes.push(c);
                logs = logs.push(log);
                lemma_summed(
                    rows@,
                    labels@,
                    self.w@,
                    batch@,
                    old_passes,
                    passes,
                    i as int,
                );
                lemma_summed_loss(old_logs, logs, i as int);
            }
            i += 1;
        }
        let inv_n = Single { bits: ONE }.over(Single::from_count(batch.len() as u64));
        g.scale(inv_n);
        proof {
            assert(passes_of(rows@, self.w@, batch@, *tanh, *exp, passes));
            assert(logs_of(labels@, batch@, passes, *ln, logs));
        }
        let loss = batch_loss.times(inv_n);
        assert(batched(rows@, labels@, self.w@, batch@, *tanh, *exp, *ln, g@, loss));
        self.adam.tick(powers);
        self.adam.step_weights(&mut self.w, &g, &mut self.m, &mut self.v);
        loss
    }
}

/// Whether training on a batch leads from one state to another, with a mean
/// loss.
pub open spec fn learned<
    T: Fn(Single) -> Single,
    X: Fn(Single) -> Single,
    L: Fn(Single) -> Single,
    P: Fn(Single, u64) -> Single,
>(
    before: Trainee,
    rows: Seq<Vec<Single>>,
    labels: Seq<u8>,
    batch: Seq<usize>,
    tanh: T,
    exp: X,
    ln: L,
    powers: P,
    after: Trainee,
    loss: Single,
) -> bool {
    let a = after.adam;
    &&& a.lr == before.adam.lr
    &&& a.wd == before.adam.wd
    &&& a.t == adam::counted(before.adam.t)
    &&& adam::corrects(powers, adam::BETA1, a.t, a.bc1)
    &&& adam::corrects(powers, adam::BETA2, a.t, a.bc2)
    &&& exists|g: WeightsView| #[trigger]
        batched(rows, labels, before.w@, batch, tanh, exp, ln, g, loss) && {
            &&& after.w@ == a.moves_weights(before.w@, g, before.m@, before.v@)
            &&& after.m@ == adam::firsts_weights(before.m@, g)
            &&& after.v@ == adam::seconds_weights(before.v@, g)
        }
}

proof fn lemma_summed(
    rows: Seq<Vec<Single>>,
    labels: Seq<u8>,
    w: WeightsView,
    batch: Seq<usize>,
    a: Seq<ForwardCache>,
    b: Seq<ForwardCache>,
    n: int,
)
    requires
        n <= a.len(),
        n <= b.len(),
        forall|k: int| 0 <= k < n ==> #[trigger] a[k] == b[k],
    ensures
        summed(rows, labels, w, batch, a, n) == summed(rows, labels, w, batch, b, n),
    decreases n,
{
    if n > 0 {
        lemma_summed(rows, labels, w, batch, a, b, n - 1);
    }
}

proof fn lemma_summed_loss(a: Seq<Single>, b: Seq<Single>, n: int)
    requires
        n <= a.len(),
        n <= b.len(),
        forall|k: int| 0 <= k < n ==> #[trigger] a[k] == b[k],
    ensures
        summed_loss(a, n) == summed_loss(b, n),
    decreases n,
{
    if n > 0 {
        lemma_summed_loss(a, b, n - 1);
    }
}

/// The probabilities of some passes.
pub open spec fn predictions(passes: Seq<ForwardCache>) -> Seq<[Single; 4]> {
    passes.map_values(|c: ForwardCache| c.probs)
}

/// Whether `acc` is the accuracy of parameters on rows, for some answers of
/// the functions.
pub open spec fn scores<T: Fn(Single) -> Single, X: Fn(Single) -> Single>(
    rows: Seq<Vec<Single>>,
    labels: Seq<u8>,
    w: WeightsView,
    tanh: T,
    exp: X,
    acc: Single,
) -> bool {
    exists|passes: Seq<ForwardCache>|
        {
            &&& passes.len() == rows.len()
            &&& forall|i: int|
                0 <= i < passes.len() ==> mlp::passed(
                    rows[i]@,
                    w,
                    tanh,
                    exp,
                    #[trigger] passes[i],
                )
            &&& acc == training::hit_rate(#[trigger] predictions(passes), labels)
        }
}

/// Accuracy of parameters on an evaluation set.
pub fn weights_accuracy<T: Fn(Single) -> Single, X: Fn(Single) -> Single>(
    rows: &[Vec<Single>],
    labels: &[u8],
    w: &TrainableWeights,
    inputs: usize,
    tanh: &T,
    exp: &X,
) -> (acc: Single)
    requires
        fits(rows@, labels@, inputs as nat),
        mlp::sized(w@, inputs as nat, w.b1@.len()),
        forall|v: Single| call_requires(*tanh, (v,)),
        forall|v: Single| call_requires(*exp, (v,)),
    ensures
        scores(rows@, labels@, w@, *tanh, *exp, acc),
{
    let mut preds: Vec<[Single; 4]> = Vec::new();
    let ghost mut passes: Seq<ForwardCache> = Seq::empty();
    let mut i: usize = 0;
    while i < rows.len()
        invariant
            i <= rows.len(),
            fits(rows@, labels@, inputs as nat),
            mlp::sized(w@, inputs as nat, w.b1@.len()),
            forall|v: Single| call_requires(*tanh, (v,)),
            forall|v: Single| call_requires(*exp, (v,)),
            passes.len() == i,
            forall|k: int|
                0 <= k < i ==> mlp::passed(rows@[k]@, w@, *tanh, *exp, #[trigger] passes[k]),
            preds@ == predictions(passes),
        decreases rows.len() - i,
    {
        assert(rows@[i as int]@.len() == inputs);
        let c = forward_sample(&rows[i], w, tanh, exp);
        preds.push(c.probs);
        proof {
            passes = passes.push(c);
            assert(preds@ =~= predictions(passes));
        }
        i += 1;
    }
    accuracy(&preds, labels)
}

pub(crate) proof fn lemma_within_batches(order: Seq<usize>, size: nat, start: int, n: nat)
    requires
        within(order, n),
        0 <= start,
    ensures
        forall|k: int|
            0 <= k < training::batches_from(order, size, start).len() ==> within(
                #[trigger] training::batches_from(order, size, start)[k],
                n,
            ),
    decreases
        (if start < order.len() {
            order.len() - start
        } else {
            0
        }),
{
    if start < order.len() {
        let step = if size == 0 {
            1
        } else {
            size as int
        };
        let rest = training::batches_from(order, size, start + step);
        lemma_within_batches(order, size, start + step, n);
        let all = training::batches_from(order, size, start);
        assert forall|k: int| 0 <= k < all.len() implies within(#[trigger] all[k], n) by {
            if k > 0 {
                assert(all[k] == rest[k - 1]);
            }
        }
    }
}

pub(crate) proof fn lemma_within_shuffled(a: Seq<usize>, b: Seq<usize>, n: nat)
    requires
        within(a, n),
        a.to_multiset() == b.to_multiset(),
    ensures
        within(b, n),
{
    broadcast use vstd::seq_lib::group_to_multiset_ensures;

    assert forall|i: int| 0 <= i < b.len() implies (#[trigger] b[i]) < n by {
        assert(b.to_multiset().count(b[i]) > 0);
        assert(a.contains(b[i]));
    }
}

/// Where a fine-tuning run stands: the parameters under training, the
/// bookkeeping, and the best parameters so far.
pub struct Standing {
    pub trainee: Trainee,
    pub run: Run,
    pub best: WeightsView,
}

/// The sum of the first `n` losses.
pub open spec fn added_loss(losses: Seq<Single>, n: int) -> Single
    decreases n,
{
    if n <= 0 {
        Single { bits: 0 }
    } else {
        added_loss(losses, n - 1).sum(losses[n - 1])
    }
}

/// The functions that training takes from its caller.
pub struct Kernel<T, X, L, P> {
    pub tanh: T,
    pub exp: X,
    pub ln: L,
    pub powers: P,
}

/// Whether training on batches, one after the other, goes through the states
/// `steps` with the mean losses `losses`.
pub open spec fn trains<
    T: Fn(Single) -> Single,
    X: Fn(Single) -> Single,
    L: Fn(Single) -> Single,
    P: Fn(Single, u64) -> Single,
>(
    plan: Plan,
    f: Kernel<T, X, L, P>,
    batches: Seq<Seq<usize>>,
    steps: Seq<Trainee>,
    losses: Seq<Single>,
    n: int,
) -> bool {
    &&& steps.len() == n + 1
    &&& losses.len() == n
    &&& forall|k: int|
        0 <= k < n ==> learned(
            steps[k],
            plan.rows@,
            plan.labels@,
            batches[k],
            f.tanh,
            f.exp,
            f.ln,
            f.powers,
            steps[k + 1],
            #[trigger] losses[k],
        )
}

/// Whether training on batches leads from one state to another, with a sum of
/// the mean losses.
pub open spec fn went_through<
    T: Fn(Single) -> Single,
    X: Fn(Single) -> Single,
    L: Fn(Single) -> Single,
    P: Fn(Single, u64) -> Single,
>(
    plan: Plan,
    f: Kernel<T, X, L, P>,
    batches: Seq<Seq<usize>>,
    before: Trainee,
    after: Trainee,
    loss: Single,
) -> bool {
    exists|steps: Seq<Trainee>, losses: Seq<Single>|
        {
            &&& #[trigger] trains(plan, f, batches, steps, losses, batches.len() as int)
            &&& steps[0] == before
            &&& steps[batches.len() as int] == after
            &&& loss == added_loss(losses, batches.len() as int)
        }
}

/// Whether the bookkeeping after an epoch is `b`, where it was `a` before: the
/// positions in a new order, and the epoch with its loss and accuracy booked.
pub open spec fn booked(a: Run, b: Run, loss: Single, count: nat, acc: Single) -> bool {
    let shuffle = training::shuffled(a.rng.state, a.order@, a.order@.len() - 1);
    let improved = training::gains(a.best, acc);
    &&& b.rng.state == shuffle.0
    &&& b.order@ == shuffle.1
    &&& b.opts == a.opts
    &&& b.baseline == a.baseline
    &&& b.epochs_run == a.epochs_run + 1
    &&& b.stale == if improved {
        0
    } else {
        a.stale + 1
    }
    &&& b.best == if improved {
        acc
    } else {
        a.best
    }
    &&& b.stopped == (!improved && a.stale + 1 >= a.opts.patience)
    &&& b.final_train_loss == if count > 0 {
        loss.quotient(Single::counted(count as int))
    } else {
        Single { bits: 0 }
    }
}

/// Whether one epoch leads from `a` to `b`: the positions are shuffled and cut
/// into batches, every batch is trained on, the parameters are evaluated, and
/// the better ones of before and after are kept.
pub open spec fn epoch<
    T: Fn(Single) -> Single,
    X: Fn(Single) -> Single,
    L: Fn(Single) -> Single,
    P: Fn(Single, u64) -> Single,
>(plan: Plan, f: Kernel<T, X, L, P>, a: Standing, b: Standing) -> bool {
    let order = training::shuffled(a.run.rng.state, a.run.order@, a.run.order@.len() - 1).1;
    let batches = training::batches_from(order, a.run.opts.batch_size as nat, 0);
    &&& a.run.due()
    &&& exists|loss: Single, acc: Single|
        {
            &&& #[trigger] went_through(plan, f, batches, a.trainee, b.trainee, loss)
            &&& #[trigger] scores(
                plan.eval_rows@,
                plan.eval_labels@,
                b.trainee.w@,
                f.tanh,
                f.exp,
                acc,
            )
            &&& booked(a.run, b.run, loss, batches.len(), acc)
            &&& b.best == if training::gains(a.run.best, acc) {
                b.trainee.w@
            } else {
                a.best
            }
        }
}

/// Whether a run stands at its beginning: the parameters of the head, no
/// moments, the head's own accuracy as the one to beat.
pub open spec fn begins(base: HeadView, plan: Plan, opts: FinetuneOptions, a: Standing) -> bool {
    &&& a.trainee.w@ == base.weights
    &&& a.trainee.m@ == mlp::zero_weights(base.weights)
    &&& a.trainee.v@ == mlp::zero_weights(base.weights)
    &&& a.trainee.adam.lr == opts.lr
    &&& a.trainee.adam.wd == opts.weight_decay
    &&& a.trainee.adam.t == 0
    &&& a.run.order@ == plan.train@
    &&& a.run.rng.state == opts.seed.wrapping_add(1)
    &&& a.run.opts == opts
    &&& a.run.best == a.run.baseline
    &&& a.run.stale == 0
    &&& a.run.epochs_run == 0
    &&& a.run.final_train_loss.bits == 0
    &&& !a.run.stopped
    &&& a.best == base.weights
}

/// Whether a trace is a whole fine-tuning run: it begins with the head, every
/// step is an epoch, and no further epoch is due.
pub open spec fn whole_run<
    T: Fn(Single) -> Single,
    X: Fn(Single) -> Single,
    L: Fn(Single) -> Single,
    P: Fn(Single, u64) -> Single,
>(
    base: HeadView,
    plan: Plan,
    opts: FinetuneOptions,
    f: Kernel<T, X, L, P>,
    trace: Seq<Standing>,
) -> bool {
    &&& trace.len() > 0
    &&& begins(base, plan, opts, trace[0])
    &&& scores(
        plan.eval_rows@,
        plan.eval_labels@,
        base.weights,
        f.tanh,
        f.exp,
        trace[0].run.baseline,
    )
    &&& forall|i: int|
        0 <= i < trace.len() - 1 ==> epoch(plan, f, #[trigger] trace[i], trace[i + 1])
    &&& !trace.last().run.due()
}

/// Whether a head and a report are the outcome of a run: the head has the best
/// parameters, and everything else of it is as it was.
pub open spec fn concludes(
    base: HeadView,
    plan: Plan,
    last: Standing,
    head: HeadView,
    report: FinetuneReport,
) -> bool {
    &&& head == base.retrained(last.best)
    &&& head.valid()
    &&& report.epochs_run == last.run.epochs_run
    &&& report.train_samples == plan.train@.len()
    &&& report.eval_samples == plan.eval_rows@.len()
    &&& report.final_train_loss == last.run.final_train_loss
    &&& report.best_eval_acc == last.run.best
    &&& report.baseline_eval_acc == last.run.baseline
}

/// Whether a head and a report are what fine-tuning on a plan comes to, for
/// some answers of the functions.
pub open spec fn tuned<
    T: Fn(Single) -> Single,
    X: Fn(Single) -> Single,
    L: Fn(Single) -> Single,
    P: Fn(Single, u64) -> Single,
>(
    base: HeadView,
    plan: Plan,
    opts: FinetuneOptions,
    f: Kernel<T, X, L, P>,
    head: HeadView,
    report: FinetuneReport,
) -> bool {
    exists|trace: Seq<Standing>| #[trigger]
        whole_run(base, plan, opts, f, trace) && concludes(base, plan, trace.last(), head, report)
}

/// Fine-tunes a deployed head on labelled samples, from its own parameters.
///
/// The evaluation set is the one handed in, or part of each class set aside
/// (of a class of a single sample, nothing is). After every epoch the head is
/// evaluated; the parameters of the best epoch are returned, and training
/// stops after too many epochs without a gain.
pub fn finetune_head<
    T: Fn(Single) -> Single,
    X: Fn(Single) -> Single,
    L: Fn(Single) -> Single,
    P: Fn(Single, u64) -> Single,
>(
    base: &RouterHead,
    samples: &[TrainingSample],
    eval_samples: Option<&[TrainingSample]>,
    opts: &FinetuneOptions,
    tanh: &T,
    exp: &X,
    ln: &L,
    powers: &P,
) -> (res: Result<(RouterHead, FinetuneReport), String>)
    requires
        forall|v: Single| call_requires(*tanh, (v,)),
        forall|v: Single| call_requires(*exp, (v,)),
        forall|v: Single| call_requires(*ln, (v,)),
        forall|b: Single, n: u64| call_requires(*powers, (b, n)),
    ensures
        match training::plan_fault(base@, samples@, eval_samples) {
            Some(fault) => res matches Err(m) && m@ == fault,
            None => res matches Ok((head, report)) && exists|plan: Plan| #[trigger]
                training::planned(base@, samples@, eval_samples, opts.seed, plan) && tuned(
                    base@,
                    plan,
                    *opts,
                    (Kernel { tanh: *tanh, exp: *exp, ln: *ln, powers: *powers }),
                    head@,
                    report,
                ),
        },
{
    let plan = match prepare(base, samples, eval_samples, opts.seed) {
        Err(m) => {
            return Err(m);
        },
        Ok(plan) => plan,
    };
    let inputs = base.input_dim();
    let ghost hidden = base@.hidden_dim;
    let ghost f = Kernel { tanh: *tanh, exp: *exp, ln: *ln, powers: *powers };
    let count: usize = samples.len();
    proof {
        assert(samples@.len() == count);
        lemma_plan_fits(base@, samples@, eval_samples, opts.seed, plan);
    }
    let trainee = Trainee::new(base.trainable(), opts);
    let baseline = weights_accuracy(
        &plan.eval_rows,
        &plan.eval_labels,
        &trainee.w,
        inputs,
        tanh,
        exp,
    );
    let best = base.trainable();
    let run = Run::start(&plan.train, opts, baseline);
    let mut tuner = Tuner { trainee, run, best };
    let ghost mut trace: Seq<Standing> = seq![tuner.standing()];
    let mut going: bool = true;
    let mut left: usize = opts.max_epochs;
    while going
        invariant
            f == (Kernel { tanh: *tanh, exp: *exp, ln: *ln, powers: *powers }),
            fits(plan.rows@, plan.labels@, inputs as nat),
            fits(plan.eval_rows@, plan.eval_labels@, inputs as nat),
            tuner.ready(plan, inputs as nat, hidden),
            forall|v: Single| call_requires(*tanh, (v,)),
            forall|v: Single| call_requires(*exp, (v,)),
            forall|v: Single| call_requires(*ln, (v,)),
            forall|b: Single, n: u64| call_requires(*powers, (b, n)),
            tuner.run.opts == *opts,
            left == opts.max_epochs - tuner.run.epochs_run,
            trace.len() > 0,
            begins(base@, plan, *opts, trace[0]),
            trace[0].run.baseline == baseline,
            forall|i: int|
                0 <= i < trace.len() - 1 ==> epoch(plan, f, #[trigger] trace[i], trace[i + 1]),
            trace.last() == tuner.standing(),
            !going ==> !tuner.run.due(),
        decreases
            left,
            (if going {
                1int
            } else {
                0int
            }),
    {
        going = tuner.run_epoch(&plan, inputs, Ghost(hidden), tanh, exp, ln, powers);
        if going {
            proof {
                trace = trace.push(tuner.standing());
            }
            left = left - 1;
        }
    }
    let report = tuner.run.report(&plan);
    let ghost last = tuner.standing();
    match base.with_trainable(tuner.best) {
        Err(m) => Err(m),
        Ok(head) => {
            assert(whole_run(base@, plan, *opts, f, trace));
            assert(concludes(base@, plan, trace.last(), head@, report));
            Ok((head, report))
        },
    }
}

/// A fine-tuning run under way.
struct Tuner {
    trainee: Trainee,
    run: Run,
    best: TrainableWeights,
}

impl Tuner {
    /// Where the run stands.
    spec fn standing(self) -> Standing {
        Standing { trainee: self.trainee, run: self.run, best: self.best@ }
    }

    /// Whether the run fits its plan.
    spec fn ready(self, plan: Plan, inputs: nat, hidden: nat) -> bool {
        &&& within(self.run.order@, plan.rows@.len())
        &&& self.trainee.sized(inputs, hidden)
        &&& self.trainee.w.b1@.len() == hidden
        &&& mlp::sized(self.best@, inputs, hidden)
        &&& self.run.stale <= self.run.epochs_run
        &&& self.run.epochs_run <= self.run.opts.max_epochs
    }

    /// Trains on batches, one after the other; returns the sum of the losses.
    fn train_batches<
        T: Fn(Single) -> Single,
        X: Fn(Single) -> Single,
        L: Fn(Single) -> Single,
        P: Fn(Single, u64) -> Single,
    >(
        trainee: &mut Trainee,
        plan: &Plan,
        batches: &[Vec<usize>],
        Ghost(inputs): Ghost<nat>,
        Ghost(hidden): Ghost<nat>,
        tanh: &T,
        exp: &X,
        ln: &L,
        powers: &P,
    ) -> (loss: Single)
        requires
            fits(plan.rows@, plan.labels@, inputs),
            forall|i: int|
                0 <= i < batches@.len() ==> within((#[trigger] batches@[i])@, plan.rows@.len()),
            old(trainee).sized(inputs, hidden),
            old(trainee).w.b1@.len() == hidden,
            forall|v: Single| call_requires(*tanh, (v,)),
            forall|v: Single| call_requires(*exp, (v,)),
            forall|v: Single| call_requires(*ln, (v,)),
            forall|b: Single, n: u64| call_requires(*powers, (b, n)),
        ensures
            final(trainee).sized(inputs, hidden),
            final(trainee).w.b1@.len() == hidden,
            went_through(
                *plan,
                (Kernel { tanh: *tanh, exp: *exp, ln: *ln, powers: *powers }),
                training::contents(batches@),
                *old(trainee),
                *final(trainee),
                loss,
            ),
    {
        let ghost f = Kernel { tanh: *tanh, exp: *exp, ln: *ln, powers: *powers };
        let ghost cut = training::contents(batches@);
        let mut epoch_loss = Single { bits: 0 };
        let ghost mut steps: Seq<Trainee> = seq![*trainee];
        let ghost mut losses: Seq<Single> = Seq::empty();
        let mut k: usize = 0;
        while k < batches.len()
            invariant
                k <= batches.len(),
                f == (Kernel { tanh: *tanh, exp: *exp, ln: *ln, powers: *powers }),
                fits(plan.rows@, plan.labels@, inputs),
                cut == training::contents(batches@),
                forall|i: int|
                    0 <= i < batches@.len() ==> within((#[trigger] batches@[i])@, plan.rows@.len()),
                trainee.sized(inputs, hidden),
                trainee.w.b1@.len() == hidden,
                forall|v: Single| call_requires(*tanh, (v,)),
                forall|v: Single| call_requires(*exp, (v,)),
                forall|v: Single| call_requires(*ln, (v,)),
                forall|b: Single, n: u64| call_requires(*powers, (b, n)),
                trains(*plan, f, cut, steps, losses, k as int),
                steps[0] == *old(trainee),
                steps[k as int] == *trainee,
                epoch_loss == added_loss(losses, k as int),
            decreases batches.len() - k,
        {
            assert(cut[k as int] == batches@[k as int]@);
            let ghost old_losses = losses;
            let ghost old_steps = steps;
            let loss = trainee.learn(
                &plan.rows,
                &plan.labels,
                &batches[k],
                Ghost(inputs),
                tanh,
                exp,
                ln,
                powers,
            );
            epoch_loss = epoch_loss.plus(loss);
            proof {
                steps = steps.push(*trainee);
                losses = losses.push(loss);
                lemma_added_loss(old_losses, losses, k as int);
                lemma_trains_more(*plan, f, cut, old_steps, old_losses, k as int, *trainee, loss);
            }
            k += 1;
        }
        assert(trains(*plan, f, cut, steps, losses, cut.len() as int));
        epoch_loss
    }

    /// Runs one epoch, if one is due.
    fn run_epoch<
        T: Fn(Single) -> Single,
        X: Fn(Single) -> Single,
        L: Fn(Single) -> Single,
        P: Fn(Single, u64) -> Single,
    >(
        &mut self,
        plan: &Plan,
        inputs: usize,
        Ghost(hidden): Ghost<nat>,
        tanh: &T,
        exp: &X,
        ln: &L,
        powers: &P,
    ) -> (went: bool)
        requires
            fits(plan.rows@, plan.labels@, inputs as nat),
            fits(plan.eval_rows@, plan.eval_labels@, inputs as nat),
            old(self).ready(*plan, inputs as nat, hidden),
            forall|v: Single| call_requires(*tanh, (v,)),
            forall|v: Single| call_requires(*exp, (v,)),
            forall|v: Single| call_requires(*ln, (v,)),
            forall|b: Single, n: u64| call_requires(*powers, (b, n)),
        ensures
            final(self).ready(*plan, inputs as nat, hidden),
            final(self).run.opts == old(self).run.opts,
            went == old(self).run.due(),
            !went ==> *final(self) == *old(self),
            went ==> final(self).run.epochs_run == old(self).run.epochs_run + 1 && epoch(
                *plan,
                (Kernel { tanh: *tanh, exp: *exp, ln: *ln, powers: *powers }),
                old(self).standing(),
                final(self).standing(),
            ),
    {
        let ghost before = self.standing();
        match self.run.next_epoch() {
            None => false,
            Some(batches) => {
                let ghost f = Kernel { tanh: *tanh, exp: *exp, ln: *ln, powers: *powers };
                let ghost size = self.run.opts.batch_size as nat;
                let ghost cut = training::batches_from(self.run.order@, size, 0);
                proof {
                    training::lemma_shuffled(
                        before.run.rng.state,
                        before.run.order@,
                        before.run.order@.len() - 1,
                    );
                    lemma_within_shuffled(before.run.order@, self.run.order@, plan.rows@.len());
                    lemma_within_batches(self.run.order@, size, 0, plan.rows@.len());
                    assert forall|i: int| 0 <= i < batches@.len() implies within(
                        (#[trigger] batches@[i])@,
                        plan.rows@.len(),
                    ) by {
                        assert(training::contents(batches@)[i] == batches@[i]@);
                        assert(within(cut[i], plan.rows@.len()));
                    }
                }
                let loss = Self::train_batches(
                    &mut self.trainee,
                    plan,
                    &batches,
                    Ghost(inputs as nat),
                    Ghost(hidden),
                    tanh,
                    exp,
                    ln,
                    powers,
                );
                let acc = weights_accuracy(
                    &plan.eval_rows,
                    &plan.eval_labels,
                    &self.trainee.w,
                    inputs,
                    tanh,
                    exp,
                );
                assert(training::contents(batches@).len() == batches.len());
                let improved = self.run.finish_epoch(loss, batches.len(), acc);
                if improved {
                    self.best = self.trainee.w.copied();
                }
                proof {
                    let next = self.standing();
                    assert(went_through(*plan, f, cut, before.trainee, next.trainee, loss));
                    assert(scores(
                        plan.eval_rows@,
                        plan.eval_labels@,
                        next.trainee.w@,
                        f.tanh,
                        f.exp,
                        acc,
                    ));
                    assert(booked(before.run, next.run, loss, cut.len(), acc));
                    assert(epoch(*plan, f, before, next));
                }
                true
            },
        }
    }
}

proof fn lemma_trains_more<
    T: Fn(Single) -> Single,
    X: Fn(Single) -> Single,
    L: Fn(Single) -> Single,
    P: Fn(Single, u64) -> Single,
>(
    plan: Plan,
    f: Kernel<T, X, L, P>,
    batches: Seq<Seq<usize>>,
    steps: Seq<Trainee>,
    losses: Seq<Single>,
    n: int,
    next: Trainee,
    loss: Single,
)
    requires
        0 <= n,
        trains(plan, f, batches, steps, losses, n),
        learned(
            steps[n],
            plan.rows@,
            plan.labels@,
            batches[n],
            f.tanh,
            f.exp,
            f.ln,
            f.powers,
            next,
            loss,
        ),
    ensures
        trains(plan, f, batches, steps.push(next), losses.push(loss), n + 1),
{
    let s = steps.push(next);
    let l = losses.push(loss);
    assert forall|k: int| 0 <= k < n + 1 implies learned(
        s[k],
        plan.rows@,
        plan.labels@,
        batches[k],
        f.tanh,
        f.exp,
        f.ln,
        f.powers,
        s[k + 1],
        #[trigger] l[k],
    ) by {
        if k < n {
            assert(l[k] == losses[k]);
            assert(s[k] == steps[k] && s[k + 1] == steps[k + 1]);
        } else {
            assert(s[k] == steps[n]);
        }
    }
}

proof fn lemma_added_loss(a: Seq<Single>, b: Seq<Single>, n: int)
    requires
        n <= a.len(),
        n <= b.len(),
        forall|k: int| 0 <= k < n ==> #[trigger] a[k] == b[k],
    ensures
        added_loss(a, n) == added_loss(b, n),
    decreases n,
{
    if n > 0 {
        lemma_added_loss(a, b, n - 1);
    }
}

/// The rows and labels of a plan fit the head it was made for.
pub(crate) proof fn lemma_plan_fits(
    head: HeadView,
    samples: Seq<TrainingSample>,
    eval_samples: Option<&[TrainingSample]>,
    seed: u64,
    plan: Plan,
)
    requires
        head.valid(),
        training::plan_fault(head, samples, eval_samples) is None,
        training::planned(head, samples, eval_samples, seed, plan),
        samples.len() <= usize::MAX,
    ensures
        fits(plan.rows@, plan.labels@, head.input_dim),
        fits(plan.eval_rows@, plan.eval_labels@, head.input_dim),
        within(plan.train@, plan.rows@.len()),
{
    training::lemma_no_fault(head, samples, samples.len() as int);
    assert forall|i: int| 0 <= i < plan.rows@.len() implies (#[trigger] plan.rows@[i])@.len()
        == head.input_dim by {
        crate::head::input_layer_fits(head, samples[i].hidden@, samples[i].prev_tier);
    }
    if training::given(eval_samples) {
        let ev = eval_samples->0@;
        training::lemma_no_fault(head, ev, ev.len() as int);
        assert forall|i: int| 0 <= i < plan.eval_rows@.len() implies (
        #[trigger] plan.eval_rows@[i])@.len() == head.input_dim by {
            crate::head::input_layer_fits(head, ev[i].hidden@, ev[i].prev_tier);
        }
    } else {
        training::lemma_split_range(plan.labels@, seed, 4);
        let at = training::split_upto(plan.labels@, seed, 4).2;
        assert forall|k: int| 0 <= k < plan.eval_rows@.len() implies (
        #[trigger] plan.eval_rows@[k])@.len() == head.input_dim by {
            assert(at[k] < plan.rows@.len());
            assert(plan.eval_rows@[k]@ == plan.rows@[at[k] as int]@);
        }
        assert forall|k: int| 0 <= k < plan.eval_labels@.len() implies (
        #[trigger] plan.eval_labels@[k]) < 4 by {
            assert(at[k] < plan.rows@.len());
            assert(plan.eval_rows@[k]@ == plan.rows@[at[k] as int]@);
        }
    }
}

/// Fine-tuning never loses accuracy on its evaluation set: at every point of a
/// run the best accuracy is the one of the old head, or higher.
pub proof fn tuning_never_loses<
    T: Fn(Single) -> Single,
    X: Fn(Single) -> Single,
    L: Fn(Single) -> Single,
    P: Fn(Single, u64) -> Single,
>(
    base: HeadView,
    plan: Plan,
    opts: FinetuneOptions,
    f: Kernel<T, X, L, P>,
    trace: Seq<Standing>,
    i: int,
)
    requires
        whole_run(base, plan, opts, f, trace),
        plan.eval_rows@.len() <= u64::MAX,
        0 <= i < trace.len(),
    ensures
        trace[i].run.baseline == trace[0].run.baseline,
        training::is_share(trace[i].run.best),
        trace[i].run.baseline.at_most(trace[i].run.best),
        scores(
            plan.eval_rows@,
            plan.eval_labels@,
            trace[i].best,
            f.tanh,
            f.exp,
            trace[i].run.best,
        ),
    decreases i,
{
    if i == 0 {
        let passes = choose|passes: Seq<ForwardCache>|
            {
                &&& passes.len() == plan.eval_rows@.len()
                &&& forall|i: int|
                    0 <= i < passes.len() ==> mlp::passed(
                        plan.eval_rows@[i]@,
                        base.weights,
                        f.tanh,
                        f.exp,
                        #[trigger] passes[i],
                    )
                &&& trace[0].run.baseline == training::hit_rate(
                    #[trigger] predictions(passes),
                    plan.eval_labels@,
                )
            };
        training::accuracy_is_a_share(predictions(passes), plan.eval_labels@);
    } else {
        tuning_never_loses(base, plan, opts, f, trace, i - 1);
        let a = trace[i - 1];
        let b = trace[i];
        assert(epoch(plan, f, trace[i - 1], trace[i - 1 + 1]));
        let order = training::shuffled(a.run.rng.state, a.run.order@, a.run.order@.len() - 1).1;
        let batches = training::batches_from(order, a.run.opts.batch_size as nat, 0);
        let (loss, acc) = choose|loss: Single, acc: Single|
            {
                &&& #[trigger] went_through(plan, f, batches, a.trainee, b.trainee, loss)
                &&& #[trigger] scores(
                    plan.eval_rows@,
                    plan.eval_labels@,
                    b.trainee.w@,
                    f.tanh,
                    f.exp,
                    acc,
                )
                &&& booked(a.run, b.run, loss, batches.len(), acc)
                &&& b.best == if training::gains(a.run.best, acc) {
                    b.trainee.w@
                } else {
                    a.best
                }
            };
        if training::gains(a.run.best, acc) {
            let passes = choose|passes: Seq<ForwardCache>|
                {
                    &&& passes.len() == plan.eval_rows@.len()
                    &&& forall|i: int|
                        0 <= i < passes.len() ==> mlp::passed(
                            plan.eval_rows@[i]@,
                            b.trainee.w@,
                            f.tanh,
                            f.exp,
                            #[trigger] passes[i],
                        )
                    &&& acc == training::hit_rate(
                        #[trigger] predictions(passes),
                        plan.eval_labels@,
                    )
                };
            training::accuracy_is_a_share(predictions(passes), plan.eval_labels@);
            training::gains_never_lose(a.run.best, acc);
        }
    }
}

proof fn lemma_booked<
    T: Fn(Single) -> Single,
    X: Fn(Single) -> Single,
    L: Fn(Single) -> Single,
    P: Fn(Single, u64) -> Single,
>(plan: Plan, f: Kernel<T, X, L, P>, a: Standing, b: Standing) -> (r: (Single, Single, nat))
    requires
        epoch(plan, f, a, b),
    ensures
        booked(a.run, b.run, r.0, r.2, r.1),
        scores(plan.eval_rows@, plan.eval_labels@, b.trainee.w@, f.tanh, f.exp, r.1),
{
    let order = training::shuffled(a.run.rng.state, a.run.order@, a.run.order@.len() - 1).1;
    let batches = training::batches_from(order, a.run.opts.batch_size as nat, 0);
    let (loss, acc) = choose|loss: Single, acc: Single|
        {
            &&& #[trigger] went_through(plan, f, batches, a.trainee, b.trainee, loss)
            &&& #[trigger] scores(
                plan.eval_rows@,
                plan.eval_labels@,
                b.trainee.w@,
                f.tanh,
                f.exp,
                acc,
            )
            &&& booked(a.run, b.run, loss, batches.len(), acc)
            &&& b.best == if training::gains(a.run.best, acc) {
                b.trainee.w@
            } else {
                a.best
            }
        };
    (loss, acc, batches.len())
}

/// A run has as many epochs as it reports, and no more than it may have. After
/// every epoch, the count of epochs without a gain is that: through all of
/// them the best accuracy stayed what it is.
pub proof fn epochs_are_counted<
    T: Fn(Single) -> Single,
    X: Fn(Single) -> Single,
    L: Fn(Single) -> Single,
    P: Fn(Single, u64) -> Single,
>(
    base: HeadView,
    plan: Plan,
    opts: FinetuneOptions,
    f: Kernel<T, X, L, P>,
    trace: Seq<Standing>,
    i: int,
)
    requires
        whole_run(base, plan, opts, f, trace),
        0 <= i < trace.len(),
    ensures
        trace[i].run.epochs_run == i,
        i <= opts.max_epochs,
        trace[i].run.opts == opts,
        trace[i].run.stale <= i,
        forall|j: int|
            i - trace[i].run.stale <= j <= i ==> (#[trigger] trace[j]).run.best
                == trace[i].run.best,
        trace[i].run.stopped ==> trace[i].run.stale >= opts.patience,
        trace[i].run.stale > 0 && trace[i].run.stale >= opts.patience ==> trace[i].run.stopped,
    decreases i,
{
    if i > 0 {
        epochs_are_counted(base, plan, opts, f, trace, i - 1);
        let (a, b) = (trace[i - 1], trace[i]);
        assert(epoch(plan, f, trace[i - 1], trace[i - 1 + 1]));
        let r = lemma_booked(plan, f, a, b);
        assert forall|j: int| i - b.run.stale <= j <= i implies (#[trigger] trace[j]).run.best
            == b.run.best by {
            if j < i {
                assert(trace[j].run.best == a.run.best);
            }
        }
    }
}

/// A run ends where its epochs are used up, or where as many of them in a row
/// as its patience brought no gain; and not before.
pub proof fn patience_ends_a_run<
    T: Fn(Single) -> Single,
    X: Fn(Single) -> Single,
    L: Fn(Single) -> Single,
    P: Fn(Single, u64) -> Single,
>(
    base: HeadView,
    plan: Plan,
    opts: FinetuneOptions,
    f: Kernel<T, X, L, P>,
    trace: Seq<Standing>,
)
    requires
        whole_run(base, plan, opts, f, trace),
    ensures
        trace.len() - 1 <= opts.max_epochs,
        trace.len() - 1 < opts.max_epochs ==> trace.last().run.stale >= opts.patience,
        forall|i: int|
            0 <= i < trace.len() - 1 ==> (#[trigger] trace[i]).run.stale == 0
                || trace[i].run.stale < opts.patience,
{
    epochs_are_counted(base, plan, opts, f, trace, trace.len() - 1);
    assert forall|i: int| 0 <= i < trace.len() - 1 implies (#[trigger] trace[i]).run.stale == 0
        || trace[i].run.stale < opts.patience by {
        epochs_are_counted(base, plan, opts, f, trace, i);
        assert(epoch(plan, f, trace[i], trace[i + 1]));
    }
}

/// Every epoch trains on all the training samples, each once: whatever the
/// order, the positions of its batches are those of the plan.
pub proof fn epochs_train_on_everything<
    T: Fn(Single) -> Single,
    X: Fn(Single) -> Single,
    L: Fn(Single) -> Single,
    P: Fn(Single, u64) -> Single,
>(
    base: HeadView,
    plan: Plan,
    opts: FinetuneOptions,
    f: Kernel<T, X, L, P>,
    trace: Seq<Standing>,
    i: int,
)
    requires
        whole_run(base, plan, opts, f, trace),
        opts.batch_size > 0,
        0 <= i < trace.len() - 1,
    ensures
        exists|batches: Seq<Seq<usize>>, loss: Single|
            {
                &&& #[trigger] went_through(
                    plan,
                    f,
                    batches,
                    trace[i].trainee,
                    trace[i + 1].trainee,
                    loss,
                )
                &&& training::joined(batches).to_multiset() == plan.train@.to_multiset()
                &&& forall|k: int|
                    0 <= k < batches.len() ==> 0 < (#[trigger] batches[k]).len()
                        <= opts.batch_size
            },
{
    lemma_order(base, plan, opts, f, trace, i);
    epochs_are_counted(base, plan, opts, f, trace, i);
    let (a, b) = (trace[i], trace[i + 1]);
    assert(epoch(plan, f, trace[i], trace[i + 1]));
    let start = a.run.order@;
    training::lemma_shuffled(a.run.rng.state, start, start.len() - 1);
    let order = training::shuffled(a.run.rng.state, start, start.len() - 1).1;
    let batches = training::batches_from(order, opts.batch_size as nat, 0);
    training::batches_cover(order, opts.batch_size as nat, 0);
    assert(order.skip(0) =~= order);
    let loss = choose|loss: Single| #[trigger]
        went_through(plan, f, batches, a.trainee, b.trainee, loss);
    assert(went_through(plan, f, batches, trace[i].trainee, trace[i + 1].trainee, loss));
}

proof fn lemma_order<
    T: Fn(Single) -> Single,
    X: Fn(Single) -> Single,
    L: Fn(Single) -> Single,
    P: Fn(Single, u64) -> Single,
>(
    base: HeadView,
    plan: Plan,
    opts: FinetuneOptions,
    f: Kernel<T, X, L, P>,
    trace: Seq<Standing>,
    i: int,
)
    requires
        whole_run(base, plan, opts, f, trace),
        0 <= i < trace.len(),
    ensures
        trace[i].run.order@.to_multiset() == plan.train@.to_multiset(),
    decreases i,
{
    if i > 0 {
        lemma_order(base, plan, opts, f, trace, i - 1);
        let (a, b) = (trace[i - 1], trace[i]);
        assert(epoch(plan, f, trace[i - 1], trace[i - 1 + 1]));
        let r = lemma_booked(plan, f, a, b);
        training::lemma_shuffled(a.run.rng.state, a.run.order@, a.run.order@.len() - 1);
    }
}

/// The gradient of a batch is divided by its size: by the number nearest to one
/// over it.
pub proof fn batches_are_averaged(n: nat)
    requires
        0 < n <= 0x100_0000,
    ensures
        !inverse_count(n).negative(),
        single::nearest(inverse_count(n).magnitude(), pow2(149) as int, n as int),
{
    single::shares_are_nearest(1, n as int);
    single::small_counts_are_exact(1);
    bounds::powers_are_exact(0);
    let one = Single::counted(1);
    let m = one.magnitude();
    assert(one.value() == pow2(149));
    if m < bounds::power(0) {
        single::span_increasing(m, bounds::power(0));
    } else if m > bounds::power(0) {
        single::span_increasing(bounds::power(0), m);
    }
    assert(one.bits == ONE);
}

/// Whether every item of a gradient is a finite number.
pub open spec fn finite(w: WeightsView) -> bool {
    forall|k: int, i: int|
        0 <= k < 6 && 0 <= i < adam::group(w, k).len() ==> {
            let x = #[trigger] adam::group(w, k)[i];
            !x.nan() && !x.infinite()
        }
}

/// A batch of one sample has the gradient of that sample, and its loss.
pub proof fn lone_samples_have_their_own_gradient<
    T: Fn(Single) -> Single,
    X: Fn(Single) -> Single,
    L: Fn(Single) -> Single,
>(
    rows: Seq<Vec<Single>>,
    labels: Seq<u8>,
    w: WeightsView,
    at: usize,
    tanh: T,
    exp: X,
    ln: L,
    g: WeightsView,
    loss: Single,
    k: int,
    i: int,
)
    requires
        batched(rows, labels, w, seq![at], tanh, exp, ln, g, loss),
        0 <= k < 6,
        0 <= i < adam::group(g, k).len(),
        mlp::sized(w, rows[at as int]@.len(), w.b1.len()),
    ensures
        exists|c: ForwardCache|
            {
                let own = mlp::gradient(rows[at as int]@, labels[at as int] as int, w, c);
                &&& #[trigger] mlp::passed(rows[at as int]@, w, tanh, exp, c)
                &&& adam::group(own, k).len() == adam::group(g, k).len()
                &&& finite(own) ==> adam::group(g, k)[i].order() == adam::group(own, k)[i].order()
            },
{
    let batch = seq![at];
    let (passes, logs) = choose|passes: Seq<ForwardCache>, logs: Seq<Single>|
        {
            &&& #[trigger] passes_of(rows, w, batch, tanh, exp, passes)
            &&& #[trigger] logs_of(labels, batch, passes, ln, logs)
            &&& g == mlp::scaled_weights(
                summed(rows, labels, w, batch, passes, 1),
                inverse_count(1),
            )
            &&& loss == summed_loss(logs, 1).product(inverse_count(1))
        };
    let c = passes[0];
    assert(batch[0] == at);
    assert(mlp::passed(rows[at as int]@, w, tanh, exp, c));
    let own = mlp::gradient(rows[at as int]@, labels[at as int] as int, w, c);
    assert(summed(rows, labels, w, batch, passes, 0) == mlp::zero_weights(w));
    assert(summed(rows, labels, w, batch, passes, 1) == mlp::added_weights(
        mlp::zero_weights(w),
        own,
    ));
    lemma_inverse_of_one();
    let x = adam::group(own, k)[i];
    let zero = Single { bits: 0 };
    if finite(own) {
        if x.magnitude() > 0 {
            bounds::zero_adds_nothing(x, zero);
        }
        lemma_times_one(zero.sum(x));
        lemma_zero_sum(x);
    }
}

proof fn lemma_zero_sum(x: Single)
    requires
        !x.nan() && !x.infinite(),
    ensures
        (Single { bits: 0 }).sum(x).order() == x.order(),
        !(Single { bits: 0 }).sum(x).nan() && !(Single { bits: 0 }).sum(x).infinite(),
{
    single::lemma_span(0, 0);
    if x.magnitude() > 0 {
        bounds::zero_adds_nothing(x, Single { bits: 0 });
    }
}

proof fn lemma_inverse_of_one()
    ensures
        inverse_count(1).bits == ONE,
{
    batches_are_averaged(1);
    bounds::powers_are_exact(0);
    let p = pow2(149) as int;
    lemma_pow2_pos(149);
    single::rounded_is_nearest(p, 1);
    single::rounding_respects_order(p, 1, bounds::power(0));
    single::nearest_unique(inverse_count(1).magnitude(), bounds::power(0), p, 1);
}

proof fn lemma_times_one(x: Single)
    requires
        !x.nan() && !x.infinite(),
    ensures
        x.product(Single { bits: ONE }).order() == x.order(),
{
    let one = Single { bits: ONE };
    lemma_pow2_pos(149);
    bounds::powers_are_exact(0);
    single::lemma_span(0, 0);
    if x.magnitude() > 0 {
        single::span_increasing(0, x.magnitude());
        let (u, s) = (pow2(149) as int, single::span(x.magnitude()));
        assert(s * u >= 0) by (nonlinear_arith)
            requires
                u > 0,
                s > 0,
        ;
        single::rounding_respects_order(s * u, u, x.magnitude());
    }
}

/// Every sample of a batch pulls: where the gradients of all others have
/// nothing at a place, the sum has there what the one has, wherever in the
/// batch it stands.
pub proof fn every_sample_pulls(
    rows: Seq<Vec<Single>>,
    labels: Seq<u8>,
    w: WeightsView,
    batch: Seq<usize>,
    passes: Seq<ForwardCache>,
    inputs: nat,
    n: int,
    at: int,
    k: int,
    i: int,
)
    requires
        mlp::sized(w, inputs, w.b1.len()),
        0 <= at,
        0 <= n <= batch.len() == passes.len(),
        forall|j: int| 0 <= j < batch.len() ==> rows[(#[trigger] batch[j]) as int]@.len() == inputs,
        0 <= k < 6,
        0 <= i < adam::group(w, k).len(),
        forall|j: int|
            0 <= j < batch.len() ==> {
                let own = mlp::gradient(
                    rows[(#[trigger] batch[j]) as int]@,
                    labels[batch[j] as int] as int,
                    w,
                    passes[j],
                );
                let x = adam::group(own, k)[i];
                !x.nan() && !x.infinite() && (j != at ==> x.magnitude() == 0)
            },
    ensures
        ({
            let sum = adam::group(summed(rows, labels, w, batch, passes, n), k)[i];
            let own = mlp::gradient(
                rows[batch[at] as int]@,
                labels[batch[at] as int] as int,
                w,
                passes[at],
            );
            &&& adam::group(summed(rows, labels, w, batch, passes, n), k).len() == adam::group(
                w,
                k,
            ).len()
            &&& !sum.nan() && !sum.infinite()
            &&& sum.order() == if at < n {
                adam::group(own, k)[i].order()
            } else {
                0
            }
        }),
    decreases n,
{
    if n > 0 {
        every_sample_pulls(rows, labels, w, batch, passes, inputs, n - 1, at, k, i);
        let j = n - 1;
        assert(rows[batch[j] as int]@.len() == inputs);
        let own = mlp::gradient(
            rows[batch[j] as int]@,
            labels[batch[j] as int] as int,
            w,
            passes[j],
        );
        let before = adam::group(summed(rows, labels, w, batch, passes, n - 1), k)[i];
        let x = adam::group(own, k)[i];
        assert(adam::group(summed(rows, labels, w, batch, passes, n), k)[i] == before.sum(x));
        single::lemma_span(0, 0);
        if x.magnitude() > 0 {
            bounds::zero_adds_nothing(x, before);
        } else if before.magnitude() > 0 {
            bounds::zero_adds_nothing(before, x);
        }
    }
}

/// Training on a batch moves the parameters against the gradient of the batch:
/// one that stands at zero, before any moments, ends on the other side, in
/// whichever group it is.
pub proof fn learning_goes_against_the_gradient<
    T: Fn(Single) -> Single,
    X: Fn(Single) -> Single,
    L: Fn(Single) -> Single,
    P: Fn(Single, u64) -> Single,
>(
    before: Trainee,
    rows: Seq<Vec<Single>>,
    labels: Seq<u8>,
    batch: Seq<usize>,
    f: Kernel<T, X, L, P>,
    after: Trainee,
    loss: Single,
    x: int,
    i: int,
    slow: int,
    fast: int,
)
    requires
        learned(before, rows, labels, batch, f.tanh, f.exp, f.ln, f.powers, after, loss),
        0 <= x < 6,
        0 <= i < adam::group(before.w@, x).len(),
        adam::same_sizes(before.m@, before.w@),
        adam::same_sizes(before.v@, before.w@),
        adam::group(before.w@, x)[i].magnitude() == 0,
        adam::group(before.m@, x)[i].magnitude() == 0,
        adam::group(before.v@, x)[i].magnitude() == 0,
        bounds::between(before.adam.lr, slow, fast),
        -40 <= slow,
        fast <= 40,
        bounds::between(after.adam.bc1, -10, 0),
        bounds::between(after.adam.bc2, -10, 0),
        !before.adam.wd.nan() && !before.adam.wd.infinite(),
    ensures
        exists|g: WeightsView|
            {
                let slope = adam::group(g, x)[i];
                let moved = adam::group(after.w@, x)[i];
                &&& #[trigger] batched(rows, labels, before.w@, batch, f.tanh, f.exp, f.ln, g, loss)
                &&& adam::same_sizes(before.w@, g) && bounds::power(-20) <= slope.magnitude()
                    < bounds::power(41) ==> {
                    &&& moved.negative() != slope.negative()
                    &&& bounds::power(slow - 7) <= moved.magnitude() <= bounds::power(fast + 13)
                }
            },
{
    let a = after.adam;
    let g = choose|g: WeightsView| #[trigger]
        batched(rows, labels, before.w@, batch, f.tanh, f.exp, f.ln, g, loss) && {
            &&& after.w@ == a.moves_weights(before.w@, g, before.m@, before.v@)
            &&& after.m@ == adam::firsts_weights(before.m@, g)
            &&& after.v@ == adam::seconds_weights(before.v@, g)
        };
    let slope = adam::group(g, x)[i];
    if adam::same_sizes(before.w@, g) && bounds::power(-20) <= slope.magnitude() < bounds::power(
        41,
    ) {
        let k = slope.magnitude() / 0x80_0000 - 127;
        assert(bounds::power(k) <= slope.magnitude() <= bounds::power(k + 1));
        assert(-20 <= k <= 40);
        adam::first_steps_go_against_the_gradient(
            a,
            before.w@,
            g,
            before.m@,
            before.v@,
            x,
            i,
            k,
            slow,
            fast,
        );
    }
}

/// A run starts from the head as it is, with no momentum, at the rates that
/// were asked for; what it ends with differs from the head in the weights only,
/// and the reported accuracies are those of the two.
pub proof fn runs_lead_from_head_to_head<
    T: Fn(Single) -> Single,
    X: Fn(Single) -> Single,
    L: Fn(Single) -> Single,
    P: Fn(Single, u64) -> Single,
>(
    base: HeadView,
    plan: Plan,
    opts: FinetuneOptions,
    f: Kernel<T, X, L, P>,
    trace: Seq<Standing>,
    head: HeadView,
    report: FinetuneReport,
    k: int,
    i: int,
)
    requires
        whole_run(base, plan, opts, f, trace),
        concludes(base, plan, trace.last(), head, report),
        plan.eval_rows@.len() <= u64::MAX,
    ensures
        trace[0].trainee.w@ == base.weights,
        0 <= k < 6 && 0 <= i < adam::group(base.weights, k).len() ==> {
            &&& adam::group(trace[0].trainee.m@, k)[i].magnitude() == 0
            &&& adam::group(trace[0].trainee.v@, k)[i].magnitude() == 0
        },
        trace[0].trainee.adam.lr == opts.lr,
        trace[0].trainee.adam.wd == opts.weight_decay,
        trace[0].trainee.adam.t == 0,
        trace[0].run.order@ == plan.train@,
        trace[0].run.rng.state == if opts.seed < u64::MAX {
            opts.seed + 1
        } else {
            0
        },
        head == (HeadView { weights: head.weights, ..base }),
        scores(
            plan.eval_rows@,
            plan.eval_labels@,
            head.weights,
            f.tanh,
            f.exp,
            report.best_eval_acc,
        ),
        scores(
            plan.eval_rows@,
            plan.eval_labels@,
            base.weights,
            f.tanh,
            f.exp,
            report.baseline_eval_acc,
        ),
        report.baseline_eval_acc.at_most(report.best_eval_acc),
        report.epochs_run == trace.len() - 1,
        report.train_samples == plan.train@.len(),
        report.eval_samples == plan.eval_rows@.len(),
{
    tuning_never_loses(base, plan, opts, f, trace, trace.len() - 1);
    epochs_are_counted(base, plan, opts, f, trace, trace.len() - 1);
}

/// The loss of an epoch is that of its batches, divided by their number.
pub proof fn epoch_losses_are_averaged(
    before: Run,
    after: Run,
    loss: Single,
    count: nat,
    acc: Single,
    low: int,
    high: int,
    few: int,
    many: int,
)
    requires
        booked(before, after, loss, count, acc),
        count > 0,
        bounds::between(loss, low, high),
        bounds::between(Single::counted(count as int), few, many),
        -60 <= low,
        high <= 60,
        0 <= few,
        many <= 60,
    ensures
        bounds::between(after.final_train_loss, low - many, high - few),
{
    bounds::quotients_are_bounded(loss, Single::counted(count as int), low, high, few, many);
}

/// Every sample that is not certain adds to the loss: the loss is at least
/// what any one of them loses.
pub proof fn losses_add_up(logs: Seq<Single>, n: int, i: int)
    requires
        0 <= i < n <= logs.len(),
        forall|j: int| 0 <= j < n ==> !(#[trigger] logs[j]).nan() && logs[j].order() <= 0,
        forall|j: int| 0 <= j <= n ==> !(#[trigger] summed_loss(logs, j)).infinite(),
        forall|j: int| 0 <= j < n ==> !(#[trigger] logs[j]).infinite(),
    ensures
        !summed_loss(logs, n).nan(),
        summed_loss(logs, n).order() >= -logs[i].order(),
        summed_loss(logs, n).order() >= 0,
    decreases n,
{
    lemma_loss_grows(logs, n);
    if i < n - 1 {
        losses_add_up(logs, n - 1, i);
    }
}

proof fn lemma_loss_grows(logs: Seq<Single>, n: int)
    requires
        0 < n <= logs.len(),
        forall|j: int| 0 <= j < n ==> !(#[trigger] logs[j]).nan() && logs[j].order() <= 0,
        forall|j: int| 0 <= j <= n ==> !(#[trigger] summed_loss(logs, j)).infinite(),
        forall|j: int| 0 <= j < n ==> !(#[trigger] logs[j]).infinite(),
    ensures
        !summed_loss(logs, n).nan() && summed_loss(logs, n).order() >= 0,
        summed_loss(logs, n).order() >= summed_loss(logs, n - 1).order(),
        summed_loss(logs, n).order() >= -logs[n - 1].order(),
        !summed_loss(logs, n - 1).nan() && summed_loss(logs, n - 1).order() >= 0,
    decreases n,
{
    let before = summed_loss(logs, n - 1);
    assert(!before.infinite());
    if n > 1 {
        lemma_loss_grows(logs, n - 1);
    }
    let more = logs[n - 1].negated();
    single::lemma_span(0, 0);
    let (a, b) = (
        Single { bits: before.magnitude() as u32 },
        Single { bits: more.magnitude() as u32 },
    );
    assert(more.order() == -logs[n - 1].order());
    single::sum_is_no_less(a, b);
    single::sum_is_no_less(b, a);
    assert(a.sum(b) == b.sum(a));
    assert(a.sum(b).order() == before.sum(more).order());
}

/// The loss of an epoch is made up of that of every batch: it is at least the
/// loss of any one of them.
pub proof fn batch_losses_add_up(losses: Seq<Single>, n: int, i: int)
    requires
        0 <= i < n <= losses.len(),
        forall|j: int| 0 <= j < n ==> !(#[trigger] losses[j]).nan() && !losses[j].infinite(),
        forall|j: int| 0 <= j < n ==> !(#[trigger] losses[j]).negative(),
        forall|j: int| 0 <= j <= n ==> !(#[trigger] added_loss(losses, j)).infinite(),
    ensures
        !added_loss(losses, n).nan() && !added_loss(losses, n).negative(),
        losses[i].at_most(added_loss(losses, n)),
    decreases n,
{
    let before = added_loss(losses, n - 1);
    let last = losses[n - 1];
    assert(!before.infinite());
    if n > 1 {
        batch_losses_add_up(losses, n - 1, if i < n - 1 {
            i
        } else {
            0
        });
    }
    single::lemma_span(0, 0);
    single::sum_is_no_less(before, last);
    single::sum_is_no_less(last, before);
    assert(before.sum(last) == last.sum(before));
    let v = before.value() + last.value();
    if v > 0 {
        single::rounded_is_nearest(v, 1);
    }
    if before.magnitude() > 0 {
        single::span_increasing(0, before.magnitude());
    }
    if last.magnitude() > 0 {
        single::span_increasing(0, last.magnitude());
    }
}

/// A probability counts as a thousand-millionth at the least.
pub proof fn least_probability_is_decimal()
    ensures
        single::nearest(LEAST_PROBABILITY as int, 1int * pow2(149), 1_000_000_000),
{
    lemma2_to64();
    lemma2_to64_rest();
    bounds::lemma_fraction(LEAST_PROBABILITY as int, 1, 1_000_000_000);
}

/// What a sample loses is the logarithm of the probability of its label, which
/// counts as no less than the least one; the other probabilities do not count.
pub proof fn losses_are_those_of_the_label<L: Fn(Single) -> Single>(
    labels: Seq<u8>,
    batch: Seq<usize>,
    passes: Seq<ForwardCache>,
    ln: L,
    logs: Seq<Single>,
    i: int,
)
    requires
        logs_of(labels, batch, passes, ln, logs),
        0 <= i < passes.len(),
    ensures
        logs.len() == passes.len(),
        ({
            let p = passes[i].probs@[labels[batch[i] as int] as int];
            let least = Single { bits: LEAST_PROBABILITY };
            &&& least.at_most(p) ==> call_ensures(ln, (p,), logs[i])
            &&& p.below(least) || p.nan() ==> call_ensures(ln, (least,), logs[i])
        }),
{
    let p = passes[i].probs@[labels[batch[i] as int] as int];
    let x = p.larger(Single { bits: LEAST_PROBABILITY });
    assert(call_ensures(ln, (x,), logs[i]));
}

/// The first step is not held back by moments that start from zero: what each
/// moment takes of the gradient is what it is then divided by.
pub proof fn first_corrections_match_the_moments<
    T: Fn(Single) -> Single,
    X: Fn(Single) -> Single,
    L: Fn(Single) -> Single,
    P: Fn(Single, u64) -> Single,
>(
    before: Trainee,
    rows: Seq<Vec<Single>>,
    labels: Seq<u8>,
    batch: Seq<usize>,
    f: Kernel<T, X, L, P>,
    after: Trainee,
    loss: Single,
    g: Single,
)
    requires
        learned(before, rows, labels, batch, f.tanh, f.exp, f.ln, f.powers, after, loss),
        before.adam.t == 0,
        forall|b: Single, p: Single| #[trigger] call_ensures(f.powers, (b, 1u64), p) ==> p == b,
        !g.nan() && !g.infinite(),
        !after.adam.bc1.product(g).nan() && !after.adam.bc1.product(g).infinite(),
        !after.adam.bc2.product(g).product(g).nan(),
        !after.adam.bc2.product(g).product(g).infinite(),
    ensures
        after.adam.t == 1,
        adam::first(Single { bits: 0 }, g).order() == after.adam.bc1.product(g).order(),
        adam::second(Single { bits: 0 }, g).order() == after.adam.bc2.product(g).product(
            g,
        ).order(),
{
    let zero = Single { bits: 0 };
    let (b1, b2) = (Single { bits: adam::BETA1 }, Single { bits: adam::BETA2 });
    single::lemma_span(0, 0);
    let (x, y) = (after.adam.bc1.product(g), after.adam.bc2.product(g).product(g));
    assert(b1.product(zero).magnitude() == 0);
    assert(b2.product(zero).magnitude() == 0);
    if x.magnitude() > 0 {
        bounds::zero_adds_nothing(x, b1.product(zero));
    }
    if y.magnitude() > 0 {
        bounds::zero_adds_nothing(y, b2.product(zero));
    }
}

} // verus!
