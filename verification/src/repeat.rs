//! Repeatability: with functions that answer alike for the same argument, a
//! computation on the same values comes to the same result.

use crate::adam;
use crate::finetune;
use crate::finetune::{Kernel, Standing, Trainee};
use crate::head::{HeadView, WeightsView};
use crate::mlp;
use crate::mlp::ForwardCache;
use crate::postprocess;
use crate::single::Single;
use crate::training;
use crate::training::{FinetuneOptions, FinetuneReport, Plan, TrainingSample};
use vstd::prelude::*;

verus! {

/// Whether a function always answers alike for the same number.
pub open spec fn functional<F: Fn(Single) -> Single>(f: F) -> bool {
    forall|v: Single, a: Single, b: Single|
        #[trigger] call_ensures(f, (v,), a) && #[trigger] call_ensures(f, (v,), b) ==> a == b
}

/// Whether the functions of a training run always answer alike for the same
/// arguments.
pub open spec fn repeatable<
    T: Fn(Single) -> Single,
    X: Fn(Single) -> Single,
    L: Fn(Single) -> Single,
    P: Fn(Single, u64) -> Single,
>(f: Kernel<T, X, L, P>) -> bool {
    &&& functional(f.tanh)
    &&& functional(f.exp)
    &&& functional(f.ln)
    &&& forall|v: Single, n: u64, a: Single, b: Single|
        #[trigger] call_ensures(f.powers, (v, n), a) && #[trigger] call_ensures(
            f.powers,
            (v, n),
            b,
        ) ==> a == b
}

/// A softmax of the same logits is the same.
pub proof fn softmax_repeats<X: Fn(Single) -> Single>(
    exp: X,
    logits: Seq<Single>,
    a: Seq<Single>,
    b: Seq<Single>,
)
    requires
        functional(exp),
        postprocess::softmax_of(exp, logits, a),
        postprocess::softmax_of(exp, logits, b),
        a.len() == 4,
        b.len() == 4,
    ensures
        a == b,
{
    let e = choose|e: Seq<Single>| #[trigger]
        postprocess::answered(exp, logits, e) && postprocess::softmaxed(e, a);
    let d = choose|d: Seq<Single>| #[trigger]
        postprocess::answered(exp, logits, d) && postprocess::softmaxed(d, b);
    assert forall|k: int| 0 <= k < e.len() implies e[k] == d[k] by {
        let v = logits[k].difference(postprocess::peak(logits));
        assert(call_ensures(exp, (v,), e[k]));
        assert(call_ensures(exp, (v,), d[k]));
    }
    assert(e =~= d);
    assert(a =~= b);
}

/// Whether two passes hold the same values.
pub open spec fn same_pass(a: ForwardCache, b: ForwardCache) -> bool {
    &&& a.z@ == b.z@
    &&& a.t@ == b.t@
    &&& a.a@ == b.a@
    &&& a.mu == b.mu
    &&& a.inv_std == b.inv_std
    &&& a.y@ == b.y@
    &&& a.probs@ == b.probs@
}

/// A pass of the same values through the same perceptron is the same.
pub proof fn passes_repeat<T: Fn(Single) -> Single, X: Fn(Single) -> Single>(
    x: Seq<Single>,
    w: WeightsView,
    tanh: T,
    exp: X,
    a: ForwardCache,
    b: ForwardCache,
)
    requires
        functional(tanh),
        functional(exp),
        mlp::passed(x, w, tanh, exp, a),
        mlp::passed(x, w, tanh, exp, b),
    ensures
        same_pass(a, b),
{
    assert forall|j: int| 0 <= j < a.t@.len() implies a.t@[j] == b.t@[j] by {
        let v = mlp::gelu_argument(a.z@[j]);
        assert(call_ensures(tanh, (v,), a.t@[j]));
        assert(call_ensures(tanh, (v,), b.t@[j]));
    }
    assert(a.t@ =~= b.t@);
    assert(a.a@ =~= b.a@);
    softmax_repeats(exp, mlp::logits(w, a.y@), a.probs@, b.probs@);
}

/// The same head classifies the same hidden state, after the same tier, alike.
pub proof fn classifications_repeat<T: Fn(Single) -> Single, X: Fn(Single) -> Single>(
    head: HeadView,
    hidden: Seq<Single>,
    prev_tier: Option<u8>,
    tanh: T,
    exp: X,
    a: [Single; 4],
    b: [Single; 4],
)
    requires
        functional(tanh),
        functional(exp),
        head.classifies(hidden, prev_tier, tanh, exp, a),
        head.classifies(hidden, prev_tier, tanh, exp, b),
    ensures
        a == b,
{
    let x = head.input_layer(hidden, prev_tier);
    let c = choose|c: ForwardCache| #[trigger]
        mlp::passed(x, head.weights, tanh, exp, c) && c.probs == a;
    let d = choose|d: ForwardCache| #[trigger]
        mlp::passed(x, head.weights, tanh, exp, d) && d.probs == b;
    passes_repeat(x, head.weights, tanh, exp, c, d);
    assert(a =~= b);
}

/// Whether two sets of rows hold the same numbers.
pub open spec fn same_rows(a: Seq<Vec<Single>>, b: Seq<Vec<Single>>) -> bool {
    &&& a.len() == b.len()
    &&& forall|i: int| 0 <= i < a.len() ==> (#[trigger] a[i])@ == b[i]@
}

proof fn lemma_gradient(
    x: Seq<Single>,
    label: int,
    w: WeightsView,
    a: ForwardCache,
    b: ForwardCache,
)
    requires
        same_pass(a, b),
    ensures
        mlp::gradient(x, label, w, a) == mlp::gradient(x, label, w, b),
{
    let dy = mlp::output_slopes(mlp::logit_slopes(a.probs@, label), w.w2, w.b1.len());
    assert(mlp::slope_moment(dy, a) == mlp::slope_moment(dy, b)) by {
        assert(Seq::new(
            dy.len(),
            |j: int| dy[j].product(a.a@[j].difference(a.mu)).product(a.inv_std),
        ) =~= Seq::new(
            dy.len(),
            |j: int| dy[j].product(b.a@[j].difference(b.mu)).product(b.inv_std),
        ));
    }
    assert(mlp::gradient(x, label, w, a) =~= mlp::gradient(x, label, w, b));
}

proof fn lemma_summed(
    rows: Seq<Vec<Single>>,
    others: Seq<Vec<Single>>,
    labels: Seq<u8>,
    w: WeightsView,
    batch: Seq<usize>,
    a: Seq<ForwardCache>,
    b: Seq<ForwardCache>,
    n: int,
)
    requires
        same_rows(rows, others),
        finetune::within(batch, rows.len()),
        0 <= n <= batch.len(),
        forall|k: int| 0 <= k < n ==> same_pass(#[trigger] a[k], b[k]),
    ensures
        finetune::summed(rows, labels, w, batch, a, n) == finetune::summed(
            others,
            labels,
            w,
            batch,
            b,
            n,
        ),
    decreases n,
{
    if n > 0 {
        lemma_summed(rows, others, labels, w, batch, a, b, n - 1);
        let at = batch[n - 1] as int;
        assert(same_pass(a[n - 1], b[n - 1]));
        assert(rows[at]@ == others[at]@);
        lemma_gradient(rows[at]@, labels[at] as int, w, a[n - 1], b[n - 1]);
    }
}

proof fn lemma_batched<
    T: Fn(Single) -> Single,
    X: Fn(Single) -> Single,
    L: Fn(Single) -> Single,
    P: Fn(Single, u64) -> Single,
>(
    rows: Seq<Vec<Single>>,
    others: Seq<Vec<Single>>,
    labels: Seq<u8>,
    w: WeightsView,
    batch: Seq<usize>,
    f: Kernel<T, X, L, P>,
    g: WeightsView,
    loss: Single,
    h: WeightsView,
    cost: Single,
)
    requires
        repeatable(f),
        same_rows(rows, others),
        finetune::within(batch, rows.len()),
        finetune::batched(rows, labels, w, batch, f.tanh, f.exp, f.ln, g, loss),
        finetune::batched(others, labels, w, batch, f.tanh, f.exp, f.ln, h, cost),
    ensures
        g == h,
        loss == cost,
{
    let n = batch.len() as int;
    let by = finetune::inverse_count(batch.len());
    let (a, logs) = choose|a: Seq<ForwardCache>, logs: Seq<Single>|
        {
            &&& #[trigger] finetune::passes_of(rows, w, batch, f.tanh, f.exp, a)
            &&& #[trigger] finetune::logs_of(labels, batch, a, f.ln, logs)
            &&& g == mlp::scaled_weights(finetune::summed(rows, labels, w, batch, a, n), by)
            &&& loss == finetune::summed_loss(logs, n).product(by)
        };
    let (b, lines) = choose|b: Seq<ForwardCache>, lines: Seq<Single>|
        {
            &&& #[trigger] finetune::passes_of(others, w, batch, f.tanh, f.exp, b)
            &&& #[trigger] finetune::logs_of(labels, batch, b, f.ln, lines)
            &&& h == mlp::scaled_weights(finetune::summed(others, labels, w, batch, b, n), by)
            &&& cost == finetune::summed_loss(lines, n).product(by)
        };
    assert forall|k: int| 0 <= k < n implies same_pass(#[trigger] a[k], b[k]) by {
        let at = batch[k] as int;
        assert(rows[at]@ == others[at]@);
        assert(mlp::passed(others[at]@, w, f.tanh, f.exp, b[k]));
        passes_repeat(rows[at]@, w, f.tanh, f.exp, a[k], b[k]);
    }
    assert forall|k: int| 0 <= k < n implies logs[k] == lines[k] by {
        assert(same_pass(a[k], b[k]));
        let v = a[k].probs@[labels[batch[k] as int] as int].larger(
            Single { bits: finetune::LEAST_PROBABILITY },
        );
        assert(call_ensures(f.ln, (v,), logs[k]));
        assert(call_ensures(f.ln, (v,), lines[k]));
    }
    assert(logs =~= lines);
    lemma_summed(rows, others, labels, w, batch, a, b, n);
}

/// Whether two states of training hold the same values. The corrections of the
/// step are left out: every step makes them anew.
pub open spec fn same_trainee(a: Trainee, b: Trainee) -> bool {
    &&& a.w@ == b.w@
    &&& a.m@ == b.m@
    &&& a.v@ == b.v@
    &&& a.adam.lr == b.adam.lr
    &&& a.adam.wd == b.adam.wd
    &&& a.adam.t == b.adam.t
}

proof fn lemma_corrects<P: Fn(Single, u64) -> Single>(
    powers: P,
    beta: u32,
    t: u64,
    a: Single,
    b: Single,
)
    requires
        forall|v: Single, n: u64, a: Single, b: Single|
            #[trigger] call_ensures(powers, (v, n), a) && #[trigger] call_ensures(
                powers,
                (v, n),
                b,
            ) ==> a == b,
        adam::corrects(powers, beta, t, a),
        adam::corrects(powers, beta, t, b),
    ensures
        a == b,
{
}

proof fn lemma_learned<
    T: Fn(Single) -> Single,
    X: Fn(Single) -> Single,
    L: Fn(Single) -> Single,
    P: Fn(Single, u64) -> Single,
>(
    rows: Seq<Vec<Single>>,
    others: Seq<Vec<Single>>,
    labels: Seq<u8>,
    batch: Seq<usize>,
    f: Kernel<T, X, L, P>,
    a: Trainee,
    b: Trainee,
    x: Trainee,
    y: Trainee,
    loss: Single,
    cost: Single,
)
    requires
        repeatable(f),
        same_rows(rows, others),
        finetune::within(batch, rows.len()),
        same_trainee(a, b),
        finetune::learned(a, rows, labels, batch, f.tanh, f.exp, f.ln, f.powers, x, loss),
        finetune::learned(b, others, labels, batch, f.tanh, f.exp, f.ln, f.powers, y, cost),
    ensures
        same_trainee(x, y),
        loss == cost,
{
    lemma_corrects(f.powers, adam::BETA1, x.adam.t, x.adam.bc1, y.adam.bc1);
    lemma_corrects(f.powers, adam::BETA2, x.adam.t, x.adam.bc2, y.adam.bc2);
    let g = choose|g: WeightsView| #[trigger]
        finetune::batched(rows, labels, a.w@, batch, f.tanh, f.exp, f.ln, g, loss) && {
            &&& x.w@ == x.adam.moves_weights(a.w@, g, a.m@, a.v@)
            &&& x.m@ == adam::firsts_weights(a.m@, g)
            &&& x.v@ == adam::seconds_weights(a.v@, g)
        };
    let h = choose|h: WeightsView| #[trigger]
        finetune::batched(others, labels, b.w@, batch, f.tanh, f.exp, f.ln, h, cost) && {
            &&& y.w@ == y.adam.moves_weights(b.w@, h, b.m@, b.v@)
            &&& y.m@ == adam::firsts_weights(b.m@, h)
            &&& y.v@ == adam::seconds_weights(b.v@, h)
        };
    lemma_batched(rows, others, labels, a.w@, batch, f, g, loss, h, cost);
}

/// Whether two plans hold the same values.
pub open spec fn same_plan(a: Plan, b: Plan) -> bool {
    &&& same_rows(a.rows@, b.rows@)
    &&& a.labels@ == b.labels@
    &&& a.train@ == b.train@
    &&& same_rows(a.eval_rows@, b.eval_rows@)
    &&& a.eval_labels@ == b.eval_labels@
}

proof fn lemma_trains<
    T: Fn(Single) -> Single,
    X: Fn(Single) -> Single,
    L: Fn(Single) -> Single,
    P: Fn(Single, u64) -> Single,
>(
    p: Plan,
    q: Plan,
    f: Kernel<T, X, L, P>,
    batches: Seq<Seq<usize>>,
    a: Seq<Trainee>,
    losses: Seq<Single>,
    b: Seq<Trainee>,
    costs: Seq<Single>,
    n: int,
    k: int,
)
    requires
        repeatable(f),
        same_plan(p, q),
        0 <= k <= n <= batches.len(),
        forall|i: int| 0 <= i < n ==> finetune::within(#[trigger] batches[i], p.rows@.len()),
        finetune::trains(p, f, batches, a, losses, n),
        finetune::trains(q, f, batches, b, costs, n),
        same_trainee(a[0], b[0]),
    ensures
        same_trainee(a[k], b[k]),
        forall|i: int| 0 <= i < k ==> #[trigger] losses[i] == costs[i],
    decreases k,
{
    if k > 0 {
        lemma_trains(p, q, f, batches, a, losses, b, costs, n, k - 1);
        let j = k - 1;
        assert(finetune::within(batches[j], p.rows@.len()));
        let (loss, cost) = (losses[j], costs[j]);
        lemma_learned(
            p.rows@,
            q.rows@,
            p.labels@,
            batches[j],
            f,
            a[j],
            b[j],
            a[j + 1],
            b[j + 1],
            loss,
            cost,
        );
    }
}

proof fn lemma_went_through<
    T: Fn(Single) -> Single,
    X: Fn(Single) -> Single,
    L: Fn(Single) -> Single,
    P: Fn(Single, u64) -> Single,
>(
    p: Plan,
    q: Plan,
    f: Kernel<T, X, L, P>,
    batches: Seq<Seq<usize>>,
    a: Trainee,
    x: Trainee,
    loss: Single,
    b: Trainee,
    y: Trainee,
    cost: Single,
)
    requires
        repeatable(f),
        same_plan(p, q),
        forall|i: int|
            0 <= i < batches.len() ==> finetune::within(#[trigger] batches[i], p.rows@.len()),
        finetune::went_through(p, f, batches, a, x, loss),
        finetune::went_through(q, f, batches, b, y, cost),
        same_trainee(a, b),
    ensures
        same_trainee(x, y),
        loss == cost,
{
    let n = batches.len() as int;
    let (steps, losses) = choose|steps: Seq<Trainee>, losses: Seq<Single>|
        {
            &&& #[trigger] finetune::trains(p, f, batches, steps, losses, n)
            &&& steps[0] == a
            &&& steps[n] == x
            &&& loss == finetune::added_loss(losses, n)
        };
    let (paces, costs) = choose|paces: Seq<Trainee>, costs: Seq<Single>|
        {
            &&& #[trigger] finetune::trains(q, f, batches, paces, costs, n)
            &&& paces[0] == b
            &&& paces[n] == y
            &&& cost == finetune::added_loss(costs, n)
        };
    lemma_trains(p, q, f, batches, steps, losses, paces, costs, n, n);
    assert(losses =~= costs);
}

/// The accuracy of the same parameters on the same rows is the same.
pub proof fn scores_repeat<T: Fn(Single) -> Single, X: Fn(Single) -> Single>(
    rows: Seq<Vec<Single>>,
    others: Seq<Vec<Single>>,
    labels: Seq<u8>,
    w: WeightsView,
    tanh: T,
    exp: X,
    a: Single,
    b: Single,
)
    requires
        functional(tanh),
        functional(exp),
        same_rows(rows, others),
        finetune::scores(rows, labels, w, tanh, exp, a),
        finetune::scores(others, labels, w, tanh, exp, b),
    ensures
        a == b,
{
    let one = choose|one: Seq<ForwardCache>|
        {
            &&& one.len() == rows.len()
            &&& forall|i: int|
                0 <= i < one.len() ==> mlp::passed(rows[i]@, w, tanh, exp, #[trigger] one[i])
            &&& a == training::hit_rate(#[trigger] finetune::predictions(one), labels)
        };
    let two = choose|two: Seq<ForwardCache>|
        {
            &&& two.len() == others.len()
            &&& forall|i: int|
                0 <= i < two.len() ==> mlp::passed(others[i]@, w, tanh, exp, #[trigger] two[i])
            &&& b == training::hit_rate(#[trigger] finetune::predictions(two), labels)
        };
    assert forall|i: int| 0 <= i < one.len() implies one[i].probs == two[i].probs by {
        assert(rows[i]@ == others[i]@);
        assert(mlp::passed(others[i]@, w, tanh, exp, two[i]));
        passes_repeat(rows[i]@, w, tanh, exp, one[i], two[i]);
        assert(one[i].probs =~= two[i].probs);
    }
    assert(finetune::predictions(one) =~= finetune::predictions(two));
}

/// Whether two runs stand alike.
pub open spec fn same_standing(a: Standing, b: Standing) -> bool {
    &&& same_trainee(a.trainee, b.trainee)
    &&& a.run.order@ == b.run.order@
    &&& a.run.rng.state == b.run.rng.state
    &&& a.run.opts == b.run.opts
    &&& a.run.baseline == b.run.baseline
    &&& a.run.best == b.run.best
    &&& a.run.stale == b.run.stale
    &&& a.run.epochs_run == b.run.epochs_run
    &&& a.run.final_train_loss == b.run.final_train_loss
    &&& a.run.stopped == b.run.stopped
    &&& a.best == b.best
}

proof fn lemma_epoch<
    T: Fn(Single) -> Single,
    X: Fn(Single) -> Single,
    L: Fn(Single) -> Single,
    P: Fn(Single, u64) -> Single,
>(
    p: Plan,
    q: Plan,
    f: Kernel<T, X, L, P>,
    a: Standing,
    x: Standing,
    b: Standing,
    y: Standing,
)
    requires
        repeatable(f),
        same_plan(p, q),
        finetune::within(a.run.order@, p.rows@.len()),
        finetune::epoch(p, f, a, x),
        finetune::epoch(q, f, b, y),
        same_standing(a, b),
    ensures
        same_standing(x, y),
        finetune::within(x.run.order@, p.rows@.len()),
{
    let start = a.run.order@;
    let order = training::shuffled(a.run.rng.state, start, start.len() - 1).1;
    let size = a.run.opts.batch_size as nat;
    let batches = training::batches_from(order, size, 0);
    training::lemma_shuffled(a.run.rng.state, start, start.len() - 1);
    finetune::lemma_within_shuffled(start, order, p.rows@.len());
    finetune::lemma_within_batches(order, size, 0, p.rows@.len());
    let (loss, acc) = choose|loss: Single, acc: Single|
        {
            &&& #[trigger] finetune::went_through(p, f, batches, a.trainee, x.trainee, loss)
            &&& #[trigger] finetune::scores(
                p.eval_rows@,
                p.eval_labels@,
                x.trainee.w@,
                f.tanh,
                f.exp,
                acc,
            )
            &&& finetune::booked(a.run, x.run, loss, batches.len(), acc)
            &&& x.best == if training::gains(a.run.best, acc) {
                x.trainee.w@
            } else {
                a.best
            }
        };
    let (cost, hit) = choose|cost: Single, hit: Single|
        {
            &&& #[trigger] finetune::went_through(q, f, batches, b.trainee, y.trainee, cost)
            &&& #[trigger] finetune::scores(
                q.eval_rows@,
                q.eval_labels@,
                y.trainee.w@,
                f.tanh,
                f.exp,
                hit,
            )
            &&& finetune::booked(b.run, y.run, cost, batches.len(), hit)
            &&& y.best == if training::gains(b.run.best, hit) {
                y.trainee.w@
            } else {
                b.best
            }
        };
    lemma_went_through(p, q, f, batches, a.trainee, x.trainee, loss, b.trainee, y.trainee, cost);
    scores_repeat(
        p.eval_rows@,
        q.eval_rows@,
        p.eval_labels@,
        x.trainee.w@,
        f.tanh,
        f.exp,
        acc,
        hit,
    );
}

proof fn lemma_traces<
    T: Fn(Single) -> Single,
    X: Fn(Single) -> Single,
    L: Fn(Single) -> Single,
    P: Fn(Single, u64) -> Single,
>(
    base: HeadView,
    p: Plan,
    q: Plan,
    opts: FinetuneOptions,
    f: Kernel<T, X, L, P>,
    a: Seq<Standing>,
    b: Seq<Standing>,
    i: int,
)
    requires
        repeatable(f),
        same_plan(p, q),
        finetune::within(p.train@, p.rows@.len()),
        finetune::whole_run(base, p, opts, f, a),
        finetune::whole_run(base, q, opts, f, b),
        0 <= i < a.len(),
    ensures
        i < b.len(),
        same_standing(a[i], b[i]),
        finetune::within(a[i].run.order@, p.rows@.len()),
    decreases i,
{
    if i == 0 {
        scores_repeat(
            p.eval_rows@,
            q.eval_rows@,
            p.eval_labels@,
            base.weights,
            f.tanh,
            f.exp,
            a[0].run.baseline,
            b[0].run.baseline,
        );
    } else {
        lemma_traces(base, p, q, opts, f, a, b, i - 1);
        assert(finetune::epoch(p, f, a[i - 1], a[i - 1 + 1]));
        if i == b.len() {
            assert(b.last().run.due());
        }
        assert(finetune::epoch(q, f, b[i - 1], b[i - 1 + 1]));
        lemma_epoch(p, q, f, a[i - 1], a[i], b[i - 1], b[i]);
    }
}

/// The plan for the same samples and seed is the same.
pub proof fn plans_repeat(
    base: HeadView,
    samples: Seq<TrainingSample>,
    eval_samples: Option<&[TrainingSample]>,
    seed: u64,
    p: Plan,
    q: Plan,
)
    requires
        base.valid(),
        samples.len() <= usize::MAX,
        training::plan_fault(base, samples, eval_samples) is None,
        training::planned(base, samples, eval_samples, seed, p),
        training::planned(base, samples, eval_samples, seed, q),
    ensures
        same_plan(p, q),
{
    if !training::given(eval_samples) {
        training::lemma_split_range(p.labels@, seed, 4);
        let at = training::split_upto(p.labels@, seed, 4).2;
        assert forall|k: int| 0 <= k < at.len() implies (#[trigger] p.eval_rows@[k])@
            == q.eval_rows@[k]@ && p.eval_labels@[k] == q.eval_labels@[k] by {
            assert(at[k] < p.rows@.len());
            assert(p.eval_rows@[k]@ == p.rows@[at[k] as int]@);
            assert(q.eval_rows@[k]@ == q.rows@[at[k] as int]@);
            assert(p.rows@[at[k] as int]@ == q.rows@[at[k] as int]@);
        }
        assert forall|k: int| 0 <= k < at.len() implies #[trigger] p.eval_labels@[k]
            == q.eval_labels@[k] by {
            assert(p.eval_rows@[k]@ == q.eval_rows@[k]@);
        }
        assert(p.eval_labels@ =~= q.eval_labels@);
    }
}

proof fn lemma_mirrored(p: Plan, q: Plan)
    requires
        same_plan(p, q),
    ensures
        same_plan(q, p),
{
    assert forall|i: int| 0 <= i < q.rows@.len() implies (#[trigger] q.rows@[i])@
        == p.rows@[i]@ by {
        assert(p.rows@[i]@ == q.rows@[i]@);
    }
    assert forall|i: int| 0 <= i < q.eval_rows@.len() implies (#[trigger] q.eval_rows@[i])@
        == p.eval_rows@[i]@ by {
        assert(p.eval_rows@[i]@ == q.eval_rows@[i]@);
    }
}

proof fn lemma_ends<
    T: Fn(Single) -> Single,
    X: Fn(Single) -> Single,
    L: Fn(Single) -> Single,
    P: Fn(Single, u64) -> Single,
>(
    base: HeadView,
    p: Plan,
    q: Plan,
    opts: FinetuneOptions,
    f: Kernel<T, X, L, P>,
    a: Seq<Standing>,
    b: Seq<Standing>,
)
    requires
        repeatable(f),
        same_plan(p, q),
        finetune::within(p.train@, p.rows@.len()),
        finetune::whole_run(base, p, opts, f, a),
        finetune::whole_run(base, q, opts, f, b),
    ensures
        same_standing(a.last(), b.last()),
{
    let (m, n) = (a.len() - 1, b.len() - 1);
    lemma_mirrored(p, q);
    lemma_traces(base, p, q, opts, f, a, b, m);
    lemma_traces(base, q, p, opts, f, b, a, n);
    assert(m == n);
}

proof fn lemma_tuned<
    T: Fn(Single) -> Single,
    X: Fn(Single) -> Single,
    L: Fn(Single) -> Single,
    P: Fn(Single, u64) -> Single,
>(
    base: HeadView,
    opts: FinetuneOptions,
    f: Kernel<T, X, L, P>,
    p: Plan,
    head: HeadView,
    report: FinetuneReport,
    q: Plan,
    other: HeadView,
    account: FinetuneReport,
)
    requires
        repeatable(f),
        same_plan(p, q),
        finetune::within(p.train@, p.rows@.len()),
        finetune::tuned(base, p, opts, f, head, report),
        finetune::tuned(base, q, opts, f, other, account),
    ensures
        head == other,
        report == account,
{
    let a = choose|a: Seq<Standing>| #[trigger]
        finetune::whole_run(base, p, opts, f, a) && finetune::concludes(
            base,
            p,
            a.last(),
            head,
            report,
        );
    let b = choose|b: Seq<Standing>| #[trigger]
        finetune::whole_run(base, q, opts, f, b) && finetune::concludes(
            base,
            q,
            b.last(),
            other,
            account,
        );
    lemma_ends(base, p, q, opts, f, a, b);
}

/// Fine-tuning the same head on the same samples, with the same options, and so
/// with the same seed, comes to the same head and the same report, wherever the
/// functions that it is given answer alike for the same arguments.
pub proof fn tuning_repeats<
    T: Fn(Single) -> Single,
    X: Fn(Single) -> Single,
    L: Fn(Single) -> Single,
    P: Fn(Single, u64) -> Single,
>(
    base: HeadView,
    samples: Seq<TrainingSample>,
    eval_samples: Option<&[TrainingSample]>,
    opts: FinetuneOptions,
    f: Kernel<T, X, L, P>,
    p: Plan,
    head: HeadView,
    report: FinetuneReport,
    q: Plan,
    other: HeadView,
    account: FinetuneReport,
)
    requires
        base.valid(),
        samples.len() <= usize::MAX,
        training::plan_fault(base, samples, eval_samples) is None,
        repeatable(f),
        training::planned(base, samples, eval_samples, opts.seed, p),
        training::planned(base, samples, eval_samples, opts.seed, q),
        finetune::tuned(base, p, opts, f, head, report),
        finetune::tuned(base, q, opts, f, other, account),
    ensures
        head == other,
        report == account,
{
    plans_repeat(base, samples, eval_samples, opts.seed, p, q);
    finetune::lemma_plan_fits(base, samples, eval_samples, opts.seed, p);
    lemma_tuned(base, opts, f, p, head, report, q, other, account);
}

} // verus!
