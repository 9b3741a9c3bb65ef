//! One evolution: what is decided between loading, training, evaluating and
//! deploying. Each step hands over to the next; a step that cannot go on
//! gives the result the evolution ends with.

use crate::evolution::capture;
use crate::evolution::capture::Evolution;
use crate::evolution::pack;
use crate::evolution::pack::replay_mix;
use crate::finetune;
use crate::finetune::{finetune_head, Kernel};
use crate::head;
use crate::head::{duplicated, HeadJson, HeadView, RouterHead};
use crate::postprocess;
use crate::postprocess::argmax;
use crate::single;
use crate::single::Single;
use crate::text;
use crate::text::decimal_text;
use crate::training;
use crate::training::{FinetuneOptions, FinetuneReport, Plan, TrainingSample};
use vstd::arithmetic::power2::pow2;
use vstd::prelude::*;
use vstd::string::*;

verus! {

/// Result of an evolution; the status is "ok", "rejected" or "skipped".
#[derive(Debug, Clone)]
pub struct EvolveResult {
    pub status: String,
    pub message: String,
    pub train_samples: usize,
    pub eval_samples: usize,
    pub epochs_run: usize,
    pub baseline_acc: Single,
    pub new_acc: Single,
}

impl Default for EvolveResult {
    fn default() -> (res: Self)
        ensures
            res.is("", ""@),
    {
        ended("", "".to_owned())
    }
}

impl EvolveResult {
    /// Whether the result has a status and a message, and no figures.
    pub open spec fn is(self, status: &str, message: Seq<char>) -> bool {
        &&& self.status@ == status@
        &&& self.message@ == message
        &&& self.train_samples == 0
        &&& self.eval_samples == 0
        &&& self.epochs_run == 0
        &&& self.baseline_acc.bits == 0
        &&& self.new_acc.bits == 0
    }

    /// Whether the result has a status, and the figures of a run.
    pub open spec fn reports(
        self,
        status: &str,
        report: FinetuneReport,
        eval_samples: nat,
        baseline_acc: Single,
        new_acc: Single,
    ) -> bool {
        &&& self.status@ == status@
        &&& self.train_samples == report.train_samples
        &&& self.eval_samples == eval_samples
        &&& self.epochs_run == report.epochs_run
        &&& self.baseline_acc == baseline_acc
        &&& self.new_acc == new_acc
    }
}

/// A result without figures.
pub fn ended(status: &str, message: String) -> (res: EvolveResult)
    ensures
        res.is(status, message@),
{
    EvolveResult {
        status: status.to_owned(),
        message,
        train_samples: 0,
        eval_samples: 0,
        epochs_run: 0,
        baseline_acc: Single { bits: 0 },
        new_acc: Single { bits: 0 },
    }
}

/// The result where an evolution is already under way.
pub fn already_running() -> (res: EvolveResult)
    ensures
        res.is("skipped", "evolution already running"@),
{
    ended("skipped", "evolution already running".to_owned())
}

/// A text put behind a label.
fn labelled(label: &str, text: &str) -> (out: String)
    ensures
        out@ == label@ + text@,
{
    let mut out = label.to_owned();
    out.append(text);
    out
}

/// The deployed head, and the labelled samples that fit it.
pub struct Gathered {
    pub base: RouterHead,
    pub labeled: Vec<TrainingSample>,
}

/// Whether the first step ends so: the head could not be loaded, there are too
/// few samples that fit it, or it is handed on with those samples.
pub open spec fn gathers(
    evolution: Evolution,
    loaded: Result<RouterHead, String>,
    res: Result<Gathered, EvolveResult>,
) -> bool {
    match loaded {
        Err(e) => res matches Err(r) && r.is("skipped", "load head failed: "@ + e@),
        Ok(head) => {
            let fit = capture::trainable(evolution.records@, head@.expected() as usize);
            let needed = evolution.config.min_labeled_for_evolve;
            if fit.len() < needed {
                res matches Err(r) && r.is(
                    "skipped",
                    "need >= "@ + text::decimal(needed as nat) + " labeled samples, have "@
                        + text::decimal(fit.len()),
                )
            } else {
                &&& res matches Ok(g)
                &&& g.base == head
                &&& capture::samples_match(g.labeled@, fit)
            }
        },
    }
}

/// First step: takes the deployed head, as it was loaded, and gathers the
/// labelled samples that fit it. Ends the evolution where the head could not
/// be loaded, or where there are too few samples.
pub fn gather(evolution: &Evolution, loaded: Result<RouterHead, String>) -> (res: Result<
    Gathered,
    EvolveResult,
>)
    ensures
        gathers(*evolution, loaded, res),
{
    let base = match loaded {
        Err(e) => {
            return Err(ended("skipped", labelled("load head failed: ", e.as_str())));
        },
        Ok(head) => head,
    };
    let labeled = evolution.labeled_samples(base.expected_hidden_dim());
    if labeled.len() < evolution.config.min_labeled_for_evolve {
        let mut m = "need >= ".to_owned();
        m.append(decimal_text(evolution.config.min_labeled_for_evolve as u128).as_str());
        m.append(" labeled samples, have ");
        m.append(decimal_text(labeled.len() as u128).as_str());
        return Err(ended("skipped", m));
    }
    Ok(Gathered { base, labeled })
}

/// The deployed head, the labelled samples and the evaluation samples.
pub struct Admitted {
    pub base: RouterHead,
    pub labeled: Vec<TrainingSample>,
    pub eval: Vec<TrainingSample>,
}

/// Whether the second step ends so: there is no evaluation pack, it does not
/// fit the head, or it is handed on beside what was gathered.
pub open spec fn admits(
    gathered: Gathered,
    loaded: Option<Result<(usize, Vec<TrainingSample>), String>>,
    res: Result<Admitted, EvolveResult>,
) -> bool {
    match loaded {
        None => res matches Err(r) && r.is("skipped", "eval pack dir not configured"@),
        Some(Err(e)) => res matches Err(r) && r.is("skipped", e@),
        Some(Ok((dim, samples))) => if dim != gathered.base@.expected() {
            res matches Err(r) && r.is(
                "skipped",
                "eval_pack base_dim "@ + text::decimal(dim as nat) + " != head "@ + text::decimal(
                    gathered.base@.expected(),
                ),
            )
        } else {
            res == Ok::<Admitted, EvolveResult>(
                (Admitted { base: gathered.base, labeled: gathered.labeled, eval: samples }),
            )
        },
    }
}

impl Gathered {
    /// Second step: takes the evaluation pack, as it was loaded (nothing
    /// where no pack directory is configured). Ends the evolution where there
    /// is no pack, or where it does not fit the head.
    pub fn admit_pack(
        self,
        loaded: Option<Result<(usize, Vec<TrainingSample>), String>>,
    ) -> (res: Result<Admitted, EvolveResult>)
        ensures
            admits(self, loaded, res),
    {
        match loaded {
            None => Err(ended("skipped", "eval pack dir not configured".to_owned())),
            Some(Err(e)) => Err(ended("skipped", e)),
            Some(Ok((dim, samples))) => {
                let expected = self.base.expected_hidden_dim();
                if dim != expected {
                    let mut m = "eval_pack base_dim ".to_owned();
                    m.append(decimal_text(dim as u128).as_str());
                    m.append(" != head ");
                    m.append(decimal_text(expected as u128).as_str());
                    return Err(ended("skipped", m));
                }
                Ok(Admitted { base: self.base, labeled: self.labeled, eval: samples })
            },
        }
    }
}

/// Everything an evolution trains and evaluates on.
pub struct Prepared {
    pub base: RouterHead,
    pub train: Vec<TrainingSample>,
    pub eval: Vec<TrainingSample>,
}

/// Whether a replay pool can be used with a head: it was loaded, and it is
/// empty or of the head's dimension.
pub open spec fn usable_replay(
    loaded: Result<(usize, Vec<TrainingSample>), String>,
    expected: nat,
) -> bool {
    loaded matches Ok((dim, pool)) && (dim == 0 || dim == expected)
}

/// The positions of the replayed samples.
pub open spec fn replayed(
    loaded: Result<(usize, Vec<TrainingSample>), String>,
    expected: nat,
    target: int,
) -> Seq<int> {
    if usable_replay(loaded, expected) {
        pack::mixed(loaded->Ok_0.1@, target)
    } else {
        Seq::empty()
    }
}

/// Whether samples are the labelled ones, and behind them the replayed ones.
pub open spec fn mixes(
    labeled: Seq<TrainingSample>,
    loaded: Result<(usize, Vec<TrainingSample>), String>,
    expected: nat,
    train: Seq<TrainingSample>,
) -> bool {
    let n = labeled.len() as int;
    let at = replayed(loaded, expected, n);
    &&& train.len() == n + at.len()
    &&& train.take(n) == labeled
    &&& at.len() > 0 ==> pack::picked(train.skip(n), loaded->Ok_0.1@, at)
}

impl Admitted {
    /// Third step: takes the replay pool, as it was loaded, and adds to the
    /// labelled samples as many of it, balanced over the classes. A pool that
    /// could not be loaded, or that does not fit the head, is left out.
    pub fn mix_replay(self, loaded: Result<(usize, Vec<TrainingSample>), String>) -> (res: Prepared)
        ensures
            res.base == self.base,
            res.eval == self.eval,
            mixes(self.labeled@, loaded, self.base@.expected(), res.train@),
    {
        let expected = self.base.expected_hidden_dim();
        let mut train = self.labeled;
        let ghost labeled = train@;
        let n: usize = train.len();
        if let Ok((dim, pool)) = &loaded {
            if *dim == 0 || *dim == expected {
                let mut mixed = replay_mix(pool, n);
                let ghost more = mixed@;
                train.append(&mut mixed);
                assert(train@.skip(n as int) =~= more);
            }
        }
        assert(train@.take(n as int) =~= labeled);
        Prepared { base: self.base, train, eval: self.eval }
    }
}

/// A trained head, not yet deployed.
pub struct Trained {
    pub base: RouterHead,
    pub new_head: RouterHead,
    pub report: FinetuneReport,
    pub eval: Vec<TrainingSample>,
}

impl Prepared {
    /// Fourth step: takes the outcome of training.
    pub fn trained(self, outcome: Result<(RouterHead, FinetuneReport), String>) -> (res: Result<
        Trained,
        EvolveResult,
    >)
        ensures
            match outcome {
                Err(e) => res matches Err(r) && r.is("skipped", "finetune failed: "@ + e@),
                Ok((new_head, report)) => res == Ok::<Trained, EvolveResult>(
                    (Trained { base: self.base, new_head, report, eval: self.eval }),
                ),
            },
    {
        match outcome {
            Err(e) => Err(ended("skipped", labelled("finetune failed: ", e.as_str()))),
            Ok((new_head, report)) => Ok(
                Trained { base: self.base, new_head, report, eval: self.eval },
            ),
        }
    }
}

/// Whether a head and a report are the outcome of fine-tuning a head on samples
/// with the usual parameters, part of the samples set aside for the choice of
/// the best epoch.
pub open spec fn fine_tuned<
    T: Fn(Single) -> Single,
    X: Fn(Single) -> Single,
    L: Fn(Single) -> Single,
    P: Fn(Single, u64) -> Single,
>(
    base: HeadView,
    samples: Seq<TrainingSample>,
    f: Kernel<T, X, L, P>,
    head: HeadView,
    report: FinetuneReport,
) -> bool {
    exists|plan: Plan| #[trigger]
        training::planned(base, samples, None, FinetuneOptions::usual().seed, plan)
            && finetune::tuned(base, plan, FinetuneOptions::usual(), f, head, report)
}

impl Prepared {
    /// Fine-tunes the head on the training samples. The evaluation pack has no
    /// part in it, so that the later comparison stays independent.
    pub fn fine_tune<
        T: Fn(Single) -> Single,
        X: Fn(Single) -> Single,
        L: Fn(Single) -> Single,
        P: Fn(Single, u64) -> Single,
    >(self, tanh: &T, exp: &X, ln: &L, powers: &P) -> (res: Result<Trained, EvolveResult>)
        requires
            forall|v: Single| call_requires(*tanh, (v,)),
            forall|v: Single| call_requires(*exp, (v,)),
            forall|v: Single| call_requires(*ln, (v,)),
            forall|b: Single, n: u64| call_requires(*powers, (b, n)),
        ensures
            match training::plan_fault(self.base@, self.train@, None) {
                Some(fault) => res matches Err(r) && r.is("skipped", "finetune failed: "@ + fault),
                None => {
                    &&& res matches Ok(t)
                    &&& t.base == self.base
                    &&& t.eval == self.eval
                    &&& fine_tuned(
                        self.base@,
                        self.train@,
                        (Kernel { tanh: *tanh, exp: *exp, ln: *ln, powers: *powers }),
                        t.new_head@,
                        t.report,
                    )
                },
            },
    {
        let opts = FinetuneOptions::default();
        let outcome = finetune_head(&self.base, &self.train, None, &opts, tanh, exp, ln, powers);
        self.trained(outcome)
    }
}

/// How many predictions have their largest item at the label; a sample
/// without a prediction counts as missed.
pub open spec fn predicted(
    predictions: Seq<Option<[Single; 4]>>,
    samples: Seq<TrainingSample>,
) -> nat
    decreases predictions.len(),
{
    if predictions.len() == 0 {
        0
    } else {
        let n = predictions.len() - 1;
        predicted(predictions.drop_last(), samples) + if predictions[n] matches Some(p)
            && postprocess::top(p@, 4) == samples[n].label as int {
            1nat
        } else {
            0nat
        }
    }
}

/// The share of samples that are predicted right, zero where there are none.
pub open spec fn pack_accuracy(
    predictions: Seq<Option<[Single; 4]>>,
    samples: Seq<TrainingSample>,
) -> Single {
    if samples.len() == 0 {
        Single { bits: 0 }
    } else {
        Single::counted(predicted(predictions, samples) as int).quotient(
            Single::counted(samples.len() as int),
        )
    }
}

/// Accuracy of a head's predictions on samples; a head that rejects a sample
/// has no prediction for it.
pub fn prediction_acc(predictions: &[Option<[Single; 4]>], samples: &[TrainingSample]) -> (res:
    Single)
    requires
        predictions.len() == samples.len(),
    ensures
        res == pack_accuracy(predictions@, samples@),
{
    if samples.len() == 0 {
        return Single { bits: 0 };
    }
    let mut hit: u64 = 0;
    let mut i: usize = 0;
    while i < samples.len()
        invariant
            i <= samples.len(),
            predictions.len() == samples.len(),
            hit <= i,
            hit == predicted(predictions@.take(i as int), samples@),
        decreases samples.len() - i,
    {
        assert(predictions@.take(i + 1).drop_last() =~= predictions@.take(i as int));
        if let Some(p) = &predictions[i] {
            if argmax(p) == samples[i].label as usize {
                hit += 1;
            }
        }
        i += 1;
    }
    assert(predictions@.take(predictions.len() as int) =~= predictions@);
    Single::from_count(hit).over(Single::from_count(samples.len() as u64))
}

/// Whether the predictions are those of a head for samples, for some answers
/// of the functions: a sample whose hidden state does not fit has none.
pub open spec fn predicts<T: Fn(Single) -> Single, X: Fn(Single) -> Single>(
    head: HeadView,
    samples: Seq<TrainingSample>,
    tanh: T,
    exp: X,
    predictions: Seq<Option<[Single; 4]>>,
) -> bool {
    &&& predictions.len() == samples.len()
    &&& forall|i: int|
        0 <= i < samples.len() ==> match #[trigger] predictions[i] {
            Some(p) => samples[i].hidden@.len() == head.expected() && head.classifies(
                samples[i].hidden@,
                samples[i].prev_tier,
                tanh,
                exp,
                p,
            ),
            None => samples[i].hidden@.len() != head.expected(),
        }
}

/// Whether an accuracy is that of a head on samples, for some answers of the
/// functions.
pub open spec fn scored<T: Fn(Single) -> Single, X: Fn(Single) -> Single>(
    head: HeadView,
    samples: Seq<TrainingSample>,
    tanh: T,
    exp: X,
    acc: Single,
) -> bool {
    exists|predictions: Seq<Option<[Single; 4]>>| #[trigger]
        predicts(head, samples, tanh, exp, predictions) && acc == pack_accuracy(
            predictions,
            samples,
        )
}

/// Accuracy of a head on samples; a sample that the head rejects counts as
/// missed.
pub fn eval_head_acc<T: Fn(Single) -> Single, X: Fn(Single) -> Single>(
    head: &RouterHead,
    samples: &[TrainingSample],
    tanh: &T,
    exp: &X,
) -> (res: Single)
    requires
        forall|v: Single| call_requires(*tanh, (v,)),
        forall|v: Single| call_requires(*exp, (v,)),
    ensures
        scored(head@, samples@, *tanh, *exp, res),
{
    let mut predictions: Vec<Option<[Single; 4]>> = Vec::new();
    let mut i: usize = 0;
    while i < samples.len()
        invariant
            i <= samples.len(),
            forall|v: Single| call_requires(*tanh, (v,)),
            forall|v: Single| call_requires(*exp, (v,)),
            predicts(head@, samples@.take(i as int), *tanh, *exp, predictions@),
        decreases samples.len() - i,
    {
        let ghost before = predictions@;
        let p = match head.forward(&samples[i].hidden, samples[i].prev_tier, tanh, exp) {
            Ok(p) => Some(p),
            Err(_) => None,
        };
        predictions.push(p);
        proof {
            let part = samples@.take(i + 1);
            assert forall|k: int| 0 <= k < part.len() implies match #[trigger] predictions@[k] {
                Some(p) => part[k].hidden@.len() == head@.expected() && head@.classifies(
                    part[k].hidden@,
                    part[k].prev_tier,
                    *tanh,
                    *exp,
                    p,
                ),
                None => part[k].hidden@.len() != head@.expected(),
            } by {
                if k < i {
                    assert(predictions@[k] == before[k]);
                    assert(samples@.take(i as int)[k] == part[k]);
                }
            }
        }
        i += 1;
    }
    assert(samples@.take(samples.len() as int) =~= samples@);
    prediction_acc(&predictions, samples)
}

impl Trained {
    /// Accuracies of the new and of the old head on the evaluation pack.
    pub fn weigh<T: Fn(Single) -> Single, X: Fn(Single) -> Single>(&self, tanh: &T, exp: &X) -> (
    accs: (Single, Single))
        requires
            forall|v: Single| call_requires(*tanh, (v,)),
            forall|v: Single| call_requires(*exp, (v,)),
        ensures
            scored(self.new_head@, self.eval@, *tanh, *exp, accs.0),
            scored(self.base@, self.eval@, *tanh, *exp, accs.1),
    {
        (
            eval_head_acc(&self.new_head, &self.eval, tanh, exp),
            eval_head_acc(&self.base, &self.eval, tanh, exp),
        )
    }
}

/// Whether a new head is held back: it is worse than the old one.
pub open spec fn held_back(new_acc: Single, baseline_acc: Single) -> bool {
    new_acc.below(baseline_acc)
}

/// A head that was let through: what is written to the head file, and the
/// result once it is written.
pub struct Deployment {
    parts: HeadJson,
    ok: EvolveResult,
}

impl Deployment {
    /// What is written to the head file.
    pub closed spec fn parts_view(self) -> HeadView {
        self.parts@
    }

    /// The version that is written to the head file.
    pub closed spec fn version(self) -> nat {
        self.parts.version as nat
    }

    /// The result once the file is written.
    pub closed spec fn outcome(self) -> EvolveResult {
        self.ok
    }

    /// What is written to the head file.
    pub fn parts(&self) -> (res: &HeadJson)
        ensures
            res@ == self.parts_view(),
            res.version as nat == self.version(),
    {
        &self.parts
    }

    /// Last step: takes the outcome of writing the head file.
    pub fn written(self, outcome: Result<(), String>) -> (res: EvolveResult)
        ensures
            match outcome {
                Ok(_) => res == self.outcome(),
                Err(e) => res.is("skipped", "write head failed: "@ + e@),
            },
    {
        match outcome {
            Ok(_) => self.ok,
            Err(e) => ended("skipped", labelled("write head failed: ", e.as_str())),
        }
    }
}

/// What is said of a head that is held back.
pub open spec fn gated_message(new_text: Seq<char>, baseline_text: Seq<char>) -> Seq<char> {
    "gated: new head acc "@ + new_text + " < baseline "@ + baseline_text + "; old head kept"@
}

/// What is said of a head that is deployed.
pub open spec fn evolved_message(
    new_text: Seq<char>,
    baseline_text: Seq<char>,
    report: FinetuneReport,
) -> Seq<char> {
    "evolved: acc "@ + baseline_text + " -> "@ + new_text + " ("@ + text::decimal(
        report.train_samples as nat,
    ) + " labeled, "@ + text::decimal(report.epochs_run as nat) + " epochs)"@
}

impl Trained {
    /// Whether `res` is what accuracies of the new and of the old head, and the
    /// texts they are printed as, lead to: a head that is held back ends the
    /// evolution as rejected, and any other is deployed as it is.
    pub open spec fn decides(
        self,
        new_acc: Single,
        baseline_acc: Single,
        new_text: Seq<char>,
        baseline_text: Seq<char>,
        res: Result<Deployment, EvolveResult>,
    ) -> bool {
        if held_back(new_acc, baseline_acc) {
            &&& res matches Err(r)
            &&& r.reports("rejected", self.report, self.eval@.len(), baseline_acc, new_acc)
            &&& r.message@ == gated_message(new_text, baseline_text)
        } else {
            &&& res matches Ok(d)
            &&& d.version() == 1
            &&& d.parts_view() == self.new_head@
            &&& d.outcome().reports("ok", self.report, self.eval@.len(), baseline_acc, new_acc)
            &&& d.outcome().message@ == evolved_message(new_text, baseline_text, self.report)
        }
    }

    /// Fifth step: evaluates the new and the old head on the evaluation pack
    /// and decides. The new head is deployed exactly where its accuracy is no
    /// lower than the old one's. `shown` prints an accuracy.
    pub fn judge<
        T: Fn(Single) -> Single,
        X: Fn(Single) -> Single,
        S: Fn(Single) -> String,
    >(self, tanh: &T, exp: &X, shown: &S) -> (res: Result<Deployment, EvolveResult>)
        requires
            forall|v: Single| call_requires(*tanh, (v,)),
            forall|v: Single| call_requires(*exp, (v,)),
            forall|v: Single| call_requires(*shown, (v,)),
        ensures
            exists|n: Single, b: Single, new_text: String, baseline_text: String|
                {
                    &&& #[trigger] scored(self.new_head@, self.eval@, *tanh, *exp, n)
                    &&& #[trigger] scored(self.base@, self.eval@, *tanh, *exp, b)
                    &&& #[trigger] call_ensures(*shown, (n,), new_text)
                    &&& #[trigger] call_ensures(*shown, (b,), baseline_text)
                    &&& (res is Ok <==> b.at_most(n))
                    &&& self.decides(n, b, new_text@, baseline_text@, res)
                },
    {
        let (new_acc, baseline_acc) = self.weigh(tanh, exp);
        let new_text = shown(new_acc);
        let baseline_text = shown(baseline_acc);
        let count: usize = self.eval.len();
        proof {
            assert(self.eval@.len() == count);
            deployed_heads_never_regress(
                self.new_head@,
                self.base@,
                self.eval@,
                *tanh,
                *exp,
                new_acc,
                baseline_acc,
            );
        }
        self.gate(new_acc, baseline_acc, new_text.as_str(), baseline_text.as_str())
    }

    /// The decision of the fifth step: takes the accuracies of the new and of
    /// the old head on the evaluation pack, also as they are to be printed. A
    /// head that is held back ends the evolution as rejected.
    pub fn gate(
        self,
        new_acc: Single,
        baseline_acc: Single,
        new_text: &str,
        baseline_text: &str,
    ) -> (res: Result<Deployment, EvolveResult>)
        ensures
            self.decides(new_acc, baseline_acc, new_text@, baseline_text@, res),
    {
        if new_acc.less(baseline_acc) {
            let mut m = "gated: new head acc ".to_owned();
            m.append(new_text);
            m.append(" < baseline ");
            m.append(baseline_text);
            m.append("; old head kept");
            return Err(
                EvolveResult {
                    status: "rejected".to_owned(),
                    message: m,
                    train_samples: self.report.train_samples,
                    eval_samples: self.eval.len(),
                    epochs_run: self.report.epochs_run,
                    baseline_acc,
                    new_acc,
                },
            );
        }
        let mut m = "evolved: acc ".to_owned();
        m.append(baseline_text);
        m.append(" -> ");
        m.append(new_text);
        m.append(" (");
        m.append(decimal_text(self.report.train_samples as u128).as_str());
        m.append(" labeled, ");
        m.append(decimal_text(self.report.epochs_run as u128).as_str());
        m.append(" epochs)");
        let ok = EvolveResult {
            status: "ok".to_owned(),
            message: m,
            train_samples: self.report.train_samples,
            eval_samples: self.eval.len(),
            epochs_run: self.report.epochs_run,
            baseline_acc,
            new_acc,
        };
        let w = self.new_head.trainable();
        let parts = HeadJson {
            version: 1,
            input_dim: self.new_head.input_dim(),
            hidden_dim: self.new_head.hidden_dim(),
            base_dim: self.new_head.base_dim(),
            mean: duplicated(self.new_head.mean_iter()),
            std: duplicated(self.new_head.std_iter()),
            w1: w.w1,
            b1: w.b1,
            ln_g: w.ln_g,
            ln_b: w.ln_b,
            w2: w.w2,
            b2: w.b2,
        };
        assert(parts@ =~= self.new_head@);
        Ok(Deployment { parts, ok })
    }
}

/// A deployed head is read back from its file as it was: what is written of a
/// usable head, with the version it is written with, has no fault.
pub proof fn deployed_head_is_read_back(deployment: Deployment, head: HeadView)
    requires
        head.valid(),
        deployment.version() == 1,
        deployment.parts_view() == head,
    ensures
        deployment.parts_view().fault(deployment.version()) is None,
{
}

/// Accuracies of heads on a pack are comparable: both lie between zero and one.
proof fn lemma_pack_share(
    predictions: Seq<Option<[Single; 4]>>,
    samples: Seq<TrainingSample>,
)
    requires
        predictions.len() == samples.len(),
        samples.len() <= u64::MAX,
    ensures
        training::is_share(pack_accuracy(predictions, samples)),
{
    lemma_predicted(predictions, samples);
    if samples.len() > 0 {
        single::shares_are_at_most_one(
            predicted(predictions, samples) as int,
            samples.len() as int,
        );
    }
}

proof fn lemma_predicted(predictions: Seq<Option<[Single; 4]>>, samples: Seq<TrainingSample>)
    ensures
        predicted(predictions, samples) <= predictions.len(),
    decreases predictions.len(),
{
    if predictions.len() > 0 {
        lemma_predicted(predictions.drop_last(), samples);
    }
}

/// Evolution never makes the head worse: of the accuracies of a new and of an
/// old head on the evaluation pack, a head is let through exactly where the new
/// one is no lower.
pub proof fn deployed_heads_never_regress<T: Fn(Single) -> Single, X: Fn(Single) -> Single>(
    new_head: HeadView,
    base: HeadView,
    eval: Seq<TrainingSample>,
    tanh: T,
    exp: X,
    new_acc: Single,
    baseline_acc: Single,
)
    requires
        eval.len() <= u64::MAX,
        scored(new_head, eval, tanh, exp, new_acc),
        scored(base, eval, tanh, exp, baseline_acc),
    ensures
        !held_back(new_acc, baseline_acc) <==> baseline_acc.at_most(new_acc),
{
    let p = choose|p: Seq<Option<[Single; 4]>>| #[trigger]
        predicts(new_head, eval, tanh, exp, p) && new_acc == pack_accuracy(p, eval);
    let q = choose|q: Seq<Option<[Single; 4]>>| #[trigger]
        predicts(base, eval, tanh, exp, q) && baseline_acc == pack_accuracy(q, eval);
    lemma_pack_share(p, eval);
    lemma_pack_share(q, eval);
}

/// The positions of the samples whose prediction leads at the label.
pub open spec fn hit_positions(
    predictions: Seq<Option<[Single; 4]>>,
    samples: Seq<TrainingSample>,
) -> Set<int> {
    Set::new(
        |i: int|
            0 <= i < predictions.len() && (predictions[i] matches Some(p) && postprocess::leads(
                p@,
                samples[i].label as int,
            )),
    )
}

/// Exact hits are counted, and nothing else: of predictions that are numbers,
/// those whose largest item stands at the label.
pub proof fn only_exact_hits_count(
    predictions: Seq<Option<[Single; 4]>>,
    samples: Seq<TrainingSample>,
)
    requires
        predictions.len() <= samples.len(),
        forall|i: int|
            0 <= i < predictions.len() ==> (#[trigger] predictions[i] matches Some(p)
                ==> postprocess::numbers(p@)),
    ensures
        hit_positions(predictions, samples).finite(),
        predicted(predictions, samples) == hit_positions(predictions, samples).len(),
    decreases predictions.len(),
{
    let all = hit_positions(predictions, samples);
    if predictions.len() == 0 {
        assert(all =~= Set::empty());
    } else {
        let n = predictions.len() - 1;
        let front = predictions.drop_last();
        assert forall|i: int| 0 <= i < front.len() implies (#[trigger] front[i] matches Some(p)
            ==> postprocess::numbers(p@)) by {
            assert(predictions[i] == front[i]);
        }
        only_exact_hits_count(front, samples);
        let some = hit_positions(front, samples);
        assert(!some.contains(n));
        if let Some(p) = predictions[n] {
            postprocess::one_leads(p@, samples[n].label as int);
        }
        if all.contains(n) {
            assert(all =~= some.insert(n));
        } else {
            assert(all =~= some);
        }
    }
}

/// The accuracy on a pack is the number nearest to the share of exact hits:
/// zero where there is none, one where all are.
pub proof fn accuracy_is_the_share_of_hits(
    predictions: Seq<Option<[Single; 4]>>,
    samples: Seq<TrainingSample>,
)
    requires
        0 < samples.len() <= 0x100_0000,
        predictions.len() == samples.len(),
        forall|i: int|
            0 <= i < predictions.len() ==> (#[trigger] predictions[i] matches Some(p)
                ==> postprocess::numbers(p@)),
    ensures
        !pack_accuracy(predictions, samples).negative(),
        single::nearest(
            pack_accuracy(predictions, samples).magnitude(),
            (hit_positions(predictions, samples).len() * pow2(149)) as int,
            samples.len() as int,
        ),
{
    only_exact_hits_count(predictions, samples);
    lemma_predicted(predictions, samples);
    single::shares_are_nearest(
        predicted(predictions, samples) as int,
        samples.len() as int,
    );
}

/// An evolution goes on exactly where the head was loaded and at least as many
/// labelled samples fit it as are asked for; it goes on with all of them.
pub proof fn enough_labels_are_asked_for(
    evolution: Evolution,
    loaded: Result<RouterHead, String>,
    res: Result<Gathered, EvolveResult>,
)
    requires
        gathers(evolution, loaded, res),
    ensures
        res is Ok <==> (loaded matches Ok(head) && capture::trainable(
            evolution.records@,
            head@.expected() as usize,
        ).len() >= evolution.config.min_labeled_for_evolve),
        res matches Ok(g) ==> {
            &&& loaded == Ok::<RouterHead, String>(g.base)
            &&& g.labeled@.len() >= evolution.config.min_labeled_for_evolve
            &&& g.labeled@.len() == capture::trainable(
                evolution.records@,
                g.base@.expected() as usize,
            ).len()
        },
        res matches Err(r) ==> r.status@ == "skipped"@,
{
}

/// Training sees every labelled sample, in front, and as many samples of the
/// replay pool, if it has as many; a pool of another dimension is left out.
pub proof fn replay_keeps_pace_with_the_labels(
    labeled: Seq<TrainingSample>,
    loaded: Result<(usize, Vec<TrainingSample>), String>,
    expected: nat,
    train: Seq<TrainingSample>,
    i: int,
)
    requires
        mixes(labeled, loaded, expected, train),
    ensures
        0 <= i < labeled.len() ==> train[i] == labeled[i],
        loaded is Err ==> train == labeled,
        loaded matches Ok((dim, pool)) && dim != 0 && dim != expected ==> train == labeled,
        loaded matches Ok((dim, pool)) ==> {
            &&& dim == expected && pool@.len() < labeled.len() ==> train.len() == labeled.len()
                + pool@.len()
            &&& dim == expected && pool@.len() >= labeled.len() ==> train.len() == 2
                * labeled.len()
            &&& labeled.len() <= i < train.len() ==> exists|k: int|
                0 <= k < pool@.len() && pack::same_sample(train[i], #[trigger] pool@[k])
        },
{
    let n = labeled.len() as int;
    let at = replayed(loaded, expected, n);
    if 0 <= i < n {
        assert(train.take(n)[i] == train[i]);
    }
    if let Ok((dim, pool)) = loaded {
        pack::replay_is_balanced(pool@, n, 0, 0);
        if n <= i < train.len() {
            assert(train.skip(n)[i - n] == train[i]);
            assert(0 <= at[i - n] < pool@.len());
            assert(pack::same_sample(train[i], pool@[at[i - n]]));
        }
    }
    if at.len() == 0 {
        assert(train.take(n) =~= train);
    }
}

/// A head that does as well as the old one is let through, a worse one is not;
/// what is written then is the new head.
pub proof fn ties_are_let_through(
    trained: Trained,
    new_acc: Single,
    baseline_acc: Single,
    new_text: Seq<char>,
    baseline_text: Seq<char>,
    res: Result<Deployment, EvolveResult>,
)
    requires
        trained.decides(new_acc, baseline_acc, new_text, baseline_text, res),
        !new_acc.nan() && !baseline_acc.nan(),
    ensures
        res is Ok <==> baseline_acc.order() <= new_acc.order(),
        res matches Ok(d) ==> {
            &&& d.parts_view() == trained.new_head@
            &&& d.outcome().status@ == "ok"@
            &&& d.outcome().new_acc == new_acc && d.outcome().baseline_acc == baseline_acc
            &&& d.outcome().eval_samples == trained.eval@.len()
        },
        res matches Err(r) ==> {
            &&& r.status@ == "rejected"@
            &&& r.new_acc == new_acc && r.baseline_acc == baseline_acc
            &&& r.eval_samples == trained.eval@.len()
        },
{
}

/// A new head is only ever compared on an evaluation pack that fits the old
/// one; without such a pack the evolution ends, and nothing is trained.
pub proof fn packs_that_fit_are_admitted(
    gathered: Gathered,
    loaded: Option<Result<(usize, Vec<TrainingSample>), String>>,
    res: Result<Admitted, EvolveResult>,
)
    requires
        admits(gathered, loaded, res),
    ensures
        res is Ok <==> (loaded matches Some(Ok((dim, samples))) && dim
            == gathered.base@.expected()),
        res matches Ok(a) ==> {
            &&& a.base == gathered.base
            &&& a.labeled == gathered.labeled
            &&& loaded matches Some(Ok((dim, samples))) && a.eval == samples
        },
        res matches Err(r) ==> r.status@ == "skipped"@,
{
}

} // verus!
