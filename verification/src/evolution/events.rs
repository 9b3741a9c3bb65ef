//! Progress events of the evolution loop.

use crate::evolution::run::{EvolveResult, Gathered, Prepared, Trained};
use crate::text;
use crate::text::{decimal_text, same};
use vstd::prelude::*;
use vstd::string::*;

verus! {

/// One progress event.
#[derive(Debug, Clone)]
pub enum EvolutionEvent {
    /// An evolution started.
    Started,
    /// A stage was reached: `loading`, `training`, `gating` or `done`.
    Phase { stage: String, detail: String },
    /// The evolution is over.
    Finished(EvolveResult),
}

/// Receives progress events. Implementations must be fast: the evolution
/// waits for them.
pub trait EvolutionEventSink: Send + Sync {
    fn on_event(&self, event: EvolutionEvent);
}

impl EvolutionEvent {
    /// Whether the event says that a stage was reached.
    pub open spec fn reaches(self, stage: Seq<char>, detail: Seq<char>) -> bool {
        self matches EvolutionEvent::Phase { stage: s, detail: d } && s@ == stage && d@ == detail
    }
}

/// Builds a stage event.
fn phase(stage: &str, detail: &str) -> (e: EvolutionEvent)
    ensures
        e.reaches(stage@, detail@),
{
    EvolutionEvent::Phase { stage: stage.to_owned(), detail: detail.to_owned() }
}

/// What is told when an evolution starts, by itself or on demand: that it
/// started, and that samples are being collected.
pub fn opening(auto: bool) -> (events: Vec<EvolutionEvent>)
    ensures
        events@.len() == if auto {
            3int
        } else {
            2
        },
        events@[0] is Started,
        auto ==> events@[1].reaches("loading"@, "auto-evolve started"@),
        events@.last().reaches("loading"@, "collecting labeled samples"@),
{
    let mut events: Vec<EvolutionEvent> = Vec::new();
    events.push(EvolutionEvent::Started);
    if auto {
        events.push(phase("loading", "auto-evolve started"));
    }
    events.push(phase("loading", "collecting labeled samples"));
    events
}

impl Gathered {
    /// What is told once the samples are gathered.
    pub fn event(&self) -> (e: EvolutionEvent)
        ensures
            e.reaches("loading"@, "loading eval pack"@),
    {
        phase("loading", "loading eval pack")
    }
}

impl Prepared {
    /// What is told before training.
    pub fn event(&self) -> (e: EvolutionEvent)
        ensures
            e.reaches("training"@, text::decimal(self.train@.len()) + " train samples"@),
    {
        let mut detail = decimal_text(self.train.len() as u128);
        detail.append(" train samples");
        EvolutionEvent::Phase { stage: "training".to_owned(), detail }
    }
}

impl Trained {
    /// What is told before the heads are evaluated.
    pub fn event(&self) -> (e: EvolutionEvent)
        ensures
            e.reaches("gating"@, "comparing heads on eval pack"@),
    {
        phase("gating", "comparing heads on eval pack")
    }
}

impl EvolveResult {
    /// What is told once it is decided what becomes of the new head: that it
    /// was deployed, or why it was held back. An evolution that was skipped
    /// never comes to that.
    pub fn settled(&self) -> (e: Option<EvolutionEvent>)
        ensures
            self.status@ == "ok"@ ==> (e matches Some(p) && p.reaches(
                "done"@,
                "head updated, reloading"@,
            )),
            self.status@ == "rejected"@ ==> (e matches Some(p) && p.reaches(
                "done"@,
                self.message@,
            )),
            self.status@ != "ok"@ && self.status@ != "rejected"@ ==> e is None,
    {
        proof {
            reveal_strlit("ok");
            reveal_strlit("rejected");
            assert("ok"@.len() == 2 && "rejected"@.len() == 8);
        }
        if same(self.status.as_str(), "ok") {
            Some(phase("done", "head updated, reloading"))
        } else if same(self.status.as_str(), "rejected") {
            Some(phase("done", self.message.as_str()))
        } else {
            None
        }
    }

    /// What is told at the end.
    pub fn finished(&self) -> (e: EvolutionEvent)
        ensures
            e matches EvolutionEvent::Finished(r) && {
                &&& r.status@ == self.status@
                &&& r.message@ == self.message@
                &&& r.train_samples == self.train_samples
                &&& r.eval_samples == self.eval_samples
                &&& r.epochs_run == self.epochs_run
                &&& r.baseline_acc == self.baseline_acc
                &&& r.new_acc == self.new_acc
            },
    {
        EvolutionEvent::Finished(
            EvolveResult {
                status: self.status.as_str().to_owned(),
                message: self.message.as_str().to_owned(),
                train_samples: self.train_samples,
                eval_samples: self.eval_samples,
                epochs_run: self.epochs_run,
                baseline_acc: self.baseline_acc,
                new_acc: self.new_acc,
            },
        )
    }
}

} // verus!
