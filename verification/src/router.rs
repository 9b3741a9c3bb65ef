//! Orchestration: rules, classification and post-processing, with one sticky
//! tier per session.

use crate::config::RouterConfig;
use crate::engine::ClassifyEngine;
use crate::postprocess;
use crate::postprocess::{
    fallback_decision, postprocess, trivial_ack_decision, DecisionSource, RoutingDecision,
};
use crate::rules;
use crate::rules::{is_short_message, is_trivial_ack};
use crate::single::Single;
use crate::text;
use crate::text::{decimal_text, same, trim};
use crate::tier::RouteClass;
use vstd::prelude::*;
use vstd::string::*;

verus! {

/// Upper bound on tracked sticky-tier sessions.
pub const STICKY_TABLE_LIMIT: usize = 1024;

/// Raw classification details of one routed request: what the sample store
/// keeps for training.
#[derive(Debug, Clone)]
pub struct RouteCapture {
    /// The text the classifier scored.
    pub input: String,
    /// Raw model probabilities, before post-processing.
    pub probs: [Single; 4],
    /// Hidden state the classification head consumed.
    pub hidden: Vec<Single>,
    /// Previous turn's tier, as it was handed to the classifier.
    pub prev_tier: Option<u8>,
    /// Embedding dimension of the engine.
    pub num_embd: usize,
}

/// A usable classification: the scored text, the four probabilities and the
/// hidden state.
#[derive(Debug, Clone)]
pub struct RawClassification {
    pub input: String,
    pub probabilities: [Single; 4],
    pub hidden: Vec<Single>,
}

/// One row of the sticky table.
pub struct StickyEntry {
    pub session: String,
    pub tier: RouteClass,
}

/// Rows of a sticky table, least recently used first.
pub type Rows = Seq<(Seq<char>, RouteClass)>;

/// Position of the row of a session.
pub open spec fn row_of(t: Rows, id: Seq<char>) -> int
    decreases t.len(),
{
    if t.len() == 0 {
        -1
    } else if t.last().0 == id {
        t.len() - 1
    } else {
        row_of(t.drop_last(), id)
    }
}

/// The tier recorded for a session.
pub open spec fn tier_of(t: Rows, id: Seq<char>) -> Option<RouteClass> {
    let k = row_of(t, id);
    if k < 0 {
        None
    } else {
        Some(t[k].1)
    }
}

/// No session has two rows.
pub open spec fn distinct(t: Rows) -> bool {
    forall|i: int, j: int| 0 <= i < j < t.len() ==> (#[trigger] t[i]).0 != (#[trigger] t[j]).0
}

/// The table once `tier` has been recorded for a session: its row becomes the
/// most recent one. A session that is new to a full table takes the place of
/// the least recently used one.
pub open spec fn recorded(t: Rows, id: Seq<char>, tier: RouteClass) -> Rows {
    let k = row_of(t, id);
    if k >= 0 {
        t.remove(k).push((id, tier))
    } else if t.len() >= STICKY_TABLE_LIMIT {
        t.skip(1).push((id, tier))
    } else {
        t.push((id, tier))
    }
}

/// The text handed to the classifier: the request, headed by the session
/// summary where there is one that is not blank.
pub open spec fn classify_input(user_input: Seq<char>, summary: Option<Seq<char>>) -> Seq<char> {
    match summary {
        Some(s) => if text::trimmed(s).len() > 0 {
            "Summary: "@ + text::trimmed(s) + "\nRequest: "@ + user_input
        } else {
            user_input
        },
        None => user_input,
    }
}

/// The rank of a tier, as it is handed to the classifier.
pub open spec fn rank_of(tier: Option<RouteClass>) -> Option<u8> {
    match tier {
        Some(t) => Some(t.rank() as u8),
        None => None,
    }
}

/// The characters of an optional text.
pub open spec fn chars(s: Option<&str>) -> Option<Seq<char>> {
    match s {
        Some(t) => Some(t@),
        None => None,
    }
}

/// What an engine answers: probabilities with a hidden state, or an error.
pub type Answer = Result<(Vec<Single>, Vec<Single>), String>;

/// Whether `answer` is a possible answer of the engine to this question.
pub open spec fn answers<E: ClassifyEngine>(
    engine: E,
    input: Seq<char>,
    prev_tier: Option<u8>,
    capture: bool,
    answer: Answer,
) -> bool {
    exists|question: &str| #[trigger]
        question@ == input && call_ensures(
            E::classify,
            (&engine, question, prev_tier, capture),
            answer,
        )
}

/// Whether `reply` is what an answer amounts to: an error is passed on, four
/// probabilities are taken over, and any other number of them is an error.
pub open spec fn accepted(
    input: Seq<char>,
    answer: Answer,
    reply: Result<RawClassification, String>,
) -> bool {
    match answer {
        Err(e) => reply matches Err(m) && m@ == e@,
        Ok((probs, hidden)) => if probs@.len() == 4 {
            &&& reply matches Ok(raw)
            &&& raw.input@ == input
            &&& raw.probabilities@ == probs@
            &&& raw.hidden@ == hidden@
        } else {
            reply matches Err(m) && m@ == "classify returned "@ + text::decimal(
                probs@.len(),
            ) + " probabilities, expected 4"@
        },
    }
}

/// Whether `reply` is a possible outcome of consulting an engine.
pub open spec fn consulted<E: ClassifyEngine>(
    engine: Option<E>,
    input: Seq<char>,
    prev_tier: Option<u8>,
    capture: bool,
    reply: Result<RawClassification, String>,
) -> bool {
    match engine {
        None => reply matches Err(m) && m@ == "classify engine not registered"@,
        Some(e) => {
            ||| {
                &&& call_ensures(E::is_initialized, (&e,), false)
                &&& reply matches Err(m)
                &&& m@ == "classify engine not initialized"@
            }
            ||| {
                &&& call_ensures(E::is_initialized, (&e,), true)
                &&& exists|answer: Answer|
                    #![trigger accepted(input, answer, reply)]
                    answers(e, input, prev_tier, capture, answer) && accepted(input, answer, reply)
            }
        },
    }
}

/// What a capture holds of a classification.
pub open spec fn captures(
    capture: RouteCapture,
    raw: RawClassification,
    prev_tier: Option<RouteClass>,
    num_embd: usize,
) -> bool {
    &&& capture.input@ == raw.input@
    &&& capture.probs == raw.probabilities
    &&& capture.hidden@ == raw.hidden@
    &&& capture.prev_tier == rank_of(prev_tier)
    &&& capture.num_embd == num_embd
}

/// Judges an engine's answer: an error is passed on, four probabilities are
/// taken over, and any other number of them is an error.
pub fn accept_answer(input: String, answer: Answer) -> (reply: Result<RawClassification, String>)
    ensures
        accepted(input@, answer, reply),
{
    match answer {
        Err(e) => Err(e),
        Ok((probs, hidden)) => {
            if probs.len() != 4 {
                let mut m = "classify returned ".to_owned();
                m.append(decimal_text(probs.len() as u128).as_str());
                m.append(" probabilities, expected 4");
                return Err(m);
            }
            let raw = RawClassification {
                input,
                probabilities: [probs[0], probs[1], probs[2], probs[3]],
                hidden,
            };
            assert(raw.probabilities@ =~= probs@);
            Ok(raw)
        },
    }
}

/// Smart router: the engine, and per-session sticky tiers.
pub struct SmartRouter<E: ClassifyEngine> {
    engine: Option<E>,
    sticky: Vec<StickyEntry>,
}

impl<E: ClassifyEngine> SmartRouter<E> {
    /// The registered engine.
    pub closed spec fn engine(self) -> Option<E> {
        self.engine
    }

    /// The sticky table, least recently used session first.
    pub closed spec fn table(self) -> Rows {
        self.sticky@.map_values(|e: StickyEntry| (e.session@, e.tier))
    }

    /// No session is tracked twice, and at most [`STICKY_TABLE_LIMIT`] are.
    pub open spec fn wf(self) -> bool {
        distinct(self.table()) && self.table().len() <= STICKY_TABLE_LIMIT
    }

    /// Creates a router without an engine; classification degrades to the
    /// fallback decision until an engine is set.
    pub fn new() -> (res: Self)
        ensures
            res.wf(),
            res.engine() is None,
            res.table() == Rows::empty(),
    {
        let res = SmartRouter { engine: None, sticky: Vec::new() };
        assert(res.table() =~= Rows::empty());
        res
    }

    /// Creates a router with the given classification engine.
    pub fn with_engine(engine: E) -> (res: Self)
        ensures
            res.wf(),
            res.engine() == Some(engine),
            res.table() == Rows::empty(),
    {
        let res = SmartRouter { engine: Some(engine), sticky: Vec::new() };
        assert(res.table() =~= Rows::empty());
        res
    }

    /// Replaces the classification engine.
    pub fn set_engine(&mut self, engine: E)
        ensures
            final(self).engine() == Some(engine),
            final(self).table() == old(self).table(),
    {
        self.engine = Some(engine);
    }

    /// Has the engine reload its head.
    pub fn reload_engine(&self) -> (res: Result<(), String>)
        requires
            self.engine() is Some,
        ensures
            call_ensures(E::reload, (&self.engine()->0,), res),
    {
        match &self.engine {
            Some(engine) => engine.reload(),
            None => Ok(()),
        }
    }

    /// Position of the row of a session.
    fn find(&self, session_id: &str) -> (res: Option<usize>)
        ensures
            match res {
                Some(k) => k < self.sticky.len() && k == row_of(self.table(), session_id@),
                None => row_of(self.table(), session_id@) < 0,
            },
    {
        let ghost t = self.table();
        let mut n: usize = self.sticky.len();
        assert(t.take(n as int) =~= t);
        while n > 0
            invariant
                n <= self.sticky.len(),
                t == self.table(),
                t.len() == self.sticky.len(),
                row_of(t, session_id@) == row_of(t.take(n as int), session_id@),
            decreases n,
        {
            assert(t.take(n as int).drop_last() =~= t.take(n - 1));
            if same(self.sticky[n - 1].session.as_str(), session_id) {
                return Some(n - 1);
            }
            n -= 1;
        }
        None
    }

    /// The tier recorded for a session.
    pub fn previous_tier(&self, session_id: &str) -> (res: Option<RouteClass>)
        ensures
            res == tier_of(self.table(), session_id@),
    {
        match self.find(session_id) {
            Some(k) => Some(self.sticky[k].tier),
            None => None,
        }
    }

    /// Records the tier of a session as its most recent one.
    pub fn remember_tier(&mut self, session_id: &str, tier: RouteClass)
        requires
            old(self).wf(),
        ensures
            final(self).wf(),
            final(self).engine() == old(self).engine(),
            final(self).table() == recorded(old(self).table(), session_id@, tier),
    {
        proof {
            lemma_recorded(self.table(), session_id@, tier);
        }
        match self.find(session_id) {
            Some(k) => {
                let _ = self.sticky.remove(k);
            },
            None => {
                if self.sticky.len() >= STICKY_TABLE_LIMIT {
                    let _ = self.sticky.remove(0);
                }
            },
        }
        self.sticky.push(StickyEntry { session: session_id.to_owned(), tier });
        assert(self.table() =~= recorded(old(self).table(), session_id@, tier));
    }

    /// Consults the engine on a request. A missing or unready engine, an
    /// error of the engine, and an answer that does not hold four
    /// probabilities are errors.
    pub fn classify(
        &self,
        user_input: &str,
        summary: Option<&str>,
        prev_tier: Option<u8>,
        capture: bool,
    ) -> (reply: Result<RawClassification, String>)
        ensures
            consulted(
                self.engine(),
                classify_input(user_input@, chars(summary)),
                prev_tier,
                capture,
                reply,
            ),
    {
        match &self.engine {
            None => Err("classify engine not registered".to_owned()),
            Some(engine) => {
                if !engine.is_initialized() {
                    return Err("classify engine not initialized".to_owned());
                }
                let input = Self::build_classify_input(user_input, summary);
                let question = input.as_str();
                let answer = engine.classify(question, prev_tier, capture);
                let ghost given = answer;
                assert(question@ == classify_input(user_input@, chars(summary)));
                assert(answers(*engine, question@, prev_tier, capture, given));
                accept_answer(input, answer)
            },
        }
    }

    /// Turns the outcome of a consultation into the decision and the capture,
    /// and records the tier. A failed consultation leaves the sticky table as
    /// it is.
    pub fn conclude(
        &mut self,
        session_id: &str,
        user_input: &str,
        prev_tier: Option<RouteClass>,
        reply: Result<RawClassification, String>,
        num_embd: usize,
        config: &RouterConfig,
    ) -> (res: (RoutingDecision, Option<RouteCapture>))
        requires
            old(self).wf(),
        ensures
            final(self).wf(),
            final(self).engine() == old(self).engine(),
            match reply {
                Ok(raw) => {
                    let d = postprocess::decided(
                        raw.probabilities,
                        prev_tier,
                        rules::short_message(user_input@),
                        *config,
                    );
                    &&& res.0 == d
                    &&& res.1 matches Some(c)
                    &&& captures(c, raw, prev_tier, num_embd)
                    &&& final(self).table() == recorded(
                        old(self).table(),
                        session_id@,
                        d.route,
                    )
                },
                Err(_) => {
                    &&& res.0 == postprocess::degraded_decision()
                    &&& res.1 is None
                    &&& final(self).table() == old(self).table()
                },
            },
    {
        match reply {
            Err(_) => (fallback_decision(), None),
            Ok(raw) => {
                let is_short = is_short_message(user_input);
                let decision = postprocess(&raw.probabilities, prev_tier, is_short, config);
                self.remember_tier(session_id, decision.route);
                let capture = RouteCapture {
                    input: raw.input,
                    probs: raw.probabilities,
                    hidden: raw.hidden,
                    prev_tier: rank(prev_tier),
                    num_embd,
                };
                (decision, Some(capture))
            },
        }
    }

    /// Classifies the request and produces a routing decision together with
    /// what the sample store keeps of it.
    ///
    /// 1. An acknowledgment goes to R0 and leaves the sticky table as it is.
    /// 2. Otherwise the engine is consulted, with the session's previous
    ///    tier; where that fails, the fallback decision is returned and the
    ///    sticky table is left as it is.
    /// 3. The rule stack makes the decision, whose tier is recorded.
    pub fn route_with_capture(
        &mut self,
        session_id: &str,
        user_input: &str,
        summary: Option<&str>,
        turn_index: usize,
        config: &RouterConfig,
    ) -> (res: (RoutingDecision, Option<RouteCapture>))
        requires
            old(self).wf(),
        ensures
            final(self).wf(),
            final(self).engine() == old(self).engine(),
            rules::trivial_ack(user_input@) ==> {
                &&& res.0 == postprocess::trivial_decision()
                &&& res.1 is None
                &&& final(self).table() == old(self).table()
            },
            !rules::trivial_ack(user_input@) ==> exists|
                reply: Result<RawClassification, String>,
                num_embd: usize,
            |
                routed(
                    old(self),
                    session_id@,
                    user_input@,
                    chars(summary),
                    *config,
                    reply,
                    num_embd,
                    final(self).table(),
                    res,
                ),
    {
        let _ = turn_index;
        if is_trivial_ack(user_input) {
            return (trivial_ack_decision(), None);
        }
        let prev_tier = self.previous_tier(session_id);
        let reply = self.classify(user_input, summary, rank(prev_tier), true);
        let num_embd: usize = match &reply {
            Err(_) => 0,
            Ok(raw) => match &self.engine {
                Some(engine) => engine.num_embd(),
                None => raw.hidden.len(),
            },
        };
        let ghost given = reply;
        let ghost before = *self;
        let res = self.conclude(session_id, user_input, prev_tier, reply, num_embd, config);
        assert(routed(
            &before,
            session_id@,
            user_input@,
            chars(summary),
            *config,
            given,
            num_embd,
            self.table(),
            res,
        ));
        res
    }

    /// Classifies the request and produces a routing decision.
    pub fn route(
        &mut self,
        session_id: &str,
        user_input: &str,
        summary: Option<&str>,
        turn_index: usize,
        config: &RouterConfig,
    ) -> (res: RoutingDecision)
        requires
            old(self).wf(),
        ensures
            final(self).wf(),
            final(self).engine() == old(self).engine(),
            rules::trivial_ack(user_input@) ==> {
                &&& res == postprocess::trivial_decision()
                &&& final(self).table() == old(self).table()
            },
            !rules::trivial_ack(user_input@) ==> exists|
                reply: Result<RawClassification, String>,
                num_embd: usize,
                capture: Option<RouteCapture>,
            |
                routed(
                    old(self),
                    session_id@,
                    user_input@,
                    chars(summary),
                    *config,
                    reply,
                    num_embd,
                    final(self).table(),
                    (res, capture),
                ),
    {
        let (decision, capture) = self.route_with_capture(
            session_id,
            user_input,
            summary,
            turn_index,
            config,
        );
        decision
    }

    /// Resolves the model reference for a routing decision: the fallback
    /// reference for a decision that has no tier of its own.
    pub fn resolve_model_ref(decision: &RoutingDecision, config: &RouterConfig) -> (res: String)
        ensures
            res@ == match decision.source {
                DecisionSource::Model | DecisionSource::TrivialAck => config.tier_models.reference(
                    decision.route,
                ),
                DecisionSource::Fallback => config.fallback@,
            },
    {
        match decision.source {
            DecisionSource::Model | DecisionSource::TrivialAck => config.tier_models.model_for(
                &decision.route,
            ).to_owned(),
            DecisionSource::Fallback => config.fallback.clone(),
        }
    }

    /// The decision of a preview, from the outcome of its consultation.
    pub fn conclude_preview(
        user_input: &str,
        reply: &Result<RawClassification, String>,
        config: &RouterConfig,
    ) -> (res: RoutingDecision)
        ensures
            res == previewed(user_input@, *reply, *config),
    {
        match reply {
            Err(_) => fallback_decision(),
            Ok(raw) => postprocess(&raw.probabilities, None, is_short_message(user_input), config),
        }
    }

    /// Stateless preview of a request: the same rules, classification and
    /// rule stack as [`Self::route`], with the sticky table neither read nor
    /// written.
    pub fn route_preview(&self, user_input: &str, summary: Option<&str>, config: &RouterConfig) -> (
    res: RoutingDecision)
        ensures
            rules::trivial_ack(user_input@) ==> res == postprocess::trivial_decision(),
            !rules::trivial_ack(user_input@) ==> exists|reply: Result<RawClassification, String>|
                #![trigger previewed(user_input@, reply, *config)]
                consulted(
                    self.engine(),
                    classify_input(user_input@, chars(summary)),
                    None,
                    false,
                    reply,
                ) && res == previewed(user_input@, reply, *config),
    {
        if is_trivial_ack(user_input) {
            return trivial_ack_decision();
        }
        let reply = self.classify(user_input, summary, None, false);
        Self::conclude_preview(user_input, &reply, config)
    }

    /// Builds the classifier input: summary and request where there is a
    /// summary that is not blank, the bare request otherwise.
    pub fn build_classify_input(user_input: &str, summary: Option<&str>) -> (res: String)
        ensures
            res@ == classify_input(user_input@, chars(summary)),
    {
        if let Some(s) = summary {
            let t = trim(s);
            if t.as_str().unicode_len() > 0 {
                let mut out = "Summary: ".to_owned();
                out.append(t.as_str());
                out.append("\nRequest: ");
                out.append(user_input);
                return out;
            }
        }
        user_input.to_owned()
    }
}

impl<E: ClassifyEngine> Default for SmartRouter<E> {
    fn default() -> (res: Self)
        ensures
            res.wf(),
            res.engine() is None,
            res.table() == Rows::empty(),
    {
        SmartRouter::new()
    }
}

/// The rank of a tier, as it is handed to the classifier.
fn rank(tier: Option<RouteClass>) -> (res: Option<u8>)
    ensures
        res == rank_of(tier),
{
    match tier {
        Some(t) => Some(t.index() as u8),
        None => None,
    }
}

/// The decision of a preview, from the outcome of its consultation.
pub open spec fn previewed(
    user_input: Seq<char>,
    reply: Result<RawClassification, String>,
    config: RouterConfig,
) -> RoutingDecision {
    match reply {
        Ok(raw) => postprocess::decided(
            raw.probabilities,
            None,
            rules::short_message(user_input),
            config,
        ),
        Err(_) => postprocess::degraded_decision(),
    }
}

/// Whether a request that is no acknowledgment, whose consultation had the
/// outcome `reply`, leads to the decision and capture `res` and to the sticky
/// table `after`.
pub open spec fn routed<E: ClassifyEngine>(
    router: &SmartRouter<E>,
    session_id: Seq<char>,
    user_input: Seq<char>,
    summary: Option<Seq<char>>,
    config: RouterConfig,
    reply: Result<RawClassification, String>,
    num_embd: usize,
    after: Rows,
    res: (RoutingDecision, Option<RouteCapture>),
) -> bool {
    let prev_tier = tier_of(router.table(), session_id);
    &&& consulted(
        router.engine(),
        classify_input(user_input, summary),
        rank_of(prev_tier),
        true,
        reply,
    )
    &&& match reply {
        Ok(raw) => {
            let d = postprocess::decided(
                raw.probabilities,
                prev_tier,
                rules::short_message(user_input),
                config,
            );
            &&& router.engine() matches Some(e) && call_ensures(E::num_embd, (&e,), num_embd)
            &&& res.0 == d
            &&& res.1 matches Some(c)
            &&& captures(c, raw, prev_tier, num_embd)
            &&& after == recorded(router.table(), session_id, d.route)
        },
        Err(_) => {
            &&& res.0 == postprocess::degraded_decision()
            &&& res.1 is None
            &&& after == router.table()
        },
    }
}

/// The last row of a session is found, and it is a row of that session.
proof fn lemma_row_of(t: Rows, id: Seq<char>)
    ensures
        -1 <= row_of(t, id) < t.len(),
        row_of(t, id) >= 0 ==> t[row_of(t, id)].0 == id,
        forall|i: int| row_of(t, id) < i < t.len() ==> (#[trigger] t[i]).0 != id,
    decreases t.len(),
{
    if t.len() > 0 && t.last().0 != id {
        let front = t.drop_last();
        lemma_row_of(front, id);
        assert forall|i: int| row_of(t, id) < i < t.len() implies (#[trigger] t[i]).0 != id by {
            if i < t.len() - 1 {
                assert(front[i] == t[i]);
            }
        }
    }
}

/// Recording a tier keeps the rows distinct and the table bounded.
proof fn lemma_recorded(t: Rows, id: Seq<char>, tier: RouteClass)
    requires
        distinct(t),
        t.len() <= STICKY_TABLE_LIMIT,
    ensures
        -1 <= row_of(t, id) < t.len(),
        distinct(recorded(t, id, tier)),
        recorded(t, id, tier).len() <= STICKY_TABLE_LIMIT,
{
    lemma_row_of(t, id);
}

/// Of distinct rows, a session's own row is the one that is found.
proof fn lemma_found(t: Rows, id: Seq<char>, k: int)
    requires
        distinct(t),
        0 <= k < t.len(),
        t[k].0 == id,
    ensures
        row_of(t, id) == k,
{
    lemma_row_of(t, id);
    let r = row_of(t, id);
    if r < k {
        assert(t[k].0 != id);
    } else if r > k {
        assert(t[k].0 != t[r].0);
    }
}

/// What is recorded for a session is what is read back for it.
pub proof fn recorded_is_read_back(t: Rows, id: Seq<char>, tier: RouteClass)
    ensures
        tier_of(recorded(t, id, tier), id) == Some(tier),
{
    lemma_row_of(t, id);
}

/// Recording a tier for one session leaves every other session as it was,
/// with one exception: where the session is new and the table is full, the
/// least recently used session is forgotten.
pub proof fn sessions_are_isolated(t: Rows, id: Seq<char>, tier: RouteClass, other: Seq<char>)
    requires
        distinct(t),
        t.len() <= STICKY_TABLE_LIMIT,
        id != other,
    ensures
        tier_of(recorded(t, id, tier), other) == if row_of(t, id) < 0 && t.len()
            == STICKY_TABLE_LIMIT && t[0].0 == other {
            None
        } else {
            tier_of(t, other)
        },
{
    let after = recorded(t, id, tier);
    lemma_recorded(t, id, tier);
    lemma_row_of(t, id);
    lemma_row_of(t, other);
    lemma_row_of(after, other);
    let k = row_of(t, id);
    let r = row_of(t, other);
    let ra = row_of(after, other);
    if ra >= 0 {
        assert(ra < after.len() - 1);
        let back = if k >= 0 {
            if ra < k {
                ra
            } else {
                ra + 1
            }
        } else if t.len() >= STICKY_TABLE_LIMIT {
            ra + 1
        } else {
            ra
        };
        assert(t[back] == after[ra]);
        lemma_found(t, other, back);
    } else if r >= 0 {
        let fwd = if k >= 0 {
            if r < k {
                r
            } else {
                r - 1
            }
        } else if t.len() >= STICKY_TABLE_LIMIT {
            r - 1
        } else {
            r
        };
        if fwd >= 0 {
            assert(after[fwd] == t[r]);
        }
    }
}

/// Recording a session puts it last in line, and moves every other session at
/// most one place towards the front, where it would be forgotten.
pub proof fn recent_sessions_survive(t: Rows, id: Seq<char>, tier: RouteClass, k: int)
    requires
        distinct(t),
        t.len() <= STICKY_TABLE_LIMIT,
        0 <= k < t.len(),
        t[k].0 != id,
    ensures
        ({
            let after = recorded(t, id, tier);
            let r = row_of(after, t[k].0);
            &&& after.last() == (id, tier)
            &&& r == k || r == k - 1
            &&& r == k - 1 <==> (row_of(t, id) >= 0 && row_of(t, id) < k) || (row_of(t, id) < 0
                && t.len() == STICKY_TABLE_LIMIT)
        }),
{
    let after = recorded(t, id, tier);
    lemma_recorded(t, id, tier);
    lemma_row_of(t, id);
    let j = row_of(t, id);
    let shift = (j >= 0 && j < k) || (j < 0 && t.len() == STICKY_TABLE_LIMIT);
    let fwd = if shift {
        k - 1
    } else {
        k
    };
    if fwd >= 0 {
        assert(after[fwd] == t[k]);
        lemma_found(after, t[k].0, fwd);
    } else {
        lemma_row_of(after, t[k].0);
        let r = row_of(after, t[k].0);
        if r >= 0 {
            assert(r < after.len() - 1);
            assert(after[r] == t[r + 1]);
            assert(t[0].0 != t[r + 1].0);
        }
    }
}

/// A follow-up never falls below the tier of the turn before it: where a
/// request was routed by the model and the next message of its session is
/// short, that message is routed no lower.
pub proof fn followup_keeps_tier<E: ClassifyEngine>(
    first: &SmartRouter<E>,
    second: &SmartRouter<E>,
    session_id: Seq<char>,
    inputs: (Seq<char>, Seq<char>),
    summaries: (Option<Seq<char>>, Option<Seq<char>>),
    config: RouterConfig,
    raws: (RawClassification, RawClassification),
    dims: (usize, usize),
    after: Rows,
    results: ((RoutingDecision, Option<RouteCapture>), (RoutingDecision, Option<RouteCapture>)),
)
    requires
        config.sticky_enabled,
        rules::short_message(inputs.1),
        routed(
            first,
            session_id,
            inputs.0,
            summaries.0,
            config,
            Ok(raws.0),
            dims.0,
            second.table(),
            results.0,
        ),
        routed(
            second,
            session_id,
            inputs.1,
            summaries.1,
            config,
            Ok(raws.1),
            dims.1,
            after,
            results.1,
        ),
    ensures
        results.1.0.route.rank() >= results.0.0.route.rank(),
{
    recorded_is_read_back(first.table(), session_id, results.0.0.route);
}

/// A failed consultation cannot drag the floor of a session down: it leaves
/// the tier of every session as it was, and the decision has no tier of its
/// own.
pub proof fn failures_keep_the_floor<E: ClassifyEngine>(
    router: &SmartRouter<E>,
    session_id: Seq<char>,
    user_input: Seq<char>,
    summary: Option<Seq<char>>,
    config: RouterConfig,
    fault: String,
    num_embd: usize,
    after: Rows,
    res: (RoutingDecision, Option<RouteCapture>),
    other: Seq<char>,
)
    requires
        routed(
            router,
            session_id,
            user_input,
            summary,
            config,
            Err(fault),
            num_embd,
            after,
            res,
        ),
    ensures
        tier_of(after, other) == tier_of(router.table(), other),
        res.0.source == DecisionSource::Fallback,
{
}

/// A preview knows no previous turn: its decision is the one for the
/// probabilities alone.
pub proof fn preview_has_no_floor(
    user_input: Seq<char>,
    raw: RawClassification,
    config: RouterConfig,
)
    ensures
        previewed(user_input, Ok(raw), config).route == postprocess::safe_tier(
            raw.probabilities@,
            config,
        ),
        !previewed(user_input, Ok(raw), config).sticky_applied,
{
}

/// The tier of a session is the one in its row, and a session without a row has
/// none.
pub proof fn tiers_stand_in_rows(t: Rows, id: Seq<char>, tier: RouteClass)
    requires
        distinct(t),
    ensures
        tier_of(t, id) == Some(tier) <==> exists|k: int|
            0 <= k < t.len() && #[trigger] t[k] == (id, tier),
        tier_of(t, id) is None <==> forall|k: int| 0 <= k < t.len() ==> (#[trigger] t[k]).0 != id,
{
    lemma_row_of(t, id);
    if exists|k: int| 0 <= k < t.len() && #[trigger] t[k] == (id, tier) {
        let k = choose|k: int| 0 <= k < t.len() && #[trigger] t[k] == (id, tier);
        lemma_found(t, id, k);
    }
    if row_of(t, id) >= 0 {
        assert(t[row_of(t, id)] == (id, t[row_of(t, id)].1));
    }
}

/// The table has room for 1024 sessions: up to there nobody is forgotten, and
/// from there on a new session takes the place of the one that was routed
/// longest ago.
pub proof fn the_longest_silent_session_leaves(t: Rows, id: Seq<char>, tier: RouteClass)
    requires
        distinct(t),
        t.len() <= 1024,
        forall|k: int| 0 <= k < t.len() ==> (#[trigger] t[k]).0 != id,
    ensures
        t.len() < 1024 ==> recorded(t, id, tier) == t.push((id, tier)),
        t.len() == 1024 ==> recorded(t, id, tier) == t.drop_first().push((id, tier)),
{
    lemma_row_of(t, id);
    if row_of(t, id) >= 0 {
        assert(t[row_of(t, id)].0 == id);
    }
    if t.len() == 1024 {
        assert(t.skip(1) =~= t.drop_first());
    }
}

/// The classifier sees the request, and before it the summary of the session,
/// where there is one with anything in it.
pub proof fn summaries_lead_requests(user_input: Seq<char>, summary: Seq<char>)
    ensures
        classify_input(user_input, None) == user_input,
        text::blank(summary) ==> classify_input(user_input, Some(summary)) == user_input,
        !text::blank(summary) ==> exists|core: Seq<char>|
            {
                &&& #[trigger] classify_input(user_input, Some(summary)) == "Summary: "@ + core
                    + "\nRequest: "@ + user_input
                &&& core.len() > 0 && !text::is_space(core[0]) && !text::is_space(core.last())
                &&& exists|a: Seq<char>, b: Seq<char>| #[trigger]
                    (a + core + b) == summary && text::blank(a) && text::blank(b)
            },
{
    text::trimming_strips_white_space(summary);
    if !text::blank(summary) {
        let core = text::trimmed(summary);
        assert(classify_input(user_input, Some(summary)) == "Summary: "@ + core + "\nRequest: "@
            + user_input);
    }
}

/// The number of the tier that the turn before went to.
pub open spec fn turn_before(t: Rows, session_id: Seq<char>) -> Option<u8> {
    match tier_of(t, session_id) {
        Some(RouteClass::R0) => Some(0),
        Some(RouteClass::R1) => Some(1),
        Some(RouteClass::R2) => Some(2),
        Some(RouteClass::R3) => Some(3),
        None => None,
    }
}

/// A decision of the model is made of the engine's own answer: it was asked
/// about the request under its summary, with the tier of the turn before, and
/// what it answered is what is decided on and what is captured.
pub proof fn decisions_come_from_the_engine<E: ClassifyEngine>(
    router: &SmartRouter<E>,
    session_id: Seq<char>,
    user_input: Seq<char>,
    summary: Option<Seq<char>>,
    config: RouterConfig,
    raw: RawClassification,
    num_embd: usize,
    after: Rows,
    res: (RoutingDecision, Option<RouteCapture>),
)
    requires
        routed(
            router,
            session_id,
            user_input,
            summary,
            config,
            Ok(raw),
            num_embd,
            after,
            res,
        ),
    ensures
        router.engine() is Some,
        res.1 is Some,
        tier_of(after, session_id) == Some(res.0.route),
        exists|question: &str, probs: Vec<Single>, hidden: Vec<Single>|
            {
                let capture = res.1->0;
                &&& #[trigger] call_ensures(
                    E::classify,
                    (
                        &router.engine()->0,
                        question,
                        turn_before(router.table(), session_id),
                        true,
                    ),
                    Ok::<(Vec<Single>, Vec<Single>), String>((probs, hidden)),
                )
                &&& question@ == classify_input(user_input, summary)
                &&& probs@.len() == 4
                &&& res.0.probabilities@ == probs@
                &&& res.0.source == DecisionSource::Model
                &&& capture.probs@ == probs@
                &&& capture.hidden@ == hidden@
                &&& capture.input@ == question@
                &&& capture.prev_tier == turn_before(router.table(), session_id)
                &&& capture.num_embd == num_embd
            },
{
    let prev_tier = tier_of(router.table(), session_id);
    let input = classify_input(user_input, summary);
    let e = router.engine()->0;
    recorded_is_read_back(router.table(), session_id, res.0.route);
    let reply: Result<RawClassification, String> = Ok(raw);
    let answer = choose|answer: Answer|
        #![trigger accepted(input, answer, reply)]
        answers(e, input, rank_of(prev_tier), true, answer) && accepted(input, answer, reply);
    let question = choose|question: &str| #[trigger]
        question@ == input && call_ensures(
            E::classify,
            (&e, question, rank_of(prev_tier), true),
            answer,
        );
    let (probs, hidden) = answer->Ok_0;
    assert(answer == Ok::<(Vec<Single>, Vec<Single>), String>((probs, hidden)));
}

} // verus!
