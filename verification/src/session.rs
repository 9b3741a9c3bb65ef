//! A routing session: the router, the sample store, the classifier and the
//! generation pool behind one object.

use crate::builtin::classify::ClassifyEngineConfig;
use crate::builtin::generate::TierModelPaths;
use crate::builtin::pool;
use crate::builtin::pool::{GenerateEngineConfig, LoadPlan, RwkvGenerateEngine};
use crate::config::RouterConfig;
use crate::engine::ClassifyEngine;
use crate::evolution::capture;
use crate::evolution::capture::{
    CaptureItem, CaptureRecord, CaptureStats, Captured, Evolution, EvolutionConfig,
};
use crate::postprocess;
use crate::postprocess::RoutingDecision;
use crate::router;
use crate::router::{RawClassification, RouteCapture, SmartRouter};
use crate::rules;
use crate::text;
use crate::tier::RouteClass;
use vstd::prelude::*;
use vstd::string::*;

verus! {

/// What is said where the evolution loop is not configured.
pub const NOT_CONFIGURED: &'static str = "evolution not configured";

/// What is said where no tier model is attached.
pub const NOT_ATTACHED: &'static str =
    "generation not attached (call attach_generation for this tier first)";

/// An assembled routing stack. A classifier, the evolution loop and tier
/// generation can be attached to it.
pub struct RouterSession<E: ClassifyEngine> {
    /// Routing parameters.
    config: RouterConfig,
    router: SmartRouter<E>,
    evolution: Option<Evolution>,
    generate: Option<RwkvGenerateEngine>,
    classify_head_path: Option<String>,
}

/// What a session makes of a capture: with an evolution loop it is kept.
pub open spec fn kept(
    before: Option<Evolution>,
    after: Option<Evolution>,
    ts: u64,
    capture: Option<RouteCapture>,
    outcome: Captured,
) -> bool {
    match (before, capture) {
        (Some(b), Some(c)) => {
            &&& after matches Some(a)
            &&& a == (Evolution { records: a.records, ..b })
            &&& if capture::capturable(c.input@, c.hidden@, c.probs@) {
                &&& outcome == if b.records@.len() + 1 > b.config.capture_limit {
                    Captured::Trimmed
                } else {
                    Captured::Appended
                }
                &&& exists|rec: CaptureRecord| #[trigger]
                    capture::records(
                        rec,
                        ts,
                        c.input@,
                        c.hidden@,
                        c.prev_tier,
                        c.probs@,
                        c.num_embd,
                    ) && a.records@ == capture::bounded(
                        b.records@.push(rec),
                        b.config.capture_limit as nat,
                    )
            } else {
                a == b && outcome == Captured::Ignored
            }
        },
        _ => after == before && outcome == Captured::Ignored,
    }
}

/// The configuration of the classifier that a session loads. A timeout of zero
/// stands for five seconds.
pub fn classifier_config(model_path: &str, vocab_path: &str, head_path: &str, timeout_ms: u64) -> (res:
    ClassifyEngineConfig)
    ensures
        res.model_path@ == model_path@,
        res.vocab_path@ == vocab_path@,
        res.head_path@ == head_path@,
        res.timeout_ms == if timeout_ms == 0 {
            5000
        } else {
            timeout_ms
        },
        res.load_timeout_secs == 120,
{
    ClassifyEngineConfig {
        model_path: model_path.to_owned(),
        vocab_path: vocab_path.to_owned(),
        head_path: head_path.to_owned(),
        timeout_ms: if timeout_ms == 0 {
            5000
        } else {
            timeout_ms
        },
        load_timeout_secs: 120,
    }
}

impl<E: ClassifyEngine> RouterSession<E> {
    /// Routing parameters.
    pub closed spec fn parameters(self) -> RouterConfig {
        self.config
    }

    /// The router.
    pub closed spec fn routing(self) -> SmartRouter<E> {
        self.router
    }

    /// The evolution loop.
    pub closed spec fn loop_state(self) -> Option<Evolution> {
        self.evolution
    }

    /// The generation pool.
    pub closed spec fn pool(self) -> Option<RwkvGenerateEngine> {
        self.generate
    }

    /// File of the classifier's head.
    pub closed spec fn head_file(self) -> Option<Seq<char>> {
        match self.classify_head_path {
            Some(p) => Some(p@),
            None => None,
        }
    }

    /// The router and the pool are sound, and a head file belongs to a
    /// classifier.
    pub open spec fn wf(self) -> bool {
        &&& self.routing().wf()
        &&& self.pool() matches Some(p) ==> p.wf()
        &&& self.head_file() is Some ==> self.routing().engine() is Some
    }

    /// The model file of a tier.
    pub open spec fn model_file(self, tier: RouteClass) -> Option<String> {
        match self.pool() {
            Some(p) => p.models().file(tier),
            None => None,
        }
    }

    /// Creates a session that decides by rules alone until a classifier is
    /// loaded.
    pub fn new(config: RouterConfig) -> (res: Self)
        ensures
            res.wf(),
            res.parameters() == config,
            res.routing().engine() is None,
            res.routing().table() == router::Rows::empty(),
            res.loop_state() is None,
            res.pool() is None,
            res.head_file() is None,
    {
        RouterSession {
            config,
            router: SmartRouter::new(),
            evolution: None,
            generate: None,
            classify_head_path: None,
        }
    }

    /// Routing parameters.
    pub fn config(&self) -> (res: &RouterConfig)
        ensures
            *res == self.parameters(),
    {
        &self.config
    }

    /// The router.
    pub fn router(&self) -> (res: &SmartRouter<E>)
        ensures
            *res == self.routing(),
    {
        &self.router
    }

    /// Takes over a classifier that was built, with the file of its head; one
    /// that could not be built leaves the session as it is.
    pub fn load_classifier(&mut self, head_path: &str, built: Result<E, String>) -> (res: Result<
        (),
        String,
    >)
        requires
            old(self).wf(),
        ensures
            final(self).wf(),
            match built {
                Ok(engine) => {
                    &&& res is Ok
                    &&& final(self).routing().engine() == Some(engine)
                    &&& final(self).routing().table() == old(self).routing().table()
                    &&& final(self).head_file() == Some(head_path@)
                },
                Err(e) => {
                    &&& res matches Err(m) && m@ == e@
                    &&& final(self).routing() == old(self).routing()
                    &&& final(self).head_file() == old(self).head_file()
                },
            },
            final(self).parameters() == old(self).parameters(),
            final(self).loop_state() == old(self).loop_state(),
            final(self).pool() == old(self).pool(),
    {
        match built {
            Ok(engine) => {
                self.router.set_engine(engine);
                self.classify_head_path = Some(head_path.to_owned());
                Ok(())
            },
            Err(e) => Err(e),
        }
    }

    /// Has the classifier read its head file again.
    pub fn reload_classifier_head(&self) -> (res: Result<(), String>)
        requires
            self.wf(),
        ensures
            self.head_file() is None ==> (res matches Err(m) && m@ == "no classifier attached"@),
            self.head_file() is Some ==> call_ensures(
                E::reload,
                (&self.routing().engine()->0,),
                res,
            ),
    {
        match &self.classify_head_path {
            None => Err("no classifier attached".to_owned()),
            Some(_) => self.router.reload_engine(),
        }
    }

    /// File of the classifier's head.
    pub fn classify_head_path(&self) -> (res: Option<&str>)
        ensures
            match res {
                Some(s) => self.head_file() == Some(s@),
                None => self.head_file() is None,
            },
    {
        match &self.classify_head_path {
            Some(p) => Some(p.as_str()),
            None => None,
        }
    }

    /// The head file that evolution starts from and deploys to: the one of the
    /// classifier where one is attached and the configured one is not pinned,
    /// the configured one otherwise.
    pub open spec fn deploys_to(self) -> Option<Seq<char>> {
        match self.loop_state() {
            None => None,
            Some(e) => if self.head_file() is Some && !e.pinned {
                self.head_file()
            } else {
                Some(e.config.head_path@)
            },
        }
    }

    /// The head file that evolution starts from and deploys to, where the
    /// evolution loop is configured.
    pub fn deploy_path(&self) -> (res: Option<&str>)
        ensures
            match res {
                Some(s) => self.deploys_to() == Some(s@),
                None => self.deploys_to() is None,
            },
    {
        match &self.evolution {
            None => None,
            Some(e) => match &self.classify_head_path {
                Some(p) if !e.pinned => Some(p.as_str()),
                _ => Some(e.config.head_path.as_str()),
            },
        }
    }

    /// Has evolution deploy to the configured head file, whatever classifier is
    /// attached.
    pub fn pin_deployment(&mut self)
        requires
            old(self).wf(),
        ensures
            final(self).wf(),
            final(self).same_but_loop(*old(self)),
            match old(self).loop_state() {
                None => final(self).loop_state() is None,
                Some(e) => final(self).loop_state() == Some((Evolution { pinned: true, ..e })),
            },
    {
        match self.evolution.take() {
            None => {},
            Some(e) => {
                let mut e = e;
                e.pinned = true;
                self.evolution = Some(e);
            },
        }
    }

    /// Configures the evolution loop over the stored samples and the stored
    /// mark; it is configured once.
    pub fn configure_evolution(
        &mut self,
        config: EvolutionConfig,
        records: Vec<CaptureRecord>,
        last_auto_mark: usize,
    ) -> (res: Result<(), String>)
        requires
            old(self).wf(),
        ensures
            final(self).wf(),
            old(self).loop_state() is Some ==> {
                &&& res matches Err(m) && m@ == "evolution already configured"@
                &&& *final(self) == *old(self)
            },
            old(self).loop_state() is None ==> {
                &&& res is Ok
                &&& final(self).loop_state() == Some(
                    (Evolution { config, records, running: false, last_auto_mark, pinned: false }),
                )
            },
            final(self).same_but_loop(*old(self)),
    {
        if self.evolution.is_some() {
            return Err("evolution already configured".to_owned());
        }
        self.evolution = Some(Evolution::new(config, records, last_auto_mark));
        Ok(())
    }

    /// Whether everything but the evolution loop is as in another session.
    pub open spec fn same_but_loop(self, other: Self) -> bool {
        &&& self.parameters() == other.parameters()
        &&& self.routing() == other.routing()
        &&& self.pool() == other.pool()
        &&& self.head_file() == other.head_file()
    }

    /// The evolution loop, where it is configured.
    pub fn evolution(&self) -> (res: Option<&Evolution>)
        ensures
            match res {
                Some(e) => self.loop_state() == Some(*e),
                None => self.loop_state() is None,
            },
    {
        self.evolution.as_ref()
    }

    /// Hands a capture, taken at a time in milliseconds, to the evolution loop.
    pub fn keep(&mut self, ts: u64, capture: Option<RouteCapture>) -> (outcome: Captured)
        requires
            old(self).wf(),
        ensures
            final(self).wf(),
            final(self).same_but_loop(*old(self)),
            kept(old(self).loop_state(), final(self).loop_state(), ts, capture, outcome),
    {
        let capture = match capture {
            Some(c) => c,
            None => {
                return Captured::Ignored;
            },
        };
        match self.evolution.take() {
            None => Captured::Ignored,
            Some(evolution) => {
                let mut evolution = evolution;
                let outcome = evolution.capture_route_sample(
                    ts,
                    capture.input.as_str(),
                    &capture.hidden,
                    capture.prev_tier,
                    &capture.probs,
                    capture.num_embd,
                );
                self.evolution = Some(evolution);
                outcome
            },
        }
    }

    /// Routes one request at a time given in milliseconds, and keeps what was
    /// captured of it where the evolution loop is configured.
    pub fn route(
        &mut self,
        ts: u64,
        session_id: &str,
        user_input: &str,
        summary: Option<&str>,
        turn_index: usize,
    ) -> (res: (RoutingDecision, Captured))
        requires
            old(self).wf(),
        ensures
            final(self).wf(),
            final(self).parameters() == old(self).parameters(),
            final(self).pool() == old(self).pool(),
            final(self).head_file() == old(self).head_file(),
            final(self).routing().engine() == old(self).routing().engine(),
            rules::trivial_ack(user_input@) ==> {
                &&& res.0 == postprocess::trivial_decision()
                &&& res.1 == Captured::Ignored
                &&& final(self).routing().table() == old(self).routing().table()
                &&& final(self).loop_state() == old(self).loop_state()
            },
            !rules::trivial_ack(user_input@) ==> exists|
                reply: Result<RawClassification, String>,
                num_embd: usize,
                capture: Option<RouteCapture>,
            |
                #![trigger router::routed(&old(self).routing(), session_id@, user_input@, router::chars(summary), old(self).parameters(), reply, num_embd, final(self).routing().table(), (res.0, capture))]
                router::routed(
                    &old(self).routing(),
                    session_id@,
                    user_input@,
                    router::chars(summary),
                    old(self).parameters(),
                    reply,
                    num_embd,
                    final(self).routing().table(),
                    (res.0, capture),
                ) && kept(old(self).loop_state(), final(self).loop_state(), ts, capture, res.1),
    {
        let ghost before = *self;
        let (decision, capture) = self.router.route_with_capture(
            session_id,
            user_input,
            summary,
            turn_index,
            &self.config,
        );
        let ghost given = capture;
        let outcome = self.keep(ts, capture);
        proof {
            if !rules::trivial_ack(user_input@) {
                let (reply, num_embd) = choose|
                    reply: Result<RawClassification, String>,
                    num_embd: usize,
                |
                    router::routed(
                        &before.routing(),
                        session_id@,
                        user_input@,
                        router::chars(summary),
                        before.parameters(),
                        reply,
                        num_embd,
                        self.routing().table(),
                        (decision, given),
                    );
                assert(router::routed(
                    &before.routing(),
                    session_id@,
                    user_input@,
                    router::chars(summary),
                    before.parameters(),
                    reply,
                    num_embd,
                    self.routing().table(),
                    (decision, given),
                ));
            }
        }
        (decision, outcome)
    }

    /// Stateless preview of a request.
    pub fn route_preview(&self, user_input: &str, summary: Option<&str>) -> (res: RoutingDecision)
        ensures
            rules::trivial_ack(user_input@) ==> res == postprocess::trivial_decision(),
            !rules::trivial_ack(user_input@) ==> exists|reply: Result<RawClassification, String>|
                #![trigger router::previewed(user_input@, reply, self.parameters())]
                router::consulted(
                    self.routing().engine(),
                    router::classify_input(user_input@, router::chars(summary)),
                    None,
                    false,
                    reply,
                ) && res == router::previewed(user_input@, reply, self.parameters()),
    {
        let res = self.router.route_preview(user_input, summary, &self.config);
        proof {
            if !rules::trivial_ack(user_input@) {
                let reply = choose|reply: Result<RawClassification, String>|
                    #![trigger router::previewed(user_input@, reply, self.config)]
                    router::consulted(
                        self.router.engine(),
                        router::classify_input(user_input@, router::chars(summary)),
                        None,
                        false,
                        reply,
                    ) && res == router::previewed(user_input@, reply, self.config);
                assert(res == router::previewed(user_input@, reply, self.parameters()));
            }
        }
        res
    }

    /// Numbers of samples.
    pub fn capture_stats(&self) -> (res: Result<CaptureStats, String>)
        ensures
            match self.loop_state() {
                None => res matches Err(m) && m@ == NOT_CONFIGURED@,
                Some(e) => {
                    &&& res matches Ok(s)
                    &&& s.total == e.records@.len()
                    &&& s.labeled == capture::labeled_count(e.records@)
                    &&& s.unlabeled == e.records@.len() - capture::labeled_count(e.records@)
                    &&& forall|t: int|
                        0 <= t < 4 ==> #[trigger] s.per_tier@[t] == capture::labeled_as(
                            e.records@,
                            t,
                        )
                    &&& s.limit == e.config.capture_limit
                    &&& s.min_labeled_for_evolve == e.config.min_labeled_for_evolve
                },
            },
    {
        match &self.evolution {
            None => Err(NOT_CONFIGURED.to_owned()),
            Some(e) => Ok(e.capture_stats()),
        }
    }

    /// Lists samples, newest first.
    pub fn capture_list(&self, offset: usize, limit: usize) -> (res: Result<
        Vec<CaptureItem>,
        String,
    >)
        ensures
            match self.loop_state() {
                None => res matches Err(m) && m@ == NOT_CONFIGURED@,
                Some(e) => {
                    &&& res matches Ok(out)
                    &&& out@.len() == capture::listed(
                        e.records@.len() as int,
                        offset as int,
                        limit as int,
                    )
                    &&& forall|i: int|
                        0 <= i < out@.len() ==> capture::shows(
                            #[trigger] out@[i],
                            e.records@,
                            capture::listing_place(e.records@.len() as int, offset as int, i),
                        )
                },
            },
    {
        match &self.evolution {
            None => Err(NOT_CONFIGURED.to_owned()),
            Some(e) => Ok(e.capture_list(offset, limit)),
        }
    }

    /// Labels a sample, or clears its label.
    pub fn capture_label(&mut self, idx: usize, label: Option<u8>) -> (res: Result<(), String>)
        requires
            old(self).wf(),
        ensures
            final(self).wf(),
            final(self).same_but_loop(*old(self)),
            match old(self).loop_state() {
                None => {
                    &&& res matches Err(m) && m@ == NOT_CONFIGURED@
                    &&& final(self).loop_state() is None
                },
                Some(e) => {
                    &&& final(self).loop_state() matches Some(after)
                    &&& labelled(e, after, idx, label, res)
                },
            },
    {
        match self.evolution.take() {
            None => Err(NOT_CONFIGURED.to_owned()),
            Some(evolution) => {
                let mut evolution = evolution;
                let res = evolution.capture_label(idx, label);
                self.evolution = Some(evolution);
                res
            },
        }
    }

    /// Claims the right to evolve where enough samples were labelled since the
    /// last time; returns how many are labelled then.
    pub fn auto_evolve(&mut self) -> (res: Option<usize>)
        requires
            old(self).wf(),
        ensures
            final(self).wf(),
            final(self).same_but_loop(*old(self)),
            match old(self).loop_state() {
                None => res is None && final(self).loop_state() is None,
                Some(e) => {
                    &&& final(self).loop_state() matches Some(after)
                    &&& capture::starts_by_itself(e, after, res)
                },
            },
    {
        match self.evolution.take() {
            None => None,
            Some(evolution) => {
                let mut evolution = evolution;
                let res = evolution.maybe_auto_evolve();
                self.evolution = Some(evolution);
                res
            },
        }
    }

    /// Claims the right to evolve; says whether it was free.
    pub fn begin_evolve(&mut self) -> (res: Result<bool, String>)
        requires
            old(self).wf(),
        ensures
            final(self).wf(),
            final(self).same_but_loop(*old(self)),
            match old(self).loop_state() {
                None => {
                    &&& res matches Err(m) && m@ == NOT_CONFIGURED@
                    &&& final(self).loop_state() is None
                },
                Some(e) => {
                    &&& res == Ok::<bool, String>(!e.running)
                    &&& final(self).loop_state() == Some((Evolution { running: true, ..e }))
                },
            },
    {
        match self.evolution.take() {
            None => Err(NOT_CONFIGURED.to_owned()),
            Some(evolution) => {
                let mut evolution = evolution;
                let free = evolution.begin();
                self.evolution = Some(evolution);
                Ok(free)
            },
        }
    }

    /// Gives the right to evolve back.
    pub fn finish_evolve(&mut self)
        requires
            old(self).wf(),
        ensures
            final(self).wf(),
            final(self).same_but_loop(*old(self)),
            match old(self).loop_state() {
                None => final(self).loop_state() is None,
                Some(e) => final(self).loop_state() == Some((Evolution { running: false, ..e })),
            },
    {
        match self.evolution.take() {
            None => {},
            Some(evolution) => {
                let mut evolution = evolution;
                evolution.finish();
                self.evolution = Some(evolution);
            },
        }
    }

    /// Attaches the model of a tier to the generation pool, with the vocabulary
    /// and the size that the pool has from now on. Models that were loaded are
    /// dropped.
    pub fn attach_generation(
        &mut self,
        tier: RouteClass,
        vocab_path: &str,
        model_path: &str,
        max_loaded: usize,
    ) -> (res: Result<(), String>)
        requires
            old(self).wf(),
        ensures
            final(self).wf(),
            final(self).parameters() == old(self).parameters(),
            final(self).routing() == old(self).routing(),
            final(self).loop_state() == old(self).loop_state(),
            final(self).head_file() == old(self).head_file(),
            vocab_path@.len() == 0 || model_path@.len() == 0 ==> {
                &&& res matches Err(m)
                &&& m@ == "attach_generation: vocab_path and model_path are required"@
                &&& *final(self) == *old(self)
            },
            vocab_path@.len() > 0 && model_path@.len() > 0 ==> {
                &&& res is Ok
                &&& final(self).pool() matches Some(p)
                &&& p.vocabulary() == vocab_path@
                &&& p.loaded().len() == 0
                &&& p.most() == if max_loaded == 0 {
                    1
                } else {
                    max_loaded as int
                }
                &&& p.timeout() == 300
                &&& final(self).model_file(tier) matches Some(f) && f@ == model_path@
                &&& forall|t: RouteClass|
                    t != tier ==> #[trigger] final(self).model_file(t) == old(self).model_file(t)
            },
    {
        if vocab_path.unicode_len() == 0 || model_path.unicode_len() == 0 {
            return Err("attach_generation: vocab_path and model_path are required".to_owned());
        }
        let mut paths = match self.generate.take() {
            Some(p) => p.into_models(),
            None => TierModelPaths::default(),
        };
        paths.set(tier, model_path.to_owned());
        let built = RwkvGenerateEngine::new(
            GenerateEngineConfig {
                vocab_path: vocab_path.to_owned(),
                tier_models: paths,
                max_loaded,
                timeout_secs: 300,
            },
        );
        match built {
            Ok(p) => {
                self.generate = Some(p);
                Ok(())
            },
            Err(e) => Err(e),
        }
    }

    /// What has to be done before a tier's model can be used.
    pub fn plan_generation(&mut self, tier: RouteClass) -> (res: Result<LoadPlan, String>)
        requires
            old(self).wf(),
        ensures
            final(self).wf(),
            final(self).parameters() == old(self).parameters(),
            final(self).routing() == old(self).routing(),
            final(self).loop_state() == old(self).loop_state(),
            final(self).head_file() == old(self).head_file(),
            match old(self).pool() {
                None => {
                    &&& res matches Err(m) && m@ == NOT_ATTACHED@
                    &&& final(self).pool() is None
                },
                Some(p) => {
                    &&& final(self).pool() matches Some(after)
                    &&& after.same_setup(p)
                    &&& if pool::place_of(p.loaded(), tier) >= 0 {
                        &&& res matches Ok(LoadPlan::Ready)
                        &&& after.loaded() == pool::refreshed(p.loaded(), tier)
                    } else {
                        &&& after.loaded() == p.loaded()
                        &&& match p.models().file(tier) {
                            Some(path) => res matches Ok(LoadPlan::Load(f)) && f@ == path@,
                            None => res matches Err(m) && m@ == tier.name()
                                + " has no local generation model configured"@,
                        }
                    }
                },
            },
    {
        match self.generate.take() {
            None => Err(NOT_ATTACHED.to_owned()),
            Some(p) => {
                let mut p = p;
                let res = p.ensure_loaded(tier);
                self.generate = Some(p);
                res
            },
        }
    }

    /// Books the model of a tier as loaded; returns the tiers whose models have
    /// to go for it.
    pub fn book_generation(&mut self, tier: RouteClass) -> (gone: Vec<RouteClass>)
        requires
            old(self).wf(),
        ensures
            final(self).wf(),
            final(self).parameters() == old(self).parameters(),
            final(self).routing() == old(self).routing(),
            final(self).loop_state() == old(self).loop_state(),
            final(self).head_file() == old(self).head_file(),
            match old(self).pool() {
                None => gone@.len() == 0 && final(self).pool() is None,
                Some(p) => if pool::place_of(p.loaded(), tier) >= 0 {
                    gone@.len() == 0 && final(self).pool() == Some(p)
                } else {
                    &&& final(self).pool() matches Some(after)
                    &&& after.same_setup(p)
                    &&& pool::makes_room(p.loaded(), tier, p.most(), gone@, after.loaded())
                },
            },
    {
        match self.generate.take() {
            None => Vec::new(),
            Some(p) => {
                let mut p = p;
                if p.is_loaded(tier) {
                    self.generate = Some(p);
                    return Vec::new();
                }
                let gone = p.book_loaded(tier);
                self.generate = Some(p);
                gone
            },
        }
    }

    /// The generation pool, where one is attached.
    pub fn generation(&self) -> (res: Option<&RwkvGenerateEngine>)
        ensures
            match res {
                Some(p) => self.pool() == Some(*p),
                None => self.pool() is None,
            },
    {
        self.generate.as_ref()
    }
}

/// A classifier reads what evolution deploys: where both are attached and the
/// configured head file is not pinned, the file that is deployed to is the one
/// that the classifier reads its head from.
pub proof fn deployment_reaches_the_classifier<E: ClassifyEngine>(session: RouterSession<E>)
    requires
        session.wf(),
        session.loop_state() matches Some(e) && !e.pinned,
        session.head_file() is Some,
    ensures
        session.deploys_to() == session.head_file(),
        session.routing().engine() is Some,
{
}

/// Whether labelling a sample had this effect.
pub open spec fn labelled(
    before: Evolution,
    after: Evolution,
    idx: usize,
    label: Option<u8>,
    res: Result<(), String>,
) -> bool {
    if label matches Some(l) && l > 3 {
        &&& res matches Err(m)
        &&& m@ == "invalid tier label "@ + crate::text::decimal(label->0 as nat) + " (0-3)"@
        &&& after == before
    } else if idx >= before.records@.len() {
        &&& res matches Err(m)
        &&& m@ == capture::range_error(idx as nat)
        &&& after == before
    } else {
        &&& res is Ok
        &&& after == (Evolution { records: after.records, ..before })
        &&& after.records@ == before.records@.update(
            idx as int,
            (CaptureRecord { label, ..before.records@[idx as int] }),
        )
    }
}

/// Clearing a label undoes labelling: a sample that was not labelled is as it
/// was, and so is every other one.
pub proof fn clearing_undoes_labelling(
    before: Evolution,
    between: Evolution,
    after: Evolution,
    idx: usize,
    label: u8,
)
    requires
        label <= 3,
        idx < before.records@.len(),
        before.records@[idx as int].label is None,
        labelled(before, between, idx, Some(label), Ok(())),
        labelled(between, after, idx, None, Ok(())),
    ensures
        after.records@ == before.records@,
        between.records@[idx as int].label == Some(label),
{
    assert(after.records@ =~= before.records@);
}

/// What was captured of a request becomes the newest sample, unlabelled, under
/// the time it was taken at; there are never more samples than the limit, or
/// than the one.
pub proof fn captures_become_samples(
    before: Evolution,
    after: Option<Evolution>,
    ts: u64,
    c: RouteCapture,
    outcome: Captured,
)
    requires
        kept(Some(before), after, ts, Some(c), outcome),
    ensures
        after matches Some(a) && a.config == before.config && a.running == before.running
            && a.last_auto_mark == before.last_auto_mark && a.pinned == before.pinned,
        before.config.capture_limit >= 2 ==> (outcome != Captured::Ignored <==> text::trimmed(
            c.input@,
        ).len() > 0 && c.hidden@.len() > 0),
        outcome == Captured::Ignored ==> after == Some(before),
        before.config.capture_limit >= 2 && outcome != Captured::Ignored ==> {
            let new = after->0.records@.last();
            &&& 0 < after->0.records@.len() <= before.config.capture_limit
            &&& new.ts == ts
            &&& new.probs == c.probs
            &&& new.prev_tier == c.prev_tier
            &&& new.num_embd == c.num_embd
            &&& new.label is None
            &&& new.hidden_hex@ == capture::hidden_text(c.hidden@)
            &&& c.input@.len() <= 2000 ==> new.text@ == c.input@
        },
        outcome == Captured::Appended ==> after->0.records@.drop_last() == before.records@,
{
    let a = after->0;
    if capture::capturable(c.input@, c.hidden@, c.probs@) {
        let rec = choose|rec: CaptureRecord| #[trigger]
            capture::records(rec, ts, c.input@, c.hidden@, c.prev_tier, c.probs@, c.num_embd)
                && a.records@ == capture::bounded(
                before.records@.push(rec),
                before.config.capture_limit as nat,
            );
        assert(rec.probs@ == c.probs@);
        assert(rec.probs =~= c.probs);
        if outcome == Captured::Appended {
            assert(a.records@.drop_last() =~= before.records@);
        }
        let all = before.records@.push(rec);
        assert(all.last() == rec);
        if before.config.capture_limit >= 2 {
            assert(a.records@.last() == rec);
        }
    }
}

/// Labelling touches the label of one sample, and nothing else.
pub proof fn labels_touch_one_sample(
    before: Evolution,
    after: Evolution,
    idx: usize,
    label: Option<u8>,
    res: Result<(), String>,
    i: int,
)
    requires
        labelled(before, after, idx, label, res),
        0 <= i < before.records@.len(),
    ensures
        res is Ok <==> idx < before.records@.len() && (label matches Some(l) ==> l <= 3),
        after.records@.len() == before.records@.len(),
        after.records@[i] == (CaptureRecord { label: after.records@[i].label, ..before.records@[i] }),
        after.records@[i].label == if res is Ok && i == idx {
            label
        } else {
            before.records@[i].label
        },
        after.config == before.config,
{
}

/// Without a classifier, and where the configured head file is pinned,
/// evolution deploys to the configured file.
pub proof fn deployment_goes_where_configured<E: ClassifyEngine>(session: RouterSession<E>)
    ensures
        session.loop_state() is None ==> session.deploys_to() is None,
        session.loop_state() matches Some(e) ==> (e.pinned || session.head_file() is None
            ==> session.deploys_to() == Some(e.config.head_path@)),
{
}

} // verus!
