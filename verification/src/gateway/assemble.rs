//! Putting a session together from the configuration.

use crate::config::RouterConfig;
use crate::engine::ClassifyEngine;
use crate::evolution::capture::{CaptureRecord, EvolutionConfig};
use crate::gateway::config::{EvolutionSection, SidecarConfig, TiersConfig, UpstreamConfig};
use crate::router;
use crate::session::RouterSession;
use crate::tier::RouteClass;
use vstd::prelude::*;
use vstd::string::*;

verus! {

/// Newly labelled samples after which a gateway evolves by itself, where its
/// configuration does not say.
pub const GATEWAY_AUTO_EVOLVE_STEP: usize = 50;

/// The model and the vocabulary of a tier that is served locally.
pub open spec fn local_files(tiers: TiersConfig, tier: RouteClass) -> Option<
    (Seq<char>, Seq<char>),
> {
    match tiers.upstream(tier) {
        Some(UpstreamConfig::BuiltinRwkv { model, tokenizer }) => Some((model@, tokenizer@)),
        _ => None,
    }
}

/// What is said of a local tier that lacks a file.
pub open spec fn attach_fault(tiers: TiersConfig, tier: RouteClass) -> Option<Seq<char>> {
    match local_files(tiers, tier) {
        Some((model, tokenizer)) => if model.len() == 0 || tokenizer.len() == 0 {
            Some(
                "failed to attach generation for "@ + tier.name() + ": "@
                    + "attach_generation: vocab_path and model_path are required"@,
            )
        } else {
            None
        },
        None => None,
    }
}

/// What is said of the first local tier that lacks a file.
pub open spec fn pool_fault(tiers: TiersConfig) -> Option<Seq<char>> {
    if attach_fault(tiers, RouteClass::R0) is Some {
        attach_fault(tiers, RouteClass::R0)
    } else if attach_fault(tiers, RouteClass::R1) is Some {
        attach_fault(tiers, RouteClass::R1)
    } else if attach_fault(tiers, RouteClass::R2) is Some {
        attach_fault(tiers, RouteClass::R2)
    } else {
        attach_fault(tiers, RouteClass::R3)
    }
}

/// The vocabulary of the local tiers: that of the highest of them.
pub open spec fn shared_vocabulary(tiers: TiersConfig) -> Option<Seq<char>> {
    if let Some((_, v)) = local_files(tiers, RouteClass::R3) {
        Some(v)
    } else if let Some((_, v)) = local_files(tiers, RouteClass::R2) {
        Some(v)
    } else if let Some((_, v)) = local_files(tiers, RouteClass::R1) {
        Some(v)
    } else if let Some((_, v)) = local_files(tiers, RouteClass::R0) {
        Some(v)
    } else {
        None
    }
}

/// Whether a session serves a tier locally as the configuration says.
pub open spec fn serves<E: ClassifyEngine>(
    session: RouterSession<E>,
    tiers: TiersConfig,
    tier: RouteClass,
) -> bool {
    match local_files(tiers, tier) {
        Some((model, _)) => session.model_file(tier) matches Some(f) && f@ == model,
        None => session.model_file(tier) is None,
    }
}

/// Whether everything but the generation pool is as in another session.
pub open spec fn same_but_pool<E: ClassifyEngine>(
    a: RouterSession<E>,
    b: RouterSession<E>,
) -> bool {
    &&& a.parameters() == b.parameters()
    &&& a.routing() == b.routing()
    &&& a.loop_state() == b.loop_state()
    &&& a.head_file() == b.head_file()
}

/// Whether a session has a pool of a size and with a vocabulary.
pub open spec fn pooled<E: ClassifyEngine>(
    session: RouterSession<E>,
    vocabulary: Option<Seq<char>>,
    max_loaded: usize,
) -> bool {
    match vocabulary {
        None => session.pool() is None,
        Some(v) => {
            &&& session.pool() matches Some(p)
            &&& p.vocabulary() == v
            &&& p.loaded().len() == 0
            &&& p.most() == if max_loaded == 0 {
                1
            } else {
                max_loaded as int
            }
            &&& p.timeout() == 300
        },
    }
}

/// Attaches the model of a tier, where it is served locally.
fn attach_tier<E: ClassifyEngine>(
    session: &mut RouterSession<E>,
    config: &SidecarConfig,
    tier: RouteClass,
    Ghost(vocabulary): Ghost<Option<Seq<char>>>,
) -> (res: Result<(), String>)
    requires
        old(session).wf(),
        pooled(*old(session), vocabulary, config.router.generation.max_loaded_models),
    ensures
        final(session).wf(),
        same_but_pool(*final(session), *old(session)),
        match attach_fault(config.tiers, tier) {
            Some(m) => res matches Err(e) && e@ == m,
            None => {
                &&& res is Ok
                &&& pooled(
                    *final(session),
                    match local_files(config.tiers, tier) {
                        Some((_, v)) => Some(v),
                        None => vocabulary,
                    },
                    config.router.generation.max_loaded_models,
                )
                &&& match local_files(config.tiers, tier) {
                    Some((model, _)) => final(session).model_file(tier) matches Some(f) && f@
                        == model,
                    None => final(session).model_file(tier) == old(session).model_file(tier),
                }
            },
        },
        forall|t: RouteClass|
            res is Ok && t != tier ==> #[trigger] final(session).model_file(t) == old(
                session,
            ).model_file(t),
{
    match config.tiers.entry(tier) {
        Some(UpstreamConfig::BuiltinRwkv { model, tokenizer }) => {
            match session.attach_generation(
                tier,
                tokenizer.as_str(),
                model.as_str(),
                config.router.generation.max_loaded_models,
            ) {
                Ok(()) => Ok(()),
                Err(e) => {
                    let mut m = "failed to attach generation for ".to_owned();
                    m.append(tier.as_str());
                    m.append(": ");
                    m.append(e.as_str());
                    Err(m)
                },
            }
        },
        _ => Ok(()),
    }
}

/// The number that is given, or another.
pub open spec fn given_or(given: Option<usize>, other: usize) -> usize {
    match given {
        Some(v) => v,
        None => other,
    }
}

/// The head file that evolution deploys to: the one that is given, else that
/// of the classifier, else none.
pub open spec fn deploy_target(config: SidecarConfig, section: EvolutionSection) -> Seq<char> {
    match (section.head_path, config.router.classifier) {
        (Some(p), _) => p@,
        (None, Some(c)) => c.head@,
        (None, None) => Seq::empty(),
    }
}

/// Whether the evolution loop is configured as a section says.
pub open spec fn evolves_by(
    ec: EvolutionConfig,
    config: SidecarConfig,
    section: EvolutionSection,
) -> bool {
    &&& ec.data_dir@ == section.data_dir@
    &&& match section.packs_dir {
        Some(p) => ec.packs_dir matches Some(q) && q@ == p@,
        None => ec.packs_dir is None,
    }
    &&& ec.head_path@ == deploy_target(config, section)
    &&& ec.capture_limit == given_or(section.capture_limit, 2000)
    &&& ec.min_labeled_for_evolve == given_or(section.min_labeled_for_evolve, 20)
    &&& ec.auto_evolve_step == given_or(section.auto_evolve_step, GATEWAY_AUTO_EVOLVE_STEP)
}

/// The configuration of the evolution loop, where there is one.
pub fn evolution_config(config: &SidecarConfig) -> (res: Option<EvolutionConfig>)
    ensures
        match config.evolution {
            Some(section) => res matches Some(ec) && evolves_by(ec, *config, section),
            None => res is None,
        },
{
    let section = match &config.evolution {
        Some(s) => s,
        None => {
            return None;
        },
    };
    let head_path = match &section.head_path {
        Some(p) => p.as_str().to_owned(),
        None => match &config.router.classifier {
            Some(c) => c.head.as_str().to_owned(),
            None => String::new(),
        },
    };
    let mut ec = EvolutionConfig::default();
    ec.data_dir = section.data_dir.as_str().to_owned();
    ec.head_path = head_path;
    ec.packs_dir = match &section.packs_dir {
        Some(p) => Some(p.as_str().to_owned()),
        None => None,
    };
    if let Some(v) = section.capture_limit {
        ec.capture_limit = v;
    }
    if let Some(v) = section.min_labeled_for_evolve {
        ec.min_labeled_for_evolve = v;
    }
    ec.auto_evolve_step = match section.auto_evolve_step {
        Some(v) => v,
        None => GATEWAY_AUTO_EVOLVE_STEP,
    };
    Some(ec)
}

/// Whether a session is put together as the configuration says, with the
/// classifier that could be built and the samples that were stored.
pub open spec fn assembled<E: ClassifyEngine>(
    session: RouterSession<E>,
    config: SidecarConfig,
    built: Option<Result<E, String>>,
    records: Seq<CaptureRecord>,
    mark: usize,
) -> bool {
    &&& session.parameters().is_default()
    &&& session.routing().table() == router::Rows::empty()
    &&& match (config.router.classifier, built) {
        (Some(c), Some(Ok(engine))) => session.routing().engine() == Some(engine)
            && session.head_file() == Some(c.head@),
        _ => session.routing().engine() is None && session.head_file() is None,
    }
    &&& pooled(
        session,
        shared_vocabulary(config.tiers),
        config.router.generation.max_loaded_models,
    )
    &&& forall|t: RouteClass| #[trigger] serves(session, config.tiers, t)
    &&& match config.evolution {
        Some(section) => {
            &&& session.loop_state() matches Some(e)
            &&& evolves_by(e.config, config, section)
            &&& e.records@ == records
            &&& e.last_auto_mark == mark
            &&& !e.running
            &&& session.deploys_to() == Some(deploy_target(config, section))
        },
        None => session.loop_state() is None,
    }
}

/// Puts a session together. A classifier that could not be built leaves it to
/// decide by rules alone; a local tier without its files is an error.
pub fn build_session<E: ClassifyEngine>(
    config: &SidecarConfig,
    built: Option<Result<E, String>>,
    records: Vec<CaptureRecord>,
    mark: usize,
) -> (res: Result<RouterSession<E>, String>)
    ensures
        match pool_fault(config.tiers) {
            Some(m) => res matches Err(e) && e@ == m,
            None => {
                &&& res matches Ok(session)
                &&& session.wf()
                &&& assembled(session, *config, built, records@, mark)
            },
        },
{
    let mut session = RouterSession::new(RouterConfig::default());
    if let Some(c) = &config.router.classifier {
        if let Some(engine) = built {
            let _ = session.load_classifier(c.head.as_str(), engine);
        }
    }
    let ghost none: Option<Seq<char>> = None;
    if let Err(e) = attach_tier(&mut session, config, RouteClass::R0, Ghost(none)) {
        return Err(e);
    }
    let ghost v0 = match local_files(config.tiers, RouteClass::R0) {
        Some((_, v)) => Some(v),
        None => none,
    };
    if let Err(e) = attach_tier(&mut session, config, RouteClass::R1, Ghost(v0)) {
        return Err(e);
    }
    let ghost v1 = match local_files(config.tiers, RouteClass::R1) {
        Some((_, v)) => Some(v),
        None => v0,
    };
    if let Err(e) = attach_tier(&mut session, config, RouteClass::R2, Ghost(v1)) {
        return Err(e);
    }
    let ghost v2 = match local_files(config.tiers, RouteClass::R2) {
        Some((_, v)) => Some(v),
        None => v1,
    };
    if let Err(e) = attach_tier(&mut session, config, RouteClass::R3, Ghost(v2)) {
        return Err(e);
    }
    let ghost ready = session;
    if let Some(ec) = evolution_config(config) {
        if let Err(e) = session.configure_evolution(ec, records, mark) {
            let mut m = "failed to configure evolution: ".to_owned();
            m.append(e.as_str());
            return Err(m);
        }
        if let Some(section) = &config.evolution {
            if section.head_path.is_some() {
                session.pin_deployment();
            }
        }
    }
    proof {
        assert forall|t: RouteClass| #[trigger] serves(session, config.tiers, t) by {
            assert(session.model_file(t) == ready.model_file(t));
            match t {
                RouteClass::R0 => {},
                RouteClass::R1 => {},
                RouteClass::R2 => {},
                RouteClass::R3 => {},
            }
        }
    }
    Ok(session)
}

/// A configuration that passed the check can be put together.
pub proof fn valid_configurations_assemble(config: SidecarConfig)
    requires
        config.fault() is None,
    ensures
        pool_fault(config.tiers) is None,
{
}

/// A head file that is given for evolution is deployed to, else the one of the
/// classifier; what is given of the evolution loop is kept.
pub proof fn evolution_is_set_up_as_given(
    ec: EvolutionConfig,
    config: SidecarConfig,
    section: EvolutionSection,
)
    requires
        evolves_by(ec, config, section),
    ensures
        section.head_path matches Some(p) ==> ec.head_path@ == p@,
        section.head_path is None ==> (config.router.classifier matches Some(c) ==> ec.head_path@
            == c.head@),
        ec.data_dir@ == section.data_dir@,
        section.packs_dir matches Some(p) ==> (ec.packs_dir matches Some(q) && q@ == p@),
        section.capture_limit matches Some(n) ==> ec.capture_limit == n,
        section.min_labeled_for_evolve matches Some(n) ==> ec.min_labeled_for_evolve == n,
        section.auto_evolve_step matches Some(n) ==> ec.auto_evolve_step == n,
        section.capture_limit is None ==> ec.capture_limit == 2000,
        section.min_labeled_for_evolve is None ==> ec.min_labeled_for_evolve == 20,
        section.auto_evolve_step is None ==> ec.auto_evolve_step == 50,
{
}

/// An assembled gateway generates itself for the tiers that have a local model,
/// each from its own file, and for no other.
pub proof fn local_tiers_are_served<E: ClassifyEngine>(
    session: RouterSession<E>,
    config: SidecarConfig,
    built: Option<Result<E, String>>,
    records: Seq<CaptureRecord>,
    mark: usize,
    tier: RouteClass,
)
    requires
        assembled(session, config, built, records, mark),
    ensures
        config.tiers.upstream(tier) matches Some(UpstreamConfig::BuiltinRwkv { model, tokenizer })
            ==> {
            &&& session.model_file(tier) matches Some(f) && f@ == model@
            &&& session.pool() matches Some(p) && p.loaded().len() == 0 && p.most() >= 1
        },
        !(config.tiers.upstream(tier) matches Some(UpstreamConfig::BuiltinRwkv { .. }))
            ==> session.model_file(tier) is None,
        config.evolution is Some <==> session.loop_state() is Some,
        built matches Some(Ok(engine)) && config.router.classifier is Some
            ==> session.routing().engine() == Some(built->0->Ok_0),
        config.router.classifier is None ==> session.routing().engine() is None,
{
    assert(serves(session, config.tiers, tier));
}

} // verus!
