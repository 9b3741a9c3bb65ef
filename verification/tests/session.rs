use rwkv_router::evolution::capture::Captured;
use rwkv_router::session::classifier_config;
use rwkv_router::builtin::pool::LoadPlan;
use rwkv_router::{
    ClassifyEngine, DecisionSource, EvolutionConfig, RouteClass, RouterConfig, RouterSession,
    Single,
};

fn s(x: f32) -> Single {
    Single::from_bits(x.to_bits())
}

struct Fixed([f32; 4]);

impl ClassifyEngine for Fixed {
    fn classify(
        &self,
        _input: &str,
        _prev_tier: Option<u8>,
        _capture: bool,
    ) -> Result<(Vec<Single>, Vec<Single>), String> {
        Ok((self.0.map(s).to_vec(), vec![s(0.5), s(-0.25)]))
    }

    fn num_embd(&self) -> usize {
        2
    }

    fn is_initialized(&self) -> bool {
        true
    }

    fn reload(&self) -> Result<(), String> {
        Err("reloaded".to_string())
    }
}

fn session() -> RouterSession<Fixed> {
    RouterSession::new(RouterConfig::default())
}

#[test]
fn route_without_engine_falls_back() {
    let mut session = session();
    let (d, _) = session.route(0, "s1", "help me debug this traceback", None, 0);
    assert_eq!(d.source, DecisionSource::Fallback);
}

#[test]
fn trivial_ack_routes_r0_without_evolution() {
    let mut session = session();
    let (d, _) = session.route(0, "s1", "ok", None, 0);
    assert_eq!(d.route, RouteClass::R0);
    assert!(session.evolution().is_none());
}

#[test]
fn capture_and_evolution_surfaces_error_when_unconfigured() {
    let mut session = session();
    assert!(session.capture_stats().is_err());
    assert!(session.begin_evolve().is_err());
    assert!(session.capture_label(0, Some(1)).is_err());
    assert!(session.capture_list(0, 10).is_err());
    assert_eq!(session.capture_stats().unwrap_err(), "evolution not configured");
}

#[test]
fn generation_requires_attach() {
    let mut session = session();
    let err = session.plan_generation(RouteClass::R1).unwrap_err();
    assert!(err.contains("attach_generation"), "unexpected: {err}");
}

#[test]
fn attach_generation_validates_paths() {
    let mut session = session();
    let err = session.attach_generation(RouteClass::R1, "", "model.st", 1).unwrap_err();
    assert!(err.contains("required"), "unexpected: {err}");
}

#[test]
fn tiers_attach_one_after_the_other() {
    let mut session = session();
    session.attach_generation(RouteClass::R0, "v.json", "m0.st", 1).unwrap();
    session.attach_generation(RouteClass::R2, "v.json", "m2.st", 1).unwrap();
    assert!(matches!(session.plan_generation(RouteClass::R0), Ok(LoadPlan::Load(p)) if p == "m0.st"));
    assert!(session.book_generation(RouteClass::R0).is_empty());
    assert!(matches!(session.plan_generation(RouteClass::R0), Ok(LoadPlan::Ready)));
    assert_eq!(session.book_generation(RouteClass::R2), vec![RouteClass::R0]);
    assert_eq!(
        session.plan_generation(RouteClass::R3).unwrap_err(),
        "R3 has no local generation model configured"
    );
    session.attach_generation(RouteClass::R3, "w.json", "m3.st", 2).unwrap();
    assert_eq!(session.generation().unwrap().vocab_path(), "w.json");
    assert!(matches!(session.plan_generation(RouteClass::R2), Ok(LoadPlan::Load(_))));
}

#[test]
fn routed_requests_are_captured_and_labelled() {
    let mut session = session();
    assert!(session.reload_classifier_head().unwrap_err().contains("no classifier"));
    session.load_classifier("head.json", Ok(Fixed([0.02, 0.03, 0.05, 0.9]))).unwrap();
    assert_eq!(session.classify_head_path(), Some("head.json"));
    assert_eq!(session.reload_classifier_head().unwrap_err(), "reloaded");
    session.configure_evolution(EvolutionConfig::default(), Vec::new(), 0).unwrap();
    assert_eq!(
        session.configure_evolution(EvolutionConfig::default(), Vec::new(), 0).unwrap_err(),
        "evolution already configured"
    );
    let (d, did) = session.route(7, "s1", "help me debug this traceback", None, 0);
    assert_eq!(d.route, RouteClass::R3);
    assert_eq!(did, Captured::Appended);
    let (d, did) = session.route(8, "s1", "ok", None, 1);
    assert_eq!(d.route, RouteClass::R0);
    assert_eq!(did, Captured::Ignored);
    assert_eq!(session.capture_stats().unwrap().total, 1);
    session.capture_label(0, Some(3)).unwrap();
    assert_eq!(session.capture_stats().unwrap().per_tier, [0, 0, 0, 1]);
    assert_eq!(session.capture_list(0, 5).unwrap()[0].ts, 7);
    assert_eq!(session.auto_evolve(), None);
    assert_eq!(session.begin_evolve(), Ok(true));
    assert_eq!(session.begin_evolve(), Ok(false));
    session.finish_evolve();
    assert_eq!(session.begin_evolve(), Ok(true));
    let p = session.route_preview("help me debug this traceback", None);
    assert_eq!(p.route, RouteClass::R3);
    assert_eq!(session.capture_stats().unwrap().total, 1);
}

#[test]
fn a_classifier_that_cannot_be_built_changes_nothing() {
    let mut session = session();
    assert_eq!(
        session.load_classifier("head.json", Err("no model".to_string())).unwrap_err(),
        "no model"
    );
    assert_eq!(session.classify_head_path(), None);
    let c = classifier_config("m.st", "v.json", "h.json", 0);
    assert_eq!(c.timeout_ms, 5000);
    assert_eq!(classifier_config("m.st", "v.json", "h.json", 70).timeout_ms, 70);
}

#[test]
fn evolution_deploys_to_the_head_of_the_classifier() {
    let mut session = session();
    assert_eq!(session.deploy_path(), None);
    let config = EvolutionConfig {
        head_path: "own.json".to_string(),
        ..EvolutionConfig::default()
    };
    session.configure_evolution(config, Vec::new(), 0).unwrap();
    assert_eq!(session.deploy_path(), Some("own.json"));
    session.load_classifier("head.json", Ok(Fixed([0.7, 0.1, 0.1, 0.1]))).unwrap();
    assert_eq!(session.deploy_path(), Some("head.json"));
    assert_eq!(session.classify_head_path(), Some("head.json"));
    session.pin_deployment();
    assert_eq!(session.deploy_path(), Some("own.json"));
}
