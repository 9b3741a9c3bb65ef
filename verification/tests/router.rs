use rwkv_router::router::STICKY_TABLE_LIMIT;
use rwkv_router::{
    fallback_decision, ClassifyEngine, DecisionSource, RouteClass, RouterConfig, RoutingDecision,
    Single, SmartRouter,
};

fn s(x: f32) -> Single {
    Single::from_bits(x.to_bits())
}

fn f(x: Single) -> f32 {
    f32::from_bits(x.bits)
}

fn config() -> RouterConfig {
    RouterConfig::default()
}

/// An engine with one answer for everything.
struct MockEngine {
    ready: bool,
    answer: Result<(Vec<Single>, Vec<Single>), String>,
}

impl MockEngine {
    fn new(probs: [f32; 4]) -> Self {
        MockEngine {
            ready: true,
            answer: Ok((probs.map(s).to_vec(), vec![s(0.0); 4])),
        }
    }
}

impl ClassifyEngine for MockEngine {
    fn classify(
        &self,
        _input: &str,
        _prev_tier: Option<u8>,
        _capture: bool,
    ) -> Result<(Vec<Single>, Vec<Single>), String> {
        self.answer.clone()
    }

    fn num_embd(&self) -> usize {
        4
    }

    fn is_initialized(&self) -> bool {
        self.ready
    }
}

type Router = SmartRouter<MockEngine>;

#[test]
fn trivial_ack_routes_to_r0_without_engine() {
    let mut router = Router::new();
    let decision = router.route("s1", "thanks", None, 0, &config());
    assert_eq!(decision.route, RouteClass::R0);
    assert_eq!(decision.source, DecisionSource::TrivialAck);
}

#[test]
fn non_trivial_falls_back_when_engine_unavailable() {
    let mut router = Router::new();
    let decision = router.route("s1", "help me debug this traceback: ...", None, 0, &config());
    assert_eq!(decision.source, DecisionSource::Fallback);
}

#[test]
fn unready_engine_falls_back() {
    let mut router = Router::with_engine(MockEngine {
        ready: false,
        answer: Err("not ready".to_string()),
    });
    let decision = router.route("s1", "help me debug this", None, 0, &config());
    assert_eq!(decision.source, DecisionSource::Fallback);
}

#[test]
fn failing_engine_falls_back() {
    let mut router = Router::with_engine(MockEngine {
        ready: true,
        answer: Err("boom".to_string()),
    });
    assert_eq!(
        router.route("s1", "help me debug this", None, 0, &config()).source,
        DecisionSource::Fallback
    );
    assert_eq!(
        router.classify("help me", None, None, true).unwrap_err(),
        "boom"
    );
    router.set_engine(MockEngine {
        ready: true,
        answer: Ok((vec![s(0.5), s(0.5)], vec![])),
    });
    assert_eq!(
        router.classify("help me", None, None, true).unwrap_err(),
        "classify returned 2 probabilities, expected 4"
    );
    assert_eq!(router.previous_tier("s1"), None);
}

#[test]
fn model_decision_uses_mock_engine_and_remembers_tier() {
    let mut router = Router::with_engine(MockEngine::new([0.02, 0.03, 0.05, 0.9]));
    let decision = router.route("s1", "help me debug this traceback", None, 0, &config());
    assert_eq!(decision.route, RouteClass::R3);
    assert_eq!(decision.source, DecisionSource::Model);
    assert_eq!(router.previous_tier("s1"), Some(RouteClass::R3));
}

#[test]
fn sticky_lifts_short_followup() {
    let mut router = Router::with_engine(MockEngine::new([0.02, 0.03, 0.05, 0.9]));
    router.route("s1", "help me debug this traceback", None, 0, &config());
    router.set_engine(MockEngine::new([0.7, 0.2, 0.05, 0.05]));
    let decision = router.route("s1", "继续", None, 1, &config());
    assert_eq!(decision.route, RouteClass::R3);
    assert!(decision.sticky_applied);
}

#[test]
fn trivial_ack_does_not_pollute_sticky_table() {
    let mut router = Router::new();
    router.route("s1", "ok", None, 0, &config());
    assert_eq!(router.previous_tier("s1"), None);
}

#[test]
fn fallback_does_not_pollute_sticky_table() {
    let mut router = Router::new();
    let d1 = router.route("s1", "help me debug this", None, 0, &config());
    assert_eq!(d1.source, DecisionSource::Fallback);
    let d2 = router.route("s1", "another request", None, 1, &config());
    assert_eq!(d2.source, DecisionSource::Fallback);
    assert_eq!(router.previous_tier("s1"), None);
}

#[test]
fn trivial_ack_keeps_existing_sticky_tier() {
    let mut router = Router::with_engine(MockEngine::new([0.02, 0.03, 0.05, 0.9]));
    router.route("s3", "help me debug this traceback", None, 0, &config());
    let decision = router.route("s3", "ok", None, 1, &config());
    assert_eq!(decision.route, RouteClass::R0);
    assert_eq!(decision.source, DecisionSource::TrivialAck);
    assert_eq!(router.previous_tier("s3"), Some(RouteClass::R3));
}

#[test]
fn sticky_tables_are_session_isolated() {
    let mut router = Router::new();
    router.route("s2", "ok", None, 0, &config());
    assert_eq!(router.previous_tier("s2"), None);
    assert_eq!(router.previous_tier("other"), None);
    router.remember_tier("s2", RouteClass::R2);
    assert_eq!(router.previous_tier("s2"), Some(RouteClass::R2));
    assert_eq!(router.previous_tier("other"), None);
}

#[test]
fn preview_neither_reads_nor_writes_sticky() {
    let mut router = Router::with_engine(MockEngine::new([0.02, 0.03, 0.05, 0.9]));
    router.route("s1", "help me debug this traceback", None, 0, &config());
    router.set_engine(MockEngine::new([0.1, 0.6, 0.2, 0.1]));
    let preview = router.route_preview("继续", None, &config());
    assert_eq!(preview.route, RouteClass::R1);
    assert!(!preview.sticky_applied);
    assert_eq!(router.previous_tier("s1"), Some(RouteClass::R3));
}

#[test]
fn set_engine_hot_swap_takes_effect() {
    let mut router = Router::new();
    assert_eq!(
        router.route("s1", "help me debug this", None, 0, &config()).source,
        DecisionSource::Fallback
    );
    router.set_engine(MockEngine::new([0.02, 0.03, 0.05, 0.9]));
    let decision = router.route("s1", "help me debug this", None, 1, &config());
    assert_eq!(decision.source, DecisionSource::Model);
    assert_eq!(decision.route, RouteClass::R3);
}

#[test]
fn classify_input_formats() {
    assert_eq!(Router::build_classify_input("fix this bug", None), "fix this bug");
    assert_eq!(Router::build_classify_input("fix this bug", Some("   ")), "fix this bug");
    assert_eq!(
        Router::build_classify_input("改成中文", Some("Translating docs to English")),
        "Summary: Translating docs to English\nRequest: 改成中文"
    );
}

#[test]
fn sticky_table_evicts_oldest_not_all() {
    let mut router = Router::new();
    for i in 0..STICKY_TABLE_LIMIT {
        router.remember_tier(&format!("s{i}"), RouteClass::R1);
    }
    router.remember_tier("s_new", RouteClass::R2);
    assert_eq!(router.previous_tier("s0"), None);
    assert_eq!(router.previous_tier("s1"), Some(RouteClass::R1));
    assert_eq!(router.previous_tier("s1023"), Some(RouteClass::R1));
    assert_eq!(router.previous_tier("s_new"), Some(RouteClass::R2));
}

#[test]
fn sticky_table_refreshes_recency_on_update() {
    let mut router = Router::new();
    for i in 0..STICKY_TABLE_LIMIT {
        router.remember_tier(&format!("s{i}"), RouteClass::R1);
    }
    router.remember_tier("s0", RouteClass::R3);
    router.remember_tier("s_extra", RouteClass::R2);
    assert_eq!(router.previous_tier("s0"), Some(RouteClass::R3));
    assert_eq!(router.previous_tier("s1"), None);
    assert_eq!(router.previous_tier("s_extra"), Some(RouteClass::R2));
}

#[test]
fn resolve_model_ref_uses_tier_mapping() {
    let decision = RoutingDecision {
        route: RouteClass::R3,
        confidence: s(0.9),
        probabilities: [0.0, 0.05, 0.05, 0.9].map(s),
        margin: s(0.85),
        sticky_applied: false,
        safety_applied: false,
        source: DecisionSource::Model,
    };
    let cfg = config();
    assert_eq!(Router::resolve_model_ref(&decision, &cfg), "primary");

    let fb = fallback_decision();
    assert_eq!(Router::resolve_model_ref(&fb, &cfg), "primary");
}

#[test]
fn capture_holds_what_the_classifier_saw() {
    let mut router = Router::with_engine(MockEngine::new([0.02, 0.03, 0.05, 0.9]));
    let (d, capture) =
        router.route_with_capture("s1", "help me debug this", Some("a summary"), 0, &config());
    assert_eq!(d.route, RouteClass::R3);
    let c = capture.unwrap();
    assert_eq!(c.input, "Summary: a summary\nRequest: help me debug this");
    assert_eq!(c.probs.map(f), [0.02, 0.03, 0.05, 0.9]);
    assert_eq!(c.hidden.len(), 4);
    assert_eq!(c.prev_tier, None);
    assert_eq!(c.num_embd, 4);
    let (_, again) = router.route_with_capture("s1", "and another thing", None, 1, &config());
    assert_eq!(again.unwrap().prev_tier, Some(3));
    let (_, none) = router.route_with_capture("s1", "ok", None, 2, &config());
    assert!(none.is_none());
}

#[test]
fn default_config_values() {
    let cfg = RouterConfig::default();
    assert!(!cfg.enabled);
    assert_eq!(f(cfg.safety_threshold), 0.45);
    assert!(cfg.sticky_enabled);
    assert_eq!(cfg.timeout_ms, 3000);
    assert_eq!(cfg.fallback, "primary");
    assert_eq!(cfg.tier_models.model_for(&RouteClass::R0), "rwkv-local");
    assert_eq!(cfg.tier_models.model_for(&RouteClass::R3), "primary");
}
