use rwkv_router::builtin::classify::{bounded_tokens, check_head};
use rwkv_router::builtin::generate::{cut_before_last, Generation};
use rwkv_router::builtin::pool::LoadPlan;
use rwkv_router::builtin::sampling::{sample_token, Settings};
use rwkv_router::head::{HeadJson, RouterHead};
use rwkv_router::{
    ClassifyEngineConfig, GenParams, GenerateEngineConfig, RouteClass, RwkvGenerateEngine, Single,
    TierModelPaths,
};

fn s(x: f32) -> Single {
    Single::from_bits(x.to_bits())
}

fn f(x: Single) -> f32 {
    f32::from_bits(x.bits)
}

fn v(xs: &[f32]) -> Vec<Single> {
    xs.iter().map(|x| s(*x)).collect()
}

fn exp(x: Single) -> Single {
    s(f(x).exp())
}

fn powf(a: Single, b: Single) -> Single {
    s(f(a).powf(f(b)))
}

fn settings(temperature: f32, top_p: f32, top_k: usize, presence: f32) -> Settings {
    Settings {
        temperature: s(temperature),
        top_p: s(top_p),
        top_k,
        presence_penalty: s(presence),
        frequency_penalty: s(0.0),
        penalty_decay: s(0.99),
    }
}

fn sample(logits: &[f32], ids: &[u32], settings: &Settings, draw: f32) -> u32 {
    sample_token(&v(logits), ids, settings, s(draw), &powf, &exp)
}

#[test]
fn gen_params_defaults() {
    let p = GenParams::default();
    assert_eq!(p.max_tokens, 512);
    assert_eq!(p.top_k, 128);
    assert!(p.stop_on_eos);
    assert!((f(p.penalty_decay) - 0.99654026).abs() < 1e-8);
    assert_eq!(f(p.temperature), 1.0);
    assert_eq!(f(p.top_p), 0.9);
}

#[test]
fn tier_paths_lookup() {
    let paths = TierModelPaths { r1: Some("m1.st".to_string()), ..Default::default() };
    assert_eq!(paths.path_for(RouteClass::R1), Some("m1.st"));
    assert_eq!(paths.path_for(RouteClass::R0), None);
    assert_eq!(paths.path_for(RouteClass::R3), None);
}

#[test]
fn generate_engine_requires_vocab() {
    let err = RwkvGenerateEngine::new(GenerateEngineConfig::default()).unwrap_err();
    assert!(err.contains("vocab_path"), "unexpected error: {err}");
}

#[test]
fn generate_without_tier_model_errors_without_gpu() {
    let mut engine = RwkvGenerateEngine::new(GenerateEngineConfig {
        vocab_path: "unused.json".to_string(),
        ..Default::default()
    })
    .unwrap();
    let err = engine.ensure_loaded(RouteClass::R2).unwrap_err();
    assert!(err.contains("no local generation model"), "unexpected error: {err}");
    assert!(!engine.is_loaded(RouteClass::R2));
}

#[test]
fn greedy_sampling_picks_argmax() {
    let id = sample(&[0.1, 5.0, 0.2, 0.3], &[], &settings(0.0, 0.9, 128, 0.0), 0.5);
    assert_eq!(id, 1);
    let id = sample(&[0.1, 5.0, 0.2, 0.3], &[], &settings(-1.0, 1.0, 128, 0.0), 0.999);
    assert_eq!(id, 1);
}

#[test]
fn penalties_can_flip_greedy_choice() {
    let logits = [0.1, 5.0, 0.2, 0.3];
    let plain = sample(&logits, &[], &settings(0.0, 1.0, 128, 0.0), 0.5);
    let penalized = sample(&logits, &[1], &settings(0.0, 1.0, 128, 50.0), 0.5);
    assert_eq!(plain, 1);
    assert_ne!(penalized, 1);
}

#[test]
fn top_k_zero_means_128() {
    let logits = [0.1, 5.0, 0.2, 0.3];
    for i in 0..20 {
        let id = sample(&logits, &[], &settings(1.0, 1.0, 1, 0.0), i as f32 / 20.0);
        assert_eq!(id, 1);
    }
    let p = GenParams { top_k: 0, ..GenParams::default() };
    assert_eq!(p.sampling().top_k, 128);
}

#[test]
fn nucleus_cut_keeps_top_mass() {
    let logits = [10.0, 2.0, 1.0, 0.0];
    for i in 0..20 {
        let id = sample(&logits, &[], &settings(1.0, 0.5, 128, 0.0), i as f32 / 20.0);
        assert_eq!(id, 0);
    }
}

#[test]
fn draws_select_by_mass() {
    let logits = [0.0, 0.0, 0.0, 0.0];
    let mut seen: Vec<u32> = (0..4)
        .map(|i| sample(&logits, &[], &settings(1.0, 1.0, 128, 0.0), 0.125 + i as f32 * 0.25))
        .collect();
    seen.sort();
    assert_eq!(seen, [0, 1, 2, 3]);
}

#[test]
fn classify_config_defaults() {
    let cfg = ClassifyEngineConfig::default();
    assert_eq!(cfg.timeout_ms, 5000);
    assert!(cfg.model_path.is_empty());
}

#[test]
fn constructor_validates_required_paths() {
    let err = ClassifyEngineConfig::default().validate().unwrap_err();
    assert!(err.contains("required"), "unexpected error: {err}");

    let cfg = ClassifyEngineConfig {
        model_path: "missing.st".to_string(),
        vocab_path: "missing_vocab.json".to_string(),
        ..Default::default()
    };
    assert!(cfg.validate().is_ok());
    assert_eq!(cfg.call_timeout_ms(), 5000);
    assert_eq!(cfg.load_timeout(), 120);
}

fn pool_of(max_loaded: usize) -> RwkvGenerateEngine {
    RwkvGenerateEngine::new(GenerateEngineConfig {
        vocab_path: "vocab.json".to_string(),
        tier_models: TierModelPaths {
            r0: Some("m0.st".to_string()),
            r1: Some("m1.st".to_string()),
            r2: Some("m2.st".to_string()),
            r3: None,
        },
        max_loaded,
        timeout_secs: 0,
    })
    .unwrap()
}

#[test]
fn the_least_recently_used_model_goes() {
    let mut pool = pool_of(2);
    assert!(matches!(pool.ensure_loaded(RouteClass::R0), Ok(LoadPlan::Load(p)) if p == "m0.st"));
    assert!(pool.book_loaded(RouteClass::R0).is_empty());
    assert!(pool.book_loaded(RouteClass::R1).is_empty());
    assert!(matches!(pool.ensure_loaded(RouteClass::R0), Ok(LoadPlan::Ready)));
    assert_eq!(pool.book_loaded(RouteClass::R2), vec![RouteClass::R1]);
    assert!(pool.is_loaded(RouteClass::R0));
    assert!(!pool.is_loaded(RouteClass::R1));
    assert!(pool.is_loaded(RouteClass::R2));
    assert!(pool.unload(RouteClass::R0));
    assert!(!pool.unload(RouteClass::R0));
    assert_eq!(pool.timeout_secs(), 1);
    assert_eq!(pool.load_timeout_secs(), 10);
    assert_eq!(pool.vocab_path(), "vocab.json");
}

#[test]
fn a_pool_of_none_holds_one() {
    let mut pool = pool_of(0);
    assert!(pool.book_loaded(RouteClass::R0).is_empty());
    assert_eq!(pool.book_loaded(RouteClass::R1), vec![RouteClass::R0]);
}

#[test]
fn text_is_cut_at_the_last_stop() {
    assert_eq!(cut_before_last("a\nUser: b\nUser:", "\nUser:"), "a\nUser: b");
    assert_eq!(cut_before_last("nothing here", "\nUser:"), "nothing here");
    assert_eq!(cut_before_last("继续|继续", "|"), "继续");
}

#[test]
fn tokens_are_bounded_from_the_front() {
    let tokens: Vec<u32> = (0..300).collect();
    let kept = bounded_tokens(tokens).unwrap();
    assert_eq!(kept.len(), 256);
    assert!(bounded_tokens(Vec::new()).is_err());
}

#[test]
fn a_head_must_fit_the_model() {
    let head = RouterHead::from_parts(HeadJson {
        version: 1,
        input_dim: 1,
        hidden_dim: 1,
        base_dim: None,
        mean: v(&[0.0]),
        std: v(&[1.0]),
        w1: v(&[1.0]),
        b1: v(&[0.0]),
        ln_g: v(&[1.0]),
        ln_b: v(&[0.0]),
        w2: v(&[1.0, 0.0, 0.0, 0.0]),
        b2: v(&[0.0; 4]),
    })
    .unwrap();
    assert!(check_head(&head, 1).is_ok());
    assert!(check_head(&head, 768).unwrap_err().contains("head/model mismatch"));
}

#[test]
fn generation_stops_at_a_stop_text() {
    let params = GenParams {
        stop: vec!["\nUser:".to_string()],
        ..GenParams::default()
    };
    let mut g = Generation::start();
    assert!(g.is_open(&params));
    assert!(g.accept(5, "Hello", &params));
    assert!(g.accept(6, "\nUs", &params));
    assert!(!g.accept(7, "er:", &params));
    assert!(!g.is_open(&params));
    let out = g.finish(3, "Hello\nUser:");
    assert_eq!(out.text, "Hello");
    assert_eq!(out.input_tokens, 3);
    assert_eq!(out.output_tokens, 3);
    assert_eq!(out.stop_hit.as_deref(), Some("\nUser:"));
    assert!(!out.stopped_by_eos);
}

#[test]
fn generation_stops_at_the_end_of_text_and_at_the_budget() {
    let params = GenParams { max_tokens: 0, ..GenParams::default() };
    let mut g = Generation::start();
    assert!(!g.accept(0, "", &params));
    assert!(!g.is_open(&params));
    let out = g.finish(1, "");
    assert!(out.stopped_by_eos);
    assert_eq!(out.output_tokens, 1);
    let mut g = Generation::start();
    assert!(g.accept(9, "x", &params));
    assert!(!g.is_open(&params));
}
