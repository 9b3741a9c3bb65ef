use rwkv_router::gateway::assemble::{build_session, evolution_config};
use rwkv_router::gateway::config::{
    ClassifierConfig, EvolutionSection, GenerationConfig, RouterSection, ServerSection,
    SidecarConfig, TiersConfig, UpstreamConfig, DEFAULT_CLASSIFY_TIMEOUT_MS,
};
use rwkv_router::{ClassifyEngine, DecisionSource, RouteClass, RouterSession, Single};
use serde_json::Value;

struct NoEngine;

impl ClassifyEngine for NoEngine {
    fn classify(
        &self,
        _input: &str,
        _prev_tier: Option<u8>,
        _capture: bool,
    ) -> Result<(Vec<Single>, Vec<Single>), String> {
        Err("none".to_string())
    }

    fn num_embd(&self) -> usize {
        0
    }

    fn is_initialized(&self) -> bool {
        false
    }
}

fn text(v: &Value, key: &str) -> Option<String> {
    v.get(key)?.as_str().map(String::from)
}

/// An upstream as the configuration file writes it; none where a field is
/// missing.
fn upstream(v: &Value) -> Option<UpstreamConfig> {
    Some(match v.get("upstream")?.as_str()? {
        "builtin-rwkv" => UpstreamConfig::BuiltinRwkv {
            model: text(v, "model")?,
            tokenizer: text(v, "tokenizer")?,
        },
        "openai" => UpstreamConfig::Openai {
            base_url: text(v, "base_url")?,
            model: text(v, "model")?,
            api_key_env: text(v, "api_key_env")?,
        },
        "anthropic" => UpstreamConfig::Anthropic {
            base_url: text(v, "base_url")?,
            model: text(v, "model")?,
            api_key_env: text(v, "api_key_env")?,
        },
        _ => return None,
    })
}

/// A configuration as its file writes it.
fn config(json: &str) -> Option<SidecarConfig> {
    let v: Value = serde_json::from_str(json).ok()?;
    let tier = |key: &str| match v.get("tiers").and_then(|t| t.get(key)) {
        Some(u) => upstream(u).map(Some),
        None => Some(None),
    };
    let router = v.get("router");
    Some(SidecarConfig {
        tiers: TiersConfig {
            r0: tier("R0")?,
            r1: tier("R1")?,
            r2: tier("R2")?,
            r3: tier("R3")?,
        },
        fallback: match v.get("fallback") {
            Some(u) => Some(upstream(u)?),
            None => None,
        },
        router: RouterSection {
            classifier: match router.and_then(|r| r.get("classifier")) {
                Some(c) => Some(ClassifierConfig {
                    model: text(c, "model")?,
                    vocab: text(c, "vocab")?,
                    head: text(c, "head")?,
                    timeout_ms: c
                        .get("timeout_ms")
                        .and_then(Value::as_u64)
                        .unwrap_or(DEFAULT_CLASSIFY_TIMEOUT_MS),
                }),
                None => None,
            },
            generation: match router.and_then(|r| r.get("generation")) {
                Some(g) => GenerationConfig {
                    max_loaded_models: g.get("max_loaded_models")?.as_u64()? as usize,
                    idle_release_secs: g.get("idle_release_secs")?.as_u64()?,
                },
                None => GenerationConfig::default(),
            },
        },
        server: match v.get("server") {
            Some(s) => ServerSection {
                port: s.get("port")?.as_u64()? as u16,
                ..ServerSection::default()
            },
            None => ServerSection::default(),
        },
        evolution: None,
    })
}

const PLAN: &str = r#"{
    "tiers": {
        "R0": {"upstream": "builtin-rwkv", "model": "rwkv-0.4b.st", "tokenizer": "vocab.json"},
        "R1": {"upstream": "builtin-rwkv", "model": "rwkv-0.4b.st", "tokenizer": "vocab.json"},
        "R3": {"upstream": "openai", "base_url": "https://api.deepseek.com/v1",
                "model": "deepseek-chat", "api_key_env": "DEEPSEEK_API_KEY"}
    },
    "fallback": {"upstream": "anthropic", "base_url": "https://api.anthropic.com",
                  "model": "sonnet-4-5", "api_key_env": "ANTHROPIC_API_KEY"},
    "router": {
        "classifier": {"model": "rwkv-0.1b.st", "vocab": "vocab.json", "head": "head.json"},
        "generation": {"max_loaded_models": 2, "idle_release_secs": 300}
    },
    "server": {"port": 21750}
}"#;

#[test]
fn parses_plan_example_config() {
    let config = config(PLAN).unwrap();
    config.validate().unwrap();
    assert_eq!(config.server.port, 21750);
    assert_eq!(config.tiers.r0.as_ref().unwrap().kind(), "builtin-rwkv");
    assert!(config.tiers.r2.is_none());
    assert_eq!(config.router.generation.max_loaded_models, 2);
    assert_eq!(config.router.classifier.as_ref().unwrap().timeout_ms, 500);
}

#[test]
fn defaults_fill_missing_sections() {
    let config = config("{}").unwrap();
    config.validate().unwrap();
    assert_eq!(config.server.host, "127.0.0.1");
    assert_eq!(config.server.port, 21750);
    assert_eq!(config.router.generation.max_loaded_models, 1);
    assert!(config.evolution.is_none());
    let plain = SidecarConfig::default();
    assert_eq!(plain.server.port, 21750);
    assert!(plain.tiers.entry(RouteClass::R2).is_none());
}

#[test]
fn rejects_builtin_entry_without_tokenizer() {
    let json = r#"{"tiers": {"R1": {"upstream": "builtin-rwkv", "model": "m.st"}}}"#;
    assert!(config(json).is_none());
    let json =
        r#"{"tiers": {"R1": {"upstream": "builtin-rwkv", "model": "m.st", "tokenizer": ""}}}"#;
    let config = config(json).unwrap();
    let err = config.validate().unwrap_err();
    assert!(err.contains("tokenizer"), "unexpected: {err}");
    assert_eq!(err, "R1: builtin-rwkv requires model and tokenizer");
}

#[test]
fn rejects_openai_entry_without_api_key_env() {
    let json = r#"{"tiers": {"R3": {"upstream": "openai", "base_url": "https://x/v1", "model": "m"}}}"#;
    assert!(config(json).is_none());
    let json = r#"{"tiers": {"R3": {"upstream": "openai", "base_url": "https://x/v1", "model": "m", "api_key_env": ""}}}"#;
    let config = config(json).unwrap();
    let err = config.validate().unwrap_err();
    assert!(err.contains("api_key_env"), "unexpected: {err}");
    assert_eq!(err, "R3: openai upstream requires base_url, model and api_key_env");
}

#[test]
fn the_fallback_is_checked_first() {
    let json = r#"{"fallback": {"upstream": "anthropic", "base_url": "", "model": "m", "api_key_env": "K"},
        "tiers": {"R0": {"upstream": "builtin-rwkv", "model": "", "tokenizer": ""}}}"#;
    assert_eq!(
        config(json).unwrap().validate().unwrap_err(),
        "fallback: anthropic upstream requires base_url, model and api_key_env"
    );
}

#[test]
fn a_session_is_put_together() {
    let mut c = config(PLAN).unwrap();
    c.evolution = Some(EvolutionSection {
        capture_limit: Some(9),
        ..EvolutionSection::default()
    });
    let ec = evolution_config(&c).unwrap();
    assert_eq!(ec.data_dir, "evolution-data");
    assert_eq!(ec.head_path, "head.json");
    assert_eq!(ec.capture_limit, 9);
    assert_eq!(ec.min_labeled_for_evolve, 20);
    assert_eq!(ec.auto_evolve_step, 50);
    let mut session: RouterSession<NoEngine> =
        build_session(&c, Some(Err("no model".to_string())), Vec::new(), 0).unwrap();
    assert_eq!(session.classify_head_path(), None);
    assert!(session.evolution().is_some());
    assert_eq!(session.generation().unwrap().vocab_path(), "vocab.json");
    assert!(session.plan_generation(RouteClass::R1).is_ok());
    assert!(session.plan_generation(RouteClass::R3).is_err());
    let (d, _) = session.route(0, "s", "help me debug this", None, 0);
    assert_eq!(d.source, DecisionSource::Fallback);
    c.evolution.as_mut().unwrap().head_path = Some("other.json".to_string());
    assert_eq!(evolution_config(&c).unwrap().head_path, "other.json");
}

#[test]
fn a_head_path_that_is_given_is_the_deployment_target() {
    let mut c = config(PLAN).unwrap();
    c.evolution = Some(EvolutionSection::default());
    let session = build_session(&c, Some(Ok(NoEngine)), Vec::new(), 0).unwrap();
    assert_eq!(session.deploy_path(), Some("head.json"));
    c.evolution.as_mut().unwrap().head_path = Some("other.json".to_string());
    let session = build_session(&c, Some(Ok(NoEngine)), Vec::new(), 0).unwrap();
    assert_eq!(session.classify_head_path(), Some("head.json"));
    assert_eq!(session.deploy_path(), Some("other.json"));
}

#[test]
fn a_local_tier_without_files_cannot_be_attached() {
    let json =
        r#"{"tiers": {"R1": {"upstream": "builtin-rwkv", "model": "m.st", "tokenizer": ""}}}"#;
    let built: Result<RouterSession<NoEngine>, String> =
        build_session(&config(json).unwrap(), None, Vec::new(), 0);
    assert_eq!(
        built.err().unwrap(),
        "failed to attach generation for R1: attach_generation: vocab_path and model_path are required"
    );
}
