use rwkv_router::bindings::{
    label_from_code, label_from_tier, parse_evolution_config, parse_tier, strip_zeros,
    tier_from_str, EvolutionOptions, GenOptions,
};
use rwkv_router::{RouteClass, Single};

#[test]
fn tiers_are_named_by_every_binding() {
    assert_eq!(tier_from_str("R2"), Ok(RouteClass::R2));
    assert_eq!(tier_from_str("x").unwrap_err(), "invalid tier 'x' (expected R0-R3)");
    assert_eq!(parse_tier("R0"), Ok(RouteClass::R0));
    assert_eq!(
        parse_tier("x").unwrap_err(),
        "invalid tier 'x' (expected \"R0\"..\"R3\")"
    );
    assert_eq!(label_from_tier(None), Ok(None));
    assert_eq!(label_from_tier(Some("R3")), Ok(Some(3)));
    assert!(label_from_tier(Some("clear")).is_err());
    assert_eq!(label_from_code(-1), None);
    assert_eq!(label_from_code(3), Some(3));
    assert_eq!(label_from_code(4), Some(4));
    assert_eq!(label_from_code(256), Some(255));
    assert_eq!(label_from_code(258), Some(255));
    assert_eq!(label_from_code(i32::MAX), Some(255));
}

#[test]
fn evolution_is_configured_from_json() {
    let ec = parse_evolution_config(Some("{\"data_dir\":\"ffi-test-evolution\"}")).unwrap();
    assert_eq!(ec.data_dir, "ffi-test-evolution");
    assert_eq!(ec.head_path, "router_head.json");
    assert_eq!(ec.packs_dir, None);
    assert_eq!(ec.capture_limit, 2000);
    let ec = parse_evolution_config(Some(
        "{\"packs_dir\":\"p\",\"capture_limit\":3,\"min_labeled_for_evolve\":4,\"auto_evolve_step\":5}",
    ))
    .unwrap();
    assert_eq!(ec.packs_dir.as_deref(), Some("p"));
    assert_eq!((ec.capture_limit, ec.min_labeled_for_evolve, ec.auto_evolve_step), (3, 4, 5));
    assert_eq!(parse_evolution_config(None).unwrap().data_dir, "router_evolution");
    let fault = serde_json::from_str::<serde_json::Value>("not json").unwrap_err();
    assert_eq!(
        parse_evolution_config(Some("not json")).unwrap_err(),
        format!("invalid EvolutionConfig JSON: {fault}")
    );
}

#[test]
fn options_override_the_defaults() {
    let ec = EvolutionOptions {
        data_dir: "d".to_string(),
        head_path: None,
        packs_dir: Some("p".to_string()),
        capture_limit: Some(1),
        min_labeled_for_evolve: None,
        auto_evolve_step: None,
    }
    .into_config();
    assert_eq!(ec.head_path, "");
    assert_eq!((ec.capture_limit, ec.min_labeled_for_evolve, ec.auto_evolve_step), (1, 20, 200));
    let p = GenOptions {
        max_tokens: Some(3),
        temperature: Some(Single::from_bits(0.5f32.to_bits())),
        top_p: None,
        top_k: None,
        presence_penalty: None,
        frequency_penalty: None,
        stop: Some(vec!["x".to_string()]),
    }
    .into_params();
    assert_eq!(p.max_tokens, 3);
    assert_eq!(f32::from_bits(p.temperature.bits), 0.5);
    assert_eq!(f32::from_bits(p.top_p.bits), 0.9);
    assert_eq!(p.stop, ["x"]);
}

#[test]
fn zeros_become_blanks() {
    assert_eq!(strip_zeros("a\0b\0"), "a b ");
}
