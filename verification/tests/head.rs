use rwkv_router::head::{HeadJson, RouterHead};
use rwkv_router::Single;
use serde_json::Value;

fn s(x: f32) -> Single {
    Single::from_bits(x.to_bits())
}

fn f(x: Single) -> f32 {
    f32::from_bits(x.bits)
}

fn tanh(x: Single) -> Single {
    s(f(x).tanh())
}

fn exp(x: Single) -> Single {
    s(f(x).exp())
}

fn numbers(v: &Value, key: &str) -> Option<Vec<Single>> {
    Some(v.get(key)?.as_array()?.iter().map(|x| s(x.as_f64().unwrap() as f32)).collect())
}

/// A head from the text of its weight file; none where a field is missing.
fn head_of(text: &str) -> Option<Result<RouterHead, String>> {
    let v: Value = serde_json::from_str(text).ok()?;
    Some(RouterHead::from_parts(HeadJson {
        version: v.get("version")?.as_u64()? as u32,
        input_dim: v.get("input_dim")?.as_u64()? as usize,
        hidden_dim: v.get("hidden_dim")?.as_u64()? as usize,
        base_dim: v.get("base_dim").and_then(|b| b.as_u64()).map(|b| b as usize),
        mean: numbers(&v, "mean")?,
        std: numbers(&v, "std")?,
        w1: numbers(&v, "w1")?,
        b1: numbers(&v, "b1")?,
        ln_g: numbers(&v, "ln_g")?,
        ln_b: numbers(&v, "ln_b")?,
        w2: numbers(&v, "w2")?,
        b2: numbers(&v, "b2")?,
    }))
}

fn parsed(text: &str) -> RouterHead {
    head_of(text).unwrap().unwrap()
}

fn forward(head: &RouterHead, hidden: &[f32], prev: Option<u8>) -> Result<[f32; 4], String> {
    let hidden: Vec<Single> = hidden.iter().map(|x| s(*x)).collect();
    head.forward(&hidden, prev, &tanh, &exp).map(|p| p.map(f))
}

fn toy_head() -> RouterHead {
    parsed(
        r#"{
        "version": 1, "input_dim": 2, "hidden_dim": 2,
        "mean": [0.0, 0.0], "std": [1.0, 1.0],
        "w1": [1.0, 0.0, 0.0, 1.0], "b1": [0.0, 0.0],
        "ln_g": [1.0, 1.0], "ln_b": [0.0, 0.0],
        "w2": [1.0, 0.0, 0.0, 1.0, 1.0, 1.0, 0.0, 0.0],
        "b2": [0.0, 0.0, 0.0, 0.0]
    }"#,
    )
}

#[test]
fn forward_matches_hand_computation() {
    let probs = forward(&toy_head(), &[1.0, 1.0], None).unwrap();
    for p in probs {
        assert!((p - 0.25).abs() < 1e-6, "{probs:?}");
    }
}

#[test]
fn forward_distinguishes_directions() {
    let head = toy_head();
    let probs0 = forward(&head, &[3.0, 0.0], None).unwrap();
    let probs1 = forward(&head, &[0.0, 3.0], None).unwrap();
    let argmax = |p: &[f32; 4]| {
        p.iter()
            .enumerate()
            .max_by(|(_, a), (_, b)| a.partial_cmp(b).unwrap())
            .map(|(i, _)| i)
            .unwrap()
    };
    assert_eq!(argmax(&probs0), 0, "{probs0:?}");
    assert_eq!(argmax(&probs1), 1, "{probs1:?}");
    assert!(probs0[0] > 0.5, "{probs0:?}");
    assert!(probs1[1] > 0.5, "{probs1:?}");
}

#[test]
fn standardization_is_applied() {
    let head = parsed(
        r#"{
        "version": 1, "input_dim": 1, "hidden_dim": 1,
        "mean": [2.0], "std": [0.5],
        "w1": [1.0], "b1": [0.0],
        "ln_g": [1.0], "ln_b": [0.0],
        "w2": [1.0, 0.0, 0.0, 0.0],
        "b2": [0.0, 0.0, 0.0, 0.0]
    }"#,
    );
    let probs = forward(&head, &[3.0], None).unwrap();
    assert!((probs[0] - 0.25).abs() < 1e-6, "{probs:?}");
    let x = head.input_layer(&[s(3.0)], None).unwrap();
    assert_eq!(x.into_iter().map(f).collect::<Vec<_>>(), [2.0]);
}

#[test]
fn rejects_dim_mismatch_and_bad_fields() {
    let head = toy_head();
    assert!(forward(&head, &[1.0], None).is_err());
    assert!(forward(&head, &[1.0, 2.0, 3.0], None).is_err());

    let bad = r#"{
        "version": 1, "input_dim": 2, "hidden_dim": 2,
        "mean": [0.0, 0.0], "std": [1.0, 1.0],
        "w1": [1.0, 0.0], "b1": [0.0, 0.0],
        "ln_g": [1.0, 1.0], "ln_b": [0.0, 0.0],
        "w2": [1.0, 0.0, 0.0, 1.0, 1.0, 1.0, 0.0, 0.0],
        "b2": [0.0, 0.0, 0.0, 1.0]
    }"#;
    assert!(head_of(bad).unwrap().is_err());
    assert!(head_of("{}").is_none());
}

#[test]
fn input_dim_reported() {
    assert_eq!(toy_head().input_dim(), 2);
    assert_eq!(toy_head().expected_hidden_dim(), 2);
}

fn toy_head_v4() -> RouterHead {
    parsed(
        r#"{
        "version": 1, "input_dim": 6, "hidden_dim": 1, "base_dim": 1,
        "mean": [0.0, 0.0, 0.0, 0.0, 0.0, 0.0],
        "std": [1.0, 1.0, 1.0, 1.0, 1.0, 1.0],
        "w1": [1.0, 2.0, 2.0, 2.0, 2.0, 2.0], "b1": [0.0],
        "ln_g": [1.0], "ln_b": [0.0],
        "w2": [1.0, 0.0, 0.0, 0.0],
        "b2": [0.0, 0.0, 0.0, 0.0]
    }"#,
    )
}

#[test]
fn v4_contract_parses_and_validates_dims() {
    let head = toy_head_v4();
    assert_eq!(head.input_dim(), 6);
    assert_eq!(head.expected_hidden_dim(), 1);
    assert!(forward(&head, &[1.0], None).is_ok());
    assert!(forward(&head, &[1.0, 2.0], None).is_err());
    assert!(forward(&head, &[1.0; 6], None).is_err());

    let bad = r#"{
        "version": 1, "input_dim": 5, "hidden_dim": 1, "base_dim": 1,
        "mean": [0.0, 0.0, 0.0, 0.0, 0.0],
        "std": [1.0, 1.0, 1.0, 1.0, 1.0],
        "w1": [1.0, 2.0, 2.0, 2.0, 2.0], "b1": [0.0],
        "ln_g": [1.0], "ln_b": [0.0],
        "w2": [1.0, 0.0, 0.0, 0.0],
        "b2": [0.0, 0.0, 0.0, 0.0]
    }"#;
    assert_eq!(
        head_of(bad).unwrap().unwrap_err(),
        "router head input_dim 5 != base_dim 1 + 5 (prev-tier one-hot)"
    );
}

#[test]
fn v4_prev_tier_changes_output() {
    let head = parsed(
        r#"{
        "version": 1, "input_dim": 7, "hidden_dim": 2, "base_dim": 2,
        "mean": [0.0, 0.0, 0.0, 0.0, 0.0, 0.0, 0.0],
        "std": [1.0, 1.0, 1.0, 1.0, 1.0, 1.0, 1.0],
        "w1": [1.0, 0.0, 0.0, 0.0, 0.0, 0.0, 0.0,
               0.0, 0.0, 3.0, 0.0, 0.0, 0.0, 0.0], "b1": [0.0, 0.0],
        "ln_g": [1.0, 1.0], "ln_b": [0.0, 0.0],
        "w2": [1.0, 0.0, 0.0, 0.0,
               0.0, 1.0, 0.0, 0.0],
        "b2": [0.0, 0.0, 0.0, 0.0]
    }"#,
    );
    let a = forward(&head, &[1.0, 0.0], Some(0)).unwrap();
    let b = forward(&head, &[1.0, 0.0], Some(1)).unwrap();
    assert_ne!(a[0], b[0], "the previous tier must change the probabilities");
    assert_ne!(a[1], b[1], "{a:?} vs {b:?}");
    let c = forward(&head, &[1.0, 0.0], Some(9)).unwrap();
    let d = forward(&head, &[1.0, 0.0], None).unwrap();
    assert_eq!(c, d);
}

#[test]
fn v1_head_ignores_prev_tier() {
    let head = toy_head();
    let a = forward(&head, &[3.0, 0.0], None).unwrap();
    let b = forward(&head, &[3.0, 0.0], Some(3)).unwrap();
    assert_eq!(a, b);
}

#[test]
fn unsupported_version_is_refused() {
    let text = r#"{
        "version": 2, "input_dim": 1, "hidden_dim": 1,
        "mean": [0.0], "std": [1.0], "w1": [1.0], "b1": [0.0],
        "ln_g": [1.0], "ln_b": [0.0],
        "w2": [1.0, 0.0, 0.0, 0.0], "b2": [0.0, 0.0, 0.0, 0.0]
    }"#;
    assert_eq!(
        head_of(text).unwrap().unwrap_err(),
        "unsupported router head version: 2"
    );
}

#[test]
fn retraining_replaces_weights_only() {
    let head = toy_head_v4();
    let mut w = head.trainable();
    w.b1[0] = s(0.5);
    let other = head.with_trainable(w).unwrap();
    assert_eq!(other.input_dim(), head.input_dim());
    assert_eq!(other.mean_iter(), head.mean_iter());
    assert_eq!(other.std_iter(), head.std_iter());
    assert_eq!(f(other.trainable().b1[0]), 0.5);
    let mut short = head.trainable();
    short.w2.pop();
    assert!(head.with_trainable(short).is_err());
}
