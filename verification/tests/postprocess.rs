use rwkv_router::postprocess::{argmax, postprocess, sum_of};
use rwkv_router::{
    fallback_decision, softmax, trivial_ack_decision, DecisionSource, RouteClass, RouterConfig,
    Single,
};

fn s(x: f32) -> Single {
    Single::from_bits(x.to_bits())
}

fn f(x: Single) -> f32 {
    f32::from_bits(x.bits)
}

fn probs(p: [f32; 4]) -> [Single; 4] {
    p.map(s)
}

fn exp(x: Single) -> Single {
    s(f(x).exp())
}

fn config() -> RouterConfig {
    RouterConfig::default()
}

fn total(p: &[Single; 4]) -> f32 {
    p.iter().map(|x| f(*x)).sum::<f32>()
}

#[test]
fn argmax_wins_when_clear() {
    let d = postprocess(&probs([0.05, 0.85, 0.08, 0.02]), None, false, &config());
    assert_eq!(d.route, RouteClass::R1);
    assert!((f(d.confidence) - 0.85).abs() < 1e-6);
    assert!(!d.safety_applied);
    assert!(!d.sticky_applied);
    assert!((total(&d.probabilities) - 1.0).abs() < 1e-6);
}

#[test]
fn safety_upgrades_r1_with_heavy_tail() {
    let d = postprocess(&probs([0.05, 0.48, 0.32, 0.15]), None, false, &config());
    assert_eq!(d.route, RouteClass::R2);
    assert!(d.safety_applied);
    assert!((f(d.confidence) - 0.47).abs() < 1e-6);
}

#[test]
fn safety_not_applied_below_threshold() {
    let d = postprocess(&probs([0.05, 0.65, 0.20, 0.10]), None, false, &config());
    assert_eq!(d.route, RouteClass::R1);
    assert!(!d.safety_applied);
}

#[test]
fn safety_not_applied_when_r2_or_r3() {
    let d = postprocess(&probs([0.05, 0.10, 0.15, 0.70]), None, false, &config());
    assert_eq!(d.route, RouteClass::R3);
    assert!(!d.safety_applied);
}

#[test]
fn sticky_keeps_previous_tier_for_short_messages() {
    let d = postprocess(&probs([0.10, 0.60, 0.20, 0.10]), Some(RouteClass::R2), true, &config());
    assert_eq!(d.route, RouteClass::R2);
    assert!(d.sticky_applied);
}

#[test]
fn sticky_ignored_for_long_messages() {
    let d = postprocess(&probs([0.10, 0.60, 0.20, 0.10]), Some(RouteClass::R2), false, &config());
    assert_eq!(d.route, RouteClass::R1);
    assert!(!d.sticky_applied);
}

#[test]
fn sticky_disabled_by_config() {
    let mut cfg = config();
    cfg.sticky_enabled = false;
    let d = postprocess(&probs([0.10, 0.60, 0.20, 0.10]), Some(RouteClass::R2), true, &cfg);
    assert_eq!(d.route, RouteClass::R1);
}

#[test]
fn sticky_never_downgrades_below_model_tier() {
    let d = postprocess(&probs([0.05, 0.10, 0.15, 0.70]), Some(RouteClass::R1), true, &config());
    assert_eq!(d.route, RouteClass::R3);
    assert!(!d.sticky_applied);
}

#[test]
fn trivial_and_fallback_decisions() {
    let t = trivial_ack_decision();
    assert_eq!(t.route, RouteClass::R0);
    assert_eq!(t.source, DecisionSource::TrivialAck);
    assert!((f(t.confidence) - 1.0).abs() < 1e-6);

    let d = fallback_decision();
    assert_eq!(d.source, DecisionSource::Fallback);
    assert_eq!(d.route, RouteClass::R1);
}

#[test]
fn softmax_normalizes() {
    let p = softmax(&probs([1.0, 2.0, 3.0, 4.0]), &exp);
    assert!((total(&p) - 1.0).abs() < 1e-5);
    assert!(f(p[3]) > f(p[0]));
    let p2 = softmax(&probs([1000.0, 1001.0, 1002.0, 1003.0]), &exp);
    assert!((total(&p2) - 1.0).abs() < 1e-5);
    let p3 = softmax(
        &probs([f32::NAN, f32::NEG_INFINITY, f32::NAN, f32::NEG_INFINITY]),
        &exp,
    );
    assert!((f(p3[0]) - 0.25).abs() < 1e-6);
}

#[test]
fn softmax_of_few_logits_pads_with_zero() {
    let p = softmax(&[s(2.0), s(2.0)], &exp);
    assert_eq!(p.map(f), [0.5, 0.5, 0.0, 0.0]);
    assert_eq!(softmax(&[], &exp).map(f), [0.25; 4]);
}

#[test]
fn margin_is_the_gap_of_the_two_largest() {
    let d = postprocess(&probs([0.125, 0.5, 0.25, 0.125]), None, false, &config());
    assert_eq!(f(d.margin), 0.25);
    assert_eq!(f(d.confidence), 0.5);
    assert_eq!(argmax(&probs([0.125, 0.5, 0.25, 0.125])), 1);
    assert_eq!(f(sum_of(&[s(0.5), s(0.25), s(0.125)])), 0.875);
}

#[test]
fn rules_only_lift_the_tier() {
    for prev in [None, Some(RouteClass::R0), Some(RouteClass::R2), Some(RouteClass::R3)] {
        for short in [false, true] {
            for p in [[0.7, 0.1, 0.1, 0.1], [0.1, 0.4, 0.3, 0.2], [0.1, 0.2, 0.3, 0.4]] {
                let d = postprocess(&probs(p), prev, short, &config());
                assert!(d.route.index() >= argmax(&probs(p)));
                if let (true, Some(t)) = (short, prev) {
                    assert!(d.route >= t);
                }
            }
        }
    }
}

#[test]
fn softmax_hands_out_probabilities() {
    let inf = f32::INFINITY;
    for logits in [
        [0.0, 0.0, 0.0, 0.0],
        [-3.5, 0.25, 88.0, 87.9],
        [f32::MAX, -f32::MAX, 1.0, -1.0],
        [-inf, -inf, 0.0, -1e-30],
        [-inf; 4],
        [inf, 1.0, 2.0, 3.0],
        [f32::NAN, 1.0, 2.0, 3.0],
    ] {
        let p = softmax(&probs(logits), &exp);
        assert!(p.iter().all(|x| (0.0..=1.0).contains(&f(*x))), "{logits:?}");
        let sum: f64 = p.iter().map(|x| f(*x) as f64).sum();
        assert!((sum - 1.0).abs() <= 2f64.powi(-21), "{logits:?}");
    }
}

#[test]
fn softmax_keeps_the_order_of_the_logits() {
    for logits in [
        [3.0, -1.0, 3.0, 2.5],
        [f32::MAX, -f32::MAX, 1.0, -1.0],
        [-f32::INFINITY, 0.0, -1e-30, 1e-30],
        [f32::INFINITY, 1.0, 2.0, 3.0],
    ] {
        let p = softmax(&probs(logits), &exp);
        for i in 0..4 {
            for j in 0..4 {
                assert!(!(logits[i] <= logits[j]) || f(p[i]) <= f(p[j]), "{logits:?} {i} {j}");
            }
        }
    }
}
