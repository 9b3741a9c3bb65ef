use rwkv_router::adam::Adam;
use rwkv_router::head::{HeadJson, RouterHead, TrainableWeights};
use rwkv_router::mlp::{accumulate, forward_sample};
use rwkv_router::training::{accuracy, batches, build_inputs, check_samples, split, Rng};
use rwkv_router::{finetune_head, FinetuneOptions, FinetuneReport, Single, TrainingSample};

fn s(x: f32) -> Single {
    Single::from_bits(x.to_bits())
}

fn f(x: Single) -> f32 {
    f32::from_bits(x.bits)
}

fn tanh(x: Single) -> Single {
    s(f(x).tanh())
}

fn exp(x: Single) -> Single {
    s(f(x).exp())
}

fn ln(x: Single) -> Single {
    s(f(x).ln())
}

fn powers(b: Single, n: u64) -> Single {
    s(f(b).powi(n as i32))
}

fn v(xs: &[f32]) -> Vec<Single> {
    xs.iter().map(|x| s(*x)).collect()
}

fn tune(
    base: &RouterHead,
    samples: &[TrainingSample],
    opts: &FinetuneOptions,
) -> Result<(RouterHead, FinetuneReport), String> {
    finetune_head(base, samples, None, opts, &tanh, &exp, &ln, &powers)
}

fn small_head(seed_pattern: f32) -> RouterHead {
    let p = seed_pattern;
    RouterHead::from_parts(HeadJson {
        version: 1,
        input_dim: 4,
        hidden_dim: 6,
        base_dim: None,
        mean: v(&[0.0; 4]),
        std: v(&[1.0; 4]),
        w1: v(&[
            0.1, -0.2, 0.3, 0.0, 0.2, 0.1, -0.1, 0.4, -0.3, 0.2, 0.1, 0.0, 0.05, -0.15, 0.25, 0.35,
            -0.25, 0.15, 0.1, -0.05, 0.2, 0.3, -0.2, 0.1,
        ]),
        b1: v(&[0.0, 0.01, -0.01, 0.02, 0.0, -0.02]),
        ln_g: v(&[1.0; 6]),
        ln_b: v(&[0.0; 6]),
        w2: v(&[
            p, 0.1, -0.1, 0.0, 0.2, -0.2, 0.1, p, 0.1, -0.1, 0.0, 0.2, -0.1, 0.1, p, 0.1, -0.1, 0.0,
            0.0, -0.1, 0.1, p, 0.1, -0.1,
        ]),
        b2: v(&[0.0; 4]),
    })
    .unwrap()
}

fn synthetic_samples(n_per_class: usize) -> Vec<TrainingSample> {
    let mut samples = Vec::new();
    for class in 0u8..4 {
        for k in 0..n_per_class {
            let x = class as f32 + 0.5 + (k as f32 % 3.0 - 1.0) * 0.05;
            samples.push(TrainingSample {
                hidden: v(&[x, (k as f32 * 0.01).cos(), (k as f32 * 0.013).sin(), 0.5]),
                prev_tier: if k % 3 == 0 { None } else { Some((k % 4) as u8) },
                label: class,
            });
        }
    }
    samples
}

#[test]
fn synthetic_data_converges() {
    let base = small_head(0.3);
    let samples = synthetic_samples(24);
    let opts = FinetuneOptions {
        lr: s(5e-3),
        batch_size: 16,
        max_epochs: 60,
        patience: 10,
        ..Default::default()
    };
    let (new_head, report) = tune(&base, &samples, &opts).expect("finetune should succeed");
    assert!(
        f(report.best_eval_acc) > 0.85,
        "expected convergence, got {}",
        f(report.best_eval_acc)
    );
    assert!(f(report.best_eval_acc) >= f(report.baseline_eval_acc));
    let probs = new_head
        .forward(&v(&[1.5, 0.0, 0.0, 0.5]), Some(1), &tanh, &exp)
        .expect("new head forward should work");
    assert!(probs.iter().all(|p| f(*p).is_finite() && f(*p) >= 0.0));
}

#[test]
fn gradients_match_numeric_differentiation() {
    let base = small_head(0.7);
    let w = base.trainable();
    let x = v(&[0.5, -0.3, 0.8, 0.1]);
    let label = 2usize;

    let ce_loss = |w: &TrainableWeights| -> f32 {
        let c = forward_sample(&x, w, &tanh, &exp);
        -f(c.probs[label]).max(1e-9).ln()
    };

    let c = forward_sample(&x, &w, &tanh, &exp);
    let mut g = w.zeroed();
    accumulate(&mut g, &x, label, &w, &c);

    let eps = 1e-3f32;
    let check = |name: &str,
                 param: &Vec<Single>,
                 analytic: &Vec<Single>,
                 positions: &[usize],
                 patch: &dyn Fn(&mut TrainableWeights, Vec<Single>)| {
        for &p in positions {
            let orig = f(param[p]);
            let mut plus = param.clone();
            plus[p] = s(orig + eps);
            let mut wt = w.copied();
            patch(&mut wt, plus);
            let loss_plus = ce_loss(&wt);
            let mut minus = param.clone();
            minus[p] = s(orig - eps);
            let mut wt = w.copied();
            patch(&mut wt, minus);
            let loss_minus = ce_loss(&wt);
            let numeric = (loss_plus - loss_minus) / (2.0 * eps);
            let diff = (numeric - f(analytic[p])).abs();
            assert!(
                diff < 5e-3,
                "{name}[{p}]: analytic={} numeric={numeric}",
                f(analytic[p])
            );
        }
    };
    check("w1", &w.w1, &g.w1, &[0, 5, 9, 17, 23], &|wt, src| wt.w1 = src);
    check("w2", &w.w2, &g.w2, &[1, 8, 15, 22], &|wt, src| wt.w2 = src);
    check("ln_g", &w.ln_g, &g.ln_g, &[0, 3, 5], &|wt, src| wt.ln_g = src);
    check("ln_b", &w.ln_b, &g.ln_b, &[1, 4], &|wt, src| wt.ln_b = src);
    check("b1", &w.b1, &g.b1, &[0, 2, 5], &|wt, src| wt.b1 = src);
    check("b2", &w.b2, &g.b2, &[0, 2, 3], &|wt, src| wt.b2 = src);
}

#[test]
fn rejects_insufficient_or_degenerate_samples() {
    let base = small_head(0.5);
    let few = synthetic_samples(1);
    assert!(tune(&base, &few, &Default::default()).is_err());
    let mut single = synthetic_samples(4);
    for s in single.iter_mut() {
        s.label = 1;
    }
    assert!(tune(&base, &single, &Default::default()).is_err());
    let mut bad = synthetic_samples(6);
    bad[0].hidden = v(&[0.1, 0.2]);
    assert!(tune(&base, &bad, &Default::default()).is_err());
}

#[test]
fn v4_head_roundtrip_preserves_frozen_stats() {
    let base = RouterHead::from_parts(HeadJson {
        version: 1,
        input_dim: 7,
        hidden_dim: 3,
        base_dim: Some(2),
        mean: v(&[0.1, 0.2, 0.0, 0.0, 0.0, 0.0, 0.0]),
        std: v(&[0.5, 0.7, 1.0, 1.0, 1.0, 1.0, 1.0]),
        w1: v(&[
            0.1, 0.2, 0.1, 0.0, 0.0, 0.0, 0.0, 0.0, 0.1, 0.2, 0.1, 0.0, 0.0, 0.0, 0.0, 0.0, 0.1,
            0.2, 0.1, 0.0, 0.0,
        ]),
        b1: v(&[0.0, 0.01, -0.01]),
        ln_g: v(&[1.0; 3]),
        ln_b: v(&[0.0; 3]),
        w2: v(&[0.3, 0.1, -0.1, 0.0, 0.1, 0.2, -0.1, 0.3, 0.1, 0.0, -0.1, 0.3]),
        b2: v(&[0.0; 4]),
    })
    .unwrap();
    let samples: Vec<TrainingSample> = (0u8..4)
        .flat_map(|class| {
            (0..8).map(move |k| TrainingSample {
                hidden: v(&[
                    class as f32 + 0.5 + (k as f32 % 3.0 - 1.0) * 0.05,
                    (k as f32 * 0.011).cos(),
                ]),
                prev_tier: if k % 3 == 0 { None } else { Some(k % 4) },
                label: class,
            })
        })
        .collect();
    let opts = FinetuneOptions {
        lr: s(5e-3),
        batch_size: 8,
        max_epochs: 40,
        patience: 8,
        ..Default::default()
    };
    let (new_head, _report) = tune(&base, &samples, &opts).unwrap();
    assert_eq!(new_head.input_dim(), 7);
    assert_eq!(new_head.expected_hidden_dim(), 2);
    assert_eq!(base.mean_iter(), new_head.mean_iter());
    assert_eq!(base.std_iter(), new_head.std_iter());
    assert_ne!(base.trainable().w1, new_head.trainable().w1);
    assert!(new_head.forward(&v(&[1.0, 0.5]), Some(2), &tanh, &exp).is_ok());
}

#[test]
fn training_is_deterministic_for_same_seed() {
    let base = small_head(0.4);
    let samples = synthetic_samples(10);
    let opts = FinetuneOptions {
        lr: s(2e-3),
        max_epochs: 3,
        patience: 3,
        seed: 7,
        ..Default::default()
    };
    let (h1, r1) = tune(&base, &samples, &opts).unwrap();
    let (h2, r2) = tune(&base, &samples, &opts).unwrap();
    assert_eq!(h1.trainable().w1, h2.trainable().w1);
    assert_eq!(r1.best_eval_acc, r2.best_eval_acc);
}

#[test]
fn generator_follows_its_formula() {
    let mut rng = Rng { state: 42 };
    let mut x = 42u64;
    for _ in 0..5 {
        x ^= x >> 12;
        x ^= x << 25;
        x ^= x >> 27;
        assert_eq!(rng.next_u64(), x.wrapping_mul(0x2545F4914F6CDD1D));
        assert_eq!(rng.state, x);
    }
}

#[test]
fn shuffling_keeps_the_items() {
    let mut rng = Rng { state: 7 };
    let mut items: Vec<usize> = (0..20).collect();
    rng.shuffle(&mut items);
    assert_ne!(items, (0..20).collect::<Vec<_>>());
    items.sort();
    assert_eq!(items, (0..20).collect::<Vec<_>>());
}

#[test]
fn split_leaves_every_class_on_both_sides() {
    let labels: Vec<u8> = (0..40).map(|i| (i % 4) as u8).collect();
    let (train, eval) = split(&labels, 42);
    assert_eq!(train.len() + eval.len(), 40);
    let mut all: Vec<usize> = train.iter().chain(eval.iter()).copied().collect();
    all.sort();
    assert_eq!(all, (0..40).collect::<Vec<_>>());
    for class in 0..4u8 {
        assert!(train.iter().any(|i| labels[*i] == class));
        assert!(eval.iter().any(|i| labels[*i] == class));
    }
}

#[test]
fn batches_go_through_all_items_in_order() {
    let order: Vec<usize> = vec![4, 2, 0, 3, 1];
    let parts = batches(&order, 2);
    assert_eq!(parts, vec![vec![4, 2], vec![0, 3], vec![1]]);
}

#[test]
fn accuracy_is_a_share() {
    let rows = [[0.7, 0.1, 0.1, 0.1].map(s), [0.1, 0.2, 0.3, 0.4].map(s)];
    assert_eq!(f(accuracy(&rows, &[0, 0])), 0.5);
    assert_eq!(f(accuracy(&rows, &[0, 3])), 1.0);
}

#[test]
fn sample_faults_are_told_apart() {
    assert_eq!(
        check_samples(&synthetic_samples(1)).unwrap_err(),
        tune(&small_head(0.5), &synthetic_samples(1), &Default::default()).err().unwrap()
    );
    assert!(check_samples(&synthetic_samples(4)).is_ok());
    let mut odd = synthetic_samples(4);
    odd[0].label = 4;
    assert!(check_samples(&odd).is_ok());
    assert_eq!(
        tune(&small_head(0.5), &odd, &Default::default()).err().unwrap(),
        "sample 0: invalid label 4"
    );
}

#[test]
fn a_lone_sample_is_trained_on() {
    let (train, eval) = split(&[0, 1, 1], 42);
    assert_eq!(train.len(), 2);
    assert_eq!(eval.len(), 1);
    assert!(train.contains(&0));
    let samples: Vec<TrainingSample> = (0..8)
        .map(|i| TrainingSample {
            hidden: v(&[i as f32 * 0.1, 0.5, -0.25, 1.0]),
            prev_tier: None,
            label: if i == 7 { 1 } else { 0 },
        })
        .collect();
    let (_, report) = tune(&small_head(0.5), &samples, &Default::default()).unwrap();
    assert_eq!(report.train_samples, 7);
    assert_eq!(report.eval_samples, 1);
}

#[test]
fn weight_decay_is_not_scaled_by_the_rate() {
    let mut a = Adam::new(s(0.1), s(0.5));
    a.tick(&powers);
    let (mut p, mut m, mut w) = (v(&[1.0]), v(&[0.0]), v(&[0.0]));
    a.step(&mut p, &v(&[0.0]), &mut m, &mut w);
    assert_eq!(f(p[0]), 0.5);
    assert_eq!((f(m[0]), f(w[0])), (0.0, 0.0));
}

#[test]
fn training_rows_are_what_requests_see() {
    let head = RouterHead::from_parts(HeadJson {
        version: 1,
        input_dim: 6,
        hidden_dim: 1,
        base_dim: Some(1),
        mean: v(&[0.5, 0.0, 0.0, 0.0, 0.0, 1.0]),
        std: v(&[2.0, 1.0, 1.0, 1.0, 1.0, 1.0]),
        w1: v(&[0.3, 0.1, -0.2, 0.4, 0.0, 0.7]),
        b1: v(&[0.1]),
        ln_g: v(&[1.0]),
        ln_b: v(&[0.25]),
        w2: v(&[1.0, -0.5, 0.25, 0.0]),
        b2: v(&[0.0, 0.1, 0.2, 0.3]),
    })
    .unwrap();
    let samples: Vec<TrainingSample> = [None, Some(0), Some(3), Some(9)]
        .into_iter()
        .map(|prev_tier| TrainingSample { hidden: v(&[1.5]), prev_tier, label: 1 })
        .collect();
    let rows = build_inputs(&head, &samples).unwrap();
    assert_eq!(rows[0], v(&[0.5, 0.0, 0.0, 0.0, 0.0, 0.0]));
    assert_eq!(rows[1], v(&[0.5, 1.0, 0.0, 0.0, 0.0, -1.0]));
    for (row, sample) in rows.iter().zip(&samples) {
        let c = forward_sample(row, &head.trainable(), &tanh, &exp);
        assert_eq!(
            c.probs,
            head.forward(&sample.hidden, sample.prev_tier, &tanh, &exp).unwrap()
        );
    }
}
