use base64::Engine;
use rwkv_router::evolution::capture::{hidden_to_hex, Captured};
use rwkv_router::evolution::events::opening;
use rwkv_router::evolution::hex;
use rwkv_router::evolution::mark::{read_mark, write_mark};
use rwkv_router::evolution::pack::{read_pack, replay_mix, Pack, PackSample};
use rwkv_router::evolution::run::{already_running, ended, gather, EvolveResult};
use rwkv_router::head::{HeadJson, RouterHead};
use rwkv_router::{
    Evolution, EvolutionConfig, EvolutionEvent, EvolutionEventSink, Single, TrainingSample,
};
use std::sync::Mutex;

fn s(x: f32) -> Single {
    Single::from_bits(x.to_bits())
}

fn f(x: Single) -> f32 {
    f32::from_bits(x.bits)
}

fn v(xs: &[f32]) -> Vec<Single> {
    xs.iter().map(|x| s(*x)).collect()
}

fn tanh(x: Single) -> Single {
    s(f(x).tanh())
}

fn exp(x: Single) -> Single {
    s(f(x).exp())
}

fn ln(x: Single) -> Single {
    s(f(x).ln())
}

fn powers(b: Single, n: u64) -> Single {
    s(f(b).powi(n as i32))
}

fn toy_parts() -> HeadJson {
    HeadJson {
        version: 1,
        input_dim: 7,
        hidden_dim: 2,
        base_dim: Some(2),
        mean: v(&[0.0; 7]),
        std: v(&[1.0; 7]),
        w1: v(&[1.0, 0.0, 0.0, 0.0, 0.0, 0.0, 0.0, 0.0, 1.0, 0.0, 0.0, 0.0, 0.0, 0.0]),
        b1: v(&[0.0, 0.0]),
        ln_g: v(&[1.0, 1.0]),
        ln_b: v(&[0.0, 0.0]),
        w2: v(&[1.0, 0.0, 0.0, 1.0, 1.0, 1.0, 0.0, 0.0]),
        b2: v(&[0.0; 4]),
    }
}

fn toy_head() -> RouterHead {
    RouterHead::from_parts(toy_parts()).unwrap()
}

fn capture(evo: &mut Evolution, i: usize, num_embd: usize) -> Captured {
    evo.capture_route_sample(
        i as u64,
        &format!("request number {i} with enough text to be meaningful"),
        &v(&[0.5, -0.25]),
        None,
        &v(&[0.1, 0.2, 0.3, 0.4]),
        num_embd,
    )
}

fn with_limit(limit: usize) -> EvolutionConfig {
    EvolutionConfig { capture_limit: limit, ..EvolutionConfig::default() }
}

#[test]
fn capture_roundtrip_and_fifo_eviction() {
    let mut evo = Evolution::new(with_limit(6), Vec::new(), 0);
    for i in 0..8 {
        let did = capture(&mut evo, i, 2);
        assert_eq!(did, if i == 6 { Captured::Trimmed } else { Captured::Appended });
    }
    assert_eq!(evo.capture_stats().total, 4);
    let evo2 = Evolution::new(with_limit(6), evo.records, 0);
    assert_eq!(evo2.capture_stats().total, 4);
    let items = evo2.capture_list(0, 10);
    assert_eq!(items.len(), 4);
    assert_eq!(items[0].text, "request number 7 with enough text to be meaningful");
}

#[test]
fn label_stats_and_validation() {
    let mut evo = Evolution::new(EvolutionConfig::default(), Vec::new(), 0);
    for i in 0..3 {
        capture(&mut evo, i, 2);
    }
    assert!(evo.capture_label(0, Some(2)).is_ok());
    assert!(evo.capture_label(0, Some(4)).is_err());
    assert!(evo.capture_label(99, Some(1)).is_err());
    let stats = evo.capture_stats();
    assert_eq!(stats.labeled, 1);
    assert_eq!(stats.unlabeled, 2);
    assert_eq!(stats.per_tier, [0, 0, 1, 0]);
    assert!(evo.capture_label(0, None).is_ok());
    assert_eq!(evo.capture_stats().labeled, 0);
}

#[test]
fn worthless_decisions_are_not_kept() {
    let mut evo = Evolution::new(EvolutionConfig::default(), Vec::new(), 0);
    let h = v(&[0.5]);
    let p = v(&[0.25; 4]);
    assert_eq!(evo.capture_route_sample(1, "  ", &h, None, &p, 1), Captured::Ignored);
    assert_eq!(evo.capture_route_sample(1, "text", &[], None, &p, 1), Captured::Ignored);
    assert_eq!(evo.capture_route_sample(1, "text", &h, None, &p[..3], 1), Captured::Ignored);
    assert_eq!(evo.capture_route_sample(1, "text", &h, Some(2), &p, 1), Captured::Appended);
    assert_eq!(evo.records.len(), 1);
    assert_eq!(evo.records[0].prev_tier, Some(2));
    assert_eq!(evo.records[0].source, "route");
}

#[test]
fn deleting_and_clearing() {
    let mut evo = Evolution::new(EvolutionConfig::default(), Vec::new(), 0);
    for i in 0..3 {
        capture(&mut evo, i, 2);
    }
    assert_eq!(evo.capture_delete(7).unwrap_err(), "index 7 out of range");
    assert!(evo.capture_delete(1).is_ok());
    assert_eq!(evo.records.iter().map(|r| r.ts).collect::<Vec<_>>(), [0, 2]);
    evo.capture_clear();
    assert!(evo.records.is_empty());
    assert!(evo.capture_list(0, 10).is_empty());
}

#[test]
fn replay_mix_balances_classes() {
    let pool: Vec<TrainingSample> = (0..8)
        .map(|i| TrainingSample {
            hidden: v(&[i as f32; 2]),
            prev_tier: None,
            label: (i % 4) as u8,
        })
        .collect();
    let mixed = replay_mix(&pool, 6);
    assert_eq!(mixed.len(), 6);
    let mut counts = [0u32; 4];
    for s in &mixed {
        counts[s.label as usize] += 1;
    }
    assert_eq!(counts, [2, 2, 1, 1]);
    let mixed2 = replay_mix(&pool, 100);
    assert_eq!(mixed2.len(), 8);
    assert_eq!(mixed2[0].label, 0);
    assert_eq!(mixed2[1].label, 1);
    assert!(replay_mix(&[], 5).is_empty());
}

#[test]
fn evolve_skips_without_pack_dir() {
    let mut evo = Evolution::new(EvolutionConfig::default(), Vec::new(), 0);
    for i in 0..30 {
        capture(&mut evo, i, 2);
    }
    let r = match gather(&evo, Ok(toy_head())) {
        Ok(gathered) => gathered.admit_pack(None).err().unwrap(),
        Err(r) => r,
    };
    assert_eq!(r.status, "skipped");
}

#[test]
fn evolve_skips_with_insufficient_labels() {
    let mut evo = Evolution::new(EvolutionConfig::default(), Vec::new(), 0);
    for i in 0..5 {
        capture(&mut evo, i, 2);
    }
    let r = gather(&evo, Ok(toy_head())).err().unwrap();
    assert_eq!(r.status, "skipped");
    assert!(r.message.contains("labeled samples"));
    assert_eq!(r.message, "need >= 20 labeled samples, have 0");
    let r = gather(&evo, Err("no such file".to_string())).err().unwrap();
    assert_eq!(r.message, "load head failed: no such file");
}

fn packed(hidden: &[f32]) -> String {
    let mut buf = Vec::with_capacity(hidden.len() * 2);
    for &x in hidden {
        buf.extend_from_slice(&half::f16::from_f32(x).to_le_bytes()[..2]);
    }
    base64::engine::general_purpose::STANDARD.encode(&buf)
}

fn label_by(head: &RouterHead, hidden: &[f32]) -> u8 {
    let probs = head.forward(&v(hidden), None, &tanh, &exp).unwrap();
    probs
        .iter()
        .enumerate()
        .max_by(|(_, a), (_, b)| f(**a).partial_cmp(&f(**b)).unwrap())
        .unwrap()
        .0 as u8
}

struct Sink(Mutex<Vec<String>>);

impl EvolutionEventSink for Sink {
    fn on_event(&self, event: EvolutionEvent) {
        let s = match &event {
            EvolutionEvent::Started => "started".to_string(),
            EvolutionEvent::Phase { stage, .. } => stage.clone(),
            EvolutionEvent::Finished(r) => format!("finished:{}", r.status),
        };
        self.0.lock().unwrap().push(s);
    }
}

#[test]
fn evolve_ok_path_deploys_head_and_fires_sink() {
    let base = toy_head();
    let point = |i: usize| [((i % 7) as f32 - 3.0) * 0.5, ((i % 5) as f32 - 2.0) * 0.5];
    let pack = Pack {
        version: 1,
        base_dim: 2,
        samples: (0..24)
            .map(|i| PackSample {
                h: packed(&point(i)),
                t: label_by(&base, &point(i)),
                p: None,
            })
            .collect(),
    };
    let mut evo = Evolution::new(EvolutionConfig::default(), Vec::new(), 0);
    let sink = Sink(Mutex::new(Vec::new()));
    for i in 0..24 {
        evo.capture_route_sample(
            i as u64,
            &format!("sample {i} text for evolution training"),
            &v(&point(i)),
            None,
            &v(&[0.25; 4]),
            2,
        );
    }
    for idx in 0..24 {
        assert!(evo.capture_label(idx, Some(label_by(&base, &point(idx)))).is_ok());
    }

    assert!(evo.begin());
    assert!(!evo.begin());
    opening(false).into_iter().for_each(|e| sink.on_event(e));
    let gathered = gather(&evo, Ok(toy_head())).ok().unwrap();
    sink.on_event(gathered.event());
    let admitted = gathered.admit_pack(Some(read_pack(&pack))).ok().unwrap();
    let prepared = admitted.mix_replay(Ok((0, Vec::new())));
    sink.on_event(prepared.event());
    let trained = prepared.fine_tune(&tanh, &exp, &ln, &powers).ok().unwrap();
    sink.on_event(trained.event());
    let shown = |acc: Single| format!("{:.4}", f(acc));
    let deployment = trained.judge(&tanh, &exp, &shown).ok().unwrap();
    let parts = deployment.parts();
    let reloaded = RouterHead::from_parts(HeadJson {
        version: parts.version,
        input_dim: parts.input_dim,
        hidden_dim: parts.hidden_dim,
        base_dim: parts.base_dim,
        mean: parts.mean.clone(),
        std: parts.std.clone(),
        w1: parts.w1.clone(),
        b1: parts.b1.clone(),
        ln_g: parts.ln_g.clone(),
        ln_b: parts.ln_b.clone(),
        w2: parts.w2.clone(),
        b2: parts.b2.clone(),
    })
    .unwrap();
    assert_eq!(reloaded.expected_hidden_dim(), 2);
    let r = deployment.written(Ok(()));
    r.settled().into_iter().for_each(|e| sink.on_event(e));
    evo.finish();
    sink.on_event(r.finished());
    assert_eq!(r.status, "ok", "message: {}", r.message);
    assert_eq!(r.eval_samples, 24);
    assert!(f(r.baseline_acc) >= 0.999);

    let events = sink.0.lock().unwrap().clone();
    assert!(events.contains(&"started".to_string()));
    assert!(events.contains(&"training".to_string()));
    assert!(events.contains(&"gating".to_string()));
    assert!(events.contains(&"finished:ok".to_string()));
    assert!(evo.begin());
}

#[test]
fn automatic_evolutions_say_so() {
    let told: Vec<String> = opening(true)
        .iter()
        .map(|e| match e {
            EvolutionEvent::Started => "started".to_string(),
            EvolutionEvent::Phase { stage, detail } => format!("{stage}: {detail}"),
            EvolutionEvent::Finished(_) => "finished".to_string(),
        })
        .collect();
    assert_eq!(
        told,
        ["started", "loading: auto-evolve started", "loading: collecting labeled samples"]
    );
}

#[test]
fn only_decisions_are_settled() {
    let settled = |status: &str| match ended(status, "why".to_string()).settled() {
        Some(EvolutionEvent::Phase { stage, detail }) => Some((stage, detail)),
        _ => None,
    };
    let done = |detail: &str| Some(("done".to_string(), detail.to_string()));
    assert_eq!(settled("ok"), done("head updated, reloading"));
    assert_eq!(settled("rejected"), done("why"));
    assert_eq!(settled("skipped"), None);
}

#[test]
fn worse_heads_are_held_back() {
    let base = toy_head();
    let point = |i: usize| [((i % 7) as f32 - 3.0) * 0.5, ((i % 5) as f32 - 2.0) * 0.5];
    let mut evo = Evolution::new(EvolutionConfig::default(), Vec::new(), 0);
    for i in 0..24 {
        evo.capture_route_sample(1, "some text", &v(&point(i)), None, &v(&[0.25; 4]), 2);
        evo.capture_label(i, Some(label_by(&base, &point(i)))).unwrap();
    }
    let trained = gather(&evo, Ok(toy_head()))
        .ok()
        .unwrap()
        .admit_pack(Some(Ok((2, Vec::new()))))
        .ok()
        .unwrap()
        .mix_replay(Err("no pool".to_string()))
        .fine_tune(&tanh, &exp, &ln, &powers)
        .ok()
        .unwrap();
    let r: EvolveResult = trained.gate(s(0.5), s(0.9), "0.5000", "0.9000").err().unwrap();
    assert_eq!(r.status, "rejected");
    assert_eq!(
        r.message,
        "gated: new head acc 0.5000 < baseline 0.9000; old head kept"
    );
    assert_eq!(f(r.baseline_acc), 0.9);
}

/// Samples of a head without a previous-tier code, and what fine-tuning makes
/// of them.
fn trained_plain_head() -> rwkv_router::evolution::run::Trained {
    let plain = HeadJson {
        input_dim: 2,
        base_dim: None,
        mean: v(&[0.0; 2]),
        std: v(&[1.0; 2]),
        w1: v(&[1.0, 0.0, 0.0, 1.0]),
        ..toy_parts()
    };
    let base = RouterHead::from_parts(plain).unwrap();
    let point = |i: usize| [((i % 7) as f32 - 3.0) * 0.5, ((i % 5) as f32 - 2.0) * 0.5];
    let mut evo = Evolution::new(EvolutionConfig::default(), Vec::new(), 0);
    for i in 0..24 {
        evo.capture_route_sample(1, "some text", &v(&point(i)), None, &v(&[0.25; 4]), 2);
        evo.capture_label(i, Some((i % 2) as u8)).unwrap();
    }
    gather(&evo, Ok(base))
        .ok()
        .unwrap()
        .admit_pack(Some(Ok((2, Vec::new()))))
        .ok()
        .unwrap()
        .mix_replay(Ok((0, Vec::new())))
        .fine_tune(&tanh, &exp, &ln, &powers)
        .ok()
        .unwrap()
}

#[test]
fn a_head_without_a_tier_code_is_deployed_without_one() {
    let deployment = trained_plain_head().gate(s(0.5), s(0.5), "0.5000", "0.5000").ok().unwrap();
    let parts = deployment.parts();
    assert_eq!(parts.base_dim, None);
    let reloaded = RouterHead::from_parts(parts.clone()).unwrap();
    assert!(!reloaded.is_v4());
    assert_eq!((reloaded.input_dim(), reloaded.expected_hidden_dim()), (2, 2));
    assert_eq!(reloaded.mean_iter(), v(&[0.0; 2]));
}

#[test]
fn the_slightest_loss_of_accuracy_is_held_back() {
    let r = trained_plain_head().gate(s(0.0), s(0.001), "0.0000", "0.0010").err().unwrap();
    assert_eq!(r.status, "rejected");
    assert!(trained_plain_head().gate(s(0.001), s(0.001), "0.0010", "0.0010").is_ok());
}

#[test]
fn packs_that_do_not_fit_end_the_evolution() {
    let evo = Evolution::new(
        EvolutionConfig { min_labeled_for_evolve: 0, ..EvolutionConfig::default() },
        Vec::new(),
        0,
    );
    let r = gather(&evo, Ok(toy_head()))
        .ok()
        .unwrap()
        .admit_pack(Some(Ok((3, Vec::new()))))
        .err()
        .unwrap();
    assert_eq!(r.message, "eval_pack base_dim 3 != head 2");
    let r = gather(&evo, Ok(toy_head()))
        .ok()
        .unwrap()
        .admit_pack(Some(Err("gone".to_string())))
        .err()
        .unwrap();
    assert_eq!(r.message, "gone");
    let r = gather(&evo, Ok(toy_head())).ok().unwrap().admit_pack(None).err().unwrap();
    assert_eq!(r.status, "skipped");
    assert_eq!(r.message, "eval pack dir not configured");
    assert_eq!(already_running().status, "skipped");
}

#[test]
fn packs_are_read_through_base64() {
    let pack = |h: &str, version: u32| Pack {
        version,
        base_dim: 2,
        samples: vec![PackSample { h: h.to_string(), t: 2, p: Some(1) }],
    };
    let (dim, samples) = read_pack(&pack(&packed(&[1.5, -0.25]), 1)).unwrap();
    assert_eq!(dim, 2);
    assert_eq!(samples[0].hidden.iter().map(|x| f(*x)).collect::<Vec<_>>(), [1.5, -0.25]);
    assert_eq!(samples[0].label, 2);
    assert_eq!(samples[0].prev_tier, Some(1));
    assert_eq!(read_pack(&pack("", 2)).unwrap_err(), "unsupported pack version 2");
    let faulty = |text: &str| {
        let fault = base64::engine::general_purpose::STANDARD.decode(text).unwrap_err();
        assert_eq!(
            read_pack(&pack(text, 1)).unwrap_err(),
            format!("pack hidden decode failed: {fault}")
        );
    };
    faulty("*");
    faulty("AAAAA");
    faulty("AAA");
    faulty("AB==");
    faulty("AAA=A");
}

#[test]
fn hidden_states_survive_in_half_precision() {
    let h = v(&[0.5, -0.25, 1.0, 3.140625, 0.0, -65504.0]);
    let text = hidden_to_hex(&h);
    let expected: String = h
        .iter()
        .flat_map(|x| half::f16::from_f32(f(*x)).to_le_bytes())
        .map(|b| format!("{b:02x}"))
        .collect();
    assert_eq!(text, expected);
    let mut evo = Evolution::new(EvolutionConfig::default(), Vec::new(), 0);
    evo.capture_route_sample(1, "text", &h, None, &v(&[0.25; 4]), 6);
    assert_eq!(evo.records[0].hidden_hex, expected);
    assert_eq!(evo.records[0].hidden_f32(), h);
}

#[test]
fn hex_is_read_back() {
    let bytes: Vec<u8> = (0..=255).collect();
    assert_eq!(hex::decode(&hex::encode(&bytes)).unwrap(), bytes);
    assert_eq!(hex::decode("abc").unwrap_err(), "odd hex length");
    assert_eq!(hex::decode("AbfF").unwrap(), [0xab, 0xff]);
    assert!(hex::decode("zz").is_err());
}

#[test]
fn evolution_starts_by_itself_once_per_step() {
    let mut evo = Evolution::new(
        EvolutionConfig { auto_evolve_step: 2, ..EvolutionConfig::default() },
        Vec::new(),
        0,
    );
    for i in 0..4 {
        capture(&mut evo, i, 2);
    }
    evo.capture_label(0, Some(1)).unwrap();
    assert_eq!(evo.maybe_auto_evolve(), None);
    assert_eq!(evo.next_auto_evolve_at(), 2);
    evo.capture_label(1, Some(1)).unwrap();
    assert_eq!(evo.maybe_auto_evolve(), Some(2));
    assert_eq!(evo.maybe_auto_evolve(), None);
    evo.finish();
    assert_eq!(evo.maybe_auto_evolve(), None);
    assert_eq!(evo.next_auto_evolve_at(), 4);
}

#[test]
fn the_mark_is_read_back() {
    for n in [0usize, 1, 50, 123456789] {
        let text = write_mark(n);
        assert_eq!(text, format!("{{\"last_mark\":{n}}}"));
        assert_eq!(read_mark(Some(&text)), n);
    }
    assert_eq!(read_mark(None), 0);
    assert_eq!(read_mark(Some("not json")), 0);
    assert_eq!(read_mark(Some("{\"last_mark\":-3}")), 0);
}
