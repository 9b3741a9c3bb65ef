use rwkv_router::gateway::api::{
    done, envelope, evolve_started, evolve_status, health, label_request, models, page, parse_count,
    route_request, EvolveStatus, ROUTE_USAGE,
};
use rwkv_router::gateway::config::{SidecarConfig, TiersConfig, UpstreamConfig};
use rwkv_router::gateway::proxy::{
    api_key, body_failed, dispatch, generation_failed, protocol_label, protocol_version, receive,
    relayed_type, relays_stream, request_failed, resolve, session_of, source_label, tier_label, Aim,
    Credential, Dispatch, Placement,
};
use rwkv_router::gateway::reply::{approx_tokens, local_reply, plain_error};
use rwkv_router::gateway::request::{
    build_rwkv_prompt, extract_messages, gen_params_from_request, last_user_text, parse_tier_alias,
    Protocol,
};
use rwkv_router::evolution::run::ended;
use rwkv_router::json::{read_json, write_json, Json};
use rwkv_router::{
    fallback_decision, trivial_ack_decision, DecisionSource, RouteClass, Single,
};
use serde_json::Value;

fn f(x: Single) -> f32 {
    f32::from_bits(x.bits)
}

fn parsed(text: &str) -> Json {
    read_json(text.as_bytes()).unwrap()
}

fn value(json: &Json) -> Value {
    serde_json::from_str(&write_json(json)).unwrap()
}

fn openai() -> UpstreamConfig {
    UpstreamConfig::Openai {
        base_url: "https://api.deepseek.com/v1//".to_string(),
        model: "deepseek-chat".to_string(),
        api_key_env: "DEEPSEEK_API_KEY".to_string(),
    }
}

fn anthropic(base_url: &str) -> UpstreamConfig {
    UpstreamConfig::Anthropic {
        base_url: base_url.to_string(),
        model: "sonnet".to_string(),
        api_key_env: "KEY".to_string(),
    }
}

fn local() -> UpstreamConfig {
    UpstreamConfig::BuiltinRwkv {
        model: "m.st".to_string(),
        tokenizer: "v.json".to_string(),
    }
}

#[test]
fn faulty_bodies_are_refused() {
    let body = b"{\"model\": ";
    let r = receive(Protocol::Openai, body).unwrap_err();
    let fault = serde_json::from_slice::<Value>(body).unwrap_err();
    assert_eq!(r.status, 400);
    assert_eq!(r.message, format!("invalid request body: {fault}"));
    let reply = r.reply(Protocol::Openai);
    assert_eq!(reply.status, 400);
    assert_eq!(reply.content_type, "application/json");
    let v: Value = serde_json::from_str(&reply.body).unwrap();
    assert_eq!(v["error"]["message"], r.message);
    assert_eq!(v["error"]["type"], "gateway_error");
    assert_eq!(v["error"]["code"], "rwkv_router_gateway");
    for body in ["{}", "[1]", "null", r#"{"messages": [{"role": "user", "content": "  "}]}"#] {
        let r = receive(Protocol::Openai, body.as_bytes()).unwrap_err();
        assert_eq!(r.status, 400);
        assert_eq!(r.message, "request has no user message to classify");
    }
}

#[test]
fn model_names_decide_the_aim() {
    let aim = |model: &str| {
        let body = format!(
            "{{\"model\": \"{model}\", \"stream\": true, \"messages\": [{{\"role\": \"user\", \"content\": \"hi there\"}}]}}"
        );
        receive(Protocol::Openai, body.as_bytes()).unwrap()
    };
    let turn = aim("ai00-auto");
    assert!(turn.stream);
    assert_eq!(turn.model, "ai00-auto");
    assert!(
        matches!(turn.aim, Aim::Classify { ref input, turn_index: 1 } if input == "hi there")
    );
    assert!(matches!(aim("r2").aim, Aim::Forced(RouteClass::R2)));
    assert!(matches!(aim("R0").aim, Aim::Forced(RouteClass::R0)));
    assert!(matches!(aim("gpt-4o").aim, Aim::Passthrough));
    assert_eq!(parse_tier_alias("r3"), Some(RouteClass::R3));
    assert_eq!(parse_tier_alias("R4"), None);
}

#[test]
fn messages_are_read_from_both_protocols() {
    let request = parsed(
        r#"{"system": [{"type": "text", "text": "be"}, {"type": "image"}, {"type": "text", "text": "brief"}],
            "messages": [
                {"role": "user", "content": "first"},
                {"role": "assistant", "content": [{"type": "text", "text": "second"}]},
                {"role": "user", "content": ""},
                {"content": "no role"},
                {"role": "user", "content": 7}
            ]}"#,
    );
    let pairs = |p: Protocol| extract_messages(p, &request);
    let expected = [("user", "first"), ("assistant", "second"), ("", "no role")];
    let openai = pairs(Protocol::Openai);
    assert_eq!(openai.len(), 3);
    for (got, want) in openai.iter().zip(expected) {
        assert_eq!((got.0.as_str(), got.1.as_str()), want);
    }
    let anthropic = pairs(Protocol::Anthropic);
    assert_eq!(anthropic[0], ("system".to_string(), "be brief".to_string()));
    assert_eq!(anthropic.len(), 4);
    assert_eq!(last_user_text(Protocol::Openai, &request).unwrap(), "first");
    assert_eq!(
        build_rwkv_prompt(&openai),
        "user: first\n\nassistant: second\n\n: no role\n\nAssistant:"
    );
}

#[test]
fn sampling_parameters_are_read() {
    let p = gen_params_from_request(Protocol::Openai, &parsed("{}"));
    assert_eq!(p.max_tokens, 512);
    assert_eq!(f(p.temperature), 1.0);
    assert!(p.stop.is_empty());
    assert_eq!(gen_params_from_request(Protocol::Anthropic, &parsed("{}")).max_tokens, 1024);
    let request = parsed(
        r#"{"max_tokens": 0, "temperature": 0.7, "top_p": 1.5, "presence_penalty": -1,
            "frequency_penalty": 0.1, "stop": ["a", 3, "b"], "stop_sequences": ["c"]}"#,
    );
    let p = gen_params_from_request(Protocol::Openai, &request);
    assert_eq!(p.max_tokens, 1);
    assert_eq!(f(p.temperature), 0.7f64 as f32);
    assert_eq!(f(p.top_p), 1.0);
    assert_eq!(f(p.presence_penalty), -1.0);
    assert_eq!(f(p.frequency_penalty), 0.1f64 as f32);
    assert_eq!(p.stop, ["a", "b"]);
    assert_eq!(gen_params_from_request(Protocol::Anthropic, &request).stop, ["c"]);
    let big = gen_params_from_request(Protocol::Openai, &parsed(r#"{"max_tokens": 99999}"#));
    assert_eq!(big.max_tokens, 32768);
    let odd = parsed(r#"{"max_tokens": -4, "temperature": "hot", "top_p": -0.5}"#);
    let p = gen_params_from_request(Protocol::Openai, &odd);
    assert_eq!(p.max_tokens, 512);
    assert_eq!(f(p.temperature), 1.0);
    assert_eq!(f(p.top_p), 0.0);
}

#[test]
fn numbers_pass_through_double_precision() {
    for text in ["1", "16777217", "9007199791611905", "18446744073709551615", "-3", "1e-45", "0.1"] {
        let request = parsed(&format!("{{\"temperature\": {text}}}"));
        let v: Value = serde_json::from_str(text).unwrap();
        let expected = v.as_f64().unwrap() as f32;
        let p = gen_params_from_request(Protocol::Openai, &request);
        assert_eq!(f(p.temperature).to_bits(), expected.to_bits(), "{text}");
    }
}

fn config(tiers: TiersConfig, fallback: Option<UpstreamConfig>) -> SidecarConfig {
    SidecarConfig { tiers, fallback, ..SidecarConfig::default() }
}

fn forced(tier: RouteClass) -> Placement {
    Aim::Forced(tier).place(fallback_decision())
}

#[test]
fn placements_find_their_upstream() {
    let only_r1 = TiersConfig { r1: Some(local()), ..TiersConfig::default() };
    let c = config(only_r1, Some(openai()));
    assert_eq!(resolve(&c, &forced(RouteClass::R1), "R1").unwrap().kind(), "builtin-rwkv");
    assert_eq!(resolve(&c, &forced(RouteClass::R3), "R3").unwrap().kind(), "openai");
    let aim = Aim::Classify { input: "x".to_string(), turn_index: 1 };
    let place = aim.place(fallback_decision());
    assert_eq!(place.tier, Some(RouteClass::R1));
    assert_eq!(resolve(&c, &place, "ai00-auto").unwrap().kind(), "openai");
    let pass = Aim::Passthrough.place(fallback_decision());
    assert_eq!(pass.tier, None);
    assert!(pass.decision.is_none());
    assert_eq!(resolve(&c, &pass, "gpt-4o").unwrap().kind(), "openai");

    let bare = config(TiersConfig::default(), None);
    let refused = |p: &Placement, m: &str| {
        let r = resolve(&bare, p, m).unwrap_err();
        assert_eq!(r.status, 503);
        r.message
    };
    assert_eq!(
        refused(&place, "ai00-auto"),
        "classifier fell back and no fallback upstream is configured"
    );
    assert_eq!(
        refused(&forced(RouteClass::R2), "R2"),
        "R2 has no upstream configured and no fallback exists"
    );
    assert_eq!(
        refused(&pass, "gpt-4o"),
        "model 'gpt-4o' requires the fallback upstream, which is not configured"
    );
}

#[test]
fn labels_tell_where_a_tier_came_from() {
    let aim = Aim::Classify { input: "x".to_string(), turn_index: 1 };
    assert_eq!(tier_label(&aim.place(fallback_decision())).unwrap(), "R1(fallback)");
    assert_eq!(tier_label(&aim.place(trivial_ack_decision())).unwrap(), "R0");
    assert_eq!(tier_label(&forced(RouteClass::R2)).unwrap(), "R2(forced)");
    let pass = Aim::Passthrough.place(fallback_decision());
    assert_eq!(tier_label(&pass), None);
    assert_eq!(source_label(&pass), "passthrough");
    assert_eq!(protocol_label(Protocol::Anthropic), "anthropic");
    assert_eq!(session_of(None), "gateway");
    assert_eq!(session_of(Some("abc")), "abc");
    assert_eq!(fallback_decision().source, DecisionSource::Fallback);
}

fn sent(model: &str, upstream: &UpstreamConfig) -> (String, Value, Credential) {
    let body = format!(
        "{{\"model\": \"{model}\", \"x\": [1, 2.50], \"messages\": [{{\"role\": \"user\", \"content\": \"hi\"}}]}}"
    );
    let turn = receive(Protocol::Openai, body.as_bytes()).unwrap();
    let place = turn.aim.place(trivial_ack_decision());
    match dispatch(Protocol::Openai, turn, &place, upstream) {
        Dispatch::Http(f) => {
            (f.url, serde_json::from_str(&f.body).unwrap(), f.credential)
        }
        Dispatch::Local { .. } => panic!("not local"),
    }
}

#[test]
fn only_the_model_is_rewritten() {
    let (url, body, credential) = sent("ai00-auto", &openai());
    assert_eq!(url, "https://api.deepseek.com/v1/chat/completions");
    assert_eq!(body["model"], "deepseek-chat");
    assert_eq!(body["x"][1], 2.5);
    assert_eq!(body["messages"][0]["content"], "hi");
    assert_eq!(credential, Credential::Bearer);
    assert_eq!(sent("R3", &openai()).1["model"], "deepseek-chat");
    assert_eq!(sent("gpt-4o", &openai()).1["model"], "gpt-4o");
    let (url, _, credential) = sent("R1", &anthropic("https://api.anthropic.com/"));
    assert_eq!(url, "https://api.anthropic.com/v1/messages");
    assert_eq!(credential, Credential::KeyHeader);
    assert_eq!(sent("R1", &anthropic("https://x/v1")).0, "https://x/v1/messages");
}

#[test]
fn local_requests_become_a_prompt() {
    let body = br#"{"stop": ["x"], "messages": [{"role": "user", "content": "hi"}]}"#;
    let turn = receive(Protocol::Openai, body).unwrap();
    let pass = Placement { tier: None, decision: None };
    let Dispatch::Local { tier, job } = dispatch(Protocol::Openai, turn, &pass, &local()) else {
        panic!("not remote")
    };
    assert_eq!(tier, RouteClass::R1);
    assert_eq!(job.prompt, "user: hi\n\nAssistant:");
    assert_eq!(job.params.stop, ["x", "\nUser:", "\nSystem:"]);
}

#[test]
fn upstream_edges() {
    assert_eq!(api_key("K", Some("secret".to_string())).unwrap(), "secret");
    for value in [None, Some(String::new())] {
        let r = api_key("K", value).unwrap_err();
        assert_eq!(r.status, 500);
        assert_eq!(
            r.message,
            "environment variable K is not set (required for the upstream API key)"
        );
    }
    assert_eq!(protocol_version(None), "2023-06-01");
    assert_eq!(protocol_version(Some("2024-01-01")), "2024-01-01");
    assert_eq!(relayed_type(None), "application/json");
    assert!(relays_stream(true, "text/event-stream; charset=utf-8"));
    assert!(!relays_stream(false, "text/event-stream"));
    assert!(!relays_stream(true, "application/json"));
    assert_eq!(request_failed("x").message, "upstream request failed: x");
    assert_eq!(body_failed("x").status, 502);
    assert_eq!(
        generation_failed(RouteClass::R2, "no model").message,
        "builtin generation failed (R2): no model"
    );
    let e = plain_error(Protocol::Anthropic, 502, "boom");
    let v: Value = serde_json::from_str(&e.body).unwrap();
    assert_eq!(v["type"], "error");
    assert_eq!(v["error"]["message"], "boom");
}

#[test]
fn finished_texts_are_answered_whole() {
    let text = "line one\nline \"two\"";
    let r = local_reply(Protocol::Openai, false, "ai00-auto", text, 1234, 1);
    assert_eq!(r.status, 200);
    assert!(!r.no_cache);
    let v: Value = serde_json::from_str(&r.body).unwrap();
    assert_eq!(v["id"], "chatcmpl-rvr-1234");
    assert_eq!(v["created"], 1);
    assert_eq!(v["model"], "ai00-auto");
    assert_eq!(v["choices"][0]["message"]["content"], text);
    assert_eq!(v["choices"][0]["finish_reason"], "stop");
    assert_eq!(v["usage"]["completion_tokens"], approx_tokens(text));
    assert_eq!(approx_tokens(text), 4);
    assert_eq!(approx_tokens(""), 1);
    let r = local_reply(Protocol::Anthropic, false, "m", text, 7, 1);
    let v: Value = serde_json::from_str(&r.body).unwrap();
    assert_eq!(v["id"], "msg_rvr-7");
    assert_eq!(v["content"][0]["text"], text);
    assert_eq!(v["stop_sequence"], Value::Null);
    assert_eq!(v["usage"]["output_tokens"], 4);
}

#[test]
fn finished_texts_are_streamed_whole() {
    let r = local_reply(Protocol::Openai, true, "m", "hello", 7, 1);
    assert_eq!(r.content_type, "text/event-stream; charset=utf-8");
    assert!(r.no_cache);
    let frames: Vec<&str> = r.body.split("\n\n").collect();
    assert_eq!(frames.len(), 5);
    let data = |i: usize| -> Value {
        serde_json::from_str(frames[i].strip_prefix("data: ").unwrap()).unwrap()
    };
    assert_eq!(data(0)["choices"][0]["delta"]["role"], "assistant");
    assert_eq!(data(1)["choices"][0]["delta"]["content"], "hello");
    assert_eq!(data(1)["object"], "chat.completion.chunk");
    assert_eq!(data(2)["choices"][0]["finish_reason"], "stop");
    assert_eq!(frames[3], "data: [DONE]");
    let r = local_reply(Protocol::Anthropic, true, "m", "hello", 7, 1);
    let names: Vec<&str> = r
        .body
        .lines()
        .filter_map(|l| l.strip_prefix("event: "))
        .collect();
    assert_eq!(
        names,
        [
            "message_start",
            "content_block_start",
            "content_block_delta",
            "content_block_stop",
            "message_delta",
            "message_stop"
        ]
    );
    let deltas: Vec<Value> = r
        .body
        .lines()
        .filter_map(|l| l.strip_prefix("data: "))
        .map(|d| serde_json::from_str(d).unwrap())
        .collect();
    assert_eq!(deltas[2]["delta"]["text"], "hello");
    assert_eq!(deltas[0]["message"]["usage"]["input_tokens"], 1);
    assert_eq!(deltas[4]["usage"]["output_tokens"], 1);
}

#[test]
fn health_tells_what_is_configured() {
    let tiers = TiersConfig { r0: Some(local()), r3: Some(openai()), ..TiersConfig::default() };
    let v = value(&health("0.1.0", &config(tiers, None), true));
    assert_eq!(v["ok"], true);
    assert_eq!(v["version"], "0.1.0");
    assert_eq!(v["classifier_configured"], false);
    assert_eq!(v["evolution_configured"], true);
    assert_eq!(v["tiers"]["R0"], "builtin-rwkv");
    assert_eq!(v["tiers"]["R3"], "openai");
    assert_eq!(v["tiers"].as_object().unwrap().len(), 2);
    assert_eq!(v["fallback"], Value::Null);
    let v = value(&models());
    let ids: Vec<&str> =
        v["data"].as_array().unwrap().iter().map(|m| m["id"].as_str().unwrap()).collect();
    assert_eq!(ids, ["ai00-auto", "R0", "R1", "R2", "R3"]);
}

#[test]
fn counts_are_parsed_as_the_standard_library_does() {
    for text in ["0", "7", "+7", "007", "", "+", "-1", " 1", "1 ", "1_0", "x", "18446744073709551615",
        "18446744073709551616", "99999999999999999999999"]
    {
        assert_eq!(parse_count(text), text.parse::<usize>().ok(), "{text}");
    }
    let p = page(Some("3"), Some("x"));
    assert_eq!((p.offset, p.limit), (3, 50));
    let p = page(None, Some("9"));
    assert_eq!((p.offset, p.limit), (0, 9));
}

#[test]
fn route_requests_are_read() {
    let read = |text: &str| {
        route_request(&parsed(text))
            .map(|r| (r.session_id, r.input, r.summary, r.turn_index))
    };
    let plain = |session: &str, summary: Option<&str>, turn: usize| {
        Ok((session.to_string(), "hi".to_string(), summary.map(str::to_string), turn))
    };
    assert_eq!(read(r#"{"input": "hi"}"#), plain("api", None, 0));
    assert_eq!(
        read(r#"{"input": "hi", "session_id": "s", "summary": "sum", "turn_index": 7, "x": []}"#),
        plain("s", Some("sum"), 7)
    );
    assert_eq!(
        read(r#"{"input": "hi", "summary": null, "turn_index": null}"#),
        plain("api", None, 0)
    );
    assert_eq!(read(r#"["s", "hi", "sum", 7]"#), plain("s", Some("sum"), 7));
    assert_eq!(read(r#"["s", "hi", null, null]"#), plain("s", None, 0));
    for bad in [
        "{}",
        "[]",
        "7",
        r#"["s", "hi"]"#,
        r#"["s", "hi", null]"#,
        r#"["s", "hi", null, null, null]"#,
        r#"[null, "hi", null, null]"#,
        r#"["s", null, null, null]"#,
        r#"["s", "hi", 1, null]"#,
        r#"["s", "hi", null, -1]"#,
        r#"{"input": 7}"#,
        r#"{"input": null}"#,
        r#"{"input": "hi", "session_id": 1}"#,
        r#"{"input": "hi", "session_id": null}"#,
        r#"{"input": "hi", "summary": 1}"#,
        r#"{"input": "hi", "turn_index": -1}"#,
        r#"{"input": "hi", "turn_index": 1.5}"#,
        r#"{"input": "hi", "turn_index": "1"}"#,
    ] {
        assert_eq!(read(bad), Err(ROUTE_USAGE.to_string()), "{bad}");
    }
}

#[test]
fn label_requests_are_read() {
    let read = |text: &str| label_request(&parsed(text)).map(|r| (r.idx, r.label));
    assert_eq!(read(r#"{"idx": 4, "label": 2}"#), Ok((4, Some(2))));
    assert_eq!(read(r#"{"idx": 4, "label": -1}"#), Ok((4, None)));
    assert_eq!(read(r#"{"idx": 4, "label": 9}"#), Ok((4, None)));
    assert_eq!(read(r#"{"idx": 4, "tier": "R3"}"#), Ok((4, Some(3))));
    assert_eq!(read(r#"{"idx": 4, "tier": null}"#), Ok((4, None)));
    assert_eq!(read(r#"{"label": 1}"#), Err("missing idx".to_string()));
    assert_eq!(read(r#"{"idx": 1}"#), Err("missing label".to_string()));
    assert_eq!(read(r#"{"idx": 1, "tier": "R7"}"#), Err("missing label".to_string()));
}

#[test]
fn envelope_shapes() {
    let ok = write_json(&envelope(Ok(parsed(r#"{"route": "R0"}"#))));
    assert!(ok.contains("\"ok\":true") && ok.contains("R0"));
    let err = write_json(&envelope(Err("boom".to_string())));
    assert!(err.contains("\"ok\":false") && err.contains("boom"));
    assert_eq!(write_json(&done()), "{\"ok\":true}");
}

#[test]
fn one_evolution_at_a_time() {
    let mut status = EvolveStatus::default();
    assert!(status.begin());
    assert!(!status.begin());
    assert!(status.is_running());
    assert!(status.last_report().is_none());
    status.finish(ended("error", "boom".to_string()));
    assert!(!status.is_running());
    assert_eq!(status.last_report().unwrap().message, "boom");
    let (code, body) = evolve_started(true);
    assert_eq!(code, 202);
    assert_eq!(value(&body)["data"]["started"], true);
    let (code, body) = evolve_started(false);
    assert_eq!(code, 409);
    assert_eq!(value(&body)["error"], "evolution already running");
    let v = value(&evolve_status(true, Json::Null));
    assert_eq!(v["data"]["running"], true);
    assert_eq!(v["data"]["last"], Value::Null);
}
