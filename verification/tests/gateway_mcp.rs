use rwkv_router::gateway::mcp::{
    frame, handle_line, handle_request, label_sample, parse_label, tool_reply, Step, ToolCall,
};
use rwkv_router::json::{read_json, write_json, Json};
use rwkv_router::{ClassifyEngine, EvolutionConfig, RouterConfig, RouterSession, Single};
use serde_json::Value;

struct NoEngine;

impl ClassifyEngine for NoEngine {
    fn classify(
        &self,
        _input: &str,
        _prev_tier: Option<u8>,
        _capture: bool,
    ) -> Result<(Vec<Single>, Vec<Single>), String> {
        Err("none".to_string())
    }

    fn num_embd(&self) -> usize {
        0
    }

    fn is_initialized(&self) -> bool {
        false
    }
}

fn session() -> RouterSession<NoEngine> {
    RouterSession::new(RouterConfig::default())
}

fn parsed(text: &str) -> Json {
    read_json(text.as_bytes()).unwrap()
}

fn value(json: &Json) -> Value {
    serde_json::from_str(&write_json(json)).unwrap()
}

/// Performs a call of a tool on a session.
fn perform(session: &mut RouterSession<NoEngine>, call: ToolCall) -> Result<String, String> {
    match call {
        ToolCall::Route { session_id, input, summary, turn_index } => {
            let (d, _) = session.route(0, &session_id, &input, summary.as_deref(), turn_index);
            Ok(format!("{{\"route\": \"{}\"}}", d.route.as_str()))
        }
        ToolCall::Stats => session.capture_stats().map(|s| format!("{s:?}")),
        ToolCall::Label { idx, label } => label_sample(session, idx, label),
        ToolCall::Evolve => session.begin_evolve().map(|b| b.to_string()),
        ToolCall::Failed(m) => Err(m),
    }
}

fn answer(request: &str) -> Option<Value> {
    match handle_request(parsed(request), "9.9.9") {
        Step::Silent => None,
        Step::Reply(r) => Some(value(&r)),
        Step::Call { id, call } => {
            Some(value(&tool_reply(id, perform(&mut session(), call))))
        }
    }
}

fn call(method: &str, params: &str, id: i64) -> Value {
    answer(&format!(
        "{{\"jsonrpc\": \"2.0\", \"id\": {id}, \"method\": \"{method}\", \"params\": {params}}}"
    ))
    .expect("request should produce a response")
}

#[test]
fn initialize_negotiates_known_version_and_advertises_tools() {
    let resp = call("initialize", r#"{"protocolVersion": "2025-06-18"}"#, 1);
    let result = &resp["result"];
    assert_eq!(result["protocolVersion"], "2025-06-18");
    assert_eq!(result["capabilities"]["tools"], Value::Object(Default::default()));
    assert_eq!(result["serverInfo"]["name"], "rwkv-router");
    assert_eq!(resp["id"], 1);
    let resp = call("initialize", r#"{"protocolVersion": "2024-11-05"}"#, 1);
    assert_eq!(resp["result"]["protocolVersion"], "2024-11-05");
    assert_eq!(resp["result"]["serverInfo"]["version"], "9.9.9");
}

#[test]
fn initialize_unknown_version_falls_back_to_latest() {
    let resp = call("initialize", r#"{"protocolVersion": "1999-01-01"}"#, 2);
    assert_eq!(resp["result"]["protocolVersion"], "2025-06-18");
}

#[test]
fn ping_returns_empty_result() {
    let resp = call("ping", "{}", 3);
    assert_eq!(resp["result"], Value::Object(Default::default()));
}

#[test]
fn tools_list_exposes_four_routing_tools_with_schemas() {
    let resp = call("tools/list", "{}", 4);
    let tools = resp["result"]["tools"].as_array().unwrap();
    assert_eq!(tools.len(), 4);
    let names: Vec<&str> = tools.iter().map(|t| t["name"].as_str().unwrap()).collect();
    assert_eq!(names, ["route", "router_stats", "router_label", "router_evolve"]);
    for t in tools {
        assert_eq!(t["inputSchema"]["type"], "object");
    }
    assert_eq!(tools[0]["inputSchema"]["required"][0], "input");
    assert_eq!(tools[2]["inputSchema"]["properties"]["tier"]["enum"][4], "clear");
}

#[test]
fn route_tool_returns_decision_json() {
    let resp = call("tools/call", r#"{"name": "route", "arguments": {"input": "ok"}}"#, 5);
    assert!(resp["result"]["isError"].is_null());
    let text = resp["result"]["content"][0]["text"].as_str().unwrap();
    let decision: Value = serde_json::from_str(text).unwrap();
    assert_eq!(decision["route"], "R0");
}

#[test]
fn route_tool_missing_input_is_error_content() {
    let resp = call("tools/call", r#"{"name": "route", "arguments": {}}"#, 6);
    assert_eq!(resp["result"]["isError"], true);
    assert!(resp["result"]["content"][0]["text"].as_str().unwrap().contains("input"));
}

#[test]
fn evolution_tools_error_when_unconfigured() {
    for name in ["router_stats", "router_evolve", "router_label"] {
        let args = if name == "router_label" { r#"{"idx": 0, "tier": "R1"}"# } else { "{}" };
        let resp = call(
            "tools/call",
            &format!("{{\"name\": \"{name}\", \"arguments\": {args}}}"),
            7,
        );
        assert_eq!(resp["result"]["isError"], true, "tool {name}");
        assert!(resp["result"]["content"][0]["text"].as_str().unwrap().contains("evolution"));
    }
}

#[test]
fn unknown_tool_reports_is_error_not_protocol_error() {
    let resp = call("tools/call", r#"{"name": "nope", "arguments": {}}"#, 8);
    assert_eq!(resp["result"]["isError"], true);
    assert!(resp["result"]["content"][0]["text"].as_str().unwrap().contains("unknown tool"));
}

#[test]
fn unknown_method_is_jsonrpc_error() {
    let resp = call("resources/list", "{}", 9);
    assert_eq!(resp["error"]["code"], -32601);
    assert_eq!(resp["error"]["message"], "method not found: resources/list");
}

#[test]
fn notification_produces_no_response() {
    assert!(answer(r#"{"jsonrpc": "2.0", "method": "notifications/initialized"}"#).is_none());
    assert!(answer(r#"{"jsonrpc": "2.0", "id": null, "method": "ping"}"#).is_none());
    assert!(answer(r#"{"jsonrpc": "2.0", "id": 1}"#).is_none());
}

#[test]
fn faulty_calls_are_protocol_errors() {
    let resp = answer(r#"{"id": "x", "method": "tools/call"}"#).unwrap();
    assert_eq!(resp["error"]["code"], -32602);
    assert_eq!(resp["error"]["message"], "missing params");
    assert_eq!(resp["id"], "x");
    let resp = call("tools/call", r#"{"name": 3}"#, 1);
    assert_eq!(resp["error"]["message"], "params.name must be a string");
}

#[test]
fn lines_are_answered_one_by_one() {
    assert!(matches!(handle_line("   ", "1"), Step::Silent));
    let Step::Reply(r) = handle_line("{broken", "1") else { panic!("no reply") };
    let v = value(&r);
    assert_eq!(v["id"], Value::Null);
    assert_eq!(v["error"]["code"], -32700);
    let fault = serde_json::from_str::<Value>("{broken").unwrap_err();
    assert_eq!(v["error"]["message"], format!("parse error: {fault}"));
    let Step::Reply(r) = handle_line(r#"{"id": 1.5, "method": "ping"}"#, "1") else {
        panic!("no reply")
    };
    assert_eq!(frame(&r), "{\"id\":1.5,\"jsonrpc\":\"2.0\",\"result\":{}}\n");
}

#[test]
fn route_arguments_have_defaults() {
    let Step::Call { call, .. } = handle_request(
        parsed(r#"{"id": 1, "method": "tools/call", "params": {"name": "route", "arguments": {"input": "hi"}}}"#),
        "1",
    ) else {
        panic!("no call")
    };
    let ToolCall::Route { session_id, input, summary, turn_index } = call else {
        panic!("no route")
    };
    assert_eq!((session_id.as_str(), input.as_str(), summary, turn_index), ("mcp", "hi", None, 0));
}

#[test]
fn labels_are_words() {
    assert_eq!(parse_label("R2"), Ok(Some(2)));
    assert_eq!(parse_label("CLEAR"), Ok(None));
    assert_eq!(
        parse_label("r2").unwrap_err(),
        "invalid tier 'r2' (expected R0-R3 or clear)"
    );
    let mut s = session();
    s.configure_evolution(EvolutionConfig::default(), Vec::new(), 0).unwrap();
    assert_eq!(label_sample(&mut s, 3, Some(1)).unwrap_err(), "index 3 out of range");
    let resp = call(
        "tools/call",
        r#"{"name": "router_label", "arguments": {"idx": 0, "tier": "R9"}}"#,
        1,
    );
    assert_eq!(
        resp["result"]["content"][0]["text"],
        "router_label: invalid tier 'R9' (expected R0-R3 or clear)"
    );
}
