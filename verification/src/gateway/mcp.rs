//! The tool server: what is answered to each request line, and which tool a
//! call asks for.

use crate::engine::ClassifyEngine;
use crate::json;
use crate::json::{read_json, write_json, Json, JsonView};
use crate::session::{labelled, RouterSession};
use crate::session;
use crate::text;
use crate::text::{decimal_text, same, to_ascii_lowercase, trim};
use crate::tier::RouteClass;
use vstd::prelude::*;
use vstd::string::*;
use vstd::utf8::*;

verus! {

/// The server's name.
pub const SERVER_NAME: &'static str = "rwkv-router";

/// The newest protocol version that is understood.
pub const NEWEST_VERSION: &'static str = "2025-06-18";

/// Code of an error in the parameters of a request.
pub const INVALID_PARAMS: i64 = -32602;

/// Code of the error that a method is unknown.
pub const METHOD_NOT_FOUND: i64 = -32601;

/// Code of the error that a line is no JSON.
pub const PARSE_ERROR: i64 = -32700;

/// What a call of a tool asks for.
#[derive(Debug)]
pub enum ToolCall {
    /// One routing decision.
    Route {
        session_id: String,
        input: String,
        summary: Option<String>,
        turn_index: usize,
    },
    /// Numbers of samples.
    Stats,
    /// Labels a sample, or clears its label.
    Label { idx: usize, label: Option<u8> },
    /// One evolution cycle.
    Evolve,
    /// Nothing: the call is faulty.
    Failed(String),
}

/// What follows from a request.
#[derive(Debug)]
pub enum Step {
    /// Nothing is answered.
    Silent,
    /// This is answered.
    Reply(Json),
    /// A tool is called, and its outcome is answered under an identifier.
    Call { id: Json, call: ToolCall },
}

/// Whether a protocol version is understood.
pub open spec fn understood(version: Seq<char>) -> bool {
    version == "2024-11-05"@ || version == "2025-03-26"@ || version == NEWEST_VERSION@
}

/// The protocol version that is agreed on: the one asked for where it is
/// understood, else the newest.
pub open spec fn agreed_version(params: Option<JsonView>) -> Seq<char> {
    match params {
        Some(p) => match p.text_at("protocolVersion"@) {
            Some(v) => if understood(v) {
                v
            } else {
                NEWEST_VERSION@
            },
            None => NEWEST_VERSION@,
        },
        None => NEWEST_VERSION@,
    }
}

/// What a request to start is answered.
pub open spec fn welcome(params: Option<JsonView>, version: Seq<char>) -> JsonView {
    JsonView::object().and("protocolVersion"@, JsonView::Text(agreed_version(params))).and(
        "capabilities"@,
        JsonView::object().and("tools"@, JsonView::object()),
    ).and(
        "serverInfo"@,
        JsonView::object().and("name"@, JsonView::Text(SERVER_NAME@)).and(
            "version"@,
            JsonView::Text(version),
        ),
    )
}

/// What a request to start is answered by a server of a version.
pub fn initialize(params: Option<&Json>, version: &str) -> (res: Json)
    ensures
        res.view() == welcome(json::seen(params), version@),
{
    let asked = match params {
        Some(p) => p.text_at("protocolVersion"),
        None => None,
    };
    let agreed = match asked {
        Some(v) => if same(v, "2024-11-05") || same(v, "2025-03-26") || same(v, NEWEST_VERSION) {
            v
        } else {
            NEWEST_VERSION
        },
        None => NEWEST_VERSION,
    };
    Json::object().and("protocolVersion", Json::text(agreed)).and(
        "capabilities",
        Json::object().and("tools", Json::object()),
    ).and(
        "serverInfo",
        Json::object().and("name", Json::text(SERVER_NAME)).and("version", Json::text(version)),
    )
}

/// How a tool is described.
pub open spec fn tool(name: Seq<char>, description: Seq<char>, schema: JsonView) -> JsonView {
    JsonView::object().and("name"@, JsonView::Text(name)).and(
        "description"@,
        JsonView::Text(description),
    ).and("inputSchema"@, schema)
}

/// How a tool is described.
fn tool_def(name: &str, description: &str, schema: Json) -> (res: Json)
    ensures
        res.view() == tool(name@, description@, schema.view()),
{
    Json::object().and("name", Json::text(name)).and("description", Json::text(description)).and(
        "inputSchema",
        schema,
    )
}

/// How an argument of a tool is described.
pub open spec fn argument(kind: Seq<char>, description: Seq<char>) -> JsonView {
    JsonView::object().and("type"@, JsonView::Text(kind)).and(
        "description"@,
        JsonView::Text(description),
    )
}

/// How an argument of a tool is described.
fn argument_def(kind: &str, description: &str) -> (res: Json)
    ensures
        res.view() == argument(kind@, description@),
{
    Json::object().and("type", Json::text(kind)).and("description", Json::text(description))
}

/// How the arguments of a tool without any are described.
pub open spec fn no_arguments() -> JsonView {
    JsonView::object().and("type"@, JsonView::Text("object"@)).and(
        "properties"@,
        JsonView::object(),
    )
}

fn no_arguments_def() -> (res: Json)
    ensures
        res.view() == no_arguments(),
{
    Json::object().and("type", Json::text("object")).and("properties", Json::object())
}

/// What the tool `route` is said to do.
pub const ROUTE_TEXT: &'static str =
    "Route one user input through the self-evolving smart router. Returns the tier decision (R0-R3), chosen backend model and source. Feeds the evolution loop's capture store when evolution is configured.";

/// What the tool `router_stats` is said to do.
pub const STATS_TEXT: &'static str =
    "Capture-store statistics: total/labelled sample counts and per-tier distribution. Requires evolution to be configured.";

/// What the tool `router_label` is said to do.
pub const LABEL_TEXT: &'static str =
    "Label (or clear) a captured sample so the next evolution can learn from it. `tier` is one of \"R0\", \"R1\", \"R2\", \"R3\" or \"clear\".";

/// What the tool `router_evolve` is said to do.
pub const EVOLVE_TEXT: &'static str =
    "Run one self-evolution cycle on the captured samples: AdamW fine-tune of the routing head, eval-pack gate (never deploys a worse head), backup + hot-reload. Blocking; may take seconds to minutes depending on sample count. Requires evolution and an eval pack.";

/// How the arguments of `route` are described.
pub open spec fn route_arguments() -> JsonView {
    JsonView::object().and("type"@, JsonView::Text("object"@)).and(
        "properties"@,
        JsonView::object().and(
            "input"@,
            argument("string"@, "The user input text to classify"@),
        ).and("summary"@, argument("string"@, "Optional conversation summary prefix"@)).and(
            "session_id"@,
            argument("string"@, "Session id for sticky-tier context (default 'mcp')"@),
        ).and(
            "turn_index"@,
            argument("integer"@, "Zero-based conversation turn (default 0)"@),
        ),
    ).and("required"@, JsonView::list().item(JsonView::Text("input"@)))
}

fn route_arguments_def() -> (res: Json)
    ensures
        res.view() == route_arguments(),
{
    let properties = Json::object().and(
        "input",
        argument_def("string", "The user input text to classify"),
    ).and("summary", argument_def("string", "Optional conversation summary prefix")).and(
        "session_id",
        argument_def("string", "Session id for sticky-tier context (default 'mcp')"),
    ).and("turn_index", argument_def("integer", "Zero-based conversation turn (default 0)"));
    Json::object().and("type", Json::text("object")).and("properties", properties).and(
        "required",
        Json::list().item(Json::text("input")),
    )
}

/// How the arguments of `router_label` are described.
pub open spec fn label_arguments() -> JsonView {
    JsonView::object().and("type"@, JsonView::Text("object"@)).and(
        "properties"@,
        JsonView::object().and(
            "idx"@,
            argument("integer"@, "Sample index (see router_stats / capture list)"@),
        ).and(
            "tier"@,
            JsonView::object().and("type"@, JsonView::Text("string"@)).and(
                "enum"@,
                JsonView::list().item(JsonView::Text("R0"@)).item(JsonView::Text("R1"@)).item(
                    JsonView::Text("R2"@),
                ).item(JsonView::Text("R3"@)).item(JsonView::Text("clear"@)),
            ),
        ),
    ).and(
        "required"@,
        JsonView::list().item(JsonView::Text("idx"@)).item(JsonView::Text("tier"@)),
    )
}

fn label_arguments_def() -> (res: Json)
    ensures
        res.view() == label_arguments(),
{
    let tiers = Json::list().item(Json::text("R0")).item(Json::text("R1")).item(
        Json::text("R2"),
    ).item(Json::text("R3")).item(Json::text("clear"));
    let properties = Json::object().and(
        "idx",
        argument_def("integer", "Sample index (see router_stats / capture list)"),
    ).and("tier", Json::object().and("type", Json::text("string")).and("enum", tiers));
    Json::object().and("type", Json::text("object")).and("properties", properties).and(
        "required",
        Json::list().item(Json::text("idx")).item(Json::text("tier")),
    )
}

/// The tools that are offered.
pub open spec fn offer() -> JsonView {
    JsonView::object().and(
        "tools"@,
        JsonView::list().item(tool("route"@, ROUTE_TEXT@, route_arguments())).item(
            tool("router_stats"@, STATS_TEXT@, no_arguments()),
        ).item(tool("router_label"@, LABEL_TEXT@, label_arguments())).item(
            tool("router_evolve"@, EVOLVE_TEXT@, no_arguments()),
        ),
    )
}

/// The tools that are offered.
pub fn tools_list() -> (res: Json)
    ensures
        res.view() == offer(),
{
    let tools = Json::list().item(tool_def("route", ROUTE_TEXT, route_arguments_def())).item(
        tool_def("router_stats", STATS_TEXT, no_arguments_def()),
    ).item(tool_def("router_label", LABEL_TEXT, label_arguments_def())).item(
        tool_def("router_evolve", EVOLVE_TEXT, no_arguments_def()),
    );
    Json::object().and("tools", tools)
}

/// An error with a code.
pub open spec fn rpc_error(code: i64, message: Seq<char>) -> JsonView {
    JsonView::object().and("code"@, JsonView::negative(code)).and(
        "message"@,
        JsonView::Text(message),
    )
}

/// An error with a code.
pub fn rpc_err(code: i64, message: &str) -> (res: Json)
    ensures
        res.view() == rpc_error(code, message@),
{
    Json::object().and("code", Json::negative(code)).and("message", Json::text(message))
}

/// A successful answer to a request.
pub open spec fn result_value(id: JsonView, result: JsonView) -> JsonView {
    JsonView::object().and("jsonrpc"@, JsonView::Text("2.0"@)).and("id"@, id).and(
        "result"@,
        result,
    )
}

/// An answer to a request that is an error.
pub open spec fn error_value(id: JsonView, error: JsonView) -> JsonView {
    JsonView::object().and("jsonrpc"@, JsonView::Text("2.0"@)).and("id"@, id).and("error"@, error)
}

fn result_reply(id: Json, result: Json) -> (res: Json)
    ensures
        res.view() == result_value(id.view(), result.view()),
{
    Json::object().and("jsonrpc", Json::text("2.0")).and("id", id).and("result", result)
}

fn error_reply(id: Json, error: Json) -> (res: Json)
    ensures
        res.view() == error_value(id.view(), error.view()),
{
    Json::object().and("jsonrpc", Json::text("2.0")).and("id", id).and("error", error)
}

/// What a label in words stands for: a tier, or that the label is cleared. A
/// tier is named as it is; `clear` in any case.
pub open spec fn label_named(tier: Seq<char>) -> Option<Option<u8>> {
    if text::lowercased(tier) == "clear"@ {
        Some(None)
    } else {
        match RouteClass::named(tier) {
            Some(t) => Some(Some(t.rank() as u8)),
            None => None,
        }
    }
}

/// What is said of a word that is no label.
pub open spec fn label_fault(tier: Seq<char>) -> Seq<char> {
    "invalid tier '"@ + tier + "' (expected R0-R3 or clear)"@
}

/// What a label in words stands for.
pub fn parse_label(tier: &str) -> (res: Result<Option<u8>, String>)
    ensures
        match label_named(tier@) {
            Some(label) => res == Ok::<Option<u8>, String>(label),
            None => res matches Err(m) && m@ == label_fault(tier@),
        },
{
    if same(to_ascii_lowercase(tier).as_str(), "clear") {
        return Ok(None);
    }
    match RouteClass::parse_from_str(tier) {
        Some(t) => Ok(Some(t.index() as u8)),
        None => {
            let mut m = "invalid tier '".to_owned();
            m.append(tier);
            m.append("' (expected R0-R3 or clear)");
            Err(m)
        },
    }
}

/// Whether a call is what the arguments of `route` ask for.
pub open spec fn asks_route(call: ToolCall, args: JsonView) -> bool {
    match args.text_at("input"@) {
        None => call matches ToolCall::Failed(m) && m@
            == "route: missing required argument 'input'"@,
        Some(text) => {
            &&& call matches ToolCall::Route { session_id, input, summary, turn_index }
            &&& input@ == text
            &&& text::words(summary) == args.text_at("summary"@)
            &&& session_id@ == match args.text_at("session_id"@) {
                Some(s) => s,
                None => "mcp"@,
            }
            &&& turn_index == match args.count_at("turn_index"@) {
                Some(n) => n as usize,
                None => 0,
            }
        },
    }
}

/// What the arguments of `route` ask for.
pub fn tool_route(args: &Json) -> (call: ToolCall)
    ensures
        asks_route(call, args.view()),
{
    let input = match args.text_at("input") {
        Some(s) => s.to_owned(),
        None => {
            return ToolCall::Failed("route: missing required argument 'input'".to_owned());
        },
    };
    let summary = match args.text_at("summary") {
        Some(s) => Some(s.to_owned()),
        None => None,
    };
    let session_id = match args.text_at("session_id") {
        Some(s) => s.to_owned(),
        None => "mcp".to_owned(),
    };
    let turn_index: usize = match args.count_at("turn_index") {
        Some(n) => n as usize,
        None => 0,
    };
    ToolCall::Route { session_id, input, summary, turn_index }
}

/// Whether a call is what the arguments of `router_label` ask for.
pub open spec fn asks_label(call: ToolCall, args: JsonView) -> bool {
    match (args.count_at("idx"@), args.text_at("tier"@)) {
        (None, _) => call matches ToolCall::Failed(m) && m@
            == "router_label: missing required argument 'idx'"@,
        (Some(_), None) => call matches ToolCall::Failed(m) && m@
            == "router_label: missing required argument 'tier'"@,
        (Some(n), Some(tier)) => match label_named(tier) {
            Some(to) => call matches ToolCall::Label { idx, label } && idx == n as usize && label
                == to,
            None => call matches ToolCall::Failed(m) && m@ == "router_label: "@ + label_fault(
                tier,
            ),
        },
    }
}

/// What the arguments of `router_label` ask for.
pub fn tool_label(args: &Json) -> (call: ToolCall)
    ensures
        asks_label(call, args.view()),
{
    let idx: usize = match args.count_at("idx") {
        Some(n) => n as usize,
        None => {
            return ToolCall::Failed("router_label: missing required argument 'idx'".to_owned());
        },
    };
    let tier = match args.text_at("tier") {
        Some(s) => s,
        None => {
            return ToolCall::Failed("router_label: missing required argument 'tier'".to_owned());
        },
    };
    match parse_label(tier) {
        Ok(label) => ToolCall::Label { idx, label },
        Err(e) => {
            let mut m = "router_label: ".to_owned();
            m.append(e.as_str());
            ToolCall::Failed(m)
        },
    }
}

/// The arguments of a call; none where none are given.
pub open spec fn arguments_of(params: JsonView) -> JsonView {
    match params.get("arguments"@) {
        Some(args) => args,
        None => JsonView::object(),
    }
}

/// Whether a call is what a tool and its arguments ask for.
pub open spec fn asks(call: ToolCall, name: Seq<char>, args: JsonView) -> bool {
    if name == "route"@ {
        asks_route(call, args)
    } else if name == "router_stats"@ {
        call == ToolCall::Stats
    } else if name == "router_label"@ {
        asks_label(call, args)
    } else if name == "router_evolve"@ {
        call == ToolCall::Evolve
    } else {
        call matches ToolCall::Failed(m) && m@ == "unknown tool: "@ + name
    }
}

/// The call that parameters ask for. Without parameters, or without the name
/// of a tool, there is no call.
pub fn tools_call(params: Option<&Json>) -> (res: Result<ToolCall, Json>)
    ensures
        match json::seen(params) {
            None => res matches Err(e) && e.view() == rpc_error(INVALID_PARAMS, "missing params"@),
            Some(p) => match p.text_at("name"@) {
                None => res matches Err(e) && e.view() == rpc_error(
                    INVALID_PARAMS,
                    "params.name must be a string"@,
                ),
                Some(name) => res matches Ok(call) && asks(call, name, arguments_of(p)),
            },
        },
{
    let params = match params {
        Some(p) => p,
        None => {
            return Err(rpc_err(INVALID_PARAMS, "missing params"));
        },
    };
    let name = match params.text_at("name") {
        Some(s) => s,
        None => {
            return Err(rpc_err(INVALID_PARAMS, "params.name must be a string"));
        },
    };
    let none = Json::object();
    let args = match params.get("arguments") {
        Some(a) => a,
        None => &none,
    };
    if same(name, "route") {
        Ok(tool_route(args))
    } else if same(name, "router_stats") {
        Ok(ToolCall::Stats)
    } else if same(name, "router_label") {
        Ok(tool_label(args))
    } else if same(name, "router_evolve") {
        Ok(ToolCall::Evolve)
    } else {
        let mut m = "unknown tool: ".to_owned();
        m.append(name);
        Ok(ToolCall::Failed(m))
    }
}

/// The identifier of a request; a notification has none, and a null is none.
pub open spec fn identifier(request: JsonView) -> Option<JsonView> {
    match request.get("id"@) {
        Some(JsonView::Null) => None,
        other => other,
    }
}

/// Whether a step is what follows from a request with a method and an
/// identifier.
pub open spec fn performs(
    step: Step,
    request: JsonView,
    method: Seq<char>,
    id: JsonView,
    version: Seq<char>,
) -> bool {
    let params = request.get("params"@);
    if method == "initialize"@ {
        step matches Step::Reply(r) && r.view() == result_value(id, welcome(params, version))
    } else if method == "ping"@ {
        step matches Step::Reply(r) && r.view() == result_value(id, JsonView::object())
    } else if method == "tools/list"@ {
        step matches Step::Reply(r) && r.view() == result_value(id, offer())
    } else if method == "tools/call"@ {
        match params {
            None => step matches Step::Reply(r) && r.view() == error_value(
                id,
                rpc_error(INVALID_PARAMS, "missing params"@),
            ),
            Some(p) => match p.text_at("name"@) {
                None => step matches Step::Reply(r) && r.view() == error_value(
                    id,
                    rpc_error(INVALID_PARAMS, "params.name must be a string"@),
                ),
                Some(name) => {
                    &&& step matches Step::Call { id: under, call }
                    &&& under.view() == id
                    &&& asks(call, name, arguments_of(p))
                },
            },
        }
    } else {
        step matches Step::Reply(r) && r.view() == error_value(
            id,
            rpc_error(METHOD_NOT_FOUND, "method not found: "@ + method),
        )
    }
}

/// Whether a step is what follows from a request. Without a method or an
/// identifier nothing is answered.
pub open spec fn follows(step: Step, request: JsonView, version: Seq<char>) -> bool {
    match (request.text_at("method"@), identifier(request)) {
        (Some(method), Some(id)) => performs(step, request, method, id, version),
        _ => step == Step::Silent,
    }
}

/// What a method asks for beside an answer under an identifier.
enum Work {
    Result(Json),
    Error(Json),
    Call(ToolCall),
}

/// What a method asks for.
fn work(method: &str, params: Option<&Json>, version: &str) -> (res: Work)
    ensures
        match res {
            Work::Result(v) => {
                ||| method@ == "initialize"@ && v.view() == welcome(json::seen(params), version@)
                ||| method@ != "initialize"@ && method@ == "ping"@ && v.view()
                    == JsonView::object()
                ||| method@ != "initialize"@ && method@ != "ping"@ && method@ == "tools/list"@
                    && v.view() == offer()
            },
            Work::Error(e) => {
                &&& method@ != "initialize"@ && method@ != "ping"@ && method@ != "tools/list"@
                &&& if method@ == "tools/call"@ {
                    match json::seen(params) {
                        None => e.view() == rpc_error(INVALID_PARAMS, "missing params"@),
                        Some(p) => p.text_at("name"@) is None && e.view() == rpc_error(
                            INVALID_PARAMS,
                            "params.name must be a string"@,
                        ),
                    }
                } else {
                    e.view() == rpc_error(METHOD_NOT_FOUND, "method not found: "@ + method@)
                }
            },
            Work::Call(call) => {
                &&& method@ != "initialize"@ && method@ != "ping"@ && method@ != "tools/list"@
                &&& method@ == "tools/call"@
                &&& json::seen(params) matches Some(p)
                &&& p.text_at("name"@) matches Some(name)
                &&& asks(call, name, arguments_of(p))
            },
        },
{
    if same(method, "initialize") {
        Work::Result(initialize(params, version))
    } else if same(method, "ping") {
        Work::Result(Json::object())
    } else if same(method, "tools/list") {
        Work::Result(tools_list())
    } else if same(method, "tools/call") {
        match tools_call(params) {
            Ok(call) => Work::Call(call),
            Err(e) => Work::Error(e),
        }
    } else {
        let mut m = "method not found: ".to_owned();
        m.append(method);
        Work::Error(rpc_err(METHOD_NOT_FOUND, m.as_str()))
    }
}

/// What follows from a request to a server of a version.
pub fn handle_request(request: Json, version: &str) -> (step: Step)
    ensures
        follows(step, request.view(), version@),
{
    let work = match request.text_at("method") {
        None => {
            return Step::Silent;
        },
        Some(method) => work(method, request.get("params"), version),
    };
    let ghost asked = request.view();
    let id = match request.into_member("id") {
        None => {
            return Step::Silent;
        },
        Some(v) => if v.is_null() {
            return Step::Silent;
        } else {
            v
        },
    };
    assert(identifier(asked) == Some(id.view()));
    match work {
        Work::Result(v) => Step::Reply(result_reply(id, v)),
        Work::Error(e) => Step::Reply(error_reply(id, e)),
        Work::Call(call) => Step::Call { id, call },
    }
}

/// Whether a step is what follows from a line that was read.
pub open spec fn follows_line(
    step: Step,
    read: Result<JsonView, Seq<char>>,
    version: Seq<char>,
) -> bool {
    match read {
        Err(fault) => step matches Step::Reply(r) && r.view() == error_value(
            JsonView::Null,
            rpc_error(PARSE_ERROR, "parse error: "@ + fault),
        ),
        Ok(request) => follows(step, request, version),
    }
}

/// What is answered to a request that was read can be written, and so can the
/// answer to a call that it asks for.
pub proof fn replies_are_shallow(step: Step, read: Result<JsonView, Seq<char>>, version: Seq<char>)
    requires
        follows_line(step, read, version),
        read matches Ok(request) ==> request.shallow(json::READ_LEVELS as nat),
    ensures
        step matches Step::Reply(r) ==> r.view().shallow(json::WRITE_LEVELS as nat),
        step matches Step::Call { id, .. } ==> id.view().shallow(json::READ_LEVELS as nat),
{
    broadcast use json::group_shallow;

    if let Ok(request) = read {
        json::members_are_shallow(request, "id"@, json::READ_LEVELS as nat);
        if let Some(id) = identifier(request) {
            json::shallower(id, json::READ_LEVELS as nat, (json::WRITE_LEVELS - 1) as nat);
        }
    }
}

/// What follows from a line that was read. One that is no JSON is answered with
/// an error, and the session goes on.
pub fn handle_frame(read: Result<Json, String>, version: &str) -> (step: Step)
    ensures
        follows_line(step, json::as_read(read), version@),
{
    match read {
        Ok(request) => handle_request(request, version),
        Err(fault) => {
            let mut m = "parse error: ".to_owned();
            m.append(fault.as_str());
            Step::Reply(error_reply(Json::Null, rpc_err(PARSE_ERROR, m.as_str())))
        },
    }
}

/// What follows from a line. A blank one is passed over.
pub fn handle_line(line: &str, version: &str) -> (step: Step)
    ensures
        text::trimmed(line@).len() == 0 ==> step == Step::Silent,
        text::trimmed(line@).len() > 0 ==> follows_line(
            step,
            json::json_read(encode_utf8(line@)),
            version@,
        ),
        step matches Step::Reply(r) ==> r.view().shallow(json::WRITE_LEVELS as nat),
        step matches Step::Call { id, .. } ==> id.view().shallow(json::READ_LEVELS as nat),
{
    if trim(line).as_str().unicode_len() == 0 {
        return Step::Silent;
    }
    let read = read_json(line.as_bytes());
    let ghost seen = json::as_read(read);
    let step = handle_frame(read, version);
    proof {
        replies_are_shallow(step, seen, version@);
    }
    step
}

/// What a call of a tool is answered: its text, marked where it is an error.
pub open spec fn tool_value(id: JsonView, outcome: Result<Seq<char>, Seq<char>>) -> JsonView {
    match outcome {
        Ok(said) => result_value(
            id,
            JsonView::object().and(
                "content"@,
                JsonView::list().item(
                    JsonView::object().and("type"@, JsonView::Text("text"@)).and(
                        "text"@,
                        JsonView::Text(said),
                    ),
                ),
            ),
        ),
        Err(said) => result_value(
            id,
            JsonView::object().and(
                "content"@,
                JsonView::list().item(
                    JsonView::object().and("type"@, JsonView::Text("text"@)).and(
                        "text"@,
                        JsonView::Text(said),
                    ),
                ),
            ).and("isError"@, JsonView::Bool(true)),
        ),
    }
}

/// What a call of a tool is answered.
pub fn tool_reply(id: Json, outcome: Result<String, String>) -> (res: Json)
    ensures
        res.view() == tool_value(
            id.view(),
            match outcome {
                Ok(s) => Ok(s@),
                Err(s) => Err(s@),
            },
        ),
        id.view().shallow(json::READ_LEVELS as nat) ==> res.view().shallow(
            json::WRITE_LEVELS as nat,
        ),
{
    broadcast use json::group_shallow;

    proof {
        if id.view().shallow(json::READ_LEVELS as nat) {
            json::shallower(id.view(), json::READ_LEVELS as nat, (json::WRITE_LEVELS - 1) as nat);
        }
    }
    let (said, failed) = match outcome {
        Ok(s) => (s, false),
        Err(s) => (s, true),
    };
    let block = Json::object().and("type", Json::text("text")).and("text", Json::Text(said));
    let content = Json::object().and("content", Json::list().item(block));
    let result = if failed {
        content.and("isError", Json::Bool(true))
    } else {
        content
    };
    result_reply(id, result)
}

/// A line that is answered.
pub fn frame(reply: &Json) -> (line: String)
    requires
        reply.view().shallow(json::WRITE_LEVELS as nat),
    ensures
        line@ == json::json_written(reply.view()) + "\n"@,
{
    let mut line = write_json(reply);
    line.append("\n");
    line
}

/// What is said of a sample that was labelled.
pub open spec fn label_note(idx: usize, label: Option<u8>) -> Seq<char> {
    "ok: sample "@ + text::decimal(idx as nat) + " label = "@ + match label {
        Some(l) => text::decimal(l as nat),
        None => "clear"@,
    }
}

/// Labels a sample and says so.
pub fn label_sample<E: ClassifyEngine>(
    session: &mut RouterSession<E>,
    idx: usize,
    label: Option<u8>,
) -> (res: Result<String, String>)
    requires
        old(session).wf(),
    ensures
        final(session).wf(),
        final(session).same_but_loop(*old(session)),
        match old(session).loop_state() {
            None => {
                &&& res matches Err(m) && m@ == session::NOT_CONFIGURED@
                &&& final(session).loop_state() is None
            },
            Some(e) => exists|done: Result<(), String>|
                #![trigger labelled(e, final(session).loop_state()->0, idx, label, done)]
                {
                    &&& final(session).loop_state() is Some
                    &&& labelled(e, final(session).loop_state()->0, idx, label, done)
                    &&& match done {
                        Ok(_) => res matches Ok(m) && m@ == label_note(idx, label),
                        Err(fault) => res matches Err(m) && m@ == fault@,
                    }
                },
        },
{
    let done = session.capture_label(idx, label);
    let ghost given = done;
    let res = match done {
        Ok(()) => {
            let mut m = "ok: sample ".to_owned();
            m.append(decimal_text(idx as u128).as_str());
            m.append(" label = ");
            match label {
                Some(l) => {
                    m.append(decimal_text(l as u128).as_str());
                },
                None => {
                    m.append("clear");
                },
            }
            Ok(m)
        },
        Err(e) => Err(e),
    };
    proof {
        if let Some(e) = old(session).loop_state() {
            assert(labelled(e, session.loop_state()->0, idx, label, given));
        }
    }
    res
}

/// A notification is never answered, whatever it asks for.
pub proof fn notifications_are_silent(step: Step, request: JsonView, version: Seq<char>)
    requires
        request.get("id"@) is None,
        follows(step, request, version),
    ensures
        step == Step::Silent,
{
}

/// An answer carries the identifier of its request.
pub proof fn answers_carry_the_identifier(step: Step, request: JsonView, version: Seq<char>)
    requires
        follows(step, request, version),
    ensures
        step matches Step::Reply(r) ==> r.view().get("id"@) == request.get("id"@),
        step matches Step::Call { id, .. } ==> Some(id.view()) == request.get("id"@),
{
    reveal_strlit("jsonrpc");
    reveal_strlit("id");
    assert("jsonrpc"@.len() == 7 && "id"@.len() == 2);
    if let Step::Reply(r) = step {
        let members = r.view()->Object_0;
        assert(members[0].0 == "jsonrpc"@ && members[1].0 == "id"@);
        reveal_with_fuel(json::member_from, 3);
    }
}

/// A tier is a label under its name, `clear` in any case takes the label away,
/// and nothing else is one.
pub proof fn labels_are_named(tier: RouteClass, word: Seq<char>)
    ensures
        label_named(tier.name()) == Some(Some(tier.rank() as u8)),
        text::lowercased(word) == "clear"@ ==> label_named(word) == Some(None::<u8>),
        label_named(word) is Some ==> text::lowercased(word) == "clear"@ || exists|t: RouteClass|
            word == #[trigger] t.name(),
{
    reveal_strlit("R0");
    reveal_strlit("R1");
    reveal_strlit("R2");
    reveal_strlit("R3");
    reveal_strlit("clear");
    crate::tier::tier_roundtrip(tier);
    assert(text::lowercased(tier.name()).len() == 2);
    assert("clear"@.len() == 5);
    if label_named(word) is Some && text::lowercased(word) != "clear"@ {
        if word == "R0"@ {
            assert(word == RouteClass::R0.name());
        } else if word == "R1"@ {
            assert(word == RouteClass::R1.name());
        } else if word == "R2"@ {
            assert(word == RouteClass::R2.name());
        } else {
            assert(word == RouteClass::R3.name());
        }
    }
}

/// A version that is known on both sides is kept; any other request gets the
/// newest.
pub proof fn versions_are_agreed_on(params: JsonView, asked: Seq<char>)
    requires
        params.get("protocolVersion"@) == Some(JsonView::Text(asked)),
    ensures
        asked == "2024-11-05"@ || asked == "2025-03-26"@ || asked == "2025-06-18"@
            ==> agreed_version(Some(params)) == asked,
        asked != "2024-11-05"@ && asked != "2025-03-26"@ ==> agreed_version(Some(params))
            == "2025-06-18"@,
        agreed_version(None) == "2025-06-18"@,
{
}

/// A call names a tool and hands it its arguments; each tool does its own.
pub proof fn calls_reach_their_tool(call: ToolCall, name: Seq<char>, args: JsonView)
    requires
        asks(call, name, args),
    ensures
        call is Stats ==> name == "router_stats"@,
        call is Evolve ==> name == "router_evolve"@,
        call matches ToolCall::Label { idx, label } ==> {
            &&& name == "router_label"@
            &&& args.count_at("idx"@) matches Some(n) && idx == n as usize
            &&& args.text_at("tier"@) matches Some(t) && label_named(t) == Some(label)
        },
        call matches ToolCall::Route { session_id, input, summary, turn_index } ==> {
            &&& name == "route"@
            &&& args.text_at("input"@) == Some(input@)
            &&& args.text_at("session_id"@) matches Some(s) ==> session_id@ == s
            &&& args.text_at("session_id"@) is None ==> session_id@ == "mcp"@
            &&& text::words(summary) == args.text_at("summary"@)
            &&& args.count_at("turn_index"@) matches Some(n) ==> turn_index == n as usize
            &&& args.count_at("turn_index"@) is None ==> turn_index == 0
        },
{
}

/// The answer of a tool carries what it said, and is marked where the tool
/// failed.
pub proof fn tools_say_what_came_of_it(id: JsonView, outcome: Result<Seq<char>, Seq<char>>)
    ensures
        ({
            let said = match outcome {
                Ok(s) => s,
                Err(s) => s,
            };
            &&& tool_value(id, outcome).get("id"@) == Some(id)
            &&& tool_value(id, outcome).get("error"@) is None
            &&& tool_value(id, outcome).get("result"@) matches Some(r) && {
                &&& r.list_at("content"@) matches Some(items) && items.len() == 1
                    && items[0].text_at("text"@) == Some(said)
                &&& outcome is Ok ==> r.get("isError"@) is None
                &&& outcome is Err ==> r.get("isError"@) == Some(JsonView::Bool(true))
            }
        }),
{
    reveal_strlit("jsonrpc");
    reveal_strlit("id");
    reveal_strlit("error");
    reveal_strlit("result");
    reveal_strlit("content");
    reveal_strlit("isError");
    reveal_strlit("type");
    reveal_strlit("text");
    assert("jsonrpc"@.len() == 7 && "id"@.len() == 2 && "error"@.len() == 5);
    assert("result"@.len() == 6 && "content"@.len() == 7 && "isError"@.len() == 7);
    assert("content"@[0] == 'c' && "isError"@[0] == 'i');
    assert("type"@.len() == 4 && "text"@.len() == 4 && "type"@[1] == 'y' && "text"@[1] == 'e');
    reveal_with_fuel(json::member_from, 4);
    let members = tool_value(id, outcome)->Object_0;
    assert(members[0].0 == "jsonrpc"@ && members[1] == ("id"@, id) && members[2].0 == "result"@);
    let parts = members[2].1->Object_0;
    assert(parts[0].0 == "content"@);
    let items = parts[0].1->List_0;
    assert(items.len() == 1);
    let item = items[0]->Object_0;
    assert(item[0].0 == "type"@ && item[1].0 == "text"@);
    if outcome is Err {
        assert(parts[1] == ("isError"@, JsonView::Bool(true)));
    }
}

/// Every method that is known is answered with a result; one that is not known,
/// and a call that names no tool, with an error of its code.
pub proof fn methods_are_answered(
    step: Step,
    request: JsonView,
    method: Seq<char>,
    id: JsonView,
    version: Seq<char>,
)
    requires
        performs(step, request, method, id, version),
    ensures
        method == "initialize"@ || method == "ping"@ || method == "tools/list"@ ==> (step
            matches Step::Reply(r) && r.view().get("result"@) is Some),
        step is Call <==> method == "tools/call"@ && (request.get("params"@) matches Some(p)
            && p.text_at("name"@) is Some),
        step matches Step::Reply(r) ==> {
            let known = method == "initialize"@ || method == "ping"@ || method == "tools/list"@;
            &&& r.view().get("result"@) is Some <==> known
            &&& r.view().get("error"@) is None <==> known
            &&& r.view().get("error"@) matches Some(e) ==> e.get("code"@) == Some(
                JsonView::negative(
                    if method == "tools/call"@ {
                        -32602 as i64
                    } else {
                        -32601 as i64
                    },
                ),
            )
        },
{
    reveal_strlit("jsonrpc");
    reveal_strlit("id");
    reveal_strlit("error");
    reveal_strlit("result");
    reveal_strlit("code");
    assert("jsonrpc"@.len() == 7 && "id"@.len() == 2 && "error"@.len() == 5);
    assert("result"@.len() == 6 && "code"@.len() == 4);
    reveal_strlit("initialize");
    reveal_strlit("ping");
    reveal_strlit("tools/list");
    reveal_strlit("tools/call");
    assert("tools/list"@[6] == 'l' && "tools/call"@[6] == 'c');
    assert("initialize"@[0] == 'i' && "tools/call"@[0] == 't' && "ping"@.len() == 4);
    assert("tools/call"@.len() == 10);
    reveal_with_fuel(json::member_from, 4);
    if let Step::Reply(r) = step {
        let members = r.view()->Object_0;
        assert(members[0].0 == "jsonrpc"@ && members[1].0 == "id"@);
        assert(members[2].0 == "result"@ || members[2].0 == "error"@);
        if members[2].0 == "error"@ {
            assert(members[2].1->Object_0[0].0 == "code"@);
        }
    }
}

} // verus!
