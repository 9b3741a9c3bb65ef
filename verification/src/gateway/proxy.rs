//! The way of a request through the gateway: what it asks for, which upstream
//! serves it, and what is sent there.

use crate::gateway::config::{SidecarConfig, UpstreamConfig};
use crate::gateway::reply;
use crate::gateway::reply::{plain_error, Reply};
use crate::gateway::request;
use crate::gateway::request::{
    last_user_text, local_job, message_count, parse_tier_alias, LocalJob, Protocol, AUTO_MODEL,
};
use crate::json;
use crate::json::{read_json, write_json, Json, JsonView};
use crate::postprocess::{DecisionSource, RoutingDecision};
use crate::text;
use crate::text::{chars_of, contains, copied, ends_with, same, text_of};
use crate::tier::RouteClass;
use vstd::prelude::*;
use vstd::string::*;

verus! {

/// What a request asks for, by its model name.
#[derive(Debug)]
pub enum Aim {
    /// The tier that the classifier gives a text, said at a turn.
    Classify { input: String, turn_index: usize },
    /// One tier.
    Forced(RouteClass),
    /// The fallback upstream, under the model name that was asked for.
    Passthrough,
}

/// A request that was taken.
#[derive(Debug)]
pub struct Turn {
    pub request: Json,
    /// The model name that was asked for.
    pub model: String,
    /// Whether an event stream was asked for.
    pub stream: bool,
    pub aim: Aim,
}

/// Why a request is not served.
#[derive(Debug)]
pub struct Refusal {
    /// HTTP status.
    pub status: u16,
    pub message: String,
}

impl Refusal {
    /// Whether a refusal has a status and a message.
    pub open spec fn is(self, status: u16, message: Seq<char>) -> bool {
        self.status == status && self.message@ == message
    }

    /// The answer that a refused request gets.
    pub fn reply(&self, protocol: Protocol) -> (res: Reply)
        ensures
            res.says(self.status, reply::error_value(protocol, self.message@)),
    {
        plain_error(protocol, self.status, self.message.as_str())
    }
}

/// The model name that a request asks for; that of classification where it
/// asks for none.
pub open spec fn model_asked(request: JsonView) -> Seq<char> {
    match request.text_at("model"@) {
        Some(s) => s,
        None => AUTO_MODEL@,
    }
}

/// Whether a request asks for an event stream.
pub open spec fn stream_asked(request: JsonView) -> bool {
    request.bool_at("stream"@) == Some(true)
}

/// Whether an aim is what a request asks for.
pub open spec fn aims_at(aim: Aim, protocol: Protocol, request: JsonView) -> bool {
    match request::tier_alias(model_asked(request)) {
        Some(tier) => aim == Aim::Forced(tier),
        None => if model_asked(request) == AUTO_MODEL@ {
            &&& aim matches Aim::Classify { input, turn_index }
            &&& request::classified_text(protocol, request) == Some(input@)
            &&& turn_index == request::conversation(protocol, request).len()
        } else {
            aim == Aim::Passthrough
        },
    }
}

/// Whether a request has nothing to classify though it asks for that.
pub open spec fn wordless(protocol: Protocol, request: JsonView) -> bool {
    &&& request::tier_alias(model_asked(request)) is None
    &&& model_asked(request) == AUTO_MODEL@
    &&& request::classified_text(protocol, request) is None
}

impl Turn {
    /// Whether this is what a request comes to.
    pub open spec fn takes(self, protocol: Protocol, request: JsonView) -> bool {
        &&& self.request.view() == request
        &&& request is Object
        &&& self.model@ == model_asked(request)
        &&& self.stream == stream_asked(request)
        &&& aims_at(self.aim, protocol, request)
    }
}

/// What a read body comes to: a turn, or a refusal.
pub open spec fn taken(
    res: Result<Turn, Refusal>,
    protocol: Protocol,
    read: Result<JsonView, Seq<char>>,
) -> bool {
    match read {
        Err(fault) => res matches Err(r) && r.is(400, "invalid request body: "@ + fault),
        Ok(request) => if wordless(protocol, request) {
            res matches Err(r) && r.is(400, "request has no user message to classify"@)
        } else {
            res matches Ok(turn) && turn.takes(protocol, request)
        },
    }
}

/// A request without members asks for a classification and has no text for it.
proof fn lemma_wordless(protocol: Protocol, request: JsonView)
    requires
        request !is Object,
    ensures
        wordless(protocol, request),
{
    reveal_strlit("ai00-auto");
    reveal_strlit("R0");
    reveal_strlit("R1");
    reveal_strlit("R2");
    reveal_strlit("R3");
    assert(text::uppercased(AUTO_MODEL@).len() == 9);
    assert(request::conversation(protocol, request) =~= Seq::empty());
}

/// Takes a request that was read, or refuses it.
pub fn take(protocol: Protocol, read: Result<Json, String>) -> (res: Result<Turn, Refusal>)
    ensures
        taken(res, protocol, json::as_read(read)),
{
    let request = match read {
        Ok(v) => v,
        Err(fault) => {
            let mut message = "invalid request body: ".to_owned();
            message.append(fault.as_str());
            return Err(Refusal { status: 400, message });
        },
    };
    proof {
        if request.view() !is Object {
            lemma_wordless(protocol, request.view());
        }
    }
    let model = match request.text_at("model") {
        Some(s) => s.to_owned(),
        None => AUTO_MODEL.to_owned(),
    };
    let stream = match request.bool_at("stream") {
        Some(b) => b,
        None => false,
    };
    let aim = match parse_tier_alias(model.as_str()) {
        Some(tier) => Aim::Forced(tier),
        None => if same(model.as_str(), AUTO_MODEL) {
            match last_user_text(protocol, &request) {
                Some(input) => Aim::Classify {
                    input,
                    turn_index: message_count(protocol, &request),
                },
                None => {
                    return Err(
                        Refusal {
                            status: 400,
                            message: "request has no user message to classify".to_owned(),
                        },
                    );
                },
            }
        } else {
            Aim::Passthrough
        },
    };
    Ok(Turn { request, model, stream, aim })
}

/// Reads the body of a request and takes it, or refuses it.
pub fn receive(protocol: Protocol, body: &[u8]) -> (res: Result<Turn, Refusal>)
    ensures
        taken(res, protocol, json::json_read(body@)),
        res matches Ok(turn) ==> turn.request.view().shallow(json::WRITE_LEVELS as nat),
{
    let read = read_json(body);
    proof {
        if let Ok(v) = json::as_read(read) {
            json::shallower(v, json::READ_LEVELS as nat, json::WRITE_LEVELS as nat);
        }
    }
    take(protocol, read)
}

/// The session that a request belongs to: the one it names, or the gateway's
/// own.
pub fn session_of(header: Option<&str>) -> (id: String)
    ensures
        id@ == match header {
            Some(s) => s@,
            None => "gateway"@,
        },
{
    match header {
        Some(s) => s.to_owned(),
        None => "gateway".to_owned(),
    }
}

/// Where a request is to be served: its tier, and the decision that gave it.
#[derive(Debug, Clone, Copy)]
pub struct Placement {
    pub tier: Option<RouteClass>,
    pub decision: Option<RoutingDecision>,
}

impl Aim {
    /// Where a request is to be served, given what the classifier decided.
    pub open spec fn placed(self, decided: RoutingDecision) -> Placement {
        match self {
            Aim::Classify { .. } => Placement {
                tier: Some(decided.route),
                decision: Some(decided),
            },
            Aim::Forced(tier) => Placement { tier: Some(tier), decision: None },
            Aim::Passthrough => Placement { tier: None, decision: None },
        }
    }

    /// Where a request is to be served. The decision only counts where one was
    /// asked for.
    pub fn place(&self, decided: RoutingDecision) -> (res: Placement)
        ensures
            res == self.placed(decided),
    {
        match self {
            Aim::Classify { .. } => Placement {
                tier: Some(decided.route),
                decision: Some(decided),
            },
            Aim::Forced(tier) => Placement { tier: Some(*tier), decision: None },
            Aim::Passthrough => Placement { tier: None, decision: None },
        }
    }
}

/// The tier of a placement, in words.
pub open spec fn label_of(place: Placement) -> Option<Seq<char>> {
    match place.decision {
        Some(d) => Some(
            match d.source {
                DecisionSource::Fallback => d.route.name() + "(fallback)"@,
                _ => d.route.name(),
            },
        ),
        None => match place.tier {
            Some(t) => Some(t.name() + "(forced)"@),
            None => None,
        },
    }
}

/// The tier of a placement, in words.
pub fn tier_label(place: &Placement) -> (res: Option<String>)
    ensures
        match res {
            Some(s) => label_of(*place) == Some(s@),
            None => label_of(*place) is None,
        },
{
    match place.decision {
        Some(d) => {
            let mut label = d.route.to_string();
            if let DecisionSource::Fallback = d.source {
                label.append("(fallback)");
            }
            Some(label)
        },
        None => match place.tier {
            Some(t) => {
                let mut label = t.to_string();
                label.append("(forced)");
                Some(label)
            },
            None => None,
        },
    }
}

/// The tier of a placement as it is told to the client.
pub fn source_label(place: &Placement) -> (res: String)
    ensures
        res@ == match label_of(*place) {
            Some(s) => s,
            None => "passthrough"@,
        },
{
    match tier_label(place) {
        Some(s) => s,
        None => "passthrough".to_owned(),
    }
}

/// The name of a protocol.
pub fn protocol_label(protocol: Protocol) -> (res: &'static str)
    ensures
        res@ == match protocol {
            Protocol::Openai => "openai"@,
            Protocol::Anthropic => "anthropic"@,
        },
{
    match protocol {
        Protocol::Openai => "openai",
        Protocol::Anthropic => "anthropic",
    }
}

/// Whether the classifier could not decide.
pub open spec fn fell_back(place: Placement) -> bool {
    place.decision matches Some(d) && d.source == DecisionSource::Fallback
}

/// The upstream that serves a placement.
pub open spec fn server_of(config: SidecarConfig, place: Placement) -> Option<UpstreamConfig> {
    match place.tier {
        Some(t) => if fell_back(place) {
            config.fallback
        } else {
            match config.tiers.upstream(t) {
                Some(u) => Some(u),
                None => config.fallback,
            }
        },
        None => config.fallback,
    }
}

/// Why no upstream serves a placement.
pub open spec fn unserved(place: Placement, model: Seq<char>) -> Seq<char> {
    match place.tier {
        Some(t) => if fell_back(place) {
            "classifier fell back and no fallback upstream is configured"@
        } else {
            t.name() + " has no upstream configured and no fallback exists"@
        },
        None => "model '"@ + model + "' requires the fallback upstream, which is not configured"@,
    }
}

/// The upstream that serves a placement, or a refusal.
pub fn resolve<'a>(config: &'a SidecarConfig, place: &Placement, model: &str) -> (res: Result<
    &'a UpstreamConfig,
    Refusal,
>)
    ensures
        match res {
            Ok(u) => server_of(*config, *place) == Some(*u),
            Err(r) => server_of(*config, *place) is None && r.is(503, unserved(*place, model@)),
        },
{
    let degraded = match place.decision {
        Some(d) => match d.source {
            DecisionSource::Fallback => true,
            _ => false,
        },
        None => false,
    };
    let found = match place.tier {
        Some(t) => if degraded {
            config.fallback.as_ref()
        } else {
            match config.tiers.entry(t) {
                Some(u) => Some(u),
                None => config.fallback.as_ref(),
            }
        },
        None => config.fallback.as_ref(),
    };
    match found {
        Some(u) => Ok(u),
        None => {
            let message = match place.tier {
                Some(t) => if degraded {
                    "classifier fell back and no fallback upstream is configured".to_owned()
                } else {
                    let mut m = t.to_string();
                    m.append(" has no upstream configured and no fallback exists");
                    m
                },
                None => {
                    let mut m = "model '".to_owned();
                    m.append(model);
                    m.append("' requires the fallback upstream, which is not configured");
                    m
                },
            };
            Err(Refusal { status: 503, message })
        },
    }
}

/// A text without the slashes at its end.
pub open spec fn unslashed(s: Seq<char>) -> Seq<char>
    decreases s.len(),
{
    if s.len() > 0 && s.last() == '/' {
        unslashed(s.drop_last())
    } else {
        s
    }
}

/// A text without the slashes at its end.
pub fn trim_slashes(s: &str) -> (out: String)
    ensures
        out@ == unslashed(s@),
{
    let chars = chars_of(s);
    let mut n: usize = chars.len();
    assert(s@.take(n as int) =~= s@);
    while n > 0 && chars[n - 1] == '/'
        invariant
            n <= chars.len(),
            chars@ == s@,
            unslashed(s@) == unslashed(s@.take(n as int)),
        decreases n,
    {
        assert(s@.take(n as int).drop_last() =~= s@.take(n - 1));
        n -= 1;
    }
    let kept = copied(&chars, 0, n);
    assert(kept@ =~= s@.take(n as int));
    text_of(&kept)
}

/// Address of chat completions under a base URL.
pub open spec fn openai_url(base_url: Seq<char>) -> Seq<char> {
    unslashed(base_url) + "/chat/completions"@
}

/// Address of messages under a base URL, with or without the version.
pub open spec fn anthropic_url(base_url: Seq<char>) -> Seq<char> {
    if text::ends("/v1"@, unslashed(base_url)) {
        unslashed(base_url) + "/messages"@
    } else {
        unslashed(base_url) + "/v1/messages"@
    }
}

/// How an upstream wants its API key.
#[derive(Debug, Clone, Copy, PartialEq, Eq, Structural)]
pub enum Credential {
    /// As a bearer token.
    Bearer,
    /// In a header of its own, beside a version of the protocol.
    KeyHeader,
}

/// A request to an upstream.
#[derive(Debug)]
pub struct Forward {
    pub url: String,
    /// Environment variable that holds the API key.
    pub api_key_env: String,
    pub credential: Credential,
    /// The request, as JSON.
    pub body: String,
}

/// The request as an upstream gets it: a request that is routed names the
/// upstream's model, and one that is only passed through is left as it is.
pub open spec fn forwarded(aim: Aim, request: JsonView, model: Seq<char>) -> JsonView {
    match aim {
        Aim::Passthrough => request,
        _ => request.with("model"@, JsonView::Text(model)),
    }
}

/// Whether a request to an upstream is what a turn comes to.
pub open spec fn forwards(f: Forward, turn: Turn, upstream: UpstreamConfig) -> bool {
    match upstream {
        UpstreamConfig::Openai { base_url, model, api_key_env } => {
            &&& f.url@ == openai_url(base_url@)
            &&& f.api_key_env@ == api_key_env@
            &&& f.credential == Credential::Bearer
            &&& f.body@ == json::json_written(forwarded(turn.aim, turn.request.view(), model@))
        },
        UpstreamConfig::Anthropic { base_url, model, api_key_env } => {
            &&& f.url@ == anthropic_url(base_url@)
            &&& f.api_key_env@ == api_key_env@
            &&& f.credential == Credential::KeyHeader
            &&& f.body@ == json::json_written(forwarded(turn.aim, turn.request.view(), model@))
        },
        UpstreamConfig::BuiltinRwkv { .. } => false,
    }
}

/// The request as an upstream gets it, as JSON.
fn forwarded_body(turn: Turn, model: &str) -> (body: String)
    requires
        turn.request.view().shallow(json::WRITE_LEVELS as nat),
    ensures
        body@ == json::json_written(forwarded(turn.aim, turn.request.view(), model@)),
{
    let request = match turn.aim {
        Aim::Passthrough => turn.request,
        _ => turn.request.with("model", Json::text(model)),
    };
    proof {
        broadcast use json::group_shallow;

        assert(request.view().shallow(json::WRITE_LEVELS as nat));
    }
    write_json(&request)
}

/// What is done with a request that has an upstream.
#[derive(Debug)]
pub enum Dispatch {
    /// Generate locally with the model of a tier.
    Local { tier: RouteClass, job: LocalJob },
    /// Ask an HTTP upstream.
    Http(Forward),
}

/// Whether this is done with a request that has an upstream: a local one
/// generates, and any other is asked.
pub open spec fn dispatches(
    protocol: Protocol,
    turn: Turn,
    place: Placement,
    upstream: UpstreamConfig,
    res: Dispatch,
) -> bool {
    match upstream {
        UpstreamConfig::BuiltinRwkv { .. } => {
            &&& res matches Dispatch::Local { tier, job }
            &&& tier == match place.tier {
                Some(t) => t,
                None => RouteClass::R1,
            }
            &&& job.prompt@ == request::prompt_of(
                request::conversation(protocol, turn.request.view()),
            )
            &&& request::asks_for(job.params, protocol, turn.request.view())
            &&& text::contents(job.params.stop@) == request::stop_texts(
                protocol,
                turn.request.view(),
            ).push("\nUser:"@).push("\nSystem:"@)
        },
        _ => res matches Dispatch::Http(f) && forwards(f, turn, upstream),
    }
}

/// What is done with a request that has an upstream.
pub fn dispatch(protocol: Protocol, turn: Turn, place: &Placement, upstream: &UpstreamConfig) -> (res:
    Dispatch)
    requires
        turn.request.view().shallow(json::WRITE_LEVELS as nat),
    ensures
        dispatches(protocol, turn, *place, *upstream, res),
{
    match upstream {
        UpstreamConfig::BuiltinRwkv { .. } => Dispatch::Local {
            tier: match place.tier {
                Some(t) => t,
                None => RouteClass::R1,
            },
            job: local_job(protocol, &turn.request),
        },
        UpstreamConfig::Openai { base_url, model, api_key_env } => {
            let mut url = trim_slashes(base_url.as_str());
            url.append("/chat/completions");
            Dispatch::Http(
                Forward {
                    url,
                    api_key_env: api_key_env.as_str().to_owned(),
                    credential: Credential::Bearer,
                    body: forwarded_body(turn, model.as_str()),
                },
            )
        },
        UpstreamConfig::Anthropic { base_url, model, api_key_env } => {
            let mut url = trim_slashes(base_url.as_str());
            if ends_with(url.as_str(), "/v1") {
                url.append("/messages");
            } else {
                url.append("/v1/messages");
            }
            Dispatch::Http(
                Forward {
                    url,
                    api_key_env: api_key_env.as_str().to_owned(),
                    credential: Credential::KeyHeader,
                    body: forwarded_body(turn, model.as_str()),
                },
            )
        },
    }
}

/// The API key of an upstream, given what the environment holds; without one
/// the request is refused.
pub fn api_key(variable: &str, value: Option<String>) -> (res: Result<String, Refusal>)
    ensures
        match value {
            Some(key) if key@.len() > 0 => res matches Ok(k) && k@ == key@,
            _ => res matches Err(r) && r.is(
                500,
                "environment variable "@ + variable@
                    + " is not set (required for the upstream API key)"@,
            ),
        },
{
    if let Some(key) = value {
        if key.as_str().unicode_len() > 0 {
            return Ok(key);
        }
    }
    let mut message = "environment variable ".to_owned();
    message.append(variable);
    message.append(" is not set (required for the upstream API key)");
    Err(Refusal { status: 500, message })
}

/// The version of the Anthropic protocol that an upstream is told.
pub fn protocol_version(inbound: Option<&str>) -> (res: String)
    ensures
        res@ == match inbound {
            Some(v) => v@,
            None => "2023-06-01"@,
        },
{
    match inbound {
        Some(v) => v.to_owned(),
        None => "2023-06-01".to_owned(),
    }
}

/// The content type that an upstream's answer is relayed with.
pub fn relayed_type(upstream: Option<&str>) -> (res: String)
    ensures
        res@ == match upstream {
            Some(v) => v@,
            None => "application/json"@,
        },
{
    match upstream {
        Some(v) => v.to_owned(),
        None => "application/json".to_owned(),
    }
}

/// Whether an upstream's answer is relayed piece by piece: an event stream was
/// asked for, and one came.
pub fn relays_stream(stream: bool, content_type: &str) -> (res: bool)
    ensures
        res == (stream && text::occurs("text/event-stream"@, content_type@)),
{
    stream && contains(content_type, "text/event-stream")
}

/// A refusal because an upstream failed.
fn upstream_failed(cause: &str, fault: &str) -> (r: Refusal)
    ensures
        r.is(502, cause@ + fault@),
{
    let mut message = cause.to_owned();
    message.append(fault);
    Refusal { status: 502, message }
}

/// A refusal because an upstream could not be asked.
pub fn request_failed(fault: &str) -> (r: Refusal)
    ensures
        r.is(502, "upstream request failed: "@ + fault@),
{
    upstream_failed("upstream request failed: ", fault)
}

/// A refusal because an upstream's answer broke off.
pub fn body_failed(fault: &str) -> (r: Refusal)
    ensures
        r.is(502, "upstream body read failed: "@ + fault@),
{
    upstream_failed("upstream body read failed: ", fault)
}

/// A refusal because the generation task broke off.
pub fn generation_panicked(fault: &str) -> (r: Refusal)
    ensures
        r.is(502, "generation task panicked: "@ + fault@),
{
    upstream_failed("generation task panicked: ", fault)
}

/// A refusal because local generation failed.
pub fn generation_failed(tier: RouteClass, fault: &str) -> (r: Refusal)
    ensures
        r.is(502, "builtin generation failed ("@ + tier.name() + "): "@ + fault@),
{
    let mut message = "builtin generation failed (".to_owned();
    message.append(tier.as_str());
    message.append("): ");
    message.append(fault);
    Refusal { status: 502, message }
}

/// A routed request reaches its upstream with the upstream's model name, and
/// with everything else as the client wrote it.
pub proof fn only_the_model_is_rewritten(
    aim: Aim,
    request: JsonView,
    model: Seq<char>,
    key: Seq<char>,
)
    requires
        request is Object,
    ensures
        !(aim is Passthrough) ==> forwarded(aim, request, model).get("model"@) == Some(
            JsonView::Text(model),
        ),
        key != "model"@ ==> forwarded(aim, request, model).get(key) == request.get(key),
        aim is Passthrough ==> forwarded(aim, request, model) == request,
{
    json::setting_is_local(request, "model"@, JsonView::Text(model), key);
}

/// With a fallback upstream every request is served.
pub proof fn fallback_serves_all(config: SidecarConfig, place: Placement)
    requires
        config.fallback is Some,
    ensures
        server_of(config, place) is Some,
{
}

/// The model names of the tiers force their tier, whatever their case.
pub proof fn tier_names_force_their_tier(tier: RouteClass)
    ensures
        request::tier_alias(tier.name()) == Some(tier),
        request::tier_alias(text::lowercased(tier.name())) == Some(tier),
        request::tier_alias(AUTO_MODEL@) is None,
{
    reveal_strlit("ai00-auto");
    reveal_strlit("R0");
    reveal_strlit("R1");
    reveal_strlit("R2");
    reveal_strlit("R3");
    crate::tier::tier_roundtrip(tier);
    assert(text::uppercased(tier.name()) =~= tier.name());
    assert(text::uppercased(text::lowercased(tier.name())) =~= tier.name());
    assert(text::uppercased(AUTO_MODEL@).len() == 9);
}

/// The upstream that is configured for a tier.
pub open spec fn configured(config: SidecarConfig, tier: RouteClass) -> Option<UpstreamConfig> {
    match tier {
        RouteClass::R0 => config.tiers.r0,
        RouteClass::R1 => config.tiers.r1,
        RouteClass::R2 => config.tiers.r2,
        RouteClass::R3 => config.tiers.r3,
    }
}

/// A request goes to the upstream of its tier: the one that was decided on, or
/// the one that was asked for. It goes to the fallback where that tier has no
/// upstream, where nothing could be decided, and where it asked for neither.
pub proof fn requests_go_to_their_tier(config: SidecarConfig, aim: Aim, decided: RoutingDecision)
    ensures
        ({
            let served = server_of(config, aim.placed(decided));
            match aim {
                Aim::Classify { .. } => if decided.source == DecisionSource::Fallback
                    || configured(config, decided.route) is None {
                    served == config.fallback
                } else {
                    served == configured(config, decided.route)
                },
                Aim::Forced(tier) => if configured(config, tier) is None {
                    served == config.fallback
                } else {
                    served == configured(config, tier)
                },
                Aim::Passthrough => served == config.fallback,
            }
        }),
{
}

/// The model name says what is asked for: `ai00-auto`, or none, has the last
/// word of the user classified, a tier name forces the tier, and any other
/// name is passed through.
pub proof fn model_names_decide(aim: Aim, protocol: Protocol, request: JsonView, tier: RouteClass)
    requires
        aims_at(aim, protocol, request),
    ensures
        request.get("model"@) is None ==> aim is Classify,
        request.get("model"@) == Some(JsonView::Text("ai00-auto"@)) ==> aim is Classify,
        request.get("model"@) == Some(JsonView::Text(tier.name())) ==> aim == Aim::Forced(tier),
        request.get("model"@) == Some(JsonView::Text(text::lowercased(tier.name()))) ==> aim
            == Aim::Forced(tier),
        request.get("model"@) matches Some(JsonView::Text(s)) && s != "ai00-auto"@ && s.len() != 2
            ==> aim is Passthrough,
        aim matches Aim::Classify { input, turn_index } ==> {
            let all = request::conversation(protocol, request);
            &&& turn_index == all.len()
            &&& exists|k: int|
                0 <= k < all.len() && #[trigger] all[k] == ("user"@, input@) && (forall|j: int|
                    k < j < all.len() ==> (#[trigger] all[j]).0 != "user"@)
        },
{
    tier_names_force_their_tier(tier);
    request::last_word_of_the_user_decides(protocol, request);
    reveal_strlit("R0");
    reveal_strlit("R1");
    reveal_strlit("R2");
    reveal_strlit("R3");
    if let Some(JsonView::Text(s)) = request.get("model"@) {
        assert(text::uppercased(s).len() == s.len());
    }
}

/// A base loses the slashes at its end and nothing else.
pub proof fn only_slashes_are_dropped(s: Seq<char>)
    ensures
        ({
            let out = unslashed(s);
            &&& out.len() <= s.len()
            &&& out == s.take(out.len() as int)
            &&& forall|i: int| out.len() <= i < s.len() ==> #[trigger] s[i] == '/'
            &&& out.len() > 0 ==> out.last() != '/'
        }),
    decreases s.len(),
{
    let out = unslashed(s);
    if s.len() > 0 && s.last() == '/' {
        let rest = s.drop_last();
        only_slashes_are_dropped(rest);
        assert(rest.take(out.len() as int) =~= s.take(out.len() as int));
        assert forall|i: int| out.len() <= i < s.len() implies #[trigger] s[i] == '/' by {
            if i < s.len() - 1 {
                assert(rest[i] == s[i]);
            }
        }
    } else {
        assert(s.take(s.len() as int) =~= s);
    }
}

/// Addresses are put together the same, with or without a slash at the end of
/// the base, and for Anthropic with or without the version.
pub proof fn addresses_are_put_together(base: Seq<char>)
    requires
        base.len() > 0,
        base.last() != '/',
        !text::ends("/v1"@, base),
    ensures
        openai_url(base) == base + "/chat/completions"@,
        openai_url(base.push('/')) == base + "/chat/completions"@,
        anthropic_url(base) == base + "/v1/messages"@,
        anthropic_url(base.push('/')) == base + "/v1/messages"@,
        anthropic_url(base + "/v1"@) == base + "/v1/messages"@,
        anthropic_url((base + "/v1"@).push('/')) == base + "/v1/messages"@,
{
    reveal_strlit("/v1");
    reveal_strlit("/messages");
    reveal_strlit("/v1/messages");
    let more = base + "/v1"@;
    assert(base.push('/').drop_last() =~= base);
    assert(more.push('/').drop_last() =~= more);
    assert(more.last() == "/v1"@[2]);
    assert("/v1"@[2] == '1');
    assert(unslashed(base) == base);
    assert(unslashed(base.push('/')) == base);
    assert(unslashed(more) == more);
    assert(unslashed(more.push('/')) == more);
    assert(more.skip(more.len() - "/v1"@.len()) =~= "/v1"@);
    assert("/v1"@ + "/messages"@ =~= "/v1/messages"@);
    assert(more + "/messages"@ =~= base + "/v1/messages"@);
}

/// An OpenAI upstream gets the key as a bearer token and an Anthropic upstream
/// in a header; both get the request at the address of their protocol.
pub proof fn upstreams_are_asked_their_way(f: Forward, turn: Turn, upstream: UpstreamConfig)
    requires
        forwards(f, turn, upstream),
    ensures
        upstream matches UpstreamConfig::Openai { base_url, model, api_key_env } ==> {
            &&& f.credential == Credential::Bearer
            &&& text::ends("/chat/completions"@, f.url@)
            &&& f.api_key_env@ == api_key_env@
        },
        upstream matches UpstreamConfig::Anthropic { base_url, model, api_key_env } ==> {
            &&& f.credential == Credential::KeyHeader
            &&& text::ends("/messages"@, f.url@)
            &&& f.api_key_env@ == api_key_env@
        },
        !(upstream is BuiltinRwkv),
{
    reveal_strlit("/v1/messages");
    reveal_strlit("/messages");
    reveal_strlit("/v1");
    match upstream {
        UpstreamConfig::Openai { base_url, model, api_key_env } => {
            let b = unslashed(base_url@);
            assert((b + "/chat/completions"@).skip(b.len() as int) =~= "/chat/completions"@);
        },
        UpstreamConfig::Anthropic { base_url, model, api_key_env } => {
            let b = unslashed(base_url@);
            let c = b + "/v1"@;
            assert("/v1"@ + "/messages"@ =~= "/v1/messages"@);
            assert(b + "/v1/messages"@ =~= c + "/messages"@);
            assert((b + "/messages"@).skip(b.len() as int) =~= "/messages"@);
            assert((c + "/messages"@).skip(c.len() as int) =~= "/messages"@);
        },
        _ => {},
    }
}

/// The label of a turn names the tier, and says where the tier was forced or
/// nothing could be decided; what is passed through has none.
pub proof fn labels_name_the_tier(aim: Aim, decided: RoutingDecision)
    ensures
        ({
            let label = label_of(aim.placed(decided));
            match aim {
                Aim::Classify { .. } => label == Some(
                    if decided.source == DecisionSource::Fallback {
                        decided.route.name() + "(fallback)"@
                    } else {
                        decided.route.name()
                    },
                ),
                Aim::Forced(tier) => label == Some(tier.name() + "(forced)"@),
                Aim::Passthrough => label is None,
            }
        }),
{
}

/// Whether a message is of the user, is not blank, and is the last one of the
/// user.
pub open spec fn is_last_word(messages: Seq<(Seq<char>, Seq<char>)>, k: int) -> bool {
    &&& 0 <= k < messages.len()
    &&& messages[k].0 == "user"@
    &&& text::trimmed(messages[k].1).len() > 0
    &&& forall|j: int| k < j < messages.len() ==> (#[trigger] messages[j]).0 != "user"@
}

/// A request that can be read is refused exactly where it is to be classified
/// and the last word of the user is blank or missing; otherwise it is taken
/// whole.
pub proof fn only_wordless_requests_are_refused(
    res: Result<Turn, Refusal>,
    protocol: Protocol,
    request: JsonView,
)
    requires
        taken(res, protocol, Ok(request)),
    ensures
        request.get("model"@) matches Some(JsonView::Text(s)) && s != "ai00-auto"@ ==> res is Ok,
        request.get("model"@) is None || request.get("model"@) == Some(
            JsonView::Text("ai00-auto"@),
        ) ==> (res is Ok <==> exists|k: int| #[trigger]
            is_last_word(request::conversation(protocol, request), k)),
        res matches Ok(turn) ==> {
            &&& turn.request.view() == request
            &&& turn.stream <==> request.get("stream"@) == Some(JsonView::Bool(true))
        },
{
    request::last_word_of_the_user_decides(protocol, request);
    reveal_strlit("R0");
    reveal_strlit("R1");
    reveal_strlit("R2");
    reveal_strlit("R3");
    reveal_strlit("ai00-auto");
    assert(text::uppercased("ai00-auto"@).len() == 9);
    let all = request::conversation(protocol, request);
    if let Some(s) = request::classified_text(protocol, request) {
        let k = choose|k: int|
            0 <= k < all.len() && #[trigger] all[k] == ("user"@, s) && (forall|j: int|
                k < j < all.len() ==> (#[trigger] all[j]).0 != "user"@);
        assert(is_last_word(all, k));
    }
}

/// A local upstream generates with the model of the tier, from the whole
/// conversation, and stops where the text would go on as the user; an upstream
/// that is asked gets the same request under its own model name.
pub proof fn local_upstreams_generate(
    protocol: Protocol,
    turn: Turn,
    place: Placement,
    upstream: UpstreamConfig,
    res: Dispatch,
)
    requires
        dispatches(protocol, turn, place, upstream, res),
    ensures
        res is Local <==> upstream is BuiltinRwkv,
        res matches Dispatch::Local { tier, job } ==> {
            &&& place.tier matches Some(t) ==> tier == t
            &&& place.tier is None ==> tier == RouteClass::R1
            &&& text::contents(job.params.stop@).contains("\nUser:"@)
            &&& text::contents(job.params.stop@).contains("\nSystem:"@)
            &&& forall|i: int|
                0 <= i < request::stop_texts(protocol, turn.request.view()).len()
                    ==> text::contents(job.params.stop@).contains(
                    #[trigger] request::stop_texts(protocol, turn.request.view())[i],
                )
        },
        res matches Dispatch::Http(f) ==> exists|body: JsonView|
            f.body@ == #[trigger] json::json_written(body) && {
                &&& turn.aim is Passthrough ==> body == turn.request.view()
                &&& !(turn.aim is Passthrough) && turn.request.view() is Object ==> {
                    &&& upstream matches UpstreamConfig::Openai { model, .. } ==> body.get(
                        "model"@,
                    ) == Some(JsonView::Text(model@))
                    &&& upstream matches UpstreamConfig::Anthropic { model, .. } ==> body.get(
                        "model"@,
                    ) == Some(JsonView::Text(model@))
                    &&& forall|key: Seq<char>|
                        key != "model"@ ==> #[trigger] body.get(key) == turn.request.view().get(key)
                }
            },
{
    if let Dispatch::Local { tier, job } = res {
        let own = request::stop_texts(protocol, turn.request.view());
        let all = text::contents(job.params.stop@);
        let n = own.len() as int;
        assert(all[n] == "\nUser:"@);
        assert(all[n + 1] == "\nSystem:"@);
        assert forall|i: int| 0 <= i < own.len() implies all.contains(#[trigger] own[i]) by {
            assert(all[i] == own[i]);
        }
    }
    if let Dispatch::Http(f) = res {
        let request = turn.request.view();
        let model = match upstream {
            UpstreamConfig::Openai { model, .. } => model@,
            UpstreamConfig::Anthropic { model, .. } => model@,
            _ => Seq::empty(),
        };
        let body = forwarded(turn.aim, request, model);
        assert(f.body@ == json::json_written(body));
        if !(turn.aim is Passthrough) && request is Object {
            assert forall|key: Seq<char>| key != "model"@ implies #[trigger] body.get(key)
                == request.get(key) by {
                json::setting_is_local(request, "model"@, JsonView::Text(model), key);
            }
            json::setting_is_local(request, "model"@, JsonView::Text(model), "model"@);
        }
    }
}

} // verus!
