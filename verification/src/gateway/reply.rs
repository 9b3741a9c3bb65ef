//! What the gateway answers: completions, event streams and errors.

use crate::gateway::request::Protocol;
use crate::json;
use crate::json::{write_json, Json, JsonView};
use crate::text;
use crate::text::decimal_text;
use vstd::prelude::*;
use vstd::string::*;

verus! {

/// An answer to be sent.
#[derive(Debug)]
pub struct Reply {
    /// HTTP status.
    pub status: u16,
    pub content_type: String,
    /// Whether the answer must not be kept by caches.
    pub no_cache: bool,
    pub body: String,
}

impl Reply {
    /// Whether an answer is a JSON value.
    pub open spec fn says(self, status: u16, value: JsonView) -> bool {
        &&& self.status == status
        &&& self.content_type@ == "application/json"@
        &&& !self.no_cache
        &&& self.body@ == json::json_written(value)
    }
}

/// An answer that is a JSON value.
pub fn json_response(status: u16, body: &Json) -> (res: Reply)
    requires
        body.view().shallow(json::WRITE_LEVELS as nat),
    ensures
        res.says(status, body.view()),
{
    Reply {
        status,
        content_type: "application/json".to_owned(),
        no_cache: false,
        body: write_json(body),
    }
}

/// An error as a protocol has it.
pub open spec fn error_value(protocol: Protocol, message: Seq<char>) -> JsonView {
    match protocol {
        Protocol::Openai => JsonView::object().and(
            "error"@,
            JsonView::object().and("message"@, JsonView::Text(message)).and(
                "type"@,
                JsonView::Text("gateway_error"@),
            ).and("code"@, JsonView::Text("rwkv_router_gateway"@)),
        ),
        Protocol::Anthropic => JsonView::object().and("type"@, JsonView::Text("error"@)).and(
            "error"@,
            JsonView::object().and("type"@, JsonView::Text("gateway_error"@)).and(
                "message"@,
                JsonView::Text(message),
            ),
        ),
    }
}

impl Protocol {
    /// An error as the protocol has it.
    pub fn error_body(&self, message: &str) -> (res: Json)
        ensures
            res.view() == error_value(*self, message@),
    {
        match self {
            Protocol::Openai => Json::object().and(
                "error",
                Json::object().and("message", Json::text(message)).and(
                    "type",
                    Json::text("gateway_error"),
                ).and("code", Json::text("rwkv_router_gateway")),
            ),
            Protocol::Anthropic => Json::object().and("type", Json::text("error")).and(
                "error",
                Json::object().and("type", Json::text("gateway_error")).and(
                    "message",
                    Json::text(message),
                ),
            ),
        }
    }
}

/// An answer that is an error.
pub fn plain_error(protocol: Protocol, status: u16, message: &str) -> (res: Reply)
    ensures
        res.says(status, error_value(protocol, message@)),
{
    broadcast use json::group_shallow;

    json_response(status, &protocol.error_body(message))
}

/// About how many tokens a text has: one for each four characters, and at
/// least one.
pub open spec fn token_estimate(text: Seq<char>) -> u64 {
    if (text.len() as u64) / 4 < 1 {
        1
    } else {
        (text.len() as u64) / 4
    }
}

/// About how many tokens a text has.
pub fn approx_tokens(text: &str) -> (n: u64)
    ensures
        n == token_estimate(text@),
{
    let n: u64 = text.unicode_len() as u64 / 4;
    if n < 1 {
        1
    } else {
        n
    }
}

/// An identifier made of a prefix and a time in milliseconds.
pub open spec fn stamped(prefix: Seq<char>, millis: u128) -> Seq<char> {
    prefix + "-"@ + text::decimal(millis as nat)
}

/// An identifier made of a prefix and a time in milliseconds.
pub fn new_id(prefix: &str, millis: u128) -> (id: String)
    ensures
        id@ == stamped(prefix@, millis),
{
    let mut id = prefix.to_owned();
    id.append("-");
    id.append(decimal_text(millis).as_str());
    id
}

/// A finished text as an OpenAI completion.
pub open spec fn completion(
    model: Seq<char>,
    text: Seq<char>,
    millis: u128,
    secs: u64,
) -> JsonView {
    JsonView::object().and("id"@, JsonView::Text(stamped("chatcmpl-rvr"@, millis))).and(
        "object"@,
        JsonView::Text("chat.completion"@),
    ).and("created"@, JsonView::count(secs)).and("model"@, JsonView::Text(model)).and(
        "choices"@,
        JsonView::list().item(
            JsonView::object().and("index"@, JsonView::count(0)).and(
                "message"@,
                JsonView::object().and("role"@, JsonView::Text("assistant"@)).and(
                    "content"@,
                    JsonView::Text(text),
                ),
            ).and("finish_reason"@, JsonView::Text("stop"@)),
        ),
    ).and(
        "usage"@,
        JsonView::object().and("prompt_tokens"@, JsonView::count(0)).and(
            "completion_tokens"@,
            JsonView::count(token_estimate(text)),
        ).and("total_tokens"@, JsonView::count(token_estimate(text))),
    )
}

/// A finished text as an OpenAI completion, made at a time given in
/// milliseconds and in seconds.
pub fn openai_completion_json(model: &str, text: &str, millis: u128, secs: u64) -> (res: Json)
    ensures
        res.view() == completion(model@, text@, millis, secs),
{
    let choice = Json::object().and("index", Json::count(0)).and(
        "message",
        Json::object().and("role", Json::text("assistant")).and("content", Json::text(text)),
    ).and("finish_reason", Json::text("stop"));
    let usage = Json::object().and("prompt_tokens", Json::count(0)).and(
        "completion_tokens",
        Json::count(approx_tokens(text)),
    ).and("total_tokens", Json::count(approx_tokens(text)));
    Json::object().and("id", Json::Text(new_id("chatcmpl-rvr", millis))).and(
        "object",
        Json::text("chat.completion"),
    ).and("created", Json::count(secs)).and("model", Json::text(model)).and(
        "choices",
        Json::list().item(choice),
    ).and("usage", usage)
}

/// A finished text as an Anthropic message.
pub open spec fn message_value(model: Seq<char>, text: Seq<char>, millis: u128) -> JsonView {
    JsonView::object().and("id"@, JsonView::Text(stamped("msg_rvr"@, millis))).and(
        "type"@,
        JsonView::Text("message"@),
    ).and("role"@, JsonView::Text("assistant"@)).and("model"@, JsonView::Text(model)).and(
        "content"@,
        JsonView::list().item(
            JsonView::object().and("type"@, JsonView::Text("text"@)).and(
                "text"@,
                JsonView::Text(text),
            ),
        ),
    ).and("stop_reason"@, JsonView::Text("end_turn"@)).and("stop_sequence"@, JsonView::Null).and(
        "usage"@,
        JsonView::object().and("input_tokens"@, JsonView::count(0)).and(
            "output_tokens"@,
            JsonView::count(token_estimate(text)),
        ),
    )
}

/// A finished text as an Anthropic message, made at a time given in
/// milliseconds.
pub fn anthropic_message_json(model: &str, text: &str, millis: u128) -> (res: Json)
    ensures
        res.view() == message_value(model@, text@, millis),
{
    let block = Json::object().and("type", Json::text("text")).and("text", Json::text(text));
    let usage = Json::object().and("input_tokens", Json::count(0)).and(
        "output_tokens",
        Json::count(approx_tokens(text)),
    );
    Json::object().and("id", Json::Text(new_id("msg_rvr", millis))).and(
        "type",
        Json::text("message"),
    ).and("role", Json::text("assistant")).and("model", Json::text(model)).and(
        "content",
        Json::list().item(block),
    ).and("stop_reason", Json::text("end_turn")).and("stop_sequence", Json::Null).and(
        "usage",
        usage,
    )
}

/// One frame of an event stream without a name.
pub open spec fn data_frame(data: JsonView) -> Seq<char> {
    "data: "@ + json::json_written(data) + "\n\n"@
}

/// One frame of an event stream with a name.
pub open spec fn event_frame(event: Seq<char>, data: JsonView) -> Seq<char> {
    "event: "@ + event + "\n"@ + data_frame(data)
}

/// Appends a frame without a name.
fn push_data(sse: &mut String, data: &Json)
    requires
        data.view().shallow(json::WRITE_LEVELS as nat),
    ensures
        final(sse)@ == old(sse)@ + data_frame(data.view()),
{
    sse.append("data: ");
    sse.append(write_json(data).as_str());
    sse.append("\n\n");
    assert(sse@ =~= old(sse)@ + data_frame(data.view()));
}

/// Appends a frame with a name.
fn push_event(sse: &mut String, event: &str, data: &Json)
    requires
        data.view().shallow(json::WRITE_LEVELS as nat),
    ensures
        final(sse)@ == old(sse)@ + event_frame(event@, data.view()),
{
    sse.append("event: ");
    sse.append(event);
    sse.append("\n");
    push_data(sse, data);
    assert(sse@ =~= old(sse)@ + event_frame(event@, data.view()));
}

/// One chunk of an OpenAI event stream.
pub open spec fn chunk(
    model: Seq<char>,
    millis: u128,
    secs: u64,
    delta: JsonView,
    finish_reason: JsonView,
) -> JsonView {
    JsonView::object().and("id"@, JsonView::Text(stamped("chatcmpl-rvr"@, millis))).and(
        "object"@,
        JsonView::Text("chat.completion.chunk"@),
    ).and("created"@, JsonView::count(secs)).and("model"@, JsonView::Text(model)).and(
        "choices"@,
        JsonView::list().item(
            JsonView::object().and("index"@, JsonView::count(0)).and("delta"@, delta).and(
                "finish_reason"@,
                finish_reason,
            ),
        ),
    )
}

/// One chunk of an OpenAI event stream.
fn chunk_json(model: &str, millis: u128, secs: u64, delta: Json, finish_reason: Json) -> (res: Json)
    ensures
        res.view() == chunk(model@, millis, secs, delta.view(), finish_reason.view()),
{
    let choice = Json::object().and("index", Json::count(0)).and("delta", delta).and(
        "finish_reason",
        finish_reason,
    );
    Json::object().and("id", Json::Text(new_id("chatcmpl-rvr", millis))).and(
        "object",
        Json::text("chat.completion.chunk"),
    ).and("created", Json::count(secs)).and("model", Json::text(model)).and(
        "choices",
        Json::list().item(choice),
    )
}

/// The first delta of an OpenAI event stream: the role.
pub open spec fn opening_delta() -> JsonView {
    JsonView::object().and("role"@, JsonView::Text("assistant"@)).and(
        "content"@,
        JsonView::Text(""@),
    )
}

/// The delta of an OpenAI event stream that holds the text.
pub open spec fn text_delta(text: Seq<char>) -> JsonView {
    JsonView::object().and("content"@, JsonView::Text(text))
}

/// A finished text as an OpenAI event stream.
pub open spec fn openai_stream(
    model: Seq<char>,
    text: Seq<char>,
    millis: u128,
    secs: u64,
) -> Seq<char> {
    data_frame(chunk(model, millis, secs, opening_delta(), JsonView::Null)) + data_frame(
        chunk(model, millis, secs, text_delta(text), JsonView::Null),
    ) + data_frame(
        chunk(model, millis, secs, JsonView::object(), JsonView::Text("stop"@)),
    ) + "data: [DONE]\n\n"@
}

fn openai_sse(model: &str, text: &str, millis: u128, secs: u64) -> (sse: String)
    ensures
        sse@ == openai_stream(model@, text@, millis, secs),
{
    broadcast use json::group_shallow;

    let mut sse = String::new();
    let opening = Json::object().and("role", Json::text("assistant")).and("content", Json::text(""));
    push_data(&mut sse, &chunk_json(model, millis, secs, opening, Json::Null));
    let whole = Json::object().and("content", Json::text(text));
    push_data(&mut sse, &chunk_json(model, millis, secs, whole, Json::Null));
    push_data(&mut sse, &chunk_json(model, millis, secs, Json::object(), Json::text("stop")));
    sse.append("data: [DONE]\n\n");
    assert(sse@ =~= openai_stream(model@, text@, millis, secs));
    sse
}

/// The event that starts an Anthropic message.
pub open spec fn message_start(model: Seq<char>, millis: u128) -> JsonView {
    JsonView::object().and("type"@, JsonView::Text("message_start"@)).and(
        "message"@,
        JsonView::object().and("id"@, JsonView::Text(stamped("msg_rvr"@, millis))).and(
            "type"@,
            JsonView::Text("message"@),
        ).and("role"@, JsonView::Text("assistant"@)).and("model"@, JsonView::Text(model)).and(
            "content"@,
            JsonView::list(),
        ).and("stop_reason"@, JsonView::Null).and("stop_sequence"@, JsonView::Null).and(
            "usage"@,
            JsonView::object().and("input_tokens"@, JsonView::count(1)).and(
                "output_tokens"@,
                JsonView::count(0),
            ),
        ),
    )
}

/// The event that starts the one block of an Anthropic message.
pub open spec fn block_start() -> JsonView {
    JsonView::object().and("type"@, JsonView::Text("content_block_start"@)).and(
        "index"@,
        JsonView::count(0),
    ).and(
        "content_block"@,
        JsonView::object().and("type"@, JsonView::Text("text"@)).and(
            "text"@,
            JsonView::Text(""@),
        ),
    )
}

/// The event that holds the text of the one block.
pub open spec fn block_delta(text: Seq<char>) -> JsonView {
    JsonView::object().and("type"@, JsonView::Text("content_block_delta"@)).and(
        "index"@,
        JsonView::count(0),
    ).and(
        "delta"@,
        JsonView::object().and("type"@, JsonView::Text("text_delta"@)).and(
            "text"@,
            JsonView::Text(text),
        ),
    )
}

/// The event that ends the one block.
pub open spec fn block_stop() -> JsonView {
    JsonView::object().and("type"@, JsonView::Text("content_block_stop"@)).and(
        "index"@,
        JsonView::count(0),
    )
}

/// The event that says why an Anthropic message ended.
pub open spec fn message_delta(text: Seq<char>) -> JsonView {
    JsonView::object().and("type"@, JsonView::Text("message_delta"@)).and(
        "delta"@,
        JsonView::object().and("stop_reason"@, JsonView::Text("end_turn"@)).and(
            "stop_sequence"@,
            JsonView::Null,
        ),
    ).and(
        "usage"@,
        JsonView::object().and("output_tokens"@, JsonView::count(token_estimate(text))),
    )
}

/// The event that ends an Anthropic message.
pub open spec fn message_stop() -> JsonView {
    JsonView::object().and("type"@, JsonView::Text("message_stop"@))
}

/// A finished text as an Anthropic event stream.
pub open spec fn anthropic_stream(model: Seq<char>, text: Seq<char>, millis: u128) -> Seq<char> {
    event_frame("message_start"@, message_start(model, millis)) + event_frame(
        "content_block_start"@,
        block_start(),
    ) + event_frame("content_block_delta"@, block_delta(text)) + event_frame(
        "content_block_stop"@,
        block_stop(),
    ) + event_frame("message_delta"@, message_delta(text)) + event_frame(
        "message_stop"@,
        message_stop(),
    )
}

fn anthropic_sse(model: &str, text: &str, millis: u128) -> (sse: String)
    ensures
        sse@ == anthropic_stream(model@, text@, millis),
{
    broadcast use json::group_shallow;

    let mut sse = String::new();
    let usage = Json::object().and("input_tokens", Json::count(1)).and(
        "output_tokens",
        Json::count(0),
    );
    let message = Json::object().and("id", Json::Text(new_id("msg_rvr", millis))).and(
        "type",
        Json::text("message"),
    ).and("role", Json::text("assistant")).and("model", Json::text(model)).and(
        "content",
        Json::list(),
    ).and("stop_reason", Json::Null).and("stop_sequence", Json::Null).and("usage", usage);
    let start = Json::object().and("type", Json::text("message_start")).and("message", message);
    push_event(&mut sse, "message_start", &start);
    let block = Json::object().and("type", Json::text("text")).and("text", Json::text(""));
    let opened = Json::object().and("type", Json::text("content_block_start")).and(
        "index",
        Json::count(0),
    ).and("content_block", block);
    push_event(&mut sse, "content_block_start", &opened);
    let delta = Json::object().and("type", Json::text("text_delta")).and("text", Json::text(text));
    let filled = Json::object().and("type", Json::text("content_block_delta")).and(
        "index",
        Json::count(0),
    ).and("delta", delta);
    push_event(&mut sse, "content_block_delta", &filled);
    let closed = Json::object().and("type", Json::text("content_block_stop")).and(
        "index",
        Json::count(0),
    );
    push_event(&mut sse, "content_block_stop", &closed);
    let reason = Json::object().and("stop_reason", Json::text("end_turn")).and(
        "stop_sequence",
        Json::Null,
    );
    let spent = Json::object().and("output_tokens", Json::count(approx_tokens(text)));
    let ended = Json::object().and("type", Json::text("message_delta")).and("delta", reason).and(
        "usage",
        spent,
    );
    push_event(&mut sse, "message_delta", &ended);
    let stop = Json::object().and("type", Json::text("message_stop"));
    push_event(&mut sse, "message_stop", &stop);
    assert(sse@ =~= anthropic_stream(model@, text@, millis));
    sse
}

/// A finished text as the event stream of a protocol.
pub open spec fn stream_of(
    protocol: Protocol,
    model: Seq<char>,
    text: Seq<char>,
    millis: u128,
    secs: u64,
) -> Seq<char> {
    match protocol {
        Protocol::Openai => openai_stream(model, text, millis, secs),
        Protocol::Anthropic => anthropic_stream(model, text, millis),
    }
}

/// A finished text as the event stream of a protocol, so that clients that ask
/// for a stream are served too.
pub fn emulated_sse(protocol: Protocol, model: &str, text: &str, millis: u128, secs: u64) -> (res:
    Reply)
    ensures
        res.status == 200,
        res.content_type@ == "text/event-stream; charset=utf-8"@,
        res.no_cache,
        res.body@ == stream_of(protocol, model@, text@, millis, secs),
{
    Reply {
        status: 200,
        content_type: "text/event-stream; charset=utf-8".to_owned(),
        no_cache: true,
        body: match protocol {
            Protocol::Openai => openai_sse(model, text, millis, secs),
            Protocol::Anthropic => anthropic_sse(model, text, millis),
        },
    }
}

/// A finished text as a protocol has it.
pub open spec fn finished(
    protocol: Protocol,
    model: Seq<char>,
    text: Seq<char>,
    millis: u128,
    secs: u64,
) -> JsonView {
    match protocol {
        Protocol::Openai => completion(model, text, millis, secs),
        Protocol::Anthropic => message_value(model, text, millis),
    }
}

/// The answer that local generation gives.
pub fn local_reply(
    protocol: Protocol,
    stream: bool,
    model: &str,
    text: &str,
    millis: u128,
    secs: u64,
) -> (res: Reply)
    ensures
        stream ==> {
            &&& res.status == 200
            &&& res.content_type@ == "text/event-stream; charset=utf-8"@
            &&& res.no_cache
            &&& res.body@ == stream_of(protocol, model@, text@, millis, secs)
        },
        !stream ==> res.says(200, finished(protocol, model@, text@, millis, secs)),
{
    broadcast use json::group_shallow;

    if stream {
        emulated_sse(protocol, model, text, millis, secs)
    } else {
        let body = match protocol {
            Protocol::Openai => openai_completion_json(model, text, millis, secs),
            Protocol::Anthropic => anthropic_message_json(model, text, millis),
        };
        json_response(200, &body)
    }
}


/// The text that a finished answer holds, where the protocol has it.
pub open spec fn answer_text(protocol: Protocol, value: JsonView) -> Option<Seq<char>> {
    match protocol {
        Protocol::Openai => match value.list_at("choices"@) {
            Some(choices) => match choices[0].get("message"@) {
                Some(message) => message.text_at("content"@),
                None => None,
            },
            None => None,
        },
        Protocol::Anthropic => match value.list_at("content"@) {
            Some(blocks) => blocks[0].text_at("text"@),
            None => None,
        },
    }
}

/// Whatever the text is, a finished answer holds it whole, under the model name
/// that was asked for.
pub proof fn answers_hold_the_text(
    protocol: Protocol,
    model: Seq<char>,
    text: Seq<char>,
    millis: u128,
    secs: u64,
)
    ensures
        answer_text(protocol, finished(protocol, model, text, millis, secs)) == Some(text),
        finished(protocol, model, text, millis, secs).text_at("model"@) == Some(model),
{
    reveal_strlit("id");
    reveal_strlit("object");
    reveal_strlit("created");
    reveal_strlit("model");
    reveal_strlit("choices");
    reveal_strlit("index");
    reveal_strlit("message");
    reveal_strlit("role");
    reveal_strlit("content");
    reveal_strlit("type");
    reveal_strlit("text");
    assert("id"@.len() == 2 && "object"@.len() == 6 && "created"@.len() == 7);
    assert("model"@.len() == 5 && "choices"@.len() == 7 && "index"@.len() == 5);
    assert("created"@[1] == 'r' && "choices"@[1] == 'h');
    assert("message"@.len() == 7 && "role"@.len() == 4 && "content"@.len() == 7);
    assert("type"@[1] == 'y' && "text"@[1] == 'e' && "role"@[1] == 'o' && "model"@[1] == 'o');
    let value = finished(protocol, model, text, millis, secs);
    match protocol {
        Protocol::Openai => {
            let members = value->Object_0;
            assert(members[0].0 == "id"@ && members[1].0 == "object"@);
            assert(members[2].0 == "created"@ && members[3].0 == "model"@);
            assert(members[4].0 == "choices"@);
            reveal_with_fuel(json::member_from, 6);
            let choice = members[4].1->List_0[0];
            let parts = choice->Object_0;
            assert(parts[0].0 == "index"@ && parts[1].0 == "message"@);
            let said = parts[1].1->Object_0;
            assert(said[0].0 == "role"@ && said[1].0 == "content"@);
        },
        Protocol::Anthropic => {
            let members = value->Object_0;
            assert(members[0].0 == "id"@ && members[1].0 == "type"@);
            assert(members[2].0 == "role"@ && members[3].0 == "model"@);
            assert(members[4].0 == "content"@);
            reveal_with_fuel(json::member_from, 6);
            let block = members[4].1->List_0[0]->Object_0;
            assert(block[0].0 == "type"@ && block[1].0 == "text"@);
        },
    }
}

/// A stream carries the whole text: one of its frames holds it where a client
/// looks for it, and the stream ends as the protocol has it.
pub proof fn streams_carry_the_text(
    protocol: Protocol,
    model: Seq<char>,
    text: Seq<char>,
    millis: u128,
    secs: u64,
)
    ensures
        exists|before: Seq<char>, data: JsonView, after: Seq<char>|
            {
                &&& #[trigger] (before + data_frame(data) + after) == stream_of(
                    protocol,
                    model,
                    text,
                    millis,
                    secs,
                )
                &&& streamed_text(protocol, data) == Some(text)
            },
        protocol is Openai ==> text::ends(
            "data: [DONE]\n\n"@,
            stream_of(protocol, model, text, millis, secs),
        ),
{
    reveal_strlit("id");
    reveal_strlit("object");
    reveal_strlit("created");
    reveal_strlit("model");
    reveal_strlit("choices");
    reveal_strlit("index");
    reveal_strlit("delta");
    reveal_strlit("content");
    reveal_strlit("type");
    reveal_strlit("text");
    reveal_strlit("finish_reason");
    assert("id"@.len() == 2 && "object"@.len() == 6 && "created"@.len() == 7);
    assert("model"@.len() == 5 && "choices"@.len() == 7 && "index"@.len() == 5);
    assert("created"@[1] == 'r' && "choices"@[1] == 'h');
    assert("delta"@.len() == 5 && "index"@[0] == 'i' && "delta"@[0] == 'd');
    assert("type"@.len() == 4 && "text"@.len() == 4 && "type"@[1] == 'y' && "text"@[1] == 'e');
    reveal_with_fuel(json::member_from, 6);
    match protocol {
        Protocol::Openai => {
            let data = chunk(model, millis, secs, text_delta(text), JsonView::Null);
            let before = data_frame(chunk(model, millis, secs, opening_delta(), JsonView::Null));
            let after = data_frame(
                chunk(model, millis, secs, JsonView::object(), JsonView::Text("stop"@)),
            ) + "data: [DONE]\n\n"@;
            let whole = openai_stream(model, text, millis, secs);
            assert(before + data_frame(data) + after =~= whole);
            let members = data->Object_0;
            assert(members[0].0 == "id"@ && members[1].0 == "object"@);
            assert(members[2].0 == "created"@ && members[3].0 == "model"@);
            assert(members[4].0 == "choices"@);
            let choice = members[4].1->List_0[0];
            let parts = choice->Object_0;
            assert(parts[0].0 == "index"@ && parts[1].0 == "delta"@);
            let said = parts[1].1->Object_0;
            assert(said[0].0 == "content"@);
            assert(streamed_text(protocol, data) == Some(text));
            let end = "data: [DONE]\n\n"@;
            assert(whole.skip(whole.len() - end.len()) =~= end);
        },
        Protocol::Anthropic => {
            let data = block_delta(text);
            let named = "event: "@ + "content_block_delta"@ + "\n"@;
            let before = event_frame("message_start"@, message_start(model, millis)) + event_frame(
                "content_block_start"@,
                block_start(),
            ) + named;
            let after = event_frame("content_block_stop"@, block_stop()) + event_frame(
                "message_delta"@,
                message_delta(text),
            ) + event_frame("message_stop"@, message_stop());
            assert(before + data_frame(data) + after =~= anthropic_stream(model, text, millis));
            let members = data->Object_0;
            assert(members[0].0 == "type"@ && members[1].0 == "index"@ && members[2].0 == "delta"@);
            let said = members[2].1->Object_0;
            assert(said[0].0 == "type"@ && said[1].0 == "text"@);
            assert(streamed_text(protocol, data) == Some(text));
        },
    }
}

/// The text that a frame of a stream adds, where the protocol has it.
pub open spec fn streamed_text(protocol: Protocol, data: JsonView) -> Option<Seq<char>> {
    match protocol {
        Protocol::Openai => match data.list_at("choices"@) {
            Some(choices) => match choices[0].get("delta"@) {
                Some(delta) => delta.text_at("content"@),
                None => None,
            },
            None => None,
        },
        Protocol::Anthropic => match data.get("delta"@) {
            Some(delta) => delta.text_at("text"@),
            None => None,
        },
    }
}

/// A token is counted for each four characters, and one at the least.
pub proof fn four_characters_make_a_token(text: Seq<char>)
    requires
        text.len() <= u64::MAX,
    ensures
        token_estimate(text) >= 1,
        text.len() >= 4 ==> 4 * token_estimate(text) <= text.len() < 4 * token_estimate(text) + 4,
        text.len() < 4 ==> token_estimate(text) == 1,
{
}

/// An error carries its message where the client of a protocol looks for it.
pub proof fn errors_carry_their_message(protocol: Protocol, message: Seq<char>)
    ensures
        error_value(protocol, message).get("error"@) matches Some(e) && e.text_at("message"@)
            == Some(message),
{
    reveal_strlit("error");
    reveal_strlit("message");
    reveal_strlit("type");
    assert("error"@.len() == 5 && "message"@.len() == 7 && "type"@.len() == 4);
    reveal_with_fuel(json::member_from, 4);
    let members = error_value(protocol, message)->Object_0;
    match protocol {
        Protocol::Openai => {
            assert(members[0].0 == "error"@);
            assert(members[0].1->Object_0[0].0 == "message"@);
        },
        Protocol::Anthropic => {
            assert(members[0].0 == "type"@ && members[1].0 == "error"@);
            let said = members[1].1->Object_0;
            assert(said[0].0 == "type"@ && said[1].0 == "message"@);
        },
    }
}

} // verus!
