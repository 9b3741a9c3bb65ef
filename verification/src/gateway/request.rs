//! What the gateway reads out of a request: the conversation, the text to
//! classify, the sampling parameters and the prompt.

use crate::builtin::generate::{GenParams, ONE};
use crate::json;
use crate::json::{Json, JsonView};
use crate::single::Single;
use crate::text;
use crate::text::{same, to_ascii_uppercase, trim};
use crate::tier::RouteClass;
use vstd::prelude::*;
use vstd::string::*;

verus! {

/// The model name that has a request classified.
pub const AUTO_MODEL: &'static str = "ai00-auto";

/// Most tokens that a request may ask for.
pub const MAX_TOKENS_LIMIT: usize = 32768;

/// Protocol of a request, and so of its upstream.
#[derive(Debug, Clone, Copy, PartialEq, Eq, Structural)]
pub enum Protocol {
    Openai,
    Anthropic,
}

/// The tier that a model name stands for: `R0` to `R3`, in any case.
pub open spec fn tier_alias(model: Seq<char>) -> Option<RouteClass> {
    RouteClass::named(text::uppercased(model))
}

/// The tier that a model name stands for.
pub fn parse_tier_alias(model: &str) -> (res: Option<RouteClass>)
    ensures
        res == tier_alias(model@),
{
    RouteClass::parse_from_str(to_ascii_uppercase(model).as_str())
}

/// The texts of the first `n` parts of a content, other parts left out.
pub open spec fn text_parts(parts: Seq<JsonView>, n: int) -> Seq<Seq<char>>
    decreases n,
{
    if n <= 0 {
        Seq::empty()
    } else if parts[n - 1].text_at("type"@) == Some("text"@) {
        text_parts(parts, n - 1).push(
            match parts[n - 1].text_at("text"@) {
                Some(s) => s,
                None => Seq::empty(),
            },
        )
    } else {
        text_parts(parts, n - 1)
    }
}

/// The text of a content: a text, or a list of parts.
pub open spec fn content_text(content: JsonView) -> Seq<char> {
    match content {
        JsonView::Text(s) => s,
        JsonView::List(parts) => text::joined(text_parts(parts, parts.len() as int), " "@),
        _ => Seq::empty(),
    }
}

/// The text of a content.
pub fn content_to_text(content: &Json) -> (out: String)
    ensures
        out@ == content_text(content.view()),
{
    match content {
        Json::Text(s) => s.as_str().to_owned(),
        Json::List(parts) => {
            let ghost items = content.view()->List_0;
            let mut out = String::new();
            let mut first = true;
            let mut i: usize = 0;
            while i < parts.len()
                invariant
                    i <= parts@.len(),
                    json::lists(items, parts@),
                    out@ == text::joined(text_parts(items, i as int), " "@),
                    first == (text_parts(items, i as int).len() == 0),
                decreases parts@.len() - i,
            {
                let part = &parts[i];
                assert(items[i as int] == part.view());
                let ghost before = text_parts(items, i as int);
                let is_text = match part.text_at("type") {
                    Some(kind) => same(kind, "text"),
                    None => false,
                };
                if is_text {
                    let piece = match part.text_at("text") {
                        Some(s) => s,
                        None => "",
                    };
                    proof {
                        reveal_strlit("");
                        assert(""@ =~= Seq::<char>::empty());
                        assert(before.push(piece@).drop_last() =~= before);
                    }
                    if first {
                        out = piece.to_owned();
                        first = false;
                    } else {
                        out.append(" ");
                        out.append(piece);
                    }
                }
                i += 1;
            }
            out
        },
        _ => String::new(),
    }
}

/// Messages by role and text.
pub open spec fn shown(messages: Seq<(String, String)>) -> Seq<(Seq<char>, Seq<char>)> {
    messages.map_values(|m: (String, String)| (m.0@, m.1@))
}

/// The role of a message; empty where none is given.
pub open spec fn role_of(message: JsonView) -> Seq<char> {
    match message.text_at("role"@) {
        Some(s) => s,
        None => Seq::empty(),
    }
}

/// The text of a message; empty where there is no content.
pub open spec fn said(message: JsonView) -> Seq<char> {
    match message.get("content"@) {
        Some(content) => content_text(content),
        None => Seq::empty(),
    }
}

/// The first `n` messages, those without text left out.
pub open spec fn messages_upto(list: Seq<JsonView>, n: int) -> Seq<(Seq<char>, Seq<char>)>
    decreases n,
{
    if n <= 0 {
        Seq::empty()
    } else if said(list[n - 1]).len() > 0 {
        messages_upto(list, n - 1).push((role_of(list[n - 1]), said(list[n - 1])))
    } else {
        messages_upto(list, n - 1)
    }
}

/// The leading system message that the Anthropic protocol gives beside the
/// messages.
pub open spec fn system_message(protocol: Protocol, request: JsonView) -> Seq<
    (Seq<char>, Seq<char>),
> {
    match (protocol, request.get("system"@)) {
        (Protocol::Anthropic, Some(system)) => if content_text(system).len() > 0 {
            seq![("system"@, content_text(system))]
        } else {
            Seq::empty()
        },
        _ => Seq::empty(),
    }
}

/// The messages of a request.
pub open spec fn conversation(protocol: Protocol, request: JsonView) -> Seq<
    (Seq<char>, Seq<char>),
> {
    system_message(protocol, request) + match request.list_at("messages"@) {
        Some(list) => messages_upto(list, list.len() as int),
        None => Seq::empty(),
    }
}

/// The messages of a request by role and text.
pub fn extract_messages(protocol: Protocol, request: &Json) -> (out: Vec<(String, String)>)
    ensures
        shown(out@) == conversation(protocol, request.view()),
{
    let mut out: Vec<(String, String)> = Vec::new();
    match protocol {
        Protocol::Anthropic => {
            if let Some(system) = request.get("system") {
                let text = content_to_text(system);
                if text.as_str().unicode_len() > 0 {
                    out.push(("system".to_owned(), text));
                }
            }
        },
        Protocol::Openai => {},
    }
    let ghost lead = system_message(protocol, request.view());
    assert(shown(out@) =~= lead);
    if let Some(list) = request.list_at("messages") {
        let ghost items = request.view().list_at("messages"@)->Some_0;
        let mut i: usize = 0;
        while i < list.len()
            invariant
                i <= list@.len(),
                json::lists(items, list@),
                shown(out@) =~= lead + messages_upto(items, i as int),
            decreases list@.len() - i,
        {
            let m = &list[i];
            assert(items[i as int] == m.view());
            proof {
                reveal_strlit("");
                assert(""@ =~= Seq::<char>::empty());
            }
            let role = match m.text_at("role") {
                Some(s) => s,
                None => "",
            };
            let text = match m.get("content") {
                Some(content) => content_to_text(content),
                None => String::new(),
            };
            if text.as_str().unicode_len() > 0 {
                let ghost before = out@;
                out.push((role.to_owned(), text));
                assert(shown(out@) =~= shown(before).push((role@, text@)));
            }
            i += 1;
        }
    }
    out
}

/// The text of the last message of the user.
pub open spec fn last_of_user(messages: Seq<(Seq<char>, Seq<char>)>) -> Option<Seq<char>>
    decreases messages.len(),
{
    if messages.len() == 0 {
        None
    } else if messages.last().0 == "user"@ {
        Some(messages.last().1)
    } else {
        last_of_user(messages.drop_last())
    }
}

/// The text that a request is classified by: that of the last message of the
/// user, unless it is blank.
pub open spec fn classified_text(protocol: Protocol, request: JsonView) -> Option<Seq<char>> {
    match last_of_user(conversation(protocol, request)) {
        Some(s) => if text::trimmed(s).len() > 0 {
            Some(s)
        } else {
            None
        },
        None => None,
    }
}

/// The text that a request is classified by.
pub fn last_user_text(protocol: Protocol, request: &Json) -> (res: Option<String>)
    ensures
        match res {
            Some(s) => classified_text(protocol, request.view()) == Some(s@),
            None => classified_text(protocol, request.view()) is None,
        },
{
    let messages = extract_messages(protocol, request);
    let ghost all = shown(messages@);
    let mut n: usize = messages.len();
    assert(all.take(n as int) =~= all);
    while n > 0
        invariant
            n <= messages@.len(),
            all == shown(messages@),
            all == conversation(protocol, request.view()),
            last_of_user(all) == last_of_user(all.take(n as int)),
        decreases n,
    {
        let ghost upto = all.take(n as int);
        assert(upto.drop_last() =~= all.take(n - 1));
        assert(upto.last() == (messages@[n - 1].0@, messages@[n - 1].1@));
        if same(messages[n - 1].0.as_str(), "user") {
            let said = messages[n - 1].1.as_str();
            if trim(said).as_str().unicode_len() == 0 {
                return None;
            }
            return Some(said.to_owned());
        }
        n -= 1;
    }
    None
}

/// Number of messages of a request.
pub fn message_count(protocol: Protocol, request: &Json) -> (n: usize)
    ensures
        n == conversation(protocol, request.view()).len(),
{
    let messages = extract_messages(protocol, request);
    assert(shown(messages@).len() == messages@.len());
    messages.len()
}

/// Most tokens to generate: what is asked for, brought between one and the
/// limit, and where nothing is, 512 or 1024 by protocol.
pub open spec fn token_budget(protocol: Protocol, request: JsonView) -> usize {
    match request.count_at("max_tokens"@) {
        Some(v) => if (v as usize) < 1 {
            1
        } else if (v as usize) > MAX_TOKENS_LIMIT {
            MAX_TOKENS_LIMIT
        } else {
            v as usize
        },
        None => match protocol {
            Protocol::Openai => 512,
            Protocol::Anthropic => 1024,
        },
    }
}

/// The number that a key has, or another.
pub open spec fn number_or(request: JsonView, key: Seq<char>, other: u32) -> Single {
    match request.number_at(key) {
        Some(v) => v,
        None => Single { bits: other },
    }
}

/// A number brought between zero and one; one that is none stays as it is.
pub open spec fn unit(x: Single) -> Single {
    if x.below((Single { bits: 0 })) {
        Single { bits: 0 }
    } else if (Single { bits: ONE }).below(x) {
        Single { bits: ONE }
    } else {
        x
    }
}

/// The first `n` items that are texts.
pub open spec fn texts_upto(items: Seq<JsonView>, n: int) -> Seq<Seq<char>>
    decreases n,
{
    if n <= 0 {
        Seq::empty()
    } else {
        match items[n - 1].as_str() {
            Some(s) => texts_upto(items, n - 1).push(s),
            None => texts_upto(items, n - 1),
        }
    }
}

/// The texts that end the generation, by the key that the protocol has for
/// them.
pub open spec fn stop_texts(protocol: Protocol, request: JsonView) -> Seq<Seq<char>> {
    let key = match protocol {
        Protocol::Openai => "stop"@,
        Protocol::Anthropic => "stop_sequences"@,
    };
    match request.list_at(key) {
        Some(items) => texts_upto(items, items.len() as int),
        None => Seq::empty(),
    }
}

/// Whether parameters are those of a request.
pub open spec fn asks_for(p: GenParams, protocol: Protocol, request: JsonView) -> bool {
    &&& p.max_tokens == token_budget(protocol, request)
    &&& p.temperature == number_or(request, "temperature"@, ONE)
    &&& p.top_p == match request.number_at("top_p"@) {
        Some(v) => unit(v),
        None => Single { bits: crate::builtin::generate::DEFAULT_TOP_P },
    }
    &&& p.top_k == 128
    &&& p.presence_penalty == number_or(request, "presence_penalty"@, 0)
    &&& p.frequency_penalty == number_or(request, "frequency_penalty"@, 0)
    &&& p.penalty_decay.bits == crate::builtin::generate::DEFAULT_PENALTY_DECAY
    &&& p.stop_on_eos
}

/// The texts of a list.
fn text_items(items: &Vec<Json>, Ghost(views): Ghost<Seq<JsonView>>) -> (out: Vec<String>)
    requires
        json::lists(views, items@),
    ensures
        text::contents(out@) == texts_upto(views, views.len() as int),
{
    let mut out: Vec<String> = Vec::new();
    let mut i: usize = 0;
    while i < items.len()
        invariant
            i <= items@.len(),
            json::lists(views, items@),
            text::contents(out@) =~= texts_upto(views, i as int),
        decreases items@.len() - i,
    {
        assert(views[i as int] == items@[i as int].view());
        if let Some(s) = items[i].as_str() {
            let ghost before = out@;
            out.push(s.to_owned());
            assert(text::contents(out@) =~= text::contents(before).push(s@));
        }
        i += 1;
    }
    out
}

/// The sampling parameters of a request.
pub fn gen_params_from_request(protocol: Protocol, request: &Json) -> (p: GenParams)
    ensures
        asks_for(p, protocol, request.view()),
        text::contents(p.stop@) == stop_texts(protocol, request.view()),
{
    let mut p = GenParams::default();
    match request.count_at("max_tokens") {
        Some(v) => {
            let n: usize = v as usize;
            p.max_tokens = if n < 1 {
                1
            } else if n > MAX_TOKENS_LIMIT {
                MAX_TOKENS_LIMIT
            } else {
                n
            };
        },
        None => {
            p.max_tokens = match protocol {
                Protocol::Openai => 512,
                Protocol::Anthropic => 1024,
            };
        },
    }
    if let Some(v) = request.number_at("temperature") {
        p.temperature = v;
    }
    if let Some(v) = request.number_at("top_p") {
        p.top_p = if v.less(Single { bits: 0 }) {
            Single { bits: 0 }
        } else if (Single { bits: ONE }).less(v) {
            Single { bits: ONE }
        } else {
            v
        };
    }
    if let Some(v) = request.number_at("presence_penalty") {
        p.presence_penalty = v;
    }
    if let Some(v) = request.number_at("frequency_penalty") {
        p.frequency_penalty = v;
    }
    let key = match protocol {
        Protocol::Openai => "stop",
        Protocol::Anthropic => "stop_sequences",
    };
    assert(text::contents(p.stop@) =~= Seq::empty());
    if let Some(items) = request.list_at(key) {
        p.stop = text_items(items, Ghost(request.view().list_at(key@)->Some_0));
    }
    p
}

/// The first `n` messages as the model reads them.
pub open spec fn prompt_upto(messages: Seq<(Seq<char>, Seq<char>)>, n: int) -> Seq<char>
    decreases n,
{
    if n <= 0 {
        Seq::empty()
    } else {
        prompt_upto(messages, n - 1) + messages[n - 1].0 + ": "@ + messages[n - 1].1 + "\n\n"@
    }
}

/// The prompt for messages: each as `role: text` with an empty line behind it,
/// and then the turn of the assistant.
pub open spec fn prompt_of(messages: Seq<(Seq<char>, Seq<char>)>) -> Seq<char> {
    prompt_upto(messages, messages.len() as int) + "Assistant:"@
}

/// The prompt for messages.
pub fn build_rwkv_prompt(messages: &[(String, String)]) -> (prompt: String)
    ensures
        prompt@ == prompt_of(shown(messages@)),
{
    let mut prompt = String::new();
    let ghost all = shown(messages@);
    let mut i: usize = 0;
    while i < messages.len()
        invariant
            i <= messages@.len(),
            all == shown(messages@),
            prompt@ =~= prompt_upto(all, i as int),
        decreases messages@.len() - i,
    {
        assert(all[i as int] == (messages@[i as int].0@, messages@[i as int].1@));
        prompt.append(messages[i].0.as_str());
        prompt.append(": ");
        prompt.append(messages[i].1.as_str());
        prompt.append("\n\n");
        i += 1;
    }
    prompt.append("Assistant:");
    prompt
}

/// What local generation is asked for: a prompt and its parameters.
#[derive(Debug)]
pub struct LocalJob {
    pub prompt: String,
    pub params: GenParams,
}

/// What local generation is asked for. It also stops where the next role would
/// speak.
pub fn local_job(protocol: Protocol, request: &Json) -> (job: LocalJob)
    ensures
        job.prompt@ == prompt_of(conversation(protocol, request.view())),
        asks_for(job.params, protocol, request.view()),
        text::contents(job.params.stop@) == stop_texts(protocol, request.view()).push(
            "\nUser:"@,
        ).push("\nSystem:"@),
{
    let messages = extract_messages(protocol, request);
    let mut params = gen_params_from_request(protocol, request);
    let ghost before = params.stop@;
    params.stop.push("\nUser:".to_owned());
    params.stop.push("\nSystem:".to_owned());
    assert(text::contents(params.stop@) =~= text::contents(before).push("\nUser:"@).push("\nSystem:"@));
    LocalJob { prompt: build_rwkv_prompt(&messages), params }
}

/// A request is classified by the last thing that the user said: a message of
/// the user with no later one, and not a blank one.
pub proof fn last_word_of_the_user_decides(protocol: Protocol, request: JsonView)
    ensures
        ({
            let all = conversation(protocol, request);
            match classified_text(protocol, request) {
                Some(s) => text::trimmed(s).len() > 0 && exists|k: int|
                    0 <= k < all.len() && #[trigger] all[k] == ("user"@, s) && (forall|j: int|
                        k < j < all.len() ==> (#[trigger] all[j]).0 != "user"@),
                None => forall|k: int|
                    0 <= k < all.len() && (#[trigger] all[k]).0 == "user"@ && (forall|j: int|
                        k < j < all.len() ==> (#[trigger] all[j]).0 != "user"@) ==> text::trimmed(
                        all[k].1,
                    ).len() == 0,
            }
        }),
{
    lemma_last_of_user(conversation(protocol, request));
}

proof fn lemma_last_of_user(all: Seq<(Seq<char>, Seq<char>)>)
    ensures
        match last_of_user(all) {
            Some(s) => exists|k: int|
                0 <= k < all.len() && #[trigger] all[k] == ("user"@, s) && (forall|j: int|
                    k < j < all.len() ==> (#[trigger] all[j]).0 != "user"@),
            None => forall|k: int| 0 <= k < all.len() ==> (#[trigger] all[k]).0 != "user"@,
        },
    decreases all.len(),
{
    if all.len() > 0 {
        let n = all.len() - 1;
        if all[n].0 == "user"@ {
            assert(all[n] == ("user"@, all[n].1));
        } else {
            let front = all.drop_last();
            lemma_last_of_user(front);
            match last_of_user(front) {
                Some(s) => {
                    let k = choose|k: int|
                        0 <= k < front.len() && #[trigger] front[k] == ("user"@, s) && (forall|
                            j: int,
                        |
                            k < j < front.len() ==> (#[trigger] front[j]).0 != "user"@);
                    assert(all[k] == ("user"@, s));
                    assert forall|j: int| k < j < all.len() implies (#[trigger] all[j]).0
                        != "user"@ by {
                        if j < n {
                            assert(front[j] == all[j]);
                        }
                    }
                },
                None => {
                    assert forall|k: int| 0 <= k < all.len() implies (#[trigger] all[k]).0
                        != "user"@ by {
                        if k < n {
                            assert(front[k] == all[k]);
                        }
                    }
                },
            }
        }
    }
}

/// A conversation that ends with a message of the user that is not blank is
/// classified by that message, whatever was said before.
pub proof fn new_messages_are_classified(
    protocol: Protocol,
    request: JsonView,
    before: Seq<(Seq<char>, Seq<char>)>,
    s: Seq<char>,
)
    requires
        conversation(protocol, request) == before.push(("user"@, s)),
        text::trimmed(s).len() > 0,
    ensures
        classified_text(protocol, request) == Some(s),
{
    last_word_of_the_user_decides(protocol, request);
    let all = conversation(protocol, request);
    let n = before.len() as int;
    assert(all[n] == ("user"@, s));
    match classified_text(protocol, request) {
        Some(t) => {
            let k = choose|k: int|
                0 <= k < all.len() && #[trigger] all[k] == ("user"@, t) && (forall|j: int|
                    k < j < all.len() ==> (#[trigger] all[j]).0 != "user"@);
            assert(k == n);
        },
        None => {
            assert(forall|j: int| n < j < all.len() ==> (#[trigger] all[j]).0 != "user"@);
        },
    }
}

proof fn lemma_messages_added(a: Seq<JsonView>, b: Seq<JsonView>, n: int)
    requires
        0 <= n <= b.len(),
    ensures
        messages_upto(a + b, a.len() + n) == messages_upto(a, a.len() as int) + messages_upto(b, n),
    decreases n,
{
    if n == 0 {
        lemma_messages_same(a + b, a, a.len() as int);
        assert(messages_upto(b, 0) =~= Seq::empty());
        assert(messages_upto(a, a.len() as int) + messages_upto(b, 0) =~= messages_upto(
            a,
            a.len() as int,
        ));
    } else {
        lemma_messages_added(a, b, n - 1);
        assert((a + b)[a.len() + n - 1] == b[n - 1]);
        assert(messages_upto(a + b, a.len() + n) =~= messages_upto(a, a.len() as int)
            + messages_upto(b, n));
    }
}

proof fn lemma_messages_same(a: Seq<JsonView>, b: Seq<JsonView>, n: int)
    requires
        n <= a.len(),
        n <= b.len(),
        forall|i: int| 0 <= i < n ==> a[i] == b[i],
    ensures
        messages_upto(a, n) == messages_upto(b, n),
    decreases n,
{
    if n > 0 {
        lemma_messages_same(a, b, n - 1);
    }
}

/// What is said first comes first: the conversation of two lists of messages,
/// one behind the other, is that of the first and then that of the second.
pub proof fn conversations_go_on(
    protocol: Protocol,
    request: JsonView,
    first: JsonView,
    second: JsonView,
    a: Seq<JsonView>,
    b: Seq<JsonView>,
)
    requires
        first.list_at("messages"@) == Some(a),
        second.list_at("messages"@) == Some(b),
        request.list_at("messages"@) == Some(a + b),
        request.get("system"@) == first.get("system"@),
    ensures
        conversation(protocol, request) == conversation(protocol, first) + conversation(
            Protocol::Openai,
            second,
        ),
{
    lemma_messages_added(a, b, b.len() as int);
    assert(conversation(protocol, request) =~= conversation(protocol, first) + conversation(
        Protocol::Openai,
        second,
    ));
}

/// A message with text stands in the conversation under its role, as it was
/// written; one without text does not.
pub proof fn messages_are_taken_over(request: JsonView, message: JsonView, role: Seq<char>, s: Seq<char>)
    requires
        request.list_at("messages"@) == Some(seq![message]),
        message.get("role"@) == Some(JsonView::Text(role)),
        message.get("content"@) == Some(JsonView::Text(s)),
    ensures
        conversation(Protocol::Openai, request) == if s.len() > 0 {
            seq![(role, s)]
        } else {
            Seq::empty()
        },
{
    let list = seq![message];
    assert(list[0] == message);
    assert(messages_upto(list, 0) =~= Seq::empty());
    assert(said(message) == s);
    assert(role_of(message) == role);
    assert(messages_upto(list, 1) =~= if s.len() > 0 {
        seq![(role, s)]
    } else {
        Seq::empty()
    });
    assert(conversation(Protocol::Openai, request) =~= messages_upto(list, 1));
}

/// The system text of the Anthropic protocol stands before everything else;
/// the OpenAI protocol has none beside its messages.
pub proof fn system_text_leads(request: JsonView, s: Seq<char>)
    requires
        request.get("system"@) == Some(JsonView::Text(s)),
    ensures
        s.len() > 0 ==> conversation(Protocol::Anthropic, request) == seq![("system"@, s)]
            + conversation(Protocol::Openai, request),
        s.len() == 0 ==> conversation(Protocol::Anthropic, request) == conversation(
            Protocol::Openai,
            request,
        ),
{
    let rest = match request.list_at("messages"@) {
        Some(list) => messages_upto(list, list.len() as int),
        None => Seq::empty(),
    };
    assert(conversation(Protocol::Openai, request) =~= rest);
    assert(s.len() == 0 ==> conversation(Protocol::Anthropic, request) =~= rest);
}

proof fn lemma_parts_same(a: Seq<JsonView>, b: Seq<JsonView>, n: int)
    requires
        n <= a.len(),
        n <= b.len(),
        forall|i: int| 0 <= i < n ==> a[i] == b[i],
    ensures
        text_parts(a, n) == text_parts(b, n),
    decreases n,
{
    if n > 0 {
        lemma_parts_same(a, b, n - 1);
    }
}

/// A further text part is added behind a blank, and any other part is passed
/// over.
pub proof fn parts_are_joined(parts: Seq<JsonView>, part: JsonView, s: Seq<char>)
    requires
        part.get("text"@) == Some(JsonView::Text(s)),
    ensures
        ({
            let before = content_text(JsonView::List(parts));
            let after = content_text(JsonView::List(parts.push(part)));
            let plain = forall|i: int|
                0 <= i < parts.len() ==> (#[trigger] parts[i]).get("type"@) != Some(
                    JsonView::Text("text"@),
                );
            &&& part.get("type"@) != Some(JsonView::Text("text"@)) ==> after == before
            &&& part.get("type"@) == Some(JsonView::Text("text"@)) && plain ==> after == s
            &&& part.get("type"@) == Some(JsonView::Text("text"@)) && !plain ==> after == before
                + " "@ + s
        }),
{
    let all = parts.push(part);
    let n = parts.len() as int;
    lemma_parts_same(all, parts, n);
    let some = text_parts(parts, n);
    lemma_parts_found(parts, n);
    if part.get("type"@) == Some(JsonView::Text("text"@)) {
        assert(text_parts(all, n + 1) =~= some.push(s));
        assert(some.push(s).drop_last() =~= some);
    }
}

proof fn lemma_parts_found(parts: Seq<JsonView>, n: int)
    requires
        0 <= n <= parts.len(),
    ensures
        (text_parts(parts, n).len() == 0) <==> forall|i: int|
            0 <= i < n ==> (#[trigger] parts[i]).get("type"@) != Some(JsonView::Text("text"@)),
    decreases n,
{
    if n > 0 {
        lemma_parts_found(parts, n - 1);
        if parts[n - 1].get("type"@) == Some(JsonView::Text("text"@)) {
            assert(parts[n - 1].text_at("type"@) == Some("text"@));
        }
    }
}

/// What is asked for is what is generated at most, between one token and the
/// limit; without a wish the protocol decides.
pub proof fn budgets_are_bounded(protocol: Protocol, request: JsonView)
    ensures
        1 <= token_budget(protocol, request) <= 32768,
        request.count_at("max_tokens"@) matches Some(n) ==> {
            &&& 1 <= n <= 32768 ==> token_budget(protocol, request) == n
            &&& n == 0 ==> token_budget(protocol, request) == 1
            &&& 32768 < n <= usize::MAX ==> token_budget(protocol, request) == 32768
        },
        request.count_at("max_tokens"@) is None ==> token_budget(protocol, request)
            == match protocol {
            Protocol::Openai => 512int,
            Protocol::Anthropic => 1024int,
        },
{
}

/// Every text in the list of stop texts is one, in order, and nothing else is.
pub proof fn stop_texts_are_the_texts(protocol: Protocol, request: JsonView, items: Seq<JsonView>)
    requires
        request.list_at(
            match protocol {
                Protocol::Openai => "stop"@,
                Protocol::Anthropic => "stop_sequences"@,
            },
        ) == Some(items),
    ensures
        stop_texts(protocol, request) == items.filter(|v: JsonView| v is Text).map_values(
            |v: JsonView| v->Text_0,
        ),
{
    lemma_texts(items, items.len() as int);
    assert(items.take(items.len() as int) =~= items);
}

proof fn lemma_texts(items: Seq<JsonView>, n: int)
    requires
        0 <= n <= items.len(),
    ensures
        texts_upto(items, n) == items.take(n).filter(|v: JsonView| v is Text).map_values(
            |v: JsonView| v->Text_0,
        ),
    decreases n,
{
    let f = |v: JsonView| v is Text;
    let g = |v: JsonView| v->Text_0;
    reveal(Seq::filter);
    if n > 0 {
        lemma_texts(items, n - 1);
        let part = items.take(n);
        assert(part.drop_last() =~= items.take(n - 1));
        assert(part.last() == items[n - 1]);
        let before = part.drop_last().filter(f);
        if f(part.last()) {
            assert(part.filter(f) == before.push(part.last()));
            assert(before.push(part.last()).map_values(g) =~= before.map_values(g).push(
                g(part.last()),
            ));
        }
    } else {
        assert(texts_upto(items, 0) =~= items.take(0).filter(f).map_values(g));
    }
}

/// The prompt goes through the messages in order, each as `role: text` with an
/// empty line behind it, and ends with the turn of the assistant.
pub proof fn prompts_go_through_the_messages(
    messages: Seq<(Seq<char>, Seq<char>)>,
    message: (Seq<char>, Seq<char>),
)
    ensures
        prompt_of(Seq::empty()) == "Assistant:"@,
        exists|said: Seq<char>| #[trigger]
            (said + "Assistant:"@) == prompt_of(messages) && prompt_of(messages.push(message))
                == said + message.0 + ": "@ + message.1 + "\n\n"@ + "Assistant:"@,
{
    assert(prompt_of(Seq::empty()) =~= "Assistant:"@);
    let n = messages.len() as int;
    let all = messages.push(message);
    lemma_prompt_same(all, messages, n);
    let before = prompt_upto(messages, n);
    assert(before + "Assistant:"@ == prompt_of(messages));
    assert(prompt_of(all) =~= before + message.0 + ": "@ + message.1 + "\n\n"@ + "Assistant:"@);
}

proof fn lemma_prompt_same(
    a: Seq<(Seq<char>, Seq<char>)>,
    b: Seq<(Seq<char>, Seq<char>)>,
    n: int,
)
    requires
        n <= a.len(),
        n <= b.len(),
        forall|i: int| 0 <= i < n ==> a[i] == b[i],
    ensures
        prompt_upto(a, n) == prompt_upto(b, n),
    decreases n,
{
    if n > 0 {
        lemma_prompt_same(a, b, n - 1);
    }
}

/// Each setting of a request is its own: a number that is given under its key
/// is taken, and one that is not given is as usual.
pub proof fn settings_go_by_their_key(
    p: GenParams,
    protocol: Protocol,
    request: JsonView,
    v: Single,
)
    requires
        asks_for(p, protocol, request),
    ensures
        request.number_at("temperature"@) == Some(v) ==> p.temperature == v,
        request.number_at("presence_penalty"@) == Some(v) ==> p.presence_penalty == v,
        request.number_at("frequency_penalty"@) == Some(v) ==> p.frequency_penalty == v,
        request.number_at("top_p"@) == Some(v) && !v.negative() && v.at_most(
            Single { bits: ONE },
        ) ==> p.top_p == v,
        request.number_at("temperature"@) is None ==> p.temperature.bits == ONE,
        request.number_at("presence_penalty"@) is None ==> p.presence_penalty.magnitude() == 0,
        request.number_at("frequency_penalty"@) is None ==> p.frequency_penalty.magnitude() == 0,
        request.number_at("top_p"@) is Some && !(request.number_at("top_p"@)->0).nan()
            ==> !p.top_p.nan() && 0 <= p.top_p.order() <= ONE,
{
}

} // verus!
