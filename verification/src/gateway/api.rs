//! The decision and evolution interface: what is read out of its requests and
//! what they are answered.

use crate::evolution::run::EvolveResult;
use crate::gateway::config::SidecarConfig;
use crate::gateway::request::AUTO_MODEL;
use crate::json;
use crate::json::{Json, JsonNumber, JsonView, NumberView};
use crate::text;
use crate::text::chars_of;
use crate::tier::RouteClass;
use vstd::prelude::*;
use vstd::string::*;

verus! {

/// Samples that a listing asks for where it does not say.
pub const DEFAULT_LIST_LIMIT: usize = 50;

/// What is said of a routing request that cannot be read.
pub const ROUTE_USAGE: &'static str =
    "expected {input: string, session_id?: string, summary?: string, turn_index?: number}";

/// The session of a routing request that names none.
pub const API_SESSION: &'static str = "api";

/// A value as an answer: the data, or what went wrong.
pub open spec fn wrapped(outcome: Result<JsonView, Seq<char>>) -> JsonView {
    match outcome {
        Ok(data) => JsonView::object().and("ok"@, JsonView::Bool(true)).and("data"@, data),
        Err(error) => JsonView::object().and("ok"@, JsonView::Bool(false)).and(
            "error"@,
            JsonView::Text(error),
        ),
    }
}

/// A value as an answer.
pub fn envelope(outcome: Result<Json, String>) -> (res: Json)
    ensures
        res.view() == wrapped(
            match outcome {
                Ok(v) => Ok(v.view()),
                Err(m) => Err(m@),
            },
        ),
{
    match outcome {
        Ok(data) => Json::object().and("ok", Json::Bool(true)).and("data", data),
        Err(error) => Json::object().and("ok", Json::Bool(false)).and("error", Json::Text(error)),
    }
}

/// The answer that something was done.
pub fn done() -> (res: Json)
    ensures
        res.view() == JsonView::object().and("ok"@, JsonView::Bool(true)),
{
    Json::object().and("ok", Json::Bool(true))
}

/// An object with one more member for a tier that is served.
pub open spec fn with_tier(value: JsonView, config: SidecarConfig, tier: RouteClass) -> JsonView {
    match config.tiers.upstream(tier) {
        Some(u) => value.and(tier.name(), JsonView::Text(u.kind_name())),
        None => value,
    }
}

/// The kinds of the upstreams that serve the tiers.
pub open spec fn tier_kinds(config: SidecarConfig) -> JsonView {
    with_tier(
        with_tier(
            with_tier(
                with_tier(JsonView::object(), config, RouteClass::R0),
                config,
                RouteClass::R1,
            ),
            config,
            RouteClass::R2,
        ),
        config,
        RouteClass::R3,
    )
}

/// The state of a gateway.
pub open spec fn health_value(version: Seq<char>, config: SidecarConfig, evolving: bool) -> JsonView {
    JsonView::object().and("ok"@, JsonView::Bool(true)).and("version"@, JsonView::Text(version)).and(
        "classifier_configured"@,
        JsonView::Bool(config.router.classifier is Some),
    ).and("evolution_configured"@, JsonView::Bool(evolving)).and("tiers"@, tier_kinds(config)).and(
        "fallback"@,
        match config.fallback {
            Some(u) => JsonView::Text(u.kind_name()),
            None => JsonView::Null,
        },
    )
}

/// An object with one more member for a tier that is served.
fn and_tier(value: Json, config: &SidecarConfig, tier: RouteClass) -> (res: Json)
    ensures
        res.view() == with_tier(value.view(), *config, tier),
{
    match config.tiers.entry(tier) {
        Some(u) => value.and(tier.as_str(), Json::text(u.kind())),
        None => value,
    }
}

/// The state of a gateway of a version, with or without an evolution loop.
pub fn health(version: &str, config: &SidecarConfig, evolving: bool) -> (res: Json)
    ensures
        res.view() == health_value(version@, *config, evolving),
{
    let tiers = and_tier(
        and_tier(
            and_tier(
                and_tier(Json::object(), config, RouteClass::R0),
                config,
                RouteClass::R1,
            ),
            config,
            RouteClass::R2,
        ),
        config,
        RouteClass::R3,
    );
    let fallback = match &config.fallback {
        Some(u) => Json::text(u.kind()),
        None => Json::Null,
    };
    Json::object().and("ok", Json::Bool(true)).and("version", Json::text(version)).and(
        "classifier_configured",
        Json::Bool(config.router.classifier.is_some()),
    ).and("evolution_configured", Json::Bool(evolving)).and("tiers", tiers).and(
        "fallback",
        fallback,
    )
}

/// A model as it is listed.
pub open spec fn model_value(id: Seq<char>) -> JsonView {
    JsonView::object().and("id"@, JsonView::Text(id)).and("object"@, JsonView::Text("model"@)).and(
        "created"@,
        JsonView::count(0),
    ).and("owned_by"@, JsonView::Text("rwkv-router"@))
}

fn model_json(id: &str) -> (res: Json)
    ensures
        res.view() == model_value(id@),
{
    Json::object().and("id", Json::text(id)).and("object", Json::text("model")).and(
        "created",
        Json::count(0),
    ).and("owned_by", Json::text("rwkv-router"))
}

/// The models that can be asked for.
pub open spec fn models_value() -> JsonView {
    JsonView::object().and("object"@, JsonView::Text("list"@)).and(
        "data"@,
        JsonView::list().item(model_value(AUTO_MODEL@)).item(model_value("R0"@)).item(
            model_value("R1"@),
        ).item(model_value("R2"@)).item(model_value("R3"@)),
    )
}

/// The models that can be asked for.
pub fn models() -> (res: Json)
    ensures
        res.view() == models_value(),
{
    let data = Json::list().item(model_json(AUTO_MODEL)).item(model_json("R0")).item(
        model_json("R1"),
    ).item(model_json("R2")).item(model_json("R3"));
    Json::object().and("object", Json::text("list")).and("data", data)
}

/// Whether a character is a decimal digit.
pub open spec fn is_digit(c: char) -> bool {
    '0' <= c && c <= '9'
}

/// The number that digits stand for.
pub open spec fn number_of(s: Seq<char>) -> nat
    decreases s.len(),
{
    if s.len() == 0 {
        0
    } else {
        number_of(s.drop_last()) * 10 + (s.last() as int - '0' as int) as nat
    }
}

/// A text without the plus sign at its start.
pub open spec fn unsigned(s: Seq<char>) -> Seq<char> {
    if s.len() > 0 && s[0] == '+' {
        s.skip(1)
    } else {
        s
    }
}

/// Whether a text is nothing but digits, and at least one.
pub open spec fn all_digits(s: Seq<char>) -> bool {
    s.len() > 0 && forall|i: int| 0 <= i < s.len() ==> is_digit(#[trigger] s[i])
}

/// The number that a text is, where it is nothing but digits, a plus sign
/// before them left aside, and not too large.
pub open spec fn count_named(s: Seq<char>) -> Option<usize> {
    if all_digits(unsigned(s)) && number_of(unsigned(s)) <= usize::MAX {
        Some(number_of(unsigned(s)) as usize)
    } else {
        None
    }
}

/// More digits never give a smaller number.
proof fn lemma_longer_is_larger(s: Seq<char>, n: int)
    requires
        0 <= n <= s.len(),
        all_digits(s),
    ensures
        number_of(s.take(n)) <= number_of(s),
    decreases s.len() - n,
{
    if n < s.len() {
        lemma_longer_is_larger(s, n + 1);
        let longer = s.take(n + 1);
        assert(longer.drop_last() =~= s.take(n));
        assert(is_digit(s[n]));
    } else {
        assert(s.take(n) =~= s);
    }
}

/// The number that a text is.
pub fn parse_count(s: &str) -> (res: Option<usize>)
    ensures
        res == count_named(s@),
{
    let chars = chars_of(s);
    let from: usize = if chars.len() > 0 && chars[0] == '+' {
        1
    } else {
        0
    };
    let ghost digits = unsigned(s@);
    if from == chars.len() {
        return None;
    }
    let mut value: u128 = 0;
    let mut i: usize = from;
    assert(digits.take(0).len() == 0);
    while i < chars.len()
        invariant
            from <= i <= chars.len(),
            from <= 1,
            chars@ == s@,
            digits == unsigned(s@),
            from == 1 <==> (s@.len() > 0 && s@[0] == '+'),
            from < chars.len(),
            value == number_of(digits.take(i - from)),
            value <= usize::MAX,
            forall|j: int| 0 <= j < i - from ==> is_digit(#[trigger] digits[j]),
        decreases chars.len() - i,
    {
        let c = chars[i];
        assert(digits[i - from] == c);
        if !('0' <= c && c <= '9') {
            assert(!is_digit(digits[i - from]));
            return None;
        }
        let ghost upto = digits.take(i - from + 1);
        assert(upto.drop_last() =~= digits.take(i - from));
        value = value * 10 + (c as u32 - '0' as u32) as u128;
        if value > usize::MAX as u128 {
            proof {
                if all_digits(digits) {
                    lemma_longer_is_larger(digits, i - from + 1);
                }
            }
            return None;
        }
        i += 1;
    }
    assert(digits.take(digits.len() as int) =~= digits);
    Some(value as usize)
}

/// A number written in decimal is read back.
pub proof fn counts_are_read_back(n: usize)
    ensures
        count_named(text::decimal(n as nat)) == Some(n),
{
    lemma_decimal(n as nat);
    let s = text::decimal(n as nat);
    assert(is_digit(s[0]));
}

/// A number in decimal is made of digits, and they stand for it.
proof fn lemma_decimal(n: nat)
    ensures
        text::decimal(n).len() > 0,
        forall|i: int| 0 <= i < text::decimal(n).len() ==> is_digit(#[trigger] text::decimal(n)[i]),
        number_of(text::decimal(n)) == n,
    decreases n,
{
    let s = text::decimal(n);
    if n < 10 {
        assert(s.drop_last() =~= Seq::empty());
        reveal_with_fuel(number_of, 2);
    } else {
        lemma_decimal(n / 10);
        assert(s.drop_last() =~= text::decimal(n / 10));
    }
}

/// Which samples a listing asks for.
#[derive(Debug, Clone, Copy, PartialEq, Eq, Structural)]
pub struct Page {
    pub offset: usize,
    pub limit: usize,
}

/// The number that an optional text is, or another.
pub open spec fn count_or(given: Option<&str>, other: usize) -> usize {
    match given {
        Some(s) => match count_named(s@) {
            Some(n) => n,
            None => other,
        },
        None => other,
    }
}

/// Which samples a listing asks for. What is no number counts as not given.
pub fn page(offset: Option<&str>, limit: Option<&str>) -> (res: Page)
    ensures
        res.offset == count_or(offset, 0),
        res.limit == count_or(limit, DEFAULT_LIST_LIMIT),
{
    let offset: usize = match offset {
        Some(s) => match parse_count(s) {
            Some(n) => n,
            None => 0,
        },
        None => 0,
    };
    let limit: usize = match limit {
        Some(s) => match parse_count(s) {
            Some(n) => n,
            None => DEFAULT_LIST_LIMIT,
        },
        None => DEFAULT_LIST_LIMIT,
    };
    Page { offset, limit }
}

/// The fields of a routing request: session, input, summary and turn. They are
/// members of an object, where they may be left out, or the four items of a
/// list, in this order.
pub struct RouteFields {
    pub session_id: Option<JsonView>,
    pub input: Option<JsonView>,
    pub summary: Option<JsonView>,
    pub turn_index: Option<JsonView>,
}

/// The fields of a routing request, where it can hold them.
pub open spec fn route_fields(body: JsonView) -> Option<RouteFields> {
    match body {
        JsonView::Object(_) => Some(
            RouteFields {
                session_id: body.get("session_id"@),
                input: body.get("input"@),
                summary: body.get("summary"@),
                turn_index: body.get("turn_index"@),
            },
        ),
        JsonView::List(items) => if items.len() == 4 {
            Some(
                RouteFields {
                    session_id: Some(items[0]),
                    input: Some(items[1]),
                    summary: Some(items[2]),
                    turn_index: Some(items[3]),
                },
            )
        } else {
            None
        },
        _ => None,
    }
}

/// The session that a routing request names, or the interface's own where it
/// names none. Nothing where what it names is no text.
pub open spec fn session_asked(field: Option<JsonView>) -> Option<Seq<char>> {
    match field {
        None => Some(API_SESSION@),
        Some(JsonView::Text(s)) => Some(s),
        _ => None,
    }
}

/// The summary of a routing request; it may be left out, or null. Nothing where
/// it is anything but a text.
pub open spec fn summary_asked(field: Option<JsonView>) -> Option<Option<Seq<char>>> {
    match field {
        None => Some(None),
        Some(JsonView::Null) => Some(None),
        Some(JsonView::Text(s)) => Some(Some(s)),
        _ => None,
    }
}

/// The turn of a routing request; the first where it is left out, or null.
/// Nothing where it is anything but a count.
pub open spec fn turn_asked(field: Option<JsonView>) -> Option<usize> {
    match field {
        None => Some(0),
        Some(JsonView::Null) => Some(0),
        Some(JsonView::Number(NumberView::Unsigned(n))) => if n <= usize::MAX {
            Some(n as usize)
        } else {
            None
        },
        _ => None,
    }
}

/// A request for a routing decision.
#[derive(Debug)]
pub struct RouteRequest {
    pub session_id: String,
    pub input: String,
    pub summary: Option<String>,
    pub turn_index: usize,
}

/// Whether `res` is what a request for a routing decision is read as.
pub open spec fn asks_routing(body: JsonView, res: Result<RouteRequest, String>) -> bool {
    match route_fields(body) {
        Some(f) => match (f.input, session_asked(f.session_id), summary_asked(f.summary), turn_asked(
            f.turn_index,
        )) {
            (Some(JsonView::Text(input)), Some(session), Some(summary), Some(turn)) => {
                &&& res matches Ok(r)
                &&& r.input@ == input
                &&& r.session_id@ == session
                &&& text::words(r.summary) == summary
                &&& r.turn_index == turn
            },
            _ => res matches Err(m) && m@ == ROUTE_USAGE@,
        },
        None => res matches Err(m) && m@ == ROUTE_USAGE@,
    }
}

/// Reads the fields of a request for a routing decision.
fn read_fields(
    session_id: Option<&Json>,
    input: Option<&Json>,
    summary: Option<&Json>,
    turn_index: Option<&Json>,
) -> (res: Option<RouteRequest>)
    ensures
        match (
            json::seen(input),
            session_asked(json::seen(session_id)),
            summary_asked(json::seen(summary)),
            turn_asked(json::seen(turn_index)),
        ) {
            (Some(JsonView::Text(input)), Some(session), Some(summary), Some(turn)) => {
                &&& res matches Some(r)
                &&& r.input@ == input
                &&& r.session_id@ == session
                &&& text::words(r.summary) == summary
                &&& r.turn_index == turn
            },
            _ => res is None,
        },
{
    let input = match input {
        Some(Json::Text(s)) => s.as_str().to_owned(),
        _ => {
            return None;
        },
    };
    let session_id = match session_id {
        None => API_SESSION.to_owned(),
        Some(Json::Text(s)) => s.as_str().to_owned(),
        _ => {
            return None;
        },
    };
    let summary: Option<String> = match summary {
        None => None,
        Some(Json::Null) => None,
        Some(Json::Text(s)) => Some(s.as_str().to_owned()),
        _ => {
            return None;
        },
    };
    let turn_index: usize = match turn_index {
        None => 0,
        Some(Json::Null) => 0,
        Some(Json::Number(JsonNumber::Unsigned(n))) => {
            if *n > usize::MAX as u64 {
                return None;
            }
            *n as usize
        },
        _ => {
            return None;
        },
    };
    Some(RouteRequest { session_id, input, summary, turn_index })
}

/// Reads a request for a routing decision.
pub fn route_request(body: &Json) -> (res: Result<RouteRequest, String>)
    ensures
        asks_routing(body.view(), res),
{
    let request = match body {
        Json::Object(_) => read_fields(
            body.get("session_id"),
            body.get("input"),
            body.get("summary"),
            body.get("turn_index"),
        ),
        Json::List(items) if items.len() == 4 => read_fields(
            Some(&items[0]),
            Some(&items[1]),
            Some(&items[2]),
            Some(&items[3]),
        ),
        _ => None,
    };
    match request {
        Some(r) => Ok(r),
        None => Err(ROUTE_USAGE.to_owned()),
    }
}

/// The label that a request gives: by number, where any number but that of a
/// tier clears the label, or by the name of a tier, where null clears it.
pub open spec fn label_asked(body: JsonView) -> Option<Option<u8>> {
    match body.integer_at("label"@) {
        Some(l) => Some(
            if 0 <= l <= 3 {
                Some(l as u8)
            } else {
                None
            },
        ),
        None => match body.get("tier"@) {
            Some(JsonView::Null) => Some(None),
            Some(JsonView::Text(s)) => match RouteClass::named(s) {
                Some(t) => Some(Some(t.rank() as u8)),
                None => None,
            },
            _ => None,
        },
    }
}

/// A request to label a sample.
#[derive(Debug, Clone, Copy)]
pub struct LabelRequest {
    pub idx: usize,
    pub label: Option<u8>,
}

/// Reads a request to label a sample.
pub fn label_request(body: &Json) -> (res: Result<LabelRequest, String>)
    ensures
        match (body.view().count_at("idx"@), label_asked(body.view())) {
            (None, _) => res matches Err(m) && m@ == "missing idx"@,
            (Some(_), None) => res matches Err(m) && m@ == "missing label"@,
            (Some(n), Some(to)) => {
                &&& res matches Ok(r)
                &&& r.idx == n as usize
                &&& r.label == to
            },
        },
{
    let idx: usize = match body.count_at("idx") {
        Some(n) => n as usize,
        None => {
            return Err("missing idx".to_owned());
        },
    };
    if let Some(l) = body.integer_at("label") {
        let label: Option<u8> = if 0 <= l && l <= 3 {
            Some(l as u8)
        } else {
            None
        };
        return Ok(LabelRequest { idx, label });
    }
    match body.get("tier") {
        Some(Json::Null) => Ok(LabelRequest { idx, label: None }),
        Some(Json::Text(s)) => match RouteClass::parse_from_str(s.as_str()) {
            Some(t) => Ok(LabelRequest { idx, label: Some(t.index() as u8) }),
            None => Err("missing label".to_owned()),
        },
        _ => Err("missing label".to_owned()),
    }
}

/// Whether an evolution is under way that was asked for, and how the last one
/// ended.
#[derive(Debug)]
pub struct EvolveStatus {
    pub running: bool,
    pub last: Option<EvolveResult>,
}

impl Default for EvolveStatus {
    fn default() -> (res: Self)
        ensures
            !res.running,
            res.last is None,
    {
        EvolveStatus { running: false, last: None }
    }
}

impl EvolveStatus {
    /// Starts; says whether nothing was under way.
    pub fn begin(&mut self) -> (free: bool)
        ensures
            free == !old(self).running,
            final(self).running,
            final(self).last == old(self).last,
    {
        let free = !self.running;
        self.running = true;
        free
    }

    /// Ends with a result.
    pub fn finish(&mut self, result: EvolveResult)
        ensures
            !final(self).running,
            final(self).last == Some(result),
    {
        self.last = Some(result);
        self.running = false;
    }

    /// Whether an evolution is under way.
    pub fn is_running(&self) -> (res: bool)
        ensures
            res == self.running,
    {
        self.running
    }

    /// How the last evolution ended.
    pub fn last_report(&self) -> (res: Option<&EvolveResult>)
        ensures
            match res {
                Some(r) => self.last == Some(*r),
                None => self.last is None,
            },
    {
        self.last.as_ref()
    }
}

/// The answer that an evolution was started, or that one is under way.
pub fn evolve_started(free: bool) -> (res: (u16, Json))
    ensures
        free ==> res.0 == 202 && res.1.view() == wrapped(
            Ok(JsonView::object().and("started"@, JsonView::Bool(true))),
        ),
        !free ==> res.0 == 409 && res.1.view() == wrapped(Err("evolution already running"@)),
{
    if free {
        (202, envelope(Ok(Json::object().and("started", Json::Bool(true)))))
    } else {
        (409, envelope(Err("evolution already running".to_owned())))
    }
}

/// The answer that says whether an evolution is under way, and how the last one
/// ended.
pub fn evolve_status(running: bool, last: Json) -> (res: Json)
    ensures
        res.view() == wrapped(
            Ok(
                JsonView::object().and("running"@, JsonView::Bool(running)).and(
                    "last"@,
                    last.view(),
                ),
            ),
        ),
{
    envelope(Ok(Json::object().and("running", Json::Bool(running)).and("last", last)))
}

/// A label is given by the number of a tier or by its name. Any other number
/// takes the label away, and so does null in place of a name.
pub proof fn labels_are_read(body: JsonView, n: u64, below: i64, tier: RouteClass)
    ensures
        body.get("label"@) == Some(JsonView::negative(below)) && below < 0 ==> label_asked(body)
            == Some(None::<u8>),
        body.get("label"@) == Some(JsonView::count(n)) && n <= i64::MAX ==> label_asked(body)
            == if n <= 3 {
            Some(Some(n as u8))
        } else {
            Some(None)
        },
        body.get("label"@) is None && body.get("tier"@) == Some(JsonView::Text(tier.name()))
            ==> label_asked(body) == Some(Some(tier.rank() as u8)),
        body.get("label"@) is None && body.get("tier"@) == Some(JsonView::Null) ==> label_asked(
            body,
        ) == Some(None::<u8>),
        body.get("label"@) is None && body.get("tier"@) is None ==> label_asked(body) is None,
{
    crate::tier::tier_roundtrip(tier);
}

/// What succeeded is handed over as data, and what failed as an error.
pub proof fn outcomes_are_told_apart(data: JsonView, error: Seq<char>)
    ensures
        wrapped(Ok(data)).get("ok"@) == Some(JsonView::Bool(true)),
        wrapped(Ok(data)).get("data"@) == Some(data),
        wrapped(Err(error)).get("ok"@) == Some(JsonView::Bool(false)),
        wrapped(Err(error)).get("error"@) == Some(JsonView::Text(error)),
        wrapped(Ok(data)).get("error"@) is None,
        wrapped(Err(error)).get("data"@) is None,
{
    reveal_strlit("ok");
    reveal_strlit("data");
    reveal_strlit("error");
    assert("ok"@.len() == 2 && "data"@.len() == 4 && "error"@.len() == 5);
    let none = JsonView::object();
    let good = none.and("ok"@, JsonView::Bool(true));
    let bad = none.and("ok"@, JsonView::Bool(false));
    json::added_members_are_found(none, "ok"@, JsonView::Bool(true), "data"@);
    json::added_members_are_found(none, "ok"@, JsonView::Bool(true), "error"@);
    json::added_members_are_found(none, "ok"@, JsonView::Bool(true), "ok"@);
    json::added_members_are_found(none, "ok"@, JsonView::Bool(false), "ok"@);
    json::added_members_are_found(none, "ok"@, JsonView::Bool(false), "data"@);
    json::added_members_are_found(none, "ok"@, JsonView::Bool(false), "error"@);
    json::added_members_are_found(good, "data"@, data, "ok"@);
    json::added_members_are_found(good, "data"@, data, "error"@);
    json::added_members_are_found(bad, "error"@, JsonView::Text(error), "ok"@);
    json::added_members_are_found(bad, "error"@, JsonView::Text(error), "data"@);
}

/// Every tier that has an upstream is shown with its kind, and no other.
pub proof fn tiers_are_shown_with_their_kind(config: SidecarConfig, tier: RouteClass)
    ensures
        tier_kinds(config).get(tier.name()) == match config.tiers.upstream(tier) {
            Some(u) => Some(JsonView::Text(u.kind_name())),
            None => None,
        },
{
    let (a, b, c, d) = (RouteClass::R0, RouteClass::R1, RouteClass::R2, RouteClass::R3);
    crate::tier::tier_roundtrip(a);
    crate::tier::tier_roundtrip(b);
    crate::tier::tier_roundtrip(c);
    crate::tier::tier_roundtrip(d);
    let v0 = JsonView::object();
    json::added_members_are_found(v0, a.name(), v0, tier.name());
    let v1 = with_tier(v0, config, a);
    let v2 = with_tier(v1, config, b);
    let v3 = with_tier(v2, config, c);
    lemma_with_tier(v0, config, a, tier);
    lemma_with_tier(v1, config, b, tier);
    lemma_with_tier(v2, config, c, tier);
    lemma_with_tier(v3, config, d, tier);
}

proof fn lemma_with_tier(value: JsonView, config: SidecarConfig, tier: RouteClass, other: RouteClass)
    requires
        value is Object,
        value.get(other.name()) is None || other != tier,
    ensures
        with_tier(value, config, tier) is Object,
        with_tier(value, config, tier).get(other.name()) == if other == tier {
            match config.tiers.upstream(tier) {
                Some(u) => Some(JsonView::Text(u.kind_name())),
                None => None,
            }
        } else {
            value.get(other.name())
        },
{
    crate::tier::tier_roundtrip(tier);
    crate::tier::tier_roundtrip(other);
    if let Some(u) = config.tiers.upstream(tier) {
        json::added_members_are_found(
            value,
            tier.name(),
            JsonView::Text(u.kind_name()),
            other.name(),
        );
    }
}

/// A request to route is read where its input is a text; what it leaves out is
/// as usual, and what it gives is kept. Four values in a list stand for the
/// four members, in order.
pub proof fn routing_requests_are_read(
    body: JsonView,
    res: Result<RouteRequest, String>,
    items: Seq<JsonView>,
    s: Seq<char>,
    n: u64,
)
    requires
        asks_routing(body, res),
        n <= usize::MAX,
    ensures
        body is Object && body.get("input"@) == Some(JsonView::Text(s)) && body.get(
            "session_id"@,
        ) is None && body.get("summary"@) is None && body.get("turn_index"@) is None ==> (res
            matches Ok(r) && r.input@ == s && r.session_id@ == "api"@ && r.summary is None
            && r.turn_index == 0),
        res matches Ok(r) && body is Object ==> body.get("input"@) == Some(
            JsonView::Text(res->Ok_0.input@),
        ),
        res is Ok && body is Object && body.get("session_id"@) == Some(JsonView::Text(s))
            ==> res->Ok_0.session_id@ == s,
        res is Ok && body is Object && body.get("turn_index"@) == Some(JsonView::count(n))
            ==> res->Ok_0.turn_index == n,
        res is Ok && body is Object && body.get("summary"@) == Some(JsonView::Text(s))
            ==> text::words(res->Ok_0.summary) == Some(s),
        res is Ok && body == JsonView::List(items) ==> items.len() == 4 && items[0]
            == JsonView::Text(res->Ok_0.session_id@) && items[1] == JsonView::Text(
            res->Ok_0.input@,
        ),
        !(body is Object) && !(body is List) ==> res is Err,
{
}

} // verus!
