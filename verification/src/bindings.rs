//! What the language bindings read out of their arguments.

use crate::builtin::generate::{GenParams, DEFAULT_PENALTY_DECAY, DEFAULT_TOP_P, ONE};
use crate::evolution::capture::{Evolution, EvolutionConfig};
use crate::json;
use crate::json::{read_json, Json, JsonView};
use crate::session;
use crate::single::Single;
use crate::tier::RouteClass;
use vstd::prelude::*;
use vstd::string::*;
use vstd::utf8::*;

verus! {

/// The tier with a name, for callers of the C interface.
pub fn tier_from_str(s: &str) -> (res: Result<RouteClass, String>)
    ensures
        match RouteClass::named(s@) {
            Some(t) => res == Ok::<RouteClass, String>(t),
            None => res matches Err(m) && m@ == "invalid tier '"@ + s@ + "' (expected R0-R3)"@,
        },
{
    match RouteClass::parse_from_str(s) {
        Some(t) => Ok(t),
        None => {
            let mut m = "invalid tier '".to_owned();
            m.append(s);
            m.append("' (expected R0-R3)");
            Err(m)
        },
    }
}

/// What the script bindings say of a name that is no tier.
pub open spec fn script_tier_fault(s: Seq<char>) -> Seq<char> {
    "invalid tier '"@ + s + "' (expected \"R0\"..\"R3\")"@
}

/// The tier with a name, for callers of the script bindings.
pub fn parse_tier(s: &str) -> (res: Result<RouteClass, String>)
    ensures
        match RouteClass::named(s@) {
            Some(t) => res == Ok::<RouteClass, String>(t),
            None => res matches Err(m) && m@ == script_tier_fault(s@),
        },
{
    match RouteClass::parse_from_str(s) {
        Some(t) => Ok(t),
        None => {
            let mut m = "invalid tier '".to_owned();
            m.append(s);
            m.append("' (expected \"R0\"..\"R3\")");
            Err(m)
        },
    }
}

/// The label that the script bindings give: a tier by name, or none.
pub fn label_from_tier(tier: Option<&str>) -> (res: Result<Option<u8>, String>)
    ensures
        match tier {
            None => res == Ok::<Option<u8>, String>(None),
            Some(s) => match RouteClass::named(s@) {
                Some(t) => res == Ok::<Option<u8>, String>(Some(t.rank() as u8)),
                None => res matches Err(m) && m@ == script_tier_fault(s@),
            },
        },
{
    match tier {
        None => Ok(None),
        Some(s) => match parse_tier(s) {
            Ok(t) => Ok(Some(t.index() as u8)),
            Err(m) => Err(m),
        },
    }
}

/// The label that a number stands for: none where it is negative. Numbers that
/// are too large for a label come out as the largest one, which is no tier.
pub open spec fn label_coded(label: i32) -> Option<u8> {
    if label < 0 {
        None
    } else if label > 255 {
        Some(255)
    } else {
        Some(label as u8)
    }
}

/// The label that the C interface gives.
pub fn label_from_code(label: i32) -> (res: Option<u8>)
    ensures
        res == label_coded(label),
{
    if label < 0 {
        None
    } else if label > 255 {
        Some(255)
    } else {
        Some(label as u8)
    }
}

/// A label given as a number is accepted exactly where it is a tier or
/// negative: every number above three is refused, and nothing is stored.
pub proof fn codes_above_the_tiers_are_refused(
    before: Evolution,
    after: Evolution,
    idx: usize,
    label: i32,
    res: Result<(), String>,
)
    requires
        session::labelled(before, after, idx, label_coded(label), res),
    ensures
        res is Ok <==> label <= 3 && idx < before.records@.len(),
        res is Err ==> after == before,
{
}

/// A text in which a zero character is a blank, as a C string needs it.
pub open spec fn without_zeros(s: Seq<char>) -> Seq<char> {
    s.map_values(
        |c: char|
            if c == '\0' {
                ' '
            } else {
                c
            },
    )
}

/// A text in which a zero character is a blank.
pub fn strip_zeros(s: &str) -> (out: String)
    ensures
        out@ == without_zeros(s@),
{
    let mut out = String::new();
    for c in it: s.chars()
        invariant
            it.seq() == s@,
            out@ == without_zeros(s@.take(it.index())),
    {
        let d: char = if c == '\0' {
            ' '
        } else {
            c
        };
        out.push(d);
        assert(s@.take(it.index() + 1) =~= s@.take(it.index()).push(c));
        assert(without_zeros(s@.take(it.index() + 1)) =~= without_zeros(
            s@.take(it.index()),
        ).push(d));
    }
    assert(s@.take(s@.len() as int) =~= s@);
    out
}

/// The text that a key has, or another.
pub open spec fn text_or(raw: JsonView, key: Seq<char>, other: Seq<char>) -> Seq<char> {
    match raw.text_at(key) {
        Some(s) => s,
        None => other,
    }
}

/// The number that a key has, or another.
pub open spec fn count_or(raw: JsonView, key: Seq<char>, other: usize) -> usize {
    match raw.count_at(key) {
        Some(n) => n as usize,
        None => other,
    }
}

/// Whether the evolution loop is configured as a JSON value says; whatever it
/// does not say is as usual.
pub open spec fn configured_by(ec: EvolutionConfig, raw: JsonView) -> bool {
    &&& ec.data_dir@ == text_or(raw, "data_dir"@, "router_evolution"@)
    &&& ec.head_path@ == text_or(raw, "head_path"@, "router_head.json"@)
    &&& match raw.text_at("packs_dir"@) {
        Some(s) => ec.packs_dir matches Some(p) && p@ == s,
        None => ec.packs_dir is None,
    }
    &&& ec.capture_limit == count_or(raw, "capture_limit"@, 2000)
    &&& ec.min_labeled_for_evolve == count_or(raw, "min_labeled_for_evolve"@, 20)
    &&& ec.auto_evolve_step == count_or(raw, "auto_evolve_step"@, 200)
}

/// The configuration of the evolution loop that a JSON value says.
pub fn evolution_config(raw: &Json) -> (ec: EvolutionConfig)
    ensures
        configured_by(ec, raw.view()),
{
    let mut ec = EvolutionConfig::default();
    if let Some(s) = raw.text_at("data_dir") {
        ec.data_dir = s.to_owned();
    }
    if let Some(s) = raw.text_at("head_path") {
        ec.head_path = s.to_owned();
    }
    if let Some(s) = raw.text_at("packs_dir") {
        ec.packs_dir = Some(s.to_owned());
    }
    if let Some(n) = raw.count_at("capture_limit") {
        ec.capture_limit = n as usize;
    }
    if let Some(n) = raw.count_at("min_labeled_for_evolve") {
        ec.min_labeled_for_evolve = n as usize;
    }
    if let Some(n) = raw.count_at("auto_evolve_step") {
        ec.auto_evolve_step = n as usize;
    }
    ec
}

/// The configuration of the evolution loop that a text says, if it could be
/// read.
pub fn evolution_config_read(read: Result<Json, String>) -> (res: Result<EvolutionConfig, String>)
    ensures
        match json::as_read(read) {
            Ok(raw) => res matches Ok(ec) && configured_by(ec, raw),
            Err(fault) => res matches Err(m) && m@ == "invalid EvolutionConfig JSON: "@ + fault,
        },
{
    match read {
        Ok(raw) => Ok(evolution_config(&raw)),
        Err(fault) => {
            let mut m = "invalid EvolutionConfig JSON: ".to_owned();
            m.append(fault.as_str());
            Err(m)
        },
    }
}

/// The configuration of the evolution loop that a text says; without a text,
/// the usual one.
pub fn parse_evolution_config(text: Option<&str>) -> (res: Result<EvolutionConfig, String>)
    ensures
        match text {
            None => res matches Ok(ec) && configured_by(ec, JsonView::object()),
            Some(s) => match json::json_read(encode_utf8(s@)) {
                Ok(raw) => res matches Ok(ec) && configured_by(ec, raw),
                Err(fault) => res matches Err(m) && m@ == "invalid EvolutionConfig JSON: "@
                    + fault,
            },
        },
{
    match text {
        None => Ok(evolution_config(&Json::object())),
        Some(s) => evolution_config_read(read_json(s.as_bytes())),
    }
}

/// What the script bindings say of the evolution loop.
#[derive(Debug)]
pub struct EvolutionOptions {
    pub data_dir: String,
    pub head_path: Option<String>,
    pub packs_dir: Option<String>,
    pub capture_limit: Option<usize>,
    pub min_labeled_for_evolve: Option<usize>,
    pub auto_evolve_step: Option<usize>,
}

/// The number that is given, or another.
pub open spec fn given_or<T>(given: Option<T>, other: T) -> T {
    match given {
        Some(v) => v,
        None => other,
    }
}

impl EvolutionOptions {
    /// The configuration of the evolution loop. A head file that is not given
    /// is empty.
    pub fn into_config(self) -> (ec: EvolutionConfig)
        ensures
            ec.data_dir == self.data_dir,
            match self.head_path {
                Some(p) => ec.head_path == p,
                None => ec.head_path@.len() == 0,
            },
            ec.packs_dir == self.packs_dir,
            ec.capture_limit == given_or(self.capture_limit, 2000),
            ec.min_labeled_for_evolve == given_or(self.min_labeled_for_evolve, 20),
            ec.auto_evolve_step == given_or(self.auto_evolve_step, 200),
    {
        let mut ec = EvolutionConfig::default();
        ec.data_dir = self.data_dir;
        ec.head_path = match self.head_path {
            Some(p) => p,
            None => String::new(),
        };
        ec.packs_dir = self.packs_dir;
        if let Some(v) = self.capture_limit {
            ec.capture_limit = v;
        }
        if let Some(v) = self.min_labeled_for_evolve {
            ec.min_labeled_for_evolve = v;
        }
        if let Some(v) = self.auto_evolve_step {
            ec.auto_evolve_step = v;
        }
        ec
    }
}

/// What the script bindings say of a generation.
#[derive(Debug)]
pub struct GenOptions {
    pub max_tokens: Option<usize>,
    pub temperature: Option<Single>,
    pub top_p: Option<Single>,
    pub top_k: Option<usize>,
    pub presence_penalty: Option<Single>,
    pub frequency_penalty: Option<Single>,
    pub stop: Option<Vec<String>>,
}

impl GenOptions {
    /// The parameters of a generation; what is not given is as usual.
    pub fn into_params(self) -> (p: GenParams)
        ensures
            p.max_tokens == given_or(self.max_tokens, 512),
            p.temperature == given_or(self.temperature, (Single { bits: ONE })),
            p.top_p == given_or(self.top_p, (Single { bits: DEFAULT_TOP_P })),
            p.top_k == given_or(self.top_k, 128),
            p.presence_penalty == given_or(self.presence_penalty, (Single { bits: 0 })),
            p.frequency_penalty == given_or(self.frequency_penalty, (Single { bits: 0 })),
            p.penalty_decay.bits == DEFAULT_PENALTY_DECAY,
            match self.stop {
                Some(v) => p.stop == v,
                None => p.stop@.len() == 0,
            },
            p.stop_on_eos,
    {
        let mut p = GenParams::default();
        if let Some(v) = self.max_tokens {
            p.max_tokens = v;
        }
        if let Some(v) = self.temperature {
            p.temperature = v;
        }
        if let Some(v) = self.top_p {
            p.top_p = v;
        }
        if let Some(v) = self.top_k {
            p.top_k = v;
        }
        if let Some(v) = self.presence_penalty {
            p.presence_penalty = v;
        }
        if let Some(v) = self.frequency_penalty {
            p.frequency_penalty = v;
        }
        if let Some(v) = self.stop {
            p.stop = v;
        }
        p
    }
}

/// A text keeps its characters, but for the zero, which no text keeps.
pub proof fn only_zeros_are_replaced(s: Seq<char>, i: int)
    requires
        0 <= i < s.len(),
    ensures
        without_zeros(s).len() == s.len(),
        s[i] != '\0' ==> without_zeros(s)[i] == s[i],
        s[i] == '\0' ==> without_zeros(s)[i] == ' ',
        !without_zeros(s).contains('\0'),
{
}

/// A tier is coded by its rank.
pub proof fn tiers_are_coded_by_rank(tier: RouteClass, label: i32)
    ensures
        label == tier.rank() ==> label_coded(label) == Some(tier.rank() as u8),
        label < 0 ==> label_coded(label) is None,
{
}

/// What is said of the evolution loop is done, each thing under its own key.
pub proof fn keys_are_taken_over(ec: EvolutionConfig, raw: JsonView, s: Seq<char>, n: u64)
    requires
        configured_by(ec, raw),
        n <= usize::MAX,
    ensures
        raw.get("data_dir"@) == Some(JsonView::Text(s)) ==> ec.data_dir@ == s,
        raw.get("head_path"@) == Some(JsonView::Text(s)) ==> ec.head_path@ == s,
        raw.get("packs_dir"@) == Some(JsonView::Text(s)) ==> (ec.packs_dir matches Some(p) && p@
            == s),
        raw.get("packs_dir"@) is None ==> ec.packs_dir is None,
        raw.get("capture_limit"@) == Some(JsonView::count(n)) ==> ec.capture_limit == n,
        raw.get("min_labeled_for_evolve"@) == Some(JsonView::count(n))
            ==> ec.min_labeled_for_evolve == n,
        raw.get("auto_evolve_step"@) == Some(JsonView::count(n)) ==> ec.auto_evolve_step == n,
        raw.get("capture_limit"@) is None ==> ec.capture_limit == 2000,
        raw.get("min_labeled_for_evolve"@) is None ==> ec.min_labeled_for_evolve == 20,
        raw.get("auto_evolve_step"@) is None ==> ec.auto_evolve_step == 200,
{
}

} // verus!
