//! JSON values, read and written by `serde_json`.

use crate::single::Single;
use crate::text::same;
use crate::widths;
use crate::widths::from_double;
use vstd::arithmetic::power2::*;
use vstd::prelude::*;
use vstd::string::*;
use vstd::utf8::*;

verus! {

/// A number of the JSON library.
#[verifier::external_type_specification]
#[verifier::external_body]
pub struct ExNumber(serde_json::Number);

/// A value of the JSON library.
#[verifier::external_type_specification]
#[verifier::external_body]
pub struct ExValue(serde_json::Value);

/// A number that is not an integer, or too large for one.
#[derive(Debug)]
pub struct DoubleNumber {
    bits: u64,
    raw: serde_json::Number,
}

impl DoubleNumber {
    /// Bit pattern in double precision.
    pub closed spec fn pattern(self) -> u64 {
        self.bits
    }

    /// Bit pattern in double precision.
    pub fn bits(&self) -> (res: u64)
        ensures
            res == self.pattern(),
    {
        self.bits
    }
}

/// A JSON number.
#[derive(Debug)]
pub enum JsonNumber {
    /// An integer that is not negative.
    Unsigned(u64),
    /// A negative integer.
    Negative(i64),
    /// Any other number.
    Double(DoubleNumber),
}

/// A member of an object.
#[derive(Debug)]
pub struct Member {
    pub key: String,
    pub value: Json,
}

/// A JSON value.
#[derive(Debug)]
pub enum Json {
    Null,
    Bool(bool),
    Number(JsonNumber),
    Text(String),
    List(Vec<Json>),
    Object(Vec<Member>),
}

/// The number that a JSON number is.
pub enum NumberView {
    Unsigned(u64),
    Negative(i64),
    Double(u64),
}

/// The value that a JSON value is.
pub enum JsonView {
    Null,
    Bool(bool),
    Number(NumberView),
    Text(Seq<char>),
    List(Seq<JsonView>),
    Object(Seq<(Seq<char>, JsonView)>),
}

impl View for JsonNumber {
    type V = NumberView;

    open spec fn view(&self) -> NumberView {
        match *self {
            JsonNumber::Unsigned(n) => NumberView::Unsigned(n),
            JsonNumber::Negative(n) => NumberView::Negative(n),
            JsonNumber::Double(d) => NumberView::Double(d.pattern()),
        }
    }
}

impl Json {
    pub open spec fn view(&self) -> JsonView
        decreases self,
    {
        match *self {
            Json::Null => JsonView::Null,
            Json::Bool(b) => JsonView::Bool(b),
            Json::Number(n) => JsonView::Number(n@),
            Json::Text(s) => JsonView::Text(s@),
            Json::List(v) => JsonView::List(
                Seq::new(
                    v@.len(),
                    |i: int|
                        if 0 <= i < v@.len() {
                            v@[i].view()
                        } else {
                            JsonView::Null
                        },
                ),
            ),
            Json::Object(v) => JsonView::Object(
                Seq::new(
                    v@.len(),
                    |i: int|
                        if 0 <= i < v@.len() {
                            (v@[i].key@, v@[i].value.view())
                        } else {
                            (Seq::empty(), JsonView::Null)
                        },
                ),
            ),
        }
    }
}

/// What `serde_json` reads bytes as: a value, or a fault in words. The members
/// of an object are in the order of their keys, and no key occurs twice.
pub uninterp spec fn json_read(bytes: Seq<u8>) -> Result<JsonView, Seq<char>>;

/// What `serde_json` writes a value as.
pub uninterp spec fn json_written(value: JsonView) -> Seq<char>;

/// `serde_json::Number::as_u64`, `as_i64` and `as_f64`: which number it is. An
/// integer that is not negative, a negative integer and any other number are
/// told apart as the JSON library does.
#[verifier::external_body]
fn from_number(n: serde_json::Number) -> JsonNumber {
    match (n.as_u64(), n.as_i64()) {
        (Some(u), _) => JsonNumber::Unsigned(u),
        (None, Some(i)) => JsonNumber::Negative(i),
        (None, None) => JsonNumber::Double(
            DoubleNumber { bits: n.as_f64().unwrap_or_default().to_bits(), raw: n },
        ),
    }
}

/// Turns a value of the JSON library into one of this library, part by part.
#[verifier::external_body]
fn from_value(v: serde_json::Value) -> Json {
    match v {
        serde_json::Value::Null => Json::Null,
        serde_json::Value::Bool(b) => Json::Bool(b),
        serde_json::Value::Number(n) => Json::Number(from_number(n)),
        serde_json::Value::String(s) => Json::Text(s),
        serde_json::Value::Array(a) => Json::List(a.into_iter().map(from_value).collect()),
        serde_json::Value::Object(m) => Json::Object(
            m.into_iter().map(|(key, v)| Member { key, value: from_value(v) }).collect(),
        ),
    }
}

/// Turns a value of this library into one of the JSON library, part by part.
#[verifier::external_body]
fn to_value(v: &Json) -> serde_json::Value {
    match v {
        Json::Null => serde_json::Value::Null,
        Json::Bool(b) => serde_json::Value::Bool(*b),
        Json::Number(JsonNumber::Unsigned(n)) => serde_json::Value::from(*n),
        Json::Number(JsonNumber::Negative(n)) => serde_json::Value::from(*n),
        Json::Number(JsonNumber::Double(d)) => serde_json::Value::Number(d.raw.clone()),
        Json::Text(s) => serde_json::Value::String(s.clone()),
        Json::List(a) => serde_json::Value::Array(a.iter().map(to_value).collect()),
        Json::Object(m) => serde_json::Value::Object(
            m.iter().map(|e| (e.key.clone(), to_value(&e.value))).collect(),
        ),
    }
}

/// How deep lists and objects lie in one another in what is read, at most.
pub const READ_LEVELS: usize = 127;

/// How deep lists and objects may lie in one another in what is written.
/// Writing goes down one call per level, so that the stack sets a bound.
pub const WRITE_LEVELS: usize = 256;

/// What the outcome of reading JSON is.
pub open spec fn as_read(read: Result<Json, String>) -> Result<JsonView, Seq<char>> {
    match read {
        Ok(v) => Ok(v.view()),
        Err(m) => Err(m@),
    }
}

/// Whether a text is read as a value.
pub open spec fn reads_as(text: Seq<char>, value: JsonView) -> bool {
    json_read(encode_utf8(text)) == Ok::<JsonView, Seq<char>>(value)
}

/// Whether a value is an object of one member, `last_mark`, that is a count.
pub open spec fn is_tally(value: JsonView) -> bool {
    &&& value matches JsonView::Object(members)
    &&& members.len() == 1
    &&& members[0].0 == "last_mark"@
    &&& members[0].1 matches JsonView::Number(NumberView::Unsigned(_))
}

/// `serde_json::from_slice`: reads bytes as a JSON value. What the value is,
/// or how a fault is put in words, is named, not stated. Deeper nesting than
/// `READ_LEVELS` is a fault: the reader counts down from 128 and refuses to
/// reach zero.
#[verifier::external_body]
fn value_from_slice(bytes: &[u8]) -> (res: Result<Json, String>)
    ensures
        as_read(res) == json_read(bytes@),
        res matches Ok(v) ==> v.view().shallow(READ_LEVELS as nat),
{
    match serde_json::from_slice::<serde_json::Value>(bytes) {
        Ok(v) => Ok(from_value(v)),
        Err(e) => Err(format!("{}", e)),
    }
}

/// `serde_json::Value::to_string`: writes a value as JSON without white space,
/// the members of an object in the order of their keys. The text is named, not
/// stated. An object of one member, `last_mark`, that is a count is
/// read back from it. Values that nest deeper than `WRITE_LEVELS` are left out.
#[verifier::external_body]
fn value_to_string(value: &Json) -> (text: String)
    requires
        value.view().shallow(WRITE_LEVELS as nat),
    ensures
        text@ == json_written(value.view()),
        is_tally(value.view()) ==> reads_as(text@, value.view()),
{
    to_value(value).to_string()
}

/// Reads bytes as a JSON value.
pub fn read_json(bytes: &[u8]) -> (res: Result<Json, String>)
    ensures
        as_read(res) == json_read(bytes@),
        res matches Ok(v) ==> v.view().shallow(READ_LEVELS as nat),
{
    value_from_slice(bytes)
}

/// Writes a value as JSON without white space.
pub fn write_json(value: &Json) -> (text: String)
    requires
        value.view().shallow(WRITE_LEVELS as nat),
    ensures
        text@ == json_written(value.view()),
        is_tally(value.view()) ==> reads_as(text@, value.view()),
{
    value_to_string(value)
}

/// The value of an optional JSON value.
pub open spec fn seen(value: Option<&Json>) -> Option<JsonView> {
    match value {
        Some(v) => Some(v.view()),
        None => None,
    }
}

/// Whether items are the values of JSON values.
pub open spec fn lists(items: Seq<JsonView>, values: Seq<Json>) -> bool {
    &&& items.len() == values.len()
    &&& forall|i: int| 0 <= i < values.len() ==> #[trigger] items[i] == values[i].view()
}

/// The first member with a key, from place `i` on.
pub open spec fn member_from(members: Seq<(Seq<char>, JsonView)>, key: Seq<char>, i: int) -> Option<
    JsonView,
>
    decreases members.len() - i,
{
    if i >= members.len() {
        None
    } else if members[i].0 == key {
        Some(members[i].1)
    } else {
        member_from(members, key, i + 1)
    }
}

impl JsonView {
    /// Whether lists and objects lie at most `levels` deep in one another.
    #[verifier::opaque]
    pub open spec fn shallow(self, levels: nat) -> bool
        decreases levels,
    {
        match self {
            JsonView::List(items) => levels > 0 && forall|i: int|
                0 <= i < items.len() ==> (#[trigger] items[i]).shallow((levels - 1) as nat),
            JsonView::Object(members) => levels > 0 && forall|i: int|
                0 <= i < members.len() ==> (#[trigger] members[i]).1.shallow((levels - 1) as nat),
            _ => true,
        }
    }

    /// The member of an object with a key.
    pub open spec fn get(self, key: Seq<char>) -> Option<JsonView> {
        match self {
            JsonView::Object(members) => member_from(members, key, 0),
            _ => None,
        }
    }

    /// The text of a text.
    pub open spec fn as_str(self) -> Option<Seq<char>> {
        match self {
            JsonView::Text(s) => Some(s),
            _ => None,
        }
    }

    /// The truth value of a truth value.
    pub open spec fn as_bool(self) -> Option<bool> {
        match self {
            JsonView::Bool(b) => Some(b),
            _ => None,
        }
    }

    /// The integer of a number that is one and not negative.
    pub open spec fn as_u64(self) -> Option<u64> {
        match self {
            JsonView::Number(NumberView::Unsigned(n)) => Some(n),
            _ => None,
        }
    }

    /// The integer of a number that is one, where it fits.
    pub open spec fn as_i64(self) -> Option<i64> {
        match self {
            JsonView::Number(NumberView::Unsigned(n)) => if n <= i64::MAX {
                Some(n as i64)
            } else {
                None
            },
            JsonView::Number(NumberView::Negative(n)) => Some(n),
            _ => None,
        }
    }

    /// The number of a number, in single precision; it passes through double
    /// precision on the way.
    pub open spec fn as_single(self) -> Option<Single> {
        match self {
            JsonView::Number(NumberView::Unsigned(n)) => Some(Single::counted(to_double(n as nat))),
            JsonView::Number(NumberView::Negative(n)) => Some(
                if n < 0 {
                    Single::counted(to_double((-n) as nat)).negated()
                } else {
                    Single::counted(to_double(n as nat))
                },
            ),
            JsonView::Number(NumberView::Double(bits)) => Some(widths::from_double_bits(bits)),
            _ => None,
        }
    }

    /// The items of a list.
    pub open spec fn as_list(self) -> Option<Seq<JsonView>> {
        match self {
            JsonView::List(items) => Some(items),
            _ => None,
        }
    }

    /// The text that a key has.
    pub open spec fn text_at(self, key: Seq<char>) -> Option<Seq<char>> {
        match self.get(key) {
            Some(v) => v.as_str(),
            None => None,
        }
    }

    /// The truth value that a key has.
    pub open spec fn bool_at(self, key: Seq<char>) -> Option<bool> {
        match self.get(key) {
            Some(v) => v.as_bool(),
            None => None,
        }
    }

    /// The integer, not negative, that a key has.
    pub open spec fn count_at(self, key: Seq<char>) -> Option<u64> {
        match self.get(key) {
            Some(v) => v.as_u64(),
            None => None,
        }
    }

    /// The integer that a key has.
    pub open spec fn integer_at(self, key: Seq<char>) -> Option<i64> {
        match self.get(key) {
            Some(v) => v.as_i64(),
            None => None,
        }
    }

    /// The number that a key has.
    pub open spec fn number_at(self, key: Seq<char>) -> Option<Single> {
        match self.get(key) {
            Some(v) => v.as_single(),
            None => None,
        }
    }

    /// The items of the list that a key has.
    pub open spec fn list_at(self, key: Seq<char>) -> Option<Seq<JsonView>> {
        match self.get(key) {
            Some(v) => v.as_list(),
            None => None,
        }
    }
}

/// The distance of neighbouring integers, near `n`, that double precision has.
pub open spec fn double_step(n: nat) -> nat
    decreases n,
{
    if n < 0x20_0000_0000_0000 {
        1
    } else {
        2 * double_step(n / 2)
    }
}

/// The integer nearest to `n` that double precision has; of two equally near
/// ones that with an even significand.
pub open spec fn to_double(n: nat) -> int {
    let g = double_step(n) as int;
    let q = n as int / g;
    let r = n as int % g;
    if 2 * r > g || (2 * r == g && q % 2 == 1) {
        (q + 1) * g
    } else {
        q * g
    }
}

/// Below two to the `w` the distance is at most two to the `w - 53`.
proof fn lemma_step_bound(n: nat, w: nat)
    requires
        n < pow2(w),
        53 <= w,
    ensures
        1 <= double_step(n) <= pow2((w - 53) as nat),
    decreases w,
{
    lemma_pow2_pos((w - 53) as nat);
    if n >= 0x20_0000_0000_0000 {
        lemma2_to64_rest();
        assert(w > 53);
        lemma_pow2_unfold(w);
        lemma_pow2_unfold((w - 53) as nat);
        lemma_step_bound(n / 2, (w - 1) as nat);
    }
}

/// The distance of neighbouring integers in double precision.
fn step_of(n: u64) -> (g: u64)
    ensures
        g == double_step(n as nat),
        1 <= g <= 2048,
        n / g < 0x20_0000_0000_0000,
    decreases n,
{
    proof {
        lemma2_to64();
        lemma2_to64_rest();
        lemma_step_bound(n as nat, 64);
    }
    if n < 0x20_0000_0000_0000 {
        1
    } else {
        let half = step_of(n / 2);
        proof {
            let h = half as int;
            assert(n as int / (2 * h) == (n as int / 2) / h) by {
                vstd::arithmetic::div_mod::lemma_div_denominator(n as int, 2, h);
            }
        }
        2 * half
    }
}

/// A count in single precision, by way of double precision.
fn single_of(n: u64) -> (res: Single)
    ensures
        res == Single::counted(to_double(n as nat)),
{
    Single::from_wide_count(double_of(n))
}

/// A count as double precision has it.
fn double_of(n: u64) -> (res: u128)
    ensures
        res == to_double(n as nat),
        res <= 0x1_0000_0000_0000_0000,
{
    let g = step_of(n);
    let q: u64 = n / g;
    let r: u64 = n % g;
    assert((q + 1) * g <= 0x20_0000_0000_0000 * 2048 && q * g <= (q + 1) * g) by (nonlinear_arith)
        requires
            q < 0x20_0000_0000_0000,
            1 <= g <= 2048,
    ;
    if 2 * r > g || (2 * r == g && q % 2 == 1) {
        (q as u128 + 1) * g as u128
    } else {
        q as u128 * g as u128
    }
}


impl Json {
    /// The member of an object with a key.
    pub fn get(&self, key: &str) -> (res: Option<&Json>)
        ensures
            match res {
                Some(v) => self.view().get(key@) == Some(v.view()),
                None => self.view().get(key@) is None,
            },
    {
        match self {
            Json::Object(members) => {
                let ghost entries = self.view()->Object_0;
                let mut i: usize = 0;
                while i < members.len()
                    invariant
                        i <= members.len(),
                        *self == Json::Object(*members),
                        entries == self.view()->Object_0,
                        entries.len() == members@.len(),
                        forall|j: int|
                            0 <= j < members@.len() ==> #[trigger] entries[j] == (
                                members@[j].key@,
                                members@[j].value.view(),
                            ),
                        self.view().get(key@) == member_from(entries, key@, i as int),
                    decreases members.len() - i,
                {
                    assert(entries[i as int].0 == members@[i as int].key@);
                    if same(members[i].key.as_str(), key) {
                        return Some(&members[i].value);
                    }
                    i += 1;
                }
                None
            },
            _ => None,
        }
    }

    /// The text of a text.
    pub fn as_str(&self) -> (res: Option<&str>)
        ensures
            match res {
                Some(s) => self.view().as_str() == Some(s@),
                None => self.view().as_str() is None,
            },
    {
        match self {
            Json::Text(s) => Some(s.as_str()),
            _ => None,
        }
    }

    /// The truth value of a truth value.
    pub fn as_bool(&self) -> (res: Option<bool>)
        ensures
            res == self.view().as_bool(),
    {
        match self {
            Json::Bool(b) => Some(*b),
            _ => None,
        }
    }

    /// The integer of a number that is one and not negative.
    pub fn as_u64(&self) -> (res: Option<u64>)
        ensures
            res == self.view().as_u64(),
    {
        match self {
            Json::Number(JsonNumber::Unsigned(n)) => Some(*n),
            _ => None,
        }
    }

    /// The integer of a number that is one, where it fits.
    pub fn as_i64(&self) -> (res: Option<i64>)
        ensures
            res == self.view().as_i64(),
    {
        match self {
            Json::Number(JsonNumber::Unsigned(n)) => if *n <= 0x7fff_ffff_ffff_ffff {
                Some(*n as i64)
            } else {
                None
            },
            Json::Number(JsonNumber::Negative(n)) => Some(*n),
            _ => None,
        }
    }

    /// The number of a number, in single precision.
    pub fn as_single(&self) -> (res: Option<Single>)
        ensures
            res == self.view().as_single(),
    {
        match self {
            Json::Number(JsonNumber::Unsigned(n)) => Some(single_of(*n)),
            Json::Number(JsonNumber::Negative(n)) => {
                if *n < 0 {
                    let size: u64 = (-(*n as i128)) as u64;
                    Some(single_of(size).neg())
                } else {
                    Some(single_of(*n as u64))
                }
            },
            Json::Number(JsonNumber::Double(d)) => Some(from_double(d.bits())),
            _ => None,
        }
    }

    /// The items of a list.
    pub fn as_list(&self) -> (res: Option<&Vec<Json>>)
        ensures
            match res {
                Some(v) => self.view().as_list() matches Some(items) && lists(items, v@),
                None => self.view().as_list() is None,
            },
    {
        match self {
            Json::List(v) => Some(v),
            _ => None,
        }
    }

    /// The text that a key has.
    pub fn text_at(&self, key: &str) -> (res: Option<&str>)
        ensures
            match res {
                Some(s) => self.view().text_at(key@) == Some(s@),
                None => self.view().text_at(key@) is None,
            },
    {
        match self.get(key) {
            Some(v) => v.as_str(),
            None => None,
        }
    }

    /// The truth value that a key has.
    pub fn bool_at(&self, key: &str) -> (res: Option<bool>)
        ensures
            res == self.view().bool_at(key@),
    {
        match self.get(key) {
            Some(v) => v.as_bool(),
            None => None,
        }
    }

    /// The integer, not negative, that a key has.
    pub fn count_at(&self, key: &str) -> (res: Option<u64>)
        ensures
            res == self.view().count_at(key@),
    {
        match self.get(key) {
            Some(v) => v.as_u64(),
            None => None,
        }
    }

    /// The integer that a key has.
    pub fn integer_at(&self, key: &str) -> (res: Option<i64>)
        ensures
            res == self.view().integer_at(key@),
    {
        match self.get(key) {
            Some(v) => v.as_i64(),
            None => None,
        }
    }

    /// The number that a key has.
    pub fn number_at(&self, key: &str) -> (res: Option<Single>)
        ensures
            res == self.view().number_at(key@),
    {
        match self.get(key) {
            Some(v) => v.as_single(),
            None => None,
        }
    }

    /// The items of the list that a key has.
    pub fn list_at(&self, key: &str) -> (res: Option<&Vec<Json>>)
        ensures
            match res {
                Some(v) => self.view().list_at(key@) matches Some(items) && lists(items, v@),
                None => self.view().list_at(key@) is None,
            },
    {
        match self.get(key) {
            Some(v) => v.as_list(),
            None => None,
        }
    }

    /// Whether a value is null.
    pub fn is_null(&self) -> (res: bool)
        ensures
            res == (self.view() == JsonView::Null),
    {
        match self {
            Json::Null => true,
            _ => false,
        }
    }
}


/// The place of the first member with a key, from place `i` on, or the number
/// of members.
pub open spec fn place_from(members: Seq<(Seq<char>, JsonView)>, key: Seq<char>, i: int) -> int
    decreases members.len() - i,
{
    if i >= members.len() {
        members.len() as int
    } else if members[i].0 == key {
        i
    } else {
        place_from(members, key, i + 1)
    }
}

impl JsonView {
    /// An object without members.
    pub open spec fn object() -> JsonView {
        JsonView::Object(Seq::empty())
    }

    /// An object with one more member at the end.
    pub open spec fn and(self, key: Seq<char>, value: JsonView) -> JsonView {
        match self {
            JsonView::Object(members) => JsonView::Object(members.push((key, value))),
            _ => self,
        }
    }

    /// A list without items.
    pub open spec fn list() -> JsonView {
        JsonView::List(Seq::empty())
    }

    /// A list with one more item at the end.
    pub open spec fn item(self, value: JsonView) -> JsonView {
        match self {
            JsonView::List(items) => JsonView::List(items.push(value)),
            _ => self,
        }
    }

    /// An object in which a key has a value: the first member with the key gets
    /// the value, and where there is none, a member is added.
    pub open spec fn with(self, key: Seq<char>, value: JsonView) -> JsonView {
        match self {
            JsonView::Object(members) => {
                let p = place_from(members, key, 0);
                if p < members.len() {
                    JsonView::Object(members.update(p, (key, value)))
                } else {
                    JsonView::Object(members.push((key, value)))
                }
            },
            _ => self,
        }
    }

    /// A count.
    pub open spec fn count(n: u64) -> JsonView {
        JsonView::Number(NumberView::Unsigned(n))
    }

    /// A negative integer.
    pub open spec fn negative(n: i64) -> JsonView {
        JsonView::Number(NumberView::Negative(n))
    }
}

/// Setting a key gives the key its value and leaves every other key alone.
pub proof fn setting_is_local(object: JsonView, key: Seq<char>, value: JsonView, other: Seq<char>)
    requires
        object is Object,
    ensures
        object.with(key, value).get(key) == Some(value),
        other != key ==> object.with(key, value).get(other) == object.get(other),
{
    let members = object->Object_0;
    let after = object.with(key, value)->Object_0;
    lemma_set_found(members, after, key, value, other, 0);
}

/// From any place up to that of the key.
proof fn lemma_set_found(
    members: Seq<(Seq<char>, JsonView)>,
    after: Seq<(Seq<char>, JsonView)>,
    key: Seq<char>,
    value: JsonView,
    other: Seq<char>,
    i: int,
)
    requires
        0 <= i <= members.len(),
        place_from(members, key, 0) == place_from(members, key, i),
        after == (if place_from(members, key, i) < members.len() {
            members.update(place_from(members, key, i), (key, value))
        } else {
            members.push((key, value))
        }),
    ensures
        member_from(after, key, i) == Some(value),
        other != key ==> member_from(after, other, i) == member_from(members, other, i),
    decreases members.len() - i,
{
    if i < members.len() && members[i].0 != key {
        lemma_place_past(members, key, i);
        lemma_set_found(members, after, key, value, other, i + 1);
    } else if i < members.len() {
        assert(member_from(after, key, i) == Some(value));
        if other != key {
            lemma_same_rest(members, after, other, i + 1);
        }
    } else {
        assert(after[i] == (key, value));
        reveal_with_fuel(member_from, 3);
    }
}

/// The place found from `i` on is past `i` where the key is not at `i`.
proof fn lemma_place_past(members: Seq<(Seq<char>, JsonView)>, key: Seq<char>, i: int)
    requires
        0 <= i <= members.len(),
    ensures
        i <= place_from(members, key, i) <= members.len(),
        i < members.len() && members[i].0 != key ==> i < place_from(members, key, i),
    decreases members.len() - i,
{
    if i < members.len() {
        lemma_place_past(members, key, i + 1);
    }
}

/// Members that agree from a place on are searched alike from there on.
proof fn lemma_same_rest(
    a: Seq<(Seq<char>, JsonView)>,
    b: Seq<(Seq<char>, JsonView)>,
    key: Seq<char>,
    i: int,
)
    requires
        a.len() == b.len(),
        forall|j: int| i <= j < a.len() ==> a[j] == b[j],
        0 <= i,
    ensures
        member_from(a, key, i) == member_from(b, key, i),
    decreases a.len() - i,
{
    if i < a.len() {
        lemma_same_rest(a, b, key, i + 1);
    }
}

/// What is neither a list nor an object does not nest.
pub broadcast proof fn plain_is_shallow(value: JsonView, levels: nat)
    requires
        value !is List,
        value !is Object,
    ensures
        #[trigger] value.shallow(levels),
{
    reveal_with_fuel(JsonView::shallow, 1);
}

/// An object without members nests one level deep.
pub broadcast proof fn object_is_shallow(levels: nat)
    requires
        levels > 0,
    ensures
        #[trigger] JsonView::object().shallow(levels),
{
    reveal_with_fuel(JsonView::shallow, 1);
}

/// A list without items nests one level deep.
pub broadcast proof fn list_is_shallow(levels: nat)
    requires
        levels > 0,
    ensures
        #[trigger] JsonView::list().shallow(levels),
{
    reveal_with_fuel(JsonView::shallow, 1);
}

/// A member nests one level deeper than its value.
pub broadcast proof fn and_is_shallow(
    value: JsonView,
    key: Seq<char>,
    member: JsonView,
    levels: nat,
)
    requires
        levels > 0,
        value.shallow(levels),
        member.shallow((levels - 1) as nat),
    ensures
        #[trigger] value.and(key, member).shallow(levels),
{
    reveal_with_fuel(JsonView::shallow, 1);
}

/// A member that is set nests one level deeper than its value.
pub broadcast proof fn with_is_shallow(
    value: JsonView,
    key: Seq<char>,
    member: JsonView,
    levels: nat,
)
    requires
        levels > 0,
        value.shallow(levels),
        member.shallow((levels - 1) as nat),
    ensures
        #[trigger] value.with(key, member).shallow(levels),
{
    if let JsonView::Object(members) = value {
        lemma_place_past(members, key, 0);
    }
    reveal_with_fuel(JsonView::shallow, 1);
}

/// An item nests one level deeper than its value.
pub broadcast proof fn item_is_shallow(value: JsonView, item: JsonView, levels: nat)
    requires
        levels > 0,
        value.shallow(levels),
        item.shallow((levels - 1) as nat),
    ensures
        #[trigger] value.item(item).shallow(levels),
{
    reveal_with_fuel(JsonView::shallow, 1);
}

/// What nests within some levels does so within more.
pub proof fn shallower(value: JsonView, few: nat, many: nat)
    requires
        few <= many,
        value.shallow(few),
    ensures
        value.shallow(many),
    decreases few,
{
    reveal_with_fuel(JsonView::shallow, 1);
    match value {
        JsonView::List(items) => {
            assert forall|i: int| 0 <= i < items.len() implies (#[trigger] items[i]).shallow(
                (many - 1) as nat,
            ) by {
                shallower(items[i], (few - 1) as nat, (many - 1) as nat);
            }
        },
        JsonView::Object(members) => {
            assert forall|i: int|
                0 <= i < members.len() implies (#[trigger] members[i]).1.shallow(
                (many - 1) as nat,
            ) by {
                shallower(members[i].1, (few - 1) as nat, (many - 1) as nat);
            }
        },
        _ => {},
    }
}

/// A member of an object nests no deeper than the object.
pub proof fn members_are_shallow(value: JsonView, key: Seq<char>, levels: nat)
    requires
        value.shallow(levels),
    ensures
        value.get(key) matches Some(member) ==> member.shallow(levels),
{
    if let JsonView::Object(members) = value {
        reveal_with_fuel(JsonView::shallow, 1);
        lemma_member_place(members, key, 0);
        let p = place_from(members, key, 0);
        if p < members.len() {
            shallower(members[p].1, (levels - 1) as nat, levels);
        }
    }
}

/// The member found is the one at the place found.
proof fn lemma_member_place(members: Seq<(Seq<char>, JsonView)>, key: Seq<char>, i: int)
    requires
        0 <= i <= members.len(),
    ensures
        i <= place_from(members, key, i) <= members.len(),
        member_from(members, key, i) == if place_from(members, key, i) < members.len() {
            Some(members[place_from(members, key, i)].1)
        } else {
            None
        },
    decreases members.len() - i,
{
    if i < members.len() && members[i].0 != key {
        lemma_member_place(members, key, i + 1);
    }
}

pub broadcast group group_shallow {
    plain_is_shallow,
    object_is_shallow,
    list_is_shallow,
    and_is_shallow,
    with_is_shallow,
    item_is_shallow,
}

impl Json {
    /// An object without members.
    pub fn object() -> (res: Json)
        ensures
            res.view() == JsonView::object(),
    {
        let res = Json::Object(Vec::new());
        assert(res.view()->Object_0 =~= Seq::empty());
        res
    }

    /// An object with one more member at the end.
    pub fn and(self, key: &str, value: Json) -> (res: Json)
        ensures
            res.view() == self.view().and(key@, value.view()),
    {
        match self {
            Json::Object(members) => {
                let mut members = members;
                members.push(Member { key: key.to_owned(), value });
                let res = Json::Object(members);
                assert(res.view()->Object_0 =~= self.view()->Object_0.push((key@, value.view())));
                res
            },
            other => other,
        }
    }

    /// A list without items.
    pub fn list() -> (res: Json)
        ensures
            res.view() == JsonView::list(),
    {
        let res = Json::List(Vec::new());
        assert(res.view()->List_0 =~= Seq::empty());
        res
    }

    /// A list with one more item at the end.
    pub fn item(self, value: Json) -> (res: Json)
        ensures
            res.view() == self.view().item(value.view()),
    {
        match self {
            Json::List(items) => {
                let mut items = items;
                items.push(value);
                let res = Json::List(items);
                assert(res.view()->List_0 =~= self.view()->List_0.push(value.view()));
                res
            },
            other => other,
        }
    }

    /// A text.
    pub fn text(s: &str) -> (res: Json)
        ensures
            res.view() == JsonView::Text(s@),
    {
        Json::Text(s.to_owned())
    }

    /// A count.
    pub fn count(n: u64) -> (res: Json)
        ensures
            res.view() == JsonView::count(n),
    {
        Json::Number(JsonNumber::Unsigned(n))
    }

    /// A negative integer.
    pub fn negative(n: i64) -> (res: Json)
        ensures
            res.view() == JsonView::negative(n),
    {
        Json::Number(JsonNumber::Negative(n))
    }

    /// The place of the first member with a key.
    fn place(members: &Vec<Member>, key: &str) -> (p: usize)
        ensures
            p == place_from(Json::Object(*members).view()->Object_0, key@, 0),
            p <= members@.len(),
            p < members@.len() ==> members@[p as int].key@ == key@,
            p < members@.len() ==> Json::Object(*members).view().get(key@) == Some(
                members@[p as int].value.view(),
            ),
            p == members@.len() ==> Json::Object(*members).view().get(key@) is None,
    {
        let ghost entries = Json::Object(*members).view()->Object_0;
        let mut i: usize = 0;
        while i < members.len()
            invariant
                i <= members@.len(),
                entries == Json::Object(*members).view()->Object_0,
                place_from(entries, key@, 0) == place_from(entries, key@, i as int),
                Json::Object(*members).view().get(key@) == member_from(entries, key@, i as int),
            decreases members@.len() - i,
        {
            assert(entries[i as int].0 == members@[i as int].key@);
            if same(members[i].key.as_str(), key) {
                return i;
            }
            i += 1;
        }
        i
    }

    /// An object in which a key has a value.
    pub fn with(self, key: &str, value: Json) -> (res: Json)
        ensures
            res.view() == self.view().with(key@, value.view()),
    {
        match self {
            Json::Object(members) => {
                let mut members = members;
                let p = Json::place(&members, key);
                let member = Member { key: key.to_owned(), value };
                if p < members.len() {
                    members.set(p, member);
                    let res = Json::Object(members);
                    assert(res.view()->Object_0 =~= self.view()->Object_0.update(
                        p as int,
                        (key@, value.view()),
                    ));
                    res
                } else {
                    members.push(member);
                    let res = Json::Object(members);
                    assert(res.view()->Object_0 =~= self.view()->Object_0.push(
                        (key@, value.view()),
                    ));
                    res
                }
            },
            other => other,
        }
    }

    /// The member of an object with a key, taken out of it.
    pub fn into_member(self, key: &str) -> (res: Option<Json>)
        ensures
            match res {
                Some(v) => self.view().get(key@) == Some(v.view()),
                None => self.view().get(key@) is None,
            },
    {
        match self {
            Json::Object(members) => {
                let mut members = members;
                let p = Json::place(&members, key);
                if p < members.len() {
                    Some(members.remove(p).value)
                } else {
                    None
                }
            },
            _ => None,
        }
    }
}

/// Whole numbers below two to the 53rd are taken as they are; larger ones are
/// off by at most half of the distance to their neighbours.
pub proof fn whole_numbers_are_taken_over(n: u64)
    ensures
        n < 0x20_0000_0000_0000 ==> JsonView::count(n).as_single() == Some(
            Single::counted(n as int),
        ),
        0 < n < 0x20_0000_0000_0000 ==> JsonView::negative((-n) as i64).as_single() == Some(
            Single::counted(n as int).negated(),
        ),
        -(double_step(n as nat) as int) <= 2 * (to_double(n as nat) - n) <= double_step(n as nat),
{
    lemma2_to64();
    lemma_step_bound(n as nat, 64);
    let g = double_step(n as nat) as int;
    let (q, r) = (n as int / g, n as int % g);
    assert(n == q * g + r && 0 <= r < g) by (nonlinear_arith)
        requires
            g > 0,
            q == n as int / g,
            r == n as int % g,
    ;
    assert((q + 1) * g == q * g + g) by (nonlinear_arith);
    if n < 0x20_0000_0000_0000 {
        assert(g == 1);
        assert(to_double(n as nat) == n);
    }
}

/// A number is an index where it is whole and not negative, and nothing else is
/// one.
pub proof fn only_numbers_are_counted(value: JsonView, n: u64)
    ensures
        JsonView::count(n).as_u64() == Some(n),
        n <= i64::MAX ==> JsonView::count(n).as_i64() == Some(n as i64),
        n > i64::MAX ==> JsonView::count(n).as_i64() is None,
        value is Text || value is Bool || value is Null || value is List || value is Object
            ==> value.as_u64() is None && value.as_i64() is None && value.as_single() is None,
        !(value is Text) ==> value.as_str() is None,
        !(value is Bool) ==> value.as_bool() is None,
        !(value is List) ==> value.as_list() is None,
{
}

/// A member that is added is found under its key, and hides no other.
pub proof fn added_members_are_found(
    object: JsonView,
    key: Seq<char>,
    value: JsonView,
    other: Seq<char>,
)
    requires
        object is Object,
    ensures
        object.get(key) is None ==> object.and(key, value).get(key) == Some(value),
        object.get(other) is Some || other != key ==> object.and(key, value).get(other)
            == object.get(other),
        JsonView::object().get(other) is None,
{
    lemma_added(object->Object_0, key, value, key, 0);
    lemma_added(object->Object_0, key, value, other, 0);
}

proof fn lemma_added(
    members: Seq<(Seq<char>, JsonView)>,
    key: Seq<char>,
    value: JsonView,
    wanted: Seq<char>,
    i: int,
)
    requires
        0 <= i <= members.len(),
    ensures
        member_from(members.push((key, value)), wanted, i) == match member_from(members, wanted, i) {
            Some(v) => Some(v),
            None => if wanted == key {
                Some(value)
            } else {
                None
            },
        },
    decreases members.len() - i,
{
    let more = members.push((key, value));
    if i < members.len() {
        assert(more[i] == members[i]);
        if members[i].0 != wanted {
            lemma_added(members, key, value, wanted, i + 1);
        }
    } else {
        assert(more[i] == (key, value));
        reveal_with_fuel(member_from, 2);
    }
}

} // verus!
