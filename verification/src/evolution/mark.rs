//! The auto-evolution mark as it is stored: the number of labelled samples when
//! evolution last started by itself.

use crate::json;
use crate::json::{read_json, write_json, Json, JsonView};
use vstd::prelude::*;
use vstd::utf8::*;

verus! {

/// The mark as a JSON value.
pub open spec fn mark_value(n: usize) -> JsonView {
    JsonView::object().and("last_mark"@, JsonView::count(n as u64))
}

/// The mark that a stored text stands for; zero where it cannot be read.
pub open spec fn mark_of(read: Result<JsonView, Seq<char>>) -> usize {
    match read {
        Ok(v) => match v.count_at("last_mark"@) {
            Some(n) => n as usize,
            None => 0,
        },
        Err(_) => 0,
    }
}

/// The mark as it is stored.
pub fn write_mark(n: usize) -> (text: String)
    ensures
        text@ == json::json_written(mark_value(n)),
        mark_of(json::json_read(encode_utf8(text@))) == n,
{
    let value = Json::object().and("last_mark", Json::count(n as u64));
    broadcast use json::group_shallow;

    let text = write_json(&value);
    proof {
        let members = value.view()->Object_0;
        assert(members[0] == ("last_mark"@, JsonView::count(n as u64)));
        reveal_with_fuel(json::member_from, 2);
    }
    text
}

/// The mark that was read from a stored text.
pub fn mark_from(read: &Result<Json, String>) -> (n: usize)
    ensures
        n == mark_of(json::as_read(*read)),
{
    match read {
        Ok(v) => match v.count_at("last_mark") {
            Some(n) => n as usize,
            None => 0,
        },
        Err(_) => 0,
    }
}

/// The mark that a stored text stands for; without a text it is zero.
pub fn read_mark(text: Option<&str>) -> (n: usize)
    ensures
        n == match text {
            Some(s) => mark_of(json::json_read(encode_utf8(s@))),
            None => 0,
        },
{
    match text {
        Some(s) => mark_from(&read_json(s.as_bytes())),
        None => 0,
    }
}

} // verus!
