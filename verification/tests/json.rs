use rwkv_router::json::{read_json, write_json, Json};

fn parsed(text: &str) -> Json {
    read_json(text.as_bytes()).unwrap()
}

#[test]
fn values_are_read_and_written() {
    for text in [
        "null",
        "true",
        "[1,-2,3.5,\"x\",[],{}]",
        "{\"a\":1,\"b\":{\"c\":[null]}}",
        "18446744073709551615",
        "-9223372036854775808",
        "1e300",
        "\"\\u0000\\n\\\"\u{e9}\"",
    ] {
        let v: serde_json::Value = serde_json::from_str(text).unwrap();
        assert_eq!(write_json(&parsed(text)), v.to_string());
    }
    let fault = serde_json::from_slice::<serde_json::Value>(b"[1,").unwrap_err();
    assert_eq!(read_json(b"[1,").unwrap_err(), fault.to_string());
    assert!(read_json(&[0xff, 0xfe]).is_err());
}

#[test]
fn members_are_written_in_the_order_of_their_keys() {
    let v = Json::object().and("b", Json::count(1)).and("a", Json::Bool(true));
    assert_eq!(write_json(&v), "{\"a\":true,\"b\":1}");
    let list = Json::list().item(Json::text("x")).item(Json::negative(-3));
    assert_eq!(write_json(&list), "[\"x\",-3]");
}

#[test]
fn members_are_found_and_set() {
    let v = parsed("{\"a\": 1, \"b\": \"two\", \"c\": [true], \"d\": -4, \"e\": 2.5}");
    assert_eq!(v.count_at("a"), Some(1));
    assert_eq!(v.integer_at("d"), Some(-4));
    assert_eq!(v.count_at("d"), None);
    assert_eq!(v.text_at("b"), Some("two"));
    assert_eq!(v.bool_at("b"), None);
    assert_eq!(v.list_at("c").unwrap()[0].as_bool(), Some(true));
    assert_eq!(f32::from_bits(v.number_at("e").unwrap().bits), 2.5);
    assert!(v.get("z").is_none());
    let w = v.with("b", Json::text("new")).with("z", Json::Null);
    assert_eq!(w.text_at("b"), Some("new"));
    assert_eq!(w.count_at("a"), Some(1));
    assert!(w.get("z").unwrap().is_null());
    assert_eq!(w.into_member("d").unwrap().as_i64(), Some(-4));
    assert!(parsed("[1]").get("a").is_none());
    assert!(parsed("9223372036854775808").as_i64().is_none());
}

#[test]
fn nesting_is_read_to_a_bound_and_written_back() {
    let nested = |n: usize| "[".repeat(n) + &"]".repeat(n);
    let deepest = nested(127);
    assert_eq!(write_json(&parsed(&deepest)), deepest);
    assert!(read_json(nested(128).as_bytes()).is_err());
}
