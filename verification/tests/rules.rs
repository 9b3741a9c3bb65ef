use rwkv_router::{is_short_message, is_trivial_ack};

#[test]
fn detects_trivial_ack() {
    assert!(is_trivial_ack("thanks"));
    assert!(is_trivial_ack("  OK  "));
    assert!(is_trivial_ack("好的"));
    assert!(is_trivial_ack("嗯嗯"));
    assert!(is_trivial_ack("收到"));
    assert!(is_trivial_ack("Hello"));
    assert!(is_trivial_ack("got it"));
}

#[test]
fn rejects_non_trivial() {
    assert!(!is_trivial_ack(""));
    assert!(!is_trivial_ack("fix this bug now"));
    assert!(!is_trivial_ack("what?"));
    assert!(!is_trivial_ack("怎么办？"));
    assert!(!is_trivial_ack("```rust"));
    assert!(!is_trivial_ack("token"));
    assert!(!is_trivial_ack("帮我写个函数"));
    assert!(!is_trivial_ack("继续"));
}

#[test]
fn short_message_check() {
    assert!(is_short_message("继续"));
    assert!(is_short_message("ok go"));
    assert!(!is_short_message("```code"));
    assert!(!is_short_message("this message is way too long for the sticky rule"));
}

#[test]
fn acknowledgments_ignore_case() {
    for text in ["Thanks", "THANKS", "tHaNkS", "GOT IT", "Ok"] {
        assert!(is_trivial_ack(text), "{text}");
    }
    assert!(!is_trivial_ack("THANKS A LOT FOR ALL OF THAT"));
}
