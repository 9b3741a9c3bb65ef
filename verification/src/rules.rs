//! Rule-based shortcuts: obvious chit-chat and acknowledgments skip the
//! classifier and go straight to the lightest tier.

use crate::text;
use crate::text::{contains, same, trim};
use vstd::prelude::*;
use vstd::string::*;

verus! {

/// Longest trimmed text, in characters, that counts as an acknowledgment or
/// as a short message.
pub const TRIVIAL_MAX_CHARS: usize = 10;

/// English acknowledgments, matched as a whole and without regard to case.
pub const EN_TRIVIAL: [&'static str; 28] = [
    "hello",
    "hi",
    "hey",
    "thanks",
    "thank you",
    "thx",
    "ty",
    "ok",
    "okay",
    "yes",
    "no",
    "yep",
    "nope",
    "sure",
    "bye",
    "goodbye",
    "good",
    "great",
    "nice",
    "cool",
    "done",
    "got it",
    "understood",
    "fine",
    "please",
    "sorry",
    "wow",
    "ok then",
];

/// Chinese acknowledgments, matched anywhere in the text.
pub const ZH_TRIVIAL: [&'static str; 22] = [
    "你好",
    "您好",
    "好的",
    "好滴",
    "嗯",
    "哦",
    "哈",
    "哈哈",
    "呵呵",
    "谢谢",
    "感谢",
    "再见",
    "拜拜",
    "收到",
    "明白",
    "知道了",
    "懂了",
    "对",
    "是的",
    "行",
    "可以",
    "没问题",
];

/// Lower-case form of a text by the Unicode rules.
pub uninterp spec fn unicode_lowercase(s: Seq<char>) -> Seq<char>;

/// Whether every character of a text is ASCII.
pub open spec fn all_ascii(s: Seq<char>) -> bool {
    forall|i: int| 0 <= i < s.len() ==> (#[trigger] s[i]) as u32 <= 127
}

/// `str::to_lowercase`: the lower-case equivalent of the text as Unicode
/// defines it, which is named here. Of an ASCII text it is said that each
/// letter is lowered by itself and nothing else changes.
#[verifier::external_body]
fn to_lowercase(s: &str) -> (out: String)
    ensures
        out@ == unicode_lowercase(s@),
        all_ascii(s@) ==> out@ == text::lowercased(s@),
{
    s.to_lowercase()
}

/// Whether a trimmed text, with its lower-case form, is chit-chat.
pub open spec fn chitchat(trimmed: Seq<char>, lower: Seq<char>) -> bool {
    ||| exists|i: int| 0 <= i < 28 && (#[trigger] EN_TRIVIAL@[i])@ == lower
    ||| exists|i: int| 0 <= i < 22 && text::occurs((#[trigger] ZH_TRIVIAL@[i])@, trimmed)
}

/// Whether a trimmed text, with its lower-case form, is an acknowledgment.
pub open spec fn trivial_text(trimmed: Seq<char>, lower: Seq<char>) -> bool {
    &&& 0 < trimmed.len() <= TRIVIAL_MAX_CHARS
    &&& !text::occurs("```"@, trimmed)
    &&& !text::occurs("?"@, trimmed)
    &&& !text::occurs("？"@, trimmed)
    &&& chitchat(trimmed, lower)
}

/// Whether a message is an acknowledgment.
pub open spec fn trivial_ack(text: Seq<char>) -> bool {
    trivial_text(text::trimmed(text), unicode_lowercase(text::trimmed(text)))
}

/// Whether a message is short and holds no code block.
pub open spec fn short_message(text: Seq<char>) -> bool {
    text::trimmed(text).len() <= TRIVIAL_MAX_CHARS && !text::occurs("```"@, text::trimmed(text))
}

/// Tests a trimmed text, with its lower-case form, for chit-chat.
pub fn is_chitchat(trimmed: &str, lower: &str) -> (res: bool)
    ensures
        res == chitchat(trimmed@, lower@),
{
    let mut i: usize = 0;
    while i < 28
        invariant
            i <= 28,
            forall|k: int| 0 <= k < i ==> (#[trigger] EN_TRIVIAL@[k])@ != lower@,
        decreases 28 - i,
    {
        if same(EN_TRIVIAL[i], lower) {
            return true;
        }
        i += 1;
    }
    let mut j: usize = 0;
    while j < 22
        invariant
            j <= 22,
            forall|k: int| 0 <= k < 28 ==> (#[trigger] EN_TRIVIAL@[k])@ != lower@,
            forall|k: int| 0 <= k < j ==> !text::occurs((#[trigger] ZH_TRIVIAL@[k])@, trimmed@),
        decreases 22 - j,
    {
        if contains(trimmed, ZH_TRIVIAL[j]) {
            return true;
        }
        j += 1;
    }
    false
}

/// Tests a trimmed text, with its lower-case form, for an acknowledgment: not
/// empty, at most ten characters, no code block, no question mark, and one of
/// the known phrases.
pub fn is_trivial_text(trimmed: &str, lower: &str) -> (res: bool)
    ensures
        res == trivial_text(trimmed@, lower@),
{
    let count = trimmed.unicode_len();
    if count > TRIVIAL_MAX_CHARS {
        return false;
    }
    if count == 0 {
        return false;
    }
    if contains(trimmed, "```") {
        return false;
    }
    if contains(trimmed, "?") || contains(trimmed, "？") {
        return false;
    }
    is_chitchat(trimmed, lower)
}

/// True when the message is an obvious acknowledgment and needs no
/// classification.
pub fn is_trivial_ack(text: &str) -> (res: bool)
    ensures
        res == trivial_ack(text@),
        all_ascii(text::trimmed(text@)) ==> res == trivial_text(
            text::trimmed(text@),
            text::lowercased(text::trimmed(text@)),
        ),
{
    let trimmed = trim(text);
    let lower = to_lowercase(trimmed.as_str());
    is_trivial_text(trimmed.as_str(), lower.as_str())
}

/// True when the message is short for the sticky-tier rule: at most ten
/// characters once trimmed, and no code block.
pub fn is_short_message(text: &str) -> (res: bool)
    ensures
        res == short_message(text@),
{
    let trimmed = trim(text);
    trimmed.as_str().unicode_len() <= TRIVIAL_MAX_CHARS && !contains(trimmed.as_str(), "```")
}

/// An acknowledgment is short and asks nothing: one to ten characters besides
/// the white space around them, no question mark, no code block.
pub proof fn acknowledgments_ask_nothing(message: Seq<char>, i: int)
    requires
        trivial_ack(message),
        0 <= i < message.len(),
    ensures
        short_message(message),
        1 <= text::trimmed(message).len() <= 10,
        message[i] != '?',
        message[i] != '？',
{
    let m = text::trimmed(message);
    text::trimming_strips_white_space(message);
    let (a, b) = choose|a: Seq<char>, b: Seq<char>| #[trigger]
        (a + m + b) == message && text::blank(a) && text::blank(b);
    reveal_strlit("?");
    reveal_strlit("？");
    let k = i - a.len();
    if message[i] == '?' || message[i] == '？' {
        if i < a.len() {
            assert(text::is_space(a[i]));
        } else if k >= m.len() {
            assert(text::is_space(b[k - m.len()]));
        } else {
            assert(m[k] == message[i]);
            assert(m.subrange(k, k + 1) =~= seq![message[i]]);
            if message[i] == '?' {
                assert("?"@ =~= seq!['?']);
                assert(m.subrange(k, k + "?"@.len()) == "?"@);
            } else {
                assert("？"@ =~= seq!['？']);
                assert(m.subrange(k, k + "？"@.len()) == "？"@);
            }
        }
    }
}

/// A message is short where at most ten characters are left without the white
/// space around them, and no code block stands among them.
pub proof fn short_messages_hold_ten_characters(
    message: Seq<char>,
    before: Seq<char>,
    core: Seq<char>,
    after: Seq<char>,
)
    requires
        message == before + core + after,
        text::blank(before),
        text::blank(after),
        core.len() > 0 ==> !text::is_space(core[0]) && !text::is_space(core.last()),
    ensures
        short_message(message) <==> core.len() <= 10 && forall|a: Seq<char>, b: Seq<char>|
            #[trigger] (a + "```"@ + b) != core,
{
    text::trimming_is_determined(message, before, core, after);
    text::occurrences_have_surroundings("```"@, core);
}

/// A phrase of the English list counts as a whole only, one of the Chinese list
/// wherever it stands.
pub proof fn phrases_are_matched(trimmed: Seq<char>, lower: Seq<char>, i: int, a: Seq<char>, b: Seq<char>)
    requires
        0 < trimmed.len() <= 10,
        !text::occurs("```"@, trimmed),
        !text::occurs("?"@, trimmed),
        !text::occurs("？"@, trimmed),
    ensures
        0 <= i < 28 && lower == EN_TRIVIAL@[i]@ ==> trivial_text(trimmed, lower),
        0 <= i < 22 && trimmed == a + ZH_TRIVIAL@[i]@ + b ==> trivial_text(trimmed, lower),
        trivial_text(trimmed, lower) ==> (exists|k: int|
            0 <= k < 28 && (#[trigger] EN_TRIVIAL@[k])@ == lower) || exists|k: int|
            0 <= k < 22 && text::occurs((#[trigger] ZH_TRIVIAL@[k])@, trimmed),
{
    if 0 <= i < 28 && lower == EN_TRIVIAL@[i]@ {
        assert(EN_TRIVIAL@[i]@ == lower);
    }
    if 0 <= i < 22 && trimmed == a + ZH_TRIVIAL@[i]@ + b {
        text::occurrences_have_surroundings(ZH_TRIVIAL@[i]@, trimmed);
        assert(text::occurs(ZH_TRIVIAL@[i]@, trimmed));
    }
}

} // verus!
