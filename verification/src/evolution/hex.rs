//! Bytes written as pairs of hexadecimal digits.

use vstd::prelude::*;
use vstd::string::*;
use vstd::utf8::*;

verus! {

/// The value of a hexadecimal digit, of either case.
pub open spec fn digit_value(b: u8) -> Option<int> {
    if 48 <= b <= 57 {
        Some(b - 48)
    } else if 97 <= b <= 102 {
        Some(b - 87)
    } else if 65 <= b <= 70 {
        Some(b - 55)
    } else {
        None
    }
}

/// The value of a pair: two digits, or a plus sign and one digit.
pub open spec fn pair_value(a: u8, b: u8) -> Option<u8> {
    match digit_value(b) {
        None => None,
        Some(low) => if a == 43 {
            Some(low as u8)
        } else {
            match digit_value(a) {
                None => None,
                Some(high) => Some((16 * high + low) as u8),
            }
        },
    }
}

/// Whether every pair has a value.
pub open spec fn all_pairs(s: Seq<u8>) -> bool {
    forall|i: int|
        0 <= i < s.len() / 2 ==> #[trigger] pair_value(s[2 * i], s[2 * i + 1]) is Some
}

/// The bytes that a text of digit pairs stands for, or what is wrong with it.
pub open spec fn decoded(s: Seq<u8>) -> Result<Seq<u8>, Seq<char>> {
    if s.len() % 2 != 0 {
        Err("odd hex length"@)
    } else if !all_pairs(s) {
        Err("invalid digit found in string"@)
    } else {
        Ok(Seq::new(s.len() / 2, |i: int| pair_value(s[2 * i], s[2 * i + 1])->0))
    }
}

/// The lower-case digit for a value.
pub open spec fn digit_char(v: int) -> char {
    if v < 10 {
        (48 + v) as char
    } else {
        (87 + v) as char
    }
}

/// Bytes as lower-case digit pairs.
pub open spec fn encoded(b: Seq<u8>) -> Seq<char> {
    Seq::new(
        2 * b.len(),
        |i: int|
            if i % 2 == 0 {
                digit_char(b[i / 2] as int / 16)
            } else {
                digit_char(b[i / 2] as int % 16)
            },
    )
}

/// The value of a hexadecimal digit.
fn value_of(b: u8) -> (res: Option<u8>)
    ensures
        match res {
            Some(v) => v < 16 && digit_value(b) == Some(v as int),
            None => digit_value(b) is None,
        },
{
    if 48 <= b && b <= 57 {
        Some(b - 48)
    } else if 97 <= b && b <= 102 {
        Some(b - 87)
    } else if 65 <= b && b <= 70 {
        Some(b - 55)
    } else {
        None
    }
}

/// The value of a pair of digits.
pub fn pair(a: u8, b: u8) -> (res: Option<u8>)
    ensures
        res == pair_value(a, b),
{
    match value_of(b) {
        None => None,
        Some(low) => if a == 43 {
            Some(low)
        } else {
            match value_of(a) {
                None => None,
                Some(high) => Some(16 * high + low),
            }
        },
    }
}

/// Decodes a text of digit pairs.
pub fn decode(s: &str) -> (res: Result<Vec<u8>, String>)
    ensures
        match decoded(encode_utf8(s@)) {
            Ok(bytes) => res matches Ok(v) && v@ == bytes,
            Err(fault) => res matches Err(m) && m@ == fault,
        },
{
    let text = s.as_bytes();
    let ghost chars = encode_utf8(s@);
    assert(text@ == chars);
    if text.len() % 2 != 0 {
        return Err("odd hex length".to_owned());
    }
    let n: usize = text.len() / 2;
    let mut out: Vec<u8> = Vec::new();
    let mut i: usize = 0;
    while i < n
        invariant
            i <= n,
            n == text.len() / 2,
            text.len() % 2 == 0,
            text@ == chars,
            chars == encode_utf8(s@),
            out.len() == i,
            forall|k: int|
                0 <= k < i ==> #[trigger] pair_value(chars[2 * k], chars[2 * k + 1]) == Some(
                    out@[k],
                ),
        decreases n - i,
    {
        match pair(text[2 * i], text[2 * i + 1]) {
            None => {
                assert(pair_value(chars[2 * i as int], chars[2 * i as int + 1]) is None);
                assert(!all_pairs(chars));
                return Err("invalid digit found in string".to_owned());
            },
            Some(v) => {
                out.push(v);
            },
        }
        i += 1;
    }
    proof {
        assert(all_pairs(chars));
        let want = decoded(chars)->Ok_0;
        assert forall|k: int| 0 <= k < n implies out@[k] == #[trigger] want[k] by {
            assert(pair_value(chars[2 * k], chars[2 * k + 1]) == Some(out@[k]));
        }
        assert(out@ =~= want);
    }
    Ok(out)
}

/// The lower-case digit for a value.
fn digit(v: u8) -> (c: char)
    requires
        v < 16,
    ensures
        c == digit_char(v as int),
{
    if v < 10 {
        (48 + v) as char
    } else {
        (87 + v) as char
    }
}

/// Encodes bytes as lower-case digit pairs.
pub fn encode(b: &[u8]) -> (out: String)
    ensures
        out@ == encoded(b@),
{
    let mut out = String::new();
    let mut i: usize = 0;
    while i < b.len()
        invariant
            i <= b.len(),
            out@ == encoded(b@).take(2 * i),
        decreases b.len() - i,
    {
        let ghost done = out@;
        out.push(digit(b[i] / 16));
        out.push(digit(b[i] % 16));
        proof {
            let all = encoded(b@);
            assert((2 * i) / 2 == i && (2 * i + 1) / 2 == i);
            assert(all[2 * i as int] == digit_char(b@[i as int] as int / 16));
            assert(all[2 * i as int + 1] == digit_char(b@[i as int] as int % 16));
            assert(out@ =~= all.take(2 * (i + 1)));
        }
        i += 1;
    }
    assert(out@ =~= encoded(b@));
    out
}

/// Decoding what was encoded gives the bytes back.
pub proof fn hex_roundtrip(b: Seq<u8>)
    ensures
        decoded(encode_utf8(encoded(b))) == Ok::<Seq<u8>, Seq<char>>(b),
{
    let text = encoded(b);
    assert(is_ascii_chars(text));
    is_ascii_chars_encode_utf8(text);
    let bytes = encode_utf8(text);
    assert(bytes =~= Seq::new(text.len(), |i: int| text[i] as u8));
    assert forall|i: int| 0 <= i < bytes.len() / 2 implies #[trigger] pair_value(
        bytes[2 * i],
        bytes[2 * i + 1],
    ) == Some(b[i]) by {
        assert((2 * i) / 2 == i && (2 * i + 1) / 2 == i);
        assert(text[2 * i] == digit_char(b[i] as int / 16));
        assert(text[2 * i + 1] == digit_char(b[i] as int % 16));
    }
    assert(all_pairs(bytes));
    assert(decoded(bytes)->Ok_0 =~= b);
}

/// A byte is written high digit first, in lower case.
pub proof fn high_digits_come_first(b: Seq<u8>, i: int)
    requires
        0 <= i < b.len(),
    ensures
        encoded(b).len() == 2 * b.len(),
        encoded(b)[2 * i] == "0123456789abcdef"@[b[i] as int / 16],
        encoded(b)[2 * i + 1] == "0123456789abcdef"@[b[i] as int % 16],
{
    reveal_strlit("0123456789abcdef");
    lemma_digits(b[i] as int / 16);
    lemma_digits(b[i] as int % 16);
}

proof fn lemma_digits(v: int)
    requires
        0 <= v < 16,
    ensures
        digit_char(v) == "0123456789abcdef"@[v],
{
    reveal_strlit("0123456789abcdef");
}

/// Digits are read in either case, and what is no digit is refused.
pub proof fn digits_are_read_in_either_case(s: Seq<u8>, t: Seq<u8>)
    requires
        s.len() == t.len(),
        forall|i: int|
            0 <= i < s.len() ==> #[trigger] t[i] == s[i] || (97 <= s[i] <= 102 && t[i] == s[i]
                - 32),
    ensures
        decoded(s) == decoded(t),
        decoded(s) is Ok ==> s.len() % 2 == 0 && forall|i: int|
            0 <= i < s.len() ==> 48 <= #[trigger] s[i] <= 57 || 65 <= s[i] <= 70 || 97 <= s[i]
                <= 102 || (s[i] == 43 && i % 2 == 0),
{
    assert forall|i: int| 0 <= i < s.len() / 2 implies #[trigger] pair_value(
        s[2 * i],
        s[2 * i + 1],
    ) == pair_value(t[2 * i], t[2 * i + 1]) by {
        assert(t[2 * i] == s[2 * i] || 97 <= s[2 * i] <= 102);
        assert(t[2 * i + 1] == s[2 * i + 1] || 97 <= s[2 * i + 1] <= 102);
    }
    assert(all_pairs(s) == all_pairs(t)) by {
        if all_pairs(s) {
            assert forall|i: int| 0 <= i < t.len() / 2 implies #[trigger] pair_value(
                t[2 * i],
                t[2 * i + 1],
            ) is Some by {
                assert(pair_value(s[2 * i], s[2 * i + 1]) is Some);
            }
        }
        if all_pairs(t) {
            assert forall|i: int| 0 <= i < s.len() / 2 implies #[trigger] pair_value(
                s[2 * i],
                s[2 * i + 1],
            ) is Some by {
                assert(pair_value(t[2 * i], t[2 * i + 1]) is Some);
            }
        }
    }
    if decoded(s) is Ok {
        assert(decoded(s)->Ok_0 =~= decoded(t)->Ok_0);
        assert forall|i: int| 0 <= i < s.len() implies 48 <= #[trigger] s[i] <= 57 || 65 <= s[i]
            <= 70 || 97 <= s[i] <= 102 || (s[i] == 43 && i % 2 == 0) by {
            let p = i / 2;
            assert(pair_value(s[2 * p], s[2 * p + 1]) is Some);
        }
    }
}

} // verus!
