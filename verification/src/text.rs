//! Text primitives over character sequences.

use vstd::prelude::*;
use vstd::string::*;

verus! {

/// `String::push` appends one character at the end of the string.
pub assume_specification[ String::push ](s: &mut String, ch: char)
    ensures
        final(s)@ == old(s)@.push(ch),
;

/// The characters of `s`, in order.
pub fn chars_of(s: &str) -> (out: Vec<char>)
    ensures
        out@ == s@,
{
    let mut out: Vec<char> = Vec::new();
    for c in it: s.chars()
        invariant
            it.seq() == s@,
            out@ == s@.take(it.index()),
    {
        out.push(c);
    }
    out
}

/// The string made of the characters `chars`, in order.
pub fn text_of(chars: &[char]) -> (out: String)
    ensures
        out@ == chars@,
{
    let mut out = String::new();
    let mut i: usize = 0;
    while i < chars.len()
        invariant
            i <= chars.len(),
            out@ == chars@.take(i as int),
        decreases chars.len() - i,
    {
        out.push(chars[i]);
        i += 1;
    }
    assert(chars@.take(chars.len() as int) =~= chars@);
    out
}

/// Whether two strings hold the same characters.
pub fn same(a: &str, b: &str) -> (res: bool)
    ensures
        res == (a@ == b@),
{
    let x = chars_of(a);
    let y = chars_of(b);
    if x.len() != y.len() {
        return false;
    }
    let mut i: usize = 0;
    while i < x.len()
        invariant
            i <= x.len(),
            x.len() == y.len(),
            x@ == a@,
            y@ == b@,
            forall|k: int| 0 <= k < i ==> x@[k] == y@[k],
        decreases x.len() - i,
    {
        if x[i] != y[i] {
            return false;
        }
        i += 1;
    }
    assert(x@ =~= y@);
    true
}

/// Whether a character is white space (the Unicode property `White_Space`).
pub open spec fn is_space(c: char) -> bool {
    let u = c as u32;
    9 <= u <= 13 || u == 0x20 || u == 0x85 || u == 0xa0 || u == 0x1680 || 0x2000 <= u <= 0x200a || u
        == 0x2028 || u == 0x2029 || u == 0x202f || u == 0x205f || u == 0x3000
}

/// `s` without its leading white space.
pub open spec fn trimmed_start(s: Seq<char>) -> Seq<char>
    decreases s.len(),
{
    if s.len() > 0 && is_space(s[0]) {
        trimmed_start(s.skip(1))
    } else {
        s
    }
}

/// `s` without its trailing white space.
pub open spec fn trimmed_end(s: Seq<char>) -> Seq<char>
    decreases s.len(),
{
    if s.len() > 0 && is_space(s.last()) {
        trimmed_end(s.drop_last())
    } else {
        s
    }
}

/// `s` without its leading and trailing white space.
pub open spec fn trimmed(s: Seq<char>) -> Seq<char> {
    trimmed_end(trimmed_start(s))
}

/// Whether `needle` occurs in `hay` as a run of consecutive items.
pub open spec fn occurs<T>(needle: Seq<T>, hay: Seq<T>) -> bool {
    exists|i: int|
        0 <= i <= hay.len() - needle.len() && #[trigger] hay.subrange(i, i + needle.len())
            == needle
}

/// Whether `s` starts with `head`.
pub open spec fn starts<T>(head: Seq<T>, s: Seq<T>) -> bool {
    head.len() <= s.len() && s.take(head.len() as int) == head
}

/// Whether `s` ends with `tail`.
pub open spec fn ends<T>(tail: Seq<T>, s: Seq<T>) -> bool {
    tail.len() <= s.len() && s.skip(s.len() - tail.len()) == tail
}

/// Tests for white space.
pub fn space(c: char) -> (res: bool)
    ensures
        res == is_space(c),
{
    let u: u32 = c as u32;
    (9 <= u && u <= 13) || u == 0x20 || u == 0x85 || u == 0xa0 || u == 0x1680 || (0x2000 <= u && u
        <= 0x200a) || u == 0x2028 || u == 0x2029 || u == 0x202f || u == 0x205f || u == 0x3000
}

/// The text without leading white space.
pub fn trim_start(s: &str) -> (out: String)
    ensures
        out@ == trimmed_start(s@),
{
    let chars = chars_of(s);
    let mut i: usize = 0;
    assert(chars@.skip(0) =~= chars@);
    while i < chars.len() && space(chars[i])
        invariant
            i <= chars.len(),
            trimmed_start(chars@.skip(i as int)) == trimmed_start(chars@),
        decreases chars.len() - i,
    {
        assert(chars@.skip(i as int).skip(1) =~= chars@.skip(i + 1));
        i += 1;
    }
    assert(trimmed_start(chars@.skip(i as int)) == chars@.skip(i as int));
    proof {
        assert(chars@.skip(i as int) =~= chars@.subrange(i as int, chars.len() as int));
    }
    text_of(&copied(&chars, i, chars.len()))
}

/// The items `from..to` of a vector of characters.
pub fn copied(chars: &[char], from: usize, to: usize) -> (out: Vec<char>)
    requires
        from <= to <= chars.len(),
    ensures
        out@ == chars@.subrange(from as int, to as int),
{
    let mut out: Vec<char> = Vec::new();
    let mut i: usize = from;
    while i < to
        invariant
            from <= i <= to <= chars.len(),
            out@ == chars@.subrange(from as int, i as int),
        decreases to - i,
    {
        out.push(chars[i]);
        assert(chars@.subrange(from as int, i + 1) =~= chars@.subrange(from as int, i as int).push(
            chars@[i as int],
        ));
        i += 1;
    }
    out
}

/// The text without trailing white space.
pub fn trim_end(s: &str) -> (out: String)
    ensures
        out@ == trimmed_end(s@),
{
    let chars = chars_of(s);
    let mut n: usize = chars.len();
    assert(chars@.take(n as int) =~= chars@);
    while n > 0 && space(chars[n - 1])
        invariant
            n <= chars.len(),
            trimmed_end(chars@.take(n as int)) == trimmed_end(chars@),
        decreases n,
    {
        assert(chars@.take(n as int).drop_last() =~= chars@.take(n - 1));
        n -= 1;
    }
    assert(trimmed_end(chars@.take(n as int)) == chars@.take(n as int));
    assert(chars@.take(n as int) =~= chars@.subrange(0, n as int));
    text_of(&copied(&chars, 0, n))
}

/// The text without leading and trailing white space.
pub fn trim(s: &str) -> (out: String)
    ensures
        out@ == trimmed(s@),
{
    trim_end(trim_start(s).as_str())
}

/// Whether `needle` stands in `hay` at `at`.
pub fn found_at(hay: &[char], needle: &[char], at: usize) -> (res: bool)
    requires
        at + needle.len() <= hay.len(),
    ensures
        res == (hay@.subrange(at as int, at + needle.len()) == needle@),
{
    let mut i: usize = 0;
    let ghost part = hay@.subrange(at as int, at + needle.len());
    while i < needle.len()
        invariant
            i <= needle.len(),
            at + needle.len() <= hay.len(),
            part == hay@.subrange(at as int, at + needle.len()),
            forall|k: int| 0 <= k < i ==> hay@[at + k] == needle@[k],
        decreases needle.len() - i,
    {
        if hay[at + i] != needle[i] {
            assert(part[i as int] != needle@[i as int]);
            return false;
        }
        i += 1;
    }
    assert(part =~= needle@);
    true
}

/// Whether `needle` occurs in `hay`.
pub fn contains(hay: &str, needle: &str) -> (res: bool)
    ensures
        res == occurs(needle@, hay@),
{
    let h = chars_of(hay);
    let n = chars_of(needle);
    if n.len() > h.len() {
        return false;
    }
    let last: usize = h.len() - n.len();
    let mut i: usize = 0;
    while i <= last
        invariant
            h@ == hay@,
            n@ == needle@,
            n.len() <= h.len(),
            last == h.len() - n.len(),
            i <= last + 1,
            forall|k: int| 0 <= k < i ==> #[trigger] hay@.subrange(k, k + needle@.len()) != needle@,
        decreases last + 1 - i,
    {
        if found_at(&h, &n, i) {
            return true;
        }
        if i == last {
            return false;
        }
        i += 1;
    }
    false
}

/// Whether `s` starts with `head`.
pub fn starts_with(s: &str, head: &str) -> (res: bool)
    ensures
        res == starts(head@, s@),
{
    let a = chars_of(s);
    let b = chars_of(head);
    if b.len() > a.len() {
        return false;
    }
    assert(a@.subrange(0, 0 + b.len()) =~= a@.take(b.len() as int));
    found_at(&a, &b, 0)
}

/// Whether `s` ends with `tail`.
pub fn ends_with(s: &str, tail: &str) -> (res: bool)
    ensures
        res == ends(tail@, s@),
{
    let a = chars_of(s);
    let b = chars_of(tail);
    if b.len() > a.len() {
        return false;
    }
    assert(a@.subrange(a.len() - b.len(), a.len() as int) =~= a@.skip(a.len() - b.len()));
    found_at(&a, &b, a.len() - b.len())
}

/// The first `n` characters, or all of them where there are fewer.
pub open spec fn prefix(s: Seq<char>, n: int) -> Seq<char> {
    if n < s.len() {
        s.take(n)
    } else {
        s
    }
}

/// The first `n` characters of a text.
pub fn first_chars(s: &str, n: usize) -> (out: String)
    ensures
        out@ == prefix(s@, n as int),
{
    let chars = chars_of(s);
    if n < chars.len() {
        assert(chars@.subrange(0, n as int) =~= chars@.take(n as int));
        text_of(&copied(&chars, 0, n))
    } else {
        text_of(&chars)
    }
}

/// The digit `d` as a character.
pub open spec fn digit(d: nat) -> char {
    (48 + d) as char
}

/// `n` written in decimal.
pub open spec fn decimal(n: nat) -> Seq<char>
    decreases n,
{
    if n < 10 {
        seq![digit(n)]
    } else {
        decimal(n / 10).push(digit(n % 10))
    }
}

/// Appends `n` in decimal.
fn append_decimal(out: &mut String, n: u128)
    ensures
        final(out)@ == old(out)@ + decimal(n as nat),
    decreases n,
{
    if n >= 10 {
        append_decimal(out, n / 10);
    }
    let d: u8 = 48 + (n % 10) as u8;
    out.push(d as char);
    assert(out@ =~= old(out)@ + decimal(n as nat));
}

/// `n` written in decimal.
pub fn decimal_text(n: u128) -> (out: String)
    ensures
        out@ == decimal(n as nat),
{
    let mut out = String::new();
    append_decimal(&mut out, n);
    assert(out@ =~= decimal(n as nat));
    out
}

/// The upper-case form of an ASCII letter; any other character itself.
pub open spec fn ascii_upper(c: char) -> char {
    if 'a' <= c && c <= 'z' {
        (c as u32 - 32) as char
    } else {
        c
    }
}

/// The lower-case form of an ASCII letter; any other character itself.
pub open spec fn ascii_lower(c: char) -> char {
    if 'A' <= c && c <= 'Z' {
        (c as u32 + 32) as char
    } else {
        c
    }
}

/// `s` with every ASCII letter in upper case.
pub open spec fn uppercased(s: Seq<char>) -> Seq<char> {
    s.map_values(|c: char| ascii_upper(c))
}

/// `s` with every ASCII letter in lower case.
pub open spec fn lowercased(s: Seq<char>) -> Seq<char> {
    s.map_values(|c: char| ascii_lower(c))
}

/// The text with every ASCII letter in upper case.
pub fn to_ascii_uppercase(s: &str) -> (out: String)
    ensures
        out@ == uppercased(s@),
{
    let mut out = String::new();
    for c in it: s.chars()
        invariant
            it.seq() == s@,
            out@ == uppercased(s@.take(it.index())),
    {
        let u: char = if 'a' <= c && c <= 'z' {
            (c as u8 - 32) as char
        } else {
            c
        };
        out.push(u);
        assert(s@.take(it.index() + 1) =~= s@.take(it.index()).push(c));
        assert(uppercased(s@.take(it.index() + 1)) =~= uppercased(s@.take(it.index())).push(u));
    }
    assert(s@.take(s@.len() as int) =~= s@);
    out
}

/// The text with every ASCII letter in lower case.
pub fn to_ascii_lowercase(s: &str) -> (out: String)
    ensures
        out@ == lowercased(s@),
{
    let mut out = String::new();
    for c in it: s.chars()
        invariant
            it.seq() == s@,
            out@ == lowercased(s@.take(it.index())),
    {
        let u: char = if 'A' <= c && c <= 'Z' {
            (c as u8 + 32) as char
        } else {
            c
        };
        out.push(u);
        assert(s@.take(it.index() + 1) =~= s@.take(it.index()).push(c));
        assert(lowercased(s@.take(it.index() + 1)) =~= lowercased(s@.take(it.index())).push(u));
    }
    assert(s@.take(s@.len() as int) =~= s@);
    out
}

/// Texts put together, a separator between each two.
pub open spec fn joined(parts: Seq<Seq<char>>, separator: Seq<char>) -> Seq<char>
    decreases parts.len(),
{
    if parts.len() == 0 {
        Seq::empty()
    } else if parts.len() == 1 {
        parts[0]
    } else {
        joined(parts.drop_last(), separator) + separator + parts.last()
    }
}

/// The contents of an optional text.
pub open spec fn words(s: Option<String>) -> Option<Seq<char>> {
    match s {
        Some(t) => Some(t@),
        None => None,
    }
}

/// The contents of texts.
pub open spec fn contents(texts: Seq<String>) -> Seq<Seq<char>> {
    texts.map_values(|s: String| s@)
}

/// Texts put together, a separator between each two.
pub fn join(parts: &[String], separator: &str) -> (out: String)
    ensures
        out@ == joined(contents(parts@), separator@),
{
    let mut out = String::new();
    let mut i: usize = 0;
    let ghost all = contents(parts@);
    assert(all.take(0) =~= Seq::empty());
    while i < parts.len()
        invariant
            i <= parts@.len(),
            all == contents(parts@),
            out@ == joined(all.take(i as int), separator@),
        decreases parts@.len() - i,
    {
        let ghost upto = all.take(i + 1);
        assert(upto.drop_last() =~= all.take(i as int));
        assert(upto.last() == parts@[i as int]@);
        if i == 0 {
            out = parts[i].as_str().to_owned();
        } else {
            out.append(separator);
            out.append(parts[i].as_str());
        }
        i += 1;
    }
    assert(all.take(parts@.len() as int) =~= all);
    out
}

/// Whether every character is white space.
pub open spec fn blank(s: Seq<char>) -> bool {
    forall|i: int| 0 <= i < s.len() ==> is_space(#[trigger] s[i])
}

proof fn lemma_trimmed_start(s: Seq<char>)
    ensures
        ({
            let out = trimmed_start(s);
            let n = s.len() - out.len();
            &&& 0 <= n
            &&& out == s.skip(n)
            &&& blank(s.take(n))
            &&& out.len() > 0 ==> !is_space(out[0])
        }),
    decreases s.len(),
{
    let out = trimmed_start(s);
    if s.len() > 0 && is_space(s[0]) {
        let rest = s.skip(1);
        lemma_trimmed_start(rest);
        let n = rest.len() - out.len();
        assert(rest.skip(n) =~= s.skip(n + 1));
        assert forall|i: int| 0 <= i < n + 1 implies is_space(#[trigger] s.take(n + 1)[i]) by {
            if i > 0 {
                assert(rest.take(n)[i - 1] == s[i]);
            }
        }
    } else {
        assert(s.skip(0) =~= s);
    }
}

proof fn lemma_trimmed_end(s: Seq<char>)
    ensures
        ({
            let out = trimmed_end(s);
            &&& out.len() <= s.len()
            &&& out == s.take(out.len() as int)
            &&& blank(s.skip(out.len() as int))
            &&& out.len() > 0 ==> !is_space(out.last())
        }),
    decreases s.len(),
{
    let out = trimmed_end(s);
    let n = out.len() as int;
    if s.len() > 0 && is_space(s.last()) {
        let rest = s.drop_last();
        lemma_trimmed_end(rest);
        assert(rest.take(n) =~= s.take(n));
        assert forall|i: int| 0 <= i < s.skip(n).len() implies is_space(
            #[trigger] s.skip(n)[i],
        ) by {
            if n + i < s.len() - 1 {
                assert(rest.skip(n)[i] == s[n + i]);
            }
        }
    } else {
        assert(s.take(n) =~= s);
    }
}

/// Trimming takes away white space at both ends, all of it and nothing else.
pub proof fn trimming_strips_white_space(s: Seq<char>)
    ensures
        exists|a: Seq<char>, b: Seq<char>| #[trigger]
            (a + trimmed(s) + b) == s && blank(a) && blank(b),
        trimmed(s).len() > 0 ==> !is_space(trimmed(s)[0]) && !is_space(trimmed(s).last()),
        trimmed(s).len() == 0 <==> blank(s),
{
    lemma_trimmed_start(s);
    let mid = trimmed_start(s);
    lemma_trimmed_end(mid);
    let out = trimmed(s);
    let a = s.take(s.len() - mid.len());
    let b = mid.skip(out.len() as int);
    assert(mid =~= out + b);
    assert(a + out + b =~= s);
    if out.len() == 0 {
        assert forall|i: int| 0 <= i < s.len() implies is_space(#[trigger] s[i]) by {
            if i < a.len() {
                assert(a[i] == s[i]);
            } else {
                assert(b[i - a.len()] == s[i]);
            }
        }
    }
    if blank(s) && mid.len() > 0 {
        assert(mid[0] == s[s.len() - mid.len()]);
    }
}

/// A text starts with one that something can be put behind to give it, and
/// ends with one that something can be put before to give it.
pub proof fn ends_are_what_they_say(part: Seq<char>, s: Seq<char>)
    ensures
        starts(part, s) <==> exists|rest: Seq<char>| #[trigger] (part + rest) == s,
        ends(part, s) <==> exists|rest: Seq<char>| #[trigger] (rest + part) == s,
{
    let n = part.len() as int;
    if starts(part, s) {
        assert(part + s.skip(n) =~= s);
    }
    if ends(part, s) {
        assert(s.take(s.len() - n) + part =~= s);
    }
    if exists|rest: Seq<char>| #[trigger] (part + rest) == s {
        let rest = choose|rest: Seq<char>| #[trigger] (part + rest) == s;
        assert(s.take(n) =~= part);
    }
    if exists|rest: Seq<char>| #[trigger] (rest + part) == s {
        let rest = choose|rest: Seq<char>| #[trigger] (rest + part) == s;
        assert(s.skip(s.len() - n) =~= part);
    }
}

/// Putting parts together keeps all of them, in order, with the separator
/// between any two.
pub proof fn joining_puts_separators_between(a: Seq<Seq<char>>, part: Seq<char>, separator: Seq<char>)
    ensures
        joined(Seq::empty(), separator) == Seq::<char>::empty(),
        joined(seq![part], separator) == part,
        a.len() > 0 ==> joined(a.push(part), separator) == joined(a, separator) + separator + part,
{
    assert(a.push(part).drop_last() =~= a);
}

/// A number is written digit by digit: what stands before the last digit is the
/// number without it.
pub proof fn decimals_go_digit_by_digit(n: nat, d: nat)
    requires
        d < 10,
    ensures
        decimal(d) == seq![(48 + d) as char],
        n > 0 ==> decimal(10 * n + d) == decimal(n).push((48 + d) as char),
{
    assert((10 * n + d) / 10 == n && (10 * n + d) % 10 == d);
}

/// Upper case changes the letters from a to z, each to the one 32 places before,
/// and lower case those from A to Z, each to the one 32 places behind.
pub proof fn cases_are_apart(s: Seq<char>, i: int)
    requires
        0 <= i < s.len(),
    ensures
        uppercased(s).len() == s.len(),
        lowercased(s).len() == s.len(),
        !('a' <= uppercased(s)[i] <= 'z'),
        !('A' <= lowercased(s)[i] <= 'Z'),
        uppercased(s)[i] != s[i] ==> uppercased(s)[i] as u32 + 32 == s[i] as u32,
        lowercased(s)[i] != s[i] ==> lowercased(s)[i] as u32 == s[i] as u32 + 32,
{
}

/// A text occurs in another that consists of it and what stands around it.
pub proof fn occurrences_have_surroundings(needle: Seq<char>, hay: Seq<char>)
    ensures
        occurs(needle, hay) <==> exists|a: Seq<char>, b: Seq<char>| #[trigger]
            (a + needle + b) == hay,
{
    if occurs(needle, hay) {
        let i = choose|i: int|
            0 <= i <= hay.len() - needle.len() && #[trigger] hay.subrange(i, i + needle.len())
                == needle;
        assert(hay.take(i) + needle + hay.skip(i + needle.len()) =~= hay);
    }
    if exists|a: Seq<char>, b: Seq<char>| #[trigger] (a + needle + b) == hay {
        let (a, b) = choose|a: Seq<char>, b: Seq<char>| #[trigger] (a + needle + b) == hay;
        let i = a.len() as int;
        assert(hay.subrange(i, i + needle.len()) =~= needle);
    }
}

/// What is left by trimming is determined by the white space around it.
pub proof fn trimming_is_determined(
    s: Seq<char>,
    before: Seq<char>,
    core: Seq<char>,
    after: Seq<char>,
)
    requires
        s == before + core + after,
        blank(before),
        blank(after),
        core.len() > 0 ==> !is_space(core[0]) && !is_space(core.last()),
    ensures
        trimmed(s) == core,
{
    trimming_strips_white_space(s);
    let t = trimmed(s);
    let (a, b) = choose|a: Seq<char>, b: Seq<char>| #[trigger]
        (a + t + b) == s && blank(a) && blank(b);
    if core.len() == 0 {
        assert forall|i: int| 0 <= i < s.len() implies is_space(#[trigger] s[i]) by {
            if i < before.len() {
                assert(s[i] == before[i]);
            } else {
                assert(s[i] == after[i - before.len()]);
            }
        }
    } else {
        let first = before.len() as int;
        let last = before.len() + core.len() - 1;
        assert(s[first] == core[0]);
        assert(s[last] == core.last());
        assert(t.len() > 0);
        if a.len() > first {
            assert(is_space(a[first]));
        }
        if a.len() < first {
            assert(s[a.len() as int] == t[0]);
            assert(is_space(before[a.len() as int]));
        }
        let end = a.len() + t.len() - 1;
        assert(s[end] == t.last());
        if end < last {
            assert(is_space(b[last - a.len() - t.len()]));
        }
        if end > last {
            assert(is_space(after[end - before.len() - core.len()]));
        }
        assert(a.len() == first && t.len() == core.len());
        assert(t =~= s.subrange(first, last + 1));
        assert(core =~= s.subrange(first, last + 1));
    }
}

/// Twenty-five characters are white space: six of them are ASCII, and no letter
/// or digit is among them.
pub proof fn white_space_is_listed(c: char)
    ensures
        is_space(c) <==> seq![
            '\t',
            '\n',
            '\u{b}',
            '\u{c}',
            '\r',
            ' ',
            '\u{85}',
            '\u{a0}',
            '\u{1680}',
            '\u{2000}',
            '\u{2001}',
            '\u{2002}',
            '\u{2003}',
            '\u{2004}',
            '\u{2005}',
            '\u{2006}',
            '\u{2007}',
            '\u{2008}',
            '\u{2009}',
            '\u{200a}',
            '\u{2028}',
            '\u{2029}',
            '\u{202f}',
            '\u{205f}',
            '\u{3000}',
        ].contains(c),
        'a' <= c <= 'z' || 'A' <= c <= 'Z' || '0' <= c <= '9' ==> !is_space(c),
{
    let all = seq![
        '\t',
        '\n',
        '\u{b}',
        '\u{c}',
        '\r',
        ' ',
        '\u{85}',
        '\u{a0}',
        '\u{1680}',
        '\u{2000}',
        '\u{2001}',
        '\u{2002}',
        '\u{2003}',
        '\u{2004}',
        '\u{2005}',
        '\u{2006}',
        '\u{2007}',
        '\u{2008}',
        '\u{2009}',
        '\u{200a}',
        '\u{2028}',
        '\u{2029}',
        '\u{202f}',
        '\u{205f}',
        '\u{3000}',
    ];
    let u = c as int;
    if is_space(c) {
        let i = if u <= 13 {
            u - 9
        } else if u == 0x20 {
            5
        } else if u == 0x85 {
            6
        } else if u == 0xa0 {
            7
        } else if u == 0x1680 {
            8
        } else if u <= 0x200a {
            u - 0x2000 + 9
        } else if u == 0x2028 {
            20
        } else if u == 0x2029 {
            21
        } else if u == 0x202f {
            22
        } else if u == 0x205f {
            23
        } else {
            24
        };
        assert(all[i] == c);
    }
    if all.contains(c) {
        let i = choose|i: int| 0 <= i < all.len() && all[i] == c;
        assert(is_space(all[i]));
    }
}

} // verus!
