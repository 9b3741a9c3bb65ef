//! Text generation: parameters, and what is decided from token to token.

use crate::bounds;
use crate::builtin::sampling::Settings;
use crate::single;
use crate::single::Single;
use crate::text;
use crate::text::{chars_of, copied, ends_with, found_at, text_of};
use crate::tier::RouteClass;
use vstd::arithmetic::power2::{lemma2_to64, pow2};
use vstd::prelude::*;
use vstd::string::*;
use vstd::utf8::*;

verus! {

/// Bit pattern of one.
pub const ONE: u32 = 0x3f80_0000;

/// Bit pattern of 0.9, the default nucleus mass.
pub const DEFAULT_TOP_P: u32 = 0x3f66_6666;

/// Bit pattern of 0.99654026, the default penalty decay.
pub const DEFAULT_PENALTY_DECAY: u32 = 0x3f7f_1d43;

/// Candidates kept where no number is given.
pub const DEFAULT_TOP_K: usize = 128;

/// Length of the recently decoded text, in bytes, beyond which it is cut.
pub const STOP_BUFFER_LIMIT: usize = 200;

/// Length that it is cut to, in bytes.
pub const STOP_BUFFER_KEPT: usize = 100;

/// Tokens fed to a model at once when it reads a prompt.
pub const PREFILL_CHUNK: usize = 128;

/// Sampling and generation parameters.
#[derive(Debug, Clone)]
pub struct GenParams {
    /// Most tokens to generate; zero counts as one.
    pub max_tokens: usize,
    /// Temperature; zero or less takes the likeliest token.
    pub temperature: Single,
    /// Nucleus mass, between zero and one.
    pub top_p: Single,
    /// Candidates kept; zero counts as 128.
    pub top_k: usize,
    /// Flat penalty for a token that occurred.
    pub presence_penalty: Single,
    /// Penalty that grows with the count of a token.
    pub frequency_penalty: Single,
    /// Exponent that a count is raised to.
    pub penalty_decay: Single,
    /// Texts that end the generation.
    pub stop: Vec<String>,
    /// Whether the end-of-text token ends the generation.
    pub stop_on_eos: bool,
}

impl Default for GenParams {
    fn default() -> (res: Self)
        ensures
            res.is_default(),
    {
        GenParams {
            max_tokens: 512,
            temperature: Single { bits: ONE },
            top_p: Single { bits: DEFAULT_TOP_P },
            top_k: 128,
            presence_penalty: Single { bits: 0 },
            frequency_penalty: Single { bits: 0 },
            penalty_decay: Single { bits: DEFAULT_PENALTY_DECAY },
            stop: Vec::new(),
            stop_on_eos: true,
        }
    }
}

impl GenParams {
    /// The parameters that hold where nothing is given.
    pub open spec fn is_default(self) -> bool {
        &&& self.max_tokens == 512
        &&& self.temperature.bits == ONE
        &&& self.top_p.bits == DEFAULT_TOP_P
        &&& self.top_k == 128
        &&& self.presence_penalty.bits == 0
        &&& self.frequency_penalty.bits == 0
        &&& self.penalty_decay.bits == DEFAULT_PENALTY_DECAY
        &&& self.stop@.len() == 0
        &&& self.stop_on_eos
    }

    /// Most tokens to generate.
    pub open spec fn budget(self) -> int {
        if self.max_tokens == 0 {
            1
        } else {
            self.max_tokens as int
        }
    }

    /// The sampling settings: the nucleus mass is brought between zero and
    /// one, and zero candidates count as 128.
    pub open spec fn settings(self) -> Settings {
        let top_p = if self.top_p.below((Single { bits: 0 })) {
            Single { bits: 0 }
        } else if (Single { bits: ONE }).below(self.top_p) {
            Single { bits: ONE }
        } else {
            self.top_p
        };
        Settings {
            temperature: self.temperature,
            top_p,
            top_k: if self.top_k == 0 {
                DEFAULT_TOP_K
            } else {
                self.top_k
            },
            presence_penalty: self.presence_penalty,
            frequency_penalty: self.frequency_penalty,
            penalty_decay: self.penalty_decay,
        }
    }

    /// The sampling settings.
    pub fn sampling(&self) -> (res: Settings)
        ensures
            res == self.settings(),
            res.top_k > 0,
    {
        let top_p = if self.top_p.less(Single { bits: 0 }) {
            Single { bits: 0 }
        } else if (Single { bits: ONE }).less(self.top_p) {
            Single { bits: ONE }
        } else {
            self.top_p
        };
        Settings {
            temperature: self.temperature,
            top_p,
            top_k: if self.top_k == 0 {
                DEFAULT_TOP_K
            } else {
                self.top_k
            },
            presence_penalty: self.presence_penalty,
            frequency_penalty: self.frequency_penalty,
            penalty_decay: self.penalty_decay,
        }
    }
}

/// Result of a generation.
#[derive(Debug, Clone)]
pub struct GenOutput {
    /// The generated text, without the stop text.
    pub text: String,
    /// Number of prompt tokens.
    pub input_tokens: usize,
    /// Number of generated tokens, the end-of-text token included.
    pub output_tokens: usize,
    /// The stop text that ended the generation.
    pub stop_hit: Option<String>,
    /// Whether the end-of-text token ended the generation.
    pub stopped_by_eos: bool,
}

/// Length of a character in UTF-8.
pub open spec fn utf8_width(c: char) -> nat {
    let u = c as u32;
    if u < 0x80 {
        1
    } else if u < 0x800 {
        2
    } else if u < 0x1_0000 {
        3
    } else {
        4
    }
}

/// Length of a text in UTF-8.
pub open spec fn utf8_len(s: Seq<char>) -> nat
    decreases s.len(),
{
    if s.len() == 0 {
        0
    } else {
        utf8_width(s[0]) + utf8_len(s.skip(1))
    }
}

/// The longest end of a text that is at most `n` bytes long.
pub open spec fn utf8_tail(s: Seq<char>, n: nat) -> Seq<char>
    decreases s.len(),
{
    if utf8_len(s) <= n || s.len() == 0 {
        s
    } else {
        utf8_tail(s.skip(1), n)
    }
}

/// The recently decoded text once it was cut, where it was too long.
pub open spec fn trimmed_buffer(s: Seq<char>) -> Seq<char> {
    if utf8_len(s) > STOP_BUFFER_LIMIT {
        utf8_tail(s, STOP_BUFFER_KEPT as nat)
    } else {
        s
    }
}

/// The first of the stop texts, from place `i` on, that the text ends with;
/// empty ones do not count.
pub open spec fn first_stop(stop: Seq<String>, buffer: Seq<char>, i: int) -> Option<Seq<char>>
    decreases stop.len() - i,
{
    if i >= stop.len() {
        None
    } else if stop[i]@.len() > 0 && text::ends(stop[i]@, buffer) {
        Some(stop[i]@)
    } else {
        first_stop(stop, buffer, i + 1)
    }
}

/// The place of the last occurrence of `needle` at or before `at`; negative
/// where there is none.
pub open spec fn last_place(hay: Seq<char>, needle: Seq<char>, at: int) -> int
    decreases at + 1,
{
    if at < 0 {
        -1
    } else if at + needle.len() <= hay.len() && hay.subrange(at, at + needle.len()) == needle {
        at
    } else {
        last_place(hay, needle, at - 1)
    }
}

/// A text up to the last occurrence of `stop`, or all of it where there is
/// none.
pub open spec fn cut_at(s: Seq<char>, stop: Option<Seq<char>>) -> Seq<char> {
    match stop {
        None => s,
        Some(needle) => {
            let at = last_place(s, needle, s.len() as int);
            if at < 0 {
                s
            } else {
                s.take(at)
            }
        },
    }
}

/// Length of a character in UTF-8.
fn width(c: char) -> (n: usize)
    ensures
        n == utf8_width(c),
        1 <= n <= 4,
{
    let u: u32 = c as u32;
    if u < 0x80 {
        1
    } else if u < 0x800 {
        2
    } else if u < 0x1_0000 {
        3
    } else {
        4
    }
}

/// The recently decoded text, cut where it is too long.
pub fn trim_buffer(s: &str) -> (out: String)
    ensures
        out@ == trimmed_buffer(s@),
{
    let chars = chars_of(s);
    let n: usize = chars.len();
    let mut i: usize = n;
    let mut len: u128 = 0;
    let mut start: usize = n;
    assert(chars@.skip(n as int) =~= Seq::empty());
    while i > 0
        invariant
            i <= n,
            start <= n,
            i <= start,
            n == chars.len(),
            len == utf8_len(chars@.skip(i as int)),
            len <= 4 * (n - i),
            start == i || len > STOP_BUFFER_KEPT,
            utf8_len(chars@.skip(start as int)) <= STOP_BUFFER_KEPT,
            utf8_tail(chars@.skip(i as int), STOP_BUFFER_KEPT as nat) == chars@.skip(start as int),
        decreases i,
    {
        let w = width(chars[i - 1]);
        proof {
            let whole = chars@.skip(i - 1);
            assert(whole.skip(1) =~= chars@.skip(i as int));
            assert(whole[0] == chars@[i - 1]);
        }
        if start == i && len + w as u128 <= STOP_BUFFER_KEPT as u128 {
            start = i - 1;
        }
        len = len + w as u128;
        i -= 1;
    }
    assert(chars@.skip(0) =~= chars@);
    if len > STOP_BUFFER_LIMIT as u128 {
        assert(chars@.skip(start as int) =~= chars@.subrange(start as int, n as int));
        text_of(&copied(&chars, start, n))
    } else {
        text_of(&chars)
    }
}

/// A generation under way: the tokens so far, the recently decoded text, and
/// what ended it.
pub struct Generation {
    pub ids: Vec<u32>,
    pub buffer: String,
    pub stop_hit: Option<String>,
    pub stopped_by_eos: bool,
}

/// The characters of a stop text, where there is one.
pub open spec fn stop_chars(s: Option<String>) -> Option<Seq<char>> {
    match s {
        Some(t) => Some(t@),
        None => None,
    }
}

/// Whether taking a token has this effect: the end-of-text token ends the
/// generation where that is asked for; any other is kept with its text, and a
/// stop text that the recent text ends with ends the generation.
pub open spec fn accepts(
    before: Generation,
    after: Generation,
    id: u32,
    piece: Seq<char>,
    params: GenParams,
    feed: bool,
) -> bool {
    if id == 0 && params.stop_on_eos {
        &&& !feed
        &&& after == (Generation { stopped_by_eos: true, ..before })
    } else {
        let buffer = trimmed_buffer(before.buffer@ + piece);
        &&& after.ids@ == before.ids@.push(id)
        &&& after.buffer@ == buffer
        &&& stop_chars(after.stop_hit) == first_stop(params.stop@, buffer, 0)
        &&& !after.stopped_by_eos
        &&& feed == (after.stop_hit is None)
    }
}

impl Generation {
    /// Whether the generation goes on.
    pub open spec fn open(self, params: GenParams) -> bool {
        self.stop_hit is None && !self.stopped_by_eos && self.ids@.len() < params.budget()
    }

    /// Number of tokens that were sampled: those that are kept, and the
    /// end-of-text token where it ended the generation.
    pub open spec fn spent(self) -> nat {
        if self.stopped_by_eos && self.ids@.len() < usize::MAX {
            self.ids@.len() + 1
        } else {
            self.ids@.len()
        }
    }

    /// A generation that has produced nothing.
    pub fn start() -> (res: Generation)
        ensures
            res.ids@.len() == 0,
            res.buffer@.len() == 0,
            res.stop_hit is None,
            !res.stopped_by_eos,
    {
        Generation {
            ids: Vec::new(),
            buffer: String::new(),
            stop_hit: None,
            stopped_by_eos: false,
        }
    }

    /// Whether the generation goes on.
    pub fn is_open(&self, params: &GenParams) -> (res: bool)
        ensures
            res == self.open(*params),
    {
        let budget: usize = if params.max_tokens == 0 {
            1
        } else {
            params.max_tokens
        };
        self.stop_hit.is_none() && !self.stopped_by_eos && self.ids.len() < budget
    }

    /// Takes a sampled token with its decoded text. The end-of-text token
    /// ends the generation where that is asked for; otherwise the token is
    /// kept, and a stop text that the recent text ends with ends it. Returns
    /// whether the model has to be fed with the token.
    pub fn accept(&mut self, id: u32, piece: &str, params: &GenParams) -> (feed: bool)
        requires
            old(self).open(*params),
        ensures
            accepts(*old(self), *final(self), id, piece@, *params, feed),
            final(self).ids@.len() <= params.budget(),
    {
        if id == 0 && params.stop_on_eos {
            self.stopped_by_eos = true;
            return false;
        }
        self.ids.push(id);
        self.buffer.append(piece);
        let cut = trim_buffer(self.buffer.as_str());
        self.buffer = cut;
        let ghost buffer = self.buffer@;
        let mut i: usize = 0;
        while i < params.stop.len()
            invariant
                i <= params.stop.len(),
                buffer == self.buffer@,
                self.ids@ == old(self).ids@.push(id),
                self.ids@.len() <= params.budget(),
                buffer == trimmed_buffer(old(self).buffer@ + piece@),
                self.stop_hit is None,
                !self.stopped_by_eos,
                !(id == 0 && params.stop_on_eos),
                first_stop(params.stop@, buffer, 0) == first_stop(params.stop@, buffer, i as int),
            decreases params.stop.len() - i,
        {
            let s = &params.stop[i];
            if s.as_str().unicode_len() > 0 && ends_with(self.buffer.as_str(), s.as_str()) {
                self.stop_hit = Some(s.clone());
                return false;
            }
            i += 1;
        }
        true
    }

    /// The output, given the number of prompt tokens and the decoded text of
    /// all tokens: a stop text that ended the generation is cut off, with
    /// what follows it.
    pub fn finish(self, input_tokens: usize, text: &str) -> (res: GenOutput)
        ensures
            res.text@ == cut_at(text@, stop_chars(self.stop_hit)),
            res.input_tokens == input_tokens,
            res.output_tokens == self.spent(),
            stop_chars(res.stop_hit) == stop_chars(self.stop_hit),
            res.stopped_by_eos == self.stopped_by_eos,
    {
        let kept: usize = self.ids.len();
        let output_tokens: usize = if self.stopped_by_eos && kept < usize::MAX {
            kept + 1
        } else {
            kept
        };
        let shown = match &self.stop_hit {
            None => text.to_owned(),
            Some(stop) => cut_before_last(text, stop.as_str()),
        };
        GenOutput {
            text: shown,
            input_tokens,
            output_tokens,
            stop_hit: self.stop_hit,
            stopped_by_eos: self.stopped_by_eos,
        }
    }
}

/// The text up to the last occurrence of `needle`.
pub fn cut_before_last(s: &str, needle: &str) -> (out: String)
    ensures
        out@ == cut_at(s@, Some(needle@)),
{
    let hay = chars_of(s);
    let what = chars_of(needle);
    let mut at: usize = hay.len();
    let mut going: bool = true;
    while going
        invariant
            hay@ == s@,
            what@ == needle@,
            at <= hay.len(),
            going ==> last_place(s@, needle@, s@.len() as int) == last_place(
                s@,
                needle@,
                at as int,
            ),
            !going ==> last_place(s@, needle@, s@.len() as int) == -1,
        decreases
            at,
            (if going {
                1int
            } else {
                0int
            }),
    {
        if what.len() <= hay.len() - at && found_at(&hay, &what, at) {
            assert(hay@.subrange(0, at as int) =~= hay@.take(at as int));
            return text_of(&copied(&hay, 0, at));
        }
        if at == 0 {
            proof {
                assert(last_place(s@, needle@, 0) == last_place(s@, needle@, -1));
            }
            going = false;
        } else {
            at -= 1;
        }
    }
    text_of(&hay)
}

/// Files of the tier models; a tier without one is not served locally.
#[derive(Debug, Clone)]
pub struct TierModelPaths {
    pub r0: Option<String>,
    pub r1: Option<String>,
    pub r2: Option<String>,
    pub r3: Option<String>,
}

impl Default for TierModelPaths {
    fn default() -> (res: Self)
        ensures
            res.r0 is None && res.r1 is None && res.r2 is None && res.r3 is None,
    {
        TierModelPaths { r0: None, r1: None, r2: None, r3: None }
    }
}

/// The text of an optional string.
fn text_slice(s: &Option<String>) -> (res: Option<&str>)
    ensures
        match *s {
            Some(t) => res matches Some(u) && u@ == t@,
            None => res is None,
        },
{
    match s {
        Some(t) => Some(t.as_str()),
        None => None,
    }
}

impl TierModelPaths {
    /// The file of a tier, if it has one.
    pub open spec fn file(self, tier: RouteClass) -> Option<String> {
        match tier {
            RouteClass::R0 => self.r0,
            RouteClass::R1 => self.r1,
            RouteClass::R2 => self.r2,
            RouteClass::R3 => self.r3,
        }
    }

    /// The file of a tier, if it has one.
    pub fn path_for(&self, tier: RouteClass) -> (res: Option<&str>)
        ensures
            match self.file(tier) {
                Some(t) => res matches Some(u) && u@ == t@,
                None => res is None,
            },
    {
        match tier {
            RouteClass::R0 => text_slice(&self.r0),
            RouteClass::R1 => text_slice(&self.r1),
            RouteClass::R2 => text_slice(&self.r2),
            RouteClass::R3 => text_slice(&self.r3),
        }
    }

    /// Sets the file of a tier.
    pub fn set(&mut self, tier: RouteClass, path: String)
        ensures
            final(self).file(tier) == Some(path),
            forall|t: RouteClass| t != tier ==> #[trigger] final(self).file(t) == old(self).file(t),
    {
        match tier {
            RouteClass::R0 => {
                self.r0 = Some(path);
            },
            RouteClass::R1 => {
                self.r1 = Some(path);
            },
            RouteClass::R2 => {
                self.r2 = Some(path);
            },
            RouteClass::R3 => {
                self.r3 = Some(path);
            },
        }
    }
}

proof fn lemma_first_stop(stop: Seq<String>, buffer: Seq<char>, i: int)
    requires
        0 <= i <= stop.len(),
    ensures
        match first_stop(stop, buffer, i) {
            Some(s) => exists|k: int|
                i <= k < stop.len() && (#[trigger] stop[k])@ == s && s.len() > 0 && text::ends(
                    s,
                    buffer,
                ) && forall|j: int|
                    i <= j < k ==> (#[trigger] stop[j])@.len() == 0 || !text::ends(
                        stop[j]@,
                        buffer,
                    ),
            None => forall|k: int|
                i <= k < stop.len() ==> (#[trigger] stop[k])@.len() == 0 || !text::ends(
                    stop[k]@,
                    buffer,
                ),
        },
    decreases stop.len() - i,
{
    if i < stop.len() && !(stop[i]@.len() > 0 && text::ends(stop[i]@, buffer)) {
        lemma_first_stop(stop, buffer, i + 1);
    } else if i < stop.len() {
        assert(stop[i]@ == stop[i]@);
    }
}

/// Generation stops at a stop text exactly where the recent text ends with one
/// that is not empty; of several, the one that is listed first.
pub proof fn stop_texts_end_the_text(stop: Seq<String>, recent: Seq<char>)
    ensures
        match first_stop(stop, recent, 0) {
            Some(s) => s.len() > 0 && (exists|before: Seq<char>| #[trigger] (before + s) == recent)
                && exists|k: int|
                0 <= k < stop.len() && (#[trigger] stop[k])@ == s && forall|j: int|
                    0 <= j < k ==> (#[trigger] stop[j])@.len() == 0 || !text::ends(
                        stop[j]@,
                        recent,
                    ),
            None => forall|k: int, before: Seq<char>|
                0 <= k < stop.len() && (#[trigger] stop[k])@.len() > 0 ==> #[trigger] (before
                    + stop[k]@) != recent,
        },
{
    lemma_first_stop(stop, recent, 0);
    match first_stop(stop, recent, 0) {
        Some(s) => {
            text::ends_are_what_they_say(s, recent);
        },
        None => {
            assert forall|k: int, before: Seq<char>|
                0 <= k < stop.len() && (#[trigger] stop[k])@.len() > 0 implies #[trigger] (before
                + stop[k]@) != recent by {
                text::ends_are_what_they_say(stop[k]@, recent);
            }
        },
    }
}

proof fn lemma_last_place(hay: Seq<char>, needle: Seq<char>, at: int)
    requires
        -1 <= at <= hay.len(),
    ensures
        ({
            let p = last_place(hay, needle, at);
            &&& -1 <= p <= at
            &&& p >= 0 ==> p + needle.len() <= hay.len() && hay.subrange(p, p + needle.len())
                == needle
            &&& forall|q: int|
                p < q <= at ==> !(q + needle.len() <= hay.len() && #[trigger] hay.subrange(
                    q,
                    q + needle.len(),
                ) == needle)
        }),
    decreases at + 1,
{
    if at >= 0 && !(at + needle.len() <= hay.len() && hay.subrange(at, at + needle.len())
        == needle) {
        lemma_last_place(hay, needle, at - 1);
    }
}

/// What a stop text ended is cut off with it: the text goes up to its last
/// occurrence, and stays whole where it does not occur or nothing stopped.
pub proof fn stop_texts_are_cut_off(s: Seq<char>, stop: Seq<char>, before: Seq<char>, after: Seq<char>)
    requires
        stop.len() > 0,
    ensures
        cut_at(s, None) == s,
        (forall|a: Seq<char>, b: Seq<char>| #[trigger] (a + stop + b) != s) ==> cut_at(
            s,
            Some(stop),
        ) == s,
        s == before + stop + after && (forall|a: Seq<char>, b: Seq<char>|
            #[trigger] (a + stop + b) == s ==> a.len() <= before.len()) ==> cut_at(s, Some(stop))
            == before,
{
    lemma_last_place(s, stop, s.len() as int);
    let p = last_place(s, stop, s.len() as int);
    if p >= 0 {
        let (a, b) = (s.take(p), s.skip(p + stop.len()));
        assert(a + stop + b =~= s);
    }
    if s == before + stop + after {
        let q = before.len() as int;
        assert(s.subrange(q, q + stop.len()) =~= stop);
        assert(p >= q);
        assert(s.take(q) =~= before);
    }
}

/// Lengths are counted in bytes of UTF-8.
pub proof fn lengths_are_in_bytes(s: Seq<char>)
    ensures
        utf8_len(s) == encode_utf8(s).len(),
    decreases s.len(),
{
    if s.len() > 0 {
        char_is_scalar(s[0]);
        assert(s.drop_first() =~= s.skip(1));
        lengths_are_in_bytes(s.skip(1));
    }
}

proof fn lemma_tail(s: Seq<char>, n: nat)
    ensures
        ({
            let out = utf8_tail(s, n);
            let k = s.len() - out.len();
            &&& 0 <= k
            &&& out == s.skip(k)
            &&& utf8_len(out) <= n
            &&& k > 0 ==> utf8_len(s.skip(k - 1)) > n
        }),
    decreases s.len(),
{
    if utf8_len(s) <= n || s.len() == 0 {
        assert(s.skip(0) =~= s);
    } else {
        let rest = s.skip(1);
        lemma_tail(rest, n);
        let out = utf8_tail(s, n);
        let k = rest.len() - out.len();
        assert(rest.skip(k) =~= s.skip(k + 1));
        if k > 0 {
            assert(rest.skip(k - 1) =~= s.skip(k));
        } else {
            assert(s.skip(0) =~= s);
        }
    }
}

/// The recent text is kept whole up to 200 bytes. A longer one is cut to its
/// end, as much of it as 100 bytes hold.
pub proof fn recent_text_is_kept(s: Seq<char>)
    ensures
        encode_utf8(s).len() <= 200 ==> trimmed_buffer(s) == s,
        encode_utf8(s).len() > 200 ==> {
            let out = trimmed_buffer(s);
            let k = s.len() - out.len();
            &&& k > 0
            &&& out == s.skip(k)
            &&& encode_utf8(out).len() <= 100
            &&& encode_utf8(s.skip(k - 1)).len() > 100
        },
{
    lengths_are_in_bytes(s);
    lemma_tail(s, STOP_BUFFER_KEPT as nat);
    let out = utf8_tail(s, STOP_BUFFER_KEPT as nat);
    let k = s.len() - out.len();
    lengths_are_in_bytes(out);
    if k > 0 {
        lengths_are_in_bytes(s.skip(k - 1));
    } else {
        assert(s.skip(0) =~= s);
    }
}

/// The nucleus mass is brought between zero and one, and stays where it lies
/// there already; everything else that sampling goes by is what was asked for.
pub proof fn settings_are_as_asked(params: GenParams)
    ensures
        ({
            let s = params.settings();
            let zero = Single { bits: 0 };
            let one = Single { bits: ONE };
            &&& !params.top_p.nan() ==> zero.at_most(s.top_p) && s.top_p.at_most(one)
            &&& zero.at_most(params.top_p) && params.top_p.at_most(one) ==> s.top_p == params.top_p
            &&& params.top_p.below(zero) ==> s.top_p == zero
            &&& one.below(params.top_p) ==> s.top_p == one
            &&& params.top_k > 0 ==> s.top_k == params.top_k
            &&& params.top_k == 0 ==> s.top_k == 128
            &&& s.temperature == params.temperature
            &&& s.presence_penalty == params.presence_penalty
            &&& s.frequency_penalty == params.frequency_penalty
            &&& s.penalty_decay == params.penalty_decay
        }),
{
}

/// A generation goes on until something ends it: a stop text, the end of text,
/// or as many tokens as were asked for, one at the least.
pub proof fn generations_come_to_an_end(g: Generation, params: GenParams)
    ensures
        g.open(params) <==> g.stop_hit is None && !g.stopped_by_eos && (g.ids@.len()
            < params.max_tokens || g.ids@.len() == 0),
        g.ids@.len() < usize::MAX ==> g.spent() == if g.stopped_by_eos {
            g.ids@.len() + 1
        } else {
            g.ids@.len()
        },
{
}

/// Every tier has a file of its own.
pub proof fn tiers_have_their_files(paths: TierModelPaths)
    ensures
        paths.file(RouteClass::R0) == paths.r0,
        paths.file(RouteClass::R1) == paths.r1,
        paths.file(RouteClass::R2) == paths.r2,
        paths.file(RouteClass::R3) == paths.r3,
{
}

/// Every token but the one that ends the text is kept, in order, and fed to the
/// model unless a stop text ended the generation; a stop text ends it exactly
/// where the recent text ends with it.
pub proof fn tokens_are_kept_until_the_end(
    before: Generation,
    after: Generation,
    id: u32,
    piece: Seq<char>,
    params: GenParams,
    feed: bool,
)
    requires
        before.open(params),
        accepts(before, after, id, piece, params, feed),
    ensures
        id == 0 && params.stop_on_eos ==> after.ids == before.ids && !after.open(params) && !feed,
        id != 0 || !params.stop_on_eos ==> {
            &&& after.ids@.len() == before.ids@.len() + 1
            &&& after.ids@.drop_last() == before.ids@
            &&& after.ids@.last() == id
            &&& after.spent() == before.spent() + 1
            &&& utf8_len(before.buffer@ + piece) <= 200 ==> after.buffer@ == before.buffer@ + piece
            &&& feed <==> after.open(params) || (after.stop_hit is None && after.ids@.len()
                == params.budget())
            &&& !feed ==> exists|i: int|
                0 <= i < params.stop@.len() && (#[trigger] params.stop@[i])@.len() > 0
                    && text::ends(params.stop@[i]@, after.buffer@)
            &&& feed ==> forall|i: int|
                0 <= i < params.stop@.len() && (#[trigger] params.stop@[i])@.len() > 0
                    ==> !text::ends(params.stop@[i]@, after.buffer@)
        },
{
    lemma_first_stop(params.stop@, after.buffer@, 0);
    assert(before.ids@.push(id).drop_last() =~= before.ids@);
}

/// The usual nucleus is nine tenths, and a penalty fades by 0.99654026.
pub proof fn usual_parameters_are_decimal()
    ensures
        single::nearest(DEFAULT_TOP_P as int, 9int * pow2(149), 10),
        single::nearest(DEFAULT_PENALTY_DECAY as int, 99_654_026int * pow2(149), 100_000_000),
{
    lemma2_to64();
    bounds::lemma_fraction(DEFAULT_TOP_P as int, 9, 10);
    bounds::lemma_fraction(DEFAULT_PENALTY_DECAY as int, 99_654_026, 100_000_000);
}

} // verus!
