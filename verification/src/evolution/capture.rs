//! Captured routing decisions: the sample store, its labels and its bounds.

use crate::evolution::hex;
use crate::single::Single;
use crate::text;
use crate::text::{decimal_text, first_chars, trim};
use crate::training::TrainingSample;
use crate::widths;
use crate::widths::{narrow, widen};
use vstd::prelude::*;
use vstd::string::*;
use vstd::utf8::*;

verus! {

/// Longest text kept of a captured request, in characters.
pub const CAPTURE_TEXT_CHARS: usize = 2000;

/// Longest text shown of a captured request, in characters.
pub const LIST_TEXT_CHARS: usize = 300;

/// Most samples listed at once.
pub const LIST_MAX: usize = 200;

/// One captured routing decision.
#[derive(Debug, Clone)]
pub struct CaptureRecord {
    /// Time of capture, in milliseconds since 1970.
    pub ts: u64,
    /// The text the classifier scored.
    pub text: String,
    /// The pooled hidden state: half-precision numbers, low byte first, as
    /// hexadecimal digits.
    pub hidden_hex: String,
    /// The session's previous tier (0 to 3).
    pub prev_tier: Option<u8>,
    /// The probabilities of R0 to R3, before post-processing.
    pub probs: [Single; 4],
    /// Dimension of the backbone that was in use.
    pub num_embd: usize,
    /// The correct tier (0 to 3), once it is known.
    pub label: Option<u8>,
    /// Where the sample came from.
    pub source: String,
}

/// Paths and thresholds of the evolution loop.
#[derive(Debug, Clone)]
pub struct EvolutionConfig {
    /// Directory of the captured samples and of the auto-evolution mark.
    pub data_dir: String,
    /// Directory of the evaluation pack and of the replay pool. Without it
    /// there is no evolution.
    pub packs_dir: Option<String>,
    /// File of the deployed classification head.
    pub head_path: String,
    /// Most samples kept.
    pub capture_limit: usize,
    /// Fewest labelled samples needed for fine-tuning.
    pub min_labeled_for_evolve: usize,
    /// Newly labelled samples after which fine-tuning starts by itself.
    pub auto_evolve_step: usize,
}

impl Default for EvolutionConfig {
    fn default() -> (res: Self)
        ensures
            res.data_dir@ == "router_evolution"@,
            res.packs_dir is None,
            res.head_path@ == "router_head.json"@,
            res.capture_limit == 2000,
            res.min_labeled_for_evolve == 20,
            res.auto_evolve_step == 200,
    {
        EvolutionConfig {
            data_dir: "router_evolution".to_owned(),
            packs_dir: None,
            head_path: "router_head.json".to_owned(),
            capture_limit: 2000,
            min_labeled_for_evolve: 20,
            auto_evolve_step: 200,
        }
    }
}

/// Numbers of samples, and the bounds they are held against.
#[derive(Debug, Clone, Copy, PartialEq, Eq)]
pub struct CaptureStats {
    pub total: usize,
    pub labeled: usize,
    pub unlabeled: usize,
    /// Labelled samples of each tier.
    pub per_tier: [usize; 4],
    pub limit: usize,
    pub min_labeled_for_evolve: usize,
}

/// A sample as it is listed.
#[derive(Debug, Clone)]
pub struct CaptureItem {
    pub idx: usize,
    pub ts: u64,
    pub text: String,
    pub probs: [Single; 4],
    pub prev_tier: Option<u8>,
    pub label: Option<u8>,
    pub source: String,
}

/// What a capture did to the store, and so what has to be written.
#[derive(Debug, Clone, Copy, PartialEq, Eq, Structural)]
pub enum Captured {
    /// Nothing was stored.
    Ignored,
    /// One record was appended.
    Appended,
    /// A record was appended and the oldest ones were dropped.
    Trimmed,
}

/// The numbers in half precision, low byte first.
pub open spec fn half_bytes(h: Seq<Single>) -> Seq<u8> {
    Seq::new(
        2 * h.len(),
        |i: int|
            if i % 2 == 0 {
                (widths::narrowed(h[i / 2]) % 256) as u8
            } else {
                (widths::narrowed(h[i / 2]) / 256) as u8
            },
    )
}

/// A hidden state as it is stored.
pub open spec fn hidden_text(h: Seq<Single>) -> Seq<char> {
    hex::encoded(half_bytes(h))
}

/// The number that four digits stand for; zero where they are no digits.
pub open spec fn quad_value(a: u8, b: u8, c: u8, d: u8) -> Single {
    match (hex::pair_value(a, b), hex::pair_value(c, d)) {
        (Some(low), Some(high)) => widths::widened((low + 256 * high) as u16),
        _ => Single { bits: 0 },
    }
}

/// The hidden state that stored digits stand for.
pub open spec fn hidden_numbers(digits: Seq<u8>) -> Seq<Single> {
    Seq::new(
        digits.len() / 4,
        |i: int| quad_value(digits[4 * i], digits[4 * i + 1], digits[4 * i + 2], digits[4 * i + 3]),
    )
}

/// A hidden state as it is stored: half-precision numbers as hexadecimal
/// digits.
pub fn hidden_to_hex(hidden: &[Single]) -> (out: String)
    ensures
        out@ == hidden_text(hidden@),
{
    let mut buf: Vec<u8> = Vec::new();
    let mut i: usize = 0;
    while i < hidden.len()
        invariant
            i <= hidden.len(),
            buf@ == half_bytes(hidden@).take(2 * i),
        decreases hidden.len() - i,
    {
        let b = narrow(hidden[i]);
        buf.push((b % 256) as u8);
        buf.push((b / 256) as u8);
        proof {
            assert((2 * i) / 2 == i && (2 * i + 1) / 2 == i);
            let all = half_bytes(hidden@);
            assert(all[2 * i as int] == (b % 256) as u8);
            assert(all[2 * i as int + 1] == (b / 256) as u8);
            assert(buf@ =~= all.take(2 * (i + 1)));
        }
        i += 1;
    }
    assert(buf@ =~= half_bytes(hidden@));
    hex::encode(&buf)
}

impl CaptureRecord {
    /// The stored hidden state.
    pub fn hidden_f32(&self) -> (out: Vec<Single>)
        ensures
            out@ == hidden_numbers(encode_utf8(self.hidden_hex@)),
    {
        let digits = self.hidden_hex.as_str().as_bytes();
        let n: usize = digits.len() / 4;
        let mut out: Vec<Single> = Vec::new();
        let mut i: usize = 0;
        while i < n
            invariant
                i <= n,
                n == digits.len() / 4,
                digits@ == encode_utf8(self.hidden_hex@),
                out@ == hidden_numbers(digits@).take(i as int),
            decreases n - i,
        {
            let low = hex::pair(digits[4 * i], digits[4 * i + 1]);
            let high = hex::pair(digits[4 * i + 2], digits[4 * i + 3]);
            let v = match (low, high) {
                (Some(a), Some(b)) => widen(a as u16 + 256 * b as u16),
                _ => Single { bits: 0 },
            };
            out.push(v);
            assert(v == hidden_numbers(digits@)[i as int]);
            i += 1;
            assert(out@ =~= hidden_numbers(digits@).take(i as int));
        }
        assert(out@ =~= hidden_numbers(digits@));
        out
    }
}

/// A stored hidden state is read back as the half-precision numbers nearest
/// to those that were stored.
pub proof fn hidden_roundtrip(h: Seq<Single>)
    ensures
        hidden_numbers(encode_utf8(hidden_text(h))) == h.map_values(
            |x: Single| widths::widened(widths::narrowed(x)),
        ),
{
    let bytes = half_bytes(h);
    let text = hidden_text(h);
    assert(is_ascii_chars(text));
    is_ascii_chars_encode_utf8(text);
    let digits = encode_utf8(text);
    assert(digits =~= Seq::new(text.len(), |i: int| text[i] as u8));
    let got = hidden_numbers(digits);
    assert(got.len() == h.len());
    assert forall|i: int| 0 <= i < h.len() implies #[trigger] got[i] == widths::widened(
        widths::narrowed(h[i]),
    ) by {
        assert((4 * i) / 2 == 2 * i && (4 * i + 1) / 2 == 2 * i);
        assert((4 * i + 2) / 2 == 2 * i + 1 && (4 * i + 3) / 2 == 2 * i + 1);
        assert((2 * i) / 2 == i && (2 * i + 1) / 2 == i);
        let b = widths::narrowed(h[i]);
        assert(bytes[2 * i] == (b % 256) as u8);
        assert(bytes[2 * i + 1] == (b / 256) as u8);
        assert(text[4 * i] == hex::digit_char(bytes[2 * i] as int / 16));
        assert(text[4 * i + 1] == hex::digit_char(bytes[2 * i] as int % 16));
        assert(text[4 * i + 2] == hex::digit_char(bytes[2 * i + 1] as int / 16));
        assert(text[4 * i + 3] == hex::digit_char(bytes[2 * i + 1] as int % 16));
        assert(hex::pair_value(digits[4 * i], digits[4 * i + 1]) == Some(bytes[2 * i]));
        assert(hex::pair_value(digits[4 * i + 2], digits[4 * i + 3]) == Some(bytes[2 * i + 1]));
    }
    assert(got =~= h.map_values(|x: Single| widths::widened(widths::narrowed(x))));
}

/// How many records are labelled.
pub open spec fn labeled_count(records: Seq<CaptureRecord>) -> nat
    decreases records.len(),
{
    if records.len() == 0 {
        0
    } else {
        labeled_count(records.drop_last()) + if records.last().label is Some {
            1nat
        } else {
            0nat
        }
    }
}

/// How many records are labelled with a tier.
pub open spec fn labeled_as(records: Seq<CaptureRecord>, tier: int) -> nat
    decreases records.len(),
{
    if records.len() == 0 {
        0
    } else {
        labeled_as(records.drop_last(), tier) + if records.last().label matches Some(l) && l
            == tier {
            1nat
        } else {
            0nat
        }
    }
}

/// Where every label is one of a tier, the labelled samples are those of the
/// four tiers.
pub proof fn labels_add_up(records: Seq<CaptureRecord>)
    requires
        forall|i: int| 0 <= i < records.len() ==> (#[trigger] records[i].label matches Some(l) ==> l <= 3),
    ensures
        labeled_count(records) == labeled_as(records, 0) + labeled_as(records, 1) + labeled_as(
            records,
            2,
        ) + labeled_as(records, 3),
    decreases records.len(),
{
    if records.len() > 0 {
        let front = records.drop_last();
        assert forall|i: int| 0 <= i < front.len() implies (#[trigger] front[i].label matches Some(
            l,
        ) ==> l <= 3) by {
            assert(front[i] == records[i]);
        }
        labels_add_up(front);
        assert(records[records.len() - 1] == records.last());
    }
}

/// Whether a record is what is kept of a routing decision.
pub open spec fn records(
    rec: CaptureRecord,
    ts: u64,
    text: Seq<char>,
    hidden: Seq<Single>,
    prev_tier: Option<u8>,
    probs: Seq<Single>,
    num_embd: usize,
) -> bool {
    &&& rec.ts == ts
    &&& rec.text@ == text::prefix(text, CAPTURE_TEXT_CHARS as int)
    &&& rec.hidden_hex@ == hidden_text(hidden)
    &&& rec.prev_tier == prev_tier
    &&& rec.probs@ == probs
    &&& rec.num_embd == num_embd
    &&& rec.label is None
    &&& rec.source@ == "route"@
}

/// Whether a routing decision is worth keeping.
pub open spec fn capturable(text: Seq<char>, hidden: Seq<Single>, probs: Seq<Single>) -> bool {
    text::trimmed(text).len() > 0 && hidden.len() > 0 && probs.len() == 4
}

/// What is left of the records where they are too many: the newest half of
/// the limit.
pub open spec fn bounded(records: Seq<CaptureRecord>, limit: nat) -> Seq<CaptureRecord> {
    if records.len() > limit {
        records.skip(records.len() - limit / 2)
    } else {
        records
    }
}

/// Number of samples that a listing asks for.
pub open spec fn list_count(limit: int) -> int {
    if limit < 1 {
        1
    } else if limit > LIST_MAX {
        LIST_MAX as int
    } else {
        limit
    }
}

/// Number of samples that a listing gives.
pub open spec fn listed(total: int, offset: int, limit: int) -> int {
    if offset >= total {
        0
    } else if total - offset < list_count(limit) {
        total - offset
    } else {
        list_count(limit)
    }
}

/// Position of the record that stands at a place of a listing: the newest one
/// that is not passed over stands first.
pub open spec fn listing_place(total: int, offset: int, i: int) -> int {
    total - 1 - offset - i
}

/// Whether an item shows the record at a position.
pub open spec fn shows(item: CaptureItem, records: Seq<CaptureRecord>, at: int) -> bool {
    let r = records[at];
    &&& item.idx == at
    &&& item.ts == r.ts
    &&& item.text@ == text::prefix(r.text@, LIST_TEXT_CHARS as int)
    &&& item.probs == r.probs
    &&& item.prev_tier == r.prev_tier
    &&& item.label == r.label
    &&& item.source@ == r.source@
}

/// What is said of a position without a record.
pub open spec fn range_error(idx: nat) -> Seq<char> {
    "index "@ + text::decimal(idx) + " out of range"@
}

/// Evolution coordinator: the samples and their labels, the auto-evolution
/// mark, and whether an evolution is under way.
pub struct Evolution {
    pub config: EvolutionConfig,
    pub records: Vec<CaptureRecord>,
    /// Whether an evolution is under way.
    pub running: bool,
    /// Number of labelled samples when evolution last started by itself.
    pub last_auto_mark: usize,
    /// Whether the configured head file is deployed to even where a
    /// classifier with a head file of its own is attached.
    pub pinned: bool,
}

/// Whether an evolution starts by itself: where it is due and none is under
/// way. The mark is then the number of labelled samples.
pub open spec fn starts_by_itself(
    before: Evolution,
    after: Evolution,
    res: Option<usize>,
) -> bool {
    if before.auto_due() && !before.running {
        &&& res == Some(labeled_count(before.records@) as usize)
        &&& after == (Evolution {
            running: true,
            last_auto_mark: labeled_count(before.records@) as usize,
            ..before
        })
    } else {
        res is None && after == before
    }
}

impl Evolution {
    /// Creates a coordinator over the stored samples and the stored mark.
    pub fn new(config: EvolutionConfig, records: Vec<CaptureRecord>, last_auto_mark: usize) -> (res:
        Self)
        ensures
            res.config == config,
            res.records == records,
            !res.running,
            res.last_auto_mark == last_auto_mark,
            !res.pinned,
    {
        Evolution { config, records, running: false, last_auto_mark, pinned: false }
    }

    /// Keeps one routing decision; a blank text, an empty hidden state and a
    /// wrong number of probabilities are passed over. Where the limit is
    /// exceeded, only the newest half of it is kept.
    pub fn capture_route_sample(
        &mut self,
        ts: u64,
        text: &str,
        hidden: &[Single],
        prev_tier: Option<u8>,
        probs: &[Single],
        num_embd: usize,
    ) -> (res: Captured)
        ensures
            !capturable(text@, hidden@, probs@) ==> res == Captured::Ignored && *final(self)
                == *old(self),
            capturable(text@, hidden@, probs@) ==> exists|rec: CaptureRecord| #[trigger]
                records(rec, ts, text@, hidden@, prev_tier, probs@, num_embd)
                    && final(self).records@ == bounded(
                    old(self).records@.push(rec),
                    old(self).config.capture_limit as nat,
                ),
            capturable(text@, hidden@, probs@) ==> res == if old(self).records@.len() + 1 > old(
                self,
            ).config.capture_limit {
                Captured::Trimmed
            } else {
                Captured::Appended
            },
            *final(self) == (Evolution { records: final(self).records, ..*old(self) }),
    {
        if trim(text).as_str().unicode_len() == 0 || hidden.len() == 0 || probs.len() != 4 {
            return Captured::Ignored;
        }
        let rec = CaptureRecord {
            ts,
            text: first_chars(text, CAPTURE_TEXT_CHARS),
            hidden_hex: hidden_to_hex(hidden),
            prev_tier,
            probs: [probs[0], probs[1], probs[2], probs[3]],
            num_embd,
            label: None,
            source: "route".to_owned(),
        };
        assert(rec.probs@ =~= probs@);
        assert(records(rec, ts, text@, hidden@, prev_tier, probs@, num_embd));
        let ghost all = self.records@.push(rec);
        self.records.push(rec);
        let n: usize = self.records.len();
        let limit: usize = self.config.capture_limit;
        if n > limit {
            let kept = self.records.split_off(n - limit / 2);
            assert(kept@ =~= bounded(all, limit as nat));
            self.records = kept;
            return Captured::Trimmed;
        }
        Captured::Appended
    }

    /// Number of labelled samples.
    pub fn labeled(&self) -> (n: usize)
        ensures
            n == labeled_count(self.records@),
            n <= self.records@.len(),
    {
        let mut n: usize = 0;
        let mut i: usize = 0;
        while i < self.records.len()
            invariant
                i <= self.records.len(),
                n <= i,
                n == labeled_count(self.records@.take(i as int)),
            decreases self.records.len() - i,
        {
            assert(self.records@.take(i + 1).drop_last() =~= self.records@.take(i as int));
            if self.records[i].label.is_some() {
                n += 1;
            }
            i += 1;
        }
        assert(self.records@.take(self.records.len() as int) =~= self.records@);
        n
    }

    /// Number of samples labelled with a tier.
    fn labeled_with(&self, tier: u8) -> (n: usize)
        ensures
            n == labeled_as(self.records@, tier as int),
    {
        let mut n: usize = 0;
        let mut i: usize = 0;
        while i < self.records.len()
            invariant
                i <= self.records.len(),
                n <= i,
                n == labeled_as(self.records@.take(i as int), tier as int),
            decreases self.records.len() - i,
        {
            assert(self.records@.take(i + 1).drop_last() =~= self.records@.take(i as int));
            if let Some(l) = self.records[i].label {
                if l == tier {
                    n += 1;
                }
            }
            i += 1;
        }
        assert(self.records@.take(self.records.len() as int) =~= self.records@);
        n
    }

    /// Numbers of samples, and the bounds they are held against.
    pub fn capture_stats(&self) -> (res: CaptureStats)
        ensures
            res.total == self.records@.len(),
            res.labeled == labeled_count(self.records@),
            res.unlabeled == self.records@.len() - labeled_count(self.records@),
            forall|t: int|
                0 <= t < 4 ==> #[trigger] res.per_tier@[t] == labeled_as(self.records@, t),
            res.limit == self.config.capture_limit,
            res.min_labeled_for_evolve == self.config.min_labeled_for_evolve,
    {
        let labeled = self.labeled();
        CaptureStats {
            total: self.records.len(),
            labeled,
            unlabeled: self.records.len() - labeled,
            per_tier: [
                self.labeled_with(0),
                self.labeled_with(1),
                self.labeled_with(2),
                self.labeled_with(3),
            ],
            limit: self.config.capture_limit,
            min_labeled_for_evolve: self.config.min_labeled_for_evolve,
        }
    }

    /// Lists samples, newest first: at least one and at most 200, after the
    /// `offset` newest ones.
    pub fn capture_list(&self, offset: usize, limit: usize) -> (out: Vec<CaptureItem>)
        ensures
            out@.len() == listed(self.records@.len() as int, offset as int, limit as int),
            forall|i: int|
                0 <= i < out@.len() ==> shows(
                    #[trigger] out@[i],
                    self.records@,
                    listing_place(self.records@.len() as int, offset as int, i),
                ),
    {
        let mut out: Vec<CaptureItem> = Vec::new();
        let total: usize = self.records.len();
        if offset >= total {
            return out;
        }
        let asked: usize = if limit < 1 {
            1
        } else if limit > LIST_MAX {
            LIST_MAX
        } else {
            limit
        };
        let n: usize = if total - offset < asked {
            total - offset
        } else {
            asked
        };
        let mut i: usize = 0;
        while i < n
            invariant
                i <= n,
                n <= total - offset,
                offset < total,
                total == self.records.len(),
                out.len() == i,
                forall|k: int|
                    0 <= k < i ==> shows(
                        #[trigger] out@[k],
                        self.records@,
                        listing_place(self.records@.len() as int, offset as int, k),
                    ),
            decreases n - i,
        {
            let at: usize = total - 1 - offset - i;
            let r = &self.records[at];
            out.push(
                CaptureItem {
                    idx: at,
                    ts: r.ts,
                    text: first_chars(r.text.as_str(), LIST_TEXT_CHARS),
                    probs: r.probs,
                    prev_tier: r.prev_tier,
                    label: r.label,
                    source: r.source.clone(),
                },
            );
            i += 1;
        }
        out
    }

    /// Labels the sample at `idx` with its correct tier (0 to 3), or clears
    /// its label.
    pub fn capture_label(&mut self, idx: usize, label: Option<u8>) -> (res: Result<(), String>)
        ensures
            label matches Some(l) && l > 3 ==> {
                &&& res matches Err(m)
                &&& m@ == "invalid tier label "@ + text::decimal(label->0 as nat) + " (0-3)"@
                &&& *final(self) == *old(self)
            },
            !(label matches Some(l) && l > 3) && idx >= old(self).records@.len() ==> {
                &&& res matches Err(m)
                &&& m@ == range_error(idx as nat)
                &&& *final(self) == *old(self)
            },
            !(label matches Some(l) && l > 3) && idx < old(self).records@.len() ==> {
                &&& res is Ok
                &&& final(self).records@ == old(self).records@.update(
                    idx as int,
                    (CaptureRecord { label, ..old(self).records@[idx as int] }),
                )
            },
            *final(self) == (Evolution { records: final(self).records, ..*old(self) }),
    {
        if let Some(l) = label {
            if l > 3 {
                let mut m = "invalid tier label ".to_owned();
                m.append(decimal_text(l as u128).as_str());
                m.append(" (0-3)");
                return Err(m);
            }
        }
        if idx >= self.records.len() {
            return Err(out_of_range(idx));
        }
        self.records[idx].label = label;
        Ok(())
    }

    /// Deletes the sample at `idx`.
    pub fn capture_delete(&mut self, idx: usize) -> (res: Result<(), String>)
        ensures
            idx >= old(self).records@.len() ==> {
                &&& res matches Err(m)
                &&& m@ == range_error(idx as nat)
                &&& *final(self) == *old(self)
            },
            idx < old(self).records@.len() ==> res is Ok && final(self).records@ == old(
                self,
            ).records@.remove(idx as int),
            *final(self) == (Evolution { records: final(self).records, ..*old(self) }),
    {
        if idx >= self.records.len() {
            return Err(out_of_range(idx));
        }
        let _ = self.records.remove(idx);
        Ok(())
    }

    /// Deletes all samples.
    pub fn capture_clear(&mut self)
        ensures
            final(self).records@.len() == 0,
            *final(self) == (Evolution { records: final(self).records, ..*old(self) }),
    {
        self.records.clear();
    }

    /// Number of labelled samples at which evolution next starts by itself.
    pub fn next_auto_evolve_at(&self) -> (n: usize)
        requires
            self.last_auto_mark + self.config.auto_evolve_step <= usize::MAX,
        ensures
            n == self.last_auto_mark + self.config.auto_evolve_step,
    {
        self.last_auto_mark + self.config.auto_evolve_step
    }

    /// Whether enough samples were labelled since evolution last started by
    /// itself.
    pub open spec fn auto_due(self) -> bool {
        let at = self.last_auto_mark + self.config.auto_evolve_step;
        labeled_count(self.records@) >= if at > usize::MAX {
            usize::MAX as int
        } else {
            at
        }
    }

    /// Starts an evolution by itself where enough samples were labelled and
    /// none is under way; returns the mark that has to be stored. The mark
    /// moves whatever the evolution comes to.
    pub fn maybe_auto_evolve(&mut self) -> (res: Option<usize>)
        ensures
            starts_by_itself(*old(self), *final(self), res),
    {
        let labeled = self.labeled();
        let at: u128 = self.last_auto_mark as u128 + self.config.auto_evolve_step as u128;
        let due: usize = if at > usize::MAX as u128 {
            usize::MAX
        } else {
            at as usize
        };
        if labeled < due || self.running {
            return None;
        }
        self.running = true;
        self.last_auto_mark = labeled;
        Some(labeled)
    }

    /// Claims the right to evolve; fails where an evolution is under way.
    pub fn begin(&mut self) -> (res: bool)
        ensures
            res == !old(self).running,
            *final(self) == (Evolution { running: true, ..*old(self) }),
    {
        if self.running {
            return false;
        }
        self.running = true;
        true
    }

    /// Gives the right to evolve back.
    pub fn finish(&mut self)
        ensures
            *final(self) == (Evolution { running: false, ..*old(self) }),
    {
        self.running = false;
    }

    /// The labelled samples that were captured with a backbone of the given
    /// dimension, oldest first.
    pub fn labeled_samples(&self, dim: usize) -> (out: Vec<TrainingSample>)
        ensures
            samples_match(out@, trainable(self.records@, dim)),
    {
        let mut out: Vec<TrainingSample> = Vec::new();
        let mut i: usize = 0;
        while i < self.records.len()
            invariant
                i <= self.records.len(),
                samples_match(out@, trainable(self.records@.take(i as int), dim)),
            decreases self.records.len() - i,
        {
            assert(self.records@.take(i + 1).drop_last() =~= self.records@.take(i as int));
            let r = &self.records[i];
            if r.num_embd == dim {
                if let Some(label) = r.label {
                    out.push(
                        TrainingSample {
                            hidden: r.hidden_f32(),
                            prev_tier: r.prev_tier,
                            label,
                        },
                    );
                }
            }
            i += 1;
        }
        assert(self.records@.take(self.records.len() as int) =~= self.records@);
        out
    }
}

/// Says that there is no record at a position.
fn out_of_range(idx: usize) -> (m: String)
    ensures
        m@ == range_error(idx as nat),
{
    let mut m = "index ".to_owned();
    m.append(decimal_text(idx as u128).as_str());
    m.append(" out of range");
    m
}

/// The records that can be trained on: labelled, and captured with a backbone
/// of the given dimension.
pub open spec fn trainable(records: Seq<CaptureRecord>, dim: usize) -> Seq<CaptureRecord>
    decreases records.len(),
{
    if records.len() == 0 {
        records
    } else if records.last().num_embd == dim && records.last().label is Some {
        trainable(records.drop_last(), dim).push(records.last())
    } else {
        trainable(records.drop_last(), dim)
    }
}

/// Whether a sample is what a record is trained on as.
pub open spec fn sample_of(sample: TrainingSample, rec: CaptureRecord) -> bool {
    &&& sample.hidden@ == hidden_numbers(encode_utf8(rec.hidden_hex@))
    &&& sample.prev_tier == rec.prev_tier
    &&& rec.label == Some(sample.label)
}

/// Whether samples are those of the records, one for one.
pub open spec fn samples_match(samples: Seq<TrainingSample>, records: Seq<CaptureRecord>) -> bool {
    &&& samples.len() == records.len()
    &&& forall|i: int| 0 <= i < samples.len() ==> #[trigger] sample_of(samples[i], records[i])
}

/// The store never holds more than its limit, and a capture is always among
/// what is kept unless the limit leaves no room.
pub proof fn store_is_bounded(records: Seq<CaptureRecord>, rec: CaptureRecord, limit: nat)
    ensures
        bounded(records.push(rec), limit).len() <= limit,
        limit >= 2 ==> bounded(records.push(rec), limit).last() == rec,
{
}

/// Once an evolution has started by itself, the next one waits for as many
/// newly labelled samples as the step says, whatever came of the first.
pub proof fn auto_evolution_waits(started: Evolution, later: Evolution)
    requires
        started.last_auto_mark == labeled_count(started.records@),
        later.last_auto_mark == started.last_auto_mark,
        later.config == started.config,
        started.last_auto_mark + started.config.auto_evolve_step <= usize::MAX,
    ensures
        later.auto_due() <==> labeled_count(later.records@) >= labeled_count(started.records@)
            + started.config.auto_evolve_step,
{
}

/// The positions of the records with a label, or with a given one.
pub open spec fn labeled_positions(records: Seq<CaptureRecord>, tier: Option<int>) -> Set<int> {
    Set::new(
        |i: int|
            0 <= i < records.len() && (records[i].label matches Some(l) && (tier matches Some(t)
                ==> l == t)),
    )
}

/// Labels are counted: as many as there are records with one, and of each tier
/// as many as are labelled with it.
pub proof fn labels_are_counted(records: Seq<CaptureRecord>, tier: int)
    ensures
        labeled_positions(records, None).finite(),
        labeled_count(records) == labeled_positions(records, None).len(),
        labeled_positions(records, Some(tier)).finite(),
        labeled_as(records, tier) == labeled_positions(records, Some(tier)).len(),
    decreases records.len(),
{
    let (a, b) = (labeled_positions(records, None), labeled_positions(records, Some(tier)));
    if records.len() == 0 {
        assert(a =~= Set::empty());
        assert(b =~= Set::empty());
    } else {
        let n = records.len() - 1;
        let front = records.drop_last();
        labels_are_counted(front, tier);
        let (c, d) = (labeled_positions(front, None), labeled_positions(front, Some(tier)));
        assert(a =~= if a.contains(n) {
            c.insert(n)
        } else {
            c
        });
        assert(b =~= if b.contains(n) {
            d.insert(n)
        } else {
            d
        });
    }
}

/// What is trained on are the labelled records of the dimension, all of them,
/// in the order of their capture.
pub proof fn labelled_records_are_trained_on(records: Seq<CaptureRecord>, dim: usize)
    ensures
        trainable(records, dim) == records.filter(
            |r: CaptureRecord| r.num_embd == dim && r.label is Some,
        ),
    decreases records.len(),
{
    reveal(Seq::filter);
    if records.len() > 0 {
        labelled_records_are_trained_on(records.drop_last(), dim);
    }
}

/// Where the store is full, the newest half of the limit stays, in order, and
/// everything older goes; up to the limit everything stays.
pub proof fn the_newest_stay(records: Seq<CaptureRecord>, limit: nat, i: int)
    ensures
        records.len() <= limit ==> bounded(records, limit) == records,
        records.len() > limit ==> {
            let left = bounded(records, limit);
            &&& left.len() == limit / 2
            &&& 0 <= i < left.len() ==> left[left.len() - 1 - i] == records[records.len() - 1 - i]
        },
{
}

/// A listing gives as many samples as it is asked for, between one and 200, as
/// far as there are so many behind the offset.
pub proof fn listings_are_pages(total: int, offset: int, limit: int)
    requires
        0 <= total,
        0 <= offset,
        0 <= limit,
    ensures
        0 <= listed(total, offset, limit) <= 200,
        offset + listed(total, offset, limit) <= total || listed(total, offset, limit) == 0,
        1 <= limit ==> listed(total, offset, limit) <= limit,
        1 <= limit <= 200 && offset + limit <= total ==> listed(total, offset, limit) == limit,
        limit > 200 && offset + 200 <= total ==> listed(total, offset, limit) == 200,
        limit == 0 && offset < total ==> listed(total, offset, limit) == 1,
        offset < total < offset + limit && total - offset <= 200 ==> listed(total, offset, limit)
            == total - offset,
{
}

/// A routing decision that is labelled comes back as a sample with its label:
/// the tier before it as it was, and its hidden state but for the precision.
pub proof fn captures_come_back_as_samples(
    rec: CaptureRecord,
    labelled: CaptureRecord,
    sample: TrainingSample,
    ts: u64,
    text: Seq<char>,
    hidden: Seq<Single>,
    prev_tier: Option<u8>,
    probs: Seq<Single>,
    num_embd: usize,
    tier: u8,
)
    requires
        records(rec, ts, text, hidden, prev_tier, probs, num_embd),
        labelled == (CaptureRecord { label: Some(tier), ..rec }),
        sample_of(sample, labelled),
    ensures
        rec.label is None,
        sample.label == tier,
        sample.prev_tier == prev_tier,
        sample.hidden@.len() == hidden.len(),
        forall|i: int|
            0 <= i < hidden.len() ==> #[trigger] sample.hidden@[i] == widths::widened(
                widths::narrowed(hidden[i]),
            ),
        text.len() <= 2000 ==> rec.text@ == text,
        text.len() > 2000 ==> rec.text@ == text.take(2000),
        rec.probs@ == probs,
        rec.num_embd == num_embd,
        rec.ts == ts,
{
    hidden_roundtrip(hidden);
}

/// Stored numbers have their low byte first.
pub proof fn low_bytes_come_first(h: Seq<Single>, i: int)
    requires
        0 <= i < h.len(),
    ensures
        half_bytes(h).len() == 2 * h.len(),
        half_bytes(h)[2 * i] + 256 * half_bytes(h)[2 * i + 1] == widths::narrowed(h[i]),
{
    assert((2 * i) / 2 == i && (2 * i + 1) / 2 == i);
    let v = widths::narrowed(h[i]) as int;
    assert(v == 256 * (v / 256) + v % 256);
}

/// A listing shows of a sample what was stored of it, the text up to its
/// first 300 characters.
pub proof fn listings_show_what_is_stored(item: CaptureItem, records: Seq<CaptureRecord>, at: int)
    requires
        shows(item, records, at),
        0 <= at < records.len(),
    ensures
        item.idx == at,
        item.ts == records[at].ts,
        item.label == records[at].label,
        item.prev_tier == records[at].prev_tier,
        item.probs == records[at].probs,
        records[at].text@.len() <= 300 ==> item.text@ == records[at].text@,
        records[at].text@.len() > 300 ==> item.text@ == records[at].text@.take(300),
{
}

/// A listing starts with the newest sample that is not passed over, and each
/// item is followed by the one that was captured before it.
pub proof fn the_newest_come_first(total: int, offset: int, limit: int, i: int)
    requires
        0 <= total,
        0 <= offset,
        0 <= limit,
        0 <= i < listed(total, offset, limit),
    ensures
        0 <= listing_place(total, offset, i) < total,
        listing_place(total, 0, 0) == total - 1,
        listing_place(total, offset, i + 1) == listing_place(total, offset, i) - 1,
        listing_place(total, offset, i) == listing_place(total, 0, offset + i),
{
}

/// Evolution starts by itself as soon as enough samples were labelled since it
/// last did, unless one is under way; it does not start again before as many
/// more are labelled.
pub proof fn evolution_starts_by_itself(
    before: Evolution,
    after: Evolution,
    res: Option<usize>,
)
    requires
        starts_by_itself(before, after, res),
        before.records@.len() <= usize::MAX,
        before.last_auto_mark + before.config.auto_evolve_step <= usize::MAX,
    ensures
        res is Some <==> !before.running && labeled_count(before.records@)
            >= before.last_auto_mark + before.config.auto_evolve_step,
        res matches Some(n) ==> {
            &&& n == labeled_count(before.records@)
            &&& after.running
            &&& after.last_auto_mark == n
            &&& n > 0 || before.config.auto_evolve_step == 0
            &&& before.config.auto_evolve_step > 0 && n + before.config.auto_evolve_step
                <= usize::MAX ==> !after.auto_due()
        },
        res is None ==> after == before,
        after.records == before.records && after.config == before.config,
{
    lemma_labeled_count(before.records@);
}

proof fn lemma_labeled_count(records: Seq<CaptureRecord>)
    ensures
        labeled_count(records) <= records.len(),
    decreases records.len(),
{
    if records.len() > 0 {
        lemma_labeled_count(records.drop_last());
    }
}

} // verus!
