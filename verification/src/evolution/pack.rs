//! Sample packs: the fixed evaluation pack and the replay pool.

use crate::evolution::capture;
use crate::head::duplicated;
use crate::single::Single;
use crate::text;
use crate::text::decimal_text;
use crate::training::TrainingSample;
use crate::widths;
use crate::widths::widen;
use base64::engine::general_purpose::STANDARD;
use base64::{DecodeError, Engine};
use vstd::prelude::*;
use vstd::string::*;

verus! {

/// A pack as it is written in its file.
#[derive(Debug, Clone)]
pub struct Pack {
    pub version: u32,
    pub base_dim: usize,
    pub samples: Vec<PackSample>,
}

/// A sample of a pack.
#[derive(Debug, Clone)]
pub struct PackSample {
    /// The hidden state: half-precision numbers, low byte first, in base 64.
    pub h: String,
    /// The correct tier.
    pub t: u8,
    /// The previous tier.
    pub p: Option<u8>,
}

/// Why a text is not base 64.
#[derive(Debug, Clone, Copy, PartialEq, Eq, Structural)]
pub enum Base64Fault {
    /// A symbol outside the alphabet: its offset and the symbol.
    InvalidByte(usize, u8),
    /// A length that no encoding has.
    InvalidLength(usize),
    /// A last symbol with bits that stand for nothing: its offset and the
    /// symbol.
    InvalidLastSymbol(usize, u8),
    /// Padding that is missing or misplaced.
    InvalidPadding,
}

/// What a text stands for in base 64 with the standard alphabet and padding.
pub uninterp spec fn base64_decoded(s: Seq<char>) -> Result<Seq<u8>, Base64Fault>;

/// `base64::Engine::decode` of `STANDARD`: the bytes that the text stands
/// for, or the fault that was found. What they are is named, not stated.
#[verifier::external_body]
fn decode_base64(s: &str) -> (res: Result<Vec<u8>, Base64Fault>)
    ensures
        match res {
            Ok(v) => base64_decoded(s@) == Ok::<Seq<u8>, Base64Fault>(v@),
            Err(e) => base64_decoded(s@) == Err::<Seq<u8>, Base64Fault>(e),
        },
{
    match STANDARD.decode(s) {
        Ok(v) => Ok(v),
        Err(DecodeError::InvalidByte(at, b)) => Err(Base64Fault::InvalidByte(at, b)),
        Err(DecodeError::InvalidLength(n)) => Err(Base64Fault::InvalidLength(n)),
        Err(DecodeError::InvalidLastSymbol(at, b)) => Err(Base64Fault::InvalidLastSymbol(at, b)),
        Err(DecodeError::InvalidPadding) => Err(Base64Fault::InvalidPadding),
    }
}

impl Base64Fault {
    /// The fault in words.
    pub open spec fn message(self) -> Seq<char> {
        match self {
            Base64Fault::InvalidByte(at, b) => "Invalid symbol "@ + text::decimal(b as nat)
                + ", offset "@ + text::decimal(at as nat) + "."@,
            Base64Fault::InvalidLength(n) => "Invalid input length: "@ + text::decimal(n as nat),
            Base64Fault::InvalidLastSymbol(at, b) => "Invalid last symbol "@ + text::decimal(
                b as nat,
            ) + ", offset "@ + text::decimal(at as nat) + "."@,
            Base64Fault::InvalidPadding => "Invalid padding"@,
        }
    }

    /// The fault in words.
    pub fn describe(&self) -> (m: String)
        ensures
            m@ == self.message(),
    {
        match *self {
            Base64Fault::InvalidByte(at, b) => {
                let mut m = "Invalid symbol ".to_owned();
                m.append(decimal_text(b as u128).as_str());
                m.append(", offset ");
                m.append(decimal_text(at as u128).as_str());
                m.append(".");
                m
            },
            Base64Fault::InvalidLength(n) => {
                let mut m = "Invalid input length: ".to_owned();
                m.append(decimal_text(n as u128).as_str());
                m
            },
            Base64Fault::InvalidLastSymbol(at, b) => {
                let mut m = "Invalid last symbol ".to_owned();
                m.append(decimal_text(b as u128).as_str());
                m.append(", offset ");
                m.append(decimal_text(at as u128).as_str());
                m.append(".");
                m
            },
            Base64Fault::InvalidPadding => "Invalid padding".to_owned(),
        }
    }
}

/// The half-precision numbers that bytes stand for, low byte first; an odd
/// byte at the end is passed over.
pub open spec fn halves(raw: Seq<u8>) -> Seq<Single> {
    Seq::new(
        raw.len() / 2,
        |i: int| widths::widened((raw[2 * i] + 256 * raw[2 * i + 1]) as u16),
    )
}

/// Reads half-precision numbers.
pub fn hidden_of(raw: &[u8]) -> (out: Vec<Single>)
    ensures
        out@ == halves(raw@),
{
    let n: usize = raw.len() / 2;
    let mut out: Vec<Single> = Vec::new();
    let mut i: usize = 0;
    while i < n
        invariant
            i <= n,
            n == raw.len() / 2,
            out@ == halves(raw@).take(i as int),
        decreases n - i,
    {
        out.push(widen(raw[2 * i] as u16 + 256 * raw[2 * i + 1] as u16));
        assert(out@.last() == halves(raw@)[i as int]);
        i += 1;
        assert(out@ =~= halves(raw@).take(i as int));
    }
    assert(out@ =~= halves(raw@));
    out
}

/// What is said of a hidden state that is not base 64.
pub open spec fn decode_message(fault: Base64Fault) -> Seq<char> {
    "pack hidden decode failed: "@ + fault.message()
}

/// Whether a training sample is what a pack sample with the decoded hidden
/// state stands for.
pub open spec fn unpacked(sample: TrainingSample, s: PackSample, raw: Seq<u8>) -> bool {
    &&& sample.hidden@ == halves(raw)
    &&& sample.prev_tier == s.p
    &&& sample.label == s.t
}

/// Turns a pack sample, with the outcome of decoding its hidden state, into a
/// training sample.
pub fn unpack(s: &PackSample, raw: Result<Vec<u8>, Base64Fault>) -> (res: Result<
    TrainingSample,
    String,
>)
    ensures
        match raw {
            Ok(bytes) => res matches Ok(sample) && unpacked(sample, *s, bytes@),
            Err(fault) => res matches Err(m) && m@ == decode_message(fault),
        },
{
    match raw {
        Ok(bytes) => Ok(
            TrainingSample { hidden: hidden_of(&bytes), prev_tier: s.p, label: s.t },
        ),
        Err(fault) => {
            let mut m = "pack hidden decode failed: ".to_owned();
            m.append(fault.describe().as_str());
            Err(m)
        },
    }
}

/// The first hidden state among the first `n` samples that is not base 64, if
/// there is one.
pub open spec fn pack_fault(samples: Seq<PackSample>, n: int) -> Option<Base64Fault>
    decreases n,
{
    if n <= 0 {
        None
    } else {
        match pack_fault(samples, n - 1) {
            Some(fault) => Some(fault),
            None => match base64_decoded(samples[n - 1].h@) {
                Ok(_) => None,
                Err(fault) => Some(fault),
            },
        }
    }
}

/// Whether `res` is what a pack is read as: its dimension and its samples, or
/// the first thing wrong with it.
pub open spec fn reads_as(
    pack: Pack,
    res: Result<(usize, Vec<TrainingSample>), String>,
) -> bool {
    if pack.version != 1 {
        res matches Err(m) && m@ == "unsupported pack version "@ + text::decimal(
            pack.version as nat,
        )
    } else {
        match pack_fault(pack.samples@, pack.samples@.len() as int) {
            Some(fault) => res matches Err(m) && m@ == decode_message(fault),
            None => {
                &&& res matches Ok((dim, samples))
                &&& dim == pack.base_dim
                &&& samples@.len() == pack.samples@.len()
                &&& forall|i: int|
                    0 <= i < samples@.len() ==> unpacked(
                        #[trigger] samples@[i],
                        pack.samples@[i],
                        base64_decoded(pack.samples@[i].h@)->Ok_0,
                    )
            },
        }
    }
}

proof fn lemma_pack_fault(samples: Seq<PackSample>, k: int, n: int)
    requires
        0 < k <= n,
        pack_fault(samples, k) is Some,
    ensures
        pack_fault(samples, n) == pack_fault(samples, k),
    decreases n,
{
    if k < n {
        lemma_pack_fault(samples, k, n - 1);
    }
}

/// Reads a pack.
pub fn read_pack(pack: &Pack) -> (res: Result<(usize, Vec<TrainingSample>), String>)
    ensures
        reads_as(*pack, res),
{
    if pack.version != 1 {
        let mut m = "unsupported pack version ".to_owned();
        m.append(decimal_text(pack.version as u128).as_str());
        return Err(m);
    }
    let mut samples: Vec<TrainingSample> = Vec::new();
    let mut i: usize = 0;
    while i < pack.samples.len()
        invariant
            i <= pack.samples.len(),
            pack.version == 1,
            samples.len() == i,
            pack_fault(pack.samples@, i as int) is None,
            forall|k: int|
                0 <= k < i ==> unpacked(
                    #[trigger] samples@[k],
                    pack.samples@[k],
                    base64_decoded(pack.samples@[k].h@)->Ok_0,
                ),
        decreases pack.samples.len() - i,
    {
        let raw = decode_base64(pack.samples[i].h.as_str());
        match unpack(&pack.samples[i], raw) {
            Ok(sample) => {
                samples.push(sample);
            },
            Err(m) => {
                proof {
                    lemma_pack_fault(pack.samples@, i + 1, pack.samples@.len() as int);
                }
                return Err(m);
            },
        }
        i += 1;
    }
    Ok((pack.base_dim, samples))
}

/// Class of a sample for balancing: its label, at most three.
pub open spec fn class_of(s: TrainingSample) -> int {
    if s.label > 3 {
        3
    } else {
        s.label as int
    }
}

/// Positions of the samples of a class, in order.
pub open spec fn members(pool: Seq<TrainingSample>, class: int) -> Seq<int>
    decreases pool.len(),
{
    if pool.len() == 0 {
        Seq::empty()
    } else if class_of(pool.last()) == class {
        members(pool.drop_last(), class).push(pool.len() - 1)
    } else {
        members(pool.drop_last(), class)
    }
}

/// The positions taken in round `r` from the classes below `c`: one of each
/// class that has that many.
pub open spec fn round(pool: Seq<TrainingSample>, r: int, c: int) -> Seq<int>
    decreases c,
{
    if c <= 0 {
        Seq::empty()
    } else if r < members(pool, c - 1).len() {
        round(pool, r, c - 1).push(members(pool, c - 1)[r])
    } else {
        round(pool, r, c - 1)
    }
}

/// The positions taken in the first `n` rounds.
pub open spec fn rounds(pool: Seq<TrainingSample>, n: int) -> Seq<int>
    decreases n,
{
    if n <= 0 {
        Seq::empty()
    } else {
        rounds(pool, n - 1) + round(pool, n - 1, 4)
    }
}

/// The positions of a balanced selection: the classes take turns, in rounds,
/// until there are `target` positions or nothing is left.
pub open spec fn mixed(pool: Seq<TrainingSample>, target: int) -> Seq<int> {
    let all = rounds(pool, pool.len() as int);
    if target < all.len() {
        all.take(target)
    } else {
        all
    }
}

/// Whether two samples hold the same.
pub open spec fn same_sample(a: TrainingSample, b: TrainingSample) -> bool {
    a.hidden@ == b.hidden@ && a.prev_tier == b.prev_tier && a.label == b.label
}

/// Whether samples are those at the given positions.
pub open spec fn picked(
    out: Seq<TrainingSample>,
    pool: Seq<TrainingSample>,
    at: Seq<int>,
) -> bool {
    &&& out.len() == at.len()
    &&& forall|i: int|
        0 <= i < out.len() ==> 0 <= #[trigger] at[i] < pool.len() && same_sample(
            out[i],
            pool[at[i]],
        )
}

/// Copies a sample.
pub fn copy_sample(s: &TrainingSample) -> (out: TrainingSample)
    ensures
        same_sample(out, *s),
{
    TrainingSample { hidden: duplicated(&s.hidden), prev_tier: s.prev_tier, label: s.label }
}

/// Positions of the samples of a class.
fn members_of(pool: &[TrainingSample], class: u8) -> (out: Vec<usize>)
    requires
        class < 4,
    ensures
        out@.map_values(|i: usize| i as int) == members(pool@, class as int),
        forall|k: int| 0 <= k < out@.len() ==> #[trigger] out@[k] < pool.len(),
{
    let mut out: Vec<usize> = Vec::new();
    let mut i: usize = 0;
    while i < pool.len()
        invariant
            i <= pool.len(),
            class < 4,
            out@.map_values(|i: usize| i as int) == members(pool@.take(i as int), class as int),
            forall|k: int| 0 <= k < out@.len() ==> #[trigger] out@[k] < i,
        decreases pool.len() - i,
    {
        assert(pool@.take(i + 1).drop_last() =~= pool@.take(i as int));
        let own: u8 = if pool[i].label > 3 {
            3
        } else {
            pool[i].label
        };
        if own == class {
            let ghost before = out@;
            out.push(i);
            assert(out@.map_values(|i: usize| i as int) =~= before.map_values(
                |i: usize| i as int,
            ).push(i as int));
        }
        i += 1;
    }
    assert(pool@.take(pool.len() as int) =~= pool@);
    out
}

/// What was taken after some rounds and part of the next is the beginning of
/// what all rounds take.
proof fn lemma_prefix(pool: Seq<TrainingSample>, r: int, c: int, n: int)
    requires
        0 <= r < n,
        0 <= c <= 4,
    ensures
        ({
            let part = rounds(pool, r) + round(pool, r, c);
            let all = rounds(pool, n);
            part.len() <= all.len() && all.take(part.len() as int) == part
        }),
    decreases n - r, 4 - c,
{
    let part = rounds(pool, r) + round(pool, r, c);
    let all = rounds(pool, n);
    if c < 4 {
        lemma_prefix(pool, r, c + 1, n);
        let more = rounds(pool, r) + round(pool, r, c + 1);
        assert(more.take(part.len() as int) =~= part);
        assert(all.take(part.len() as int) =~= all.take(more.len() as int).take(part.len() as int));
    } else if r + 1 < n {
        lemma_prefix(pool, r + 1, 0, n);
        assert(rounds(pool, r + 1) =~= part);
        assert(rounds(pool, r + 1) + round(pool, r + 1, 0) =~= part);
    } else {
        assert(all =~= part);
    }
}

proof fn lemma_members(pool: Seq<TrainingSample>, class: int)
    ensures
        members(pool, class).len() <= pool.len(),
        forall|k: int|
            0 <= k < members(pool, class).len() ==> 0 <= #[trigger] members(pool, class)[k]
                < pool.len() && class_of(pool[members(pool, class)[k]]) == class,
    decreases pool.len(),
{
    if pool.len() > 0 {
        let front = pool.drop_last();
        lemma_members(front, class);
        let all = members(pool, class);
        assert forall|k: int| 0 <= k < all.len() implies 0 <= #[trigger] all[k] < pool.len()
            && class_of(pool[all[k]]) == class by {
            if k < members(front, class).len() {
                assert(all[k] == members(front, class)[k]);
            }
        }
    }
}

/// Selects `target` samples from the pool, the classes taking turns; all of
/// them where the pool is smaller.
pub fn replay_mix(pool: &[TrainingSample], target: usize) -> (out: Vec<TrainingSample>)
    ensures
        picked(out@, pool@, mixed(pool@, target as int)),
{
    let mut classes: Vec<Vec<usize>> = Vec::new();
    let mut c: u8 = 0;
    while c < 4
        invariant
            c <= 4,
            classes.len() == c,
            forall|k: int|
                0 <= k < c ==> (#[trigger] classes@[k])@.map_values(|i: usize| i as int)
                    == members(pool@, k),
        decreases 4 - c,
    {
        classes.push(members_of(pool, c));
        c += 1;
    }
    proof {
        lemma_members(pool@, 0);
        lemma_members(pool@, 1);
        lemma_members(pool@, 2);
        lemma_members(pool@, 3);
    }
    let mut out: Vec<TrainingSample> = Vec::new();
    let ghost mut at: Seq<int> = Seq::empty();
    let mut r: usize = 0;
    while r < pool.len()
        invariant
            r <= pool.len(),
            classes.len() == 4,
            forall|k: int|
                0 <= k < 4 ==> (#[trigger] classes@[k])@.map_values(|i: usize| i as int)
                    == members(pool@, k),
            forall|k: int|
                #![trigger members(pool@, k)]
                0 <= k < 4 ==> forall|j: int|
                    0 <= j < members(pool@, k).len() ==> 0 <= #[trigger] members(pool@, k)[j]
                        < pool@.len(),
            at == rounds(pool@, r as int),
            at.len() <= target,
            picked(out@, pool@, at),
        decreases pool.len() - r,
    {
        let mut c: usize = 0;
        while c < 4
            invariant
                c <= 4,
                r < pool.len(),
                classes.len() == 4,
                forall|k: int|
                    0 <= k < 4 ==> (#[trigger] classes@[k])@.map_values(|i: usize| i as int)
                        == members(pool@, k),
                forall|k: int|
                    #![trigger members(pool@, k)]
                    0 <= k < 4 ==> forall|j: int|
                        0 <= j < members(pool@, k).len() ==> 0 <= #[trigger] members(pool@, k)[j]
                            < pool@.len(),
                at == rounds(pool@, r as int) + round(pool@, r as int, c as int),
                at.len() <= target,
                picked(out@, pool@, at),
            decreases 4 - c,
        {
            if out.len() >= target {
                proof {
                    lemma_prefix(pool@, r as int, c as int, pool@.len() as int);
                    let all = rounds(pool@, pool@.len() as int);
                    assert(at =~= mixed(pool@, target as int));
                }
                return out;
            }
            let rows = &classes[c];
            let ghost own = members(pool@, c as int);
            assert(classes@[c as int]@.map_values(|i: usize| i as int) == own);
            assert(rows@.len() == own.len());
            if r < rows.len() {
                let p = rows[r];
                assert(p as int == own[r as int]);
                let ghost before = out@;
                out.push(copy_sample(&pool[p]));
                proof {
                    let ghost was = at;
                    at = at.push(p as int);
                    assert(picked(out@, pool@, at));
                    assert(at =~= rounds(pool@, r as int) + round(pool@, r as int, c + 1));
                }
            }
            c += 1;
        }
        r += 1;
    }
    assert(at =~= mixed(pool@, target as int));
    out
}

/// How many of the positions are those of a class.
pub open spec fn class_total(pool: Seq<TrainingSample>, at: Seq<int>, class: int) -> nat
    decreases at.len(),
{
    if at.len() == 0 {
        0
    } else {
        class_total(pool, at.drop_last(), class) + if class_of(pool[at.last()]) == class {
            1nat
        } else {
            0nat
        }
    }
}

proof fn lemma_total_joined(pool: Seq<TrainingSample>, x: Seq<int>, y: Seq<int>, class: int)
    ensures
        class_total(pool, x + y, class) == class_total(pool, x, class) + class_total(
            pool,
            y,
            class,
        ),
    decreases y.len(),
{
    if y.len() == 0 {
        assert(x + y =~= x);
    } else {
        lemma_total_joined(pool, x, y.drop_last(), class);
        assert((x + y).drop_last() =~= x + y.drop_last());
    }
}

proof fn lemma_round_total(pool: Seq<TrainingSample>, r: int, c: int, class: int)
    requires
        0 <= r,
        0 <= c <= 4,
        0 <= class < 4,
    ensures
        class_total(pool, round(pool, r, c), class) == if class < c && r < members(
            pool,
            class,
        ).len() {
            1nat
        } else {
            0nat
        },
    decreases c,
{
    if c > 0 {
        lemma_round_total(pool, r, c - 1, class);
        lemma_members(pool, c - 1);
        let part = round(pool, r, c - 1);
        if r < members(pool, c - 1).len() {
            let p = members(pool, c - 1)[r];
            assert(part.push(p).drop_last() =~= part);
        }
    }
}

proof fn lemma_rounds_total(pool: Seq<TrainingSample>, n: int, class: int)
    requires
        0 <= n,
        0 <= class < 4,
    ensures
        class_total(pool, rounds(pool, n), class) == if n < members(pool, class).len() {
            n
        } else {
            members(pool, class).len() as int
        },
    decreases n,
{
    if n > 0 {
        lemma_rounds_total(pool, n - 1, class);
        lemma_round_total(pool, n - 1, 4, class);
        lemma_total_joined(pool, rounds(pool, n - 1), round(pool, n - 1, 4), class);
    }
}

/// Every beginning of the rounds is some rounds and part of the next.
proof fn lemma_cut(pool: Seq<TrainingSample>, n: int, c: int, k: int) -> (res: (int, int))
    requires
        0 <= n,
        0 <= c <= 4,
        0 <= k <= (rounds(pool, n) + round(pool, n, c)).len(),
    ensures
        0 <= res.0 <= n,
        0 <= res.1 <= 4,
        (rounds(pool, n) + round(pool, n, c)).take(k) == rounds(pool, res.0) + round(
            pool,
            res.0,
            res.1,
        ),
    decreases n, c,
{
    let all = rounds(pool, n) + round(pool, n, c);
    if k == all.len() {
        assert(all.take(k) =~= all);
        (n, c)
    } else if c > 0 {
        let less = rounds(pool, n) + round(pool, n, c - 1);
        let res = lemma_cut(pool, n, c - 1, k);
        assert(all.take(k) =~= less.take(k));
        res
    } else {
        assert(all =~= rounds(pool, n));
        assert(rounds(pool, n) =~= rounds(pool, n - 1) + round(pool, n - 1, 4));
        lemma_cut(pool, n - 1, 4, k)
    }
}

proof fn lemma_all_totals(pool: Seq<TrainingSample>, at: Seq<int>)
    ensures
        class_total(pool, at, 0) + class_total(pool, at, 1) + class_total(pool, at, 2)
            + class_total(pool, at, 3) == at.len(),
    decreases at.len(),
{
    if at.len() > 0 {
        lemma_all_totals(pool, at.drop_last());
    }
}

proof fn lemma_all_members(pool: Seq<TrainingSample>)
    ensures
        members(pool, 0).len() + members(pool, 1).len() + members(pool, 2).len() + members(
            pool,
            3,
        ).len() == pool.len(),
    decreases pool.len(),
{
    if pool.len() > 0 {
        lemma_all_members(pool.drop_last());
    }
}

/// A selection has as many samples as asked for, or all where there are
/// fewer, and it is balanced: a class is behind another by more than one only
/// where it has nothing left.
pub proof fn replay_is_balanced(pool: Seq<TrainingSample>, target: int, a: int, b: int)
    requires
        0 <= target,
        0 <= a < 4,
        0 <= b < 4,
    ensures
        mixed(pool, target).len() == if target < pool.len() {
            target
        } else {
            pool.len() as int
        },
        class_total(pool, mixed(pool, target), a) + 1 >= class_total(
            pool,
            mixed(pool, target),
            b,
        ) || class_total(pool, mixed(pool, target), a) == members(pool, a).len(),
{
    let n = pool.len() as int;
    let all = rounds(pool, n);
    lemma_rounds_total(pool, n, 0);
    lemma_rounds_total(pool, n, 1);
    lemma_rounds_total(pool, n, 2);
    lemma_rounds_total(pool, n, 3);
    lemma_members(pool, 0);
    lemma_members(pool, 1);
    lemma_members(pool, 2);
    lemma_members(pool, 3);
    lemma_all_totals(pool, all);
    lemma_all_members(pool);
    let k = if target < all.len() {
        target
    } else {
        all.len() as int
    };
    assert(all + round(pool, n, 0) =~= all);
    let (r, c) = lemma_cut(pool, n, 0, k);
    assert(mixed(pool, target) =~= all.take(k));
    lemma_total_joined(pool, rounds(pool, r), round(pool, r, c), a);
    lemma_total_joined(pool, rounds(pool, r), round(pool, r, c), b);
    lemma_rounds_total(pool, r, a);
    lemma_rounds_total(pool, r, b);
    lemma_round_total(pool, r, c, a);
    lemma_round_total(pool, r, c, b);
}

/// The members of a class are all the samples with its label, each once and in
/// order; labels beyond the tiers count as the highest.
pub proof fn members_are_the_class(pool: Seq<TrainingSample>, class: int, i: int)
    requires
        0 <= class < 4,
    ensures
        members(pool, class).contains(i) <==> 0 <= i < pool.len() && (pool[i].label == class || (
        class == 3 && pool[i].label > 3)),
        forall|j: int, k: int|
            0 <= j < k < members(pool, class).len() ==> #[trigger] members(pool, class)[j]
                < #[trigger] members(pool, class)[k],
        forall|k: int|
            0 <= k < members(pool, class).len() ==> 0 <= #[trigger] members(pool, class)[k]
                < pool.len(),
    decreases pool.len(),
{
    let all = members(pool, class);
    if pool.len() > 0 {
        let front = pool.drop_last();
        members_are_the_class(front, class, i);
        let some = members(front, class);
        let n = pool.len() - 1;
        if class_of(pool.last()) == class {
            assert(all == some.push(n));
            assert(all[some.len() as int] == n);
            if some.contains(i) {
                let k = choose|k: int| 0 <= k < some.len() && some[k] == i;
                assert(all[k] == i);
            }
            if all.contains(i) && i != n {
                let k = choose|k: int| 0 <= k < all.len() && all[k] == i;
                assert(some[k] == i);
            }
        }
    }
}

proof fn lemma_round_members(pool: Seq<TrainingSample>, r: int, c: int)
    requires
        0 <= r,
        0 <= c <= 4,
    ensures
        round(pool, r, c).no_duplicates(),
        forall|x: int| #[trigger]
            round(pool, r, c).contains(x) ==> exists|k: int|
                0 <= k < c && r < members(pool, k).len() && x == #[trigger] members(pool, k)[r],
    decreases c,
{
    if c > 0 {
        lemma_round_members(pool, r, c - 1);
        let before = round(pool, r, c - 1);
        let all = round(pool, r, c);
        if r < members(pool, c - 1).len() {
            let x = members(pool, c - 1)[r];
            assert(all == before.push(x));
            assert(!before.contains(x)) by {
                if before.contains(x) {
                    let k = choose|k: int|
                        0 <= k < c - 1 && r < members(pool, k).len() && x == #[trigger] members(
                            pool,
                            k,
                        )[r];
                    members_are_the_class(pool, k, x);
                    members_are_the_class(pool, c - 1, x);
                    assert(members(pool, k).contains(x));
                    assert(members(pool, c - 1).contains(x));
                }
            }
            assert forall|y: int| #[trigger] all.contains(y) implies exists|k: int|
                0 <= k < c && r < members(pool, k).len() && y == #[trigger] members(
                    pool,
                    k,
                )[r] by {
                if y == x {
                    assert(y == members(pool, c - 1)[r]);
                } else {
                    let q = choose|q: int| 0 <= q < all.len() && all[q] == y;
                    assert(before[q] == y);
                    assert(before.contains(y));
                }
            }
        }
    }
}

proof fn lemma_rounds_once(pool: Seq<TrainingSample>, n: int)
    requires
        0 <= n,
    ensures
        rounds(pool, n).no_duplicates(),
        forall|x: int| #[trigger]
            rounds(pool, n).contains(x) ==> exists|k: int, r: int|
                0 <= k < 4 && 0 <= r < n && r < members(pool, k).len() && x == #[trigger] members(
                    pool,
                    k,
                )[r],
    decreases n,
{
    if n > 0 {
        lemma_rounds_once(pool, n - 1);
        lemma_round_members(pool, n - 1, 4);
        let (a, b) = (rounds(pool, n - 1), round(pool, n - 1, 4));
        let all = rounds(pool, n);
        assert forall|x: int| a.contains(x) implies !b.contains(x) by {
            if b.contains(x) {
                let (k, r) = choose|k: int, r: int|
                    0 <= k < 4 && 0 <= r < n - 1 && r < members(pool, k).len() && x
                        == #[trigger] members(pool, k)[r];
                let j = choose|j: int|
                    0 <= j < 4 && n - 1 < members(pool, j).len() && x == #[trigger] members(
                        pool,
                        j,
                    )[n - 1];
                members_are_the_class(pool, k, x);
                members_are_the_class(pool, j, x);
                assert(members(pool, k).contains(x));
                assert(members(pool, j).contains(x));
                assert(members(pool, k)[r] < members(pool, j)[n - 1]);
            }
        }
        assert(all == a + b);
        assert forall|i: int, j: int| 0 <= i < all.len() && 0 <= j < all.len() && i
            != j implies all[i] != all[j] by {
            let m = a.len() as int;
            if i < m && j < m {
                assert(a[i] != a[j]);
            } else if i >= m && j >= m {
                assert(b[i - m] != b[j - m]);
            } else if i < m {
                assert(a.contains(a[i]));
                assert(b[j - m] == all[j]);
            } else {
                assert(a.contains(a[j]));
                assert(b[i - m] == all[i]);
            }
        }
        assert forall|x: int| #[trigger] all.contains(x) implies exists|k: int, r: int|
            0 <= k < 4 && 0 <= r < n && r < members(pool, k).len() && x == #[trigger] members(
                pool,
                k,
            )[r] by {
            let q = choose|q: int| 0 <= q < all.len() && all[q] == x;
            if q < a.len() {
                assert(a[q] == x);
                assert(a.contains(x));
            } else {
                assert(b[q - a.len()] == x);
                assert(b.contains(x));
                let k = choose|k: int|
                    0 <= k < 4 && n - 1 < members(pool, k).len() && x == #[trigger] members(
                        pool,
                        k,
                    )[n - 1];
                assert(x == members(pool, k)[n - 1]);
            }
        }
    }
}

/// No sample of the pool is replayed twice.
pub proof fn replay_takes_each_sample_once(pool: Seq<TrainingSample>, target: int, i: int, j: int)
    requires
        0 <= target,
        0 <= i < j < mixed(pool, target).len(),
    ensures
        0 <= mixed(pool, target)[i] < pool.len(),
        mixed(pool, target)[i] != mixed(pool, target)[j],
{
    let n = pool.len() as int;
    lemma_rounds_once(pool, n);
    let all = rounds(pool, n);
    let x = all[i];
    assert(all.contains(x));
    let (k, r) = choose|k: int, r: int|
        0 <= k < 4 && 0 <= r < n && r < members(pool, k).len() && x == #[trigger] members(
            pool,
            k,
        )[r];
    members_are_the_class(pool, k, x);
}

/// The samples of a class among some positions are counted.
pub proof fn class_totals_are_counts(pool: Seq<TrainingSample>, at: Seq<int>, class: int)
    requires
        0 <= class < 4,
    ensures
        ({
            let those = Set::new(
                |k: int|
                    0 <= k < at.len() && (pool[at[k]].label == class || (class == 3
                        && pool[at[k]].label > 3)),
            );
            those.finite() && class_total(pool, at, class) == those.len()
        }),
    decreases at.len(),
{
    let those = Set::new(
        |k: int|
            0 <= k < at.len() && (pool[at[k]].label == class || (class == 3 && pool[at[k]].label
                > 3)),
    );
    if at.len() == 0 {
        assert(those =~= Set::empty());
    } else {
        let n = at.len() - 1;
        let front = at.drop_last();
        class_totals_are_counts(pool, front, class);
        let some = Set::new(
            |k: int|
                0 <= k < front.len() && (pool[front[k]].label == class || (class == 3
                    && pool[front[k]].label > 3)),
        );
        assert(those =~= if those.contains(n) {
            some.insert(n)
        } else {
            some
        });
    }
}

/// A pack holds its numbers as the store does: two bytes each, the low one
/// first.
pub proof fn packs_and_captures_share_their_bytes(h: Seq<Single>, i: int)
    requires
        0 <= i < h.len(),
    ensures
        halves(capture::half_bytes(h)).len() == h.len(),
        halves(capture::half_bytes(h))[i] == widths::widened(widths::narrowed(h[i]) as u16),
{
    capture::low_bytes_come_first(h, i);
}

/// A pack is read where it has the one version that is known and every sample
/// can be decoded; then each sample is read, in order.
pub proof fn packs_are_read_whole(
    pack: Pack,
    res: Result<(usize, Vec<TrainingSample>), String>,
    i: int,
)
    requires
        reads_as(pack, res),
    ensures
        res is Ok <==> pack.version == 1 && forall|k: int|
            0 <= k < pack.samples@.len() ==> base64_decoded(
                (#[trigger] pack.samples@[k]).h@,
            ) is Ok,
        res matches Ok((dim, samples)) ==> {
            &&& dim == pack.base_dim
            &&& samples@.len() == pack.samples@.len()
            &&& 0 <= i < samples@.len() ==> samples@[i].label == pack.samples@[i].t
                && samples@[i].prev_tier == pack.samples@[i].p && samples@[i].hidden@ == halves(
                base64_decoded(pack.samples@[i].h@)->Ok_0,
            )
        },
{
    lemma_all_decoded(pack.samples@, pack.samples@.len() as int);
    if let Ok((dim, samples)) = res {
        if 0 <= i < samples@.len() {
            assert(unpacked(
                samples@[i],
                pack.samples@[i],
                base64_decoded(pack.samples@[i].h@)->Ok_0,
            ));
        }
    }
}

proof fn lemma_all_decoded(samples: Seq<PackSample>, n: int)
    requires
        0 <= n <= samples.len(),
    ensures
        pack_fault(samples, n) is None <==> forall|k: int|
            0 <= k < n ==> base64_decoded((#[trigger] samples[k]).h@) is Ok,
    decreases n,
{
    if n > 0 {
        lemma_all_decoded(samples, n - 1);
        assert(base64_decoded(samples[n - 1].h@) is Ok || base64_decoded(samples[n - 1].h@) is Err);
    }
}

} // verus!
