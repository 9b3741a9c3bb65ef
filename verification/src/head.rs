//! Trained classification head: a two-layer perceptron over the mean-pooled
//! hidden state of the backbone model.
//!
//! Weights are row-major with one row per output. Heads that take the previous
//! tier expect `base_dim` hidden values followed by a one-hot code of five
//! places: R0 to R3, and one for "none or unknown".

use crate::bounds;
use crate::mlp;
use crate::mlp::{forward_sample, ForwardCache};
use crate::single;
use crate::single::Single;
use crate::text;
use crate::text::decimal_text;
use vstd::arithmetic::power2::{lemma2_to64, lemma2_to64_rest, lemma_pow2_pos, pow2};
use vstd::prelude::*;
use vstd::string::*;

verus! {

/// Bit pattern of the smallest divisor used for standardisation, 1e-6.
pub const STD_MIN: u32 = 0x3586_37bd;

/// Places of the one-hot code of the previous tier.
pub const PREV_TIER_DIM: usize = 5;

/// Place of "none or unknown" in that code.
pub const PREV_TIER_NONE_IDX: usize = 4;

/// Bit pattern of one.
pub const ONE: u32 = 0x3f80_0000;

/// A head as it is written in its weight file.
#[derive(Debug, Clone)]
pub struct HeadJson {
    pub version: u32,
    pub input_dim: usize,
    pub hidden_dim: usize,
    pub base_dim: Option<usize>,
    pub mean: Vec<Single>,
    pub std: Vec<Single>,
    pub w1: Vec<Single>,
    pub b1: Vec<Single>,
    pub ln_g: Vec<Single>,
    pub ln_b: Vec<Single>,
    pub w2: Vec<Single>,
    pub b2: Vec<Single>,
}

/// Snapshot of the trainable parameters. The standardisation statistics are
/// not among them: they stay frozen.
#[derive(Debug, Clone)]
pub struct TrainableWeights {
    pub w1: Vec<Single>,
    pub b1: Vec<Single>,
    pub ln_g: Vec<Single>,
    pub ln_b: Vec<Single>,
    pub w2: Vec<Single>,
    pub b2: Vec<Single>,
}

/// Trained router classification head.
#[derive(Debug)]
pub struct RouterHead {
    input_dim: usize,
    hidden_dim: usize,
    /// Hidden dimension of a head that takes the previous tier.
    base_dim: Option<usize>,
    mean: Vec<Single>,
    std: Vec<Single>,
    weights: TrainableWeights,
}

/// The contents of a head.
#[verifier::ext_equal]
pub struct HeadView {
    pub input_dim: nat,
    pub hidden_dim: nat,
    pub base_dim: Option<nat>,
    pub mean: Seq<Single>,
    pub std: Seq<Single>,
    pub weights: WeightsView,
}

/// The contents of a parameter snapshot.
#[verifier::ext_equal]
pub struct WeightsView {
    pub w1: Seq<Single>,
    pub b1: Seq<Single>,
    pub ln_g: Seq<Single>,
    pub ln_b: Seq<Single>,
    pub w2: Seq<Single>,
    pub b2: Seq<Single>,
}

/// A dimension, where there is one.
pub open spec fn dim(d: Option<usize>) -> Option<nat> {
    match d {
        Some(n) => Some(n as nat),
        None => None,
    }
}

impl View for HeadJson {
    type V = HeadView;

    open spec fn view(&self) -> HeadView {
        HeadView {
            input_dim: self.input_dim as nat,
            hidden_dim: self.hidden_dim as nat,
            base_dim: dim(self.base_dim),
            mean: self.mean@,
            std: self.std@,
            weights: WeightsView {
                w1: self.w1@,
                b1: self.b1@,
                ln_g: self.ln_g@,
                ln_b: self.ln_b@,
                w2: self.w2@,
                b2: self.b2@,
            },
        }
    }
}

impl View for TrainableWeights {
    type V = WeightsView;

    open spec fn view(&self) -> WeightsView {
        WeightsView {
            w1: self.w1@,
            b1: self.b1@,
            ln_g: self.ln_g@,
            ln_b: self.ln_b@,
            w2: self.w2@,
            b2: self.b2@,
        }
    }
}

impl View for RouterHead {
    type V = HeadView;

    closed spec fn view(&self) -> HeadView {
        HeadView {
            input_dim: self.input_dim as nat,
            hidden_dim: self.hidden_dim as nat,
            base_dim: dim(self.base_dim),
            mean: self.mean@,
            std: self.std@,
            weights: self.weights@,
        }
    }
}

/// What is said of a field that holds the wrong number of elements.
pub open spec fn size_error(name: Seq<char>, actual: nat, expected: nat) -> Seq<char> {
    "router head field '"@ + name + "' has "@ + text::decimal(actual) + " elements, expected "@
        + text::decimal(expected)
}

impl HeadView {
    /// The first fault in the sizes of the fields, if there is one.
    pub open spec fn size_fault(self) -> Option<Seq<char>> {
        let i = self.input_dim;
        let h = self.hidden_dim;
        let w = self.weights;
        if self.mean.len() != i {
            Some(size_error("mean"@, self.mean.len(), i))
        } else if self.std.len() != i {
            Some(size_error("std"@, self.std.len(), i))
        } else if w.w1.len() != h * i {
            Some(size_error("w1"@, w.w1.len(), h * i))
        } else if w.b1.len() != h {
            Some(size_error("b1"@, w.b1.len(), h))
        } else if w.ln_g.len() != h {
            Some(size_error("ln_g"@, w.ln_g.len(), h))
        } else if w.ln_b.len() != h {
            Some(size_error("ln_b"@, w.ln_b.len(), h))
        } else if w.w2.len() != 4 * h {
            Some(size_error("w2"@, w.w2.len(), 4 * h))
        } else if w.b2.len() != 4 {
            Some(size_error("b2"@, w.b2.len(), 4))
        } else if i == 0 || h == 0 {
            Some("router head dims must be positive"@)
        } else {
            None
        }
    }

    /// Whether the head can be used: every field has its size, and a head
    /// that takes the previous tier has room for its code.
    pub open spec fn valid(self) -> bool {
        &&& self.size_fault() is None
        &&& self.base_dim matches Some(b) ==> self.input_dim == b + PREV_TIER_DIM
    }

    /// The first fault of a head read from a file, if there is one.
    pub open spec fn fault(self, version: nat) -> Option<Seq<char>> {
        if version != 1 {
            Some("unsupported router head version: "@ + text::decimal(version))
        } else if self.base_dim matches Some(b) && self.input_dim != b + PREV_TIER_DIM {
            Some(
                "router head input_dim "@ + text::decimal(self.input_dim) + " != base_dim "@
                    + text::decimal(self.base_dim->0) + " + 5 (prev-tier one-hot)"@,
            )
        } else {
            self.size_fault()
        }
    }

    /// The number of hidden values the head expects.
    pub open spec fn expected(self) -> nat {
        match self.base_dim {
            Some(b) => b,
            None => self.input_dim,
        }
    }

    /// The head with other trainable parameters.
    pub open spec fn retrained(self, weights: WeightsView) -> HeadView {
        HeadView { weights, ..self }
    }
}

/// Place of a previous tier in its one-hot code.
pub open spec fn hot_place(prev_tier: Option<u8>) -> int {
    match prev_tier {
        Some(t) => if t < 4 {
            t as int
        } else {
            PREV_TIER_NONE_IDX as int
        },
        None => PREV_TIER_NONE_IDX as int,
    }
}

/// One-hot code of a previous tier.
pub open spec fn one_hot(prev_tier: Option<u8>) -> Seq<Single> {
    Seq::new(
        PREV_TIER_DIM as nat,
        |i: int| Single { bits: if i == hot_place(prev_tier) { ONE } else { 0 } },
    )
}

/// A value less its mean, divided by its deviation; the divisor is at least
/// [`STD_MIN`].
pub open spec fn standard(x: Single, mean: Single, std: Single) -> Single {
    x.difference(mean).quotient(std.larger(Single { bits: STD_MIN }))
}

/// The values, each standardised by the statistics at its place.
pub open spec fn standardized(x: Seq<Single>, mean: Seq<Single>, std: Seq<Single>) -> Seq<Single> {
    Seq::new(x.len(), |i: int| standard(x[i], mean[i], std[i]))
}

impl HeadView {
    /// The input layer for a request: the hidden values, followed by the code
    /// of the previous tier where the head takes it, all standardised.
    pub open spec fn input_layer(self, hidden: Seq<Single>, prev_tier: Option<u8>) -> Seq<Single> {
        let x = if self.base_dim is Some {
            hidden + one_hot(prev_tier)
        } else {
            hidden
        };
        standardized(x, self.mean, self.std)
    }

    /// Whether `probs` are the probabilities of a pass through the
    /// perceptron, for some answers of the tangent and of the exponential.
    pub open spec fn classifies<T: Fn(Single) -> Single, X: Fn(Single) -> Single>(
        self,
        hidden: Seq<Single>,
        prev_tier: Option<u8>,
        tanh: T,
        exp: X,
        probs: [Single; 4],
    ) -> bool {
        exists|c: ForwardCache| #[trigger]
            mlp::passed(self.input_layer(hidden, prev_tier), self.weights, tanh, exp, c)
                && c.probs == probs
    }

    /// What is said of a hidden state of the wrong size.
    pub open spec fn mismatch(self, actual: nat) -> Seq<char> {
        "hidden dim "@ + text::decimal(actual) + " != head expected "@ + text::decimal(
            self.expected(),
        ) + " (model/head mismatch)"@
    }
}

/// Copies the items of a slice.
pub fn duplicated(items: &[Single]) -> (out: Vec<Single>)
    ensures
        out@ == items@,
{
    let mut out: Vec<Single> = Vec::new();
    let mut i: usize = 0;
    while i < items.len()
        invariant
            i <= items.len(),
            out@ == items@.take(i as int),
        decreases items.len() - i,
    {
        out.push(items[i]);
        i += 1;
        assert(out@ =~= items@.take(i as int));
    }
    assert(items@.take(items.len() as int) =~= items@);
    out
}

/// Appends the one-hot code of a previous tier.
fn append_one_hot(out: &mut Vec<Single>, prev_tier: Option<u8>)
    ensures
        final(out)@ == old(out)@ + one_hot(prev_tier),
{
    let idx: usize = match prev_tier {
        Some(t) => if t < 4 {
            t as usize
        } else {
            PREV_TIER_NONE_IDX
        },
        None => PREV_TIER_NONE_IDX,
    };
    let mut i: usize = 0;
    while i < PREV_TIER_DIM
        invariant
            i <= PREV_TIER_DIM,
            idx == hot_place(prev_tier),
            out@ == old(out)@ + one_hot(prev_tier).take(i as int),
        decreases PREV_TIER_DIM - i,
    {
        out.push(Single { bits: if i == idx { ONE } else { 0 } });
        i += 1;
        assert(out@ =~= old(out)@ + one_hot(prev_tier).take(i as int));
    }
    assert(one_hot(prev_tier).take(5) =~= one_hot(prev_tier));
}

/// Standardises values.
fn standardize(x: &[Single], mean: &[Single], std: &[Single]) -> (out: Vec<Single>)
    requires
        x.len() <= mean.len(),
        x.len() <= std.len(),
    ensures
        out@ == standardized(x@, mean@, std@),
{
    let mut out: Vec<Single> = Vec::new();
    let mut i: usize = 0;
    while i < x.len()
        invariant
            i <= x.len(),
            x.len() <= mean.len(),
            x.len() <= std.len(),
            out@ == standardized(x@, mean@, std@).take(i as int),
        decreases x.len() - i,
    {
        out.push(x[i].minus(mean[i]).over(std[i].max(Single { bits: STD_MIN })));
        i += 1;
        assert(out@ =~= standardized(x@, mean@, std@).take(i as int));
    }
    assert(out@ =~= standardized(x@, mean@, std@));
    out
}

/// Says that a field holds the wrong number of elements.
fn size_message(name: &str, actual: usize, expected: u128) -> (m: String)
    ensures
        m@ == size_error(name@, actual as nat, expected as nat),
{
    let mut m = "router head field '".to_owned();
    m.append(name);
    m.append("' has ");
    m.append(decimal_text(actual as u128).as_str());
    m.append(" elements, expected ");
    m.append(decimal_text(expected).as_str());
    m
}

impl RouterHead {
    #[verifier::type_invariant]
    spec fn inv(self) -> bool {
        self@.valid()
    }

    /// Builds a head from what its weight file holds. Fails on an unknown
    /// version, on dimensions that do not fit, and on a field of the wrong
    /// size.
    pub fn from_parts(raw: HeadJson) -> (res: Result<RouterHead, String>)
        ensures
            match raw@.fault(raw.version as nat) {
                Some(fault) => res matches Err(m) && m@ == fault,
                None => res matches Ok(head) && head@ == raw@,
            },
    {
        if raw.version != 1 {
            let mut m = "unsupported router head version: ".to_owned();
            m.append(decimal_text(raw.version as u128).as_str());
            return Err(m);
        }
        if let Some(b) = raw.base_dim {
            if raw.input_dim as u128 != b as u128 + PREV_TIER_DIM as u128 {
                let mut m = "router head input_dim ".to_owned();
                m.append(decimal_text(raw.input_dim as u128).as_str());
                m.append(" != base_dim ");
                m.append(decimal_text(b as u128).as_str());
                m.append(" + 5 (prev-tier one-hot)");
                return Err(m);
            }
        }
        Self::validated(raw)
    }

    /// Builds a head whose fields have their sizes.
    fn validated(raw: HeadJson) -> (res: Result<RouterHead, String>)
        requires
            raw.base_dim matches Some(b) ==> raw.input_dim == b + PREV_TIER_DIM,
        ensures
            match raw@.size_fault() {
                Some(fault) => res matches Err(m) && m@ == fault,
                None => res matches Ok(head) && head@ == raw@,
            },
    {
        let i = raw.input_dim;
        let h = raw.hidden_dim;
        assert(h as int * i as int <= 0xffff_ffff_ffff_ffff * 0xffff_ffff_ffff_ffff)
            by (nonlinear_arith)
            requires
                0 <= h <= 0xffff_ffff_ffff_ffff,
                0 <= i <= 0xffff_ffff_ffff_ffff,
        ;
        if raw.mean.len() != i {
            return Err(size_message("mean", raw.mean.len(), i as u128));
        }
        if raw.std.len() != i {
            return Err(size_message("std", raw.std.len(), i as u128));
        }
        if raw.w1.len() as u128 != h as u128 * i as u128 {
            return Err(size_message("w1", raw.w1.len(), h as u128 * i as u128));
        }
        if raw.b1.len() != h {
            return Err(size_message("b1", raw.b1.len(), h as u128));
        }
        if raw.ln_g.len() != h {
            return Err(size_message("ln_g", raw.ln_g.len(), h as u128));
        }
        if raw.ln_b.len() != h {
            return Err(size_message("ln_b", raw.ln_b.len(), h as u128));
        }
        if raw.w2.len() as u128 != 4 * h as u128 {
            return Err(size_message("w2", raw.w2.len(), 4 * h as u128));
        }
        if raw.b2.len() != 4 {
            return Err(size_message("b2", raw.b2.len(), 4));
        }
        if i == 0 || h == 0 {
            return Err("router head dims must be positive".to_owned());
        }
        Ok(
            RouterHead {
                input_dim: i,
                hidden_dim: h,
                base_dim: raw.base_dim,
                mean: raw.mean,
                std: raw.std,
                weights: TrainableWeights {
                    w1: raw.w1,
                    b1: raw.b1,
                    ln_g: raw.ln_g,
                    ln_b: raw.ln_b,
                    w2: raw.w2,
                    b2: raw.b2,
                },
            },
        )
    }

    /// Width of the input layer.
    pub fn input_dim(&self) -> (res: usize)
        ensures
            res == self@.input_dim,
            self@.valid(),
    {
        proof {
            use_type_invariant(self);
        }
        self.input_dim
    }

    /// Width of the hidden layer.
    pub fn hidden_dim(&self) -> (res: usize)
        ensures
            res == self@.hidden_dim,
    {
        self.hidden_dim
    }

    /// Number of hidden values the head expects: what a backbone must offer
    /// to fit the head.
    pub fn expected_hidden_dim(&self) -> (res: usize)
        ensures
            res == self@.expected(),
    {
        match self.base_dim {
            Some(b) => b,
            None => self.input_dim,
        }
    }

    /// Hidden dimension of a head that takes the previous tier.
    pub fn base_dim(&self) -> (res: Option<usize>)
        ensures
            dim(res) == self@.base_dim,
    {
        self.base_dim
    }

    /// Whether the head takes the previous tier.
    pub fn is_v4(&self) -> (res: bool)
        ensures
            res == self@.base_dim is Some,
    {
        self.base_dim.is_some()
    }

    /// The frozen means.
    pub fn mean_iter(&self) -> (res: &[Single])
        ensures
            res@ == self@.mean,
    {
        self.mean.as_slice()
    }

    /// The frozen deviations.
    pub fn std_iter(&self) -> (res: &[Single])
        ensures
            res@ == self@.std,
    {
        self.std.as_slice()
    }

    /// Exports the trainable parameters.
    pub fn trainable(&self) -> (res: TrainableWeights)
        ensures
            res@ == self@.weights,
    {
        self.weights.copied()
    }

    /// The head with other trainable parameters; dimensions and statistics
    /// stay. Fails where a parameter field has the wrong size.
    pub fn with_trainable(&self, w: TrainableWeights) -> (res: Result<RouterHead, String>)
        ensures
            match self@.retrained(w@).size_fault() {
                Some(fault) => res matches Err(m) && m@ == fault,
                None => res matches Ok(head) && head@ == self@.retrained(w@),
            },
    {
        proof {
            use_type_invariant(self);
        }
        let raw = HeadJson {
            version: 1,
            input_dim: self.input_dim,
            hidden_dim: self.hidden_dim,
            base_dim: self.base_dim,
            mean: duplicated(&self.mean),
            std: duplicated(&self.std),
            w1: w.w1,
            b1: w.b1,
            ln_g: w.ln_g,
            ln_b: w.ln_b,
            w2: w.w2,
            b2: w.b2,
        };
        assert(raw@ =~= self@.retrained(w@));
        Self::validated(raw)
    }

    /// The standardised input layer for a hidden state and the previous tier
    /// (0 to 3; anything else counts as unknown). Fails where the hidden
    /// state does not have the expected size.
    pub fn input_layer(&self, hidden: &[Single], prev_tier: Option<u8>) -> (res: Result<
        Vec<Single>,
        String,
    >)
        ensures
            hidden@.len() == self@.expected() ==> (res matches Ok(x) && x@ == self@.input_layer(
                hidden@,
                prev_tier,
            )),
            hidden@.len() != self@.expected() ==> (res matches Err(m) && m@ == self@.mismatch(
                hidden@.len(),
            )),
    {
        proof {
            use_type_invariant(self);
        }
        let expected = self.expected_hidden_dim();
        if hidden.len() != expected {
            let mut m = "hidden dim ".to_owned();
            m.append(decimal_text(hidden.len() as u128).as_str());
            m.append(" != head expected ");
            m.append(decimal_text(expected as u128).as_str());
            m.append(" (model/head mismatch)");
            return Err(m);
        }
        Ok(self.training_row(hidden, prev_tier))
    }

    /// Classifies a hidden state into the probabilities of R0 to R3, given the
    /// previous tier (0 to 3; anything else counts as unknown). The
    /// hyperbolic tangent and the exponential are the caller's.
    pub fn forward<T: Fn(Single) -> Single, X: Fn(Single) -> Single>(
        &self,
        hidden: &[Single],
        prev_tier: Option<u8>,
        tanh: &T,
        exp: &X,
    ) -> (res: Result<[Single; 4], String>)
        requires
            forall|v: Single| call_requires(*tanh, (v,)),
            forall|v: Single| call_requires(*exp, (v,)),
        ensures
            hidden@.len() == self@.expected() ==> (res matches Ok(p) && self@.classifies(
                hidden@,
                prev_tier,
                *tanh,
                *exp,
                p,
            )),
            hidden@.len() != self@.expected() ==> (res matches Err(m) && m@ == self@.mismatch(
                hidden@.len(),
            )),
    {
        proof {
            use_type_invariant(self);
        }
        match self.input_layer(hidden, prev_tier) {
            Err(m) => Err(m),
            Ok(x) => {
                let c = forward_sample(&x, &self.weights, tanh, exp);
                Ok(c.probs)
            },
        }
    }

    /// The input layer for a training sample whose hidden state has the
    /// expected size: the same as for a request.
    pub fn training_row(&self, hidden: &[Single], prev_tier: Option<u8>) -> (x: Vec<Single>)
        requires
            hidden@.len() == self@.expected(),
        ensures
            x@ == self@.input_layer(hidden@, prev_tier),
    {
        proof {
            use_type_invariant(self);
        }
        let mut x = duplicated(hidden);
        if self.base_dim.is_some() {
            append_one_hot(&mut x, prev_tier);
        }
        standardize(&x, &self.mean, &self.std)
    }
}

impl Clone for RouterHead {
    fn clone(&self) -> (res: Self)
        ensures
            res@ == self@,
    {
        proof {
            use_type_invariant(self);
        }
        RouterHead {
            input_dim: self.input_dim,
            hidden_dim: self.hidden_dim,
            base_dim: self.base_dim,
            mean: duplicated(&self.mean),
            std: duplicated(&self.std),
            weights: self.weights.copied(),
        }
    }
}

/// Retraining leaves everything frozen as it was: the dimensions and the
/// standardisation statistics, hence the input layer of every request. Taking
/// the parameters out and putting them back changes nothing.
pub proof fn retraining_keeps_statistics(
    head: HeadView,
    weights: WeightsView,
    hidden: Seq<Single>,
    prev_tier: Option<u8>,
)
    ensures
        head.retrained(weights).mean == head.mean,
        head.retrained(weights).std == head.std,
        head.retrained(weights).expected() == head.expected(),
        head.retrained(weights).input_layer(hidden, prev_tier) == head.input_layer(
            hidden,
            prev_tier,
        ),
        head.retrained(weights).weights == weights,
        head.retrained(head.weights) == head,
{
}

/// A head without a previous-tier code gives the same input layer whatever
/// the previous tier; with one, every tier above R3 counts as unknown.
pub proof fn unknown_tiers_are_ignored(
    head: HeadView,
    hidden: Seq<Single>,
    a: Option<u8>,
    b: Option<u8>,
)
    ensures
        head.base_dim is None ==> head.input_layer(hidden, a) == head.input_layer(hidden, b),
        (a matches Some(t) ==> t > 3) && (b matches Some(t) ==> t > 3) ==> head.input_layer(
            hidden,
            a,
        ) == head.input_layer(hidden, b),
{
    if (a matches Some(t) ==> t > 3) && (b matches Some(t) ==> t > 3) {
        assert(one_hot(a) =~= one_hot(b));
    }
}

/// The input layer of a usable head is as wide as the head takes it.
pub proof fn input_layer_fits(head: HeadView, hidden: Seq<Single>, prev_tier: Option<u8>)
    requires
        head.valid(),
        hidden.len() == head.expected(),
    ensures
        head.input_layer(hidden, prev_tier).len() == head.input_dim,
{
}

/// A value at its mean is standardised to zero. With a deviation of one, any
/// value becomes the number nearest to its distance from the mean, and with a
/// mean of zero the one nearest to its ratio to the deviation.
pub proof fn inputs_are_standardised(
    head: HeadView,
    hidden: Seq<Single>,
    prev_tier: Option<u8>,
    i: int,
)
    requires
        head.valid(),
        hidden.len() == head.expected(),
        0 <= i < hidden.len(),
        !hidden[i].nan() && !hidden[i].infinite(),
        !head.mean[i].nan() && !head.mean[i].infinite(),
        !head.std[i].nan() && !head.std[i].infinite() && !head.std[i].negative(),
    ensures
        ({
            let v = head.input_layer(hidden, prev_tier)[i];
            let (h, m, s) = (hidden[i], head.mean[i], head.std[i]);
            let far = h.value() - m.value();
            &&& h == m ==> v.magnitude() == 0
            &&& s.bits == ONE && far != 0 && v.magnitude() < single::INFINITE ==> v.negative() == (
            far < 0) && single::nearest(v.magnitude(), single::abs(far), 1)
            &&& m.bits == 0 && s.magnitude() >= 0x3586_37bd && h.magnitude() > 0 ==> v.negative()
                == h.negative() && single::nearest(
                v.magnitude(),
                single::span(h.magnitude()) * pow2(149),
                single::span(s.magnitude()),
            )
            &&& m.bits == 0 && s.magnitude() < 0x3586_37bd && h.magnitude() > 0 ==> v.negative()
                == h.negative() && single::nearest(
                v.magnitude(),
                single::span(h.magnitude()) * pow2(149),
                single::span(0x3586_37bd),
            )
        }),
{
    let (h, m, s) = (hidden[i], head.mean[i], head.std[i]);
    let least = Single { bits: STD_MIN };
    let d = s.larger(least);
    let v = standard(h, m, s);
    assert(head.input_layer(hidden, prev_tier)[i] == v);
    let far = h.value() - m.value();
    single::lemma_span(0, 0);
    lemma_pow2_pos(149);
    assert(d.magnitude() > 0 && !d.negative() && !d.nan() && !d.infinite());
    single::span_increasing(0, d.magnitude());
    assert(m.negated().value() == -m.value());
    let x = h.difference(m);
    if far != 0 {
        single::rounded_is_nearest(single::abs(far), 1);
    }
    let u = pow2(149) as int;
    let sd = single::span(d.magnitude());
    if s.bits == ONE && far != 0 {
        assert(d == s);
        bounds::powers_are_exact(0);
        let r = single::rounded(single::abs(far), 1);
        assert(x == single::signed(far < 0, r));
        if x.magnitude() == 0 {
            assert(v.magnitude() == 0);
        } else if x.magnitude() < single::INFINITE {
            single::span_increasing(0, x.magnitude());
            bounds::divisions_scale(x, s);
        }
    }
    if m.bits == 0 && h.magnitude() > 0 {
        assert(m.negated().magnitude() == 0);
        bounds::zero_adds_nothing(h, m.negated());
        single::span_increasing(0, h.magnitude());
        let n = single::span(h.magnitude()) * u;
        assert(n >= 0) by (nonlinear_arith)
            requires
                n == single::span(h.magnitude()) * u,
                single::span(h.magnitude()) > 0,
                u > 0,
        ;
        single::rounded_is_nearest(n, sd);
        assert(v == single::signed(h.negative(), single::rounded(n, sd)));
    }
}

/// Behind the hidden values stands the code of the tier before: of five places
/// the one of the tier is one, or the last where it is not known, and the
/// others are zero.
pub proof fn the_tier_before_is_coded(
    head: HeadView,
    hidden: Seq<Single>,
    prev_tier: Option<u8>,
    k: int,
)
    requires
        head.valid(),
        head.base_dim is Some,
        hidden.len() == head.expected(),
        0 <= k < 5,
        head.mean[hidden.len() + k].bits == 0,
        head.std[hidden.len() + k].bits == ONE,
    ensures
        ({
            let v = head.input_layer(hidden, prev_tier)[hidden.len() + k];
            let here = match prev_tier {
                Some(t) => k == t || (t > 3 && k == 4),
                None => k == 4,
            };
            &&& here ==> v.bits == ONE
            &&& !here ==> v.magnitude() == 0
        }),
{
    let i = hidden.len() + k;
    let (m, s) = (head.mean[i], head.std[i]);
    let x = one_hot(prev_tier)[k];
    assert(head.input_layer(hidden, prev_tier)[i] == standard(x, m, s));
    single::lemma_span(0, 0);
    bounds::powers_are_exact(0);
    let least = Single { bits: STD_MIN };
    assert(s.larger(least) == s);
    assert(m.negated().magnitude() == 0);
    if x.bits == ONE {
        bounds::zero_adds_nothing(x, m.negated());
        bounds::divisions_scale(x, s);
    }
}

/// A head has as many inputs as hidden values, and five more where it takes the
/// tier before.
pub proof fn heads_are_as_wide_as_their_inputs(head: HeadView)
    requires
        head.valid(),
    ensures
        head.base_dim is Some ==> head.expected() + 5 == head.input_dim,
        head.base_dim is None ==> head.expected() == head.input_dim,
        head.mean.len() == head.input_dim,
        head.std.len() == head.input_dim,
        head.weights.w1.len() == head.hidden_dim * head.input_dim,
        head.weights.b1.len() == head.hidden_dim,
        head.weights.ln_g.len() == head.hidden_dim,
        head.weights.ln_b.len() == head.hidden_dim,
        head.weights.w2.len() == 4 * head.hidden_dim,
        head.weights.b2.len() == 4,
        head.hidden_dim > 0,
        head.input_dim > 0,
{
}

/// A deviation counts as a millionth at the least.
pub proof fn least_deviation_is_a_millionth()
    ensures
        single::nearest(STD_MIN as int, 1int * pow2(149), 1_000_000),
{
    lemma2_to64();
    lemma2_to64_rest();
    bounds::lemma_fraction(STD_MIN as int, 1, 1_000_000);
}

/// A stored head is taken exactly where it has the one version that is known,
/// its width leaves room for the tier before, and every field has the size
/// that the widths ask for.
pub proof fn sound_heads_are_taken(head: HeadView, version: nat)
    ensures
        head.fault(version) is None <==> {
            let (i, h, w) = (head.input_dim, head.hidden_dim, head.weights);
            &&& version == 1
            &&& head.base_dim matches Some(b) ==> i == b + 5
            &&& i > 0 && h > 0
            &&& head.mean.len() == i && head.std.len() == i
            &&& w.w1.len() == h * i && w.b1.len() == h
            &&& w.ln_g.len() == h && w.ln_b.len() == h
            &&& w.w2.len() == 4 * h && w.b2.len() == 4
        },
        head.fault(version) is None ==> head.valid(),
{
}

} // verus!
