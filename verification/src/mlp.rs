//! Arithmetic of the two-layer perceptron: linear layers, the activation, layer
//! normalisation, and their gradients.
//!
//! Every operation is rounded as it is made. The hyperbolic tangent and the
//! exponential are taken from the caller: what is stated holds for whatever
//! values these give.

use crate::bounds;
use crate::head::{duplicated, TrainableWeights, WeightsView};
use crate::postprocess;
use crate::postprocess::{softmax, sum_of};
use crate::single;
use crate::single::Single;
use vstd::arithmetic::div_mod::lemma_fundamental_div_mod_converse;
use vstd::arithmetic::power2::{
    lemma2_to64, lemma2_to64_rest, lemma_pow2_adds, lemma_pow2_pos, lemma_pow2_strictly_increases,
    pow2,
};
use vstd::prelude::*;

verus! {

/// Bit pattern of the square root of two over pi.
pub const SQRT_2_OVER_PI: u32 = 0x3f4c_422a;

/// Bit pattern of 0.044715.
pub const CUBIC: u32 = 0x3d37_2713;

/// Bit pattern of 0.5.
pub const HALF: u32 = 0x3f00_0000;

/// Bit pattern of one.
pub const ONE: u32 = 0x3f80_0000;

/// Bit pattern of three.
pub const THREE: u32 = 0x4040_0000;

/// Bit pattern of 1e-5, added to a variance before its root is taken.
pub const LN_EPS: u32 = 0x3727_c5ac;

/// `acc` plus the products of the first `n` weights and values, added one by
/// one.
pub open spec fn dot(acc: Single, w: Seq<Single>, x: Seq<Single>, n: int) -> Single
    decreases n,
{
    if n <= 0 {
        acc
    } else {
        dot(acc, w, x, n - 1).sum(w[n - 1].product(x[n - 1]))
    }
}

/// A linear layer: one row of weights and one bias per output.
pub open spec fn linear(w: Seq<Single>, b: Seq<Single>, x: Seq<Single>, outputs: nat) -> Seq<
    Single,
> {
    Seq::new(
        outputs,
        |j: int| dot(b[j], w.subrange(j * x.len(), (j + 1) * x.len()), x, x.len() as int),
    )
}

/// The argument of the hyperbolic tangent in the activation.
pub open spec fn gelu_argument(x: Single) -> Single {
    Single { bits: SQRT_2_OVER_PI }.product(
        x.sum(Single { bits: CUBIC }.product(x).product(x).product(x)),
    )
}

/// The activation of `x`, given the tangent of its argument.
pub open spec fn gelu(x: Single, t: Single) -> Single {
    Single { bits: HALF }.product(x).product(Single { bits: ONE }.sum(t))
}

/// The slope of the activation at `x`, given the tangent of its argument.
pub open spec fn gelu_slope(x: Single, t: Single) -> Single {
    let inner = Single { bits: SQRT_2_OVER_PI }.product(
        Single { bits: ONE }.sum(
            Single { bits: THREE }.product(Single { bits: CUBIC }).product(x).product(x),
        ),
    );
    Single { bits: HALF }.product(Single { bits: ONE }.sum(t)).sum(
        Single { bits: HALF }.product(x).product(
            Single { bits: ONE }.difference(t.product(t)),
        ).product(inner),
    )
}

/// The mean of some numbers.
pub open spec fn mean(s: Seq<Single>) -> Single {
    postprocess::total(s).quotient(Single::counted(s.len() as int))
}

/// The squared distances of some numbers from `mu`.
pub open spec fn squares(s: Seq<Single>, mu: Single) -> Seq<Single> {
    s.map_values(|v: Single| v.difference(mu).product(v.difference(mu)))
}

/// One over the deviation of some numbers from `mu`.
pub open spec fn inverse_deviation(s: Seq<Single>, mu: Single) -> Single {
    Single { bits: ONE }.quotient(
        mean(squares(s, mu)).sum(Single { bits: LN_EPS }).square_root(),
    )
}

/// Layer normalisation with gains and offsets.
pub open spec fn normalized(
    s: Seq<Single>,
    mu: Single,
    inv: Single,
    gain: Seq<Single>,
    offset: Seq<Single>,
) -> Seq<Single> {
    Seq::new(
        s.len(),
        |j: int| s[j].difference(mu).product(inv).product(gain[j]).sum(offset[j]),
    )
}

/// Intermediate values of one pass through the perceptron.
pub struct ForwardCache {
    /// Output of the first layer.
    pub z: Vec<Single>,
    /// Tangents of the activation arguments.
    pub t: Vec<Single>,
    /// Output of the activation.
    pub a: Vec<Single>,
    pub mu: Single,
    pub inv_std: Single,
    /// Output of the normalisation.
    pub y: Vec<Single>,
    pub probs: [Single; 4],
}

/// The fields of parameters for given layer widths have their sizes.
pub open spec fn sized(w: WeightsView, inputs: nat, hidden: nat) -> bool {
    &&& w.w1.len() == hidden * inputs
    &&& w.b1.len() == hidden
    &&& w.ln_g.len() == hidden
    &&& w.ln_b.len() == hidden
    &&& w.w2.len() == 4 * hidden
    &&& w.b2.len() == 4
    &&& hidden > 0
    &&& inputs > 0
}

/// Whether the values are those of the first layer, its activation with the
/// tangents `c.t`, and the normalisation.
pub open spec fn layers(x: Seq<Single>, w: WeightsView, c: ForwardCache) -> bool {
    let h = w.b1.len();
    &&& c.z@ == linear(w.w1, w.b1, x, h)
    &&& c.t@.len() == h
    &&& c.a@ == Seq::new(h, |j: int| gelu(c.z@[j], c.t@[j]))
    &&& c.mu == mean(c.a@)
    &&& c.inv_std == inverse_deviation(c.a@, c.mu)
    &&& c.y@ == normalized(c.a@, c.mu, c.inv_std, w.ln_g, w.ln_b)
}

/// The outputs of the second layer.
pub open spec fn logits(w: WeightsView, y: Seq<Single>) -> Seq<Single> {
    linear(w.w2, w.b2, y, 4)
}

/// Whether the values are those of a pass of `x` through the perceptron, for
/// some answers of the tangent and of the exponential.
pub open spec fn passed<T: Fn(Single) -> Single, X: Fn(Single) -> Single>(
    x: Seq<Single>,
    w: WeightsView,
    tanh: T,
    exp: X,
    c: ForwardCache,
) -> bool {
    &&& layers(x, w, c)
    &&& forall|j: int|
        0 <= j < c.t@.len() ==> call_ensures(
            tanh,
            (gelu_argument(c.z@[j]),),
            #[trigger] c.t@[j],
        )
    &&& postprocess::softmax_of(exp, logits(w, c.y@), c.probs@)
}

/// The argument of the hyperbolic tangent in the activation.
pub fn activation_argument(x: Single) -> (r: Single)
    ensures
        r == gelu_argument(x),
{
    Single { bits: SQRT_2_OVER_PI }.times(
        x.plus(Single { bits: CUBIC }.times(x).times(x).times(x)),
    )
}

/// The activation of `x`, given the tangent of its argument.
pub fn activation(x: Single, t: Single) -> (r: Single)
    ensures
        r == gelu(x, t),
{
    Single { bits: HALF }.times(x).times(Single { bits: ONE }.plus(t))
}

/// The slope of the activation at `x`, given the tangent of its argument.
pub fn activation_slope(x: Single, t: Single) -> (r: Single)
    ensures
        r == gelu_slope(x, t),
{
    let inner = Single { bits: SQRT_2_OVER_PI }.times(
        Single { bits: ONE }.plus(
            Single { bits: THREE }.times(Single { bits: CUBIC }).times(x).times(x),
        ),
    );
    Single { bits: HALF }.times(Single { bits: ONE }.plus(t)).plus(
        Single { bits: HALF }.times(x).times(Single { bits: ONE }.minus(t.times(t))).times(inner),
    )
}

/// A linear layer.
pub fn linear_layer(w: &[Single], b: &[Single], x: &[Single]) -> (out: Vec<Single>)
    requires
        w.len() == b.len() * x.len(),
    ensures
        out@ == linear(w@, b@, x@, b@.len()),
{
    let n: usize = x.len();
    let rows: usize = b.len();
    let mut out: Vec<Single> = Vec::new();
    let mut j: usize = 0;
    let mut at: usize = 0;
    while j < rows
        invariant
            j <= rows,
            rows == b.len(),
            n == x.len(),
            at == j * n,
            w.len() == rows * n,
            out@ == linear(w@, b@, x@, rows as nat).take(j as int),
        decreases rows - j,
    {
        assert((j + 1) * n == j * n + n && j * n + n <= rows * n) by (nonlinear_arith)
            requires
                j < rows,
                n >= 0,
        ;
        let ghost row = w@.subrange(j * n, (j + 1) * n);
        let mut sum = b[j];
        let mut k: usize = 0;
        while k < n
            invariant
                k <= n,
                j < rows,
                rows == b.len(),
                n == x.len(),
                at == j * n,
                at + n <= w.len(),
                (j + 1) * n == j * n + n,
                row == w@.subrange(j * n, (j + 1) * n),
                sum == dot(b@[j as int], row, x@, k as int),
            decreases n - k,
        {
            assert(row[k as int] == w@[at + k]);
            sum = sum.plus(w[at + k].times(x[k]));
            k += 1;
        }
        out.push(sum);
        at = at + n;
        j += 1;
        assert(out@ =~= linear(w@, b@, x@, rows as nat).take(j as int));
    }
    assert(out@ =~= linear(w@, b@, x@, rows as nat));
    out
}

/// The mean of some numbers.
pub fn mean_of(s: &[Single]) -> (r: Single)
    ensures
        r == mean(s@),
{
    sum_of(s).over(Single::from_count(s.len() as u64))
}

/// One over the deviation of some numbers from `mu`.
pub fn inverse_deviation_of(s: &[Single], mu: Single) -> (r: Single)
    ensures
        r == inverse_deviation(s@, mu),
{
    let mut sq: Vec<Single> = Vec::new();
    let mut i: usize = 0;
    while i < s.len()
        invariant
            i <= s.len(),
            sq@ == squares(s@, mu).take(i as int),
        decreases s.len() - i,
    {
        let d = s[i].minus(mu);
        sq.push(d.times(d));
        i += 1;
        assert(sq@ =~= squares(s@, mu).take(i as int));
    }
    assert(sq@ =~= squares(s@, mu));
    Single { bits: ONE }.over(mean_of(&sq).plus(Single { bits: LN_EPS }).root())
}

/// Layer normalisation with gains and offsets.
pub fn normalize(s: &[Single], mu: Single, inv: Single, gain: &[Single], offset: &[Single]) -> (out:
    Vec<Single>)
    requires
        s.len() == gain.len(),
        s.len() == offset.len(),
    ensures
        out@ == normalized(s@, mu, inv, gain@, offset@),
{
    let mut out: Vec<Single> = Vec::new();
    let mut j: usize = 0;
    while j < s.len()
        invariant
            j <= s.len(),
            s.len() == gain.len(),
            s.len() == offset.len(),
            out@ == normalized(s@, mu, inv, gain@, offset@).take(j as int),
        decreases s.len() - j,
    {
        out.push(s[j].minus(mu).times(inv).times(gain[j]).plus(offset[j]));
        j += 1;
        assert(out@ =~= normalized(s@, mu, inv, gain@, offset@).take(j as int));
    }
    assert(out@ =~= normalized(s@, mu, inv, gain@, offset@));
    out
}

/// One pass of an input through the perceptron.
pub fn forward_sample<T: Fn(Single) -> Single, X: Fn(Single) -> Single>(
    x: &[Single],
    w: &TrainableWeights,
    tanh: &T,
    exp: &X,
) -> (c: ForwardCache)
    requires
        sized(w@, x@.len(), w.b1@.len()),
        forall|v: Single| call_requires(*tanh, (v,)),
        forall|v: Single| call_requires(*exp, (v,)),
    ensures
        passed(x@, w@, *tanh, *exp, c),
{
    let h: usize = w.b1.len();
    let z = linear_layer(&w.w1, &w.b1, x);
    let mut t: Vec<Single> = Vec::new();
    let mut a: Vec<Single> = Vec::new();
    let mut j: usize = 0;
    while j < h
        invariant
            j <= h,
            z.len() == h,
            t.len() == j,
            a.len() == j,
            forall|v: Single| call_requires(*tanh, (v,)),
            forall|k: int|
                0 <= k < j ==> call_ensures(*tanh, (gelu_argument(z@[k]),), #[trigger] t@[k]),
            forall|k: int| 0 <= k < j ==> #[trigger] a@[k] == gelu(z@[k], t@[k]),
        decreases h - j,
    {
        let v = tanh(activation_argument(z[j]));
        t.push(v);
        a.push(activation(z[j], v));
        j += 1;
    }
    assert(a@ =~= Seq::new(h as nat, |j: int| gelu(z@[j], t@[j])));
    let mu = mean_of(&a);
    let inv_std = inverse_deviation_of(&a, mu);
    let y = normalize(&a, mu, inv_std, &w.ln_g, &w.ln_b);
    let raw = linear_layer(&w.w2, &w.b2, &y);
    let probs = softmax(&raw, exp);
    ForwardCache { z, t, a, mu, inv_std, y, probs }
}

/// The slope of the loss by the logits: the probabilities, less one at the
/// label.
pub open spec fn logit_slopes(probs: Seq<Single>, label: int) -> Seq<Single> {
    Seq::new(
        4,
        |k: int| probs[k].difference(Single { bits: if k == label { ONE } else { 0 } }),
    )
}

/// The slope of the loss by output `j` of the normalisation.
pub open spec fn output_slope(dl: Seq<Single>, w2: Seq<Single>, hidden: nat, j: int) -> Single {
    postprocess::total(Seq::new(4, |k: int| dl[k].product(w2[k * hidden + j])))
}

/// The slopes of the loss by the outputs of the normalisation.
pub open spec fn output_slopes(dl: Seq<Single>, w2: Seq<Single>, hidden: nat) -> Seq<Single> {
    Seq::new(hidden, |j: int| output_slope(dl, w2, hidden, j))
}

/// The normalised activation at `j`, before gain and offset.
pub open spec fn centred(c: ForwardCache, j: int) -> Single {
    c.a@[j].difference(c.mu).product(c.inv_std)
}

/// The mean of the slopes, each times its normalised activation.
pub open spec fn slope_moment(dy: Seq<Single>, c: ForwardCache) -> Single {
    mean(
        Seq::new(
            dy.len(),
            |j: int| dy[j].product(c.a@[j].difference(c.mu)).product(c.inv_std),
        ),
    )
}

/// The slope of the loss by output `j` of the first layer.
pub open spec fn hidden_slope(dy: Seq<Single>, w: WeightsView, c: ForwardCache, j: int) -> Single {
    c.inv_std.product(
        dy[j].difference(mean(dy)).difference(centred(c, j).product(slope_moment(dy, c))),
    ).product(w.ln_g[j]).product(gelu_slope(c.z@[j], c.t@[j]))
}

/// The gradient of the loss of one sample.
pub open spec fn gradient(x: Seq<Single>, label: int, w: WeightsView, c: ForwardCache) -> WeightsView {
    let h = w.b1.len();
    let n = x.len() as int;
    let dl = logit_slopes(c.probs@, label);
    let dy = output_slopes(dl, w.w2, h);
    WeightsView {
        w1: Seq::new(h * x.len(), |i: int| hidden_slope(dy, w, c, i / n).product(x[i % n])),
        b1: Seq::new(h, |j: int| hidden_slope(dy, w, c, j)),
        ln_g: Seq::new(h, |j: int| dy[j].product(centred(c, j))),
        ln_b: dy,
        w2: Seq::new(4 * h, |i: int| dl[i / h as int].product(c.y@[i % h as int])),
        b2: dl,
    }
}

/// Sums, place by place.
pub open spec fn added(a: Seq<Single>, b: Seq<Single>) -> Seq<Single> {
    Seq::new(a.len(), |i: int| a[i].sum(b[i]))
}

/// Sums of parameters, place by place.
pub open spec fn added_weights(a: WeightsView, b: WeightsView) -> WeightsView {
    WeightsView {
        w1: added(a.w1, b.w1),
        b1: added(a.b1, b.b1),
        ln_g: added(a.ln_g, b.ln_g),
        ln_b: added(a.ln_b, b.ln_b),
        w2: added(a.w2, b.w2),
        b2: added(a.b2, b.b2),
    }
}

/// Numbers, each times the same one.
pub open spec fn scaled(a: Seq<Single>, by: Single) -> Seq<Single> {
    a.map_values(|v: Single| v.product(by))
}

/// Parameters, each times the same number.
pub open spec fn scaled_weights(a: WeightsView, by: Single) -> WeightsView {
    WeightsView {
        w1: scaled(a.w1, by),
        b1: scaled(a.b1, by),
        ln_g: scaled(a.ln_g, by),
        ln_b: scaled(a.ln_b, by),
        w2: scaled(a.w2, by),
        b2: scaled(a.b2, by),
    }
}

/// `n` zeros.
pub open spec fn zeros(n: nat) -> Seq<Single> {
    Seq::new(n, |i: int| Single { bits: 0 })
}

/// Parameters of the same sizes, all zero.
pub open spec fn zero_weights(a: WeightsView) -> WeightsView {
    WeightsView {
        w1: zeros(a.w1.len()),
        b1: zeros(a.b1.len()),
        ln_g: zeros(a.ln_g.len()),
        ln_b: zeros(a.ln_b.len()),
        w2: zeros(a.w2.len()),
        b2: zeros(a.b2.len()),
    }
}

/// `n` zeros.
pub fn zero_vec(n: usize) -> (out: Vec<Single>)
    ensures
        out@ == zeros(n as nat),
{
    let mut out: Vec<Single> = Vec::new();
    let mut i: usize = 0;
    while i < n
        invariant
            i <= n,
            out@ == zeros(i as nat),
        decreases n - i,
    {
        out.push(Single { bits: 0 });
        i += 1;
        assert(out@ =~= zeros(i as nat));
    }
    out
}

impl TrainableWeights {
    /// Parameters of the same sizes, all zero.
    pub fn zeroed(&self) -> (out: TrainableWeights)
        ensures
            out@ == zero_weights(self@),
    {
        TrainableWeights {
            w1: zero_vec(self.w1.len()),
            b1: zero_vec(self.b1.len()),
            ln_g: zero_vec(self.ln_g.len()),
            ln_b: zero_vec(self.ln_b.len()),
            w2: zero_vec(self.w2.len()),
            b2: zero_vec(self.b2.len()),
        }
    }

    /// A copy of the parameters.
    pub fn copied(&self) -> (out: TrainableWeights)
        ensures
            out@ == self@,
    {
        TrainableWeights {
            w1: duplicated(&self.w1),
            b1: duplicated(&self.b1),
            ln_g: duplicated(&self.ln_g),
            ln_b: duplicated(&self.ln_b),
            w2: duplicated(&self.w2),
            b2: duplicated(&self.b2),
        }
    }

    /// Multiplies every parameter by the same number.
    pub fn scale(&mut self, by: Single)
        ensures
            final(self)@ == scaled_weights(old(self)@, by),
    {
        scale_all(&mut self.w1, by);
        scale_all(&mut self.b1, by);
        scale_all(&mut self.ln_g, by);
        scale_all(&mut self.ln_b, by);
        scale_all(&mut self.w2, by);
        scale_all(&mut self.b2, by);
    }
}

/// Multiplies every number by the same one.
fn scale_all(items: &mut Vec<Single>, by: Single)
    ensures
        final(items)@ == scaled(old(items)@, by),
{
    let mut i: usize = 0;
    while i < items.len()
        invariant
            i <= items.len(),
            items.len() == old(items).len(),
            forall|k: int| 0 <= k < i ==> #[trigger] items@[k] == old(items)@[k].product(by),
            forall|k: int| i <= k < items.len() ==> #[trigger] items@[k] == old(items)@[k],
        decreases items.len() - i,
    {
        let v = items[i].times(by);
        items.set(i, v);
        i += 1;
    }
    assert(items@ =~= scaled(old(items)@, by));
}

/// Adds numbers, place by place.
fn add_all(items: &mut Vec<Single>, more: &[Single])
    requires
        old(items).len() == more.len(),
    ensures
        final(items)@ == added(old(items)@, more@),
{
    let mut i: usize = 0;
    while i < items.len()
        invariant
            i <= items.len(),
            items.len() == old(items).len(),
            items.len() == more.len(),
            forall|k: int| 0 <= k < i ==> #[trigger] items@[k] == old(items)@[k].sum(more@[k]),
            forall|k: int| i <= k < items.len() ==> #[trigger] items@[k] == old(items)@[k],
        decreases items.len() - i,
    {
        let v = items[i].plus(more[i]);
        items.set(i, v);
        i += 1;
    }
    assert(items@ =~= added(old(items)@, more@));
}

/// Adds the products of every row factor with every column factor, row by
/// row.
fn add_outer(items: &mut Vec<Single>, rows: &[Single], cols: &[Single])
    requires
        old(items).len() == rows.len() * cols.len(),
        cols.len() > 0,
    ensures
        final(items)@ == added(
            old(items)@,
            Seq::new(
                rows@.len() * cols@.len(),
                |i: int| rows@[i / cols@.len() as int].product(cols@[i % cols@.len() as int]),
            ),
        ),
{
    let n: usize = cols.len();
    let ghost outer = Seq::new(
        rows@.len() * cols@.len(),
        |i: int| rows@[i / cols@.len() as int].product(cols@[i % cols@.len() as int]),
    );
    let mut j: usize = 0;
    let mut at: usize = 0;
    while j < rows.len()
        invariant
            j <= rows.len(),
            n == cols.len(),
            n > 0,
            at == j * n,
            items.len() == rows.len() * n,
            items.len() == old(items).len(),
            outer == Seq::new(
                rows@.len() * cols@.len(),
                |i: int| rows@[i / cols@.len() as int].product(cols@[i % cols@.len() as int]),
            ),
            forall|k: int| 0 <= k < at ==> #[trigger] items@[k] == old(items)@[k].sum(outer[k]),
            forall|k: int| at <= k < items.len() ==> #[trigger] items@[k] == old(items)@[k],
        decreases rows.len() - j,
    {
        assert((j + 1) * n == j * n + n && j * n + n <= rows.len() * n) by (nonlinear_arith)
            requires
                j < rows.len(),
                n >= 0,
        ;
        let f = rows[j];
        let mut i: usize = 0;
        while i < n
            invariant
                i <= n,
                j < rows.len(),
                n == cols.len(),
                n > 0,
                at == j * n,
                at + n <= items.len(),
                items.len() == rows.len() * n,
                items.len() == old(items).len(),
                f == rows@[j as int],
                outer == Seq::new(
                    rows@.len() * cols@.len(),
                    |i: int| rows@[i / cols@.len() as int].product(cols@[i % cols@.len() as int]),
                ),
                forall|k: int|
                    0 <= k < at + i ==> #[trigger] items@[k] == old(items)@[k].sum(outer[k]),
                forall|k: int|
                    at + i <= k < items.len() ==> #[trigger] items@[k] == old(items)@[k],
            decreases n - i,
        {
            proof {
                vstd::arithmetic::div_mod::lemma_fundamental_div_mod_converse(
                    at + i,
                    n as int,
                    j as int,
                    i as int,
                );
                assert(outer[at + i] == f.product(cols@[i as int]));
            }
            let v = items[at + i].plus(f.times(cols[i]));
            items.set(at + i, v);
            i += 1;
        }
        at = at + n;
        j += 1;
    }
    assert(items@ =~= added(old(items)@, outer));
}

/// Adds the gradient of one sample.
pub fn accumulate(g: &mut TrainableWeights, x: &[Single], label: usize, w: &TrainableWeights, c: &ForwardCache)
    requires
        sized(w@, x@.len(), w.b1@.len()),
        sized(old(g)@, x@.len(), w.b1@.len()),
        layers(x@, w@, *c),
        label < 4,
    ensures
        final(g)@ == added_weights(old(g)@, gradient(x@, label as int, w@, *c)),
{
    let h: usize = w.b1.len();
    assert(c.z@.len() == h && c.a@.len() == h && c.y@.len() == h);
    let ghost dl = logit_slopes(c.probs@, label as int);
    let ghost dys = output_slopes(dl, w.w2@, h as nat);
    let mut slopes: Vec<Single> = Vec::new();
    let mut k: usize = 0;
    while k < 4
        invariant
            k <= 4,
            label < 4,
            dl == logit_slopes(c.probs@, label as int),
            slopes@ == dl.take(k as int),
        decreases 4 - k,
    {
        slopes.push(c.probs[k].minus(Single { bits: if k == label { ONE } else { 0 } }));
        k += 1;
        assert(slopes@ =~= dl.take(k as int));
    }
    assert(slopes@ =~= dl);
    let mut dy: Vec<Single> = Vec::new();
    let mut j: usize = 0;
    while j < h
        invariant
            j <= h,
            h == w.b1.len(),
            w.w2.len() == 4 * h,
            slopes@ == dl,
            dl.len() == 4,
            dys == output_slopes(dl, w.w2@, h as nat),
            dy@ == dys.take(j as int),
        decreases h - j,
    {
        let terms = [
            slopes[0].times(w.w2[j]),
            slopes[1].times(w.w2[h + j]),
            slopes[2].times(w.w2[2 * h + j]),
            slopes[3].times(w.w2[3 * h + j]),
        ];
        proof {
            let want = Seq::new(4, |k: int| dl[k].product(w.w2@[k * (h as nat) + j]));
            assert(terms@ =~= want) by {
                assert(0 * (h as nat) + j == j);
                assert(1 * (h as nat) + j == h + j);
            }
        }
        dy.push(sum_of(&terms));
        j += 1;
        assert(dy@ =~= dys.take(j as int));
    }
    assert(dy@ =~= dys);
    let mean_dy = mean_of(&dy);
    let mut hats: Vec<Single> = Vec::new();
    let mut weighted: Vec<Single> = Vec::new();
    let mut moments: Vec<Single> = Vec::new();
    let mut i: usize = 0;
    while i < h
        invariant
            i <= h,
            c.a.len() == h,
            dy.len() == h,
            hats@ == Seq::new(i as nat, |j: int| centred(*c, j)),
            weighted@ == Seq::new(i as nat, |j: int| dy@[j].product(centred(*c, j))),
            moments@ == Seq::new(
                i as nat,
                |j: int| dy@[j].product(c.a@[j].difference(c.mu)).product(c.inv_std),
            ),
        decreases h - i,
    {
        let d = c.a[i].minus(c.mu);
        let hat = d.times(c.inv_std);
        hats.push(hat);
        weighted.push(dy[i].times(hat));
        moments.push(dy[i].times(d).times(c.inv_std));
        i += 1;
        assert(hats@ =~= Seq::new(i as nat, |j: int| centred(*c, j)));
        assert(weighted@ =~= Seq::new(i as nat, |j: int| dy@[j].product(centred(*c, j))));
        assert(moments@ =~= Seq::new(
            i as nat,
            |j: int| dy@[j].product(c.a@[j].difference(c.mu)).product(c.inv_std),
        ));
    }
    let moment = mean_of(&moments);
    let mut dz: Vec<Single> = Vec::new();
    let mut m: usize = 0;
    while m < h
        invariant
            m <= h,
            h == w.b1.len(),
            w.ln_g.len() == h,
            c.z.len() == h,
            c.t.len() == h,
            dy.len() == h,
            hats.len() == h,
            mean_dy == mean(dy@),
            moment == slope_moment(dy@, *c),
            hats@ == Seq::new(h as nat, |j: int| centred(*c, j)),
            dz@ == Seq::new(m as nat, |j: int| hidden_slope(dy@, w@, *c, j)),
        decreases h - m,
    {
        let da = c.inv_std.times(
            dy[m].minus(mean_dy).minus(hats[m].times(moment)),
        ).times(w.ln_g[m]);
        dz.push(da.times(activation_slope(c.z[m], c.t[m])));
        m += 1;
        assert(dz@ =~= Seq::new(m as nat, |j: int| hidden_slope(dy@, w@, *c, j)));
    }
    let ghost want = gradient(x@, label as int, w@, *c);
    add_outer(&mut g.w2, &slopes, &c.y);
    add_all(&mut g.b2, &slopes);
    add_all(&mut g.ln_g, &weighted);
    add_all(&mut g.ln_b, &dy);
    add_outer(&mut g.w1, &dz, x);
    add_all(&mut g.b1, &dz);
    proof {
        assert(want.w1 =~= Seq::new(
            dz@.len() * x@.len(),
            |i: int| dz@[i / x@.len() as int].product(x@[i % x@.len() as int]),
        )) by {
            assert forall|i: int| 0 <= i < h * x@.len() implies #[trigger] want.w1[i]
                == dz@[i / x@.len() as int].product(x@[i % x@.len() as int]) by {
                let n = x@.len() as int;
                assert(0 <= i / n < h) by (nonlinear_arith)
                    requires
                        0 <= i < h * n,
                        n > 0,
                ;
            }
        }
        assert(want.w2 =~= Seq::new(
            slopes@.len() * c.y@.len(),
            |i: int| slopes@[i / c.y@.len() as int].product(c.y@[i % c.y@.len() as int]),
        ));
        assert(want.b1 =~= dz@);
        assert(want.ln_g =~= weighted@);
    }
}

proof fn lemma_dot_unit(acc: Single, w: Seq<Single>, x: Seq<Single>, k: int, n: int)
    requires
        0 <= n <= x.len() == w.len(),
        0 <= k,
        !acc.nan() && !acc.infinite(),
        forall|i: int|
            0 <= i < x.len() ==> (#[trigger] x[i]).bits == if i == k {
                ONE
            } else {
                0
            },
        forall|i: int| 0 <= i < w.len() ==> !(#[trigger] w[i]).nan() && !w[i].infinite(),
        k < w.len() ==> !acc.sum(w[k]).infinite(),
    ensures
        ({
            let out = dot(acc, w, x, n);
            &&& !out.nan() && !out.infinite()
            &&& out.order() == if k < n {
                acc.sum(w[k]).order()
            } else {
                acc.order()
            }
        }),
    decreases n,
{
    single::lemma_span(0, 0);
    if n > 0 {
        lemma_dot_unit(acc, w, x, k, n - 1);
        let before = dot(acc, w, x, n - 1);
        let i = n - 1;
        let p = w[i].product(x[i]);
        assert(!w[i].nan() && !w[i].infinite());
        assert(x[i].bits == if i == k {
            ONE
        } else {
            0
        });
        if i == k {
            bounds::one_changes_nothing(w[i]);
            assert(before.value() == acc.value()) by {
                lemma_same_order(before, acc);
            }
            lemma_sum_by_value(before, acc, p, w[i]);
        } else {
            assert(p.magnitude() == 0);
            if before.magnitude() > 0 {
                bounds::zero_adds_nothing(before, p);
            }
        }
    }
}

proof fn lemma_same_order(a: Single, b: Single)
    requires
        a.order() == b.order(),
    ensures
        a.value() == b.value(),
{
    single::lemma_span(0, 0);
}

proof fn lemma_sum_by_value(a: Single, b: Single, x: Single, y: Single)
    requires
        !a.nan() && !a.infinite() && !b.nan() && !b.infinite(),
        !x.nan() && !x.infinite() && !y.nan() && !y.infinite(),
        a.value() == b.value(),
        x.order() == y.order(),
        !b.sum(y).infinite(),
    ensures
        a.sum(x).order() == b.sum(y).order(),
        !a.sum(x).nan() && !a.sum(x).infinite(),
{
    lemma_same_order(x, y);
    let v = a.value() + x.value();
    if v != 0 {
        single::rounded_is_nearest(single::abs(v), 1);
    }
}

/// Weights stand row by row, one row per output: an input of one at a place,
/// and of zero at all others, gives each output its bias and the weight that
/// it has for the place.
pub proof fn weights_stand_row_by_row(
    w: Seq<Single>,
    b: Seq<Single>,
    x: Seq<Single>,
    outputs: nat,
    j: int,
    k: int,
)
    requires
        0 <= j < outputs == b.len(),
        0 <= k < x.len(),
        w.len() == outputs * x.len(),
        forall|i: int|
            0 <= i < x.len() ==> (#[trigger] x[i]).bits == if i == k {
                ONE
            } else {
                0
            },
        forall|i: int| 0 <= i < w.len() ==> !(#[trigger] w[i]).nan() && !w[i].infinite(),
        !b[j].nan() && !b[j].infinite(),
        !b[j].sum(w[j * x.len() + k]).infinite(),
    ensures
        linear(w, b, x, outputs).len() == outputs,
        linear(w, b, x, outputs)[j].order() == b[j].sum(w[j * x.len() + k]).order(),
{
    let n = x.len() as int;
    assert(0 <= j * n && (j + 1) * n <= w.len() && (j + 1) * n == j * n + n) by (nonlinear_arith)
        requires
            0 <= j < outputs,
            n >= 0,
            w.len() == outputs * n,
    ;
    let row = w.subrange(j * n, (j + 1) * n);
    assert forall|i: int| 0 <= i < row.len() implies !(#[trigger] row[i]).nan()
        && !row[i].infinite() by {
        assert(row[i] == w[j * n + i]);
    }
    assert(row[k] == w[j * n + k]);
    lemma_dot_unit(b[j], row, x, k, n);
}

/// The activation passes a number on where the tangent is one, and nothing of
/// it where the tangent is minus one.
pub proof fn activations_open_and_close(x: Single, a: int, b: int)
    requires
        bounds::between(x, a, b),
        -100 <= a,
        b <= 100,
    ensures
        gelu(x, Single { bits: ONE }) == x,
        gelu(x, Single { bits: ONE }.negated()).magnitude() == 0,
        gelu(x.negated(), Single { bits: ONE }) == x.negated(),
{
    let one = Single { bits: ONE };
    let half = Single { bits: HALF };
    bounds::halves_double_back(x);
    assert(one.negated().value() == -one.value());
    single::lemma_span(0, 0);
    bounds::powers_are_exact(0);
    assert(one.sum(one.negated()).magnitude() == 0);
    bounds::products_are_bounded(half, x, -1, -1, a, b);
    assert(half.product(x).product(one.sum(one.negated())).magnitude() == 0);
    bounds::signs_are_taken_along(x, half);
    bounds::products_are_bounded(half, x, -1, -1, a, b);
    let two = one.sum(one);
    bounds::one_and_one();
    bounds::signs_are_taken_along(half.product(x), two);
}

/// An item at the mean is normalised to its offset, whatever its gain.
pub proof fn the_mean_becomes_the_offset(
    s: Seq<Single>,
    mu: Single,
    inv: Single,
    gain: Seq<Single>,
    offset: Seq<Single>,
    j: int,
)
    requires
        0 <= j < s.len(),
        s[j] == mu,
        !mu.nan() && !mu.infinite(),
        !inv.nan() && !inv.infinite(),
        !gain[j].nan() && !gain[j].infinite(),
        !offset[j].nan() && !offset[j].infinite(),
    ensures
        normalized(s, mu, inv, gain, offset).len() == s.len(),
        normalized(s, mu, inv, gain, offset)[j].order() == offset[j].order(),
{
    single::lemma_span(0, 0);
    assert(mu.negated().value() == -mu.value());
    let d = mu.difference(mu);
    assert(d.magnitude() == 0);
    let p = d.product(inv).product(gain[j]);
    assert(p.magnitude() == 0);
    if offset[j].magnitude() > 0 {
        bounds::zero_adds_nothing(offset[j], p);
    }
}

/// The slope of the loss pulls the label up and everything else down: by its
/// probability at a tier that is not the label, and below zero at the label.
pub proof fn slopes_favour_the_label(
    x: Seq<Single>,
    label: int,
    w: WeightsView,
    c: ForwardCache,
    k: int,
)
    requires
        0 <= label < 4,
        0 <= k < 4,
        !c.probs@[k].negative(),
        c.probs@[k].magnitude() <= ONE,
    ensures
        k != label ==> gradient(x, label, w, c).b2[k].order() == c.probs@[k].order(),
        k == label ==> {
            let s = gradient(x, label, w, c).b2[k];
            &&& s.order() <= 0
            &&& s.order() == 0 <==> c.probs@[k].magnitude() == ONE
        },
{
    let p = c.probs@[k];
    let one = Single { bits: ONE };
    let zero = Single { bits: 0 };
    single::lemma_span(0, 0);
    bounds::powers_are_exact(0);
    assert(zero.negated().magnitude() == 0);
    assert(one.negated().value() == -one.value());
    if k != label {
        if p.magnitude() > 0 {
            bounds::zero_adds_nothing(p, zero.negated());
        }
    } else {
        if p.magnitude() < ONE {
            single::span_increasing(p.magnitude(), ONE as int);
            let v = one.value() - p.value();
            single::lemma_span(0, 1);
            lemma2_to64();
            assert(single::span(1) == 1);
            single::rounding_respects_order(v, 1, 1);
            single::rounded_is_nearest(v, 1);
        }
    }
}

/// The sum of `n` times the same power of two counts `n` of it.
proof fn lemma_total_power(s: Seq<Single>, k: int)
    requires
        0 < s.len() < 0x100_0000,
        -100 <= k <= 50,
        forall|j: int| 0 <= j < s.len() ==> (#[trigger] s[j]).bits == bounds::power(k),
    ensures
        !postprocess::total(s).negative(),
        0 < postprocess::total(s).magnitude() < single::INFINITE,
        single::span(postprocess::total(s).magnitude()) == s.len() * pow2((k + 149) as nat),
    decreases s.len(),
{
    let n = s.len() as int;
    let e = k + 149;
    let u = pow2(e as nat) as int;
    lemma_pow2_pos(e as nat);
    bounds::powers_are_exact(k);
    single::lemma_span(0, 0);
    let rest = s.drop_last();
    let before = postprocess::total(rest);
    assert(s.last().value() == u);
    if rest.len() > 0 {
        assert forall|j: int| 0 <= j < rest.len() implies (#[trigger] rest[j]).bits
            == bounds::power(k) by {
            assert(rest[j] == s[j]);
        }
        lemma_total_power(rest, k);
    } else {
        assert(before.magnitude() == 0);
        assert(before.value() == 0);
    }
    assert((n - 1) * u + u == n * u) by (nonlinear_arith);
    assert(n * u > 0) by (nonlinear_arith)
        requires
            n > 0,
            u > 0,
    ;
    if rest.len() == 0 {
        assert((n - 1) * u == 0) by (nonlinear_arith)
            requires
                n == 1,
        ;
    }
    let m = single::lemma_exact(n, e);
    assert(single::span(m) == n * u);
    assert(before.value() + s.last().value() == n * u);
    single::rounding_respects_order(n * u, 1, m);
}

/// The mean of numbers that are all the same power of two is that power.
pub proof fn equal_powers_average_to_themselves(s: Seq<Single>, k: int)
    requires
        0 < s.len() < 0x100_0000,
        -100 <= k <= 50,
        forall|j: int| 0 <= j < s.len() ==> (#[trigger] s[j]).bits == bounds::power(k),
    ensures
        mean(s).bits == bounds::power(k),
{
    let n = s.len() as int;
    let u = pow2((k + 149) as nat) as int;
    let one = pow2(149) as int;
    lemma_pow2_pos((k + 149) as nat);
    lemma_pow2_pos(149);
    lemma_total_power(s, k);
    single::small_counts_are_exact(n);
    bounds::powers_are_exact(k);
    single::lemma_span(0, 0);
    let count = Single::counted(n);
    assert(n * one > 0 && n * u > 0) by (nonlinear_arith)
        requires
            n > 0,
            u > 0,
            one > 0,
    ;
    let m = bounds::power(k);
    assert((n * u) * one == u * (n * one)) by (nonlinear_arith);
    assert((n * u) * one >= 0) by (nonlinear_arith)
        requires
            n * u > 0,
            one > 0,
    ;
    single::rounding_respects_order((n * u) * one, n * one, m);
}

/// Numbers that all lie a power of two off their mean are brought to a spread
/// of one, within a factor of two; a spread that is next to none is widened
/// only so far.
pub proof fn spreads_are_brought_to_one(s: Seq<Single>, mu: Single, k: int)
    requires
        0 < s.len() < 0x100_0000,
        -40 <= k <= 25,
        forall|j: int|
            0 <= j < s.len() ==> {
                let d = (#[trigger] s[j]).difference(mu);
                !d.nan() && d.magnitude() == bounds::power(k)
            },
    ensures
        k >= 0 ==> bounds::between(inverse_deviation(s, mu), -k - 1, -k),
        k <= -10 ==> bounds::between(inverse_deviation(s, mu), 7, 9),
{
    let sq = squares(s, mu);
    let eps = Single { bits: LN_EPS };
    assert forall|j: int| 0 <= j < sq.len() implies (#[trigger] sq[j]).bits == bounds::power(
        2 * k,
    ) by {
        let d = s[j].difference(mu);
        let size = Single { bits: bounds::power(k) as u32 };
        bounds::powers_are_exact(k);
        bounds::products_are_bounded(size, size, k, k, k, k);
        assert(d.product(d) == size.product(size));
    }
    equal_powers_average_to_themselves(sq, 2 * k);
    bounds::powers_are_exact(2 * k);
    let m = mean(sq);
    let one = Single { bits: ONE };
    assert(bounds::between(m, 2 * k, 2 * k));
    assert(bounds::between(eps, -17, -16));
    assert(bounds::between(one, 0, 0));
    if k >= 0 {
        bounds::sums_are_bounded(m, eps, 2 * k, 2 * k, -17, -16);
        assert(bounds::between(m.sum(eps), 2 * k, 2 * (k + 1)));
        bounds::roots_are_bounded(m.sum(eps), k, k + 1);
        bounds::quotients_are_bounded(one, m.sum(eps).square_root(), 0, 0, k, k + 1);
    } else if k <= -10 {
        bounds::sums_are_bounded(eps, m, -17, -16, 2 * k, 2 * k);
        assert(m.sum(eps) == eps.sum(m));
        assert(bounds::between(m.sum(eps), 2 * (-9), 2 * (-7)));
        bounds::roots_are_bounded(m.sum(eps), -9, -7);
        bounds::quotients_are_bounded(one, m.sum(eps).square_root(), 0, 0, -9, -7);
    }
}

/// The argument of the tangent is the number itself, near enough, while it is
/// small, and grows with its cube when it is large.
pub proof fn arguments_grow_cubically(x: Single, k: int)
    requires
        bounds::between(x, k, k),
        -30 <= k <= 30,
    ensures
        k <= 2 ==> bounds::between(gelu_argument(x), k - 1, k + 1),
        k >= 3 ==> bounds::between(gelu_argument(x), 3 * k - 6, 3 * k - 3),
{
    let c = Single { bits: CUBIC };
    let f = Single { bits: SQRT_2_OVER_PI };
    assert(bounds::between(c, -5, -4));
    assert(bounds::between(f, -1, 0));
    bounds::products_are_bounded(c, x, -5, -4, k, k);
    bounds::products_are_bounded(c.product(x), x, k - 5, k - 4, k, k);
    bounds::products_are_bounded(c.product(x).product(x), x, 2 * k - 5, 2 * k - 4, k, k);
    let cube = c.product(x).product(x).product(x);
    if k <= 2 {
        bounds::sums_are_bounded(x, cube, k, k, 3 * k - 5, 3 * k - 4);
        bounds::products_are_bounded(f, x.sum(cube), -1, 0, k, k + 1);
    } else {
        bounds::sums_are_bounded(cube, x, 3 * k - 5, 3 * k - 4, k, k);
        assert(x.sum(cube) == cube.sum(x));
        bounds::products_are_bounded(f, x.sum(cube), -1, 0, 3 * k - 5, 3 * k - 3);
    }
}

/// The activation rises as the number where it is open, and not at all where it
/// is closed; in between it rises with the cube of the number.
pub proof fn activations_rise(x: Single, k: int)
    requires
        bounds::between(x, k, k),
        -30 <= k <= 30,
    ensures
        gelu_slope(x, Single { bits: ONE }).bits == ONE,
        gelu_slope(x, Single { bits: ONE }.negated()).magnitude() == 0,
        k >= 2 ==> bounds::between(gelu_slope(x, Single { bits: 0 }), 3 * k - 5, 3 * k - 1),
{
    let one = Single { bits: ONE };
    let half = Single { bits: HALF };
    let zero = Single { bits: 0 };
    let c = Single { bits: THREE }.product(Single { bits: CUBIC });
    let f = Single { bits: SQRT_2_OVER_PI };
    single::lemma_span(0, 0);
    bounds::powers_are_exact(0);
    bounds::powers_are_exact(-1);
    assert(bounds::between(one, 0, 0) && bounds::between(half, -1, -1));
    assert(bounds::between(f, -1, 0));
    lemma_three_times();
    bounds::products_are_bounded(c, x, -3, -2, k, k);
    bounds::products_are_bounded(c.product(x), x, k - 3, k - 2, k, k);
    let square = c.product(x).product(x);
    if 2 * k - 2 >= 0 {
        bounds::sums_are_bounded(square, one, 2 * k - 3, 2 * k - 2, 0, 0);
        assert(one.sum(square) == square.sum(one));
        bounds::products_are_bounded(f, one.sum(square), -1, 0, 2 * k - 3, 2 * k - 1);
    } else {
        bounds::sums_are_bounded(one, square, 0, 0, 2 * k - 3, 2 * k - 2);
        bounds::products_are_bounded(f, one.sum(square), -1, 0, 0, 1);
    }
    let inner = f.product(one.sum(square));
    assert(!inner.nan() && !inner.infinite());
    bounds::products_are_bounded(half, x, -1, -1, k, k);
    let hx = half.product(x);
    assert(one.negated().negated() == one);
    assert(one.negated().value() == -one.value());
    // The tangent is one, or minus one.
    bounds::one_changes_nothing(one);
    bounds::signs_are_taken_along(one, one);
    assert(one.negated().product(one.negated()) == one.product(one));
    let gone = one.difference(one);
    assert(gone.magnitude() == 0);
    let none = hx.product(gone).product(inner);
    assert(none.magnitude() == 0);
    bounds::one_and_one();
    bounds::halves_double_back(one);
    bounds::one_changes_nothing(half);
    let two = one.sum(one);
    assert(half.product(one) == half);
    assert(half.product(two) == one);
    bounds::zero_adds_nothing(one, none);
    assert(one.sum(one.negated()).magnitude() == 0);
    let closed = half.product(one.sum(one.negated()));
    assert(closed.magnitude() == 0);
    assert(closed.sum(none).magnitude() == 0);
    // The tangent is zero.
    if k >= 2 {
        assert(zero.product(zero).magnitude() == 0);
        bounds::zero_adds_nothing(one, zero);
        bounds::zero_adds_nothing(one, zero.product(zero).negated());
        bounds::products_are_bounded(hx, one, k - 1, k - 1, 0, 0);
        bounds::products_are_bounded(
            hx.product(one),
            inner,
            k - 1,
            k - 1,
            2 * k - 4,
            2 * k - 1,
        );
        let rise = hx.product(one).product(inner);
        bounds::sums_are_bounded(rise, half, 3 * k - 5, 3 * k - 2, -1, -1);
        assert(half.sum(rise) == rise.sum(half));
    }
}

proof fn lemma_three_times()
    ensures
        bounds::between(
            (Single { bits: THREE }).product(Single { bits: CUBIC }),
            -3,
            -2,
        ),
{
    let three = Single { bits: THREE };
    let c = Single { bits: CUBIC };
    let p = three.product(c);
    lemma2_to64();
    lemma_pow2_pos(149);
    lemma_pow2_pos(121);
    lemma_pow2_pos(127);
    single::lemma_span(127, 0xc0_0000);
    single::lemma_span(121, 0xb7_2713);
    assert(single::span(three.magnitude()) == 0xc0_0000 * pow2(127));
    assert(single::span(c.magnitude()) == 0xb7_2713 * pow2(121));
    lemma_pow2_adds(127, 121);
    lemma_pow2_adds(149, 99);
    lemma_pow2_pos(99);
    let (a, b) = (pow2(127) as int, pow2(121) as int);
    assert((0xc0_0000 * a) * (0xb7_2713 * b) == (0xc0_0000 * 0xb7_2713) * (a * b))
        by (nonlinear_arith);
    bounds::powers_are_exact(-3);
    bounds::powers_are_exact(-2);
    lemma_pow2_adds(32, 15);
    lemma_pow2_adds(32, 16);
    lemma_pow2_adds(99, 47);
    lemma_pow2_adds(99, 48);
    let (s, t, u) = (pow2(146) as int, pow2(147) as int, pow2(149) as int);
    let low = pow2(99) as int;
    assert(pow2(47) == 0x8000_0000_0000 && pow2(48) == 0x1_0000_0000_0000);
    let num = (0xc0_0000 * 0xb7_2713) * (a * b);
    assert(a * b == u * low);
    assert(s * u <= num <= t * u) by (nonlinear_arith)
        requires
            num == (0xc0_0000 * 0xb7_2713) * (u * low),
            s == low * 0x8000_0000_0000,
            t == low * 0x1_0000_0000_0000,
            low > 0,
            u > 0,
    ;
    assert(num >= 0) by (nonlinear_arith)
        requires
            s * u <= num,
            s >= 0,
            u >= 0,
    ;
    single::rounding_respects_order(num, u, bounds::power(-3));
    single::rounding_respects_order(num, u, bounds::power(-2));
}

/// A weight learns from its own input and for its own output: nothing where
/// the input is zero, and as much as the bias of the output where it is one.
pub proof fn weights_learn_from_their_input(
    x: Seq<Single>,
    label: int,
    w: WeightsView,
    c: ForwardCache,
    j: int,
    i: int,
    k: int,
)
    requires
        0 <= j < w.b1.len(),
        0 <= i < x.len(),
        0 <= k < 4,
    ensures
        ({
            let g = gradient(x, label, w, c);
            let (n, h) = (x.len() as int, w.b1.len() as int);
            &&& g.w1.len() == h * n && 0 <= j * n + i < h * n
            &&& g.w2.len() == 4 * h && 0 <= k * h + j < 4 * h
            &&& !g.b1[j].nan() && !g.b1[j].infinite() ==> {
                &&& x[i].magnitude() == 0 ==> g.w1[j * n + i].magnitude() == 0
                &&& x[i].bits == ONE ==> g.w1[j * n + i] == g.b1[j]
            }
            &&& !g.b2[k].nan() && !g.b2[k].infinite() ==> {
                &&& c.y@[j].magnitude() == 0 ==> g.w2[k * h + j].magnitude() == 0
                &&& c.y@[j].bits == ONE ==> g.w2[k * h + j] == g.b2[k]
            }
        }),
{
    let g = gradient(x, label, w, c);
    let (n, h) = (x.len() as int, w.b1.len() as int);
    lemma_place_in_row(j, i, h, n);
    lemma_place_in_row(k, j, 4, h);
    if !g.b1[j].nan() && !g.b1[j].infinite() && x[i].bits == ONE {
        bounds::one_changes_nothing(g.b1[j]);
    }
    if !g.b2[k].nan() && !g.b2[k].infinite() && c.y@[j].bits == ONE {
        bounds::one_changes_nothing(g.b2[k]);
    }
}

proof fn lemma_place_in_row(j: int, i: int, rows: int, n: int)
    requires
        0 <= j < rows,
        0 <= i < n,
    ensures
        0 <= j * n + i < rows * n,
        (j * n + i) / n == j,
        (j * n + i) % n == i,
{
    assert(0 <= j * n + i < rows * n) by (nonlinear_arith)
        requires
            0 <= j < rows,
            0 <= i < n,
    ;
    lemma_fundamental_div_mod_converse(j * n + i, n, j, i);
}

/// The slope of an output comes back to a hidden item by the weight that joins
/// them: an item that weighs one for one output, and nothing for the others,
/// has the slope of that output.
pub proof fn slopes_come_back_by_their_weights(
    x: Seq<Single>,
    label: int,
    w: WeightsView,
    c: ForwardCache,
    j: int,
    k: int,
)
    requires
        0 <= j < w.b1.len(),
        0 <= k < 4,
        forall|i: int|
            0 <= i < 4 ==> {
                let s = #[trigger] logit_slopes(c.probs@, label)[i];
                !s.nan() && !s.infinite()
            },
        forall|i: int|
            0 <= i < 4 ==> (#[trigger] w.w2[i * w.b1.len() + j]).bits == if i == k {
                ONE
            } else {
                0
            },
    ensures
        gradient(x, label, w, c).ln_b[j].order() == gradient(x, label, w, c).b2[k].order(),
{
    let h = w.b1.len();
    let dl = logit_slopes(c.probs@, label);
    let items = Seq::new(4, |i: int| dl[i].product(w.w2[i * h + j]));
    single::lemma_span(0, 0);
    assert forall|i: int| 0 <= i < 4 implies if i == k {
        #[trigger] items[i] == dl[i]
    } else {
        items[i].magnitude() == 0
    } by {
        assert(w.w2[i * h + j].bits == if i == k {
            ONE
        } else {
            0
        });
        bounds::one_changes_nothing(dl[i]);
    }
    lemma_total_lone(items, k);
    assert(gradient(x, label, w, c).ln_b[j] == output_slope(dl, w.w2, h, j));
}

/// The sum of items of which all but one are zero is that one.
proof fn lemma_total_lone(s: Seq<Single>, k: int)
    requires
        forall|i: int|
            0 <= i < s.len() ==> !(#[trigger] s[i]).nan() && !s[i].infinite() && (i == k
                || s[i].magnitude() == 0),
    ensures
        !postprocess::total(s).nan() && !postprocess::total(s).infinite(),
        postprocess::total(s).order() == if 0 <= k < s.len() {
            s[k].order()
        } else {
            0
        },
    decreases s.len(),
{
    single::lemma_span(0, 0);
    if s.len() > 0 {
        let rest = s.drop_last();
        assert forall|i: int| 0 <= i < rest.len() implies !(#[trigger] rest[i]).nan()
            && !rest[i].infinite() && (i == k || rest[i].magnitude() == 0) by {
            assert(rest[i] == s[i]);
        }
        lemma_total_lone(rest, k);
        let before = postprocess::total(rest);
        let last = s.last();
        if last.magnitude() > 0 {
            assert(before.magnitude() == 0);
            bounds::zero_adds_nothing(last, before);
        } else if before.magnitude() > 0 {
            bounds::zero_adds_nothing(before, last);
        }
    }
}

/// A gain learns as the offset beside it where the normalised item is one, and
/// nothing where the item is at the mean.
pub proof fn gains_learn_from_the_normalised(
    x: Seq<Single>,
    label: int,
    w: WeightsView,
    c: ForwardCache,
    j: int,
)
    requires
        0 <= j < w.b1.len(),
        !gradient(x, label, w, c).ln_b[j].nan(),
        !gradient(x, label, w, c).ln_b[j].infinite(),
        !c.mu.nan() && !c.mu.infinite(),
    ensures
        c.a@[j] == c.mu && !c.inv_std.nan() && !c.inv_std.infinite() ==> gradient(
            x,
            label,
            w,
            c,
        ).ln_g[j].magnitude() == 0,
        c.a@[j].difference(c.mu).bits == ONE && c.inv_std.bits == ONE ==> gradient(
            x,
            label,
            w,
            c,
        ).ln_g[j] == gradient(x, label, w, c).ln_b[j],
{
    let dy = gradient(x, label, w, c).ln_b;
    single::lemma_span(0, 0);
    assert(c.mu.negated().value() == -c.mu.value());
    assert(c.mu.difference(c.mu).magnitude() == 0);
    bounds::one_changes_nothing(dy[j]);
    bounds::one_changes_nothing(Single { bits: ONE });
}

/// The normalisation takes out of a slope what it cannot pass on: a slope that
/// is the same everywhere moves only the mean, and a slope along the items
/// moves only their spread; neither reaches the first layer. A slope with no
/// such part reaches it, by the gain and by the slope of the activation.
pub proof fn normalisation_takes_its_part(
    dy: Seq<Single>,
    w: WeightsView,
    c: ForwardCache,
    j: int,
    k: int,
)
    requires
        0 <= j < dy.len() < 0x100_0000,
        !c.mu.nan() && !c.mu.infinite(),
        c.inv_std.bits == ONE,
        !w.ln_g[j].nan() && !w.ln_g[j].infinite(),
        bounds::between(c.z@[j], k, k),
        -30 <= k <= 30,
        c.t@[j].bits == ONE,
        !slope_moment(dy, c).nan() && !slope_moment(dy, c).infinite(),
    ensures
        c.a@[j] == c.mu && (exists|p: int|
            -100 <= p <= 50 && forall|i: int|
                0 <= i < dy.len() ==> (#[trigger] dy[i]).bits == #[trigger] bounds::power(p))
            ==> hidden_slope(dy, w, c, j).magnitude() == 0,
        mean(dy).magnitude() == 0 && (forall|i: int|
            0 <= i < dy.len() ==> (#[trigger] dy[i]).magnitude() == ONE && dy[i]
                == c.a@[i].difference(c.mu)) ==> hidden_slope(dy, w, c, j).magnitude() == 0,
        mean(dy).magnitude() == 0 && c.a@[j] == c.mu && !dy[j].nan() && !dy[j].infinite()
            && w.ln_g[j].bits == ONE ==> hidden_slope(dy, w, c, j).order() == dy[j].order(),
{
    let one = Single { bits: ONE };
    let gain = w.ln_g[j];
    let moment = slope_moment(dy, c);
    activations_rise(c.z@[j], k);
    single::lemma_span(0, 0);
    assert(c.mu.negated().value() == -c.mu.value());
    assert(c.mu.difference(c.mu).magnitude() == 0);
    let taken = centred(c, j).product(moment);
    if c.a@[j] == c.mu {
        assert(taken.magnitude() == 0);
        assert(taken.negated().magnitude() == 0);
        if exists|p: int|
            -100 <= p <= 50 && forall|i: int|
                0 <= i < dy.len() ==> (#[trigger] dy[i]).bits == #[trigger] bounds::power(p) {
            let p = choose|p: int|
                -100 <= p <= 50 && forall|i: int|
                    0 <= i < dy.len() ==> (#[trigger] dy[i]).bits == #[trigger] bounds::power(p);
            equal_powers_average_to_themselves(dy, p);
            bounds::powers_are_exact(p);
            assert(mean(dy) == dy[j]);
            assert(dy[j].negated().value() == -dy[j].value());
            let left = dy[j].difference(mean(dy)).difference(taken);
            assert(left.magnitude() == 0);
            assert(one.product(left).magnitude() == 0);
            assert(one.product(left).product(gain).magnitude() == 0);
            assert(one.product(left).product(gain).product(one).magnitude() == 0);
        }
        if mean(dy).magnitude() == 0 && !dy[j].nan() && !dy[j].infinite() && gain == one {
            assert(mean(dy).negated().magnitude() == 0);
            let left = dy[j].difference(mean(dy));
            if dy[j].magnitude() > 0 {
                bounds::zero_adds_nothing(dy[j], mean(dy).negated());
                bounds::zero_adds_nothing(dy[j], taken.negated());
                assert(one.product(dy[j]) == dy[j].product(one));
            }
            bounds::one_changes_nothing(dy[j]);
        }
    }
    if mean(dy).magnitude() == 0 && (forall|i: int|
        0 <= i < dy.len() ==> (#[trigger] dy[i]).magnitude() == ONE && dy[i]
            == c.a@[i].difference(c.mu)) {
        let parts = Seq::new(
            dy.len(),
            |i: int| dy[i].product(c.a@[i].difference(c.mu)).product(c.inv_std),
        );
        bounds::one_changes_nothing(one);
        assert forall|i: int| 0 <= i < parts.len() implies (#[trigger] parts[i]).bits
            == bounds::power(0) by {
            assert(dy[i].magnitude() == ONE);
            assert(dy[i].product(dy[i]) == one.product(one));
        }
        equal_powers_average_to_themselves(parts, 0);
        assert(moment == one);
        bounds::one_changes_nothing(dy[j]);
        assert(taken == dy[j]);
        assert(mean(dy).negated().magnitude() == 0);
        bounds::zero_adds_nothing(dy[j], mean(dy).negated());
        assert(dy[j].negated().value() == -dy[j].value());
        let left = dy[j].difference(mean(dy)).difference(taken);
        assert(left.magnitude() == 0);
        assert(one.product(left).magnitude() == 0);
        assert(one.product(left).product(gain).magnitude() == 0);
        assert(one.product(left).product(gain).product(one).magnitude() == 0);
    }
}

/// A slope reaches the first layer by the gain and by the spread: each scales
/// it.
pub proof fn slopes_scale_with_gain_and_spread(
    dy: Seq<Single>,
    w: WeightsView,
    c: ForwardCache,
    j: int,
    k: int,
    p: int,
    q: int,
    a: int,
    b: int,
)
    requires
        0 <= j < dy.len(),
        !c.mu.nan() && !c.mu.infinite(),
        c.a@[j] == c.mu,
        mean(dy).magnitude() == 0,
        !slope_moment(dy, c).nan() && !slope_moment(dy, c).infinite(),
        bounds::between(c.z@[j], k, k),
        -30 <= k <= 30,
        c.t@[j].bits == ONE,
        bounds::between(c.inv_std, p, p),
        -30 <= p <= 30,
        bounds::between(w.ln_g[j], q, q),
        -30 <= q <= 30,
        bounds::between(dy[j], a, b),
        -30 <= a,
        b <= 30,
    ensures
        bounds::between(hidden_slope(dy, w, c, j), a + p + q, b + p + q),
{
    let one = Single { bits: ONE };
    activations_rise(c.z@[j], k);
    single::lemma_span(0, 0);
    bounds::powers_are_exact(p);
    assert(c.mu.negated().value() == -c.mu.value());
    assert(c.mu.difference(c.mu).magnitude() == 0);
    let taken = centred(c, j).product(slope_moment(dy, c));
    assert(taken.negated().magnitude() == 0);
    assert(mean(dy).negated().magnitude() == 0);
    bounds::zero_adds_nothing(dy[j], mean(dy).negated());
    bounds::zero_adds_nothing(dy[j], taken.negated());
    bounds::products_are_bounded(c.inv_std, dy[j], p, p, a, b);
    let spread = c.inv_std.product(dy[j]);
    bounds::products_are_bounded(spread, w.ln_g[j], a + p, b + p, q, q);
    bounds::one_changes_nothing(spread.product(w.ln_g[j]));
}

/// Near zero the activation rises by a half, and by a little more to the right
/// of it: by about four tenths of the number.
pub proof fn activations_rise_from_zero(x: Single, k: int)
    requires
        bounds::between(x, k, k),
        -22 <= k <= -13,
    ensures
        ({
            let s = gelu_slope(x, Single { bits: 0 });
            HALF + pow2((k + 22) as nat) <= s.bits <= HALF + pow2((k + 23) as nat)
        }),
{
    let one = Single { bits: ONE };
    let half = Single { bits: HALF };
    let zero = Single { bits: 0 };
    let c = Single { bits: THREE }.product(Single { bits: CUBIC });
    let f = Single { bits: SQRT_2_OVER_PI };
    single::lemma_span(0, 0);
    lemma_three_times();
    bounds::products_are_bounded(c, x, -3, -2, k, k);
    bounds::products_are_bounded(c.product(x), x, k - 3, k - 2, k, k);
    let square = c.product(x).product(x);
    lemma_next_to_one(square);
    assert(bounds::between(f, -1, 0));
    assert(bounds::between(one, 0, 0) && bounds::between(half, -1, -1));
    bounds::one_changes_nothing(f);
    assert(zero.product(zero).magnitude() == 0);
    bounds::zero_adds_nothing(one, zero);
    bounds::zero_adds_nothing(one, zero.product(zero).negated());
    bounds::one_changes_nothing(half);
    bounds::products_are_bounded(half, x, -1, -1, k, k);
    let hx = half.product(x);
    bounds::one_changes_nothing(hx);
    bounds::products_are_bounded(hx, f, k - 1, k - 1, -1, 0);
    let rise = hx.product(f);
    assert(gelu_slope(x, zero) == half.sum(rise));
    let (low, high) = (pow2((k + 22) as nat) as int, pow2((k + 23) as nat) as int);
    lemma_pow2_pos((k + 22) as nat);
    lemma2_to64();
    lemma_pow2_adds(1, (k + 22) as nat);
    if k + 23 < 23 {
        lemma_pow2_strictly_increases((k + 23) as nat, 23);
    }
    let unit = pow2(125) as int;
    lemma_pow2_pos(125);
    single::lemma_span(125, 0x80_0000);
    single::lemma_span(125, 0x80_0000 + low);
    single::lemma_span(125, 0x80_0000 + high);
    assert(125 * 0x80_0000 + 0x80_0000 == HALF);
    lemma_pow2_adds((k + 22) as nat, 125);
    lemma_pow2_adds((k + 23) as nat, 125);
    bounds::powers_are_exact(k - 2);
    bounds::powers_are_exact(k - 1);
    lemma_monotone(bounds::power(k - 2), rise.magnitude());
    lemma_monotone(rise.magnitude(), bounds::power(k - 1));
    let v = half.value() + rise.value();
    assert((0x80_0000 + low) * unit == 0x80_0000 * unit + low * unit) by (nonlinear_arith);
    assert((0x80_0000 + high) * unit == 0x80_0000 * unit + high * unit) by (nonlinear_arith);
    single::rounding_respects_order(v, 1, HALF + low);
    single::rounding_respects_order(v, 1, HALF + high);
}

proof fn lemma_monotone(a: int, b: int)
    requires
        0 <= a <= b <= single::INFINITE,
    ensures
        single::span(a) <= single::span(b),
{
    if a < b {
        single::span_increasing(a, b);
    }
}

/// What is far below one is lost beside it.
proof fn lemma_next_to_one(x: Single)
    requires
        !x.negative(),
        x.magnitude() <= bounds::power(-26),
    ensures
        (Single { bits: ONE }).sum(x).bits == ONE,
{
    let one = Single { bits: ONE };
    single::lemma_span(0, 0);
    lemma2_to64();
    lemma_pow2_pos(123);
    lemma_pow2_adds(3, 123);
    lemma_monotone(x.magnitude(), bounds::power(-26));
    bounds::powers_are_exact(-26);
    single::lemma_span(126, 0x80_0000);
    single::lemma_span(126, 0x80_0001);
    single::lemma_span(125, 0xff_ffff);
    lemma_pow2_adds(1, 125);
    lemma_pow2_adds(2, 123);
    lemma_pow2_adds(24, 125);
    assert(126 * 0x80_0000 + 0x80_0000 == ONE);
    let v = one.value() + x.value();
    single::rounding_respects_order(v, 1, ONE as int);
    single::rounded_is_nearest(v, 1);
    let r = single::rounded(v, 1);
    if r > ONE {
        lemma_monotone(ONE as int, r - 1);
        lemma_monotone(ONE + 1, r);
    }
}

/// An item is normalised by its distance from the mean, by the spread and by
/// its gain: each scales it.
pub proof fn normalised_items_are_scaled(
    s: Seq<Single>,
    mu: Single,
    inv: Single,
    gain: Seq<Single>,
    offset: Seq<Single>,
    j: int,
    a: int,
    b: int,
    p: int,
    q: int,
)
    requires
        0 <= j < s.len(),
        bounds::between(s[j].difference(mu), a, b),
        bounds::between(inv, p, p),
        bounds::between(gain[j], q, q),
        offset[j].magnitude() == 0,
        -30 <= a,
        b <= 30,
        -30 <= p <= 30,
        -30 <= q <= 30,
    ensures
        bounds::between(normalized(s, mu, inv, gain, offset)[j], a + p + q, b + p + q),
{
    let d = s[j].difference(mu);
    bounds::products_are_bounded(d, inv, a, b, p, p);
    bounds::products_are_bounded(d.product(inv), gain[j], a + p, b + p, q, q);
    let item = d.product(inv).product(gain[j]);
    bounds::powers_are_exact(a + p + q);
    bounds::powers_are_exact(b + p + q);
    bounds::zero_adds_nothing(item, offset[j]);
}

/// A slope along the items, whatever their spread, moves only the spread: it
/// does not reach the first layer.
pub proof fn slopes_along_the_items_are_taken_out(
    dy: Seq<Single>,
    w: WeightsView,
    c: ForwardCache,
    j: int,
    k: int,
    p: int,
)
    requires
        0 <= j < dy.len() < 0x100_0000,
        mean(dy).magnitude() == 0,
        -30 <= p <= 30,
        bounds::between(c.inv_std, p, p),
        forall|i: int|
            0 <= i < dy.len() ==> {
                let d = c.a@[i].difference(c.mu);
                &&& (#[trigger] dy[i]).magnitude() == ONE
                &&& d.negative() == dy[i].negative()
                &&& d.magnitude() == bounds::power(-p)
            },
        !w.ln_g[j].nan() && !w.ln_g[j].infinite(),
        bounds::between(c.z@[j], k, k),
        -30 <= k <= 30,
        c.t@[j].bits == ONE,
    ensures
        hidden_slope(dy, w, c, j).magnitude() == 0,
{
    let one = Single { bits: ONE };
    let step = Single { bits: bounds::power(-p) as u32 };
    let gain = w.ln_g[j];
    activations_rise(c.z@[j], k);
    single::lemma_span(0, 0);
    bounds::powers_are_exact(-p);
    bounds::powers_are_exact(p);
    let parts = Seq::new(
        dy.len(),
        |i: int| dy[i].product(c.a@[i].difference(c.mu)).product(c.inv_std),
    );
    bounds::one_changes_nothing(step);
    bounds::products_are_bounded(step, c.inv_std, -p, -p, p, p);
    assert(one.product(step) == step.product(one));
    assert(step.product(c.inv_std) == one);
    assert forall|i: int| 0 <= i < parts.len() implies (#[trigger] parts[i]).bits == bounds::power(
        0,
    ) by {
        assert(dy[i].magnitude() == ONE);
        assert(dy[i].product(c.a@[i].difference(c.mu)) == one.product(step));
    }
    equal_powers_average_to_themselves(parts, 0);
    assert(slope_moment(dy, c) == one);
    assert(dy[j].magnitude() == ONE);
    let d = c.a@[j].difference(c.mu);
    if d.negative() {
        assert(d == step.negated());
        bounds::signs_are_taken_along(step, c.inv_std);
        assert(dy[j] == one.negated());
    } else {
        assert(d == step);
        assert(dy[j] == one);
    }
    assert(centred(c, j) == dy[j]);
    bounds::one_changes_nothing(dy[j]);
    let taken = centred(c, j).product(slope_moment(dy, c));
    assert(taken == dy[j]);
    assert(mean(dy).negated().magnitude() == 0);
    bounds::zero_adds_nothing(dy[j], mean(dy).negated());
    assert(dy[j].negated().value() == -dy[j].value());
    let left = dy[j].difference(mean(dy)).difference(taken);
    assert(left.magnitude() == 0);
    assert(c.inv_std.product(left).magnitude() == 0);
    assert(c.inv_std.product(left).product(gain).magnitude() == 0);
    assert(c.inv_std.product(left).product(gain).product(one).magnitude() == 0);
}

/// The activation is that of the square root of two over pi, 0.7978846, and of
/// 0.044715; a variance is kept from zero by a hundred-thousandth.
pub proof fn constants_are_decimal()
    ensures
        single::nearest(SQRT_2_OVER_PI as int, 7_978_846int * pow2(149), 10_000_000),
        single::nearest(CUBIC as int, 44_715int * pow2(149), 1_000_000),
        single::nearest(LN_EPS as int, 1int * pow2(149), 100_000),
{
    lemma2_to64();
    lemma2_to64_rest();
    bounds::lemma_fraction(SQRT_2_OVER_PI as int, 7_978_846, 10_000_000);
    bounds::lemma_fraction(CUBIC as int, 44_715, 1_000_000);
    bounds::lemma_fraction(LN_EPS as int, 1, 100_000);
}

/// A sum of products with zeros is what it started from.
proof fn lemma_dot_zeros(acc: Single, w: Seq<Single>, x: Seq<Single>, n: int)
    requires
        0 <= n <= x.len() == w.len(),
        !acc.nan() && !acc.infinite(),
        forall|i: int| 0 <= i < x.len() ==> (#[trigger] x[i]).magnitude() == 0,
        forall|i: int| 0 <= i < w.len() ==> !(#[trigger] w[i]).nan() && !w[i].infinite(),
    ensures
        !dot(acc, w, x, n).nan() && !dot(acc, w, x, n).infinite(),
        dot(acc, w, x, n).order() == acc.order(),
    decreases n,
{
    single::lemma_span(0, 0);
    if n > 0 {
        lemma_dot_zeros(acc, w, x, n - 1);
        let before = dot(acc, w, x, n - 1);
        let p = w[n - 1].product(x[n - 1]);
        assert(!w[n - 1].nan() && !w[n - 1].infinite());
        assert(x[n - 1].magnitude() == 0);
        assert(p.magnitude() == 0);
        if before.magnitude() > 0 {
            bounds::zero_adds_nothing(before, p);
        }
    }
}

/// The outputs are made of the normalised items: where gains and offsets take
/// these to zero, the biases alone decide.
pub proof fn outputs_see_the_normalised<T: Fn(Single) -> Single, X: Fn(Single) -> Single>(
    x: Seq<Single>,
    w: WeightsView,
    tanh: T,
    exp: X,
    c: ForwardCache,
)
    requires
        passed(x, w, tanh, exp, c),
        sized(w, x.len(), w.b1.len()),
        forall|j: int|
            0 <= j < w.b1.len() ==> {
                let d = c.a@[j].difference(c.mu).product(c.inv_std);
                &&& (#[trigger] w.ln_g[j]).magnitude() == 0
                &&& w.ln_b[j].magnitude() == 0
                &&& !d.nan() && !d.infinite()
            },
        forall|i: int| 0 <= i < w.w2.len() ==> !(#[trigger] w.w2[i]).nan() && !w.w2[i].infinite(),
        forall|k: int| 0 <= k < 4 ==> !(#[trigger] w.b2[k]).nan() && !w.b2[k].infinite(),
    ensures
        exists|l: Seq<Single>| #[trigger]
            postprocess::softmax_of(exp, l, c.probs@) && l.len() == 4 && forall|k: int|
                0 <= k < 4 ==> (#[trigger] l[k]).order() == w.b2[k].order(),
{
    let l = logits(w, c.y@);
    let h = w.b1.len() as int;
    single::lemma_span(0, 0);
    assert forall|j: int| 0 <= j < c.y@.len() implies (#[trigger] c.y@[j]).magnitude() == 0 by {
        assert(w.ln_g[j].magnitude() == 0);
        let d = c.a@[j].difference(c.mu).product(c.inv_std);
        assert(d.product(w.ln_g[j]).magnitude() == 0);
    }
    assert forall|k: int| 0 <= k < 4 implies (#[trigger] l[k]).order() == w.b2[k].order() by {
        assert(0 <= k * h && (k + 1) * h <= 4 * h && (k + 1) * h == k * h + h)
            by (nonlinear_arith)
            requires
                0 <= k < 4,
                h >= 0,
        ;
        let row = w.w2.subrange(k * h, (k + 1) * h);
        assert forall|i: int| 0 <= i < row.len() implies !(#[trigger] row[i]).nan()
            && !row[i].infinite() by {
            assert(row[i] == w.w2[k * h + i]);
        }
        assert(!w.b2[k].nan() && !w.b2[k].infinite());
        lemma_dot_zeros(w.b2[k], row, c.y@, h);
    }
    assert(postprocess::softmax_of(exp, l, c.probs@));
}

/// What is normalised is what the activation let through: where it is closed
/// everywhere, the offsets alone are left.
pub proof fn closed_activations_leave_the_offsets<T: Fn(Single) -> Single, X: Fn(Single) -> Single>(
    x: Seq<Single>,
    w: WeightsView,
    tanh: T,
    exp: X,
    c: ForwardCache,
    j: int,
)
    requires
        passed(x, w, tanh, exp, c),
        0 <= j < w.b1.len() < 0x100_0000,
        forall|i: int|
            0 <= i < w.b1.len() ==> {
                &&& (#[trigger] c.t@[i]).bits == 0xbf80_0000
                &&& !c.z@[i].nan() && !c.z@[i].infinite()
            },
        !w.ln_g[j].nan() && !w.ln_g[j].infinite(),
        !w.ln_b[j].nan() && !w.ln_b[j].infinite(),
    ensures
        c.y@[j].order() == w.ln_b[j].order(),
{
    let one = Single { bits: ONE };
    let half = Single { bits: HALF };
    let eps = Single { bits: LN_EPS };
    let n = w.b1.len() as int;
    single::lemma_span(0, 0);
    bounds::powers_are_exact(0);
    assert(one.negated().bits == 0xbf80_0000);
    assert(one.negated().value() == -one.value());
    assert forall|i: int| 0 <= i < c.a@.len() implies (#[trigger] c.a@[i]).magnitude() == 0 by {
        assert(c.t@[i] == one.negated());
        assert(one.sum(c.t@[i]).magnitude() == 0);
        let part = half.product(c.z@[i]);
        lemma_half_is_finite(c.z@[i]);
        assert(part.product(one.sum(c.t@[i])).magnitude() == 0);
    }
    lemma_mean_zeros(c.a@);
    assert(c.mu.magnitude() == 0);
    let sq = squares(c.a@, c.mu);
    assert forall|i: int| 0 <= i < sq.len() implies (#[trigger] sq[i]).magnitude() == 0 by {
        assert(c.a@[i].magnitude() == 0);
        assert(c.mu.negated().magnitude() == 0);
        assert(c.a@[i].difference(c.mu).magnitude() == 0);
    }
    lemma_mean_zeros(sq);
    bounds::zero_adds_nothing(eps, mean(sq));
    assert(bounds::between(eps, 2 * (-9), 2 * (-8)));
    bounds::roots_are_bounded(eps, -9, -8);
    assert(bounds::between(one, 0, 0));
    bounds::quotients_are_bounded(one, eps.square_root(), 0, 0, -9, -8);
    assert(bounds::between(c.inv_std, 8, 9));
    assert(c.a@[j].magnitude() == 0);
    assert(c.mu.negated().magnitude() == 0);
    let d = c.a@[j].difference(c.mu);
    assert(d.magnitude() == 0);
    let p = d.product(c.inv_std).product(w.ln_g[j]);
    assert(p.magnitude() == 0);
    if w.ln_b[j].magnitude() > 0 {
        bounds::zero_adds_nothing(w.ln_b[j], p);
    }
}

proof fn lemma_mean_zeros(s: Seq<Single>)
    requires
        0 < s.len() < 0x100_0000,
        forall|i: int| 0 <= i < s.len() ==> (#[trigger] s[i]).magnitude() == 0,
    ensures
        mean(s).magnitude() == 0,
{
    lemma_total_lone(s, -1);
    single::lemma_span(0, 0);
    let n = s.len() as int;
    single::small_counts_are_exact(n);
    lemma_pow2_pos(149);
    assert(n * pow2(149) > 0) by (nonlinear_arith)
        requires
            n > 0,
            pow2(149) > 0,
    ;
}

proof fn lemma_half_is_finite(x: Single)
    requires
        !x.nan() && !x.infinite(),
    ensures
        !(Single { bits: HALF }).product(x).nan(),
        !(Single { bits: HALF }).product(x).infinite(),
{
    let half = Single { bits: HALF };
    single::lemma_span(0, 0);
    if x.magnitude() > 0 {
        let v = single::span(x.magnitude());
        lemma_monotone(0, x.magnitude());
        bounds::powers_are_exact(-1);
        bounds::powers_are_exact(0);
        let (h, u) = (pow2(148) as int, pow2(149) as int);
        lemma_pow2_pos(148);
        lemma_pow2_adds(1, 148);
        lemma2_to64();
        assert(h * v >= 0 && h * v <= v * u) by (nonlinear_arith)
            requires
                h > 0,
                u == 2 * h,
                v >= 0,
        ;
        single::rounding_respects_order(h * v, u, x.magnitude());
        single::rounded_is_nearest(h * v, u);
    }
}

} // verus!
