//! AdamW: gradient steps with decoupled weight decay.

use crate::bounds;
use crate::head::{TrainableWeights, WeightsView};
use crate::single;
use crate::single::Single;
use vstd::arithmetic::power2::{
    lemma2_to64, lemma2_to64_rest, lemma_pow2_adds, lemma_pow2_pos, pow2,
};
use vstd::prelude::*;

verus! {

/// Bit pattern of one.
pub const ONE: u32 = 0x3f80_0000;

/// Bit pattern of 0.9, the decay of the first moment.
pub const BETA1: u32 = 0x3f66_6666;

/// Bit pattern of 0.999, the decay of the second moment.
pub const BETA2: u32 = 0x3f7f_be77;

/// Bit pattern of 1e-8, added to every root of a second moment.
pub const EPS: u32 = 0x322b_cc77;

/// Optimiser settings and bias corrections.
#[derive(Debug, Clone, Copy)]
pub struct Adam {
    pub lr: Single,
    pub wd: Single,
    /// Number of steps made.
    pub t: u64,
    pub bc1: Single,
    pub bc2: Single,
}

/// The first moment after a gradient.
pub open spec fn first(m: Single, g: Single) -> Single {
    let b = Single { bits: BETA1 };
    b.product(m).sum(Single { bits: ONE }.difference(b).product(g))
}

/// The second moment after a gradient.
pub open spec fn second(v: Single, g: Single) -> Single {
    let b = Single { bits: BETA2 };
    b.product(v).sum(Single { bits: ONE }.difference(b).product(g).product(g))
}

/// The number of steps after one more; the largest count stays.
pub open spec fn counted(t: u64) -> int {
    if t < u64::MAX {
        t + 1
    } else {
        u64::MAX as int
    }
}

/// Whether a bias correction is one less some answer for a decay to the power
/// of the step count.
pub open spec fn corrects<P: Fn(Single, u64) -> Single>(
    powers: P,
    beta: u32,
    t: u64,
    bc: Single,
) -> bool {
    exists|p: Single| #[trigger]
        call_ensures(powers, (Single { bits: beta }, t), p) && bc == Single {
            bits: ONE,
        }.difference(p)
}

impl Adam {
    /// A parameter after a step, given its new moments. The decay is not scaled
    /// by the rate.
    pub open spec fn moved(self, p: Single, m: Single, v: Single) -> Single {
        p.difference(
            self.lr.product(
                m.quotient(self.bc1).quotient(
                    v.quotient(self.bc2).square_root().sum(Single { bits: EPS }),
                ),
            ).sum(self.wd.product(p)),
        )
    }

    /// The first moments after a step.
    pub open spec fn firsts(m: Seq<Single>, g: Seq<Single>) -> Seq<Single> {
        Seq::new(m.len(), |i: int| first(m[i], g[i]))
    }

    /// The second moments after a step.
    pub open spec fn seconds(v: Seq<Single>, g: Seq<Single>) -> Seq<Single> {
        Seq::new(v.len(), |i: int| second(v[i], g[i]))
    }

    /// The parameters after a step.
    pub open spec fn moves(
        self,
        p: Seq<Single>,
        g: Seq<Single>,
        m: Seq<Single>,
        v: Seq<Single>,
    ) -> Seq<Single> {
        Seq::new(p.len(), |i: int| self.moved(p[i], first(m[i], g[i]), second(v[i], g[i])))
    }

    /// An optimiser that has made no step.
    pub fn new(lr: Single, wd: Single) -> (res: Adam)
        ensures
            res.lr == lr,
            res.wd == wd,
            res.t == 0,
            res.bc1.bits == ONE,
            res.bc2.bits == ONE,
    {
        Adam { lr, wd, t: 0, bc1: Single { bits: ONE }, bc2: Single { bits: ONE } }
    }

    /// Counts one step and sets the bias corrections; `powers` gives a number
    /// to the power of the step count.
    pub fn tick<P: Fn(Single, u64) -> Single>(&mut self, powers: &P)
        requires
            forall|b: Single, n: u64| call_requires(*powers, (b, n)),
        ensures
            final(self).t == counted(old(self).t),
            final(self).lr == old(self).lr,
            final(self).wd == old(self).wd,
            corrects(*powers, BETA1, final(self).t, final(self).bc1),
            corrects(*powers, BETA2, final(self).t, final(self).bc2),
    {
        if self.t < u64::MAX {
            self.t = self.t + 1;
        }
        let p1 = powers(Single { bits: BETA1 }, self.t);
        let p2 = powers(Single { bits: BETA2 }, self.t);
        self.bc1 = Single { bits: ONE }.minus(p1);
        self.bc2 = Single { bits: ONE }.minus(p2);
    }

    /// Moves parameters along a gradient, and updates their moments.
    pub fn step(
        &self,
        param: &mut Vec<Single>,
        grad: &[Single],
        m: &mut Vec<Single>,
        v: &mut Vec<Single>,
    )
        requires
            old(param).len() == grad.len(),
            old(m).len() == grad.len(),
            old(v).len() == grad.len(),
        ensures
            final(param)@ == self.moves(old(param)@, grad@, old(m)@, old(v)@),
            final(m)@ == Adam::firsts(old(m)@, grad@),
            final(v)@ == Adam::seconds(old(v)@, grad@),
    {
        let one = Single { bits: ONE };
        let b1 = Single { bits: BETA1 };
        let b2 = Single { bits: BETA2 };
        let n: usize = grad.len();
        let mut i: usize = 0;
        while i < n
            invariant
                i <= n,
                n == grad.len(),
                param.len() == n,
                m.len() == n,
                v.len() == n,
                old(param).len() == n,
                old(m).len() == n,
                old(v).len() == n,
                one.bits == ONE,
                b1.bits == BETA1,
                b2.bits == BETA2,
                forall|k: int|
                    0 <= k < i ==> #[trigger] param@[k] == self.moved(
                        old(param)@[k],
                        first(old(m)@[k], grad@[k]),
                        second(old(v)@[k], grad@[k]),
                    ),
                forall|k: int| 0 <= k < i ==> #[trigger] m@[k] == first(old(m)@[k], grad@[k]),
                forall|k: int| 0 <= k < i ==> #[trigger] v@[k] == second(old(v)@[k], grad@[k]),
                forall|k: int| i <= k < n ==> #[trigger] param@[k] == old(param)@[k],
                forall|k: int| i <= k < n ==> #[trigger] m@[k] == old(m)@[k],
                forall|k: int| i <= k < n ==> #[trigger] v@[k] == old(v)@[k],
            decreases n - i,
        {
            let g = grad[i];
            let mi = b1.times(m[i]).plus(one.minus(b1).times(g));
            let vi = b2.times(v[i]).plus(one.minus(b2).times(g).times(g));
            let p = param[i];
            let m_hat = mi.over(self.bc1);
            let v_hat = vi.over(self.bc2);
            let next = p.minus(
                self.lr.times(m_hat.over(v_hat.root().plus(Single { bits: EPS }))).plus(
                    self.wd.times(p),
                ),
            );
            m.set(i, mi);
            v.set(i, vi);
            param.set(i, next);
            i += 1;
        }
        assert(param@ =~= self.moves(old(param)@, grad@, old(m)@, old(v)@));
        assert(m@ =~= Adam::firsts(old(m)@, grad@));
        assert(v@ =~= Adam::seconds(old(v)@, grad@));
    }

    /// Moves all parameters of a head along a gradient.
    pub fn step_weights(
        &self,
        w: &mut TrainableWeights,
        g: &TrainableWeights,
        m: &mut TrainableWeights,
        v: &mut TrainableWeights,
    )
        requires
            same_sizes(old(w)@, g@),
            same_sizes(old(m)@, g@),
            same_sizes(old(v)@, g@),
        ensures
            final(w)@ == self.moves_weights(old(w)@, g@, old(m)@, old(v)@),
            final(m)@ == firsts_weights(old(m)@, g@),
            final(v)@ == seconds_weights(old(v)@, g@),
            same_sizes(final(w)@, g@),
            same_sizes(final(m)@, g@),
            same_sizes(final(v)@, g@),
    {
        self.step(&mut w.w1, &g.w1, &mut m.w1, &mut v.w1);
        self.step(&mut w.b1, &g.b1, &mut m.b1, &mut v.b1);
        self.step(&mut w.ln_g, &g.ln_g, &mut m.ln_g, &mut v.ln_g);
        self.step(&mut w.ln_b, &g.ln_b, &mut m.ln_b, &mut v.ln_b);
        self.step(&mut w.w2, &g.w2, &mut m.w2, &mut v.w2);
        self.step(&mut w.b2, &g.b2, &mut m.b2, &mut v.b2);
    }

    /// The parameters of a head after a step.
    pub open spec fn moves_weights(
        self,
        w: WeightsView,
        g: WeightsView,
        m: WeightsView,
        v: WeightsView,
    ) -> WeightsView {
        WeightsView {
            w1: self.moves(w.w1, g.w1, m.w1, v.w1),
            b1: self.moves(w.b1, g.b1, m.b1, v.b1),
            ln_g: self.moves(w.ln_g, g.ln_g, m.ln_g, v.ln_g),
            ln_b: self.moves(w.ln_b, g.ln_b, m.ln_b, v.ln_b),
            w2: self.moves(w.w2, g.w2, m.w2, v.w2),
            b2: self.moves(w.b2, g.b2, m.b2, v.b2),
        }
    }
}

/// Whether two sets of parameters have the same sizes.
pub open spec fn same_sizes(a: WeightsView, b: WeightsView) -> bool {
    &&& a.w1.len() == b.w1.len()
    &&& a.b1.len() == b.b1.len()
    &&& a.ln_g.len() == b.ln_g.len()
    &&& a.ln_b.len() == b.ln_b.len()
    &&& a.w2.len() == b.w2.len()
    &&& a.b2.len() == b.b2.len()
}

/// The first moments of a head after a step.
pub open spec fn firsts_weights(m: WeightsView, g: WeightsView) -> WeightsView {
    WeightsView {
        w1: Adam::firsts(m.w1, g.w1),
        b1: Adam::firsts(m.b1, g.b1),
        ln_g: Adam::firsts(m.ln_g, g.ln_g),
        ln_b: Adam::firsts(m.ln_b, g.ln_b),
        w2: Adam::firsts(m.w2, g.w2),
        b2: Adam::firsts(m.b2, g.b2),
    }
}

/// The second moments of a head after a step.
pub open spec fn seconds_weights(v: WeightsView, g: WeightsView) -> WeightsView {
    WeightsView {
        w1: Adam::seconds(v.w1, g.w1),
        b1: Adam::seconds(v.b1, g.b1),
        ln_g: Adam::seconds(v.ln_g, g.ln_g),
        ln_b: Adam::seconds(v.ln_b, g.ln_b),
        w2: Adam::seconds(v.w2, g.w2),
        b2: Adam::seconds(v.b2, g.b2),
    }
}

/// An item of one of the six groups of parameters: weights and biases of the
/// first layer, gains and offsets of the normalisation, weights and biases of
/// the second layer.
pub open spec fn group(w: WeightsView, k: int) -> Seq<Single> {
    if k == 0 {
        w.w1
    } else if k == 1 {
        w.b1
    } else if k == 2 {
        w.ln_g
    } else if k == 3 {
        w.ln_b
    } else if k == 4 {
        w.w2
    } else {
        w.b2
    }
}

/// All groups of parameters are trained alike: wherever two parameters, their
/// gradients and their moments agree, so do they and their moments after a
/// step.
pub proof fn groups_step_alike(
    a: Adam,
    w: WeightsView,
    g: WeightsView,
    m: WeightsView,
    v: WeightsView,
    x: int,
    i: int,
    y: int,
    j: int,
)
    requires
        same_sizes(w, g),
        same_sizes(m, g),
        same_sizes(v, g),
        0 <= x < 6,
        0 <= y < 6,
        0 <= i < group(w, x).len(),
        0 <= j < group(w, y).len(),
        group(w, x)[i] == group(w, y)[j],
        group(g, x)[i] == group(g, y)[j],
        group(m, x)[i] == group(m, y)[j],
        group(v, x)[i] == group(v, y)[j],
    ensures
        group(a.moves_weights(w, g, m, v), x)[i] == group(a.moves_weights(w, g, m, v), y)[j],
        group(firsts_weights(m, g), x)[i] == group(firsts_weights(m, g), y)[j],
        group(seconds_weights(v, g), x)[i] == group(seconds_weights(v, g), y)[j],
{
}

proof fn lemma_complements()
    ensures
        bounds::between(Single { bits: ONE }.difference(Single { bits: BETA1 }), -4, -3),
        bounds::between(Single { bits: ONE }.difference(Single { bits: BETA2 }), -10, -9),
        bounds::between(Single { bits: BETA1 }, -1, 0),
        bounds::between(Single { bits: BETA2 }, -1, 0),
        bounds::between(Single { bits: EPS }, -27, -26),
{
    let p = pow2(125) as int;
    lemma2_to64();
    lemma_pow2_adds(1, 125);
    lemma_pow2_adds(20, 125);
    lemma_pow2_adds(21, 125);
    lemma_pow2_adds(14, 125);
    lemma_pow2_adds(15, 125);
    single::lemma_span(126, 0x80_0000);
    single::lemma_span(125, 0xe6_6666);
    single::lemma_span(125, 0xff_be77);
    bounds::powers_are_exact(-4);
    bounds::powers_are_exact(-3);
    bounds::powers_are_exact(-10);
    bounds::powers_are_exact(-9);
    let one = Single { bits: ONE };
    let (b, c) = (Single { bits: BETA1 }, Single { bits: BETA2 });
    assert(one.value() == 0x100_0000 * p);
    assert(b.value() == 0xe6_6666 * p);
    assert(c.value() == 0xff_be77 * p);
    lemma_pow2_pos(125);
    assert(b.negated().value() == -b.value());
    assert(c.negated().value() == -c.value());
    let (v, w) = (0x19_999a * p, 0x4189 * p);
    single::rounding_respects_order(v, 1, bounds::power(-4));
    single::rounding_respects_order(v, 1, bounds::power(-3));
    single::rounding_respects_order(w, 1, bounds::power(-10));
    single::rounding_respects_order(w, 1, bounds::power(-9));
    assert(one.difference(b) == single::signed(false, single::rounded(v, 1)));
    assert(one.difference(c) == single::signed(false, single::rounded(w, 1)));
}

/// From zero, the first moment takes about a tenth of a gradient and the second
/// about a thousandth of its square, whichever way the gradient points.
pub proof fn moments_follow_the_gradient(g: Single, zero: Single, a: int, b: int)
    requires
        bounds::between(g, a, b),
        zero.magnitude() == 0,
        -50 <= a,
        b <= 50,
    ensures
        bounds::between(first(zero, g), a - 4, b - 3),
        first(zero, g.negated()) == first(zero, g).negated(),
        bounds::between(second(zero, g), 2 * a - 10, 2 * b - 9),
        second(zero, g.negated()) == second(zero, g),
{
    lemma_complements();
    let one = Single { bits: ONE };
    let c1 = one.difference(Single { bits: BETA1 });
    let c2 = one.difference(Single { bits: BETA2 });
    bounds::products_are_bounded(c1, g, -4, -3, a, b);
    bounds::products_are_bounded(c2, g, -10, -9, a, b);
    bounds::products_are_bounded(c2.product(g), g, a - 10, b - 9, a, b);
    bounds::signs_are_taken_along(g, c1);
    bounds::signs_are_taken_along(g, c2);
    bounds::signs_are_taken_along(g, c2.product(g));
    bounds::signs_are_taken_along(c2.product(g), g.negated());
    let x = c1.product(g);
    let y = c2.product(g).product(g);
    let z1 = Single { bits: BETA1 }.product(zero);
    let z2 = Single { bits: BETA2 }.product(zero);
    assert(z1.magnitude() == 0 && z2.magnitude() == 0);
    bounds::zero_adds_nothing(x, z1);
    bounds::zero_adds_nothing(x.negated(), z1);
    bounds::zero_adds_nothing(y, z2);
    let h = g.negated();
    assert(c2.product(h).product(h) == y) by {
        let q = c2.product(g);
        assert(c2.product(h) == q.negated());
        assert(q.negated().product(h) == q.product(h).negated());
        assert(q.product(h) == q.product(g).negated());
        bounds::signs_are_taken_along(y, g);
    }
}

/// Without a gradient the moments fade, and no faster than to a half.
pub proof fn moments_fade(m: Single, zero: Single, a: int, b: int)
    requires
        bounds::between(m, a, b),
        zero.magnitude() == 0,
        -100 <= a,
        b <= 100,
    ensures
        bounds::between(first(m, zero), a - 1, b),
        bounds::between(second(m, zero), a - 1, b),
{
    lemma_complements();
    let (p, q) = (Single { bits: BETA1 }, Single { bits: BETA2 });
    bounds::products_are_bounded(p, m, -1, 0, a, b);
    bounds::products_are_bounded(q, m, -1, 0, a, b);
    let one = Single { bits: ONE };
    let x = one.difference(p).product(zero);
    let y = one.difference(q).product(zero).product(zero);
    assert(x.magnitude() == 0 && y.magnitude() == 0);
    bounds::zero_adds_nothing(p.product(m), x);
    bounds::zero_adds_nothing(q.product(m), y);
}

/// The first step of a parameter that stands at zero goes against its gradient,
/// in every group of parameters, and is of the size of the rate, however steep
/// the gradient is.
pub proof fn first_steps_go_against_the_gradient(
    a: Adam,
    w: WeightsView,
    g: WeightsView,
    m: WeightsView,
    v: WeightsView,
    x: int,
    i: int,
    k: int,
    slow: int,
    fast: int,
)
    requires
        same_sizes(w, g),
        same_sizes(m, g),
        same_sizes(v, g),
        0 <= x < 6,
        0 <= i < group(w, x).len(),
        group(w, x)[i].magnitude() == 0,
        group(m, x)[i].magnitude() == 0,
        group(v, x)[i].magnitude() == 0,
        group(g, x)[i].magnitude() <= bounds::power(k + 1),
        bounds::power(k) <= group(g, x)[i].magnitude(),
        -20 <= k <= 40,
        bounds::between(a.lr, slow, fast),
        -40 <= slow,
        fast <= 40,
        bounds::between(a.bc1, -10, 0),
        bounds::between(a.bc2, -10, 0),
        !a.wd.nan() && !a.wd.infinite(),
    ensures
        ({
            let after = group(a.moves_weights(w, g, m, v), x)[i];
            &&& after.negative() != group(g, x)[i].negative()
            &&& bounds::power(slow - 7) <= after.magnitude() <= bounds::power(fast + 13)
        }),
{
    let grad = group(g, x)[i];
    let zero = group(w, x)[i];
    let size = if grad.negative() {
        grad.negated()
    } else {
        grad
    };
    assert(bounds::between(size, k, k + 1));
    assert(size.negated().negated() == size && (grad == size || grad == size.negated()));
    let (mz, vz) = (group(m, x)[i], group(v, x)[i]);
    moments_follow_the_gradient(size, mz, k, k + 1);
    moments_follow_the_gradient(size, vz, k, k + 1);
    let f = first(mz, size);
    let s = second(vz, grad);
    lemma_complements();
    let eps = Single { bits: EPS };
    bounds::quotients_are_bounded(f, a.bc1, k - 4, k - 2, -10, 0);
    bounds::quotients_are_bounded(s, a.bc2, 2 * k - 10, 2 * k - 7, -10, 0);
    let mh = f.quotient(a.bc1);
    let vh = s.quotient(a.bc2);
    lemma_wider(vh, 2 * k - 10, 2 * k + 3, 2 * (k - 5), 2 * (k + 2));
    bounds::roots_are_bounded(vh, k - 5, k + 2);
    let root = vh.square_root();
    bounds::sums_are_bounded(root, eps, k - 5, k + 2, -27, -26);
    let d = root.sum(eps);
    bounds::quotients_are_bounded(mh, d, k - 4, k + 8, k - 5, k + 3);
    let r = mh.quotient(d);
    bounds::products_are_bounded(a.lr, r, slow, fast, -7, 13);
    let step = a.lr.product(r);
    bounds::signs_are_taken_along(f, a.bc1);
    bounds::signs_are_taken_along(mh, d);
    bounds::signs_are_taken_along(r, a.lr);
    let decay = a.wd.product(zero);
    assert(decay.magnitude() == 0);
    bounds::zero_adds_nothing(step, decay);
    bounds::zero_adds_nothing(step.negated(), decay);
    bounds::zero_adds_nothing(step, zero);
    bounds::zero_adds_nothing(step.negated(), zero);
    bounds::signs_are_taken_along(step, a.lr);
    let after = group(a.moves_weights(w, g, m, v), x)[i];
    assert(after == a.moved(zero, first(mz, grad), s));
    if grad == size {
        assert(after == zero.difference(step));
    } else {
        assert(after == zero.difference(step.negated()));
    }
}

proof fn lemma_wider(x: Single, a: int, b: int, c: int, d: int)
    requires
        bounds::between(x, a, b),
        c <= a,
        b <= d,
    ensures
        bounds::between(x, c, d),
{
}

/// Where there is neither a gradient nor a moment, a parameter of any group
/// only decays: by its share of itself, whatever the rate is.
pub proof fn idle_parameters_decay(
    a: Adam,
    w: WeightsView,
    g: WeightsView,
    m: WeightsView,
    v: WeightsView,
    x: int,
    i: int,
)
    requires
        same_sizes(w, g),
        same_sizes(m, g),
        same_sizes(v, g),
        0 <= x < 6,
        0 <= i < group(w, x).len(),
        group(m, x)[i].bits == 0,
        group(v, x)[i].bits == 0,
        group(g, x)[i].bits == 0,
        !group(w, x)[i].nan() && !group(w, x)[i].infinite(),
        !a.lr.nan() && !a.lr.infinite(),
        bounds::between(a.bc1, -10, 0),
        bounds::between(a.bc2, -10, 0),
        !a.wd.product(group(w, x)[i]).nan() && !a.wd.product(group(w, x)[i]).infinite(),
        a.wd.product(group(w, x)[i]).magnitude() > 0,
    ensures
        group(a.moves_weights(w, g, m, v), x)[i] == group(w, x)[i].difference(
            a.wd.product(group(w, x)[i]),
        ),
{
    let p = group(w, x)[i];
    let zero = Single { bits: 0 };
    lemma_complements();
    let f = first(zero, zero);
    let s = second(zero, zero);
    assert(f.magnitude() == 0 && s.magnitude() == 0 && !s.negative());
    let eps = Single { bits: EPS };
    let vh = s.quotient(a.bc2);
    assert(vh.magnitude() == 0 && !vh.negative());
    let root = vh.square_root();
    assert(root == vh);
    bounds::zero_adds_nothing(eps, root);
    let r = f.quotient(a.bc1).quotient(eps);
    assert(r.magnitude() == 0);
    let step = a.lr.product(r);
    assert(step.magnitude() == 0);
    bounds::zero_adds_nothing(a.wd.product(p), step);
    assert(group(a.moves_weights(w, g, m, v), x)[i] == a.moved(p, f, s));
}

/// The rates are nine tenths and 999 thousandths, and a step is kept from
/// dividing by zero by a hundred-millionth.
pub proof fn rates_are_decimal()
    ensures
        single::nearest(BETA1 as int, 9int * pow2(149), 10),
        single::nearest(BETA2 as int, 999int * pow2(149), 1000),
        single::nearest(EPS as int, 1int * pow2(149), 100_000_000),
{
    lemma2_to64();
    lemma2_to64_rest();
    bounds::lemma_fraction(BETA1 as int, 9, 10);
    bounds::lemma_fraction(BETA2 as int, 999, 1000);
    bounds::lemma_fraction(EPS as int, 1, 100_000_000);
}

} // verus!
