//! The optimizer.
use vstd::prelude::*;

use crate::acts::{all_zero, zeros};
use crate::scalar::{
    deterministic, fma, minus, one, over, plus, power, ratio, ratio_of, root, times, zero, Float,
};

verus! {

/// The default peak learning rate: `1 / 100`.
pub open spec fn learning_rate_of<F: Float>() -> F {
    ratio_of(1, 100)
}

/// The decay of the first moment: `85 / 100`.
pub open spec fn beta1_of<F: Float>() -> F {
    ratio_of(85, 100)
}

/// The decay of the second moment: `99 / 100`.
pub open spec fn beta2_of<F: Float>() -> F {
    ratio_of(99, 100)
}

/// What keeps the step away from a division by zero: `1 / 100000000`.
pub open spec fn adam_eps_of<F: Float>() -> F {
    ratio_of(1, 100_000_000)
}

/// The default peak learning rate.
pub fn learning_rate<F: Float>() -> (r: F)
    ensures
        deterministic::<F>() ==> r == learning_rate_of::<F>(),
{
    ratio(1, 100)
}

/// The correction of a moment that started at zero, `t` steps ago.
pub open spec fn bias_correction<F: Float>(beta: F, t: usize) -> F {
    over(one(), minus(one(), power(beta, t as i32)))
}

/// The first moment after the gradient `g`.
pub open spec fn first_moment<F: Float>(m: F, g: F) -> F {
    fma(beta1_of(), m, times(minus(one(), beta1_of()), g))
}

/// The second moment after the gradient `g`.
pub open spec fn second_moment<F: Float>(v: F, g: F) -> F {
    fma(beta2_of(), v, times(times(minus(one(), beta2_of()), g), g))
}

/// The parameter `p` after step `t`, where `m` and `v` are the moments after the step.
pub open spec fn adam_param<F: Float>(p: F, m: F, v: F, lr: F, t: usize) -> F {
    minus(
        p,
        over(
            times(lr, times(m, bias_correction(beta1_of(), t))),
            plus(root(times(v, bias_correction(beta2_of(), t))), adam_eps_of()),
        ),
    )
}

/// The parameters after step `t` with the gradients `g`.
pub open spec fn adam_params<F: Float>(
    p: Seq<F>,
    m: Seq<F>,
    v: Seq<F>,
    g: Seq<F>,
    lr: F,
    t: usize,
) -> Seq<F> {
    Seq::new(
        p.len(),
        |i: int|
            adam_param(p[i], first_moment(m[i], g[i]), second_moment(v[i], g[i]), lr, t),
    )
}

/// The first moments of the first `n` parameters after the gradients `g`; the others unchanged.
pub open spec fn first_moments<F: Float>(m: Seq<F>, g: Seq<F>, n: int) -> Seq<F> {
    Seq::new(
        m.len(),
        |i: int|
            if i < n {
                first_moment(m[i], g[i])
            } else {
                m[i]
            },
    )
}

/// The second moments of the first `n` parameters after the gradients `g`; the others unchanged.
pub open spec fn second_moments<F: Float>(v: Seq<F>, g: Seq<F>, n: int) -> Seq<F> {
    Seq::new(
        v.len(),
        |i: int|
            if i < n {
                second_moment(v[i], g[i])
            } else {
                v[i]
            },
    )
}

/// `g` with its first `n` entries set to zero.
pub open spec fn cleared<F: Float>(g: Seq<F>, n: int) -> Seq<F> {
    Seq::new(
        g.len(),
        |i: int|
            if i < n {
                zero()
            } else {
                g[i]
            },
    )
}

/// The moments of the optimizer.
pub struct Adam<F> {
    /// The first moments.
    pub m: Vec<F>,
    /// The second moments.
    pub v: Vec<F>,
}

impl<F: Float> Adam<F> {
    /// An optimizer for `n` parameters.
    pub fn new(n: usize) -> (r: Self)
        ensures
            r.m@.len() == n,
            r.v@.len() == n,
            deterministic::<F>() ==> all_zero(r.m@) && all_zero(r.v@),
    {
        Adam { m: zeros(n), v: zeros(n) }
    }

    /// One step with bias correction, for each parameter in `p`; sets the gradients to zero
    /// afterwards. Steps are counted from one.
    pub fn step(&mut self, p: &mut [F], g: &mut [F], lr: F, t: usize)
        requires
            old(p).len() <= old(g).len(),
            old(p)@.len() <= old(self).m@.len(),
            old(p)@.len() <= old(self).v@.len(),
        ensures
            final(p)@.len() == old(p)@.len(),
            final(g)@.len() == old(g)@.len(),
            final(self).m@.len() == old(self).m@.len(),
            final(self).v@.len() == old(self).v@.len(),
            deterministic::<F>() ==> {
                &&& final(p)@ == adam_params(
                    old(p)@,
                    old(self).m@,
                    old(self).v@,
                    old(g)@,
                    lr,
                    t,
                )
                &&& final(self).m@ == first_moments(
                    old(self).m@,
                    old(g)@,
                    old(p)@.len() as int,
                )
                &&& final(self).v@ == second_moments(
                    old(self).v@,
                    old(g)@,
                    old(p)@.len() as int,
                )
                &&& final(g)@ == cleared(old(g)@, old(p)@.len() as int)
            },
    {
        let unity = F::from_usize(1);
        let beta1: F = ratio(85, 100);
        let beta2: F = ratio(99, 100);
        let eps: F = ratio(1, 100_000_000);
        let c1 = unity.over(unity.minus(beta1.powi(t as i32)));
        let c2 = unity.over(unity.minus(beta2.powi(t as i32)));
        let n: usize = p.len();
        let ghost (p0, g0, m0, v0) = (p@, g@, self.m@, self.v@);
        let mut i: usize = 0;
        while i < n
            invariant
                i <= n,
                n == p.len(),
                n == p0.len(),
                n <= g.len(),
                n <= self.m@.len(),
                n <= self.v@.len(),
                g@.len() == g0.len(),
                self.m@.len() == m0.len(),
                self.v@.len() == v0.len(),
                deterministic::<F>() ==> {
                    &&& unity == one::<F>()
                    &&& beta1 == beta1_of::<F>()
                    &&& beta2 == beta2_of::<F>()
                    &&& eps == adam_eps_of::<F>()
                    &&& c1 == bias_correction(beta1, t)
                    &&& c2 == bias_correction(beta2, t)
                },
                forall|k: int| i <= k < n ==> #[trigger] p@[k] == p0[k],
                forall|k: int| i <= k < g0.len() ==> #[trigger] g@[k] == g0[k],
                forall|k: int| i <= k < m0.len() ==> #[trigger] self.m@[k] == m0[k],
                forall|k: int| i <= k < v0.len() ==> #[trigger] self.v@[k] == v0[k],
                deterministic::<F>() ==> forall|k: int|
                    0 <= k < i ==> #[trigger] p@[k] == adam_params(p0, m0, v0, g0, lr, t)[k],
                deterministic::<F>() ==> forall|k: int|
                    0 <= k < i ==> #[trigger] self.m@[k] == first_moment(m0[k], g0[k]),
                deterministic::<F>() ==> forall|k: int|
                    0 <= k < i ==> #[trigger] self.v@[k] == second_moment(v0[k], g0[k]),
                deterministic::<F>() ==> forall|k: int|
                    0 <= k < i ==> #[trigger] g@[k] == zero::<F>(),
            decreases n - i,
        {
            let gi = g[i];
            let m = beta1.mul_add(self.m[i], unity.minus(beta1).times(gi));
            let v = beta2.mul_add(self.v[i], unity.minus(beta2).times(gi).times(gi));
            self.m[i] = m;
            self.v[i] = v;
            p[i] = p[i].minus(lr.times(m.times(c1)).over(v.times(c2).sqrt().plus(eps)));
            g[i] = F::from_usize(0);
            i = i + 1;
        }
        proof {
            if deterministic::<F>() {
                assert(p@ =~= adam_params(p0, m0, v0, g0, lr, t));
                assert(self.m@ =~= first_moments(m0, g0, n as int));
                assert(self.v@ =~= second_moments(v0, g0, n as int));
                assert(g@ =~= cleared(g0, n as int));
            }
        }
    }
}

} // verus!
