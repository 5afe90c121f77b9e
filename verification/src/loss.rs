//! The loss: mean cross-entropy of the next-token predictions.
use vstd::prelude::*;

use crate::acts::Acts;
use crate::kernels::{copy, row, row_mut, softmax_inplace, softmax_of};
use crate::matrix::{lemma_row_len, mat, row_of, same_outside, Mat};
use crate::model::Model;
use crate::scalar::{deterministic, logarithm, minus, num, over, zero, Float};
use crate::stages::lemma_row_replaced;

verus! {

/// Zero less the logarithms of the probabilities that the first `n` rows of scores give to the
/// tokens that follow.
pub open spec fn log_loss<F: Float>(logits: Mat<F>, tokens: Seq<usize>, n: int) -> F
    decreases n,
{
    if n <= 0 {
        zero()
    } else {
        minus(
            log_loss(logits, tokens, n - 1),
            logarithm(softmax_of(logits[n - 1])[tokens[n] as int]),
        )
    }
}

/// The mean cross-entropy of the first `n` rows of scores against the tokens that follow.
pub open spec fn loss_of<F: Float>(logits: Mat<F>, tokens: Seq<usize>, n: int) -> F {
    over(log_loss(logits, tokens, n), num(n as usize))
}

/// The probabilities that rows of scores give.
pub open spec fn probs_of<F: Float>(logits: Mat<F>) -> Mat<F> {
    Seq::new(logits.len(), |i: int| softmax_of(logits[i]))
}

impl Model {
    /// Turns the first `n` rows of scores into probabilities and returns the mean cross-entropy
    /// loss against the targets: at position `i`, token `i + 1`.
    pub fn loss<F: Float>(&self, tokens: &[usize], n: usize, a: &mut Acts<F>) -> (r: F)
        requires
            old(a).wf(self.shape, self.vocab_size as int),
            n <= self.shape.block_size,
            n == 0 || n < tokens@.len(),
            forall|i: int| 0 < i <= n ==> #[trigger] tokens@[i] < self.vocab_size,
        ensures
            final(a).wf(self.shape, self.vocab_size as int),
            final(a).x0 == old(a).x0,
            final(a).xs == old(a).xs,
            final(a).layers == old(a).layers,
            final(a).logits == old(a).logits,
            same_outside(old(a).probs@, final(a).probs@, 0, n * self.vocab_size),
            deterministic::<F>() ==> mat(final(a).probs@, n as int, self.vocab_size as int)
                == probs_of(mat(old(a).logits@, n as int, self.vocab_size as int)),
            deterministic::<F>() ==> r == loss_of(
                mat(old(a).logits@, n as int, self.vocab_size as int),
                tokens@,
                n as int,
            ),
    {
        let v: usize = self.vocab_size;
        let ghost t = self.shape.block_size as int;
        let ghost logits = mat(a.logits@, n as int, v as int);
        let mut loss = F::from_usize(0);
        let mut i: usize = 0;
        while i < n
            invariant
                i <= n,
                v == self.vocab_size,
                t == self.shape.block_size,
                n <= t,
                n == 0 || n < tokens@.len(),
                forall|i: int| 0 < i <= n ==> #[trigger] tokens@[i] < v,
                a.logits@.len() == t * v,
                a.probs@.len() == t * v,
                a.x0 == old(a).x0,
                a.xs == old(a).xs,
                a.layers == old(a).layers,
                a.logits == old(a).logits,
                logits == mat(a.logits@, n as int, v as int),
                same_outside(old(a).probs@, a.probs@, 0, i * v),
                deterministic::<F>() ==> forall|k: int|
                    0 <= k < i ==> #[trigger] row_of(a.probs@, k, v as int) == softmax_of(
                        logits[k],
                    ),
                deterministic::<F>() ==> loss == log_loss(logits, tokens@, i as int),
            decreases n - i,
        {
            proof {
                lemma_row_len(a.logits@, i as int, t, v as int);
                lemma_row_len(a.probs@, i as int, t, v as int);
            }
            let ghost before = a.probs@;
            let probs = row_mut(a.probs.as_mut_slice(), i, v);
            copy(row(a.logits.as_slice(), i, v), probs);
            softmax_inplace(probs);
            loss = loss.minus(probs[tokens[i + 1]].ln());
            let ghost new_row = probs@;
            proof {
                lemma_row_replaced(before, new_row, i as int, t, v as int);
                assert(logits[i as int] == row_of(a.logits@, i as int, v as int));
            }
            i = i + 1;
        }
        proof {
            assert(n * v <= t * v) by (nonlinear_arith)
                requires
                    n <= t,
            ;
            if deterministic::<F>() {
                assert(mat(a.probs@, n as int, v as int) =~= probs_of(logits));
            }
        }
        loss.over(F::from_usize(n))
    }
}

} // verus!
