//! The loss of a document and its gradient.
use vstd::prelude::*;

use crate::acts::Acts;
use crate::dataset::{
    ascending, covers, lemma_ascending_bound, lemma_ascending_index, tokens_of, Dataset,
};
use crate::forward::lemma_trace_sized;
use crate::gradient::gradient;
use crate::loss::{loss_of, probs_of};
use crate::matrix::{mat, same_outside};
use crate::model::Model;
use crate::network::{lemma_trace_determined, network};
use crate::scalar::{deterministic, num, over, plus, undefined, zero, Float};

verus! {

/// How many positions of a document are trained on: one per token that has a successor, up to the
/// context length.
pub open spec fn doc_len(m: Model, tokens: Seq<usize>) -> int {
    if tokens.len() - 1 <= m.shape.block_size {
        tokens.len() - 1
    } else {
        m.shape.block_size as int
    }
}

/// The loss of a document.
pub open spec fn doc_loss<F: Float>(m: Model, p: Seq<F>, tokens: Seq<usize>) -> F {
    let n = doc_len(m, tokens);
    loss_of(network(m, p, tokens, n).logits, tokens, n)
}

/// The gradient buffer `g` with the gradient of the loss of a document added.
pub open spec fn doc_grad<F: Float>(m: Model, p: Seq<F>, tokens: Seq<usize>, g: Seq<F>) -> Seq<F> {
    let n = doc_len(m, tokens);
    let t = network(m, p, tokens, n);
    gradient(m, p, tokens, t, probs_of(t.logits), g, n)
}

/// The loss of a document changes the activations at its own positions only.
pub open spec fn acts_kept<F: Float>(m: Model, tokens: Seq<usize>, a: Acts<F>, b: Acts<F>) -> bool {
    let (v, n) = (m.vocab_size as int, doc_len(m, tokens));
    &&& (Acts { probs: a.probs, ..b }).same_outside(a, m.shape, v, 0, n)
    &&& same_outside(a.probs@, b.probs@, 0, n * v)
}

/// `b` is what the loss of a document makes of the activations `a`: the values of the network and
/// the probabilities at its positions, and nothing else changed.
pub open spec fn acts_left<F: Float>(
    m: Model,
    p: Seq<F>,
    tokens: Seq<usize>,
    a: Acts<F>,
    b: Acts<F>,
) -> bool {
    let (v, n) = (m.vocab_size as int, doc_len(m, tokens));
    let t = network(m, p, tokens, n);
    &&& acts_kept(m, tokens, a, b)
    &&& b.trace(m.shape, v, n) == t
    &&& mat(b.probs@, n, v) == probs_of(t.logits)
}

/// `b` is what the losses of the first `n` documents, one after the other, make of the
/// activations `a`.
pub open spec fn acts_left_by_all<F: Float>(
    m: Model,
    p: Seq<F>,
    uchars: Seq<char>,
    docs: Seq<String>,
    a: Acts<F>,
    b: Acts<F>,
    n: int,
) -> bool
    decreases n,
{
    if n <= 0 {
        a == b
    } else {
        exists|c: Acts<F>|
            acts_left_by_all(m, p, uchars, docs, a, c, n - 1) && #[trigger] acts_left(
                m,
                p,
                tokens_of(uchars, docs[n - 1]@),
                c,
                b,
            )
    }
}

/// One document more.
proof fn lemma_acts_step<F: Float>(
    m: Model,
    p: Seq<F>,
    uchars: Seq<char>,
    docs: Seq<String>,
    a: Acts<F>,
    c: Acts<F>,
    b: Acts<F>,
    n: int,
)
    requires
        1 <= n,
        acts_left_by_all(m, p, uchars, docs, a, c, n - 1),
        acts_left(m, p, tokens_of(uchars, docs[n - 1]@), c, b),
    ensures
        acts_left_by_all(m, p, uchars, docs, a, b, n),
{
}

/// The losses of the first `n` documents, added up.
pub open spec fn loss_sum<F: Float>(
    m: Model,
    p: Seq<F>,
    uchars: Seq<char>,
    docs: Seq<String>,
    n: int,
) -> F
    decreases n,
{
    if n <= 0 {
        zero()
    } else {
        plus(
            loss_sum(m, p, uchars, docs, n - 1),
            doc_loss(m, p, tokens_of(uchars, docs[n - 1]@)),
        )
    }
}

/// The mean loss over some documents.
pub open spec fn mean_loss<F: Float>(
    m: Model,
    p: Seq<F>,
    uchars: Seq<char>,
    docs: Seq<String>,
) -> F {
    if docs.len() == 0 {
        undefined()
    } else {
        over(loss_sum(m, p, uchars, docs, docs.len() as int), num(docs.len() as usize))
    }
}

/// The model has a token for each character and the boundary token.
pub open spec fn fits_data(m: Model, data: Dataset) -> bool {
    data.uchars@.len() + 1 <= m.vocab_size
}

/// The tokens that a pass over the first `n` positions and its loss read are tokens of the model:
/// one per position, and the one behind the last.
pub open spec fn tokens_known(m: Model, tokens: Seq<usize>, n: int) -> bool {
    n > 0 ==> n < tokens.len() && forall|i: int| 0 <= i <= n ==> #[trigger] tokens[i] < m.vocab_size
}

/// The tokens of a document are tokens of the vocabulary, and there are at least two.
pub proof fn lemma_tokens_in_range(uchars: Seq<char>, doc: Seq<char>)
    requires
        ascending(uchars),
        covers(uchars, doc),
    ensures
        tokens_of(uchars, doc).len() == doc.len() + 2,
        tokens_of(uchars, doc)[0] == uchars.len(),
        tokens_of(uchars, doc)[doc.len() as int + 1] == uchars.len(),
        forall|i: int|
            0 < i <= doc.len() ==> (#[trigger] tokens_of(uchars, doc)[i]) < uchars.len()
                && uchars[tokens_of(uchars, doc)[i] as int] == doc[i - 1],
        forall|i: int|
            0 <= i < doc.len() + 2 ==> #[trigger] tokens_of(uchars, doc)[i] < uchars.len() + 1,
{
    let t = tokens_of(uchars, doc);
    if uchars.len() > 0 {
        lemma_ascending_bound(uchars, uchars.len() - 1);
    }
    assert forall|i: int| 0 < i <= doc.len() implies (#[trigger] t[i]) < uchars.len()
        && uchars[t[i] as int] == doc[i - 1] by {
        assert(uchars.contains(doc[i - 1]));
        let k = choose|k: int| 0 <= k < uchars.len() && uchars[k] == doc[i - 1];
        lemma_ascending_index(uchars, k);
    }
    assert forall|i: int| 0 <= i < doc.len() + 2 implies #[trigger] t[i] < uchars.len() + 1 by {
        if 0 < i <= doc.len() {
            assert(t[i] < uchars.len());
        }
    }
}

impl Model {
    /// The loss of a document. Leaves the values of the network and the probabilities in `a`.
    pub fn document_loss<F: Float>(&self, p: &[F], tokens: &[usize], a: &mut Acts<F>) -> (r: F)
        requires
            self.wf(),
            self.shape.buffers_fit(self.vocab_size as int),
            self.n_params <= p@.len(),
            tokens@.len() >= 1,
            tokens_known(*self, tokens@, doc_len(*self, tokens@)),
            old(a).wf(self.shape, self.vocab_size as int),
        ensures
            final(a).wf(self.shape, self.vocab_size as int),
            acts_kept(*self, tokens@, *old(a), *final(a)),
            deterministic::<F>() ==> r == doc_loss(*self, p@, tokens@),
            deterministic::<F>() ==> acts_left(*self, p@, tokens@, *old(a), *final(a)),
    {
        let n: usize = if tokens.len() - 1 <= self.shape.block_size {
            tokens.len() - 1
        } else {
            self.shape.block_size
        };
        proof {
            lemma_empty_trace(*self, p@, tokens@, *a);
        }
        self.forward(p, tokens, 0, n, a);
        let ghost filled = *a;
        let r = self.loss(tokens, n, a);
        proof {
            let (s, v) = (self.shape, self.vocab_size as int);
            assert(a.trace(s, v, n as int) == filled.trace(s, v, n as int));
            assert(filled.trace(s, v, n as int).logits == mat(filled.logits@, n as int, v));
        }
        r
    }

    /// The mean loss over some documents, forward only.
    pub fn eval_loss<F: Float>(
        &self,
        p: &[F],
        data: &Dataset,
        docs: &[String],
        acts: &mut Acts<F>,
        tokens: &mut Vec<usize>,
    ) -> (r: F)
        requires
            self.wf(),
            self.shape.buffers_fit(self.vocab_size as int),
            self.n_params <= p@.len(),
            data.wf(),
            fits_data(*self, *data),
            forall|d: int| 0 <= d < docs@.len() ==> covers(data.uchars@, (#[trigger] docs@[d])@),
            old(acts).wf(self.shape, self.vocab_size as int),
        ensures
            final(acts).wf(self.shape, self.vocab_size as int),
            docs@.len() == 0 ==> *final(acts) == *old(acts),
            deterministic::<F>() ==> acts_left_by_all(
                *self,
                p@,
                data.uchars@,
                docs@,
                *old(acts),
                *final(acts),
                docs@.len() as int,
            ),
            final(tokens)@ == (if docs@.len() == 0 {
                old(tokens)@
            } else {
                tokens_of(data.uchars@, docs@.last()@)
            }),
            deterministic::<F>() ==> r == mean_loss(*self, p@, data.uchars@, docs@),
    {
        if docs.len() == 0 {
            return F::nan();
        }
        let mut total = F::from_usize(0);
        let mut d: usize = 0;
        while d < docs.len()
            invariant
                self.wf(),
                self.shape.buffers_fit(self.vocab_size as int),
                self.n_params <= p@.len(),
                data.wf(),
                fits_data(*self, *data),
                d <= docs@.len(),
                forall|d: int|
                    0 <= d < docs@.len() ==> covers(data.uchars@, (#[trigger] docs@[d])@),
                acts.wf(self.shape, self.vocab_size as int),
                d > 0 ==> tokens@ == tokens_of(data.uchars@, docs@[d - 1]@),
                deterministic::<F>() ==> acts_left_by_all(
                    *self,
                    p@,
                    data.uchars@,
                    docs@,
                    *old(acts),
                    *acts,
                    d as int,
                ),
                deterministic::<F>() ==> total == loss_sum(
                    *self,
                    p@,
                    data.uchars@,
                    docs@,
                    d as int,
                ),
            decreases docs.len() - d,
        {
            data.tokenize(docs[d].as_str(), tokens);
            proof {
                lemma_tokens_in_range(data.uchars@, docs@[d as int]@);
            }
            let ghost before = *acts;
            let loss = self.document_loss(p, tokens.as_slice(), acts);
            proof {
                if deterministic::<F>() {
                    lemma_acts_step(
                        *self,
                        p@,
                        data.uchars@,
                        docs@,
                        *old(acts),
                        before,
                        *acts,
                        d + 1,
                    );
                }
            }
            total = total.plus(loss);
            d = d + 1;
        }
        total.over(F::from_usize(docs.len()))
    }
}

/// No positions are what the network computes at no positions.
pub proof fn lemma_empty_trace<F: Float>(m: Model, p: Seq<F>, tokens: Seq<usize>, a: Acts<F>)
    requires
        m.wf(),
        a.wf(m.shape, m.vocab_size as int),
    ensures
        a.trace(m.shape, m.vocab_size as int, 0) == network(m, p, tokens, 0),
{
    lemma_trace_sized(a, m.shape, m.vocab_size as int, 0);
    lemma_trace_determined(
        m,
        p,
        tokens,
        a.trace(m.shape, m.vocab_size as int, 0),
        0,
    );
}

} // verus!
