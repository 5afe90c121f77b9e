//! Inference: new documents, one token at a time.
use vstd::prelude::*;

use crate::acts::Acts;
use crate::attention::{weight_base, weights_same_outside};
use crate::dataset::Dataset;
use crate::document::lemma_empty_trace;
use crate::forward::{lemma_network_rows, lemma_stream_len};
use crate::kernels::{row, softmax_inplace, softmax_of};
use crate::matrix::{least, lemma_row_len, row_of, same_outside};
use crate::model::{Model, Shape};
use crate::network::{
    embedded, layer_sized, lemma_trace_determined, network, trace_row, trace_sized,
};
use crate::rng::{advanced, choice_of, Rng};
use crate::scalar::{deterministic, over, ratio, ratio_of, Float};

verus! {

/// How many documents are sampled at the end of a run.
pub const NUM_SAMPLES: usize = 20;

/// What the scores are divided by before a token is sampled, `1 / 2`: below one, likely tokens
/// become likelier.
pub open spec fn temperature<F: Float>() -> F {
    ratio_of(1, 2)
}

/// The scores divided by the temperature.
pub open spec fn tempered<F: Float>(logits: Seq<F>) -> Seq<F> {
    Seq::new(logits.len(), |i: int| over(logits[i], temperature()))
}

/// The token that is sampled behind the first `pos + 1` tokens in state `s` of the generator.
pub open spec fn next_token<F: Float>(
    m: Model,
    p: Seq<F>,
    tokens: Seq<usize>,
    pos: int,
    s: Seq<u64>,
) -> int {
    choice_of(softmax_of(tempered(network(m, p, tokens, pos + 1).logits[pos])), s)
}

/// The tokens that are sampled from position `pos` on, behind `tokens`, and the state of the
/// generator afterwards. Sampling stops at the boundary token or at the end of the context.
pub open spec fn generated<F: Float>(
    m: Model,
    p: Seq<F>,
    bos: usize,
    tokens: Seq<usize>,
    pos: int,
    s: Seq<u64>,
) -> (Seq<usize>, Seq<u64>)
    decreases m.shape.block_size - pos,
{
    if pos >= m.shape.block_size {
        (tokens, s)
    } else {
        let next = next_token(m, p, tokens, pos, s);
        if next == bos {
            (tokens, advanced(s))
        } else {
            generated(m, p, bos, tokens.push(next as usize), pos + 1, advanced(s))
        }
    }
}

/// The characters of some tokens.
pub open spec fn decoded(uchars: Seq<char>, tokens: Seq<usize>) -> Seq<char> {
    Seq::new(tokens.len(), |i: int| uchars[tokens[i] as int])
}

/// What the network computes at the first `n` positions depends on the first `n` tokens.
pub proof fn lemma_network_prefix<F: Float>(
    m: Model,
    p: Seq<F>,
    a: Seq<usize>,
    b: Seq<usize>,
    n: int,
)
    requires
        m.wf(),
        0 <= n,
        forall|i: int| 0 <= i < n ==> #[trigger] a[i] == b[i],
    ensures
        network(m, p, a, n) == network(m, p, b, n),
{
    let t = network(m, p, a, n);
    lemma_network_sized(m, p, a, n);
    assert forall|i: int| 0 <= i < n implies #[trigger] trace_row(m, p, b, t, i) by {
        lemma_network_rows(m, p, a, n, i);
        assert(a[i] == b[i]);
        assert(embedded(m, p, a, i) =~= embedded(m, p, b, i));
    }
    lemma_trace_determined(m, p, b, t, n);
}

/// The values of the network have a row per position.
pub proof fn lemma_network_sized<F: Float>(m: Model, p: Seq<F>, tokens: Seq<usize>, n: int)
    requires
        m.wf(),
        0 <= n,
    ensures
        trace_sized(m.shape, network(m, p, tokens, n), n),
{
    let t = network(m, p, tokens, n);
    assert forall|l: int| 0 <= l <= m.shape.n_layer implies (#[trigger] t.xs[l]).len() == n by {
        lemma_stream_len(m, p, tokens, n, l);
    }
    assert forall|l: int| 0 <= l < m.shape.n_layer implies layer_sized(
        m.shape,
        #[trigger] t.layers[l],
        n,
    ) by {
        lemma_stream_len(m, p, tokens, n, l);
    }
}

/// Samples a document. `acts` holds the values of the positions so far, so that each token costs
/// one position; `probs` and `tokens` are buffers. On return `tokens` holds the boundary token and
/// the tokens of the document.
#[verifier::rlimit(60)]
pub fn sample_document<F: Float>(
    model: &Model,
    p: &[F],
    data: &Dataset,
    rng: &mut Rng,
    acts: &mut Acts<F>,
    probs: &mut Vec<F>,
    tokens: &mut Vec<usize>,
) -> (r: String)
    requires
        model.wf(),
        model.shape.buffers_fit(model.vocab_size as int),
        model.n_params <= p@.len(),
        data.wf(),
        model.vocab_size == data.uchars@.len() + 1,
        old(acts).wf(model.shape, model.vocab_size as int),
        old(probs)@.len() == model.vocab_size,
    ensures
        final(acts).wf(model.shape, model.vocab_size as int),
        final(probs)@.len() == model.vocab_size,
        1 <= final(tokens)@.len() <= model.shape.block_size + 1,
        final(tokens)@[0] == data.bos,
        forall|i: int| 0 < i < final(tokens)@.len() ==> #[trigger] final(tokens)@[i] < data.bos,
        r@ == decoded(data.uchars@, final(tokens)@.skip(1)),
        deterministic::<F>() ==> (final(tokens)@, final(rng).s@) == generated(
            *model,
            p@,
            data.bos,
            seq![data.bos],
            0,
            old(rng).s@,
        ),
        ({
            let n = least(final(tokens)@.len() as int, model.shape.block_size as int);
            final(acts).same_outside(*old(acts), model.shape, model.vocab_size as int, 0, n)
        }),
        deterministic::<F>() ==> ({
            let n = least(final(tokens)@.len() as int, model.shape.block_size as int);
            let t = network(*model, p@, final(tokens)@, n);
            &&& final(acts).trace(model.shape, model.vocab_size as int, n) == t
            &&& final(probs)@ == softmax_of(tempered(t.logits[n - 1]))
        }),
{
    let v: usize = model.vocab_size;
    let block: usize = model.shape.block_size;
    tokens.clear();
    tokens.push(data.bos);
    let mut text = String::new();
    proof {
        lemma_empty_trace(*model, p@, tokens@, *acts);
        lemma_unchanged(*acts, model.shape, v as int);
        assert(decoded(data.uchars@, tokens@.skip(1)) =~= Seq::empty());
        assert(tokens@ =~= seq![data.bos]);
    }
    let ghost start = generated(*model, p@, data.bos, tokens@, 0, rng.s@);
    let mut pos: usize = 0;
    while pos < block
        invariant
            model.wf(),
            model.shape.buffers_fit(v as int),
            v == model.vocab_size,
            block == model.shape.block_size,
            model.n_params <= p@.len(),
            data.wf(),
            model.vocab_size == data.uchars@.len() + 1,
            acts.wf(model.shape, v as int),
            acts.same_outside(*old(acts), model.shape, v as int, 0, pos as int),
            probs@.len() == v,
            pos <= block,
            1 <= block,
            pos > 0 && deterministic::<F>() ==> probs@ == softmax_of(
                tempered(network(*model, p@, tokens@, pos as int).logits[pos - 1]),
            ),
            tokens@.len() == pos + 1,
            tokens@[0] == data.bos,
            forall|i: int| 0 < i < tokens@.len() ==> #[trigger] tokens@[i] < data.bos,
            text@ == decoded(data.uchars@, tokens@.skip(1)),
            start == generated(*model, p@, data.bos, seq![data.bos], 0, old(rng).s@),
            deterministic::<F>() ==> acts.trace(model.shape, v as int, pos as int) == network(
                *model,
                p@,
                tokens@,
                pos as int,
            ),
            deterministic::<F>() ==> generated(
                *model,
                p@,
                data.bos,
                tokens@,
                pos as int,
                rng.s@,
            ) == start,
        decreases block - pos,
    {
        assert(tokens@[pos as int] < v);
        let ghost earlier = *acts;
        model.forward(p, tokens.as_slice(), pos, pos + 1, acts);
        proof {
            lemma_passes_change(*old(acts), earlier, *acts, model.shape, v as int, pos as int);
            lemma_row_len(acts.logits@, pos as int, block as int, v as int);
        }
        let logits = row(acts.logits.as_slice(), pos, v);
        let ghost out = network(*model, p@, tokens@, pos + 1).logits[pos as int];
        proof {
            if deterministic::<F>() {
                assert(acts.trace(model.shape, v as int, pos + 1).logits[pos as int] == row_of(
                    acts.logits@,
                    pos as int,
                    v as int,
                ));
                assert(logits@ == out);
            }
        }
        let mut i: usize = 0;
        while i < v
            invariant
                i <= v,
                probs@.len() == v,
                logits@.len() == v,
                deterministic::<F>() ==> forall|k: int|
                    0 <= k < i ==> #[trigger] probs@[k] == tempered(logits@)[k],
            decreases v - i,
        {
            probs[i] = logits[i].over(ratio(1, 2));
            i = i + 1;
        }
        assert(deterministic::<F>() ==> probs@ =~= tempered(out));
        softmax_inplace(probs.as_mut_slice());
        let next: usize = rng.choice_weighted(probs.as_slice());
        if next == data.bos {
            return text;
        }
        let ghost before = tokens@;
        text.push(data.uchars[next]);
        tokens.push(next);
        proof {
            if deterministic::<F>() {
                lemma_network_prefix(*model, p@, before, tokens@, pos + 1);
            }
            assert(decoded(data.uchars@, tokens@.skip(1)) =~= decoded(
                data.uchars@,
                before.skip(1),
            ).push(data.uchars@[next as int]));
        }
        pos = pos + 1;
    }
    text
}

/// What two changes one behind the other leave unchanged.
proof fn lemma_same_outside_twice<F>(a: Seq<F>, b: Seq<F>, c: Seq<F>, n: int, w: int)
    requires
        0 <= n,
        0 <= w,
        same_outside(a, b, 0, n * w),
        same_outside(b, c, n * w, (n + 1) * w),
    ensures
        same_outside(a, c, 0, (n + 1) * w),
{
    assert(n * w <= (n + 1) * w) by (nonlinear_arith)
        requires
            0 <= w,
    ;
    assert(0 <= n * w) by (nonlinear_arith)
        requires
            0 <= n,
            0 <= w,
    ;
    assert forall|x: int| 0 <= x < a.len() && !(0 <= x < (n + 1) * w) implies #[trigger] c[x]
        == a[x] by {
        assert(b[x] == a[x]);
    }
}

/// What two passes over attention weights leave unchanged.
proof fn lemma_weights_twice<F>(a: Seq<F>, b: Seq<F>, c: Seq<F>, s: Shape, n: int)
    requires
        0 <= n,
        weights_same_outside(a, b, s, 0, n),
        weights_same_outside(b, c, s, n, n + 1),
    ensures
        weights_same_outside(a, c, s, 0, n + 1),
{
    assert forall|x: int|
        0 <= x < a.len() && !(exists|hd: int, i: int|
            0 <= hd < s.n_head && 0 <= i < n + 1 && #[trigger] weight_base(s, hd, i) <= x
                < weight_base(s, hd, i) + i + 1) implies #[trigger] c[x] == a[x] by {
        assert(b[x] == a[x]);
    }
}

/// A pass over one position behind others changes these positions and its own.
pub proof fn lemma_passes_change<F: Float>(
    a: Acts<F>,
    b: Acts<F>,
    c: Acts<F>,
    s: Shape,
    v: int,
    n: int,
)
    requires
        0 <= n,
        0 <= v,
        b.same_outside(a, s, v, 0, n),
        c.same_outside(b, s, v, n, n + 1),
    ensures
        c.same_outside(a, s, v, 0, n + 1),
{
    let e = s.n_embd as int;
    assert(0 * e == 0 && 0 * (3 * e) == 0 && 0 * s.hidden() == 0 && 0 * v == 0)
        by (nonlinear_arith);
    lemma_same_outside_twice(a.x0@, b.x0@, c.x0@, n, e);
    lemma_same_outside_twice(a.logits@, b.logits@, c.logits@, n, v);
    assert forall|l: int| 0 <= l < c.xs@.len() implies same_outside(
        a.xs@[l]@,
        (#[trigger] c.xs@[l])@,
        0 * e,
        (n + 1) * e,
    ) by {
        assert(same_outside(a.xs@[l]@, b.xs@[l]@, 0 * e, n * e));
        lemma_same_outside_twice(a.xs@[l]@, b.xs@[l]@, c.xs@[l]@, n, e);
    }
    assert forall|l: int| 0 <= l < c.layers@.len() implies (#[trigger] c.layers@[l]).same_outside(
        a.layers@[l],
        s,
        0,
        n + 1,
    ) by {
        let (x, y, z) = (a.layers@[l], b.layers@[l], c.layers@[l]);
        assert(y.same_outside(x, s, 0, n));
        lemma_same_outside_twice(x.h@, y.h@, z.h@, n, e);
        lemma_same_outside_twice(x.qkv@, y.qkv@, z.qkv@, n, 3 * e);
        lemma_weights_twice(x.attn_w@, y.attn_w@, z.attn_w@, s, n);
        lemma_same_outside_twice(x.attn_out@, y.attn_out@, z.attn_out@, n, e);
        lemma_same_outside_twice(x.x2@, y.x2@, z.x2@, n, e);
        lemma_same_outside_twice(x.h2@, y.h2@, z.h2@, n, e);
        lemma_same_outside_twice(x.r@, y.r@, z.r@, n, s.hidden());
    }
}

/// No change.
pub proof fn lemma_unchanged<F: Float>(a: Acts<F>, s: Shape, v: int)
    ensures
        a.same_outside(a, s, v, 0, 0),
{
}

} // verus!
