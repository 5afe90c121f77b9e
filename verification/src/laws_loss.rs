//! What the loss is for: how well the scores predict the token that comes next.
use vstd::prelude::*;

use crate::arith::lemma_cell;
use crate::dataset::{tokens_of, Dataset};
use crate::derivative::{
    law_softmax_is_distribution, lemma_cancel, lemma_product_sign, lemma_quotient_sign,
    lemma_softmax_entries, lemma_sum_not_negative, lemma_sum_positive, softmax_total,
};
use crate::document::{doc_loss, loss_sum, mean_loss};
use crate::gradient::logit_grad;
use crate::kernels::{max_chain, shifted_exps, softmax_of};
use crate::loss::{log_loss, loss_of, probs_of};
use crate::matrix::{lemma_row_entry, mat, Mat};
use crate::model::Model;
use crate::network::network;
use crate::reading::{Curves, Reading};
use crate::scalar::{exponential, logarithm, minus, num, one, over, undefined, Float};
use crate::sums::{lemma_sum_eq, lemma_sum_plus, lemma_sum_scaled, lemma_sum_single, sum};
use crate::train::held_out_loss;

verus! {

/// The probability of a token is the exponential of its score, divided by the sum of the
/// exponentials of all scores.
pub proof fn law_softmax_weighs_exponentials<F: Float>(
    r: Reading<F>,
    c: Curves,
    x: Seq<F>,
    j: int,
)
    requires
        r.exact(),
        c.known(),
        r.follows(c),
        0 <= j < x.len(),
    ensures
        sum(|k: int| c.e(r.v(x[k])), x.len() as int) > 0real,
        r.v(softmax_of(x)[j]) * sum(|k: int| c.e(r.v(x[k])), x.len() as int) == c.e(r.v(x[j])),
{
    let n = x.len() as int;
    let e = shifted_exps(x);
    let max = max_chain(x, n);
    let g = c.e(r.v(max));
    assert forall|a: F| r.v(#[trigger] exponential(a)) > 0real by {
        assert(c.e(r.v(a)) > 0real);
    }
    lemma_softmax_entries(r, x);
    let (ev, xv) = (|k: int| r.v(e[k]), |k: int| c.e(r.v(x[k])));
    assert forall|k: int| 0 <= k < n implies #[trigger] xv(k) == g * ev(k) by {
        let d = minus(x[k], max);
        assert(e[k] == exponential(d));
        assert(r.v(x[k]) == r.v(max) + r.v(d));
        assert(c.e(r.v(max) + r.v(d)) == c.e(r.v(max)) * c.e(r.v(d)));
    }
    lemma_sum_scaled(g, ev, n);
    lemma_sum_eq(xv, |k: int| g * ev(k), n);
    assert forall|k: int| 0 <= k < n implies #[trigger] xv(k) > 0real by {
        assert(c.e(r.v(x[k])) > 0real);
    }
    lemma_sum_positive(xv, n);
    let (t, inv, a) = (r.v(softmax_total(x)), r.v(over(one(), softmax_total(x))), ev(j));
    assert(r.v(softmax_of(x)[j]) == a * inv);
    assert(sum(xv, n) == g * t);
    assert((a * inv) * (g * t) == (g * a) * (inv * t)) by {
        let z = g * t;
        assert((a * inv) * z == a * (inv * z)) by (nonlinear_arith);
        assert(inv * (g * t) == g * (inv * t)) by (nonlinear_arith);
        let y = inv * t;
        assert(a * (g * y) == (g * a) * y) by (nonlinear_arith);
    }
    let z = g * a;
    assert(z * 1real == z) by (nonlinear_arith);
    assert(xv(j) == g * ev(j));
}

/// The logarithm of a probability is the score less the logarithm of the sum of the exponentials.
proof fn lemma_log_probability<F: Float>(r: Reading<F>, c: Curves, x: Seq<F>, j: int)
    requires
        r.exact(),
        c.known(),
        r.follows(c),
        0 <= j < x.len(),
    ensures
        r.v(softmax_of(x)[j]) > 0real,
        r.v(logarithm(softmax_of(x)[j])) == r.v(x[j]) - c.l(
            sum(|k: int| c.e(r.v(x[k])), x.len() as int),
        ),
{
    law_softmax_weighs_exponentials(r, c, x, j);
    let s = sum(|k: int| c.e(r.v(x[k])), x.len() as int);
    let q = r.v(softmax_of(x)[j]);
    let score = r.v(x[j]);
    assert(c.e(score) > 0real);
    lemma_quotient_sign(q, s, c.e(score));
    let (a, b) = (c.l(q), c.l(s));
    assert(c.e(a) == q);
    assert(c.e(b) == s);
    assert(c.e(a + b) == c.e(a) * c.e(b));
    assert(c.e(a + b) <= c.e(score) <==> a + b <= score);
    assert(c.e(score) <= c.e(a + b) <==> score <= a + b);
}

/// The sum of the exponentials of row `i` of a buffer of scores.
spec fn row_weight<F: Float>(r: Reading<F>, c: Curves, buf: Seq<F>, w: int, i: int) -> real {
    sum(|k: int| c.e(r.v(buf[i * w + k])), w)
}

/// What position `i` adds to the loss.
spec fn row_loss<F: Float>(
    r: Reading<F>,
    c: Curves,
    buf: Seq<F>,
    tokens: Seq<usize>,
    w: int,
    i: int,
) -> real {
    c.l(row_weight(r, c, buf, w, i)) - r.v(buf[i * w + tokens[i + 1]])
}

/// The part of [`law_loss_scores_the_next_token`] that speaks of the first `k` positions.
proof fn lemma_log_loss_value<F: Float>(
    r: Reading<F>,
    c: Curves,
    buf: Seq<F>,
    tokens: Seq<usize>,
    n: int,
    w: int,
    k: int,
)
    requires
        r.exact(),
        c.known(),
        r.follows(c),
        0 <= k <= n,
        n * w <= buf.len(),
        forall|i: int| 0 < i <= n ==> (#[trigger] tokens[i]) < w,
    ensures
        r.v(log_loss(mat(buf, n, w), tokens, k)) == sum(
            |i: int| row_loss(r, c, buf, tokens, w, i),
            k,
        ),
    decreases k,
{
    if k > 0 {
        let i = k - 1;
        lemma_log_loss_value(r, c, buf, tokens, n, w, i);
        let x = mat(buf, n, w)[i];
        let t = tokens[k] as int;
        assert(tokens[k] < w);
        lemma_row_entry(buf, i, t, n, w);
        lemma_log_probability(r, c, x, t);
        assert forall|j: int| 0 <= j < w implies #[trigger] x[j] == buf[i * w + j] by {
            lemma_row_entry(buf, i, j, n, w);
        }
        lemma_sum_eq(|j: int| c.e(r.v(x[j])), |j: int| c.e(r.v(buf[i * w + j])), w);
    }
}

/// The loss is the mean over the positions of how unlikely the scores make the token that comes
/// next: at position `i`, minus the logarithm of the probability that row `i` gives to token
/// `i + 1`, which is the logarithm of the sum of the exponentials of the row, less the score of
/// that token.
pub proof fn law_loss_scores_the_next_token<F: Float>(
    r: Reading<F>,
    c: Curves,
    buf: Seq<F>,
    tokens: Seq<usize>,
    n: int,
    w: int,
)
    requires
        r.exact(),
        c.known(),
        r.follows(c),
        1 <= n <= usize::MAX,
        n * w <= buf.len(),
        forall|i: int| 0 < i <= n ==> (#[trigger] tokens[i]) < w,
    ensures
        r.v(loss_of(mat(buf, n, w), tokens, n)) * (n as real) == sum(
            |i: int|
                c.l(sum(|k: int| c.e(r.v(buf[i * w + k])), w)) - r.v(buf[i * w + tokens[i + 1]]),
            n,
        ),
        r.v(loss_of(mat(buf, n, w), tokens, n)) * (n as real) == sum(
            |i: int|
                -r.v(
                    logarithm(softmax_of(buf.subrange(i * w, i * w + w))[tokens[i + 1] as int]),
                ),
            n,
        ),
{
    lemma_log_loss_value(r, c, buf, tokens, n, w, n);
    let rows = |i: int| row_loss(r, c, buf, tokens, w, i);
    lemma_sum_eq(
        rows,
        |i: int|
            c.l(sum(|k: int| c.e(r.v(buf[i * w + k])), w)) - r.v(buf[i * w + tokens[i + 1]]),
        n,
    );
    let logs = |i: int|
        -r.v(logarithm(softmax_of(buf.subrange(i * w, i * w + w))[tokens[i + 1] as int]));
    assert forall|i: int| 0 <= i < n implies #[trigger] rows(i) == logs(i) by {
        let x = buf.subrange(i * w, i * w + w);
        let t = tokens[i + 1] as int;
        assert(tokens[i + 1] < w);
        lemma_row_entry(buf, i, t, n, w);
        lemma_cell(i, t, n, w);
        lemma_log_probability(r, c, x, t);
        lemma_sum_eq(|j: int| c.e(r.v(x[j])), |j: int| c.e(r.v(buf[i * w + j])), w);
    }
    lemma_sum_eq(rows, logs, n);
}

/// The first token is given, not predicted: the loss does not depend on it.
pub proof fn law_loss_ignores_the_first_token<F: Float>(
    logits: Mat<F>,
    a: Seq<usize>,
    b: Seq<usize>,
    n: int,
)
    requires
        0 <= n,
        forall|i: int| 0 < i <= n ==> #[trigger] a[i] == b[i],
    ensures
        loss_of(logits, a, n) == loss_of(logits, b, n),
        forall|probs: Mat<F>| #[trigger] logit_grad(probs, a, n) == logit_grad(probs, b, n),
{
    lemma_log_loss_same(logits, a, b, n, n);
    assert forall|probs: Mat<F>| #[trigger] logit_grad(probs, a, n) == logit_grad(probs, b, n) by {
        let (x, y) = (logit_grad(probs, a, n), logit_grad(probs, b, n));
        assert forall|i: int| 0 <= i < n implies #[trigger] x[i] == y[i] by {
            assert(a[i + 1] == b[i + 1]);
            assert(x[i] =~= y[i]);
        }
        assert(x =~= y);
    }
}

/// The part of [`law_loss_ignores_the_first_token`] that speaks of the first `k` positions.
proof fn lemma_log_loss_same<F: Float>(
    logits: Mat<F>,
    a: Seq<usize>,
    b: Seq<usize>,
    n: int,
    k: int,
)
    requires
        k <= n,
        forall|i: int| 0 < i <= n ==> #[trigger] a[i] == b[i],
    ensures
        log_loss(logits, a, k) == log_loss(logits, b, k),
    decreases k,
{
    if k > 0 {
        lemma_log_loss_same(logits, a, b, n, k - 1);
        assert(a[k] == b[k]);
    }
}

/// The gradient of the scores pulls towards the next token: at position `i` it is the probability
/// of each token, less one for token `i + 1`, divided by the number of positions. So it is
/// negative for the next token and positive for every other.
pub proof fn law_score_gradient_pulls_to_the_next_token<F: Float>(
    r: Reading<F>,
    c: Curves,
    logits: Mat<F>,
    tokens: Seq<usize>,
    n: int,
    i: int,
    o: int,
)
    requires
        r.exact(),
        c.known(),
        r.follows(c),
        0 <= i < n <= usize::MAX,
        n <= logits.len(),
        2 <= logits[i].len(),
        tokens[i + 1] < logits[i].len(),
        0 <= o < logits[i].len(),
    ensures
        ({
            let g = r.v(logit_grad(probs_of(logits), tokens, n)[i][o]);
            let p = r.v(softmax_of(logits[i])[o]);
            &&& g * (n as real) == (if o == tokens[i + 1] {
                p - 1real
            } else {
                p
            })
            &&& o == tokens[i + 1] ==> g < 0real
            &&& o != tokens[i + 1] ==> g > 0real
        }),
{
    let x = logits[i];
    let g = r.v(logit_grad(probs_of(logits), tokens, n)[i][o]);
    let inv = r.v(over(one(), num::<F>(n as usize)));
    let p = r.v(softmax_of(x)[o]);
    assert(probs_of(logits)[i] == softmax_of(x));
    assert(inv * (n as real) == 1real);
    let z = if o == tokens[i + 1] {
        p - 1real
    } else {
        p
    };
    assert(g == z * inv);
    let m = n as real;
    assert((z * inv) * m == z * (inv * m)) by (nonlinear_arith);
    assert(z * 1real == z) by (nonlinear_arith);
    assert forall|a: F| r.v(#[trigger] exponential(a)) > 0real by {
        assert(c.e(r.v(a)) > 0real);
    }
    lemma_probability_below_one(r, x, o);
    if o == tokens[i + 1] {
        assert((-g) * m == -(g * m)) by (nonlinear_arith);
        lemma_quotient_sign(-g, m, -z);
    } else {
        lemma_quotient_sign(g, m, z);
    }
}

/// With two tokens or more, no probability reaches one.
proof fn lemma_probability_below_one<F: Float>(r: Reading<F>, x: Seq<F>, o: int)
    requires
        r.exact(),
        r.exponentials_positive(),
        2 <= x.len(),
        0 <= o < x.len(),
    ensures
        0real < r.v(softmax_of(x)[o]) < 1real,
{
    law_softmax_is_distribution(r, x);
    let n = x.len() as int;
    let f = |j: int| r.v(softmax_of(x)[j]);
    let other = if o == 0 {
        1int
    } else {
        0int
    };
    assert(f(other) > 0real) by {
        assert(r.v(softmax_of(x)[other]) > 0real);
    }
    let pair = |j: int|
        if j == o || j == other {
            f(j)
        } else {
            0real
        };
    let rest = |j: int| f(j) - pair(j);
    lemma_sum_plus(pair, rest, n);
    lemma_sum_eq(f, |j: int| pair(j) + rest(j), n);
    lemma_sum_not_negative(rest, n);
    let (one_of, other_of) = (
        |j: int|
            if j == o {
                f(o)
            } else {
                0real
            },
        |j: int|
            if j == other {
                f(other)
            } else {
                0real
            },
    );
    lemma_sum_single(one_of, o, n);
    lemma_sum_single(other_of, other, n);
    lemma_sum_plus(one_of, other_of, n);
    lemma_sum_eq(pair, |j: int| one_of(j) + other_of(j), n);
    assert(r.v(softmax_of(x)[o]) > 0real);
}

/// The loss of a document is the mean over its positions, up to the context length, of how
/// unlikely the network makes the token that comes next.
pub proof fn law_document_loss_scores_every_next_token<F: Float>(
    r: Reading<F>,
    c: Curves,
    m: Model,
    p: Seq<F>,
    tokens: Seq<usize>,
    n: int,
)
    requires
        r.exact(),
        c.known(),
        r.follows(c),
        m.wf(),
        2 <= tokens.len() <= usize::MAX,
        n == (if tokens.len() - 1 <= m.shape.block_size {
            tokens.len() - 1
        } else {
            m.shape.block_size as int
        }),
        forall|i: int| 0 < i <= n ==> (#[trigger] tokens[i]) < m.vocab_size,
    ensures
        ({
            let scores = network(m, p, tokens, n).logits;
            r.v(doc_loss(m, p, tokens)) * (n as real) == sum(
                |i: int|
                    c.l(sum(|k: int| c.e(r.v(scores[i][k])), m.vocab_size as int)) - r.v(
                        scores[i][tokens[i + 1] as int],
                    ),
                n,
            )
        }),
{
    let scores = network(m, p, tokens, n).logits;
    let v = m.vocab_size as int;
    assert(m.lm_head.of(p).len() == v);
    lemma_document_rows(r, c, scores, tokens, n, v, n);
    let rows = |i: int|
        c.l(sum(|k: int| c.e(r.v(scores[i][k])), v)) - r.v(scores[i][tokens[i + 1] as int]);
    lemma_sum_eq(
        rows,
        |i: int|
            c.l(sum(|k: int| c.e(r.v(scores[i][k])), m.vocab_size as int)) - r.v(
                scores[i][tokens[i + 1] as int],
            ),
        n,
    );
}

/// The losses at the first `k` rows of scores.
proof fn lemma_document_rows<F: Float>(
    r: Reading<F>,
    c: Curves,
    scores: Mat<F>,
    tokens: Seq<usize>,
    n: int,
    v: int,
    k: int,
)
    requires
        r.exact(),
        c.known(),
        r.follows(c),
        0 <= k <= n <= scores.len(),
        forall|i: int| 0 <= i < n ==> (#[trigger] scores[i]).len() == v,
        forall|i: int| 0 < i <= n ==> (#[trigger] tokens[i]) < v,
    ensures
        r.v(log_loss(scores, tokens, k)) == sum(
            |i: int|
                c.l(sum(|k: int| c.e(r.v(scores[i][k])), v)) - r.v(
                    scores[i][tokens[i + 1] as int],
                ),
            k,
        ),
    decreases k,
{
    if k > 0 {
        lemma_document_rows(r, c, scores, tokens, n, v, k - 1);
        assert(tokens[k] < v);
        assert(scores[k - 1].len() == v);
        lemma_log_probability(r, c, scores[k - 1], tokens[k] as int);
    }
}

/// The mean loss over documents is their mean: times the number of documents, it is the sum of
/// the losses of each taken alone. Over no documents it is undefined.
pub proof fn law_mean_loss_is_the_mean<F: Float>(
    r: Reading<F>,
    m: Model,
    p: Seq<F>,
    uchars: Seq<char>,
    docs: Seq<String>,
)
    requires
        r.exact(),
        docs.len() <= usize::MAX,
    ensures
        docs.len() == 0 ==> mean_loss(m, p, uchars, docs) == undefined::<F>(),
        docs.len() > 0 ==> r.v(mean_loss(m, p, uchars, docs)) * (docs.len() as real) == sum(
            |d: int| r.v(doc_loss(m, p, tokens_of(uchars, docs[d]@))),
            docs.len() as int,
        ),
{
    lemma_loss_sum(r, m, p, uchars, docs, docs.len() as int);
}

/// The losses of the first `n` documents.
proof fn lemma_loss_sum<F: Float>(
    r: Reading<F>,
    m: Model,
    p: Seq<F>,
    uchars: Seq<char>,
    docs: Seq<String>,
    n: int,
)
    requires
        r.exact(),
        0 <= n,
    ensures
        r.v(loss_sum(m, p, uchars, docs, n)) == sum(
            |d: int| r.v(doc_loss(m, p, tokens_of(uchars, docs[d]@))),
            n,
        ),
    decreases n,
{
    if n > 0 {
        lemma_loss_sum(r, m, p, uchars, docs, n - 1);
    }
}

/// The held-out loss is the mean over the documents behind the training documents, and over all
/// of them.
pub proof fn law_held_out_loss_is_the_mean<F: Float>(
    r: Reading<F>,
    m: Model,
    data: Dataset,
    p: Seq<F>,
)
    requires
        r.exact(),
        data.n_train < data.docs@.len() <= usize::MAX,
    ensures
        r.v(held_out_loss(m, data, p)) * ((data.docs@.len() - data.n_train) as real) == sum(
            |d: int| r.v(doc_loss(m, p, tokens_of(data.uchars@, data.docs@[data.n_train + d]@))),
            data.docs@.len() - data.n_train,
        ),
{
    let docs = data.docs@.subrange(data.n_train as int, data.docs@.len() as int);
    law_mean_loss_is_the_mean(r, m, p, data.uchars@, docs);
    lemma_sum_eq(
        |d: int| r.v(doc_loss(m, p, tokens_of(data.uchars@, docs[d]@))),
        |d: int| r.v(doc_loss(m, p, tokens_of(data.uchars@, data.docs@[data.n_train + d]@))),
        docs.len() as int,
    );
}

/// How the loss answers to one score, all else being equal: raising the score of the next token at
/// a position lowers the loss, and raising the score of any other token there raises it.
pub proof fn law_loss_answers_to_scores<F: Float>(
    r: Reading<F>,
    c: Curves,
    a: Seq<F>,
    b: Seq<F>,
    tokens: Seq<usize>,
    n: int,
    w: int,
    i: int,
    o: int,
)
    requires
        r.exact(),
        c.known(),
        r.follows(c),
        0 <= i < n <= usize::MAX,
        2 <= w,
        0 <= o < w,
        n * w <= a.len(),
        b.len() == a.len(),
        forall|k: int| 0 < k <= n ==> (#[trigger] tokens[k]) < w,
        r.v(b[i * w + o]) > r.v(a[i * w + o]),
        forall|x: int| 0 <= x < a.len() && x != i * w + o ==> r.v(#[trigger] b[x]) == r.v(a[x]),
    ensures
        o == tokens[i + 1] ==> r.v(loss_of(mat(b, n, w), tokens, n)) < r.v(
            loss_of(mat(a, n, w), tokens, n),
        ),
        o != tokens[i + 1] ==> r.v(loss_of(mat(b, n, w), tokens, n)) > r.v(
            loss_of(mat(a, n, w), tokens, n),
        ),
{
    lemma_log_loss_value(r, c, a, tokens, n, w, n);
    lemma_log_loss_value(r, c, b, tokens, n, w, n);
    let (fa, fb) = (
        |k: int| row_loss(r, c, a, tokens, w, k),
        |k: int| row_loss(r, c, b, tokens, w, k),
    );
    let gap = |k: int| fb(k) - fa(k);
    lemma_cell(i, o, n, w);
    assert forall|k: int| 0 <= k < n && k != i implies #[trigger] gap(k) == 0real by {
        let (ea, eb) = (|j: int| c.e(r.v(a[k * w + j])), |j: int| c.e(r.v(b[k * w + j])));
        assert forall|j: int| 0 <= j < w implies #[trigger] ea(j) == eb(j) by {
            lemma_cell(k, j, n, w);
            assert(r.v(b[k * w + j]) == r.v(a[k * w + j]));
        }
        lemma_sum_eq(ea, eb, w);
        let t = tokens[k + 1] as int;
        assert(tokens[k + 1] < w);
        lemma_cell(k, t, n, w);
        assert(r.v(b[k * w + t]) == r.v(a[k * w + t]));
    }
    lemma_sum_single(gap, i, n);
    lemma_sum_plus(fa, gap, n);
    lemma_sum_eq(fb, |k: int| fa(k) + gap(k), n);
    assert(tokens[i + 1] < w);
    lemma_row_answers(r, c, a, b, tokens, n, w, i, o);
    let (la, lb) = (
        r.v(loss_of(mat(a, n, w), tokens, n)),
        r.v(loss_of(mat(b, n, w), tokens, n)),
    );
    let m = n as real;
    let d = if gap(i) < 0real {
        la - lb
    } else {
        lb - la
    };
    assert((la - lb) * m == la * m - lb * m) by (nonlinear_arith);
    assert((lb - la) * m == lb * m - la * m) by (nonlinear_arith);
    lemma_quotient_sign(d, m, d * m);
}

/// The part of [`law_loss_answers_to_scores`] that speaks of the position of the score.
proof fn lemma_row_answers<F: Float>(
    r: Reading<F>,
    c: Curves,
    a: Seq<F>,
    b: Seq<F>,
    tokens: Seq<usize>,
    n: int,
    w: int,
    i: int,
    o: int,
)
    requires
        c.known(),
        0 <= i < n,
        2 <= w,
        0 <= o < w,
        n * w <= a.len(),
        b.len() == a.len(),
        tokens[i + 1] < w,
        r.v(b[i * w + o]) > r.v(a[i * w + o]),
        forall|x: int| 0 <= x < a.len() && x != i * w + o ==> r.v(#[trigger] b[x]) == r.v(a[x]),
    ensures
        o == tokens[i + 1] ==> row_loss(r, c, b, tokens, w, i) < row_loss(r, c, a, tokens, w, i),
        o != tokens[i + 1] ==> row_loss(r, c, b, tokens, w, i) > row_loss(r, c, a, tokens, w, i),
{
    let (ea, eb) = (|j: int| c.e(r.v(a[i * w + j])), |j: int| c.e(r.v(b[i * w + j])));
    let (xa, xb) = (r.v(a[i * w + o]), r.v(b[i * w + o]));
    let d = xb - xa;
    let t = tokens[i + 1] as int;
    lemma_cell(i, o, n, w);
    lemma_cell(i, t, n, w);
    let others = |j: int|
        if j == o {
            0real
        } else {
            ea(j)
        };
    let at = |x: real|
        |j: int|
            if j == o {
                x
            } else {
                0real
            };
    let (pa, pb) = (at(ea(o)), at(eb(o)));
    assert forall|j: int| 0 <= j < w && j != o implies #[trigger] eb(j) == ea(j) by {
        lemma_cell(i, j, n, w);
        assert(r.v(b[i * w + j]) == r.v(a[i * w + j]));
    }
    lemma_sum_single(pa, o, w);
    lemma_sum_single(pb, o, w);
    lemma_sum_plus(others, pa, w);
    lemma_sum_plus(others, pb, w);
    lemma_sum_eq(ea, |j: int| others(j) + pa(j), w);
    lemma_sum_eq(eb, |j: int| others(j) + pb(j), w);
    let rest = sum(others, w);
    let (sa, sb) = (sum(ea, w), sum(eb, w));
    assert(sa == rest + ea(o));
    assert(sb == rest + eb(o));
    assert(rest > 0real) by {
        let k = if o == 0 {
            1int
        } else {
            0int
        };
        assert(c.e(r.v(a[i * w + k])) > 0real);
        let single = |j: int|
            if j == k {
                others(k)
            } else {
                0real
            };
        let more = |j: int| others(j) - single(j);
        assert forall|j: int| 0 <= j < w implies #[trigger] more(j) >= 0real by {
            assert(c.e(r.v(a[i * w + j])) > 0real);
        }
        lemma_sum_single(single, k, w);
        lemma_sum_plus(single, more, w);
        lemma_sum_eq(others, |j: int| single(j) + more(j), w);
        lemma_sum_not_negative(more, w);
    }
    assert(c.e(xa) > 0real && c.e(xb) > 0real);
    assert(c.e(xb) <= c.e(xa) <==> xb <= xa);
    let (la, lb) = (c.l(sa), c.l(sb));
    assert(c.e(la) == sa && c.e(lb) == sb);
    if o == t {
        // all the exponentials, scaled like the one that grew, exceed the new sum
        let g = c.e(d);
        assert(c.e(xa + d) == c.e(xa) * g);
        assert(c.e(la + d) == c.e(la) * g);
        assert(c.e(d) <= c.e(0real) <==> d <= 0real);
        assert(c.e(0real + 0real) == c.e(0real) * c.e(0real));
        let u = c.e(0real);
        assert(u > 0real);
        assert(u == 1real) by {
            assert(1real * u == u) by (nonlinear_arith);
            lemma_cancel(u, 1real, u);
        }
        lemma_product_sign(rest, g - 1real);
        assert(rest * (g - 1real) == rest * g - rest) by (nonlinear_arith);
        let y = ea(o);
        assert((rest + y) * g == rest * g + y * g) by (nonlinear_arith);
        assert(sb < sa * g);
        assert(c.e(la + d) <= c.e(lb) <==> la + d <= lb);
    } else {
        assert(r.v(b[i * w + t]) == r.v(a[i * w + t]));
        assert(c.e(lb) <= c.e(la) <==> lb <= la);
    }
}

} // verus!
