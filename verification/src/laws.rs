//! What holds of the library as a whole: laws that relate several functions.
use vstd::prelude::*;

use crate::acts::Acts;
use crate::adam::{adam_params, cleared, first_moments, second_moments};
use crate::dataset::{
    ascending, covers, is_vocabulary, lemma_ascending_index, occurs, tokens_of, train_count,
    Dataset,
};
use crate::document::{lemma_empty_trace, lemma_tokens_in_range};
use crate::forward::{
    is_pass, lemma_cache, lemma_network_rows, lemma_trace_row_prefix, same_layer_row, same_row,
};
use crate::matrix::least;
use crate::model::{lemma_layer_inside, lemma_tables_inside, Model, Tensor};
use crate::network::{layer_sized, lemma_trace_determined, network, trace_row, LayerTrace, Trace};
use crate::rng::{
    advanced, advanced_by, exchanged, output, seed_mix, seeded, shuffled, SEED_MUL_1, SEED_MUL_2,
    SEED_STEP,
};
use crate::sample::{decoded, lemma_network_prefix, lemma_network_sized};
use crate::scalar::{undefined, zero, Float};
use crate::train::{
    batch_grad, batch_loss, doc_index, row_due, run_after, step_tokens, worker_grad, worker_loss,
    Plan,
};

verus! {

/// `n` passes over one position each, in order, leave the values of one pass over all `n`: the
/// stored rows of the earlier positions are a cache. Both leave the values of the network.
pub proof fn law_incremental_passes<F: Float>(
    m: Model,
    p: Seq<F>,
    tokens: Seq<usize>,
    single: Seq<Acts<F>>,
    start: Acts<F>,
    full: Acts<F>,
    n: int,
)
    requires
        m.wf(),
        0 <= n <= m.shape.block_size,
        single.len() == n + 1,
        single[0].wf(m.shape, m.vocab_size as int),
        forall|k: int|
            0 <= k < n ==> is_pass(m, p, tokens, #[trigger] single[k], single[k + 1], k, k + 1),
        start.wf(m.shape, m.vocab_size as int),
        is_pass(m, p, tokens, start, full, 0, n),
    ensures
        single[n].trace(m.shape, m.vocab_size as int, n) == network(m, p, tokens, n),
        full.trace(m.shape, m.vocab_size as int, n) == network(m, p, tokens, n),
{
    lemma_empty_trace(m, p, tokens, start);
    lemma_cache(m, p, tokens, start, full, 0, n);
    lemma_single_passes(m, p, tokens, single, n);
}

/// The part of [`law_incremental_passes`] that speaks of the first `n` single passes.
proof fn lemma_single_passes<F: Float>(
    m: Model,
    p: Seq<F>,
    tokens: Seq<usize>,
    single: Seq<Acts<F>>,
    n: int,
)
    requires
        m.wf(),
        0 <= n <= m.shape.block_size,
        single.len() > n,
        single[0].wf(m.shape, m.vocab_size as int),
        forall|k: int|
            0 <= k < n ==> is_pass(m, p, tokens, #[trigger] single[k], single[k + 1], k, k + 1),
    ensures
        single[n].wf(m.shape, m.vocab_size as int),
        single[n].trace(m.shape, m.vocab_size as int, n) == network(m, p, tokens, n),
    decreases n,
{
    if n == 0 {
        lemma_empty_trace(m, p, tokens, single[0]);
    } else {
        lemma_single_passes(m, p, tokens, single, n - 1);
        assert(is_pass(m, p, tokens, single[n - 1], single[n], n - 1, n));
        lemma_cache(m, p, tokens, single[n - 1], single[n], n - 1, n);
    }
}

/// The values at a position depend only on the tokens up to it: whatever follows, and however
/// many positions are computed, the values and the scores are the same.
pub proof fn law_causality<F: Float>(
    m: Model,
    p: Seq<F>,
    a: Seq<usize>,
    b: Seq<usize>,
    na: int,
    nb: int,
    i: int,
)
    requires
        m.wf(),
        0 <= i < na,
        i < nb,
        forall|k: int| 0 <= k <= i ==> #[trigger] a[k] == b[k],
    ensures
        same_row(m.shape, network(m, p, a, na), network(m, p, b, nb), i),
        network(m, p, a, na).logits[i] == network(m, p, b, nb).logits[i],
{
    lemma_cut(m, p, a, na, i + 1);
    lemma_cut(m, p, b, nb, i + 1);
    lemma_network_prefix(m, p, a, b, i + 1);
    let (t, u, c) = (network(m, p, a, na), network(m, p, b, nb), network(m, p, a, i + 1));
    assert(same_row(m.shape, t, c, i));
    assert(same_row(m.shape, u, c, i));
    assert forall|l: int| 0 <= l <= m.shape.n_layer implies (#[trigger] t.xs[l])[i]
        == u.xs[l][i] by {
        assert(u.xs[l][i] == c.xs[l][i]);
    }
    assert forall|l: int| 0 <= l < m.shape.n_layer implies same_layer_row(
        m.shape,
        #[trigger] t.layers[l],
        u.layers[l],
        i,
    ) by {
        assert(same_layer_row(m.shape, u.layers[l], c.layers[l], i));
        assert forall|hd: int| 0 <= hd < m.shape.n_head implies (#[trigger] t.layers[l].attn_w[hd])[i]
            == u.layers[l].attn_w[hd][i] by {
            assert(u.layers[l].attn_w[hd][i] == c.layers[l].attn_w[hd][i]);
        }
    }
}

/// The values of the first `n` positions, cut out of the values of more.
pub open spec fn cut<F>(t: Trace<F>, n: int) -> Trace<F> {
    Trace {
        x0: t.x0.take(n),
        xs: Seq::new(t.xs.len(), |l: int| t.xs[l].take(n)),
        layers: Seq::new(
            t.layers.len(),
            |l: int|
                LayerTrace {
                    h: t.layers[l].h.take(n),
                    qkv: t.layers[l].qkv.take(n),
                    attn_w: Seq::new(
                        t.layers[l].attn_w.len(),
                        |hd: int| t.layers[l].attn_w[hd].take(n),
                    ),
                    attn_out: t.layers[l].attn_out.take(n),
                    x2: t.layers[l].x2.take(n),
                    h2: t.layers[l].h2.take(n),
                    r: t.layers[l].r.take(n),
                },
        ),
        logits: t.logits.take(n),
    }
}

/// The values of the network at more positions begin with its values at fewer.
proof fn lemma_cut<F: Float>(m: Model, p: Seq<F>, tokens: Seq<usize>, to: int, n: int)
    requires
        m.wf(),
        0 <= n <= to,
    ensures
        cut(network(m, p, tokens, to), n) == network(m, p, tokens, n),
        forall|i: int|
            0 <= i < n ==> #[trigger] same_row(
                m.shape,
                network(m, p, tokens, to),
                network(m, p, tokens, n),
                i,
            ),
{
    let s = m.shape;
    let t = network(m, p, tokens, to);
    let u = cut(t, n);
    lemma_network_sized(m, p, tokens, to);
    assert forall|l: int| 0 <= l < s.n_layer implies layer_sized(s, #[trigger] u.layers[l], n) by {
        assert(layer_sized(s, t.layers[l], to));
        assert forall|hd: int| 0 <= hd < s.n_head implies (#[trigger] u.layers[l].attn_w[hd]).len()
            == n by {
            assert(t.layers[l].attn_w[hd].len() == to);
        }
    }
    assert forall|l: int| 0 <= l <= s.n_layer implies (#[trigger] u.xs[l]).len() == n by {
        assert(t.xs[l].len() == to);
    }
    assert forall|i: int| 0 <= i < n implies #[trigger] same_row(s, t, u, i) by {
        assert forall|l: int| 0 <= l <= s.n_layer implies (#[trigger] t.xs[l])[i] == u.xs[l][i] by {
        }
        assert forall|l: int| 0 <= l < s.n_layer implies same_layer_row(
            s,
            #[trigger] t.layers[l],
            u.layers[l],
            i,
        ) by {
            assert(layer_sized(s, t.layers[l], to));
        }
    }
    assert forall|i: int| 0 <= i < n implies #[trigger] trace_row(m, p, tokens, u, i) by {
        lemma_network_rows(m, p, tokens, to, i);
        lemma_trace_row_prefix(m, p, tokens, t, u, i);
    }
    lemma_trace_determined(m, p, tokens, u, n);
}

/// Where the shuffle of `n` entries in state `s` of the generator takes each entry from.
pub open spec fn shuffle_order(n: int, s: Seq<u64>) -> Seq<int> {
    shuffled(Seq::new(n as nat, |k: int| k), s, n - 1)
}

/// A shuffle only rearranges: every entry of `v` appears in the result once. Where it appears
/// depends on the state of the generator and on the number of entries alone, so the split into
/// training and held-out documents is the same for every run from the same seed.
pub proof fn law_shuffle_rearranges<T>(v: Seq<T>, s: Seq<u64>)
    ensures
        shuffle_order(v.len() as int, s).len() == v.len(),
        shuffle_order(v.len() as int, s).no_duplicates(),
        forall|k: int|
            0 <= k < v.len() ==> 0 <= #[trigger] shuffle_order(v.len() as int, s)[k] < v.len(),
        shuffled(v, s, v.len() - 1) == Seq::new(
            v.len(),
            |k: int| v[shuffle_order(v.len() as int, s)[k]],
        ),
{
    let identity = Seq::new(v.len(), |k: int| k);
    assert(Seq::new(v.len(), |k: int| v[identity[k]]) =~= v);
    lemma_shuffle_order(v, identity, s, v.len() - 1);
}

/// The part of [`law_shuffle_rearranges`] that speaks of the first `i + 1` entries, where the
/// entries were taken from `order` so far.
proof fn lemma_shuffle_order<T>(v: Seq<T>, order: Seq<int>, s: Seq<u64>, i: int)
    requires
        i < v.len(),
        order.len() == v.len(),
        order.no_duplicates(),
        forall|k: int| 0 <= k < v.len() ==> 0 <= #[trigger] order[k] < v.len(),
    ensures
        shuffled(order, s, i).len() == v.len(),
        shuffled(order, s, i).no_duplicates(),
        forall|k: int| 0 <= k < v.len() ==> 0 <= #[trigger] shuffled(order, s, i)[k] < v.len(),
        shuffled(Seq::new(v.len(), |k: int| v[order[k]]), s, i) == Seq::new(
            v.len(),
            |k: int| v[shuffled(order, s, i)[k]],
        ),
    decreases i,
{
    if i > 0 {
        let j = output(s) as int % (i + 1);
        let next = exchanged(order, i, j);
        assert(exchanged(Seq::new(v.len(), |k: int| v[order[k]]), i, j) =~= Seq::new(
            v.len(),
            |k: int| v[next[k]],
        ));
        lemma_shuffle_order(v, next, advanced(s), i - 1);
    }
}

/// The generator never reaches the state in which every word is zero, where it would stay.
pub proof fn law_state_is_never_zero(seed: u64, n: int)
    requires
        0 <= n,
    ensures
        advanced_by(seeded(seed), n).len() == 4,
        advanced_by(seeded(seed), n) != seq![0u64, 0u64, 0u64, 0u64],
    decreases n,
{
    if n == 0 {
        let z1 = seed.wrapping_add(SEED_STEP);
        let z2 = z1.wrapping_add(SEED_STEP);
        if z1 != 0 {
            lemma_mix_of_nonzero(z1);
            assert(seeded(seed)[0] == seed_mix(z1));
        } else {
            lemma_mix_of_nonzero(z2);
            assert(seeded(seed)[1] == seed_mix(z2));
        }
    } else {
        law_state_is_never_zero(seed, n - 1);
        lemma_next_of_nonzero(advanced_by(seeded(seed), n - 1));
    }
}

/// No state but the zero state is followed by the zero state.
proof fn lemma_next_of_nonzero(s: Seq<u64>)
    requires
        s.len() == 4,
        s != seq![0u64, 0u64, 0u64, 0u64],
    ensures
        advanced(s) != seq![0u64, 0u64, 0u64, 0u64],
{
    let (a, b, c, d) = (s[0], s[1], s[2], s[3]);
    if a == 0 && b == 0 && c == 0 && d == 0 {
        assert(s =~= seq![0u64, 0u64, 0u64, 0u64]);
    }
    let e = d ^ b;
    assert(a ^ e != 0 || b ^ (c ^ a) != 0 || (c ^ a) ^ (b << 17) != 0 || (e << 45) | (e >> 19) != 0)
        by (bit_vector)
        requires
            a != 0 || b != 0 || c != 0 || d != 0,
            e == d ^ b,
    ;
    let t = advanced(s);
    assert(t[0] == a ^ e);
    assert(t[1] == b ^ (c ^ a));
    assert(t[2] == (c ^ a) ^ (b << 17));
    assert(t[3] == (e << 45) | (e >> 19));
}

/// The output function of the seeding sequence maps no other number than zero to zero.
proof fn lemma_mix_of_nonzero(z: u64)
    requires
        z != 0,
    ensures
        seed_mix(z) != 0,
{
    assert(z ^ (z >> 30) != 0) by (bit_vector)
        requires
            z != 0,
    ;
    let x = (z ^ (z >> 30)).wrapping_mul(SEED_MUL_1);
    lemma_odd_multiple(z ^ (z >> 30), SEED_MUL_1, 0x96DE_1B17_3F11_9089);
    assert(x ^ (x >> 27) != 0) by (bit_vector)
        requires
            x != 0,
    ;
    let y = (x ^ (x >> 27)).wrapping_mul(SEED_MUL_2);
    lemma_odd_multiple(x ^ (x >> 27), SEED_MUL_2, 0x3196_42B2_D24D_8EC3);
    assert(y ^ (y >> 31) != 0) by (bit_vector)
        requires
            y != 0,
    ;
}

/// A multiple of a number with an inverse is zero only where the number is multiplied by zero.
proof fn lemma_odd_multiple(x: u64, factor: u64, inverse: u64)
    requires
        x != 0,
        (factor as int * inverse as int) % 0x1_0000_0000_0000_0000 == 1,
    ensures
        x.wrapping_mul(factor) != 0,
{
    if x.wrapping_mul(factor) == 0 {
        let m = 0x1_0000_0000_0000_0000int;
        let (a, f, g) = (x as int, factor as int, inverse as int);
        assert((a * f) % m == 0);
        vstd::arithmetic::div_mod::lemma_mul_mod_noop_left(a * f, g, m);
        vstd::arithmetic::div_mod::lemma_mul_mod_noop_right(a, f * g, m);
        assert((a * f) * g == a * (f * g)) by (nonlinear_arith);
        vstd::arithmetic::div_mod::lemma_small_mod(x as nat, m as nat);
    }
}

/// How many matrices the model has.
pub open spec fn tensor_count(m: Model) -> int {
    3 + 4 * m.shape.n_layer
}

/// Matrix `k` of the model, in the order of the buffer.
pub open spec fn tensor_at(m: Model, k: int) -> Tensor {
    if k == 0 {
        m.wte
    } else if k == 1 {
        m.wpe
    } else if k == 2 {
        m.lm_head
    } else {
        let l = m.layers@[(k - 3) / 4];
        if (k - 3) % 4 == 0 {
            l.wqkv
        } else if (k - 3) % 4 == 1 {
            l.wo
        } else if (k - 3) % 4 == 2 {
            l.fc1
        } else {
            l.fc2
        }
    }
}

/// Where matrix `k` starts, or the end of the buffer behind the last.
pub open spec fn tensor_start(m: Model, k: int) -> int {
    if k < tensor_count(m) {
        tensor_at(m, k).off as int
    } else {
        m.n_params as int
    }
}

/// The matrices tile the parameter buffer: they follow one another without gap or overlap from
/// the start of the buffer to its end.
pub proof fn law_tensors_tile(m: Model, k: int)
    requires
        m.wf(),
        0 <= k < tensor_count(m),
    ensures
        tensor_start(m, 0) == 0,
        tensor_start(m, tensor_count(m)) == m.n_params,
        tensor_at(m, k).off == tensor_start(m, k),
        tensor_at(m, k).end() == tensor_start(m, k + 1),
        tensor_start(m, k) <= tensor_start(m, k + 1),
{
    lemma_tables_inside(m);
    let t = tensor_at(m, k);
    assert(0 <= t.size()) by (nonlinear_arith)
        requires
            t.size() == t.rows * t.cols,
    ;
    if k >= 3 {
        lemma_layer_inside(m, (k - 3) / 4);
        if (k - 3) / 4 + 1 < m.shape.n_layer {
            lemma_layer_inside(m, (k - 3) / 4 + 1);
        }
    } else if k == 2 {
        lemma_layer_inside(m, 0);
    }
}

/// Every parameter belongs to one matrix and to no other.
pub proof fn law_parameter_has_one_tensor(m: Model, x: int)
    requires
        m.wf(),
        0 <= x < m.n_params,
    ensures
        exists|k: int|
            0 <= k < tensor_count(m) && (#[trigger] tensor_at(m, k)).off <= x < tensor_at(
                m,
                k,
            ).end(),
        forall|j: int, k: int|
            0 <= j < k < tensor_count(m) ==> !((#[trigger] tensor_at(m, j)).off <= x < tensor_at(
                m,
                j,
            ).end() && (#[trigger] tensor_at(m, k)).off <= x < tensor_at(m, k).end()),
{
    lemma_tensor_holding(m, x, tensor_count(m));
    assert forall|j: int, k: int| 0 <= j < k < tensor_count(m) implies !((#[trigger] tensor_at(
        m,
        j,
    )).off <= x < tensor_at(m, j).end() && (#[trigger] tensor_at(m, k)).off <= x < tensor_at(
        m,
        k,
    ).end()) by {
        lemma_tensors_apart(m, j, k);
        law_tensors_tile(m, k);
    }
}

/// Matrix `k` starts at or behind the end of a matrix before it.
proof fn lemma_tensors_apart(m: Model, j: int, k: int)
    requires
        m.wf(),
        0 <= j < k <= tensor_count(m),
    ensures
        tensor_at(m, j).end() <= tensor_start(m, k),
    decreases k - j,
{
    if j + 1 < k {
        lemma_tensors_apart(m, j, k - 1);
    }
    law_tensors_tile(m, k - 1);
}

/// A position below the end of the first `n` matrices lies in one of them.
proof fn lemma_tensor_holding(m: Model, x: int, n: int)
    requires
        m.wf(),
        0 <= n <= tensor_count(m),
        0 <= x < tensor_start(m, n),
    ensures
        exists|k: int|
            0 <= k < n && (#[trigger] tensor_at(m, k)).off <= x < tensor_at(m, k).end(),
    decreases n,
{
    law_tensors_tile(m, 0);
    if n > 0 {
        law_tensors_tile(m, n - 1);
        if x < tensor_at(m, n - 1).off {
            lemma_tensor_holding(m, x, n - 1);
        }
    }
}

/// The tokens between the two boundary tokens.
pub open spec fn inner_tokens(tokens: Seq<usize>) -> Seq<usize> {
    tokens.subrange(1, tokens.len() - 1)
}

/// Tokenizing loses nothing: the tokens between the boundaries decode to the document.
pub proof fn law_tokens_decode(uchars: Seq<char>, doc: Seq<char>)
    requires
        ascending(uchars),
        covers(uchars, doc),
    ensures
        decoded(uchars, inner_tokens(tokens_of(uchars, doc))) == doc,
{
    lemma_tokens_in_range(uchars, doc);
    let t = tokens_of(uchars, doc);
    assert forall|i: int| 0 <= i < doc.len() implies #[trigger] decoded(uchars, inner_tokens(t))[i]
        == doc[i] by {
        assert(inner_tokens(t)[i] == t[i + 1]);
    }
    assert(decoded(uchars, inner_tokens(t)) =~= doc);
}

/// Two documents with the same tokens are the same document.
pub proof fn law_tokens_are_injective(uchars: Seq<char>, a: Seq<char>, b: Seq<char>)
    requires
        ascending(uchars),
        covers(uchars, a),
        covers(uchars, b),
        tokens_of(uchars, a) == tokens_of(uchars, b),
    ensures
        a == b,
{
    law_tokens_decode(uchars, a);
    law_tokens_decode(uchars, b);
}

/// Decoding loses nothing either: tokens of characters, decoded and tokenized, come back between
/// the boundary tokens. So a sampled document has the tokens that it was sampled with.
pub proof fn law_decoded_tokens_come_back(uchars: Seq<char>, tokens: Seq<usize>)
    requires
        ascending(uchars),
        forall|i: int| 0 <= i < tokens.len() ==> #[trigger] tokens[i] < uchars.len(),
    ensures
        covers(uchars, decoded(uchars, tokens)),
        inner_tokens(tokens_of(uchars, decoded(uchars, tokens))) == tokens,
{
    let doc = decoded(uchars, tokens);
    assert forall|i: int| 0 <= i < doc.len() implies uchars.contains(#[trigger] doc[i]) by {
        assert(uchars[tokens[i] as int] == doc[i]);
    }
    assert forall|i: int| 0 <= i < tokens.len() implies #[trigger] inner_tokens(
        tokens_of(uchars, doc),
    )[i] == tokens[i] by {
        lemma_ascending_index(uchars, tokens[i] as int);
        assert(uchars[tokens[i] as int] == doc[i]);
    }
    assert(inner_tokens(tokens_of(uchars, doc)) =~= tokens);
}

/// The vocabulary is determined by which characters occur: the order of the documents, and how
/// often a character occurs in them, do not matter.
pub proof fn law_vocabulary_is_unique(
    v: Seq<char>,
    w: Seq<char>,
    a: Seq<Seq<char>>,
    b: Seq<Seq<char>>,
)
    requires
        is_vocabulary(v, a),
        is_vocabulary(w, b),
        forall|c: char| #[trigger] occurs(a, c) <==> occurs(b, c),
    ensures
        v == w,
{
    assert forall|c: char| #[trigger] v.contains(c) <==> w.contains(c) by {
        assert(occurs(a, c) <==> occurs(b, c));
    }
    lemma_ascending_prefix(v, w, least(v.len() as int, w.len() as int));
    if v.len() < w.len() {
        let c = w[v.len() as int];
        assert(w.contains(c));
        assert(v.contains(c));
        let k = choose|k: int| 0 <= k < v.len() && v[k] == c;
        assert(w[k] == c);
    } else if w.len() < v.len() {
        let c = v[w.len() as int];
        assert(v.contains(c));
        assert(w.contains(c));
        let k = choose|k: int| 0 <= k < w.len() && w[k] == c;
        assert(v[k] == c);
    }
    assert(v =~= w);
}

/// Ascending sequences of the same characters agree on their first `n` entries.
proof fn lemma_ascending_prefix(v: Seq<char>, w: Seq<char>, n: int)
    requires
        ascending(v),
        ascending(w),
        0 <= n <= v.len(),
        n <= w.len(),
        forall|c: char| #[trigger] v.contains(c) <==> w.contains(c),
    ensures
        forall|i: int| 0 <= i < n ==> #[trigger] v[i] == w[i],
    decreases n,
{
    if n > 0 {
        lemma_ascending_prefix(v, w, n - 1);
        let (a, b) = (v[n - 1], w[n - 1]);
        assert(v.contains(a) && w.contains(b));
        assert(w.contains(a) && v.contains(b));
        let i = choose|i: int| 0 <= i < w.len() && w[i] == a;
        let j = choose|j: int| 0 <= j < v.len() && v[j] == b;
        if i < n - 1 {
            assert(v[i] == w[i]);
        }
        if j < n - 1 {
            assert(v[j] == w[j]);
        }
    }
}

/// No document that is trained on is held out, none is left over, and at least one is trained on:
/// the training documents and the held-out documents are all the documents.
pub proof fn law_split(n_docs: int, n_eval: int)
    requires
        1 <= n_docs,
        0 <= n_eval,
    ensures
        1 <= train_count(n_docs, n_eval) <= n_docs,
        n_eval < n_docs ==> n_docs - train_count(n_docs, n_eval) == n_eval,
        n_eval >= n_docs ==> train_count(n_docs, n_eval) == 1,
{
}

/// A step only takes training documents, and the documents of a run follow one another: behind
/// the last training document comes the first, and behind the last document of a step comes the
/// first of the next.
pub proof fn law_documents_follow(epoch: int, batch: int, k: int, n_train: int)
    requires
        1 <= epoch,
        0 <= k < batch,
        1 <= n_train,
    ensures
        0 <= doc_index(epoch, batch, k, n_train) < n_train,
        doc_index(1, batch, 0, n_train) == 0,
        doc_index(epoch, batch, k + 1, n_train) == (if doc_index(epoch, batch, k, n_train) + 1
            == n_train {
            0
        } else {
            doc_index(epoch, batch, k, n_train) + 1
        }),
        doc_index(epoch + 1, batch, 0, n_train) == doc_index(epoch, batch, batch, n_train),
{
    let x = (epoch - 1) * batch + k;
    assert((epoch + 1 - 1) * batch == (epoch - 1) * batch + batch && 0 <= (epoch - 1) * batch)
        by (nonlinear_arith)
        requires
            1 <= epoch,
            0 <= batch,
    ;
    assert((x + 1) % n_train == (if x % n_train + 1 == n_train {
        0
    } else {
        x % n_train + 1
    })) by {
        vstd::arithmetic::div_mod::lemma_fundamental_div_mod(x, n_train);
        let (q, r) = (x / n_train, x % n_train);
        if r + 1 == n_train {
            assert(x + 1 == (q + 1) * n_train + 0) by (nonlinear_arith)
                requires
                    x == n_train * q + r,
                    r + 1 == n_train,
            ;
            vstd::arithmetic::div_mod::lemma_fundamental_div_mod_converse(
                x + 1,
                n_train,
                q + 1,
                0,
            );
        } else {
            assert(x + 1 == q * n_train + (r + 1)) by (nonlinear_arith)
                requires
                    x == n_train * q + r,
            ;
            vstd::arithmetic::div_mod::lemma_fundamental_div_mod_converse(
                x + 1,
                n_train,
                q,
                r + 1,
            );
        }
    }
    assert(x + 1 == (epoch - 1) * batch + (k + 1));
    assert((1 - 1) * batch + 0 == 0) by (nonlinear_arith);
    vstd::arithmetic::div_mod::lemma_small_mod(0, n_train as nat);
}

/// Keeping a loss log does not change what is trained: the parameters, the moments and the loss
/// after any number of steps are the same with and without it.
pub proof fn law_logging_changes_nothing<F: Float>(
    m: Model,
    data: Dataset,
    plan: Plan<F>,
    logging: bool,
    eval_every: usize,
    p: Seq<F>,
    steps: int,
)
    ensures
        ({
            let a = run_after(m, data, plan, p, steps);
            let b = run_after(m, data, Plan { logging, eval_every, ..plan }, p, steps);
            a.p == b.p && a.m == b.m && a.v == b.v && a.loss == b.loss
        }),
    decreases steps,
{
    if steps > 0 {
        let other = Plan { logging, eval_every, ..plan };
        law_logging_changes_nothing(m, data, plan, logging, eval_every, p, steps - 1);
        let run = run_after(m, data, plan, p, steps - 1);
        lemma_batch_same(m, data, plan, other, run.p, steps, plan.workers);
    }
}

/// What a batch gives does not depend on the loss log.
proof fn lemma_batch_same<F: Float>(
    m: Model,
    data: Dataset,
    a: Plan<F>,
    b: Plan<F>,
    p: Seq<F>,
    epoch: int,
    w: int,
)
    requires
        a.batch == b.batch,
        a.owner == b.owner,
    ensures
        batch_grad(m, data, a, p, epoch, w) == batch_grad(m, data, b, p, epoch, w),
        batch_loss(m, data, a, p, epoch, w) == batch_loss(m, data, b, p, epoch, w),
    decreases w,
{
    if w > 0 {
        lemma_batch_same(m, data, a, b, p, epoch, w - 1);
        lemma_worker_same(m, data, a, b, p, epoch, w - 1, a.batch as int);
    }
}

/// What a worker adds up does not depend on the loss log.
proof fn lemma_worker_same<F: Float>(
    m: Model,
    data: Dataset,
    a: Plan<F>,
    b: Plan<F>,
    p: Seq<F>,
    epoch: int,
    w: int,
    k: int,
)
    requires
        a.batch == b.batch,
        a.owner == b.owner,
    ensures
        worker_grad(m, data, a, p, epoch, w, k) == worker_grad(m, data, b, p, epoch, w, k),
        worker_loss(m, data, a, p, epoch, w, k) == worker_loss(m, data, b, p, epoch, w, k),
    decreases k,
{
    if k > 0 {
        lemma_worker_same(m, data, a, b, p, epoch, w, k - 1);
    }
}

/// A loss log begins before the first step. Its rows are in the order of the steps, there is one
/// for every step at which a row is due and for no other, and each holds the parameters of its
/// step. So the log of a whole run ends with the parameters that the run ends with.
pub proof fn law_loss_log<F: Float>(
    m: Model,
    data: Dataset,
    plan: Plan<F>,
    p: Seq<F>,
    steps: int,
)
    requires
        plan.logging,
        0 <= steps <= plan.num_steps,
    ensures
        ({
            let log = run_after(m, data, plan, p, steps).log;
            &&& log.len() >= 1
            &&& log[0] == (0int, undefined::<F>(), p)
            &&& forall|i: int, j: int| 0 <= i < j < log.len() ==> log[i].0 < log[j].0
            &&& forall|i: int|
                0 < i < log.len() ==> 0 < (#[trigger] log[i]).0 <= steps && row_due(
                    log[i].0,
                    plan.eval_every,
                    plan.num_steps,
                )
            &&& forall|i: int|
                0 <= i < log.len() ==> (#[trigger] log[i]).2 == run_after(
                    m,
                    data,
                    plan,
                    p,
                    log[i].0,
                ).p
            &&& forall|s: int|
                0 < s <= steps && #[trigger] row_due(s, plan.eval_every, plan.num_steps)
                    ==> exists|i: int| 0 < i < log.len() && (#[trigger] log[i]).0 == s
            &&& steps == plan.num_steps ==> log.last().0 == steps && log.last().2 == run_after(
                m,
                data,
                plan,
                p,
                steps,
            ).p
        }),
    decreases steps,
{
    let run = run_after(m, data, plan, p, steps);
    if steps > 0 {
        law_loss_log(m, data, plan, p, steps - 1);
        let before = run_after(m, data, plan, p, steps - 1).log;
        let due = row_due(steps, plan.eval_every, plan.num_steps);
        let log = run.log;
        assert(forall|i: int| 0 <= i < before.len() ==> log[i] == #[trigger] before[i]);
        if due {
            assert(log[before.len() as int].0 == steps);
        }
        assert forall|s: int|
            0 < s <= steps && #[trigger] row_due(
                s,
                plan.eval_every,
                plan.num_steps,
            ) implies exists|i: int| 0 < i < log.len() && (#[trigger] log[i]).0 == s by {
            if s < steps {
                let i = choose|i: int| 0 < i < before.len() && (#[trigger] before[i]).0 == s;
                assert(log[i].0 == s);
            }
        }
    }
}

/// The training documents are taken round and round: among any `n_train` documents that follow
/// one another, each training document is taken once.
pub proof fn law_every_document_has_its_turn(from: int, d: int, n_train: int)
    requires
        0 <= from,
        0 <= d < n_train,
    ensures
        exists|x: int| from <= x < from + n_train && #[trigger] (x % n_train) == d,
        forall|x: int, y: int|
            from <= x < y < from + n_train ==> #[trigger] (x % n_train) != #[trigger] (y
                % n_train),
{
    let (q, r) = (from / n_train, from % n_train);
    vstd::arithmetic::div_mod::lemma_fundamental_div_mod(from, n_train);
    assert(n_train * q == q * n_train) by (nonlinear_arith);
    let x = if d >= r {
        from + (d - r)
    } else {
        from + (d - r) + n_train
    };
    assert(x % n_train == d) by {
        if d >= r {
            vstd::arithmetic::div_mod::lemma_fundamental_div_mod_converse(x, n_train, q, d);
        } else {
            assert((q + 1) * n_train == q * n_train + n_train) by (nonlinear_arith);
            vstd::arithmetic::div_mod::lemma_fundamental_div_mod_converse(x, n_train, q + 1, d);
        }
    }
    assert forall|x: int, y: int| from <= x < y < from + n_train implies #[trigger] (x % n_train)
        != #[trigger] (y % n_train) by {
        if x % n_train == y % n_train {
            vstd::arithmetic::div_mod::lemma_fundamental_div_mod(x, n_train);
            vstd::arithmetic::div_mod::lemma_fundamental_div_mod(y, n_train);
            let (a, b) = (x / n_train, y / n_train);
            assert(y - x == n_train * (b - a)) by (nonlinear_arith)
                requires
                    y - x == n_train * b - n_train * a,
            ;
            let c = b - a;
            assert(n_train * c <= 0 || n_train * c >= n_train) by (nonlinear_arith)
                requires
                    n_train > 0,
            ;
        }
    }
}

/// The entries of an optimizer step are independent: a step on the whole buffers is a step on
/// their first `k` entries and a step on the rest. Afterwards the gradients are zero.
pub proof fn law_adam_step_splits<F: Float>(
    p: Seq<F>,
    m: Seq<F>,
    v: Seq<F>,
    g: Seq<F>,
    lr: F,
    t: usize,
    k: int,
)
    requires
        0 <= k <= p.len(),
        p.len() <= m.len(),
        p.len() <= v.len(),
        p.len() <= g.len(),
    ensures
        adam_params(p, m, v, g, lr, t) == adam_params(
            p.take(k),
            m.take(k),
            v.take(k),
            g.take(k),
            lr,
            t,
        ) + adam_params(p.skip(k), m.skip(k), v.skip(k), g.skip(k), lr, t),
        first_moments(m, g, p.len() as int) == first_moments(m.take(k), g.take(k), k)
            + first_moments(m.skip(k), g.skip(k), p.len() - k),
        second_moments(v, g, p.len() as int) == second_moments(v.take(k), g.take(k), k)
            + second_moments(v.skip(k), g.skip(k), p.len() - k),
        cleared(g, p.len() as int) == cleared(g.take(k), k) + cleared(g.skip(k), p.len() - k),
        forall|i: int| 0 <= i < p.len() ==> #[trigger] cleared(g, p.len() as int)[i] == zero::<F>(),
{
    assert(adam_params(p, m, v, g, lr, t) =~= adam_params(
        p.take(k),
        m.take(k),
        v.take(k),
        g.take(k),
        lr,
        t,
    ) + adam_params(p.skip(k), m.skip(k), v.skip(k), g.skip(k), lr, t));
    let n = p.len() as int;
    assert(first_moments(m, g, n) =~= first_moments(m.take(k), g.take(k), k) + first_moments(
        m.skip(k),
        g.skip(k),
        n - k,
    ));
    assert(second_moments(v, g, n) =~= second_moments(v.take(k), g.take(k), k) + second_moments(
        v.skip(k),
        g.skip(k),
        n - k,
    ));
    assert(cleared(g, n) =~= cleared(g.take(k), k) + cleared(g.skip(k), n - k));
}

/// The held-out documents do not influence training: two datasets with the same characters and
/// the same training documents give the same run, whatever they hold out.
pub proof fn law_held_out_documents_do_not_matter<F: Float>(
    m: Model,
    a: Dataset,
    b: Dataset,
    plan: Plan<F>,
    p: Seq<F>,
    steps: int,
)
    requires
        a.uchars@ == b.uchars@,
        a.n_train == b.n_train,
        a.n_train >= 1,
        forall|d: int| 0 <= d < a.n_train ==> (#[trigger] a.docs@[d])@ == b.docs@[d]@,
    ensures
        run_after(m, a, plan, p, steps) == run_after(m, b, plan, p, steps),
    decreases steps,
{
    if steps > 0 {
        law_held_out_documents_do_not_matter(m, a, b, plan, p, steps - 1);
        let run = run_after(m, a, plan, p, steps - 1);
        lemma_batch_of_same_documents(m, a, b, plan, run.p, steps, plan.workers);
    }
}

/// What a batch gives depends on the training documents only.
proof fn lemma_batch_of_same_documents<F: Float>(
    m: Model,
    a: Dataset,
    b: Dataset,
    plan: Plan<F>,
    p: Seq<F>,
    epoch: int,
    w: int,
)
    requires
        a.uchars@ == b.uchars@,
        a.n_train == b.n_train,
        a.n_train >= 1,
        forall|d: int| 0 <= d < a.n_train ==> (#[trigger] a.docs@[d])@ == b.docs@[d]@,
    ensures
        batch_grad(m, a, plan, p, epoch, w) == batch_grad(m, b, plan, p, epoch, w),
        batch_loss(m, a, plan, p, epoch, w) == batch_loss(m, b, plan, p, epoch, w),
    decreases w,
{
    if w > 0 {
        lemma_batch_of_same_documents(m, a, b, plan, p, epoch, w - 1);
        lemma_worker_of_same_documents(m, a, b, plan, p, epoch, w - 1, plan.batch as int);
    }
}

/// What a worker adds up depends on the training documents only.
proof fn lemma_worker_of_same_documents<F: Float>(
    m: Model,
    a: Dataset,
    b: Dataset,
    plan: Plan<F>,
    p: Seq<F>,
    epoch: int,
    w: int,
    k: int,
)
    requires
        a.uchars@ == b.uchars@,
        a.n_train == b.n_train,
        a.n_train >= 1,
        forall|d: int| 0 <= d < a.n_train ==> (#[trigger] a.docs@[d])@ == b.docs@[d]@,
    ensures
        worker_grad(m, a, plan, p, epoch, w, k) == worker_grad(m, b, plan, p, epoch, w, k),
        worker_loss(m, a, plan, p, epoch, w, k) == worker_loss(m, b, plan, p, epoch, w, k),
    decreases k,
{
    if k > 0 {
        lemma_worker_of_same_documents(m, a, b, plan, p, epoch, w, k - 1);
        let d = doc_index(epoch, plan.batch as int, k - 1, a.n_train as int);
        assert(a.docs@[d]@ == b.docs@[d]@);
        assert(step_tokens(a, epoch, plan.batch as int, k - 1) == step_tokens(
            b,
            epoch,
            plan.batch as int,
            k - 1,
        ));
    }
}

/// How a shuffle chooses: the first number of the generator, modulo the number of entries, names
/// the entry that comes last. The others, with the last entry in its place, are shuffled with the
/// numbers that follow. So every entry can come to stand at every place.
pub proof fn law_shuffle_draws_the_last_first<T>(v: Seq<T>, s: Seq<u64>)
    requires
        2 <= v.len(),
    ensures
        ({
            let n = v.len() as int;
            let j = output(s) as int % n;
            let out = shuffled(v, s, n - 1);
            &&& out.len() == n
            &&& out[n - 1] == v[j]
            &&& out.take(n - 1) == shuffled(
                v.update(j, v[n - 1]).take(n - 1),
                advanced(s),
                n - 2,
            )
        }),
{
    let n = v.len() as int;
    let j = output(s) as int % n;
    let w = exchanged(v, n - 1, j);
    lemma_shuffle_below(w, advanced(s), n - 2, n - 1);
    assert(w.take(n - 1) =~= v.update(j, v[n - 1]).take(n - 1));
}

/// A shuffle of the first `i + 1` entries keeps the entries from `m` on.
proof fn lemma_shuffle_below<T>(v: Seq<T>, s: Seq<u64>, i: int, m: int)
    requires
        i < m <= v.len(),
    ensures
        shuffled(v, s, i).len() == v.len(),
        shuffled(v, s, i).take(m) == shuffled(v.take(m), s, i),
        forall|k: int| m <= k < v.len() ==> #[trigger] shuffled(v, s, i)[k] == v[k],
    decreases i,
{
    if i > 0 {
        let j = output(s) as int % (i + 1);
        let w = exchanged(v, i, j);
        lemma_shuffle_below(w, advanced(s), i - 1, m);
        assert(w.take(m) =~= exchanged(v.take(m), i, j));
    }
}

} // verus!
