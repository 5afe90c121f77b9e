//! Activations and scratch buffers: allocated once for a whole block of positions and used again
//! at every step. The stored keys and values are the cache that incremental inference needs.
use vstd::prelude::*;

use crate::attention::{all_weights, weights_same_outside};
use crate::matrix::{mat, same_outside};
use crate::model::{Model, Shape};
use crate::network::{LayerTrace, Trace};
use crate::scalar::{deterministic, zero, Float};

verus! {

/// Every entry is zero.
pub open spec fn all_zero<F: Float>(v: Seq<F>) -> bool {
    forall|i: int| 0 <= i < v.len() ==> #[trigger] v[i] == zero::<F>()
}

/// A buffer of `n` zeros.
pub fn zeros<F: Float>(n: usize) -> (v: Vec<F>)
    ensures
        v@.len() == n,
        deterministic::<F>() ==> all_zero(v@),
{
    let z = F::from_usize(0);
    let mut v: Vec<F> = Vec::with_capacity(n);
    let mut i: usize = 0;
    while i < n
        invariant
            i <= n,
            v@.len() == i,
            deterministic::<F>() ==> z == zero::<F>(),
            deterministic::<F>() ==> all_zero(v@),
        decreases n - i,
    {
        v.push(z);
        i = i + 1;
    }
    v
}

/// The activations of one layer.
pub struct LayerActs<F> {
    /// The normalised input, which goes into the query, key and value projections.
    pub h: Vec<F>,
    /// Query, key and value.
    pub qkv: Vec<F>,
    /// The attention weights, by head and position; only those up to the position are used.
    pub attn_w: Vec<F>,
    /// The outputs of the heads, side by side.
    pub attn_out: Vec<F>,
    /// The residual stream behind the attention.
    pub x2: Vec<F>,
    /// The normalised residual stream.
    pub h2: Vec<F>,
    /// The hidden values of the MLP.
    pub r: Vec<F>,
}

/// The activations of the network.
pub struct Acts<F> {
    /// Token embedding plus position embedding.
    pub x0: Vec<F>,
    /// The input of each layer, and behind the last its output.
    pub xs: Vec<Vec<F>>,
    /// The activations of each layer.
    pub layers: Vec<LayerActs<F>>,
    /// The scores of the next token.
    pub logits: Vec<F>,
    /// The probabilities of the next token.
    pub probs: Vec<F>,
}

/// Scratch buffers for the backward pass.
pub struct Grads<F> {
    /// The gradient of the residual stream behind a layer.
    pub dx: Vec<F>,
    /// The gradient of the residual stream behind the attention.
    pub dx2: Vec<F>,
    /// The gradient of the outputs of the heads.
    pub datt: Vec<F>,
    /// The gradient of a normalised row.
    pub dh: Vec<F>,
    /// The gradient of the hidden values of the MLP.
    pub dr: Vec<F>,
    /// The gradient of query, key and value.
    pub dqkv: Vec<F>,
    /// The gradient of the weights of one head at one position.
    pub dw: Vec<F>,
    /// The gradient of the scores of the next token.
    pub dlogits: Vec<F>,
    /// The gradient of an embedding.
    pub dx0: Vec<F>,
}

impl Shape {
    /// The sizes of the buffers for a block of positions are numbers that the machine has.
    pub open spec fn buffers_fit(self, vocab_size: int) -> bool {
        &&& self.block_size * (4 * self.n_embd) <= usize::MAX
        &&& (self.n_head * self.block_size) * self.block_size <= usize::MAX
        &&& self.block_size * vocab_size <= usize::MAX
    }

    /// How many parameters the model has, if the machine has the number.
    pub fn checked_params(&self, vocab_size: usize) -> (r: Option<usize>)
        requires
            self.wf(),
        ensures
            match r {
                Some(n) => n == self.params(vocab_size as int),
                None => self.params(vocab_size as int) > usize::MAX,
            },
    {
        let (e, t): (usize, usize) = (self.n_embd, self.block_size);
        let ghost (v, l, p) = (vocab_size as int, self.n_layer as int, self.layer_params());
        proof {
            assert(0 <= v * e && 0 <= t * e && 0 <= e * e) by (nonlinear_arith)
                requires
                    0 <= v,
                    0 <= e,
                    0 <= t,
            ;
            assert(p <= l * p) by (nonlinear_arith)
                requires
                    1 <= l,
                    0 <= p,
            ;
        }
        let table: usize = vocab_size.checked_mul(e)?;
        let tables: usize = table.checked_mul(2)?;
        let places: usize = t.checked_mul(e)?;
        let square: usize = e.checked_mul(e)?;
        let layer: usize = square.checked_mul(12)?;
        let layers: usize = self.n_layer.checked_mul(layer)?;
        let embeddings: usize = tables.checked_add(places)?;
        embeddings.checked_add(layers)
    }

    /// Whether the machine has the numbers of parameters and of the entries of every buffer.
    pub fn fits(&self, vocab_size: usize) -> (r: bool)
        requires
            self.wf(),
        ensures
            r <==> self.params(vocab_size as int) <= usize::MAX && self.buffers_fit(
                vocab_size as int,
            ),
    {
        let t: usize = self.block_size;
        proof {
            let (e, b, h) = (self.n_embd as int, t as int, self.n_head as int);
            assert(4 * e <= b * (4 * e) && h * b <= (h * b) * b) by (nonlinear_arith)
                requires
                    1 <= e,
                    1 <= b,
                    1 <= h,
            ;
        }
        let hidden = match self.n_embd.checked_mul(4) {
            Some(width) => t.checked_mul(width).is_some(),
            None => false,
        };
        let weights = match self.n_head.checked_mul(t) {
            Some(rows) => rows.checked_mul(t).is_some(),
            None => false,
        };
        self.checked_params(vocab_size).is_some() && hidden && weights && t.checked_mul(
            vocab_size,
        ).is_some()
    }
}

/// What [`Shape::buffers_fit`] means for the smaller buffers.
proof fn lemma_sizes(s: Shape)
    requires
        s.wf(),
        s.block_size * (4 * s.n_embd) <= usize::MAX,
    ensures
        s.block_size * s.n_embd <= usize::MAX,
        s.block_size * (3 * s.n_embd) <= usize::MAX,
        3 * s.n_embd <= usize::MAX,
        4 * s.n_embd <= usize::MAX,
{
    let (t, e) = (s.block_size as int, s.n_embd as int);
    assert(t * e <= t * (4 * e) && t * (3 * e) <= t * (4 * e) && 4 * e <= t * (4 * e))
        by (nonlinear_arith)
        requires
            t >= 1,
            e >= 1,
    ;
}

impl<F> LayerActs<F> {
    /// Every buffer has room for a whole block.
    pub open spec fn wf(self, s: Shape) -> bool {
        let (t, e) = (s.block_size as int, s.n_embd as int);
        &&& self.h@.len() == t * e
        &&& self.qkv@.len() == t * (3 * e)
        &&& self.attn_w@.len() == (s.n_head * t) * t
        &&& self.attn_out@.len() == t * e
        &&& self.x2@.len() == t * e
        &&& self.h2@.len() == t * e
        &&& self.r@.len() == t * s.hidden()
    }

    /// The values at the first `n` positions.
    pub open spec fn trace(self, s: Shape, n: int) -> LayerTrace<F> {
        let e = s.n_embd as int;
        LayerTrace {
            h: mat(self.h@, n, e),
            qkv: mat(self.qkv@, n, 3 * e),
            attn_w: all_weights(self.attn_w@, s, n),
            attn_out: mat(self.attn_out@, n, e),
            x2: mat(self.x2@, n, e),
            h2: mat(self.h2@, n, e),
            r: mat(self.r@, n, s.hidden()),
        }
    }

    /// `self` is `before` but for the rows `from..to`.
    pub open spec fn same_outside(self, before: Self, s: Shape, from: int, to: int) -> bool {
        let e = s.n_embd as int;
        &&& same_outside(before.h@, self.h@, from * e, to * e)
        &&& same_outside(before.qkv@, self.qkv@, from * (3 * e), to * (3 * e))
        &&& weights_same_outside(before.attn_w@, self.attn_w@, s, from, to)
        &&& same_outside(before.attn_out@, self.attn_out@, from * e, to * e)
        &&& same_outside(before.x2@, self.x2@, from * e, to * e)
        &&& same_outside(before.h2@, self.h2@, from * e, to * e)
        &&& same_outside(before.r@, self.r@, from * s.hidden(), to * s.hidden())
    }
}

impl<F: Float> LayerActs<F> {
    /// Every entry is zero.
    pub open spec fn is_zero(self) -> bool {
        &&& all_zero(self.h@)
        &&& all_zero(self.qkv@)
        &&& all_zero(self.attn_w@)
        &&& all_zero(self.attn_out@)
        &&& all_zero(self.x2@)
        &&& all_zero(self.h2@)
        &&& all_zero(self.r@)
    }

    /// Activations that are all zero.
    pub fn zeroed(s: &Shape) -> (a: Self)
        requires
            s.wf(),
            s.block_size * (4 * s.n_embd) <= usize::MAX,
            (s.n_head * s.block_size) * s.block_size <= usize::MAX,
        ensures
            a.wf(*s),
            deterministic::<F>() ==> a.is_zero(),
    {
        proof {
            lemma_sizes(*s);
            assert(s.n_head * s.block_size <= (s.n_head * s.block_size) * s.block_size)
                by (nonlinear_arith)
                requires
                    s.n_head >= 1,
                    s.block_size >= 1,
            ;
        }
        let t: usize = s.block_size;
        let e: usize = s.n_embd;
        LayerActs {
            h: zeros(t * e),
            qkv: zeros(t * (3 * e)),
            attn_w: zeros(s.n_head * t * t),
            attn_out: zeros(t * e),
            x2: zeros(t * e),
            h2: zeros(t * e),
            r: zeros(t * (4 * e)),
        }
    }
}

impl<F> Acts<F> {
    /// Every buffer has room for a whole block.
    pub open spec fn wf(self, s: Shape, vocab_size: int) -> bool {
        let (t, e) = (s.block_size as int, s.n_embd as int);
        &&& self.x0@.len() == t * e
        &&& self.xs@.len() == s.n_layer + 1
        &&& forall|l: int| 0 <= l <= s.n_layer ==> (#[trigger] self.xs@[l])@.len() == t * e
        &&& self.layers@.len() == s.n_layer
        &&& forall|l: int| 0 <= l < s.n_layer ==> (#[trigger] self.layers@[l]).wf(s)
        &&& self.logits@.len() == t * vocab_size
        &&& self.probs@.len() == t * vocab_size
    }

    /// The values at the first `n` positions.
    pub open spec fn trace(self, s: Shape, vocab_size: int, n: int) -> Trace<F> {
        let e = s.n_embd as int;
        Trace {
            x0: mat(self.x0@, n, e),
            xs: Seq::new(self.xs@.len(), |l: int| mat(self.xs@[l]@, n, e)),
            layers: Seq::new(self.layers@.len(), |l: int| self.layers@[l].trace(s, n)),
            logits: mat(self.logits@, n, vocab_size),
        }
    }

    /// `self` is `before` but for the rows `from..to`, and has the same probabilities.
    pub open spec fn same_outside(
        self,
        before: Self,
        s: Shape,
        vocab_size: int,
        from: int,
        to: int,
    ) -> bool {
        let e = s.n_embd as int;
        &&& same_outside(before.x0@, self.x0@, from * e, to * e)
        &&& self.xs@.len() == before.xs@.len()
        &&& forall|l: int|
            0 <= l < self.xs@.len() ==> same_outside(
                before.xs@[l]@,
                (#[trigger] self.xs@[l])@,
                from * e,
                to * e,
            )
        &&& self.layers@.len() == before.layers@.len()
        &&& forall|l: int|
            0 <= l < self.layers@.len() ==> (#[trigger] self.layers@[l]).same_outside(
                before.layers@[l],
                s,
                from,
                to,
            )
        &&& same_outside(before.logits@, self.logits@, from * vocab_size, to * vocab_size)
        &&& self.probs@ == before.probs@
    }
}

impl<F: Float> Acts<F> {
    /// Every entry is zero.
    pub open spec fn is_zero(self) -> bool {
        &&& all_zero(self.x0@)
        &&& forall|l: int| 0 <= l < self.xs@.len() ==> all_zero((#[trigger] self.xs@[l])@)
        &&& forall|l: int| 0 <= l < self.layers@.len() ==> (#[trigger] self.layers@[l]).is_zero()
        &&& all_zero(self.logits@)
        &&& all_zero(self.probs@)
    }

    /// Activations for a model, all zero.
    pub fn new(model: &Model) -> (a: Self)
        requires
            model.wf(),
            model.shape.buffers_fit(model.vocab_size as int),
        ensures
            a.wf(model.shape, model.vocab_size as int),
            deterministic::<F>() ==> a.is_zero(),
    {
        let s = &model.shape;
        let t: usize = s.block_size;
        let e: usize = s.n_embd;
        let v: usize = model.vocab_size;
        proof {
            lemma_sizes(*s);
        }
        let mut xs: Vec<Vec<F>> = Vec::new();
        let mut layers: Vec<LayerActs<F>> = Vec::new();
        let mut l: usize = 0;
        xs.push(zeros(t * e));
        while l < s.n_layer
            invariant
                l <= s.n_layer,
                *s == model.shape,
                t == s.block_size,
                e == s.n_embd,
                s.wf(),
                s.block_size * (4 * s.n_embd) <= usize::MAX,
                (s.n_head * s.block_size) * s.block_size <= usize::MAX,
                t * e <= usize::MAX,
                xs@.len() == l + 1,
                layers@.len() == l,
                forall|k: int| 0 <= k <= l ==> (#[trigger] xs@[k])@.len() == t * e,
                forall|k: int| 0 <= k < l ==> (#[trigger] layers@[k]).wf(*s),
                deterministic::<F>() ==> forall|k: int|
                    0 <= k < xs@.len() ==> all_zero((#[trigger] xs@[k])@),
                deterministic::<F>() ==> forall|k: int|
                    0 <= k < layers@.len() ==> (#[trigger] layers@[k]).is_zero(),
            decreases s.n_layer - l,
        {
            xs.push(zeros(t * e));
            layers.push(LayerActs::zeroed(s));
            l = l + 1;
        }
        Acts { x0: zeros(t * e), xs, layers, logits: zeros(t * v), probs: zeros(t * v) }
    }
}

impl<F> Grads<F> {
    /// Every buffer has room for a whole block.
    pub open spec fn wf(self, s: Shape, vocab_size: int) -> bool {
        let (t, e) = (s.block_size as int, s.n_embd as int);
        &&& self.dx@.len() == t * e
        &&& self.dx2@.len() == t * e
        &&& self.datt@.len() == t * e
        &&& self.dh@.len() == t * e
        &&& self.dr@.len() == t * s.hidden()
        &&& self.dqkv@.len() == t * (3 * e)
        &&& self.dw@.len() == t
        &&& self.dlogits@.len() == t * vocab_size
        &&& self.dx0@.len() == e
    }
}

impl<F: Float> Grads<F> {
    /// Every entry is zero.
    pub open spec fn is_zero(self) -> bool {
        &&& all_zero(self.dx@)
        &&& all_zero(self.dx2@)
        &&& all_zero(self.datt@)
        &&& all_zero(self.dh@)
        &&& all_zero(self.dr@)
        &&& all_zero(self.dqkv@)
        &&& all_zero(self.dw@)
        &&& all_zero(self.dlogits@)
        &&& all_zero(self.dx0@)
    }

    /// Scratch buffers for a model, all zero.
    pub fn new(model: &Model) -> (g: Self)
        requires
            model.wf(),
            model.shape.buffers_fit(model.vocab_size as int),
        ensures
            g.wf(model.shape, model.vocab_size as int),
            deterministic::<F>() ==> g.is_zero(),
    {
        let s = &model.shape;
        let t: usize = s.block_size;
        let e: usize = s.n_embd;
        proof {
            lemma_sizes(*s);
        }
        Grads {
            dx: zeros(t * e),
            dx2: zeros(t * e),
            datt: zeros(t * e),
            dh: zeros(t * e),
            dr: zeros(t * (4 * e)),
            dqkv: zeros(t * (3 * e)),
            dw: zeros(t),
            dlogits: zeros(t * model.vocab_size),
            dx0: zeros(e),
        }
    }
}

} // verus!
