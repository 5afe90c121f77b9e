//! The shape of the model: where each weight matrix lives inside one flat parameter buffer.
use vstd::prelude::*;

use crate::kernels::row;
use crate::matrix::{lemma_row_len, mat, Mat};
use crate::rng::{advanced_by, gauss_of, Rng};
use crate::scalar::{deterministic, ratio, ratio_of, zero, Float};

verus! {

/// The default number of layers.
pub const N_LAYER: usize = 1;

/// The default width of the network.
pub const N_EMBD: usize = 16;

/// The default number of attention heads.
pub const N_HEAD: usize = 4;

/// The default context length.
pub const BLOCK_SIZE: usize = 16;

/// The dimensions of the network.
#[derive(Clone, Copy, Debug, PartialEq, Eq, Structural)]
pub struct Shape {
    /// Depth of the transformer.
    pub n_layer: usize,
    /// Width of the network.
    pub n_embd: usize,
    /// Number of attention heads.
    pub n_head: usize,
    /// Maximum context length.
    pub block_size: usize,
}

/// Why four numbers are no shape.
#[derive(Clone, Copy, Debug, PartialEq, Eq, Structural)]
pub enum ShapeError {
    /// A dimension is zero.
    ZeroDimension,
    /// The width is no multiple of the number of heads.
    UnevenHeads,
}

impl Shape {
    /// Every dimension is at least one, and the heads share the width evenly.
    pub open spec fn wf(self) -> bool {
        &&& self.n_layer >= 1
        &&& self.n_embd >= 1
        &&& self.n_head >= 1
        &&& self.block_size >= 1
        &&& self.n_embd % self.n_head == 0
    }

    /// The dimension of each head.
    pub open spec fn hd(self) -> int {
        self.n_embd as int / self.n_head as int
    }

    /// The hidden width of the MLP: four times the width of the network.
    pub open spec fn hidden(self) -> int {
        4 * self.n_embd
    }

    /// How many parameters a layer has: the fused query, key and value projections, the output
    /// projection and the two matrices of the MLP.
    pub open spec fn layer_params(self) -> int {
        12 * (self.n_embd * self.n_embd)
    }

    /// How many parameters the embeddings and the output head have.
    pub open spec fn table_params(self, vocab_size: int) -> int {
        2 * (vocab_size * self.n_embd) + self.block_size * self.n_embd
    }

    /// How many parameters the model has.
    pub open spec fn params(self, vocab_size: int) -> int {
        self.table_params(vocab_size) + self.n_layer * self.layer_params()
    }

    /// A shape, if the dimensions make one.
    pub fn new(n_layer: usize, n_embd: usize, n_head: usize, block_size: usize) -> (r: Result<
        Shape,
        ShapeError,
    >)
        ensures
            match r {
                Ok(shape) => shape.wf() && shape == (Shape { n_layer, n_embd, n_head, block_size }),
                Err(e) => if n_layer == 0 || n_embd == 0 || n_head == 0 || block_size == 0 {
                    e == ShapeError::ZeroDimension
                } else {
                    n_embd % n_head != 0 && e == ShapeError::UnevenHeads
                },
            },
    {
        if n_layer == 0 || n_embd == 0 || n_head == 0 || block_size == 0 {
            return Err(ShapeError::ZeroDimension);
        }
        if n_embd % n_head != 0 {
            return Err(ShapeError::UnevenHeads);
        }
        Ok(Shape { n_layer, n_embd, n_head, block_size })
    }

    /// The dimension of each head.
    pub fn head_dim(&self) -> (r: usize)
        requires
            self.wf(),
        ensures
            r == self.hd(),
            r >= 1,
            r * self.n_head == self.n_embd,
    {
        proof {
            let (e, h) = (self.n_embd as int, self.n_head as int);
            vstd::arithmetic::div_mod::lemma_fundamental_div_mod(e, h);
            assert(h * (e / h) == (e / h) * h) by (nonlinear_arith);
            assert(e / h >= 1) by (nonlinear_arith)
                requires
                    e == (e / h) * h,
                    e >= 1,
                    h >= 1,
            ;
        }
        self.n_embd / self.n_head
    }
}

impl Default for Shape {
    fn default() -> (r: Shape)
        ensures
            r == (Shape {
                n_layer: N_LAYER,
                n_embd: N_EMBD,
                n_head: N_HEAD,
                block_size: BLOCK_SIZE,
            }),
            r.wf(),
    {
        Shape { n_layer: N_LAYER, n_embd: N_EMBD, n_head: N_HEAD, block_size: BLOCK_SIZE }
    }
}

/// A matrix inside a flat buffer.
#[derive(Clone, Copy, Debug, PartialEq, Eq, Structural)]
pub struct Tensor {
    /// Where the matrix starts.
    pub off: usize,
    /// How many rows it has.
    pub rows: usize,
    /// How many columns it has.
    pub cols: usize,
}

impl Tensor {
    /// How many entries the matrix has.
    pub open spec fn size(self) -> int {
        self.rows * self.cols
    }

    /// Where the matrix ends.
    pub open spec fn end(self) -> int {
        self.off + self.size()
    }

    /// The entries of the matrix.
    pub open spec fn slice_of<F>(self, buf: Seq<F>) -> Seq<F> {
        buf.subrange(self.off as int, self.end())
    }

    /// The matrix that a buffer holds.
    pub open spec fn of<F>(self, buf: Seq<F>) -> Mat<F> {
        mat(self.slice_of(buf), self.rows as int, self.cols as int)
    }

    /// How many entries the matrix has.
    pub fn len(&self) -> (r: usize)
        requires
            self.size() <= usize::MAX,
        ensures
            r == self.size(),
    {
        self.rows * self.cols
    }

    /// The matrix inside a buffer.
    pub fn view<'a, F: Float>(&self, buf: &'a [F]) -> (r: &'a [F])
        requires
            self.end() <= buf.len(),
        ensures
            r@ == self.slice_of(buf@),
            r@.len() == self.size(),
    {
        proof {
            assert(0 <= self.size()) by (nonlinear_arith)
                requires
                    self.size() == self.rows * self.cols,
            ;
        }
        &buf[self.off..self.off + self.len()]
    }

    /// The matrix inside a buffer, to write to.
    pub fn view_mut<'a, F: Float>(&self, buf: &'a mut [F]) -> (r: &'a mut [F])
        requires
            self.end() <= old(buf).len(),
        ensures
            r@ == self.slice_of(old(buf)@),
            r@.len() == self.size(),
            final(r)@.len() == self.size() ==> final(buf)@ == old(buf)@.take(self.off as int)
                + final(r)@ + old(buf)@.skip(self.end()),
    {
        proof {
            assert(0 <= self.size()) by (nonlinear_arith)
                requires
                    self.size() == self.rows * self.cols,
            ;
        }
        let n: usize = self.len();
        let (_head, rest) = buf.split_at_mut(self.off);
        let (r, _tail) = rest.split_at_mut(n);
        r
    }

    /// Row `r` of the matrix inside a buffer.
    pub fn row<'a, F: Float>(&self, buf: &'a [F], r: usize) -> (out: &'a [F])
        requires
            self.end() <= buf.len(),
            r < self.rows,
        ensures
            out@ == self.of(buf@)[r as int],
            out@.len() == self.cols,
    {
        proof {
            assert(0 <= self.size()) by (nonlinear_arith)
                requires
                    self.size() == self.rows * self.cols,
            ;
            lemma_row_len(self.slice_of(buf@), r as int, self.rows as int, self.cols as int);
        }
        row(self.view(buf), r, self.cols)
    }
}

/// The matrices of one layer.
#[derive(Clone, Copy, Debug, PartialEq, Eq, Structural)]
pub struct LayerShapes {
    /// `[3 * n_embd][n_embd]`: the query, key and value projections in one matrix.
    pub wqkv: Tensor,
    /// `[n_embd][n_embd]`
    pub wo: Tensor,
    /// `[4 * n_embd][n_embd]`
    pub fc1: Tensor,
    /// `[n_embd][4 * n_embd]`
    pub fc2: Tensor,
}

/// The layout of the parameters.
pub struct Model {
    /// The dimensions.
    pub shape: Shape,
    /// How many tokens there are.
    pub vocab_size: usize,
    /// `[vocab_size][n_embd]` token embeddings
    pub wte: Tensor,
    /// `[block_size][n_embd]` position embeddings
    pub wpe: Tensor,
    /// `[vocab_size][n_embd]` output head
    pub lm_head: Tensor,
    /// The matrices of each layer.
    pub layers: Vec<LayerShapes>,
    /// How many parameters there are.
    pub n_params: usize,
}

/// The standard deviation of the initial parameters: `8 / 100`.
pub open spec fn init_std<F: Float>() -> F {
    ratio_of(8, 100)
}

/// A matrix of the given size at an offset.
pub open spec fn is_tensor(t: Tensor, off: int, rows: int, cols: int) -> bool {
    t.off == off && t.rows == rows && t.cols == cols
}

/// The matrices of a layer that starts at `base`, one after the other.
pub open spec fn is_layer(l: LayerShapes, base: int, shape: Shape) -> bool {
    let e = shape.n_embd as int;
    let sq = e * e;
    &&& is_tensor(l.wqkv, base, 3 * e, e)
    &&& is_tensor(l.wo, base + 3 * sq, e, e)
    &&& is_tensor(l.fc1, base + 4 * sq, 4 * e, e)
    &&& is_tensor(l.fc2, base + 8 * sq, e, 4 * e)
}

impl Model {
    /// Where layer `l` starts.
    pub open spec fn layer_base(self, l: int) -> int {
        self.shape.table_params(self.vocab_size as int) + l * self.shape.layer_params()
    }

    /// The matrices follow one another from the start of the buffer: token embeddings, position
    /// embeddings, output head, then layer after layer.
    pub open spec fn wf(self) -> bool {
        let e = self.shape.n_embd as int;
        let v = self.vocab_size as int;
        let t = self.shape.block_size as int;
        &&& self.shape.wf()
        &&& is_tensor(self.wte, 0, v, e)
        &&& is_tensor(self.wpe, v * e, t, e)
        &&& is_tensor(self.lm_head, v * e + t * e, v, e)
        &&& self.layers@.len() == self.shape.n_layer
        &&& forall|l: int|
            0 <= l < self.shape.n_layer ==> is_layer(
                #[trigger] self.layers@[l],
                self.layer_base(l),
                self.shape,
            )
        &&& self.n_params == self.shape.params(v)
    }

    /// The layout for a vocabulary, in the default shape.
    pub fn new(vocab_size: usize) -> (model: Self)
        requires
            (2 * vocab_size + BLOCK_SIZE) * N_EMBD + N_LAYER * 12 * N_EMBD * N_EMBD <= usize::MAX,
        ensures
            model.wf(),
            model.vocab_size == vocab_size,
            model.shape == (Shape {
                n_layer: N_LAYER,
                n_embd: N_EMBD,
                n_head: N_HEAD,
                block_size: BLOCK_SIZE,
            }),
    {
        Model::with_shape(vocab_size, Shape::default())
    }

    /// The layout for a vocabulary and a shape.
    pub fn with_shape(vocab_size: usize, shape: Shape) -> (model: Self)
        requires
            shape.wf(),
            shape.params(vocab_size as int) <= usize::MAX,
        ensures
            model.wf(),
            model.vocab_size == vocab_size,
            model.shape == shape,
    {
        let e: usize = shape.n_embd;
        let ghost ei = e as int;
        let ghost sq = ei * ei;
        proof {
            assert(0 <= vocab_size * ei && 0 <= shape.block_size * ei && 1 <= sq && ei <= sq)
                by (nonlinear_arith)
                requires
                    ei >= 1,
                    sq == ei * ei,
            ;
            assert((3 * ei) * ei == 3 * sq && (4 * ei) * ei == 4 * sq && ei * (4 * ei) == 4 * sq)
                by (nonlinear_arith)
                requires
                    sq == ei * ei,
            ;
            assert(shape.layer_params() <= shape.n_layer * shape.layer_params()) by (nonlinear_arith)
                requires
                    shape.n_layer >= 1,
                    shape.layer_params() >= 0,
            ;
        }
        let mut n: usize = 0;
        let wte = Tensor { off: n, rows: vocab_size, cols: e };
        n = n + vocab_size * e;
        let wpe = Tensor { off: n, rows: shape.block_size, cols: e };
        n = n + shape.block_size * e;
        let lm_head = Tensor { off: n, rows: vocab_size, cols: e };
        n = n + vocab_size * e;
        let ghost tables = shape.table_params(vocab_size as int);
        let mut layers: Vec<LayerShapes> = Vec::new();
        let mut l: usize = 0;
        while l < shape.n_layer
            invariant
                l <= shape.n_layer,
                e == shape.n_embd,
                ei == e,
                sq == ei * ei,
                ei >= 1,
                ei <= sq,
                (3 * ei) * ei == 3 * sq,
                (4 * ei) * ei == 4 * sq,
                ei * (4 * ei) == 4 * sq,
                tables == shape.table_params(vocab_size as int),
                tables >= 0,
                shape.params(vocab_size as int) <= usize::MAX,
                n == tables + l * shape.layer_params(),
                layers@.len() == l,
                forall|k: int|
                    0 <= k < l ==> is_layer(
                        #[trigger] layers@[k],
                        tables + k * shape.layer_params(),
                        shape,
                    ),
            decreases shape.n_layer - l,
        {
            proof {
                let p = shape.layer_params();
                assert((l + 1) * p == l * p + p) by (nonlinear_arith);
                assert((l + 1) * p <= shape.n_layer * p) by (nonlinear_arith)
                    requires
                        l + 1 <= shape.n_layer,
                        p >= 0,
                ;
                assert(0 <= l * p) by (nonlinear_arith)
                    requires
                        p >= 0,
                ;
            }
            let wqkv = Tensor { off: n, rows: 3 * e, cols: e };
            let wo = Tensor { off: n + 3 * e * e, rows: e, cols: e };
            let fc1 = Tensor { off: n + 3 * e * e + e * e, rows: 4 * e, cols: e };
            let fc2 = Tensor { off: n + 3 * e * e + e * e + 4 * e * e, rows: e, cols: 4 * e };
            layers.push(LayerShapes { wqkv, wo, fc1, fc2 });
            n = n + 3 * e * e + e * e + 4 * e * e + e * (4 * e);
            l = l + 1;
        }
        Model { shape, vocab_size, wte, wpe, lm_head, layers, n_params: n }
    }

    /// The initial parameters: independent Gaussian numbers around zero.
    pub fn init_params<F: Float>(&self, rng: &mut Rng) -> (p: Vec<F>)
        ensures
            p@.len() == self.n_params,
            final(rng).s@ == advanced_by(old(rng).s@, 2 * self.n_params),
            deterministic::<F>() ==> forall|i: int|
                0 <= i < self.n_params ==> #[trigger] p@[i] == gauss_of(
                    advanced_by(old(rng).s@, 2 * i),
                    zero::<F>(),
                    init_std(),
                ),
    {
        let mut p: Vec<F> = Vec::new();
        let mut i: usize = 0;
        while i < self.n_params
            invariant
                i <= self.n_params,
                p@.len() == i,
                rng.s@ == advanced_by(old(rng).s@, 2 * i),
                deterministic::<F>() ==> forall|k: int|
                    0 <= k < i ==> #[trigger] p@[k] == gauss_of(
                        advanced_by(old(rng).s@, 2 * k),
                        zero::<F>(),
                        init_std(),
                    ),
            decreases self.n_params - i,
        {
            reveal_with_fuel(advanced_by, 3);
            let x: F = rng.gauss(F::from_usize(0), ratio(8, 100));
            p.push(x);
            i = i + 1;
        }
        p
    }
}

/// The tables lie inside the parameter buffer.
pub proof fn lemma_tables_inside(m: Model)
    requires
        m.wf(),
    ensures
        m.wte.end() <= m.n_params,
        m.wpe.end() <= m.n_params,
        m.lm_head.end() <= m.n_params,
        m.wte.end() == m.wpe.off,
        m.wpe.end() == m.lm_head.off,
        m.lm_head.end() == m.layer_base(0),
{
    let (e, v, t) = (m.shape.n_embd as int, m.vocab_size as int, m.shape.block_size as int);
    assert(0 <= v * e && 0 <= t * e && 0 <= m.shape.n_layer * m.shape.layer_params())
        by (nonlinear_arith)
        requires
            0 <= e,
            0 <= v,
            0 <= t,
            m.shape.layer_params() == 12 * (e * e),
    ;
}

/// The matrices of a layer follow one another inside the parameter buffer.
pub proof fn lemma_layer_inside(m: Model, l: int)
    requires
        m.wf(),
        0 <= l < m.shape.n_layer,
    ensures
        m.layers@[l].wqkv.off == m.layer_base(l),
        m.layers@[l].wqkv.end() == m.layers@[l].wo.off,
        m.layers@[l].wo.end() == m.layers@[l].fc1.off,
        m.layers@[l].fc1.end() == m.layers@[l].fc2.off,
        m.layers@[l].fc2.end() == m.layer_base(l + 1),
        m.layers@[l].fc2.end() <= m.n_params,
        0 <= m.layers@[l].wqkv.size(),
        0 <= m.layers@[l].wo.size(),
        0 <= m.layers@[l].fc1.size(),
        0 <= m.layers@[l].fc2.size(),
{
    let e = m.shape.n_embd as int;
    let sq = e * e;
    let p = m.shape.layer_params();
    assert(is_layer(m.layers@[l], m.layer_base(l), m.shape));
    assert((3 * e) * e == 3 * sq && (4 * e) * e == 4 * sq && e * (4 * e) == 4 * sq && 0 <= sq)
        by (nonlinear_arith)
        requires
            sq == e * e,
    ;
    assert((l + 1) * p == l * p + p) by (nonlinear_arith);
    assert((l + 1) * p <= m.shape.n_layer * p) by (nonlinear_arith)
        requires
            l + 1 <= m.shape.n_layer,
            0 <= p,
    ;
}

} // verus!
