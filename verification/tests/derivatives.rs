//! The backward pass against dual numbers, which carry derivatives along with every operation.
use microgpt::acts::{Acts, Grads};
use microgpt::dataset::Dataset;
use microgpt::kernels::{dot, rmsnorm, rmsnorm_bwd, softmax_inplace};
use microgpt::model::{Model, Shape};
use microgpt::rng::Rng;
use microgpt::scalar::Float;

/// A value and the rate at which it changes.
#[derive(Clone, Copy, Debug)]
struct Dual {
    v: f64,
    d: f64,
}

fn constant(v: f64) -> Dual {
    Dual { v, d: 0.0 }
}

impl Float for Dual {
    fn from_usize(n: usize) -> Self {
        constant(n as f64)
    }
    fn unit_fraction(k: u64) -> Self {
        constant(k as f64 / (1u64 << 53) as f64)
    }
    fn pi() -> Self {
        constant(std::f64::consts::PI)
    }
    fn neg_infinity() -> Self {
        constant(f64::NEG_INFINITY)
    }
    fn nan() -> Self {
        constant(f64::NAN)
    }
    fn is_nan(self) -> bool {
        self.v.is_nan()
    }
    fn plus(self, other: Self) -> Self {
        Dual { v: self.v + other.v, d: self.d + other.d }
    }
    fn minus(self, other: Self) -> Self {
        Dual { v: self.v - other.v, d: self.d - other.d }
    }
    fn times(self, other: Self) -> Self {
        Dual { v: self.v * other.v, d: self.v * other.d + self.d * other.v }
    }
    fn over(self, other: Self) -> Self {
        let v = self.v / other.v;
        Dual { v, d: (self.d - v * other.d) / other.v }
    }
    fn negated(self) -> Self {
        Dual { v: -self.v, d: -self.d }
    }
    fn mul_add(self, factor: Self, addend: Self) -> Self {
        self.times(factor).plus(addend)
    }
    fn sqrt(self) -> Self {
        let v = self.v.sqrt();
        Dual { v, d: self.d / (2.0 * v) }
    }
    fn exp(self) -> Self {
        let v = self.v.exp();
        Dual { v, d: v * self.d }
    }
    fn ln(self) -> Self {
        Dual { v: self.v.ln(), d: self.d / self.v }
    }
    fn cos(self) -> Self {
        Dual { v: self.v.cos(), d: -self.v.sin() * self.d }
    }
    fn max(self, other: Self) -> Self {
        if self.v > other.v {
            self
        } else {
            other
        }
    }
    fn powi(self, n: i32) -> Self {
        Dual { v: self.v.powi(n), d: n as f64 * self.v.powi(n - 1) * self.d }
    }
    fn less(self, other: Self) -> bool {
        self.v < other.v
    }
    fn at_most(self, other: Self) -> bool {
        self.v <= other.v
    }
}

fn close(a: f64, b: f64) -> bool {
    (a - b).abs() <= 1e-10 * (1.0 + a.abs().max(b.abs()))
}

/// Parameters with some rates, and a document.
fn setup(shape: Shape, seed: u64) -> (Model, Vec<Dual>, Vec<usize>) {
    let data = Dataset::new(vec!["isabella".to_string(), "mia".to_string()], 0);
    let model = Model::with_shape(data.vocab_size(), shape);
    let mut rng = Rng::new(seed);
    let mut p: Vec<Dual> = model.init_params(&mut rng);
    for x in p.iter_mut() {
        x.v *= 4.0;
        x.d = rng.uniform::<Dual>().v - 0.5;
    }
    let mut tokens = Vec::new();
    data.tokenize("isabella", &mut tokens);
    (model, p, tokens)
}

#[test]
fn gradient_is_the_derivative_of_the_loss() {
    for (shape, seed) in [
        (Shape::default(), 1),
        (Shape::new(2, 6, 3, 5).unwrap(), 2),
        (Shape::new(3, 10, 2, 20).unwrap(), 3),
    ] {
        let (model, p, tokens) = setup(shape, seed);
        let n = (tokens.len() - 1).min(shape.block_size);
        let mut acts = Acts::new(&model);
        let mut scratch = Grads::new(&model);
        let loss = model.document_loss(&p, &tokens, &mut acts);
        let mut g = vec![constant(0.5); model.n_params];
        model.backward(&p, &mut g, &tokens, n, &acts, &mut scratch);
        // the rates of the parameters, weighted by what the backward pass added
        let along: f64 = g.iter().zip(&p).map(|(g, p)| (g.v - 0.5) * p.d).sum();
        assert!(close(along, loss.d), "{along} vs {}", loss.d);
        assert!(loss.d.abs() > 1e-3);
    }
}

#[test]
fn gradient_is_the_partial_derivative_of_the_loss() {
    let (model, mut p, tokens) = setup(Shape::new(1, 4, 2, 9).unwrap(), 4);
    let n = tokens.len() - 1;
    for x in p.iter_mut() {
        x.d = 0.0;
    }
    let mut acts = Acts::new(&model);
    let mut scratch = Grads::new(&model);
    let mut g = vec![constant(0.0); model.n_params];
    model.document_loss(&p, &tokens, &mut acts);
    model.backward(&p, &mut g, &tokens, n, &acts, &mut scratch);
    for k in 0..model.n_params {
        p[k].d = 1.0;
        let loss = model.document_loss(&p, &tokens, &mut acts);
        p[k].d = 0.0;
        assert!(close(g[k].v, loss.d), "parameter {k}: {} vs {}", g[k].v, loss.d);
    }
}

#[test]
fn norm_gradient_is_its_derivative() {
    let x = [Dual { v: 1.5, d: 0.25 }, Dual { v: -2.0, d: 1.0 }, Dual { v: 0.5, d: -3.0 }];
    let dy = [constant(0.7), constant(-0.1), constant(2.0)];
    let mut y = [constant(0.0); 3];
    rmsnorm(&x, &mut y);
    let mut dx = [constant(0.0); 3];
    rmsnorm_bwd(&x, &dy, &mut dx);
    let out: f64 = (0..3).map(|k| dy[k].v * y[k].d).sum();
    let back: f64 = (0..3).map(|k| dx[k].v * x[k].d).sum();
    assert!(close(out, back), "{out} vs {back}");
}

#[test]
fn softmax_rates_follow_the_mean() {
    let x = [Dual { v: 0.2, d: 1.0 }, Dual { v: 1.2, d: -0.5 }, Dual { v: -0.3, d: 2.0 }];
    let mut w = x;
    softmax_inplace(&mut w);
    let mean: f64 = (0..3).map(|k| w[k].v * x[k].d).sum();
    for k in 0..3 {
        assert!(close(w[k].d, w[k].v * (x[k].d - mean)));
    }
}

#[test]
fn dot_is_the_sum_of_the_products() {
    let a: Vec<Dual> = (0..11).map(|i| Dual { v: i as f64, d: 1.0 }).collect();
    let b: Vec<Dual> = (0..11).map(|i| Dual { v: 2.0, d: i as f64 }).collect();
    let r = dot(&a, &b);
    assert_eq!(r.v, 110.0);
    assert_eq!(r.d, 385.0 + 22.0);
}

#[test]
fn gradients_accumulate() {
    let (model, p, tokens) = setup(Shape::new(1, 4, 1, 6).unwrap(), 5);
    let mut acts = Acts::new(&model);
    let mut scratch = Grads::new(&model);
    model.document_loss(&p, &tokens, &mut acts);
    let mut once = vec![constant(0.0); model.n_params];
    model.backward(&p, &mut once, &tokens, 6, &acts, &mut scratch);
    let mut twice = vec![constant(-3.0); model.n_params];
    model.backward(&p, &mut twice, &tokens, 6, &acts, &mut scratch);
    model.backward(&p, &mut twice, &tokens, 6, &acts, &mut scratch);
    for k in 0..model.n_params {
        assert!(close(twice[k].v, -3.0 + 2.0 * once[k].v));
    }
}

#[test]
fn tokens_that_do_not_occur_get_no_gradient() {
    let (model, p, tokens) = setup(Shape::new(1, 4, 1, 20).unwrap(), 6);
    let mut acts = Acts::new(&model);
    let mut scratch = Grads::new(&model);
    model.document_loss(&p, &tokens, &mut acts);
    let mut g = vec![constant(0.0); model.n_params];
    let n = tokens.len() - 1;
    model.backward(&p, &mut g, &tokens, n, &acts, &mut scratch);
    for token in 0..model.vocab_size {
        let row = model.wte.row(&g, token);
        let occurs = tokens[..n].contains(&token);
        assert_eq!(row.iter().any(|x| x.v != 0.0), occurs, "token {token}");
    }
    for place in n..model.shape.block_size {
        assert!(model.wpe.row(&g, place).iter().all(|x| x.v == 0.0));
    }
}

#[test]
fn gradient_over_fewer_positions_is_the_derivative_of_their_loss() {
    let (model, p, tokens) = setup(Shape::new(2, 6, 3, 8).unwrap(), 7);
    for n in 1..=8 {
        let mut acts = Acts::new(&model);
        model.forward(&p, &tokens, 0, n, &mut acts);
        let loss = model.loss(&tokens, n, &mut acts);
        let mut g = vec![constant(0.0); model.n_params];
        model.backward(&p, &mut g, &tokens, n, &acts, &mut Grads::new(&model));
        let along: f64 = g.iter().zip(&p).map(|(g, p)| g.v * p.d).sum();
        assert!(close(along, loss.d), "{n} positions: {along} vs {}", loss.d);
    }
}

#[test]
fn units_that_never_fire_get_no_gradient() {
    let (model, mut p, tokens) = setup(Shape::new(2, 4, 2, 8).unwrap(), 8);
    let (layer, unit) = (model.layers[1], 5);
    for c in 0..4 {
        p[layer.fc1.off + unit * 4 + c].v = 0.0;
    }
    let mut acts = Acts::new(&model);
    model.document_loss(&p, &tokens, &mut acts);
    for i in 0..8 {
        assert_eq!(acts.layers[1].r[i * 16 + unit].v, 0.0);
    }
    let mut g = vec![constant(0.25); model.n_params];
    model.backward(&p, &mut g, &tokens, 8, &acts, &mut Grads::new(&model));
    for c in 0..4 {
        assert_eq!(g[layer.fc1.off + unit * 4 + c].v, 0.25);
        assert_eq!(g[layer.fc2.off + c * 16 + unit].v, 0.25);
    }
    // another unit of the layer is not dead
    assert!((0..4).any(|c| (0..16).any(|u| g[layer.fc2.off + c * 16 + u].v != 0.25)));
}
