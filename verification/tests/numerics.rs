//! The kernels, the optimizer, the generator's fractions and sampling, on exact values.
use microgpt::acts::Acts;
use microgpt::adam::{learning_rate, Adam};
use microgpt::dataset::Dataset;
use microgpt::kernels::{
    add_assign, dot, matmul_ab_acc, matmul_abt, matmul_atb_acc, rmsnorm, rmsnorm_bwd, row, row_mut,
    softmax_inplace,
};
use microgpt::model::{Model, Shape};
use microgpt::rng::Rng;
use microgpt::sample::{sample_document, NUM_SAMPLES};
use microgpt::scalar::{ratio, Float};
use microgpt::stages::{copy_rows, zero_rows};
use microgpt::train::shown_loss;

#[derive(Clone, Copy, Debug)]
struct F64(f64);

impl Float for F64 {
    fn from_usize(n: usize) -> Self {
        F64(n as f64)
    }
    fn unit_fraction(k: u64) -> Self {
        F64(k as f64 * (1.0 / (1u64 << 53) as f64))
    }
    fn pi() -> Self {
        F64(std::f64::consts::PI)
    }
    fn neg_infinity() -> Self {
        F64(f64::NEG_INFINITY)
    }
    fn nan() -> Self {
        F64(f64::NAN)
    }
    fn is_nan(self) -> bool {
        self.0.is_nan()
    }
    fn plus(self, other: Self) -> Self {
        F64(self.0 + other.0)
    }
    fn minus(self, other: Self) -> Self {
        F64(self.0 - other.0)
    }
    fn times(self, other: Self) -> Self {
        F64(self.0 * other.0)
    }
    fn over(self, other: Self) -> Self {
        F64(self.0 / other.0)
    }
    fn negated(self) -> Self {
        F64(-self.0)
    }
    fn mul_add(self, factor: Self, addend: Self) -> Self {
        F64(self.0.mul_add(factor.0, addend.0))
    }
    fn sqrt(self) -> Self {
        F64(self.0.sqrt())
    }
    fn exp(self) -> Self {
        F64(self.0.exp())
    }
    fn ln(self) -> Self {
        F64(self.0.ln())
    }
    fn cos(self) -> Self {
        F64(self.0.cos())
    }
    fn max(self, other: Self) -> Self {
        F64(self.0.max(other.0))
    }
    fn powi(self, n: i32) -> Self {
        F64(self.0.powi(n))
    }
    fn less(self, other: Self) -> bool {
        self.0 < other.0
    }
    fn at_most(self, other: Self) -> bool {
        self.0 <= other.0
    }
}


fn nums(v: &[f64]) -> Vec<F64> {
    v.iter().map(|x| F64(*x)).collect()
}

fn plain(v: &[F64]) -> Vec<f64> {
    v.iter().map(|x| x.0).collect()
}

fn close(a: f64, b: f64) -> bool {
    (a - b).abs() < 1e-12
}

#[test]
fn rows_of_a_buffer() {
    let mut buf = nums(&[1.0, 2.0, 3.0, 4.0, 5.0, 6.0, 7.0]);
    assert_eq!(plain(row(&buf, 1, 3)), vec![4.0, 5.0, 6.0]);
    row_mut(&mut buf, 0, 3)[2] = F64(9.0);
    assert_eq!(plain(&buf), vec![1.0, 2.0, 9.0, 4.0, 5.0, 6.0, 7.0]);
}

#[test]
fn dot_products() {
    let empty: Vec<F64> = Vec::new();
    assert_eq!(dot(&empty, &empty).0, 0.0);
    let a = nums(&[1.0, 2.0, 3.0, 4.0, 5.0, 6.0, 7.0]);
    let b = nums(&[7.0, 6.0, 5.0, 4.0, 3.0, 2.0, 1.0]);
    assert_eq!(dot(&a, &b).0, 84.0);
}

#[test]
fn dot_of_unequal_lengths_pairs_groups_and_remainders() {
    // one whole group on the left, two on the right; what is left is paired on its own
    let a = nums(&[1.0, 1.0, 1.0, 1.0, 10.0]);
    let b = nums(&[1.0, 2.0, 3.0, 4.0, 100.0, 100.0, 100.0, 100.0, 5.0]);
    assert_eq!(dot(&a, &b).0, 1.0 + 2.0 + 3.0 + 4.0 + 50.0);
}

#[test]
fn matrix_products() {
    // a: 2 x 3, b: 2 x 3
    let a = nums(&[1.0, 2.0, 3.0, 4.0, 5.0, 6.0]);
    let b = nums(&[1.0, 0.0, 2.0, 0.0, 1.0, 1.0]);
    let mut c = nums(&[9.0, 9.0, 9.0, 9.0, 9.0]);
    matmul_abt(&a, 2, 3, &b, 2, &mut c);
    assert_eq!(plain(&c), vec![7.0, 5.0, 16.0, 11.0, 9.0]);

    // d: 2 x 2 against b: 2 x 3, on top of ones
    let d = nums(&[1.0, 2.0, 3.0, 4.0]);
    let mut e = nums(&[1.0; 6]);
    matmul_ab_acc(&d, 2, 2, &b, 3, &mut e);
    assert_eq!(plain(&e), vec![2.0, 3.0, 5.0, 4.0, 5.0, 11.0]);

    // the transpose of d against b
    let mut f = nums(&[1.0; 6]);
    matmul_atb_acc(&d, 2, 2, &b, 3, &mut f);
    assert_eq!(plain(&f), vec![2.0, 4.0, 6.0, 3.0, 5.0, 9.0]);
}

#[test]
fn wide_matrix_products_use_every_column() {
    // 37 columns: two whole blocks of accumulators and five columns behind them
    let k = 37;
    let b: Vec<F64> = (0..2 * k).map(|i| F64(i as f64)).collect();
    let a = nums(&[2.0, 3.0]);
    let mut c = nums(&[0.5; 37]);
    matmul_ab_acc(&a, 1, 2, &b, k, &mut c);
    for j in 0..k {
        assert_eq!(c[j].0, 0.5 + 2.0 * j as f64 + 3.0 * (k + j) as f64);
    }
    let mut d = nums(&[0.25; 37]);
    matmul_atb_acc(&a, 2, 1, &b, k, &mut d);
    for j in 0..k {
        assert_eq!(d[j].0, 0.25 + 2.0 * j as f64 + 3.0 * (k + j) as f64);
    }
}

#[test]
fn add_assign_stops_at_the_shorter() {
    let mut x = nums(&[1.0, 2.0, 3.0]);
    add_assign(&mut x, &nums(&[10.0, 20.0]));
    assert_eq!(plain(&x), vec![11.0, 22.0, 3.0]);
    add_assign(&mut x, &nums(&[1.0, 1.0, 1.0, 1.0]));
    assert_eq!(plain(&x), vec![12.0, 23.0, 4.0]);
}

#[test]
fn rmsnorm_scales_by_the_root_of_the_mean_square() {
    let x = nums(&[3.0, 4.0]);
    let mut y = nums(&[0.0, 0.0]);
    rmsnorm(&x, &mut y);
    let scale = 1.0 / (12.5f64 + 1e-5).sqrt();
    assert!(close(y[0].0, 3.0 * scale));
    assert!(close(y[1].0, 4.0 * scale));
}

#[test]
fn rmsnorm_gradient_adds_to_what_is_there() {
    let x = nums(&[3.0, 4.0]);
    let dy = nums(&[1.0, -2.0]);
    let mut dx = nums(&[0.5, 0.25]);
    rmsnorm_bwd(&x, &dy, &mut dx);
    let s = 1.0 / (12.5f64 + 1e-5).sqrt();
    let c = s * s * s / 2.0 * (3.0 - 8.0);
    assert!(close(dx[0].0, 0.5 + s * 1.0 - c * 3.0));
    assert!(close(dx[1].0, 0.25 + s * -2.0 - c * 4.0));
}

#[test]
fn softmax_of_scores() {
    let mut v = nums(&[0.0, 0.0, 0.0, 0.0]);
    softmax_inplace(&mut v);
    assert_eq!(plain(&v), vec![0.25; 4]);
    // shifted by the largest score: no overflow
    let mut w = nums(&[1000.0, 1000.0 + 2.0f64.ln()]);
    softmax_inplace(&mut w);
    assert!(close(w[0].0, 1.0 / 3.0));
    assert!(close(w[1].0, 2.0 / 3.0));
}

#[test]
fn softmax_is_a_distribution() {
    let mut v = nums(&[0.3, -1.5, 2.25, 0.0, 7.0]);
    softmax_inplace(&mut v);
    assert!(v.iter().all(|x| x.0 > 0.0));
    assert!(close(v.iter().map(|x| x.0).sum::<f64>(), 1.0));
}

#[test]
fn constants_are_quotients() {
    assert_eq!(ratio::<F64>(85, 100).0, 0.85);
    assert_eq!(ratio::<F64>(99, 100).0, 0.99);
    assert_eq!(ratio::<F64>(8, 100).0, 0.08);
    assert_eq!(ratio::<F64>(1, 100_000).0, 1e-5);
    assert_eq!(ratio::<F64>(1, 100_000_000).0, 1e-8);
    assert_eq!(ratio::<F64>(1, 2).0, 0.5);
    assert_eq!(learning_rate::<F64>().0, 0.01);
}

#[test]
fn first_adam_step_moves_by_the_learning_rate() {
    // the bias correction makes the first step lr * g / (|g| + eps)
    let mut adam: Adam<F64> = Adam::new(3);
    let mut p = nums(&[1.0, 1.0, 1.0]);
    let mut g = nums(&[0.5, -2.0, 0.0]);
    adam.step(&mut p, &mut g, F64(0.01), 1);
    assert!(close(p[0].0, 1.0 - 0.01 * 0.5 / (0.5 + 1e-8)));
    assert!(close(p[1].0, 1.0 + 0.01 * 2.0 / (2.0 + 1e-8)));
    assert_eq!(p[2].0, 1.0);
    assert_eq!(plain(&g), vec![0.0; 3]);
    assert!(close(adam.m[0].0, 0.15 * 0.5));
    assert!(close(adam.v[1].0, 0.01 * 4.0));
}

#[test]
fn second_adam_step_uses_both_moments() {
    let mut adam: Adam<F64> = Adam::new(1);
    let mut p = nums(&[1.0]);
    adam.step(&mut p, &mut nums(&[1.0]), F64(0.1), 1);
    adam.step(&mut p, &mut nums(&[3.0]), F64(0.1), 2);
    let m = 0.85 * 0.15 + 0.15 * 3.0;
    let v = 0.99 * 0.01 + 0.01 * 9.0;
    let first = 0.1 / (1.0 + 1e-8);
    let second = 0.1 * (m / (1.0 - 0.85f64.powi(2)))
        / ((v / (1.0 - 0.99f64.powi(2))).sqrt() + 1e-8);
    assert!(close(p[0].0, 1.0 - first - second));
}

#[test]
fn adam_steps_only_the_given_parameters() {
    let mut adam: Adam<F64> = Adam::new(2);
    let mut p = nums(&[1.0]);
    let mut g = nums(&[1.0, 1.0]);
    adam.step(&mut p, &mut g, F64(0.5), 1);
    assert_eq!(plain(&g), vec![0.0, 1.0]);
    assert_eq!(adam.m[1].0, 0.0);
}

#[test]
fn uniform_numbers_are_fractions() {
    let mut rng = Rng::new(7);
    assert_eq!(rng.uniform::<F64>().0, 0.7005764821796896);
    assert_eq!(rng.uniform::<F64>().0, 0.2787512294737843);
    assert_eq!(rng.uniform::<F64>().0, 0.8396274618764198);
    for _ in 0..1000 {
        let u = rng.uniform::<F64>().0;
        assert!((0.0..1.0).contains(&u));
    }
}

#[test]
fn gauss_takes_two_numbers() {
    let mut rng = Rng::new(7);
    assert!(close(rng.gauss(F64(0.5), F64(2.0)).0, -0.058047982050396185));
    assert_eq!(rng.uniform::<F64>().0, 0.8396274618764198);
}

#[test]
fn weighted_choice_is_proportional() {
    let weights = nums(&[1.0, 2.0, 3.0, 4.0]);
    let mut rng = Rng::new(11);
    let drawn: Vec<usize> = (0..12).map(|_| rng.choice_weighted(&weights)).collect();
    assert_eq!(drawn, vec![1, 0, 1, 2, 0, 2, 2, 3, 3, 1, 0, 2]);
    let mut counts = [0usize; 4];
    for _ in 0..10_000 {
        counts[rng.choice_weighted(&weights)] += 1;
    }
    for i in 0..4 {
        let expected = 1000.0 * (i + 1) as f64;
        assert!((counts[i] as f64 - expected).abs() < 200.0, "{counts:?}");
    }
}

#[test]
fn weighted_choice_falls_through_to_the_last_index() {
    let mut rng = Rng::new(1);
    // nothing is below a weight of zero
    assert_eq!(rng.choice_weighted(&nums(&[0.0, 0.0, 0.0])), 2);
    assert_eq!(rng.choice_weighted(&nums(&[0.0, 5.0, 0.0])), 1);
}

#[test]
fn initial_parameters_are_gaussian_numbers_in_order() {
    let model = Model::with_shape(2, Shape::new(1, 2, 1, 1).unwrap());
    let mut rng = Rng::new(5);
    let p: Vec<F64> = model.init_params(&mut rng);
    assert_eq!(p.len(), model.n_params);
    let mut again = Rng::new(5);
    for x in &p {
        assert_eq!(x.0, again.gauss(F64(0.0), F64(0.08)).0);
    }
    assert_eq!(rng.next_u64(), again.next_u64());
}

#[test]
fn the_first_row_of_a_log_shows_the_held_out_loss() {
    assert_eq!(shown_loss(F64(f64::NAN), F64(3.5)).0, 3.5);
    assert_eq!(shown_loss(F64(2.0), F64(3.5)).0, 2.0);
}

fn sampler() -> (Dataset, Model, Vec<F64>) {
    let data = Dataset::new(vec!["ab".to_string(), "cab".to_string()], 0);
    let model = Model::with_shape(data.vocab_size(), Shape::new(2, 8, 2, 5).unwrap());
    let params = model.init_params(&mut Rng::new(9));
    (data, model, params)
}

#[test]
fn sampled_documents_come_from_the_vocabulary() {
    let (data, model, params) = sampler();
    let mut acts = Acts::new(&model);
    let mut probs = vec![F64(0.0); model.vocab_size];
    let mut tokens = Vec::new();
    let mut rng = Rng::new(42);
    for _ in 0..NUM_SAMPLES {
        let text = sample_document(&model, &params, &data, &mut rng, &mut acts, &mut probs, &mut tokens);
        assert!(text.chars().count() <= 5);
        assert!(text.chars().all(|c| "abc".contains(c)));
        assert_eq!(tokens[0], data.bos);
        assert_eq!(tokens.len(), text.chars().count() + 1);
        // the tokens of the text are the tokens that were sampled
        let mut again = Vec::new();
        data.tokenize(&text, &mut again);
        assert_eq!(again[..again.len() - 1], tokens[..]);
    }
}

#[test]
fn sampling_follows_tempered_scores() {
    // sample by hand from full passes, without the cache
    let (data, model, params) = sampler();
    let mut acts = Acts::new(&model);
    let mut probs = vec![F64(0.0); model.vocab_size];
    let mut tokens = Vec::new();
    let text = sample_document(&model, &params, &data, &mut Rng::new(6), &mut acts, &mut probs, &mut tokens);

    let mut rng = Rng::new(6);
    let mut by_hand = vec![data.bos];
    let mut fresh = Acts::new(&model);
    while by_hand.len() <= 5 {
        let n = by_hand.len();
        model.forward(&params, &by_hand, 0, n, &mut fresh);
        let mut weights: Vec<F64> =
            row(&fresh.logits, n - 1, model.vocab_size).iter().map(|x| F64(x.0 / 0.5)).collect();
        softmax_inplace(&mut weights);
        let next = rng.choice_weighted(&weights);
        if next == data.bos {
            break;
        }
        by_hand.push(next);
    }
    assert_eq!(tokens, by_hand);
    let decoded: String = by_hand[1..].iter().map(|t| data.uchars[*t]).collect();
    assert_eq!(text, decoded);
}

#[test]
fn softmax_keeps_the_order_of_the_scores() {
    let scores = [0.3, -1.5, 2.25, 0.3, 7.0, -40.0];
    let mut v = nums(&scores);
    softmax_inplace(&mut v);
    for i in 0..scores.len() {
        for j in 0..scores.len() {
            assert_eq!(scores[i] <= scores[j], v[i].0 <= v[j].0);
        }
    }
}

#[test]
fn softmax_ignores_a_shift() {
    let scores = [0.3, -1.5, 2.25, 0.0];
    let mut v = nums(&scores);
    softmax_inplace(&mut v);
    let mut shifted = nums(&scores.map(|x| x - 123.5));
    softmax_inplace(&mut shifted);
    for i in 0..scores.len() {
        assert!(close(v[i].0, shifted[i].0));
    }
}

#[test]
fn weights_need_not_be_normalised() {
    let weights = [0.1, 0.7, 0.0, 1.3, 0.4];
    for scale in [0.125, 0.5, 2.0, 1024.0] {
        let (mut a, mut b) = (Rng::new(17), Rng::new(17));
        for _ in 0..200 {
            let chosen = a.choice_weighted(&nums(&weights));
            assert!(chosen < weights.len());
            assert_eq!(b.choice_weighted(&nums(&weights.map(|w| w * scale))), chosen);
            assert_eq!(a.s, b.s);
        }
    }
}

#[test]
fn adam_steps_on_parts_are_a_step_on_the_whole() {
    let p = [1.0, -2.0, 0.5, 3.0, 0.0];
    let g = [0.1, 0.2, -0.3, 0.0, 5.0];
    for k in 0..=5 {
        let mut whole: Adam<F64> = Adam::new(5);
        let mut first: Adam<F64> = Adam::new(k);
        let mut rest: Adam<F64> = Adam::new(5 - k);
        let mut all = nums(&p);
        let (mut a, mut b) = (nums(&p[..k]), nums(&p[k..]));
        for t in 1..4 {
            let mut cleared = nums(&g);
            whole.step(&mut all, &mut cleared, F64(0.1), t);
            first.step(&mut a, &mut nums(&g[..k]), F64(0.1), t);
            rest.step(&mut b, &mut nums(&g[k..]), F64(0.1), t);
            assert_eq!(plain(&cleared), vec![0.0; 5]);
        }
        assert_eq!(plain(&all), [plain(&a), plain(&b)].concat());
        assert_eq!(plain(&whole.m), [plain(&first.m), plain(&rest.m)].concat());
        assert_eq!(plain(&whole.v), [plain(&first.v), plain(&rest.v)].concat());
        assert!(whole.v.iter().all(|v| v.0 >= 0.0));
    }
}

#[test]
fn a_learning_rate_of_zero_keeps_the_parameters() {
    let mut adam: Adam<F64> = Adam::new(3);
    let mut p = nums(&[1.0, -2.0, 0.5]);
    for t in 1..5 {
        adam.step(&mut p, &mut nums(&[3.0, -0.5, 0.0]), F64(0.0), t);
        assert_eq!(plain(&p), vec![1.0, -2.0, 0.5]);
    }
    assert!(adam.v[0].0 > 0.0);
}

#[test]
fn rows_behind_the_first_are_kept() {
    let mut buf = nums(&[1.0, 2.0, 3.0, 4.0, 5.0]);
    zero_rows(&mut buf, 1, 2);
    assert_eq!(plain(&buf), vec![0.0, 0.0, 3.0, 4.0, 5.0]);
    copy_rows(&nums(&[7.0, 8.0, 9.0, 10.0, 11.0]), &mut buf, 2, 2);
    assert_eq!(plain(&buf), vec![7.0, 8.0, 9.0, 10.0, 5.0]);
}

#[test]
fn softmax_depends_on_the_differences_alone() {
    // whole numbers: the shift rounds nothing, so the results are the same to the last digit
    let scores = [3.0, -1.0, 0.0, 7.0];
    let mut v = nums(&scores);
    softmax_inplace(&mut v);
    let mut shifted = nums(&scores.map(|x| x + 4096.0));
    softmax_inplace(&mut shifted);
    assert_eq!(plain(&v), plain(&shifted));
}

#[test]
fn softmax_sums_to_one_within_its_bound() {
    let eps = f64::EPSILON / 2.0;
    for n in [1usize, 2, 7, 100] {
        let mut v: Vec<F64> = (0..n).map(|i| F64((i as f64 * 0.37).sin() * 5.0)).collect();
        softmax_inplace(&mut v);
        let sum: f64 = v.iter().map(|x| x.0).sum();
        // the bound of the entries, and the rounding of the sum taken here
        assert!((sum - 1.0).abs() <= (2 * n + 4) as f64 * eps, "{n}: {sum}");
        assert!(v.iter().all(|x| (0.0..=1.0).contains(&x.0)));
    }
}
