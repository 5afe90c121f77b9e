//! The network in double precision: gradients, cache, training.
use microgpt::acts::{Acts, Grads};
use microgpt::adam::{learning_rate, Adam};
use microgpt::dataset::Dataset;
use microgpt::model::{Model, Shape, BLOCK_SIZE};
use microgpt::rng::Rng;
use microgpt::scalar::Float;
use microgpt::train::{log_rows, train, TrainConfig, TrainState, Worker, WorkerSlot};

#[derive(Clone, Copy, Debug)]
struct F64(f64);

impl Float for F64 {
    fn from_usize(n: usize) -> Self {
        F64(n as f64)
    }
    fn unit_fraction(k: u64) -> Self {
        F64(k as f64 * (1.0 / (1u64 << 53) as f64))
    }
    fn pi() -> Self {
        F64(std::f64::consts::PI)
    }
    fn neg_infinity() -> Self {
        F64(f64::NEG_INFINITY)
    }
    fn nan() -> Self {
        F64(f64::NAN)
    }
    fn is_nan(self) -> bool {
        self.0.is_nan()
    }
    fn plus(self, other: Self) -> Self {
        F64(self.0 + other.0)
    }
    fn minus(self, other: Self) -> Self {
        F64(self.0 - other.0)
    }
    fn times(self, other: Self) -> Self {
        F64(self.0 * other.0)
    }
    fn over(self, other: Self) -> Self {
        F64(self.0 / other.0)
    }
    fn negated(self) -> Self {
        F64(-self.0)
    }
    fn mul_add(self, factor: Self, addend: Self) -> Self {
        F64(self.0.mul_add(factor.0, addend.0))
    }
    fn sqrt(self) -> Self {
        F64(self.0.sqrt())
    }
    fn exp(self) -> Self {
        F64(self.0.exp())
    }
    fn ln(self) -> Self {
        F64(self.0.ln())
    }
    fn cos(self) -> Self {
        F64(self.0.cos())
    }
    fn max(self, other: Self) -> Self {
        F64(self.0.max(other.0))
    }
    fn powi(self, n: i32) -> Self {
        F64(self.0.powi(n))
    }
    fn less(self, other: Self) -> bool {
        self.0 < other.0
    }
    fn at_most(self, other: Self) -> bool {
        self.0 <= other.0
    }
}

fn tiny_dataset() -> Dataset {
    let docs: Vec<String> = ["emma", "olivia", "ava", "isabella", "sophia", "mia", "charlotte"]
        .iter()
        .map(|s| s.to_string())
        .collect();
    Dataset::new(docs, 0)
}

fn full_loss(model: &Model, p: &[F64], tokens: &[usize], n: usize, acts: &mut Acts<F64>) -> f64 {
    model.forward(p, tokens, 0, n, acts);
    model.loss(tokens, n, acts).0
}

#[test]
fn manual_backward_matches_finite_differences() {
    let data = tiny_dataset();
    let mut rng = Rng::new(7);
    let model = Model::new(data.vocab_size());
    let mut params: Vec<F64> = model.init_params(&mut rng);
    // larger weights so that no gradient is vanishingly small
    for x in params.iter_mut() {
        x.0 *= 4.0;
    }
    let mut grads = vec![F64(0.0); model.n_params];
    let mut acts = Acts::new(&model);
    let mut scratch = Grads::new(&model);

    let mut tokens = Vec::new();
    data.tokenize("charlotte", &mut tokens);
    let n = (tokens.len() - 1).min(BLOCK_SIZE);

    full_loss(&model, &params, &tokens, n, &mut acts);
    model.backward(&params, &mut grads, &tokens, n, &acts, &mut scratch);

    let h = 1e-5;
    let mut checked = 0;
    let mut max_rel = 0.0f64;
    for idx in (0..model.n_params).step_by(7) {
        let orig = params[idx].0;
        params[idx] = F64(orig + h);
        let lp = full_loss(&model, &params, &tokens, n, &mut acts);
        params[idx] = F64(orig - h);
        let lm = full_loss(&model, &params, &tokens, n, &mut acts);
        params[idx] = F64(orig);
        let numeric = (lp - lm) / (2.0 * h);
        let analytic = grads[idx].0;
        let denom = numeric.abs().max(analytic.abs()).max(1e-6);
        let rel = (numeric - analytic).abs() / denom;
        if numeric.abs() > 1e-7 || analytic.abs() > 1e-7 {
            max_rel = max_rel.max(rel);
            checked += 1;
            // central differences with h = 1e-5 resolve gradients to roughly 1e-10 absolute;
            // for the wider/deeper models some gradients are ~1e-6, so allow either bound
            let abs = (numeric - analytic).abs();
            assert!(rel < 1e-4 || abs < 1e-8, "param {idx}: analytic {analytic} vs numeric {numeric} (rel {rel}, abs {abs})");
        }
    }
    assert!(checked > 300, "too few non-zero gradients checked: {checked}");
    println!("checked {checked} params, max relative error {max_rel:.2e}");
}

#[test]
fn incremental_forward_matches_full_forward() {
    let data = tiny_dataset();
    let mut rng = Rng::new(3);
    let model = Model::new(data.vocab_size());
    let params: Vec<F64> = model.init_params(&mut rng);
    let mut tokens = Vec::new();
    data.tokenize("isabella", &mut tokens);
    let n = tokens.len() - 1;

    let mut full = Acts::new(&model);
    model.forward(&params, &tokens, 0, n, &mut full);
    let mut inc = Acts::new(&model);
    for pos in 0..n {
        model.forward(&params, &tokens, pos, pos + 1, &mut inc);
    }
    for (a, b) in full.logits[..n * model.vocab_size].iter().zip(&inc.logits) {
        let (a, b) = (a.0, b.0);
        assert!((a - b).abs() < 1e-12, "{a} vs {b}");
    }
}

#[test]
fn loss_decreases_with_training() {
    let data = tiny_dataset();
    let mut rng = Rng::new(42);
    let model = Model::new(data.vocab_size());
    let mut params: Vec<F64> = model.init_params(&mut rng);
    let mut grads = vec![F64(0.0); model.n_params];
    let mut adam = Adam::new(model.n_params);
    let mut acts = Acts::new(&model);
    let mut scratch = Grads::new(&model);
    let mut tokens = Vec::new();

    let mut first = 0.0;
    let mut last = 0.0;
    let steps = 200;
    for step in 0..steps {
        data.tokenize(&data.docs[step % data.n_train], &mut tokens);
        let n = (tokens.len() - 1).min(BLOCK_SIZE);
        let loss = full_loss(&model, &params, &tokens, n, &mut acts);
        model.backward(&params, &mut grads, &tokens, n, &acts, &mut scratch);
        adam.step(&mut params, &mut grads, learning_rate(), step + 1);
        if step == 0 {
            first = loss;
        }
        last = loss;
    }
    assert!(last < first * 0.5, "loss did not drop: {first} -> {last}");
}

#[test]
fn parallel_training_matches_serial() {
    let data = tiny_dataset();
    let mut rng = Rng::new(42);
    let model = Model::new(data.vocab_size());
    let init: Vec<F64> = model.init_params(&mut rng);
    let run = |n_threads: usize| {
        let mut params = init.clone();
        let cfg = TrainConfig {
            num_steps: 30,
            batch_size: 5,
            n_threads,
            log_path: None,
            eval_every: 100,
            lr: learning_rate(),
        };
        let loss = train(&model, &data, &mut params, &cfg).loss.0;
        (loss, params)
    };
    let (l1, p1) = run(1);
    let (l3, p3) = run(3);
    assert!((l1 - l3).abs() < 1e-9, "{l1} vs {l3}");
    for (a, b) in p1.iter().zip(&p3) {
        let (a, b) = (a.0, b.0);
        assert!((a - b).abs() < 1e-9, "{a} vs {b}");
    }
}

fn config(num_steps: usize, batch_size: usize, n_threads: usize, log: bool, eval_every: usize) -> TrainConfig<F64> {
    TrainConfig {
        num_steps,
        batch_size,
        n_threads,
        log_path: if log { Some("loss.csv".to_string()) } else { None },
        eval_every,
        lr: learning_rate(),
    }
}

fn values(p: &[F64]) -> Vec<f64> {
    p.iter().map(|x| x.0).collect()
}

#[test]
fn later_tokens_do_not_change_earlier_scores() {
    let data = tiny_dataset();
    let model = Model::new(data.vocab_size());
    let params: Vec<F64> = model.init_params(&mut Rng::new(8));
    let a = [0usize, 1, 2, 3, 4, 5];
    let b = [0usize, 1, 2, 9, 9];
    let v = model.vocab_size;
    let mut full = Acts::new(&model);
    model.forward(&params, &a, 0, 6, &mut full);
    let mut other = Acts::new(&model);
    model.forward(&params, &b, 0, 5, &mut other);
    assert_eq!(values(&full.logits[..3 * v]), values(&other.logits[..3 * v]));
    assert_ne!(values(&full.logits[3 * v..4 * v]), values(&other.logits[3 * v..4 * v]));
}

#[test]
fn a_pass_keeps_the_other_positions() {
    let data = tiny_dataset();
    let model = Model::new(data.vocab_size());
    let params: Vec<F64> = model.init_params(&mut Rng::new(8));
    let v = model.vocab_size;
    let mut acts = Acts::new(&model);
    model.forward(&params, &[0, 1, 2, 3], 0, 4, &mut acts);
    let before = values(&acts.logits);
    // a pass over one position in the middle, with another token there
    model.forward(&params, &[0, 1, 5, 3], 2, 3, &mut acts);
    let after = values(&acts.logits);
    assert_eq!(before[..2 * v], after[..2 * v]);
    assert_ne!(before[2 * v..3 * v], after[2 * v..3 * v]);
    assert_eq!(before[3 * v..], after[3 * v..]);
}

#[test]
fn an_untrained_model_guesses() {
    // all parameters zero: every token is as likely as any other
    let data = tiny_dataset();
    let model = Model::new(data.vocab_size());
    let params = vec![F64(0.0); model.n_params];
    let mut tokens = Vec::new();
    data.tokenize("emma", &mut tokens);
    let mut acts = Acts::new(&model);
    let loss = model.document_loss(&params, &tokens, &mut acts).0;
    assert!((loss - (model.vocab_size as f64).ln()).abs() < 1e-12);
    let mut buffer = Vec::new();
    let mean = model.eval_loss(&params, &data, &data.docs, &mut acts, &mut buffer).0;
    assert!((mean - (model.vocab_size as f64).ln()).abs() < 1e-12);
}

#[test]
fn the_mean_loss_of_no_documents_is_undefined() {
    let data = tiny_dataset();
    let model = Model::new(data.vocab_size());
    let params = vec![F64(0.0); model.n_params];
    let mut acts = Acts::new(&model);
    let mut tokens = vec![7];
    assert!(model.eval_loss(&params, &data, &[], &mut acts, &mut tokens).0.is_nan());
    assert_eq!(tokens, vec![7]);
}

#[test]
fn long_documents_are_cut_at_the_context() {
    let doc = "abcabcabcabcabcabcabc".to_string();
    let data = Dataset::new(vec![doc.clone()], 0);
    let model = Model::new(data.vocab_size());
    let params: Vec<F64> = model.init_params(&mut Rng::new(2));
    let mut tokens = Vec::new();
    data.tokenize(&doc, &mut tokens);
    let mut acts = Acts::new(&model);
    let whole = model.document_loss(&params, &tokens, &mut acts).0;
    let cut = model.document_loss(&params, &tokens[..BLOCK_SIZE + 1], &mut acts).0;
    assert_eq!(whole, cut);
}

#[test]
fn logging_does_not_change_training() {
    let data = tiny_dataset();
    let model = Model::new(data.vocab_size());
    let init: Vec<F64> = model.init_params(&mut Rng::new(42));
    let mut plain = init.clone();
    let quiet = train(&model, &data, &mut plain, &config(12, 3, 2, false, 5));
    let mut logged = init.clone();
    let log = train(&model, &data, &mut logged, &config(12, 3, 2, true, 5));
    assert_eq!(values(&plain), values(&logged));
    assert_eq!(quiet.loss.0, log.loss.0);
    assert!(quiet.rows.is_empty());
    let steps: Vec<usize> = log.rows.iter().map(|r| r.step).collect();
    assert_eq!(steps, vec![0, 5, 10, 12]);
    assert!(log.rows[0].train_loss.0.is_nan());
    assert_eq!(values(&log.rows[0].params), values(&init));
    assert_eq!(values(&log.rows[3].params), values(&logged));
}

#[test]
fn log_rows_hold_interval_means_and_held_out_losses() {
    let docs: Vec<String> = ["emma", "ava", "mia", "amy"].iter().map(|s| s.to_string()).collect();
    let data = Dataset::new(docs, 1);
    let model = Model::new(data.vocab_size());
    let init: Vec<F64> = model.init_params(&mut Rng::new(42));
    let mut every = init.clone();
    let each = train(&model, &data, &mut every, &config(4, 2, 1, true, 1));
    let mut pairs = init.clone();
    let two = train(&model, &data, &mut pairs, &config(4, 2, 1, true, 2));
    assert_eq!(each.rows.len(), 5);
    assert_eq!(two.rows.len(), 3);
    for k in 0..2 {
        let mean = (each.rows[2 * k + 1].train_loss.0 + each.rows[2 * k + 2].train_loss.0) / 2.0;
        assert!((two.rows[k + 1].train_loss.0 - mean).abs() < 1e-12);
    }
    assert_eq!(each.loss.0, each.rows[4].train_loss.0);

    let table = log_rows(&model, &data, &two.rows);
    let mut acts = Acts::new(&model);
    let mut tokens = Vec::new();
    for (row, snap) in table.iter().zip(&two.rows) {
        let held_out = model.eval_loss(&snap.params, &data, data.eval_docs(), &mut acts, &mut tokens);
        assert_eq!(row.step, snap.step);
        assert_eq!(row.eval_loss.0, held_out.0);
    }
    assert_eq!(table[0].train_loss.0, table[0].eval_loss.0);
    assert_eq!(table[1].train_loss.0, two.rows[1].train_loss.0);
}

#[test]
fn no_steps_change_nothing() {
    let data = tiny_dataset();
    let model = Model::new(data.vocab_size());
    let init: Vec<F64> = model.init_params(&mut Rng::new(42));
    let mut params = init.clone();
    let log = train(&model, &data, &mut params, &config(0, 4, 2, true, 10));
    assert_eq!(values(&params), values(&init));
    assert_eq!(log.loss.0, 0.0);
    assert_eq!(log.rows.len(), 1);
}

#[test]
fn workers_claim_documents_round_and_round() {
    let data = tiny_dataset();
    let model = Model::new(data.vocab_size());
    let params: Vec<F64> = model.init_params(&mut Rng::new(42));
    let mut worker: Worker<F64> = Worker::new(&model);
    let mut slot = WorkerSlot::new(model.n_params);
    let mut loss = F64(0.0);
    let mut expected = Vec::new();
    // seven documents, batches of three: the third step begins with the last document
    for (epoch, k, d) in [(1, 0, 0), (1, 2, 2), (2, 0, 3), (3, 0, 6), (3, 1, 0)] {
        assert!(worker.claim(&model, &data, &params, &mut slot, &mut loss, epoch, 3, k));
        data.tokenize(&data.docs[d], &mut expected);
        assert_eq!(worker.tokens, expected);
    }
    let before = (values(&slot.grad), loss.0);
    assert!(!worker.claim(&model, &data, &params, &mut slot, &mut loss, 3, 3, 3));
    assert_eq!((values(&slot.grad), loss.0), before);
    assert_eq!(worker.tokens, expected);
}

#[test]
fn a_step_averages_over_its_documents() {
    let data = tiny_dataset();
    let model = Model::new(data.vocab_size());
    let params: Vec<F64> = model.init_params(&mut Rng::new(42));
    let mut worker: Worker<F64> = Worker::new(&model);
    let mut together = WorkerSlot::new(model.n_params);
    let mut loss_sum = F64(0.0);
    let mut sums = vec![0.0; model.n_params];
    let mut losses = 0.0;
    for k in 0..4 {
        worker.claim(&model, &data, &params, &mut together, &mut loss_sum, 1, 4, k);
        let mut alone = WorkerSlot::new(model.n_params);
        let mut loss = F64(0.0);
        worker.claim(&model, &data, &params, &mut alone, &mut loss, 1, 4, k);
        for (s, g) in sums.iter_mut().zip(&alone.grad) {
            *s += g.0;
        }
        losses += loss.0;
    }
    // claiming leaves the loss of the slot alone; the sum is left there at the end of the step
    assert_eq!(together.loss.0, 0.0);
    together.loss = loss_sum;
    let mut state: TrainState<F64> = TrainState::new(model.n_params);
    state.absorb(&mut together, 4);
    assert!(together.grad.iter().all(|g| g.0 == 0.0));
    assert_eq!(together.loss.0, loss_sum.0);
    for (g, s) in state.grads.iter().zip(&sums) {
        assert!((g.0 - s / 4.0).abs() < 1e-12);
    }
    assert!((state.loss_sum.0 - losses).abs() < 1e-12);
}

#[test]
fn progress_is_reported_every_fifty_steps_and_at_the_end() {
    let mut state: TrainState<F64> = TrainState::new(1);
    let mut params = vec![F64(0.0)];
    let cfg = config(120, 1, 1, false, 1);
    let mut reported = Vec::new();
    for step in 0..120 {
        if state.finish_step(&mut params, &cfg, step).progress {
            reported.push(step + 1);
        }
    }
    assert_eq!(reported, vec![50, 100, 120]);
}

#[test]
fn the_learning_rate_decays_linearly() {
    // with a constant gradient each corrected step of the optimizer is the learning rate itself
    let mut state: TrainState<F64> = TrainState::new(1);
    let mut params = vec![F64(0.0)];
    let cfg = TrainConfig { lr: F64(1.0), ..config(4, 1, 1, false, 1) };
    let mut moved = Vec::new();
    for step in 0..4 {
        let before = params[0].0;
        state.grads[0] = F64(1.0);
        state.finish_step(&mut params, &cfg, step);
        moved.push(before - params[0].0);
    }
    for (m, expected) in moved.iter().zip([1.0, 0.75, 0.5, 0.25]) {
        assert!((m - expected).abs() < 1e-6, "{moved:?}");
    }
}

#[test]
fn no_documents_leave_the_activations() {
    let data = tiny_dataset();
    let model = Model::new(data.vocab_size());
    let params: Vec<F64> = model.init_params(&mut Rng::new(1));
    let mut tokens = Vec::new();
    data.tokenize("mia", &mut tokens);
    let mut acts = Acts::new(&model);
    model.document_loss(&params, &tokens, &mut acts);
    let before = (values(&acts.logits), values(&acts.probs), values(&acts.x0));
    assert!(model.eval_loss(&params, &data, &[], &mut acts, &mut tokens).0.is_nan());
    assert_eq!((values(&acts.logits), values(&acts.probs), values(&acts.x0)), before);
}

#[test]
fn tokens_behind_the_context_are_not_read() {
    let model = Model::with_shape(4, Shape::new(1, 4, 2, 2).unwrap());
    let params: Vec<F64> = model.init_params(&mut Rng::new(1));
    let mut acts = Acts::new(&model);
    let known = model.document_loss(&params, &[3, 0, 1], &mut acts).0;
    assert_eq!(model.document_loss(&params, &[3, 0, 1, 999], &mut acts).0, known);
    // nothing is read for no positions
    let mut grads = vec![F64(1.0); model.n_params];
    model.backward(&params, &mut grads, &[999], 0, &acts, &mut Grads::new(&model));
    assert_eq!(values(&grads), vec![1.0; model.n_params]);
}

#[test]
fn a_model_may_know_more_tokens_than_the_documents_have() {
    let data = tiny_dataset();
    let model = Model::with_shape(data.vocab_size() + 3, Shape::new(1, 8, 2, 8).unwrap());
    let mut params: Vec<F64> = model.init_params(&mut Rng::new(1));
    let mut acts = Acts::new(&model);
    let mut tokens = Vec::new();
    let before = model.eval_loss(&params, &data, &data.docs, &mut acts, &mut tokens).0;
    train(&model, &data, &mut params, &config(60, 4, 2, false, 1));
    let after = model.eval_loss(&params, &data, &data.docs, &mut acts, &mut tokens).0;
    assert!(after < before);
}

#[test]
fn no_steps_need_no_documents() {
    let data = Dataset::new(Vec::new(), 0);
    let model = Model::with_shape(data.vocab_size(), Shape::new(1, 2, 1, 2).unwrap());
    let init: Vec<F64> = model.init_params(&mut Rng::new(1));
    let mut params = init.clone();
    let log = train(&model, &data, &mut params, &config(0, 4, 2, false, 1));
    assert_eq!(values(&params), values(&init));
    assert!(log_rows(&model, &data, &log.rows).is_empty());
}

#[test]
fn held_out_documents_do_not_influence_training() {
    let names = |held_out: &[&str]| -> Vec<String> {
        ["emma", "ava", "mia"].iter().chain(held_out).map(|s| s.to_string()).collect()
    };
    let a = Dataset::new(names(&["amy", "vie"]), 2);
    let b = Dataset::new(names(&["yam", "evi", "eve"]), 3);
    assert_eq!(a.uchars, b.uchars);
    assert_eq!(a.n_train, b.n_train);
    let model = Model::new(a.vocab_size());
    let init: Vec<F64> = model.init_params(&mut Rng::new(42));
    let (mut p, mut q) = (init.clone(), init);
    let (la, lb) = (
        train(&model, &a, &mut p, &config(9, 2, 2, false, 1)),
        train(&model, &b, &mut q, &config(9, 2, 2, false, 1)),
    );
    assert_eq!(values(&p), values(&q));
    assert_eq!(la.loss.0, lb.loss.0);
}

#[test]
fn dead_units_stay_dead_under_training() {
    let data = tiny_dataset();
    let model = Model::with_shape(data.vocab_size(), Shape::new(1, 8, 2, 8).unwrap());
    let mut params: Vec<F64> = model.init_params(&mut Rng::new(5));
    let (layer, unit) = (model.layers[0], 11);
    for c in 0..8 {
        params[layer.fc1.off + unit * 8 + c] = F64(0.0);
    }
    let before = params.clone();
    train(&model, &data, &mut params, &config(25, 3, 2, false, 1));
    for c in 0..8 {
        assert_eq!(params[layer.fc1.off + unit * 8 + c].0, 0.0);
        let out = layer.fc2.off + c * 32 + unit;
        assert_eq!(params[out].0, before[out].0);
    }
    assert_ne!(values(&params), values(&before));
}

#[test]
fn more_threads_than_documents_give_the_same_loss() {
    let data = tiny_dataset();
    let model = Model::new(data.vocab_size());
    let init: Vec<F64> = model.init_params(&mut Rng::new(42));
    for batch in 1..4 {
        let (mut p, mut q) = (init.clone(), init.clone());
        let one = train(&model, &data, &mut p, &config(6, batch, 1, false, 1));
        let many = train(&model, &data, &mut q, &config(6, batch, 8, false, 1));
        assert!((one.loss.0 - many.loss.0).abs() < 1e-9);
    }
}
