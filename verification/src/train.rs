//! Training: minibatches spread over workers.
//!
//! At every step the workers claim the documents of the batch one at a time. Each adds the
//! gradients of its documents to a buffer of its own. Then the buffers are added up, scaled by
//! one over the batch size, and one step of the optimizer is taken.
use vstd::prelude::*;

use crate::acts::{all_zero, zeros, Acts, Grads};
use crate::adam::{adam_params, first_moments, second_moments, Adam};
use crate::backward::{scratch_kept, scratch_left};
use crate::dataset::{covers, occurs, tokens_of, Dataset};
use crate::document::{
    acts_kept, acts_left, doc_grad, doc_len, doc_loss, fits_data, lemma_tokens_in_range, mean_loss,
};
use crate::loss::probs_of;
use crate::model::Model;
use crate::network::network;
use crate::scalar::{
    deterministic, fma, is_undefined, minus, num, one, over, plus, times, undefined, zero, Float,
};
use crate::text::texts;

verus! {

/// The default number of steps.
pub const DEFAULT_NUM_STEPS: usize = 20000;

/// The default number of documents per step.
pub const DEFAULT_BATCH_SIZE: usize = 16;

/// The most threads that are used by default.
pub const DEFAULT_THREADS: usize = 4;

/// The default number of steps between two rows of the loss log.
pub const DEFAULT_EVAL_EVERY: usize = 100;

/// How many steps pass between two progress reports.
pub const REPORT_EVERY: usize = 50;

/// How to train.
pub struct TrainConfig<F> {
    /// How many steps to take.
    pub num_steps: usize,
    /// How many documents a step has.
    pub batch_size: usize,
    /// How many workers share the documents of a step.
    pub n_threads: usize,
    /// Where to write the loss log, if anywhere.
    pub log_path: Option<String>,
    /// How many steps pass between two rows of the loss log.
    pub eval_every: usize,
    /// The peak learning rate, which decays linearly to zero over the run.
    pub lr: F,
}

/// The number itself, but at least one.
pub open spec fn at_least_one(n: usize) -> usize {
    if n >= 1 {
        n
    } else {
        1
    }
}

impl<F> TrainConfig<F> {
    /// How many documents a step has: at least one.
    pub open spec fn batch_of(self) -> usize {
        at_least_one(self.batch_size)
    }

    /// How many workers there are: at least one, and no more than documents in a step.
    pub open spec fn threads_of(self) -> usize {
        if self.n_threads <= self.batch_of() {
            at_least_one(self.n_threads)
        } else {
            self.batch_of()
        }
    }

    /// How many documents a step has.
    pub fn batch(&self) -> (r: usize)
        ensures
            r == self.batch_of(),
    {
        if self.batch_size >= 1 {
            self.batch_size
        } else {
            1
        }
    }

    /// How many workers there are.
    pub fn threads(&self) -> (r: usize)
        ensures
            r == self.threads_of(),
            1 <= r <= self.batch_of(),
    {
        let batch: usize = self.batch();
        if self.n_threads < 1 {
            1
        } else if self.n_threads > batch {
            batch
        } else {
            self.n_threads
        }
    }
}

/// How many threads to use on a machine that runs `available` at once.
pub fn default_threads(available: usize) -> (r: usize)
    ensures
        r == (if available <= DEFAULT_THREADS {
            available
        } else {
            DEFAULT_THREADS
        }),
{
    if available <= DEFAULT_THREADS {
        available
    } else {
        DEFAULT_THREADS
    }
}

/// Which training document is document `k` of step `epoch`; steps are counted from one and run
/// through the training documents round and round.
pub open spec fn doc_index(epoch: int, batch: int, k: int, n_train: int) -> int {
    ((epoch - 1) * batch + k) % n_train
}

/// The tokens of document `k` of step `epoch`.
pub open spec fn step_tokens(data: Dataset, epoch: int, batch: int, k: int) -> Seq<usize> {
    tokens_of(data.uchars@, data.docs@[doc_index(epoch, batch, k, data.n_train as int)]@)
}

/// What one worker hands over at the end of a step.
pub struct WorkerSlot<F> {
    /// The gradients of its documents, added up.
    pub grad: Vec<F>,
    /// The losses of its documents, added up.
    pub loss: F,
}

impl<F: Float> WorkerSlot<F> {
    /// A slot for `n` parameters.
    pub fn new(n: usize) -> (r: Self)
        ensures
            r.grad@.len() == n,
            deterministic::<F>() ==> all_zero(r.grad@) && r.loss == zero::<F>(),
    {
        WorkerSlot { grad: zeros(n), loss: F::from_usize(0) }
    }
}

/// The buffers with which one thread processes documents.
pub struct Worker<F> {
    /// The activations.
    pub acts: Acts<F>,
    /// The scratch of the backward pass.
    pub scratch: Grads<F>,
    /// The tokens of the current document.
    pub tokens: Vec<usize>,
}

/// The model, the parameters and the documents go together.
pub open spec fn trainable<F>(m: Model, data: Dataset, n_params: int) -> bool {
    &&& m.wf()
    &&& m.shape.buffers_fit(m.vocab_size as int)
    &&& m.n_params <= n_params
    &&& data.wf()
    &&& fits_data(m, data)
}

/// The documents that are trained on are there.
pub open spec fn has_documents(data: Dataset) -> bool {
    data.n_train <= data.docs@.len()
}

impl<F: Float> Worker<F> {
    /// The buffers have the sizes that the model asks for.
    pub open spec fn wf(self, m: Model) -> bool {
        &&& self.acts.wf(m.shape, m.vocab_size as int)
        &&& self.scratch.wf(m.shape, m.vocab_size as int)
    }

    /// A worker for a model.
    pub fn new(model: &Model) -> (r: Self)
        requires
            model.wf(),
            model.shape.buffers_fit(model.vocab_size as int),
        ensures
            r.wf(*model),
            r.tokens@.len() == 0,
            deterministic::<F>() ==> r.acts.is_zero() && r.scratch.is_zero(),
    {
        Worker { acts: Acts::new(model), scratch: Grads::new(model), tokens: Vec::new() }
    }

    /// Claims document `k` of step `epoch`. Behind the end of the batch there is nothing to claim
    /// and the answer is `false`. Otherwise the gradient of the document at the parameters `p` is
    /// added to the slot, and its loss to `loss_sum`: a worker adds up the losses of a step and
    /// leaves the sum in its slot when nothing is left to claim.
    pub fn claim(
        &mut self,
        model: &Model,
        data: &Dataset,
        p: &[F],
        slot: &mut WorkerSlot<F>,
        loss_sum: &mut F,
        epoch: usize,
        batch: usize,
        k: usize,
    ) -> (more: bool)
        requires
            trainable::<F>(*model, *data, p@.len() as int),
            k < batch ==> has_documents(*data),
            model.n_params <= old(slot).grad@.len(),
            old(self).wf(*model),
            epoch >= 1,
            k < batch ==> (epoch - 1) * batch + k <= usize::MAX,
        ensures
            final(self).wf(*model),
            more == (k < batch),
            final(slot).grad@.len() == old(slot).grad@.len(),
            final(slot).loss == old(slot).loss,
            more ==> final(self).tokens@ == step_tokens(
                *data,
                epoch as int,
                batch as int,
                k as int,
            ),
            more ==> final(self).tokens@ == tokens_of(
                data.uchars@,
                data.docs@[((epoch - 1) * batch + k) % data.n_train as int]@,
            ),
            !more ==> {
                &&& *final(slot) == *old(slot)
                &&& *final(loss_sum) == *old(loss_sum)
                &&& *final(self) == *old(self)
            },
            more && deterministic::<F>() ==> ({
                let tokens = step_tokens(*data, epoch as int, batch as int, k as int);
                &&& final(slot).grad@ == doc_grad(*model, p@, tokens, old(slot).grad@)
                &&& *final(loss_sum) == plus(*old(loss_sum), doc_loss(*model, p@, tokens))
                &&& acts_left(*model, p@, tokens, old(self).acts, final(self).acts)
                &&& ({
                    let n = doc_len(*model, tokens);
                    let t = network(*model, p@, tokens, n);
                    scratch_left(
                        *model,
                        p@,
                        tokens,
                        t,
                        probs_of(t.logits),
                        final(self).scratch,
                        n,
                    )
                })
            }),
            more ==> ({
                let tokens = step_tokens(*data, epoch as int, batch as int, k as int);
                &&& acts_kept(*model, tokens, old(self).acts, final(self).acts)
                &&& scratch_kept(
                    model.shape,
                    model.vocab_size as int,
                    old(self).scratch,
                    final(self).scratch,
                    doc_len(*model, tokens),
                )
            }),
    {
        if k >= batch {
            return false;
        }
        proof {
            assert(0 <= (epoch - 1) * batch) by (nonlinear_arith)
                requires
                    epoch >= 1,
            ;
        }
        let base: usize = (epoch - 1) * batch;
        let d: usize = (base + k) % data.n_train;
        proof {
            lemma_doc_covered(*data, d as int);
            lemma_tokens_in_range(data.uchars@, data.docs@[d as int]@);
        }
        data.tokenize(data.docs[d].as_str(), &mut self.tokens);
        let n: usize = if self.tokens.len() - 1 <= model.shape.block_size {
            self.tokens.len() - 1
        } else {
            model.shape.block_size
        };
        let loss = model.document_loss(p, self.tokens.as_slice(), &mut self.acts);
        *loss_sum = loss_sum.plus(loss);
        model.backward(
            p,
            slot.grad.as_mut_slice(),
            self.tokens.as_slice(),
            n,
            &self.acts,
            &mut self.scratch,
        );
        true
    }
}

/// The vocabulary of a dataset covers each of its documents.
pub proof fn lemma_doc_covered(data: Dataset, d: int)
    requires
        data.wf(),
        0 <= d < data.docs@.len(),
    ensures
        covers(data.uchars@, data.docs@[d]@),
{
    let docs = texts(data.docs@);
    let doc = data.docs@[d]@;
    assert(docs[d] == doc);
    assert forall|i: int| 0 <= i < doc.len() implies data.uchars@.contains(#[trigger] doc[i]) by {
        assert(docs[d].contains(doc[i]));
        assert(occurs(docs, doc[i]));
    }
}

/// How the documents of each step are spread over the workers.
pub struct Plan<F> {
    /// How many documents a step has.
    pub batch: usize,
    /// How many workers there are.
    pub workers: int,
    /// Which worker takes document `k` of a step; steps are counted from one.
    pub owner: spec_fn(int, int) -> int,
    /// How many steps there are.
    pub num_steps: usize,
    /// The peak learning rate.
    pub lr: F,
    /// Whether a loss log is kept.
    pub logging: bool,
    /// How many steps pass between two rows of the loss log.
    pub eval_every: usize,
}

/// `n` zeros.
pub open spec fn zero_vec<F: Float>(n: int) -> Seq<F> {
    Seq::new(n as nat, |i: int| zero())
}

/// One over the batch size.
pub open spec fn inv_batch<F: Float>(batch: usize) -> F {
    over(one(), num(batch))
}

/// The gradients that worker `w` has added up when the first `k` documents of a step are done.
pub open spec fn worker_grad<F: Float>(
    m: Model,
    data: Dataset,
    plan: Plan<F>,
    p: Seq<F>,
    epoch: int,
    w: int,
    k: int,
) -> Seq<F>
    decreases k,
{
    if k <= 0 {
        zero_vec(m.n_params as int)
    } else {
        let before = worker_grad(m, data, plan, p, epoch, w, k - 1);
        if (plan.owner)(epoch, k - 1) == w {
            doc_grad(m, p, step_tokens(data, epoch, plan.batch as int, k - 1), before)
        } else {
            before
        }
    }
}

/// The losses that worker `w` has added up when the first `k` documents of a step are done.
pub open spec fn worker_loss<F: Float>(
    m: Model,
    data: Dataset,
    plan: Plan<F>,
    p: Seq<F>,
    epoch: int,
    w: int,
    k: int,
) -> F
    decreases k,
{
    if k <= 0 {
        zero()
    } else {
        let before = worker_loss(m, data, plan, p, epoch, w, k - 1);
        if (plan.owner)(epoch, k - 1) == w {
            plus(before, doc_loss(m, p, step_tokens(data, epoch, plan.batch as int, k - 1)))
        } else {
            before
        }
    }
}

/// `g` with `x` added, scaled.
pub open spec fn absorbed<F: Float>(g: Seq<F>, x: Seq<F>, scale: F) -> Seq<F> {
    Seq::new(g.len(), |i: int| fma(x[i], scale, g[i]))
}

/// The gradients of the first `w` workers, added up and scaled.
pub open spec fn batch_grad<F: Float>(
    m: Model,
    data: Dataset,
    plan: Plan<F>,
    p: Seq<F>,
    epoch: int,
    w: int,
) -> Seq<F>
    decreases w,
{
    if w <= 0 {
        zero_vec(m.n_params as int)
    } else {
        absorbed(
            batch_grad(m, data, plan, p, epoch, w - 1),
            worker_grad(m, data, plan, p, epoch, w - 1, plan.batch as int),
            inv_batch(plan.batch),
        )
    }
}

/// The losses of the first `w` workers, added up.
pub open spec fn batch_loss<F: Float>(
    m: Model,
    data: Dataset,
    plan: Plan<F>,
    p: Seq<F>,
    epoch: int,
    w: int,
) -> F
    decreases w,
{
    if w <= 0 {
        zero()
    } else {
        plus(
            batch_loss(m, data, plan, p, epoch, w - 1),
            worker_loss(m, data, plan, p, epoch, w - 1, plan.batch as int),
        )
    }
}

/// The learning rate at a step, counted from zero: linear decay to zero over the run.
pub open spec fn rate_at<F: Float>(lr: F, step: usize, num_steps: usize) -> F {
    times(lr, minus(one(), over(num(step), num(num_steps))))
}

/// A row of the loss log is due after a number of steps.
pub open spec fn row_due(steps: int, eval_every: usize, num_steps: usize) -> bool {
    steps % (at_least_one(eval_every) as int) == 0 || steps == num_steps
}

/// A run of training after some number of steps.
#[verifier::ext_equal]
pub struct Run<F> {
    /// The parameters.
    pub p: Seq<F>,
    /// The first moments of the optimizer.
    pub m: Seq<F>,
    /// The second moments of the optimizer.
    pub v: Seq<F>,
    /// The mean loss over the last batch.
    pub loss: F,
    /// The losses since the last row of the loss log, added up.
    pub interval_loss: F,
    /// How many steps were taken since the last row of the loss log.
    pub interval_steps: int,
    /// The loss log: after how many steps, the mean loss since the row before, the parameters.
    pub log: Seq<(int, F, Seq<F>)>,
}

/// The run before the first step.
pub open spec fn run_start<F: Float>(n_params: int, p: Seq<F>, logging: bool) -> Run<F> {
    Run {
        p,
        m: zero_vec(n_params),
        v: zero_vec(n_params),
        loss: zero(),
        interval_loss: zero(),
        interval_steps: 0,
        log: if logging {
            seq![(0int, undefined::<F>(), p)]
        } else {
            Seq::empty()
        },
    }
}

/// The run after a step, counted from zero, with the gradients `g` and the loss `loss`.
pub open spec fn run_next<F: Float>(
    run: Run<F>,
    g: Seq<F>,
    loss: F,
    plan: Plan<F>,
    step: int,
) -> Run<F> {
    let lr = rate_at(plan.lr, step as usize, plan.num_steps);
    let p = adam_params(run.p, run.m, run.v, g, lr, (step + 1) as usize);
    let total = plus(run.interval_loss, loss);
    let due = plan.logging && row_due(step + 1, plan.eval_every, plan.num_steps);
    Run {
        p,
        m: first_moments(run.m, g, run.p.len() as int),
        v: second_moments(run.v, g, run.p.len() as int),
        loss,
        interval_loss: if due {
            zero()
        } else if plan.logging {
            total
        } else {
            run.interval_loss
        },
        interval_steps: if due {
            0
        } else if plan.logging {
            run.interval_steps + 1
        } else {
            run.interval_steps
        },
        log: if due {
            run.log.push((step + 1, over(total, num((run.interval_steps + 1) as usize)), p))
        } else {
            run.log
        },
    }
}

/// The run after some number of steps.
pub open spec fn run_after<F: Float>(
    m: Model,
    data: Dataset,
    plan: Plan<F>,
    p: Seq<F>,
    steps: int,
) -> Run<F>
    decreases steps,
{
    if steps <= 0 {
        run_start(m.n_params as int, p, plan.logging)
    } else {
        let run = run_after(m, data, plan, p, steps - 1);
        run_next(
            run,
            batch_grad(m, data, plan, run.p, steps, plan.workers),
            times(
                batch_loss(m, data, plan, run.p, steps, plan.workers),
                inv_batch(plan.batch),
            ),
            plan,
            steps - 1,
        )
    }
}

/// What there is to do after a step.
pub struct StepReport<F> {
    /// The mean loss over the batch.
    pub loss: F,
    /// Whether to report progress.
    pub progress: bool,
    /// The mean loss since the last row of the loss log, if a row is due.
    pub row: Option<F>,
}

/// The state of training between the steps.
pub struct TrainState<F> {
    /// The gradients of the step, added up and scaled.
    pub grads: Vec<F>,
    /// The optimizer.
    pub adam: Adam<F>,
    /// The losses of the step, added up.
    pub loss_sum: F,
    /// The losses since the last row of the loss log, added up.
    pub interval_loss: F,
    /// How many steps were taken since the last row of the loss log.
    pub interval_steps: usize,
}

impl<F: Float> TrainState<F> {
    /// The buffers have an entry per parameter.
    pub open spec fn wf(self, n_params: int) -> bool {
        &&& self.grads@.len() == n_params
        &&& self.adam.m@.len() == n_params
        &&& self.adam.v@.len() == n_params
    }

    /// The state before the first step.
    pub fn new(n_params: usize) -> (r: Self)
        ensures
            r.wf(n_params as int),
            r.interval_steps == 0,
            deterministic::<F>() ==> {
                &&& r.grads@ == zero_vec::<F>(n_params as int)
                &&& r.adam.m@ == zero_vec::<F>(n_params as int)
                &&& r.adam.v@ == zero_vec::<F>(n_params as int)
                &&& r.loss_sum == zero::<F>()
                &&& r.interval_loss == zero::<F>()
            },
    {
        let r = TrainState {
            grads: zeros(n_params),
            adam: Adam::new(n_params),
            loss_sum: F::from_usize(0),
            interval_loss: F::from_usize(0),
            interval_steps: 0,
        };
        proof {
            if deterministic::<F>() {
                assert(r.grads@ =~= zero_vec::<F>(n_params as int));
                assert(r.adam.m@ =~= zero_vec::<F>(n_params as int));
                assert(r.adam.v@ =~= zero_vec::<F>(n_params as int));
            }
        }
        r
    }

    /// Takes over what a worker added up, and clears its gradients for the next step.
    pub fn absorb(&mut self, slot: &mut WorkerSlot<F>, batch: usize)
        requires
            old(self).grads@.len() == old(slot).grad@.len(),
        ensures
            final(self).grads@.len() == old(self).grads@.len(),
            final(self).adam == old(self).adam,
            final(self).interval_loss == old(self).interval_loss,
            final(self).interval_steps == old(self).interval_steps,
            final(slot).grad@.len() == old(slot).grad@.len(),
            final(slot).loss == old(slot).loss,
            deterministic::<F>() ==> {
                &&& final(self).grads@ == absorbed(
                    old(self).grads@,
                    old(slot).grad@,
                    inv_batch(batch),
                )
                &&& final(self).loss_sum == plus(old(self).loss_sum, old(slot).loss)
                &&& final(slot).grad@ == zero_vec::<F>(old(slot).grad@.len() as int)
            },
    {
        let inv_b = F::from_usize(1).over(F::from_usize(batch));
        self.loss_sum = self.loss_sum.plus(slot.loss);
        let n: usize = self.grads.len();
        let ghost (g0, x0) = (self.grads@, slot.grad@);
        let mut i: usize = 0;
        while i < n
            invariant
                i <= n,
                n == g0.len(),
                n == x0.len(),
                self.grads@.len() == n,
                slot.grad@.len() == n,
                slot.loss == old(slot).loss,
                self.adam == old(self).adam,
                self.interval_loss == old(self).interval_loss,
                self.interval_steps == old(self).interval_steps,
                deterministic::<F>() ==> {
                    &&& inv_b == inv_batch::<F>(batch)
                    &&& self.loss_sum == plus(old(self).loss_sum, old(slot).loss)
                },
                forall|j: int| i <= j < n ==> #[trigger] self.grads@[j] == g0[j],
                forall|j: int| i <= j < n ==> #[trigger] slot.grad@[j] == x0[j],
                deterministic::<F>() ==> forall|j: int|
                    0 <= j < i ==> #[trigger] self.grads@[j] == fma(x0[j], inv_b, g0[j]),
                deterministic::<F>() ==> forall|j: int|
                    0 <= j < i ==> #[trigger] slot.grad@[j] == zero::<F>(),
            decreases n - i,
        {
            self.grads[i] = slot.grad[i].mul_add(inv_b, self.grads[i]);
            slot.grad[i] = F::from_usize(0);
            i = i + 1;
        }
        proof {
            if deterministic::<F>() {
                assert(self.grads@ =~= absorbed(g0, x0, inv_batch(batch)));
                assert(slot.grad@ =~= zero_vec::<F>(n as int));
            }
        }
    }

    /// Takes the step of the optimizer with what was absorbed, and says what there is to do.
    /// Steps are counted from zero.
    pub fn finish_step(
        &mut self,
        params: &mut Vec<F>,
        cfg: &TrainConfig<F>,
        step: usize,
    ) -> (r: StepReport<F>)
        requires
            old(self).wf(old(params)@.len() as int),
            step < cfg.num_steps,
            old(self).interval_steps <= step,
        ensures
            final(self).wf(old(params)@.len() as int),
            final(params)@.len() == old(params)@.len(),
            r.progress == ((step + 1) % REPORT_EVERY as int == 0 || step + 1 == cfg.num_steps),
            r.row is Some <==> cfg.log_path is Some && row_due(
                step + 1,
                cfg.eval_every,
                cfg.num_steps,
            ),
            final(self).interval_steps == (if r.row is Some {
                0
            } else if cfg.log_path is Some {
                old(self).interval_steps + 1
            } else {
                old(self).interval_steps as int
            }),
            deterministic::<F>() ==> ({
                let loss = times(old(self).loss_sum, inv_batch(cfg.batch_of()));
                let lr = rate_at(cfg.lr, step, cfg.num_steps);
                let n = old(params)@.len() as int;
                let total = plus(old(self).interval_loss, loss);
                &&& r.loss == loss
                &&& final(params)@ == adam_params(
                    old(params)@,
                    old(self).adam.m@,
                    old(self).adam.v@,
                    old(self).grads@,
                    lr,
                    (step + 1) as usize,
                )
                &&& final(self).adam.m@ == first_moments(
                    old(self).adam.m@,
                    old(self).grads@,
                    n,
                )
                &&& final(self).adam.v@ == second_moments(
                    old(self).adam.v@,
                    old(self).grads@,
                    n,
                )
                &&& final(self).grads@ == zero_vec::<F>(n)
                &&& final(self).loss_sum == zero::<F>()
                &&& r.row is Some ==> r.row == Some(
                    over(total, num((old(self).interval_steps + 1) as usize)),
                )
                &&& final(self).interval_loss == (if r.row is Some {
                    zero()
                } else if cfg.log_path is Some {
                    total
                } else {
                    old(self).interval_loss
                })
            }),
    {
        let batch: usize = cfg.batch();
        let inv_b = F::from_usize(1).over(F::from_usize(batch));
        let loss = self.loss_sum.times(inv_b);
        self.loss_sum = F::from_usize(0);
        let decay = F::from_usize(1).minus(
            F::from_usize(step).over(F::from_usize(cfg.num_steps)),
        );
        let lr = cfg.lr.times(decay);
        let done: usize = step + 1;
        self.adam.step(params.as_mut_slice(), self.grads.as_mut_slice(), lr, done);
        proof {
            if deterministic::<F>() {
                assert(self.grads@ =~= zero_vec::<F>(params@.len() as int));
            }
        }
        let mut row: Option<F> = None;
        if cfg.log_path.is_some() {
            self.interval_loss = self.interval_loss.plus(loss);
            self.interval_steps = self.interval_steps + 1;
            let every: usize = if cfg.eval_every >= 1 {
                cfg.eval_every
            } else {
                1
            };
            if done % every == 0 || done == cfg.num_steps {
                row = Some(self.interval_loss.over(F::from_usize(self.interval_steps)));
                self.interval_loss = F::from_usize(0);
                self.interval_steps = 0;
            }
        }
        let progress = done % REPORT_EVERY == 0 || done == cfg.num_steps;
        StepReport { loss, progress, row }
    }
}

/// A row of the loss log, before the held-out loss is known.
pub struct Snapshot<F> {
    /// After how many steps it was taken.
    pub step: usize,
    /// The mean loss since the row before; undefined before the first step.
    pub train_loss: F,
    /// The parameters.
    pub params: Vec<F>,
}

/// What a run of training gives besides the parameters.
pub struct TrainLog<F> {
    /// The mean loss over the last batch.
    pub loss: F,
    /// The rows of the loss log.
    pub rows: Vec<Snapshot<F>>,
}

/// The rows of a loss log as mathematical values.
pub open spec fn rows_of<F>(rows: Seq<Snapshot<F>>) -> Seq<(int, F, Seq<F>)> {
    Seq::new(rows.len(), |i: int| (rows[i].step as int, rows[i].train_loss, rows[i].params@))
}

/// The workers take turns: document `k` of every step goes to worker `k` modulo their number.
pub open spec fn in_turns<F>(cfg: TrainConfig<F>) -> Plan<F> {
    let workers = cfg.threads_of() as int;
    Plan {
        batch: cfg.batch_of(),
        workers,
        owner: |epoch: int, k: int| k % workers,
        num_steps: cfg.num_steps,
        lr: cfg.lr,
        logging: cfg.log_path is Some,
        eval_every: cfg.eval_every,
    }
}

/// A copy of the parameters.
fn copy_of<F: Float>(p: &Vec<F>) -> (r: Vec<F>)
    ensures
        r@ == p@,
{
    let mut r: Vec<F> = Vec::with_capacity(p.len());
    let n: usize = p.len();
    let mut i: usize = 0;
    while i < n
        invariant
            i <= n,
            n == p@.len(),
            r@ == p@.take(i as int),
        decreases n - i,
    {
        r.push(p[i]);
        assert(p@.take(i as int).push(p@[i as int]) =~= p@.take(i + 1));
        i = i + 1;
    }
    assert(p@.take(n as int) =~= p@);
    r
}

/// The training loss that a row of the loss log shows: the held-out loss before the first step.
pub fn shown_loss<F: Float>(train_loss: F, eval_loss: F) -> (r: F)
    ensures
        deterministic::<F>() ==> r == (if is_undefined(train_loss) {
            eval_loss
        } else {
            train_loss
        }),
{
    if train_loss.is_nan() {
        eval_loss
    } else {
        train_loss
    }
}

/// The documents of one step, claimed by the workers in turns. Then each leaves the sum of its
/// losses in its slot.
#[verifier::rlimit(40)]
fn run_step<F: Float>(
    model: &Model,
    data: &Dataset,
    p: &[F],
    cfg: &TrainConfig<F>,
    worker: &mut Worker<F>,
    slots: &mut Vec<WorkerSlot<F>>,
    epoch: usize,
)
    requires
        trainable::<F>(*model, *data, p@.len() as int),
        has_documents(*data),
        old(worker).wf(*model),
        old(slots)@.len() == cfg.threads_of(),
        forall|w: int|
            0 <= w < old(slots)@.len() ==> (#[trigger] old(slots)@[w]).grad@.len()
                == model.n_params,
        epoch >= 1,
        epoch * cfg.batch_of() - 1 <= usize::MAX,
        deterministic::<F>() ==> forall|w: int|
            0 <= w < old(slots)@.len() ==> (#[trigger] old(slots)@[w]).grad@ == zero_vec::<F>(
                model.n_params as int,
            ),
    ensures
        final(worker).wf(*model),
        final(slots)@.len() == old(slots)@.len(),
        forall|w: int|
            0 <= w < final(slots)@.len() ==> (#[trigger] final(slots)@[w]).grad@.len()
                == model.n_params,
        deterministic::<F>() ==> forall|w: int|
            0 <= w < final(slots)@.len() ==> (#[trigger] final(slots)@[w]).grad@ == worker_grad(
                *model,
                *data,
                in_turns(*cfg),
                p@,
                epoch as int,
                w,
                cfg.batch_of() as int,
            ) && final(slots)@[w].loss == worker_loss(
                *model,
                *data,
                in_turns(*cfg),
                p@,
                epoch as int,
                w,
                cfg.batch_of() as int,
            ),
{
    let batch: usize = cfg.batch();
    let workers: usize = cfg.threads();
    let ghost plan = in_turns(*cfg);
    let mut sums: Vec<F> = zeros(workers);
    proof {
        assert((epoch - 1) * batch + batch == epoch * batch) by (nonlinear_arith);
    }
    let mut k: usize = 0;
    while k < batch
        invariant
            k <= batch,
            batch == cfg.batch_of(),
            workers == cfg.threads_of(),
            1 <= workers,
            plan == in_turns(*cfg),
            trainable::<F>(*model, *data, p@.len() as int),
            has_documents(*data),
            worker.wf(*model),
            slots@.len() == workers,
            slots@.len() == old(slots)@.len(),
            sums@.len() == workers,
            forall|w: int|
                0 <= w < slots@.len() ==> (#[trigger] slots@[w]).grad@.len() == model.n_params,
            epoch >= 1,
            (epoch - 1) * batch + batch - 1 <= usize::MAX,
            deterministic::<F>() ==> forall|w: int|
                0 <= w < slots@.len() ==> (#[trigger] slots@[w]).grad@ == worker_grad(
                    *model,
                    *data,
                    plan,
                    p@,
                    epoch as int,
                    w,
                    k as int,
                ),
            deterministic::<F>() ==> forall|w: int|
                0 <= w < sums@.len() ==> #[trigger] sums@[w] == worker_loss(
                    *model,
                    *data,
                    plan,
                    p@,
                    epoch as int,
                    w,
                    k as int,
                ),
        decreases batch - k,
    {
        let owner: usize = k % workers;
        let ghost (before, sums_before) = (slots@, sums@);
        let _more = worker.claim(
            model,
            data,
            p,
            &mut slots[owner],
            &mut sums[owner],
            epoch,
            batch,
            k,
        );
        proof {
            assert((plan.owner)(epoch as int, k as int) == owner);
            assert forall|w: int| 0 <= w < slots@.len() && w != owner implies #[trigger] slots@[w]
                == before[w] by {}
            assert forall|w: int| 0 <= w < sums@.len() && w != owner implies #[trigger] sums@[w]
                == sums_before[w] by {}
        }
        k = k + 1;
    }
    let ghost done = slots@;
    let mut w: usize = 0;
    while w < workers
        invariant
            w <= workers,
            slots@.len() == workers,
            done.len() == workers,
            sums@.len() == workers,
            forall|u: int| 0 <= u < workers ==> (#[trigger] slots@[u]).grad == done[u].grad,
            forall|u: int| 0 <= u < w ==> (#[trigger] slots@[u]).loss == sums@[u],
        decreases workers - w,
    {
        slots[w].loss = sums[w];
        w = w + 1;
    }
}

/// Trains `params` in place: the training loop with the workers taking turns. Returns the mean
/// loss over the last batch, and the rows of the loss log if one is kept.
#[verifier::rlimit(60)]
pub fn train<F: Float>(
    model: &Model,
    data: &Dataset,
    params: &mut Vec<F>,
    cfg: &TrainConfig<F>,
) -> (r: TrainLog<F>)
    requires
        trainable::<F>(*model, *data, old(params)@.len() as int),
        cfg.num_steps > 0 ==> has_documents(*data),
        old(params)@.len() == model.n_params,
        cfg.num_steps * cfg.batch_of() - 1 <= usize::MAX,
    ensures
        final(params)@.len() == old(params)@.len(),
        deterministic::<F>() ==> ({
            let run = run_after(
                *model,
                *data,
                in_turns(*cfg),
                old(params)@,
                cfg.num_steps as int,
            );
            &&& final(params)@ == run.p
            &&& r.loss == run.loss
            &&& rows_of(r.rows@) == run.log
        }),
{
    let batch: usize = cfg.batch();
    let workers: usize = cfg.threads();
    let n_params: usize = model.n_params;
    let ghost plan = in_turns(*cfg);
    let ghost p0 = params@;
    let ghost n = n_params as int;
    let mut slots: Vec<WorkerSlot<F>> = Vec::new();
    let mut w: usize = 0;
    while w < workers
        invariant
            w <= workers,
            slots@.len() == w,
            n == n_params,
            forall|u: int| 0 <= u < w ==> (#[trigger] slots@[u]).grad@.len() == n_params,
            deterministic::<F>() ==> forall|u: int|
                0 <= u < w ==> (#[trigger] slots@[u]).grad@ == zero_vec::<F>(n),
        decreases workers - w,
    {
        let slot = WorkerSlot::new(n_params);
        assert(deterministic::<F>() ==> slot.grad@ =~= zero_vec::<F>(n));
        slots.push(slot);
        w = w + 1;
    }
    let mut worker: Worker<F> = Worker::new(model);
    let mut state: TrainState<F> = TrainState::new(n_params);
    let mut loss = F::from_usize(0);
    let mut rows: Vec<Snapshot<F>> = Vec::new();
    if cfg.log_path.is_some() {
        rows.push(Snapshot { step: 0, train_loss: F::nan(), params: copy_of(params) });
    }
    proof {
        if deterministic::<F>() {
            assert(rows_of(rows@) =~= run_after(*model, *data, plan, p0, 0).log);
        }
    }
    let mut step: usize = 0;
    while step < cfg.num_steps
        invariant
            step <= cfg.num_steps,
            batch == cfg.batch_of(),
            workers == cfg.threads_of(),
            n_params == model.n_params,
            n == n_params,
            plan == in_turns(*cfg),
            trainable::<F>(*model, *data, n),
            cfg.num_steps > 0 ==> has_documents(*data),
            params@.len() == n,
            cfg.num_steps * batch - 1 <= usize::MAX,
            slots@.len() == workers,
            worker.wf(*model),
            state.wf(n),
            state.interval_steps <= step,
            forall|u: int| 0 <= u < workers ==> (#[trigger] slots@[u]).grad@.len() == n_params,
            deterministic::<F>() ==> forall|u: int|
                0 <= u < workers ==> (#[trigger] slots@[u]).grad@ == zero_vec::<F>(n),
            deterministic::<F>() ==> ({
                let run = run_after(*model, *data, plan, p0, step as int);
                &&& params@ == run.p
                &&& state.adam.m@ == run.m
                &&& state.adam.v@ == run.v
                &&& state.grads@ == zero_vec::<F>(n)
                &&& state.loss_sum == zero::<F>()
                &&& state.interval_loss == run.interval_loss
                &&& state.interval_steps == run.interval_steps
                &&& loss == run.loss
                &&& rows_of(rows@) == run.log
            }),
        decreases cfg.num_steps - step,
    {
        proof {
            assert((step + 1) * batch <= cfg.num_steps * batch) by (nonlinear_arith)
                requires
                    step + 1 <= cfg.num_steps,
            ;
        }
        let ghost p = params@;
        let ghost run = run_after(*model, *data, plan, p0, step as int);
        run_step(model, data, params.as_slice(), cfg, &mut worker, &mut slots, step + 1);
        let mut w: usize = 0;
        while w < workers
            invariant
                w <= workers,
                n == n_params,
                n_params == model.n_params,
                batch == cfg.batch_of(),
                workers == cfg.threads_of(),
                plan == in_turns(*cfg),
                slots@.len() == workers,
                state.wf(n),
                state.interval_steps <= step,
                forall|u: int|
                    0 <= u < workers ==> (#[trigger] slots@[u]).grad@.len() == n_params,
                deterministic::<F>() ==> {
                    &&& state.adam.m@ == run.m
                    &&& state.adam.v@ == run.v
                    &&& state.interval_loss == run.interval_loss
                    &&& state.interval_steps == run.interval_steps
                    &&& state.grads@ == batch_grad(*model, *data, plan, p, step + 1, w as int)
                    &&& state.loss_sum == batch_loss(*model, *data, plan, p, step + 1, w as int)
                },
                deterministic::<F>() ==> forall|u: int|
                    0 <= u < w ==> (#[trigger] slots@[u]).grad@ == zero_vec::<F>(n),
                deterministic::<F>() ==> forall|u: int|
                    w <= u < workers ==> (#[trigger] slots@[u]).grad@ == worker_grad(
                        *model,
                        *data,
                        plan,
                        p,
                        step + 1,
                        u,
                        batch as int,
                    ) && slots@[u].loss == worker_loss(
                        *model,
                        *data,
                        plan,
                        p,
                        step + 1,
                        u,
                        batch as int,
                    ),
            decreases workers - w,
        {
            let ghost before = slots@;
            state.absorb(&mut slots[w], batch);
            proof {
                assert forall|u: int| 0 <= u < workers && u != w implies #[trigger] slots@[u]
                    == before[u] by {}
            }
            w = w + 1;
        }
        let report = state.finish_step(params, cfg, step);
        loss = report.loss;
        match report.row {
            Some(train_loss) => {
                rows.push(Snapshot { step: step + 1, train_loss, params: copy_of(params) });
            },
            None => {},
        }
        proof {
            if deterministic::<F>() {
                let next = run_after(*model, *data, plan, p0, step + 1);
                assert(rows_of(rows@) =~= next.log);
            }
        }
        step = step + 1;
    }
    TrainLog { loss, rows }
}

/// A row of the loss log.
pub struct LogRow<F> {
    /// After how many steps it was taken.
    pub step: usize,
    /// The mean loss since the row before; in the first row, the held-out loss.
    pub train_loss: F,
    /// The mean loss over the held-out documents.
    pub eval_loss: F,
}

/// The held-out loss at the parameters `p`.
pub open spec fn held_out_loss<F: Float>(m: Model, data: Dataset, p: Seq<F>) -> F {
    mean_loss(
        m,
        p,
        data.uchars@,
        data.docs@.subrange(data.n_train as int, data.docs@.len() as int),
    )
}

/// The rows of the loss log for the snapshots of a run.
pub fn log_rows<F: Float>(model: &Model, data: &Dataset, rows: &[Snapshot<F>]) -> (r: Vec<
    LogRow<F>,
>)
    requires
        trainable::<F>(*model, *data, model.n_params as int),
        rows@.len() > 0 ==> has_documents(*data),
        forall|i: int|
            0 <= i < rows@.len() ==> (#[trigger] rows@[i]).params@.len() >= model.n_params,
    ensures
        r@.len() == rows@.len(),
        forall|i: int| 0 <= i < rows@.len() ==> (#[trigger] r@[i]).step == rows@[i].step,
        deterministic::<F>() ==> forall|i: int|
            0 <= i < rows@.len() ==> (#[trigger] r@[i]).eval_loss == held_out_loss(
                *model,
                *data,
                rows@[i].params@,
            ) && r@[i].train_loss == (if is_undefined(rows@[i].train_loss) {
                r@[i].eval_loss
            } else {
                rows@[i].train_loss
            }),
{
    let n: usize = rows.len();
    if n == 0 {
        return Vec::new();
    }
    let mut acts: Acts<F> = Acts::new(model);
    let mut tokens: Vec<usize> = Vec::new();
    let docs = data.eval_docs();
    proof {
        assert forall|d: int| 0 <= d < docs@.len() implies covers(
            data.uchars@,
            (#[trigger] docs@[d])@,
        ) by {
            lemma_doc_covered(*data, data.n_train + d);
        }
    }
    let mut r: Vec<LogRow<F>> = Vec::new();
    let mut i: usize = 0;
    while i < n
        invariant
            i <= n,
            n == rows@.len(),
            trainable::<F>(*model, *data, model.n_params as int),
            docs@ == data.docs@.subrange(data.n_train as int, data.docs@.len() as int),
            forall|d: int| 0 <= d < docs@.len() ==> covers(data.uchars@, (#[trigger] docs@[d])@),
            forall|i: int|
                0 <= i < rows@.len() ==> (#[trigger] rows@[i]).params@.len() >= model.n_params,
            acts.wf(model.shape, model.vocab_size as int),
            r@.len() == i,
            forall|k: int| 0 <= k < i ==> (#[trigger] r@[k]).step == rows@[k].step,
            deterministic::<F>() ==> forall|k: int|
                0 <= k < i ==> (#[trigger] r@[k]).eval_loss == held_out_loss(
                    *model,
                    *data,
                    rows@[k].params@,
                ) && r@[k].train_loss == (if is_undefined(rows@[k].train_loss) {
                    r@[k].eval_loss
                } else {
                    rows@[k].train_loss
                }),
        decreases n - i,
    {
        let snap = &rows[i];
        assert(rows@[i as int].params@.len() >= model.n_params);
        let eval_loss = model.eval_loss(
            snap.params.as_slice(),
            data,
            docs,
            &mut acts,
            &mut tokens,
        );
        let train_loss = shown_loss(snap.train_loss, eval_loss);
        r.push(LogRow { step: snap.step, train_loss, eval_loss });
        i = i + 1;
    }
    r
}

} // verus!
