# microgpt

A small GPT that trains on a list of names and makes up new ones, verified with Verus.

- GPT-2 style transformer: 1 layer, 16-dim embeddings, 4 heads, context 16, rmsnorm, no biases,
  ReLU MLP; other shapes at run time
- character-level tokenizer over a text file with one document per line
- hand-written backward pass, Adam with bias correction, linear learning-rate decay
- minibatches spread over threads; the last 1000 documents are held out
- temperature-0.5 sampling of 20 new names at the end

## Layout

- `src/` is the library, all of it verified, on one assumption: that `String::push` of the standard
  library appends a character (`text.rs`). What the network computes stands in
  `network.rs`, `loss.rs` and `gradient.rs` as mathematics; `forward.rs` and `backward.rs` are
  proved to compute it.
- `app/` is the program: arguments, files, the thread pool and single-precision arithmetic.
- `tests/` runs the library in double precision and in dual numbers.

## Numbers

Verus does not reason about floating point. The library is generic over the trait
`scalar::Float`, which lists the operations that the model needs and promises nothing about them.
A contract about computed numbers says which operations are applied to which operands in which
order. It holds for every number type whose operations return one value for given operands.

## Laws

`laws.rs` holds what is true of the library as a whole whatever the numbers do: single passes over
the stored rows give what one pass over all positions gives, scores depend on earlier tokens only,
shuffling rearranges, tokenizing loses nothing, the matrices tile the parameter buffer, keeping a
loss log changes nothing, and neither do the held-out documents.

`laws_rounding.rs` holds what rounding leaves true: the softmax keeps the order of the scores and
sums to one within a bound, weights of a choice can be scaled by a power of two, second moments are
never negative.

`laws_exact.rs`, `dead_units.rs` and `backprop_network.rs` hold what is true without rounding. The gradient of a
batch is the mean of the gradients of its documents, and training does not depend on the number of
threads. A hidden unit whose input weights are zero stays as it is. In dual numbers, which carry a derivative along with every operation, what the backward
pass adds to the gradient of a parameter is the derivative of the loss.

## Environment

| variable | default | effect |
|---|---|---|
| `MICROGPT_N_LAYER`, `MICROGPT_N_EMBD`, `MICROGPT_N_HEAD`, `MICROGPT_BLOCK_SIZE` | 1, 16, 4, 16 | shape of the network |
| `MICROGPT_LOG` | unset | write `step,train_time_s,train_loss,eval_loss` to this file |
| `MICROGPT_EVAL_EVERY` | 100 | steps between two rows of the log |
| `MICROGPT_LR` | 0.01 | peak learning rate |
| `MICROGPT_SEED` | unset | reseed before the parameters are drawn; the split always uses seed 42 |
