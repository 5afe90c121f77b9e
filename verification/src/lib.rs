//! A small GPT: training and inference, with every kernel, pass and update rule verified.
//!
//! The network is a GPT-2 style transformer with rmsnorm in place of layernorm, no biases, and
//! ReLU in place of GeLU. The backward pass is written by hand. Parameters, gradients and the
//! moments of the optimizer live in flat buffers, and the stored rows of the forward pass are the
//! cache that generation continues from.
//!
//! - numbers: [`scalar`] is the number type, [`matrix`] what flat buffers hold, [`kernels`] and
//!   [`stages`] the loops over them
//! - network: [`model`] lays out the parameters, [`network`] says what is computed, [`acts`],
//!   [`attention`], [`forward`] and [`loss`] compute it
//! - gradients: [`gradient`] says what the backward pass computes, [`attention_bwd`] and
//!   [`backward`] compute it
//! - training: [`adam`], [`text`], [`dataset`], [`document`], [`train`], [`wait`]; inference:
//!   [`sample`]; random numbers: [`rng`]
//! - laws: [`laws`] for any number type; [`laws_rounding`] for types that round; for number types
//!   without rounding, as [`reading`] defines them, [`laws_forward`], [`laws_loss`],
//!   [`laws_sampling`] and [`laws_training`] say what the network, the loss, the draws and a run
//!   of training are in terms of parameters, tokens and random numbers, [`laws_exact`] and
//!   [`dead_units`] what follows for batches, workers and units that never fire, and
//!   [`backprop_network`] that the gradient is the derivative of the loss; [`sums`],
//!   [`derivative`], [`backprop`] and [`backprop_attention`] lead up to it
use vstd::prelude::*;

pub mod acts;
pub mod adam;
pub mod arith;
pub mod attention;
pub mod attention_bwd;
pub mod backprop;
pub mod backprop_attention;
pub mod backprop_network;
pub mod backward;
pub mod dataset;
pub mod dead_units;
pub mod derivative;
pub mod document;
pub mod forward;
pub mod gradient;
pub mod kernels;
pub mod laws;
pub mod laws_exact;
pub mod laws_forward;
pub mod laws_loss;
pub mod laws_rounding;
pub mod laws_sampling;
pub mod laws_training;
pub mod loss;
pub mod matrix;
pub mod model;
pub mod network;
pub mod reading;
pub mod rng;
pub mod sample;
pub mod scalar;
pub mod stages;
pub mod sums;
pub mod text;
pub mod train;
pub mod wait;

verus! {

} // verus!
