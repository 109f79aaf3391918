//! A scalar reverse-mode automatic-differentiation engine, as a graph of
//! operations over node handles, and a small multilayer perceptron built
//! on it.
//!
//! - `value`: the computation graph, its topological order and the gradient
//!   contributions of the backward pass.
//! - `neuron`, `layer`, `mlp`: networks built as nodes of a graph.
//!
//! The numbers themselves (values and gradients) are kept by the caller,
//! one per node; the library decides the structure and the order of work.
use vstd::prelude::*;

pub mod value;
pub mod neuron;
pub mod layer;
pub mod mlp;

verus! {

} // verus!
