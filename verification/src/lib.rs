//! Evolving recurrent weighted-graph networks.
//!
//! A directed weighted graph maps an input vector to an output vector by
//! recursive signal flow; arc weights are trained against samples and the
//! topology itself is evolved.  Weights and signals are IEEE-754 double
//! bit patterns held in `u64` values (see `common`); the arithmetic on
//! them — products, sums, square roots, means — is done by the caller,
//! and every structural decision taken on them here is verified.

pub mod apply;
pub mod common;
pub mod evolve;
pub mod id_generator;
pub mod graph;
pub mod matrix;
pub mod mutator;
pub mod network;
pub mod rng;
