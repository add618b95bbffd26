//! Verified structural core of a HyperNEAT-style indirect encoding: the
//! acyclic CPPN graph, the integer side of its evaluator (index sets,
//! propagation order, evaluation plan, layering) and the substrate's link
//! enumeration.
//!
//! Real-valued quantities (link weights, distance limits) are carried as
//! opaque bit patterns; the arithmetic on them lives outside this crate.
//!
//! - `activation_function`, `bipolar`: the activation functions, by name and
//!   formula.
//! - `model`, `walk`: the graph as a mathematical value, with its walks,
//!   reachability and acyclicity.
//! - `network`, `bitset`: what is taken on trust of the network and the bit
//!   set that the crate builds on.
//! - `graph`: the graph itself.
//! - `cppn`, `propagation`, `plan`, `layering`: the evaluator and what it
//!   computes.
//! - `scalar`, `substrate`: the substrate and the pairs of nodes that it
//!   admits.

pub mod activation_function;
pub mod bipolar;
pub mod bitset;
pub mod cppn;
pub mod graph;
pub mod layering;
pub mod model;
pub mod network;
pub mod plan;
pub mod propagation;
pub mod scalar;
pub mod substrate;
pub mod walk;
