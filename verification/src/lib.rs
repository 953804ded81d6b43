//! A behavior-tree runtime.
//!
//! A tree of sequences, fallbacks, parallel nodes, decorators and leaves is
//! ticked again and again; every tick reports success, failure or `Running`.
//!
//! - [`blackboard`]: the store of typed values that the nodes share;
//! - [`leaf`]: what the leaves do, conditions and actions;
//! - [`registry`]: the names of the leaves and what is bound to each;
//! - [`description`]: a tree as a parser hands it over;
//! - [`builder`]: from a description and a registry to a graph;
//! - [`graph`]: the arena of nodes, and the running-state of each;
//! - [`engine`]: one tick of a graph;
//! - [`invariants`] and [`laws`]: what holds of every tick;
//! - [`simulator`]: repeated ticks under a profile of perturbations;
//! - [`invocation`]: what the command-line front end decides before it
//!   hands over.

pub mod blackboard;
pub mod builder;
pub mod description;
pub mod engine;
pub mod graph;
pub mod invariants;
pub mod invocation;
pub mod laws;
pub mod leaf;
pub mod registry;
pub mod simulator;
pub mod status;
