//! An execution engine for graphs of typed operation nodes.
//!
//! A graph ([`ir::IRGraph`]) holds nodes, each naming an operation and the ids of
//! the nodes it depends on. [`graph_executor::GraphExecutor`] resolves the
//! dependencies of a node depth first, in their declared order, runs each
//! node's operation at most once per cache lifetime through an
//! [`graph_executor::EffectHandler`] supplied by the caller, and memoizes every
//! result by node id.

pub mod ir;
pub mod graph_executor;
pub mod result_cache;
pub mod laws;

pub mod legacy;
pub mod module_manager;
