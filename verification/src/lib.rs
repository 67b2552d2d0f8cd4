//! A fine-grained reactive state-propagation core: observable state cells,
//! dependency-tracked computations (effects and derived values), a batching
//! scheduler with glitch-free topological re-execution, and a keyed-sequence
//! reconciler that turns a list change into a minimal ordered edit list.

pub mod engine;
pub mod laws;
pub mod expr;
pub mod reconcile;
