//! Execution core of a node-graph scripting language: namespaced names, a
//! value model, a write-once type registry, graph functions and the
//! demand-driven interpreter that evaluates them.

pub mod names;
pub mod value;
pub mod registry;
pub mod graph;
pub mod interp;
pub mod filetype;
pub mod order;
pub mod stdlib;
pub mod env;
