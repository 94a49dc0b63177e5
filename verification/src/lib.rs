//! A control-flow-graph intermediate representation for a WebAssembly-like
//! stack machine: SSA values with block parameters, a shared operand-list
//! pool, dominance analysis, block cloning and a few code-synthesis helpers.
//!
//! Every executable function carries a contract stated over the mathematical
//! view of the data it touches.

pub mod builder;
pub mod cfg;
pub mod cloning;
pub mod entity;
pub mod ir;
pub mod ops;
pub mod pool;
pub mod value_set;
