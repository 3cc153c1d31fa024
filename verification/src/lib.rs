//! A mid-level compiler representation that keeps what is computed (operations)
//! apart from where values live and for how long (binding definitions and usages).

pub mod index;
pub mod bucket;
pub mod hlir;
pub mod error;
pub mod solver;
pub mod block;
pub mod cfg;
pub mod model;
pub mod builder;
pub mod lowering;
pub mod program;
