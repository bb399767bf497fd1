//! The subtyping constraint engine.

pub mod canonical;
pub mod checker;
pub mod flow;
pub mod reachability;
pub mod printing;
pub mod envs;
