//! The downloading client: planning what to fetch and carrying the plan out.

pub mod executor;
pub mod plan_laws;
pub mod planer;

pub use planer::{Action, Planer};
