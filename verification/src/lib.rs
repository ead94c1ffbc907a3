//! Three-way reconciliation of two lists: every element is classified as inserted, updated
//! or deleted, and the caller's callback for that outcome is invoked.
//!
//! [`list_sync`] is the routine. Its contract is stated over the [`plan`]: the invocations
//! that are due for a given matching relation, in the order in which they are made. The
//! [`laws`] say what holds of every plan.

pub mod laws;
pub mod plan;
pub mod sync;

pub use sync::list_sync;
