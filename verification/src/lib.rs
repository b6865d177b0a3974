//! A small delayed-task queue: tasks carry a kind, an earliest-execution time
//! and a lifecycle status. The store hands each eligible task to exactly one
//! claimer and keeps statuses moving only forward; a worker pool model bounds
//! how many claimed tasks run at once.

mod filter;
mod laws;
mod store;
mod task;
mod worker;

pub use filter::Filter;
pub use store::DbError;
pub use store::ErrorCategory;
pub use store::TaskStore;
pub use task::Task;
pub use task::TaskKind;
pub use task::TaskStatus;
pub use worker::poll_action;
pub use worker::Limiter;
pub use worker::PollAction;
