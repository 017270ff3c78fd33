//! Schedule matching and role reconciliation for a course community.
//!
//! The crate keeps an immutable course catalog, a durable per-user
//! enrollment and privacy store, pure overlap computations between two
//! users' schedules, a presence query over the whole store, and an
//! idempotent reconciliation of externally held roles against a user's
//! current enrollment.

pub mod catalog;
pub mod codec;
pub mod overlap;
pub mod presence;
pub mod roles;
pub mod store;
pub mod viz;

pub use catalog::{Course, CourseCatalog, CourseSession};
