//! A minimal UI-templating runtime: templates with named references that are
//! found again by traversal distance, and a keyed-list reconciler that plans
//! the host-tree mutations by which a rendered list becomes a new one, every
//! node kept whose id is wanted again.

pub mod lis;
pub mod mutation;
pub mod reconcile;
pub mod synthetic_events;
pub mod template;

pub use template::{compile, h, Ref, Template};
