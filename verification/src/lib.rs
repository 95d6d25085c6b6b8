//! Reconciliation of a desired set of dotfile deployments against the set
//! that is currently deployed: which artifacts to delete, which to create
//! and which to leave in place.

pub mod paths;
pub mod targets;
pub mod descriptions;
pub mod ordered;
pub mod state;
