//! Verified core of a replicated parameter server: placement of model bins on
//! backends, the keeper's membership and migration decisions, and the update
//! protocol that each backend runs over its model queues.

pub mod bin_client;
pub mod err;
pub mod keeper;
pub mod lab1;
pub mod ml;
