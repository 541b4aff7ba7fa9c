//! Balanced assignment of students to class rooms.
//!
//! The library holds the data model, the cost of a partition, two search
//! strategies (a multi-start striped draft and a swap-based hill climber) and
//! the state machine of a cancellable background job that streams its
//! progress.

pub mod model;
pub mod cost;
pub mod random;
pub mod generate;
pub mod refine;
pub mod job;
