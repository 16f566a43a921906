//! Edge-triggered readiness notification combined with high-resolution
//! deadlines: the timer heap, the arming rule for the deadline timer, the
//! strip set that suppresses events of removed descriptors, and the decisions
//! of the wait loop.

pub mod deadline;
pub mod heap;
pub mod strip;
pub mod wait;
