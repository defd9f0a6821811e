//! What callers can rely on, stated over calls: each proof function here takes
//! the inputs and the result of a call and says how they are related, in terms
//! of the inputs and the result alone.

pub mod assembling;
pub mod calibrating;
pub mod cuts;
pub mod decoding;
pub mod disks;
pub mod downloads;
pub mod fetching;
pub mod layers;
pub mod messages;
pub mod numbers;
pub mod painting;
pub mod picking;
pub mod planning;
pub mod queues;
pub mod refusals;
pub mod sampling;
pub mod texts;
pub mod times;
pub mod tracking;
