//! Fan a single external-tool invocation out across many independent targets,
//! bounding how many processes run at once and emitting the captured results
//! in the original discovery order regardless of finishing order.
//!
//! The concurrency core is modelled as plain data: the bounded scheduler
//! decides which target starts next under the cap, and the ordered emitter
//! buffers finished outcomes until they can be surfaced in discovery order.
//! The process side (spawning, polling, sleeping) lives with the caller,
//! which feeds events back into these types.

pub mod emitter;
pub mod pipeline;
pub mod repo;
pub mod runner;
pub mod scheduler;
