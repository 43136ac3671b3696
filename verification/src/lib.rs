//! Session-based assignment scheduler.
//!
//! Every epoch the scheduler distributes a pool of interchangeable worker
//! identities across a prioritized set of partitions: one orchestrator
//! partition with a minimum/maximum capacity range, and zero or more
//! container partitions that each require an exact uniform headcount.
//! The computation is a pure, deterministic function of the eligible
//! worker list, the partition configuration, and the previous epoch's
//! assignment; it prefers to keep each worker on its previous partition
//! whenever capacity allows.

pub mod assignment;
pub mod laws;
pub mod scheduler;
