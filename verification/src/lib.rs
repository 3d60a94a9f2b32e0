//! A mesh node's building blocks: a delay-queue scheduler, in which actions
//! are registered to run after a delay, kept in deadline order and handed out
//! once logical time has reached them, and the rules of the mesh protocol.

pub mod protocol;
pub mod scheduler;
