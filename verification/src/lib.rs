//! A simulator core for a lockout-based fork-choice protocol: per-validator
//! vote towers, per-slot banks, the fork tree with its weights, rotating
//! subcommittees and the local voting policy of a validator.

pub mod bank;
pub mod forks;
pub mod network;
pub mod node;
mod sets;
pub mod subcommittee;
pub mod tower;
