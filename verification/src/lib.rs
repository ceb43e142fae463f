//! Keeps DNS records of a provider pointed at the machine's current public
//! addresses: a canonical request signer, a record reconciler, and the pure
//! decision logic of the periodic update task.

pub mod cli;
pub mod common;
pub mod domain;
pub mod encoding;
pub mod error;
pub mod ip;
pub mod params;
pub mod record;
pub mod task;
