//! Mining ORE, alone or for a pool.
//!
//! A worker of a pool divides the nonces that the pool's server gives it between its
//! cores ([`search`]), which try them on drillx ([`drill`]), and exchanges messages with
//! the server ([`pool`]) in packets ([`frame`]). A coordinator with workers of its own
//! ([`distributed`]) submits the best of their solutions ([`instruction`]) for an account
//! of the ORE program ([`account`], [`address`], [`base58`]). [`miner`] is what the command
//! line speaks to; [`amount`], [`hexdump`], [`text`] and [`utils`] are about what is printed.
//!
//! Whatever reads from or writes to the world is left to the program around the library.

pub mod account;
pub mod address;
pub mod amount;
pub mod base58;
pub mod bytes;
mod chance;
pub mod distributed;
pub mod drill;
pub mod frame;
pub mod hexdump;
pub mod instruction;
pub mod miner;
pub mod pool;
pub mod search;
pub mod text;
pub mod utils;
