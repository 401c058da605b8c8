//! The decisions of a transaction sender that measures how many transactions per second a
//! chain takes.
pub mod account;
pub mod block;
pub mod float;
pub mod funds;
pub mod monitor;
pub mod node;
pub mod pre;
pub mod rate;
pub mod scale;
pub mod worker;
