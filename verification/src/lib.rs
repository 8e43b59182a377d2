//! Game logic of a casino contract: roulette, blackjack and a weekly raffle,
//! played with a SNIP-20 token, together with the house's administration.
//!
//! Storage, message encoding and the chain environment stay outside this
//! crate: every function here takes the values it reads and hands back the
//! values to store and the messages to send.

pub mod text;
pub mod error;
pub mod msg;
pub mod state;
pub mod operations;
pub mod blackjack;
pub mod roulette;
pub mod contract;
pub mod raffle;
