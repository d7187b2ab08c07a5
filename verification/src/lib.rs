//! A verified central limit order book exchange.
//!
//! Orders are matched by price and time, trades are settled between accounts, and
//! the state that results from the execution log is committed to by a root hash
//! that anyone can recompute. The decisions of all services are made here; reading
//! and sending is left to the programs around the library.
pub mod account_laws;
pub mod accounts;
pub mod audit;
pub mod book;
pub mod book_laws;
pub mod bytes;
pub mod channels;
pub mod client;
pub mod codec;
pub mod config;
pub mod crypto;
pub mod decimal;
pub mod engine;
pub mod engine_laws;
pub mod events;
pub mod execution;
pub mod framing;
pub mod gateway;
pub mod ingress;
pub mod keys;
pub mod listing;
pub mod market;
pub mod matcher;
pub mod matching_laws;
pub mod merkle;
pub mod messages;
pub mod replay;
pub mod replay_laws;
pub mod risk;
pub mod settlement;
pub mod state;
pub mod state_laws;
pub mod supply_laws;
pub mod text;
pub mod text_laws;
pub mod trade_laws;
pub mod types;
pub mod users;
pub mod wire_laws;
