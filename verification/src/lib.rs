//! A central limit order book (CLOB) matching engine for a single trading
//! pair, with pre-funded per-user balances, strict price-time priority,
//! maker-price fills, and an asynchronous fill-event queue that defers
//! maker-side settlement.
//!
//! The custody layer (moving tokens in and out of the vault), transaction
//! framing and authentication are the host's business: every operation here
//! arrives tagged with an authenticated caller identity and works on plain
//! in-memory state.

pub mod errors;
pub mod order;
pub mod math;
pub mod book;
pub mod event_queue;
pub mod market;
pub mod user_balance;
pub mod engine;
pub mod laws;
