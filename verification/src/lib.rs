//! Verified core of a centralized exchange: exact decimal quantities, a
//! price-time priority limit order book, a multi-symbol routing engine, an
//! in-memory balance ledger and the checks behind solvency proofs.

pub mod decimal;
pub mod types;
pub mod order_book;
pub mod quantity;
pub mod book_laws;
pub mod engine;
pub mod text;
pub mod ledger;
pub mod ledger_laws;
pub mod api_error;
pub mod wallet;
pub mod proof_check;
pub mod solvency;
pub mod order_entry;
pub mod persistence;
pub mod market_data;
pub mod auth;
pub mod admin;
pub mod trading;
