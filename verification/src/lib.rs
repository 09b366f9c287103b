//! A central limit order book matching engine: order books with price-time
//! priority, self-trade prevention, fill-or-kill and immediate-or-cancel
//! orders, a multi-instrument engine and book rebuild helpers.
pub mod decimal;
pub mod book;
pub mod text;
pub mod types;
pub mod error;
pub mod matching;
pub mod engine;
pub mod persistence;
pub mod priority;
pub mod reload;
pub mod participant;
pub mod naming;
pub mod totals;
