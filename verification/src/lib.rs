//! A limit order book exchange core: order and market types, price levels, the matching
//! order book and its mathematical model, exchange commands and events, the account risk
//! checks that guard balances and asset holdings, the exchange that runs commands against a
//! book per market and publishes what happened, and a plainer signed-price book.
pub mod types;
pub mod symbol;
pub mod orders;
pub mod error;
pub mod slab_orders;
pub mod level;
pub mod trade_list;
pub mod book_model;
pub mod orderbook;
pub mod commands;
pub mod events;
pub mod risk_engine;
pub mod account;
pub mod exchange;
pub mod signed_orders;
