//! Core of a multi-market exchange: the price-time priority matching engine
//! and the routing rules of the event fan-out layer, with machine-checked
//! contracts.

pub mod types;
pub mod model;
pub mod laws;
pub mod orderbook;
pub mod markets;
pub mod broadcast;
pub mod gateway;
