//! A continuous limit order book for a small, fixed set of tradable cards.
//!
//! Orders are matched one unit at a time with price-time priority. The
//! matching engine and the decisions of the order submission pipeline are
//! verified; storage and transport are left to the caller.

pub mod card;
pub mod model;
pub mod order_manager;
pub mod order_service;
pub mod ports;
pub mod rehydration;
pub mod replay;
pub mod request;
pub mod resting;
