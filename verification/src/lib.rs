//! A price-time priority limit order book, a price-level book for replaying
//! exchange messages, and the feeds that drive them.

pub mod events;
pub mod keys;
pub mod level;
pub mod order;
pub mod book;
pub mod laws;
pub mod feed;
pub mod replay;
pub mod text;
