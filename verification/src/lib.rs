//! A local reconstruction of Hyperliquid's spot oracle.
//!
//! The library takes top-of-book data from Binance, OKX, Bybit, Kraken, KuCoin, Gate
//! and MEXC, takes each book's mid, and computes the weighted median that Hyperliquid
//! documents for its spot oracle. It also reads Hyperliquid's `activeAssetCtx`, so that
//! the local value can be compared against the published `oraclePx`.
//!
//! [`feed::OracleBuilder`] configures a feed and [`feed::OracleFeed`] aggregates its
//! updates. Sockets, clocks and terminals are left to the caller: it hands what they
//! yield to [`session`], [`messages`] and [`mexc`], and what those yield to the feed or
//! to [`monitor`]. Prices are doubles held by their bits ([`float::Binary64`]), with
//! arithmetic that is proved to round correctly.

pub mod chart;
pub mod config;
pub mod feed;
pub mod float;
pub mod lead_lag;
pub mod messages;
pub mod mexc;
pub mod model;
pub mod monitor;
pub mod oracle;
pub mod output;
pub mod price;
pub mod protobuf;
pub mod session;
pub mod sources;
pub mod table;
pub mod text;
pub mod time;
pub mod timestamp;
pub mod ws;

pub use feed::{OracleBuilder, OracleFeed, OracleUpdate};
pub use model::Venue;
pub use oracle::Comparison;
pub use sources::Asset;
