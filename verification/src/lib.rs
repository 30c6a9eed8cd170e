//! Matching core of a central limit order book for binary-outcome markets.
//!
//! Prices and quantities are fixed-point integers: a price counts millionths
//! of one unit of probability, a quantity counts indivisible lots.

pub mod book;
pub mod clock;
pub mod conservation;
pub mod engine;
pub mod ledger;
pub mod matching;
pub mod order;
pub mod priority;
pub mod queues;
pub mod registry;

pub use book::OrderBook;
pub use clock::current_timestamp;
pub use engine::{EngineError, MatchingEngine};
pub use ledger::{Ledger, LevelView};
pub use matching::{BookView, Fill};
pub use registry::MarketRegistry;
pub use order::{Order, OrderView, Price, Side, Trade, TradeView, PRICE_ONE};
