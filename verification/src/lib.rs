//! Matching core of a single-instrument trading venue.
//!
//! Orders are matched against a resting order book under strict price-time
//! priority. Every executable function carries a contract over a mathematical
//! model of the book, and the laws the venue relies on are proved from those
//! models.
//!
//! - [`types`], [`errors`], [`tx`]: orders, receipts, errors and ledger records.
//! - [`model`]: the book and matching as mathematics.
//! - [`book`], [`matching`]: one side of the book, and the engine.
//! - [`soundness`]: what holds of every engine, kept by every order.
//! - [`queue_laws`], [`side_laws`], [`laws`]: the laws of matching.
//! - [`accounting`], [`trading_platform`]: the ledger, and the platform that
//!   settles what the engine matched.
//! - [`entry`]: orders typed in as text.

pub mod accounting;
pub mod book;
pub mod entry;
pub mod errors;
pub mod laws;
pub mod matching;
pub mod model;
pub mod queue_laws;
pub mod side_laws;
pub mod soundness;
pub mod trading_platform;
pub mod tx;
pub mod types;
