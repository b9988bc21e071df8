//! A verified order book for a futures exchange, with what belongs to it: the
//! history of the book and its replay, recent trades, the cost of a market
//! order, the joining of a snapshot with a stream of updates, and what a
//! terminal view shows of it all.
//!
//! Prices and quantities are double-precision numbers.  They are held by their
//! encoding, and every operation on them is stated over the number that the
//! encoding stands for and proved to be correctly rounded.

pub mod bignat;
pub mod binary64;
pub mod book;
pub mod buckets;
pub mod columns;
pub mod config;
pub mod decimal;
pub mod depth;
pub mod entries;
pub mod estimates;
pub mod figures;
pub mod history;
pub mod impact;
pub mod levels;
pub mod messages;
pub mod monotone;
pub mod nearness;
pub mod precision;
pub mod rates;
pub mod ratios;
pub mod replay;
pub mod retention;
pub mod rounding;
pub mod screen;
pub mod slippage;
pub mod state;
pub mod stats;
pub mod sync;
pub mod text;
pub mod timeline;
pub mod trades;
