//! A one-sided (buy-side) price-level order book.
//!
//! Prices are non-negative fixed-point integers with four implied decimal
//! digits (a price of `10000` is one dollar). Volumes are non-negative
//! fixed-point integers at a scale of the caller's choosing; all arithmetic
//! on them is exact, and a level whose volume is zero counts as absent.
//!
//! Two interchangeable implementations are provided: [`OrderBook`], a scalar
//! reference book with one price level per entry, and [`OrderBookSimd`], a
//! lane-packed book that groups four adjacent price levels into a fixed-width
//! group so that the volume-matching arithmetic runs over whole groups.
//!
//! [`OrderBook`]: book::OrderBook
//! [`OrderBookSimd`]: lane_book::OrderBookSimd

pub mod book;
pub mod fill;
pub mod group;
pub mod lane_book;
pub mod laws;
pub mod level;
