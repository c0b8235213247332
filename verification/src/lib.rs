//! Rolling-window OHLC aggregation over a stream of book-ticker updates.
//!
//! The aggregator keeps a time-bounded buffer of ticks, evicts entries that
//! fall out of the trailing window, and, once the buffer holds enough
//! samples, computes open/high/low/close bars over contiguous chunks of the
//! buffer in parallel, appending every bar to a growing history.

pub mod aggregator;
pub mod laws;
pub mod bars;
pub mod price;

pub use aggregator::BookTicker;
pub use aggregator::InvalidPrice;
pub use aggregator::RollingOHLC;
pub use bars::OHLC;
