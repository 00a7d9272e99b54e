//! A single-market order-matching core.
//!
//! Orders are stored in price-ordered books (bids descending, asks
//! ascending) and crossing orders are resolved by strict price-time
//! priority, producing deterministic fill events and residual book state.

pub mod orderbook;
pub mod engine;
