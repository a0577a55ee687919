//! Core logic of a two-actor order pipeline: an order-admission actor that
//! enforces an investment cap, and a position-tracking actor that aggregates
//! accepted purchases per ticker and serializes snapshots of its holdings.
//!
//! Amounts are fixed-point integers (`i64`); the scale is the caller's choice.
//! The asynchronous mailbox and reply-channel plumbing around these state
//! machines lives outside this crate.

pub mod actors;
pub mod order_tracker;
