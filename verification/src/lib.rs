//! Verified core of a command stopwatch: a durable history of timed command
//! runs, a JSON codec for that history with a proved round-trip, and exact
//! integer statistics over the recorded durations.
//!
//! Durations are held as integer nanoseconds and start times as integer
//! milliseconds since the Unix epoch, so every computation in this crate is
//! exact. Turning the aggregates into a mean and a standard deviation in
//! seconds is left to the (unverified) display layer.

pub mod history;
pub mod stats;
pub mod codec;
pub mod roundtrip;
pub mod store;
pub mod update;
pub mod orchestrate;
