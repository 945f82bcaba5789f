//! A bounded key-value cache with least-recently-used eviction and
//! per-entry time-to-live expiry.
pub mod clock;
pub mod model;
pub mod lru;
pub mod client;
pub mod laws;
