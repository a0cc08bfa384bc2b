//! Verified core of a clipboard-history engine.
//!
//! The library holds the logic worth proving: content classification,
//! clipboard change detection, and the history store with its dedup,
//! search, pin, and retention rules. Durable persistence and operating
//! system integration live outside the library and exchange plain values
//! with it.

pub mod chars;
pub mod classify;
pub mod detector;
pub mod laws;
pub mod search;
pub mod store;
pub mod window;
