//! Core of a "say hello" visitor counter: a TTL-based deduplication rule over
//! per-address last-seen timestamps, crash-safe persistence of the running
//! count as a decimal text file, and the request-dispatch decisions that a
//! worker pool and a periodic refresh task make against one shared store.
//!
//! Everything here works on plain values; transport, rendering and host-fact
//! collection live outside the library and only hand values in or out.

pub mod digits;
pub mod persist;
pub mod state;
pub mod system;
pub mod webserver;
