//! A verified core for a meditation-session tracker: validated session
//! records, aggregate statistics over a session log, and a JSON-array
//! codec for keeping the log inside a single string-keyed storage slot.

mod clock;
pub mod codec;
pub mod record;
pub mod stats;
pub mod store;
pub mod text;
