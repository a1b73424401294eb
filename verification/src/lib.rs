//! Bookkeeping for a chat bot that remembers when each member of a guild last
//! spoke and reports the members ordered by how long they have been idle.
//!
//! The crate holds the rules only: how records are encoded, which writes a
//! message causes, how a scan of stored records becomes a ranked report. The
//! caller owns the connection to the chat platform and to the key-value
//! store: it performs the writes that [`recorder::record_message`] plans and
//! hands the records it scans to [`commands::idle::run`].
//!
//! - [`codec`]: author identifiers and timestamps as eight big-endian bytes.
//! - [`partition`]: the names of the store's partitions.
//! - [`recorder`]: the writes that record a message.
//! - [`store`]: a model of the store, and what recording does to it.
//! - [`names`]: display names as stored, with the placeholder for a missing
//!   one.
//! - [`ranking`]: activity entries ordered by idle time.
//! - [`elapsed`]: idle time in seconds and as text.
//! - [`commands`]: which command does what, and the `idle` command itself.
//! - [`error`]: why a report cannot be produced.

pub mod codec;
pub mod commands;
pub mod elapsed;
pub mod error;
pub mod names;
pub mod partition;
pub mod ranking;
pub mod recorder;
pub mod store;
