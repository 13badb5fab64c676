//! Webhook ingestion and shutdown coordination for a messaging-platform bot.
//!
//! The library models the core of a webhook-driven update pipeline: a codec
//! that turns raw request bodies into typed updates, a FIFO update queue, a
//! single-consumer dispatch loop, a single-fire stop token, and the startup
//! and shutdown decisions that tie the HTTP listener and the dispatch loop
//! together.  All I/O (sockets, the platform API, the async runtime) lives
//! outside the library and hands it plain values.

pub mod codec;
pub mod dispatch;
pub mod listener;
pub mod queue;
pub mod startup;
pub mod stop;
pub mod update;
