//! Envelope-buffering core of an event-ingest relay.
//!
//! Envelopes arrive tagged with a project key and, optionally, a sampling
//! project key. Between ingest and outbound forwarding they are queued in
//! per-key-pair LIFO stacks, multiplexed by a priority scheduler that serves
//! ready projects newest-first and cycles through not-ready projects under a
//! fetch-cooldown discipline.

pub mod buffer;
pub mod clock;
pub mod envelope;
pub mod error;
pub mod facade;
pub mod index;
pub mod keys;
pub mod pq;
pub mod priority;
pub mod provider;
pub mod stack;
