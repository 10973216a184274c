//! A telemetry hub for a fleet of distributed probe nodes.
//!
//! Probe nodes periodically upload log lines and receive any commands queued
//! for them in the same exchange; a downstream collector exports newly arrived
//! logs through a resumable, safety-windowed cursor; an operator channel
//! enqueues commands, targeted at one node or broadcast to every known node.
//! The hub also tracks the fleet-wide maximum reporting interval (which sizes
//! the export safety window) and runs a throttled, bounded-batch retention
//! pass over both tables.
//!
//! All durable state is modelled by [`hub::Hub`]; the surrounding transport,
//! authentication and storage plumbing live outside this library and hand in
//! plain values (timestamps as seconds, entries as typed records).

pub mod dispatch;
pub mod export;
pub mod hub;
pub mod ingest;
pub mod interval;
pub mod queue;
pub mod records;
pub mod retention;
pub mod store;

pub use export::{ExportError, EXPORT_PAGE_SIZE};
pub use hub::Hub;
pub use interval::IntervalTracker;
pub use queue::CommandQueue;
pub use retention::RetentionPolicy;
pub use store::LogStore;
pub use records::{CommandRecord, Envelope, EnvelopeParams, LogEntry, LogRecord};
