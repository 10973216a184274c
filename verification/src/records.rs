//! The data model: uploaded log entries, persisted log and command records,
//! and the command envelope with its normalized parameters.

use vstd::prelude::*;

verus! {

/// One log line as a probe uploads it: a client-supplied instant (seconds)
/// and the message text. Timestamps are taken verbatim; nodes are the sole
/// source of their own event time.
#[derive(Debug, PartialEq, Eq)]
pub struct LogEntry {
    pub timestamp: i64,
    pub message: String,
}

/// A persisted log line. `id` is a surrogate key assigned at insertion time;
/// id order reflects server insertion order, not necessarily event-time order
/// across nodes with different upload cadences.
#[derive(Debug, PartialEq, Eq)]
pub struct LogRecord {
    pub id: i64,
    pub timestamp: i64,
    pub node_id: i64,
    pub message: String,
}

/// The normalized parameters of a command envelope. The boundary folds the
/// accepted key variants (`node_id` / `node id`) into `node_id` and pulls the
/// cadence periods out; everything else rides along in `opaque`, which the
/// hub stores and returns but never reads.
#[derive(Debug, PartialEq, Eq)]
pub struct EnvelopeParams {
    pub node_id: Option<i64>,
    pub active_period: Option<i64>,
    pub inactive_period: Option<i64>,
    pub opaque: String,
}

/// A command envelope: the command name and its optional parameters.
#[derive(Debug, PartialEq, Eq)]
pub struct Envelope {
    pub command: String,
    pub parameters: Option<EnvelopeParams>,
}

/// A queued command: enqueue time is server-assigned, and the record is
/// consumed at most once by a drain for its node.
#[derive(Debug, PartialEq, Eq)]
pub struct CommandRecord {
    pub id: i64,
    pub timestamp: i64,
    pub node_id: i64,
    pub envelope: Envelope,
}

impl Clone for LogEntry {
    fn clone(&self) -> (r: Self)
        ensures
            r == *self,
    {
        LogEntry { timestamp: self.timestamp, message: self.message.clone() }
    }
}

impl Clone for LogRecord {
    fn clone(&self) -> (r: Self)
        ensures
            r == *self,
    {
        LogRecord {
            id: self.id,
            timestamp: self.timestamp,
            node_id: self.node_id,
            message: self.message.clone(),
        }
    }
}

impl Clone for EnvelopeParams {
    fn clone(&self) -> (r: Self)
        ensures
            r == *self,
    {
        EnvelopeParams {
            node_id: self.node_id,
            active_period: self.active_period,
            inactive_period: self.inactive_period,
            opaque: self.opaque.clone(),
        }
    }
}

impl Clone for Envelope {
    fn clone(&self) -> (r: Self)
        ensures
            r == *self,
    {
        let parameters = match &self.parameters {
            Some(p) => Some(p.clone()),
            None => None,
        };
        Envelope { command: self.command.clone(), parameters }
    }
}

impl Clone for CommandRecord {
    fn clone(&self) -> (r: Self)
        ensures
            r == *self,
    {
        CommandRecord {
            id: self.id,
            timestamp: self.timestamp,
            node_id: self.node_id,
            envelope: self.envelope.clone(),
        }
    }
}

} // verus!
