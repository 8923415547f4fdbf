//! What the pipeline tells and asks an element, and what the element answers,
//! as plain values.

use crate::output::Output;
use vstd::prelude::*;

verus! {

/// A state change of the element.
#[derive(Clone, Copy, Debug, PartialEq, Eq, Structural)]
pub enum StateChange {
    ReadyToPaused,
    Other,
}

/// An event from upstream.
#[derive(Clone, Copy, Debug, PartialEq, Eq, Structural)]
pub enum SinkEvent {
    Caps,
    /// A segment; `in_bytes` where it counts the bytes of the stream.
    Segment { in_bytes: bool },
    StreamStart,
    Eos,
    FlushStop,
    Other,
}

/// What to do about an event from upstream: push `before`, then the event
/// itself if `forward`, then `after`. An event that is not forwarded has been
/// handled.
#[derive(Debug, PartialEq, Eq)]
pub struct EventPlan {
    pub before: Vec<Output>,
    pub forward: bool,
    pub after: Vec<Output>,
}

/// Where playback is to stop after a seek.
#[derive(Clone, Copy, Debug, PartialEq, Eq, Structural)]
pub enum SeekStop {
    /// Where it would have stopped before.
    Keep,
    /// At this position.
    At(u64),
    /// At the end of the stream.
    Unset,
    /// At a position that is given in another way.
    Other,
}

/// An event from downstream.
#[derive(Clone, Copy, Debug, PartialEq, Eq, Structural)]
pub enum SrcEvent {
    /// A seek; `in_time` where its positions are times, in nanoseconds. `rate`
    /// is the bits of the rate, a 64-bit float; `start` is the position to go
    /// to, if the seek sets one.
    Seek { in_time: bool, flush: bool, rate: u64, start: Option<u64>, stop: SeekStop },
    Other,
}

/// What to do about an event from downstream.
#[derive(Clone, Copy, Debug, PartialEq, Eq, Structural)]
pub enum SrcAction {
    /// Ask upstream for the same seek, but in bytes, from this byte of the
    /// stream to the end.
    SeekUpstream(u64),
    /// What pads do by default.
    Default,
}

/// A query from downstream; `in_time` where it asks for time.
#[derive(Clone, Copy, Debug, PartialEq, Eq, Structural)]
pub enum Query {
    Duration { in_time: bool },
    Seeking { in_time: bool },
    Other,
}

/// The answer to a query.
#[derive(Clone, Copy, Debug, PartialEq, Eq, Structural)]
pub enum Answer {
    /// The duration, in nanoseconds.
    Duration(u64),
    /// The stream is seekable in time, from 0 to `end` nanoseconds.
    Seekable { end: u64 },
    /// The query cannot be answered.
    Refuse,
    /// What pads do by default.
    Default,
}

} // verus!
