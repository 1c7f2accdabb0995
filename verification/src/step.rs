//! What a state machine asks of the one who drives it.

use vstd::prelude::*;

verus! {

/// What a write to an encoder that queues its output came to.
#[derive(Clone, Copy, Debug, PartialEq, Eq, Structural)]
pub enum WriteStep {
    /// Output waits for the sink: it has to be written out before the write is tried
    /// again.
    Drain,
    /// This many bytes of the write were taken.
    Accepted(usize),
}

/// What a flush or a close of an encoder asks of the one who drives it.
#[derive(Clone, Copy, Debug, PartialEq, Eq, Structural)]
pub enum SinkStep {
    /// Output waits for the sink: it has to be written out, then the call is
    /// repeated.
    Drain,
    /// Nothing waits: the flush or the close goes on to the sink.
    Forward,
}

} // verus!
