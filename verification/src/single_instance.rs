//! One running instance: what a second one does, and how it is heard.

use crate::text;
use vstd::prelude::*;

verus! {

/// What a starting instance is.
#[derive(Debug, Clone, Copy, PartialEq, Eq, Structural)]
pub enum InstanceCheck {
    /// The only one, or one that cannot know: it runs.
    First,
    /// Another one runs: it is told, and this one ends.
    Second,
}

/// What a starting instance is, after it asked for the mutex. Where no mutex could
/// be had at all it runs: a launch is never blocked.
pub fn instance_check(have_mutex: bool, existed: bool) -> (r: InstanceCheck)
    ensures
        r == if have_mutex && existed {
            InstanceCheck::Second
        } else {
            InstanceCheck::First
        },
{
    if have_mutex && existed {
        InstanceCheck::Second
    } else {
        InstanceCheck::First
    }
}

/// What the pipe server does next.
#[derive(Debug, Clone, Copy, PartialEq, Eq, Structural)]
pub enum PipeStep {
    /// No pipe: wait a second and make one.
    WaitAndRetry,
    /// The client did not connect: close the pipe and make another.
    CloseAndRetry,
    /// A client is there: read its message.
    Read,
}

/// The error that says that the client was there already.
pub const PIPE_CONNECTED: u32 = 535;

/// What the pipe server does after making a pipe and waiting for a client. A client
/// that came before the wait is a client.
pub fn pipe_step(created: bool, connected: bool, error: u32) -> (r: PipeStep)
    ensures
        r == if !created {
            PipeStep::WaitAndRetry
        } else if !connected && error != PIPE_CONNECTED {
            PipeStep::CloseAndRetry
        } else {
            PipeStep::Read
        },
{
    if !created {
        PipeStep::WaitAndRetry
    } else if !connected && error != PIPE_CONNECTED {
        PipeStep::CloseAndRetry
    } else {
        PipeStep::Read
    }
}

/// The message that was read; none where the read failed or brought nothing.
pub fn pipe_message(ok: bool, bytes: &Vec<u8>) -> (r: Option<String>)
    ensures
        match r {
            Some(m) => ok && bytes@.len() > 0 && m@ == text::lossy(bytes@),
            None => !ok || bytes@.len() == 0,
        },
{
    if ok && bytes.len() > 0 {
        Some(text::lossy_text(bytes.as_slice()))
    } else {
        None
    }
}

} // verus!
