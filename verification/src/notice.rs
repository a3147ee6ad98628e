use core::time::Duration;
use vstd::prelude::*;

verus! {

/// Telemetry that a client reports to its notice callback.
#[derive(Debug)]
#[non_exhaustive]
pub enum Notice {
    /// A datagram or response was rejected as undecodable.
    DecodeError,
    /// The operating system granted a smaller receive buffer than asked.
    RecvBufferClamped { requested: usize, effective: usize },
    /// A reconnection attempt is about to wait `delay`.
    Reconnecting { attempt: u32, delay: Duration },
    /// A stream was restored after a disconnection.
    Reconnected,
}

impl Clone for Notice {
    fn clone(&self) -> (r: Notice)
        ensures
            r == *self,
    {
        match self {
            Notice::DecodeError => Notice::DecodeError,
            Notice::RecvBufferClamped { requested, effective } => Notice::RecvBufferClamped {
                requested: *requested,
                effective: *effective,
            },
            Notice::Reconnecting { attempt, delay } => Notice::Reconnecting {
                attempt: *attempt,
                delay: *delay,
            },
            Notice::Reconnected => Notice::Reconnected,
        }
    }
}

/// The receive buffer the operating system granted, and the notice it
/// calls for. `reported` is what the socket reports; a kernel that doubles
/// the requested size for its own bookkeeping reports twice the usable size.
/// A notice is due exactly when less than `requested` was granted.
pub fn recv_buffer_report(requested: usize, reported: usize, kernel_doubles: bool) -> (r: (
    usize,
    Option<Notice>,
))
    ensures
        r.0 == (if kernel_doubles {
            reported / 2
        } else {
            reported
        }),
        r.0 < requested ==> (r.1 matches Some(Notice::RecvBufferClamped { requested: a, effective: b })
            && a == requested && b == r.0),
        r.0 >= requested ==> r.1 is None,
{
    let effective = if kernel_doubles {
        reported / 2
    } else {
        reported
    };
    if effective < requested {
        (effective, Some(Notice::RecvBufferClamped { requested, effective }))
    } else {
        (effective, None)
    }
}

} // verus!
