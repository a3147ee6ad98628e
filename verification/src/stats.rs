use vstd::prelude::*;

verus! {

/// The counters of one client, as read at one moment. Every counter wraps
/// around at `u64::MAX`.
#[derive(Clone, Copy, Debug, Default, PartialEq, Eq)]
#[non_exhaustive]
pub struct StatsSnapshot {
    pub messages: u64,
    pub bytes: u64,
    pub datagrams: u64,
    pub decode_errors: u64,
    pub skipped_msg_type: u64,
    pub queue_dropped: u64,
    pub reconnects: u64,
    pub last_slot: u64,
    pub recv_buffer_bytes: u64,
}

/// The live counters that a decoder or client updates.
pub struct Stats {
    pub messages: u64,
    pub bytes: u64,
    pub datagrams: u64,
    pub decode_errors: u64,
    pub skipped_msg_type: u64,
    pub queue_dropped: u64,
    pub reconnects: u64,
    pub last_slot: u64,
    pub recv_buffer_bytes: u64,
}

/// All counters at zero.
pub open spec fn zero_stats() -> StatsSnapshot {
    StatsSnapshot {
        messages: 0,
        bytes: 0,
        datagrams: 0,
        decode_errors: 0,
        skipped_msg_type: 0,
        queue_dropped: 0,
        reconnects: 0,
        last_slot: 0,
        recv_buffer_bytes: 0,
    }
}

impl View for Stats {
    type V = StatsSnapshot;

    open spec fn view(&self) -> StatsSnapshot {
        StatsSnapshot {
            messages: self.messages,
            bytes: self.bytes,
            datagrams: self.datagrams,
            decode_errors: self.decode_errors,
            skipped_msg_type: self.skipped_msg_type,
            queue_dropped: self.queue_dropped,
            reconnects: self.reconnects,
            last_slot: self.last_slot,
            recv_buffer_bytes: self.recv_buffer_bytes,
        }
    }
}

impl Stats {
    /// All counters at zero.
    pub fn new() -> (r: Stats)
        ensures
            r@ == zero_stats(),
    {
        Stats {
            messages: 0,
            bytes: 0,
            datagrams: 0,
            decode_errors: 0,
            skipped_msg_type: 0,
            queue_dropped: 0,
            reconnects: 0,
            last_slot: 0,
            recv_buffer_bytes: 0,
        }
    }

    /// The counters as they stand.
    pub fn snapshot(&self) -> (r: StatsSnapshot)
        ensures
            r == self@,
    {
        StatsSnapshot {
            messages: self.messages,
            bytes: self.bytes,
            datagrams: self.datagrams,
            decode_errors: self.decode_errors,
            skipped_msg_type: self.skipped_msg_type,
            queue_dropped: self.queue_dropped,
            reconnects: self.reconnects,
            last_slot: self.last_slot,
            recv_buffer_bytes: self.recv_buffer_bytes,
        }
    }
}

} // verus!
