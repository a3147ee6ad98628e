//! The UDP framing: one datagram is one frame, a 16-byte header followed by
//! the payload, all integers little-endian.

mod frame;

pub use frame::{
    parse_header, FrameError, FrameHeader, Push, StreamDecoder, FRAME_HEADER_LEN, FRAME_MAGIC,
    FRAME_VERSION, MAX_DATAGRAM, MSG_EVENT, MSG_TRANSACTION,
};
pub use frame::{
    idle_reassembly, spec_complete, spec_parse_header, spec_push, DecoderView, PushView,
    ReassemblyView,
};
