//! Client library for a decoded stream of pre-execution Solana transactions:
//! the UDP frame codec and its reassembly, the transaction message decoder,
//! the filter model and the decisions of the streaming session.

pub mod codec;
mod error;
mod external;
mod encoding;
mod filters;
mod message;
mod notice;
mod session;
mod stats;
mod update;

pub use error::{ConnectError, FilterError, StreamError};
pub use filters::{judge_key, Filter, FilterView, Filters};
pub use message::{
    decode_message, message_bytes, AddressTableLookup, CompiledInstruction, CompiledMessage,
    MessageDecodeError, MessageHeader,
};
pub use notice::{recv_buffer_report, Notice};
pub use session::{
    auth_metadata, classify, connect_failure, creation_offset, creation_time, normalize_endpoint, plan_connection,
    AuthStyle, Classified, ConnectPlan, Jitter,
    Session, SessionState, StatusCode, Step, DEFAULT_PORT,
};
pub use stats::StatsSnapshot;
pub use update::{Signature, TransactionUpdate};
