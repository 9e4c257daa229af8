//! Stand-in network peer for a feedback-processing hardware design under
//! simulation.
//!
//! The verified core of the server: a line-oriented ASCII protocol is
//! tokenized and dispatched, decimal values are converted to saturated
//! signed 32-bit fixed-point integers, and state entries are exposed as
//! 32-element four-valued logic vectors (only the two driven states are
//! ever produced).  All TCP plumbing lives outside this crate; the
//! library works on plain byte lines and integers.

pub mod codec;
pub mod digits;
pub mod protocol;

pub use codec::fofb_server_u32_to_std_vec;
pub use codec::to_fixed;
pub use protocol::FOFBMsgType;
pub use protocol::Session;
