//! Typed codec and session logic for the netlink wire protocol.
//!
//! * `codec`: the `Nl` capability, byte order, alignment and the primitive codecs
//! * `err`: error types and the kernel's error frame
//! * `msg`: the top-level message header, the generic netlink header and attributes
//! * `session`: correlation, acknowledgement and multipart rules for responses

pub mod codec;
pub mod err;
pub mod msg;
pub mod session;

pub use codec::{Endian, Nl, NlDeState, NlSerState};
