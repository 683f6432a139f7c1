//! Reduces a rendered stack trace to the frames that concern the user's own code.
//!
//! The trace is read line by line, frames of well-known framework and runtime
//! packages are dropped, and what is left is handed back in call-stack order.

pub mod adapter;
pub mod decode;
pub mod frame;
pub mod lemmas;
pub mod reparse;
pub mod text;

pub use crate::adapter::decode_with_defaults;
pub use crate::adapter::hidden_packages;
pub use crate::adapter::UserBacktrace;
pub use crate::decode::decode_backtrace;
pub use crate::frame::DecodeError;
pub use crate::frame::DecodedFrame;
pub use crate::frame::DecodedUserBacktrace;
