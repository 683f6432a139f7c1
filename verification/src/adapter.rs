//! The link between the decoder and `anyhow::Error`, with the packages that
//! are hidden by default.

use vstd::prelude::*;
use crate::decode::decode_backtrace;
use crate::decode::decode_spec;
use crate::frame::DecodeError;
use crate::frame::DecodedUserBacktrace;
use crate::frame::outcome_view;

verus! {

/// `anyhow::Error`, carried through as a value that nothing is known of.
#[verifier::external_type_specification]
#[verifier::external_body]
pub struct ExAnyhowError(anyhow::Error);

/// The names of the packages hidden by default: the generic parameter `F`,
/// the language's runtime, the error library, and the async and HTTP stack.
pub open spec fn hidden_names() -> Seq<&'static str> {
    seq![
        "F",
        "alloc",
        "anyhow",
        "axum",
        "backtrace",
        "core",
        "futures",
        "futures_core",
        "futures_util",
        "hyper",
        "hyper_util",
        "std",
        "test",
        "tokio",
        "tower",
        "tower_service",
        "tracing",
    ]
}

/// The names of the packages hidden by default.
pub fn hidden_packages() -> (r: Vec<&'static str>)
    ensures
        r@ == hidden_names(),
{
    let r = vec![
        "F",
        "alloc",
        "anyhow",
        "axum",
        "backtrace",
        "core",
        "futures",
        "futures_core",
        "futures_util",
        "hyper",
        "hyper_util",
        "std",
        "test",
        "tokio",
        "tower",
        "tower_service",
        "tracing",
    ];
    proof {
        assert(r@ =~= hidden_names());
    }
    r
}

/// Decodes a rendered trace with the default packages hidden.
pub fn decode_with_defaults(raw: &str) -> (r: Result<DecodedUserBacktrace, DecodeError>)
    ensures
        outcome_view(r) == decode_spec(raw@, hidden_names()),
{
    let hidden = hidden_packages();
    decode_backtrace(raw, hidden.as_slice())
}

/// `anyhow::Error::backtrace` hands out the trace captured when the error was
/// made, and its `Display` renders it. The text depends on how the process was
/// started and built, so nothing is claimed of it. The call panics only for an
/// error whose own backtrace provider gives a trace at one time and none at
/// another.
#[verifier::external_body]
fn backtrace_text(e: &anyhow::Error) -> (s: String) {
    e.backtrace().to_string()
}

/// An error that can show the user's part of its backtrace.
pub trait UserBacktrace {
    /// The backtrace of this error, reduced to the frames that concern the user.
    fn user_backtrace(&self) -> Result<DecodedUserBacktrace, DecodeError>;
}

impl UserBacktrace for anyhow::Error {
    /// Decodes the rendered backtrace of the error with the default packages hidden.
    fn user_backtrace(&self) -> (r: Result<DecodedUserBacktrace, DecodeError>)
        ensures
            exists|raw: Seq<char>| outcome_view(r) == #[trigger] decode_spec(raw, hidden_names()),
    {
        let raw = backtrace_text(self);
        decode_with_defaults(raw.as_str())
    }
}

} // verus!
