//! The ways in which an operation of this library, or of the program around
//! it, can stop, and the message that says so.

use crate::text::{decimal, to_decimal};
use vstd::prelude::*;
use vstd::string::*;

verus! {

/// Why an operation stopped. Every failure is final for the call that met it:
/// nothing is retried and nothing already done is undone.
#[derive(Debug, Clone, PartialEq, Eq)]
pub enum Failure {
    /// The archive could not be opened or parsed.
    Unreadable { cause: String },
    /// The entry at `index` could not be decoded.
    CorruptEntry { index: usize, cause: String },
    /// The file system refused to create, write or read `path`.
    IoFailure { path: String, cause: String },
    /// The request to `url` could not be sent, or its answer not received.
    TransportFailure { url: String, cause: String },
    /// The server answered with a status outside the success range.
    RemoteRejected { status: u16, body: String },
    /// The operation does not exist on this platform.
    Unsupported,
    /// An input cannot be used; `detail` says which and why.
    InvalidInput { detail: String },
}

/// The detail of a refusal: why, a colon, and which input.
pub open spec fn detail_text(reason: Seq<char>, subject: Seq<char>) -> Seq<char> {
    reason + ": "@ + subject
}

/// `failure` refuses an input, and its detail is `detail`.
pub open spec fn is_refusal(failure: Failure, detail: Seq<char>) -> bool {
    failure matches Failure::InvalidInput { detail: d } && d@ == detail
}

/// The message of a failure met during `operation` on `subject`, a path or
/// a URL. It names the operation, what it worked on, and the cause.
pub open spec fn message_text(failure: Failure, operation: Seq<char>, subject: Seq<char>) -> Seq<
    char,
> {
    match failure {
        Failure::Unreadable { cause } => operation + ": cannot open archive "@ + subject + ": "@
            + cause@,
        Failure::CorruptEntry { index, cause } => operation + ": entry "@ + decimal(index as nat)
            + " of "@ + subject + " is corrupt: "@ + cause@,
        Failure::IoFailure { path, cause } => operation + ": "@ + path@ + ": "@ + cause@,
        Failure::TransportFailure { url, cause } => operation + ": request to "@ + url@
            + " failed: "@ + cause@,
        Failure::RemoteRejected { status, body } => operation + ": HTTP "@ + decimal(status as nat)
            + " - Response: "@ + body@,
        Failure::Unsupported => operation + ": not supported on this platform"@,
        Failure::InvalidInput { detail } => operation + ": "@ + subject + ": "@ + detail@,
    }
}

impl Failure {
    /// A refusal of `subject` for `reason`.
    pub fn refused(reason: &str, subject: &str) -> (e: Failure)
        ensures
            is_refusal(e, detail_text(reason@, subject@)),
    {
        let mut detail: String = reason.to_owned();
        detail.append(": ");
        detail.append(subject);
        Failure::InvalidInput { detail }
    }

    /// The message of this failure; see [`message_text`].
    pub fn message(&self, operation: &str, subject: &str) -> (text: String)
        ensures
            text@ == message_text(*self, operation@, subject@),
    {
        let mut text: String = operation.to_owned();
        match self {
            Failure::Unreadable { cause } => {
                text.append(": cannot open archive ");
                text.append(subject);
                text.append(": ");
                text.append(cause.as_str());
            },
            Failure::CorruptEntry { index, cause } => {
                text.append(": entry ");
                let number: String = to_decimal(*index as u64);
                text.append(number.as_str());
                text.append(" of ");
                text.append(subject);
                text.append(" is corrupt: ");
                text.append(cause.as_str());
            },
            Failure::IoFailure { path, cause } => {
                text.append(": ");
                text.append(path.as_str());
                text.append(": ");
                text.append(cause.as_str());
            },
            Failure::TransportFailure { url, cause } => {
                text.append(": request to ");
                text.append(url.as_str());
                text.append(" failed: ");
                text.append(cause.as_str());
            },
            Failure::RemoteRejected { status, body } => {
                text.append(": HTTP ");
                let number: String = to_decimal(*status as u64);
                text.append(number.as_str());
                text.append(" - Response: ");
                text.append(body.as_str());
            },
            Failure::Unsupported => {
                text.append(": not supported on this platform");
            },
            Failure::InvalidInput { detail } => {
                text.append(": ");
                text.append(subject);
                text.append(": ");
                text.append(detail.as_str());
            },
        }
        text
    }
}

} // verus!
