//! Email capture core of an SMTP sink: a line-oriented SMTP receive state
//! machine with PLAIN / LOGIN / CRAM-MD5 authentication, a MIME message
//! decomposer, a CID-to-attachment-URL rewriter for HTML bodies, and an
//! in-memory persistence gateway with paged, searchable read-side queries.

use vstd::prelude::*;
use vstd::string::StringExecFns;

pub mod auth;
pub mod cid;
pub mod command;
pub mod compression;
pub mod config;
pub mod csp;
pub mod encoding;
pub mod events;
pub mod html;
pub mod mail;
pub mod search;
pub mod session;
pub mod store;
pub mod strings;

verus! {

/// Returns `Ok(())` when the condition holds, otherwise the given
/// protocol error; used by the session state machine to guard
/// command ordering.
pub fn ensure(condition: bool, err: &'static str) -> (r: Result<(), SmtpError>)
    ensures
        condition ==> r is Ok,
        !condition ==> (r matches Err(SmtpError::Protocol(m)) && m@ == err@),
{
    if condition {
        Ok(())
    } else {
        Err(SmtpError::Protocol(err))
    }
}

/// Session-level SMTP failure: a transport error is fatal to the session,
/// a protocol error is replied as `500 {message}` and the session goes on.
#[derive(Debug)]
pub enum SmtpError {
    Transport,
    Protocol(&'static str),
    InvalidAddress,
}

impl SmtpError {
    /// The error's description, as the session logs or replies it.
    pub fn message(&self) -> (r: String)
        ensures
            match self {
                SmtpError::Protocol(m) => r@ == "protocol error: "@ + m@,
                SmtpError::Transport => r@ == "transport error"@,
                SmtpError::InvalidAddress => r@ == "invalid address syntax"@,
            },
    {
        match self {
            SmtpError::Protocol(m) => {
                let mut s = String::from_str("protocol error: ");
                s.append(m);
                s
            },
            SmtpError::Transport => String::from_str("transport error"),
            SmtpError::InvalidAddress => String::from_str("invalid address syntax"),
        }
    }
}

} // verus!
