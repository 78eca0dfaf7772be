//! The SMTP command line grammar is smtp-proto's; its parse result is named
//! (`parsed_command`) and mapped one variant at a time onto the library's
//! own command type, which the session state machine dispatches on.

use smtp_proto::Request;
use vstd::prelude::*;

verus! {

/// The AUTH mechanism bits smtp-proto reports; only these three are
/// advertised and dispatched.
pub const AUTH_CRAM_MD5: u64 = 1u64 << 37;

pub const AUTH_LOGIN: u64 = 1u64 << 39;

pub const AUTH_PLAIN: u64 = 1u64 << 40;

/// One parsed SMTP command, reduced to what the session dispatches on.
pub enum Command {
    Helo { host: String },
    Ehlo { host: String },
    Mail { from: String },
    Rcpt { to: String },
    Data,
    Rset,
    Noop,
    Auth { mechanism: u64, initial: String },
    Quit,
    Unsupported,
}

/// The view of a parsed command, and `Invalid` for a line that does not
/// parse at all.
pub enum CmdView {
    Helo { host: Seq<char> },
    Ehlo { host: Seq<char> },
    Mail { from: Seq<char> },
    Rcpt { to: Seq<char> },
    Data,
    Rset,
    Noop,
    Auth { mechanism: u64, initial: Seq<char> },
    Quit,
    Unsupported,
    Invalid,
}

impl View for Command {
    type V = CmdView;

    open spec fn view(&self) -> CmdView {
        match self {
            Command::Helo { host } => CmdView::Helo { host: host@ },
            Command::Ehlo { host } => CmdView::Ehlo { host: host@ },
            Command::Mail { from } => CmdView::Mail { from: from@ },
            Command::Rcpt { to } => CmdView::Rcpt { to: to@ },
            Command::Data => CmdView::Data,
            Command::Rset => CmdView::Rset,
            Command::Noop => CmdView::Noop,
            Command::Auth { mechanism, initial } => CmdView::Auth {
                mechanism: *mechanism,
                initial: initial@,
            },
            Command::Quit => CmdView::Quit,
            Command::Unsupported => CmdView::Unsupported,
        }
    }
}

/// What smtp-proto's request parser makes of one CRLF-terminated line.
pub uninterp spec fn parsed_command(line: Seq<char>) -> CmdView;

/// Relies on `smtp_proto::Request::parse`, fed the line with CRLF appended
/// as the wire framing strips it: the result is a function of the line
/// alone. Mail and Rcpt carry the bracket-stripped address; Auth carries the
/// mechanism bit and the initial response (empty when absent); commands the
/// sink does not implement come back as `Unsupported`.
#[verifier::external_body]
pub fn parse_command(line: &str) -> (r: Result<Command, ()>)
    ensures
        match r {
            Ok(c) => c@ == parsed_command(line@) && !(c@ is Invalid),
            Err(()) => parsed_command(line@) is Invalid,
        },
{
    match Request::parse(&mut format!("{}\r\n", line).as_bytes().iter()) {
        Err(_) => Err(()),
        Ok(q) => Ok(match q {
            Request::Helo { host } => Command::Helo { host },
            Request::Ehlo { host } => Command::Ehlo { host },
            Request::Mail { from } => Command::Mail { from: from.address },
            Request::Rcpt { to } => Command::Rcpt { to: to.address },
            Request::Data => Command::Data,
            Request::Rset => Command::Rset,
            Request::Noop { .. } => Command::Noop,
            Request::Auth { mechanism, initial_response } => Command::Auth { mechanism, initial: initial_response },
            Request::Quit => Command::Quit,
            _ => Command::Unsupported,
        }),
    }
}

} // verus!
