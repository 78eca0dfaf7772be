//! The per-connection SMTP receive state machine: command phase, data phase
//! with dot-stuffing reversal, and the PLAIN / LOGIN / CRAM-MD5 AUTH
//! sub-dialogs. Every step is specified by a transition relation over the
//! session's mathematical view; an accepted message is appended to
//! `messages` for the caller to hand to the persistence gateway.

use crate::auth::{generate_cram_md5_challenge, hmac_md5_hex, is_cram_challenge, spec_hmac_md5};
use crate::command::{parse_command, parsed_command, CmdView, Command, AUTH_CRAM_MD5, AUTH_LOGIN, AUTH_PLAIN};
use crate::encoding::{b64_encode, b64_of, base64_decode, spec_b64_utf8, spec_hex_lower};
use crate::mail::{parse_email_details, spec_details_of, DetailsView, EmailAttachment, HeaderMap};
use crate::strings::{chars_eq, chars_eq_folded, spec_join_crlf, spec_split, split_on, str_chars, str_eq};
use crate::{ensure, SmtpError};
use vstd::prelude::*;
use vstd::string::StringExecFns;
use vstd::utf8::encode_utf8;

verus! {

// ---------------------------------------------------------------------------
// Session data
// ---------------------------------------------------------------------------

#[derive(Clone, Copy, Debug, PartialEq, Eq, Structural)]
pub enum SessionState {
    Command,
    Data,
    Auth,
}

#[derive(Clone, Debug)]
pub enum AuthState {
    Idle,
    WaitingForPlainCredentials,
    WaitingForLoginUsername,
    WaitingForLoginPassword { username: String },
    WaitingForCramMd5Response { challenge: String },
}

#[verifier::ext_equal]
pub enum AuthStateView {
    Idle,
    WaitingForPlainCredentials,
    WaitingForLoginUsername,
    WaitingForLoginPassword { username: Seq<char> },
    WaitingForCramMd5Response { challenge: Seq<char> },
}

impl View for AuthState {
    type V = AuthStateView;

    open spec fn view(&self) -> AuthStateView {
        match self {
            AuthState::Idle => AuthStateView::Idle,
            AuthState::WaitingForPlainCredentials => AuthStateView::WaitingForPlainCredentials,
            AuthState::WaitingForLoginUsername => AuthStateView::WaitingForLoginUsername,
            AuthState::WaitingForLoginPassword { username } => AuthStateView::WaitingForLoginPassword {
                username: username@,
            },
            AuthState::WaitingForCramMd5Response { challenge } => AuthStateView::WaitingForCramMd5Response {
                challenge: challenge@,
            },
        }
    }
}

#[verifier::ext_equal]
pub struct EmailView {
    pub id: Seq<char>,
    pub message_id: Option<Seq<char>>,
    pub subject: Option<Seq<char>>,
    pub date: Option<i64>,
    pub headers: Option<Seq<(Seq<char>, Seq<Seq<char>>)>>,
    pub from: Seq<char>,
    pub to: Seq<Seq<char>>,
    pub recipients: Seq<Seq<char>>,
    pub size: u64,
    pub data: Seq<char>,
    pub body_text: Seq<char>,
    pub body_html: Seq<char>,
    pub attachments: Seq<crate::mail::AttachmentView>,
}

/// One accepted message: the envelope from the session, the parsed fields
/// from the decomposer, the raw data joined from the data-phase buffer.
pub struct Email {
    pub id: String,
    pub message_id: Option<String>,
    pub subject: Option<String>,
    pub date: Option<i64>,
    pub headers: Option<HeaderMap>,
    pub from: String,
    pub to: Vec<String>,
    pub recipients: Vec<String>,
    pub size: u64,
    pub data: String,
    pub body_text: String,
    pub body_html: String,
    pub attachments: Vec<EmailAttachment>,
}

impl View for Email {
    type V = EmailView;

    open spec fn view(&self) -> EmailView {
        EmailView {
            id: self.id@,
            message_id: self.message_id.deep_view(),
            subject: self.subject.deep_view(),
            date: self.date,
            headers: match self.headers {
                Some(ref h) => Some(h.deep_view()),
                None => None,
            },
            from: self.from@,
            to: self.to.deep_view(),
            recipients: self.recipients.deep_view(),
            size: self.size,
            data: self.data@,
            body_text: self.body_text@,
            body_html: self.body_html@,
            attachments: self.attachments.deep_view(),
        }
    }
}

impl DeepView for Email {
    type V = EmailView;

    open spec fn deep_view(&self) -> EmailView {
        self.view()
    }
}

#[verifier::ext_equal]
pub struct SessionV {
    pub state: SessionState,
    pub greeted: bool,
    pub authenticated: bool,
    pub mail_from: Option<Seq<char>>,
    pub rcpt_to: Seq<Seq<char>>,
    pub buffer: Seq<Seq<char>>,
    pub messages: Seq<EmailView>,
    pub quit: bool,
    pub auth_state: AuthStateView,
    pub auth_username: Option<Seq<char>>,
    pub auth_password: Option<Seq<char>>,
}

/// One SMTP session's state between lines.
pub struct Session {
    pub state: SessionState,
    pub greeted: bool,
    pub authenticated: bool,
    pub mail_from: Option<String>,
    pub rcpt_to: Vec<String>,
    pub buffer: Vec<String>,
    pub messages: Vec<Email>,
    pub quit: bool,
    pub auth_state: AuthState,
    pub auth_username: Option<String>,
    pub auth_password: Option<String>,
}

impl View for Session {
    type V = SessionV;

    open spec fn view(&self) -> SessionV {
        SessionV {
            state: self.state,
            greeted: self.greeted,
            authenticated: self.authenticated,
            mail_from: self.mail_from.deep_view(),
            rcpt_to: self.rcpt_to.deep_view(),
            buffer: self.buffer.deep_view(),
            messages: self.messages.deep_view(),
            quit: self.quit,
            auth_state: self.auth_state@,
            auth_username: self.auth_username.deep_view(),
            auth_password: self.auth_password.deep_view(),
        }
    }
}

// ---------------------------------------------------------------------------
// Authentication predicates (what the server accepts, exactly)
// ---------------------------------------------------------------------------

/// AUTH PLAIN: with no configured credentials everything is accepted; else
/// the base64 line must decode to text splitting on NUL into at least three
/// parts whose second and third equal the configured username and password.
pub open spec fn plain_auth_ok(
    user: Option<Seq<char>>,
    pass: Option<Seq<char>>,
    line: Seq<char>,
) -> bool {
    if user is None || pass is None {
        true
    } else {
        match spec_b64_utf8(line) {
            Some(d) => {
                let parts = spec_split(d, '\0');
                parts.len() >= 3 && parts[1] == user->0 && parts[2] == pass->0
            },
            None => false,
        }
    }
}

/// AUTH LOGIN: both decoded halves must equal the configured pair.
pub open spec fn login_auth_ok(
    user: Option<Seq<char>>,
    pass: Option<Seq<char>>,
    username: Seq<char>,
    password: Seq<char>,
) -> bool {
    if user is None || pass is None {
        true
    } else {
        username == user->0 && password == pass->0
    }
}

/// AUTH CRAM-MD5: the server accepts exactly the base64 of
/// `username SPACE hex(hmac_md5(password, challenge))`, the hex compared
/// without regard to ASCII case and the username compared exactly.
pub open spec fn cram_auth_ok(
    user: Option<Seq<char>>,
    pass: Option<Seq<char>>,
    response: Seq<char>,
    challenge: Seq<char>,
) -> bool {
    if user is None || pass is None {
        true
    } else {
        match spec_b64_utf8(response) {
            Some(d) => match crate::strings::find_ch_from(d, ' ', 0) {
                Some(i) => {
                    let u = d.take(i);
                    let h = d.skip(i + 1);
                    u == user->0 && crate::strings::folded(h) == crate::strings::folded(
                        spec_hex_lower(spec_hmac_md5(encode_utf8(pass->0), encode_utf8(challenge))),
                    )
                },
                None => false,
            },
            None => false,
        }
    }
}

// ---------------------------------------------------------------------------
// The transition relation
// ---------------------------------------------------------------------------

pub open spec fn with_greeted(pre: SessionV) -> SessionV {
    SessionV { greeted: true, ..pre }
}

pub open spec fn to_command(pre: SessionV) -> SessionV {
    SessionV { state: SessionState::Command, auth_state: AuthStateView::Idle, ..pre }
}

pub open spec fn to_authenticated(pre: SessionV) -> SessionV {
    SessionV {
        state: SessionState::Command,
        auth_state: AuthStateView::Idle,
        authenticated: true,
        ..pre
    }
}

/// The command-phase step, for one parsed command; `challenge` is the fresh
/// random challenge used only by the CRAM-MD5 arm.
pub open spec fn step_command(pre: SessionV, cmd: CmdView, challenge: Seq<char>) -> (
    SessionV,
    Result<Seq<Seq<char>>, Seq<char>>,
) {
    match cmd {
        CmdView::Invalid => (pre, Err("Invalid command syntax"@)),
        CmdView::Helo { host } => (with_greeted(pre), Ok(seq!["250 Hello "@ + host])),
        CmdView::Ehlo { host } => (
            with_greeted(pre),
            Ok(
                seq![
                    "250-Hello "@ + host,
                    "250-AUTH PLAIN LOGIN CRAM-MD5"@,
                    "250 SIZE 26214400"@,
                ],
            ),
        ),
        CmdView::Mail { from } => if !pre.greeted {
            (pre, Err("503 Send HELO/EHLO first"@))
        } else if !pre.authenticated {
            (pre, Err("530 Authentication required"@))
        } else {
            (
                SessionV { mail_from: Some(from), rcpt_to: Seq::empty(), ..pre },
                Ok(seq!["250 Sender OK"@]),
            )
        },
        CmdView::Rcpt { to } => if pre.mail_from is None {
            (pre, Err("503 Need MAIL FROM first"@))
        } else {
            (SessionV { rcpt_to: pre.rcpt_to.push(to), ..pre }, Ok(seq!["250 Recipient OK"@]))
        },
        CmdView::Data => if pre.rcpt_to.len() == 0 {
            (pre, Err("503 Need RCPT TO first"@))
        } else {
            (
                SessionV { state: SessionState::Data, buffer: Seq::empty(), ..pre },
                Ok(seq!["354 End data with <CR><LF>.<CR><LF>"@]),
            )
        },
        CmdView::Rset => (
            SessionV { mail_from: None, rcpt_to: Seq::empty(), buffer: Seq::empty(), ..pre },
            Ok(seq!["250 Reset state"@]),
        ),
        CmdView::Noop => (pre, Ok(seq!["250 OK"@])),
        CmdView::Auth { mechanism, initial } => if !pre.greeted {
            (pre, Err("503 Send HELO/EHLO first"@))
        } else if mechanism == AUTH_PLAIN {
            if initial.len() > 0 {
                if plain_auth_ok(pre.auth_username, pre.auth_password, initial) {
                    (to_authenticated(pre), Ok(seq!["235 Authentication successful"@]))
                } else {
                    (pre, Ok(seq!["535 Authentication failed"@]))
                }
            } else {
                (
                    SessionV {
                        state: SessionState::Auth,
                        auth_state: AuthStateView::WaitingForPlainCredentials,
                        ..pre
                    },
                    Ok(seq!["334 "@]),
                )
            }
        } else if mechanism == AUTH_LOGIN {
            (
                SessionV {
                    state: SessionState::Auth,
                    auth_state: AuthStateView::WaitingForLoginUsername,
                    ..pre
                },
                Ok(seq!["334 VXNlcm5hbWU6"@]),
            )
        } else if mechanism == AUTH_CRAM_MD5 {
            (
                SessionV {
                    state: SessionState::Auth,
                    auth_state: AuthStateView::WaitingForCramMd5Response { challenge },
                    ..pre
                },
                Ok(seq!["334 "@ + b64_of(encode_utf8(challenge))]),
            )
        } else {
            (pre, Ok(seq!["504 Unrecognized authentication type"@]))
        },
        CmdView::Quit => (SessionV { quit: true, ..pre }, Ok(seq!["221 Bye"@])),
        CmdView::Unsupported => (pre, Ok(seq!["502 Command not implemented"@])),
    }
}

/// The command phase relates pre to post through `step_command` for some
/// fresh challenge.
pub open spec fn command_rel(
    pre: SessionV,
    line: Seq<char>,
    post: SessionV,
    out: Result<Seq<Seq<char>>, Seq<char>>,
) -> bool {
    exists|ch: Seq<char>|
        is_cram_challenge(ch) && (post, out) == step_command(pre, parsed_command(line), ch)
}

/// The AUTH sub-dialog step; deterministic in the line and the session.
pub open spec fn step_auth(pre: SessionV, line: Seq<char>) -> (SessionV, Seq<Seq<char>>) {
    match pre.auth_state {
        AuthStateView::WaitingForPlainCredentials => if plain_auth_ok(
            pre.auth_username,
            pre.auth_password,
            line,
        ) {
            (to_authenticated(pre), seq!["235 Authentication successful"@])
        } else {
            (to_command(pre), seq!["535 Authentication failed"@])
        },
        AuthStateView::WaitingForLoginUsername => match spec_b64_utf8(line) {
            Some(u) => (
                SessionV { auth_state: AuthStateView::WaitingForLoginPassword { username: u }, ..pre },
                seq!["334 UGFzc3dvcmQ6"@],
            ),
            None => (to_command(pre), seq!["535 Authentication failed"@]),
        },
        AuthStateView::WaitingForLoginPassword { username } => match spec_b64_utf8(line) {
            Some(p) => if login_auth_ok(pre.auth_username, pre.auth_password, username, p) {
                (to_authenticated(pre), seq!["235 Authentication successful"@])
            } else {
                (to_command(pre), seq!["535 Authentication failed"@])
            },
            None => (to_command(pre), seq!["535 Authentication failed"@]),
        },
        AuthStateView::WaitingForCramMd5Response { challenge } => if cram_auth_ok(
            pre.auth_username,
            pre.auth_password,
            line,
            challenge,
        ) {
            (to_authenticated(pre), seq!["235 Authentication successful"@])
        } else {
            (to_command(pre), seq!["535 Authentication failed"@])
        },
        AuthStateView::Idle => (to_command(pre), seq!["503 Bad sequence of commands"@]),
    }
}

/// A data-phase line with the leading dot of a dot-stuffed line removed.
pub open spec fn unstuff(line: Seq<char>) -> Seq<char> {
    if line.len() >= 2 && line[0] == '.' && line[1] == '.' {
        line.drop_first()
    } else {
        line
    }
}

pub open spec fn is_uuid_view(id: Seq<char>) -> bool {
    id.len() == 36 && forall|i: int| 0 <= i < 36 ==> crate::encoding::is_uuid_char(#[trigger] id[i])
}

/// The accepted message assembled at the data terminator: envelope from the
/// session, parsed fields from the decomposer, raw data joined with CRLF.
pub open spec fn built_email(pre: SessionV, id: Seq<char>, d: DetailsView) -> EmailView {
    let data = spec_join_crlf(pre.buffer);
    EmailView {
        id: id,
        message_id: d.message_id,
        subject: d.subject,
        date: d.date,
        headers: d.headers,
        from: match pre.mail_from {
            Some(f) => f,
            None => Seq::empty(),
        },
        to: pre.rcpt_to,
        recipients: pre.rcpt_to,
        size: encode_utf8(data).len() as u64,
        data: data,
        body_text: d.body_text,
        body_html: d.body_html,
        attachments: d.attachments,
    }
}

/// After the terminator the session is idle for a new transaction: the
/// message is recorded, the buffer cleared, and the envelope reset so that a
/// further transaction starts with a new MAIL FROM.
pub open spec fn accept_message(pre: SessionV, id: Seq<char>, d: DetailsView) -> SessionV {
    SessionV {
        state: SessionState::Command,
        buffer: Seq::empty(),
        mail_from: None,
        rcpt_to: Seq::empty(),
        messages: pre.messages.push(built_email(pre, id, d)),
        ..pre
    }
}

/// The data phase: the lone dot ends the message; any other line is
/// buffered with dot-stuffing reversed; the terminator itself is never part
/// of the body. The accepted message's parsed fields are the decomposer's
/// named results for the joined buffer; only the fresh message id is
/// existential.
pub open spec fn data_rel(
    pre: SessionV,
    line: Seq<char>,
    post: SessionV,
    out: Result<Seq<Seq<char>>, Seq<char>>,
) -> bool {
    if line == "."@ {
        exists|id: Seq<char>|
            {
                &&& is_uuid_view(id)
                &&& post == accept_message(
                    pre,
                    id,
                    spec_details_of(encode_utf8(spec_join_crlf(pre.buffer))),
                )
                &&& out == Ok::<Seq<Seq<char>>, Seq<char>>(seq!["250 Message received"@])
            }
    } else {
        &&& post == SessionV { buffer: pre.buffer.push(unstuff(line)), ..pre }
        &&& out == Ok::<Seq<Seq<char>>, Seq<char>>(Seq::empty())
    }
}

/// One line, dispatched on the session's phase.
pub open spec fn process_rel(
    pre: SessionV,
    line: Seq<char>,
    post: SessionV,
    out: Result<Seq<Seq<char>>, Seq<char>>,
) -> bool {
    match pre.state {
        SessionState::Command => command_rel(pre, line, post, out),
        SessionState::Data => data_rel(pre, line, post, out),
        SessionState::Auth => out matches Ok(replies) && (post, replies) == step_auth(pre, line),
    }
}

/// How the ensures of the exec entry points read their `Result`.
pub open spec fn outcome_rel(
    pre: SessionV,
    line: Seq<char>,
    post: SessionV,
    r: Result<Vec<String>, SmtpError>,
) -> bool {
    match r {
        Ok(replies) => process_rel(pre, line, post, Ok(replies.deep_view())),
        Err(e) => e matches SmtpError::Protocol(m) && process_rel(pre, line, post, Err(m@)),
    }
}

// ---------------------------------------------------------------------------
// Reply-building helpers
// ---------------------------------------------------------------------------

fn vec1(s: String) -> (r: Vec<String>)
    ensures
        r.deep_view() == seq![s@],
{
    let mut v: Vec<String> = Vec::new();
    v.push(s);
    proof {
        assert(v.deep_view() =~= seq![s@]);
    }
    v
}

fn reply1(s: &str) -> (r: Vec<String>)
    ensures
        r.deep_view() == seq![s@],
{
    vec1(String::from_str(s))
}

// ---------------------------------------------------------------------------
// The session
// ---------------------------------------------------------------------------

impl Session {
    /// A fresh session; authentication is required only when both
    /// credentials are configured.
    pub fn new(auth_username: Option<String>, auth_password: Option<String>) -> (r: Session)
        ensures
            r@ == (SessionV {
                state: SessionState::Command,
                greeted: false,
                authenticated: auth_username is None || auth_password is None,
                mail_from: None,
                rcpt_to: Seq::empty(),
                buffer: Seq::empty(),
                messages: Seq::empty(),
                quit: false,
                auth_state: AuthStateView::Idle,
                auth_username: auth_username.deep_view(),
                auth_password: auth_password.deep_view(),
            }),
    {
        let authenticated = auth_username.is_none() || auth_password.is_none();
        let r = Session {
            state: SessionState::Command,
            greeted: false,
            authenticated,
            mail_from: None,
            rcpt_to: Vec::new(),
            buffer: Vec::new(),
            messages: Vec::new(),
            quit: false,
            auth_state: AuthState::Idle,
            auth_username,
            auth_password,
        };
        proof {
            assert(r@ =~~= (SessionV {
                state: SessionState::Command,
                greeted: false,
                authenticated: r.auth_username is None || r.auth_password is None,
                mail_from: None,
                rcpt_to: Seq::empty(),
                buffer: Seq::empty(),
                messages: Seq::empty(),
                quit: false,
                auth_state: AuthStateView::Idle,
                auth_username: r.auth_username.deep_view(),
                auth_password: r.auth_password.deep_view(),
            }));
        }
        r
    }

    /// The session ends after a reply once QUIT has been seen.
    pub fn should_close(&self) -> (r: bool)
        ensures
            r == self@.quit,
    {
        self.quit
    }

    /// The most recently accepted message, if any.
    pub fn last_message(&self) -> (r: Option<&Email>)
        ensures
            match r {
                Some(m) => self@.messages.len() > 0 && m@ == self@.messages.last(),
                None => self@.messages.len() == 0,
            },
    {
        if self.messages.len() > 0 {
            let m = &self.messages[self.messages.len() - 1];
            Some(m)
        } else {
            None
        }
    }

    /// AUTH PLAIN credential check on the base64 credential line.
    pub fn validate_plain_auth(&self, base64_credentials: &str) -> (r: bool)
        ensures
            r == plain_auth_ok(self@.auth_username, self@.auth_password, base64_credentials@),
    {
        let (user, pass) = match (&self.auth_username, &self.auth_password) {
            (Some(u), Some(p)) => (u, p),
            _ => {
                return true;
            },
        };
        let decoded = match base64_decode(base64_credentials) {
            Ok(d) => d,
            Err(()) => {
                return false;
            },
        };
        let chars = str_chars(decoded.as_str());
        let parts = split_on(&chars, '\0');
        if parts.len() >= 3 {
            let u_chars = str_chars(user.as_str());
            let p_chars = str_chars(pass.as_str());
            let user_ok = chars_eq(&parts[1], &u_chars);
            let pass_ok = chars_eq(&parts[2], &p_chars);
            user_ok && pass_ok
        } else {
            false
        }
    }

    /// AUTH LOGIN credential check on the two decoded halves.
    pub fn validate_login_auth(&self, username: &str, password: &str) -> (r: bool)
        ensures
            r == login_auth_ok(self@.auth_username, self@.auth_password, username@, password@),
    {
        let (user, pass) = match (&self.auth_username, &self.auth_password) {
            (Some(u), Some(p)) => (u, p),
            _ => {
                return true;
            },
        };
        let user_ok = str_eq(username, user.as_str());
        let pass_ok = str_eq(password, pass.as_str());
        user_ok && pass_ok
    }

    /// AUTH CRAM-MD5 check: the response must be the base64 of
    /// `username SPACE hmac-md5-hex`, the hex compared without regard to
    /// ASCII case.
    pub fn validate_cram_md5_auth(&self, response: &str, challenge: &str) -> (r: bool)
        ensures
            r == cram_auth_ok(self@.auth_username, self@.auth_password, response@, challenge@),
    {
        let (user, pass) = match (&self.auth_username, &self.auth_password) {
            (Some(u), Some(p)) => (u, p),
            _ => {
                return true;
            },
        };
        let decoded = match base64_decode(response) {
            Ok(d) => d,
            Err(()) => {
                return false;
            },
        };
        let chars = str_chars(decoded.as_str());
        match crate::strings::find_char_from(&chars, ' ', 0) {
            None => false,
            Some(i) => {
                let mut u: Vec<char> = Vec::new();
                crate::strings::push_range(&mut u, &chars, 0, i);
                let clen = chars.len();
                let mut h: Vec<char> = Vec::new();
                crate::strings::push_range(&mut h, &chars, i + 1, clen);
                proof {
                    assert(u@ =~= chars@.take(i as int));
                    assert(h@ =~= chars@.skip(i + 1));
                }
                let user_chars = str_chars(user.as_str());
                if !chars_eq(&u, &user_chars) {
                    return false;
                }
                let expected = hmac_md5_hex(pass.as_str().as_bytes(), challenge.as_bytes());
                chars_eq_folded(&h, &expected)
            },
        }
    }

    /// Clears the envelope and the data buffer, as RSET asks.
    fn reset_transaction(&mut self)
        ensures
            final(self)@ == (SessionV {
                mail_from: None,
                rcpt_to: Seq::empty(),
                buffer: Seq::empty(),
                ..old(self)@
            }),
    {
        let ghost pre = self@;
        self.mail_from = None;
        self.rcpt_to.clear();
        self.buffer.clear();
        proof {
            assert(self@ =~~= (SessionV {
                mail_from: None,
                rcpt_to: Seq::empty(),
                buffer: Seq::empty(),
                ..pre
            }));
        }
    }

    /// One command-phase line.
    pub fn handle_command(&mut self, line: &str) -> (r: Result<Vec<String>, SmtpError>)
        ensures
            match r {
                Ok(replies) => command_rel(
                    old(self)@,
                    line@,
                    final(self)@,
                    Ok(replies.deep_view()),
                ),
                Err(e) => (e matches SmtpError::Protocol(m) && command_rel(
                    old(self)@,
                    line@,
                    final(self)@,
                    Err(m@),
                )),
            },
    {
        let ghost pre = self@;
        let ghost dch = crate::auth::default_challenge();
        proof {
            crate::auth::lemma_default_challenge();
        }
        let cmd = match parse_command(line) {
            Ok(c) => c,
            Err(()) => {
                proof {
                    lemma_command_rel(
                        pre,
                        line@,
                        self@,
                        Err("Invalid command syntax"@),
                        dch,
                    );
                }
                return Err(SmtpError::Protocol("Invalid command syntax"));
            },
        };
        match cmd {
            Command::Helo { host } => {
                self.greeted = true;
                let mut msg = String::from_str("250 Hello ");
                msg.append(host.as_str());
                let replies = vec1(msg);
                proof {
                    assert(self@ =~~= step_command(pre, parsed_command(line@), dch).0);
                    lemma_command_rel(pre, line@, self@, Ok(replies.deep_view()), dch);
                }
                Ok(replies)
            },
            Command::Ehlo { host } => {
                self.greeted = true;
                let mut msg = String::from_str("250-Hello ");
                msg.append(host.as_str());
                let mut replies: Vec<String> = Vec::new();
                replies.push(msg);
                replies.push(String::from_str("250-AUTH PLAIN LOGIN CRAM-MD5"));
                replies.push(String::from_str("250 SIZE 26214400"));
                proof {
                    assert(self@ =~~= step_command(pre, parsed_command(line@), dch).0);
                    assert(replies.deep_view() =~= step_command(
                        pre,
                        parsed_command(line@),
                        dch,
                    ).1->Ok_0);
                    lemma_command_rel(pre, line@, self@, Ok(replies.deep_view()), dch);
                }
                Ok(replies)
            },
            Command::Mail { from } => {
                match ensure(self.greeted, "503 Send HELO/EHLO first") {
                    Err(e) => {
                        proof {
                            lemma_command_rel(
                                pre,
                                line@,
                                self@,
                                Err("503 Send HELO/EHLO first"@),
                                dch,
                            );
                        }
                        return Err(e);
                    },
                    Ok(()) => {},
                }
                match ensure(self.authenticated, "530 Authentication required") {
                    Err(e) => {
                        proof {
                            lemma_command_rel(
                                pre,
                                line@,
                                self@,
                                Err("530 Authentication required"@),
                                dch,
                            );
                        }
                        return Err(e);
                    },
                    Ok(()) => {},
                }
                self.mail_from = Some(from);
                self.rcpt_to.clear();
                let replies = reply1("250 Sender OK");
                proof {
                    assert(self@ =~~= step_command(pre, parsed_command(line@), dch).0);
                    lemma_command_rel(pre, line@, self@, Ok(replies.deep_view()), dch);
                }
                Ok(replies)
            },
            Command::Rcpt { to } => {
                match ensure(self.mail_from.is_some(), "503 Need MAIL FROM first") {
                    Err(e) => {
                        proof {
                            lemma_command_rel(
                                pre,
                                line@,
                                self@,
                                Err("503 Need MAIL FROM first"@),
                                dch,
                            );
                        }
                        return Err(e);
                    },
                    Ok(()) => {},
                }
                let ghost prev = self.rcpt_to@;
                let ghost prev_deep = self.rcpt_to.deep_view();
                let ghost to_view = to@;
                self.rcpt_to.push(to);
                proof {
                    assert forall|k: int| 0 <= k < self.rcpt_to@.len() implies
                        #[trigger] self.rcpt_to.deep_view()[k] == pre.rcpt_to.push(to_view)[k] by {
                        if k < prev.len() {
                            assert(self.rcpt_to@[k] == prev[k]);
                            assert(prev_deep[k] == prev[k].deep_view());
                        }
                    }
                    assert(self.rcpt_to.deep_view() =~= pre.rcpt_to.push(to_view));
                    assert(self@ =~~= step_command(pre, parsed_command(line@), dch).0);
                }
                let replies = reply1("250 Recipient OK");
                proof {
                    lemma_command_rel(pre, line@, self@, Ok(replies.deep_view()), dch);
                }
                Ok(replies)
            },
            Command::Data => {
                match ensure(self.rcpt_to.len() > 0, "503 Need RCPT TO first") {
                    Err(e) => {
                        proof {
                            lemma_command_rel(
                                pre,
                                line@,
                                self@,
                                Err("503 Need RCPT TO first"@),
                                dch,
                            );
                        }
                        return Err(e);
                    },
                    Ok(()) => {},
                }
                self.state = SessionState::Data;
                self.buffer.clear();
                let replies = reply1("354 End data with <CR><LF>.<CR><LF>");
                proof {
                    assert(self@ =~~= step_command(pre, parsed_command(line@), dch).0);
                    lemma_command_rel(pre, line@, self@, Ok(replies.deep_view()), dch);
                }
                Ok(replies)
            },
            Command::Rset => {
                self.reset_transaction();
                let replies = reply1("250 Reset state");
                proof {
                    assert(self@ =~~= step_command(pre, parsed_command(line@), dch).0);
                    lemma_command_rel(pre, line@, self@, Ok(replies.deep_view()), dch);
                }
                Ok(replies)
            },
            Command::Noop => {
                let replies = reply1("250 OK");
                proof {
                    lemma_command_rel(pre, line@, self@, Ok(replies.deep_view()), dch);
                }
                Ok(replies)
            },
            Command::Auth { mechanism, initial } => {
                match ensure(self.greeted, "503 Send HELO/EHLO first") {
                    Err(e) => {
                        proof {
                            lemma_command_rel(
                                pre,
                                line@,
                                self@,
                                Err("503 Send HELO/EHLO first"@),
                                dch,
                            );
                        }
                        return Err(e);
                    },
                    Ok(()) => {},
                }
                if mechanism == AUTH_PLAIN {
                    if !initial.as_str().is_empty() {
                        if self.validate_plain_auth(initial.as_str()) {
                            self.state = SessionState::Command;
                            self.auth_state = AuthState::Idle;
                            self.authenticated = true;
                            let replies = reply1("235 Authentication successful");
                            proof {
                                assert(self@ =~~= step_command(
                                    pre,
                                    parsed_command(line@),
                                    dch,
                                ).0);
                                lemma_command_rel(pre, line@, self@, Ok(replies.deep_view()), dch);
                            }
                            Ok(replies)
                        } else {
                            let replies = reply1("535 Authentication failed");
                            proof {
                                lemma_command_rel(pre, line@, self@, Ok(replies.deep_view()), dch);
                            }
                            Ok(replies)
                        }
                    } else {
                        self.state = SessionState::Auth;
                        self.auth_state = AuthState::WaitingForPlainCredentials;
                        let replies = reply1("334 ");
                        proof {
                            assert(self@ =~~= step_command(pre, parsed_command(line@), dch).0);
                            lemma_command_rel(pre, line@, self@, Ok(replies.deep_view()), dch);
                        }
                        Ok(replies)
                    }
                } else if mechanism == AUTH_LOGIN {
                    self.state = SessionState::Auth;
                    self.auth_state = AuthState::WaitingForLoginUsername;
                    let replies = reply1("334 VXNlcm5hbWU6");
                    proof {
                        assert(self@ =~~= step_command(pre, parsed_command(line@), dch).0);
                        lemma_command_rel(pre, line@, self@, Ok(replies.deep_view()), dch);
                    }
                    Ok(replies)
                } else if mechanism == AUTH_CRAM_MD5 {
                    let challenge = generate_cram_md5_challenge();
                    let ghost ch = challenge@;
                    let encoded = b64_encode(challenge.as_str().as_bytes());
                    self.state = SessionState::Auth;
                    self.auth_state = AuthState::WaitingForCramMd5Response { challenge };
                    let mut msg = String::from_str("334 ");
                    msg.append(encoded.as_str());
                    let replies = vec1(msg);
                    proof {
                        assert(self@ =~~= step_command(pre, parsed_command(line@), ch).0);
                        assert(replies.deep_view() =~= step_command(
                            pre,
                            parsed_command(line@),
                            ch,
                        ).1->Ok_0);
                        lemma_command_rel(pre, line@, self@, Ok(replies.deep_view()), ch);
                    }
                    Ok(replies)
                } else {
                    let replies = reply1("504 Unrecognized authentication type");
                    proof {
                        lemma_command_rel(pre, line@, self@, Ok(replies.deep_view()), dch);
                    }
                    Ok(replies)
                }
            },
            Command::Quit => {
                self.quit = true;
                let replies = reply1("221 Bye");
                proof {
                    assert(self@ =~~= step_command(pre, parsed_command(line@), dch).0);
                    lemma_command_rel(pre, line@, self@, Ok(replies.deep_view()), dch);
                }
                Ok(replies)
            },
            Command::Unsupported => {
                let replies = reply1("502 Command not implemented");
                proof {
                    lemma_command_rel(pre, line@, self@, Ok(replies.deep_view()), dch);
                }
                Ok(replies)
            },
        }
    }

    /// One line of an AUTH sub-dialog.
    pub fn handle_auth(&mut self, line: &str) -> (r: Result<Vec<String>, SmtpError>)
        ensures
            r matches Ok(replies) && (final(self)@, replies.deep_view()) == step_auth(
                old(self)@,
                line@,
            ),
    {
        let ghost pre = self@;
        match &self.auth_state {
            AuthState::WaitingForPlainCredentials => {
                if self.validate_plain_auth(line) {
                    self.state = SessionState::Command;
                    self.auth_state = AuthState::Idle;
                    self.authenticated = true;
                    let replies = reply1("235 Authentication successful");
                    proof {
                        assert(self@ =~~= to_authenticated(pre));
                    }
                    Ok(replies)
                } else {
                    self.state = SessionState::Command;
                    self.auth_state = AuthState::Idle;
                    let replies = reply1("535 Authentication failed");
                    proof {
                        assert(self@ =~~= to_command(pre));
                    }
                    Ok(replies)
                }
            },
            AuthState::WaitingForLoginUsername => {
                match base64_decode(line) {
                    Ok(username) => {
                        self.auth_state = AuthState::WaitingForLoginPassword { username };
                        let replies = reply1("334 UGFzc3dvcmQ6");
                        proof {
                            assert(self@ =~~= step_auth(pre, line@).0);
                        }
                        Ok(replies)
                    },
                    Err(()) => {
                        self.state = SessionState::Command;
                        self.auth_state = AuthState::Idle;
                        let replies = reply1("535 Authentication failed");
                        proof {
                            assert(self@ =~~= to_command(pre));
                        }
                        Ok(replies)
                    },
                }
            },
            AuthState::WaitingForLoginPassword { username } => {
                let u = username.clone();
                match base64_decode(line) {
                    Ok(password) => {
                        if self.validate_login_auth(u.as_str(), password.as_str()) {
                            self.state = SessionState::Command;
                            self.auth_state = AuthState::Idle;
                            self.authenticated = true;
                            let replies = reply1("235 Authentication successful");
                            proof {
                                assert(self@ =~~= to_authenticated(pre));
                            }
                            Ok(replies)
                        } else {
                            self.state = SessionState::Command;
                            self.auth_state = AuthState::Idle;
                            let replies = reply1("535 Authentication failed");
                            proof {
                                assert(self@ =~~= to_command(pre));
                            }
                            Ok(replies)
                        }
                    },
                    Err(()) => {
                        self.state = SessionState::Command;
                        self.auth_state = AuthState::Idle;
                        let replies = reply1("535 Authentication failed");
                        proof {
                            assert(self@ =~~= to_command(pre));
                        }
                        Ok(replies)
                    },
                }
            },
            AuthState::WaitingForCramMd5Response { challenge } => {
                let ch = challenge.clone();
                if self.validate_cram_md5_auth(line, ch.as_str()) {
                    self.state = SessionState::Command;
                    self.auth_state = AuthState::Idle;
                    self.authenticated = true;
                    let replies = reply1("235 Authentication successful");
                    proof {
                        assert(self@ =~~= to_authenticated(pre));
                    }
                    Ok(replies)
                } else {
                    self.state = SessionState::Command;
                    self.auth_state = AuthState::Idle;
                    let replies = reply1("535 Authentication failed");
                    proof {
                        assert(self@ =~~= to_command(pre));
                    }
                    Ok(replies)
                }
            },
            AuthState::Idle => {
                self.state = SessionState::Command;
                self.auth_state = AuthState::Idle;
                let replies = reply1("503 Bad sequence of commands");
                proof {
                    assert(self@ =~~= to_command(pre));
                }
                Ok(replies)
            },
        }
    }

    /// One data-phase line: buffered with dot-stuffing reversed, or, on the
    /// lone dot, assembled into an accepted message.
    pub fn handle_data(&mut self, line: &str) -> (r: Result<Vec<String>, SmtpError>)
        ensures
            r matches Ok(replies) && data_rel(
                old(self)@,
                line@,
                final(self)@,
                Ok(replies.deep_view()),
            ),
    {
        let ghost pre = self@;
        if str_eq(line, ".") {
            let data = crate::strings::join_crlf_strings(&self.buffer);
            let parsed = parse_email_details(data.as_str());
            let ghost d = parsed@;
            proof {
                assert(d == spec_details_of(encode_utf8(spec_join_crlf(pre.buffer))));
            }
            let id = crate::encoding::new_uuid();
            let ghost idv = id@;
            let from = match &self.mail_from {
                Some(f) => f.clone(),
                None => String::new(),
            };
            let to = crate::strings::clone_string_vec(&self.rcpt_to);
            let recipients = crate::strings::clone_string_vec(&self.rcpt_to);
            let size = data.as_str().as_bytes().len() as u64;
            let message = Email {
                id,
                message_id: parsed.message_id,
                subject: parsed.subject,
                date: parsed.date,
                headers: parsed.headers,
                from,
                to,
                recipients,
                size,
                data,
                body_text: parsed.body_text,
                body_html: parsed.body_html,
                attachments: parsed.attachments,
            };
            proof {
                assert(message@ =~~= built_email(pre, idv, d));
            }
            let ghost m_view = message@;
            let ghost prev = self.messages@;
            let ghost prev_deep = self.messages.deep_view();
            self.messages.push(message);
            proof {
                assert forall|k: int| 0 <= k < self.messages@.len() implies
                    #[trigger] self.messages.deep_view()[k] == pre.messages.push(m_view)[k] by {
                    if k < prev.len() {
                        assert(self.messages@[k] == prev[k]);
                        assert(prev_deep[k] == prev[k].deep_view());
                    }
                }
                assert(self.messages.deep_view() =~= pre.messages.push(m_view));
            }
            self.state = SessionState::Command;
            self.buffer.clear();
            self.mail_from = None;
            self.rcpt_to.clear();
            let replies = reply1("250 Message received");
            proof {
                assert(self@ =~~= accept_message(pre, idv, d));
                assert(data_rel(pre, line@, self@, Ok(replies.deep_view()))) by {
                    assert(is_uuid_view(idv) && self@ == accept_message(pre, idv, d) && Ok::<
                        Seq<Seq<char>>,
                        Seq<char>,
                    >(replies.deep_view()) == Ok::<Seq<Seq<char>>, Seq<char>>(
                        seq!["250 Message received"@],
                    ));
                }
            }
            Ok(replies)
        } else {
            let chars = str_chars(line);
            let processed: String;
            if chars.len() >= 2 {
                let c0 = chars[0];
                let c1 = chars[1];
                if c0 == '.' && c1 == '.' {
                    let mut rest: Vec<char> = Vec::new();
                    let clen = chars.len();
                    crate::strings::push_range(&mut rest, &chars, 1, clen);
                    proof {
                        assert(rest@ =~= line@.drop_first());
                    }
                    processed = crate::strings::chars_string(&rest);
                } else {
                    processed = String::from_str(line);
                }
            } else {
                processed = String::from_str(line);
            }
            assert(processed@ == unstuff(line@));
            let ghost prev = self.buffer@;
            let ghost prev_deep = self.buffer.deep_view();
            self.buffer.push(processed);
            proof {
                assert forall|k: int| 0 <= k < self.buffer@.len() implies
                    #[trigger] self.buffer.deep_view()[k] == pre.buffer.push(unstuff(line@))[k] by {
                    if k < prev.len() {
                        assert(self.buffer@[k] == prev[k]);
                        assert(prev_deep[k] == prev[k].deep_view());
                    }
                }
                assert(self.buffer.deep_view() =~= pre.buffer.push(unstuff(line@)));
                assert(self@ =~~= (SessionV { buffer: pre.buffer.push(unstuff(line@)), ..pre }));
            }
            let replies: Vec<String> = Vec::new();
            assert(replies.deep_view() =~= Seq::<Seq<char>>::empty());
            Ok(replies)
        }
    }

    /// One line of the session, dispatched on its phase.
    pub fn process_line(&mut self, line: &str) -> (r: Result<Vec<String>, SmtpError>)
        ensures
            outcome_rel(old(self)@, line@, final(self)@, r),
    {
        match self.state {
            SessionState::Command => self.handle_command(line),
            SessionState::Data => self.handle_data(line),
            SessionState::Auth => self.handle_auth(line),
        }
    }
}

proof fn lemma_command_rel(
    pre: SessionV,
    line: Seq<char>,
    post: SessionV,
    out: Result<Seq<Seq<char>>, Seq<char>>,
    ch: Seq<char>,
)
    requires
        is_cram_challenge(ch),
        post == step_command(pre, parsed_command(line), ch).0,
        out == step_command(pre, parsed_command(line), ch).1,
    ensures
        command_rel(pre, line, post, out),
{
    assert((post, out) == step_command(pre, parsed_command(line), ch));
}

/// Law: with credentials configured, the server accepts a CRAM-MD5 response
/// exactly when it decodes to `username SPACE h`, where `h` reads, without
/// regard to ASCII case, as the lowercase hex of HMAC-MD5 keyed by the
/// password over the challenge. (Stated for usernames without spaces; the
/// split at the first space could not recover one that holds a space.)
pub proof fn lemma_cram_acceptance(
    user: Seq<char>,
    pass: Seq<char>,
    response: Seq<char>,
    challenge: Seq<char>,
)
    requires
        forall|k: int| 0 <= k < user.len() ==> user[k] != ' ',
    ensures
        cram_auth_ok(Some(user), Some(pass), response, challenge) <==> exists|h: Seq<char>|
            {
                &&& #[trigger] spec_b64_utf8(response) == Some(user + " "@ + h)
                &&& crate::strings::folded(h) == crate::strings::folded(
                    spec_hex_lower(spec_hmac_md5(encode_utf8(pass), encode_utf8(challenge))),
                )
            },
{
    reveal_strlit(" ");
    if cram_auth_ok(Some(user), Some(pass), response, challenge) {
        let d = spec_b64_utf8(response)->0;
        crate::strings::lemma_find_ch_from(d, ' ', 0);
        let i = crate::strings::find_ch_from(d, ' ', 0)->0;
        let h = d.skip(i + 1);
        assert(d =~= user + " "@ + h) by {
            assert(d.take(i) == user);
            assert forall|k: int| 0 <= k < d.len() implies d[k] == (user + " "@ + h)[k] by {
                if k < i {
                    assert(d.take(i)[k] == d[k]);
                } else if k > i {
                    assert(d.skip(i + 1)[k - i - 1] == d[k]);
                }
            }
        }
        assert(spec_b64_utf8(response) == Some(user + " "@ + h));
    }
    if exists|h: Seq<char>|
        {
            &&& #[trigger] spec_b64_utf8(response) == Some(user + " "@ + h)
            &&& crate::strings::folded(h) == crate::strings::folded(
                spec_hex_lower(spec_hmac_md5(encode_utf8(pass), encode_utf8(challenge))),
            )
        } {
        let h = choose|h: Seq<char>|
            {
                &&& #[trigger] spec_b64_utf8(response) == Some(user + " "@ + h)
                &&& crate::strings::folded(h) == crate::strings::folded(
                    spec_hex_lower(spec_hmac_md5(encode_utf8(pass), encode_utf8(challenge))),
                )
            };
        let d = user + " "@ + h;
        crate::strings::lemma_find_ch_from(d, ' ', 0);
        assert(d[user.len() as int] == ' ');
        assert forall|k: int| 0 <= k < user.len() implies d[k] != ' ' by {
            assert(d[k] == user[k]);
        }
        let i = user.len() as int;
        match crate::strings::find_ch_from(d, ' ', 0) {
            None => {
                assert(d[i] != ' ');
                assert(false);
            },
            Some(f) => {
                if f < i {
                    assert(d[f] == ' ');
                    assert(user[f] != ' ');
                    assert(false);
                }
                if i < f {
                    assert(d[i] != ' ');
                    assert(false);
                }
                assert(f == i);
                assert(d.take(i) =~= user);
                assert(d.skip(i + 1) =~= h);
            },
        }
    }
}

} // verus!
