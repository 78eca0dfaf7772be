//! The recognized configuration options: bind addresses as host strings,
//! optional SMTP credentials (both are needed for authentication to be
//! enforced), the concurrent-session ceiling, and the database URL.

use crate::strings::spec_join_sep;
use vstd::prelude::*;
use vstd::string::StringExecFns;

verus! {

/// The service configuration.
pub struct Config {
    pub smtp_host: String,
    pub smtp_username: Option<String>,
    pub smtp_password: Option<String>,
    pub smtp_max_connections: usize,
    pub web_host: String,
    pub database_url: String,
}

impl Default for Config {
    /// The documented defaults: SMTP on 0.0.0.0:2525, no credentials, four
    /// concurrent sessions, web on 0.0.0.0:3000, the SQLite file under /app.
    fn default() -> (r: Config)
        ensures
            r.smtp_host@ == "0.0.0.0:2525"@,
            r.smtp_username is None,
            r.smtp_password is None,
            r.smtp_max_connections == 4,
            r.web_host@ == "0.0.0.0:3000"@,
            r.database_url@ == "sqlite:///app/mailfang.db"@,
    {
        Config {
            smtp_host: String::from_str("0.0.0.0:2525"),
            smtp_username: None,
            smtp_password: None,
            smtp_max_connections: 4,
            web_host: String::from_str("0.0.0.0:3000"),
            database_url: String::from_str("sqlite:///app/mailfang.db"),
        }
    }
}

/// The decimal digits of `n`, most significant first.
pub open spec fn spec_decimal(n: nat) -> Seq<char>
    decreases n,
{
    if n < 10 {
        seq![crate::encoding::hex_char(n as int)]
    } else {
        spec_decimal(n / 10) + seq![crate::encoding::hex_char((n % 10) as int)]
    }
}

/// Renders a number in decimal.
pub fn u64_to_string(n: u64) -> (r: String)
    ensures
        r@ == spec_decimal(n as nat),
{
    let mut digits: Vec<char> = Vec::new();
    let mut rest: u64 = n;
    loop
        invariant
            spec_decimal(n as nat) == spec_decimal(rest as nat) + digits@,
        ensures
            rest < 10,
            spec_decimal(n as nat) == spec_decimal(rest as nat) + digits@,
        decreases rest,
    {
        if rest < 10 {
            break;
        }
        let d = (rest % 10) as u8;
        let ghost prev = digits@;
        digits.insert(0, crate::encoding::hex_char_exec_pub(d));
        proof {
            assert(digits@ =~= seq![crate::encoding::hex_char(d as int)] + prev);
            assert(spec_decimal(rest as nat) == spec_decimal((rest / 10) as nat) + seq![
                crate::encoding::hex_char((rest % 10) as int),
            ]);
            assert(spec_decimal((rest / 10) as nat) + digits@ =~= spec_decimal(rest as nat) + prev);
        }
        rest = rest / 10;
    }
    let d = rest as u8;
    let ghost prev = digits@;
    digits.insert(0, crate::encoding::hex_char_exec_pub(d));
    proof {
        assert(digits@ =~= seq![crate::encoding::hex_char(d as int)] + prev);
        assert(spec_decimal(rest as nat) == seq![crate::encoding::hex_char(rest as int)]);
        assert(spec_decimal(n as nat) =~= digits@);
    }
    crate::strings::chars_string(&digits)
}

impl Config {
    /// The admission ceiling actually used: the configured value, clamped to
    /// at least one session.
    pub fn effective_max_connections(&self) -> (r: usize)
        ensures
            r == if self.smtp_max_connections >= 1 {
                self.smtp_max_connections as int
            } else {
                1int
            },
    {
        if self.smtp_max_connections >= 1 {
            self.smtp_max_connections
        } else {
            1
        }
    }

    /// The configuration rendered one option per line, the password masked.
    pub fn print(&self) -> (r: Vec<String>)
        ensures
            r.deep_view() == seq![
                "SMTP host: "@ + self.smtp_host@,
                "SMTP username: "@ + (match self.smtp_username {
                    Some(ref u) => u@,
                    None => Seq::<char>::empty(),
                }),
                "SMTP password: "@ + (if self.smtp_password is Some {
                    "****"@
                } else {
                    Seq::<char>::empty()
                }),
                "SMTP max connections: "@ + spec_decimal(self.smtp_max_connections as nat),
                "Web host: "@ + self.web_host@,
                "Database URL: "@ + self.database_url@,
            ],
    {
        let mut out: Vec<String> = Vec::new();
        let mut line = String::from_str("SMTP host: ");
        line.append(self.smtp_host.as_str());
        out.push(line);
        let mut line2 = String::from_str("SMTP username: ");
        match &self.smtp_username {
            Some(u) => {
                line2.append(u.as_str());
            },
            None => {},
        }
        proof {
            if self.smtp_username is None {
                assert(line2@ =~= "SMTP username: "@ + Seq::<char>::empty());
            }
        }
        out.push(line2);
        let mut line3 = String::from_str("SMTP password: ");
        if self.smtp_password.is_some() {
            line3.append("****");
        }
        proof {
            if self.smtp_password is None {
                assert(line3@ =~= "SMTP password: "@ + Seq::<char>::empty());
            }
        }
        out.push(line3);
        let mut line4 = String::from_str("SMTP max connections: ");
        let rendered = u64_to_string(self.smtp_max_connections as u64);
        line4.append(rendered.as_str());
        out.push(line4);
        let mut line5 = String::from_str("Web host: ");
        line5.append(self.web_host.as_str());
        out.push(line5);
        let mut line6 = String::from_str("Database URL: ");
        line6.append(self.database_url.as_str());
        out.push(line6);
        proof {
            assert(out.deep_view() =~= seq![
                "SMTP host: "@ + self.smtp_host@,
                "SMTP username: "@ + (match self.smtp_username {
                    Some(ref u) => u@,
                    None => Seq::<char>::empty(),
                }),
                "SMTP password: "@ + (if self.smtp_password is Some {
                    "****"@
                } else {
                    Seq::<char>::empty()
                }),
                "SMTP max connections: "@ + spec_decimal(self.smtp_max_connections as nat),
                "Web host: "@ + self.web_host@,
                "Database URL: "@ + self.database_url@,
            ]);
        }
        out
    }
}

} // verus!
