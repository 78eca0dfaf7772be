//! MIME message decomposition: the RFC 822 parse itself is mail-parser's
//! work, reached through trusted accessors over the raw bytes whose results
//! carry names; everything the sink then does with the parsed pieces —
//! header grouping, body selection, content-type assembly, Content-ID
//! bracket stripping, filename fallback — is verified against those names.

use crate::strings::{chars_string, str_chars, str_eq};
use mail_parser::MimeHeaders;
use vstd::prelude::*;

verus! {

// ---------------------------------------------------------------------------
// Library types for the decomposed message
// ---------------------------------------------------------------------------

/// Header names mapped to their values in order, names in first-appearance
/// order.
pub type HeaderMap = Vec<(String, Vec<String>)>;

#[verifier::ext_equal]
pub struct AttachmentView {
    pub filename: Option<Seq<char>>,
    pub mime_type: Seq<char>,
    pub data: Seq<u8>,
    pub content_id: Option<Seq<char>>,
    pub disposition: Option<Seq<char>>,
    pub headers: Seq<(Seq<char>, Seq<Seq<char>>)>,
}

/// One MIME leaf classified as an attachment or as inline-with-Content-ID.
pub struct EmailAttachment {
    pub filename: Option<String>,
    pub mime_type: String,
    pub data: Vec<u8>,
    pub content_id: Option<String>,
    pub disposition: Option<String>,
    pub headers: HeaderMap,
}

impl View for EmailAttachment {
    type V = AttachmentView;

    open spec fn view(&self) -> AttachmentView {
        AttachmentView {
            filename: self.filename.deep_view(),
            mime_type: self.mime_type@,
            data: self.data@,
            content_id: self.content_id.deep_view(),
            disposition: self.disposition.deep_view(),
            headers: self.headers.deep_view(),
        }
    }
}

impl DeepView for EmailAttachment {
    type V = AttachmentView;

    open spec fn deep_view(&self) -> AttachmentView {
        self.view()
    }
}

#[verifier::ext_equal]
pub struct DetailsView {
    pub attachments: Seq<AttachmentView>,
    pub message_id: Option<Seq<char>>,
    pub subject: Option<Seq<char>>,
    pub date: Option<i64>,
    pub headers: Option<Seq<(Seq<char>, Seq<Seq<char>>)>>,
    pub body_text: Seq<char>,
    pub body_html: Seq<char>,
}

/// What the decomposer extracts from the raw wire bytes.
pub struct ParsedEmailDetails {
    pub attachments: Vec<EmailAttachment>,
    pub message_id: Option<String>,
    pub subject: Option<String>,
    pub date: Option<i64>,
    pub headers: Option<HeaderMap>,
    pub body_text: String,
    pub body_html: String,
}

impl View for ParsedEmailDetails {
    type V = DetailsView;

    open spec fn view(&self) -> DetailsView {
        DetailsView {
            attachments: self.attachments.deep_view(),
            message_id: self.message_id.deep_view(),
            subject: self.subject.deep_view(),
            date: self.date,
            headers: match self.headers {
                Some(ref h) => Some(h.deep_view()),
                None => None,
            },
            body_text: self.body_text@,
            body_html: self.body_html@,
        }
    }
}

// ---------------------------------------------------------------------------
// Angle-bracket stripping (`Message-ID`, `Content-ID`)
// ---------------------------------------------------------------------------

/// How many copies of `c` the sequence starts with.
pub open spec fn count_leading(s: Seq<char>, c: char) -> int
    decreases s.len(),
{
    if s.len() == 0 || s[0] != c {
        0
    } else {
        1 + count_leading(s.drop_first(), c)
    }
}

/// How many copies of `c` the sequence ends with.
pub open spec fn count_trailing(s: Seq<char>, c: char) -> int
    decreases s.len(),
{
    if s.len() == 0 || s.last() != c {
        0
    } else {
        1 + count_trailing(s.drop_last(), c)
    }
}

/// `s` with every leading `<` and every trailing `>` removed, the trailing
/// run measured after the leading run is gone.
pub open spec fn spec_strip_angle(s: Seq<char>) -> Seq<char> {
    let rest = s.skip(count_leading(s, '<'));
    rest.take(rest.len() - count_trailing(rest, '>'))
}

pub proof fn lemma_count_leading(s: Seq<char>, c: char)
    ensures
        0 <= count_leading(s, c) <= s.len(),
        forall|k: int| 0 <= k < count_leading(s, c) ==> s[k] == c,
        count_leading(s, c) < s.len() ==> s[count_leading(s, c)] != c,
    decreases s.len(),
{
    if s.len() > 0 && s[0] == c {
        lemma_count_leading(s.drop_first(), c);
        assert forall|k: int| 0 <= k < count_leading(s, c) implies s[k] == c by {
            if k > 0 {
                assert(s.drop_first()[k - 1] == s[k]);
            }
        }
        if count_leading(s, c) < s.len() {
            assert(s.drop_first()[count_leading(s, c) - 1] == s[count_leading(s, c)]);
        }
    }
}

pub proof fn lemma_count_trailing(s: Seq<char>, c: char)
    ensures
        0 <= count_trailing(s, c) <= s.len(),
        forall|k: int| s.len() - count_trailing(s, c) <= k < s.len() ==> s[k] == c,
        count_trailing(s, c) < s.len() ==> s[s.len() - count_trailing(s, c) - 1] != c,
    decreases s.len(),
{
    if s.len() > 0 && s.last() == c {
        lemma_count_trailing(s.drop_last(), c);
        assert forall|k: int| s.len() - count_trailing(s, c) <= k < s.len() implies s[k] == c by {
            if k < s.len() - 1 {
                assert(s.drop_last()[k] == s[k]);
            }
        }
        if count_trailing(s, c) < s.len() {
            assert(s.drop_last()[s.len() - count_trailing(s, c) - 1] == s[s.len() - count_trailing(
                s,
                c,
            ) - 1]);
        }
    }
}

/// Removes surrounding angle brackets from a character vector.
pub fn strip_angle(s: &Vec<char>) -> (r: Vec<char>)
    ensures
        r@ == spec_strip_angle(s@),
{
    let n = s.len();
    let mut lo: usize = 0;
    while lo < n && s[lo] == '<'
        invariant
            n == s@.len(),
            lo <= n,
            forall|k: int| 0 <= k < lo ==> s@[k] == '<',
        decreases n - lo,
    {
        lo += 1;
    }
    proof {
        lemma_count_leading(s@, '<');
        let l = count_leading(s@, '<');
        if lo < l {
            assert(s@[lo as int] == '<');
            assert(false);
        }
        if l < lo {
            assert(s@[l] == '<');
            assert(false);
        }
    }
    let mut hi: usize = n;
    while hi > lo && s[hi - 1] == '>'
        invariant
            n == s@.len(),
            lo <= hi <= n,
            forall|k: int| hi <= k < n ==> s@[k] == '>',
        decreases hi,
    {
        hi -= 1;
    }
    proof {
        let rest = s@.skip(lo as int);
        lemma_count_trailing(rest, '>');
        let t = count_trailing(rest, '>');
        let cut = n - t;
        assert(rest.len() == n - lo);
        if hi < cut {
            assert(rest.len() - t <= hi - lo < rest.len());
            assert(rest[hi - lo] == '>');
            assert(rest[hi - lo] == s@[hi as int]);
            assert(hi > lo);
            assert(false);
        }
        if cut < hi {
            // the trailing loop stopped at hi, so either hi == lo or the
            // character before hi is not '>'
            if hi == lo {
                assert(t > rest.len());
                assert(false);
            } else {
                assert(rest.len() - t <= hi - 1 - lo < rest.len());
                assert(rest[hi - 1 - lo] == '>');
                assert(rest[hi - 1 - lo] == s@[(hi - 1) as int]);
                assert(false);
            }
        }
        assert(hi == cut);
    }
    let mut out: Vec<char> = Vec::new();
    crate::strings::push_range(&mut out, s, lo, hi);
    proof {
        let rest = s@.skip(lo as int);
        let t = count_trailing(rest, '>');
        assert(out@ =~= rest.take(rest.len() - t));
    }
    out
}

/// Removes surrounding angle brackets from a string.
pub fn strip_angle_string(s: &str) -> (r: String)
    ensures
        r@ == spec_strip_angle(s@),
{
    let cs = str_chars(s);
    let stripped = strip_angle(&cs);
    chars_string(&stripped)
}

// ---------------------------------------------------------------------------
// Content-type assembly and body selection
// ---------------------------------------------------------------------------

/// `type/subtype`, just `type` when the subtype is absent, and the octet
/// stream default when the whole Content-Type is absent.
pub open spec fn spec_mime_type(ct: Option<(Seq<char>, Option<Seq<char>>)>) -> Seq<char> {
    match ct {
        Some((t, Some(st))) => t + "/"@ + st,
        Some((t, None)) => t,
        None => "application/octet-stream"@,
    }
}

pub fn mime_type_of(ct: Option<(String, Option<String>)>) -> (r: String)
    ensures
        r@ == spec_mime_type(
            match ct {
                Some((ref t, Some(ref st))) => Some((t@, Some(st@))),
                Some((ref t, None)) => Some((t@, None)),
                None => None,
            },
        ),
{
    match ct {
        Some((t, Some(st))) => {
            let mut out = t;
            out.append("/");
            out.append(st.as_str());
            out
        },
        Some((t, None)) => t,
        None => String::from_str("application/octet-stream"),
    }
}

/// The first HTML part counts as the HTML body only when its content type is
/// exactly `text/html`; synthesized HTML views of plain text are refused.
pub open spec fn is_exact_html(ct: Option<(Seq<char>, Option<Seq<char>>)>) -> bool {
    match ct {
        Some((t, Some(st))) => t == "text"@ && st == "html"@,
        _ => false,
    }
}

// ---------------------------------------------------------------------------
// Header grouping
// ---------------------------------------------------------------------------

/// The distinct header names of the flat (name, value) list, in
/// first-appearance order.
pub open spec fn unique_names(flat: Seq<(Seq<char>, Seq<char>)>) -> Seq<Seq<char>>
    decreases flat.len(),
{
    if flat.len() == 0 {
        Seq::empty()
    } else {
        let prev = unique_names(flat.drop_last());
        if prev.contains(flat.last().0) {
            prev
        } else {
            prev.push(flat.last().0)
        }
    }
}

/// The values carried by `name`, in order of appearance.
pub open spec fn values_of(flat: Seq<(Seq<char>, Seq<char>)>, name: Seq<char>) -> Seq<Seq<char>>
    decreases flat.len(),
{
    if flat.len() == 0 {
        Seq::empty()
    } else {
        let prev = values_of(flat.drop_last(), name);
        if flat.last().0 == name {
            prev.push(flat.last().1)
        } else {
            prev
        }
    }
}

/// Grouping a flat header list: one entry per distinct name, values in
/// order, multiplicity preserved.
pub open spec fn spec_group(flat: Seq<(Seq<char>, Seq<char>)>) -> Seq<(Seq<char>, Seq<Seq<char>>)> {
    unique_names(flat).map_values(|n: Seq<char>| (n, values_of(flat, n)))
}

/// Does the list of names hold this name?
fn contains_string(v: &Vec<String>, s: &String) -> (r: bool)
    ensures
        r == v.deep_view().contains(s@),
{
    let n = v.len();
    let mut i: usize = 0;
    while i < n
        invariant
            n == v@.len(),
            i <= n,
            forall|j: int| 0 <= j < i ==> v.deep_view()[j] != s@,
        decreases n - i,
    {
        if str_eq(v[i].as_str(), s.as_str()) {
            assert(v.deep_view()[i as int] == s@);
            return true;
        }
        i += 1;
    }
    proof {
        if v.deep_view().contains(s@) {
            let w = choose|w: int| 0 <= w < v.deep_view().len() && v.deep_view()[w] == s@;
            assert(false);
        }
    }
    false
}

/// First-appearance-ordered distinct header names.
fn unique_names_exec(flat: &Vec<(String, String)>) -> (r: Vec<String>)
    ensures
        r.deep_view() == unique_names(flat.deep_view()),
{
    let mut names: Vec<String> = Vec::new();
    let n = flat.len();
    let mut i: usize = 0;
    assert(flat.deep_view().take(0) =~= Seq::<(Seq<char>, Seq<char>)>::empty());
    while i < n
        invariant
            n == flat@.len(),
            flat.deep_view().len() == n,
            i <= n,
            names.deep_view() =~= unique_names(flat.deep_view().take(i as int)),
        decreases n - i,
    {
        let ghost pre = flat.deep_view().take(i as int);
        let ghost cur = flat.deep_view().take(i + 1);
        proof {
            assert(flat.deep_view()[i as int] == (flat@[i as int].0@, flat@[i as int].1@));
            assert(cur.drop_last() =~= pre);
            assert(cur.last() == flat.deep_view()[i as int]);
        }
        let name = &flat[i].0;
        let ghost prev_names = names.deep_view();
        if !contains_string(&names, name) {
            names.push(name.clone());
            proof {
                assert(names.deep_view() =~= prev_names.push(name@));
            }
        }
        proof {
            assert(names.deep_view() =~= unique_names(cur));
        }
        i += 1;
    }
    assert(flat.deep_view().take(n as int) =~= flat.deep_view());
    names
}

/// The values carried by one name, in order of appearance.
fn values_for(flat: &Vec<(String, String)>, name: &String) -> (r: Vec<String>)
    ensures
        r.deep_view() == values_of(flat.deep_view(), name@),
{
    let mut out: Vec<String> = Vec::new();
    let n = flat.len();
    let mut i: usize = 0;
    assert(flat.deep_view().take(0) =~= Seq::<(Seq<char>, Seq<char>)>::empty());
    while i < n
        invariant
            n == flat@.len(),
            flat.deep_view().len() == n,
            i <= n,
            out.deep_view() =~= values_of(flat.deep_view().take(i as int), name@),
        decreases n - i,
    {
        let ghost pre = flat.deep_view().take(i as int);
        let ghost cur = flat.deep_view().take(i + 1);
        proof {
            assert(flat.deep_view()[i as int] == (flat@[i as int].0@, flat@[i as int].1@));
            assert(cur.drop_last() =~= pre);
            assert(cur.last() == flat.deep_view()[i as int]);
        }
        let ghost prev_out = out.deep_view();
        if str_eq(flat[i].0.as_str(), name.as_str()) {
            out.push(flat[i].1.clone());
            proof {
                assert(out.deep_view() =~= prev_out.push(flat@[i as int].1@));
            }
        }
        proof {
            assert(out.deep_view() =~= values_of(cur, name@));
        }
        i += 1;
    }
    assert(flat.deep_view().take(n as int) =~= flat.deep_view());
    out
}

/// Groups a flat (name, value) list by name, preserving the order of names
/// and of each name's values.
pub fn group_headers(flat: &Vec<(String, String)>) -> (r: HeaderMap)
    ensures
        r.deep_view() == spec_group(flat.deep_view()),
{
    let names = unique_names_exec(flat);
    let mut out: HeaderMap = Vec::new();
    let nn = names.len();
    let mut k: usize = 0;
    while k < nn
        invariant
            nn == names@.len(),
            names.deep_view() == unique_names(flat.deep_view()),
            k <= nn,
            out@.len() == k,
            forall|j: int| 0 <= j < k ==> #[trigger] out.deep_view()[j] == (
                names.deep_view()[j],
                values_of(flat.deep_view(), names.deep_view()[j]),
            ),
        decreases nn - k,
    {
        let cloned_name = names[k].clone();
        let vals = values_for(flat, &names[k]);
        let ghost prev = out@;
        let ghost prev_deep = out.deep_view();
        out.push((cloned_name, vals));
        proof {
            assert forall|j: int| 0 <= j < k + 1 implies #[trigger] out.deep_view()[j] == (
                names.deep_view()[j],
                values_of(flat.deep_view(), names.deep_view()[j]),
            ) by {
                if j < k {
                    assert(out@[j] == prev[j]);
                    assert(prev_deep[j] == prev[j].deep_view());
                } else {
                    assert(out@[j] == (cloned_name, vals));
                }
            }
        }
        k += 1;
    }
    proof {
        assert(out.deep_view() =~= spec_group(flat.deep_view()));
    }
    out
}

// ---------------------------------------------------------------------------
// Trusted access to mail-parser, over the raw bytes
// ---------------------------------------------------------------------------
//
// Every accessor below re-reads the raw bytes, so each result is a function
// of the bytes alone and carries a name the decomposer's contract can speak
// of.

/// Whether mail-parser accepts the bytes as an RFC 822 message.
pub uninterp spec fn mail_parses(raw: Seq<u8>) -> bool;

/// The Message-ID header value, as the parser returns it (unquoted).
pub uninterp spec fn message_id_of(raw: Seq<u8>) -> Option<Seq<char>>;

/// The first Subject header, decoded from encoded-word form.
pub uninterp spec fn subject_of(raw: Seq<u8>) -> Option<Seq<char>>;

/// The Date header as seconds since the Unix epoch.
pub uninterp spec fn date_of(raw: Seq<u8>) -> Option<i64>;

/// The first plain-text body not classified as an attachment.
pub uninterp spec fn body_text_of(raw: Seq<u8>) -> Option<Seq<char>>;

/// The first HTML body, which the parser may have synthesized from text.
pub uninterp spec fn body_html_of(raw: Seq<u8>) -> Option<Seq<char>>;

/// The declared (type, subtype) of the first HTML part.
pub uninterp spec fn html_ctype_of(raw: Seq<u8>) -> Option<(Seq<char>, Option<Seq<char>>)>;

/// How many headers the message carries.
pub uninterp spec fn header_count_of(raw: Seq<u8>) -> usize;

/// One header as (name, text value), the value empty when the parser stored
/// it in a non-text form.
pub uninterp spec fn header_of(raw: Seq<u8>, i: int) -> Option<(Seq<char>, Seq<char>)>;

/// How many MIME leaves the parser classifies as attachments or as
/// inline-with-Content-ID.
pub uninterp spec fn attachment_count_of(raw: Seq<u8>) -> usize;

#[verifier::ext_equal]
pub struct AttFactsV {
    pub name: Option<Seq<char>>,
    pub description: Option<Seq<char>>,
    pub ctype: Option<Seq<char>>,
    pub csubtype: Option<Seq<char>>,
    pub content_id: Option<Seq<char>>,
    pub disposition: Option<Seq<char>>,
}

/// One attachment's declared fields: disposition-or-type filename,
/// Content-Description, content type and subtype, Content-ID as stored, and
/// the disposition kind.
pub uninterp spec fn attachment_of(raw: Seq<u8>, i: int) -> Option<AttFactsV>;

/// One attachment's raw body bytes.
pub uninterp spec fn attachment_data_of(raw: Seq<u8>, i: int) -> Seq<u8>;

/// How many headers one attachment part carries.
pub uninterp spec fn attachment_header_count_of(raw: Seq<u8>, i: int) -> usize;

/// One header of one attachment part as (name, text value).
pub uninterp spec fn attachment_header_of(raw: Seq<u8>, i: int, j: int) -> Option<
    (Seq<char>, Seq<char>),
>;

/// The top-level scalar fields and row counts of one parsed message.
pub struct MailFacts {
    pub message_id: Option<String>,
    pub subject: Option<String>,
    pub date: Option<i64>,
    pub body_text: Option<String>,
    pub body_html: Option<String>,
    pub header_count: usize,
    pub attachment_count: usize,
}

/// One attachment's declared fields.
pub struct AttFacts {
    pub name: Option<String>,
    pub description: Option<String>,
    pub ctype: Option<String>,
    pub csubtype: Option<String>,
    pub content_id: Option<String>,
    pub disposition: Option<String>,
}

impl View for AttFacts {
    type V = AttFactsV;

    open spec fn view(&self) -> AttFactsV {
        AttFactsV {
            name: self.name.deep_view(),
            description: self.description.deep_view(),
            ctype: self.ctype.deep_view(),
            csubtype: self.csubtype.deep_view(),
            content_id: self.content_id.deep_view(),
            disposition: self.disposition.deep_view(),
        }
    }
}

/// Relies on `MessageParser::default().parse` and `Message::{message_id,
/// subject, date (to_timestamp), body_text(0), body_html(0), headers,
/// attachments}`: each result is a function of the raw bytes alone, and the
/// parse fails exactly when the bytes are not a parseable message.
#[verifier::external_body]
fn mail_facts(raw: &[u8]) -> (r: Option<MailFacts>)
    ensures
        r is Some <==> mail_parses(raw@),
        r matches Some(f) ==> {
            &&& f.message_id.deep_view() == message_id_of(raw@)
            &&& f.subject.deep_view() == subject_of(raw@)
            &&& f.date == date_of(raw@)
            &&& f.body_text.deep_view() == body_text_of(raw@)
            &&& f.body_html.deep_view() == body_html_of(raw@)
            &&& f.header_count == header_count_of(raw@)
            &&& f.attachment_count == attachment_count_of(raw@)
        },
{
    mail_parser::MessageParser::default().parse(raw).map(|m| MailFacts {
        message_id: m.message_id().map(|s| s.to_string()),
        subject: m.subject().map(|s| s.to_string()),
        date: m.date().map(|d| d.to_timestamp()),
        body_text: m.body_text(0).map(|s| s.to_string()),
        body_html: m.body_html(0).map(|s| s.to_string()),
        header_count: m.headers().len(),
        attachment_count: m.attachments().count(),
    })
}

/// Relies on `Message::html_part(0)` / `MimeHeaders::content_type` (`ctype`,
/// `subtype`): the declared content type of the first HTML part.
#[verifier::external_body]
fn mail_html_ctype(raw: &[u8]) -> (r: Option<(String, Option<String>)>)
    ensures
        r.deep_view() == html_ctype_of(raw@),
{
    match mail_parser::MessageParser::default().parse(raw) {
        None => None,
        Some(m) => m.html_part(0).and_then(|p| p.content_type()).map(
            |c| (c.ctype().to_string(), c.subtype().map(|s| s.to_string())),
        ),
    }
}

/// Relies on `Message::headers` / `Header::name` / `HeaderValue::as_text`:
/// one header row; present exactly for indexes below the header count.
#[verifier::external_body]
fn mail_header(raw: &[u8], i: usize) -> (r: Option<(String, String)>)
    ensures
        r.deep_view() == header_of(raw@, i as int),
        mail_parses(raw@) && i < header_count_of(raw@) ==> r is Some,
{
    match mail_parser::MessageParser::default().parse(raw) {
        None => None,
        Some(m) => m.headers().get(i).map(
            |h| (h.name().to_string(), h.value().as_text().unwrap_or_default().to_string()),
        ),
    }
}

/// Relies on `Message::attachments` and `MimeHeaders::{attachment_name,
/// content_description, content_type, content_id, content_disposition}`: one
/// attachment's declared fields; present exactly for indexes below the
/// attachment count.
#[verifier::external_body]
fn mail_attachment(raw: &[u8], i: usize) -> (r: Option<AttFacts>)
    ensures
        match r {
            Some(f) => attachment_of(raw@, i as int) == Some(f@),
            None => attachment_of(raw@, i as int) is None,
        },
        mail_parses(raw@) && i < attachment_count_of(raw@) ==> r is Some,
{
    match mail_parser::MessageParser::default().parse(raw) {
        None => None,
        Some(m) => m.attachments().nth(i).map(|p| AttFacts {
            name: p.attachment_name().map(|s| s.to_string()),
            description: p.content_description().map(|s| s.to_string()),
            ctype: p.content_type().map(|c| c.ctype().to_string()),
            csubtype: p.content_type().and_then(|c| c.subtype()).map(|s| s.to_string()),
            content_id: p.content_id().map(|s| s.to_string()),
            disposition: p.content_disposition().map(|c| c.ctype().to_string()),
        }),
    }
}

/// Relies on `MessagePart::body` (`PartType`): one attachment's raw bytes;
/// text parts as their UTF-8 bytes, nested messages as their raw form,
/// multiparts and missing parts as nothing.
#[verifier::external_body]
fn mail_attachment_data(raw: &[u8], i: usize) -> (r: Vec<u8>)
    ensures
        r@ == attachment_data_of(raw@, i as int),
{
    match mail_parser::MessageParser::default().parse(raw) {
        None => Vec::new(),
        Some(m) => match m.attachments().nth(i).map(|a| &a.body) {
            Some(mail_parser::PartType::Text(t)) => t.as_bytes().to_vec(),
            Some(mail_parser::PartType::Html(t)) => t.as_bytes().to_vec(),
            Some(mail_parser::PartType::Binary(d)) => d.to_vec(),
            Some(mail_parser::PartType::InlineBinary(d)) => d.to_vec(),
            Some(mail_parser::PartType::Message(inner)) => inner.raw_message().to_vec(),
            _ => Vec::new(),
        },
    }
}

/// Relies on `MessagePart::headers`: how many headers one attachment part
/// carries.
#[verifier::external_body]
fn mail_attachment_header_count(raw: &[u8], i: usize) -> (r: usize)
    ensures
        r == attachment_header_count_of(raw@, i as int),
{
    match mail_parser::MessageParser::default().parse(raw) {
        None => 0,
        Some(m) => m.attachments().nth(i).map(|a| a.headers.len()).unwrap_or(0),
    }
}

/// Relies on `MessagePart::headers` / `Header::name` /
/// `HeaderValue::as_text`: one header of one attachment part; present
/// exactly for indexes below that part's header count.
#[verifier::external_body]
fn mail_attachment_header(raw: &[u8], i: usize, j: usize) -> (r: Option<(String, String)>)
    ensures
        r.deep_view() == attachment_header_of(raw@, i as int, j as int),
        mail_parses(raw@) && i < attachment_count_of(raw@) && j < attachment_header_count_of(
            raw@,
            i as int,
        ) ==> r is Some,
{
    match mail_parser::MessageParser::default().parse(raw) {
        None => None,
        Some(m) => m.attachments().nth(i).and_then(|a| a.headers.get(j)).map(
            |h| (h.name().to_string(), h.value().as_text().unwrap_or_default().to_string()),
        ),
    }
}

// ---------------------------------------------------------------------------
// The decomposer
// ---------------------------------------------------------------------------

/// Strips angle brackets inside an optional identifier.
pub open spec fn opt_strip(o: Option<Seq<char>>) -> Option<Seq<char>> {
    match o {
        Some(s) => Some(spec_strip_angle(s)),
        None => None,
    }
}

/// The message's header rows, in order.
pub open spec fn spec_flat_headers(raw: Seq<u8>) -> Seq<(Seq<char>, Seq<char>)> {
    Seq::new(header_count_of(raw) as nat, |i: int| header_of(raw, i)->0)
}

/// One attachment part's header rows, in order.
pub open spec fn spec_att_flat_headers(raw: Seq<u8>, i: int) -> Seq<(Seq<char>, Seq<char>)> {
    Seq::new(
        attachment_header_count_of(raw, i) as nat,
        |j: int| attachment_header_of(raw, i, j)->0,
    )
}

/// One decomposed attachment: the filename falls back to
/// Content-Description, the content type is joined as `type/subtype` with
/// the octet-stream default, the Content-ID loses its angle brackets, and
/// the part's headers are grouped by name.
pub open spec fn spec_attachment_view(raw: Seq<u8>, i: int) -> AttachmentView {
    let f = attachment_of(raw, i)->0;
    AttachmentView {
        filename: match f.name {
            Some(n) => Some(n),
            None => f.description,
        },
        mime_type: spec_mime_type(
            match f.ctype {
                Some(t) => Some((t, f.csubtype)),
                None => None,
            },
        ),
        data: attachment_data_of(raw, i),
        content_id: opt_strip(f.content_id),
        disposition: f.disposition,
        headers: spec_group(spec_att_flat_headers(raw, i)),
    }
}

/// The all-empty record an unparseable message degrades to.
pub open spec fn empty_details() -> DetailsView {
    DetailsView {
        attachments: Seq::empty(),
        message_id: None,
        subject: None,
        date: None,
        headers: None,
        body_text: Seq::empty(),
        body_html: Seq::empty(),
    }
}

/// What the decomposer extracts from raw bytes: the named parser results,
/// assembled — identifiers bracket-stripped, headers grouped with
/// multiplicity and order kept, the HTML body taken only when its declared
/// type is exactly `text/html`, and the all-empty record when the bytes do
/// not parse.
pub open spec fn spec_details_of(raw: Seq<u8>) -> DetailsView {
    if !mail_parses(raw) {
        empty_details()
    } else {
        DetailsView {
            attachments: Seq::new(
                attachment_count_of(raw) as nat,
                |i: int| spec_attachment_view(raw, i),
            ),
            message_id: opt_strip(message_id_of(raw)),
            subject: subject_of(raw),
            date: date_of(raw),
            headers: Some(spec_group(spec_flat_headers(raw))),
            body_text: match body_text_of(raw) {
                Some(t) => t,
                None => Seq::empty(),
            },
            body_html: if is_exact_html(html_ctype_of(raw)) {
                match body_html_of(raw) {
                    Some(h) => h,
                    None => Seq::empty(),
                }
            } else {
                Seq::empty()
            },
        }
    }
}

fn collect_message_headers(bytes: &[u8], count: usize) -> (r: Vec<(String, String)>)
    requires
        mail_parses(bytes@),
        count == header_count_of(bytes@),
    ensures
        r.deep_view() == spec_flat_headers(bytes@),
{
    let mut flat: Vec<(String, String)> = Vec::new();
    let mut i: usize = 0;
    while i < count
        invariant
            mail_parses(bytes@),
            count == header_count_of(bytes@),
            i <= count,
            flat@.len() == i,
            forall|k: int|
                0 <= k < i ==> #[trigger] flat.deep_view()[k] == header_of(bytes@, k)->0,
        decreases count - i,
    {
        let pair = match mail_header(bytes, i) {
            Some(p) => p,
            None => {
                return vstd::pervasive::unreached();
            },
        };
        let ghost pv = (pair.0@, pair.1@);
        let ghost prev = flat@;
        let ghost prev_deep = flat.deep_view();
        flat.push(pair);
        proof {
            assert forall|k: int| 0 <= k < flat@.len() implies #[trigger] flat.deep_view()[k] == (
            prev_deep.push(pv))[k] by {
                if k < prev.len() {
                    assert(flat@[k] == prev[k]);
                    assert(prev_deep[k] == prev[k].deep_view());
                }
            }
        }
        i += 1;
    }
    proof {
        assert(flat.deep_view() =~= spec_flat_headers(bytes@));
    }
    flat
}

fn collect_attachment_headers(bytes: &[u8], i: usize) -> (r: Vec<(String, String)>)
    requires
        mail_parses(bytes@),
        i < attachment_count_of(bytes@),
    ensures
        r.deep_view() == spec_att_flat_headers(bytes@, i as int),
{
    let count = mail_attachment_header_count(bytes, i);
    let mut flat: Vec<(String, String)> = Vec::new();
    let mut j: usize = 0;
    while j < count
        invariant
            mail_parses(bytes@),
            i < attachment_count_of(bytes@),
            count == attachment_header_count_of(bytes@, i as int),
            j <= count,
            flat@.len() == j,
            forall|k: int|
                0 <= k < j ==> #[trigger] flat.deep_view()[k] == attachment_header_of(
                    bytes@,
                    i as int,
                    k,
                )->0,
        decreases count - j,
    {
        let pair = match mail_attachment_header(bytes, i, j) {
            Some(p) => p,
            None => {
                return vstd::pervasive::unreached();
            },
        };
        let ghost pv = (pair.0@, pair.1@);
        let ghost prev = flat@;
        let ghost prev_deep = flat.deep_view();
        flat.push(pair);
        proof {
            assert forall|k: int| 0 <= k < flat@.len() implies #[trigger] flat.deep_view()[k] == (
            prev_deep.push(pv))[k] by {
                if k < prev.len() {
                    assert(flat@[k] == prev[k]);
                    assert(prev_deep[k] == prev[k].deep_view());
                }
            }
        }
        j += 1;
    }
    proof {
        assert(flat.deep_view() =~= spec_att_flat_headers(bytes@, i as int));
    }
    flat
}

fn collect_attachments(bytes: &[u8], count: usize) -> (r: Vec<EmailAttachment>)
    requires
        mail_parses(bytes@),
        count == attachment_count_of(bytes@),
    ensures
        r.deep_view() == Seq::new(count as nat, |i: int| spec_attachment_view(bytes@, i)),
{
    let mut attachments: Vec<EmailAttachment> = Vec::new();
    let mut i: usize = 0;
    while i < count
        invariant
            mail_parses(bytes@),
            count == attachment_count_of(bytes@),
            i <= count,
            attachments@.len() == i,
            forall|k: int|
                0 <= k < i ==> #[trigger] attachments.deep_view()[k] == spec_attachment_view(
                    bytes@,
                    k,
                ),
        decreases count - i,
    {
        let facts = match mail_attachment(bytes, i) {
            Some(f) => f,
            None => {
                return vstd::pervasive::unreached();
            },
        };
        let AttFacts { name, description, ctype, csubtype, content_id, disposition } = facts;
        let filename = match name {
            Some(n) => Some(n),
            None => description,
        };
        let mime_type = mime_type_of(
            match ctype {
                Some(t) => Some((t, csubtype)),
                None => None,
            },
        );
        let bare_cid = match content_id {
            Some(cid) => Some(strip_angle_string(cid.as_str())),
            None => None,
        };
        let data = mail_attachment_data(bytes, i);
        let flat = collect_attachment_headers(bytes, i);
        let headers = group_headers(&flat);
        let att = EmailAttachment {
            filename,
            mime_type,
            data,
            content_id: bare_cid,
            disposition,
            headers,
        };
        proof {
            assert(att@ =~~= spec_attachment_view(bytes@, i as int));
        }
        let ghost av = att@;
        let ghost prev = attachments@;
        let ghost prev_deep = attachments.deep_view();
        attachments.push(att);
        proof {
            assert forall|k: int| 0 <= k < attachments@.len() implies
                #[trigger] attachments.deep_view()[k] == (prev_deep.push(av))[k] by {
                if k < prev.len() {
                    assert(attachments@[k] == prev[k]);
                    assert(prev_deep[k] == prev[k].deep_view());
                }
            }
        }
        i += 1;
    }
    proof {
        assert(attachments.deep_view() =~= Seq::new(
            count as nat,
            |i: int| spec_attachment_view(bytes@, i),
        ));
    }
    attachments
}

/// Decomposes raw RFC 822 bytes into headers, bodies and attachments,
/// exactly as `spec_details_of` names them. An unparseable message never
/// fails: it degrades to the all-empty record, as inbound raw mail is
/// untrusted input.
pub fn parse_email_details(raw: &str) -> (r: ParsedEmailDetails)
    ensures
        r@ == spec_details_of(vstd::utf8::encode_utf8(raw@)),
{
    let bytes = raw.as_bytes();
    let facts = match mail_facts(bytes) {
        Some(f) => f,
        None => {
            let r = ParsedEmailDetails {
                attachments: Vec::new(),
                message_id: None,
                subject: None,
                date: None,
                headers: None,
                body_text: String::new(),
                body_html: String::new(),
            };
            proof {
                assert(r@ =~~= empty_details());
            }
            return r;
        },
    };
    let flat = collect_message_headers(bytes, facts.header_count);
    let headers = group_headers(&flat);
    let body_text = match facts.body_text {
        Some(s) => s,
        None => String::new(),
    };
    let mut body_html = String::new();
    let exact_html = match mail_html_ctype(bytes) {
        Some((t, Some(st))) => str_eq(t.as_str(), "text") && str_eq(st.as_str(), "html"),
        _ => false,
    };
    if exact_html {
        match facts.body_html {
            Some(h) => {
                body_html = h;
            },
            None => {},
        }
    }
    let attachments = collect_attachments(bytes, facts.attachment_count);
    let message_id = match facts.message_id {
        Some(mid) => Some(strip_angle_string(mid.as_str())),
        None => None,
    };
    let r = ParsedEmailDetails {
        attachments,
        message_id,
        subject: facts.subject,
        date: facts.date,
        headers: Some(headers),
        body_text,
        body_html,
    };
    proof {
        assert(r@ =~~= spec_details_of(bytes@));
    }
    r
}

} // verus!
