//! The persistence gateway and read-side queries, over an in-memory
//! relational model: email rows, unique envelope recipients, a many-to-many
//! join, attachment rows and header rows. A save writes one email with all
//! its dependents in one step; reads project records, filter through the
//! search grammar, paginate, and count.

use crate::cid::{process_html_body, spec_process_html};
use crate::compression::{compress, decompress, gzip_of};
use crate::encoding::{new_uuid, string_from_utf8};
use crate::mail::{spec_group, AttachmentView, HeaderMap};
use crate::session::{Email, EmailView};
use crate::strings::{chars_blank, clone_string_vec, is_blank, lex_lt, lex_lt_exec, str_chars, str_eq};
use vstd::prelude::*;
use vstd::utf8::encode_utf8;

verus! {

// ---------------------------------------------------------------------------
// Errors
// ---------------------------------------------------------------------------

/// Failures of the persistence gateway: a write that could not be applied, a
/// missing id, and stored bytes that could not be decoded when a read needed
/// text.
#[derive(Debug)]
pub enum StoreError {
    Storage,
    NotFound,
    InvalidData,
}

// ---------------------------------------------------------------------------
// Rows and their views
// ---------------------------------------------------------------------------

#[verifier::ext_equal]
pub struct EmailRowV {
    pub id: Seq<char>,
    pub message_id: Option<Seq<char>>,
    pub subject: Option<Seq<char>>,
    pub date: Option<i64>,
    pub envelope_from: Seq<char>,
    pub size: u64,
    pub compressed_data: Seq<u8>,
    pub plain_data: Seq<char>,
    pub body_text: Seq<char>,
    pub body_html: Seq<char>,
    pub rendered_body_html: Option<Seq<char>>,
    pub read: bool,
    pub has_attachments: bool,
    pub created_at: i64,
}

/// One durable email row; the raw wire bytes are stored gzip-compressed, and
/// the text they compress is carried alongside as a ghost value.
pub struct StoredEmail {
    pub id: String,
    pub message_id: Option<String>,
    pub subject: Option<String>,
    pub date: Option<i64>,
    pub envelope_from: String,
    pub size: u64,
    pub compressed_data: Vec<u8>,
    pub plain_data: Ghost<Seq<char>>,
    pub body_text: String,
    pub body_html: String,
    pub rendered_body_html: Option<String>,
    pub read: bool,
    pub has_attachments: bool,
    pub created_at: i64,
}

impl View for StoredEmail {
    type V = EmailRowV;

    open spec fn view(&self) -> EmailRowV {
        EmailRowV {
            id: self.id@,
            message_id: self.message_id.deep_view(),
            subject: self.subject.deep_view(),
            date: self.date,
            envelope_from: self.envelope_from@,
            size: self.size,
            compressed_data: self.compressed_data@,
            plain_data: self.plain_data@,
            body_text: self.body_text@,
            body_html: self.body_html@,
            rendered_body_html: self.rendered_body_html.deep_view(),
            read: self.read,
            has_attachments: self.has_attachments,
            created_at: self.created_at,
        }
    }
}

impl DeepView for StoredEmail {
    type V = EmailRowV;

    open spec fn deep_view(&self) -> EmailRowV {
        self.view()
    }
}

#[verifier::ext_equal]
pub struct RecipientRowV {
    pub id: Seq<char>,
    pub address: Seq<char>,
}

/// One envelope recipient, keyed uniquely on the address literal.
pub struct RecipientRow {
    pub id: String,
    pub address: String,
}

impl View for RecipientRow {
    type V = RecipientRowV;

    open spec fn view(&self) -> RecipientRowV {
        RecipientRowV { id: self.id@, address: self.address@ }
    }
}

impl DeepView for RecipientRow {
    type V = RecipientRowV;

    open spec fn deep_view(&self) -> RecipientRowV {
        self.view()
    }
}

#[verifier::ext_equal]
pub struct JoinRowV {
    pub email_id: Seq<char>,
    pub recipient_id: Seq<char>,
}

/// The many-to-many join between emails and envelope recipients; the pair is
/// the key and is never duplicated.
pub struct JoinRow {
    pub email_id: String,
    pub recipient_id: String,
}

impl View for JoinRow {
    type V = JoinRowV;

    open spec fn view(&self) -> JoinRowV {
        JoinRowV { email_id: self.email_id@, recipient_id: self.recipient_id@ }
    }
}

impl DeepView for JoinRow {
    type V = JoinRowV;

    open spec fn deep_view(&self) -> JoinRowV {
        self.view()
    }
}

#[verifier::ext_equal]
pub struct AttachmentRowV {
    pub id: Seq<char>,
    pub email_id: Seq<char>,
    pub filename: Option<Seq<char>>,
    pub mime_type: Seq<char>,
    pub compressed_data: Seq<u8>,
    pub plain_data: Seq<u8>,
    pub size: u64,
    pub content_id: Option<Seq<char>>,
    pub disposition: Option<Seq<char>>,
    pub created_at: i64,
}

/// One attachment row; the payload is stored gzip-compressed, the plain
/// bytes carried alongside as a ghost value.
pub struct AttachmentRow {
    pub id: String,
    pub email_id: String,
    pub filename: Option<String>,
    pub mime_type: String,
    pub compressed_data: Vec<u8>,
    pub plain_data: Ghost<Seq<u8>>,
    pub size: u64,
    pub content_id: Option<String>,
    pub disposition: Option<String>,
    pub created_at: i64,
}

impl View for AttachmentRow {
    type V = AttachmentRowV;

    open spec fn view(&self) -> AttachmentRowV {
        AttachmentRowV {
            id: self.id@,
            email_id: self.email_id@,
            filename: self.filename.deep_view(),
            mime_type: self.mime_type@,
            compressed_data: self.compressed_data@,
            plain_data: self.plain_data@,
            size: self.size,
            content_id: self.content_id.deep_view(),
            disposition: self.disposition.deep_view(),
            created_at: self.created_at,
        }
    }
}

impl DeepView for AttachmentRow {
    type V = AttachmentRowV;

    open spec fn deep_view(&self) -> AttachmentRowV {
        self.view()
    }
}

#[verifier::ext_equal]
pub struct HeaderRowV {
    pub email_id: Seq<char>,
    pub name: Seq<char>,
    pub value: Seq<char>,
    pub created_at: i64,
}

/// One header occurrence of one email.
pub struct HeaderRow {
    pub email_id: String,
    pub name: String,
    pub value: String,
    pub created_at: i64,
}

impl View for HeaderRow {
    type V = HeaderRowV;

    open spec fn view(&self) -> HeaderRowV {
        HeaderRowV {
            email_id: self.email_id@,
            name: self.name@,
            value: self.value@,
            created_at: self.created_at,
        }
    }
}

impl DeepView for HeaderRow {
    type V = HeaderRowV;

    open spec fn deep_view(&self) -> HeaderRowV {
        self.view()
    }
}

#[verifier::ext_equal]
pub struct StoreV {
    pub emails: Seq<EmailRowV>,
    pub recipients: Seq<RecipientRowV>,
    pub joins: Seq<JoinRowV>,
    pub attachments: Seq<AttachmentRowV>,
    pub headers: Seq<HeaderRowV>,
}

/// The store: five relations, written together by `save_email` and read by
/// the query operations.
pub struct MailStore {
    pub emails: Vec<StoredEmail>,
    pub recipients: Vec<RecipientRow>,
    pub joins: Vec<JoinRow>,
    pub attachments: Vec<AttachmentRow>,
    pub headers: Vec<HeaderRow>,
}

impl View for MailStore {
    type V = StoreV;

    open spec fn view(&self) -> StoreV {
        StoreV {
            emails: self.emails.deep_view(),
            recipients: self.recipients.deep_view(),
            joins: self.joins.deep_view(),
            attachments: self.attachments.deep_view(),
            headers: self.headers.deep_view(),
        }
    }
}

// ---------------------------------------------------------------------------
// Well-formedness: the relational invariants
// ---------------------------------------------------------------------------

pub open spec fn has_email(s: StoreV, id: Seq<char>) -> bool {
    exists|k: int| 0 <= k < s.emails.len() && (#[trigger] s.emails[k]).id == id
}

pub open spec fn has_recipient_id(rs: Seq<RecipientRowV>, id: Seq<char>) -> bool {
    exists|k: int| 0 <= k < rs.len() && (#[trigger] rs[k]).id == id
}

pub open spec fn has_join(js: Seq<JoinRowV>, email_id: Seq<char>, recipient_id: Seq<char>) -> bool {
    exists|k: int|
        0 <= k < js.len() && (#[trigger] js[k]).email_id == email_id && js[k].recipient_id
            == recipient_id
}

/// The store's invariants: unique email ids; recipients strictly sorted by
/// address (so addresses are unique) with unique ids; no duplicate join
/// pairs; and every dependent row referencing an existing email, every join
/// an existing recipient.
pub open spec fn store_wf(s: StoreV) -> bool {
    &&& forall|i: int, j: int|
        0 <= i < j < s.emails.len() ==> (#[trigger] s.emails[i]).id != (#[trigger] s.emails[j]).id
    &&& forall|i: int, j: int|
        0 <= i < j < s.recipients.len() ==> lex_lt(
            (#[trigger] s.recipients[i]).address,
            (#[trigger] s.recipients[j]).address,
        )
    &&& forall|i: int, j: int|
        0 <= i < j < s.recipients.len() ==> (#[trigger] s.recipients[i]).id
            != (#[trigger] s.recipients[j]).id
    &&& forall|i: int, j: int|
        0 <= i < j < s.joins.len() ==> !((#[trigger] s.joins[i]).email_id
            == (#[trigger] s.joins[j]).email_id && s.joins[i].recipient_id
            == s.joins[j].recipient_id)
    &&& forall|k: int|
        0 <= k < s.joins.len() ==> has_email(s, (#[trigger] s.joins[k]).email_id)
            && has_recipient_id(s.recipients, s.joins[k].recipient_id)
    &&& forall|i: int, j: int|
        0 <= i < j < s.attachments.len() ==> (#[trigger] s.attachments[i]).id
            != (#[trigger] s.attachments[j]).id
    &&& forall|k: int| 0 <= k < s.attachments.len() ==> has_email(s, (#[trigger] s.attachments[k]).email_id)
    &&& forall|k: int| 0 <= k < s.headers.len() ==> has_email(s, (#[trigger] s.headers[k]).email_id)
    &&& forall|k: int|
        0 <= k < s.attachments.len() ==> (#[trigger] s.attachments[k]).compressed_data == gzip_of(
            s.attachments[k].plain_data,
        )
    &&& forall|k: int|
        0 <= k < s.emails.len() ==> (#[trigger] s.emails[k]).compressed_data == gzip_of(
            encode_utf8(s.emails[k].plain_data),
        )
}

impl MailStore {
    /// An empty store.
    pub fn new() -> (r: MailStore)
        ensures
            r@ == (StoreV {
                emails: Seq::empty(),
                recipients: Seq::empty(),
                joins: Seq::empty(),
                attachments: Seq::empty(),
                headers: Seq::empty(),
            }),
            store_wf(r@),
    {
        let r = MailStore {
            emails: Vec::new(),
            recipients: Vec::new(),
            joins: Vec::new(),
            attachments: Vec::new(),
            headers: Vec::new(),
        };
        proof {
            assert(r@ =~~= (StoreV {
                emails: Seq::empty(),
                recipients: Seq::empty(),
                joins: Seq::empty(),
                attachments: Seq::empty(),
                headers: Seq::empty(),
            }));
        }
        r
    }
}

// ---------------------------------------------------------------------------
// The save transaction, as a constructive specification
// ---------------------------------------------------------------------------

/// The first recipient row holding the address.
pub open spec fn find_recipient(rs: Seq<RecipientRowV>, addr: Seq<char>) -> Option<int>
    decreases rs.len(),
{
    if rs.len() == 0 {
        None
    } else if rs.first().address == addr {
        Some(0)
    } else {
        match find_recipient(rs.drop_first(), addr) {
            Some(k) => Some(k + 1),
            None => None,
        }
    }
}

/// Insertion into the address-sorted recipient list, before the first row
/// whose address is greater.
pub open spec fn insert_sorted(rs: Seq<RecipientRowV>, row: RecipientRowV) -> Seq<RecipientRowV>
    decreases rs.len(),
{
    if rs.len() == 0 {
        seq![row]
    } else if lex_lt(row.address, rs.first().address) {
        seq![row] + rs
    } else {
        seq![rs.first()] + insert_sorted(rs.drop_first(), row)
    }
}

/// One RCPT address folded into the store: blank addresses are dropped; a
/// known address reuses its row; a new address is inserted in sorted order
/// under the given fresh id; the join is added unless the pair exists.
pub open spec fn add_one_recipient(
    s: StoreV,
    email_id: Seq<char>,
    addr: Seq<char>,
    fresh_rid: Seq<char>,
) -> StoreV {
    if is_blank(addr) {
        s
    } else {
        let (rs2, rid) = match find_recipient(s.recipients, addr) {
            Some(k) => (s.recipients, s.recipients[k].id),
            None => (
                insert_sorted(s.recipients, RecipientRowV { id: fresh_rid, address: addr }),
                fresh_rid,
            ),
        };
        let js2 = if has_join(s.joins, email_id, rid) {
            s.joins
        } else {
            s.joins.push(JoinRowV { email_id: email_id, recipient_id: rid })
        };
        StoreV { recipients: rs2, joins: js2, ..s }
    }
}

/// All RCPT addresses folded in, left to right.
pub open spec fn add_recipients(
    s: StoreV,
    email_id: Seq<char>,
    addrs: Seq<Seq<char>>,
    rids: Seq<Seq<char>>,
) -> StoreV
    decreases addrs.len(),
{
    if addrs.len() == 0 || rids.len() == 0 {
        s
    } else {
        add_recipients(
            add_one_recipient(s, email_id, addrs.first(), rids.first()),
            email_id,
            addrs.drop_first(),
            rids.drop_first(),
        )
    }
}

/// The attachment rows of one saved message, in order, one per attachment,
/// under the pre-generated ids.
pub open spec fn att_rows(
    atts: Seq<AttachmentView>,
    aids: Seq<Seq<char>>,
    email_id: Seq<char>,
    now: i64,
) -> Seq<AttachmentRowV>
    decreases atts.len(),
{
    if atts.len() == 0 || aids.len() == 0 {
        Seq::empty()
    } else {
        seq![
            AttachmentRowV {
                id: aids.first(),
                email_id: email_id,
                filename: atts.first().filename,
                mime_type: atts.first().mime_type,
                compressed_data: gzip_of(atts.first().data),
                plain_data: atts.first().data,
                size: atts.first().data.len() as u64,
                content_id: atts.first().content_id,
                disposition: atts.first().disposition,
                created_at: now,
            },
        ] + att_rows(atts.drop_first(), aids.drop_first(), email_id, now)
    }
}

/// The header rows one (name, values) entry contributes, in value order.
pub open spec fn name_rows(
    name: Seq<char>,
    values: Seq<Seq<char>>,
    email_id: Seq<char>,
    now: i64,
) -> Seq<HeaderRowV>
    decreases values.len(),
{
    if values.len() == 0 {
        Seq::empty()
    } else {
        seq![
            HeaderRowV { email_id: email_id, name: name, value: values.first(), created_at: now },
        ] + name_rows(name, values.drop_first(), email_id, now)
    }
}

/// The header rows of the whole header map, one per (name, value)
/// occurrence, names in map order and values in order.
pub open spec fn header_rows(
    h: Seq<(Seq<char>, Seq<Seq<char>>)>,
    email_id: Seq<char>,
    now: i64,
) -> Seq<HeaderRowV>
    decreases h.len(),
{
    if h.len() == 0 {
        Seq::empty()
    } else {
        name_rows(h.first().0, h.first().1, email_id, now) + header_rows(
            h.drop_first(),
            email_id,
            now,
        )
    }
}

/// The email row a message becomes: raw data compressed, rendered HTML from
/// the CID pipeline, read flag down.
pub open spec fn save_email_row(m: EmailView, aids: Seq<Seq<char>>, now: i64) -> EmailRowV {
    EmailRowV {
        id: m.id,
        message_id: m.message_id,
        subject: m.subject,
        date: m.date,
        envelope_from: m.from,
        size: m.size,
        compressed_data: gzip_of(encode_utf8(m.data)),
        plain_data: m.data,
        body_text: m.body_text,
        body_html: m.body_html,
        rendered_body_html: spec_process_html(m.body_html, m.attachments, aids),
        read: false,
        has_attachments: m.attachments.len() > 0,
        created_at: now,
    }
}

/// The whole transaction: one email row, the recipient/join fold over the
/// envelope, the attachment rows, the header rows.
pub open spec fn spec_save(
    pre: StoreV,
    m: EmailView,
    aids: Seq<Seq<char>>,
    rids: Seq<Seq<char>>,
    now: i64,
) -> StoreV {
    let with_email = StoreV { emails: pre.emails.push(save_email_row(m, aids, now)), ..pre };
    let with_recipients = add_recipients(with_email, m.id, m.to, rids);
    StoreV {
        attachments: with_recipients.attachments + att_rows(m.attachments, aids, m.id, now),
        headers: with_recipients.headers + (match m.headers {
            Some(h) => header_rows(h, m.id, now),
            None => Seq::empty(),
        }),
        ..with_recipients
    }
}

/// Fresh recipient ids: pairwise distinct and absent from the store.
pub open spec fn fresh_rids(rs: Seq<RecipientRowV>, rids: Seq<Seq<char>>) -> bool {
    &&& forall|i: int, j: int| 0 <= i < j < rids.len() ==> rids[i] != rids[j]
    &&& forall|i: int| 0 <= i < rids.len() ==> !has_recipient_id(rs, #[trigger] rids[i])
}

pub open spec fn has_attachment_id(rows: Seq<AttachmentRowV>, id: Seq<char>) -> bool {
    exists|k: int| 0 <= k < rows.len() && (#[trigger] rows[k]).id == id
}

/// Fresh attachment ids: pairwise distinct and absent from the store.
pub open spec fn fresh_aids(rows: Seq<AttachmentRowV>, aids: Seq<Seq<char>>) -> bool {
    &&& forall|i: int, j: int| 0 <= i < j < aids.len() ==> aids[i] != aids[j]
    &&& forall|i: int| 0 <= i < aids.len() ==> !has_attachment_id(rows, #[trigger] aids[i])
}

pub open spec fn all_uuid_views(ids: Seq<Seq<char>>) -> bool {
    forall|i: int|
        0 <= i < ids.len() ==> crate::session::is_uuid_view(#[trigger] ids[i])
}

// ---------------------------------------------------------------------------
// Helper lemmas for the save fold
// ---------------------------------------------------------------------------

proof fn lemma_find_recipient(rs: Seq<RecipientRowV>, addr: Seq<char>)
    ensures
        match find_recipient(rs, addr) {
            Some(k) => 0 <= k < rs.len() && rs[k].address == addr && forall|j: int|
                0 <= j < k ==> (#[trigger] rs[j]).address != addr,
            None => forall|j: int| 0 <= j < rs.len() ==> (#[trigger] rs[j]).address != addr,
        },
    decreases rs.len(),
{
    if rs.len() > 0 && rs.first().address != addr {
        lemma_find_recipient(rs.drop_first(), addr);
        match find_recipient(rs.drop_first(), addr) {
            Some(k) => {
                assert(rs.drop_first()[k] == rs[k + 1]);
                assert forall|j: int| 0 <= j < k + 1 implies (#[trigger] rs[j]).address != addr by {
                    if j > 0 {
                        assert(rs.drop_first()[j - 1] == rs[j]);
                    }
                }
            },
            None => {
                assert forall|j: int| 0 <= j < rs.len() implies (#[trigger] rs[j]).address
                    != addr by {
                    if j > 0 {
                        assert(rs.drop_first()[j - 1] == rs[j]);
                    }
                }
            },
        }
    }
}

proof fn lemma_insert_sorted_at(rs: Seq<RecipientRowV>, row: RecipientRowV, pos: int)
    requires
        0 <= pos <= rs.len(),
        forall|j: int| 0 <= j < pos ==> !lex_lt(row.address, (#[trigger] rs[j]).address),
        pos < rs.len() ==> lex_lt(row.address, rs[pos as int].address),
    ensures
        insert_sorted(rs, row) == rs.take(pos) + seq![row] + rs.skip(pos),
    decreases rs.len(),
{
    if rs.len() == 0 {
        assert(insert_sorted(rs, row) =~= rs.take(0) + seq![row] + rs.skip(0));
    } else if pos == 0 {
        assert(insert_sorted(rs, row) =~= rs.take(0) + seq![row] + rs.skip(0));
    } else {
        assert(!lex_lt(row.address, rs.first().address));
        lemma_insert_sorted_at(rs.drop_first(), row, pos - 1);
        assert(rs.drop_first().take(pos - 1) =~= rs.take(pos).drop_first());
        assert(rs.drop_first().skip(pos - 1) =~= rs.skip(pos));
        assert(insert_sorted(rs, row) =~= rs.take(pos) + seq![row] + rs.skip(pos));
    }
}

proof fn lemma_add_recipients_snoc(
    s: StoreV,
    e: Seq<char>,
    addrs: Seq<Seq<char>>,
    rids: Seq<Seq<char>>,
    k: int,
)
    requires
        0 <= k < addrs.len(),
        k < rids.len(),
    ensures
        add_recipients(s, e, addrs.take(k + 1), rids.take(k + 1)) == add_one_recipient(
            add_recipients(s, e, addrs.take(k), rids.take(k)),
            e,
            addrs[k],
            rids[k],
        ),
    decreases k,
{
    if k == 0 {
        assert(addrs.take(1).len() == 1);
        assert(addrs.take(1).first() == addrs[0]);
        assert(rids.take(1).first() == rids[0]);
        assert(addrs.take(1).drop_first().len() == 0);
        assert(addrs.take(0).len() == 0);
        let s1 = add_one_recipient(s, e, addrs[0], rids[0]);
        assert(add_recipients(
            s1,
            e,
            addrs.take(1).drop_first(),
            rids.take(1).drop_first(),
        ) == s1);
        assert(add_recipients(s, e, addrs.take(1), rids.take(1)) == s1);
        assert(add_recipients(s, e, addrs.take(0), rids.take(0)) == s);
    } else {
        let s1 = add_one_recipient(s, e, addrs.first(), rids.first());
        lemma_add_recipients_snoc(s1, e, addrs.drop_first(), rids.drop_first(), k - 1);
        assert(addrs.take(k + 1).first() == addrs[0]);
        assert(rids.take(k + 1).first() == rids[0]);
        assert(addrs.take(k + 1).drop_first() =~= addrs.drop_first().take(k));
        assert(rids.take(k + 1).drop_first() =~= rids.drop_first().take(k));
        assert(addrs.take(k).first() == addrs[0]);
        assert(rids.take(k).first() == rids[0]);
        assert(addrs.take(k).drop_first() =~= addrs.drop_first().take(k - 1));
        assert(rids.take(k).drop_first() =~= rids.drop_first().take(k - 1));
        assert(addrs.drop_first()[k - 1] == addrs[k]);
        assert(rids.drop_first()[k - 1] == rids[k]);
        assert(addrs.take(k).len() > 0 && rids.take(k).len() > 0);
    }
}

proof fn lemma_att_rows_snoc(
    atts: Seq<AttachmentView>,
    aids: Seq<Seq<char>>,
    e: Seq<char>,
    now: i64,
    k: int,
)
    requires
        0 <= k < atts.len(),
        k < aids.len(),
    ensures
        att_rows(atts.take(k + 1), aids.take(k + 1), e, now) == att_rows(
            atts.take(k),
            aids.take(k),
            e,
            now,
        ).push(
            AttachmentRowV {
                id: aids[k],
                email_id: e,
                filename: atts[k].filename,
                mime_type: atts[k].mime_type,
                compressed_data: gzip_of(atts[k].data),
                plain_data: atts[k].data,
                size: atts[k].data.len() as u64,
                content_id: atts[k].content_id,
                disposition: atts[k].disposition,
                created_at: now,
            },
        ),
    decreases k,
{
    if k == 0 {
        assert(atts.take(1).first() == atts[0]);
        assert(aids.take(1).first() == aids[0]);
        assert(atts.take(1).drop_first().len() == 0);
        assert(att_rows(atts.take(1).drop_first(), aids.take(1).drop_first(), e, now)
            =~= Seq::<AttachmentRowV>::empty());
        assert(atts.take(0).len() == 0);
        assert(att_rows(atts.take(0), aids.take(0), e, now) =~= Seq::<AttachmentRowV>::empty());
        assert(att_rows(atts.take(1), aids.take(1), e, now) =~= att_rows(
            atts.take(0),
            aids.take(0),
            e,
            now,
        ).push(
            AttachmentRowV {
                id: aids[0],
                email_id: e,
                filename: atts[0].filename,
                mime_type: atts[0].mime_type,
                compressed_data: gzip_of(atts[0].data),
                plain_data: atts[0].data,
                size: atts[0].data.len() as u64,
                content_id: atts[0].content_id,
                disposition: atts[0].disposition,
                created_at: now,
            },
        ));
    } else {
        lemma_att_rows_snoc(atts.drop_first(), aids.drop_first(), e, now, k - 1);
        assert(atts.take(k + 1).first() == atts[0]);
        assert(aids.take(k + 1).first() == aids[0]);
        assert(atts.take(k + 1).drop_first() =~= atts.drop_first().take(k));
        assert(aids.take(k + 1).drop_first() =~= aids.drop_first().take(k));
        assert(atts.take(k).first() == atts[0]);
        assert(aids.take(k).first() == aids[0]);
        assert(atts.take(k).drop_first() =~= atts.drop_first().take(k - 1));
        assert(aids.take(k).drop_first() =~= aids.drop_first().take(k - 1));
        assert(atts.drop_first()[k - 1] == atts[k]);
        assert(aids.drop_first()[k - 1] == aids[k]);
        assert(att_rows(atts.take(k + 1), aids.take(k + 1), e, now) =~= att_rows(
            atts.take(k),
            aids.take(k),
            e,
            now,
        ).push(
            AttachmentRowV {
                id: aids[k],
                email_id: e,
                filename: atts[k].filename,
                mime_type: atts[k].mime_type,
                compressed_data: gzip_of(atts[k].data),
                plain_data: atts[k].data,
                size: atts[k].data.len() as u64,
                content_id: atts[k].content_id,
                disposition: atts[k].disposition,
                created_at: now,
            },
        ));
    }
}

proof fn lemma_header_rows_snoc(
    h: Seq<(Seq<char>, Seq<Seq<char>>)>,
    e: Seq<char>,
    now: i64,
    k: int,
)
    requires
        0 <= k < h.len(),
    ensures
        header_rows(h.take(k + 1), e, now) == header_rows(h.take(k), e, now) + name_rows(
            h[k].0,
            h[k].1,
            e,
            now,
        ),
    decreases k,
{
    if k == 0 {
        assert(h.take(1).first() == h[0]);
        assert(h.take(1).drop_first().len() == 0);
        assert(header_rows(h.take(1).drop_first(), e, now) =~= Seq::<HeaderRowV>::empty());
        assert(h.take(0).len() == 0);
        assert(header_rows(h.take(0), e, now) =~= Seq::<HeaderRowV>::empty());
        assert(header_rows(h.take(1), e, now) =~= header_rows(h.take(0), e, now) + name_rows(
            h[0].0,
            h[0].1,
            e,
            now,
        ));
    } else {
        lemma_header_rows_snoc(h.drop_first(), e, now, k - 1);
        assert(h.take(k + 1).first() == h[0]);
        assert(h.take(k + 1).drop_first() =~= h.drop_first().take(k));
        assert(h.take(k).first() == h[0]);
        assert(h.take(k).drop_first() =~= h.drop_first().take(k - 1));
        assert(h.drop_first()[k - 1] == h[k]);
        assert(header_rows(h.take(k + 1), e, now) =~= header_rows(h.take(k), e, now) + name_rows(
            h[k].0,
            h[k].1,
            e,
            now,
        ));
    }
}

proof fn lemma_name_rows_snoc(n: Seq<char>, vs: Seq<Seq<char>>, e: Seq<char>, now: i64, k: int)
    requires
        0 <= k < vs.len(),
    ensures
        name_rows(n, vs.take(k + 1), e, now) == name_rows(n, vs.take(k), e, now).push(
            HeaderRowV { email_id: e, name: n, value: vs[k], created_at: now },
        ),
    decreases k,
{
    if k == 0 {
        assert(vs.take(1).first() == vs[0]);
        assert(vs.take(1).drop_first().len() == 0);
        assert(name_rows(n, vs.take(1).drop_first(), e, now) =~= Seq::<HeaderRowV>::empty());
        assert(vs.take(0).len() == 0);
        assert(name_rows(n, vs.take(0), e, now) =~= Seq::<HeaderRowV>::empty());
        assert(name_rows(n, vs.take(1), e, now) =~= name_rows(n, vs.take(0), e, now).push(
            HeaderRowV { email_id: e, name: n, value: vs[0], created_at: now },
        ));
    } else {
        lemma_name_rows_snoc(n, vs.drop_first(), e, now, k - 1);
        assert(vs.take(k + 1).first() == vs[0]);
        assert(vs.take(k + 1).drop_first() =~= vs.drop_first().take(k));
        assert(vs.take(k).first() == vs[0]);
        assert(vs.take(k).drop_first() =~= vs.drop_first().take(k - 1));
        assert(vs.drop_first()[k - 1] == vs[k]);
        assert(name_rows(n, vs.take(k + 1), e, now) =~= name_rows(n, vs.take(k), e, now).push(
            HeaderRowV { email_id: e, name: n, value: vs[k], created_at: now },
        ));
    }
}

// ---------------------------------------------------------------------------
// Small executable helpers
// ---------------------------------------------------------------------------

fn clone_opt_string(o: &Option<String>) -> (r: Option<String>)
    ensures
        r.deep_view() == o.deep_view(),
{
    match o {
        Some(s) => Some(s.clone()),
        None => None,
    }
}

fn clone_bytes(v: &Vec<u8>) -> (r: Vec<u8>)
    ensures
        r@ == v@,
{
    let mut out: Vec<u8> = Vec::new();
    let n = v.len();
    let mut i: usize = 0;
    while i < n
        invariant
            n == v@.len(),
            i <= n,
            out@ == v@.take(i as int),
        decreases n - i,
    {
        out.push(v[i]);
        proof {
            assert(v@.take(i + 1) =~= v@.take(i as int).push(v@[i as int]));
        }
        i += 1;
    }
    assert(v@.take(n as int) =~= v@);
    out
}

fn gen_uuids(n: usize) -> (r: Vec<String>)
    ensures
        r.deep_view().len() == n,
        all_uuid_views(r.deep_view()),
{
    let mut out: Vec<String> = Vec::new();
    let mut i: usize = 0;
    while i < n
        invariant
            i <= n,
            out@.len() == i,
            all_uuid_views(out.deep_view()),
        decreases n - i,
    {
        let id = new_uuid();
        let ghost prev = out@;
        let ghost prev_deep = out.deep_view();
        out.push(id);
        proof {
            assert forall|k: int| 0 <= k < out.deep_view().len() implies crate::session::is_uuid_view(
                #[trigger] out.deep_view()[k],
            ) by {
                if k < prev.len() {
                    assert(out@[k] == prev[k]);
                    assert(prev_deep[k] == prev[k].deep_view());
                }
            }
        }
        i += 1;
    }
    out
}

fn email_index_of(emails: &Vec<StoredEmail>, id: &str) -> (r: Option<usize>)
    ensures
        match r {
            Some(k) => k < emails@.len() && emails.deep_view()[k as int].id == id@ && forall|j: int|
                0 <= j < k ==> (#[trigger] emails.deep_view()[j]).id != id@,
            None => forall|j: int|
                0 <= j < emails@.len() ==> (#[trigger] emails.deep_view()[j]).id != id@,
        },
{
    let n = emails.len();
    let mut i: usize = 0;
    while i < n
        invariant
            n == emails@.len(),
            i <= n,
            forall|j: int| 0 <= j < i ==> (#[trigger] emails.deep_view()[j]).id != id@,
        decreases n - i,
    {
        if str_eq(emails[i].id.as_str(), id) {
            assert(emails.deep_view()[i as int].id == id@);
            return Some(i);
        }
        proof {
            assert(emails.deep_view()[i as int].id == emails@[i as int].id@);
        }
        i += 1;
    }
    None
}


fn rids_are_fresh(recipients: &Vec<RecipientRow>, rids: &Vec<String>) -> (r: bool)
    ensures
        r == fresh_rids(recipients.deep_view(), rids.deep_view()),
{
    let ghost rsv = recipients.deep_view();
    let ghost idv = rids.deep_view();
    let n = rids.len();
    let mut i: usize = 0;
    while i < n
        invariant
            n == rids@.len(),
            rsv == recipients.deep_view(),
            idv == rids.deep_view(),
            idv.len() == n,
            rsv.len() == recipients@.len(),
            i <= n,
            forall|a: int, b: int| 0 <= a < b < i ==> idv[a] != idv[b],
            forall|a: int| 0 <= a < i ==> !has_recipient_id(rsv, #[trigger] idv[a]),
        decreases n - i,
    {
        let mut j: usize = 0;
        while j < i
            invariant
                i < n,
                n == rids@.len(),
                idv == rids.deep_view(),
                j <= i,
                forall|b: int| 0 <= b < j ==> idv[b] != idv[i as int],
            decreases i - j,
        {
            if str_eq(rids[j].as_str(), rids[i].as_str()) {
                proof {
                    assert(idv[j as int] == idv[i as int]);
                }
                return false;
            }
            j += 1;
        }
        let rn = recipients.len();
        let mut k: usize = 0;
        while k < rn
            invariant
                i < n,
                rn == recipients@.len(),
                rsv == recipients.deep_view(),
                idv == rids.deep_view(),
                idv.len() == n,
                k <= rn,
                forall|b: int| 0 <= b < k ==> (#[trigger] rsv[b]).id != idv[i as int],
            decreases rn - k,
        {
            if str_eq(recipients[k].id.as_str(), rids[i].as_str()) {
                proof {
                    assert(rsv[k as int].id == idv[i as int]);
                    assert(has_recipient_id(rsv, idv[i as int]));
                }
                return false;
            }
            proof {
                assert(rsv[k as int].id == recipients@[k as int].id@);
            }
            k += 1;
        }
        proof {
            assert(!has_recipient_id(rsv, idv[i as int])) by {
                if has_recipient_id(rsv, idv[i as int]) {
                    let w = choose|w: int|
                        0 <= w < rsv.len() && (#[trigger] rsv[w]).id == idv[i as int];
                    assert(false);
                }
            }
        }
        i += 1;
    }
    true
}

fn aids_are_fresh(attachments: &Vec<AttachmentRow>, aids: &Vec<String>) -> (r: bool)
    ensures
        r == fresh_aids(attachments.deep_view(), aids.deep_view()),
{
    let ghost av = attachments.deep_view();
    let ghost idv = aids.deep_view();
    let n = aids.len();
    let mut i: usize = 0;
    while i < n
        invariant
            n == aids@.len(),
            av == attachments.deep_view(),
            idv == aids.deep_view(),
            idv.len() == n,
            av.len() == attachments@.len(),
            i <= n,
            forall|a: int, b: int| 0 <= a < b < i ==> idv[a] != idv[b],
            forall|a: int| 0 <= a < i ==> !has_attachment_id(av, #[trigger] idv[a]),
        decreases n - i,
    {
        let mut j: usize = 0;
        while j < i
            invariant
                i < n,
                n == aids@.len(),
                idv == aids.deep_view(),
                j <= i,
                forall|b: int| 0 <= b < j ==> idv[b] != idv[i as int],
            decreases i - j,
        {
            if str_eq(aids[j].as_str(), aids[i].as_str()) {
                proof {
                    assert(idv[j as int] == idv[i as int]);
                }
                return false;
            }
            j += 1;
        }
        let rn = attachments.len();
        let mut k: usize = 0;
        while k < rn
            invariant
                i < n,
                rn == attachments@.len(),
                av == attachments.deep_view(),
                idv == aids.deep_view(),
                idv.len() == n,
                k <= rn,
                forall|b: int| 0 <= b < k ==> (#[trigger] av[b]).id != idv[i as int],
            decreases rn - k,
        {
            if str_eq(attachments[k].id.as_str(), aids[i].as_str()) {
                proof {
                    assert(av[k as int].id == idv[i as int]);
                    assert(has_attachment_id(av, idv[i as int]));
                }
                return false;
            }
            proof {
                assert(av[k as int].id == attachments@[k as int].id@);
            }
            k += 1;
        }
        proof {
            assert(!has_attachment_id(av, idv[i as int])) by {
                if has_attachment_id(av, idv[i as int]) {
                    let w = choose|w: int|
                        0 <= w < av.len() && (#[trigger] av[w]).id == idv[i as int];
                    assert(false);
                }
            }
        }
        i += 1;
    }
    true
}

/// Saves one accepted message and all of its dependents in one step:
/// attachment ids are generated up front so the rendered HTML can carry
/// final URLs; the email row, recipient rows and join rows, attachment rows
/// and header rows are all written, or nothing is on failure. A duplicate
/// email id is refused.
pub fn save_email(store: &mut MailStore, message: &Email, now: i64) -> (r: Result<
    String,
    StoreError,
>)
    ensures
        store_wf(old(store)@) ==> store_wf(final(store)@),
        r matches Err(e) ==> (e is Storage && final(store)@ == old(store)@),
        has_email(old(store)@, message@.id) ==> r is Err,
        r matches Ok(id) ==> ({
            &&& id@ == message@.id
            &&& !has_email(old(store)@, message@.id)
            &&& exists|aids: Seq<Seq<char>>, rids: Seq<Seq<char>>|
                {
                    &&& aids.len() == message@.attachments.len()
                    &&& rids.len() == message@.to.len()
                    &&& all_uuid_views(aids)
                    &&& all_uuid_views(rids)
                    &&& fresh_rids(old(store)@.recipients, rids)
                    &&& fresh_aids(old(store)@.attachments, aids)
                    &&& final(store)@ == spec_save(old(store)@, message@, aids, rids, now)
                }
        }),
{
    let ghost pre = store@;
    let ghost m = message@;
    // refuse a duplicate email id, as the primary key would
    match email_index_of(&store.emails, message.id.as_str()) {
        Some(_) => {
            return Err(StoreError::Storage);
        },
        None => {},
    }
    proof {
        if has_email(pre, m.id) {
            let w = choose|w: int| 0 <= w < pre.emails.len() && (#[trigger] pre.emails[w]).id == m.id;
            assert(false);
        }
    }
    // generate identifiers up front
    let aids = gen_uuids(message.attachments.len());
    let rids = gen_uuids(message.to.len());
    let ghost aidv = aids.deep_view();
    let ghost ridv = rids.deep_view();
    if !rids_are_fresh(&store.recipients, &rids) {
        return Err(StoreError::Storage);
    }
    if !aids_are_fresh(&store.attachments, &aids) {
        return Err(StoreError::Storage);
    }
    // the rendered body, with final attachment URLs
    let rendered = process_html_body(message.body_html.as_str(), &message.attachments, &aids);
    // the email row
    let packed = match compress(message.data.as_str().as_bytes()) {
        Ok(v) => v,
        Err(()) => {
            return vstd::pervasive::unreached();
        },
    };
    let row = StoredEmail {
        id: message.id.clone(),
        message_id: clone_opt_string(&message.message_id),
        subject: clone_opt_string(&message.subject),
        date: message.date,
        envelope_from: message.from.clone(),
        size: message.size,
        compressed_data: packed,
        plain_data: Ghost(message@.data),
        body_text: message.body_text.clone(),
        body_html: message.body_html.clone(),
        rendered_body_html: rendered,
        read: false,
        has_attachments: message.attachments.len() > 0,
        created_at: now,
    };
    proof {
        assert(row@ =~~= save_email_row(m, aidv, now));
    }
    let ghost row_view = row@;
    let ghost prev_emails = store.emails@;
    let ghost prev_emails_deep = store.emails.deep_view();
    store.emails.push(row);
    proof {
        assert forall|k: int| 0 <= k < store.emails@.len() implies
            #[trigger] store.emails.deep_view()[k] == pre.emails.push(row_view)[k] by {
            if k < prev_emails.len() {
                assert(store.emails@[k] == prev_emails[k]);
                assert(prev_emails_deep[k] == prev_emails[k].deep_view());
            }
        }
        assert(store.emails.deep_view() =~= pre.emails.push(row_view));
    }
    let ghost base = StoreV { emails: pre.emails.push(save_email_row(m, aidv, now)), ..pre };
    proof {
        assert(store@ =~~= base);
        assert(m.to.take(0).len() == 0);
        assert(add_recipients(base, m.id, m.to.take(0), ridv.take(0)) == base);
    }
    // recipients and joins
    let rcount = message.to.len();
    let mut k: usize = 0;
    while k < rcount
        invariant
            rcount == message@.to.len(),
            m == message@,
            ridv == rids.deep_view(),
            ridv.len() == rcount,
            rids@.len() == rcount,
            k <= rcount,
            store@ == add_recipients(base, m.id, m.to.take(k as int), ridv.take(k as int)),
        decreases rcount - k,
    {
        let ghost cur = store@;
        let addr = &message.to[k];
        proof {
            assert(message@.to[k as int] == message.to@[k as int]@);
        }
        let addr_chars = str_chars(addr.as_str());
        if !chars_blank(&addr_chars) {
            // find or insert the recipient
            let ghost rsv = store.recipients.deep_view();
            let rn = store.recipients.len();
            let mut i: usize = 0;
            let mut found: Option<usize> = None;
            while i < rn && found.is_none()
                invariant
                    rn == store.recipients@.len(),
                    rsv == store.recipients.deep_view(),
                    i <= rn,
                    found is None ==> forall|j: int|
                        0 <= j < i ==> (#[trigger] rsv[j]).address != addr@,
                    found matches Some(fi) ==> fi < rn && rsv[fi as int].address == addr@
                        && forall|j: int| 0 <= j < fi ==> (#[trigger] rsv[j]).address != addr@,
                decreases rn - i + (if found is None {
                    1int
                } else {
                    0int
                }),
            {
                proof {
                    assert(rsv[i as int].address == store.recipients@[i as int].address@);
                }
                if str_eq(store.recipients[i].address.as_str(), addr.as_str()) {
                    found = Some(i);
                } else {
                    i += 1;
                }
            }
            proof {
                lemma_find_recipient(rsv, addr@);
            }
            let rid: String;
            match found {
                Some(fi) => {
                    proof {
                        match find_recipient(rsv, addr@) {
                            Some(fk) => {
                                if fk < fi {
                                    assert(rsv[fk].address != addr@);
                                    assert(false);
                                }
                                if fi < fk {
                                    assert(rsv[fi as int].address != addr@);
                                    assert(false);
                                }
                            },
                            None => {
                                assert(rsv[fi as int].address != addr@);
                                assert(false);
                            },
                        }
                    }
                    rid = store.recipients[fi].id.clone();
                    proof {
                        assert(find_recipient(rsv, addr@) == Some(fi as int));
                        assert(rid@ == rsv[fi as int].id);
                    }
                },
                None => {
                    proof {
                        assert(i == rn);
                        match find_recipient(rsv, addr@) {
                            Some(fk) => {
                                assert(rsv[fk].address != addr@);
                                assert(false);
                            },
                            None => {},
                        }
                    }
                    // sorted insertion position
                    let mut pos: usize = 0;
                    while pos < rn && !lex_lt_exec(
                        &addr_chars,
                        &str_chars(store.recipients[pos].address.as_str()),
                    )
                        invariant
                            rn == store.recipients@.len(),
                            rsv == store.recipients.deep_view(),
                            addr_chars@ == addr@,
                            pos <= rn,
                            forall|j: int|
                                0 <= j < pos ==> !lex_lt(addr@, (#[trigger] rsv[j]).address),
                        decreases rn - pos,
                    {
                        proof {
                            assert(rsv[pos as int].address == store.recipients@[
                                pos as int].address@);
                        }
                        pos += 1;
                    }
                    proof {
                        if pos < rn {
                            assert(rsv[pos as int].address == store.recipients@[
                                pos as int].address@);
                            assert(lex_lt(addr@, rsv[pos as int].address));
                        }
                    }
                    let fresh = RecipientRow { id: rids[k].clone(), address: addr.clone() };
                    proof {
                        assert(fresh@ == (RecipientRowV { id: ridv[k as int], address: addr@ }));
                    }
                    let ghost prev_rs = store.recipients@;
                    let ghost prev_rs_deep = store.recipients.deep_view();
                    store.recipients.insert(pos, fresh);
                    proof {
                        lemma_insert_sorted_at(
                            rsv,
                            RecipientRowV { id: ridv[k as int], address: addr@ },
                            pos as int,
                        );
                        assert forall|j: int| 0 <= j < store.recipients@.len() implies
                            #[trigger] store.recipients.deep_view()[j] == insert_sorted(
                            rsv,
                            RecipientRowV { id: ridv[k as int], address: addr@ },
                        )[j] by {
                            assert(store.recipients@ == prev_rs.insert(
                                pos as int,
                                store.recipients@[pos as int],
                            ));
                            if j < pos {
                                assert(store.recipients@[j] == prev_rs[j]);
                                assert(prev_rs_deep[j] == prev_rs[j].deep_view());
                            } else if j > pos {
                                assert(store.recipients@[j] == prev_rs[j - 1]);
                                assert(prev_rs_deep[j - 1] == prev_rs[j - 1].deep_view());
                            }
                        }
                        assert(store.recipients.deep_view() =~= insert_sorted(
                            rsv,
                            RecipientRowV { id: ridv[k as int], address: addr@ },
                        ));
                    }
                    rid = rids[k].clone();
                },
            }
            // the join, unless the pair exists
            let ghost jsv = store.joins.deep_view();
            let jn = store.joins.len();
            let mut ji: usize = 0;
            let mut join_present: bool = false;
            while ji < jn && !join_present
                invariant
                    m == message@,
                    jn == store.joins@.len(),
                    jsv == store.joins.deep_view(),
                    ji <= jn,
                    !join_present ==> forall|j: int|
                        0 <= j < ji ==> !((#[trigger] jsv[j]).email_id == m.id
                            && jsv[j].recipient_id == rid@),
                    join_present ==> has_join(jsv, m.id, rid@),
                decreases jn - ji + (if join_present {
                    0int
                } else {
                    1int
                }),
            {
                proof {
                    assert(jsv[ji as int] == (JoinRowV {
                        email_id: store.joins@[ji as int].email_id@,
                        recipient_id: store.joins@[ji as int].recipient_id@,
                    }));
                }
                if str_eq(store.joins[ji].email_id.as_str(), message.id.as_str()) && str_eq(
                    store.joins[ji].recipient_id.as_str(),
                    rid.as_str(),
                ) {
                    join_present = true;
                    proof {
                        assert(jsv[ji as int].email_id == m.id && jsv[ji as int].recipient_id
                            == rid@);
                        assert(has_join(jsv, m.id, rid@));
                    }
                } else {
                    ji += 1;
                }
            }
            if !join_present {
                proof {
                    if has_join(jsv, m.id, rid@) {
                        let w = choose|w: int|
                            0 <= w < jsv.len() && (#[trigger] jsv[w]).email_id == m.id
                                && jsv[w].recipient_id == rid@;
                        assert(false);
                    }
                }
                let nj = JoinRow { email_id: message.id.clone(), recipient_id: rid.clone() };
                let ghost prev_js = store.joins@;
                let ghost prev_js_deep = store.joins.deep_view();
                store.joins.push(nj);
                proof {
                    assert forall|j: int| 0 <= j < store.joins@.len() implies
                        #[trigger] store.joins.deep_view()[j] == jsv.push(
                        JoinRowV { email_id: m.id, recipient_id: rid@ },
                    )[j] by {
                        if j < prev_js.len() {
                            assert(store.joins@[j] == prev_js[j]);
                            assert(prev_js_deep[j] == prev_js[j].deep_view());
                        }
                    }
                    assert(store.joins.deep_view() =~= jsv.push(
                        JoinRowV { email_id: m.id, recipient_id: rid@ },
                    ));
                }
            }
            proof {
                assert(store@ =~~= add_one_recipient(cur, m.id, m.to[k as int], ridv[k as int]));
            }
        } else {
            proof {
                assert(is_blank(m.to[k as int]));
                assert(add_one_recipient(cur, m.id, m.to[k as int], ridv[k as int]) == cur);
            }
        }
        proof {
            lemma_add_recipients_snoc(base, m.id, m.to, ridv, k as int);
        }
        k += 1;
    }
    proof {
        assert(m.to.take(rcount as int) =~= m.to);
        assert(ridv.take(rcount as int) =~= ridv);
    }
    let ghost with_recipients = add_recipients(base, m.id, m.to, ridv);
    // attachment rows
    let ghost base_atts = store.attachments.deep_view();
    let acount = message.attachments.len();
    let mut ai: usize = 0;
    proof {
        assert(m.attachments.take(0).len() == 0);
        assert(att_rows(m.attachments.take(0), aidv.take(0), m.id, now) =~= Seq::<
            AttachmentRowV,
        >::empty());
        assert(base_atts + att_rows(m.attachments.take(0), aidv.take(0), m.id, now) =~= base_atts);
    }
    while ai < acount
        invariant
            acount == message@.attachments.len(),
            m == message@,
            aidv == aids.deep_view(),
            aidv.len() == acount,
            aids@.len() == acount,
            ai <= acount,
            store.attachments.deep_view() == base_atts + att_rows(
                m.attachments.take(ai as int),
                aidv.take(ai as int),
                m.id,
                now,
            ),
            store.emails.deep_view() == with_recipients.emails,
            store.recipients.deep_view() == with_recipients.recipients,
            store.joins.deep_view() == with_recipients.joins,
            store.headers.deep_view() == with_recipients.headers,
        decreases acount - ai,
    {
        let att = &message.attachments[ai];
        proof {
            assert(message@.attachments[ai as int] == message.attachments@[ai as int]@);
        }
        let packed_att = match compress(att.data.as_slice()) {
            Ok(v) => v,
            Err(()) => {
                return vstd::pervasive::unreached();
            },
        };
        let arow = AttachmentRow {
            id: aids[ai].clone(),
            email_id: message.id.clone(),
            filename: clone_opt_string(&att.filename),
            mime_type: att.mime_type.clone(),
            compressed_data: packed_att,
            plain_data: Ghost(att@.data),
            size: att.data.len() as u64,
            content_id: clone_opt_string(&att.content_id),
            disposition: clone_opt_string(&att.disposition),
            created_at: now,
        };
        let ghost arow_view = arow@;
        proof {
            assert(arow_view =~~= (AttachmentRowV {
                id: aidv[ai as int],
                email_id: m.id,
                filename: m.attachments[ai as int].filename,
                mime_type: m.attachments[ai as int].mime_type,
                compressed_data: gzip_of(m.attachments[ai as int].data),
                plain_data: m.attachments[ai as int].data,
                size: m.attachments[ai as int].data.len() as u64,
                content_id: m.attachments[ai as int].content_id,
                disposition: m.attachments[ai as int].disposition,
                created_at: now,
            }));
        }
        let ghost prev_as = store.attachments@;
        let ghost prev_as_deep = store.attachments.deep_view();
        store.attachments.push(arow);
        proof {
            assert forall|j: int| 0 <= j < store.attachments@.len() implies
                #[trigger] store.attachments.deep_view()[j] == prev_as_deep.push(arow_view)[j] by {
                if j < prev_as.len() {
                    assert(store.attachments@[j] == prev_as[j]);
                    assert(prev_as_deep[j] == prev_as[j].deep_view());
                }
            }
            assert(store.attachments.deep_view() =~= prev_as_deep.push(arow_view));
            lemma_att_rows_snoc(m.attachments, aidv, m.id, now, ai as int);
            assert(store.attachments.deep_view() =~= base_atts + att_rows(
                m.attachments.take(ai + 1),
                aidv.take(ai + 1),
                m.id,
                now,
            ));
        }
        ai += 1;
    }
    proof {
        assert(m.attachments.take(acount as int) =~= m.attachments);
        assert(aidv.take(acount as int) =~= aidv);
    }
    // header rows
    let ghost base_headers = store.headers.deep_view();
    match &message.headers {
        Some(hmap) => {
            let ghost hv = hmap.deep_view();
            proof {
                assert(m.headers == Some(hv));
                assert(hv.take(0).len() == 0);
                assert(header_rows(hv.take(0), m.id, now) =~= Seq::<HeaderRowV>::empty());
                assert(base_headers + header_rows(hv.take(0), m.id, now) =~= base_headers);
            }
            let hcount = hmap.len();
            let mut hi: usize = 0;
            while hi < hcount
                invariant
                    hcount == hmap@.len(),
                    hv == hmap.deep_view(),
                    hv.len() == hcount,
                    m == message@,
                    hi <= hcount,
                    store.headers.deep_view() == base_headers + header_rows(
                        hv.take(hi as int),
                        m.id,
                        now,
                    ),
                    store.emails.deep_view() == with_recipients.emails,
                    store.recipients.deep_view() == with_recipients.recipients,
                    store.joins.deep_view() == with_recipients.joins,
                    store.attachments.deep_view() == with_recipients.attachments + att_rows(
                        m.attachments,
                        aidv,
                        m.id,
                        now,
                    ),
                decreases hcount - hi,
            {
                let ghost name_v = hv[hi as int].0;
                let ghost vals_v = hv[hi as int].1;
                proof {
                    assert(hv[hi as int] == (hmap@[hi as int].0@, hmap@[hi as int].1.deep_view()));
                }
                let vcount = hmap[hi].1.len();
                let mut vi: usize = 0;
                proof {
                    assert(vals_v.take(0).len() == 0);
                    assert(name_rows(name_v, vals_v.take(0), m.id, now) =~= Seq::<
                        HeaderRowV,
                    >::empty());
                }
                let ghost header_base = store.headers.deep_view();
                while vi < vcount
                    invariant
                        vcount == hmap@[hi as int].1@.len(),
                        hi < hcount,
                        hcount == hmap@.len(),
                        hv == hmap.deep_view(),
                        name_v == hv[hi as int].0,
                        vals_v == hv[hi as int].1,
                        vals_v.len() == vcount,
                        m == message@,
                        vi <= vcount,
                        store.headers.deep_view() == header_base + name_rows(
                            name_v,
                            vals_v.take(vi as int),
                            m.id,
                            now,
                        ),
                        store.emails.deep_view() == with_recipients.emails,
                        store.recipients.deep_view() == with_recipients.recipients,
                        store.joins.deep_view() == with_recipients.joins,
                        store.attachments.deep_view() == with_recipients.attachments + att_rows(
                            m.attachments,
                            aidv,
                            m.id,
                            now,
                        ),
                    decreases vcount - vi,
                {
                    proof {
                        assert(vals_v[vi as int] == hmap@[hi as int].1@[vi as int]@);
                    }
                    let hrow = HeaderRow {
                        email_id: message.id.clone(),
                        name: hmap[hi].0.clone(),
                        value: hmap[hi].1[vi].clone(),
                        created_at: now,
                    };
                    let ghost hrow_view = hrow@;
                    proof {
                        assert(hrow_view =~~= (HeaderRowV {
                            email_id: m.id,
                            name: name_v,
                            value: vals_v[vi as int],
                            created_at: now,
                        }));
                    }
                    let ghost prev_hs = store.headers@;
                    let ghost prev_hs_deep = store.headers.deep_view();
                    store.headers.push(hrow);
                    proof {
                        assert forall|j: int| 0 <= j < store.headers@.len() implies
                            #[trigger] store.headers.deep_view()[j] == prev_hs_deep.push(
                            hrow_view,
                        )[j] by {
                            if j < prev_hs.len() {
                                assert(store.headers@[j] == prev_hs[j]);
                                assert(prev_hs_deep[j] == prev_hs[j].deep_view());
                            }
                        }
                        assert(store.headers.deep_view() =~= prev_hs_deep.push(hrow_view));
                        lemma_name_rows_snoc(name_v, vals_v, m.id, now, vi as int);
                        assert(store.headers.deep_view() =~= header_base + name_rows(
                            name_v,
                            vals_v.take(vi + 1),
                            m.id,
                            now,
                        ));
                    }
                    vi += 1;
                }
                proof {
                    assert(vals_v.take(vcount as int) =~= vals_v);
                    lemma_header_rows_snoc(hv, m.id, now, hi as int);
                    assert(store.headers.deep_view() =~= base_headers + header_rows(
                        hv.take(hi + 1),
                        m.id,
                        now,
                    ));
                }
                hi += 1;
            }
            proof {
                assert(hv.take(hcount as int) =~= hv);
            }
        },
        None => {
            proof {
                assert(m.headers is None);
                assert(base_headers + Seq::<HeaderRowV>::empty() =~= base_headers);
            }
        },
    }
    proof {
        assert(store@ =~~= spec_save(pre, m, aidv, ridv, now));
        if store_wf(pre) {
            lemma_save_preserves_wf(pre, m, aidv, ridv, now);
        }
    }
    Ok(message.id.clone())
}

// ---------------------------------------------------------------------------
// Query parameters and projected records
// ---------------------------------------------------------------------------

/// Raw listing parameters as the caller supplies them.
pub struct ListParams {
    pub search: Option<String>,
    pub page: Option<u64>,
    pub per_page: Option<u64>,
}

/// Listing parameters with the defaults applied: page 1, twenty per page.
pub struct ListQuery {
    pub search: Option<String>,
    pub page: u64,
    pub per_page: u64,
}

impl From<ListParams> for ListQuery {
    fn from(params: ListParams) -> (r: ListQuery) {
        ListQuery {
            search: params.search,
            page: match params.page {
                Some(p) => p,
                None => 1,
            },
            per_page: match params.per_page {
                Some(p) => p,
                None => 20,
            },
        }
    }
}

impl vstd::std_specs::convert::FromSpecImpl<ListParams> for ListQuery {
    open spec fn obeys_from_spec() -> bool {
        true
    }

    open spec fn from_spec(params: ListParams) -> ListQuery {
        ListQuery {
            search: params.search,
            page: match params.page {
                Some(p) => p,
                None => 1,
            },
            per_page: match params.per_page {
                Some(p) => p,
                None => 20,
            },
        }
    }
}

#[verifier::ext_equal]
pub struct AttRecordV {
    pub id: Seq<char>,
    pub filename: Option<Seq<char>>,
    pub mime_type: Seq<char>,
    pub size: u64,
    pub content_id: Option<Seq<char>>,
    pub disposition: Option<Seq<char>>,
    pub created_at: i64,
}

/// Attachment metadata as single-record reads carry it, without the bytes.
pub struct EmailAttachmentRecord {
    pub id: String,
    pub filename: Option<String>,
    pub mime_type: String,
    pub size: u64,
    pub content_id: Option<String>,
    pub disposition: Option<String>,
    pub created_at: i64,
}

impl View for EmailAttachmentRecord {
    type V = AttRecordV;

    open spec fn view(&self) -> AttRecordV {
        AttRecordV {
            id: self.id@,
            filename: self.filename.deep_view(),
            mime_type: self.mime_type@,
            size: self.size,
            content_id: self.content_id.deep_view(),
            disposition: self.disposition.deep_view(),
            created_at: self.created_at,
        }
    }
}

impl DeepView for EmailAttachmentRecord {
    type V = AttRecordV;

    open spec fn deep_view(&self) -> AttRecordV {
        self.view()
    }
}

#[verifier::ext_equal]
pub struct EmailRecordV {
    pub id: Seq<char>,
    pub message_id: Option<Seq<char>>,
    pub subject: Option<Seq<char>>,
    pub date: Option<i64>,
    pub headers: Seq<(Seq<char>, Seq<Seq<char>>)>,
    pub created_at: i64,
    pub envelope_from: Seq<char>,
    pub size: u64,
    pub body_text: Seq<char>,
    pub body_html: Seq<char>,
    pub read: bool,
    pub recipients: Seq<Seq<char>>,
    pub attachments: Seq<AttRecordV>,
}

/// The full projection for single-record reads: the header map, the envelope
/// recipients, and attachment metadata without body bytes.
pub struct EmailRecord {
    pub id: String,
    pub message_id: Option<String>,
    pub subject: Option<String>,
    pub date: Option<i64>,
    pub headers: HeaderMap,
    pub created_at: i64,
    pub envelope_from: String,
    pub size: u64,
    pub body_text: String,
    pub body_html: String,
    pub read: bool,
    pub recipients: Vec<String>,
    pub attachments: Vec<EmailAttachmentRecord>,
}

impl View for EmailRecord {
    type V = EmailRecordV;

    open spec fn view(&self) -> EmailRecordV {
        EmailRecordV {
            id: self.id@,
            message_id: self.message_id.deep_view(),
            subject: self.subject.deep_view(),
            date: self.date,
            headers: self.headers.deep_view(),
            created_at: self.created_at,
            envelope_from: self.envelope_from@,
            size: self.size,
            body_text: self.body_text@,
            body_html: self.body_html@,
            read: self.read,
            recipients: self.recipients.deep_view(),
            attachments: self.attachments.deep_view(),
        }
    }
}

#[verifier::ext_equal]
pub struct ListRecordV {
    pub id: Seq<char>,
    pub subject: Option<Seq<char>>,
    pub date: Option<i64>,
    pub created_at: i64,
    pub envelope_from: Seq<char>,
    pub read: bool,
    pub has_attachments: bool,
    pub recipients: Seq<Seq<char>>,
    pub to_header: Option<Seq<Seq<char>>>,
}

/// The reduced projection used in listings.
#[derive(Clone)]
pub struct EmailListRecord {
    pub id: String,
    pub subject: Option<String>,
    pub date: Option<i64>,
    pub created_at: i64,
    pub envelope_from: String,
    pub read: bool,
    pub has_attachments: bool,
    pub recipients: Vec<String>,
    pub to_header: Option<Vec<String>>,
}

impl View for EmailListRecord {
    type V = ListRecordV;

    open spec fn view(&self) -> ListRecordV {
        ListRecordV {
            id: self.id@,
            subject: self.subject.deep_view(),
            date: self.date,
            created_at: self.created_at,
            envelope_from: self.envelope_from@,
            read: self.read,
            has_attachments: self.has_attachments,
            recipients: self.recipients.deep_view(),
            to_header: match self.to_header {
                Some(ref v) => Some(v.deep_view()),
                None => None,
            },
        }
    }
}

impl DeepView for EmailListRecord {
    type V = ListRecordV;

    open spec fn deep_view(&self) -> ListRecordV {
        self.view()
    }
}

/// The rendered-view query flag: remote content stays blocked unless the
/// caller explicitly allows it.
pub struct RenderedQueryParams {
    pub allow_remote_content: Option<bool>,
}

/// Which page a listing answered with.
pub struct PaginationInfo {
    pub page: u64,
    pub per_page: u64,
    pub total_pages: u64,
}

impl PaginationInfo {
    /// The pagination block of a listing response.
    pub fn from_query(query: &ListQuery, total_pages: u64) -> (r: PaginationInfo)
        ensures
            r.page == query.page,
            r.per_page == query.per_page,
            r.total_pages == total_pages,
    {
        PaginationInfo { page: query.page, per_page: query.per_page, total_pages }
    }
}

/// One listing response: the page of records, the aggregate counts, and the
/// pagination block.
pub struct EmailListResponse {
    pub emails: Vec<EmailListRecord>,
    pub counts: EmailStats,
    pub pagination: PaginationInfo,
}

/// One attachment's decompressed bytes with its serving metadata.
pub struct AttachmentContent {
    pub id: String,
    pub filename: Option<String>,
    pub mime_type: String,
    pub data: Vec<u8>,
}

/// One row of the per-recipient histogram.
pub struct RecipientStats {
    pub recipient: String,
    pub count: u64,
}

/// Aggregate counts: inbox total, unread total, per-recipient histogram
/// ordered by address ascending.
pub struct EmailStats {
    pub inbox: u64,
    pub unread: u64,
    pub recipients: Vec<RecipientStats>,
}

// ---------------------------------------------------------------------------
// Spec projections
// ---------------------------------------------------------------------------

/// The first email row with the id.
pub open spec fn find_email(es: Seq<EmailRowV>, id: Seq<char>) -> Option<int>
    decreases es.len(),
{
    if es.len() == 0 {
        None
    } else if es.first().id == id {
        Some(0)
    } else {
        match find_email(es.drop_first(), id) {
            Some(k) => Some(k + 1),
            None => None,
        }
    }
}

pub proof fn lemma_find_email(es: Seq<EmailRowV>, id: Seq<char>)
    ensures
        match find_email(es, id) {
            Some(k) => 0 <= k < es.len() && es[k].id == id && forall|j: int|
                0 <= j < k ==> (#[trigger] es[j]).id != id,
            None => forall|j: int| 0 <= j < es.len() ==> (#[trigger] es[j]).id != id,
        },
    decreases es.len(),
{
    if es.len() > 0 && es.first().id != id {
        lemma_find_email(es.drop_first(), id);
        match find_email(es.drop_first(), id) {
            Some(k) => {
                assert(es.drop_first()[k] == es[k + 1]);
                assert forall|j: int| 0 <= j < k + 1 implies (#[trigger] es[j]).id != id by {
                    if j > 0 {
                        assert(es.drop_first()[j - 1] == es[j]);
                    }
                }
            },
            None => {
                assert forall|j: int| 0 <= j < es.len() implies (#[trigger] es[j]).id != id by {
                    if j > 0 {
                        assert(es.drop_first()[j - 1] == es[j]);
                    }
                }
            },
        }
    }
}

/// The first recipient row with the id.
pub open spec fn addr_of_rid(rs: Seq<RecipientRowV>, rid: Seq<char>) -> Option<Seq<char>>
    decreases rs.len(),
{
    if rs.len() == 0 {
        None
    } else if rs.first().id == rid {
        Some(rs.first().address)
    } else {
        addr_of_rid(rs.drop_first(), rid)
    }
}

/// The envelope recipient addresses of one email, in join order; a join that
/// resolves to no recipient row contributes nothing.
pub open spec fn recipients_of(s: StoreV, email_id: Seq<char>) -> Seq<Seq<char>>
    decreases s.joins.len(),
{
    if s.joins.len() == 0 {
        Seq::empty()
    } else {
        let head: Seq<Seq<char>> = if s.joins.first().email_id == email_id {
            match addr_of_rid(s.recipients, s.joins.first().recipient_id) {
                Some(a) => seq![a],
                None => Seq::empty(),
            }
        } else {
            Seq::empty()
        };
        head + recipients_of(StoreV { joins: s.joins.drop_first(), ..s }, email_id)
    }
}

/// The (name, value) pairs of one email's header rows, in row order.
pub open spec fn header_pairs_of(hs: Seq<HeaderRowV>, email_id: Seq<char>) -> Seq<
    (Seq<char>, Seq<char>),
>
    decreases hs.len(),
{
    if hs.len() == 0 {
        Seq::empty()
    } else {
        let head: Seq<(Seq<char>, Seq<char>)> = if hs.first().email_id == email_id {
            seq![(hs.first().name, hs.first().value)]
        } else {
            Seq::empty()
        };
        head + header_pairs_of(hs.drop_first(), email_id)
    }
}

/// The `To` header values of one email, in row order.
pub open spec fn to_values_of(hs: Seq<HeaderRowV>, email_id: Seq<char>) -> Seq<Seq<char>>
    decreases hs.len(),
{
    if hs.len() == 0 {
        Seq::empty()
    } else {
        let head: Seq<Seq<char>> = if hs.first().email_id == email_id && hs.first().name == "To"@ {
            seq![hs.first().value]
        } else {
            Seq::empty()
        };
        head + to_values_of(hs.drop_first(), email_id)
    }
}

/// One email's attachment metadata records, in row order.
pub open spec fn att_records_of(rows: Seq<AttachmentRowV>, email_id: Seq<char>) -> Seq<AttRecordV>
    decreases rows.len(),
{
    if rows.len() == 0 {
        Seq::empty()
    } else {
        let head: Seq<AttRecordV> = if rows.first().email_id == email_id {
            seq![
                AttRecordV {
                    id: rows.first().id,
                    filename: rows.first().filename,
                    mime_type: rows.first().mime_type,
                    size: rows.first().size,
                    content_id: rows.first().content_id,
                    disposition: rows.first().disposition,
                    created_at: rows.first().created_at,
                },
            ]
        } else {
            Seq::empty()
        };
        head + att_records_of(rows.drop_first(), email_id)
    }
}

/// The full record one email row projects to.
pub open spec fn spec_email_record(s: StoreV, e: EmailRowV) -> EmailRecordV {
    EmailRecordV {
        id: e.id,
        message_id: e.message_id,
        subject: e.subject,
        date: e.date,
        headers: spec_group(header_pairs_of(s.headers, e.id)),
        created_at: e.created_at,
        envelope_from: e.envelope_from,
        size: e.size,
        body_text: e.body_text,
        body_html: e.body_html,
        read: e.read,
        recipients: recipients_of(s, e.id),
        attachments: att_records_of(s.attachments, e.id),
    }
}

/// The listing record one email row projects to.
pub open spec fn spec_list_record(s: StoreV, e: EmailRowV) -> ListRecordV {
    let tos = to_values_of(s.headers, e.id);
    ListRecordV {
        id: e.id,
        subject: e.subject,
        date: e.date,
        created_at: e.created_at,
        envelope_from: e.envelope_from,
        read: e.read,
        has_attachments: e.has_attachments,
        recipients: recipients_of(s, e.id),
        to_header: if tos.len() == 0 {
            None
        } else {
            Some(tos)
        },
    }
}

// ---------------------------------------------------------------------------
// Executable projections
// ---------------------------------------------------------------------------

fn resolve_addr(recipients: &Vec<RecipientRow>, rid: &str) -> (r: Option<String>)
    ensures
        match r {
            Some(a) => addr_of_rid(recipients.deep_view(), rid@) == Some(a@),
            None => addr_of_rid(recipients.deep_view(), rid@) is None,
        },
{
    let ghost rsv = recipients.deep_view();
    let n = recipients.len();
    let mut i: usize = 0;
    proof {
        assert(rsv.skip(0) =~= rsv);
    }
    while i < n
        invariant
            n == recipients@.len(),
            rsv == recipients.deep_view(),
            i <= n,
            addr_of_rid(rsv, rid@) == addr_of_rid(rsv.skip(i as int), rid@),
        decreases n - i,
    {
        proof {
            assert(rsv.skip(i as int).first() == rsv[i as int]);
            assert(rsv.skip(i as int).drop_first() =~= rsv.skip(i + 1));
            assert(rsv[i as int] == (RecipientRowV {
                id: recipients@[i as int].id@,
                address: recipients@[i as int].address@,
            }));
        }
        if str_eq(recipients[i].id.as_str(), rid) {
            return Some(recipients[i].address.clone());
        }
        i += 1;
    }
    proof {
        assert(rsv.skip(n as int).len() == 0);
    }
    None
}

fn collect_recipients(store: &MailStore, email_id: &str) -> (r: Vec<String>)
    ensures
        r.deep_view() == recipients_of(store@, email_id@),
{
    let ghost sv = store@;
    let n = store.joins.len();
    let mut out: Vec<String> = Vec::new();
    let mut i: usize = 0;
    proof {
        assert(sv.joins.skip(0) =~= sv.joins);
        assert((StoreV { joins: sv.joins.skip(0), ..sv }) =~~= sv);
    }
    while i < n
        invariant
            n == store.joins@.len(),
            sv == store@,
            sv.joins.len() == n,
            i <= n,
            out.deep_view() + recipients_of(
                StoreV { joins: sv.joins.skip(i as int), ..sv },
                email_id@,
            ) == recipients_of(sv, email_id@),
        decreases n - i,
    {
        let ghost cur = StoreV { joins: sv.joins.skip(i as int), ..sv };
        proof {
            assert(cur.joins.len() > 0);
            assert(cur.joins.first() == sv.joins[i as int]);
            assert(sv.joins[i as int] == (JoinRowV {
                email_id: store.joins@[i as int].email_id@,
                recipient_id: store.joins@[i as int].recipient_id@,
            }));
            assert((StoreV { joins: cur.joins.drop_first(), ..cur }) =~~= (StoreV {
                joins: sv.joins.skip(i + 1),
                ..sv
            }));
        }
        if str_eq(store.joins[i].email_id.as_str(), email_id) {
            let rid = store.joins[i].recipient_id.clone();
            match resolve_addr(&store.recipients, rid.as_str()) {
                Some(a) => {
                    let ghost prev = out@;
                    let ghost prev_deep = out.deep_view();
                    let ghost av = a@;
                    out.push(a);
                    proof {
                        assert forall|k: int| 0 <= k < out@.len() implies
                            #[trigger] out.deep_view()[k] == prev_deep.push(av)[k] by {
                            if k < prev.len() {
                                assert(out@[k] == prev[k]);
                                assert(prev_deep[k] == prev[k].deep_view());
                            }
                        }
                        assert(out.deep_view() =~= prev_deep.push(av));
                    }
                },
                None => {},
            }
        }
        proof {
            assert(out.deep_view() + recipients_of(
                StoreV { joins: sv.joins.skip(i + 1), ..sv },
                email_id@,
            ) =~= recipients_of(sv, email_id@));
        }
        i += 1;
    }
    proof {
        assert(sv.joins.skip(n as int).len() == 0);
        assert(recipients_of(StoreV { joins: sv.joins.skip(n as int), ..sv }, email_id@) =~= Seq::<
            Seq<char>,
        >::empty());
        assert(out.deep_view() =~= recipients_of(sv, email_id@));
    }
    out
}

fn collect_header_pairs(store: &MailStore, email_id: &str) -> (r: Vec<(String, String)>)
    ensures
        r.deep_view() == header_pairs_of(store@.headers, email_id@),
{
    let ghost hv = store@.headers;
    let n = store.headers.len();
    let mut out: Vec<(String, String)> = Vec::new();
    let mut i: usize = 0;
    proof {
        assert(hv.skip(0) =~= hv);
    }
    while i < n
        invariant
            n == store.headers@.len(),
            hv == store@.headers,
            hv.len() == n,
            i <= n,
            out.deep_view() + header_pairs_of(hv.skip(i as int), email_id@) == header_pairs_of(
                hv,
                email_id@,
            ),
        decreases n - i,
    {
        proof {
            assert(hv.skip(i as int).first() == hv[i as int]);
            assert(hv.skip(i as int).drop_first() =~= hv.skip(i + 1));
            assert(hv[i as int] == store.headers@[i as int]@);
        }
        if str_eq(store.headers[i].email_id.as_str(), email_id) {
            let pair = (store.headers[i].name.clone(), store.headers[i].value.clone());
            let ghost pv = (pair.0@, pair.1@);
            let ghost prev = out@;
            let ghost prev_deep = out.deep_view();
            out.push(pair);
            proof {
                assert forall|k: int| 0 <= k < out@.len() implies #[trigger] out.deep_view()[k]
                    == prev_deep.push(pv)[k] by {
                    if k < prev.len() {
                        assert(out@[k] == prev[k]);
                        assert(prev_deep[k] == prev[k].deep_view());
                    }
                }
                assert(out.deep_view() =~= prev_deep.push(pv));
            }
        }
        proof {
            assert(out.deep_view() + header_pairs_of(hv.skip(i + 1), email_id@) =~= header_pairs_of(
                hv,
                email_id@,
            ));
        }
        i += 1;
    }
    proof {
        assert(hv.skip(n as int).len() == 0);
        assert(out.deep_view() =~= header_pairs_of(hv, email_id@));
    }
    out
}

fn collect_to_values(store: &MailStore, email_id: &str) -> (r: Vec<String>)
    ensures
        r.deep_view() == to_values_of(store@.headers, email_id@),
{
    let ghost hv = store@.headers;
    let n = store.headers.len();
    let mut out: Vec<String> = Vec::new();
    let mut i: usize = 0;
    proof {
        assert(hv.skip(0) =~= hv);
    }
    while i < n
        invariant
            n == store.headers@.len(),
            hv == store@.headers,
            hv.len() == n,
            i <= n,
            out.deep_view() + to_values_of(hv.skip(i as int), email_id@) == to_values_of(
                hv,
                email_id@,
            ),
        decreases n - i,
    {
        proof {
            assert(hv.skip(i as int).first() == hv[i as int]);
            assert(hv.skip(i as int).drop_first() =~= hv.skip(i + 1));
            assert(hv[i as int] == store.headers@[i as int]@);
        }
        if str_eq(store.headers[i].email_id.as_str(), email_id) && str_eq(
            store.headers[i].name.as_str(),
            "To",
        ) {
            let value = store.headers[i].value.clone();
            let ghost vv = value@;
            let ghost prev = out@;
            let ghost prev_deep = out.deep_view();
            out.push(value);
            proof {
                assert forall|k: int| 0 <= k < out@.len() implies #[trigger] out.deep_view()[k]
                    == prev_deep.push(vv)[k] by {
                    if k < prev.len() {
                        assert(out@[k] == prev[k]);
                        assert(prev_deep[k] == prev[k].deep_view());
                    }
                }
                assert(out.deep_view() =~= prev_deep.push(vv));
            }
        }
        proof {
            assert(out.deep_view() + to_values_of(hv.skip(i + 1), email_id@) =~= to_values_of(
                hv,
                email_id@,
            ));
        }
        i += 1;
    }
    proof {
        assert(hv.skip(n as int).len() == 0);
        assert(out.deep_view() =~= to_values_of(hv, email_id@));
    }
    out
}

fn collect_att_records(store: &MailStore, email_id: &str) -> (r: Vec<EmailAttachmentRecord>)
    ensures
        r.deep_view() == att_records_of(store@.attachments, email_id@),
{
    let ghost av = store@.attachments;
    let n = store.attachments.len();
    let mut out: Vec<EmailAttachmentRecord> = Vec::new();
    let mut i: usize = 0;
    proof {
        assert(av.skip(0) =~= av);
    }
    while i < n
        invariant
            n == store.attachments@.len(),
            av == store@.attachments,
            av.len() == n,
            i <= n,
            out.deep_view() + att_records_of(av.skip(i as int), email_id@) == att_records_of(
                av,
                email_id@,
            ),
        decreases n - i,
    {
        proof {
            assert(av.skip(i as int).first() == av[i as int]);
            assert(av.skip(i as int).drop_first() =~= av.skip(i + 1));
            assert(av[i as int] == store.attachments@[i as int]@);
        }
        if str_eq(store.attachments[i].email_id.as_str(), email_id) {
            let row = &store.attachments[i];
            let rec = EmailAttachmentRecord {
                id: row.id.clone(),
                filename: clone_opt_string(&row.filename),
                mime_type: row.mime_type.clone(),
                size: row.size,
                content_id: clone_opt_string(&row.content_id),
                disposition: clone_opt_string(&row.disposition),
                created_at: row.created_at,
            };
            let ghost rv = rec@;
            proof {
                assert(rv =~~= (AttRecordV {
                    id: av[i as int].id,
                    filename: av[i as int].filename,
                    mime_type: av[i as int].mime_type,
                    size: av[i as int].size,
                    content_id: av[i as int].content_id,
                    disposition: av[i as int].disposition,
                    created_at: av[i as int].created_at,
                }));
            }
            let ghost prev = out@;
            let ghost prev_deep = out.deep_view();
            out.push(rec);
            proof {
                assert forall|k: int| 0 <= k < out@.len() implies #[trigger] out.deep_view()[k]
                    == prev_deep.push(rv)[k] by {
                    if k < prev.len() {
                        assert(out@[k] == prev[k]);
                        assert(prev_deep[k] == prev[k].deep_view());
                    }
                }
                assert(out.deep_view() =~= prev_deep.push(rv));
            }
        }
        proof {
            assert(out.deep_view() + att_records_of(av.skip(i + 1), email_id@) =~= att_records_of(
                av,
                email_id@,
            ));
        }
        i += 1;
    }
    proof {
        assert(av.skip(n as int).len() == 0);
        assert(out.deep_view() =~= att_records_of(av, email_id@));
    }
    out
}

pub proof fn lemma_first_email_index_pub(es: Seq<EmailRowV>, id: Seq<char>, k: int)
    requires
        0 <= k < es.len(),
        es[k].id == id,
        forall|j: int| 0 <= j < k ==> (#[trigger] es[j]).id != id,
    ensures
        find_email(es, id) == Some(k),
{
    lemma_find_email(es, id);
    match find_email(es, id) {
        Some(f) => {
            if f < k {
                assert(es[f].id != id);
                assert(false);
            }
            if k < f {
                assert(es[k].id != id);
                assert(false);
            }
        },
        None => {
            assert(es[k].id != id);
            assert(false);
        },
    }
}

// ---------------------------------------------------------------------------
// Single-record reads and writes
// ---------------------------------------------------------------------------

impl MailStore {
    /// The full record of one email: headers, recipients, attachment
    /// metadata; `None` when the id is unknown.
    pub fn get_email_by_id(&self, email_id: &str) -> (r: Option<EmailRecord>)
        ensures
            match r {
                Some(rec) => find_email(self@.emails, email_id@) matches Some(k) && rec@
                    == spec_email_record(self@, self@.emails[k]),
                None => find_email(self@.emails, email_id@) is None,
            },
    {
        let k = match email_index_of(&self.emails, email_id) {
            Some(k) => k,
            None => {
                proof {
                    lemma_find_email(self@.emails, email_id@);
                    match find_email(self@.emails, email_id@) {
                        Some(f) => {
                            assert(self@.emails[f].id != email_id@);
                            assert(false);
                        },
                        None => {},
                    }
                }
                return None;
            },
        };
        proof {
            lemma_first_email_index_pub(self@.emails, email_id@, k as int);
        }
        let e = &self.emails[k];
        let flat = collect_header_pairs(self, email_id);
        let headers = crate::mail::group_headers(&flat);
        let recipients = collect_recipients(self, email_id);
        let attachments = collect_att_records(self, email_id);
        let rec = EmailRecord {
            id: e.id.clone(),
            message_id: clone_opt_string(&e.message_id),
            subject: clone_opt_string(&e.subject),
            date: e.date,
            headers,
            created_at: e.created_at,
            envelope_from: e.envelope_from.clone(),
            size: e.size,
            body_text: e.body_text.clone(),
            body_html: e.body_html.clone(),
            read: e.read,
            recipients,
            attachments,
        };
        proof {
            assert(self@.emails[k as int] == self.emails@[k as int]@);
            assert(rec@ =~~= spec_email_record(self@, self@.emails[k as int]));
        }
        Some(rec)
    }

    /// Sets one email's read flag; the affected-row count is 1 when the id
    /// exists and 0 otherwise.
    pub fn mark_email_read(&mut self, email_id: &str, read: bool) -> (r: usize)
        ensures
            store_wf(old(self)@) ==> store_wf(final(self)@),
            final(self)@ == spec_mark(old(self)@, email_id@, read),
            match find_email(old(self)@.emails, email_id@) {
                Some(k) => r == 1 && final(self)@ == (StoreV {
                    emails: old(self)@.emails.update(
                        k,
                        EmailRowV { read: read, ..old(self)@.emails[k] },
                    ),
                    ..old(self)@
                }),
                None => r == 0 && final(self)@ == old(self)@,
            },
    {
        let ghost pre = self@;
        let k = match email_index_of(&self.emails, email_id) {
            Some(k) => k,
            None => {
                proof {
                    lemma_find_email(pre.emails, email_id@);
                    match find_email(pre.emails, email_id@) {
                        Some(f) => {
                            assert(pre.emails[f].id != email_id@);
                            assert(false);
                        },
                        None => {},
                    }
                }
                return 0;
            },
        };
        proof {
            lemma_first_email_index_pub(pre.emails, email_id@, k as int);
        }
        let ghost prev_emails = self.emails@;
        let ghost prev_deep = self.emails.deep_view();
        self.emails[k].read = read;
        proof {
            assert forall|j: int| 0 <= j < self.emails@.len() implies
                #[trigger] self.emails.deep_view()[j] == pre.emails.update(
                k as int,
                EmailRowV { read: read, ..pre.emails[k as int] },
            )[j] by {
                if j != k {
                    assert(self.emails@[j] == prev_emails[j]);
                    assert(prev_deep[j] == prev_emails[j].deep_view());
                }
            }
            assert(self.emails.deep_view() =~= pre.emails.update(
                k as int,
                EmailRowV { read: read, ..pre.emails[k as int] },
            ));
            assert(self@ =~~= (StoreV {
                emails: pre.emails.update(k as int, EmailRowV { read: read, ..pre.emails[k as int] }),
                ..pre
            }));
            if store_wf(pre) {
                lemma_mark_preserves_wf(pre, email_id@, read);
            }
        }
        1
    }

    /// The stored rendered HTML body; `None` when the id is unknown or the
    /// message had no HTML body.
    pub fn get_rendered_data_by_id(&self, email_id: &str) -> (r: Option<String>)
        ensures
            match find_email(self@.emails, email_id@) {
                Some(k) => match self@.emails[k].rendered_body_html {
                    Some(h) => r matches Some(out) && out@ == h,
                    None => r is None,
                },
                None => r is None,
            },
    {
        match email_index_of(&self.emails, email_id) {
            Some(k) => {
                proof {
                    lemma_first_email_index_pub(self@.emails, email_id@, k as int);
                }
                clone_opt_string(&self.emails[k].rendered_body_html)
            },
            None => {
                proof {
                    lemma_find_email(self@.emails, email_id@);
                    match find_email(self@.emails, email_id@) {
                        Some(f) => {
                            assert(self@.emails[f].id != email_id@);
                            assert(false);
                        },
                        None => {},
                    }
                }
                None
            },
        }
    }

    /// The decompressed raw RFC 822 text of one email.
    pub fn get_raw_data_by_id(&self, email_id: &str) -> (r: Result<String, StoreError>)
        requires
            store_wf(self@),
        ensures
            match find_email(self@.emails, email_id@) {
                Some(k) => r matches Ok(s) && s@ == self@.emails[k].plain_data,
                None => r matches Err(e) && e is NotFound,
            },
    {
        broadcast use vstd::utf8::encode_utf8_valid_utf8, vstd::utf8::encode_utf8_decode_utf8;

        let k = match email_index_of(&self.emails, email_id) {
            Some(k) => k,
            None => {
                proof {
                    lemma_find_email(self@.emails, email_id@);
                    match find_email(self@.emails, email_id@) {
                        Some(f) => {
                            assert(self@.emails[f].id != email_id@);
                            assert(false);
                        },
                        None => {},
                    }
                }
                return Err(StoreError::NotFound);
            },
        };
        proof {
            lemma_first_email_index_pub(self@.emails, email_id@, k as int);
            assert(self@.emails[k as int].compressed_data == gzip_of(
                encode_utf8(self@.emails[k as int].plain_data),
            ));
        }
        let bytes = match decompress(self.emails[k].compressed_data.as_slice()) {
            Ok(v) => v,
            Err(()) => {
                return vstd::pervasive::unreached();
            },
        };
        proof {
            assert(bytes@ == encode_utf8(self@.emails[k as int].plain_data));
        }
        match string_from_utf8(bytes) {
            Ok(s) => {
                proof {
                    assert(s@ == self@.emails[k as int].plain_data);
                }
                Ok(s)
            },
            Err(()) => vstd::pervasive::unreached(),
        }
    }

    /// One attachment's decompressed bytes with filename and content type;
    /// `None` when the id is unknown.
    pub fn get_attachment_by_id(&self, attachment_id: &str) -> (r: Option<AttachmentContent>)
        requires
            store_wf(self@),
        ensures
            match find_attachment(self@.attachments, attachment_id@) {
                Some(k) => r matches Some(c) && c.id@ == self@.attachments[k].id && c.filename.deep_view()
                    == self@.attachments[k].filename && c.mime_type@ == self@.attachments[k].mime_type
                    && c.data@ == self@.attachments[k].plain_data,
                None => r is None,
            },
    {
        let ghost av = self@.attachments;
        let n = self.attachments.len();
        let mut i: usize = 0;
        while i < n
            invariant
                store_wf(self@),
                n == self.attachments@.len(),
                av == self@.attachments,
                av.len() == n,
                i <= n,
                forall|j: int| 0 <= j < i ==> (#[trigger] av[j]).id != attachment_id@,
            decreases n - i,
        {
            proof {
                assert(av[i as int] == self.attachments@[i as int]@);
            }
            if str_eq(self.attachments[i].id.as_str(), attachment_id) {
                proof {
                    lemma_find_attachment(av, attachment_id@);
                    match find_attachment(av, attachment_id@) {
                        Some(f) => {
                            if f < i {
                                assert(av[f].id != attachment_id@);
                                assert(false);
                            }
                            if (i as int) < f {
                                assert(av[i as int].id != attachment_id@);
                                assert(false);
                            }
                        },
                        None => {
                            assert(av[i as int].id != attachment_id@);
                            assert(false);
                        },
                    }
                    assert(store_wf(self@));
                    assert(av[i as int].compressed_data == gzip_of(av[i as int].plain_data));
                }
                let row = &self.attachments[i];
                let data = match decompress(row.compressed_data.as_slice()) {
                    Ok(v) => v,
                    Err(()) => {
                        return vstd::pervasive::unreached();
                    },
                };
                return Some(
                    AttachmentContent {
                        id: row.id.clone(),
                        filename: clone_opt_string(&row.filename),
                        mime_type: row.mime_type.clone(),
                        data,
                    },
                );
            }
            i += 1;
        }
        proof {
            lemma_find_attachment(av, attachment_id@);
            match find_attachment(av, attachment_id@) {
                Some(f) => {
                    assert(av[f].id != attachment_id@);
                    assert(false);
                },
                None => {},
            }
        }
        None
    }
}

/// The first attachment row with the id.
pub open spec fn find_attachment(rows: Seq<AttachmentRowV>, id: Seq<char>) -> Option<int>
    decreases rows.len(),
{
    if rows.len() == 0 {
        None
    } else if rows.first().id == id {
        Some(0)
    } else {
        match find_attachment(rows.drop_first(), id) {
            Some(k) => Some(k + 1),
            None => None,
        }
    }
}

pub proof fn lemma_find_attachment(rows: Seq<AttachmentRowV>, id: Seq<char>)
    ensures
        match find_attachment(rows, id) {
            Some(k) => 0 <= k < rows.len() && rows[k].id == id && forall|j: int|
                0 <= j < k ==> (#[trigger] rows[j]).id != id,
            None => forall|j: int| 0 <= j < rows.len() ==> (#[trigger] rows[j]).id != id,
        },
    decreases rows.len(),
{
    if rows.len() > 0 && rows.first().id != id {
        lemma_find_attachment(rows.drop_first(), id);
        match find_attachment(rows.drop_first(), id) {
            Some(k) => {
                assert(rows.drop_first()[k] == rows[k + 1]);
                assert forall|j: int| 0 <= j < k + 1 implies (#[trigger] rows[j]).id != id by {
                    if j > 0 {
                        assert(rows.drop_first()[j - 1] == rows[j]);
                    }
                }
            },
            None => {
                assert forall|j: int| 0 <= j < rows.len() implies (#[trigger] rows[j]).id != id by {
                    if j > 0 {
                        assert(rows.drop_first()[j - 1] == rows[j]);
                    }
                }
            },
        }
    }
}

// ---------------------------------------------------------------------------
// Deletion with cascade
// ---------------------------------------------------------------------------

pub open spec fn joins_without(js: Seq<JoinRowV>, email_id: Seq<char>) -> Seq<JoinRowV>
    decreases js.len(),
{
    if js.len() == 0 {
        Seq::empty()
    } else {
        let head: Seq<JoinRowV> = if js.first().email_id == email_id {
            Seq::empty()
        } else {
            seq![js.first()]
        };
        head + joins_without(js.drop_first(), email_id)
    }
}

pub open spec fn atts_without(rows: Seq<AttachmentRowV>, email_id: Seq<char>) -> Seq<
    AttachmentRowV,
>
    decreases rows.len(),
{
    if rows.len() == 0 {
        Seq::empty()
    } else {
        let head: Seq<AttachmentRowV> = if rows.first().email_id == email_id {
            Seq::empty()
        } else {
            seq![rows.first()]
        };
        head + atts_without(rows.drop_first(), email_id)
    }
}

pub open spec fn headers_without(rows: Seq<HeaderRowV>, email_id: Seq<char>) -> Seq<HeaderRowV>
    decreases rows.len(),
{
    if rows.len() == 0 {
        Seq::empty()
    } else {
        let head: Seq<HeaderRowV> = if rows.first().email_id == email_id {
            Seq::empty()
        } else {
            seq![rows.first()]
        };
        head + headers_without(rows.drop_first(), email_id)
    }
}

fn retain_joins(rows: &Vec<JoinRow>, email_id: &str) -> (r: Vec<JoinRow>)
    ensures
        r.deep_view() == joins_without(rows.deep_view(), email_id@),
{
    let ghost rv = rows.deep_view();
    let n = rows.len();
    let mut out: Vec<JoinRow> = Vec::new();
    let mut i: usize = 0;
    proof {
        assert(rv.skip(0) =~= rv);
    }
    while i < n
        invariant
            n == rows@.len(),
            rv == rows.deep_view(),
            rv.len() == n,
            i <= n,
            out.deep_view() + joins_without(rv.skip(i as int), email_id@) == joins_without(
                rv,
                email_id@,
            ),
        decreases n - i,
    {
        proof {
            assert(rv.skip(i as int).first() == rv[i as int]);
            assert(rv.skip(i as int).drop_first() =~= rv.skip(i + 1));
            assert(rv[i as int] == rows@[i as int]@);
        }
        if !str_eq(rows[i].email_id.as_str(), email_id) {
            let item = JoinRow {
                email_id: rows[i].email_id.clone(),
                recipient_id: rows[i].recipient_id.clone(),
            };
            let ghost iv = item@;
            let ghost prev = out@;
            let ghost prev_deep = out.deep_view();
            out.push(item);
            proof {
                assert forall|k: int| 0 <= k < out@.len() implies #[trigger] out.deep_view()[k]
                    == prev_deep.push(iv)[k] by {
                    if k < prev.len() {
                        assert(out@[k] == prev[k]);
                        assert(prev_deep[k] == prev[k].deep_view());
                    }
                }
                assert(out.deep_view() =~= prev_deep.push(iv));
                assert(iv =~~= rv[i as int]);
            }
        }
        proof {
            assert(out.deep_view() + joins_without(rv.skip(i + 1), email_id@) =~= joins_without(
                rv,
                email_id@,
            ));
        }
        i += 1;
    }
    proof {
        assert(rv.skip(n as int).len() == 0);
        assert(out.deep_view() =~= joins_without(rv, email_id@));
    }
    out
}

fn clone_attachment_row(row: &AttachmentRow) -> (r: AttachmentRow)
    ensures
        r@ == row@,
{
    let r = AttachmentRow {
        id: row.id.clone(),
        email_id: row.email_id.clone(),
        filename: clone_opt_string(&row.filename),
        mime_type: row.mime_type.clone(),
        compressed_data: clone_bytes(&row.compressed_data),
        plain_data: Ghost(row.plain_data@),
        size: row.size,
        content_id: clone_opt_string(&row.content_id),
        disposition: clone_opt_string(&row.disposition),
        created_at: row.created_at,
    };
    proof {
        assert(r@ =~~= row@);
    }
    r
}

fn retain_atts(rows: &Vec<AttachmentRow>, email_id: &str) -> (r: Vec<AttachmentRow>)
    ensures
        r.deep_view() == atts_without(rows.deep_view(), email_id@),
{
    let ghost rv = rows.deep_view();
    let n = rows.len();
    let mut out: Vec<AttachmentRow> = Vec::new();
    let mut i: usize = 0;
    proof {
        assert(rv.skip(0) =~= rv);
    }
    while i < n
        invariant
            n == rows@.len(),
            rv == rows.deep_view(),
            rv.len() == n,
            i <= n,
            out.deep_view() + atts_without(rv.skip(i as int), email_id@) == atts_without(
                rv,
                email_id@,
            ),
        decreases n - i,
    {
        proof {
            assert(rv.skip(i as int).first() == rv[i as int]);
            assert(rv.skip(i as int).drop_first() =~= rv.skip(i + 1));
            assert(rv[i as int] == rows@[i as int]@);
        }
        if !str_eq(rows[i].email_id.as_str(), email_id) {
            let item = clone_attachment_row(&rows[i]);
            let ghost iv = item@;
            let ghost prev = out@;
            let ghost prev_deep = out.deep_view();
            out.push(item);
            proof {
                assert forall|k: int| 0 <= k < out@.len() implies #[trigger] out.deep_view()[k]
                    == prev_deep.push(iv)[k] by {
                    if k < prev.len() {
                        assert(out@[k] == prev[k]);
                        assert(prev_deep[k] == prev[k].deep_view());
                    }
                }
                assert(out.deep_view() =~= prev_deep.push(iv));
            }
        }
        proof {
            assert(out.deep_view() + atts_without(rv.skip(i + 1), email_id@) =~= atts_without(
                rv,
                email_id@,
            ));
        }
        i += 1;
    }
    proof {
        assert(rv.skip(n as int).len() == 0);
        assert(out.deep_view() =~= atts_without(rv, email_id@));
    }
    out
}

fn retain_headers(rows: &Vec<HeaderRow>, email_id: &str) -> (r: Vec<HeaderRow>)
    ensures
        r.deep_view() == headers_without(rows.deep_view(), email_id@),
{
    let ghost rv = rows.deep_view();
    let n = rows.len();
    let mut out: Vec<HeaderRow> = Vec::new();
    let mut i: usize = 0;
    proof {
        assert(rv.skip(0) =~= rv);
    }
    while i < n
        invariant
            n == rows@.len(),
            rv == rows.deep_view(),
            rv.len() == n,
            i <= n,
            out.deep_view() + headers_without(rv.skip(i as int), email_id@) == headers_without(
                rv,
                email_id@,
            ),
        decreases n - i,
    {
        proof {
            assert(rv.skip(i as int).first() == rv[i as int]);
            assert(rv.skip(i as int).drop_first() =~= rv.skip(i + 1));
            assert(rv[i as int] == rows@[i as int]@);
        }
        if !str_eq(rows[i].email_id.as_str(), email_id) {
            let item = HeaderRow {
                email_id: rows[i].email_id.clone(),
                name: rows[i].name.clone(),
                value: rows[i].value.clone(),
                created_at: rows[i].created_at,
            };
            let ghost iv = item@;
            let ghost prev = out@;
            let ghost prev_deep = out.deep_view();
            out.push(item);
            proof {
                assert forall|k: int| 0 <= k < out@.len() implies #[trigger] out.deep_view()[k]
                    == prev_deep.push(iv)[k] by {
                    if k < prev.len() {
                        assert(out@[k] == prev[k]);
                        assert(prev_deep[k] == prev[k].deep_view());
                    }
                }
                assert(out.deep_view() =~= prev_deep.push(iv));
                assert(iv =~~= rv[i as int]);
            }
        }
        proof {
            assert(out.deep_view() + headers_without(rv.skip(i + 1), email_id@) =~= headers_without(
                rv,
                email_id@,
            ));
        }
        i += 1;
    }
    proof {
        assert(rv.skip(n as int).len() == 0);
        assert(out.deep_view() =~= headers_without(rv, email_id@));
    }
    out
}

impl MailStore {
    /// Deletes one email; headers, attachments and envelope joins cascade.
    /// The affected-row count is 1 when the id existed, 0 otherwise.
    pub fn delete_email_by_id(&mut self, email_id: &str) -> (r: usize)
        ensures
            store_wf(old(self)@) ==> store_wf(final(self)@),
            final(self)@ == spec_delete(old(self)@, email_id@),
            match find_email(old(self)@.emails, email_id@) {
                Some(k) => r == 1 && final(self)@ == (StoreV {
                    emails: old(self)@.emails.take(k) + old(self)@.emails.skip(k + 1),
                    recipients: old(self)@.recipients,
                    joins: joins_without(old(self)@.joins, email_id@),
                    attachments: atts_without(old(self)@.attachments, email_id@),
                    headers: headers_without(old(self)@.headers, email_id@),
                }),
                None => r == 0 && final(self)@ == old(self)@,
            },
    {
        let ghost pre = self@;
        let k = match email_index_of(&self.emails, email_id) {
            Some(k) => k,
            None => {
                proof {
                    lemma_find_email(pre.emails, email_id@);
                    match find_email(pre.emails, email_id@) {
                        Some(f) => {
                            assert(pre.emails[f].id != email_id@);
                            assert(false);
                        },
                        None => {},
                    }
                }
                return 0;
            },
        };
        proof {
            lemma_first_email_index_pub(pre.emails, email_id@, k as int);
        }
        let ghost prev_emails = self.emails@;
        let ghost prev_deep = self.emails.deep_view();
        self.emails.remove(k);
        proof {
            assert forall|j: int| 0 <= j < self.emails@.len() implies
                #[trigger] self.emails.deep_view()[j] == (pre.emails.take(k as int) + pre.emails.skip(
                k + 1,
            ))[j] by {
                if j < k {
                    assert(self.emails@[j] == prev_emails[j]);
                    assert(prev_deep[j] == prev_emails[j].deep_view());
                } else {
                    assert(self.emails@[j] == prev_emails[j + 1]);
                    assert(prev_deep[j + 1] == prev_emails[j + 1].deep_view());
                }
            }
            assert(self.emails.deep_view() =~= pre.emails.take(k as int) + pre.emails.skip(k + 1));
        }
        let new_joins = retain_joins(&self.joins, email_id);
        self.joins = new_joins;
        let new_atts = retain_atts(&self.attachments, email_id);
        self.attachments = new_atts;
        let new_headers = retain_headers(&self.headers, email_id);
        self.headers = new_headers;
        proof {
            assert(self@ =~~= (StoreV {
                emails: pre.emails.take(k as int) + pre.emails.skip(k + 1),
                recipients: pre.recipients,
                joins: joins_without(pre.joins, email_id@),
                attachments: atts_without(pre.attachments, email_id@),
                headers: headers_without(pre.headers, email_id@),
            }));
            if store_wf(pre) {
                lemma_delete_preserves_wf(pre, email_id@);
            }
        }
        1
    }

    /// Deletes every email and all dependents; envelope recipients remain.
    /// The affected-row count is the number of emails removed.
    pub fn delete_all_emails(&mut self) -> (r: usize)
        ensures
            store_wf(old(self)@) ==> store_wf(final(self)@),
            r == old(self)@.emails.len(),
            final(self)@ == (StoreV {
                emails: Seq::empty(),
                recipients: old(self)@.recipients,
                joins: Seq::empty(),
                attachments: Seq::empty(),
                headers: Seq::empty(),
            }),
    {
        let ghost pre = self@;
        let affected = self.emails.len();
        self.emails.clear();
        self.joins.clear();
        self.attachments.clear();
        self.headers.clear();
        proof {
            assert(self@ =~~= (StoreV {
                emails: Seq::empty(),
                recipients: pre.recipients,
                joins: Seq::empty(),
                attachments: Seq::empty(),
                headers: Seq::empty(),
            }));
        }
        affected
    }
}

// ---------------------------------------------------------------------------
// LIKE matching and the search filter
// ---------------------------------------------------------------------------

/// SQL LIKE semantics on text: `%` matches any run, `_` any one character,
/// anything else itself, without regard to ASCII case.
pub open spec fn like_match(t: Seq<char>, p: Seq<char>) -> bool
    decreases p.len() + t.len(),
{
    if p.len() == 0 {
        t.len() == 0
    } else if p[0] == '%' {
        like_match(t, p.drop_first()) || (t.len() > 0 && like_match(t.drop_first(), p))
    } else if p[0] == '_' {
        t.len() > 0 && like_match(t.drop_first(), p.drop_first())
    } else {
        t.len() > 0 && crate::strings::eq_ci(t[0], p[0]) && like_match(
            t.drop_first(),
            p.drop_first(),
        )
    }
}

/// `LIKE '%value%'` on a text column.
pub open spec fn text_like(t: Seq<char>, v: Seq<char>) -> bool {
    like_match(t, "%"@ + v + "%"@)
}

pub open spec fn opt_like(o: Option<Seq<char>>, v: Seq<char>) -> bool {
    match o {
        Some(t) => text_like(t, v),
        None => false,
    }
}

fn like_rec(t: &Vec<char>, ti: usize, p: &Vec<char>, pi: usize) -> (r: bool)
    requires
        ti <= t@.len(),
        pi <= p@.len(),
    ensures
        r == like_match(t@.skip(ti as int), p@.skip(pi as int)),
    decreases p@.len() - pi + t@.len() - ti,
{
    proof {
        if pi < p@.len() {
            assert(p@.skip(pi as int)[0] == p@[pi as int]);
            assert(p@.skip(pi as int).drop_first() =~= p@.skip(pi + 1));
        }
        if ti < t@.len() {
            assert(t@.skip(ti as int)[0] == t@[ti as int]);
            assert(t@.skip(ti as int).drop_first() =~= t@.skip(ti + 1));
        }
    }
    if pi >= p.len() {
        ti >= t.len()
    } else if p[pi] == '%' {
        if like_rec(t, ti, p, pi + 1) {
            true
        } else if ti < t.len() {
            like_rec(t, ti + 1, p, pi)
        } else {
            false
        }
    } else if p[pi] == '_' {
        ti < t.len() && like_rec(t, ti + 1, p, pi + 1)
    } else {
        if ti < t.len() {
            let c_ok = crate::strings::char_eq_ci(t[ti], p[pi]);
            c_ok && like_rec(t, ti + 1, p, pi + 1)
        } else {
            false
        }
    }
}

/// Does the text hold the value, by `LIKE '%value%'`?
pub fn text_like_exec(text: &str, value: &str) -> (r: bool)
    ensures
        r == text_like(text@, value@),
{
    let t = str_chars(text);
    let mut p: Vec<char> = Vec::new();
    p.push('%');
    let vchars = str_chars(value);
    crate::strings::push_all(&mut p, &vchars);
    p.push('%');
    proof {
        reveal_strlit("%");
        assert(p@ =~= "%"@ + value@ + "%"@);
        assert(t@.skip(0) =~= t@);
        assert(p@.skip(0) =~= p@);
    }
    like_rec(&t, 0, &p, 0)
}

pub open spec fn header_like(
    hs: Seq<HeaderRowV>,
    email_id: Seq<char>,
    from_too: bool,
    v: Seq<char>,
) -> bool {
    exists|j: int|
        {
            &&& 0 <= j < hs.len()
            &&& (#[trigger] hs[j]).email_id == email_id
            &&& {
                ||| (from_too && crate::strings::folded(hs[j].name) == crate::strings::folded(
                    "from"@,
                ))
                ||| crate::strings::folded(hs[j].name) == crate::strings::folded("to"@)
                ||| crate::strings::folded(hs[j].name) == crate::strings::folded("cc"@)
                ||| crate::strings::folded(hs[j].name) == crate::strings::folded("bcc"@)
            }
            &&& text_like(hs[j].value, v)
        }
}

pub open spec fn from_header_like(hs: Seq<HeaderRowV>, email_id: Seq<char>, v: Seq<char>) -> bool {
    exists|j: int|
        {
            &&& 0 <= j < hs.len()
            &&& (#[trigger] hs[j]).email_id == email_id
            &&& crate::strings::folded(hs[j].name) == crate::strings::folded("from"@)
            &&& text_like(hs[j].value, v)
        }
}

pub open spec fn recipient_like(s: StoreV, email_id: Seq<char>, v: Seq<char>) -> bool {
    exists|j: int|
        0 <= j < recipients_of(s, email_id).len() && text_like(
            #[trigger] recipients_of(s, email_id)[j],
            v,
        )
}

pub open spec fn attachment_like(rows: Seq<AttachmentRowV>, email_id: Seq<char>, v: Seq<char>) -> bool {
    exists|j: int|
        {
            &&& 0 <= j < rows.len()
            &&& (#[trigger] rows[j]).email_id == email_id
            &&& rows[j].filename matches Some(f) && text_like(f, v)
        }
}

/// What one field-restricted term matches, per the search grammar.
pub open spec fn term_matches(s: StoreV, e: EmailRowV, t: crate::search::SearchTermV) -> bool {
    match t.field {
        crate::search::SearchField::Subject => opt_like(e.subject, t.value),
        crate::search::SearchField::From => text_like(e.envelope_from, t.value) || from_header_like(
            s.headers,
            e.id,
            t.value,
        ),
        crate::search::SearchField::Recipient => recipient_like(s, e.id, t.value) || header_like(
            s.headers,
            e.id,
            false,
            t.value,
        ),
        crate::search::SearchField::To => recipient_like(s, e.id, t.value) || header_like(
            s.headers,
            e.id,
            false,
            t.value,
        ),
        crate::search::SearchField::Text => text_like(e.body_text, t.value),
        crate::search::SearchField::Html => text_like(e.body_html, t.value),
        crate::search::SearchField::Attachment => attachment_like(s.attachments, e.id, t.value),
    }
}

/// What one bareword matches: subject, envelope-from, body text, any
/// envelope recipient, or any addressing header value.
pub open spec fn default_matches(s: StoreV, e: EmailRowV, v: Seq<char>) -> bool {
    ||| opt_like(e.subject, v)
    ||| text_like(e.envelope_from, v)
    ||| text_like(e.body_text, v)
    ||| recipient_like(s, e.id, v)
    ||| header_like(s.headers, e.id, true, v)
}

/// An email satisfies a query when every field term and every bareword
/// matches.
pub open spec fn email_matches(s: StoreV, e: EmailRowV, q: crate::search::ParsedQueryV) -> bool {
    &&& forall|j: int| 0 <= j < q.field_terms.len() ==> term_matches(s, e, #[trigger] q.field_terms[j])
    &&& forall|j: int| 0 <= j < q.default_terms.len() ==> default_matches(
        s,
        e,
        #[trigger] q.default_terms[j],
    )
}

// ---------------------------------------------------------------------------
// Executable matching
// ---------------------------------------------------------------------------

fn header_like_exec(store: &MailStore, email_id: &str, from_too: bool, v: &str) -> (r: bool)
    ensures
        r == header_like(store@.headers, email_id@, from_too, v@),
{
    let ghost hv = store@.headers;
    let n = store.headers.len();
    let mut i: usize = 0;
    while i < n
        invariant
            n == store.headers@.len(),
            hv == store@.headers,
            hv.len() == n,
            i <= n,
            forall|j: int|
                0 <= j < i ==> !((#[trigger] hv[j]).email_id == email_id@ && ((from_too
                    && crate::strings::folded(hv[j].name) == crate::strings::folded("from"@)) || (
                crate::strings::folded(hv[j].name) == crate::strings::folded("to"@)) || (
                crate::strings::folded(hv[j].name) == crate::strings::folded("cc"@)) || (
                crate::strings::folded(hv[j].name) == crate::strings::folded("bcc"@))) && text_like(
                    hv[j].value,
                    v@,
                )),
        decreases n - i,
    {
        proof {
            assert(hv[i as int] == store.headers@[i as int]@);
        }
        if str_eq(store.headers[i].email_id.as_str(), email_id) {
            let name_chars = str_chars(store.headers[i].name.as_str());
            let is_from = from_too && crate::strings::chars_eq_folded(
                &name_chars,
                &str_chars("from"),
            );
            let is_to = crate::strings::chars_eq_folded(&name_chars, &str_chars("to"));
            let is_cc = crate::strings::chars_eq_folded(&name_chars, &str_chars("cc"));
            let is_bcc = crate::strings::chars_eq_folded(&name_chars, &str_chars("bcc"));
            if is_from || is_to || is_cc || is_bcc {
                if text_like_exec(store.headers[i].value.as_str(), v) {
                    proof {
                        assert(header_like(hv, email_id@, from_too, v@));
                    }
                    return true;
                }
            }
        }
        i += 1;
    }
    proof {
        if header_like(hv, email_id@, from_too, v@) {
            let w = choose|w: int|
                {
                    &&& 0 <= w < hv.len()
                    &&& (#[trigger] hv[w]).email_id == email_id@
                    &&& {
                        ||| (from_too && crate::strings::folded(hv[w].name)
                            == crate::strings::folded("from"@))
                        ||| crate::strings::folded(hv[w].name) == crate::strings::folded("to"@)
                        ||| crate::strings::folded(hv[w].name) == crate::strings::folded("cc"@)
                        ||| crate::strings::folded(hv[w].name) == crate::strings::folded("bcc"@)
                    }
                    &&& text_like(hv[w].value, v@)
                };
            assert(false);
        }
    }
    false
}

fn from_header_like_exec(store: &MailStore, email_id: &str, v: &str) -> (r: bool)
    ensures
        r == from_header_like(store@.headers, email_id@, v@),
{
    let ghost hv = store@.headers;
    let n = store.headers.len();
    let mut i: usize = 0;
    while i < n
        invariant
            n == store.headers@.len(),
            hv == store@.headers,
            hv.len() == n,
            i <= n,
            forall|j: int|
                0 <= j < i ==> !((#[trigger] hv[j]).email_id == email_id@
                    && crate::strings::folded(hv[j].name) == crate::strings::folded("from"@)
                    && text_like(hv[j].value, v@)),
        decreases n - i,
    {
        proof {
            assert(hv[i as int] == store.headers@[i as int]@);
        }
        if str_eq(store.headers[i].email_id.as_str(), email_id) {
            let name_chars = str_chars(store.headers[i].name.as_str());
            if crate::strings::chars_eq_folded(&name_chars, &str_chars("from")) {
                if text_like_exec(store.headers[i].value.as_str(), v) {
                    proof {
                        assert(from_header_like(hv, email_id@, v@));
                    }
                    return true;
                }
            }
        }
        i += 1;
    }
    proof {
        if from_header_like(hv, email_id@, v@) {
            let w = choose|w: int|
                {
                    &&& 0 <= w < hv.len()
                    &&& (#[trigger] hv[w]).email_id == email_id@
                    &&& crate::strings::folded(hv[w].name) == crate::strings::folded("from"@)
                    &&& text_like(hv[w].value, v@)
                };
            assert(false);
        }
    }
    false
}

fn recipient_like_exec(store: &MailStore, email_id: &str, v: &str) -> (r: bool)
    ensures
        r == recipient_like(store@, email_id@, v@),
{
    let recips = collect_recipients(store, email_id);
    let ghost rv = recipients_of(store@, email_id@);
    let n = recips.len();
    let mut i: usize = 0;
    while i < n
        invariant
            n == recips@.len(),
            recips.deep_view() == rv,
            rv == recipients_of(store@, email_id@),
            rv.len() == n,
            i <= n,
            forall|j: int| 0 <= j < i ==> !text_like(#[trigger] rv[j], v@),
        decreases n - i,
    {
        proof {
            assert(rv[i as int] == recips@[i as int]@);
        }
        if text_like_exec(recips[i].as_str(), v) {
            proof {
                assert(recipient_like(store@, email_id@, v@));
            }
            return true;
        }
        i += 1;
    }
    proof {
        if recipient_like(store@, email_id@, v@) {
            let w = choose|w: int| 0 <= w < rv.len() && text_like(#[trigger] rv[w], v@);
            assert(false);
        }
    }
    false
}

fn attachment_like_exec(store: &MailStore, email_id: &str, v: &str) -> (r: bool)
    ensures
        r == attachment_like(store@.attachments, email_id@, v@),
{
    let ghost av = store@.attachments;
    let n = store.attachments.len();
    let mut i: usize = 0;
    while i < n
        invariant
            n == store.attachments@.len(),
            av == store@.attachments,
            av.len() == n,
            i <= n,
            forall|j: int|
                0 <= j < i ==> !((#[trigger] av[j]).email_id == email_id@ && (av[j].filename matches
                Some(f) && text_like(f, v@))),
        decreases n - i,
    {
        proof {
            assert(av[i as int] == store.attachments@[i as int]@);
        }
        if str_eq(store.attachments[i].email_id.as_str(), email_id) {
            match &store.attachments[i].filename {
                Some(f) => {
                    if text_like_exec(f.as_str(), v) {
                        proof {
                            assert(attachment_like(av, email_id@, v@));
                        }
                        return true;
                    }
                },
                None => {},
            }
        }
        i += 1;
    }
    proof {
        if attachment_like(av, email_id@, v@) {
            let w = choose|w: int|
                {
                    &&& 0 <= w < av.len()
                    &&& (#[trigger] av[w]).email_id == email_id@
                    &&& av[w].filename matches Some(f) && text_like(f, v@)
                };
            assert(false);
        }
    }
    false
}

fn term_matches_exec(store: &MailStore, k: usize, t: &crate::search::SearchTerm) -> (r: bool)
    requires
        k < store@.emails.len(),
    ensures
        r == term_matches(store@, store@.emails[k as int], t@),
{
    proof {
        assert(store@.emails[k as int] == store.emails@[k as int]@);
    }
    let e = &store.emails[k];
    let v = t.value.as_str();
    match t.field {
        crate::search::SearchField::Subject => match &e.subject {
            Some(subj) => text_like_exec(subj.as_str(), v),
            None => false,
        },
        crate::search::SearchField::From => {
            if text_like_exec(e.envelope_from.as_str(), v) {
                true
            } else {
                from_header_like_exec(store, e.id.as_str(), v)
            }
        },
        crate::search::SearchField::Recipient => {
            if recipient_like_exec(store, e.id.as_str(), v) {
                true
            } else {
                header_like_exec(store, e.id.as_str(), false, v)
            }
        },
        crate::search::SearchField::To => {
            if recipient_like_exec(store, e.id.as_str(), v) {
                true
            } else {
                header_like_exec(store, e.id.as_str(), false, v)
            }
        },
        crate::search::SearchField::Text => text_like_exec(e.body_text.as_str(), v),
        crate::search::SearchField::Html => text_like_exec(e.body_html.as_str(), v),
        crate::search::SearchField::Attachment => attachment_like_exec(store, e.id.as_str(), v),
    }
}

fn default_matches_exec(store: &MailStore, k: usize, v: &str) -> (r: bool)
    requires
        k < store@.emails.len(),
    ensures
        r == default_matches(store@, store@.emails[k as int], v@),
{
    proof {
        assert(store@.emails[k as int] == store.emails@[k as int]@);
    }
    let e = &store.emails[k];
    let subj_hit = match &e.subject {
        Some(subj) => text_like_exec(subj.as_str(), v),
        None => false,
    };
    if subj_hit {
        return true;
    }
    if text_like_exec(e.envelope_from.as_str(), v) {
        return true;
    }
    if text_like_exec(e.body_text.as_str(), v) {
        return true;
    }
    if recipient_like_exec(store, e.id.as_str(), v) {
        return true;
    }
    header_like_exec(store, e.id.as_str(), true, v)
}

fn email_matches_exec(store: &MailStore, k: usize, q: &crate::search::ParsedSearchQuery) -> (r:
    bool)
    requires
        k < store@.emails.len(),
    ensures
        r == email_matches(store@, store@.emails[k as int], q@),
{
    let ghost qv = q@;
    let tn = q.field_terms.len();
    let mut i: usize = 0;
    while i < tn
        invariant
            k < store@.emails.len(),
            tn == q.field_terms@.len(),
            qv == q@,
            qv.field_terms.len() == tn,
            i <= tn,
            forall|j: int|
                0 <= j < i ==> term_matches(store@, store@.emails[k as int], #[trigger] qv.field_terms[j]),
        decreases tn - i,
    {
        proof {
            assert(qv.field_terms[i as int] == q.field_terms@[i as int]@);
        }
        if !term_matches_exec(store, k, &q.field_terms[i]) {
            return false;
        }
        i += 1;
    }
    let dn = q.default_terms.len();
    let mut j: usize = 0;
    while j < dn
        invariant
            k < store@.emails.len(),
            dn == q.default_terms@.len(),
            qv == q@,
            qv.default_terms.len() == dn,
            j <= dn,
            forall|m: int|
                0 <= m < j ==> default_matches(
                    store@,
                    store@.emails[k as int],
                    #[trigger] qv.default_terms[m],
                ),
        decreases dn - j,
    {
        proof {
            assert(qv.default_terms[j as int] == q.default_terms@[j as int]@);
        }
        if !default_matches_exec(store, k, q.default_terms[j].as_str()) {
            return false;
        }
        j += 1;
    }
    proof {
        assert(forall|m: int|
            0 <= m < qv.field_terms.len() ==> term_matches(
                store@,
                store@.emails[k as int],
                #[trigger] qv.field_terms[m],
            ));
    }
    true
}

// ---------------------------------------------------------------------------
// Ordering, pagination, listings
// ---------------------------------------------------------------------------

/// Stable descending insertion by creation time: the row goes before the
/// first strictly older row, so rows with equal timestamps keep their
/// insertion order.
pub open spec fn insert_desc(sorted: Seq<EmailRowV>, e: EmailRowV) -> Seq<EmailRowV>
    decreases sorted.len(),
{
    if sorted.len() == 0 {
        seq![e]
    } else if e.created_at > sorted.first().created_at {
        seq![e] + sorted
    } else {
        seq![sorted.first()] + insert_desc(sorted.drop_first(), e)
    }
}

/// Insertion sort of the rows into newest-first order, processed in store
/// order.
pub open spec fn sort_desc_acc(acc: Seq<EmailRowV>, rows: Seq<EmailRowV>) -> Seq<EmailRowV>
    decreases rows.len(),
{
    if rows.len() == 0 {
        acc
    } else {
        sort_desc_acc(insert_desc(acc, rows.first()), rows.drop_first())
    }
}

pub open spec fn match_opt(s: StoreV, e: EmailRowV, q: Option<crate::search::ParsedQueryV>) -> bool {
    match q {
        Some(qq) => email_matches(s, e, qq),
        None => true,
    }
}

/// The rows passing the filter, in store order.
pub open spec fn filter_rows(
    s: StoreV,
    rows: Seq<EmailRowV>,
    q: Option<crate::search::ParsedQueryV>,
) -> Seq<EmailRowV>
    decreases rows.len(),
{
    if rows.len() == 0 {
        Seq::empty()
    } else {
        let head: Seq<EmailRowV> = if match_opt(s, rows.first(), q) {
            seq![rows.first()]
        } else {
            Seq::empty()
        };
        head + filter_rows(s, rows.drop_first(), q)
    }
}

/// The parsed form of a listing's search parameter.
pub open spec fn query_of(lq: ListQuery) -> Option<crate::search::ParsedQueryV> {
    match lq.search {
        Some(ref text) => Some(crate::search::spec_parse_query(text@)),
        None => None,
    }
}

/// The filtered rows sorted newest first.
pub open spec fn listed_rows(s: StoreV, q: Option<crate::search::ParsedQueryV>) -> Seq<EmailRowV> {
    sort_desc_acc(Seq::empty(), filter_rows(s, s.emails, q))
}

/// The requested page: `per_page` rows from offset `(page - 1) * per_page`,
/// a zero page reading as the first.
pub open spec fn page_slice(rows: Seq<EmailRowV>, page: u64, per_page: u64) -> Seq<EmailRowV> {
    let offset = if page >= 1 {
        (page - 1) * per_page
    } else {
        0
    };
    if offset >= rows.len() {
        Seq::empty()
    } else if offset + per_page <= rows.len() {
        rows.subrange(offset as int, (offset + per_page) as int)
    } else {
        rows.subrange(offset as int, rows.len() as int)
    }
}

/// How many pages the filtered rows make: the total divided by the page
/// size, rounded up; zero page size gives zero pages.
pub open spec fn num_pages(total: nat, per_page: u64) -> u64 {
    if per_page == 0 {
        if total == 0 {
            0
        } else {
            u64::MAX
        }
    } else {
        (total as int / per_page as int + (if total as int % per_page as int != 0 {
            1int
        } else {
            0int
        })) as u64
    }
}

fn clone_stored_email(e: &StoredEmail) -> (r: StoredEmail)
    ensures
        r@ == e@,
{
    let r = StoredEmail {
        id: e.id.clone(),
        message_id: clone_opt_string(&e.message_id),
        subject: clone_opt_string(&e.subject),
        date: e.date,
        envelope_from: e.envelope_from.clone(),
        size: e.size,
        compressed_data: clone_bytes(&e.compressed_data),
        plain_data: Ghost(e.plain_data@),
        body_text: e.body_text.clone(),
        body_html: e.body_html.clone(),
        rendered_body_html: clone_opt_string(&e.rendered_body_html),
        read: e.read,
        has_attachments: e.has_attachments,
        created_at: e.created_at,
    };
    proof {
        assert(r@ =~~= e@);
    }
    r
}

proof fn lemma_insert_desc_at(sorted: Seq<EmailRowV>, e: EmailRowV, pos: int)
    requires
        0 <= pos <= sorted.len(),
        forall|j: int| 0 <= j < pos ==> !(e.created_at > (#[trigger] sorted[j]).created_at),
        pos < sorted.len() ==> e.created_at > sorted[pos as int].created_at,
    ensures
        insert_desc(sorted, e) == sorted.take(pos) + seq![e] + sorted.skip(pos),
    decreases sorted.len(),
{
    if sorted.len() == 0 {
        assert(insert_desc(sorted, e) =~= sorted.take(0) + seq![e] + sorted.skip(0));
    } else if pos == 0 {
        assert(insert_desc(sorted, e) =~= sorted.take(0) + seq![e] + sorted.skip(0));
    } else {
        lemma_insert_desc_at(sorted.drop_first(), e, pos - 1);
        assert(sorted.drop_first().take(pos - 1) =~= sorted.take(pos).drop_first());
        assert(sorted.drop_first().skip(pos - 1) =~= sorted.skip(pos));
        assert(insert_desc(sorted, e) =~= sorted.take(pos) + seq![e] + sorted.skip(pos));
    }
}

fn sort_rows_desc(rows: Vec<StoredEmail>) -> (r: Vec<StoredEmail>)
    ensures
        r.deep_view() == sort_desc_acc(Seq::empty(), rows.deep_view()),
{
    let ghost fv = rows.deep_view();
    let n = rows.len();
    let mut sorted: Vec<StoredEmail> = Vec::new();
    let mut i: usize = 0;
    proof {
        assert(fv.skip(0) =~= fv);
    }
    while i < n
        invariant
            n == rows@.len(),
            fv == rows.deep_view(),
            fv.len() == n,
            i <= n,
            sorted@.len() <= i,
            sort_desc_acc(sorted.deep_view(), fv.skip(i as int)) == sort_desc_acc(
                Seq::empty(),
                fv,
            ),
        decreases n - i,
    {
        let ghost acc = sorted.deep_view();
        proof {
            assert(fv.skip(i as int).first() == fv[i as int]);
            assert(fv.skip(i as int).drop_first() =~= fv.skip(i + 1));
            assert(fv[i as int] == rows@[i as int]@);
        }
        let e = clone_stored_email(&rows[i]);
        let ghost ev = e@;
        // find the stable insertion position
        let sn = sorted.len();
        let mut pos: usize = 0;
        while pos < sn && !(e.created_at > sorted[pos].created_at)
            invariant
                sn == sorted@.len(),
                acc == sorted.deep_view(),
                ev == e@,
                pos <= sn,
                forall|j: int| 0 <= j < pos ==> !(ev.created_at > (#[trigger] acc[j]).created_at),
            decreases sn - pos,
        {
            proof {
                assert(acc[pos as int] == sorted@[pos as int]@);
            }
            pos += 1;
        }
        proof {
            if pos < sn {
                assert(acc[pos as int] == sorted@[pos as int]@);
            }
            lemma_insert_desc_at(acc, ev, pos as int);
        }
        let ghost prev = sorted@;
        let ghost prev_deep = sorted.deep_view();
        sorted.insert(pos, e);
        proof {
            assert forall|j: int| 0 <= j < sorted@.len() implies
                #[trigger] sorted.deep_view()[j] == insert_desc(acc, ev)[j] by {
                assert(sorted@ == prev.insert(pos as int, sorted@[pos as int]));
                if j < pos {
                    assert(sorted@[j] == prev[j]);
                    assert(prev_deep[j] == prev[j].deep_view());
                } else if j > pos {
                    assert(sorted@[j] == prev[j - 1]);
                    assert(prev_deep[j - 1] == prev[j - 1].deep_view());
                }
            }
            assert(sorted.deep_view() =~= insert_desc(acc, ev));
        }
        i += 1;
    }
    proof {
        assert(fv.skip(n as int).len() == 0);
        assert(sort_desc_acc(sorted.deep_view(), fv.skip(n as int)) == sorted.deep_view());
    }
    sorted
}

fn list_record_for(store: &MailStore, e: &StoredEmail) -> (r: EmailListRecord)
    ensures
        r@ == spec_list_record(store@, e@),
{
    let recipients = collect_recipients(store, e.id.as_str());
    let tos = collect_to_values(store, e.id.as_str());
    let to_header: Option<Vec<String>> = if tos.len() > 0 {
        Some(tos)
    } else {
        None
    };
    let r = EmailListRecord {
        id: e.id.clone(),
        subject: clone_opt_string(&e.subject),
        date: e.date,
        created_at: e.created_at,
        envelope_from: e.envelope_from.clone(),
        read: e.read,
        has_attachments: e.has_attachments,
        recipients,
        to_header,
    };
    proof {
        assert(r@ =~~= spec_list_record(store@, e@));
    }
    r
}

fn paged_records(store: &MailStore, sorted: &Vec<StoredEmail>, page: u64, per_page: u64) -> (r: Vec<
    EmailListRecord,
>)
    ensures
        r.deep_view().len() == page_slice(sorted.deep_view(), page, per_page).len(),
        forall|j: int|
            0 <= j < r.deep_view().len() ==> #[trigger] r.deep_view()[j] == spec_list_record(
                store@,
                page_slice(sorted.deep_view(), page, per_page)[j],
            ),
{
    let ghost sv = sorted.deep_view();
    let ghost slice = page_slice(sv, page, per_page);
    let n = sorted.len();
    let offset64: u64 = if page >= 1 {
        let p = page - 1;
        if per_page != 0 && p > u64::MAX / per_page {
            u64::MAX
        } else {
            proof {
                if per_page != 0 {
                    assert(p as int * per_page as int <= u64::MAX as int) by (nonlinear_arith)
                        requires
                            per_page >= 1,
                            p as int <= u64::MAX as int / per_page as int,
                    ;
                }
            }
            p * per_page
        }
    } else {
        0
    };
    let mut out: Vec<EmailListRecord> = Vec::new();
    if offset64 >= n as u64 {
        proof {
            if page >= 1 && per_page != 0 && (page - 1) as int > u64::MAX as int / per_page as int {
                assert((page - 1) * per_page >= sv.len()) by (nonlinear_arith)
                    requires
                        (page - 1) as int > u64::MAX as int / per_page as int,
                        per_page >= 1,
                        sv.len() <= u64::MAX,
                ;
            }
            assert(slice.len() == 0);
        }
        return out;
    }
    let start: usize = offset64 as usize;
    proof {
        assert(offset64 < n as u64);
        assert(start as int == offset64 as int);
        if page >= 1 && per_page != 0 {
            assert(offset64 as int == (page - 1) * per_page);
        }
    }
    let remaining: usize = n - start;
    let take: usize = if per_page < remaining as u64 {
        per_page as usize
    } else {
        remaining
    };
    proof {
        assert(slice =~= sv.subrange(start as int, start + take));
    }
    let mut j: usize = 0;
    while j < take
        invariant
            n == sorted@.len(),
            sv == sorted.deep_view(),
            sv.len() == n,
            start + take <= n,
            slice =~= sv.subrange(start as int, start + take),
            j <= take,
            out@.len() == j,
            forall|m: int|
                0 <= m < j ==> #[trigger] out.deep_view()[m] == spec_list_record(store@, slice[m]),
        decreases take - j,
    {
        proof {
            assert(sv[start + j] == sorted@[(start + j) as int]@);
            assert(slice[j as int] == sv[start + j]);
        }
        let rec = list_record_for(store, &sorted[start + j]);
        let ghost rv = rec@;
        let ghost prev = out@;
        let ghost prev_deep = out.deep_view();
        out.push(rec);
        proof {
            assert forall|m: int| 0 <= m < out@.len() implies #[trigger] out.deep_view()[m]
                == prev_deep.push(rv)[m] by {
                if m < prev.len() {
                    assert(out@[m] == prev[m]);
                    assert(prev_deep[m] == prev[m].deep_view());
                }
            }
        }
        j += 1;
    }
    out
}

fn pages_for(total: usize, per_page: u64) -> (r: u64)
    ensures
        r == num_pages(total as nat, per_page),
{
    if per_page == 0 {
        if total == 0 {
            0
        } else {
            u64::MAX
        }
    } else {
        let t = total as u64;
        let q = t / per_page;
        let rem = t % per_page;
        if rem != 0 {
            proof {
                assert(q as int + 1 <= u64::MAX as int) by (nonlinear_arith)
                    requires
                        per_page >= 1,
                        q == t as int / per_page as int,
                        t as int % per_page as int != 0,
                        t <= u64::MAX,
                ;
            }
            q + 1
        } else {
            q
        }
    }
}

impl MailStore {
    /// The paged listing: matching emails newest first, with the page count
    /// for the whole filtered set.
    pub fn get_emails(&self, query_params: &ListQuery) -> (r: (Vec<EmailListRecord>, u64))
        ensures
            ({
                let rows = listed_rows(self@, query_of(*query_params));
                &&& r.0.deep_view().len() == page_slice(
                    rows,
                    query_params.page,
                    query_params.per_page,
                ).len()
                &&& forall|j: int|
                    0 <= j < r.0.deep_view().len() ==> #[trigger] r.0.deep_view()[j]
                        == spec_list_record(
                        self@,
                        page_slice(rows, query_params.page, query_params.per_page)[j],
                    )
                &&& r.1 == num_pages(rows.len(), query_params.per_page)
            }),
    {
        let parsed: Option<crate::search::ParsedSearchQuery> = match &query_params.search {
            Some(text) => Some(crate::search::parse_search_query(text.as_str())),
            None => None,
        };
        let ghost qv = query_of(*query_params);
        proof {
            match parsed {
                Some(ref p) => {
                    assert(qv == Some(p@));
                },
                None => {
                    assert(qv is None);
                },
            }
        }
        let filtered = self.filter_emails(&parsed, Ghost(qv));
        let total = filtered.len();
        proof {
            assert(filtered.deep_view().len() == total);
        }
        let sorted = sort_rows_desc(filtered);
        let ghost rows = listed_rows(self@, qv);
        proof {
            assert(sorted.deep_view() == rows);
            assert(rows.len() == total) by {
                lemma_sort_len(Seq::empty(), filter_rows(self@, self@.emails, qv));
            }
        }
        let records = paged_records(self, &sorted, query_params.page, query_params.per_page);
        let pages = pages_for(total, query_params.per_page);
        (records, pages)
    }

    fn filter_emails(
        &self,
        parsed: &Option<crate::search::ParsedSearchQuery>,
        Ghost(qv): Ghost<Option<crate::search::ParsedQueryV>>,
    ) -> (r: Vec<StoredEmail>)
        requires
            match parsed {
                Some(p) => qv == Some(p@),
                None => qv is None,
            },
        ensures
            r.deep_view() == filter_rows(self@, self@.emails, qv),
    {
        let ghost ev = self@.emails;
        let n = self.emails.len();
        let mut out: Vec<StoredEmail> = Vec::new();
        let mut i: usize = 0;
        proof {
            assert(ev.skip(0) =~= ev);
        }
        while i < n
            invariant
                n == self.emails@.len(),
                ev == self@.emails,
                ev.len() == n,
                match parsed {
                    Some(p) => qv == Some(p@),
                    None => qv is None,
                },
                i <= n,
                out.deep_view() + filter_rows(
                    StoreV { ..self@ },
                    ev.skip(i as int),
                    qv,
                ) == filter_rows(self@, ev, qv),
            decreases n - i,
        {
            proof {
                assert(ev.skip(i as int).first() == ev[i as int]);
                assert(ev.skip(i as int).drop_first() =~= ev.skip(i + 1));
                assert(ev[i as int] == self.emails@[i as int]@);
            }
            let keep = match parsed {
                Some(p) => email_matches_exec(self, i, p),
                None => true,
            };
            if keep {
                let item = clone_stored_email(&self.emails[i]);
                let ghost iv = item@;
                let ghost prev = out@;
                let ghost prev_deep = out.deep_view();
                out.push(item);
                proof {
                    assert forall|k: int| 0 <= k < out@.len() implies #[trigger] out.deep_view()[k]
                        == prev_deep.push(iv)[k] by {
                        if k < prev.len() {
                            assert(out@[k] == prev[k]);
                            assert(prev_deep[k] == prev[k].deep_view());
                        }
                    }
                    assert(out.deep_view() =~= prev_deep.push(iv));
                }
            }
            proof {
                assert(out.deep_view() + filter_rows(self@, ev.skip(i + 1), qv) =~= filter_rows(
                    self@,
                    ev,
                    qv,
                ));
            }
            i += 1;
        }
        proof {
            assert(ev.skip(n as int).len() == 0);
            assert(out.deep_view() =~= filter_rows(self@, ev, qv));
        }
        out
    }
}

proof fn lemma_sort_len(acc: Seq<EmailRowV>, rows: Seq<EmailRowV>)
    ensures
        sort_desc_acc(acc, rows).len() == acc.len() + rows.len(),
    decreases rows.len(),
{
    if rows.len() > 0 {
        lemma_insert_desc_len(acc, rows.first());
        lemma_sort_len(insert_desc(acc, rows.first()), rows.drop_first());
    }
}

proof fn lemma_insert_desc_len(sorted: Seq<EmailRowV>, e: EmailRowV)
    ensures
        insert_desc(sorted, e).len() == sorted.len() + 1,
    decreases sorted.len(),
{
    if sorted.len() > 0 && !(e.created_at > sorted.first().created_at) {
        lemma_insert_desc_len(sorted.drop_first(), e);
    }
}

// ---------------------------------------------------------------------------
// Listing by recipient, and counts
// ---------------------------------------------------------------------------

pub open spec fn email_has_recipient(s: StoreV, email_id: Seq<char>, addr: Seq<char>) -> bool {
    recipients_of(s, email_id).contains(addr)
}

/// The rows of emails delivered to `addr` that also pass the filter, in
/// store order.
pub open spec fn filter_rows_r(
    s: StoreV,
    rows: Seq<EmailRowV>,
    q: Option<crate::search::ParsedQueryV>,
    addr: Seq<char>,
) -> Seq<EmailRowV>
    decreases rows.len(),
{
    if rows.len() == 0 {
        Seq::empty()
    } else {
        let head: Seq<EmailRowV> = if email_has_recipient(s, rows.first().id, addr) && match_opt(
            s,
            rows.first(),
            q,
        ) {
            seq![rows.first()]
        } else {
            Seq::empty()
        };
        head + filter_rows_r(s, rows.drop_first(), q, addr)
    }
}

pub open spec fn listed_rows_r(
    s: StoreV,
    q: Option<crate::search::ParsedQueryV>,
    addr: Seq<char>,
) -> Seq<EmailRowV> {
    sort_desc_acc(Seq::empty(), filter_rows_r(s, s.emails, q, addr))
}

fn email_has_recipient_exec(store: &MailStore, email_id: &str, addr: &str) -> (r: bool)
    ensures
        r == email_has_recipient(store@, email_id@, addr@),
{
    let recips = collect_recipients(store, email_id);
    let ghost rv = recipients_of(store@, email_id@);
    let n = recips.len();
    let mut i: usize = 0;
    while i < n
        invariant
            n == recips@.len(),
            recips.deep_view() == rv,
            rv == recipients_of(store@, email_id@),
            rv.len() == n,
            i <= n,
            forall|j: int| 0 <= j < i ==> rv[j] != addr@,
        decreases n - i,
    {
        proof {
            assert(rv[i as int] == recips@[i as int]@);
        }
        if str_eq(recips[i].as_str(), addr) {
            proof {
                assert(rv.contains(addr@));
            }
            return true;
        }
        i += 1;
    }
    proof {
        if rv.contains(addr@) {
            let w = choose|w: int| 0 <= w < rv.len() && rv[w] == addr@;
            assert(false);
        }
    }
    false
}

impl MailStore {
    /// The paged listing restricted to emails delivered to one envelope
    /// recipient address; an unknown address gives an empty result with zero
    /// pages.
    pub fn get_emails_by_recipient(&self, recipient_email: &str, query_params: &ListQuery) -> (r: (
        Vec<EmailListRecord>,
        u64,
    ))
        ensures
            ({
                let rows = listed_rows_r(self@, query_of(*query_params), recipient_email@);
                &&& r.0.deep_view().len() == page_slice(
                    rows,
                    query_params.page,
                    query_params.per_page,
                ).len()
                &&& forall|j: int|
                    0 <= j < r.0.deep_view().len() ==> #[trigger] r.0.deep_view()[j]
                        == spec_list_record(
                        self@,
                        page_slice(rows, query_params.page, query_params.per_page)[j],
                    )
                &&& r.1 == num_pages(rows.len(), query_params.per_page)
            }),
    {
        let parsed: Option<crate::search::ParsedSearchQuery> = match &query_params.search {
            Some(text) => Some(crate::search::parse_search_query(text.as_str())),
            None => None,
        };
        let ghost qv = query_of(*query_params);
        proof {
            match parsed {
                Some(ref p) => {
                    assert(qv == Some(p@));
                },
                None => {
                    assert(qv is None);
                },
            }
        }
        let ghost ev = self@.emails;
        let n = self.emails.len();
        let mut filtered: Vec<StoredEmail> = Vec::new();
        let mut i: usize = 0;
        proof {
            assert(ev.skip(0) =~= ev);
        }
        while i < n
            invariant
                n == self.emails@.len(),
                ev == self@.emails,
                ev.len() == n,
                match parsed {
                    Some(ref p) => qv == Some(p@),
                    None => qv is None,
                },
                i <= n,
                filtered.deep_view() + filter_rows_r(self@, ev.skip(i as int), qv, recipient_email@)
                    == filter_rows_r(self@, ev, qv, recipient_email@),
            decreases n - i,
        {
            proof {
                assert(ev.skip(i as int).first() == ev[i as int]);
                assert(ev.skip(i as int).drop_first() =~= ev.skip(i + 1));
                assert(ev[i as int] == self.emails@[i as int]@);
            }
            let restricted = email_has_recipient_exec(
                self,
                self.emails[i].id.as_str(),
                recipient_email,
            );
            let keep = if restricted {
                match parsed {
                    Some(ref p) => email_matches_exec(self, i, p),
                    None => true,
                }
            } else {
                false
            };
            if keep {
                let item = clone_stored_email(&self.emails[i]);
                let ghost iv = item@;
                let ghost prev = filtered@;
                let ghost prev_deep = filtered.deep_view();
                filtered.push(item);
                proof {
                    assert forall|k: int| 0 <= k < filtered@.len() implies
                        #[trigger] filtered.deep_view()[k] == prev_deep.push(iv)[k] by {
                        if k < prev.len() {
                            assert(filtered@[k] == prev[k]);
                            assert(prev_deep[k] == prev[k].deep_view());
                        }
                    }
                    assert(filtered.deep_view() =~= prev_deep.push(iv));
                }
            }
            proof {
                assert(filtered.deep_view() + filter_rows_r(
                    self@,
                    ev.skip(i + 1),
                    qv,
                    recipient_email@,
                ) =~= filter_rows_r(self@, ev, qv, recipient_email@));
            }
            i += 1;
        }
        proof {
            assert(ev.skip(n as int).len() == 0);
            assert(filtered.deep_view() =~= filter_rows_r(self@, ev, qv, recipient_email@));
        }
        let total = filtered.len();
        proof {
            assert(filtered.deep_view().len() == total);
        }
        let sorted = sort_rows_desc(filtered);
        let ghost rows = listed_rows_r(self@, qv, recipient_email@);
        proof {
            assert(sorted.deep_view() == rows);
            lemma_sort_len(Seq::empty(), filter_rows_r(self@, self@.emails, qv, recipient_email@));
        }
        let records = paged_records(self, &sorted, query_params.page, query_params.per_page);
        let pages = pages_for(total, query_params.per_page);
        (records, pages)
    }
}

/// How many join rows point at one recipient.
pub open spec fn count_joins_of(js: Seq<JoinRowV>, rid: Seq<char>) -> int
    decreases js.len(),
{
    if js.len() == 0 {
        0
    } else {
        (if js.first().recipient_id == rid {
            1int
        } else {
            0int
        }) + count_joins_of(js.drop_first(), rid)
    }
}

#[verifier::ext_equal]
pub struct StatsRowV {
    pub recipient: Seq<char>,
    pub count: u64,
}

impl View for RecipientStats {
    type V = StatsRowV;

    open spec fn view(&self) -> StatsRowV {
        StatsRowV { recipient: self.recipient@, count: self.count }
    }
}

impl DeepView for RecipientStats {
    type V = StatsRowV;

    open spec fn deep_view(&self) -> StatsRowV {
        self.view()
    }
}

/// The per-recipient histogram: every recipient with at least one delivery,
/// in the recipient list's (address-ascending) order.
pub open spec fn spec_stats_rows(rs: Seq<RecipientRowV>, js: Seq<JoinRowV>) -> Seq<StatsRowV>
    decreases rs.len(),
{
    if rs.len() == 0 {
        Seq::empty()
    } else {
        let c = count_joins_of(js, rs.first().id);
        let head: Seq<StatsRowV> = if c > 0 {
            seq![StatsRowV { recipient: rs.first().address, count: c as u64 }]
        } else {
            Seq::empty()
        };
        head + spec_stats_rows(rs.drop_first(), js)
    }
}

/// How many emails are unread.
pub open spec fn count_unread(es: Seq<EmailRowV>) -> int
    decreases es.len(),
{
    if es.len() == 0 {
        0
    } else {
        (if !es.first().read {
            1int
        } else {
            0int
        }) + count_unread(es.drop_first())
    }
}

fn count_joins_exec(joins: &Vec<JoinRow>, rid: &str) -> (r: u64)
    requires
        joins@.len() <= u64::MAX,
    ensures
        r == count_joins_of(joins.deep_view(), rid@),
{
    let ghost jv = joins.deep_view();
    let n = joins.len();
    let mut cnt: u64 = 0;
    let mut i: usize = 0;
    proof {
        assert(jv.skip(0) =~= jv);
        lemma_count_joins_bound(jv, rid@);
    }
    while i < n
        invariant
            n == joins@.len(),
            jv == joins.deep_view(),
            jv.len() == n,
            n <= u64::MAX,
            i <= n,
            cnt <= i,
            cnt + count_joins_of(jv.skip(i as int), rid@) == count_joins_of(jv, rid@),
            count_joins_of(jv.skip(i as int), rid@) >= 0,
        decreases n - i,
    {
        proof {
            assert(jv.skip(i as int).first() == jv[i as int]);
            assert(jv.skip(i as int).drop_first() =~= jv.skip(i + 1));
            assert(jv[i as int] == joins@[i as int]@);
            lemma_count_joins_bound(jv.skip(i + 1), rid@);
        }
        if str_eq(joins[i].recipient_id.as_str(), rid) {
            cnt = cnt + 1;
        }
        i += 1;
    }
    proof {
        assert(jv.skip(n as int).len() == 0);
    }
    cnt
}

proof fn lemma_count_joins_bound(js: Seq<JoinRowV>, rid: Seq<char>)
    ensures
        0 <= count_joins_of(js, rid) <= js.len(),
    decreases js.len(),
{
    if js.len() > 0 {
        lemma_count_joins_bound(js.drop_first(), rid);
    }
}

impl MailStore {
    /// Aggregate counts: inbox total, unread total, and the per-recipient
    /// histogram ordered by address ascending, recipients with no deliveries
    /// left out.
    pub fn get_email_counts(&self) -> (r: EmailStats)
        ensures
            r.inbox == self@.emails.len(),
            r.unread == count_unread(self@.emails),
            r.recipients.deep_view() == spec_stats_rows(self@.recipients, self@.joins),
    {
        let inbox = self.emails.len() as u64;
        proof {
            lemma_count_unread_bound(self@.emails);
        }
        let ghost ev = self@.emails;
        let n = self.emails.len();
        let mut unread: u64 = 0;
        let mut i: usize = 0;
        proof {
            assert(ev.skip(0) =~= ev);
        }
        while i < n
            invariant
                n == self.emails@.len(),
                ev == self@.emails,
                ev.len() == n,
                i <= n,
                unread <= i,
                unread + count_unread(ev.skip(i as int)) == count_unread(ev),
            decreases n - i,
        {
            proof {
                assert(ev.skip(i as int).first() == ev[i as int]);
                assert(ev.skip(i as int).drop_first() =~= ev.skip(i + 1));
                assert(ev[i as int] == self.emails@[i as int]@);
                lemma_count_unread_bound(ev.skip(i + 1));
            }
            if !self.emails[i].read {
                unread = unread + 1;
            }
            i += 1;
        }
        proof {
            assert(ev.skip(n as int).len() == 0);
        }
        let ghost rsv = self@.recipients;
        let rn = self.recipients.len();
        let jn_bound = self.joins.len();
        let mut stats: Vec<RecipientStats> = Vec::new();
        let mut k: usize = 0;
        proof {
            assert(rsv.skip(0) =~= rsv);
        }
        while k < rn
            invariant
                rn == self.recipients@.len(),
                rsv == self@.recipients,
                rsv.len() == rn,
                jn_bound == self.joins@.len(),
                self.joins@.len() == self@.joins.len(),
                k <= rn,
                stats.deep_view() + spec_stats_rows(rsv.skip(k as int), self@.joins)
                    == spec_stats_rows(rsv, self@.joins),
            decreases rn - k,
        {
            proof {
                assert(rsv.skip(k as int).first() == rsv[k as int]);
                assert(rsv.skip(k as int).drop_first() =~= rsv.skip(k + 1));
                assert(rsv[k as int] == self.recipients@[k as int]@);
                lemma_count_joins_bound(self@.joins, rsv[k as int].id);
            }
            let c = count_joins_exec(&self.joins, self.recipients[k].id.as_str());
            if c > 0 {
                let row = RecipientStats { recipient: self.recipients[k].address.clone(), count: c };
                let ghost rv = row@;
                let ghost prev = stats@;
                let ghost prev_deep = stats.deep_view();
                stats.push(row);
                proof {
                    assert forall|j: int| 0 <= j < stats@.len() implies
                        #[trigger] stats.deep_view()[j] == prev_deep.push(rv)[j] by {
                        if j < prev.len() {
                            assert(stats@[j] == prev[j]);
                            assert(prev_deep[j] == prev[j].deep_view());
                        }
                    }
                    assert(stats.deep_view() =~= prev_deep.push(rv));
                }
            }
            proof {
                assert(stats.deep_view() + spec_stats_rows(rsv.skip(k + 1), self@.joins)
                    =~= spec_stats_rows(rsv, self@.joins));
            }
            k += 1;
        }
        proof {
            assert(rsv.skip(rn as int).len() == 0);
            assert(stats.deep_view() =~= spec_stats_rows(rsv, self@.joins));
        }
        EmailStats { inbox, unread, recipients: stats }
    }
}

proof fn lemma_count_unread_bound(es: Seq<EmailRowV>)
    ensures
        0 <= count_unread(es) <= es.len(),
    decreases es.len(),
{
    if es.len() > 0 {
        lemma_count_unread_bound(es.drop_first());
    }
}

// ---------------------------------------------------------------------------
// Laws
// ---------------------------------------------------------------------------

/// What `mark_email_read` does to the store.
pub open spec fn spec_mark(s: StoreV, id: Seq<char>, flag: bool) -> StoreV {
    match find_email(s.emails, id) {
        Some(k) => StoreV { emails: s.emails.update(k, EmailRowV { read: flag, ..s.emails[k] }), ..s },
        None => s,
    }
}

pub proof fn lemma_find_email_same_ids_pub(es1: Seq<EmailRowV>, es2: Seq<EmailRowV>, id: Seq<char>)
    requires
        es1.len() == es2.len(),
        forall|j: int| 0 <= j < es1.len() ==> (#[trigger] es1[j]).id == es2[j].id,
    ensures
        find_email(es1, id) == find_email(es2, id),
    decreases es1.len(),
{
    if es1.len() > 0 {
        assert(es1[0].id == es2[0].id);
        assert(es1.drop_first().len() == es2.drop_first().len());
        assert forall|j: int| 0 <= j < es1.drop_first().len() implies
            (#[trigger] es1.drop_first()[j]).id == es2.drop_first()[j].id by {
            assert(es1.drop_first()[j] == es1[j + 1]);
            assert(es2.drop_first()[j] == es2[j + 1]);
        }
        lemma_find_email_same_ids_pub(es1.drop_first(), es2.drop_first(), id);
    }
}

/// Law: setting the read flag twice leaves the store exactly as setting it
/// once does.
pub proof fn lemma_mark_read_idempotent(s: StoreV, id: Seq<char>, flag: bool)
    ensures
        spec_mark(spec_mark(s, id, flag), id, flag) == spec_mark(s, id, flag),
{
    let once = spec_mark(s, id, flag);
    match find_email(s.emails, id) {
        None => {
        },
        Some(k) => {
            lemma_find_email(s.emails, id);
            assert(once.emails.len() == s.emails.len());
            assert forall|j: int| 0 <= j < once.emails.len() implies (#[trigger] once.emails[j]).id
                == s.emails[j].id by {}
            lemma_find_email_same_ids_pub(once.emails, s.emails, id);
            assert(find_email(once.emails, id) == Some(k));
            assert(spec_mark(once, id, flag) =~~= once) by {
                assert(once.emails.update(k, EmailRowV { read: flag, ..once.emails[k] })
                    =~= once.emails);
            }
        },
    }
}

/// Neither the email rows nor the attachment and header rows change while
/// the envelope recipients are folded in.
proof fn lemma_add_recipients_frame(
    s: StoreV,
    e: Seq<char>,
    addrs: Seq<Seq<char>>,
    rids: Seq<Seq<char>>,
)
    ensures
        add_recipients(s, e, addrs, rids).emails == s.emails,
        add_recipients(s, e, addrs, rids).attachments == s.attachments,
        add_recipients(s, e, addrs, rids).headers == s.headers,
    decreases addrs.len(),
{
    if addrs.len() > 0 && rids.len() > 0 {
        lemma_add_recipients_frame(
            add_one_recipient(s, e, addrs.first(), rids.first()),
            e,
            addrs.drop_first(),
            rids.drop_first(),
        );
    }
}

/// Law: a successful save of a message whose id is fresh leaves exactly one
/// email row with that id.
pub proof fn lemma_saved_email_unique(
    pre: StoreV,
    m: EmailView,
    aids: Seq<Seq<char>>,
    rids: Seq<Seq<char>>,
    now: i64,
)
    requires
        !has_email(pre, m.id),
    ensures
        ({
            let post = spec_save(pre, m, aids, rids, now);
            &&& post.emails.len() == pre.emails.len() + 1
            &&& post.emails.last().id == m.id
            &&& forall|i: int| 0 <= i < post.emails.len() - 1 ==> (#[trigger] post.emails[i]).id != m.id
        }),
{
    let with_email = StoreV { emails: pre.emails.push(save_email_row(m, aids, now)), ..pre };
    lemma_add_recipients_frame(with_email, m.id, m.to, rids);
    let post = spec_save(pre, m, aids, rids, now);
    assert(post.emails == pre.emails.push(save_email_row(m, aids, now)));
    assert forall|i: int| 0 <= i < post.emails.len() - 1 implies (#[trigger] post.emails[i]).id
        != m.id by {
        if post.emails[i].id == m.id {
            assert(pre.emails[i].id == m.id);
            assert(has_email(pre, m.id));
        }
    }
}

/// How many join rows an email has.
pub open spec fn count_joins_for_email(js: Seq<JoinRowV>, e: Seq<char>) -> int
    decreases js.len(),
{
    if js.len() == 0 {
        0
    } else {
        (if js.first().email_id == e {
            1int
        } else {
            0int
        }) + count_joins_for_email(js.drop_first(), e)
    }
}

/// The distinct non-blank addresses of a RCPT list, gathered left to right
/// into `acc`.
pub open spec fn gather_nonblank(acc: Set<Seq<char>>, addrs: Seq<Seq<char>>) -> Set<Seq<char>>
    decreases addrs.len(),
{
    if addrs.len() == 0 {
        acc
    } else {
        gather_nonblank(
            if is_blank(addrs.first()) {
                acc
            } else {
                acc.insert(addrs.first())
            },
            addrs.drop_first(),
        )
    }
}

/// The set of distinct non-blank RCPT addresses.
pub open spec fn distinct_nonblank(addrs: Seq<Seq<char>>) -> Set<Seq<char>> {
    gather_nonblank(Set::empty(), addrs)
}

/// An address counts as delivered-to for an email when some join row of the
/// email resolves to it.
pub open spec fn joined_addr(s: StoreV, e: Seq<char>, a: Seq<char>) -> bool {
    exists|j: int|
        0 <= j < s.joins.len() && (#[trigger] s.joins[j]).email_id == e && addr_of_rid(
            s.recipients,
            s.joins[j].recipient_id,
        ) == Some(a)
}

pub open spec fn recipients_addr_unique(rs: Seq<RecipientRowV>) -> bool {
    forall|i: int, j: int|
        0 <= i < j < rs.len() ==> (#[trigger] rs[i]).address != (#[trigger] rs[j]).address
}

pub open spec fn recipients_id_unique(rs: Seq<RecipientRowV>) -> bool {
    forall|i: int, j: int|
        0 <= i < j < rs.len() ==> (#[trigger] rs[i]).id != (#[trigger] rs[j]).id
}

pub open spec fn joins_reference(js: Seq<JoinRowV>, rs: Seq<RecipientRowV>) -> bool {
    forall|j: int| 0 <= j < js.len() ==> has_recipient_id(rs, (#[trigger] js[j]).recipient_id)
}

proof fn lemma_count_joins_push(js: Seq<JoinRowV>, j: JoinRowV, e: Seq<char>)
    ensures
        count_joins_for_email(js.push(j), e) == count_joins_for_email(js, e) + (
        if j.email_id == e {
            1int
        } else {
            0int
        }),
    decreases js.len(),
{
    assert(count_joins_for_email(Seq::<JoinRowV>::empty(), e) == 0);
    if js.len() == 0 {
        assert(js.push(j).first() == j);
        assert(js.push(j).drop_first() =~= Seq::<JoinRowV>::empty());
        assert(count_joins_for_email(js.push(j), e) == (if j.email_id == e {
            1int
        } else {
            0int
        }) + count_joins_for_email(Seq::<JoinRowV>::empty(), e));
    } else {
        assert(js.push(j).first() == js.first());
        assert(js.push(j).drop_first() =~= js.drop_first().push(j));
        lemma_count_joins_push(js.drop_first(), j, e);
        assert(count_joins_for_email(js.push(j), e) == (if js.first().email_id == e {
            1int
        } else {
            0int
        }) + count_joins_for_email(js.drop_first().push(j), e));
    }
}

proof fn lemma_count_joins_none(js: Seq<JoinRowV>, e: Seq<char>)
    requires
        forall|j: int| 0 <= j < js.len() ==> (#[trigger] js[j]).email_id != e,
    ensures
        count_joins_for_email(js, e) == 0,
    decreases js.len(),
{
    if js.len() > 0 {
        assert forall|j: int| 0 <= j < js.drop_first().len() implies
            (#[trigger] js.drop_first()[j]).email_id != e by {
            assert(js.drop_first()[j] == js[j + 1]);
        }
        lemma_count_joins_none(js.drop_first(), e);
    }
}

proof fn lemma_addr_of_by_index(rs: Seq<RecipientRowV>, idx: int)
    requires
        recipients_id_unique(rs),
        0 <= idx < rs.len(),
    ensures
        addr_of_rid(rs, rs[idx].id) == Some(rs[idx].address),
    decreases rs.len(),
{
    if idx == 0 {
    } else {
        assert(rs.first().id != rs[idx].id);
        assert forall|i: int, j: int| 0 <= i < j < rs.drop_first().len() implies
            (#[trigger] rs.drop_first()[i]).id != (#[trigger] rs.drop_first()[j]).id by {
            assert(rs.drop_first()[i] == rs[i + 1]);
            assert(rs.drop_first()[j] == rs[j + 1]);
        }
        lemma_addr_of_by_index(rs.drop_first(), idx - 1);
        assert(rs.drop_first()[idx - 1] == rs[idx]);
    }
}

proof fn lemma_addr_of_row(rs: Seq<RecipientRowV>, rid: Seq<char>)
    ensures
        match addr_of_rid(rs, rid) {
            Some(a) => exists|k: int|
                0 <= k < rs.len() && (#[trigger] rs[k]).id == rid && rs[k].address == a,
            None => forall|k: int| 0 <= k < rs.len() ==> (#[trigger] rs[k]).id != rid,
        },
    decreases rs.len(),
{
    if rs.len() > 0 && rs.first().id != rid {
        lemma_addr_of_row(rs.drop_first(), rid);
        match addr_of_rid(rs.drop_first(), rid) {
            Some(a) => {
                let k = choose|k: int|
                    0 <= k < rs.drop_first().len() && (#[trigger] rs.drop_first()[k]).id == rid
                        && rs.drop_first()[k].address == a;
                assert(rs.drop_first()[k] == rs[k + 1]);
            },
            None => {
                assert forall|k: int| 0 <= k < rs.len() implies (#[trigger] rs[k]).id != rid by {
                    if k > 0 {
                        assert(rs.drop_first()[k - 1] == rs[k]);
                    }
                }
            },
        }
    }
}

proof fn lemma_addr_of_insert_other(rs: Seq<RecipientRowV>, row: RecipientRowV, rid: Seq<char>)
    requires
        rid != row.id,
    ensures
        addr_of_rid(insert_sorted(rs, row), rid) == addr_of_rid(rs, rid),
    decreases rs.len(),
{
    if rs.len() == 0 {
        assert(insert_sorted(rs, row) =~= seq![row]);
        assert(insert_sorted(rs, row).first() == row);
        assert(insert_sorted(rs, row).drop_first() =~= Seq::<RecipientRowV>::empty());
    } else if lex_lt(row.address, rs.first().address) {
        let ins = insert_sorted(rs, row);
        assert(ins.first() == row);
        assert(ins.drop_first() =~= rs);
    } else {
        let ins = insert_sorted(rs, row);
        assert(ins.first() == rs.first());
        assert(ins.drop_first() =~= insert_sorted(rs.drop_first(), row));
        lemma_addr_of_insert_other(rs.drop_first(), row, rid);
    }
}

proof fn lemma_addr_of_insert_self(rs: Seq<RecipientRowV>, row: RecipientRowV)
    requires
        forall|k: int| 0 <= k < rs.len() ==> (#[trigger] rs[k]).id != row.id,
    ensures
        addr_of_rid(insert_sorted(rs, row), row.id) == Some(row.address),
    decreases rs.len(),
{
    if rs.len() == 0 {
        assert(insert_sorted(rs, row) =~= seq![row]);
        assert(insert_sorted(rs, row).first() == row);
    } else if lex_lt(row.address, rs.first().address) {
        assert(insert_sorted(rs, row).first() == row);
    } else {
        let ins = insert_sorted(rs, row);
        assert(ins.first() == rs.first());
        assert(rs.first().id != row.id);
        assert(ins.drop_first() =~= insert_sorted(rs.drop_first(), row));
        assert forall|k: int| 0 <= k < rs.drop_first().len() implies
            (#[trigger] rs.drop_first()[k]).id != row.id by {
            assert(rs.drop_first()[k] == rs[k + 1]);
        }
        lemma_addr_of_insert_self(rs.drop_first(), row);
    }
}

pub open spec fn insert_shape_at(rs: Seq<RecipientRowV>, row: RecipientRowV, p: int) -> bool {
    &&& 0 <= p <= rs.len()
    &&& insert_sorted(rs, row) =~= rs.take(p) + seq![row] + rs.skip(p)
    &&& forall|j: int| 0 <= j < p ==> !lex_lt(row.address, (#[trigger] rs[j]).address)
    &&& (p < rs.len() ==> lex_lt(row.address, rs[p as int].address))
}

proof fn lemma_insert_shape(rs: Seq<RecipientRowV>, row: RecipientRowV)
    ensures
        exists|p: int| insert_shape_at(rs, row, p),
    decreases rs.len(),
{
    if rs.len() == 0 {
        assert(insert_sorted(rs, row) =~= rs.take(0) + seq![row] + rs.skip(0));
        assert(insert_shape_at(rs, row, 0));
    } else if lex_lt(row.address, rs.first().address) {
        assert(insert_sorted(rs, row) =~= rs.take(0) + seq![row] + rs.skip(0));
        assert(insert_shape_at(rs, row, 0));
    } else {
        lemma_insert_shape(rs.drop_first(), row);
        let q = choose|q: int| insert_shape_at(rs.drop_first(), row, q);
        assert(rs.drop_first().take(q) =~= rs.take(q + 1).drop_first());
        assert(rs.drop_first().skip(q) =~= rs.skip(q + 1));
        assert(insert_sorted(rs, row) =~= rs.take(q + 1) + seq![row] + rs.skip(q + 1));
        assert forall|j: int| 0 <= j < q + 1 implies !lex_lt(
            row.address,
            (#[trigger] rs[j]).address,
        ) by {
            if j > 0 {
                assert(rs.drop_first()[j - 1] == rs[j]);
            }
        }
        if q + 1 < rs.len() {
            assert(rs.drop_first()[q] == rs[q + 1]);
        }
        assert(insert_shape_at(rs, row, q + 1));
    }
}

/// The inductive heart of the join-count law: folding a RCPT list into a
/// consistent store adds exactly as many join rows for the email as there
/// are new distinct non-blank addresses.
proof fn lemma_fold_join_count(
    s: StoreV,
    e: Seq<char>,
    addrs: Seq<Seq<char>>,
    rids: Seq<Seq<char>>,
    dn: Set<Seq<char>>,
)
    requires
        rids.len() == addrs.len(),
        forall|i: int, j: int| 0 <= i < j < rids.len() ==> rids[i] != rids[j],
        forall|i: int| 0 <= i < rids.len() ==> !has_recipient_id(s.recipients, #[trigger] rids[i]),
        recipients_addr_unique(s.recipients),
        recipients_id_unique(s.recipients),
        joins_reference(s.joins, s.recipients),
        dn.finite(),
        forall|a: Seq<char>| #![trigger dn.contains(a)] joined_addr(s, e, a) <==> dn.contains(a),
    ensures
        count_joins_for_email(add_recipients(s, e, addrs, rids).joins, e) == count_joins_for_email(
            s.joins,
            e,
        ) + gather_nonblank(dn, addrs).len() - dn.len(),
        gather_nonblank(dn, addrs).finite(),
        gather_nonblank(dn, addrs).len() >= dn.len(),
    decreases addrs.len(),
{
    if addrs.len() == 0 {
        assert(add_recipients(s, e, addrs, rids) == s);
        assert(gather_nonblank(dn, addrs) == dn);
    } else {
        let a = addrs.first();
        let rid = rids.first();
        let rest_a = addrs.drop_first();
        let rest_r = rids.drop_first();
        assert forall|i: int, j: int| 0 <= i < j < rest_r.len() implies rest_r[i] != rest_r[j] by {
            assert(rest_r[i] == rids[i + 1]);
            assert(rest_r[j] == rids[j + 1]);
        }
        let s1 = add_one_recipient(s, e, a, rid);
        assert(add_recipients(s, e, addrs, rids) == add_recipients(s1, e, rest_a, rest_r));
        if is_blank(a) {
            assert(s1 == s);
            assert forall|i: int| 0 <= i < rest_r.len() implies !has_recipient_id(
                s.recipients,
                #[trigger] rest_r[i],
            ) by {
                assert(rest_r[i] == rids[i + 1]);
            }
            lemma_fold_join_count(s, e, rest_a, rest_r, dn);
            assert(gather_nonblank(dn, addrs) == gather_nonblank(dn, rest_a));
        } else {
            lemma_find_recipient(s.recipients, a);
            match find_recipient(s.recipients, a) {
                Some(idx) => {
                    let rid0 = s.recipients[idx].id;
                    lemma_addr_of_by_index(s.recipients, idx);
                    assert(addr_of_rid(s.recipients, rid0) == Some(a));
                    if has_join(s.joins, e, rid0) {
                        let w = choose|w: int|
                            0 <= w < s.joins.len() && (#[trigger] s.joins[w]).email_id == e
                                && s.joins[w].recipient_id == rid0;
                        assert(joined_addr(s, e, a));
                        assert(dn.contains(a));
                        assert(dn.insert(a) =~= dn);
                        assert(s1 == s);
                        assert forall|i: int| 0 <= i < rest_r.len() implies !has_recipient_id(
                            s.recipients,
                            #[trigger] rest_r[i],
                        ) by {
                            assert(rest_r[i] == rids[i + 1]);
                        }
                        lemma_fold_join_count(s, e, rest_a, rest_r, dn);
                        assert(gather_nonblank(dn, addrs) == gather_nonblank(dn.insert(a), rest_a));
                        assert(gather_nonblank(dn.insert(a), rest_a) == gather_nonblank(
                            dn,
                            rest_a,
                        ));
                    } else {
                        let nj = JoinRowV { email_id: e, recipient_id: rid0 };
                        assert(s1.joins == s.joins.push(nj));
                        assert(s1.recipients == s.recipients);
                        lemma_count_joins_push(s.joins, nj, e);
                        assert(!dn.contains(a)) by {
                            if dn.contains(a) {
                                assert(joined_addr(s, e, a));
                                let w = choose|w: int|
                                    0 <= w < s.joins.len() && (#[trigger] s.joins[w]).email_id == e
                                        && addr_of_rid(s.recipients, s.joins[w].recipient_id)
                                        == Some(a);
                                lemma_addr_of_row(s.recipients, s.joins[w].recipient_id);
                                let k = choose|k: int|
                                    0 <= k < s.recipients.len() && (#[trigger] s.recipients[k]).id
                                        == s.joins[w].recipient_id && s.recipients[k].address == a;
                                if k != idx {
                                    assert(s.recipients[k].address == s.recipients[idx].address);
                                    assert(false);
                                }
                                assert(s.joins[w].recipient_id == rid0);
                                assert(has_join(s.joins, e, rid0));
                                assert(false);
                            }
                        }
                        let dn1 = dn.insert(a);
                        assert(dn1.len() == dn.len() + 1);
                        assert forall|x: Seq<char>| #![trigger dn1.contains(x)] joined_addr(
                            s1,
                            e,
                            x,
                        ) <==> dn1.contains(x) by {
                            if joined_addr(s1, e, x) {
                                let w = choose|w: int|
                                    0 <= w < s1.joins.len() && (#[trigger] s1.joins[w]).email_id
                                        == e && addr_of_rid(s1.recipients, s1.joins[w].recipient_id)
                                        == Some(x);
                                if w < s.joins.len() {
                                    assert(s1.joins[w] == s.joins[w]);
                                    assert(joined_addr(s, e, x));
                                    assert(dn.contains(x));
                                } else {
                                    assert(s1.joins[w] == nj);
                                    assert(x == a);
                                }
                            }
                            if dn1.contains(x) {
                                if x == a {
                                    assert(s1.joins[s.joins.len() as int] == nj);
                                    assert(joined_addr(s1, e, a));
                                } else {
                                    assert(dn.contains(x));
                                    assert(joined_addr(s, e, x));
                                    let w = choose|w: int|
                                        0 <= w < s.joins.len() && (#[trigger] s.joins[w]).email_id
                                            == e && addr_of_rid(
                                            s.recipients,
                                            s.joins[w].recipient_id,
                                        ) == Some(x);
                                    assert(s1.joins[w] == s.joins[w]);
                                    assert(joined_addr(s1, e, x));
                                }
                            }
                        }
                        assert(joins_reference(s1.joins, s1.recipients)) by {
                            assert forall|j: int| 0 <= j < s1.joins.len() implies has_recipient_id(
                                s1.recipients,
                                (#[trigger] s1.joins[j]).recipient_id,
                            ) by {
                                if j < s.joins.len() {
                                    assert(s1.joins[j] == s.joins[j]);
                                } else {
                                    assert(s1.joins[j] == nj);
                                    assert(s.recipients[idx].id == rid0);
                                }
                            }
                        }
                        assert forall|i: int| 0 <= i < rest_r.len() implies !has_recipient_id(
                            s1.recipients,
                            #[trigger] rest_r[i],
                        ) by {
                            assert(rest_r[i] == rids[i + 1]);
                        }
                        lemma_fold_join_count(s1, e, rest_a, rest_r, dn1);
                        assert(gather_nonblank(dn, addrs) == gather_nonblank(dn1, rest_a));
                    }
                },
                None => {
                    let row = RecipientRowV { id: rid, address: a };
                    let rs1 = insert_sorted(s.recipients, row);
                    assert(!has_recipient_id(s.recipients, rid));
                    assert forall|k: int| 0 <= k < s.recipients.len() implies
                        (#[trigger] s.recipients[k]).id != rid by {
                        if s.recipients[k].id == rid {
                            assert(has_recipient_id(s.recipients, rid));
                        }
                    }
                    lemma_insert_shape(s.recipients, row);
                    let p = choose|p: int|
                        0 <= p <= s.recipients.len() && insert_sorted(s.recipients, row)
                            =~= s.recipients.take(p) + seq![row] + s.recipients.skip(p);
                    lemma_addr_of_insert_self(s.recipients, row);
                    assert(addr_of_rid(rs1, rid) == Some(a));
                    assert(!has_join(s.joins, e, rid)) by {
                        if has_join(s.joins, e, rid) {
                            let w = choose|w: int|
                                0 <= w < s.joins.len() && (#[trigger] s.joins[w]).email_id == e
                                    && s.joins[w].recipient_id == rid;
                            assert(has_recipient_id(s.recipients, rid));
                            assert(false);
                        }
                    }
                    let nj = JoinRowV { email_id: e, recipient_id: rid };
                    assert(s1.recipients == rs1);
                    assert(s1.joins == s.joins.push(nj));
                    lemma_count_joins_push(s.joins, nj, e);
                    assert(!dn.contains(a)) by {
                        if dn.contains(a) {
                            assert(joined_addr(s, e, a));
                            let w = choose|w: int|
                                0 <= w < s.joins.len() && (#[trigger] s.joins[w]).email_id == e
                                    && addr_of_rid(s.recipients, s.joins[w].recipient_id) == Some(
                                    a,
                                );
                            lemma_addr_of_row(s.recipients, s.joins[w].recipient_id);
                            let k = choose|k: int|
                                0 <= k < s.recipients.len() && (#[trigger] s.recipients[k]).id
                                    == s.joins[w].recipient_id && s.recipients[k].address == a;
                            assert(s.recipients[k].address != a);
                            assert(false);
                        }
                    }
                    let dn1 = dn.insert(a);
                    assert(dn1.len() == dn.len() + 1);
                    // indexed characterization of the inserted list
                    assert(rs1.len() == s.recipients.len() + 1);
                    assert(forall|k: int| 0 <= k < p ==> rs1[k] == s.recipients[k]);
                    assert(rs1[p] == row);
                    assert forall|k: int| p < k < rs1.len() implies rs1[k] == s.recipients[k - 1] by {
                        assert(rs1[k] == s.recipients.skip(p)[k - p - 1]);
                    }
                    assert(recipients_addr_unique(rs1)) by {
                        assert forall|i: int, j: int| 0 <= i < j < rs1.len() implies
                            (#[trigger] rs1[i]).address != (#[trigger] rs1[j]).address by {
                            if i == p || j == p {
                                let other = if i == p {
                                    j
                                } else {
                                    i
                                };
                                let oi = if other < p {
                                    other
                                } else {
                                    other - 1
                                };
                                assert(rs1[other] == s.recipients[oi]);
                                assert(s.recipients[oi].address != a);
                            }
                        }
                    }
                    assert(recipients_id_unique(rs1)) by {
                        assert forall|i: int, j: int| 0 <= i < j < rs1.len() implies
                            (#[trigger] rs1[i]).id != (#[trigger] rs1[j]).id by {
                            if i == p || j == p {
                                let other = if i == p {
                                    j
                                } else {
                                    i
                                };
                                let oi = if other < p {
                                    other
                                } else {
                                    other - 1
                                };
                                assert(rs1[other] == s.recipients[oi]);
                                assert(s.recipients[oi].id != rid);
                            }
                        }
                    }
                    assert(joins_reference(s1.joins, rs1)) by {
                        assert forall|j: int| 0 <= j < s1.joins.len() implies has_recipient_id(
                            rs1,
                            (#[trigger] s1.joins[j]).recipient_id,
                        ) by {
                            if j < s.joins.len() {
                                assert(s1.joins[j] == s.joins[j]);
                                assert(has_recipient_id(s.recipients, s.joins[j].recipient_id));
                                let k = choose|k: int|
                                    0 <= k < s.recipients.len() && (#[trigger] s.recipients[k]).id
                                        == s.joins[j].recipient_id;
                                if k < p {
                                    assert(rs1[k] == s.recipients[k]);
                                } else {
                                    assert(rs1[k + 1] == s.recipients[k]);
                                }
                            } else {
                                assert(s1.joins[j] == nj);
                                assert(rs1[p].id == rid);
                            }
                        }
                    }
                    assert forall|i: int| 0 <= i < rest_r.len() implies !has_recipient_id(
                        rs1,
                        #[trigger] rest_r[i],
                    ) by {
                        assert(rest_r[i] == rids[i + 1]);
                        if has_recipient_id(rs1, rest_r[i]) {
                            let k = choose|k: int|
                                0 <= k < rs1.len() && (#[trigger] rs1[k]).id == rest_r[i];
                            if k == p {
                                assert(rids[0] == rids[i + 1]);
                                assert(false);
                            } else {
                                let oi = if k < p {
                                    k
                                } else {
                                    k - 1
                                };
                                assert(rs1[k] == s.recipients[oi]);
                                assert(has_recipient_id(s.recipients, rids[i + 1]));
                                assert(false);
                            }
                        }
                    }
                    assert forall|x: Seq<char>| #![trigger dn1.contains(x)] joined_addr(s1, e, x)
                        <==> dn1.contains(x) by {
                        if joined_addr(s1, e, x) {
                            let w = choose|w: int|
                                0 <= w < s1.joins.len() && (#[trigger] s1.joins[w]).email_id == e
                                    && addr_of_rid(s1.recipients, s1.joins[w].recipient_id) == Some(
                                    x,
                                );
                            if w < s.joins.len() {
                                assert(s1.joins[w] == s.joins[w]);
                                assert(s.joins[w].recipient_id != rid) by {
                                    if s.joins[w].recipient_id == rid {
                                        assert(has_recipient_id(
                                            s.recipients,
                                            s.joins[w].recipient_id,
                                        ));
                                        assert(false);
                                    }
                                }
                                lemma_addr_of_insert_other(s.recipients, row, s.joins[w].recipient_id);
                                assert(joined_addr(s, e, x));
                                assert(dn.contains(x));
                            } else {
                                assert(s1.joins[w] == nj);
                                assert(x == a);
                            }
                        }
                        if dn1.contains(x) {
                            if x == a {
                                assert(s1.joins[s.joins.len() as int] == nj);
                                assert(joined_addr(s1, e, a));
                            } else {
                                assert(dn.contains(x));
                                assert(joined_addr(s, e, x));
                                let w = choose|w: int|
                                    0 <= w < s.joins.len() && (#[trigger] s.joins[w]).email_id == e
                                        && addr_of_rid(s.recipients, s.joins[w].recipient_id)
                                        == Some(x);
                                assert(s.joins[w].recipient_id != rid) by {
                                    if s.joins[w].recipient_id == rid {
                                        assert(has_recipient_id(
                                            s.recipients,
                                            s.joins[w].recipient_id,
                                        ));
                                        assert(false);
                                    }
                                }
                                lemma_addr_of_insert_other(s.recipients, row, s.joins[w].recipient_id);
                                assert(s1.joins[w] == s.joins[w]);
                                assert(joined_addr(s1, e, x));
                            }
                        }
                    }
                    lemma_fold_join_count(s1, e, rest_a, rest_r, dn1);
                    assert(gather_nonblank(dn, addrs) == gather_nonblank(dn1, rest_a));
                },
            }
        }
    }
}

/// Law: a freshly saved email carries exactly one join row per distinct
/// non-blank address given by RCPT TO in its session.
pub proof fn lemma_save_join_count(
    pre: StoreV,
    m: EmailView,
    aids: Seq<Seq<char>>,
    rids: Seq<Seq<char>>,
    now: i64,
)
    requires
        store_wf(pre),
        !has_email(pre, m.id),
        fresh_rids(pre.recipients, rids),
        rids.len() == m.to.len(),
    ensures
        count_joins_for_email(spec_save(pre, m, aids, rids, now).joins, m.id) == distinct_nonblank(
            m.to,
        ).len(),
{
    let with_email = StoreV { emails: pre.emails.push(save_email_row(m, aids, now)), ..pre };
    // the fresh email has no join rows yet
    assert forall|j: int| 0 <= j < pre.joins.len() implies (#[trigger] pre.joins[j]).email_id
        != m.id by {
        if pre.joins[j].email_id == m.id {
            assert(has_email(pre, pre.joins[j].email_id));
        }
    }
    lemma_count_joins_none(pre.joins, m.id);
    assert forall|a: Seq<char>| #![trigger Set::<Seq<char>>::empty().contains(a)] joined_addr(
        with_email,
        m.id,
        a,
    ) <==> Set::<Seq<char>>::empty().contains(a) by {
        if joined_addr(with_email, m.id, a) {
            let w = choose|w: int|
                0 <= w < with_email.joins.len() && (#[trigger] with_email.joins[w]).email_id == m.id
                    && addr_of_rid(with_email.recipients, with_email.joins[w].recipient_id) == Some(
                    a,
                );
            assert(pre.joins[w].email_id != m.id);
            assert(false);
        }
    }
    assert(joins_reference(with_email.joins, with_email.recipients)) by {
        assert forall|j: int| 0 <= j < with_email.joins.len() implies has_recipient_id(
            with_email.recipients,
            (#[trigger] with_email.joins[j]).recipient_id,
        ) by {
            assert(with_email.joins[j] == pre.joins[j]);
            assert(has_recipient_id(pre.recipients, pre.joins[j].recipient_id));
        }
    }
    assert(recipients_addr_unique(with_email.recipients)) by {
        assert forall|i: int, j: int| 0 <= i < j < with_email.recipients.len() implies
            (#[trigger] with_email.recipients[i]).address
            != (#[trigger] with_email.recipients[j]).address by {
            assert(lex_lt(with_email.recipients[i].address, with_email.recipients[j].address));
            crate::strings::lemma_lex_lt_irreflexive(with_email.recipients[i].address);
        }
    }
    lemma_fold_join_count(with_email, m.id, m.to, rids, Set::empty());
    let folded = add_recipients(with_email, m.id, m.to, rids);
    assert(spec_save(pre, m, aids, rids, now).joins == folded.joins);
}

// ---------------------------------------------------------------------------
// Preservation of the store invariants
// ---------------------------------------------------------------------------

pub open spec fn recipients_sorted(rs: Seq<RecipientRowV>) -> bool {
    forall|i: int, j: int|
        0 <= i < j < rs.len() ==> lex_lt(
            (#[trigger] rs[i]).address,
            (#[trigger] rs[j]).address,
        )
}

proof fn lemma_insert_keeps_order(rs: Seq<RecipientRowV>, row: RecipientRowV)
    requires
        recipients_sorted(rs),
        recipients_id_unique(rs),
        forall|k: int| 0 <= k < rs.len() ==> (#[trigger] rs[k]).address != row.address,
        forall|k: int| 0 <= k < rs.len() ==> (#[trigger] rs[k]).id != row.id,
    ensures
        recipients_sorted(insert_sorted(rs, row)),
        recipients_id_unique(insert_sorted(rs, row)),
        forall|x: Seq<char>|
            has_recipient_id(insert_sorted(rs, row), x) <==> (has_recipient_id(rs, x) || x
                == row.id),
{
    lemma_insert_shape(rs, row);
    let p = choose|p: int| insert_shape_at(rs, row, p);
    let rs1 = insert_sorted(rs, row);
    assert(rs1.len() == rs.len() + 1);
    assert(forall|k: int| 0 <= k < p ==> rs1[k] == rs[k]);
    assert(rs1[p] == row);
    assert forall|k: int| p < k < rs1.len() implies rs1[k] == rs[k - 1] by {
        assert(rs1[k] == rs.skip(p)[k - p - 1]);
    }
    assert forall|i: int, j: int| 0 <= i < j < rs1.len() implies lex_lt(
        (#[trigger] rs1[i]).address,
        (#[trigger] rs1[j]).address,
    ) by {
        if i == p {
            // row before everything from position p on
            let oj = j - 1;
            assert(rs1[j] == rs[oj]);
            assert(lex_lt(row.address, rs[p as int].address));
            if oj > p {
                crate::strings::lemma_lex_lt_trans(
                    row.address,
                    rs[p as int].address,
                    rs[oj].address,
                );
            }
        } else if j == p {
            // everything before position p comes before row
            assert(rs1[i] == rs[i]);
            assert(!lex_lt(row.address, rs[i].address));
            crate::strings::lemma_lex_lt_total(rs[i].address, row.address);
            assert(rs[i].address != row.address);
        } else {
            let oi = if i < p {
                i
            } else {
                i - 1
            };
            let oj = if j < p {
                j
            } else {
                j - 1
            };
            assert(rs1[i] == rs[oi]);
            assert(rs1[j] == rs[oj]);
        }
    }
    assert forall|i: int, j: int| 0 <= i < j < rs1.len() implies (#[trigger] rs1[i]).id
        != (#[trigger] rs1[j]).id by {
        if i == p || j == p {
            let other = if i == p {
                j
            } else {
                i
            };
            let oi = if other < p {
                other
            } else {
                other - 1
            };
            assert(rs1[other] == rs[oi]);
            assert(rs[oi].id != row.id);
        } else {
            let oi = if i < p {
                i
            } else {
                i - 1
            };
            let oj = if j < p {
                j
            } else {
                j - 1
            };
            assert(rs1[i] == rs[oi]);
            assert(rs1[j] == rs[oj]);
        }
    }
    assert forall|x: Seq<char>| has_recipient_id(rs1, x) <==> (has_recipient_id(rs, x) || x
        == row.id) by {
        if has_recipient_id(rs1, x) {
            let k = choose|k: int| 0 <= k < rs1.len() && (#[trigger] rs1[k]).id == x;
            if k != p {
                let ok = if k < p {
                    k
                } else {
                    k - 1
                };
                assert(rs[ok].id == x);
                assert(has_recipient_id(rs, x));
            }
        }
        if has_recipient_id(rs, x) {
            let k = choose|k: int| 0 <= k < rs.len() && (#[trigger] rs[k]).id == x;
            if k < p {
                assert(rs1[k].id == x);
            } else {
                assert(rs1[k + 1].id == x);
            }
            assert(has_recipient_id(rs1, x));
        }
        if x == row.id {
            assert(rs1[p].id == x);
            assert(has_recipient_id(rs1, x));
        }
    }
}

pub open spec fn joins_pair_unique(js: Seq<JoinRowV>) -> bool {
    forall|i: int, j: int|
        0 <= i < j < js.len() ==> !((#[trigger] js[i]).email_id == (#[trigger] js[j]).email_id
            && js[i].recipient_id == js[j].recipient_id)
}

/// Folding the envelope keeps the recipient table sorted and unique, keeps
/// join pairs unique, and keeps every join referencing a recipient and
/// either the new email or one it referenced before.
proof fn lemma_fold_recipients_wf(
    s: StoreV,
    e: Seq<char>,
    addrs: Seq<Seq<char>>,
    rids: Seq<Seq<char>>,
)
    requires
        rids.len() == addrs.len(),
        forall|i: int, j: int| 0 <= i < j < rids.len() ==> rids[i] != rids[j],
        forall|i: int| 0 <= i < rids.len() ==> !has_recipient_id(s.recipients, #[trigger] rids[i]),
        recipients_sorted(s.recipients),
        recipients_id_unique(s.recipients),
        joins_pair_unique(s.joins),
        joins_reference(s.joins, s.recipients),
    ensures
        ({
            let post = add_recipients(s, e, addrs, rids);
            &&& recipients_sorted(post.recipients)
            &&& recipients_id_unique(post.recipients)
            &&& joins_pair_unique(post.joins)
            &&& joins_reference(post.joins, post.recipients)
            &&& forall|j: int|
                0 <= j < post.joins.len() ==> ((#[trigger] post.joins[j]).email_id == e || exists|
                    w: int,
                |
                    0 <= w < s.joins.len() && s.joins[w] == post.joins[j])
        }),
    decreases addrs.len(),
{
    // strict sortedness gives unique addresses
    assert(recipients_addr_unique(s.recipients)) by {
        assert forall|i: int, j: int| 0 <= i < j < s.recipients.len() implies
            (#[trigger] s.recipients[i]).address != (#[trigger] s.recipients[j]).address by {
            crate::strings::lemma_lex_lt_irreflexive(s.recipients[i].address);
        }
    }
    if addrs.len() == 0 {
    } else {
        let a = addrs.first();
        let rid = rids.first();
        let rest_a = addrs.drop_first();
        let rest_r = rids.drop_first();
        assert forall|i: int, j: int| 0 <= i < j < rest_r.len() implies rest_r[i] != rest_r[j] by {
            assert(rest_r[i] == rids[i + 1]);
            assert(rest_r[j] == rids[j + 1]);
        }
        let s1 = add_one_recipient(s, e, a, rid);
        if is_blank(a) {
            assert(s1 == s);
            assert forall|i: int| 0 <= i < rest_r.len() implies !has_recipient_id(
                s.recipients,
                #[trigger] rest_r[i],
            ) by {
                assert(rest_r[i] == rids[i + 1]);
            }
            lemma_fold_recipients_wf(s, e, rest_a, rest_r);
        } else {
            lemma_find_recipient(s.recipients, a);
            match find_recipient(s.recipients, a) {
                Some(idx) => {
                    let rid0 = s.recipients[idx].id;
                    assert(s1.recipients == s.recipients);
                    if has_join(s.joins, e, rid0) {
                        assert(s1 == s);
                    } else {
                        let nj = JoinRowV { email_id: e, recipient_id: rid0 };
                        assert(s1.joins == s.joins.push(nj));
                        assert(joins_pair_unique(s1.joins)) by {
                            assert forall|i: int, j: int| 0 <= i < j < s1.joins.len() implies !((
                            #[trigger] s1.joins[i]).email_id == (#[trigger] s1.joins[j]).email_id
                                && s1.joins[i].recipient_id == s1.joins[j].recipient_id) by {
                                if j == s.joins.len() {
                                    assert(s1.joins[i] == s.joins[i]);
                                    if s.joins[i].email_id == e && s.joins[i].recipient_id == rid0 {
                                        assert(has_join(s.joins, e, rid0));
                                    }
                                } else {
                                    assert(s1.joins[i] == s.joins[i]);
                                    assert(s1.joins[j] == s.joins[j]);
                                }
                            }
                        }
                        assert(joins_reference(s1.joins, s1.recipients)) by {
                            assert forall|j: int| 0 <= j < s1.joins.len() implies has_recipient_id(
                                s1.recipients,
                                (#[trigger] s1.joins[j]).recipient_id,
                            ) by {
                                if j < s.joins.len() {
                                    assert(s1.joins[j] == s.joins[j]);
                                } else {
                                    assert(s1.joins[j] == nj);
                                    assert(s.recipients[idx].id == rid0);
                                }
                            }
                        }
                    }
                    assert forall|i: int| 0 <= i < rest_r.len() implies !has_recipient_id(
                        s1.recipients,
                        #[trigger] rest_r[i],
                    ) by {
                        assert(rest_r[i] == rids[i + 1]);
                    }
                    lemma_fold_recipients_wf(s1, e, rest_a, rest_r);
                    // every fold-added join of the tail call is for `e` or was
                    // already in s1, and s1 only added a join for `e`
                    let post = add_recipients(s, e, addrs, rids);
                    assert(post == add_recipients(s1, e, rest_a, rest_r));
                    assert forall|j: int| 0 <= j < post.joins.len() implies ((
                    #[trigger] post.joins[j]).email_id == e || exists|w: int|
                        0 <= w < s.joins.len() && s.joins[w] == post.joins[j]) by {
                        if post.joins[j].email_id != e {
                            let w1 = choose|w1: int|
                                0 <= w1 < s1.joins.len() && s1.joins[w1] == post.joins[j];
                            if w1 < s.joins.len() {
                                assert(s.joins[w1] == post.joins[j]);
                            }
                        }
                    }
                },
                None => {
                    let row = RecipientRowV { id: rid, address: a };
                    assert forall|k: int| 0 <= k < s.recipients.len() implies
                        (#[trigger] s.recipients[k]).id != rid by {
                        if s.recipients[k].id == rid {
                            assert(has_recipient_id(s.recipients, rid));
                        }
                    }
                    lemma_insert_keeps_order(s.recipients, row);
                    let rs1 = insert_sorted(s.recipients, row);
                    assert(s1.recipients == rs1);
                    assert(!has_join(s.joins, e, rid)) by {
                        if has_join(s.joins, e, rid) {
                            let w = choose|w: int|
                                0 <= w < s.joins.len() && (#[trigger] s.joins[w]).email_id == e
                                    && s.joins[w].recipient_id == rid;
                            assert(has_recipient_id(s.recipients, rid));
                            assert(false);
                        }
                    }
                    let nj = JoinRowV { email_id: e, recipient_id: rid };
                    assert(s1.joins == s.joins.push(nj));
                    assert(joins_pair_unique(s1.joins)) by {
                        assert forall|i: int, j: int| 0 <= i < j < s1.joins.len() implies !((
                        #[trigger] s1.joins[i]).email_id == (#[trigger] s1.joins[j]).email_id
                            && s1.joins[i].recipient_id == s1.joins[j].recipient_id) by {
                            if j == s.joins.len() {
                                assert(s1.joins[i] == s.joins[i]);
                                if s.joins[i].email_id == e && s.joins[i].recipient_id == rid {
                                    assert(has_join(s.joins, e, rid));
                                }
                            } else {
                                assert(s1.joins[i] == s.joins[i]);
                                assert(s1.joins[j] == s.joins[j]);
                            }
                        }
                    }
                    assert(joins_reference(s1.joins, rs1)) by {
                        assert forall|j: int| 0 <= j < s1.joins.len() implies has_recipient_id(
                            rs1,
                            (#[trigger] s1.joins[j]).recipient_id,
                        ) by {
                            if j < s.joins.len() {
                                assert(s1.joins[j] == s.joins[j]);
                                assert(has_recipient_id(s.recipients, s.joins[j].recipient_id));
                            } else {
                                assert(s1.joins[j] == nj);
                            }
                        }
                    }
                    assert forall|i: int| 0 <= i < rest_r.len() implies !has_recipient_id(
                        rs1,
                        #[trigger] rest_r[i],
                    ) by {
                        assert(rest_r[i] == rids[i + 1]);
                        if has_recipient_id(rs1, rids[i + 1]) {
                            assert(has_recipient_id(s.recipients, rids[i + 1]) || rids[i + 1]
                                == row.id);
                        }
                    }
                    lemma_fold_recipients_wf(s1, e, rest_a, rest_r);
                    let post = add_recipients(s, e, addrs, rids);
                    assert(post == add_recipients(s1, e, rest_a, rest_r));
                    assert forall|j: int| 0 <= j < post.joins.len() implies ((
                    #[trigger] post.joins[j]).email_id == e || exists|w: int|
                        0 <= w < s.joins.len() && s.joins[w] == post.joins[j]) by {
                        if post.joins[j].email_id != e {
                            let w1 = choose|w1: int|
                                0 <= w1 < s1.joins.len() && s1.joins[w1] == post.joins[j];
                            if w1 < s.joins.len() {
                                assert(s.joins[w1] == post.joins[j]);
                            }
                        }
                    }
                },
            }
        }
    }
}

proof fn lemma_att_rows_elems(
    atts: Seq<AttachmentView>,
    aids: Seq<Seq<char>>,
    e: Seq<char>,
    now: i64,
)
    ensures
        att_rows(atts, aids, e, now).len() <= aids.len(),
        forall|k: int|
            0 <= k < att_rows(atts, aids, e, now).len() ==> ((#[trigger] att_rows(
                atts,
                aids,
                e,
                now,
            )[k]).email_id == e && att_rows(atts, aids, e, now)[k].compressed_data == gzip_of(
                att_rows(atts, aids, e, now)[k].plain_data,
            ) && att_rows(atts, aids, e, now)[k].id == aids[k]),
    decreases atts.len(),
{
    if atts.len() > 0 && aids.len() > 0 {
        lemma_att_rows_elems(atts.drop_first(), aids.drop_first(), e, now);
        assert forall|k: int| 0 <= k < att_rows(atts, aids, e, now).len() implies ((
        #[trigger] att_rows(atts, aids, e, now)[k]).email_id == e && att_rows(
            atts,
            aids,
            e,
            now,
        )[k].compressed_data == gzip_of(att_rows(atts, aids, e, now)[k].plain_data) && att_rows(
            atts,
            aids,
            e,
            now,
        )[k].id == aids[k]) by {
            if k > 0 {
                assert(att_rows(atts, aids, e, now)[k] == att_rows(
                    atts.drop_first(),
                    aids.drop_first(),
                    e,
                    now,
                )[k - 1]);
                assert(aids.drop_first()[k - 1] == aids[k]);
            }
        }
    }
}

proof fn lemma_name_rows_elems(n: Seq<char>, vs: Seq<Seq<char>>, e: Seq<char>, now: i64)
    ensures
        forall|k: int|
            0 <= k < name_rows(n, vs, e, now).len() ==> (#[trigger] name_rows(n, vs, e, now)[k]).email_id
                == e,
    decreases vs.len(),
{
    if vs.len() > 0 {
        lemma_name_rows_elems(n, vs.drop_first(), e, now);
        assert forall|k: int| 0 <= k < name_rows(n, vs, e, now).len() implies (#[trigger] name_rows(
            n,
            vs,
            e,
            now,
        )[k]).email_id == e by {
            if k > 0 {
                assert(name_rows(n, vs, e, now)[k] == name_rows(n, vs.drop_first(), e, now)[k - 1]);
            }
        }
    }
}

proof fn lemma_header_rows_elems(h: Seq<(Seq<char>, Seq<Seq<char>>)>, e: Seq<char>, now: i64)
    ensures
        forall|k: int|
            0 <= k < header_rows(h, e, now).len() ==> (#[trigger] header_rows(h, e, now)[k]).email_id
                == e,
    decreases h.len(),
{
    if h.len() > 0 {
        lemma_name_rows_elems(h.first().0, h.first().1, e, now);
        lemma_header_rows_elems(h.drop_first(), e, now);
        let m = name_rows(h.first().0, h.first().1, e, now).len() as int;
        assert forall|k: int| 0 <= k < header_rows(h, e, now).len() implies (
        #[trigger] header_rows(h, e, now)[k]).email_id == e by {
            if k < m {
                assert(header_rows(h, e, now)[k] == name_rows(h.first().0, h.first().1, e, now)[k]);
            } else {
                assert(header_rows(h, e, now)[k] == header_rows(h.drop_first(), e, now)[k - m]);
            }
        }
    }
}

/// Law: a successful save keeps every store invariant: unique email ids,
/// the sorted unique recipient table, unique join pairs, referential
/// integrity of every dependent row, and compressed columns that decompress
/// to what was stored.
pub proof fn lemma_save_preserves_wf(
    pre: StoreV,
    m: EmailView,
    aids: Seq<Seq<char>>,
    rids: Seq<Seq<char>>,
    now: i64,
)
    requires
        store_wf(pre),
        !has_email(pre, m.id),
        fresh_rids(pre.recipients, rids),
        fresh_aids(pre.attachments, aids),
        rids.len() == m.to.len(),
    ensures
        store_wf(spec_save(pre, m, aids, rids, now)),
{
    let row = save_email_row(m, aids, now);
    let with_email = StoreV { emails: pre.emails.push(row), ..pre };
    let folded = add_recipients(with_email, m.id, m.to, rids);
    let post = spec_save(pre, m, aids, rids, now);
    lemma_add_recipients_frame(with_email, m.id, m.to, rids);
    assert(folded.emails == with_email.emails);
    assert(post.emails == with_email.emails);
    assert(post.recipients == folded.recipients);
    assert(post.joins == folded.joins);
    // email ids stay unique
    assert forall|i: int, j: int| 0 <= i < j < post.emails.len() implies
        (#[trigger] post.emails[i]).id != (#[trigger] post.emails[j]).id by {
        if j == pre.emails.len() {
            if pre.emails[i].id == m.id {
                assert(has_email(pre, m.id));
            }
        } else {
            assert(post.emails[i] == pre.emails[i]);
            assert(post.emails[j] == pre.emails[j]);
        }
    }
    // the recipient fold
    lemma_fold_recipients_wf(with_email, m.id, m.to, rids);
    // joins reference existing emails
    assert forall|k: int| 0 <= k < post.joins.len() implies has_email(
        post,
        (#[trigger] post.joins[k]).email_id,
    ) && has_recipient_id(post.recipients, post.joins[k].recipient_id) by {
        assert(post.emails[pre.emails.len() as int].id == m.id);
        if post.joins[k].email_id != m.id {
            let w = choose|w: int|
                0 <= w < with_email.joins.len() && with_email.joins[w] == post.joins[k];
            assert(has_email(pre, pre.joins[w].email_id));
            let we = choose|we: int|
                0 <= we < pre.emails.len() && (#[trigger] pre.emails[we]).id
                    == pre.joins[w].email_id;
            assert(post.emails[we].id == post.joins[k].email_id);
        }
    }
    // attachments and headers reference existing emails and keep the
    // compression invariant
    let new_atts = att_rows(m.attachments, aids, m.id, now);
    lemma_att_rows_elems(m.attachments, aids, m.id, now);
    assert(folded.attachments == pre.attachments);
    // attachment ids stay unique: the fresh ids are distinct among
    // themselves and absent from the store
    assert forall|i: int, j: int| 0 <= i < j < post.attachments.len() implies
        (#[trigger] post.attachments[i]).id != (#[trigger] post.attachments[j]).id by {
        let base = pre.attachments.len() as int;
        if j < base {
            assert(post.attachments[i] == pre.attachments[i]);
            assert(post.attachments[j] == pre.attachments[j]);
        } else if i >= base {
            assert(post.attachments[i] == new_atts[i - base]);
            assert(post.attachments[j] == new_atts[j - base]);
            assert(new_atts[i - base].id == aids[i - base]);
            assert(new_atts[j - base].id == aids[j - base]);
        } else {
            assert(post.attachments[i] == pre.attachments[i]);
            assert(post.attachments[j] == new_atts[j - base]);
            assert(new_atts[j - base].id == aids[j - base]);
            if pre.attachments[i].id == aids[j - base] {
                assert(has_attachment_id(pre.attachments, aids[j - base]));
                assert(false);
            }
        }
    }
    assert forall|k: int| 0 <= k < post.attachments.len() implies has_email(
        post,
        (#[trigger] post.attachments[k]).email_id,
    ) && post.attachments[k].compressed_data == gzip_of(post.attachments[k].plain_data) by {
        assert(post.emails[pre.emails.len() as int].id == m.id);
        if k < pre.attachments.len() {
            assert(post.attachments[k] == pre.attachments[k]);
            assert(has_email(pre, pre.attachments[k].email_id));
            let we = choose|we: int|
                0 <= we < pre.emails.len() && (#[trigger] pre.emails[we]).id
                    == pre.attachments[k].email_id;
            assert(post.emails[we].id == post.attachments[k].email_id);
        } else {
            assert(post.attachments[k] == new_atts[k - pre.attachments.len()]);
        }
    }
    let new_headers: Seq<HeaderRowV> = match m.headers {
        Some(h) => header_rows(h, m.id, now),
        None => Seq::empty(),
    };
    match m.headers {
        Some(h) => {
            lemma_header_rows_elems(h, m.id, now);
        },
        None => {},
    }
    assert(folded.headers == pre.headers);
    assert forall|k: int| 0 <= k < post.headers.len() implies has_email(
        post,
        (#[trigger] post.headers[k]).email_id,
    ) by {
        assert(post.emails[pre.emails.len() as int].id == m.id);
        if k < pre.headers.len() {
            assert(post.headers[k] == pre.headers[k]);
            assert(has_email(pre, pre.headers[k].email_id));
            let we = choose|we: int|
                0 <= we < pre.emails.len() && (#[trigger] pre.emails[we]).id
                    == pre.headers[k].email_id;
            assert(post.emails[we].id == post.headers[k].email_id);
        } else {
            assert(post.headers[k] == new_headers[k - pre.headers.len()]);
        }
    }
    // email compressed columns
    assert forall|k: int| 0 <= k < post.emails.len() implies (#[trigger] post.emails[k]).compressed_data
        == gzip_of(encode_utf8(post.emails[k].plain_data)) by {
        if k < pre.emails.len() {
            assert(post.emails[k] == pre.emails[k]);
        } else {
            assert(post.emails[k] == row);
        }
    }
}

/// Law: setting the read flag keeps every store invariant.
pub proof fn lemma_mark_preserves_wf(s: StoreV, id: Seq<char>, flag: bool)
    requires
        store_wf(s),
    ensures
        store_wf(spec_mark(s, id, flag)),
{
    match find_email(s.emails, id) {
        None => {},
        Some(k) => {
            lemma_find_email(s.emails, id);
            let post = spec_mark(s, id, flag);
            assert(post.emails.len() == s.emails.len());
            assert forall|j: int| 0 <= j < post.emails.len() implies ((#[trigger] post.emails[j]).id
                == s.emails[j].id && post.emails[j].compressed_data
                == s.emails[j].compressed_data && post.emails[j].plain_data
                == s.emails[j].plain_data) by {}
            assert forall|w: int| 0 <= w < post.joins.len() implies has_email(
                post,
                (#[trigger] post.joins[w]).email_id,
            ) by {
                assert(has_email(s, s.joins[w].email_id));
                let we = choose|we: int|
                    0 <= we < s.emails.len() && (#[trigger] s.emails[we]).id
                        == s.joins[w].email_id;
                assert(post.emails[we].id == post.joins[w].email_id);
            }
            assert forall|w: int| 0 <= w < post.attachments.len() implies has_email(
                post,
                (#[trigger] post.attachments[w]).email_id,
            ) by {
                assert(has_email(s, s.attachments[w].email_id));
                let we = choose|we: int|
                    0 <= we < s.emails.len() && (#[trigger] s.emails[we]).id
                        == s.attachments[w].email_id;
                assert(post.emails[we].id == post.attachments[w].email_id);
            }
            assert forall|w: int| 0 <= w < post.headers.len() implies has_email(
                post,
                (#[trigger] post.headers[w]).email_id,
            ) by {
                assert(has_email(s, s.headers[w].email_id));
                let we = choose|we: int|
                    0 <= we < s.emails.len() && (#[trigger] s.emails[we]).id
                        == s.headers[w].email_id;
                assert(post.emails[we].id == post.headers[w].email_id);
            }
        },
    }
}

/// What `delete_email_by_id` does to the store.
pub open spec fn spec_delete(s: StoreV, id: Seq<char>) -> StoreV {
    match find_email(s.emails, id) {
        Some(k) => StoreV {
            emails: s.emails.take(k) + s.emails.skip(k + 1),
            recipients: s.recipients,
            joins: joins_without(s.joins, id),
            attachments: atts_without(s.attachments, id),
            headers: headers_without(s.headers, id),
        },
        None => s,
    }
}

proof fn lemma_joins_without_elems(js: Seq<JoinRowV>, e: Seq<char>)
    ensures
        forall|k: int|
            0 <= k < joins_without(js, e).len() ==> ((#[trigger] joins_without(js, e)[k]).email_id
                != e && exists|w: int| 0 <= w < js.len() && js[w] == joins_without(js, e)[k]),
        joins_pair_unique(js) ==> joins_pair_unique(joins_without(js, e)),
    decreases js.len(),
{
    if js.len() > 0 {
        lemma_joins_without_elems(js.drop_first(), e);
        let rest = joins_without(js.drop_first(), e);
        assert forall|i: int, j: int| 0 <= i < j < js.drop_first().len() implies (joins_pair_unique(
            js,
        ) ==> !((#[trigger] js.drop_first()[i]).email_id == (#[trigger] js.drop_first()[j]).email_id
            && js.drop_first()[i].recipient_id == js.drop_first()[j].recipient_id)) by {
            assert(js.drop_first()[i] == js[i + 1]);
            assert(js.drop_first()[j] == js[j + 1]);
        }
        if js.first().email_id != e {
            let whole = joins_without(js, e);
            assert(whole == seq![js.first()] + rest);
            assert forall|k: int| 0 <= k < whole.len() implies ((#[trigger] whole[k]).email_id != e
                && exists|w: int| 0 <= w < js.len() && js[w] == whole[k]) by {
                if k == 0 {
                    assert(js[0] == whole[0]);
                } else {
                    assert(whole[k] == rest[k - 1]);
                    let w = choose|w: int|
                        0 <= w < js.drop_first().len() && js.drop_first()[w] == rest[k - 1];
                    assert(js[w + 1] == whole[k]);
                }
            }
            if joins_pair_unique(js) {
                assert forall|i: int, j: int| 0 <= i < j < whole.len() implies !((
                #[trigger] whole[i]).email_id == (#[trigger] whole[j]).email_id
                    && whole[i].recipient_id == whole[j].recipient_id) by {
                    if i == 0 {
                        assert(whole[j] == rest[j - 1]);
                        let w = choose|w: int|
                            0 <= w < js.drop_first().len() && js.drop_first()[w] == rest[j - 1];
                        assert(js.drop_first()[w] == js[w + 1]);
                        assert(!(js[0].email_id == js[w + 1].email_id && js[0].recipient_id == js[
                            w + 1].recipient_id));
                    } else {
                        assert(whole[i] == rest[i - 1]);
                        assert(whole[j] == rest[j - 1]);
                    }
                }
            }
        } else {
            assert(joins_without(js, e) =~= rest);
            assert forall|k: int| 0 <= k < joins_without(js, e).len() implies ((
            #[trigger] joins_without(js, e)[k]).email_id != e && exists|w: int|
                0 <= w < js.len() && js[w] == joins_without(js, e)[k]) by {
                let w = choose|w: int|
                    0 <= w < js.drop_first().len() && js.drop_first()[w] == rest[k];
                assert(js[w + 1] == joins_without(js, e)[k]);
            }
        }
    }
}

proof fn lemma_atts_without_elems(rows: Seq<AttachmentRowV>, e: Seq<char>)
    ensures
        forall|k: int|
            0 <= k < atts_without(rows, e).len() ==> ((#[trigger] atts_without(rows, e)[k]).email_id
                != e && exists|w: int| 0 <= w < rows.len() && rows[w] == atts_without(rows, e)[k]),
        (forall|i: int, j: int|
            0 <= i < j < rows.len() ==> (#[trigger] rows[i]).id != (#[trigger] rows[j]).id)
            ==> (forall|i: int, j: int|
            0 <= i < j < atts_without(rows, e).len() ==> (#[trigger] atts_without(rows, e)[i]).id
                != (#[trigger] atts_without(rows, e)[j]).id),
    decreases rows.len(),
{
    if rows.len() > 0 {
        lemma_atts_without_elems(rows.drop_first(), e);
        let rest = atts_without(rows.drop_first(), e);
        assert forall|i: int, j: int| 0 <= i < j < rows.drop_first().len() implies ((forall|
            a: int,
            b: int,
        |
            0 <= a < b < rows.len() ==> (#[trigger] rows[a]).id != (#[trigger] rows[b]).id)
            ==> (#[trigger] rows.drop_first()[i]).id != (#[trigger] rows.drop_first()[j]).id) by {
            assert(rows.drop_first()[i] == rows[i + 1]);
            assert(rows.drop_first()[j] == rows[j + 1]);
        }
        if rows.first().email_id != e {
            let whole = atts_without(rows, e);
            assert(whole == seq![rows.first()] + rest);
            assert forall|k: int| 0 <= k < whole.len() implies ((#[trigger] whole[k]).email_id != e
                && exists|w: int| 0 <= w < rows.len() && rows[w] == whole[k]) by {
                if k == 0 {
                    assert(rows[0] == whole[0]);
                } else {
                    assert(whole[k] == rest[k - 1]);
                    let w = choose|w: int|
                        0 <= w < rows.drop_first().len() && rows.drop_first()[w] == rest[k - 1];
                    assert(rows[w + 1] == whole[k]);
                }
            }
            if forall|a: int, b: int|
                0 <= a < b < rows.len() ==> (#[trigger] rows[a]).id != (#[trigger] rows[b]).id {
                assert forall|i: int, j: int| 0 <= i < j < whole.len() implies
                    (#[trigger] whole[i]).id != (#[trigger] whole[j]).id by {
                    if i == 0 {
                        assert(whole[j] == rest[j - 1]);
                        let w = choose|w: int|
                            0 <= w < rows.drop_first().len() && rows.drop_first()[w] == rest[j - 1];
                        assert(rows.drop_first()[w] == rows[w + 1]);
                        assert(rows[0].id != rows[w + 1].id);
                    } else {
                        assert(whole[i] == rest[i - 1]);
                        assert(whole[j] == rest[j - 1]);
                    }
                }
            }
        } else {
            assert(atts_without(rows, e) =~= rest);
            assert forall|k: int| 0 <= k < atts_without(rows, e).len() implies ((
            #[trigger] atts_without(rows, e)[k]).email_id != e && exists|w: int|
                0 <= w < rows.len() && rows[w] == atts_without(rows, e)[k]) by {
                let w = choose|w: int|
                    0 <= w < rows.drop_first().len() && rows.drop_first()[w] == rest[k];
                assert(rows[w + 1] == atts_without(rows, e)[k]);
            }
        }
    }
}

proof fn lemma_headers_without_elems(rows: Seq<HeaderRowV>, e: Seq<char>)
    ensures
        forall|k: int|
            0 <= k < headers_without(rows, e).len() ==> ((#[trigger] headers_without(
                rows,
                e,
            )[k]).email_id != e && exists|w: int|
                0 <= w < rows.len() && rows[w] == headers_without(rows, e)[k]),
    decreases rows.len(),
{
    if rows.len() > 0 {
        lemma_headers_without_elems(rows.drop_first(), e);
        let rest = headers_without(rows.drop_first(), e);
        if rows.first().email_id != e {
            let whole = headers_without(rows, e);
            assert(whole == seq![rows.first()] + rest);
            assert forall|k: int| 0 <= k < whole.len() implies ((#[trigger] whole[k]).email_id != e
                && exists|w: int| 0 <= w < rows.len() && rows[w] == whole[k]) by {
                if k == 0 {
                    assert(rows[0] == whole[0]);
                } else {
                    assert(whole[k] == rest[k - 1]);
                    let w = choose|w: int|
                        0 <= w < rows.drop_first().len() && rows.drop_first()[w] == rest[k - 1];
                    assert(rows[w + 1] == whole[k]);
                }
            }
        } else {
            assert(headers_without(rows, e) =~= rest);
            assert forall|k: int| 0 <= k < headers_without(rows, e).len() implies ((
            #[trigger] headers_without(rows, e)[k]).email_id != e && exists|w: int|
                0 <= w < rows.len() && rows[w] == headers_without(rows, e)[k]) by {
                let w = choose|w: int|
                    0 <= w < rows.drop_first().len() && rows.drop_first()[w] == rest[k];
                assert(rows[w + 1] == headers_without(rows, e)[k]);
            }
        }
    }
}

/// Law: deleting an email keeps every store invariant; the dependents of the
/// removed row go with it and everything else still references an existing
/// email.
pub proof fn lemma_delete_preserves_wf(s: StoreV, id: Seq<char>)
    requires
        store_wf(s),
    ensures
        store_wf(spec_delete(s, id)),
{
    match find_email(s.emails, id) {
        None => {},
        Some(k) => {
            lemma_find_email(s.emails, id);
            let post = spec_delete(s, id);
            assert(post.emails.len() == s.emails.len() - 1);
            assert forall|j: int| 0 <= j < post.emails.len() implies #[trigger] post.emails[j] == (
            if j < k {
                s.emails[j]
            } else {
                s.emails[j + 1]
            }) by {}
            // a surviving email id is still unique
            assert forall|i: int, j: int| 0 <= i < j < post.emails.len() implies
                (#[trigger] post.emails[i]).id != (#[trigger] post.emails[j]).id by {}
            // every surviving row that references an email references a
            // surviving one
            lemma_joins_without_elems(s.joins, id);
            lemma_atts_without_elems(s.attachments, id);
            lemma_headers_without_elems(s.headers, id);
            assert forall|j: int| 0 <= j < post.joins.len() implies has_email(
                post,
                (#[trigger] post.joins[j]).email_id,
            ) && has_recipient_id(post.recipients, post.joins[j].recipient_id) by {
                let w = choose|w: int| 0 <= w < s.joins.len() && s.joins[w] == post.joins[j];
                assert(has_email(s, s.joins[w].email_id));
                let we = choose|we: int|
                    0 <= we < s.emails.len() && (#[trigger] s.emails[we]).id
                        == s.joins[w].email_id;
                assert(we != k) by {
                    if we == k {
                        assert(s.emails[k].id == id);
                    }
                }
                if we < k {
                    assert(post.emails[we].id == post.joins[j].email_id);
                } else {
                    assert(post.emails[we - 1].id == post.joins[j].email_id);
                }
            }
            assert forall|j: int| 0 <= j < post.attachments.len() implies has_email(
                post,
                (#[trigger] post.attachments[j]).email_id,
            ) && post.attachments[j].compressed_data == gzip_of(
                post.attachments[j].plain_data,
            ) by {
                let w = choose|w: int|
                    0 <= w < s.attachments.len() && s.attachments[w] == post.attachments[j];
                assert(has_email(s, s.attachments[w].email_id));
                let we = choose|we: int|
                    0 <= we < s.emails.len() && (#[trigger] s.emails[we]).id
                        == s.attachments[w].email_id;
                assert(we != k) by {
                    if we == k {
                        assert(s.emails[k].id == id);
                    }
                }
                if we < k {
                    assert(post.emails[we].id == post.attachments[j].email_id);
                } else {
                    assert(post.emails[we - 1].id == post.attachments[j].email_id);
                }
            }
            assert forall|j: int| 0 <= j < post.headers.len() implies has_email(
                post,
                (#[trigger] post.headers[j]).email_id,
            ) by {
                let w = choose|w: int| 0 <= w < s.headers.len() && s.headers[w] == post.headers[j];
                assert(has_email(s, s.headers[w].email_id));
                let we = choose|we: int|
                    0 <= we < s.emails.len() && (#[trigger] s.emails[we]).id
                        == s.headers[w].email_id;
                assert(we != k) by {
                    if we == k {
                        assert(s.emails[k].id == id);
                    }
                }
                if we < k {
                    assert(post.emails[we].id == post.headers[j].email_id);
                } else {
                    assert(post.emails[we - 1].id == post.headers[j].email_id);
                }
            }
            assert forall|j: int| 0 <= j < post.emails.len() implies
                (#[trigger] post.emails[j]).compressed_data == gzip_of(
                encode_utf8(post.emails[j].plain_data),
            ) by {}
        },
    }
}

} // verus!
