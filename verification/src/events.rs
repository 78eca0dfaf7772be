//! The typed events the sink broadcasts to live subscribers, and the
//! read-route decision that emits `EmailRead` exactly on the transition from
//! unread to read. Delivery itself is best-effort and lives outside the
//! library; subscribers treat events as hints.

use crate::store::{find_email, has_email, recipients_of, save_email, spec_email_record, spec_mark, store_wf, EmailListRecord, EmailRecord, EmailRecordV, EmailRowV, ListRecordV, MailStore, StoreError, StoreV};
use crate::session::Email;
use vstd::prelude::*;

verus! {

#[derive(Clone, Copy, Debug, PartialEq, Eq, Structural)]
pub enum WebSocketEvent {
    NewMail,
    EmailRead,
    EmailDeleted,
}

#[verifier::ext_equal]
pub struct MessageV {
    pub event: WebSocketEvent,
    pub email: Option<ListRecordV>,
    pub email_id: Option<Seq<char>>,
    pub recipients: Option<Seq<Seq<char>>>,
}

/// One broadcast item: `NewMail` carries the fresh listing record and its
/// envelope recipients, `EmailRead` the updated record, `EmailDeleted` only
/// the id.
#[derive(Clone)]
pub struct WebSocketMessage {
    pub event: WebSocketEvent,
    pub email: Option<EmailListRecord>,
    pub email_id: Option<String>,
    pub recipients: Option<Vec<String>>,
}

impl View for WebSocketMessage {
    type V = MessageV;

    open spec fn view(&self) -> MessageV {
        MessageV {
            event: self.event,
            email: match self.email {
                Some(ref e) => Some(e@),
                None => None,
            },
            email_id: self.email_id.deep_view(),
            recipients: match self.recipients {
                Some(ref r) => Some(r.deep_view()),
                None => None,
            },
        }
    }
}

/// The listing projection of a full record, as the broadcast carries it.
pub open spec fn list_of_record(rec: EmailRecordV) -> ListRecordV {
    ListRecordV {
        id: rec.id,
        subject: rec.subject,
        date: rec.date,
        created_at: rec.created_at,
        envelope_from: rec.envelope_from,
        read: rec.read,
        has_attachments: rec.attachments.len() > 0,
        recipients: rec.recipients,
        to_header: None,
    }
}

fn list_record_of_record(rec: &EmailRecord) -> (r: EmailListRecord)
    ensures
        r@ == list_of_record(rec@),
{
    let r = EmailListRecord {
        id: rec.id.clone(),
        subject: match &rec.subject {
            Some(s) => Some(s.clone()),
            None => None,
        },
        date: rec.date,
        created_at: rec.created_at,
        envelope_from: rec.envelope_from.clone(),
        read: rec.read,
        has_attachments: rec.attachments.len() > 0,
        recipients: crate::strings::clone_string_vec(&rec.recipients),
        to_header: None,
    };
    proof {
        assert(r@ =~~= list_of_record(rec@));
    }
    r
}

/// The `NewMail` event for a freshly saved email.
pub fn new_mail_message(email: EmailListRecord, recipients: Vec<String>) -> (r: WebSocketMessage)
    ensures
        r@ == (MessageV {
            event: WebSocketEvent::NewMail,
            email: Some(email@),
            email_id: None,
            recipients: Some(recipients.deep_view()),
        }),
{
    let r = WebSocketMessage {
        event: WebSocketEvent::NewMail,
        email: Some(email),
        email_id: None,
        recipients: Some(recipients),
    };
    proof {
        assert(r@ =~~= (MessageV {
            event: WebSocketEvent::NewMail,
            email: match r.email {
                Some(ref e) => Some(e@),
                None => None,
            },
            email_id: None,
            recipients: match r.recipients {
                Some(ref v) => Some(v.deep_view()),
                None => None,
            },
        }));
    }
    r
}

/// The `EmailDeleted` event for a removed id.
pub fn email_deleted_message(email_id: String) -> (r: WebSocketMessage)
    ensures
        r@ == (MessageV {
            event: WebSocketEvent::EmailDeleted,
            email: None,
            email_id: Some(email_id@),
            recipients: None,
        }),
{
    WebSocketMessage {
        event: WebSocketEvent::EmailDeleted,
        email: None,
        email_id: Some(email_id),
        recipients: None,
    }
}

/// Reads one email as the viewing route does: an unread email is marked
/// read and the `EmailRead` event is produced; an already-read email is
/// returned unchanged with no event. The event accompanies exactly the
/// transition from unread to read.
pub fn get_email_marking_read(store: &mut MailStore, email_id: &str) -> (r: Option<
    (EmailRecord, Option<WebSocketMessage>),
>)
    ensures
        match find_email(old(store)@.emails, email_id@) {
            None => r is None && final(store)@ == old(store)@,
            Some(k) => {
                let pre_row = old(store)@.emails[k];
                if pre_row.read {
                    &&& final(store)@ == old(store)@
                    &&& r matches Some((rec, ev)) && rec@ == spec_email_record(old(store)@, pre_row)
                        && ev is None
                } else {
                    &&& final(store)@ == spec_mark(old(store)@, email_id@, true)
                    &&& r matches Some((rec, ev)) && rec@ == spec_email_record(
                        final(store)@,
                        final(store)@.emails[k],
                    ) && (ev matches Some(msg) && msg@ == (MessageV {
                        event: WebSocketEvent::EmailRead,
                        email: Some(list_of_record(rec@)),
                        email_id: None,
                        recipients: None,
                    }))
                }
            },
        },
{
    let ghost pre = store@;
    let first = match store.get_email_by_id(email_id) {
        Some(rec) => rec,
        None => {
            return None;
        },
    };
    if first.read {
        return Some((first, None));
    }
    let ghost k = find_email(pre.emails, email_id@)->0;
    let _affected = store.mark_email_read(email_id, true);
    proof {
        assert(store@ == spec_mark(pre, email_id@, true));
        crate::store::lemma_find_email(pre.emails, email_id@);
        assert(store@.emails.len() == pre.emails.len());
        assert forall|j: int| 0 <= j < store@.emails.len() implies (#[trigger] store@.emails[j]).id
            == pre.emails[j].id by {}
        crate::store::lemma_find_email_same_ids_pub(store@.emails, pre.emails, email_id@);
        assert(find_email(store@.emails, email_id@) == Some(k));
    }
    let updated = match store.get_email_by_id(email_id) {
        Some(rec) => rec,
        None => {
            return vstd::pervasive::unreached();
        },
    };
    let listing = list_record_of_record(&updated);
    let msg = WebSocketMessage {
        event: WebSocketEvent::EmailRead,
        email: Some(listing),
        email_id: None,
        recipients: None,
    };
    proof {
        assert(msg@ =~~= (MessageV {
            event: WebSocketEvent::EmailRead,
            email: Some(list_of_record(updated@)),
            email_id: None,
            recipients: None,
        }));
    }
    Some((updated, Some(msg)))
}

/// Saves one accepted message and produces its `NewMail` event, as the
/// receive pipeline does after commit: the store gains exactly the saved
/// transaction, and the event carries the listing record of the row that was
/// written, under the same id, with its envelope recipients.
pub fn save_new_email(store: &mut MailStore, message: &Email, now: i64) -> (r: Result<
    WebSocketMessage,
    StoreError,
>)
    ensures
        store_wf(old(store)@) ==> store_wf(final(store)@),
        match r {
            Err(e) => e is Storage && final(store)@ == old(store)@,
            Ok(msg) => {
                &&& !has_email(old(store)@, message@.id)
                &&& exists|aids: Seq<Seq<char>>, rids: Seq<Seq<char>>|
                    {
                        &&& aids.len() == message@.attachments.len()
                        &&& rids.len() == message@.to.len()
                        &&& crate::store::all_uuid_views(aids)
                        &&& crate::store::all_uuid_views(rids)
                        &&& crate::store::fresh_rids(old(store)@.recipients, rids)
                        &&& final(store)@ == crate::store::spec_save(
                            old(store)@,
                            message@,
                            aids,
                            rids,
                            now,
                        )
                    }
                &&& find_email(final(store)@.emails, message@.id) == Some(
                    final(store)@.emails.len() - 1,
                )
                &&& final(store)@.emails.last().id == message@.id
                &&& msg@ == (MessageV {
                    event: WebSocketEvent::NewMail,
                    email: Some(
                        list_of_record(
                            spec_email_record(final(store)@, final(store)@.emails.last()),
                        ),
                    ),
                    email_id: None,
                    recipients: Some(recipients_of(final(store)@, message@.id)),
                })
            },
        },
{
    let ghost pre = store@;
    let id = match save_email(store, message, now) {
        Ok(id) => id,
        Err(e) => {
            return Err(e);
        },
    };
    proof {
        let ghost m = message@;
        let (aids, rids) = choose|aids: Seq<Seq<char>>, rids: Seq<Seq<char>>|
            {
                &&& aids.len() == m.attachments.len()
                &&& rids.len() == m.to.len()
                &&& crate::store::all_uuid_views(aids)
                &&& crate::store::all_uuid_views(rids)
                &&& crate::store::fresh_rids(pre.recipients, rids)
                &&& crate::store::fresh_aids(pre.attachments, aids)
                &&& store@ == crate::store::spec_save(pre, m, aids, rids, now)
            };
        crate::store::lemma_saved_email_unique(pre, m, aids, rids, now);
        assert(store@.emails.last().id == m.id);
        crate::store::lemma_first_email_index_pub(store@.emails, m.id, store@.emails.len() - 1);
        assert(find_email(store@.emails, id@) is Some);
    }
    let record = match store.get_email_by_id(id.as_str()) {
        Some(r) => r,
        None => {
            return vstd::pervasive::unreached();
        },
    };
    proof {
        assert(record@ == spec_email_record(store@, store@.emails.last()));
        assert(record@.recipients == recipients_of(store@, message@.id));
    }
    let recipients = crate::strings::clone_string_vec(&record.recipients);
    let listing = list_record_of_record(&record);
    let msg = new_mail_message(listing, recipients);
    proof {
        assert(msg@ =~~= (MessageV {
            event: WebSocketEvent::NewMail,
            email: Some(list_of_record(spec_email_record(store@, store@.emails.last()))),
            email_id: None,
            recipients: Some(recipients_of(store@, message@.id)),
        }));
    }
    Ok(msg)
}

} // verus!
