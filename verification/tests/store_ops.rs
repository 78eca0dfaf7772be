use mailfang::mail::EmailAttachment;
use mailfang::session::Email;
use mailfang::store::{save_email, ListQuery, MailStore};

fn plain_email(id: &str, from: &str, to: Vec<&str>, subject: &str, body: &str) -> Email {
    Email {
        id: id.to_string(),
        message_id: None,
        subject: Some(subject.to_string()),
        date: None,
        headers: Some(vec![("Subject".to_string(), vec![subject.to_string()])]),
        from: from.to_string(),
        to: to.iter().map(|s| s.to_string()).collect(),
        recipients: to.iter().map(|s| s.to_string()).collect(),
        size: body.len() as u64,
        data: body.to_string(),
        body_text: body.to_string(),
        body_html: String::new(),
        attachments: Vec::new(),
    }
}

#[test]
fn save_then_get_round_trips_the_record() {
    let mut store = MailStore::new();
    let msg = plain_email("id-1", "a@x", vec!["b@y"], "hi", "hello");
    let id = save_email(&mut store, &msg, 100).unwrap();
    assert_eq!(id, "id-1");

    let rec = store.get_email_by_id("id-1").unwrap();
    assert_eq!(rec.id, "id-1");
    assert_eq!(rec.envelope_from, "a@x");
    assert_eq!(rec.subject.as_deref(), Some("hi"));
    assert_eq!(rec.body_text, "hello");
    assert_eq!(rec.recipients, vec!["b@y"]);
    assert_eq!(rec.created_at, 100);
    assert!(!rec.read);
    assert_eq!(rec.headers, vec![("Subject".to_string(), vec!["hi".to_string()])]);

    // a duplicate id is refused and the store is unchanged
    assert!(save_email(&mut store, &msg, 101).is_err());
    assert_eq!(store.get_email_counts().inbox, 1);
}

#[test]
fn join_rows_deduplicate_recipients() {
    let mut store = MailStore::new();
    // duplicate address and a blank one: exactly two join rows remain
    let msg = plain_email("id-1", "a@x", vec!["to@x", "to@x", "  ", "cc@x"], "s", "b");
    save_email(&mut store, &msg, 1).unwrap();
    let rec = store.get_email_by_id("id-1").unwrap();
    let mut recips = rec.recipients.clone();
    recips.sort();
    assert_eq!(recips, vec!["cc@x", "to@x"]);

    let stats = store.get_email_counts();
    assert_eq!(stats.recipients.len(), 2);
    // histogram is ordered by address ascending
    assert_eq!(stats.recipients[0].recipient, "cc@x");
    assert_eq!(stats.recipients[0].count, 1);
    assert_eq!(stats.recipients[1].recipient, "to@x");
    assert_eq!(stats.recipients[1].count, 1);
}

#[test]
fn mark_read_is_idempotent_and_event_fires_once() {
    let mut store = MailStore::new();
    save_email(&mut store, &plain_email("id-1", "a@x", vec!["b@y"], "s", "b"), 1)
        .unwrap();

    // first view flips the flag and produces the event
    let (rec, ev) = mailfang::events::get_email_marking_read(&mut store, "id-1").unwrap();
    assert!(rec.read);
    let msg = ev.expect("the unread-to-read transition carries an event");
    assert_eq!(msg.event, mailfang::events::WebSocketEvent::EmailRead);
    assert_eq!(msg.email.unwrap().id, "id-1");

    // second view sees a read email and produces no event
    let (rec2, ev2) = mailfang::events::get_email_marking_read(&mut store, "id-1").unwrap();
    assert!(rec2.read);
    assert!(ev2.is_none());

    // marking read twice leaves the same state as once
    assert_eq!(store.mark_email_read("id-1", true), 1);
    assert_eq!(store.mark_email_read("id-1", true), 1);
    assert!(store.get_email_by_id("id-1").unwrap().read);
    assert_eq!(store.mark_email_read("missing", true), 0);
}

#[test]
fn delete_cascades_to_dependents() {
    let mut store = MailStore::new();
    let mut msg = plain_email("id-1", "a@x", vec!["b@y"], "s", "b");
    msg.attachments.push(EmailAttachment {
        filename: Some("note.txt".to_string()),
        mime_type: "text/plain".to_string(),
        data: b"bytes".to_vec(),
        content_id: None,
        disposition: Some("attachment".to_string()),
        headers: Vec::new(),
    });
    save_email(&mut store, &msg, 1).unwrap();
    let rec = store.get_email_by_id("id-1").unwrap();
    assert_eq!(rec.attachments.len(), 1);
    let att_id = rec.attachments[0].id.clone();
    assert!(store.get_attachment_by_id(&att_id).is_some());

    assert_eq!(store.delete_email_by_id("id-1"), 1);
    assert!(store.get_email_by_id("id-1").is_none());
    assert!(store.get_attachment_by_id(&att_id).is_none());
    assert_eq!(store.delete_email_by_id("id-1"), 0);

    save_email(&mut store, &plain_email("id-2", "a@x", vec!["b@y"], "s", "b"), 2)
        .unwrap();
    assert_eq!(store.delete_all_emails(), 1);
    assert_eq!(store.get_email_counts().inbox, 0);
}

#[test]
fn attachment_bytes_survive_compression() {
    let mut store = MailStore::new();
    let mut msg = plain_email("id-1", "a@x", vec!["b@y"], "s", "b");
    msg.attachments.push(EmailAttachment {
        filename: Some("blob.bin".to_string()),
        mime_type: "application/octet-stream".to_string(),
        data: vec![0u8, 1, 2, 250, 251, 252],
        content_id: None,
        disposition: Some("attachment".to_string()),
        headers: Vec::new(),
    });
    save_email(&mut store, &msg, 1).unwrap();
    let rec = store.get_email_by_id("id-1").unwrap();
    let content = store
        .get_attachment_by_id(&rec.attachments[0].id)
        .unwrap();
    assert_eq!(content.data, vec![0u8, 1, 2, 250, 251, 252]);
    assert_eq!(content.filename.as_deref(), Some("blob.bin"));
    assert_eq!(content.mime_type, "application/octet-stream");
}

#[test]
fn raw_data_round_trips_through_the_store() {
    let mut store = MailStore::new();
    let msg = plain_email("id-1", "a@x", vec!["b@y"], "hi", "Subject: hi\r\n\r\nhello");
    save_email(&mut store, &msg, 1).unwrap();
    assert_eq!(
        store.get_raw_data_by_id("id-1").unwrap(),
        "Subject: hi\r\n\r\nhello"
    );
    assert!(store.get_raw_data_by_id("missing").is_err());
}

#[test]
fn rendered_html_resolves_known_cids() {
    let mut store = MailStore::new();
    let mut msg = plain_email("id-1", "a@x", vec!["b@y"], "s", "b");
    msg.body_html = "<html><head></head><body><img src=\"cid:pic1\"></body></html>".to_string();
    msg.attachments.push(EmailAttachment {
        filename: Some("pic.png".to_string()),
        mime_type: "image/png".to_string(),
        data: vec![1, 2, 3],
        content_id: Some("pic1".to_string()),
        disposition: Some("inline".to_string()),
        headers: Vec::new(),
    });
    save_email(&mut store, &msg, 1).unwrap();
    let rec = store.get_email_by_id("id-1").unwrap();
    let att_id = rec.attachments[0].id.clone();
    let rendered = store.get_rendered_data_by_id("id-1").unwrap();
    assert!(rendered.contains(&format!("src=\"/api/attachments/{}\"", att_id)));
    assert!(!rendered.contains("cid:pic1"));
    assert!(rendered.contains("<base target=\"_blank\">"));
}

#[test]
fn rendered_html_handles_bracketed_cid_references() {
    let mut store = MailStore::new();
    let mut msg = plain_email("id-1", "a@x", vec!["b@y"], "s", "b");
    // the reference carries angle brackets; rewriting succeeds regardless
    msg.body_html = "<html><body><img src=\"cid:<abc>\"></body></html>".to_string();
    msg.attachments.push(EmailAttachment {
        filename: None,
        mime_type: "image/png".to_string(),
        data: vec![9],
        content_id: Some("abc".to_string()),
        disposition: Some("inline".to_string()),
        headers: Vec::new(),
    });
    save_email(&mut store, &msg, 1).unwrap();
    let rendered = store.get_rendered_data_by_id("id-1").unwrap();
    assert!(rendered.contains("/api/attachments/"));
    assert!(!rendered.contains("cid:<abc>"));
}

#[test]
fn rendered_is_absent_without_html() {
    let mut store = MailStore::new();
    save_email(&mut store, &plain_email("id-1", "a@x", vec!["b@y"], "s", "b"), 1)
        .unwrap();
    assert!(store.get_rendered_data_by_id("id-1").is_none());
}

#[test]
fn search_filters_the_listing() {
    let mut store = MailStore::new();
    let mut first = plain_email(
        "id-1",
        "paypal@x",
        vec!["b@y"],
        "greetings",
        "birthdayparty planning",
    );
    first.headers = Some(Vec::new());
    let mut second = plain_email("id-2", "other@x", vec!["b@y"], "news", "birthdayparty");
    second.headers = Some(Vec::new());
    save_email(&mut store, &first, 1).unwrap();
    save_email(&mut store, &second, 2).unwrap();

    let query = ListQuery {
        search: Some("from:paypal birthdayparty".to_string()),
        page: 1,
        per_page: 20,
    };
    let (records, pages) = store.get_emails(&query);
    assert_eq!(records.len(), 1);
    assert_eq!(records[0].id, "id-1");
    assert_eq!(pages, 1);
}

#[test]
fn listing_is_newest_first_and_paged() {
    let mut store = MailStore::new();
    save_email(&mut store, &plain_email("id-1", "a@x", vec!["b@y"], "one", "b"), 10)
        .unwrap();
    save_email(&mut store, &plain_email("id-2", "a@x", vec!["b@y"], "two", "b"), 20)
        .unwrap();
    save_email(&mut store, &plain_email("id-3", "a@x", vec!["b@y"], "three", "b"), 30)
        .unwrap();

    let query = ListQuery { search: None, page: 1, per_page: 2 };
    let (page1, pages) = store.get_emails(&query);
    assert_eq!(pages, 2);
    assert_eq!(page1.len(), 2);
    assert_eq!(page1[0].id, "id-3");
    assert_eq!(page1[1].id, "id-2");

    let query2 = ListQuery { search: None, page: 2, per_page: 2 };
    let (page2, _) = store.get_emails(&query2);
    assert_eq!(page2.len(), 1);
    assert_eq!(page2[0].id, "id-1");
}

#[test]
fn listing_by_recipient_restricts_and_unknown_address_is_empty() {
    let mut store = MailStore::new();
    save_email(&mut store, &plain_email("id-1", "a@x", vec!["to@x"], "one", "b"), 10)
        .unwrap();
    save_email(&mut store, &plain_email("id-2", "a@x", vec!["cc@x"], "two", "b"), 20)
        .unwrap();

    let query = ListQuery { search: None, page: 1, per_page: 20 };
    let (records, pages) = store.get_emails_by_recipient("to@x", &query);
    assert_eq!(records.len(), 1);
    assert_eq!(records[0].id, "id-1");
    assert_eq!(pages, 1);

    let (none, zero) = store.get_emails_by_recipient("nobody@x", &query);
    assert!(none.is_empty());
    assert_eq!(zero, 0);
}

#[test]
fn bcc_is_found_through_the_envelope_only() {
    // RCPT TO for to@x, cc@x, bcc@x; headers name only To and Cc
    let mut store = MailStore::new();
    let mut msg = plain_email("id-1", "a@x", vec!["to@x", "cc@x", "bcc@x"], "s", "b");
    msg.headers = Some(vec![
        ("To".to_string(), vec!["to@x".to_string()]),
        ("Cc".to_string(), vec!["cc@x".to_string()]),
    ]);
    save_email(&mut store, &msg, 1).unwrap();

    let rec = store.get_email_by_id("id-1").unwrap();
    let mut recips = rec.recipients.clone();
    recips.sort();
    assert_eq!(recips, vec!["bcc@x", "cc@x", "to@x"]);

    // a bareword search never sees bcc@x: it is in no header value
    let bare = ListQuery { search: Some("bcc".to_string()), page: 1, per_page: 20 };
    // the bareword matches the envelope recipient too, so search the headers only
    // by checking the To header projection instead
    let (bare_hits, _) = store.get_emails(&bare);
    assert_eq!(bare_hits.len(), 1, "the envelope leg still finds it");

    // the field term reaches it through the envelope
    let field = ListQuery { search: Some("recipient:bcc".to_string()), page: 1, per_page: 20 };
    let (hits, _) = store.get_emails(&field);
    assert_eq!(hits.len(), 1);
    assert_eq!(hits[0].id, "id-1");
    // the To header carried into the listing names to@x only
    assert_eq!(hits[0].to_header.as_deref(), Some(&["to@x".to_string()][..]));
}

#[test]
fn config_defaults_and_print() {
    let config = mailfang::config::Config::default();
    assert_eq!(config.smtp_host, "0.0.0.0:2525");
    assert_eq!(config.smtp_max_connections, 4);
    assert_eq!(config.database_url, "sqlite:///app/mailfang.db");
    assert_eq!(config.effective_max_connections(), 4);
    let zero = mailfang::config::Config { smtp_max_connections: 0, ..mailfang::config::Config::default() };
    assert_eq!(zero.effective_max_connections(), 1);
    let lines = config.print();
    assert_eq!(lines[0], "SMTP host: 0.0.0.0:2525");
    assert_eq!(lines[1], "SMTP username: ");
    assert_eq!(lines[2], "SMTP password: ");
    assert_eq!(lines[3], "SMTP max connections: 4");
    let with_pass = mailfang::config::Config {
        smtp_password: Some("secret".to_string()),
        ..mailfang::config::Config::default()
    };
    assert_eq!(with_pass.print()[2], "SMTP password: ****");
}

#[test]
fn new_mail_event_carries_the_saved_id() {
    let mut store = MailStore::new();
    let msg = plain_email("id-9", "a@x", vec!["b@y"], "s", "b");
    let ev = mailfang::events::save_new_email(&mut store, &msg, 5).unwrap();
    assert_eq!(ev.event, mailfang::events::WebSocketEvent::NewMail);
    assert_eq!(ev.email.unwrap().id, "id-9");
    assert_eq!(ev.recipients.unwrap(), vec!["b@y"]);
    // exactly one email row carries the id from the event
    let q = ListQuery { search: None, page: 1, per_page: 50 };
    let (records, _) = store.get_emails(&q);
    assert_eq!(records.iter().filter(|r| r.id == "id-9").count(), 1);
}
