use mailfang::mail::parse_email_details;

#[test]
fn parses_multipart_attachment() {
    let raw = "\
Content-Type: multipart/mixed; boundary=\"BOUNDARY\"\r\n\
\r\n\
--BOUNDARY\r\n\
Content-Type: text/plain\r\n\
\r\n\
Hello\r\n\
--BOUNDARY\r\n\
Content-Type: text/plain\r\n\
Content-Disposition: attachment; filename=\"note.txt\"\r\n\
\r\n\
Attachment body\r\n\
--BOUNDARY--\r\n";
    let details = parse_email_details(raw);
    assert_eq!(details.attachments.len(), 1);
    let attachment = &details.attachments[0];
    assert_eq!(attachment.filename.as_deref(), Some("note.txt"));
    assert_eq!(attachment.mime_type, "text/plain");
    assert_eq!(attachment.data, b"Attachment body");
    assert!(details.message_id.is_none());
}

#[test]
fn extracts_message_id_header() {
    let raw = "\
Message-ID: <1234@example.com>\r\n\
Content-Type: text/plain\r\n\
\r\n\
Body\r\n";
    let details = parse_email_details(raw);
    // the parser returns the message id without angle brackets
    assert_eq!(details.message_id.as_deref(), Some("1234@example.com"));
    assert!(details.attachments.is_empty());
}

#[test]
fn decomposer_never_fails_on_strange_input() {
    // raw traffic is untrusted: whatever the bytes, the decomposer returns,
    // and an unrecognized input carries no fields
    let details = parse_email_details("");
    assert!(details.subject.is_none());
    assert!(details.message_id.is_none());
    assert!(details.date.is_none());
    assert!(details.attachments.is_empty());
    assert_eq!(details.body_text, "");
    assert_eq!(details.body_html, "");
}

#[test]
fn plain_text_never_yields_a_synthesized_html_body() {
    let raw = "Subject: hi\r\nContent-Type: text/plain\r\n\r\njust text\r\n";
    let details = parse_email_details(raw);
    assert_eq!(details.body_text, "just text\r\n");
    // an HTML view synthesized from plain text is refused
    assert_eq!(details.body_html, "");
}
