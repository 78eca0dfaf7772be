use base64::Engine;
use mailfang::session::Session;

#[test]
fn handles_basic_flow() {
    let mut session = Session::new(None, None);
    assert_eq!(
        session.process_line("EHLO localhost").unwrap(),
        vec![
            "250-Hello localhost",
            "250-AUTH PLAIN LOGIN CRAM-MD5",
            "250 SIZE 26214400"
        ]
    );
    assert_eq!(
        session
            .process_line("MAIL FROM:<sender@example.com>")
            .unwrap(),
        vec!["250 Sender OK"]
    );
    assert_eq!(
        session
            .process_line("RCPT TO:<recipient@example.com>")
            .unwrap(),
        vec!["250 Recipient OK"]
    );
    assert_eq!(
        session.process_line("DATA").unwrap(),
        vec!["354 End data with <CR><LF>.<CR><LF>"]
    );

    assert!(session.process_line("Subject: Hi").unwrap().is_empty());
    assert!(session.process_line("").unwrap().is_empty()); // Blank line between headers and body
    assert!(session.process_line("Body line").unwrap().is_empty());
    assert_eq!(
        session.process_line(".").unwrap(),
        vec!["250 Message received"]
    );

    let stored = session.last_message().unwrap();
    assert_eq!(stored.from, "sender@example.com");
    assert_eq!(stored.to, vec!["recipient@example.com"]);
    assert_eq!(stored.recipients, vec!["recipient@example.com"]);
    assert_eq!(stored.data, "Subject: Hi\r\n\r\nBody line");
    assert_eq!(stored.size, stored.data.as_bytes().len() as u64);
    assert_eq!(stored.body_text, "Body line");
    assert_eq!(stored.body_html, "");
    assert!(stored.date.is_none());
    assert_eq!(stored.attachments.len(), 0);
    assert_eq!(stored.subject.as_deref(), Some("Hi"));
    assert!(stored.message_id.is_none());
}

#[test]
fn handles_cc_and_bcc_recipients() {
    let mut session = Session::new(None, None);
    assert_eq!(
        session.process_line("EHLO localhost").unwrap(),
        vec![
            "250-Hello localhost",
            "250-AUTH PLAIN LOGIN CRAM-MD5",
            "250 SIZE 26214400"
        ]
    );
    assert_eq!(
        session
            .process_line("MAIL FROM:<sender@example.com>")
            .unwrap(),
        vec!["250 Sender OK"]
    );
    // Add multiple RCPT TO commands (To, CC, BCC all use RCPT TO in SMTP)
    assert_eq!(
        session.process_line("RCPT TO:<to@example.com>").unwrap(),
        vec!["250 Recipient OK"]
    );
    assert_eq!(
        session.process_line("RCPT TO:<cc@example.com>").unwrap(),
        vec!["250 Recipient OK"]
    );
    assert_eq!(
        session.process_line("RCPT TO:<bcc@example.com>").unwrap(),
        vec!["250 Recipient OK"]
    );
    assert_eq!(
        session.process_line("DATA").unwrap(),
        vec!["354 End data with <CR><LF>.<CR><LF>"]
    );

    // add To, Cc, and Bcc headers in the email
    assert!(session
        .process_line("From: sender@example.com")
        .unwrap()
        .is_empty());
    assert!(session
        .process_line("To: to@example.com")
        .unwrap()
        .is_empty());
    assert!(session
        .process_line("Cc: cc@example.com")
        .unwrap()
        .is_empty());
    assert!(session
        .process_line("Bcc: bcc@example.com")
        .unwrap()
        .is_empty());
    assert!(session
        .process_line("Subject: Test with CC and BCC")
        .unwrap()
        .is_empty());
    assert!(session.process_line("").unwrap().is_empty()); // Blank line between headers and body
    assert!(session.process_line("Body text").unwrap().is_empty());
    assert_eq!(
        session.process_line(".").unwrap(),
        vec!["250 Message received"]
    );

    let stored = session.last_message().unwrap();
    assert_eq!(stored.from, "sender@example.com");
    // Both "to" and "recipients" fields should contain all SMTP envelope recipients
    // Header data is only used when actually requesting headers
    assert_eq!(
        stored.to,
        vec!["to@example.com", "cc@example.com", "bcc@example.com"]
    );
    assert_eq!(
        stored.recipients,
        vec!["to@example.com", "cc@example.com", "bcc@example.com"]
    );
    assert!(stored.data.contains("To: to@example.com"));
    assert!(stored.data.contains("Cc: cc@example.com"));
    assert!(stored.data.contains("Bcc: bcc@example.com"));
    assert_eq!(stored.body_text, "Body text");
}

#[test]
fn rejects_out_of_order_commands() {
    let mut session = Session::new(None, None);
    assert!(session
        .process_line("MAIL FROM:<sender@example.com>")
        .is_err());
    assert!(session
        .process_line("RCPT TO:<recipient@example.com>")
        .is_err());

    session.process_line("EHLO example").unwrap();
    assert!(session
        .process_line("RCPT TO:<recipient@example.com>")
        .is_err());
}

#[test]
fn handles_quit() {
    let mut session = Session::new(None, None);
    session.process_line("EHLO localhost").unwrap();
    let responses = session.process_line("QUIT").unwrap();
    assert_eq!(responses, vec!["221 Bye"]);
    assert!(session.should_close());
}

#[test]
fn accepts_all_when_no_credentials() {
    let mut session = Session::new(None, None);
    assert!(session.authenticated); // Should be pre-authenticated when no creds

    session.process_line("EHLO localhost").unwrap();
    // Should be able to send mail without auth
    assert!(session
        .process_line("MAIL FROM:<sender@example.com>")
        .is_ok());
}

#[test]
fn requires_auth_when_credentials_set() {
    let mut session = Session::new(Some("user".to_string()), Some("pass".to_string()));
    assert!(!session.authenticated); // Should require auth

    session.process_line("EHLO localhost").unwrap();
    // Should reject MAIL FROM without auth
    assert!(session
        .process_line("MAIL FROM:<sender@example.com>")
        .is_err());
}

#[test]
fn auth_plain_single_line() {
    let engine = base64::engine::general_purpose::STANDARD;

    let mut session = Session::new(Some("user".to_string()), Some("pass".to_string()));
    session.process_line("EHLO localhost").unwrap();

    // Create base64 encoded credentials: \0user\0pass
    let credentials = format!("\0user\0pass");
    let encoded = engine.encode(credentials.as_bytes());

    let response = session
        .process_line(&format!("AUTH PLAIN {}", encoded))
        .unwrap();
    assert_eq!(response, vec!["235 Authentication successful"]);
    assert!(session.authenticated);

    // Now should be able to send mail
    assert!(session
        .process_line("MAIL FROM:<sender@example.com>")
        .is_ok());
}

#[test]
fn auth_plain_two_line() {
    let engine = base64::engine::general_purpose::STANDARD;

    let mut session = Session::new(Some("user".to_string()), Some("pass".to_string()));
    session.process_line("EHLO localhost").unwrap();

    // AUTH PLAIN without credentials
    let response = session.process_line("AUTH PLAIN").unwrap();
    assert_eq!(response, vec!["334 "]);

    // Send credentials
    let credentials = format!("\0user\0pass");
    let encoded = engine.encode(credentials.as_bytes());
    let response = session.process_line(&encoded).unwrap();
    assert_eq!(response, vec!["235 Authentication successful"]);
    assert!(session.authenticated);
}

#[test]
fn auth_plain_rejects_wrong_credentials() {
    let engine = base64::engine::general_purpose::STANDARD;

    let mut session = Session::new(Some("user".to_string()), Some("pass".to_string()));
    session.process_line("EHLO localhost").unwrap();

    // Wrong password
    let credentials = format!("\0user\0wrong");
    let encoded = engine.encode(credentials.as_bytes());
    let response = session
        .process_line(&format!("AUTH PLAIN {}", encoded))
        .unwrap();
    assert_eq!(response, vec!["535 Authentication failed"]);
    assert!(!session.authenticated);
}

#[test]
fn auth_login() {
    let engine = base64::engine::general_purpose::STANDARD;

    let mut session = Session::new(Some("user".to_string()), Some("pass".to_string()));
    session.process_line("EHLO localhost").unwrap();

    // Start LOGIN auth
    let response = session.process_line("AUTH LOGIN").unwrap();
    assert_eq!(response, vec!["334 VXNlcm5hbWU6"]); // "Username:" in base64

    // Send username
    let username_encoded = engine.encode("user");
    let response = session.process_line(&username_encoded).unwrap();
    assert_eq!(response, vec!["334 UGFzc3dvcmQ6"]); // "Password:" in base64

    // Send password
    let password_encoded = engine.encode("pass");
    let response = session.process_line(&password_encoded).unwrap();
    assert_eq!(response, vec!["235 Authentication successful"]);
    assert!(session.authenticated);

    // Now should be able to send mail
    assert!(session
        .process_line("MAIL FROM:<sender@example.com>")
        .is_ok());
}

#[test]
fn auth_login_rejects_wrong_credentials() {
    let engine = base64::engine::general_purpose::STANDARD;

    let mut session = Session::new(Some("user".to_string()), Some("pass".to_string()));
    session.process_line("EHLO localhost").unwrap();

    // Start LOGIN auth
    session.process_line("AUTH LOGIN").unwrap();

    // Send username
    let username_encoded = engine.encode("user");
    session.process_line(&username_encoded).unwrap();

    // Send wrong password
    let password_encoded = engine.encode("wrong");
    let response = session.process_line(&password_encoded).unwrap();
    assert_eq!(response, vec!["535 Authentication failed"]);
    assert!(!session.authenticated);
}

#[test]
fn auth_plain_accepts_all_when_no_credentials() {
    let engine = base64::engine::general_purpose::STANDARD;

    let mut session = Session::new(None, None);
    session.process_line("EHLO localhost").unwrap();

    // Any credentials should be accepted
    let credentials = format!("\0anyuser\0anypass");
    let encoded = engine.encode(credentials.as_bytes());
    let response = session
        .process_line(&format!("AUTH PLAIN {}", encoded))
        .unwrap();
    assert_eq!(response, vec!["235 Authentication successful"]);
    assert!(session.authenticated);
}

#[test]
fn auth_login_accepts_all_when_no_credentials() {
    let engine = base64::engine::general_purpose::STANDARD;

    let mut session = Session::new(None, None);
    session.process_line("EHLO localhost").unwrap();

    // Start LOGIN auth
    session.process_line("AUTH LOGIN").unwrap();

    // Any username/password should be accepted
    let username_encoded = engine.encode("anyuser");
    session.process_line(&username_encoded).unwrap();

    let password_encoded = engine.encode("anypass");
    let response = session.process_line(&password_encoded).unwrap();
    assert_eq!(response, vec!["235 Authentication successful"]);
    assert!(session.authenticated);
}

// Helper function to compute HMAC-MD5 for testing
fn compute_hmac_md5(key: &[u8], message: &[u8]) -> String {
    let mut key_padded = [0u8; 64];
    if key.len() > 64 {
        let key_hash = md5::compute(key);
        key_padded[..16].copy_from_slice(&key_hash.0);
    } else {
        key_padded[..key.len()].copy_from_slice(key);
    }

    // Inner pad: key XOR 0x36
    let mut ipad = key_padded;
    for byte in &mut ipad {
        *byte ^= 0x36;
    }

    // Inner hash: MD5((K' XOR ipad) || message)
    let mut inner_data = Vec::with_capacity(64 + message.len());
    inner_data.extend_from_slice(&ipad);
    inner_data.extend_from_slice(message);
    let inner_hash = md5::compute(&inner_data);

    // Outer pad: key XOR 0x5c
    let mut opad = key_padded;
    for byte in &mut opad {
        *byte ^= 0x5c;
    }

    // Outer hash: MD5((K' XOR opad) || inner_hash)
    let mut outer_data = Vec::with_capacity(64 + 16);
    outer_data.extend_from_slice(&opad);
    outer_data.extend_from_slice(&inner_hash.0);
    let computed_hmac = md5::compute(&outer_data);
    hex::encode(computed_hmac.0)
}

#[test]
fn auth_cram_md5() {
    let engine = base64::engine::general_purpose::STANDARD;

    let mut session = Session::new(Some("user".to_string()), Some("pass".to_string()));
    session.process_line("EHLO localhost").unwrap();

    // Start CRAM-MD5 auth
    let response = session.process_line("AUTH CRAM-MD5").unwrap();
    assert_eq!(response.len(), 1);
    assert!(response[0].starts_with("334 "));

    // Extract challenge from response (base64 encoded)
    let challenge_encoded = &response[0][4..];
    let challenge = String::from_utf8(engine.decode(challenge_encoded).unwrap()).unwrap();
    // one bracket, 24 base64 characters, the 14-character domain suffix
    assert_eq!(challenge.len(), 39);
    assert!(challenge.starts_with('<'));
    assert!(challenge.ends_with("@mailfang.com>"));

    // Compute HMAC-MD5(challenge, password)
    let hmac_hex = compute_hmac_md5(b"pass", challenge.as_bytes());

    // Create response: username<space>HMAC-MD5-hex
    let response_text = format!("user {}", hmac_hex);
    let response_encoded = engine.encode(response_text.as_bytes());

    // Send response
    let auth_response = session.process_line(&response_encoded).unwrap();
    assert_eq!(auth_response, vec!["235 Authentication successful"]);
    assert!(session.authenticated);

    // Now should be able to send mail
    assert!(session
        .process_line("MAIL FROM:<sender@example.com>")
        .is_ok());
}

#[test]
fn auth_cram_md5_rejects_wrong_credentials() {
    let engine = base64::engine::general_purpose::STANDARD;

    let mut session = Session::new(Some("user".to_string()), Some("pass".to_string()));
    session.process_line("EHLO localhost").unwrap();

    // Start CRAM-MD5 auth
    let response = session.process_line("AUTH CRAM-MD5").unwrap();
    assert_eq!(response.len(), 1);
    assert!(response[0].starts_with("334 "));

    // Extract challenge from response
    let challenge_encoded = &response[0][4..];
    let challenge = String::from_utf8(engine.decode(challenge_encoded).unwrap()).unwrap();

    // Compute HMAC-MD5 with wrong password
    let hmac_hex = compute_hmac_md5(b"wrongpass", challenge.as_bytes());

    // Create response with wrong password
    let response_text = format!("user {}", hmac_hex);
    let response_encoded = engine.encode(response_text.as_bytes());

    // Send response
    let auth_response = session.process_line(&response_encoded).unwrap();
    assert_eq!(auth_response, vec!["535 Authentication failed"]);
    assert!(!session.authenticated);
}

#[test]
fn auth_cram_md5_rejects_wrong_username() {
    let engine = base64::engine::general_purpose::STANDARD;

    let mut session = Session::new(Some("user".to_string()), Some("pass".to_string()));
    session.process_line("EHLO localhost").unwrap();

    // Start CRAM-MD5 auth
    let response = session.process_line("AUTH CRAM-MD5").unwrap();
    assert_eq!(response.len(), 1);
    assert!(response[0].starts_with("334 "));

    // Extract challenge from response
    let challenge_encoded = &response[0][4..];
    let challenge = String::from_utf8(engine.decode(challenge_encoded).unwrap()).unwrap();

    // Compute HMAC-MD5 with correct password but wrong username
    let hmac_hex = compute_hmac_md5(b"pass", challenge.as_bytes());

    // Create response with wrong username
    let response_text = format!("wronguser {}", hmac_hex);
    let response_encoded = engine.encode(response_text.as_bytes());

    // Send response
    let auth_response = session.process_line(&response_encoded).unwrap();
    assert_eq!(auth_response, vec!["535 Authentication failed"]);
    assert!(!session.authenticated);
}

#[test]
fn auth_cram_md5_accepts_all_when_no_credentials() {
    let engine = base64::engine::general_purpose::STANDARD;

    let mut session = Session::new(None, None);
    session.process_line("EHLO localhost").unwrap();

    // Start CRAM-MD5 auth
    let response = session.process_line("AUTH CRAM-MD5").unwrap();
    assert_eq!(response.len(), 1);
    assert!(response[0].starts_with("334 "));

    // Extract challenge from response
    let challenge_encoded = &response[0][4..];
    let challenge = String::from_utf8(engine.decode(challenge_encoded).unwrap()).unwrap();

    // Compute HMAC-MD5 with any password
    let hmac_hex = compute_hmac_md5(b"anypass", challenge.as_bytes());

    // Create response with any credentials
    let response_text = format!("anyuser {}", hmac_hex);
    let response_encoded = engine.encode(response_text.as_bytes());

    // Send response - should be accepted when no credentials configured
    let auth_response = session.process_line(&response_encoded).unwrap();
    assert_eq!(auth_response, vec!["235 Authentication successful"]);
    assert!(session.authenticated);
}

#[test]
fn dot_stuffed_line_loses_one_leading_dot() {
    let mut session = Session::new(None, None);
    session.process_line("EHLO x").unwrap();
    session.process_line("MAIL FROM:<a@x>").unwrap();
    session.process_line("RCPT TO:<b@y>").unwrap();
    session.process_line("DATA").unwrap();
    assert!(session.process_line("..foo").unwrap().is_empty());
    assert_eq!(
        session.process_line(".").unwrap(),
        vec!["250 Message received"]
    );
    let stored = session.last_message().unwrap();
    // the terminator is never part of the body
    assert_eq!(stored.data, ".foo");
    assert_eq!(stored.size, 4);
}

#[test]
fn empty_body_is_accepted() {
    let mut session = Session::new(None, None);
    session.process_line("EHLO x").unwrap();
    session.process_line("MAIL FROM:<a@x>").unwrap();
    session.process_line("RCPT TO:<b@y>").unwrap();
    session.process_line("DATA").unwrap();
    assert_eq!(
        session.process_line(".").unwrap(),
        vec!["250 Message received"]
    );
    let stored = session.last_message().unwrap();
    assert_eq!(stored.data, "");
    assert_eq!(stored.size, 0);
}

#[test]
fn data_needs_a_recipient() {
    let mut session = Session::new(None, None);
    session.process_line("EHLO x").unwrap();
    session.process_line("MAIL FROM:<a@x>").unwrap();
    let err = session.process_line("DATA").unwrap_err();
    assert_eq!(err.message(), "protocol error: 503 Need RCPT TO first");
}

#[test]
fn unknown_auth_mechanism_gets_504() {
    let mut session = Session::new(None, None);
    session.process_line("EHLO x").unwrap();
    let response = session.process_line("AUTH GSSAPI").unwrap();
    assert_eq!(response, vec!["504 Unrecognized authentication type"]);
}

#[test]
fn helo_and_rset_replies() {
    let mut session = Session::new(None, None);
    assert_eq!(session.process_line("HELO box").unwrap(), vec!["250 Hello box"]);
    session.process_line("MAIL FROM:<a@x>").unwrap();
    assert_eq!(session.process_line("RSET").unwrap(), vec!["250 Reset state"]);
    // RSET cleared the sender, so RCPT is out of sequence again
    assert!(session.process_line("RCPT TO:<b@y>").is_err());
    assert_eq!(session.process_line("NOOP").unwrap(), vec!["250 OK"]);
}
