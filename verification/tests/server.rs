use smtp::error::TransportError;
use smtp::server::{accept_one, arrived, converse, next_verb, Conversation};
use smtp::session::Next;
use smtp::text::white_space;

const MAX_BODY: usize = 1024;

fn converse_with(script: &[u8]) -> (Vec<u8>, String) {
    let mut said = Vec::new();
    let bytes = converse(&mut said, &mut &script[..], MAX_BODY).expect("conversing");

    (bytes, String::from_utf8_lossy(&said).to_string())
}

#[test]
fn a_full_exchange_yields_the_message_body() {
    let (bytes, said) = converse_with(
        b"EHLO client\r\n\
          MAIL FROM:<a@example.com>\r\n\
          RCPT TO:<b@example.com>\r\n\
          DATA\r\n\
          Subject: one\r\n\
          .\r\n\
          QUIT\r\n",
    );

    assert_eq!(bytes, b"Subject: one");
    assert!(said.contains("354 "), "the client was told to send data");
    assert!(said.contains("221 closing"));
}

#[test]
fn a_client_that_hangs_up_without_quit_still_delivered() {
    // The Stream arrived. Losing it because the farewell never came would
    // be losing an accepted Message.
    let (bytes, _) = converse_with(b"DATA\r\nSubject: one\r\n.\r\n");

    assert_eq!(bytes, b"Subject: one");
}

#[test]
fn an_unknown_verb_is_refused_and_the_session_continues() {
    let (bytes, said) = converse_with(b"WIBBLE\r\nDATA\r\nx\r\n.\r\nQUIT\r\n");

    assert!(said.contains("502 not implemented"));
    assert_eq!(bytes, b"x", "the session carried on to deliver");
}

#[test]
fn the_envelope_is_answered_and_not_kept() {
    // MAIL FROM is a passed identity for the identification gate, and Arrived
    // carries origin rather than envelope.
    let (bytes, said) = converse_with(b"MAIL FROM:<a@example.com>\r\nQUIT\r\n");

    assert!(said.contains("250 ok"));
    assert!(bytes.is_empty());
}

#[test]
fn every_verb_has_its_answer() {
    let (_, said) = converse_with(
        b"HELO a\r\nEHLO a\r\nMAIL a\r\nRCPT a\r\nRSET\r\nNOOP\r\n\r\n  \t\r\nVRFY a\r\nDATA\r\n.\r\nQUIT\r\n",
    );

    assert_eq!(
        said,
        "250 xmip\r\n250-xmip\r\n250 8BITMIME\r\n250 ok\r\n250 ok\r\n250 ok\r\n250 ok\r\n\
         502 not implemented\r\n354 end with a line containing only a period\r\n\
         250 accepted\r\n221 closing\r\n"
    );
}

#[test]
fn a_verb_is_the_first_word_in_upper_case() {
    for (raw, verb) in [
        (&b"ehlo client\r\n"[..], "EHLO"),
        (&b"  qUiT\tnow\n"[..], "QUIT"),
        (&b"MAIL FROM:<a>"[..], "MAIL"),
        (&b"\r\n"[..], ""),
        (&b" \x0b \r\n"[..], ""),
        ("quit\u{a0}now\r\n".as_bytes(), "QUIT"),
        ("\u{3000}stra\u{df}e\u{2003}x\r\n".as_bytes(), "STRA\u{df}E"),
    ] {
        assert_eq!(next_verb(raw), Ok(Some(verb.to_string())));
    }
    assert_eq!(next_verb(b""), Ok(None));
}

#[test]
fn white_space_is_that_of_unicode() {
    for c in '\0'..=char::MAX {
        assert_eq!(white_space(c), c.is_whitespace());
    }
}

#[test]
fn a_command_that_is_not_text_is_no_command() {
    let failure = TransportError::NotText { step: "reading a command" };

    assert_eq!(next_verb(b"NOOP \xff\r\n"), Err(failure));
    let mut said = Vec::new();
    assert!(converse(&mut said, &mut &b"NOOP\r\n\xc3\r\nQUIT\r\n"[..], MAX_BODY).is_err());
    assert_eq!(said, b"250 ok\r\n");
}

#[test]
fn what_comes_after_quit_is_left_unread() {
    let mut said = Vec::new();
    let mut reader = &b"QUIT\r\nNOOP\r\n"[..];

    assert_eq!(converse(&mut said, &mut reader, MAX_BODY), Ok(Vec::new()));
    assert_eq!(reader, b"NOOP\r\n");
    assert_eq!(said, b"221 closing\r\n");
}

#[test]
fn the_last_message_is_the_one_that_is_delivered() {
    let (bytes, _) = converse_with(b"DATA\r\none\r\n.\r\nRSET\r\nDATA\r\ntwo\r\n.\r\nQUIT\r\n");

    assert_eq!(bytes, b"two");
}

#[test]
fn hanging_up_inside_data_delivers_nothing() {
    let mut said = Vec::new();
    let failure = converse(
        &mut said,
        &mut &b"DATA\r\none\r\n.\r\nDATA\r\ntwo\r\n"[..],
        MAX_BODY,
    );

    assert_eq!(
        failure,
        Err(TransportError::Protocol {
            what: "a connection that closed inside DATA".to_string()
        })
    );
}

#[test]
fn a_message_over_the_limit_is_not_accepted() {
    let mut said = Vec::new();
    let failure = converse(&mut said, &mut &b"DATA\r\nabcd\r\n.\r\nQUIT\r\n"[..], 3);

    assert_eq!(
        failure,
        Err(TransportError::Protocol {
            what: "a message over the size Xmip will read".to_string()
        })
    );
    assert_eq!(said, b"354 end with a line containing only a period\r\n");
}

#[test]
fn a_command_inside_data_is_data() {
    let (bytes, said) = converse_with(b"DATA\r\nQUIT\r\n\r\nNOOP\r\n.\r\n");

    assert_eq!(bytes, b"QUIT\r\n\r\nNOOP");
    assert!(!said.contains("221 closing"));
}

#[test]
fn a_connection_is_greeted_and_its_message_says_where_it_came_from() {
    let mut said = Vec::new();
    let mut reader = &b"DATA\r\nhello\r\n.\r\nQUIT\r\n"[..];
    let taken = accept_one("127.0.0.1:4025", &mut said, &mut reader, MAX_BODY).expect("taken");

    assert_eq!(taken.origin_uri, "smtp://127.0.0.1:4025");
    assert_eq!(taken.bytes, b"hello");
    assert!(said.starts_with(b"220 xmip ESMTP\r\n354 "));
    assert_eq!(arrived("[::1]:25", Vec::new()).origin_uri, "smtp://[::1]:25");
}

#[test]
fn a_conversation_is_held_line_by_line() {
    let mut said = Vec::new();
    let mut session = Conversation::open(&mut said, MAX_BODY);

    assert_eq!(session.step(), "reading a command");
    assert_eq!(session.hear(&mut said, b"data\r\n"), Ok(Next::Continue));
    assert_eq!(session.step(), "reading the message data");
    assert_eq!(session.hear(&mut said, b"..x\r\n"), Ok(Next::Continue));
    assert!(session.hear(&mut said, b"").is_err());
    assert_eq!(session.hear(&mut said, b".\r\n"), Ok(Next::Continue));
    assert_eq!(session.step(), "reading a command");
    assert_eq!(session.hear(&mut said, b""), Ok(Next::Done));
    assert_eq!(session.into_message(), b".x");
}

#[test]
fn what_follows_a_verb_changes_nothing() {
    let one = converse_with(
        b"EHLO a\r\nMAIL FROM:<a@b>\r\nRCPT TO:<c@d>\r\nDATA\r\nx\r\n.\r\nQUIT\r\n",
    );
    let other = converse_with(
        b"ehlo\r\nMAIL\r\nRCPT to nobody\r\nDATA now\r\nx\r\n.\r\nquit please\r\n",
    );

    assert_eq!(one, other);
    assert_eq!(one.0, b"x");
}

#[test]
fn only_the_last_words_need_not_be_heard() {
    let mut said = Vec::new();
    let mut session = Conversation::open(&mut said, 100);

    assert!(session.hear(&mut said, b"NOOP\r\n").expect("heard").must_be_said());
    assert!(!session.hear(&mut said, b"QUIT\r\n").expect("heard").must_be_said());
}
