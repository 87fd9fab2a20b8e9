use smtp::client::{body, envelope, farewell, relay, steps, Recipient, Relaying};
use smtp::error::TransportError;
use smtp::session::Next;
use smtp::wire::take_line;

const WELL: &[u8] = b"220 hello\r\n250-a\r\n250 b\r\n250 ok\r\n250 ok\r\n354 go\r\n250 done\r\n221 bye\r\n";

#[test]
fn a_mailto_prefix_is_optional() {
    assert_eq!(
        Recipient::parse("mailto:orders@example.com")
            .expect("parsed")
            .mailbox(),
        "orders@example.com"
    );
    assert_eq!(
        Recipient::parse("orders@example.com")
            .expect("parsed")
            .mailbox(),
        "orders@example.com"
    );
}

#[test]
fn a_target_that_is_not_a_mailbox_is_rejected_before_connecting() {
    // A host and port is a plausible mistake and reaches a relay that
    // rejects it after a round trip. Better to refuse it here.
    let failure = Recipient::parse("127.0.0.1:25").expect_err("not a mailbox");

    assert!(!failure.is_retryable());
}

#[test]
fn every_line_of_the_body_is_terminated_as_the_protocol_requires() {
    let mut written = Vec::new();
    body(&mut written, b"Subject: one\r\n\r\nhello");

    assert_eq!(written, b"Subject: one\r\n\r\nhello\r\n");
}

#[test]
fn a_leading_period_is_stuffed_so_it_does_not_end_the_message() {
    let mut written = Vec::new();
    body(&mut written, b"one\r\n.hidden");

    assert_eq!(written, b"one\r\n..hidden\r\n");
}

#[test]
fn a_refused_target_is_named_in_the_failure() {
    for target in ["", "mailto:", "mailto:relay.example.com", "MAILTO", "mailto"] {
        assert_eq!(
            Recipient::parse(target),
            Err(TransportError::Protocol {
                what: format!("an smtp target must be a mailbox \u{2014} got {target}")
            })
        );
    }
    assert_eq!(
        Recipient::parse("mailto:mailto:a@b").expect("parsed").mailbox(),
        "mailto:a@b"
    );
    assert_eq!(
        Recipient::parse("MAILTO:a@b").expect("parsed").mailbox(),
        "MAILTO:a@b"
    );
    assert_eq!(Recipient::parse("@"), Recipient::parse("mailto:@"));
}

#[test]
fn a_body_is_written_line_by_line_whatever_its_line_endings() {
    for (message, wire) in [
        (&b""[..], &b"\r\n"[..]),
        (b"a\nb", b"a\r\nb\r\n"),
        (b"a\r\n", b"a\r\n\r\n"),
        (b"a\r\r\nb\r", b"a\r\r\nb\r\n"),
        (b".\n..\n", b"..\r\n...\r\n\r\n"),
    ] {
        let mut written = b"> ".to_vec();
        body(&mut written, message);

        assert_eq!(written, [b"> ", wire].concat());
    }
}

#[test]
fn the_envelope_says_who_is_sending_to_whom() {
    let recipient = Recipient::parse("mailto:b@example.com").expect("parsed");
    let said: Vec<(Vec<u8>, u16, &str)> = envelope("a@example.com", &recipient)
        .into_iter()
        .map(|exchange| (exchange.say, exchange.wanted, exchange.step))
        .collect();

    assert_eq!(
        said,
        vec![
            (b"".to_vec(), 220, "the greeting"),
            (b"EHLO xmip\r\n".to_vec(), 250, "EHLO"),
            (b"MAIL FROM:<a@example.com>\r\n".to_vec(), 250, "MAIL FROM"),
            (b"RCPT TO:<b@example.com>\r\n".to_vec(), 250, "RCPT TO"),
            (b"DATA\r\n".to_vec(), 354, "DATA"),
        ]
    );
    let last = steps("a@example.com", &recipient, b".").pop().expect("six steps");
    assert_eq!((last.say, last.wanted, last.step), (b"..\r\n.\r\n".to_vec(), 250, "the end of data"));
    assert_eq!(farewell(), b"QUIT\r\n");
}

#[test]
fn a_message_is_relayed_step_by_step() {
    let mut said = Vec::new();
    let mut reader = WELL;

    assert_eq!(
        relay(&mut said, &mut reader, "a@b", "mailto:c@d", b"hello"),
        Ok(())
    );
    assert_eq!(
        said,
        b"EHLO xmip\r\nMAIL FROM:<a@b>\r\nRCPT TO:<c@d>\r\nDATA\r\nhello\r\n.\r\nQUIT\r\n"
    );
    assert!(reader.is_empty());
}

#[test]
fn a_refused_step_ends_the_delivery() {
    let mut said = Vec::new();
    let refused = relay(
        &mut said,
        &mut &b"220 hi\r\n250 a\r\n451 later\r\n250 b\r\n"[..],
        "a@b",
        "c@d",
        b"hello",
    );

    assert_eq!(
        refused,
        Err(TransportError::Answered {
            message: "MAIL FROM: the server answered 451 later".to_string(),
            retryable: true
        })
    );
    assert_eq!(said, b"EHLO xmip\r\nMAIL FROM:<a@b>\r\n");
}

#[test]
fn a_failed_goodbye_is_no_failure() {
    for goodbye in [&b""[..], b"500 no\r\n", b"what\r\n", b"221-bye\r\n", b"\xff\r\n"] {
        let input = [&WELL[..WELL.len() - 9], goodbye].concat();

        assert_eq!(
            relay(&mut Vec::new(), &mut &input[..], "a@b", "c@d", b"hello"),
            Ok(())
        );
    }
}

#[test]
fn a_relay_that_hangs_up_before_the_acknowledgement_has_not_delivered() {
    let input = b"220 hello\r\n250 b\r\n250 ok\r\n250 ok\r\n354 go\r\n";

    assert_eq!(
        relay(&mut Vec::new(), &mut &input[..], "a@b", "c@d", b"hello"),
        Err(TransportError::Protocol {
            what: "a connection that closed mid-reply".to_string()
        })
    );
}

#[test]
fn a_recipient_and_its_copy_are_the_same_mailbox() {
    let recipient = Recipient::parse("mailto:orders@example.com").expect("parsed");

    assert_eq!(recipient.clone().mailbox(), recipient.mailbox());
    assert!(recipient.mailbox().contains('@'));
}

#[test]
fn a_delivery_goes_on_line_by_line() {
    let recipient = Recipient::parse("c@d").expect("parsed");
    let mut said = Vec::new();
    let mut delivery = Relaying::open(&mut said, "a@b", &recipient, b"hello");
    assert!(said.is_empty());
    assert_eq!(delivery.writing(), "writing a line");

    for (raw, words) in [
        (&b"220 hello\r\n"[..], &b"EHLO xmip\r\n"[..]),
        (b"250-a\r\n", b""),
        (b"250 b\r\n", b"MAIL FROM:<a@b>\r\n"),
        (b"250 ok\r\n", b"RCPT TO:<c@d>\r\n"),
        (b"250 ok\r\n", b"DATA\r\n"),
        (b"354 go\r\n", b"hello\r\n.\r\n"),
    ] {
        said.clear();
        assert_eq!(delivery.hear(&mut said, raw), Ok(Next::Continue));
        assert_eq!(said, words);
    }
    assert_eq!(delivery.writing(), "writing the message data");
    assert!(!delivery.is_delivered());

    said.clear();
    assert_eq!(delivery.hear(&mut said, b"250 done\r\n"), Ok(Next::Continue));
    assert_eq!(said, b"QUIT\r\n");
    assert_eq!(delivery.writing(), "writing a line");
    assert!(delivery.is_delivered());
    assert_eq!(delivery.hear(&mut said, b"221-bye\r\n"), Ok(Next::Continue));
    assert_eq!(delivery.hear(&mut said, b""), Ok(Next::Done));
    assert_eq!(said, b"QUIT\r\n");
}

#[test]
fn a_refused_line_fails_the_delivery_and_says_nothing() {
    let recipient = Recipient::parse("c@d").expect("parsed");
    let mut said = Vec::new();
    let mut delivery = Relaying::open(&mut said, "a@b", &recipient, b"hello");

    assert_eq!(
        delivery.hear(&mut said, b"421 busy\r\n"),
        Err(TransportError::Answered {
            message: "the greeting: the server answered 421 busy".to_string(),
            retryable: true
        })
    );
    assert!(delivery.hear(&mut said, b"").is_err());
    assert!(said.is_empty());
    assert!(!delivery.is_delivered());
}

#[test]
fn hearing_line_by_line_comes_to_the_same_as_hearing_all_at_once() {
    let recipient = Recipient::parse("c@d").expect("parsed");
    for input in [
        &b"220 hi\r\n250-a\r\n250 b\r\n250 ok\r\n250 ok\r\n354 go\r\n250 ok\r\n221 bye\r\nmore"[..],
        b"220 hi\r\n250 ok\r\n250 ok\r\n250 ok\r\n354 go\r\n250 ok\r\n\xff\r\nmore",
        b"220 hi\r\n250 ok\r\n550 no\r\nmore",
        b"220 hi\r\n250-a\r\n",
    ] {
        let mut at_once = Vec::new();
        let mut unread = input;
        let verdict = relay(&mut at_once, &mut unread, "a@b", "mailto:c@d", b"hello\n.x");

        let mut words = Vec::new();
        let mut reader = input;
        let mut delivery = Relaying::open(&mut words, "a@b", &recipient, b"hello\n.x");
        let by_line = loop {
            match delivery.hear(&mut words, take_line(&mut reader)) {
                Ok(Next::Continue) => {}
                Ok(Next::Done) => break Ok(()),
                Err(error) => break Err(error),
            }
        };

        assert_eq!(by_line, verdict);
        assert_eq!(words, at_once);
        assert_eq!(reader, unread);
    }
}

#[test]
fn line_feeds_and_wire_line_endings_are_sent_alike() {
    let mut feeds = Vec::new();
    let mut both = Vec::new();
    body(&mut feeds, b"one\n.two\n\nthree\r");
    body(&mut both, b"one\r\n.two\r\n\r\nthree\r");

    assert_eq!(feeds, both);
    assert_eq!(feeds, b"one\r\n..two\r\n\r\nthree\r\n");
}
