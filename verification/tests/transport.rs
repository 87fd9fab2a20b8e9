use std::time::Duration;

use smtp::client::{relay, Recipient, Relaying};
use smtp::server::{arrived, Arrived, Conversation};
use smtp::session::Next;
use smtp::wire::take_line;
use smtp::{Directions, SmtpTransport};

const MAX_BODY: usize = 1 << 20;

/// Both ends, each hearing what the other says, turn by turn.
fn round(payload: &[u8]) -> Arrived {
    let receiver = SmtpTransport::loopback(Duration::from_secs(5));
    assert_eq!(receiver.bind_address(), "127.0.0.1:0");
    let sender = SmtpTransport::loopback_sender("127.0.0.1:4025", Duration::from_secs(5));
    let recipient = Recipient::parse(SmtpTransport::loopback_target()).expect("a mailbox");

    let mut answers = Vec::new();
    let mut words = Vec::new();
    let mut session = Conversation::open(&mut answers, MAX_BODY);
    let mut delivery = Relaying::open(&mut words, sender.sender(), &recipient, payload);
    let mut next = Next::Continue;
    while next == Next::Continue {
        let heard = std::mem::take(&mut answers);
        let mut reader = &heard[..];
        while !reader.is_empty() {
            let raw = take_line(&mut reader);
            next = delivery.hear(&mut words, raw).expect("answered");
        }
        let heard = std::mem::take(&mut words);
        let mut reader = &heard[..];
        while !reader.is_empty() {
            let raw = take_line(&mut reader);
            session.hear(&mut answers, raw).expect("heard");
        }
    }
    assert!(delivery.is_delivered());

    arrived("127.0.0.1:4025", session.into_message())
}

#[test]
fn smtp_round_trip_survives_a_leading_period() {
    // The third line starts with a period, which is the one byte sequence
    // that can end a message early if it is not stuffed.
    let arrived = round(b"Subject: one\r\n\r\n.hidden");

    assert_eq!(arrived.bytes, b"Subject: one\r\n\r\n.hidden");
    assert!(arrived.origin_uri.starts_with("smtp://127.0.0.1:"));
}

#[test]
fn an_smtp_target_that_is_not_a_mailbox_is_rejected() {
    let transport = SmtpTransport::sending("127.0.0.1:25", "xmip@example.com");
    let mut said = Vec::new();
    let failure = relay(
        &mut said,
        &mut &b"220 hello\r\n"[..],
        transport.sender(),
        "127.0.0.1:25",
        b"",
    )
    .expect_err("not a mailbox");

    assert!(!failure.is_retryable());
    assert!(said.is_empty());
}

#[test]
fn a_mailbox_has_no_artefact_to_claim_on_the_sending_side() {
    assert!(
        SmtpTransport::sending("relay:25", "x@example.com")
            .claims()
            .is_none()
    );
}

#[test]
fn messages_whose_lines_end_as_the_wire_does_arrive_whole() {
    let large = [b"0123456789\r\n".repeat(1000), b"end".to_vec()].concat();
    for payload in [
        &b""[..],
        b"x",
        b".",
        b"..",
        b".\r\n.\r\n.",
        b"a\r\n",
        b"a\r\n\r\n",
        b"a\r\r\nb",
        b"\r\rb",
        b"\x00\x01\xfe\xff",
        b"QUIT\r\nDATA\r\n.",
        &large,
    ] {
        assert_eq!(round(payload).bytes, payload);
    }
}

#[test]
fn other_line_endings_arrive_as_those_of_the_wire() {
    for (payload, bytes) in [
        (&b"a\nb"[..], &b"a\r\nb"[..]),
        (b"a\n\nb\n", b"a\r\n\r\nb\r\n"),
        (b"a\r", b"a"),
        (b"\r\na", b"a"),
        (b"\n\n\r\n", b""),
        (b"\r", b""),
    ] {
        assert_eq!(round(payload).bytes, bytes);
    }
}

#[test]
fn a_transport_is_configured_for_one_way() {
    let receiving = SmtpTransport::receiving(String::from("0.0.0.0:25"));
    assert_eq!(receiving.bind_address(), "0.0.0.0:25");
    assert_eq!(receiving.relay_address(), "");
    assert_eq!(receiving.sender(), "");
    assert_eq!(receiving.timeout(), None);

    let sending = SmtpTransport::sending("relay:25", String::from("x@example.com"))
        .timing_out_after(Duration::from_millis(250));
    assert_eq!(sending.bind_address(), "");
    assert_eq!(sending.relay_address(), "relay:25");
    assert_eq!(sending.sender(), "x@example.com");
    assert_eq!(sending.timeout(), Some(Duration::from_millis(250)));
    assert_eq!(sending.name(), "smtp");
    assert_eq!(
        sending.directions(),
        Directions {
            receives: true,
            sends: true
        }
    );
    assert_eq!(SmtpTransport::loopback_target(), "mailto:round-trip@example.com");
    assert_eq!(
        SmtpTransport::loopback_sender("127.0.0.1:1", Duration::from_secs(1)).relay_address(),
        "127.0.0.1:1"
    );
}
