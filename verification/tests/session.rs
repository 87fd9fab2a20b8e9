use smtp::error::TransportError;
use smtp::session::{
    expect, judge, read_data, read_reply, say, unstuff, write_stuffed, DataReader, ReplyReader,
};

const MAX_BODY: usize = 1024;

#[test]
fn a_multi_line_reply_ends_at_the_space_not_the_newline() {
    let mut reader = &b"250-xmip\r\n250-8BITMIME\r\n250 SIZE\r\n"[..];
    let (code, text) = read_reply(&mut reader).expect("read");

    assert_eq!(code, 250);
    assert_eq!(text, "250-xmip\n250-8BITMIME\n250 SIZE");
    assert!(reader.is_empty(), "the whole reply was consumed");
}

#[test]
fn a_single_line_reply_is_one_line() {
    let (code, text) = read_reply(&mut &b"220 xmip ESMTP\r\n"[..]).expect("read");

    assert_eq!(code, 220);
    assert_eq!(text, "220 xmip ESMTP");
}

#[test]
fn a_connection_that_closes_mid_reply_is_a_protocol_error() {
    assert!(read_reply(&mut &b""[..]).is_err());
}

#[test]
fn four_hundred_is_transient_and_five_hundred_is_not() {
    // Backwards from HTTP, and getting it the HTTP way round means retrying
    // a permanent rejection until retention expires.
    let transient = expect(&mut &b"451 try later\r\n"[..], 250, "MAIL FROM").expect_err("451");
    let permanent =
        expect(&mut &b"550 no such mailbox\r\n"[..], 250, "RCPT TO").expect_err("550");

    assert!(transient.is_retryable());
    assert!(!permanent.is_retryable());
}

#[test]
fn data_ends_at_a_lone_period() {
    let data = read_data(&mut &b"one\r\ntwo\r\n.\r\n"[..], MAX_BODY).expect("read");

    assert_eq!(data, b"one\r\ntwo");
}

#[test]
fn a_stuffed_period_survives_the_round_trip() {
    let mut written = Vec::new();
    write_stuffed(&mut written, b".hidden");

    assert_eq!(written, b"..hidden\r\n");
    assert_eq!(
        read_data(&mut &b"..hidden\r\n.\r\n"[..], MAX_BODY).expect("read"),
        b".hidden"
    );
}

#[test]
fn an_ordinary_line_is_not_stuffed() {
    let mut written = Vec::new();
    write_stuffed(&mut written, b"Subject: one");

    assert_eq!(written, b"Subject: one\r\n");
}

#[test]
fn a_line_is_said_after_what_was_said_before() {
    let mut written = b"220 ".to_vec();
    say(&mut written, "gr\u{fc}\u{df} dich");

    assert_eq!(written, "220 gr\u{fc}\u{df} dich\r\n".as_bytes());
}

#[test]
fn what_follows_a_reply_is_left_unread() {
    let mut reader = &b"250-a\r\n250 b\r\n354 c\r\n"[..];
    read_reply(&mut reader).expect("read");

    assert_eq!(reader, b"354 c\r\n");
}

#[test]
fn the_code_of_a_reply_is_that_of_its_last_line() {
    let (code, text) = read_reply(&mut &b"250-a\r\n451 b\r\n"[..]).expect("read");

    assert_eq!(code, 451);
    assert_eq!(text, "250-a\n451 b");
}

#[test]
fn a_reply_may_be_a_code_alone_and_end_as_it_likes() {
    assert_eq!(
        read_reply(&mut &b"250\r\n"[..]).expect("read"),
        (250, "250".to_string())
    );
    assert_eq!(
        read_reply(&mut &b"250x\n"[..]).expect("read"),
        (250, "250x".to_string())
    );
    assert_eq!(
        read_reply(&mut &b"250 end"[..]).expect("read"),
        (250, "250 end".to_string())
    );
    assert_eq!(
        read_reply(&mut &b"+25 plus\r\n"[..]).expect("read"),
        (25, "+25 plus".to_string())
    );
    assert_eq!(
        read_reply(&mut &b"007 zero\r\n"[..]).expect("read").0,
        7
    );
}

#[test]
fn a_line_without_a_code_is_named_in_the_failure() {
    for (raw, line) in [
        (&b"ok\r\n"[..], "ok"),
        (&b"25\r\n"[..], "25"),
        (&b"\r\n"[..], ""),
        (&b"-25 x\r\n"[..], "-25 x"),
        (&b"2 5 x\r\n"[..], "2 5 x"),
        (&b"25+ x\r\n"[..], "25+ x"),
        ("25\u{e9} x\r\n".as_bytes(), "25\u{e9} x"),
    ] {
        assert_eq!(
            read_reply(&mut &raw[..]).expect_err("no code"),
            TransportError::Protocol {
                what: format!("a reply with no code: {line}")
            }
        );
    }
}

#[test]
fn a_reply_that_breaks_off_is_a_protocol_error() {
    let closed = TransportError::Protocol {
        what: "a connection that closed mid-reply".to_string(),
    };

    assert_eq!(read_reply(&mut &b""[..]).expect_err("closed"), closed);
    assert_eq!(read_reply(&mut &b"250-a\r\n"[..]).expect_err("closed"), closed);
}

#[test]
fn a_reply_that_is_not_text_is_no_reply() {
    let mut reader = &b"250 \xff\r\n250 ok\r\n"[..];
    let failure = read_reply(&mut reader).expect_err("not text");

    assert_eq!(failure, TransportError::NotText { step: "reading a reply" });
    assert_eq!(reader, b"250 ok\r\n");
    assert_eq!(
        read_reply(&mut &"250 gr\u{fc}\u{df} dich\r\n".as_bytes()[..])
            .expect("read")
            .1,
        "250 gr\u{fc}\u{df} dich"
    );
}

#[test]
fn the_wanted_code_passes_and_any_other_says_what_was_answered() {
    assert_eq!(expect(&mut &b"250-a\r\n250 b\r\n"[..], 250, "EHLO"), Ok(()));
    assert_eq!(
        expect(&mut &b"421-a\r\n421 b\r\n"[..], 250, "EHLO"),
        Err(TransportError::Answered {
            message: "EHLO: the server answered 421-a\n421 b".to_string(),
            retryable: true
        })
    );
    for (code, retryable) in [(399, false), (400, true), (499, true), (500, false), (221, false)] {
        assert_eq!(
            judge(code, "text", 250, "step").expect_err("refused").is_retryable(),
            retryable
        );
    }
}

#[test]
fn a_reply_is_heard_line_by_line() {
    let mut reply = ReplyReader::new();

    assert_eq!(reply.hear(b"250-one\r\n"), Ok(None));
    assert!(reply.hear(b"nonsense\r\n").is_err());
    assert_eq!(reply.hear(b"250 two\r\n"), Ok(Some(250)));
    assert_eq!(reply.into_text(), "250-one\n250 two");
}

#[test]
fn unstuffing_undoes_stuffing_and_nothing_else() {
    for line in [&b""[..], b".", b"..", "...".as_bytes(), b".a", b"a.", b"a"] {
        let mut written = Vec::new();
        write_stuffed(&mut written, line);
        let sent = &written[..written.len() - 2];

        assert_eq!(unstuff(sent), line);
        assert_ne!(sent, b".");
    }
    assert_eq!(unstuff(b".a"), b".a");
}

#[test]
fn data_takes_either_line_ending_and_leaves_what_follows() {
    let mut reader = &b"one\ntwo\r\n.\nQUIT\r\n"[..];

    assert_eq!(read_data(&mut reader, MAX_BODY).expect("read"), b"one\r\ntwo");
    assert_eq!(reader, b"QUIT\r\n");
}

#[test]
fn empty_lines_survive_inside_and_after_a_message_but_not_before() {
    assert_eq!(
        read_data(&mut &b"a\r\n\r\nb\r\n\r\n.\r\n"[..], MAX_BODY).expect("read"),
        b"a\r\n\r\nb\r\n"
    );
    assert_eq!(
        read_data(&mut &b"\r\n\r\na\r\n.\r\n"[..], MAX_BODY).expect("read"),
        b"a"
    );
    assert_eq!(read_data(&mut &b".\r\n"[..], MAX_BODY).expect("read"), b"");
}

#[test]
fn data_need_not_be_text() {
    assert_eq!(
        read_data(&mut &b"\xff\x00\xfe\r\n.\r\n"[..], MAX_BODY).expect("read"),
        b"\xff\x00\xfe"
    );
}

#[test]
fn data_that_breaks_off_is_a_protocol_error() {
    let closed = TransportError::Protocol {
        what: "a connection that closed inside DATA".to_string(),
    };

    assert_eq!(read_data(&mut &b""[..], MAX_BODY).expect_err("closed"), closed);
    assert_eq!(
        read_data(&mut &b"one\r\n"[..], MAX_BODY).expect_err("closed"),
        closed
    );
}

#[test]
fn a_message_may_fill_the_limit_and_not_exceed_it() {
    let over = TransportError::Protocol {
        what: "a message over the size Xmip will read".to_string(),
    };

    assert_eq!(
        read_data(&mut &b"ab\r\ncd\r\n.\r\n"[..], 6).expect("six bytes"),
        b"ab\r\ncd"
    );
    assert_eq!(read_data(&mut &b"ab\r\ncd\r\n.\r\n"[..], 5), Err(over));
    assert!(read_data(&mut &b"a\r\n.\r\n"[..], 0).is_err());
    assert_eq!(read_data(&mut &b"\r\n.\r\n"[..], 0).expect("nothing"), b"");
    assert_eq!(read_data(&mut &b"..\r\n.\r\n"[..], 1).expect("a period"), b".");
}

#[test]
fn a_message_arrives_line_by_line() {
    let mut data = DataReader::new(4);

    assert_eq!(data.hear(b"a\r\n"), Ok(false));
    assert!(data.hear(b"too long\r\n").is_err());
    assert_eq!(data.hear(b"b\r\n"), Ok(false));
    assert_eq!(data.hear(b".\r\n"), Ok(true));
    assert_eq!(data.into_bytes(), b"a\r\nb");
}
