use activemq::frame::{escape, unescape};
use activemq::reading;
use activemq::{encode, read, ByteReader, Error, Frame, Reading, Step, Want, MAX_BODY};

fn read_all(bytes: &[u8]) -> Result<Option<Frame>, Error> {
    read(&mut ByteReader::new(bytes))
}

fn round_trip(frame: &Frame) -> Frame {
    let bytes = encode(frame);
    read_all(bytes.as_slice()).expect("read").expect("one")
}

#[test]
fn a_frame_round_trips_with_its_escapes_and_its_nul() {
    let send = Frame::new("SEND")
        .with_header("destination", "/queue/orders")
        .with_header("odd", "a:b\\c\nd\re")
        .with_body(b"one\0two");
    let bytes = encode(&send);
    let text = String::from_utf8_lossy(&bytes).into_owned();
    assert!(text.starts_with("SEND\ndestination:/queue/orders\nodd:a\\cb\\\\c\\nd\\re\n"));
    assert!(text.contains("content-length:7\n\n"));
    assert!(bytes.ends_with(b"one\0two\0"));
    let back = round_trip(&send);
    assert_eq!(back.header("odd"), Some("a:b\\c\nd\re"));
    assert_eq!(back.body, b"one\0two");
    let connect = Frame::new("CONNECT").with_header("host", "a:b");
    assert!(encode(&connect).starts_with(b"CONNECT\nhost:a:b\n\n"));
    assert_eq!(round_trip(&connect).header("host"), Some("a:b"));
    assert!(round_trip(&Frame::new("DISCONNECT")).body.is_empty());
}

#[test]
fn heart_beats_are_skipped_and_a_bare_body_runs_to_nul() {
    let wire = b"\n\r\n\nMESSAGE\r\nmessage-id:1\r\n\r\nhello\0\n\n";
    let mut reader = ByteReader::new(&wire[..]);
    let frame = read(&mut reader).expect("read").expect("one");
    assert_eq!(frame.command, "MESSAGE");
    assert_eq!(frame.body, b"hello");
    assert!(read(&mut reader).expect("closed").is_none());
}

#[test]
fn what_is_not_stomp_is_refused() {
    assert!(read_all(&b"SEND\nno colon\n\n\0"[..]).is_err(), "colon");
    assert!(read_all(&b"SEND\n"[..]).is_err(), "ends in headers");
    assert!(read_all(&b"SEND\n\nbody without nul"[..]).is_err());
    assert!(read_all(&b"SEND\ncontent-length:3\n\nabcd"[..]).is_err());
    assert!(read_all(&b"SEND\ncontent-length:x\n\n\0"[..]).is_err());
    assert!(read_all(&b"SEND\na:\\q\n\n\0"[..]).is_err(), "escape");
    assert!(read_all(&b"SEND\ncontent-length:99999999999\n\n"[..]).is_err());
}

#[test]
fn each_fault_of_a_frame_is_told_apart() {
    let faults: Vec<(&[u8], Error)> = vec![
        (b"SEND\nno colon\n\n\0", Error::NoColon("no colon".to_string())),
        (b"SEND\n", Error::EndsInHeaders),
        (b"SEND\na:b", Error::EndsInHeaders),
        (b"SEND\n\nbody without nul", Error::EndsBeforeNul),
        (b"SEND\n\n", Error::EndsBeforeNul),
        (b"SEND\ncontent-length:3\n\nabcd", Error::NoNulAfterBody),
        (b"SEND\ncontent-length:3\n\nabc", Error::CutShort),
        (b"SEND\ncontent-length:x\n\n\0", Error::BadLength("x".to_string())),
        (b"SEND\ncontent-length:\n\n\0", Error::BadLength(String::new())),
        (b"SEND\ncontent-length:-1\n\n\0", Error::BadLength("-1".to_string())),
        (b"SEND\ncontent-length: 1\n\na\0", Error::BadLength(" 1".to_string())),
        (b"SEND\na:\\q\n\n\0", Error::UndefinedEscape('q')),
        (b"SEND\na:b\\\n\n\0", Error::UndefinedEscape(' ')),
        (b"SEND\n\\t:b\n\n\0", Error::UndefinedEscape('t')),
        (b"SEND\ncontent-length:67108865\n\n", Error::TooLong),
        (b"SEND\na:\xff\n\n\0", Error::NotUtf8),
        (b"\xc3\x28\n\n\0", Error::NotUtf8),
    ];
    for (bytes, fault) in faults {
        assert_eq!(read_all(bytes), Err(fault));
    }
    assert_eq!(MAX_BODY, 67_108_864);
}

#[test]
fn the_faults_read_as_sentences() {
    let sentences = vec![
        (Error::EndsInHeaders, "a frame that ends in its headers"),
        (
            Error::NoColon("x y".to_string()),
            "a header line without a colon: x y",
        ),
        (Error::NotUtf8, "a frame line that is not UTF-8"),
        (
            Error::UndefinedEscape('q'),
            "an escape STOMP does not define: \\q",
        ),
        (
            Error::BadLength("x".to_string()),
            "a content-length that is not a number: x",
        ),
        (Error::TooLong, "a body over what Xmip will read"),
        (Error::NoNulAfterBody, "a body not followed by NUL"),
        (Error::EndsBeforeNul, "a frame that ends before its NUL"),
        (Error::NotConnect, "the client did not open with CONNECT"),
        (
            Error::ClientRefused("not authorised".to_string()),
            "the client was refused: not authorised",
        ),
        (Error::FromClient("MESSAGE".to_string()), "MESSAGE from a client"),
        (Error::NothingSent, "the client disconnected without sending"),
        (
            Error::AnsweredConnect("220".to_string()),
            "the server answered CONNECT with 220",
        ),
        (Error::ClosedOnConnect, "the server closed on CONNECT"),
        (
            Error::ClosedBeforeReceipt,
            "the broker closed before the receipt",
        ),
        (
            Error::Refused {
                message: "no".to_string(),
                detail: "why".to_string(),
            },
            "the broker answered ERROR: no why",
        ),
    ];
    for (error, sentence) in sentences {
        assert_eq!(error.message(), sentence);
        assert!(!error.retryable(), "{sentence}");
    }
    assert!(Error::CutShort.retryable());
    assert!(Error::CutShort.message() == "a frame that ends in its body");
}

#[test]
fn the_bytes_of_a_frame_are_these() {
    assert_eq!(encode(&Frame::new("DISCONNECT")), b"DISCONNECT\n\n\0");
    assert_eq!(
        encode(&Frame::new("ACK").with_header("id", "7")),
        b"ACK\nid:7\n\n\0"
    );
    assert_eq!(
        encode(&Frame::new("SEND").with_body(b"abc")),
        b"SEND\ncontent-length:3\n\nabc\0"
    );
    assert_eq!(
        encode(
            &Frame::new("SEND")
                .with_header("content-length", "3")
                .with_body(b"abc")
        ),
        b"SEND\ncontent-length:3\n\nabc\0"
    );
    assert_eq!(
        encode(&Frame::new("SEND").with_header("größe", "zu:groß")),
        "SEND\ngröße:zu\\cgroß\n\n\0".as_bytes()
    );
    assert_eq!(
        encode(&Frame::new("CONNECTED").with_header("session", "a\\b")),
        b"CONNECTED\nsession:a\\b\n\n\0"
    );
    assert_eq!(
        encode(&Frame::new("STOMP").with_header("host", "a:b")),
        b"STOMP\nhost:a\\cb\n\n\0"
    );
}

#[test]
fn the_first_header_of_a_name_wins() {
    let frame = read_all(b"MESSAGE\nfoo:World\nfoo:Hello\nbar:\n\n\0")
        .expect("read")
        .expect("one");
    assert_eq!(frame.headers.len(), 3);
    assert_eq!(frame.header("foo"), Some("World"));
    assert_eq!(frame.header("bar"), Some(""));
    assert_eq!(frame.header("baz"), None);
    assert_eq!(frame.header("fo"), None);
    let longer = frame.with_header("foo", "again");
    assert_eq!(longer.header("foo"), Some("World"));
}

#[test]
fn the_first_content_length_is_the_one_that_counts() {
    let frame = read_all(b"SEND\ncontent-length:2\ncontent-length:9\n\na\0\0")
        .expect("read")
        .expect("one");
    assert_eq!(frame.body, b"a\0");
}

#[test]
fn a_length_may_have_a_plus_and_zeros() {
    for text in ["3", "+3", "0003", "+003"] {
        let bytes = format!("SEND\ncontent-length:{text}\n\nabc\0");
        let frame = read_all(bytes.as_bytes()).expect("read").expect("one");
        assert_eq!(frame.body, b"abc");
    }
}

#[test]
fn escapes_read_back_as_what_was_escaped() {
    for text in ["", "plain", "\r\n", ":::", "\\c", "a:b\\c\nd\re", "ÄÖ\u{1f600}:"] {
        let written = escape(text);
        assert!(!written.contains(['\r', '\n', ':']), "{written}");
        assert_eq!(unescape(written.as_str()), Ok(text.to_string()));
    }
    assert_eq!(escape("a:b\\c\nd\re"), "a\\cb\\\\c\\nd\\re");
    assert_eq!(unescape("\\x"), Err(Error::UndefinedEscape('x')));
    assert_eq!(unescape("ab\\"), Err(Error::UndefinedEscape(' ')));
}

#[test]
fn a_line_loses_one_end_of_either_kind() {
    assert_eq!(reading::line(Vec::new()), Ok(None));
    assert_eq!(reading::line(b"\n".to_vec()), Ok(Some(String::new())));
    assert_eq!(reading::line(b"\r\n".to_vec()), Ok(Some(String::new())));
    assert_eq!(reading::line(b"ab\n".to_vec()), Ok(Some("ab".to_string())));
    assert_eq!(reading::line(b"ab\r\n".to_vec()), Ok(Some("ab".to_string())));
    assert_eq!(reading::line(b"ab\r\r\n".to_vec()), Ok(Some("ab\r".to_string())));
    assert_eq!(reading::line(b"ab".to_vec()), Ok(Some("ab".to_string())));
    assert_eq!(reading::line("ß\n".as_bytes().to_vec()), Ok(Some("ß".to_string())));
    assert_eq!(reading::line(b"\xff\n".to_vec()), Err(Error::NotUtf8));
}

#[test]
fn a_stated_length_carries_nul_and_a_bare_body_stops_there() {
    let mut reader = ByteReader::new(b"SEND\ncontent-length:3\n\n\0\0\0\0SEND\n\na\0b\0");
    assert_eq!(read(&mut reader).expect("read").expect("one").body, b"\0\0\0");
    assert_eq!(read(&mut reader).expect("read").expect("two").body, b"a");
    assert!(read(&mut reader).is_err(), "what follows is no frame");
}

#[test]
fn frames_written_in_a_row_are_read_in_that_order() {
    let frames = vec![
        Frame::new("SEND").with_body(b"\0"),
        Frame::new("SUBSCRIBE").with_header("id", "1"),
        Frame::new("SEND").with_header("x", "\r\n").with_body(b"\n\n"),
    ];
    let mut bytes = Vec::new();
    for frame in &frames {
        bytes.extend(encode(frame));
        bytes.extend(b"\n");
    }
    let mut reader = ByteReader::new(&bytes);
    for frame in &frames {
        let back = read(&mut reader).expect("read").expect("one");
        assert_eq!(back.command, frame.command);
        assert_eq!(back.body, frame.body);
        for (name, value) in &frame.headers {
            assert_eq!(back.header(name), Some(value.as_str()));
        }
    }
    assert_eq!(read(&mut reader), Ok(None));
    assert_eq!(read(&mut reader), Ok(None));
}

#[test]
fn a_reading_says_what_it_wants() {
    let reading = Reading::new();
    assert_eq!(reading.want(), Want::Line);
    let Ok(Step::More(reading)) = reading.take(b"\n".to_vec()) else {
        panic!("a heart-beat");
    };
    let Ok(Step::More(reading)) = reading.take(b"SEND\n".to_vec()) else {
        panic!("a command");
    };
    assert_eq!(reading.want(), Want::Line);
    let Ok(Step::More(reading)) = reading.take(b"content-length:2\r\n".to_vec()) else {
        panic!("a header");
    };
    let Ok(Step::More(reading)) = reading.take(b"\r\n".to_vec()) else {
        panic!("the blank line");
    };
    assert_eq!(reading.want(), Want::Exact(3));
    let Ok(Step::Whole(frame)) = reading.take(b"hi\0".to_vec()) else {
        panic!("the body");
    };
    assert_eq!(frame.body, b"hi");
    assert!(matches!(Reading::new().take(Vec::new()), Ok(Step::Closed)));

    let Ok(Step::More(reading)) = Reading::new().take(b"SEND".to_vec()) else {
        panic!("a command");
    };
    let Ok(Step::More(reading)) = reading.take(b"\n".to_vec()) else {
        panic!("the blank line");
    };
    assert_eq!(reading.want(), Want::UntilNul);
    assert!(matches!(reading.take(b"x".to_vec()), Err(Error::EndsBeforeNul)));
}

#[test]
fn a_reader_fetches_what_is_wanted() {
    let mut reader = ByteReader::new(b"ab\ncd\0efg");
    assert_eq!(reader.fetch(Want::Line), b"ab\n");
    assert_eq!(reader.fetch(Want::UntilNul), b"cd\0");
    assert_eq!(reader.fetch(Want::Exact(2)), b"ef");
    assert_eq!(reader.fetch(Want::Exact(2)), b"g");
    assert_eq!(reader.fetch(Want::Line), b"");
    assert_eq!(reader.fetch(Want::UntilNul), b"");
}

#[test]
fn a_bare_body_over_the_bound_is_refused() {
    let mut bytes = b"SEND\n\n".to_vec();
    bytes.extend(vec![b'a'; MAX_BODY + 1]);
    bytes.push(0);
    assert_eq!(read_all(&bytes), Err(Error::TooLong));
    bytes.remove(6);
    let frame = read_all(&bytes).expect("read").expect("one");
    assert_eq!(frame.body.len(), MAX_BODY, "at the bound");
    bytes.pop();
    assert_eq!(read_all(&bytes), Err(Error::EndsBeforeNul));
}

#[test]
fn a_frame_cut_off_anywhere_is_an_error() {
    let frames = vec![
        Frame::new("SEND")
            .with_header("destination", "/queue/größe")
            .with_header("odd", "a:b\\c\nd\re")
            .with_body(b"one\0two"),
        Frame::new("CONNECT").with_header("host", "a:b"),
        Frame::new("DISCONNECT"),
    ];
    for frame in frames {
        let bytes = encode(&frame);
        for at in 1..bytes.len() {
            assert!(read_all(&bytes[..at]).is_err(), "{} at {at}", frame.command);
        }
        assert!(read_all(&bytes).is_ok());
    }
    assert_eq!(read_all(b""), Ok(None));
    assert_eq!(read_all(b"\r"), Ok(None), "a blank line");
}

#[test]
fn a_long_frame_cut_off_is_an_error_too() {
    let bytes = encode(&Frame::new("SEND").with_body(&vec![7; MAX_BODY + 1]));
    for at in [1, 4, 5, 12, 27, 28, 29, 30, bytes.len() - 1, bytes.len()] {
        assert!(read_all(&bytes[..at]).is_err(), "at {at}");
    }
    let short = encode(&Frame::new("SEND").with_header("content-length", "9").with_body(b"\0\0"));
    for at in 1..=short.len() {
        assert!(read_all(&short[..at]).is_err(), "at {at}");
    }
}

#[test]
fn only_heart_beats_are_the_end() {
    for quiet in ["", "\n", "\r\n", "\n\n\r\n", "\r", "\n\r", "\r\n\r"] {
        assert_eq!(read_all(quiet.as_bytes()), Ok(None), "{quiet:?}");
    }
    for loud in [" ", "\0", "\r\r", "\r\r\n", "\n \n", "\rS", "S"] {
        assert_ne!(read_all(loud.as_bytes()), Ok(None), "{loud:?}");
    }
}
