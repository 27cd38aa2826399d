use activemq::client::refused_with;
use activemq::session::sent_of;
use activemq::{
    encode, read, Arrived, ByteReader, Client, Error, Event, Frame, Login, Queues, Session, Turn,
};

fn frames(bytes: &[u8]) -> Vec<Frame> {
    let mut reader = ByteReader::new(bytes);
    let mut all = Vec::new();
    while let Some(frame) = read(&mut reader).expect("a frame") {
        all.push(frame);
    }
    all
}

fn connect(version: &str) -> Frame {
    Frame::new("CONNECT").with_header("accept-version", version)
}

fn session() -> Session {
    Session::accept("10.0.0.1:50123", 50_123, Some(connect("1.2")), None)
        .1
        .expect("accepted")
}

fn client() -> Client {
    Client::connect("broker:61613", "broker", None).0
}

fn login(user: &str, password: &str) -> Login {
    Login {
        user: user.to_string(),
        password: password.to_string(),
    }
}

#[test]
fn a_client_opens_with_connect() {
    let (client, out) = Client::connect("broker:61613", "broker", None);
    assert_eq!(
        out,
        b"CONNECT\naccept-version:1.2\nhost:broker\nheart-beat:0,0\n\n\0"
    );
    assert_eq!(client.session(), "");
    let (_, out) = Client::connect("broker:61613", "broker", Some(&login("xmip", "s:t")));
    assert_eq!(
        out,
        b"CONNECT\naccept-version:1.2\nhost:broker\nheart-beat:0,0\nlogin:xmip\npasscode:s:t\n\n\0"
    );
}

#[test]
fn a_client_takes_its_session_from_connected() {
    let mut client = client();
    let answer = Frame::new("CONNECTED").with_header("session", "ID:broker-1");
    assert_eq!(client.connected(Some(answer)), Ok(()));
    assert_eq!(client.session(), "ID:broker-1");
    assert_eq!(client.connected(Some(Frame::new("CONNECTED"))), Ok(()));
    assert_eq!(client.session(), "");
}

#[test]
fn a_client_is_not_connected_by_anything_else() {
    let mut client = client();
    assert_eq!(client.connected(None), Err(Error::ClosedOnConnect));
    assert_eq!(
        client.connected(Some(Frame::new("RECEIPT"))),
        Err(Error::AnsweredConnect("RECEIPT".to_string()))
    );
    let error = Frame::new("ERROR")
        .with_header("message", "no")
        .with_body(b"\n  because\r\n");
    assert_eq!(
        client.connected(Some(error)),
        Err(Error::Refused {
            message: "no".to_string(),
            detail: "because".to_string(),
        })
    );
    assert_eq!(client.session(), "");
}

#[test]
fn an_error_is_read_whatever_its_bytes() {
    let client = client();
    let body = b" a\xffb \n";
    let frame = Frame::new("ERROR").with_body(body);
    assert_eq!(
        client.next_message(Some(frame.clone())),
        Err(Error::Refused {
            message: "no message".to_string(),
            detail: "a\u{fffd}b".to_string(),
        })
    );
    assert_eq!(
        refused_with(&frame, " read elsewhere "),
        Error::Refused {
            message: "no message".to_string(),
            detail: "read elsewhere".to_string(),
        }
    );
    let umlauts = Frame::new("ERROR")
        .with_header("message", "nein")
        .with_body("größer".as_bytes());
    assert_eq!(
        client.next_message(Some(umlauts)).expect_err("refused").message(),
        "the broker answered ERROR: nein größer"
    );
}

#[test]
fn a_client_numbers_what_it_asks_for() {
    let mut client = client();
    assert!(client.has_id());
    let (first, out) = client.send("/queue/a:b", b"x\0y");
    assert_eq!(first, "1");
    assert_eq!(
        out,
        b"SEND\ndestination:/queue/a\\cb\nreceipt:1\ncontent-type:application/octet-stream\ncontent-length:3\n\nx\0y\0"
    );
    let (second, out) = client.subscribe("/queue/x");
    assert_eq!(second, "2");
    assert_eq!(
        out,
        b"SUBSCRIBE\nid:2\ndestination:/queue/x\nack:client-individual\n\n\0"
    );
    assert_eq!(client.ack("ID:7"), b"ACK\nid:ID\\c7\n\n\0");
    let (third, out) = client.disconnect();
    assert_eq!(third, "3");
    assert_eq!(out, b"DISCONNECT\nreceipt:3\n\n\0");
}

#[test]
fn a_client_waits_for_its_own_receipt() {
    let mut client = client();
    let receipt = |id: &str| Some(Frame::new("RECEIPT").with_header("receipt-id", id));
    assert_eq!(client.await_receipt("1", receipt("2")), Ok(false));
    assert_eq!(client.await_receipt("1", receipt("1")), Ok(true));
    assert_eq!(
        client.await_receipt("1", Some(Frame::new("RECEIPT"))),
        Ok(false)
    );
    assert_eq!(
        client.await_receipt("", Some(Frame::new("RECEIPT"))),
        Ok(false)
    );
    assert_eq!(
        client.await_receipt("1", Some(Frame::new("CONNECTED"))),
        Ok(false)
    );
    assert_eq!(
        client.await_receipt("1", None),
        Err(Error::ClosedBeforeReceipt)
    );
    assert!(client.take_pending().is_none());
    let error = Frame::new("ERROR").with_header("message", "no");
    assert_eq!(
        client.await_receipt("1", Some(error)),
        Err(Error::Refused {
            message: "no".to_string(),
            detail: String::new(),
        })
    );
}

#[test]
fn a_message_says_where_it_came_from() {
    let client = client();
    let frame = Frame::new("MESSAGE")
        .with_header("destination", "queue/x")
        .with_header("message-id", "ID:broker-1234")
        .with_body(b"hi");
    let Ok(Turn::Took(message)) = client.next_message(Some(frame.clone())) else {
        panic!("a message");
    };
    assert_eq!(
        message.arrived,
        Arrived {
            origin_uri: "activemq://broker:61613/queue/x?message-id=ID:broker-1234".to_string(),
            bytes: b"hi".to_vec(),
        }
    );
    assert_eq!(message.ack, "ID:broker-1234", "without an ack, the id");
    let Ok(Turn::Took(message)) = client.next_message(Some(frame.with_header("ack", "9"))) else {
        panic!("a message");
    };
    assert_eq!(message.ack, "9");
    let Ok(Turn::Took(message)) = client.next_message(Some(Frame::new("MESSAGE"))) else {
        panic!("a message");
    };
    assert_eq!(
        message.arrived.origin_uri,
        "activemq://broker:61613/?message-id="
    );
    assert_eq!(
        client.next_message(Some(Frame::new("RECEIPT"))),
        Ok(Turn::Again)
    );
    assert_eq!(client.next_message(None), Ok(Turn::Closed));
}

#[test]
fn a_client_is_welcomed() {
    let (out, accepted) =
        Session::accept("10.0.0.1:50123", 50_123, Some(connect("1.0, 1.2")), None);
    assert_eq!(
        out,
        b"CONNECTED\nversion:1.2\nserver:xmip/0.1.0\nheart-beat:0,0\nsession:xmip-50123\n\n\0"
    );
    let session = accepted.expect("accepted");
    assert_eq!(
        session.connect().header("accept-version"),
        Some("1.0, 1.2")
    );
    let stomp = Frame::new("STOMP").with_header("accept-version", "1.2");
    assert!(Session::accept("p", 1, Some(stomp), None).1.is_ok());
}

#[test]
fn a_client_is_refused() {
    let refused = |opening: Option<Frame>, expected: Option<&Login>| {
        let (out, accepted) = Session::accept("p", 1, opening, expected);
        (out, accepted.err().expect("refused"))
    };
    assert_eq!(refused(None, None), (Vec::new(), Error::NotConnect));
    assert_eq!(
        refused(Some(Frame::new("SEND")), None),
        (Vec::new(), Error::NotConnect)
    );
    let version = "only STOMP 1.2 is spoken here";
    for opening in [connect("1.0,1.1"), connect(""), Frame::new("CONNECT")] {
        assert_eq!(
            refused(Some(opening), None),
            (
                encode(&Frame::new("ERROR").with_header("message", version)),
                Error::ClientRefused(version.to_string())
            )
        );
    }
    let expected = login("xmip", "secret");
    for opening in [
        connect("1.2"),
        connect("1.2").with_header("login", "xmip"),
        connect("1.2").with_header("passcode", "secret"),
        connect("1.2")
            .with_header("login", "xmip")
            .with_header("passcode", "wrong"),
    ] {
        let (out, error) = refused(Some(opening), Some(&expected));
        assert_eq!(out, b"ERROR\nmessage:not authorised\n\n\0");
        assert_eq!(error, Error::ClientRefused("not authorised".to_string()));
    }
}

#[test]
fn what_is_sent_is_held_until_it_is_subscribed_to() {
    let mut session = session();
    for (receipt, body) in [("1", &b"one"[..]), ("2", b"two")] {
        let frame = Frame::new("SEND")
            .with_header("destination", "/queue/x")
            .with_header("receipt", receipt)
            .with_body(body);
        let (out, event) = session.next_event(Some(frame));
        assert_eq!(
            out,
            encode(&Frame::new("RECEIPT").with_header("receipt-id", receipt))
        );
        assert_eq!(
            event,
            Ok(Turn::Took(Event::Sent(Arrived {
                origin_uri: "activemq://10.0.0.1:50123/queue/x".to_string(),
                bytes: body.to_vec(),
            })))
        );
    }
    assert_eq!(session.queues().get("/queue/x").expect("held").len(), 2);
    let frame = Frame::new("SUBSCRIBE")
        .with_header("id", "sub")
        .with_header("destination", "/queue/x")
        .with_header("receipt", "3");
    assert!(session.can_serve(&frame));
    let (out, event) = session.next_event(Some(frame));
    assert_eq!(
        event,
        Ok(Turn::Took(Event::Subscribed {
            id: "sub".to_string(),
            destination: "/queue/x".to_string(),
        }))
    );
    let answers = frames(&out);
    assert_eq!(answers.len(), 3);
    assert_eq!(answers[0].header("receipt-id"), Some("3"));
    for (at, body) in [(1, &b"one"[..]), (2, b"two")] {
        let number = format!("{at}");
        assert_eq!(answers[at].command, "MESSAGE");
        assert_eq!(answers[at].header("subscription"), Some("sub"));
        assert_eq!(answers[at].header("message-id"), Some(number.as_str()));
        assert_eq!(answers[at].header("ack"), Some(number.as_str()));
        assert_eq!(answers[at].header("destination"), Some("/queue/x"));
        assert_eq!(
            answers[at].header("content-type"),
            Some("application/octet-stream")
        );
        assert_eq!(answers[at].body, body);
    }
    assert!(session.queues().get("/queue/x").is_none(), "drained");

    let again = Frame::new("SEND")
        .with_header("destination", "/queue/x")
        .with_body(b"three");
    let (out, _) = session.next_event(Some(again));
    let answers = frames(&out);
    assert_eq!(answers.len(), 1, "at once, and no receipt was asked for");
    assert_eq!(answers[0].header("message-id"), Some("3"));
    assert!(session.queues().get("/queue/x").is_none());
}

#[test]
fn the_oldest_subscription_is_served_until_it_is_gone() {
    let mut session = session();
    for id in ["a", "b"] {
        let frame = Frame::new("SUBSCRIBE")
            .with_header("id", id)
            .with_header("destination", "/topic/t");
        let (out, _) = session.next_event(Some(frame));
        assert!(out.is_empty());
    }
    let serves = |session: &mut Session| {
        let out = session.deliver("/topic/t", b"x");
        frames(&out)
            .first()
            .map(|frame| frame.header("subscription").unwrap_or_default().to_string())
    };
    assert_eq!(serves(&mut session), Some("a".to_string()));
    let unsubscribe = |id: &str| Frame::new("UNSUBSCRIBE").with_header("id", id);
    let (out, event) = session.next_event(Some(unsubscribe("a").with_header("receipt", "r")));
    assert_eq!(out, b"RECEIPT\nreceipt-id:r\n\n\0");
    assert_eq!(event, Ok(Turn::Took(Event::Unsubscribed("a".to_string()))));
    assert_eq!(serves(&mut session), Some("b".to_string()));
    session.next_event(Some(unsubscribe("c"))).1.expect("unknown");
    assert_eq!(serves(&mut session), Some("b".to_string()));
    session.next_event(Some(unsubscribe("b"))).1.expect("known");
    assert_eq!(serves(&mut session), None);
    assert_eq!(session.queues().get("/topic/t").expect("held").len(), 1);
}

#[test]
fn what_else_a_client_says_is_receipted() {
    let mut session = session();
    let asking = |command: &str| {
        Frame::new(command)
            .with_header("id", "7")
            .with_header("receipt", "r")
    };
    let receipt = b"RECEIPT\nreceipt-id:r\n\n\0".to_vec();
    for command in ["ACK", "NACK"] {
        let served = session.next_event(Some(asking(command)));
        let acked = Event::Acked("7".to_string());
        assert_eq!(served, (receipt.clone(), Ok(Turn::Took(acked))));
    }
    for command in ["BEGIN", "COMMIT", "ABORT"] {
        let served = session.next_event(Some(asking(command)));
        assert_eq!(served, (receipt.clone(), Ok(Turn::Again)));
        let served = session.next_event(Some(Frame::new(command)));
        assert_eq!(served, (Vec::new(), Ok(Turn::Again)));
    }
    let served = session.next_event(Some(asking("DISCONNECT")));
    assert_eq!(served, (receipt, Ok(Turn::Closed)));
    assert_eq!(session.next_event(None), (Vec::new(), Ok(Turn::Closed)));
}

#[test]
fn what_only_a_broker_says_is_an_error() {
    for command in ["MESSAGE", "CONNECT", "RECEIPT", "send", "SENDX"] {
        let mut session = session();
        let frame = Frame::new(command).with_header("receipt", "r");
        let (out, event) = session.next_event(Some(frame));
        assert_eq!(out, b"ERROR\nmessage:unknown command\n\n\0");
        assert_eq!(event, Err(Error::FromClient(command.to_string())));
    }
}

#[test]
fn next_send_passes_over_what_is_not_sent() {
    let mut session = session();
    let (_, turn) = session.next_send(Some(Frame::new("ACK")));
    assert_eq!(turn, Ok(Turn::Again));
    let (_, turn) = session.next_send(Some(Frame::new("BEGIN")));
    assert_eq!(turn, Ok(Turn::Again));
    let (_, turn) = session.next_send(Some(Frame::new("SEND").with_body(b"x")));
    assert_eq!(
        turn,
        Ok(Turn::Took(Arrived {
            origin_uri: "activemq://10.0.0.1:50123/".to_string(),
            bytes: b"x".to_vec(),
        }))
    );
    assert_eq!(session.queues().get("").expect("nowhere").len(), 1);
    let (_, turn) = session.next_send(Some(Frame::new("MESSAGE")));
    assert_eq!(turn, Err(Error::FromClient("MESSAGE".to_string())));
    let (_, turn) = session.next_send(Some(Frame::new("DISCONNECT")));
    assert_eq!(turn, Ok(Turn::Closed));
    assert_eq!(session.next_send(None), (Vec::new(), Ok(Turn::Closed)));
}

#[test]
fn queues_hold_messages_per_destination() {
    let mut queues = Queues::new();
    assert!(queues.get("a").is_none());
    queues.push("a", b"1");
    queues.push("b", b"2");
    queues.push("a", b"3");
    assert_eq!(
        queues.get("a").expect("a"),
        &vec![b"1".to_vec(), b"3".to_vec()]
    );
    assert_eq!(queues.remove("a"), vec![b"1".to_vec(), b"3".to_vec()]);
    assert!(queues.get("a").is_none());
    assert_eq!(queues.remove("a"), Vec::<Vec<u8>>::new());
    assert_eq!(queues.get("b").expect("b"), &vec![b"2".to_vec()]);
    let session = session().with_queues(queues);
    assert_eq!(session.into_queues().get("b").expect("b").len(), 1);
}

#[test]
fn queues_list_their_destinations_in_order() {
    let mut queues = Queues::new();
    assert!(queues.is_empty());
    assert!(queues.destinations().is_empty());
    for destination in ["/topic/b", "", "/queue/z", "/queue", "/topic/b", "ä", "/queue/a"] {
        queues.push(destination, b"x");
    }
    assert!(!queues.is_empty());
    let listed = queues.destinations();
    assert_eq!(listed, ["", "/queue", "/queue/a", "/queue/z", "/topic/b", "ä"]);
    let mut sorted = listed.clone();
    sorted.sort();
    assert_eq!(listed, sorted, "as the standard library sorts");
    assert_eq!(queues.get("/topic/b").expect("twice").len(), 2);
    let copy = queues.clone();
    assert_eq!(copy, queues);
    queues.remove("/queue");
    assert_ne!(copy, queues);
    assert_eq!(queues.destinations().len(), 5);
    for destination in listed {
        queues.remove(&destination);
    }
    assert!(queues.is_empty());
    assert_eq!(queues, Queues::new());
}

#[test]
fn what_is_held_is_held_until_the_subscription_is_answered() {
    let mut queues = Queues::new();
    queues.push("/queue/x", b"one");
    queues.push("/queue/x", b"two");
    let frame = Frame::new("SUBSCRIBE")
        .with_header("id", "s")
        .with_header("destination", "/queue/x")
        .with_header("receipt", "r");
    let mut unlucky = session().with_queues(queues.clone());
    let (answer, turn) = unlucky.answer(Some(frame.clone()));
    assert_eq!(answer, b"RECEIPT\nreceipt-id:r\n\n\0");
    assert!(turn.is_ok());
    assert_eq!(unlucky.into_queues(), queues, "the answer was not written");

    let mut lucky = session().with_queues(queues.clone());
    let (mut bytes, turn) = lucky.answer(Some(frame.clone()));
    let Ok(Turn::Took(event)) = turn else {
        panic!("subscribed");
    };
    assert!(lucky.can_drain(&event));
    bytes.extend(lucky.drain(&event));
    let mut whole = session().with_queues(queues);
    let (served, turn) = whole.next_event(Some(frame));
    assert_eq!(bytes, served);
    assert_eq!(turn, Ok(Turn::Took(event)));
    assert!(lucky.queues().is_empty() && whole.queues().is_empty());
    assert!(whole.drain(&Event::Acked("1".to_string())).is_empty());
}

#[test]
fn a_receipt_that_is_asked_for_is_given_once() {
    let commands = [
        "SEND", "SUBSCRIBE", "SEND", "ACK", "NACK", "BEGIN", "COMMIT", "ABORT", "UNSUBSCRIBE",
        "DISCONNECT",
    ];
    for asked in [true, false] {
        let mut session = session();
        for command in commands {
            let mut frame = Frame::new(command).with_header("destination", "/queue/x");
            if asked {
                frame = frame.with_header("receipt", "r");
            }
            let (out, turn) = session.next_event(Some(frame));
            assert!(turn.is_ok());
            let receipts = frames(&out)
                .iter()
                .filter(|frame| frame.command == "RECEIPT")
                .count();
            assert_eq!(receipts, usize::from(asked), "{command}");
        }
    }
}

#[test]
fn over_a_run_what_is_put_is_delivered_in_order_or_held() {
    let mut session = session();
    let mut out = Vec::new();
    let on = |command: &str| {
        Frame::new(command)
            .with_header("id", "s")
            .with_header("destination", "/queue/x")
    };
    out.extend(session.next_event(Some(on("SEND").with_body(b"1"))).0);
    out.extend(session.deliver("/queue/x", b"2"));
    out.extend(session.deliver("/queue/y", b"elsewhere"));
    out.extend(session.next_event(Some(on("SUBSCRIBE"))).0);
    out.extend(session.next_event(Some(on("SEND").with_body(b"3"))).0);
    out.extend(session.deliver("/queue/x", b"4"));
    out.extend(session.next_event(Some(on("UNSUBSCRIBE"))).0);
    out.extend(session.next_event(Some(on("SEND").with_body(b"5"))).0);
    let messages = frames(&out);
    let bodies: Vec<Vec<u8>> = messages.iter().map(|frame| frame.body.clone()).collect();
    assert_eq!(bodies, [b"1", b"2", b"3", b"4"]);
    for (frame, id) in messages.iter().zip(["1", "2", "3", "4"]) {
        assert_eq!(frame.header("message-id"), Some(id));
    }
    assert_eq!(session.queues().get("/queue/x"), Some(&vec![b"5".to_vec()]));
    assert_eq!(session.queues().destinations(), ["/queue/x", "/queue/y"]);
}

#[test]
fn only_what_is_sent_is_sent() {
    let arrived = Arrived {
        origin_uri: "activemq://h:1/queue/x".to_string(),
        bytes: b"x".to_vec(),
    };
    assert_eq!(
        sent_of(Turn::Took(Event::Sent(arrived.clone()))),
        Turn::Took(arrived)
    );
    assert_eq!(
        sent_of(Turn::Took(Event::Acked("1".to_string()))),
        Turn::Again
    );
    assert_eq!(sent_of(Turn::Again), Turn::Again);
    assert_eq!(sent_of(Turn::Closed), Turn::Closed);
}

#[test]
fn kept_and_later_messages_are_taken_once_and_in_order_up_to_an_error() {
    let mut client = client();
    let message = |id: &str| Frame::new("MESSAGE").with_header("message-id", id);
    let receipt = |id: &str| Frame::new("RECEIPT").with_header("receipt-id", id);
    for frame in [message("1"), receipt("8"), message("2"), receipt("9")] {
        let over = frame.header("receipt-id") == Some("9");
        assert_eq!(client.await_receipt("9", Some(frame)), Ok(over));
    }
    let mut later = vec![
        message("3"),
        receipt("7"),
        message("4"),
        Frame::new("ERROR").with_header("message", "no"),
        message("5"),
    ]
    .into_iter();
    let mut taken = Vec::new();
    let error = loop {
        let frame = client.take_pending().or_else(|| later.next());
        match client.next_message(frame) {
            Ok(Turn::Took(message)) => taken.push(message.ack),
            Ok(Turn::Again) => {}
            Ok(Turn::Closed) => panic!("closed"),
            Err(error) => break error,
        }
    };
    assert_eq!(taken, ["1", "2", "3", "4"]);
    assert_eq!(error.message(), "the broker answered ERROR: no ");
    assert_eq!(later.len(), 1, "nothing is read past the error");
}
