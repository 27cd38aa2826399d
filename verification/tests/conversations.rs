use std::time::Duration;

use activemq::{
    read, take_one, ActiveMqTransport, Arrived, ByteReader, Client, Error, Event, Frame, Next,
    Queues, Receiving, Session, Turn, Waited,
};

fn secs(n: u64) -> Duration {
    Duration::from_secs(n)
}

/// The frames in `bytes`, all of which are frames.
fn frames(bytes: &[u8]) -> Vec<Frame> {
    let mut reader = ByteReader::new(bytes);
    let mut all = Vec::new();
    while let Some(frame) = read(&mut reader).expect("a frame") {
        all.push(frame);
    }
    all
}

/// What `session` makes of all the client wrote: the events, whether the
/// client has gone, and the answers.
fn serve(session: &mut Session, bytes: &[u8]) -> (Vec<Event>, bool, Vec<u8>) {
    let mut events = Vec::new();
    let mut out = Vec::new();
    for frame in frames(bytes) {
        assert!(session.can_serve(&frame));
        let (answer, event) = session.next_event(Some(frame));
        out.extend(answer);
        match event.expect("serving") {
            Turn::Took(event) => events.push(event),
            Turn::Again => {}
            Turn::Closed => return (events, true, out),
        }
    }
    (events, false, out)
}

/// A client of `near` and the session that `far` makes of it.
fn meet(
    near: &ActiveMqTransport,
    far: &ActiveMqTransport,
) -> (Result<Client, Error>, Result<Session, Error>) {
    let (mut client, connect) = near.connect("127.0.0.1");
    let opening = read(&mut ByteReader::new(&connect)).expect("CONNECT");
    let (answer, session) = far.accept_one("127.0.0.1:50123", 50_123, opening);
    let answer = read(&mut ByteReader::new(&answer)).expect("an answer");
    (client.connected(answer).map(|()| client), session)
}

fn met(near: &ActiveMqTransport, far: &ActiveMqTransport) -> (Client, Session) {
    let (client, session) = meet(near, far);
    (client.expect("connecting"), session.expect("accepting"))
}

/// Whether the answers hold the receipt that is awaited.
fn receipted(client: &mut Client, receipt: &str, answers: &[u8]) -> bool {
    for frame in frames(answers) {
        if client.await_receipt(receipt, Some(frame)).expect("waiting") {
            return true;
        }
    }
    false
}

/// One SEND to `target` and the DISCONNECT after it, both receipted, through
/// the session, which takes the one Stream.
fn send(
    near: &ActiveMqTransport,
    mut client: Client,
    session: &mut Session,
    target: &str,
    bytes: &[u8],
) -> Option<Arrived> {
    let (server, destination) = near.resolve(target);
    assert_eq!(server, near.server());
    let (receipt, out) = client.send(&destination, bytes);
    let mut arrived = None;
    let mut answers = Vec::new();
    for frame in frames(&out) {
        let (answer, sent) = session.next_send(Some(frame));
        answers.extend(answer);
        match sent.expect("sent") {
            Turn::Took(stream) => arrived = Some(stream),
            other => panic!("{other:?}"),
        }
    }
    assert!(receipted(&mut client, &receipt, &answers), "the broker has it");
    let (receipt, out) = client.disconnect();
    let (events, gone, answers) = serve(session, &out);
    assert!(events.is_empty());
    assert!(gone, "disconnected");
    assert!(receipted(&mut client, &receipt, &answers), "let go");
    arrived
}

/// Receive on `near` through `session`: what arrived, and what the session
/// saw of it. A broker with nothing more to say is quiet.
fn receive(
    near: &ActiveMqTransport,
    mut client: Client,
    session: &mut Session,
) -> (Vec<Arrived>, Vec<Event>, bool) {
    let (_, out) = client.subscribe(near.queue());
    let (mut events, mut gone, answers) = serve(session, &out);
    let mut reader = ByteReader::new(&answers);
    let mut receiving = Receiving::new();
    loop {
        let frame = match client.take_pending() {
            Some(frame) => Some(frame),
            None => read(&mut reader).expect("a frame"),
        };
        let waited = match frame {
            None => Waited::Failed { retryable: true },
            frame => match client.next_message(frame).expect("a message") {
                Turn::Took(message) => Waited::Message(message),
                Turn::Closed => Waited::Closed,
                Turn::Again => continue,
            },
        };
        match receiving.receive(waited) {
            Next::Ack(ack) => {
                let (more, left, answers) = serve(session, &client.ack(&ack));
                assert!(answers.is_empty() && !left);
                events.extend(more);
            }
            Next::Leave => break,
            other => panic!("{other:?}"),
        }
    }
    let (receipt, out) = client.disconnect();
    let (more, left, answers) = serve(session, &out);
    events.extend(more);
    gone = gone || left;
    assert!(receipted(&mut client, &receipt, &answers));
    (receiving.into_arrived(), events, gone)
}

#[test]
fn a_client_sends_to_a_session_and_the_session_delivers_to_a_receiver() {
    let far_end = ActiveMqTransport::new("127.0.0.1:0", "/queue/orders")
        .with_login("xmip", "secret")
        .timing_out_after(secs(2));
    let address = "127.0.0.1:41613";
    let near = ActiveMqTransport::new(address, "/queue/orders")
        .with_login("xmip", "secret")
        .timing_out_after(secs(2));
    let targets = [
        "/queue/orders".to_string(),
        format!("activemq://{address}/queue/orders"),
        format!("{address}/queue/other"),
    ];
    let mut queues = Queues::new();
    for (target, expected) in targets
        .iter()
        .zip([&b"order 1\r\nline 2"[..], b"", b"other"])
    {
        let (client, session) = met(&near, &far_end);
        let mut session = session.with_queues(queues);
        assert_eq!(session.connect().header("login"), Some("xmip"));
        let sent = send(&near, client, &mut session, target, expected).expect("one");
        assert_eq!(sent.bytes, expected);
        assert!(sent.origin_uri.starts_with("activemq://127.0.0.1:"));
        queues = session.into_queues();
    }
    assert_eq!(queues.get("/queue/orders").expect("orders").len(), 2);
    assert_eq!(queues.get("/queue/other").expect("other").len(), 1);
    let receiver = ActiveMqTransport::new(address, "/queue/orders")
        .with_login("xmip", "secret")
        .timing_out_after(Duration::from_millis(300));
    let (client, session) = met(&receiver, &far_end);
    let mut session = session.with_queues(queues);
    let (arrived, events, gone) = receive(&receiver, client, &mut session);
    assert!(gone);
    assert!(matches!(&events[0], Event::Subscribed { destination, .. }
        if destination == "/queue/orders"));
    assert_eq!(events[1], Event::Acked("1".to_string()));
    assert_eq!(events[2], Event::Acked("2".to_string()));
    assert_eq!(events.len(), 3);
    assert!(
        session.queues().get("/queue/other").expect("other").len() == 1,
        "not subscribed"
    );
    assert_eq!(arrived.len(), 2);
    assert_eq!(arrived[0].bytes, b"order 1\r\nline 2");
    assert!(arrived[0]
        .origin_uri
        .ends_with("/queue/orders?message-id=1"));
    assert!(arrived[1].bytes.is_empty());
    assert!(arrived[1]
        .origin_uri
        .ends_with("/queue/orders?message-id=2"));
}

#[test]
fn a_session_delivers_what_it_is_given_while_the_client_listens() {
    let far_end =
        ActiveMqTransport::new("127.0.0.1:0", "/topic/prices").timing_out_after(secs(2));
    let near =
        ActiveMqTransport::new("127.0.0.1:41613", "/topic/prices").timing_out_after(secs(2));
    let (mut client, mut session) = met(&near, &far_end);
    let (_, out) = client.subscribe("/topic/prices");
    let (events, _, answers) = serve(&mut session, &out);
    assert_eq!(events.len(), 1, "subscribed");
    assert!(answers.is_empty());
    assert!(session.can_deliver("/topic/prices"));
    let delivered = session.deliver("/topic/prices", b"42");
    let mut reader = ByteReader::new(&delivered);
    let frame = read(&mut reader).expect("delivered");
    let Ok(Turn::Took(first)) = client.next_message(frame) else {
        panic!("first");
    };
    let (events, _, _) = serve(&mut session, &client.ack(&first.ack));
    assert_eq!(events, vec![Event::Acked("1".to_string())]);
    drop(session);
    let frame = read(&mut reader).expect("closed");
    let second = client.next_message(frame).expect("listening");
    assert_eq!(first.arrived.bytes, b"42");
    assert_eq!(first.ack, "1");
    assert!(matches!(second, Turn::Closed), "the broker closed");
}

#[test]
fn a_refused_login_and_a_broker_that_is_not_stomp_are_permanent() {
    let far_end = ActiveMqTransport::new("127.0.0.1:0", "/queue/x")
        .with_login("xmip", "secret")
        .timing_out_after(secs(2));
    let stranger = ActiveMqTransport::new("127.0.0.1:41613", "/queue/x")
        .with_login("xmip", "wrong")
        .timing_out_after(secs(2));
    let (client, session) = meet(&stranger, &far_end);
    assert!(session.is_err(), "refused at the far end too");
    let error = client.err().expect("refused");
    assert!(!error.retryable(), "{error:?}");
    assert!(error.message().contains("not authorised"));

    let (mut client, _) = ActiveMqTransport::new("127.0.0.1:41613", "/queue/x")
        .timing_out_after(secs(2))
        .connect("127.0.0.1");
    let answer = read(&mut ByteReader::new(b"220 mail.example ESMTP\r\n\r\n\0")).expect("frame");
    let error = client.connected(answer).err().expect("not stomp");
    assert!(!error.retryable(), "{error:?}");
    let transport = ActiveMqTransport::new("127.0.0.1:0", "/queue/x");
    assert_eq!(transport.name(), "activemq");
    assert_eq!(
        transport.resolve("activemq://h:1/queue/a"),
        ("h:1".to_string(), "/queue/a".to_string())
    );
    assert_eq!(
        transport.resolve("h:1/topic/b"),
        ("h:1".to_string(), "/topic/b".to_string())
    );
    assert_eq!(
        transport.resolve("/queue/c"),
        ("127.0.0.1:0".to_string(), "/queue/c".to_string())
    );
    assert_eq!(
        transport.resolve("activemq://h:1"),
        ("h:1".to_string(), "/queue/x".to_string())
    );
}

/// A round on this machine: a far end, and a fresh client that sends it the
/// payload and leaves.
fn round(loopback: &ActiveMqTransport, payload: &[u8]) -> Arrived {
    let near = loopback.at("127.0.0.1:41613");
    let (client, mut session) = met(&near, loopback);
    let first = send(&near, client, &mut session, loopback.queue(), payload);
    take_one(first).expect("one")
}

#[test]
fn the_loopback_round_returns_the_payload_and_its_origin() {
    let loopback = ActiveMqTransport::loopback(secs(5));
    let arrived = round(&loopback, b"sent");
    assert_eq!(arrived.bytes, b"sent");
    assert!(arrived.origin_uri.starts_with("activemq://127.0.0.1:"));
    assert!(arrived.origin_uri.contains("/queue/probe"));
}

#[test]
fn the_loopback_returns_the_edge_payloads_whole() {
    let loopback = ActiveMqTransport::loopback(secs(5));
    for (name, payload) in edge_payloads() {
        let arrived = round(&loopback, &payload);
        assert!(arrived.bytes == payload, "{name} came back changed");
    }
}

/// The shapes a framing fault changes.
fn edge_payloads() -> Vec<(&'static str, Vec<u8>)> {
    vec![
        ("empty", Vec::new()),
        ("one byte", vec![0x2a]),
        ("every byte", (0..=255).collect()),
        ("nul run", vec![0; 512]),
        ("high bytes", vec![0xff; 512]),
        ("crlf storm", b"\r\n".repeat(400)),
        ("mtu minus one", patterned(1_471)),
        ("mtu", patterned(1_472)),
        ("mtu plus one", patterned(1_473)),
        ("udp maximum", patterned(65_507)),
        ("sixteen bits plus one", patterned(65_537)),
        ("a mebibyte", patterned(1 << 20)),
    ]
}

/// `len` bytes a truncation, a reorder or a duplicate would change.
fn patterned(len: usize) -> Vec<u8> {
    (0..len)
        .map(|at| u8::try_from((at * 31 + at / 251) % 256).unwrap_or(0))
        .collect()
}

#[test]
fn messages_that_come_while_a_receipt_is_awaited_are_kept_in_order() {
    let transport = ActiveMqTransport::new("broker:61613", "/queue/x");
    let (mut client, mut session) = met(&transport, &transport);
    let (_, subscribe) = client.subscribe("/queue/x");
    serve(&mut session, &subscribe);
    let mut answers = session.deliver("/queue/x", b"one");
    answers.extend(session.deliver("/queue/x", b"two"));
    let (receipt, out) = client.send("/queue/x", b"three");
    let (events, _, more) = serve(&mut session, &out);
    assert_eq!(events.len(), 1);
    answers.extend(more);
    assert_eq!(frames(&answers).len(), 4);
    assert!(receipted(&mut client, &receipt, &answers));
    for (number, body) in [("1", &b"one"[..]), ("2", b"two"), ("3", b"three")] {
        let frame = client.take_pending();
        assert!(frame.is_some());
        let Ok(Turn::Took(message)) = client.next_message(frame) else {
            panic!("a message");
        };
        assert_eq!(message.ack, number);
        assert_eq!(message.arrived.bytes, body);
        assert_eq!(
            message.arrived.origin_uri,
            format!("activemq://broker:61613/queue/x?message-id={number}")
        );
    }
    assert!(client.take_pending().is_none());
}

#[test]
fn a_login_is_expected_whole_or_not_at_all() {
    let open = ActiveMqTransport::new("h:1", "/queue/x");
    let guarded = open.clone().with_login("xmip", "secret");
    assert!(meet(&open, &open).1.is_ok(), "nothing expected");
    assert!(meet(&guarded, &open).1.is_ok(), "more than expected");
    assert!(meet(&guarded, &guarded).1.is_ok(), "as expected");
    assert!(meet(&open, &guarded).1.is_err(), "nothing presented");
    let other = open.clone().with_login("other", "secret");
    assert!(meet(&other, &guarded).1.is_err(), "another user");
    let colon = open.clone().with_login("a:b", "c\\d");
    assert!(meet(&colon, &colon).1.is_ok(), "bare headers");
}

#[test]
fn a_transport_is_what_it_was_told() {
    let transport = ActiveMqTransport::new("h:1", "/queue/x");
    assert_eq!(transport.server(), "h:1");
    assert_eq!(transport.queue(), "/queue/x");
    assert_eq!(transport.timeout(), None);
    let timed = transport.at("h:2").timing_out_after(secs(3));
    assert_eq!(timed.server(), "h:2");
    assert_eq!(timed.queue(), "/queue/x");
    assert_eq!(timed.timeout(), Some(secs(3)));
    let loopback = ActiveMqTransport::loopback(secs(4));
    assert_eq!(loopback.server(), "127.0.0.1:0");
    assert_eq!(loopback.queue(), "/queue/probe");
    assert_eq!(loopback.timeout(), Some(secs(4)));
}

#[test]
fn targets_resolve_to_a_server_and_a_destination() {
    let transport = ActiveMqTransport::new("here:1", "/queue/own");
    let resolves = |target: &str, server: &str, destination: &str| {
        assert_eq!(
            transport.resolve(target),
            (server.to_string(), destination.to_string()),
            "{target}"
        );
    };
    resolves("activemq://h:1/", "h:1", "/queue/own");
    resolves("activemq://h/queue/a", "h", "/queue/a");
    resolves("activemq://", "", "/queue/own");
    resolves("queue/a", "here:1", "queue/a");
    resolves("queue", "here:1", "queue");
    resolves("", "here:1", "");
    resolves("h:1", "here:1", "h:1");
    resolves("h:1/", "h:1", "/");
    resolves("/queue/a:b", "here:1", "/queue/a:b");
    resolves("tcp://h:1/queue/a", "tcp:", "//h:1/queue/a");
    resolves("activemq:/x", "activemq:", "/x");
    resolves("activemq://127.0.0.1:50123/queue/probe", "127.0.0.1:50123", "/queue/probe");
}

#[test]
fn a_target_that_is_named_elsewhere_resolves_the_same_way() {
    let transport = ActiveMqTransport::new("here:1", "/queue/own");
    let named = |server: &str, destination: &str| {
        Some((server.to_string(), destination.to_string()))
    };
    assert_eq!(
        transport.resolve_named(named("h:1", "queue/a"), "ignored"),
        ("h:1".to_string(), "/queue/a".to_string())
    );
    assert_eq!(
        transport.resolve_named(named("h:1", ""), "ignored"),
        ("h:1".to_string(), "/queue/own".to_string())
    );
    assert_eq!(
        transport.resolve_named(None, "h:1/a"),
        ("h:1".to_string(), "/a".to_string())
    );
}

#[test]
fn a_receiver_stops_leaves_or_fails() {
    let mut receiving = Receiving::new();
    assert_eq!(
        receiving.receive(Waited::Failed { retryable: true }),
        Next::Leave
    );
    assert_eq!(
        receiving.receive(Waited::Failed { retryable: false }),
        Next::Fail
    );
    assert_eq!(receiving.receive(Waited::Closed), Next::Stop);
    assert!(receiving.into_arrived().is_empty(), "a quiet queue");
}

#[test]
fn a_far_end_wants_one_stream() {
    let arrived = Arrived {
        origin_uri: "activemq://h:1/queue/x".to_string(),
        bytes: b"x".to_vec(),
    };
    assert_eq!(take_one(Some(arrived.clone())), Ok(arrived));
    assert_eq!(take_one(None), Err(Error::NothingSent));
}
