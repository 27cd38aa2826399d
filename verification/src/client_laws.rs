//! What a client writes, and what it makes of every frame a broker sends,
//! whatever headers it has or lacks.

use vstd::prelude::*;
use vstd::utf8::{decode_utf8, valid_utf8};

use crate::arrived::origin;
use crate::client::{ack_frame, connect_answer, connect_frame, disconnect_frame, lossy_text, message_turn, plain_refusal, receipt_turn, refusal_error, send_frame, subscribe_frame, ClientView, MessageView};
use crate::conversation_laws::{law_a_farewell_is_receipted, law_a_subscription_arrives, law_an_acknowledgement_arrives, law_connect_comes_over_the_wire, law_what_is_sent_arrives_whole, lemma_send, login_fits};
use crate::error::ErrorView;
use crate::frame::{encoded, FrameView, MAX_BODY};
use crate::frame_laws::{fits_line, law_a_header_is_its_first_value};
use crate::login::LoginView;
use crate::reading::read_one;
use crate::session::SessionView;
use crate::text::{decimal, lemma_decimal, number, trimmed};
use crate::turn::Turn;

verus! {

/// A SUBSCRIBE, read off the wire, asks for each message to be acknowledged
/// by itself, under the id and on the destination it was given.
pub proof fn law_a_subscription_asks_for_each_acknowledgement(
    id: Seq<char>,
    destination: Seq<char>,
    rest: Seq<u8>,
)
    ensures
        read_one(encoded(subscribe_frame(id, destination)) + rest) == (
            Ok::<Option<FrameView>, ErrorView>(
                Some(
                    FrameView {
                        command: "SUBSCRIBE"@,
                        headers: seq![
                            ("id"@, id),
                            ("destination"@, destination),
                            ("ack"@, "client-individual"@),
                        ],
                        body: Seq::empty(),
                    },
                ),
            ),
            rest,
        ),
        read_one(encoded(subscribe_frame(id, destination)) + rest).0 matches Ok(Some(frame))
            && frame.header("ack"@) == Some("client-individual"@),
{
    let frame = subscribe_frame(id, destination);
    let session = arbitrary_session();
    law_a_subscription_arrives(session, id, destination, rest);
    assert(frame.headers =~= seq![
        ("id"@, id),
        ("destination"@, destination),
        ("ack"@, "client-individual"@),
    ]);
    reveal_strlit("id");
    reveal_strlit("destination");
    reveal_strlit("ack");
    assert("id"@.len() == 2 && "destination"@.len() == 11 && "ack"@.len() == 3);
    law_a_header_is_its_first_value(frame, "ack"@, 2);
}

/// Some session.
spec fn arbitrary_session() -> SessionView {
    SessionView {
        peer: Seq::empty(),
        connect: FrameView::new(Seq::empty()),
        queues: Map::empty(),
        subscriptions: Seq::empty(),
        next_message: 0,
    }
}

/// A SEND, read off the wire, names its destination and the receipt it asks
/// for, says that its body is bytes and how many, and carries them.
pub proof fn law_a_send_says_what_it_carries(
    destination: Seq<char>,
    receipt: Seq<char>,
    body: Seq<u8>,
    rest: Seq<u8>,
)
    requires
        body.len() <= MAX_BODY,
    ensures
        read_one(encoded(send_frame(destination, receipt, body)) + rest) == (
            Ok::<Option<FrameView>, ErrorView>(
                Some(
                    FrameView {
                        command: "SEND"@,
                        headers: if body.len() > 0 {
                            seq![
                                ("destination"@, destination),
                                ("receipt"@, receipt),
                                ("content-type"@, "application/octet-stream"@),
                                ("content-length"@, decimal(body.len())),
                            ]
                        } else {
                            seq![
                                ("destination"@, destination),
                                ("receipt"@, receipt),
                                ("content-type"@, "application/octet-stream"@),
                            ]
                        },
                        body,
                    },
                ),
            ),
            rest,
        ),
{
    let frame = send_frame(destination, receipt, body);
    law_what_is_sent_arrives_whole(arbitrary_session(), destination, receipt, body, rest);
    lemma_send(destination, receipt, body);
    if body.len() > 0 {
        assert(frame.sealed().headers =~= seq![
            ("destination"@, destination),
            ("receipt"@, receipt),
            ("content-type"@, "application/octet-stream"@),
            ("content-length"@, decimal(body.len())),
        ]);
    } else {
        assert(frame.sealed().headers =~= seq![
            ("destination"@, destination),
            ("receipt"@, receipt),
            ("content-type"@, "application/octet-stream"@),
        ]);
    }
}

/// A SEND of any length, one that no reader takes included, is of the bytes it
/// was given, to the destination and under the receipt it was given.
pub proof fn law_a_send_is_of_what_it_is_given(
    destination: Seq<char>,
    receipt: Seq<char>,
    body: Seq<u8>,
)
    ensures
        send_frame(destination, receipt, body) == (FrameView {
            command: "SEND"@,
            headers: seq![
                ("destination"@, destination),
                ("receipt"@, receipt),
                ("content-type"@, "application/octet-stream"@),
            ],
            body,
        }),
{
    assert(send_frame(destination, receipt, body).headers =~= seq![
        ("destination"@, destination),
        ("receipt"@, receipt),
        ("content-type"@, "application/octet-stream"@),
    ]);
}

/// An ACK, read off the wire, names what it acknowledges, and a DISCONNECT
/// the receipt it asks for, and they say nothing else.
pub proof fn law_an_ack_and_a_farewell_say_what_they_are(id: Seq<char>, rest: Seq<u8>)
    ensures
        read_one(encoded(ack_frame(id)) + rest) == (
            Ok::<Option<FrameView>, ErrorView>(
                Some(
                    FrameView {
                        command: "ACK"@,
                        headers: seq![("id"@, id)],
                        body: Seq::empty(),
                    },
                ),
            ),
            rest,
        ),
        read_one(encoded(disconnect_frame(id)) + rest) == (
            Ok::<Option<FrameView>, ErrorView>(
                Some(
                    FrameView {
                        command: "DISCONNECT"@,
                        headers: seq![("receipt"@, id)],
                        body: Seq::empty(),
                    },
                ),
            ),
            rest,
        ),
{
    law_an_acknowledgement_arrives(arbitrary_session(), id, rest);
    law_a_farewell_is_receipted(arbitrary_session(), id, rest);
    assert(ack_frame(id).headers =~= seq![("id"@, id)]);
    assert(disconnect_frame(id).headers =~= seq![("receipt"@, id)]);
}

/// A CONNECT, read off the wire, accepts 1.2 alone, names the host, wants no
/// heart-beats, and presents the login where there is one.
pub proof fn law_a_connect_says_what_it_is(
    host: Seq<char>,
    login: Option<LoginView>,
    rest: Seq<u8>,
)
    requires
        fits_line(host),
        login_fits(login),
    ensures
        read_one(encoded(connect_frame(host, login)) + rest) == (
            Ok::<Option<FrameView>, ErrorView>(
                Some(
                    FrameView {
                        command: "CONNECT"@,
                        headers: match login {
                            Some(login) => seq![
                                ("accept-version"@, "1.2"@),
                                ("host"@, host),
                                ("heart-beat"@, "0,0"@),
                                ("login"@, login.user),
                                ("passcode"@, login.password),
                            ],
                            None => seq![
                                ("accept-version"@, "1.2"@),
                                ("host"@, host),
                                ("heart-beat"@, "0,0"@),
                            ],
                        },
                        body: Seq::empty(),
                    },
                ),
            ),
            rest,
        ),
{
    law_connect_comes_over_the_wire(host, login, rest);
    let frame = connect_frame(host, login);
    match login {
        Some(login) => {
            assert(frame.headers =~= seq![
                ("accept-version"@, "1.2"@),
                ("host"@, host),
                ("heart-beat"@, "0,0"@),
                ("login"@, login.user),
                ("passcode"@, login.password),
            ]);
        },
        None => {
            assert(frame.headers =~= seq![
                ("accept-version"@, "1.2"@),
                ("host"@, host),
                ("heart-beat"@, "0,0"@),
            ]);
        },
    }
}

/// Whatever a client presents in CONNECT, it writes those headers, whether
/// or not they fit their lines.
pub proof fn law_a_connect_presents_what_it_is_given(host: Seq<char>, login: Option<LoginView>)
    ensures
        connect_frame(host, login).header("host"@) == Some(host),
        connect_frame(host, login).header("accept-version"@) == Some("1.2"@),
        connect_frame(host, login).header("heart-beat"@) == Some("0,0"@),
        connect_frame(host, login).header("login"@) == match login {
            Some(login) => Some(login.user),
            None => None,
        },
        connect_frame(host, login).header("passcode"@) == match login {
            Some(login) => Some(login.password),
            None => None,
        },
        connect_frame(host, login).command == "CONNECT"@,
        connect_frame(host, login).body.len() == 0,
        connect_frame(host, login).headers.len() == if login is Some {
            5nat
        } else {
            3nat
        },
{
    let frame = connect_frame(host, login);
    reveal_strlit("accept-version");
    reveal_strlit("host");
    reveal_strlit("heart-beat");
    reveal_strlit("login");
    reveal_strlit("passcode");
    assert("accept-version"@.len() == 14 && "host"@.len() == 4 && "heart-beat"@.len() == 10);
    assert("login"@.len() == 5 && "passcode"@.len() == 8);
    let n = frame.headers.len() as int;
    assert(frame.headers[0].0 == "accept-version"@);
    assert(frame.headers[1] == ("host"@, host));
    assert(frame.headers[2].0 == "heart-beat"@);
    if login is Some {
        assert(frame.headers[3].0 == "login"@);
        assert(frame.headers[4].0 == "passcode"@);
    }
    law_a_header_is_its_first_value(frame, "accept-version"@, 0);
    law_a_header_is_its_first_value(frame, "host"@, 1);
    law_a_header_is_its_first_value(frame, "heart-beat"@, 2);
    law_a_header_is_its_first_value(frame, "login"@, 3);
    law_a_header_is_its_first_value(frame, "passcode"@, if login is Some {
        4
    } else {
        3
    });
}

/// A message is taken whole, and is acknowledged by the `ack` of its frame
/// where it has one, whatever its other headers are, and by its message-id
/// where it has none. Its origin names the server, the destination and that
/// message-id.
pub proof fn law_a_message_is_acknowledged_as_the_broker_asks(server: Seq<char>, frame: FrameView)
    requires
        frame.command == "MESSAGE"@,
    ensures
        message_turn(server, Some(frame)) matches Ok(Turn::Took(message)) && {
            &&& frame.header("ack"@) matches Some(ack) ==> message.ack == ack
            &&& frame.header("ack"@) is None ==> message.ack == frame.header_or_empty(
                "message-id"@,
            )
            &&& message.arrived.bytes == frame.body
            &&& message.arrived.origin_uri == origin(
                server,
                frame.header_or_empty("destination"@),
            ) + "?message-id="@ + frame.header_or_empty("message-id"@)
        },
{
}

/// An ERROR is a failure to whoever waits, whatever for: with its `message`,
/// or that there was none, and its body without the white space around it.
pub proof fn law_an_error_is_what_the_broker_said(
    server: Seq<char>,
    receipt: Seq<char>,
    frame: FrameView,
    detail: Seq<char>,
)
    requires
        frame.command == "ERROR"@,
    ensures
        refusal_error(frame, detail) matches ErrorView::Refused { message, detail: said } && said
            == trimmed(detail) && message == match frame.header("message"@) {
            Some(message) => message,
            None => "no message"@,
        },
        message_turn(server, Some(frame)) == Err::<Turn<MessageView>, ErrorView>(
            refusal_error(frame, lossy_text(frame.body)),
        ),
        receipt_turn(receipt, Some(frame)) == Err::<bool, ErrorView>(
            refusal_error(frame, lossy_text(frame.body)),
        ),
        connect_answer(Some(frame)) == Err::<Seq<char>, ErrorView>(
            refusal_error(frame, lossy_text(frame.body)),
        ),
        plain_refusal(Some(frame)) == if valid_utf8(frame.body) {
            Some(refusal_error(frame, decode_utf8(frame.body)))
        } else {
            None
        },
{
    reveal_strlit("ERROR");
    reveal_strlit("MESSAGE");
    reveal_strlit("RECEIPT");
    reveal_strlit("CONNECTED");
    assert("ERROR"@[0] == 'E' && "MESSAGE"@[0] == 'M' && "RECEIPT"@[0] == 'R');
    assert("CONNECTED"@[0] == 'C');
}

/// Whoever waits for a message passes over every frame that is neither that
/// nor an ERROR, and sees the broker go when it closes.
pub proof fn law_what_is_no_message_is_passed_over(server: Seq<char>, frame: FrameView)
    requires
        frame.command != "MESSAGE"@,
        frame.command != "ERROR"@,
    ensures
        message_turn(server, Some(frame)) == Ok::<Turn<MessageView>, ErrorView>(Turn::Again),
        message_turn(server, None) == Ok::<Turn<MessageView>, ErrorView>(Turn::Closed),
        plain_refusal(Some(frame)) is None,
{
}

/// Whoever waits for a receipt passes over every frame that is neither that
/// receipt nor an ERROR, and fails where the broker closes first.
pub proof fn law_what_is_no_receipt_is_passed_over(receipt: Seq<char>, frame: FrameView)
    requires
        frame.command != "ERROR"@,
        frame.command != "RECEIPT"@ || frame.header("receipt-id"@) != Some(receipt),
    ensures
        receipt_turn(receipt, Some(frame)) == Ok::<bool, ErrorView>(false),
        receipt_turn(receipt, None) == Err::<bool, ErrorView>(ErrorView::ClosedBeforeReceipt),
{
}

/// A client is connected by CONNECTED, to the session that this names or to
/// one without a name, and by nothing else.
pub proof fn law_only_connected_connects(frame: FrameView)
    ensures
        frame.command == "CONNECTED"@ ==> connect_answer(Some(frame)) == Ok::<
            Seq<char>,
            ErrorView,
        >(frame.header_or_empty("session"@)),
        frame.command != "CONNECTED"@ && frame.command != "ERROR"@ ==> connect_answer(Some(frame))
            == Err::<Seq<char>, ErrorView>(ErrorView::AnsweredConnect(frame.command)),
        connect_answer(None) == Err::<Seq<char>, ErrorView>(ErrorView::ClosedOnConnect),
{
}

/// Ids are numbers counted up: the first is one, and each is one more than
/// the last; giving one out changes nothing else of the client.
pub proof fn law_ids_are_counted_up(client: ClientView)
    ensures
        number(client.id()) == Some(client.next_id + 1),
        number(client.numbered().id()) == Some((number(client.id())->0 + 1) as nat),
        client.id() == decimal(client.next_id + 1),
        client.numbered() == (ClientView { next_id: client.next_id + 1, ..client }),
{
    lemma_decimal(client.next_id + 1);
    lemma_decimal(client.next_id + 2);
}

/// While a receipt is awaited a MESSAGE is kept behind those kept before,
/// and nothing else changes anything.
pub proof fn law_a_message_in_the_way_is_kept(client: ClientView, frame: FrameView)
    ensures
        frame.command == "MESSAGE"@ ==> client.keeping(Some(frame)) == (ClientView {
            pending: client.pending.push(frame),
            ..client
        }),
        frame.command != "MESSAGE"@ ==> client.keeping(Some(frame)) == client,
        client.keeping(None) == client,
{
}

} // verus!
