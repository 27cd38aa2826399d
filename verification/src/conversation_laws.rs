//! What a client and a session make of each other's frames, over the wire.

use vstd::prelude::*;

use crate::arrived::{origin, ArrivedView};
use crate::client::{ack_frame, connect_answer, connect_frame, disconnect_frame, message_of, message_turn, receipt_turn, refused_error, send_frame, subscribe_frame, ClientView, MessageView};
use crate::error::ErrorView;
use crate::frame::{encoded, is_bare, FrameView, MAX_BODY};
use crate::frame_laws::{fits_bare, fits_line, law_first_header_wins, law_read_gives_back_what_was_written};
use crate::login::{presented, LoginView};
use crate::queues::{queued, QueuesView};
use crate::reading::read_one;
use crate::session::{connected_frame, error_frame, message_frame, opened, opens, receipts, speaks, subscriber, welcome, EventView, SessionView};
use crate::session_laws::{law_subscribing_drains_the_queue, law_what_is_sent_is_held_or_delivered, lemma_filter_all, lemma_filter_none, numbered_messages};
use crate::text::{decimal, has_piece, is_digit, lemma_decimal, lemma_first_at_is, pieces, trimmed};
use crate::turn::Turn;

verus! {

/// The names of headers, told apart.
proof fn lemma_names()
    ensures
        "host"@ != "accept-version"@,
        "heart-beat"@ != "accept-version"@,
        "login"@ != "accept-version"@,
        "passcode"@ != "accept-version"@,
        "accept-version"@ != "login"@,
        "host"@ != "login"@,
        "heart-beat"@ != "login"@,
        "passcode"@ != "login"@,
        "accept-version"@ != "passcode"@,
        "host"@ != "passcode"@,
        "heart-beat"@ != "passcode"@,
        "accept-version"@ != "content-length"@,
        "host"@ != "content-length"@,
        "heart-beat"@ != "content-length"@,
        "login"@ != "content-length"@,
        "passcode"@ != "content-length"@,
        "version"@ != "content-length"@,
        "server"@ != "content-length"@,
        "session"@ != "content-length"@,
        "version"@ != "session"@,
        "server"@ != "session"@,
        "heart-beat"@ != "session"@,
        "message"@ != "content-length"@,
        "receipt"@ != "destination"@,
        "content-type"@ != "destination"@,
        "content-length"@ != "destination"@,
        "destination"@ != "receipt"@,
        "content-type"@ != "receipt"@,
        "content-length"@ != "receipt"@,
        "content-type"@ != "content-length"@,
        "destination"@ != "content-length"@,
        "receipt"@ != "content-length"@,
        "receipt-id"@ != "content-length"@,
        "destination"@ != "id"@,
        "ack"@ != "id"@,
        "id"@ != "destination"@,
        "ack"@ != "destination"@,
        "id"@ != "receipt"@,
        "ack"@ != "receipt"@,
        "id"@ != "content-length"@,
        "ack"@ != "content-length"@,
        "subscription"@ != "content-length"@,
        "message-id"@ != "content-length"@,
        "subscription"@ != "message-id"@,
        "ack"@ != "message-id"@,
        "destination"@ != "message-id"@,
        "content-type"@ != "message-id"@,
        "content-length"@ != "message-id"@,
        "subscription"@ != "ack"@,
        "message-id"@ != "ack"@,
        "destination"@ != "ack"@,
        "content-type"@ != "ack"@,
        "content-length"@ != "ack"@,
        "subscription"@ != "destination"@,
        "message-id"@ != "destination"@,
{
    reveal_strlit("accept-version");
    reveal_strlit("host");
    reveal_strlit("heart-beat");
    reveal_strlit("login");
    reveal_strlit("passcode");
    reveal_strlit("content-length");
    reveal_strlit("version");
    reveal_strlit("server");
    reveal_strlit("session");
    reveal_strlit("message");
    reveal_strlit("destination");
    reveal_strlit("receipt");
    reveal_strlit("receipt-id");
    reveal_strlit("content-type");
    reveal_strlit("subscription");
    reveal_strlit("message-id");
    reveal_strlit("ack");
    reveal_strlit("id");
    assert("accept-version"@.len() == 14);
    assert("host"@.len() == 4);
    assert("heart-beat"@.len() == 10);
    assert("login"@.len() == 5);
    assert("passcode"@.len() == 8);
    assert("content-length"@.len() == 14);
    assert("version"@.len() == 7);
    assert("server"@.len() == 6);
    assert("session"@.len() == 7);
    assert("message"@.len() == 7);
    assert("destination"@.len() == 11);
    assert("receipt"@.len() == 7);
    assert("receipt-id"@.len() == 10);
    assert("content-type"@.len() == 12);
    assert("subscription"@.len() == 12);
    assert("message-id"@.len() == 10);
    assert("ack"@.len() == 3);
    assert("id"@.len() == 2);
    assert("accept-version"@[0] != "content-length"@[0]);
    assert("version"@[0] != "session"@[0]);
    assert("content-type"@[0] != "subscription"@[0]);
}

/// A command with these headers in front, one header more.
proof fn lemma_with_header(frame: FrameView, name: Seq<char>, value: Seq<char>)
    ensures
        frame.header(name) is None ==> frame.with_header(name, value).header(name) == Some(value),
        forall|other: Seq<char>|
            #![trigger frame.with_header(name, value).header(other)]
            #![trigger frame.header(other)]
            (other != name || frame.header(other) is Some) ==> frame.with_header(name, value).header(
                other,
            ) == frame.header(other),
{
    law_first_header_wins(frame, name, value, name);
    assert forall|other: Seq<char>|
        #![trigger frame.with_header(name, value).header(other)]
        #![trigger frame.header(other)]
        other != name || frame.header(other) is Some implies frame.with_header(name, value).header(
        other,
    ) == frame.header(other) by {
        law_first_header_wins(frame, name, value, other);
    }
}

/// A list of versions that is 1.2 alone lists 1.2.
proof fn lemma_one_version()
    ensures
        has_piece("1.2"@, ',', "1.2"@),
{
    reveal_strlit("1.2");
    let s = "1.2"@;
    lemma_first_at_is(s, ',', 3);
    assert(pieces(s, ',') == seq![s]);
    assert(pieces(s, ',')[0] == s);
    assert(trimmed(s) == s);
}

/// Whether a login can stand in CONNECT, where nothing is escaped.
pub open spec fn login_fits(login: Option<LoginView>) -> bool {
    login matches Some(login) ==> fits_line(login.user) && fits_line(login.password)
}

/// What a CONNECT says.
proof fn lemma_connect(host: Seq<char>, login: Option<LoginView>)
    ensures
        ({
            let connect = connect_frame(host, login);
            &&& connect.command == "CONNECT"@
            &&& connect.body.len() == 0
            &&& connect.header("content-length"@) is None
            &&& opens(connect)
            &&& speaks(connect)
            &&& presented(connect) == login
        }),
{
    lemma_names();
    lemma_one_version();
    let first = FrameView::new("CONNECT"@);
    let second = first.with_header("accept-version"@, "1.2"@);
    let third = second.with_header("host"@, host);
    let fourth = third.with_header("heart-beat"@, "0,0"@);
    lemma_with_header(first, "accept-version"@, "1.2"@);
    lemma_with_header(second, "host"@, host);
    lemma_with_header(third, "heart-beat"@, "0,0"@);
    if let Some(login) = login {
        let fifth = fourth.with_header("login"@, login.user);
        lemma_with_header(fourth, "login"@, login.user);
        lemma_with_header(fifth, "passcode"@, login.password);
    }
}

/// A CONNECT comes over the wire as it was written, where what it presents
/// fits its lines.
pub proof fn law_connect_comes_over_the_wire(
    host: Seq<char>,
    login: Option<LoginView>,
    rest: Seq<u8>,
)
    requires
        fits_line(host),
        login_fits(login),
    ensures
        read_one(encoded(connect_frame(host, login)) + rest) == (
            Ok::<Option<FrameView>, ErrorView>(Some(connect_frame(host, login))),
            rest,
        ),
{
    let connect = connect_frame(host, login);
    lemma_connect(host, login);
    reveal_strlit("CONNECT");
    reveal_strlit("accept-version");
    reveal_strlit("1.2");
    reveal_strlit("host");
    reveal_strlit("heart-beat");
    reveal_strlit("0,0");
    reveal_strlit("login");
    reveal_strlit("passcode");
    assert(fits_line(connect.command));
    assert forall|i: int| 0 <= i < connect.headers.len() implies fits_bare(
        #[trigger] connect.headers[i],
    ) by {
        assert(i == 0 ==> connect.headers[i] == ("accept-version"@, "1.2"@));
        assert(i == 1 ==> connect.headers[i] == ("host"@, host));
        assert(i == 2 ==> connect.headers[i] == ("heart-beat"@, "0,0"@));
        if let Some(login) = login {
            assert(i == 3 ==> connect.headers[i] == ("login"@, login.user));
            assert(i == 4 ==> connect.headers[i] == ("passcode"@, login.password));
        }
    }
    law_read_gives_back_what_was_written(connect, rest);
}

/// An ERROR comes over the wire with whatever it says.
pub proof fn law_error_comes_over_the_wire(message: Seq<char>, rest: Seq<u8>)
    ensures
        read_one(encoded(error_frame(message)) + rest) == (
            Ok::<Option<FrameView>, ErrorView>(Some(error_frame(message))),
            rest,
        ),
{
    let frame = error_frame(message);
    let first = FrameView::new("ERROR"@);
    lemma_names();
    lemma_with_header(first, "message"@, message);
    reveal_strlit("ERROR");
    reveal_strlit("CONNECT");
    reveal_strlit("CONNECTED");
    assert("ERROR"@.len() != "CONNECT"@.len() && "ERROR"@.len() != "CONNECTED"@.len());
    law_read_gives_back_what_was_written(frame, rest);
}

/// A CONNECTED comes over the wire, and the client takes its session from it.
pub proof fn law_connected_comes_over_the_wire(port: nat, rest: Seq<u8>)
    ensures
        read_one(encoded(connected_frame(port)) + rest) == (
            Ok::<Option<FrameView>, ErrorView>(Some(connected_frame(port))),
            rest,
        ),
        connect_answer(Some(connected_frame(port))) == Ok::<Seq<char>, ErrorView>(
            "xmip-"@ + decimal(port),
        ),
{
    let name = "xmip-"@ + decimal(port);
    let first = FrameView::new("CONNECTED"@);
    let second = first.with_header("version"@, "1.2"@);
    let third = second.with_header("server"@, "xmip/0.1.0"@);
    let fourth = third.with_header("heart-beat"@, "0,0"@);
    let frame = connected_frame(port);
    lemma_names();
    lemma_with_header(first, "version"@, "1.2"@);
    lemma_with_header(second, "server"@, "xmip/0.1.0"@);
    lemma_with_header(third, "heart-beat"@, "0,0"@);
    lemma_with_header(fourth, "session"@, name);
    reveal_strlit("CONNECTED");
    reveal_strlit("version");
    reveal_strlit("1.2");
    reveal_strlit("server");
    reveal_strlit("xmip/0.1.0");
    reveal_strlit("heart-beat");
    reveal_strlit("0,0");
    reveal_strlit("session");
    reveal_strlit("xmip-");
    lemma_decimal(port);
    assert forall|i: int| 0 <= i < name.len() implies name[i] != '\n' && name[i] != '\r' by {
        if i >= 5 {
            assert(name[i] == decimal(port)[i - 5]);
            assert(is_digit(decimal(port)[i - 5]));
        }
    }
    assert(name.last() == name[name.len() - 1]);
    assert forall|i: int| 0 <= i < frame.headers.len() implies fits_bare(
        #[trigger] frame.headers[i],
    ) by {
        assert(i == 0 ==> frame.headers[i] == ("version"@, "1.2"@));
        assert(i == 1 ==> frame.headers[i] == ("server"@, "xmip/0.1.0"@));
        assert(i == 2 ==> frame.headers[i] == ("heart-beat"@, "0,0"@));
        assert(i == 3 ==> frame.headers[i] == ("session"@, name));
    }
    law_read_gives_back_what_was_written(frame, rest);
}

/// A client that presents what is expected, or of whom nothing is expected,
/// is accepted and answered CONNECTED.
pub proof fn law_an_expected_login_is_accepted(
    peer: Seq<char>,
    port: nat,
    host: Seq<char>,
    login: Option<LoginView>,
    expected: Option<LoginView>,
)
    requires
        expected is None || expected == login,
    ensures
        opened(peer, Some(connect_frame(host, login)), expected) matches Ok(session)
            && session.connect == connect_frame(host, login) && session.peer == peer,
        welcome(port, Some(connect_frame(host, login)), expected) == seq![connected_frame(port)],
{
    lemma_connect(host, login);
}

/// A client that presents anything else is refused: it is answered ERROR,
/// which is a failure to it too, and no session comes of it.
pub proof fn law_another_login_is_refused(
    peer: Seq<char>,
    port: nat,
    host: Seq<char>,
    login: Option<LoginView>,
    expected: Option<LoginView>,
)
    requires
        expected is Some,
        expected != login,
    ensures
        opened(peer, Some(connect_frame(host, login)), expected) == Err::<SessionView, ErrorView>(
            ErrorView::ClientRefused("not authorised"@),
        ),
        welcome(port, Some(connect_frame(host, login)), expected) == seq![
            error_frame("not authorised"@),
        ],
        connect_answer(Some(error_frame("not authorised"@))) matches Err(error)
            && error matches ErrorView::Refused { message, .. } && message == "not authorised"@
            && !error.retryable(),
{
    lemma_connect(host, login);
    let first = FrameView::new("ERROR"@);
    lemma_with_header(first, "message"@, "not authorised"@);
    reveal_strlit("ERROR");
    reveal_strlit("CONNECTED");
    assert("ERROR"@.len() != "CONNECTED"@.len());
}

/// A client that does not speak 1.2 is refused, whoever it is.
pub proof fn law_another_version_is_refused(
    peer: Seq<char>,
    port: nat,
    connect: FrameView,
    expected: Option<LoginView>,
)
    requires
        opens(connect),
        !speaks(connect),
    ensures
        opened(peer, Some(connect), expected) == Err::<SessionView, ErrorView>(
            ErrorView::ClientRefused("only STOMP 1.2 is spoken here"@),
        ),
        welcome(port, Some(connect), expected) == seq![
            error_frame("only STOMP 1.2 is spoken here"@),
        ],
{
}

/// A client that opens neither with CONNECT nor with STOMP, which is CONNECT
/// under another name, is not answered at all.
pub proof fn law_who_does_not_connect_is_not_answered(
    peer: Seq<char>,
    port: nat,
    opening: Option<FrameView>,
    expected: Option<LoginView>,
)
    requires
        opening matches Some(frame) ==> !opens(frame),
    ensures
        opened(peer, opening, expected) == Err::<SessionView, ErrorView>(ErrorView::NotConnect),
        welcome(port, opening, expected).len() == 0,
{
}

/// The commands that are told apart by their characters.
proof fn lemma_commands()
    ensures
        !is_bare("SEND"@),
        !is_bare("SUBSCRIBE"@),
        !is_bare("ACK"@),
        !is_bare("DISCONNECT"@),
        !is_bare("MESSAGE"@),
        !is_bare("RECEIPT"@),
        fits_line("SEND"@) && "SEND"@.len() > 0,
        fits_line("SUBSCRIBE"@) && "SUBSCRIBE"@.len() > 0,
        fits_line("ACK"@) && "ACK"@.len() > 0,
        fits_line("DISCONNECT"@) && "DISCONNECT"@.len() > 0,
        fits_line("MESSAGE"@) && "MESSAGE"@.len() > 0,
        fits_line("RECEIPT"@) && "RECEIPT"@.len() > 0,
        "SUBSCRIBE"@ != "SEND"@,
        "ACK"@ != "SEND"@,
        "ACK"@ != "SUBSCRIBE"@,
        "ACK"@ != "UNSUBSCRIBE"@,
        "DISCONNECT"@ != "SEND"@,
        "DISCONNECT"@ != "SUBSCRIBE"@,
        "DISCONNECT"@ != "UNSUBSCRIBE"@,
        "DISCONNECT"@ != "ACK"@,
        "DISCONNECT"@ != "NACK"@,
        "RECEIPT"@ != "MESSAGE"@,
{
    reveal_strlit("CONNECT");
    reveal_strlit("CONNECTED");
    reveal_strlit("SEND");
    reveal_strlit("SUBSCRIBE");
    reveal_strlit("UNSUBSCRIBE");
    reveal_strlit("ACK");
    reveal_strlit("NACK");
    reveal_strlit("DISCONNECT");
    reveal_strlit("MESSAGE");
    reveal_strlit("RECEIPT");
    assert("CONNECT"@.len() == 7 && "CONNECTED"@.len() == 9);
    assert("SEND"@.len() == 4 && "ACK"@.len() == 3 && "NACK"@.len() == 4);
    assert("SUBSCRIBE"@.len() == 9 && "UNSUBSCRIBE"@.len() == 11 && "DISCONNECT"@.len() == 10);
    assert("MESSAGE"@[0] == 'M' && "RECEIPT"@[0] == 'R' && "CONNECT"@[0] == 'C');
    assert("SUBSCRIBE"@[0] == 'S' && "CONNECTED"@[0] == 'C');
}

/// A frame with the length of its body stated says what it said without.
proof fn lemma_sealed(frame: FrameView)
    ensures
        frame.sealed().command == frame.command,
        frame.sealed().body == frame.body,
        forall|name: Seq<char>|
            #![trigger frame.sealed().header(name)]
            name != "content-length"@ ==> frame.sealed().header(name) == frame.header(name),
{
    lemma_with_header(frame, "content-length"@, decimal(frame.body.len()));
}

/// The frame that answers a request for the receipt `receipt`.
pub open spec fn receipt_frame(receipt: Seq<char>) -> FrameView {
    FrameView::new("RECEIPT"@).with_header("receipt-id"@, receipt)
}

/// What a SEND says.
pub(crate) proof fn lemma_send(destination: Seq<char>, receipt: Seq<char>, body: Seq<u8>)
    ensures
        ({
            let send = send_frame(destination, receipt, body);
            &&& send.command == "SEND"@
            &&& send.body == body
            &&& send.header("destination"@) == Some(destination)
            &&& send.header("receipt"@) == Some(receipt)
            &&& send.header("content-length"@) is None
        }),
{
    lemma_names();
    let first = FrameView::new("SEND"@);
    let second = first.with_header("destination"@, destination);
    let third = second.with_header("receipt"@, receipt);
    let fourth = third.with_header("content-type"@, "application/octet-stream"@);
    lemma_with_header(first, "destination"@, destination);
    lemma_with_header(second, "receipt"@, receipt);
    lemma_with_header(third, "content-type"@, "application/octet-stream"@);
    let send = send_frame(destination, receipt, body);
    assert(send.header("destination"@) == fourth.header("destination"@));
    assert(send.header("receipt"@) == fourth.header("receipt"@));
    assert(send.header("content-length"@) == fourth.header("content-length"@));
}

/// What a client sends comes to the session whole, whatever its bytes: read
/// off the wire it is one Sent event with the same bytes and an origin that
/// names the peer and the destination, and the last answer is its receipt.
pub proof fn law_what_is_sent_arrives_whole(
    session: SessionView,
    destination: Seq<char>,
    receipt: Seq<char>,
    body: Seq<u8>,
    rest: Seq<u8>,
)
    requires
        body.len() <= MAX_BODY,
    ensures
        ({
            let send = send_frame(destination, receipt, body);
            &&& read_one(encoded(send) + rest) == (
                Ok::<Option<FrameView>, ErrorView>(Some(send.sealed())),
                rest,
            )
            &&& session.event(send.sealed()) == Ok::<Turn<EventView>, ErrorView>(
                Turn::Took(
                    EventView::Sent(
                        ArrivedView {
                            origin_uri: origin(session.peer, destination),
                            bytes: body,
                        },
                    ),
                ),
            )
            &&& session.replies(send.sealed()).len() > 0
            &&& session.replies(send.sealed()).last() == receipt_frame(receipt)
            &&& subscriber(session.subscriptions, destination) is None ==> session.replies(
                send.sealed(),
            ) == seq![receipt_frame(receipt)]
        }),
{
    let send = send_frame(destination, receipt, body);
    lemma_names();
    lemma_commands();
    lemma_send(destination, receipt, body);
    lemma_sealed(send);
    law_read_gives_back_what_was_written(send, rest);
    law_what_is_sent_is_held_or_delivered(session, send.sealed());
    assert(receipts(send.sealed()) == seq![receipt_frame(receipt)]);
}

/// A receipt comes over the wire, and who waits for it knows it, and who
/// waits for another does not.
pub proof fn law_a_receipt_is_known(receipt: Seq<char>, other: Seq<char>, rest: Seq<u8>)
    ensures
        read_one(encoded(receipt_frame(receipt)) + rest) == (
            Ok::<Option<FrameView>, ErrorView>(Some(receipt_frame(receipt))),
            rest,
        ),
        receipt_turn(receipt, Some(receipt_frame(receipt))) == Ok::<bool, ErrorView>(true),
        other != receipt ==> receipt_turn(other, Some(receipt_frame(receipt))) == Ok::<
            bool,
            ErrorView,
        >(false),
{
    lemma_names();
    lemma_commands();
    lemma_with_header(FrameView::new("RECEIPT"@), "receipt-id"@, receipt);
    law_read_gives_back_what_was_written(receipt_frame(receipt), rest);
}

/// Nothing but its own receipt ends the wait: a send is counted done when
/// the broker has said that it holds the message, and not before.
pub proof fn law_only_its_receipt_ends_the_wait(receipt: Seq<char>, frame: Option<FrameView>)
    ensures
        receipt_turn(receipt, frame) == Ok::<bool, ErrorView>(true) <==> (frame matches Some(frame)
            && frame.command == "RECEIPT"@ && frame.header("receipt-id"@) == Some(receipt)),
{
}

/// A server that does not answer CONNECTED will not the next time either:
/// the failure is permanent, whatever it answered.
pub proof fn law_a_failed_connect_is_permanent(answer: Option<FrameView>)
    ensures
        connect_answer(answer) is Ok <==> (answer matches Some(frame) && frame.command
            == "CONNECTED"@),
        connect_answer(answer) matches Err(error) ==> !error.retryable(),
{
}

/// What a SUBSCRIBE says.
proof fn lemma_subscribe(id: Seq<char>, destination: Seq<char>)
    ensures
        ({
            let subscribe = subscribe_frame(id, destination);
            &&& subscribe.command == "SUBSCRIBE"@
            &&& subscribe.header("id"@) == Some(id)
            &&& subscribe.header("destination"@) == Some(destination)
            &&& subscribe.header("receipt"@) is None
            &&& subscribe.header("content-length"@) is None
        }),
{
    lemma_names();
    let first = FrameView::new("SUBSCRIBE"@);
    let second = first.with_header("id"@, id);
    let third = second.with_header("destination"@, destination);
    lemma_with_header(first, "id"@, id);
    lemma_with_header(second, "destination"@, destination);
    lemma_with_header(third, "ack"@, "client-individual"@);
}

/// A SUBSCRIBE comes over the wire as it was written, and is the event that
/// names its id and its destination.
pub proof fn law_a_subscription_arrives(
    session: SessionView,
    id: Seq<char>,
    destination: Seq<char>,
    rest: Seq<u8>,
)
    ensures
        read_one(encoded(subscribe_frame(id, destination)) + rest) == (
            Ok::<Option<FrameView>, ErrorView>(Some(subscribe_frame(id, destination))),
            rest,
        ),
        session.event(subscribe_frame(id, destination)) == Ok::<Turn<EventView>, ErrorView>(
            Turn::Took(EventView::Subscribed { id, destination }),
        ),
{
    lemma_commands();
    lemma_subscribe(id, destination);
    law_read_gives_back_what_was_written(subscribe_frame(id, destination), rest);
}

/// What a MESSAGE says.
pub(crate) proof fn lemma_message(id: Seq<char>, n: nat, destination: Seq<char>, body: Seq<u8>)
    ensures
        ({
            let message = message_frame(id, n, destination, body);
            &&& message.command == "MESSAGE"@
            &&& message.body == body
            &&& message.header("message-id"@) == Some(decimal(n))
            &&& message.header("ack"@) == Some(decimal(n))
            &&& message.header("destination"@) == Some(destination)
            &&& message.header("content-length"@) is None
        }),
{
    let message = message_frame(id, n, destination, body);
    lemma_names();
    let first = FrameView::new("MESSAGE"@);
    let second = first.with_header("subscription"@, id);
    let third = second.with_header("message-id"@, decimal(n));
    let fourth = third.with_header("ack"@, decimal(n));
    let fifth = fourth.with_header("destination"@, destination);
    let sixth = fifth.with_header("content-type"@, "application/octet-stream"@);
    lemma_with_header(first, "subscription"@, id);
    lemma_with_header(second, "message-id"@, decimal(n));
    lemma_with_header(third, "ack"@, decimal(n));
    lemma_with_header(fourth, "destination"@, destination);
    lemma_with_header(fifth, "content-type"@, "application/octet-stream"@);
    assert(message.headers == sixth.headers);
    assert(message.header("content-length"@) == sixth.header("content-length"@));
    assert(message.header("message-id"@) == sixth.header("message-id"@));
    assert(message.header("ack"@) == sixth.header("ack"@));
    assert(message.header("destination"@) == sixth.header("destination"@));
}

/// What a session delivers comes to the client whole, whatever its bytes:
/// read off the wire it is one message with the same bytes, an origin that
/// names the server, the destination and the number, and the number to
/// acknowledge it by.
pub proof fn law_what_is_delivered_arrives_whole(
    server: Seq<char>,
    id: Seq<char>,
    n: nat,
    destination: Seq<char>,
    body: Seq<u8>,
    rest: Seq<u8>,
)
    requires
        body.len() <= MAX_BODY,
    ensures
        ({
            let frame = message_frame(id, n, destination, body);
            &&& read_one(encoded(frame) + rest) == (
                Ok::<Option<FrameView>, ErrorView>(Some(frame.sealed())),
                rest,
            )
            &&& message_turn(server, Some(frame.sealed())) == Ok::<Turn<MessageView>, ErrorView>(
                Turn::Took(
                    MessageView {
                        arrived: ArrivedView {
                            origin_uri: origin(server, destination) + "?message-id="@ + decimal(n),
                            bytes: body,
                        },
                        ack: decimal(n),
                    },
                ),
            )
        }),
{
    let frame = message_frame(id, n, destination, body);
    lemma_names();
    lemma_commands();
    lemma_message(id, n, destination, body);
    lemma_sealed(frame);
    law_read_gives_back_what_was_written(frame, rest);
}

/// An ACK comes over the wire as it was written: the session hears which
/// message it is of, answers nothing and changes nothing.
pub proof fn law_an_acknowledgement_arrives(session: SessionView, ack: Seq<char>, rest: Seq<u8>)
    ensures
        read_one(encoded(ack_frame(ack)) + rest) == (
            Ok::<Option<FrameView>, ErrorView>(Some(ack_frame(ack))),
            rest,
        ),
        session.event(ack_frame(ack)) == Ok::<Turn<EventView>, ErrorView>(
            Turn::Took(EventView::Acked(ack)),
        ),
        session.replies(ack_frame(ack)).len() == 0,
        session.after(ack_frame(ack)) == session,
{
    lemma_names();
    lemma_commands();
    lemma_with_header(FrameView::new("ACK"@), "id"@, ack);
    law_read_gives_back_what_was_written(ack_frame(ack), rest);
}

/// A DISCONNECT comes over the wire as it was written: the session sees the
/// client go, and its one answer is the receipt.
pub proof fn law_a_farewell_is_receipted(session: SessionView, receipt: Seq<char>, rest: Seq<u8>)
    ensures
        read_one(encoded(disconnect_frame(receipt)) + rest) == (
            Ok::<Option<FrameView>, ErrorView>(Some(disconnect_frame(receipt))),
            rest,
        ),
        session.event(disconnect_frame(receipt)) == Ok::<Turn<EventView>, ErrorView>(Turn::Closed),
        session.replies(disconnect_frame(receipt)) == seq![receipt_frame(receipt)],
        session.after(disconnect_frame(receipt)) == session,
{
    lemma_names();
    lemma_commands();
    lemma_with_header(FrameView::new("DISCONNECT"@), "receipt"@, receipt);
    law_read_gives_back_what_was_written(disconnect_frame(receipt), rest);
}

/// A client never gives out the same id twice: as long as it goes on
/// counting, each names one request.
pub proof fn law_ids_are_never_repeated(earlier: ClientView, later: ClientView)
    requires
        earlier.next_id < later.next_id,
    ensures
        earlier.id() != later.id(),
{
    lemma_decimal(earlier.next_id + 1);
    lemma_decimal(later.next_id + 1);
}

/// Whether every kept frame is a MESSAGE.
pub open spec fn keeps_messages(client: ClientView) -> bool {
    forall|i: int|
        0 <= i < client.pending.len() ==> (#[trigger] client.pending[i]).command == "MESSAGE"@
}

/// The client after these frames came while a receipt was awaited.
pub open spec fn kept(client: ClientView, frames: Seq<FrameView>) -> ClientView
    decreases frames.len(),
{
    if frames.len() == 0 {
        client
    } else {
        kept(client, frames.drop_last()).keeping(Some(frames.last()))
    }
}

/// Whether a frame is a MESSAGE.
pub open spec fn is_message() -> spec_fn(FrameView) -> bool {
    |frame: FrameView| frame.command == "MESSAGE"@
}

/// Waiting for a receipt loses no MESSAGE and keeps nothing else: the
/// messages stand behind what was kept, in the order they came, and nothing
/// but what is kept changes.
pub proof fn law_waiting_keeps_every_message(client: ClientView, frames: Seq<FrameView>)
    ensures
        kept(client, frames) == (ClientView {
            pending: client.pending + frames.filter(is_message()),
            ..client
        }),
    decreases frames.len(),
{
    reveal(Seq::filter);
    if frames.len() > 0 {
        law_waiting_keeps_every_message(client, frames.drop_last());
    }
    assert(kept(client, frames).pending =~= client.pending + frames.filter(is_message()));
}

/// Every frame that is kept is a message when it is taken.
pub proof fn law_what_is_kept_is_a_message(client: ClientView, frames: Seq<FrameView>)
    requires
        keeps_messages(client),
    ensures
        keeps_messages(kept(client, frames)),
        forall|i: int|
            0 <= i < kept(client, frames).pending.len() ==> #[trigger] message_turn(
                client.server,
                Some(kept(client, frames).pending[i]),
            ) == Ok::<Turn<MessageView>, ErrorView>(
                Turn::Took(message_of(client.server, kept(client, frames).pending[i])),
            ),
{
    let after = kept(client, frames);
    law_waiting_keeps_every_message(client, frames);
    assert forall|i: int| 0 <= i < after.pending.len() implies (
    #[trigger] after.pending[i]).command == "MESSAGE"@ by {
        let n = client.pending.len();
        if i < n {
            assert(after.pending[i] == client.pending[i]);
        } else {
            assert(after.pending[i] == frames.filter(is_message())[i - n]);
            frames.lemma_filter_pred(is_message(), i - n);
        }
    }
}

/// What one who waits for messages is given as these frames come, one after
/// the other: the messages, and the failure that ends it, where one does.
pub open spec fn taken(server: Seq<char>, frames: Seq<FrameView>) -> (
    Seq<MessageView>,
    Option<ErrorView>,
)
    decreases frames.len(),
{
    if frames.len() == 0 {
        (Seq::empty(), None)
    } else {
        let (messages, error) = taken(server, frames.drop_first());
        match message_turn(server, Some(frames[0])) {
            Ok(Turn::Took(message)) => (seq![message] + messages, error),
            Ok(_) => (messages, error),
            Err(error) => (Seq::empty(), Some(error)),
        }
    }
}

/// Whether none of these frames is an ERROR.
pub open spec fn no_error(frames: Seq<FrameView>) -> bool {
    forall|i: int| 0 <= i < frames.len() ==> (#[trigger] frames[i]).command != "ERROR"@
}

/// The frames before the first ERROR, or all of them.
pub open spec fn before_error(frames: Seq<FrameView>) -> Seq<FrameView>
    decreases frames.len(),
{
    if frames.len() == 0 || frames[0].command == "ERROR"@ {
        Seq::empty()
    } else {
        seq![frames[0]] + before_error(frames.drop_first())
    }
}

/// The messages that the MESSAGEs among these frames are, each once and in
/// order.
pub open spec fn messages_among(server: Seq<char>, frames: Seq<FrameView>) -> Seq<MessageView> {
    frames.filter(is_message()).map_values(|frame: FrameView| message_of(server, frame))
}

/// Where the first ERROR stands.
proof fn lemma_before_error(frames: Seq<FrameView>)
    ensures
        before_error(frames).len() <= frames.len(),
        before_error(frames) == frames.take(before_error(frames).len() as int),
        no_error(before_error(frames)),
        before_error(frames).len() < frames.len() ==> frames[before_error(
            frames,
        ).len() as int].command == "ERROR"@,
    decreases frames.len(),
{
    if frames.len() > 0 && frames[0].command != "ERROR"@ {
        let rest = frames.drop_first();
        let front = before_error(rest);
        lemma_before_error(rest);
        assert(before_error(frames) =~= frames.take(before_error(frames).len() as int)) by {
            assert(front =~= rest.take(front.len() as int));
        }
        assert forall|i: int| 0 <= i < before_error(frames).len() implies (
        #[trigger] before_error(frames)[i]).command != "ERROR"@ by {
            if i > 0 {
                assert(before_error(frames)[i] == front[i - 1]);
            }
        }
    }
}

/// Frames among which is no ERROR are all before the first.
proof fn lemma_before_error_add(front: Seq<FrameView>, back: Seq<FrameView>)
    ensures
        no_error(front) ==> before_error(front + back) == front + before_error(back),
        !no_error(front) ==> before_error(front + back) == before_error(front),
    decreases front.len(),
{
    let whole = front + back;
    if front.len() == 0 {
        assert(whole =~= back);
        assert(front + before_error(back) =~= before_error(back));
    } else if front[0].command != "ERROR"@ {
        let rest = front.drop_first();
        assert(whole.drop_first() =~= rest + back);
        lemma_before_error_add(rest, back);
        if no_error(front) {
            assert forall|i: int| 0 <= i < rest.len() implies (#[trigger] rest[i]).command
                != "ERROR"@ by {
                assert(rest[i] == front[i + 1]);
            }
            assert(seq![front[0]] + (rest + before_error(back)) =~= front + before_error(back));
        } else {
            if no_error(rest) {
                assert forall|i: int| 0 <= i < front.len() implies (#[trigger] front[i]).command
                    != "ERROR"@ by {
                    if i > 0 {
                        assert(front[i] == rest[i - 1]);
                    }
                }
            }
        }
    } else {
        assert(!no_error(front));
    }
}

/// The messages among more frames are those among each.
proof fn lemma_messages_among(server: Seq<char>, front: Seq<FrameView>, back: Seq<FrameView>)
    ensures
        messages_among(server, front + back) == messages_among(server, front) + messages_among(
            server,
            back,
        ),
{
    Seq::filter_distributes_over_add(front, back, is_message());
    assert(messages_among(server, front + back) =~= messages_among(server, front) + messages_among(
        server,
        back,
    ));
}

/// Whoever takes messages is given every MESSAGE that comes, each once and
/// in order, up to the first ERROR, and then that ERROR as the failure it is.
pub proof fn law_every_message_is_taken_in_order(server: Seq<char>, frames: Seq<FrameView>)
    ensures
        taken(server, frames).0 == messages_among(server, before_error(frames)),
        taken(server, frames).1 == if before_error(frames).len() < frames.len() {
            Some(refused_error(frames[before_error(frames).len() as int]))
        } else {
            None
        },
    decreases frames.len(),
{
    reveal_strlit("ERROR");
    reveal_strlit("MESSAGE");
    assert("ERROR"@[0] != "MESSAGE"@[0]);
    reveal(Seq::filter);
    if frames.len() == 0 || frames[0].command == "ERROR"@ {
        assert(messages_among(server, before_error(frames)) =~= Seq::<MessageView>::empty());
    } else {
        let one = seq![frames[0]];
        let rest = frames.drop_first();
        law_every_message_is_taken_in_order(server, rest);
        lemma_messages_among(server, one, before_error(rest));
        lemma_before_error(rest);
        if frames[0].command == "MESSAGE"@ {
            lemma_filter_all(one, is_message());
            assert(messages_among(server, one) =~= seq![message_of(server, frames[0])]);
        } else {
            lemma_filter_none(one, is_message());
            assert(messages_among(server, one) =~= Seq::<MessageView>::empty());
            assert(taken(server, frames).0 =~= messages_among(server, one) + messages_among(
                server,
                before_error(rest),
            ));
        }
        let n = before_error(rest).len() as int;
        assert(before_error(frames).len() == n + 1);
        if n < rest.len() {
            assert(frames[n + 1] == rest[n]);
        }
    }
}

/// A wait for a receipt takes no message away: what was kept before it and
/// during it, followed by what is read after, gives exactly the messages of
/// all the frames that came, each once and in order, up to the first ERROR.
pub proof fn law_a_wait_takes_no_message_away(
    client: ClientView,
    waited: Seq<FrameView>,
    later: Seq<FrameView>,
)
    requires
        no_error(waited),
    ensures
        taken(client.server, kept(client, waited).pending + later).0 == messages_among(
            client.server,
            before_error(client.pending + waited + later),
        ),
        taken(client.server, kept(client, waited).pending + later).1 == taken(
            client.server,
            client.pending + waited + later,
        ).1,
{
    reveal_strlit("ERROR");
    reveal_strlit("MESSAGE");
    assert("ERROR"@[0] != "MESSAGE"@[0]);
    let server = client.server;
    let pending = client.pending;
    let during = waited.filter(is_message());
    law_waiting_keeps_every_message(client, waited);
    let whole = pending + waited + later;
    let left = pending + during + later;
    law_every_message_is_taken_in_order(server, left);
    law_every_message_is_taken_in_order(server, whole);
    assert forall|i: int| 0 <= i < during.len() implies is_message()(#[trigger] during[i])
        && during[i].command != "ERROR"@ by {
        waited.lemma_filter_pred(is_message(), i);
    }
    lemma_filter_all(during, is_message());
    assert(messages_among(server, during) =~= messages_among(server, waited));
    assert(whole =~= pending + (waited + later));
    assert(left =~= pending + (during + later));
    lemma_before_error_add(pending, waited + later);
    lemma_before_error_add(pending, during + later);
    lemma_before_error_add(waited, later);
    lemma_before_error_add(during, later);
    lemma_before_error(pending);
    lemma_before_error(later);
    let until = before_error(later);
    if no_error(pending) {
        lemma_messages_among(server, pending, waited + until);
        lemma_messages_among(server, pending, during + until);
        lemma_messages_among(server, waited, until);
        lemma_messages_among(server, during, until);
        let n = until.len() as int;
        if n < later.len() {
            assert(whole[pending.len() + waited.len() + n] == later[n]);
            assert(left[pending.len() + during.len() + n] == later[n]);
        }
    } else {
        let n = before_error(pending).len() as int;
        if n == pending.len() {
            assert(before_error(pending) =~= pending);
        }
        assert(whole[n] == pending[n] && left[n] == pending[n]);
    }
}

/// A round through a session: a client that presents the login expected of
/// it, sends once and leaves. What it writes is read back frame by frame;
/// the session takes the payload whole, with the destination in its origin,
/// answers both receipts, and sees the client go.
pub proof fn law_a_round_returns_the_payload(
    peer: Seq<char>,
    port: nat,
    host: Seq<char>,
    login: Option<LoginView>,
    destination: Seq<char>,
    sent: Seq<char>,
    left: Seq<char>,
    payload: Seq<u8>,
)
    requires
        fits_line(host),
        login_fits(login),
        payload.len() <= MAX_BODY,
    ensures
        ({
            let connect = connect_frame(host, login);
            let send = send_frame(destination, sent, payload);
            let leave = disconnect_frame(left);
            let farewell = encoded(leave);
            let message = encoded(send) + farewell;
            &&& read_one(encoded(connect) + message) == (
                Ok::<Option<FrameView>, ErrorView>(Some(connect)),
                message,
            )
            &&& read_one(message) == (
                Ok::<Option<FrameView>, ErrorView>(Some(send.sealed())),
                farewell,
            )
            &&& read_one(farewell) == (
                Ok::<Option<FrameView>, ErrorView>(Some(leave)),
                Seq::<u8>::empty(),
            )
            &&& welcome(port, Some(connect), login) == seq![connected_frame(port)]
            &&& opened(peer, Some(connect), login) matches Ok(session) && {
                let after = session.after(send.sealed());
                &&& session.event(send.sealed()) == Ok::<Turn<EventView>, ErrorView>(
                    Turn::Took(
                        EventView::Sent(
                            ArrivedView { origin_uri: origin(peer, destination), bytes: payload },
                        ),
                    ),
                )
                &&& session.replies(send.sealed()) == seq![receipt_frame(sent)]
                &&& after.event(leave) == Ok::<Turn<EventView>, ErrorView>(Turn::Closed)
                &&& after.replies(leave) == seq![receipt_frame(left)]
                &&& queued(after.queues, destination) == seq![payload]
            }
        }),
{
    let send = send_frame(destination, sent, payload);
    let leave = disconnect_frame(left);
    let farewell = encoded(leave);
    law_connect_comes_over_the_wire(host, login, encoded(send) + farewell);
    law_an_expected_login_is_accepted(peer, port, host, login, login);
    let session = opened(peer, Some(connect_frame(host, login)), login)->Ok_0;
    assert(session.subscriptions.len() == 0);
    law_what_is_sent_arrives_whole(session, destination, sent, payload, farewell);
    law_a_farewell_is_receipted(session.after(send.sealed()), left, Seq::empty());
    assert(farewell + Seq::<u8>::empty() == farewell);
    lemma_send(destination, sent, payload);
    lemma_sealed(send);
    lemma_names();
    law_what_is_sent_is_held_or_delivered(session, send.sealed());
    assert(queued(session.after(send.sealed()).queues, destination) =~= seq![payload]);
}

/// What one session held, the next delivers: a client that subscribes first
/// thing to a session that was handed the queues is given every body held
/// for the destination, in order, numbered from one, and each comes over the
/// wire as a message with those bytes.
pub proof fn law_the_next_session_delivers_what_was_held(
    held: QueuesView,
    session: SessionView,
    server: Seq<char>,
    id: Seq<char>,
    destination: Seq<char>,
    i: int,
    rest: Seq<u8>,
)
    requires
        session.subscriptions.len() == 0,
        session.next_message == 0,
        0 <= i < queued(held, destination).len(),
        queued(held, destination)[i].len() <= MAX_BODY,
    ensures
        ({
            let next = SessionView { queues: held, ..session };
            let frame = subscribe_frame(id, destination);
            let bodies = queued(held, destination);
            let n = (i + 1) as nat;
            &&& next.replies(frame) == numbered_messages(id, 0, destination, bodies)
            &&& !next.after(frame).queues.contains_key(destination)
            &&& read_one(encoded(next.replies(frame)[i]) + rest) == (
                Ok::<Option<FrameView>, ErrorView>(Some(next.replies(frame)[i].sealed())),
                rest,
            )
            &&& message_turn(server, Some(next.replies(frame)[i].sealed())) == Ok::<
                Turn<MessageView>,
                ErrorView,
            >(
                Turn::Took(
                    MessageView {
                        arrived: ArrivedView {
                            origin_uri: origin(server, destination) + "?message-id="@ + decimal(n),
                            bytes: bodies[i],
                        },
                        ack: decimal(n),
                    },
                ),
            )
        }),
{
    let next = SessionView { queues: held, ..session };
    let frame = subscribe_frame(id, destination);
    let bodies = queued(held, destination);
    lemma_subscribe(id, destination);
    law_subscribing_drains_the_queue(next, frame);
    assert(receipts(frame) + numbered_messages(id, 0, destination, bodies) =~= numbered_messages(
        id,
        0,
        destination,
        bodies,
    ));
    law_what_is_delivered_arrives_whole(
        server,
        id,
        (i + 1) as nat,
        destination,
        bodies[i],
        rest,
    );
}

} // verus!
