//! What a session makes of every frame, whoever sent it and whatever headers
//! it has or lacks.

use vstd::prelude::*;

use crate::arrived::{origin, ArrivedView};
use crate::error::ErrorView;
use crate::frame::FrameView;
use crate::login::LoginView;
use crate::queues::{queued, QueuesView};
use crate::session::{connected_frame, error_frame, message_frame, opened, other_than, receipts, sent_only, sent_turn, subscriber, welcome, EventView, SessionView};
use crate::session_laws::{law_deliveries_are_numbered_in_order, law_subscribing_drains_the_queue};
use crate::text::{decimal, trimmed};
use crate::text_laws::{all_white, law_a_list_holds_what_stands_between, law_only_white_space_around_is_trimmed, law_what_is_listed_is_found, stands_between};
use crate::turn::Turn;

verus! {

/// An origin names the scheme, then the server, then the destination, with
/// one slash put between the last two where the destination brings none.
pub proof fn law_an_origin_names_server_and_destination(
    server: Seq<char>,
    destination: Seq<char>,
    rest: Seq<char>,
)
    requires
        destination.len() > 0 ==> destination[0] != '/',
    ensures
        origin(server, destination) == "activemq://"@ + server + "/"@ + destination,
        origin(server, "/"@ + rest) == "activemq://"@ + server + "/"@ + rest,
{
    reveal_strlit("/");
    assert(("/"@ + rest)[0] == '/');
    assert("activemq://"@ + server + ("/"@ + rest) =~= "activemq://"@ + server + "/"@ + rest);
}

/// Whatever is sent is reported: the body as it is, with an origin that names
/// the peer and the destination, whatever headers the frame has or lacks.
pub proof fn law_what_is_sent_is_reported(session: SessionView, frame: FrameView)
    requires
        frame.command == "SEND"@,
    ensures
        session.event(frame) matches Ok(Turn::Took(EventView::Sent(arrived))) && arrived.bytes
            == frame.body && arrived.origin_uri == origin(
            session.peer,
            frame.header_or_empty("destination"@),
        ),
        sent_only(session.event(frame)) matches Ok(Turn::Took(arrived)) && arrived.bytes
            == frame.body && arrived.origin_uri == origin(
            session.peer,
            frame.header_or_empty("destination"@),
        ),
{
}

/// The commands of a client, told apart.
proof fn lemma_client_commands()
    ensures
        "SUBSCRIBE"@ != "SEND"@,
        "UNSUBSCRIBE"@ != "SEND"@ && "UNSUBSCRIBE"@ != "SUBSCRIBE"@,
        "ACK"@ != "SEND"@ && "ACK"@ != "SUBSCRIBE"@ && "ACK"@ != "UNSUBSCRIBE"@,
        "NACK"@ != "SEND"@ && "NACK"@ != "SUBSCRIBE"@ && "NACK"@ != "UNSUBSCRIBE"@,
        "DISCONNECT"@ != "SEND"@ && "DISCONNECT"@ != "SUBSCRIBE"@ && "DISCONNECT"@
            != "UNSUBSCRIBE"@ && "DISCONNECT"@ != "ACK"@ && "DISCONNECT"@ != "NACK"@,
        "BEGIN"@ != "SEND"@ && "BEGIN"@ != "SUBSCRIBE"@ && "BEGIN"@ != "UNSUBSCRIBE"@ && "BEGIN"@
            != "ACK"@ && "BEGIN"@ != "NACK"@ && "BEGIN"@ != "DISCONNECT"@,
        "COMMIT"@ != "SEND"@ && "COMMIT"@ != "SUBSCRIBE"@ && "COMMIT"@ != "UNSUBSCRIBE"@
            && "COMMIT"@ != "ACK"@ && "COMMIT"@ != "NACK"@ && "COMMIT"@ != "DISCONNECT"@,
        "ABORT"@ != "SEND"@ && "ABORT"@ != "SUBSCRIBE"@ && "ABORT"@ != "UNSUBSCRIBE"@ && "ABORT"@
            != "ACK"@ && "ABORT"@ != "NACK"@ && "ABORT"@ != "DISCONNECT"@,
{
    reveal_strlit("SEND");
    reveal_strlit("SUBSCRIBE");
    reveal_strlit("UNSUBSCRIBE");
    reveal_strlit("ACK");
    reveal_strlit("NACK");
    reveal_strlit("DISCONNECT");
    reveal_strlit("BEGIN");
    reveal_strlit("COMMIT");
    reveal_strlit("ABORT");
    assert("SEND"@.len() == 4 && "NACK"@.len() == 4 && "ACK"@.len() == 3);
    assert("SEND"@[0] == 'S' && "NACK"@[0] == 'N');
    assert("SUBSCRIBE"@.len() == 9 && "UNSUBSCRIBE"@.len() == 11 && "DISCONNECT"@.len() == 10);
    assert("BEGIN"@.len() == 5 && "COMMIT"@.len() == 6 && "ABORT"@.len() == 5);
}

/// What else a client does is reported under the id it gives, whatever other
/// headers there are; a transaction is passed over, and what no client says
/// is a failure that names it.
pub proof fn law_every_command_is_reported(session: SessionView, frame: FrameView)
    ensures
        frame.command == "SUBSCRIBE"@ ==> session.event(frame) == Ok::<Turn<EventView>, ErrorView>(
            Turn::Took(
                EventView::Subscribed {
                    id: frame.header_or_empty("id"@),
                    destination: frame.header_or_empty("destination"@),
                },
            ),
        ),
        frame.command == "UNSUBSCRIBE"@ ==> session.event(frame) == Ok::<
            Turn<EventView>,
            ErrorView,
        >(Turn::Took(EventView::Unsubscribed(frame.header_or_empty("id"@)))),
        frame.command == "ACK"@ || frame.command == "NACK"@ ==> session.event(frame) == Ok::<
            Turn<EventView>,
            ErrorView,
        >(Turn::Took(EventView::Acked(frame.header_or_empty("id"@)))),
        frame.command == "DISCONNECT"@ ==> session.event(frame) == Ok::<
            Turn<EventView>,
            ErrorView,
        >(Turn::Closed),
        frame.command == "BEGIN"@ || frame.command == "COMMIT"@ || frame.command == "ABORT"@
            ==> session.event(frame) == Ok::<Turn<EventView>, ErrorView>(Turn::Again),
        session.event(frame) is Err <==> {
            &&& frame.command != "SEND"@
            &&& frame.command != "SUBSCRIBE"@
            &&& frame.command != "UNSUBSCRIBE"@
            &&& frame.command != "ACK"@
            &&& frame.command != "NACK"@
            &&& frame.command != "DISCONNECT"@
            &&& frame.command != "BEGIN"@
            &&& frame.command != "COMMIT"@
            &&& frame.command != "ABORT"@
        },
        session.event(frame) matches Err(error) ==> error == ErrorView::FromClient(frame.command)
            && session.replies(frame) == seq![error_frame("unknown command"@)],
        frame.command != "SEND"@ ==> match sent_only(session.event(frame)) {
            Ok(turn) => turn == if frame.command == "DISCONNECT"@ {
                Turn::<ArrivedView>::Closed
            } else {
                Turn::<ArrivedView>::Again
            },
            Err(error) => session.event(frame) == Err::<Turn<EventView>, ErrorView>(error),
        },
{
    lemma_client_commands();
}

/// A destination is served under its oldest subscription, wherever that
/// stands among the others, and under none where there is none.
pub proof fn law_the_oldest_subscription_is_served(
    session: SessionView,
    destination: Seq<char>,
    i: int,
)
    requires
        0 <= i <= session.subscriptions.len(),
        forall|j: int| 0 <= j < i ==> (#[trigger] session.subscriptions[j]).1 != destination,
        i < session.subscriptions.len() ==> session.subscriptions[i].1 == destination,
    ensures
        subscriber(session.subscriptions, destination) == if i < session.subscriptions.len() {
            Some(session.subscriptions[i].0)
        } else {
            None
        },
    decreases session.subscriptions.len(),
{
    if i > 0 {
        let rest = SessionView { subscriptions: session.subscriptions.drop_first(), ..session };
        assert forall|j: int| 0 <= j < i - 1 implies (#[trigger] rest.subscriptions[j]).1
            != destination by {
            assert(rest.subscriptions[j] == session.subscriptions[j + 1]);
        }
        law_the_oldest_subscription_is_served(rest, destination, i - 1);
        assert(session.subscriptions[0].1 != destination);
    }
}

/// What is held is what the queue of the destination holds, or nothing.
pub proof fn law_what_is_held_is_in_the_queue(queues: QueuesView, destination: Seq<char>)
    ensures
        queues.contains_key(destination) ==> queued(queues, destination) == queues[destination],
        !queues.contains_key(destination) ==> queued(queues, destination).len() == 0,
{
}

/// A MESSAGE says which subscription it is for, its number twice, its
/// destination and what kind of bytes its body is, and carries the body.
pub proof fn law_a_message_says_what_it_is(
    id: Seq<char>,
    n: nat,
    destination: Seq<char>,
    body: Seq<u8>,
)
    ensures
        message_frame(id, n, destination, body) == (FrameView {
            command: "MESSAGE"@,
            headers: seq![
                ("subscription"@, id),
                ("message-id"@, decimal(n)),
                ("ack"@, decimal(n)),
                ("destination"@, destination),
                ("content-type"@, "application/octet-stream"@),
            ],
            body,
        }),
{
    assert(message_frame(id, n, destination, body).headers =~= seq![
        ("subscription"@, id),
        ("message-id"@, decimal(n)),
        ("ack"@, decimal(n)),
        ("destination"@, destination),
        ("content-type"@, "application/octet-stream"@),
    ]);
}

/// A receipt names the request that asked for it, and no other frame is one.
pub proof fn law_a_receipt_names_its_request(frame: FrameView)
    ensures
        frame.header("receipt"@) matches Some(receipt) ==> receipts(frame) == seq![
            FrameView {
                command: "RECEIPT"@,
                headers: seq![("receipt-id"@, receipt)],
                body: Seq::empty(),
            },
        ],
        frame.header("receipt"@) is None ==> receipts(frame).len() == 0,
{
    if let Some(receipt) = frame.header("receipt"@) {
        assert(receipts(frame)[0].headers =~= seq![("receipt-id"@, receipt)]);
        assert(receipts(frame) =~= seq![
            FrameView {
                command: "RECEIPT"@,
                headers: seq![("receipt-id"@, receipt)],
                body: Seq::empty(),
            },
        ]);
    }
}

/// What is delivered goes to the subscriber at once, under the next number,
/// or to the end of its queue; and nothing else of the session changes.
pub proof fn law_a_delivery_goes_out_or_is_held(
    session: SessionView,
    destination: Seq<char>,
    body: Seq<u8>,
)
    ensures
        match subscriber(session.subscriptions, destination) {
            Some(id) => {
                &&& session.delivery(destination, body) == seq![
                    message_frame(id, session.next_message + 1, destination, body),
                ]
                &&& session.delivered(destination, body) == (SessionView {
                    next_message: session.next_message + 1,
                    ..session
                })
            },
            None => {
                &&& session.delivery(destination, body).len() == 0
                &&& session.delivered(destination, body) == (SessionView {
                    queues: session.queues.insert(
                        destination,
                        queued(session.queues, destination).push(body),
                    ),
                    ..session
                })
            },
        },
{
}

/// A SEND is delivered and then receipted, whatever headers it has or lacks.
pub proof fn law_a_send_is_delivered_and_receipted(session: SessionView, frame: FrameView)
    requires
        frame.command == "SEND"@,
    ensures
        session.after(frame) == session.delivered(
            frame.header_or_empty("destination"@),
            frame.body,
        ),
        session.replies(frame) == session.delivery(
            frame.header_or_empty("destination"@),
            frame.body,
        ) + receipts(frame),
        session.answered(frame) == session.after(frame),
        session.answers(frame) == session.replies(frame),
{
    lemma_client_commands();
}

/// A SUBSCRIBE is receipted and answered with what was held, each body once
/// and in order, under the oldest subscription to the destination; it stands
/// last among the subscriptions, and its queue is empty then. Before what was
/// held goes out, it is held still.
pub proof fn law_a_subscription_is_receipted_and_served(
    session: SessionView,
    frame: FrameView,
    i: int,
)
    requires
        frame.command == "SUBSCRIBE"@,
    ensures
        ({
            let id = frame.header_or_empty("id"@);
            let destination = frame.header_or_empty("destination"@);
            let held = queued(session.queues, destination);
            let n = receipts(frame).len();
            let first = match subscriber(session.subscriptions, destination) {
                Some(older) => older,
                None => id,
            };
            &&& session.after(frame) == (SessionView {
                subscriptions: session.subscriptions.push((id, destination)),
                queues: session.queues.remove(destination),
                next_message: session.next_message + held.len(),
                ..session
            })
            &&& session.answered(frame) == (SessionView {
                subscriptions: session.subscriptions.push((id, destination)),
                ..session
            })
            &&& session.answers(frame) == receipts(frame)
            &&& session.replies(frame).len() == n + held.len()
            &&& session.replies(frame).take(n as int) == receipts(frame)
            &&& 0 <= i < held.len() ==> session.replies(frame)[n + i] == message_frame(
                first,
                (session.next_message + 1 + i) as nat,
                destination,
                held[i],
            )
        }),
{
    law_subscribing_drains_the_queue(session, frame);
    let n = receipts(frame).len() as int;
    assert(session.replies(frame).take(n) =~= receipts(frame));
}

/// An UNSUBSCRIBE takes away the subscriptions under its id, leaves the
/// others in their order, and is receipted; whatever else a client says that
/// is not a SEND or a SUBSCRIBE is receipted and changes nothing.
pub proof fn law_what_else_is_said_is_receipted(session: SessionView, frame: FrameView)
    requires
        frame.command != "SEND"@,
        frame.command != "SUBSCRIBE"@,
    ensures
        frame.command == "UNSUBSCRIBE"@ ==> session.after(frame) == (SessionView {
            subscriptions: session.subscriptions.filter(
                |subscription: (Seq<char>, Seq<char>)|
                    subscription.0 != frame.header_or_empty("id"@),
            ),
            ..session
        }),
        frame.command != "UNSUBSCRIBE"@ ==> session.after(frame) == session,
        session.event(frame) is Ok ==> session.replies(frame) == receipts(frame),
        session.answered(frame) == session.after(frame),
        session.answers(frame) == session.replies(frame),
{
    lemma_client_commands();
    let id = frame.header_or_empty("id"@);
    if frame.command == "UNSUBSCRIBE"@ {
        assert(other_than(id) =~= (|subscription: (Seq<char>, Seq<char>)|
            subscription.0 != id));
    }
}

/// What a session says to a client it takes, and to one it does not.
pub proof fn law_a_welcome_and_a_refusal_say_what_they_are(port: nat, message: Seq<char>)
    ensures
        connected_frame(port) == (FrameView {
            command: "CONNECTED"@,
            headers: seq![
                ("version"@, "1.2"@),
                ("server"@, "xmip/0.1.0"@),
                ("heart-beat"@, "0,0"@),
                ("session"@, "xmip-"@ + decimal(port)),
            ],
            body: Seq::empty(),
        }),
        error_frame(message) == (FrameView {
            command: "ERROR"@,
            headers: seq![("message"@, message)],
            body: Seq::empty(),
        }),
{
    assert(connected_frame(port).headers =~= seq![
        ("version"@, "1.2"@),
        ("server"@, "xmip/0.1.0"@),
        ("heart-beat"@, "0,0"@),
        ("session"@, "xmip-"@ + decimal(port)),
    ]);
    assert(error_frame(message).headers =~= seq![("message"@, message)]);
}

/// A session as it begins: of this peer, with the frame it opened with, and
/// nothing else.
pub open spec fn fresh(peer: Seq<char>, connect: FrameView) -> SessionView {
    SessionView {
        peer,
        connect,
        queues: Map::empty(),
        subscriptions: Seq::empty(),
        next_message: 0,
    }
}

/// Whether 1.2 stands between the commas of a list, white space around it
/// left out.
pub open spec fn lists_the_version(versions: Seq<char>) -> bool {
    exists|i: int, j: int| #[trigger]
        stands_between(versions, ',', i, j) && trimmed(versions.subrange(i, j)) == "1.2"@
}

/// A client whose list holds 1.2 is welcomed where nothing is expected of it,
/// whatever other versions stand before and behind and whatever else its
/// CONNECT or STOMP says.
pub proof fn law_a_client_that_lists_the_version_is_welcomed(
    peer: Seq<char>,
    port: nat,
    connect: FrameView,
    before: Seq<char>,
    front: Seq<char>,
    back: Seq<char>,
    behind: Seq<char>,
)
    requires
        connect.command == "CONNECT"@ || connect.command == "STOMP"@,
        connect.header("accept-version"@) == Some(before + front + "1.2"@ + back + behind),
        before.len() > 0 ==> before.last() == ',',
        behind.len() > 0 ==> behind[0] == ',',
        all_white(front),
        all_white(back),
    ensures
        welcome(port, Some(connect), None) == seq![connected_frame(port)],
        opened(peer, Some(connect), None) == Ok::<SessionView, ErrorView>(fresh(peer, connect)),
{
    reveal_strlit("1.2");
    assert("1.2"@[0] == '1' && "1.2"@[1] == '.' && "1.2"@[2] == '2');
    assert(!"1.2"@.contains(','));
    law_what_is_listed_is_found(before, front, "1.2"@, back, behind, ',');
}

/// A client is refused for its version where 1.2 is not listed, and only
/// there; without a list it is not.
pub proof fn law_a_client_is_refused_only_without_the_version(
    peer: Seq<char>,
    port: nat,
    connect: FrameView,
    expected: Option<LoginView>,
)
    requires
        connect.command == "CONNECT"@ || connect.command == "STOMP"@,
    ensures
        ({
            let listed = connect.header("accept-version"@) matches Some(versions)
                && lists_the_version(versions);
            &&& !listed ==> welcome(port, Some(connect), expected) == seq![
                error_frame("only STOMP 1.2 is spoken here"@),
            ]
            &&& !listed ==> opened(peer, Some(connect), expected) == Err::<SessionView, ErrorView>(
                ErrorView::ClientRefused("only STOMP 1.2 is spoken here"@),
            )
            &&& listed && expected is None ==> welcome(port, Some(connect), expected) == seq![
                connected_frame(port),
            ]
            &&& listed && expected is None ==> opened(peer, Some(connect), expected) == Ok::<
                SessionView,
                ErrorView,
            >(fresh(peer, connect))
        }),
{
    reveal_strlit("1.0");
    reveal_strlit("1.2");
    let default = "1.0"@;
    assert(!lists_the_version(default)) by {
        assert forall|i: int, j: int| #[trigger] stands_between(default, ',', i, j) implies trimmed(
            default.subrange(i, j),
        ) != "1.2"@ by {
            assert(default.len() == 3);
            assert(default[0] == '1' && default[1] == '.' && default[2] == '0');
            assert(i == 0 && j == 3);
            assert(default.subrange(i, j) =~= default);
            law_only_white_space_around_is_trimmed(Seq::empty(), default, Seq::empty());
            assert(Seq::<char>::empty() + default + Seq::<char>::empty() =~= default);
            assert(default[2] != "1.2"@[2]);
        }
    }
    law_a_list_holds_what_stands_between(default, ',', "1.2"@);
    if let Some(versions) = connect.header("accept-version"@) {
        law_a_list_holds_what_stands_between(versions, ',', "1.2"@);
    }
}

/// Where a login is expected, a client that speaks 1.2 gets in with exactly
/// that user and that password, whatever else it says, and with nothing else.
pub proof fn law_only_the_expected_login_gets_in(
    peer: Seq<char>,
    port: nat,
    connect: FrameView,
    versions: Seq<char>,
    expected: LoginView,
)
    requires
        connect.command == "CONNECT"@ || connect.command == "STOMP"@,
        connect.header("accept-version"@) == Some(versions),
        lists_the_version(versions),
    ensures
        connect.header("login"@) == Some(expected.user) && connect.header("passcode"@) == Some(
            expected.password,
        ) ==> opened(peer, Some(connect), Some(expected)) == Ok::<SessionView, ErrorView>(
            fresh(peer, connect),
        ) && welcome(port, Some(connect), Some(expected)) == seq![connected_frame(port)],
        !(connect.header("login"@) == Some(expected.user) && connect.header("passcode"@) == Some(
            expected.password,
        )) ==> opened(peer, Some(connect), Some(expected)) == Err::<SessionView, ErrorView>(
            ErrorView::ClientRefused("not authorised"@),
        ) && welcome(port, Some(connect), Some(expected)) == seq![error_frame("not authorised"@)],
{
    law_a_list_holds_what_stands_between(versions, ',', "1.2"@);
}

/// Who opens with neither CONNECT nor STOMP, or not at all, is not answered
/// and gets no session, whatever it says and whatever is expected.
pub proof fn law_who_opens_otherwise_gets_nothing(
    peer: Seq<char>,
    port: nat,
    opening: Option<FrameView>,
    expected: Option<LoginView>,
)
    requires
        opening matches Some(frame) ==> frame.command != "CONNECT"@ && frame.command != "STOMP"@,
    ensures
        welcome(port, opening, expected).len() == 0,
        opened(peer, opening, expected) == Err::<SessionView, ErrorView>(ErrorView::NotConnect),
{
}

/// What an event makes due is what is held for what was subscribed to, and it
/// goes out in order under the oldest subscription, each body once; any other
/// event makes nothing due and draining it changes nothing.
pub proof fn law_what_is_due_goes_out_in_order(session: SessionView, event: EventView, i: int)
    ensures
        match event {
            EventView::Subscribed { destination, .. } => {
                let held = queued(session.queues, destination);
                &&& session.due(event) == held
                &&& subscriber(session.subscriptions, destination) matches Some(first) ==> {
                    &&& session.drained(event) == (SessionView {
                        queues: session.queues.remove(destination),
                        next_message: session.next_message + held.len(),
                        ..session
                    })
                    &&& session.draining(event).len() == held.len()
                    &&& 0 <= i < held.len() ==> session.draining(event)[i] == message_frame(
                        first,
                        (session.next_message + 1 + i) as nat,
                        destination,
                        held[i],
                    )
                }
            },
            _ => {
                &&& session.due(event).len() == 0
                &&& session.drained(event) == session
                &&& session.draining(event).len() == 0
            },
        },
{
    if let EventView::Subscribed { destination, .. } = event {
        if subscriber(session.subscriptions, destination) is Some {
            law_deliveries_are_numbered_in_order(
                SessionView { queues: session.queues.remove(destination), ..session },
                destination,
                queued(session.queues, destination),
            );
        }
    }
}

/// Whoever waits for what is sent takes it as it is, passes over every other
/// event, and sees the client go.
pub proof fn law_only_what_is_sent_is_taken(
    arrived: ArrivedView,
    id: Seq<char>,
    destination: Seq<char>,
)
    ensures
        sent_turn(Turn::Took(EventView::Sent(arrived))) == Turn::Took(arrived),
        sent_turn(Turn::Took(EventView::Subscribed { id, destination })) == Turn::<
            ArrivedView,
        >::Again,
        sent_turn(Turn::Took(EventView::Unsubscribed(id))) == Turn::<ArrivedView>::Again,
        sent_turn(Turn::Took(EventView::Acked(id))) == Turn::<ArrivedView>::Again,
        sent_turn(Turn::Closed) == Turn::<ArrivedView>::Closed,
        sent_turn(Turn::Again) == Turn::<ArrivedView>::Again,
{
}

} // verus!
