//! What a session keeps, whatever the client does.

use vstd::prelude::*;

use crate::error::ErrorView;
use crate::frame::FrameView;
use crate::login::LoginView;
use crate::queues::queued;
use crate::session::{error_frame, is_client_command, message_frame, opened, other_than, receipts, subscriber, EventView, SessionView, SubscriptionView};
use crate::turn::Turn;

verus! {

/// The MESSAGEs that carry `bodies`, numbered on from `n`.
pub open spec fn numbered_messages(
    id: Seq<char>,
    n: nat,
    destination: Seq<char>,
    bodies: Seq<Seq<u8>>,
) -> Seq<FrameView> {
    Seq::new(
        bodies.len(),
        |i: int| message_frame(id, (n + 1 + i) as nat, destination, bodies[i]),
    )
}

/// The oldest subscription to a destination stays the oldest.
proof fn lemma_subscriber_push(
    subscriptions: Seq<SubscriptionView>,
    subscription: SubscriptionView,
    destination: Seq<char>,
)
    ensures
        subscriber(subscriptions.push(subscription), destination) == match subscriber(
            subscriptions,
            destination,
        ) {
            Some(id) => Some(id),
            None => if subscription.1 == destination {
                Some(subscription.0)
            } else {
                None
            },
        },
    decreases subscriptions.len(),
{
    let longer = subscriptions.push(subscription);
    if subscriptions.len() == 0 {
        assert(longer.drop_first() == subscriptions);
    } else {
        lemma_subscriber_push(subscriptions.drop_first(), subscription, destination);
        assert(longer.drop_first() == subscriptions.drop_first().push(subscription));
    }
}

/// What is delivered to a subscriber goes out in order, numbered on from the
/// last message, and nothing but the number changes.
pub proof fn law_deliveries_are_numbered_in_order(
    session: SessionView,
    destination: Seq<char>,
    bodies: Seq<Seq<u8>>,
)
    requires
        subscriber(session.subscriptions, destination) is Some,
    ensures
        session.all_delivered(destination, bodies) == (SessionView {
            next_message: session.next_message + bodies.len(),
            ..session
        }),
        session.deliveries(destination, bodies) == numbered_messages(
            subscriber(session.subscriptions, destination)->0,
            session.next_message,
            destination,
            bodies,
        ),
    decreases bodies.len(),
{
    let id = subscriber(session.subscriptions, destination)->0;
    if bodies.len() > 0 {
        let front = bodies.drop_last();
        law_deliveries_are_numbered_in_order(session, destination, front);
        assert(session.deliveries(destination, bodies) =~= numbered_messages(
            id,
            session.next_message,
            destination,
            bodies,
        ));
    } else {
        assert(session.deliveries(destination, bodies) =~= numbered_messages(
            id,
            session.next_message,
            destination,
            bodies,
        ));
    }
}

/// What was held for a destination goes to the client that subscribes to it:
/// each message once, in the order they were sent, numbered on from the last,
/// after the receipt; and nothing is held for it any longer.
pub proof fn law_subscribing_drains_the_queue(session: SessionView, frame: FrameView)
    requires
        frame.command == "SUBSCRIBE"@,
    ensures
        ({
            let id = frame.header_or_empty("id"@);
            let destination = frame.header_or_empty("destination"@);
            let held = queued(session.queues, destination);
            let first = match subscriber(session.subscriptions, destination) {
                Some(older) => older,
                None => id,
            };
            &&& session.after(frame) == (SessionView {
                subscriptions: session.subscriptions.push((id, destination)),
                queues: session.queues.remove(destination),
                next_message: session.next_message + held.len(),
                ..session
            })
            &&& session.replies(frame) == receipts(frame) + numbered_messages(
                first,
                session.next_message,
                destination,
                held,
            )
        }),
{
    reveal_strlit("SUBSCRIBE");
    reveal_strlit("SEND");
    assert("SUBSCRIBE"@.len() != "SEND"@.len());
    let id = frame.header_or_empty("id"@);
    let destination = frame.header_or_empty("destination"@);
    let subscribed = session.subscribed(id, destination);
    lemma_subscriber_push(session.subscriptions, (id, destination), destination);
    law_deliveries_are_numbered_in_order(
        subscribed,
        destination,
        queued(session.queues, destination),
    );
}

/// Answering a frame and then draining what it makes due comes to serving
/// it: in what goes out and in what the session is after.
pub proof fn law_draining_completes_the_answer(session: SessionView, frame: FrameView)
    ensures
        match session.event(frame) {
            Ok(Turn::Took(event)) => {
                let answered = session.answered(frame);
                &&& session.after(frame) == answered.drained(event)
                &&& session.replies(frame) == session.answers(frame) + answered.draining(event)
                &&& frame.command == "SUBSCRIBE"@ ==> answered.due(event).len()
                    == session.numbered(frame)
                &&& frame.command != "SUBSCRIBE"@ ==> answered.due(event).len() == 0
                &&& answered.next_message + answered.due(event).len() == session.next_message
                    + session.numbered(frame)
            },
            _ => {
                &&& session.after(frame) == session.answered(frame)
                &&& session.replies(frame) == session.answers(frame)
            },
        },
{
    reveal_strlit("SUBSCRIBE");
    reveal_strlit("SEND");
    assert("SUBSCRIBE"@.len() != "SEND"@.len());
    if frame.command == "SUBSCRIBE"@ {
        let id = frame.header_or_empty("id"@);
        let destination = frame.header_or_empty("destination"@);
        assert(session.subscribed(id, destination) =~= (SessionView {
            queues: session.answered(frame).queues.remove(destination),
            ..session.answered(frame)
        }));
    } else {
        assert(session.answers(frame) + Seq::<FrameView>::empty() =~= session.replies(frame));
    }
}

/// What is held for a destination stays held until its subscription has been
/// answered: a session whose answer was not written hands it on whole.
pub proof fn law_an_answer_gives_nothing_away(session: SessionView, frame: FrameView)
    requires
        frame.command != "SEND"@,
    ensures
        session.answered(frame).queues == session.queues,
        session.answered(frame).next_message == session.next_message,
{
}

/// What is sent is held, last in its queue, or delivered at once: the one
/// where nobody has subscribed to its destination, the other where the
/// client has.
pub proof fn law_what_is_sent_is_held_or_delivered(session: SessionView, frame: FrameView)
    requires
        frame.command == "SEND"@,
    ensures
        ({
            let destination = frame.header_or_empty("destination"@);
            match subscriber(session.subscriptions, destination) {
                None => {
                    &&& session.after(frame) == (SessionView {
                        queues: session.queues.insert(
                            destination,
                            queued(session.queues, destination).push(frame.body),
                        ),
                        ..session
                    })
                    &&& session.replies(frame) == receipts(frame)
                },
                Some(id) => {
                    &&& session.after(frame) == (SessionView {
                        next_message: session.next_message + 1,
                        ..session
                    })
                    &&& session.replies(frame) == seq![
                        message_frame(id, session.next_message + 1, destination, frame.body),
                    ] + receipts(frame)
                },
            }
        }),
{
    assert(Seq::<FrameView>::empty() + receipts(frame) == receipts(frame));
}

/// Whether nothing is held for a destination that is subscribed to.
pub open spec fn holds_only_unsubscribed(session: SessionView) -> bool {
    forall|destination: Seq<char>|
        (#[trigger] subscriber(session.subscriptions, destination)) is Some
            ==> !session.queues.contains_key(destination)
}

/// A subscription that is left was there before.
proof fn lemma_subscriber_filter(
    subscriptions: Seq<SubscriptionView>,
    id: Seq<char>,
    destination: Seq<char>,
)
    ensures
        subscriber(subscriptions.filter(other_than(id)), destination) is Some ==> subscriber(
            subscriptions,
            destination,
        ) is Some,
    decreases subscriptions.len(),
{
    reveal(Seq::filter);
    if subscriptions.len() > 0 {
        let front = subscriptions.drop_last();
        let last = subscriptions.last();
        lemma_subscriber_filter(front, id, destination);
        assert(subscriptions == front.push(last));
        lemma_subscriber_push(front, last, destination);
        lemma_subscriber_push(front.filter(other_than(id)), last, destination);
    }
}

/// Nothing is held for a destination that is subscribed to: it is so when a
/// client is accepted, and stays so whatever it does.
pub proof fn law_a_subscribed_destination_holds_nothing(session: SessionView, frame: FrameView)
    requires
        holds_only_unsubscribed(session),
    ensures
        holds_only_unsubscribed(session.after(frame)),
{
    let id = frame.header_or_empty("id"@);
    let destination = frame.header_or_empty("destination"@);
    let after = session.after(frame);
    assert forall|other: Seq<char>|
        (#[trigger] subscriber(after.subscriptions, other)) is Some implies !after.queues.contains_key(
        other,
    ) by {
        if frame.command == "SEND"@ {
            law_what_is_sent_is_held_or_delivered(session, frame);
            assert(after.subscriptions == session.subscriptions);
            assert(subscriber(session.subscriptions, other) is Some);
        } else if frame.command == "SUBSCRIBE"@ {
            law_subscribing_drains_the_queue(session, frame);
            lemma_subscriber_push(session.subscriptions, (id, destination), other);
        } else if frame.command == "UNSUBSCRIBE"@ {
            lemma_subscriber_filter(session.subscriptions, id, other);
            assert(subscriber(session.subscriptions, other) is Some);
        } else {
            assert(subscriber(session.subscriptions, other) is Some);
        }
    }
}

/// Delivering keeps it so too, whatever is delivered where.
pub proof fn law_delivering_holds_only_unsubscribed(
    session: SessionView,
    destination: Seq<char>,
    body: Seq<u8>,
)
    requires
        holds_only_unsubscribed(session),
    ensures
        holds_only_unsubscribed(session.delivered(destination, body)),
{
    let after = session.delivered(destination, body);
    assert forall|other: Seq<char>|
        (#[trigger] subscriber(after.subscriptions, other)) is Some implies !after.queues.contains_key(
        other,
    ) by {
        assert(subscriber(session.subscriptions, other) is Some);
    }
}

/// A session begins with nothing held and nothing subscribed to.
pub proof fn law_a_session_begins_empty(
    peer: Seq<char>,
    opening: Option<FrameView>,
    expected: Option<LoginView>,
)
    ensures
        opened(peer, opening, expected) matches Ok(session) ==> holds_only_unsubscribed(session)
            && session.subscriptions.len() == 0 && session.next_message == 0,
{
}

/// Whether a frame is a RECEIPT.
pub open spec fn is_receipt() -> spec_fn(FrameView) -> bool {
    |frame: FrameView| frame.command == "RECEIPT"@
}

/// Where no element is wanted, none is left.
pub(crate) proof fn lemma_filter_none<A>(s: Seq<A>, wanted: spec_fn(A) -> bool)
    requires
        forall|i: int| 0 <= i < s.len() ==> !wanted(#[trigger] s[i]),
    ensures
        s.filter(wanted) == Seq::<A>::empty(),
    decreases s.len(),
{
    reveal(Seq::filter);
    if s.len() > 0 {
        let front = s.drop_last();
        assert forall|i: int| 0 <= i < front.len() implies !wanted(#[trigger] front[i]) by {
            assert(front[i] == s[i]);
        }
        lemma_filter_none(front, wanted);
        assert(!wanted(s[s.len() - 1]));
    }
}

/// Where every element is wanted, all are left.
pub(crate) proof fn lemma_filter_all<A>(s: Seq<A>, wanted: spec_fn(A) -> bool)
    requires
        forall|i: int| 0 <= i < s.len() ==> wanted(#[trigger] s[i]),
    ensures
        s.filter(wanted) == s,
    decreases s.len(),
{
    reveal(Seq::filter);
    if s.len() > 0 {
        let front = s.drop_last();
        assert forall|i: int| 0 <= i < front.len() implies wanted(#[trigger] front[i]) by {
            assert(front[i] == s[i]);
        }
        lemma_filter_all(front, wanted);
        assert(wanted(s[s.len() - 1]));
        assert(front.push(s.last()) == s);
    }
}

/// A receipt that is asked for is given once, and none that is not: whatever
/// command a client may send, the receipts among the answers are the one it
/// asked for, and every other answer is a MESSAGE.
pub proof fn law_receipts_are_given_as_asked(session: SessionView, frame: FrameView)
    requires
        is_client_command(frame.command),
    ensures
        session.replies(frame).filter(is_receipt()) == receipts(frame),
        receipts(frame).len() == if frame.header("receipt"@) is Some {
            1nat
        } else {
            0nat
        },
        forall|i: int|
            0 <= i < session.replies(frame).len() ==> (#[trigger] session.replies(frame)[i]).command
                == "MESSAGE"@ || session.replies(frame)[i].command == "RECEIPT"@,
{
    reveal_strlit("MESSAGE");
    reveal_strlit("RECEIPT");
    assert("MESSAGE"@[0] != "RECEIPT"@[0]);
    let answer = receipts(frame);
    lemma_filter_all(answer, is_receipt());
    let none = Seq::<FrameView>::empty();
    assert(answer + none == answer && none + answer == answer);
    if frame.command == "SEND"@ {
        law_what_is_sent_is_held_or_delivered(session, frame);
        let destination = frame.header_or_empty("destination"@);
        let delivery = session.delivery(destination, frame.body);
        lemma_filter_none(delivery, is_receipt());
        Seq::filter_distributes_over_add(delivery, answer, is_receipt());
    } else if frame.command == "SUBSCRIBE"@ {
        law_subscribing_drains_the_queue(session, frame);
        let id = frame.header_or_empty("id"@);
        let destination = frame.header_or_empty("destination"@);
        let first = match subscriber(session.subscriptions, destination) {
            Some(older) => older,
            None => id,
        };
        let messages = numbered_messages(
            first,
            session.next_message,
            destination,
            queued(session.queues, destination),
        );
        lemma_filter_none(messages, is_receipt());
        Seq::filter_distributes_over_add(answer, messages, is_receipt());
    }
}

/// What only a broker sends is answered with ERROR alone, is a failure that
/// names the command, and changes nothing.
pub proof fn law_an_unknown_command_changes_nothing(session: SessionView, frame: FrameView)
    requires
        !is_client_command(frame.command),
    ensures
        session.after(frame) == session,
        session.replies(frame) == seq![error_frame("unknown command"@)],
        session.event(frame) == Err::<Turn<EventView>, ErrorView>(ErrorView::FromClient(frame.command)),
{
}

/// Once `id` is unsubscribed no subscription is called that, and the others
/// are as they were.
pub proof fn law_unsubscribing_leaves_the_others(session: SessionView, frame: FrameView)
    requires
        frame.command == "UNSUBSCRIBE"@,
    ensures
        ({
            let id = frame.header_or_empty("id"@);
            let after = session.after(frame);
            &&& forall|i: int|
                0 <= i < after.subscriptions.len() ==> (#[trigger] after.subscriptions[i]).0 != id
            &&& forall|other: SubscriptionView|
                other.0 != id && #[trigger] session.subscriptions.contains(other)
                    ==> after.subscriptions.contains(other)
            &&& after.queues == session.queues
            &&& after.next_message == session.next_message
        }),
{
    reveal_strlit("UNSUBSCRIBE");
    reveal_strlit("SUBSCRIBE");
    reveal_strlit("SEND");
    assert("UNSUBSCRIBE"@.len() != "SUBSCRIBE"@.len());
    assert("UNSUBSCRIBE"@.len() != "SEND"@.len());
    let id = frame.header_or_empty("id"@);
    let all = session.subscriptions;
    let after = session.after(frame);
    assert forall|i: int| 0 <= i < after.subscriptions.len() implies (
    #[trigger] after.subscriptions[i]).0 != id by {
        all.lemma_filter_pred(other_than(id), i);
    }
    assert forall|other: SubscriptionView|
        other.0 != id && #[trigger] all.contains(other) implies after.subscriptions.contains(
        other,
    ) by {
        let i = choose|i: int| 0 <= i < all.len() && all[i] == other;
        all.lemma_filter_contains(other_than(id), i);
    }
}

/// Message numbers only grow: one that was given is never given again.
pub proof fn law_message_numbers_only_grow(session: SessionView, frame: FrameView)
    ensures
        session.after(frame).next_message == session.next_message + session.numbered(frame),
{
    if frame.command == "SUBSCRIBE"@ {
        law_subscribing_drains_the_queue(session, frame);
    }
}

} // verus!
