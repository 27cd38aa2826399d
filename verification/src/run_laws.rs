//! What holds over everything that is done to a session, however long.

use vstd::prelude::*;

use crate::conversation_laws::{is_message, lemma_message};
use crate::frame::FrameView;
use crate::queues::queued;
use crate::session::{receipts, subscriber, SessionView};
use crate::session_laws::{holds_only_unsubscribed, law_a_subscribed_destination_holds_nothing, law_delivering_holds_only_unsubscribed, law_subscribing_drains_the_queue, lemma_filter_all, lemma_filter_none, numbered_messages};
use crate::text::decimal;

verus! {

/// One thing that is done to a session.
pub enum Did {
    /// The client's frame is served.
    Served(FrameView),
    /// The session is given this to deliver.
    Delivered { destination: Seq<char>, body: Seq<u8> },
}

/// The session after one thing is done to it.
pub open spec fn after_one(session: SessionView, did: Did) -> SessionView {
    match did {
        Did::Served(frame) => session.after(frame),
        Did::Delivered { destination, body } => session.delivered(destination, body),
    }
}

/// What goes out as one thing is done to a session.
pub open spec fn out_of_one(session: SessionView, did: Did) -> Seq<FrameView> {
    match did {
        Did::Served(frame) => session.replies(frame),
        Did::Delivered { destination, body } => session.delivery(destination, body),
    }
}

/// What one thing puts on `destination`.
pub open spec fn put_by_one(did: Did, destination: Seq<char>) -> Seq<Seq<u8>> {
    match did {
        Did::Served(frame) => if frame.command == "SEND"@ && frame.header_or_empty("destination"@)
            == destination {
            seq![frame.body]
        } else {
            Seq::empty()
        },
        Did::Delivered { destination: on, body } => if on == destination {
            seq![body]
        } else {
            Seq::empty()
        },
    }
}

/// The session after a run.
pub open spec fn after_run(session: SessionView, run: Seq<Did>) -> SessionView
    decreases run.len(),
{
    if run.len() == 0 {
        session
    } else {
        after_one(after_run(session, run.drop_last()), run.last())
    }
}

/// What goes out over a run.
pub open spec fn out_of_run(session: SessionView, run: Seq<Did>) -> Seq<FrameView>
    decreases run.len(),
{
    if run.len() == 0 {
        Seq::empty()
    } else {
        out_of_run(session, run.drop_last()) + out_of_one(
            after_run(session, run.drop_last()),
            run.last(),
        )
    }
}

/// What a run puts on `destination`.
pub open spec fn put_by_run(run: Seq<Did>, destination: Seq<char>) -> Seq<Seq<u8>>
    decreases run.len(),
{
    if run.len() == 0 {
        Seq::empty()
    } else {
        put_by_run(run.drop_last(), destination) + put_by_one(run.last(), destination)
    }
}

/// Whether a frame is a MESSAGE on `destination`.
pub open spec fn is_message_on(destination: Seq<char>) -> spec_fn(FrameView) -> bool {
    |frame: FrameView|
        frame.command == "MESSAGE"@ && frame.header_or_empty("destination"@) == destination
}

/// The bodies of the MESSAGEs on `destination` among `frames`.
pub open spec fn delivered_on(frames: Seq<FrameView>, destination: Seq<char>) -> Seq<Seq<u8>> {
    frames.filter(is_message_on(destination)).map_values(|frame: FrameView| frame.body)
}

/// The ids of the MESSAGEs among `frames`.
pub open spec fn ids(frames: Seq<FrameView>) -> Seq<Seq<char>> {
    frames.filter(is_message()).map_values(
        |frame: FrameView| frame.header_or_empty("message-id"@),
    )
}

/// `count` numbers in decimal, on from `n`.
pub open spec fn numbers_after(n: nat, count: nat) -> Seq<Seq<char>> {
    Seq::new(count, |i: int| decimal((n + 1 + i) as nat))
}

/// What is delivered among more frames is what is delivered among each.
proof fn lemma_among(front: Seq<FrameView>, back: Seq<FrameView>, destination: Seq<char>)
    ensures
        delivered_on(front + back, destination) == delivered_on(front, destination)
            + delivered_on(back, destination),
        ids(front + back) == ids(front) + ids(back),
{
    Seq::filter_distributes_over_add(front, back, is_message_on(destination));
    Seq::filter_distributes_over_add(front, back, is_message());
    assert(delivered_on(front + back, destination) =~= delivered_on(front, destination)
        + delivered_on(back, destination));
    assert(ids(front + back) =~= ids(front) + ids(back));
}

/// Frames that are no MESSAGE deliver nothing.
proof fn lemma_no_message(frames: Seq<FrameView>, destination: Seq<char>)
    requires
        forall|i: int| 0 <= i < frames.len() ==> (#[trigger] frames[i]).command != "MESSAGE"@,
    ensures
        delivered_on(frames, destination) == Seq::<Seq<u8>>::empty(),
        ids(frames) == Seq::<Seq<char>>::empty(),
{
    lemma_filter_none(frames, is_message_on(destination));
    lemma_filter_none(frames, is_message());
    assert(delivered_on(frames, destination) =~= Seq::<Seq<u8>>::empty());
    assert(ids(frames) =~= Seq::<Seq<char>>::empty());
}

/// What numbered messages deliver, and under which ids.
proof fn lemma_numbered_messages(
    id: Seq<char>,
    n: nat,
    on: Seq<char>,
    bodies: Seq<Seq<u8>>,
    destination: Seq<char>,
)
    ensures
        ({
            let frames = numbered_messages(id, n, on, bodies);
            &&& delivered_on(frames, destination) == if on == destination {
                bodies
            } else {
                Seq::empty()
            }
            &&& ids(frames) == numbers_after(n, bodies.len())
        }),
{
    let frames = numbered_messages(id, n, on, bodies);
    assert forall|i: int| 0 <= i < frames.len() implies is_message()(#[trigger] frames[i])
        && frames[i].header_or_empty("destination"@) == on && frames[i].header_or_empty(
        "message-id"@,
    ) == decimal((n + 1 + i) as nat) && frames[i].body == bodies[i] by {
        lemma_message(id, (n + 1 + i) as nat, on, bodies[i]);
    }
    lemma_filter_all(frames, is_message());
    assert(ids(frames) =~= numbers_after(n, bodies.len()));
    if on == destination {
        lemma_filter_all(frames, is_message_on(destination));
        assert(delivered_on(frames, destination) =~= bodies);
    } else {
        lemma_filter_none(frames, is_message_on(destination));
        assert(delivered_on(frames, destination) =~= Seq::<Seq<u8>>::empty());
    }
}

/// What delivering one body comes to.
proof fn lemma_one_delivery(
    session: SessionView,
    on: Seq<char>,
    body: Seq<u8>,
    destination: Seq<char>,
)
    ensures
        ({
            let out = session.delivery(on, body);
            let after = session.delivered(on, body);
            let put = if on == destination {
                seq![body]
            } else {
                Seq::empty()
            };
            &&& holds_only_unsubscribed(session) ==> queued(session.queues, destination) + put
                == delivered_on(out, destination) + queued(after.queues, destination)
            &&& after.next_message >= session.next_message
            &&& ids(out) == numbers_after(
                session.next_message,
                (after.next_message - session.next_message) as nat,
            )
        }),
{
    let out = session.delivery(on, body);
    let after = session.delivered(on, body);
    let held = queued(session.queues, destination);
    match subscriber(session.subscriptions, on) {
        Some(id) => {
            lemma_numbered_messages(id, session.next_message, on, seq![body], destination);
            assert(out =~= numbered_messages(id, session.next_message, on, seq![body]));
            if on == destination && holds_only_unsubscribed(session) {
                assert(held.len() == 0);
                assert(held + seq![body] =~= seq![body] + held);
            } else {
                assert(held + Seq::<Seq<u8>>::empty() =~= Seq::<Seq<u8>>::empty() + held);
            }
        },
        None => {
            lemma_no_message(out, destination);
            assert(ids(out) =~= numbers_after(session.next_message, 0));
            if on == destination {
                assert(held + seq![body] =~= Seq::<Seq<u8>>::empty() + held.push(body));
            } else {
                assert(held + Seq::<Seq<u8>>::empty() =~= Seq::<Seq<u8>>::empty() + held);
            }
        },
    }
}

/// What one thing that is done comes to.
proof fn lemma_one(session: SessionView, did: Did, destination: Seq<char>)
    ensures
        ({
            let out = out_of_one(session, did);
            let after = after_one(session, did);
            &&& holds_only_unsubscribed(session) ==> holds_only_unsubscribed(after)
            &&& holds_only_unsubscribed(session) ==> queued(session.queues, destination)
                + put_by_one(did, destination) == delivered_on(out, destination) + queued(
                after.queues,
                destination,
            )
            &&& after.next_message >= session.next_message
            &&& ids(out) == numbers_after(
                session.next_message,
                (after.next_message - session.next_message) as nat,
            )
        }),
{
    let held = queued(session.queues, destination);
    let nothing = Seq::<Seq<u8>>::empty();
    assert(held + nothing =~= nothing + held);
    match did {
        Did::Delivered { destination: on, body } => {
            if holds_only_unsubscribed(session) {
                law_delivering_holds_only_unsubscribed(session, on, body);
            }
            lemma_one_delivery(session, on, body, destination);
        },
        Did::Served(frame) => {
            reveal_strlit("MESSAGE");
            reveal_strlit("RECEIPT");
            reveal_strlit("ERROR");
            reveal_strlit("SEND");
            reveal_strlit("SUBSCRIBE");
            assert("MESSAGE"@[0] == 'M' && "RECEIPT"@[0] == 'R' && "ERROR"@[0] == 'E');
            assert("SEND"@.len() != "SUBSCRIBE"@.len());
            let on = frame.header_or_empty("destination"@);
            let answer = receipts(frame);
            let out = session.replies(frame);
            let none = numbers_after(session.next_message, 0);
            assert(none =~= Seq::<Seq<char>>::empty());
            if holds_only_unsubscribed(session) {
                law_a_subscribed_destination_holds_nothing(session, frame);
            }
            lemma_no_message(answer, destination);
            if frame.command == "SEND"@ {
                let delivery = session.delivery(on, frame.body);
                lemma_one_delivery(session, on, frame.body, destination);
                lemma_among(delivery, answer, destination);
                assert(delivered_on(delivery, destination) + nothing =~= delivered_on(
                    delivery,
                    destination,
                ));
                assert(ids(delivery) + none =~= ids(delivery));
            } else if frame.command == "SUBSCRIBE"@ {
                law_subscribing_drains_the_queue(session, frame);
                let first = match subscriber(session.subscriptions, on) {
                    Some(older) => older,
                    None => frame.header_or_empty("id"@),
                };
                let bodies = queued(session.queues, on);
                let messages = numbered_messages(first, session.next_message, on, bodies);
                lemma_numbered_messages(first, session.next_message, on, bodies, destination);
                lemma_among(answer, messages, destination);
                assert(none + ids(messages) =~= ids(messages));
                if on == destination {
                    assert(held + nothing =~= (nothing + held) + nothing);
                } else {
                    assert(held + nothing =~= (nothing + nothing) + held);
                }
            } else {
                lemma_no_message(out, destination);
            }
        },
    }
}

/// Nothing is lost, doubled or put out of order: over any run of frames
/// served and bodies delivered, what was held for a destination and what was
/// put on it after is what was delivered on it, followed by what is held for
/// it still.
pub proof fn law_what_is_put_is_delivered_or_held(
    session: SessionView,
    run: Seq<Did>,
    destination: Seq<char>,
)
    requires
        holds_only_unsubscribed(session),
    ensures
        queued(session.queues, destination) + put_by_run(run, destination) == delivered_on(
            out_of_run(session, run),
            destination,
        ) + queued(after_run(session, run).queues, destination),
        holds_only_unsubscribed(after_run(session, run)),
    decreases run.len(),
{
    let held = queued(session.queues, destination);
    if run.len() == 0 {
        lemma_no_message(Seq::empty(), destination);
        assert(held + Seq::<Seq<u8>>::empty() =~= Seq::<Seq<u8>>::empty() + held);
    } else {
        let front = run.drop_last();
        let did = run.last();
        let between = after_run(session, front);
        law_what_is_put_is_delivered_or_held(session, front, destination);
        lemma_one(between, did, destination);
        lemma_among(out_of_run(session, front), out_of_one(between, did), destination);
        let put = put_by_run(front, destination);
        let one = put_by_one(did, destination);
        let before = delivered_on(out_of_run(session, front), destination);
        let more = delivered_on(out_of_one(between, did), destination);
        let kept = queued(between.queues, destination);
        let left = queued(after_run(session, run).queues, destination);
        assert(held + (put + one) =~= (held + put) + one);
        assert((before + kept) + one =~= before + (kept + one));
        assert(before + (more + left) =~= (before + more) + left);
    }
}

/// The messages of a run are numbered one after the other, whatever their
/// destinations, on from the last before it: from one, where the session had
/// delivered none.
pub proof fn law_messages_are_numbered_one_after_the_other(session: SessionView, run: Seq<Did>)
    ensures
        after_run(session, run).next_message >= session.next_message,
        ids(out_of_run(session, run)) == numbers_after(
            session.next_message,
            (after_run(session, run).next_message - session.next_message) as nat,
        ),
    decreases run.len(),
{
    let anywhere = Seq::<char>::empty();
    if run.len() == 0 {
        lemma_no_message(Seq::empty(), anywhere);
        assert(numbers_after(session.next_message, 0) =~= Seq::<Seq<char>>::empty());
    } else {
        let front = run.drop_last();
        let did = run.last();
        let between = after_run(session, front);
        law_messages_are_numbered_one_after_the_other(session, front);
        lemma_one(between, did, anywhere);
        lemma_among(out_of_run(session, front), out_of_one(between, did), anywhere);
        let n = (between.next_message - session.next_message) as nat;
        let m = (after_run(session, run).next_message - between.next_message) as nat;
        assert(numbers_after(session.next_message, n) + numbers_after(between.next_message, m)
            =~= numbers_after(session.next_message, n + m));
    }
}

} // verus!
