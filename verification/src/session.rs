//! The broker's side of one connection.
//!
//! Not a broker. One session serves one client and keeps its queues in
//! memory: what is sent is stored per destination, or delivered at once
//! where the client has subscribed to it; what is subscribed to is drained
//! to the client under the id it chose.
//!
//! A session reads no socket and writes none: it is given the frames that
//! came in and gives back the bytes that go out, which are to be written
//! before the result beside them is acted on.

use vstd::prelude::*;

use crate::arrived::{origin, origin_of, Arrived, ArrivedView};
use crate::error::{Error, ErrorView};
use crate::frame::{frame_view, lemma_wire_add, lemma_wire_push, wire, write_frame, Frame, FrameView};
use crate::login::{authorised, is_authorised, login_ref_view, Login, LoginView};
use crate::queues::{bodies_view, queued, Queues, QueuesView};
use crate::session_laws::law_draining_completes_the_answer;
use crate::text::{decimal, decimal_of, has_piece, lists, push_decimal, same};
use crate::turn::{turn_result, Turn};

verus! {

/// What the client did, as [`Session::next_event`] reports it.
#[derive(Clone, Debug, PartialEq, Eq)]
pub enum Event {
    /// The client sent to a destination; here is the Stream.
    Sent(Arrived),
    /// The client subscribed to `destination` under `id`.
    Subscribed { id: String, destination: String },
    /// The client unsubscribed `id`.
    Unsubscribed(String),
    /// The client acknowledged this message.
    Acked(String),
}

/// An [`Event`] by what it says.
pub enum EventView {
    Sent(ArrivedView),
    Subscribed { id: Seq<char>, destination: Seq<char> },
    Unsubscribed(Seq<char>),
    Acked(Seq<char>),
}

impl View for Event {
    type V = EventView;

    open spec fn view(&self) -> EventView {
        match *self {
            Event::Sent(arrived) => EventView::Sent(arrived@),
            Event::Subscribed { id, destination } => EventView::Subscribed {
                id: id@,
                destination: destination@,
            },
            Event::Unsubscribed(id) => EventView::Unsubscribed(id@),
            Event::Acked(id) => EventView::Acked(id@),
        }
    }
}

/// One subscription: its id, then its destination.
pub type SubscriptionView = (Seq<char>, Seq<char>);

/// Subscriptions by what they say.
pub open spec fn subscriptions_view(subscriptions: Seq<(String, String)>) -> Seq<
    SubscriptionView,
> {
    subscriptions.map_values(|subscription: (String, String)| (subscription.0@, subscription.1@))
}

/// A [`Session`] by what it holds.
#[verifier::ext_equal]
pub struct SessionView {
    /// The client's address, as text.
    pub peer: Seq<char>,
    /// The frame the client opened with.
    pub connect: FrameView,
    /// What is held and not yet delivered.
    pub queues: QueuesView,
    /// The subscriptions, the oldest first.
    pub subscriptions: Seq<SubscriptionView>,
    /// How many messages have been delivered.
    pub next_message: nat,
}

/// The id of the oldest subscription to `destination`.
pub open spec fn subscriber(
    subscriptions: Seq<SubscriptionView>,
    destination: Seq<char>,
) -> Option<Seq<char>>
    decreases subscriptions.len(),
{
    if subscriptions.len() == 0 {
        None
    } else if subscriptions[0].1 == destination {
        Some(subscriptions[0].0)
    } else {
        subscriber(subscriptions.drop_first(), destination)
    }
}

/// The MESSAGE that carries `body` to the subscription `id` as number `n`.
pub open spec fn message_frame(
    id: Seq<char>,
    n: nat,
    destination: Seq<char>,
    body: Seq<u8>,
) -> FrameView {
    FrameView::new("MESSAGE"@).with_header("subscription"@, id).with_header(
        "message-id"@,
        decimal(n),
    ).with_header("ack"@, decimal(n)).with_header("destination"@, destination).with_header(
        "content-type"@,
        "application/octet-stream"@,
    ).with_body(body)
}

/// The RECEIPT that a frame asks for, where it asks for one.
pub open spec fn receipts(frame: FrameView) -> Seq<FrameView> {
    match frame.header("receipt"@) {
        Some(receipt) => seq![FrameView::new("RECEIPT"@).with_header("receipt-id"@, receipt)],
        None => Seq::empty(),
    }
}

/// The ERROR that says `message`.
pub open spec fn error_frame(message: Seq<char>) -> FrameView {
    FrameView::new("ERROR"@).with_header("message"@, message)
}

/// Whether `subscription` is not the one called `id`.
pub open spec fn other_than(id: Seq<char>) -> spec_fn(SubscriptionView) -> bool {
    |subscription: SubscriptionView| subscription.0 != id
}

impl SessionView {
    /// The session after `body` was delivered on `destination`.
    pub open spec fn delivered(self, destination: Seq<char>, body: Seq<u8>) -> SessionView {
        match subscriber(self.subscriptions, destination) {
            Some(_) => SessionView { next_message: self.next_message + 1, ..self },
            None => SessionView {
                queues: self.queues.insert(
                    destination,
                    queued(self.queues, destination).push(body),
                ),
                ..self
            },
        }
    }

    /// What goes out as `body` is delivered on `destination`.
    pub open spec fn delivery(self, destination: Seq<char>, body: Seq<u8>) -> Seq<FrameView> {
        match subscriber(self.subscriptions, destination) {
            Some(id) => seq![message_frame(id, self.next_message + 1, destination, body)],
            None => Seq::empty(),
        }
    }

    /// The session after each of `bodies` was delivered in turn.
    pub open spec fn all_delivered(
        self,
        destination: Seq<char>,
        bodies: Seq<Seq<u8>>,
    ) -> SessionView
        decreases bodies.len(),
    {
        if bodies.len() == 0 {
            self
        } else {
            self.all_delivered(destination, bodies.drop_last()).delivered(
                destination,
                bodies.last(),
            )
        }
    }

    /// What goes out as each of `bodies` is delivered in turn.
    pub open spec fn deliveries(self, destination: Seq<char>, bodies: Seq<Seq<u8>>) -> Seq<
        FrameView,
    >
        decreases bodies.len(),
    {
        if bodies.len() == 0 {
            Seq::empty()
        } else {
            self.deliveries(destination, bodies.drop_last()) + self.all_delivered(
                destination,
                bodies.drop_last(),
            ).delivery(destination, bodies.last())
        }
    }

    /// The session once `id` subscribed to `destination` and nothing was
    /// drained yet.
    pub open spec fn subscribed(self, id: Seq<char>, destination: Seq<char>) -> SessionView {
        SessionView {
            subscriptions: self.subscriptions.push((id, destination)),
            queues: self.queues.remove(destination),
            ..self
        }
    }

    /// How many messages a frame has delivered to the client.
    pub open spec fn numbered(self, frame: FrameView) -> nat {
        let destination = frame.header_or_empty("destination"@);
        if frame.command == "SEND"@ {
            if subscriber(self.subscriptions, destination) is Some {
                1
            } else {
                0
            }
        } else if frame.command == "SUBSCRIBE"@ {
            queued(self.queues, destination).len()
        } else {
            0
        }
    }

    /// The session after a frame.
    pub open spec fn after(self, frame: FrameView) -> SessionView {
        let id = frame.header_or_empty("id"@);
        let destination = frame.header_or_empty("destination"@);
        if frame.command == "SEND"@ {
            self.delivered(destination, frame.body)
        } else if frame.command == "SUBSCRIBE"@ {
            self.subscribed(id, destination).all_delivered(
                destination,
                queued(self.queues, destination),
            )
        } else if frame.command == "UNSUBSCRIBE"@ {
            SessionView { subscriptions: self.subscriptions.filter(other_than(id)), ..self }
        } else {
            self
        }
    }

    /// What goes out in answer to a frame.
    pub open spec fn replies(self, frame: FrameView) -> Seq<FrameView> {
        let id = frame.header_or_empty("id"@);
        let destination = frame.header_or_empty("destination"@);
        if frame.command == "SEND"@ {
            self.delivery(destination, frame.body) + receipts(frame)
        } else if frame.command == "SUBSCRIBE"@ {
            receipts(frame) + self.subscribed(id, destination).deliveries(
                destination,
                queued(self.queues, destination),
            )
        } else if is_client_command(frame.command) {
            receipts(frame)
        } else {
            seq![error_frame("unknown command"@)]
        }
    }

    /// The session that has answered a frame: after it, but that what a
    /// SUBSCRIBE asks for is held still.
    pub open spec fn answered(self, frame: FrameView) -> SessionView {
        if frame.command == "SUBSCRIBE"@ {
            SessionView {
                subscriptions: self.subscriptions.push(
                    (frame.header_or_empty("id"@), frame.header_or_empty("destination"@)),
                ),
                ..self
            }
        } else {
            self.after(frame)
        }
    }

    /// What goes out in answer to a frame before anything held does.
    pub open spec fn answers(self, frame: FrameView) -> Seq<FrameView> {
        if frame.command == "SUBSCRIBE"@ {
            receipts(frame)
        } else {
            self.replies(frame)
        }
    }

    /// What is held for what was just subscribed to.
    pub open spec fn due(self, event: EventView) -> Seq<Seq<u8>> {
        match event {
            EventView::Subscribed { destination, .. } => queued(self.queues, destination),
            _ => Seq::empty(),
        }
    }

    /// The session after what an event makes due was delivered.
    pub open spec fn drained(self, event: EventView) -> SessionView {
        match event {
            EventView::Subscribed { destination, .. } => (SessionView {
                queues: self.queues.remove(destination),
                ..self
            }).all_delivered(destination, self.due(event)),
            _ => self,
        }
    }

    /// What goes out as what an event makes due is delivered.
    pub open spec fn draining(self, event: EventView) -> Seq<FrameView> {
        match event {
            EventView::Subscribed { destination, .. } => (SessionView {
                queues: self.queues.remove(destination),
                ..self
            }).deliveries(destination, self.due(event)),
            _ => Seq::empty(),
        }
    }

    /// What a frame is, as an event.
    pub open spec fn event(self, frame: FrameView) -> Result<Turn<EventView>, ErrorView> {
        let id = frame.header_or_empty("id"@);
        let destination = frame.header_or_empty("destination"@);
        if frame.command == "SEND"@ {
            Ok(
                Turn::Took(
                    EventView::Sent(
                        ArrivedView {
                            origin_uri: origin(self.peer, destination),
                            bytes: frame.body,
                        },
                    ),
                ),
            )
        } else if frame.command == "SUBSCRIBE"@ {
            Ok(Turn::Took(EventView::Subscribed { id, destination }))
        } else if frame.command == "UNSUBSCRIBE"@ {
            Ok(Turn::Took(EventView::Unsubscribed(id)))
        } else if frame.command == "ACK"@ || frame.command == "NACK"@ {
            Ok(Turn::Took(EventView::Acked(id)))
        } else if frame.command == "DISCONNECT"@ {
            Ok(Turn::Closed)
        } else if frame.command == "BEGIN"@ || frame.command == "COMMIT"@ || frame.command
            == "ABORT"@ {
            Ok(Turn::Again)
        } else {
            Err(ErrorView::FromClient(frame.command))
        }
    }
}

/// The commands a client sends once it is connected.
pub open spec fn is_client_command(command: Seq<char>) -> bool {
    ||| command == "SEND"@
    ||| command == "SUBSCRIBE"@
    ||| command == "UNSUBSCRIBE"@
    ||| command == "ACK"@
    ||| command == "NACK"@
    ||| command == "DISCONNECT"@
    ||| command == "BEGIN"@
    ||| command == "COMMIT"@
    ||| command == "ABORT"@
}

/// The versions that a client accepts: 1.0, where it does not say.
pub open spec fn accepted_versions(connect: FrameView) -> Seq<char> {
    match connect.header("accept-version"@) {
        Some(versions) => versions,
        None => "1.0"@,
    }
}

/// Whether a client accepts STOMP 1.2.
pub open spec fn speaks(connect: FrameView) -> bool {
    has_piece(accepted_versions(connect), ',', "1.2"@)
}

/// Whether a frame opens a connection: a CONNECT, or a STOMP, which is the
/// same under another name.
pub open spec fn opens(frame: FrameView) -> bool {
    frame.command == "CONNECT"@ || frame.command == "STOMP"@
}

/// The CONNECTED for a client on this port.
pub open spec fn connected_frame(port: nat) -> FrameView {
    FrameView::new("CONNECTED"@).with_header("version"@, "1.2"@).with_header(
        "server"@,
        "xmip/0.1.0"@,
    ).with_header("heart-beat"@, "0,0"@).with_header("session"@, "xmip-"@ + decimal(port))
}

/// Why a client is refused, where it is.
pub open spec fn refusal(connect: FrameView, expected: Option<LoginView>) -> Option<Seq<char>> {
    if !speaks(connect) {
        Some("only STOMP 1.2 is spoken here"@)
    } else if !authorised(connect, expected) {
        Some("not authorised"@)
    } else {
        None
    }
}

/// What goes out in answer to the frame a client opened with.
pub open spec fn welcome(
    port: nat,
    opening: Option<FrameView>,
    expected: Option<LoginView>,
) -> Seq<FrameView> {
    match opening {
        Some(connect) => if !opens(connect) {
            Seq::empty()
        } else {
            match refusal(connect, expected) {
                Some(message) => seq![error_frame(message)],
                None => seq![connected_frame(port)],
            }
        },
        None => Seq::empty(),
    }
}

/// The session that the frame a client opened with leads to.
pub open spec fn opened(
    peer: Seq<char>,
    opening: Option<FrameView>,
    expected: Option<LoginView>,
) -> Result<SessionView, ErrorView> {
    match opening {
        Some(connect) => if !opens(connect) {
            Err(ErrorView::NotConnect)
        } else {
            match refusal(connect, expected) {
                Some(message) => Err(ErrorView::ClientRefused(message)),
                None => Ok(
                    SessionView {
                        peer,
                        connect,
                        queues: QueuesView::empty(),
                        subscriptions: Seq::empty(),
                        next_message: 0,
                    },
                ),
            }
        },
        None => Err(ErrorView::NotConnect),
    }
}

/// One client's worth of broker.
pub struct Session {
    peer: String,
    connect: Frame,
    queues: Queues,
    subscriptions: Vec<(String, String)>,
    next_message: u64,
}

impl View for Session {
    type V = SessionView;

    closed spec fn view(&self) -> SessionView {
        SessionView {
            peer: self.peer@,
            connect: self.connect@,
            queues: self.queues@,
            subscriptions: subscriptions_view(self.subscriptions@),
            next_message: self.next_message as nat,
        }
    }
}

/// A session or an error, by what it says.
pub open spec fn session_result(result: Result<Session, Error>) -> Result<SessionView, ErrorView> {
    match result {
        Ok(session) => Ok(session@),
        Err(error) => Err(error@),
    }
}

/// An ERROR that says `message`, and the failure it stands for.
fn refuse(message: &str) -> (refused: (Vec<u8>, Error))
    ensures
        refused.0@ == wire(seq![error_frame(message@)]),
        refused.1@ == ErrorView::ClientRefused(message@),
{
    let mut out: Vec<u8> = Vec::new();
    write_frame(&mut out, &Frame::new("ERROR").with_header("message", message));
    proof {
        lemma_wire_push(Seq::empty(), error_frame(message@));
        assert(Seq::<FrameView>::empty().push(error_frame(message@)) == seq![
            error_frame(message@),
        ]);
    }
    (out, Error::ClientRefused(message.to_owned()))
}

impl Session {
    /// Take the frame a client at `peer` opened with, or `None` where it
    /// closed instead, and answer CONNECTED, or ERROR, where it does not
    /// speak 1.2 or the login is not `expected`.
    ///
    /// # Errors
    /// Where the client opened neither with CONNECT nor with STOMP, or it was
    /// refused.
    pub fn accept(
        peer: &str,
        port: u16,
        opening: Option<Frame>,
        expected: Option<&Login>,
    ) -> (accepted: (Vec<u8>, Result<Self, Error>))
        ensures
            accepted.0@ == wire(
                welcome(port as nat, frame_view(opening), login_ref_view(expected)),
            ),
            session_result(accepted.1) == opened(
                peer@,
                frame_view(opening),
                login_ref_view(expected),
            ),
    {
        let connect = match opening {
            Some(frame) => frame,
            None => {
                return (Vec::new(), Err(Error::NotConnect));
            },
        };
        if !same(connect.command.as_str(), "CONNECT") && !same(connect.command.as_str(), "STOMP") {
            return (Vec::new(), Err(Error::NotConnect));
        }
        let spoken = match connect.header("accept-version") {
            Some(versions) => lists(versions, ',', "1.2"),
            None => lists("1.0", ',', "1.2"),
        };
        if !spoken {
            let (out, error) = refuse("only STOMP 1.2 is spoken here");
            return (out, Err(error));
        }
        if !is_authorised(&connect, expected) {
            let (out, error) = refuse("not authorised");
            return (out, Err(error));
        }
        let mut name = "xmip-".to_owned();
        push_decimal(&mut name, port as u64);
        let connected = Frame::new("CONNECTED").with_header("version", "1.2").with_header(
            "server",
            "xmip/0.1.0",
        ).with_header("heart-beat", "0,0").with_header("session", name.as_str());
        let mut out: Vec<u8> = Vec::new();
        write_frame(&mut out, &connected);
        proof {
            lemma_wire_push(Seq::empty(), connected@);
            assert(Seq::<FrameView>::empty().push(connected@) == seq![connected@]);
        }
        let session = Session {
            peer: peer.to_owned(),
            connect,
            queues: Queues::new(),
            subscriptions: Vec::new(),
            next_message: 0,
        };
        assert(session@.subscriptions =~= Seq::empty());
        (out, Ok(session))
    }

    /// Hold these queues, the way one session hands its state to the next.
    #[must_use]
    pub fn with_queues(self, queues: Queues) -> (session: Self)
        ensures
            session@ == (SessionView { queues: queues@, ..self@ }),
    {
        let mut session = self;
        session.queues = queues;
        session
    }

    /// The CONNECT, or STOMP, the client sent.
    #[must_use]
    pub fn connect(&self) -> (frame: &Frame)
        ensures
            frame@ == self@.connect,
    {
        &self.connect
    }

    /// What is queued and not yet delivered.
    #[must_use]
    pub fn queues(&self) -> (queues: &Queues)
        ensures
            queues@ == self@.queues,
    {
        &self.queues
    }

    /// The queues, for the next session to carry on with.
    #[must_use]
    pub fn into_queues(self) -> (queues: Queues)
        ensures
            queues@ == self@.queues,
    {
        self.queues
    }

    /// Where the oldest subscription to `destination` stands, or the end.
    fn subscription(&self, destination: &str) -> (at: usize)
        ensures
            at <= self.subscriptions@.len(),
            match subscriber(self@.subscriptions, destination@) {
                Some(id) => at < self.subscriptions@.len() && self.subscriptions@[at as int].0@
                    == id,
                None => at == self.subscriptions@.len(),
            },
    {
        let mut at: usize = 0;
        assert(self@.subscriptions.skip(0) == self@.subscriptions);
        while at < self.subscriptions.len()
            invariant
                at <= self.subscriptions@.len(),
                subscriber(self@.subscriptions, destination@) == subscriber(
                    self@.subscriptions.skip(at as int),
                    destination@,
                ),
            decreases self.subscriptions@.len() - at,
        {
            let ghost rest = self@.subscriptions.skip(at as int);
            assert(rest[0] == self@.subscriptions[at as int]);
            assert(rest.drop_first() == self@.subscriptions.skip(at + 1));
            if same(self.subscriptions[at].1.as_str(), destination) {
                return at;
            }
            at = at + 1;
        }
        at
    }

    /// Deliver `body` on `destination`: as a MESSAGE where the client has
    /// subscribed to it, else into the queue for when it does.
    pub fn deliver(&mut self, destination: &str, body: &[u8]) -> (out: Vec<u8>)
        requires
            subscriber(old(self)@.subscriptions, destination@) is Some ==> old(self)@.next_message
                < u64::MAX,
        ensures
            final(self)@ == old(self)@.delivered(destination@, body@),
            out@ == wire(old(self)@.delivery(destination@, body@)),
    {
        let mut out: Vec<u8> = Vec::new();
        let at = self.subscription(destination);
        if at == self.subscriptions.len() {
            self.queues.push(destination, body);
            return out;
        }
        self.next_message = self.next_message + 1;
        let number = decimal_of(self.next_message);
        let message = Frame::new("MESSAGE").with_header(
            "subscription",
            self.subscriptions[at].0.as_str(),
        ).with_header("message-id", number.as_str()).with_header(
            "ack",
            number.as_str(),
        ).with_header("destination", destination).with_header(
            "content-type",
            "application/octet-stream",
        ).with_body(body);
        write_frame(&mut out, &message);
        proof {
            lemma_wire_push(Seq::empty(), message@);
            assert(Seq::<FrameView>::empty().push(message@) == seq![message@]);
        }
        out
    }

    /// Whether `deliver` on `destination` finds a number for its message.
    pub fn can_deliver(&self, destination: &str) -> (yes: bool)
        ensures
            yes == (subscriber(self@.subscriptions, destination@) is Some ==> self@.next_message
                < u64::MAX),
    {
        self.next_message < u64::MAX || self.subscription(destination) == self.subscriptions.len()
    }

    /// Whether there is a number for each message held for `destination`.
    fn can_number(&self, destination: &str) -> (yes: bool)
        ensures
            yes == (self@.next_message + queued(self@.queues, destination@).len() <= u64::MAX),
    {
        match self.queues.get(destination) {
            Some(bodies) => bodies.len() as u64 <= u64::MAX - self.next_message,
            None => true,
        }
    }

    /// Whether `next_event` on `frame` finds a number for each message.
    pub fn can_serve(&self, frame: &Frame) -> (yes: bool)
        ensures
            yes == (self@.next_message + self@.numbered(frame@) <= u64::MAX),
    {
        let destination = frame.header_or_empty("destination");
        if same(frame.command.as_str(), "SEND") {
            self.can_deliver(destination.as_str())
        } else if same(frame.command.as_str(), "SUBSCRIBE") {
            self.can_number(destination.as_str())
        } else {
            true
        }
    }

    /// Deliver each of `bodies` on `destination`, in turn.
    fn deliver_all(&mut self, destination: &str, bodies: &Vec<Vec<u8>>) -> (out: Vec<u8>)
        requires
            old(self)@.next_message + bodies@.len() <= u64::MAX,
        ensures
            final(self)@ == old(self)@.all_delivered(destination@, bodies_view(bodies@)),
            out@ == wire(old(self)@.deliveries(destination@, bodies_view(bodies@))),
    {
        let mut out: Vec<u8> = Vec::new();
        let mut at: usize = 0;
        let ghost all = bodies_view(bodies@);
        while at < bodies.len()
            invariant
                at <= bodies@.len(),
                all == bodies_view(bodies@),
                old(self)@.next_message + bodies@.len() <= u64::MAX,
                self@.next_message <= old(self)@.next_message + at,
                self@ == old(self)@.all_delivered(destination@, all.take(at as int)),
                out@ == wire(old(self)@.deliveries(destination@, all.take(at as int))),
            decreases bodies@.len() - at,
        {
            let ghost next = all.take(at + 1);
            proof {
                assert(next.drop_last() == all.take(at as int));
                assert(next.last() == bodies@[at as int]@);
                lemma_wire_add(
                    old(self)@.deliveries(destination@, all.take(at as int)),
                    self@.delivery(destination@, next.last()),
                );
            }
            let mut more = self.deliver(destination, bodies[at].as_slice());
            out.append(&mut more);
            at = at + 1;
        }
        assert(all.take(at as int) == all);
        out
    }

    /// RECEIPT, where the frame asked for one.
    fn receipt(frame: &Frame) -> (out: Vec<u8>)
        ensures
            out@ == wire(receipts(frame@)),
    {
        let mut out: Vec<u8> = Vec::new();
        if let Some(receipt) = frame.header("receipt") {
            let answer = Frame::new("RECEIPT").with_header("receipt-id", receipt);
            write_frame(&mut out, &answer);
            proof {
                lemma_wire_push(Seq::empty(), answer@);
                assert(Seq::<FrameView>::empty().push(answer@) == seq![answer@]);
            }
        }
        out
    }

    /// The client wants the subscriptions called `id` no longer.
    fn unsubscribe(&mut self, id: &str)
        ensures
            final(self)@ == (SessionView {
                subscriptions: old(self)@.subscriptions.filter(other_than(id@)),
                ..old(self)@
            }),
    {
        let ghost all = self@.subscriptions;
        let mut kept: Vec<(String, String)> = Vec::new();
        let mut at: usize = 0;
        assert(subscriptions_view(kept@) =~= all.take(0).filter(other_than(id@))) by {
            reveal(Seq::filter);
        }
        while at < self.subscriptions.len()
            invariant
                *self == *old(self),
                all == self@.subscriptions,
                at <= self.subscriptions@.len(),
                subscriptions_view(kept@) == all.take(at as int).filter(other_than(id@)),
            decreases self.subscriptions@.len() - at,
        {
            let subscription = &self.subscriptions[at];
            let ghost next = all.take(at + 1);
            let ghost before = kept@;
            proof {
                reveal(Seq::filter);
                assert(next.drop_last() == all.take(at as int));
                assert(next.last() == (subscription.0@, subscription.1@));
            }
            if !same(subscription.0.as_str(), id) {
                kept.push((subscription.0.clone(), subscription.1.clone()));
                assert(subscriptions_view(kept@) =~= subscriptions_view(before).push(next.last()));
            }
            at = at + 1;
        }
        assert(all.take(at as int) == all);
        self.subscriptions = kept;
    }

    /// What the client did with this frame, and what answers it: the bytes
    /// are to be written, and only then is what the event makes due drained.
    /// `None` is a client that closed.
    ///
    /// # Errors
    /// Where the client sent what only a broker sends.
    pub fn answer(&mut self, frame: Option<Frame>) -> (answered: (
        Vec<u8>,
        Result<Turn<Event>, Error>,
    ))
        requires
            frame is Some && frame->0@.command == "SEND"@ ==> old(self)@.next_message
                + old(self)@.numbered(frame->0@) <= u64::MAX,
        ensures
            match frame {
                Some(frame) => {
                    &&& final(self)@ == old(self)@.answered(frame@)
                    &&& answered.0@ == wire(old(self)@.answers(frame@))
                    &&& turn_result(answered.1) == old(self)@.event(frame@)
                },
                None => {
                    &&& final(self)@ == old(self)@
                    &&& answered.0@ == Seq::<u8>::empty()
                    &&& turn_result(answered.1) == Ok::<Turn<EventView>, ErrorView>(Turn::Closed)
                },
            },
    {
        let frame = match frame {
            Some(frame) => frame,
            None => {
                return (Vec::new(), Ok(Turn::Closed));
            },
        };
        let id = frame.header_or_empty("id");
        let destination = frame.header_or_empty("destination");
        let command = frame.command.as_str();
        let mut receipt = Self::receipt(&frame);
        proof {
            lemma_subscribing_is_told_apart();
        }
        if same(command, "SEND") {
            proof {
                lemma_wire_add(
                    self@.delivery(destination@, frame@.body),
                    receipts(frame@),
                );
            }
            let mut out = self.deliver(destination.as_str(), frame.body.as_slice());
            out.append(&mut receipt);
            let arrived = Arrived {
                origin_uri: origin_of(self.peer.as_str(), destination.as_str()),
                bytes: frame.body,
            };
            (out, Ok(Turn::Took(Event::Sent(arrived))))
        } else if same(command, "SUBSCRIBE") {
            self.subscriptions.push((id.clone(), destination.clone()));
            assert(self@ =~= old(self)@.answered(frame@));
            (receipt, Ok(Turn::Took(Event::Subscribed { id, destination })))
        } else if same(command, "UNSUBSCRIBE") {
            self.unsubscribe(id.as_str());
            (receipt, Ok(Turn::Took(Event::Unsubscribed(id))))
        } else if same(command, "ACK") || same(command, "NACK") {
            (receipt, Ok(Turn::Took(Event::Acked(id))))
        } else if same(command, "DISCONNECT") {
            (receipt, Ok(Turn::Closed))
        } else if same(command, "BEGIN") || same(command, "COMMIT") || same(command, "ABORT") {
            (receipt, Ok(Turn::Again))
        } else {
            let mut out: Vec<u8> = Vec::new();
            write_frame(&mut out, &Frame::new("ERROR").with_header("message", "unknown command"));
            proof {
                let error = error_frame("unknown command"@);
                lemma_wire_push(Seq::empty(), error);
                assert(Seq::<FrameView>::empty().push(error) == seq![error]);
            }
            (out, Err(Error::FromClient(frame.command)))
        }
    }

    /// Whether `drain` of `event` finds a number for each message.
    pub fn can_drain(&self, event: &Event) -> (yes: bool)
        ensures
            yes == (self@.next_message + self@.due(event@).len() <= u64::MAX),
    {
        match event {
            Event::Subscribed { destination, .. } => self.can_number(destination.as_str()),
            _ => true,
        }
    }

    /// Deliver what was held for what the client just subscribed to, once
    /// the subscription has been answered; of any other event, nothing.
    pub fn drain(&mut self, event: &Event) -> (out: Vec<u8>)
        requires
            old(self)@.next_message + old(self)@.due(event@).len() <= u64::MAX,
        ensures
            final(self)@ == old(self)@.drained(event@),
            out@ == wire(old(self)@.draining(event@)),
    {
        match event {
            Event::Subscribed { destination, .. } => {
                let bodies = self.queues.remove(destination.as_str());
                assert(self@ =~= (SessionView {
                    queues: old(self)@.queues.remove(destination@),
                    ..old(self)@
                }));
                self.deliver_all(destination.as_str(), &bodies)
            },
            _ => Vec::new(),
        }
    }

    /// What the client did with this frame, and all that goes out for it: the
    /// answer, then what it makes due. `None` is a client that closed. Where
    /// writing the answer may fail, [`Session::answer`] and
    /// [`Session::drain`] do the same with the write between them.
    ///
    /// # Errors
    /// Where the client sent what only a broker sends.
    pub fn next_event(&mut self, frame: Option<Frame>) -> (served: (
        Vec<u8>,
        Result<Turn<Event>, Error>,
    ))
        requires
            frame is Some ==> old(self)@.next_message + old(self)@.numbered(frame->0@) <= u64::MAX,
        ensures
            match frame {
                Some(frame) => {
                    &&& final(self)@ == old(self)@.after(frame@)
                    &&& served.0@ == wire(old(self)@.replies(frame@))
                    &&& turn_result(served.1) == old(self)@.event(frame@)
                },
                None => {
                    &&& final(self)@ == old(self)@
                    &&& served.0@ == Seq::<u8>::empty()
                    &&& turn_result(served.1) == Ok::<Turn<EventView>, ErrorView>(Turn::Closed)
                },
            },
    {
        let ghost heard = frame_view(frame);
        let (mut out, turn) = self.answer(frame);
        if let Ok(Turn::Took(event)) = &turn {
            proof {
                let frame = heard->0;
                law_draining_completes_the_answer(old(self)@, frame);
                lemma_wire_add(old(self)@.answers(frame), self@.draining(event@));
            }
            let mut held = self.drain(event);
            out.append(&mut held);
        } else {
            proof {
                if let Some(frame) = heard {
                    law_draining_completes_the_answer(old(self)@, frame);
                }
            }
        }
        (out, turn)
    }

    /// The message the client sent with this frame, where it sent one, and
    /// all that goes out for it. `None` is a client that closed.
    ///
    /// # Errors
    /// Where the client sent what only a broker sends.
    pub fn next_send(&mut self, frame: Option<Frame>) -> (served: (
        Vec<u8>,
        Result<Turn<Arrived>, Error>,
    ))
        requires
            frame is Some ==> old(self)@.next_message + old(self)@.numbered(frame->0@) <= u64::MAX,
        ensures
            match frame {
                Some(frame) => {
                    &&& final(self)@ == old(self)@.after(frame@)
                    &&& served.0@ == wire(old(self)@.replies(frame@))
                    &&& turn_result(served.1) == sent_only(old(self)@.event(frame@))
                },
                None => {
                    &&& final(self)@ == old(self)@
                    &&& served.0@ == Seq::<u8>::empty()
                    &&& turn_result(served.1) == Ok::<Turn<ArrivedView>, ErrorView>(Turn::Closed)
                },
            },
    {
        let (out, result) = self.next_event(frame);
        let sent = match result {
            Ok(turn) => Ok(sent_of(turn)),
            Err(error) => Err(error),
        };
        (out, sent)
    }
}

/// The commands whose events are told apart from a subscription.
proof fn lemma_subscribing_is_told_apart()
    ensures
        "SEND"@ != "SUBSCRIBE"@,
        "UNSUBSCRIBE"@ != "SUBSCRIBE"@,
{
    reveal_strlit("SEND");
    reveal_strlit("SUBSCRIBE");
    reveal_strlit("UNSUBSCRIBE");
    assert("SEND"@.len() != "SUBSCRIBE"@.len());
    assert("UNSUBSCRIBE"@.len() != "SUBSCRIBE"@.len());
}

/// What is sent is waited for; whatever else the client does is passed over.
pub open spec fn sent_turn(turn: Turn<EventView>) -> Turn<ArrivedView> {
    match turn {
        Turn::Took(EventView::Sent(arrived)) => Turn::Took(arrived),
        Turn::Took(_) => Turn::Again,
        Turn::Closed => Turn::Closed,
        Turn::Again => Turn::Again,
    }
}

/// The message that the client sent, where it sent one.
pub fn sent_of(turn: Turn<Event>) -> (sent: Turn<Arrived>)
    ensures
        sent@ == sent_turn(turn@),
{
    match turn {
        Turn::Took(Event::Sent(arrived)) => Turn::Took(arrived),
        Turn::Took(_) => Turn::Again,
        Turn::Closed => Turn::Closed,
        Turn::Again => Turn::Again,
    }
}

/// The message that the client sent, where it sent one, or the failure.
pub open spec fn sent_only(event: Result<Turn<EventView>, ErrorView>) -> Result<
    Turn<ArrivedView>,
    ErrorView,
> {
    match event {
        Ok(turn) => Ok(sent_turn(turn)),
        Err(error) => Err(error),
    }
}

} // verus!
