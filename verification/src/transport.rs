//! One Location's settings, and what follows from them.
//!
//! A queue or a topic is a Location: `/queue/orders`, `/topic/prices`. A
//! Receive Location subscribes and takes what is delivered; a Send Location
//! sends. A send target is `activemq://host:61613/queue/orders`,
//! `host:61613/queue/orders`, or a destination alone on this transport's
//! broker.

use std::time::Duration;

use vstd::prelude::*;

use crate::arrived::{Arrived, ArrivedView};
use crate::client::{connect_frame, Client, ClientView, Message, MessageView};
use crate::error::{Error, ErrorView};
use crate::frame::{encoded, frame_view, wire, Frame};
use crate::login::{login_view, Login, LoginView};
use crate::session::{opened, session_result, welcome, Session};
use crate::text::{chars_of, pair_view, split_first, split_once, string_of};

verus! {

/// An [`ActiveMqTransport`] by its settings.
pub struct TransportView {
    /// The broker, `host:61613`.
    pub server: Seq<char>,
    /// The destination, as the broker names it.
    pub queue: Seq<char>,
    /// What is presented in CONNECT, or expected there.
    pub login: Option<LoginView>,
    /// How long a quiet broker is waited for.
    pub timeout: Option<Duration>,
}

/// Whether `s` begins with `front`.
pub open spec fn begins_with(s: Seq<char>, front: Seq<char>) -> bool {
    front.len() <= s.len() && s.take(front.len() as int) == front
}

/// The server and the destination that `scheme://server/destination` names;
/// without a slash after the server the destination is empty. This is the
/// library's own reading of such a target, an empty server included; whoever
/// has another reads it and uses [`ActiveMqTransport::resolve_named`].
pub open spec fn named_by(scheme: Seq<char>, target: Seq<char>) -> Option<
    (Seq<char>, Seq<char>),
> {
    let front = scheme + "://"@;
    if begins_with(target, front) {
        let rest = target.skip(front.len() as int);
        match split_first(rest, '/') {
            Some((server, destination)) => Some((server, destination)),
            None => Some((rest, Seq::empty())),
        }
    } else {
        None
    }
}

/// What follows `front` in `text`, where `text` begins with it.
fn after(text: &str, front: &str) -> (rest: Option<String>)
    ensures
        match rest {
            Some(rest) => begins_with(text@, front@) && rest@ == text@.skip(front@.len() as int),
            None => !begins_with(text@, front@),
        },
{
    let chars = chars_of(text);
    let wanted = chars_of(front);
    if chars.len() < wanted.len() {
        return None;
    }
    let mut at: usize = 0;
    while at < wanted.len()
        invariant
            chars@ == text@,
            wanted@ == front@,
            at <= wanted@.len() <= chars@.len(),
            forall|i: int| 0 <= i < at ==> chars@[i] == wanted@[i],
        decreases wanted@.len() - at,
    {
        if chars[at] != wanted[at] {
            assert(text@.take(front@.len() as int)[at as int] != front@[at as int]);
            return None;
        }
        at = at + 1;
    }
    assert(text@.take(front@.len() as int) =~= front@);
    let rest = string_of(&chars, at, chars.len());
    assert(rest@ =~= text@.skip(front@.len() as int));
    Some(rest)
}

/// The server and the destination that `scheme://server/destination` names,
/// as this library reads it.
pub fn named_target(scheme: &str, target: &str) -> (named: Option<(String, String)>)
    ensures
        pair_view(named) == named_by(scheme@, target@),
{
    let mut front = scheme.to_owned();
    front.push_str("://");
    match after(target, front.as_str()) {
        Some(rest) => match split_once(rest.as_str(), '/') {
            Some((server, destination)) => Some((server, destination)),
            None => Some((rest, String::new())),
        },
        None => None,
    }
}

impl TransportView {
    /// The server and the destination of a target that names both, as
    /// `named`, or none.
    pub open spec fn resolved_by(
        self,
        named: Option<(Seq<char>, Seq<char>)>,
        target: Seq<char>,
    ) -> (Seq<char>, Seq<char>) {
        match named {
            Some((server, destination)) => if destination.len() == 0 {
                (server, self.queue)
            } else {
                (server, "/"@ + destination)
            },
            None => match split_first(target, '/') {
                Some((server, destination)) => if server.contains(':') {
                    (server, "/"@ + destination)
                } else {
                    (self.server, target)
                },
                None => (self.server, target),
            },
        }
    }

    /// The server and the destination of a target.
    pub open spec fn resolved(self, target: Seq<char>) -> (Seq<char>, Seq<char>) {
        self.resolved_by(named_by("activemq"@, target), target)
    }
}

/// Whether `text` holds `c`.
fn holds(text: &str, c: char) -> (yes: bool)
    ensures
        yes == text@.contains(c),
{
    let chars = chars_of(text);
    let mut at: usize = 0;
    while at < chars.len()
        invariant
            chars@ == text@,
            at <= chars@.len(),
            forall|i: int| 0 <= i < at ==> chars@[i] != c,
        decreases chars@.len() - at,
    {
        if chars[at] == c {
            assert(text@[at as int] == c);
            return true;
        }
        at = at + 1;
    }
    false
}

/// `text` with a slash before it.
fn slashed(text: &str) -> (path: String)
    ensures
        path@ == "/"@ + text@,
{
    let mut path = "/".to_owned();
    path.push_str(text);
    path
}

/// Speaks to one broker about one destination.
pub struct ActiveMqTransport {
    server: String,
    queue: String,
    login: Option<Login>,
    timeout: Option<Duration>,
}

impl View for ActiveMqTransport {
    type V = TransportView;

    closed spec fn view(&self) -> TransportView {
        TransportView {
            server: self.server@,
            queue: self.queue@,
            login: login_view(self.login),
            timeout: self.timeout,
        }
    }
}

impl Clone for ActiveMqTransport {
    fn clone(&self) -> (copy: Self)
        ensures
            copy@ == self@,
    {
        let login = match &self.login {
            Some(login) => Some(login.clone()),
            None => None,
        };
        ActiveMqTransport {
            server: self.server.clone(),
            queue: self.queue.clone(),
            login,
            timeout: self.timeout,
        }
    }
}

impl ActiveMqTransport {
    /// Speak to the broker at `server` about `queue`, a destination as
    /// the broker names it: `/queue/orders` or `/topic/prices`.
    #[must_use]
    pub fn new(server: &str, queue: &str) -> (transport: Self)
        ensures
            transport@ == (TransportView {
                server: server@,
                queue: queue@,
                login: None,
                timeout: None,
            }),
    {
        ActiveMqTransport {
            server: server.to_owned(),
            queue: queue.to_owned(),
            login: None,
            timeout: None,
        }
    }

    /// CONNECT as this user.
    #[must_use]
    pub fn with_login(self, user: &str, password: &str) -> (transport: Self)
        ensures
            transport@ == (TransportView {
                login: Some(LoginView { user: user@, password: password@ }),
                ..self@
            }),
    {
        let mut transport = self;
        transport.login = Some(Login { user: user.to_owned(), password: password.to_owned() });
        transport
    }

    /// Give up on a broker that stops mid-frame, and stop receiving when
    /// it has been quiet this long.
    #[must_use]
    pub fn timing_out_after(self, timeout: Duration) -> (transport: Self)
        ensures
            transport@ == (TransportView { timeout: Some(timeout), ..self@ }),
    {
        let mut transport = self;
        transport.timeout = Some(timeout);
        transport
    }

    /// Both ends on this machine: an ephemeral local port, this timeout, one
    /// queue called `/queue/probe`.
    #[must_use]
    pub fn loopback(timeout: Duration) -> (transport: Self)
        ensures
            transport@ == (TransportView {
                server: "127.0.0.1:0"@,
                queue: "/queue/probe"@,
                login: None,
                timeout: Some(timeout),
            }),
    {
        Self::new("127.0.0.1:0", "/queue/probe").timing_out_after(timeout)
    }

    /// The same transport to the broker at `address`.
    #[must_use]
    pub fn at(&self, address: &str) -> (transport: Self)
        ensures
            transport@ == (TransportView { server: address@, ..self@ }),
    {
        let mut transport = self.clone();
        transport.server = address.to_owned();
        transport
    }

    /// The scheme of the URIs that name this transport.
    pub fn name(&self) -> (name: &'static str)
        ensures
            name@ == "activemq"@,
    {
        "activemq"
    }

    /// The broker it speaks to.
    pub fn server(&self) -> (server: &str)
        ensures
            server@ == self@.server,
    {
        self.server.as_str()
    }

    /// The destination it speaks about.
    pub fn queue(&self) -> (queue: &str)
        ensures
            queue@ == self@.queue,
    {
        self.queue.as_str()
    }

    /// How long it waits for a quiet broker.
    pub fn timeout(&self) -> (timeout: Option<Duration>)
        ensures
            timeout == self@.timeout,
    {
        self.timeout
    }

    /// A client of this transport's broker, and the CONNECT it opens with;
    /// `host` is the host part of the server.
    pub fn connect(&self, host: &str) -> (opened: (Client, Vec<u8>))
        ensures
            opened.0@ == (ClientView {
                server: self@.server,
                session: Seq::empty(),
                next_id: 0,
                pending: Seq::empty(),
            }),
            opened.1@ == encoded(connect_frame(host@, self@.login)),
    {
        Client::connect(self.server.as_str(), host, self.login.as_ref())
    }

    /// Accept the client at `peer` that opened with this frame, expecting
    /// this transport's login where it has one.
    ///
    /// # Errors
    /// Where the client opened neither with CONNECT nor with STOMP, or was
    /// refused.
    pub fn accept_one(&self, peer: &str, port: u16, opening: Option<Frame>) -> (accepted: (
        Vec<u8>,
        Result<Session, Error>,
    ))
        ensures
            accepted.0@ == wire(welcome(port as nat, frame_view(opening), self@.login)),
            session_result(accepted.1) == opened(peer@, frame_view(opening), self@.login),
    {
        Session::accept(peer, port, opening, self.login.as_ref())
    }

    /// The server and the destination of `target`, which names both as
    /// `named`, or does not.
    pub fn resolve_named(&self, named: Option<(String, String)>, target: &str) -> (resolved: (
        String,
        String,
    ))
        ensures
            (resolved.0@, resolved.1@) == self@.resolved_by(pair_view(named), target@),
    {
        if let Some((server, destination)) = named {
            if destination.as_str().is_empty() {
                return (server, self.queue.clone());
            }
            return (server, slashed(destination.as_str()));
        }
        match split_once(target, '/') {
            Some((server, destination)) => {
                if holds(server.as_str(), ':') {
                    return (server, slashed(destination.as_str()));
                }
                (self.server.clone(), target.to_owned())
            },
            None => (self.server.clone(), target.to_owned()),
        }
    }

    /// Where a target names the broker and destination itself
    /// (`activemq://host:61613/queue/orders`, `host:61613/queue/orders`)
    /// or is a destination alone on this transport's broker. A target with a
    /// scheme is read by [`named_target`].
    pub fn resolve(&self, target: &str) -> (resolved: (String, String))
        ensures
            (resolved.0@, resolved.1@) == self@.resolved(target@),
    {
        self.resolve_named(named_target("activemq", target), target)
    }
}

/// What waiting for the next message gave.
#[derive(Clone, Debug, PartialEq, Eq)]
pub enum Waited {
    /// This message.
    Message(Message),
    /// A broker that closed.
    Closed,
    /// A failure: a quiet broker, where it may be tried again.
    Failed { retryable: bool },
}

/// What a receiver does next.
#[derive(Clone, Debug, PartialEq, Eq)]
pub enum Next {
    /// Acknowledge the message delivered under this id, and wait again.
    Ack(String),
    /// Stop, with what has arrived.
    Stop,
    /// Disconnect, then stop with what has arrived.
    Leave,
    /// Stop with the failure.
    Fail,
}

/// A [`Waited`] by what it says.
pub enum WaitedView {
    Message(MessageView),
    Closed,
    Failed { retryable: bool },
}

/// A [`Next`] by what it says.
pub enum NextView {
    Ack(Seq<char>),
    Stop,
    Leave,
    Fail,
}

impl View for Waited {
    type V = WaitedView;

    open spec fn view(&self) -> WaitedView {
        match *self {
            Waited::Message(message) => WaitedView::Message(message@),
            Waited::Closed => WaitedView::Closed,
            Waited::Failed { retryable } => WaitedView::Failed { retryable },
        }
    }
}

impl View for Next {
    type V = NextView;

    open spec fn view(&self) -> NextView {
        match *self {
            Next::Ack(ack) => NextView::Ack(ack@),
            Next::Stop => NextView::Stop,
            Next::Leave => NextView::Leave,
            Next::Fail => NextView::Fail,
        }
    }
}

/// What a receiver does next.
pub open spec fn next_of(waited: WaitedView) -> NextView {
    match waited {
        WaitedView::Message(message) => NextView::Ack(message.ack),
        WaitedView::Closed => NextView::Stop,
        WaitedView::Failed { retryable } => if retryable {
            NextView::Leave
        } else {
            NextView::Fail
        },
    }
}

/// What has arrived, one message later or not.
pub open spec fn arrived_after(arrived: Seq<ArrivedView>, waited: WaitedView) -> Seq<ArrivedView> {
    match waited {
        WaitedView::Message(message) => arrived.push(message.arrived),
        _ => arrived,
    }
}

/// Streams by what they say.
pub open spec fn arrivals_view(arrived: Seq<Arrived>) -> Seq<ArrivedView> {
    arrived.map_values(|one: Arrived| one@)
}

/// Takes what the broker delivers, each acknowledged, until it has been
/// quiet for the timeout or closes. A quiet queue is nothing at all, not an
/// error.
pub struct Receiving {
    arrived: Vec<Arrived>,
}

impl View for Receiving {
    type V = Seq<ArrivedView>;

    closed spec fn view(&self) -> Seq<ArrivedView> {
        arrivals_view(self.arrived@)
    }
}

impl Receiving {
    /// Nothing yet.
    pub fn new() -> (receiving: Self)
        ensures
            receiving@ == Seq::<ArrivedView>::empty(),
    {
        let receiving = Receiving { arrived: Vec::new() };
        assert(receiving@ =~= Seq::<ArrivedView>::empty());
        receiving
    }

    /// What to do about what waiting gave.
    pub fn receive(&mut self, waited: Waited) -> (next: Next)
        ensures
            final(self)@ == arrived_after(old(self)@, waited@),
            next@ == next_of(waited@),
    {
        match waited {
            Waited::Message(message) => {
                self.arrived.push(message.arrived);
                assert(self@ =~= old(self)@.push(message.arrived@));
                Next::Ack(message.ack)
            },
            Waited::Closed => Next::Stop,
            Waited::Failed { retryable } => if retryable {
                Next::Leave
            } else {
                Next::Fail
            },
        }
    }

    /// What has arrived, in order.
    pub fn into_arrived(self) -> (arrived: Vec<Arrived>)
        ensures
            arrivals_view(arrived@) == self@,
    {
        self.arrived
    }
}

/// The one Stream a far end waits for, out of the first SEND it was given.
///
/// # Errors
/// Where the client disconnected without sending.
pub fn take_one(first: Option<Arrived>) -> (result: Result<Arrived, Error>)
    ensures
        match first {
            Some(arrived) => result == Ok::<Arrived, Error>(arrived),
            None => result is Err && result->Err_0@ == ErrorView::NothingSent,
        },
{
    match first {
        Some(arrived) => Ok(arrived),
        None => Err(Error::NothingSent),
    }
}

} // verus!
