//! The client's side of one connection to a broker.
//!
//! A client reads no socket and writes none: what it has to say it gives
//! back as bytes to be written, and what the broker said it is given as
//! frames.

use std::collections::VecDeque;

use vstd::prelude::*;
use vstd::utf8::{decode_utf8, valid_utf8};

use crate::arrived::{origin, origin_of, Arrived, ArrivedView};
use crate::error::{Error, ErrorView};
use crate::frame::{encode, encoded, frame_view, Frame, FrameView};
use crate::login::{login_ref_view, Login, LoginView};
use crate::text::{decimal, decimal_of, same, trim, trimmed};
use crate::turn::{turn_result, Turn};

verus! {

/// One MESSAGE as the broker delivered it: the Stream, and the id to
/// acknowledge it by.
#[derive(Clone, Debug, PartialEq, Eq)]
pub struct Message {
    pub arrived: Arrived,
    pub ack: String,
}

/// A [`Message`] by what it says.
pub struct MessageView {
    pub arrived: ArrivedView,
    pub ack: Seq<char>,
}

impl View for Message {
    type V = MessageView;

    open spec fn view(&self) -> MessageView {
        MessageView { arrived: self.arrived@, ack: self.ack@ }
    }
}

/// A [`Client`] by what it holds.
#[verifier::ext_equal]
pub struct ClientView {
    /// The server it speaks to.
    pub server: Seq<char>,
    /// The session the broker named, or nothing.
    pub session: Seq<char>,
    /// How many ids it has given out.
    pub next_id: nat,
    /// The frames kept while a receipt was awaited, the oldest first.
    pub pending: Seq<FrameView>,
}

/// Frames by what they say.
pub open spec fn frames_view(frames: Seq<Frame>) -> Seq<FrameView> {
    frames.map_values(|frame: Frame| frame@)
}

/// The CONNECT for a broker on `host`.
pub open spec fn connect_frame(host: Seq<char>, login: Option<LoginView>) -> FrameView {
    let connect = FrameView::new("CONNECT"@).with_header("accept-version"@, "1.2"@).with_header(
        "host"@,
        host,
    ).with_header("heart-beat"@, "0,0"@);
    match login {
        Some(login) => connect.with_header("login"@, login.user).with_header(
            "passcode"@,
            login.password,
        ),
        None => connect,
    }
}

/// The SEND of `body` to `destination`, to be receipted under `receipt`.
pub open spec fn send_frame(
    destination: Seq<char>,
    receipt: Seq<char>,
    body: Seq<u8>,
) -> FrameView {
    FrameView::new("SEND"@).with_header("destination"@, destination).with_header(
        "receipt"@,
        receipt,
    ).with_header("content-type"@, "application/octet-stream"@).with_body(body)
}

/// The SUBSCRIBE to `destination` under `id`.
pub open spec fn subscribe_frame(id: Seq<char>, destination: Seq<char>) -> FrameView {
    FrameView::new("SUBSCRIBE"@).with_header("id"@, id).with_header(
        "destination"@,
        destination,
    ).with_header("ack"@, "client-individual"@)
}

/// The ACK of the message delivered under `ack`.
pub open spec fn ack_frame(ack: Seq<char>) -> FrameView {
    FrameView::new("ACK"@).with_header("id"@, ack)
}

/// The DISCONNECT to be receipted under `receipt`.
pub open spec fn disconnect_frame(receipt: Seq<char>) -> FrameView {
    FrameView::new("DISCONNECT"@).with_header("receipt"@, receipt)
}

/// The message that a MESSAGE from `server` is.
pub open spec fn message_of(server: Seq<char>, frame: FrameView) -> MessageView {
    let id = frame.header_or_empty("message-id"@);
    MessageView {
        arrived: ArrivedView {
            origin_uri: origin(server, frame.header_or_empty("destination"@)) + "?message-id="@
                + id,
            bytes: frame.body,
        },
        ack: match frame.header("ack"@) {
            Some(ack) => ack,
            None => id,
        },
    }
}

/// What the standard library reads where bytes may not be UTF-8.
pub uninterp spec fn lossy_text(bytes: Seq<u8>) -> Seq<char>;

/// `String::from_utf8_lossy` of the standard library: what `bytes` encode,
/// where they are UTF-8. Which characters stand in for bytes that are not is
/// left to `lossy_text`, a function of the bytes alone.
#[verifier::external_body]
fn read_lossy(bytes: &[u8]) -> (text: String)
    ensures
        text@ == lossy_text(bytes@),
        valid_utf8(bytes@) ==> text@ == decode_utf8(bytes@),
{
    String::from_utf8_lossy(bytes).into_owned()
}

/// An ERROR whose body reads as `detail`, as the failure it is.
pub open spec fn refusal_error(frame: FrameView, detail: Seq<char>) -> ErrorView {
    ErrorView::Refused {
        message: match frame.header("message"@) {
            Some(message) => message,
            None => "no message"@,
        },
        detail: trimmed(detail),
    }
}

/// An ERROR as the failure it is.
pub open spec fn refused_error(frame: FrameView) -> ErrorView {
    refusal_error(frame, lossy_text(frame.body))
}

/// The failure that an ERROR is, where its body is UTF-8 and says what it
/// says.
pub open spec fn plain_refusal(frame: Option<FrameView>) -> Option<ErrorView> {
    match frame {
        Some(frame) => if frame.command == "ERROR"@ && valid_utf8(frame.body) {
            Some(refusal_error(frame, decode_utf8(frame.body)))
        } else {
            None
        },
        None => None,
    }
}

/// An ERROR whose body reads as `detail`, as the failure it is.
pub fn refused_with(frame: &Frame, detail: &str) -> (error: Error)
    ensures
        error@ == refusal_error(frame@, detail@),
{
    let message = match frame.header("message") {
        Some(message) => message.to_owned(),
        None => "no message".to_owned(),
    };
    Error::Refused { message, detail: trim(detail) }
}

/// An ERROR frame as the failure it is: the broker said no, and will
/// again.
fn refused(frame: &Frame) -> (error: Error)
    ensures
        error@ == refused_error(frame@),
        valid_utf8(frame@.body) ==> error@ == refusal_error(frame@, decode_utf8(frame@.body)),
{
    let detail = read_lossy(frame.body.as_slice());
    refused_with(frame, detail.as_str())
}

/// The commands of a broker, told apart.
proof fn lemma_answers()
    ensures
        "ERROR"@ != "CONNECTED"@,
        "ERROR"@ != "MESSAGE"@,
        "ERROR"@ != "RECEIPT"@,
        "RECEIPT"@ != "MESSAGE"@,
{
    reveal_strlit("ERROR");
    reveal_strlit("CONNECTED");
    reveal_strlit("MESSAGE");
    reveal_strlit("RECEIPT");
    assert("ERROR"@[0] == 'E' && "CONNECTED"@[0] == 'C');
    assert("MESSAGE"@[0] == 'M' && "RECEIPT"@[0] == 'R');
}

/// What the answer to CONNECT says: the session the broker named.
pub open spec fn connect_answer(answer: Option<FrameView>) -> Result<Seq<char>, ErrorView> {
    match answer {
        Some(frame) => if frame.command == "CONNECTED"@ {
            Ok(frame.header_or_empty("session"@))
        } else if frame.command == "ERROR"@ {
            Err(refused_error(frame))
        } else {
            Err(ErrorView::AnsweredConnect(frame.command))
        },
        None => Err(ErrorView::ClosedOnConnect),
    }
}

/// What a frame is to one who waits for a message.
pub open spec fn message_turn(server: Seq<char>, frame: Option<FrameView>) -> Result<
    Turn<MessageView>,
    ErrorView,
> {
    match frame {
        Some(frame) => if frame.command == "MESSAGE"@ {
            Ok(Turn::Took(message_of(server, frame)))
        } else if frame.command == "ERROR"@ {
            Err(refused_error(frame))
        } else {
            Ok(Turn::Again)
        },
        None => Ok(Turn::Closed),
    }
}

/// What a frame is to one who waits for the RECEIPT of `receipt`: whether it
/// has come.
pub open spec fn receipt_turn(receipt: Seq<char>, frame: Option<FrameView>) -> Result<
    bool,
    ErrorView,
> {
    match frame {
        Some(frame) => if frame.command == "RECEIPT"@ {
            Ok(frame.header("receipt-id"@) == Some(receipt))
        } else if frame.command == "ERROR"@ {
            Err(refused_error(frame))
        } else {
            Ok(false)
        },
        None => Err(ErrorView::ClosedBeforeReceipt),
    }
}

impl ClientView {
    /// The client with one more id given out.
    pub open spec fn numbered(self) -> ClientView {
        ClientView { next_id: self.next_id + 1, ..self }
    }

    /// The id that is given out next.
    pub open spec fn id(self) -> Seq<char> {
        decimal(self.next_id + 1)
    }

    /// The client after a frame that came while a receipt was awaited: a
    /// MESSAGE is kept.
    pub open spec fn keeping(self, frame: Option<FrameView>) -> ClientView {
        match frame {
            Some(frame) => if frame.command == "MESSAGE"@ {
                ClientView { pending: self.pending.push(frame), ..self }
            } else {
                self
            },
            None => self,
        }
    }
}

/// One client: sends, subscribes, takes what the broker sends.
pub struct Client {
    server: String,
    session: String,
    next_id: u64,
    pending: VecDeque<Frame>,
}

impl View for Client {
    type V = ClientView;

    closed spec fn view(&self) -> ClientView {
        ClientView {
            server: self.server@,
            session: self.session@,
            next_id: self.next_id as nat,
            pending: frames_view(self.pending@),
        }
    }
}

impl Client {
    /// A client of `server`, and the CONNECT it opens with: STOMP 1.2 to the
    /// broker on `host`, the host part of `server`.
    pub fn connect(server: &str, host: &str, login: Option<&Login>) -> (opened: (Self, Vec<u8>))
        ensures
            opened.0@ == (ClientView {
                server: server@,
                session: Seq::empty(),
                next_id: 0,
                pending: Seq::empty(),
            }),
            opened.1@ == encoded(connect_frame(host@, login_ref_view(login))),
    {
        let client = Client {
            server: server.to_owned(),
            session: String::new(),
            next_id: 0,
            pending: VecDeque::new(),
        };
        assert(client@.pending =~= Seq::empty());
        let mut connect = Frame::new("CONNECT").with_header("accept-version", "1.2").with_header(
            "host",
            host,
        ).with_header("heart-beat", "0,0");
        if let Some(login) = login {
            connect = connect.with_header("login", login.user.as_str()).with_header(
                "passcode",
                login.password.as_str(),
            );
        }
        (client, encode(&connect))
    }

    /// Take the answer to CONNECT, or `None` where the server closed.
    ///
    /// # Errors
    /// Where the server refused the login, or did not answer with CONNECTED.
    pub fn connected(&mut self, answer: Option<Frame>) -> (result: Result<(), Error>)
        ensures
            match connect_answer(frame_view(answer)) {
                Ok(session) => result is Ok && final(self)@ == (ClientView {
                    session,
                    ..old(self)@
                }),
                Err(error) => result is Err && result->Err_0@ == error && final(self)@
                    == old(self)@,
            },
            plain_refusal(frame_view(answer)) matches Some(error) ==> result is Err
                && result->Err_0@ == error,
    {
        proof {
            lemma_answers();
        }
        match answer {
            Some(frame) => {
                if same(frame.command.as_str(), "CONNECTED") {
                    self.session = frame.header_or_empty("session");
                    Ok(())
                } else if same(frame.command.as_str(), "ERROR") {
                    Err(refused(&frame))
                } else {
                    Err(Error::AnsweredConnect(frame.command))
                }
            },
            None => Err(Error::ClosedOnConnect),
        }
    }

    /// The session the broker named in CONNECTED, or empty.
    #[must_use]
    pub fn session(&self) -> (session: &str)
        ensures
            session@ == self@.session,
    {
        self.session.as_str()
    }

    /// Whether there is an id left to give out.
    pub fn has_id(&self) -> (yes: bool)
        ensures
            yes == (self@.next_id < u64::MAX),
    {
        self.next_id < u64::MAX
    }

    /// The next id.
    fn next_id(&mut self) -> (id: String)
        requires
            old(self)@.next_id < u64::MAX,
        ensures
            final(self)@ == old(self)@.numbered(),
            id@ == old(self)@.id(),
    {
        self.next_id = self.next_id + 1;
        decimal_of(self.next_id)
    }

    /// SEND `bytes` to `destination`: the receipt to await, which says that
    /// the broker has it, and the bytes to write.
    pub fn send(&mut self, destination: &str, bytes: &[u8]) -> (asked: (String, Vec<u8>))
        requires
            old(self)@.next_id < u64::MAX,
        ensures
            final(self)@ == old(self)@.numbered(),
            asked.0@ == old(self)@.id(),
            asked.1@ == encoded(send_frame(destination@, old(self)@.id(), bytes@)),
    {
        let receipt = self.next_id();
        let frame = Frame::new("SEND").with_header("destination", destination).with_header(
            "receipt",
            receipt.as_str(),
        ).with_header("content-type", "application/octet-stream").with_body(bytes);
        (receipt, encode(&frame))
    }

    /// SUBSCRIBE to `destination` with client-individual acknowledgement:
    /// the id that names the subscription, and the bytes to write.
    pub fn subscribe(&mut self, destination: &str) -> (asked: (String, Vec<u8>))
        requires
            old(self)@.next_id < u64::MAX,
        ensures
            final(self)@ == old(self)@.numbered(),
            asked.0@ == old(self)@.id(),
            asked.1@ == encoded(subscribe_frame(old(self)@.id(), destination@)),
    {
        let id = self.next_id();
        let frame = Frame::new("SUBSCRIBE").with_header("id", id.as_str()).with_header(
            "destination",
            destination,
        ).with_header("ack", "client-individual");
        (id, encode(&frame))
    }

    /// ACK the message delivered under `ack`: the bytes to write.
    pub fn ack(&self, ack: &str) -> (out: Vec<u8>)
        ensures
            out@ == encoded(ack_frame(ack@)),
    {
        encode(&Frame::new("ACK").with_header("id", ack))
    }

    /// DISCONNECT: the receipt to await, and the bytes to write.
    pub fn disconnect(&mut self) -> (asked: (String, Vec<u8>))
        requires
            old(self)@.next_id < u64::MAX,
        ensures
            final(self)@ == old(self)@.numbered(),
            asked.0@ == old(self)@.id(),
            asked.1@ == encoded(disconnect_frame(old(self)@.id())),
    {
        let receipt = self.next_id();
        let frame = Frame::new("DISCONNECT").with_header("receipt", receipt.as_str());
        (receipt, encode(&frame))
    }

    /// The oldest frame kept while a receipt was awaited, kept no longer: it
    /// goes before any that is read.
    pub fn take_pending(&mut self) -> (frame: Option<Frame>)
        ensures
            match frame {
                Some(frame) => old(self)@.pending.len() > 0 && frame@ == old(self)@.pending[0]
                    && final(self)@ == (ClientView {
                    pending: old(self)@.pending.drop_first(),
                    ..old(self)@
                }),
                None => old(self)@.pending.len() == 0 && final(self)@ == old(self)@,
            },
    {
        let frame = self.pending.pop_front();
        assert(frame is Some ==> self@.pending =~= old(self)@.pending.drop_first());
        frame
    }

    /// The MESSAGE that this frame is, where it is one. `None` is a broker
    /// that closed.
    ///
    /// # Errors
    /// Where the broker sent ERROR.
    pub fn next_message(&self, frame: Option<Frame>) -> (result: Result<Turn<Message>, Error>)
        ensures
            turn_result(result) == message_turn(self@.server, frame_view(frame)),
            plain_refusal(frame_view(frame)) matches Some(error) ==> result is Err
                && result->Err_0@ == error,
    {
        proof {
            lemma_answers();
        }
        match frame {
            Some(frame) => {
                if same(frame.command.as_str(), "MESSAGE") {
                    Ok(Turn::Took(self.message(frame)))
                } else if same(frame.command.as_str(), "ERROR") {
                    Err(refused(&frame))
                } else {
                    Ok(Turn::Again)
                }
            },
            None => Ok(Turn::Closed),
        }
    }

    /// The message that a MESSAGE is.
    fn message(&self, frame: Frame) -> (message: Message)
        ensures
            message@ == message_of(self@.server, frame@),
    {
        let destination = frame.header_or_empty("destination");
        let id = frame.header_or_empty("message-id");
        let ack = match frame.header("ack") {
            Some(ack) => ack.to_owned(),
            None => id.clone(),
        };
        let mut origin_uri = origin_of(self.server.as_str(), destination.as_str());
        origin_uri.push_str("?message-id=");
        origin_uri.push_str(id.as_str());
        Message { arrived: Arrived { origin_uri, bytes: frame.body }, ack }
    }

    /// Whether this frame is the RECEIPT for `receipt`; a MESSAGE that comes
    /// in its place is kept. `None` is a broker that closed.
    ///
    /// # Errors
    /// Where the broker closed or sent ERROR.
    pub fn await_receipt(&mut self, receipt: &str, frame: Option<Frame>) -> (result: Result<
        bool,
        Error,
    >)
        ensures
            final(self)@ == old(self)@.keeping(frame_view(frame)),
            match receipt_turn(receipt@, frame_view(frame)) {
                Ok(come) => result == Ok::<bool, Error>(come),
                Err(error) => result is Err && result->Err_0@ == error,
            },
            plain_refusal(frame_view(frame)) matches Some(error) ==> result is Err
                && result->Err_0@ == error,
    {
        proof {
            lemma_answers();
        }
        match frame {
            Some(frame) => {
                if same(frame.command.as_str(), "RECEIPT") {
                    match frame.header("receipt-id") {
                        Some(id) => Ok(same(id, receipt)),
                        None => Ok(false),
                    }
                } else if same(frame.command.as_str(), "ERROR") {
                    Err(refused(&frame))
                } else if same(frame.command.as_str(), "MESSAGE") {
                    self.pending.push_back(frame);
                    assert(self@.pending =~= old(self)@.pending.push(frame@));
                    Ok(false)
                } else {
                    Ok(false)
                }
            },
            None => Err(Error::ClosedBeforeReceipt),
        }
    }
}

} // verus!
