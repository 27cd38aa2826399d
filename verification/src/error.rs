//! What can be wrong with what the other side sent.

use vstd::prelude::*;

verus! {

/// A failure of the conversation itself, whichever side it is seen from.
#[derive(Clone, Debug, PartialEq, Eq)]
pub enum Error {
    /// The bytes end before the headers do.
    EndsInHeaders,
    /// A header line, this one, without a colon.
    NoColon(String),
    /// A line that is not UTF-8.
    NotUtf8,
    /// A backslash before a character that STOMP gives no meaning.
    UndefinedEscape(char),
    /// A `content-length`, this one, that is not a number.
    BadLength(String),
    /// A body over what is read, or said to be.
    TooLong,
    /// The bytes end before a body of stated length does.
    CutShort,
    /// A body of stated length without the NUL after it.
    NoNulAfterBody,
    /// A body without stated length and without a NUL.
    EndsBeforeNul,
    /// The client opened with neither CONNECT nor STOMP, or not at all.
    NotConnect,
    /// The client was answered ERROR with this message.
    ClientRefused(String),
    /// A client sent this command, which no client sends.
    FromClient(String),
    /// The client went without a SEND.
    NothingSent,
    /// The server answered CONNECT with this command.
    AnsweredConnect(String),
    /// The server closed where it owed CONNECTED.
    ClosedOnConnect,
    /// The broker closed where it owed a RECEIPT.
    ClosedBeforeReceipt,
    /// The broker answered ERROR.
    Refused { message: String, detail: String },
}

/// An [`Error`] by the characters it carries.
pub enum ErrorView {
    EndsInHeaders,
    NoColon(Seq<char>),
    NotUtf8,
    UndefinedEscape(char),
    BadLength(Seq<char>),
    TooLong,
    CutShort,
    NoNulAfterBody,
    EndsBeforeNul,
    NotConnect,
    ClientRefused(Seq<char>),
    FromClient(Seq<char>),
    NothingSent,
    AnsweredConnect(Seq<char>),
    ClosedOnConnect,
    ClosedBeforeReceipt,
    Refused { message: Seq<char>, detail: Seq<char> },
}

impl View for Error {
    type V = ErrorView;

    open spec fn view(&self) -> ErrorView {
        match *self {
            Error::EndsInHeaders => ErrorView::EndsInHeaders,
            Error::NoColon(line) => ErrorView::NoColon(line@),
            Error::NotUtf8 => ErrorView::NotUtf8,
            Error::UndefinedEscape(c) => ErrorView::UndefinedEscape(c),
            Error::BadLength(length) => ErrorView::BadLength(length@),
            Error::TooLong => ErrorView::TooLong,
            Error::CutShort => ErrorView::CutShort,
            Error::NoNulAfterBody => ErrorView::NoNulAfterBody,
            Error::EndsBeforeNul => ErrorView::EndsBeforeNul,
            Error::NotConnect => ErrorView::NotConnect,
            Error::ClientRefused(message) => ErrorView::ClientRefused(message@),
            Error::FromClient(command) => ErrorView::FromClient(command@),
            Error::NothingSent => ErrorView::NothingSent,
            Error::AnsweredConnect(command) => ErrorView::AnsweredConnect(command@),
            Error::ClosedOnConnect => ErrorView::ClosedOnConnect,
            Error::ClosedBeforeReceipt => ErrorView::ClosedBeforeReceipt,
            Error::Refused { message, detail } => ErrorView::Refused {
                message: message@,
                detail: detail@,
            },
        }
    }
}

impl ErrorView {
    /// The sentence a person reads.
    pub open spec fn message(self) -> Seq<char> {
        match self {
            ErrorView::EndsInHeaders => "a frame that ends in its headers"@,
            ErrorView::NoColon(line) => "a header line without a colon: "@ + line,
            ErrorView::NotUtf8 => "a frame line that is not UTF-8"@,
            ErrorView::UndefinedEscape(c) => "an escape STOMP does not define: \\"@.push(c),
            ErrorView::BadLength(length) => "a content-length that is not a number: "@ + length,
            ErrorView::TooLong => "a body over what Xmip will read"@,
            ErrorView::CutShort => "a frame that ends in its body"@,
            ErrorView::NoNulAfterBody => "a body not followed by NUL"@,
            ErrorView::EndsBeforeNul => "a frame that ends before its NUL"@,
            ErrorView::NotConnect => "the client did not open with CONNECT"@,
            ErrorView::ClientRefused(message) => "the client was refused: "@ + message,
            ErrorView::FromClient(command) => command + " from a client"@,
            ErrorView::NothingSent => "the client disconnected without sending"@,
            ErrorView::AnsweredConnect(command) => "the server answered CONNECT with "@ + command,
            ErrorView::ClosedOnConnect => "the server closed on CONNECT"@,
            ErrorView::ClosedBeforeReceipt => "the broker closed before the receipt"@,
            ErrorView::Refused { message, detail } => "the broker answered ERROR: "@ + message
                + " "@ + detail,
        }
    }

    /// Whether the same exchange may go well another time: a connection that
    /// went away may come back, while what was said will be said again. This
    /// is the library's own reading of a body cut short; how a failure of the
    /// connection itself is classed is for whoever holds the connection.
    pub open spec fn retryable(self) -> bool {
        self is CutShort
    }
}

fn joined(left: &str, right: &str) -> (text: String)
    ensures
        text@ == left@ + right@,
{
    let mut text = left.to_owned();
    text.push_str(right);
    text
}

impl Error {
    /// The sentence a person reads.
    pub fn message(&self) -> (text: String)
        ensures
            text@ == self@.message(),
    {
        match self {
            Error::EndsInHeaders => "a frame that ends in its headers".to_owned(),
            Error::NoColon(line) => joined("a header line without a colon: ", line.as_str()),
            Error::NotUtf8 => "a frame line that is not UTF-8".to_owned(),
            Error::UndefinedEscape(c) => {
                let mut text = "an escape STOMP does not define: \\".to_owned();
                text.push(*c);
                text
            },
            Error::BadLength(length) => joined(
                "a content-length that is not a number: ",
                length.as_str(),
            ),
            Error::TooLong => "a body over what Xmip will read".to_owned(),
            Error::CutShort => "a frame that ends in its body".to_owned(),
            Error::NoNulAfterBody => "a body not followed by NUL".to_owned(),
            Error::EndsBeforeNul => "a frame that ends before its NUL".to_owned(),
            Error::NotConnect => "the client did not open with CONNECT".to_owned(),
            Error::ClientRefused(message) => joined("the client was refused: ", message.as_str()),
            Error::FromClient(command) => joined(command.as_str(), " from a client"),
            Error::NothingSent => "the client disconnected without sending".to_owned(),
            Error::AnsweredConnect(command) => joined(
                "the server answered CONNECT with ",
                command.as_str(),
            ),
            Error::ClosedOnConnect => "the server closed on CONNECT".to_owned(),
            Error::ClosedBeforeReceipt => "the broker closed before the receipt".to_owned(),
            Error::Refused { message, detail } => {
                let mut text = joined("the broker answered ERROR: ", message.as_str());
                text.push_str(" ");
                text.push_str(detail.as_str());
                text
            },
        }
    }

    /// Whether the same exchange may go well another time.
    pub fn retryable(&self) -> (yes: bool)
        ensures
            yes == self@.retryable(),
    {
        match self {
            Error::CutShort => true,
            _ => false,
        }
    }
}

} // verus!
