//! What a value shows of itself: everything it holds, and as it holds it.

use vstd::prelude::*;

use crate::arrived::Arrived;
use crate::client::{frames_view, Message};
use crate::error::{Error, ErrorView};
use crate::frame::{frame_view, headers_view, string_result, text_view, Frame, FrameView};
use crate::login::{login_ref_view, login_view, Login};
use crate::queues::{bodies_view, destinations_view};
use crate::reading::{read_result, step_result, Reading, Step, StepView};
use crate::session::{session_result, Event, EventView, Session, SessionView};
use crate::text::pair_view;
use crate::transport::{arrivals_view, Next, NextView, Waited, WaitedView};
use crate::turn::{turn_result, Turn};

verus! {

/// A frame shows its command, its headers one by one and its body.
pub proof fn law_a_frame_shows_what_it_holds(frame: Frame, i: int)
    ensures
        frame@.command == frame.command@,
        frame@.body == frame.body@,
        frame@.headers.len() == frame.headers@.len(),
        0 <= i < frame.headers@.len() ==> frame@.headers[i] == (
            frame.headers@[i].0@,
            frame.headers@[i].1@,
        ),
        frame@.headers == headers_view(frame.headers@),
        frame_view(Some(frame)) == Some(frame@),
        frame_view(None) is None,
{
}

/// A Stream, a message and a login show what they hold.
pub proof fn law_streams_and_logins_show_what_they_hold(
    arrived: Arrived,
    message: Message,
    login: Login,
)
    ensures
        arrived@.origin_uri == arrived.origin_uri@,
        arrived@.bytes == arrived.bytes@,
        message@.arrived == message.arrived@,
        message@.ack == message.ack@,
        login@.user == login.user@,
        login@.password == login.password@,
        login_view(Some(login)) == Some(login@),
        login_view(None) is None,
        login_ref_view(Some(&login)) == Some(login@),
        login_ref_view(None) is None,
{
}

/// An event shows what happened and to what.
pub proof fn law_an_event_shows_what_happened(
    arrived: Arrived,
    id: String,
    destination: String,
    event: Event,
    error: Error,
)
    ensures
        Event::Sent(arrived)@ == EventView::Sent(arrived@),
        (Event::Subscribed { id, destination })@ == (EventView::Subscribed {
            id: id@,
            destination: destination@,
        }),
        Event::Unsubscribed(id)@ == EventView::Unsubscribed(id@),
        Event::Acked(id)@ == EventView::Acked(id@),
        turn_result(Ok::<Turn<Event>, Error>(Turn::Took(event))) == Ok::<
            Turn<EventView>,
            ErrorView,
        >(Turn::Took(event@)),
        turn_result(Ok::<Turn<Event>, Error>(Turn::Closed)) == Ok::<Turn<EventView>, ErrorView>(
            Turn::Closed,
        ),
        turn_result(Ok::<Turn<Event>, Error>(Turn::Again)) == Ok::<Turn<EventView>, ErrorView>(
            Turn::Again,
        ),
        turn_result(Err::<Turn<Event>, Error>(error)) == Err::<Turn<EventView>, ErrorView>(error@),
{
}

/// A failure shows what it is and what it names.
pub proof fn law_a_failure_shows_what_it_names(text: String, detail: String, c: char)
    ensures
        Error::EndsInHeaders@ == ErrorView::EndsInHeaders,
        Error::NoColon(text)@ == ErrorView::NoColon(text@),
        Error::NotUtf8@ == ErrorView::NotUtf8,
        Error::UndefinedEscape(c)@ == ErrorView::UndefinedEscape(c),
        Error::BadLength(text)@ == ErrorView::BadLength(text@),
        Error::TooLong@ == ErrorView::TooLong,
        Error::CutShort@ == ErrorView::CutShort,
        Error::NoNulAfterBody@ == ErrorView::NoNulAfterBody,
        Error::EndsBeforeNul@ == ErrorView::EndsBeforeNul,
        Error::NotConnect@ == ErrorView::NotConnect,
        Error::ClientRefused(text)@ == ErrorView::ClientRefused(text@),
        Error::FromClient(text)@ == ErrorView::FromClient(text@),
        Error::NothingSent@ == ErrorView::NothingSent,
        Error::AnsweredConnect(text)@ == ErrorView::AnsweredConnect(text@),
        Error::ClosedOnConnect@ == ErrorView::ClosedOnConnect,
        Error::ClosedBeforeReceipt@ == ErrorView::ClosedBeforeReceipt,
        (Error::Refused { message: text, detail })@ == (ErrorView::Refused {
            message: text@,
            detail: detail@,
        }),
{
}

/// A failure reads as a sentence that names what it names, and none but a
/// body cut short may go well another time.
pub proof fn law_a_failure_reads_as_its_sentence(
    text: Seq<char>,
    detail: Seq<char>,
    c: char,
    error: ErrorView,
)
    ensures
        ErrorView::EndsInHeaders.message() == "a frame that ends in its headers"@,
        ErrorView::NoColon(text).message() == "a header line without a colon: "@ + text,
        ErrorView::NotUtf8.message() == "a frame line that is not UTF-8"@,
        ErrorView::UndefinedEscape(c).message() == "an escape STOMP does not define: \\"@ + seq![c],
        ErrorView::BadLength(text).message() == "a content-length that is not a number: "@ + text,
        ErrorView::TooLong.message() == "a body over what Xmip will read"@,
        ErrorView::CutShort.message() == "a frame that ends in its body"@,
        ErrorView::NoNulAfterBody.message() == "a body not followed by NUL"@,
        ErrorView::EndsBeforeNul.message() == "a frame that ends before its NUL"@,
        ErrorView::NotConnect.message() == "the client did not open with CONNECT"@,
        ErrorView::ClientRefused(text).message() == "the client was refused: "@ + text,
        ErrorView::FromClient(text).message() == text + " from a client"@,
        ErrorView::NothingSent.message() == "the client disconnected without sending"@,
        ErrorView::AnsweredConnect(text).message() == "the server answered CONNECT with "@ + text,
        ErrorView::ClosedOnConnect.message() == "the server closed on CONNECT"@,
        ErrorView::ClosedBeforeReceipt.message() == "the broker closed before the receipt"@,
        (ErrorView::Refused { message: text, detail }).message() == "the broker answered ERROR: "@
            + text + " "@ + detail,
        error.retryable() <==> error == ErrorView::CutShort,
{
    assert("an escape STOMP does not define: \\"@.push(c)
        =~= "an escape STOMP does not define: \\"@ + seq![c]);
}

/// What waiting gave, and what is done about it, show what they are.
pub proof fn law_waiting_shows_what_it_gave(message: Message, text: String, retryable: bool)
    ensures
        Waited::Message(message)@ == WaitedView::Message(message@),
        Waited::Closed@ == WaitedView::Closed,
        (Waited::Failed { retryable })@ == (WaitedView::Failed { retryable }),
        Next::Ack(text)@ == NextView::Ack(text@),
        Next::Stop@ == NextView::Stop,
        Next::Leave@ == NextView::Leave,
        Next::Fail@ == NextView::Fail,
{
}

/// Results and lists show what they hold, one for one.
pub proof fn law_results_show_what_they_hold(
    text: String,
    other: String,
    shown: &str,
    frame: Frame,
    reading: Reading,
    step: Step,
    error: Error,
    bodies: Seq<Vec<u8>>,
    streams: Seq<Arrived>,
    frames: Seq<Frame>,
    destinations: Seq<String>,
    i: int,
)
    ensures
        string_result(Ok::<String, Error>(text)) == Ok::<Seq<char>, ErrorView>(text@),
        string_result(Err::<String, Error>(error)) == Err::<Seq<char>, ErrorView>(error@),
        pair_view(Some((text, other))) == Some((text@, other@)),
        pair_view(None) is None,
        text_view(Some(shown)) == Some(shown@),
        text_view(None) is None,
        read_result(Ok::<Option<Frame>, Error>(Some(frame))) == Ok::<
            Option<FrameView>,
            ErrorView,
        >(Some(frame@)),
        read_result(Ok::<Option<Frame>, Error>(None)) == Ok::<
            Option<FrameView>,
            ErrorView,
        >(None),
        read_result(Err::<Option<Frame>, Error>(error)) == Err::<
            Option<FrameView>,
            ErrorView,
        >(error@),
        Step::More(reading)@ == StepView::More(reading@),
        Step::Whole(frame)@ == StepView::Whole(frame@),
        Step::Closed@ == StepView::Closed,
        step_result(Ok::<Step, Error>(step)) == Ok::<StepView, ErrorView>(step@),
        step_result(Err::<Step, Error>(error)) == Err::<StepView, ErrorView>(error@),
        bodies_view(bodies).len() == bodies.len(),
        0 <= i < bodies.len() ==> bodies_view(bodies)[i] == bodies[i]@,
        arrivals_view(streams).len() == streams.len(),
        0 <= i < streams.len() ==> arrivals_view(streams)[i] == streams[i]@,
        frames_view(frames).len() == frames.len(),
        0 <= i < frames.len() ==> frames_view(frames)[i] == frames[i]@,
        destinations_view(destinations).len() == destinations.len(),
        0 <= i < destinations.len() ==> destinations_view(destinations)[i] == destinations[i]@,
{
}

/// A session that came of a client, or the failure, shows itself.
pub proof fn law_an_accepted_session_shows_itself(session: Session, error: Error)
    ensures
        session_result(Ok::<Session, Error>(session)) == Ok::<
            SessionView,
            ErrorView,
        >(session@),
        session_result(Err::<Session, Error>(error)) == Err::<
            SessionView,
            ErrorView,
        >(error@),
{
}

} // verus!
