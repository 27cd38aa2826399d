//! Frames out of bytes, a piece at a time.
//!
//! [`Reading`] says which bytes it wants next and takes them, so whoever
//! holds the connection only fetches. [`read`] does both over bytes that are
//! already here. Bare newlines between frames are heart-beats and are
//! skipped.

use vstd::prelude::*;
use vstd::slice::{slice_subrange, slice_to_vec};
use vstd::utf8::{decode_utf8, valid_utf8};

use crate::error::{Error, ErrorView};
use crate::frame::{is_bare, unescape, unescaped, Frame, FrameView, HeaderView, MAX_BODY};
use crate::text::{first_at, lemma_first_at, lemma_first_at_is, number, number_of, split_first, split_once, utf8_text};

verus! {

/// The bytes that are wanted next.
#[derive(Clone, Copy, Debug, PartialEq, Eq)]
pub enum Want {
    /// Up to the next newline, the newline too, or to the end.
    Line,
    /// This many, or all there are.
    Exact(usize),
    /// Up to the next NUL, the NUL too, or to the end. A fetch may stop once
    /// it has more than [`MAX_BODY`] and a NUL: that is refused already.
    UntilNul,
}

/// How many bytes of `s` are up to the first `b`, that one too.
pub open spec fn through(s: Seq<u8>, b: u8) -> int {
    let n = first_at(s, b);
    if n < s.len() {
        n + 1
    } else {
        s.len() as int
    }
}

/// How many bytes of `s` are what is wanted.
pub open spec fn fetched(want: Want, s: Seq<u8>) -> int {
    match want {
        Want::Line => through(s, 10),
        Want::Exact(n) => if n < s.len() {
            n as int
        } else {
            s.len() as int
        },
        Want::UntilNul => through(s, 0),
    }
}

/// `s` without one `b` at its end.
pub open spec fn without_last(s: Seq<u8>, b: u8) -> Seq<u8> {
    if s.len() > 0 && s.last() == b {
        s.drop_last()
    } else {
        s
    }
}

/// The line in `raw` without its end, or `None` at the end of the bytes.
pub open spec fn line_of(raw: Seq<u8>) -> Result<Option<Seq<char>>, ErrorView> {
    let bytes = without_last(without_last(raw, 10), 13);
    if raw.len() == 0 {
        Ok(None)
    } else if valid_utf8(bytes) {
        Ok(Some(decode_utf8(bytes)))
    } else {
        Err(ErrorView::NotUtf8)
    }
}

/// A line, the end or an error, as characters.
pub open spec fn line_result(result: Result<Option<String>, Error>) -> Result<
    Option<Seq<char>>,
    ErrorView,
> {
    match result {
        Ok(Some(text)) => Ok(Some(text@)),
        Ok(None) => Ok(None),
        Err(error) => Err(error@),
    }
}

/// One line without its end, or `None` at the end of the connection.
pub fn line(raw: Vec<u8>) -> (result: Result<Option<String>, Error>)
    ensures
        line_result(result) == line_of(raw@),
{
    if raw.len() == 0 {
        return Ok(None);
    }
    let mut bytes = raw;
    if bytes[bytes.len() - 1] == 10 {
        bytes.pop();
    }
    if bytes.len() > 0 && bytes[bytes.len() - 1] == 13 {
        bytes.pop();
    }
    assert(bytes@ == without_last(without_last(raw@, 10), 13));
    match utf8_text(bytes) {
        Some(text) => Ok(Some(text)),
        None => Err(Error::NotUtf8),
    }
}

/// The header that a line writes.
pub open spec fn header_of(bare: bool, line: Seq<char>) -> Result<HeaderView, ErrorView> {
    match split_first(line, ':') {
        None => Err(ErrorView::NoColon(line)),
        Some((name, value)) => if bare {
            Ok((name, value))
        } else {
            match unescaped(name) {
                Err(error) => Err(error),
                Ok(name) => match unescaped(value) {
                    Err(error) => Err(error),
                    Ok(value) => Ok((name, value)),
                },
            }
        },
    }
}

/// A header or an error, as characters.
pub open spec fn header_result(result: Result<(String, String), Error>) -> Result<
    HeaderView,
    ErrorView,
> {
    match result {
        Ok((name, value)) => Ok((name@, value@)),
        Err(error) => Err(error@),
    }
}

/// The header that a line writes.
fn header(bare: bool, line: String) -> (result: Result<(String, String), Error>)
    ensures
        header_result(result) == header_of(bare, line@),
{
    match split_once(line.as_str(), ':') {
        None => Err(Error::NoColon(line)),
        Some((name, value)) => {
            if bare {
                return Ok((name, value));
            }
            match unescape(name.as_str()) {
                Err(error) => Err(error),
                Ok(name) => match unescape(value.as_str()) {
                    Err(error) => Err(error),
                    Ok(value) => Ok((name, value)),
                },
            }
        },
    }
}

/// The length that a `content-length` states, where it is one that is read.
pub open spec fn length_of(length: Seq<char>) -> Result<nat, ErrorView> {
    match number(length) {
        Some(n) => if n > usize::MAX {
            Err(ErrorView::BadLength(length))
        } else if n > MAX_BODY {
            Err(ErrorView::TooLong)
        } else {
            Ok(n)
        },
        None => Err(ErrorView::BadLength(length)),
    }
}

/// A length or an error, as numbers and characters.
pub open spec fn length_result(result: Result<usize, Error>) -> Result<nat, ErrorView> {
    match result {
        Ok(n) => Ok(n as nat),
        Err(error) => Err(error@),
    }
}

/// The length that a `content-length` states.
fn stated(length: &str) -> (result: Result<usize, Error>)
    ensures
        length_result(result) == length_of(length@),
{
    match number_of(length) {
        None => Err(Error::BadLength(length.to_owned())),
        Some(n) => {
            if n > MAX_BODY {
                return Err(Error::TooLong);
            }
            Ok(n)
        },
    }
}

/// How far a frame has been read.
pub enum StageView {
    /// Not begun: the command line comes.
    Command,
    /// The command and these headers; more of them, or the blank line, come.
    Headers(FrameView),
    /// All but a body of this many bytes and its NUL.
    Counted(FrameView, nat),
    /// All but a body that runs to the first NUL.
    Bare(FrameView),
}

/// What a piece of the frame led to.
pub enum StepView {
    /// There is more to the frame.
    More(StageView),
    /// That was the frame.
    Whole(FrameView),
    /// The peer closed between frames.
    Closed,
}

/// What is wanted at a stage.
pub open spec fn wanted(stage: StageView) -> Want {
    match stage {
        StageView::Command => Want::Line,
        StageView::Headers(_) => Want::Line,
        StageView::Counted(_, n) => Want::Exact((n + 1) as usize),
        StageView::Bare(_) => Want::UntilNul,
    }
}

/// The stage after the blank line.
pub open spec fn body_stage(frame: FrameView) -> Result<StepView, ErrorView> {
    match frame.header("content-length"@) {
        Some(length) => match length_of(length) {
            Ok(n) => Ok(StepView::More(StageView::Counted(frame, n))),
            Err(error) => Err(error),
        },
        None => Ok(StepView::More(StageView::Bare(frame))),
    }
}

/// What the fetched bytes lead to.
pub open spec fn step(stage: StageView, chunk: Seq<u8>) -> Result<StepView, ErrorView> {
    match stage {
        StageView::Command => match line_of(chunk) {
            Err(error) => Err(error),
            Ok(None) => Ok(StepView::Closed),
            Ok(Some(line)) => if line.len() == 0 {
                Ok(StepView::More(StageView::Command))
            } else {
                Ok(StepView::More(StageView::Headers(FrameView::new(line))))
            },
        },
        StageView::Headers(frame) => match line_of(chunk) {
            Err(error) => Err(error),
            Ok(None) => Err(ErrorView::EndsInHeaders),
            Ok(Some(line)) => if line.len() == 0 {
                body_stage(frame)
            } else {
                match header_of(is_bare(frame.command), line) {
                    Err(error) => Err(error),
                    Ok((name, value)) => Ok(
                        StepView::More(StageView::Headers(frame.with_header(name, value))),
                    ),
                }
            },
        },
        StageView::Counted(frame, n) => if chunk.len() != n + 1 {
            Err(ErrorView::CutShort)
        } else if chunk.last() != 0 {
            Err(ErrorView::NoNulAfterBody)
        } else {
            Ok(StepView::Whole(frame.with_body(chunk.drop_last())))
        },
        StageView::Bare(frame) => if chunk.len() > MAX_BODY + 1 {
            Err(ErrorView::TooLong)
        } else if chunk.len() == 0 || chunk.last() != 0 {
            Err(ErrorView::EndsBeforeNul)
        } else {
            Ok(StepView::Whole(frame.with_body(chunk.drop_last())))
        },
    }
}

/// What reading on from a stage gives out of `s`, and what is left of `s`.
pub open spec fn read_from(stage: StageView, s: Seq<u8>) -> (
    Result<Option<FrameView>, ErrorView>,
    Seq<u8>,
)
    decreases s.len(),
{
    proof {
        lemma_first_at(s, 10u8);
    }
    let n = fetched(wanted(stage), s);
    let rest = s.skip(n);
    match step(stage, s.take(n)) {
        Err(error) => (Err(error), rest),
        Ok(StepView::Closed) => (Ok(None), rest),
        Ok(StepView::Whole(frame)) => (Ok(Some(frame)), rest),
        Ok(StepView::More(next)) => read_from(next, rest),
    }
}

/// What one read gives out of `s`: a frame, or `None` where the peer closed
/// between frames; and what is left of `s`.
pub open spec fn read_one(s: Seq<u8>) -> (Result<Option<FrameView>, ErrorView>, Seq<u8>) {
    read_from(StageView::Command, s)
}

enum Stage {
    Command,
    Headers(Frame),
    Counted(Frame, usize),
    Bare(Frame),
}

/// A frame on its way in.
pub struct Reading {
    stage: Stage,
}

/// What a piece of the frame led to.
pub enum Step {
    /// There is more to the frame.
    More(Reading),
    /// That was the frame.
    Whole(Frame),
    /// The peer closed between frames.
    Closed,
}

impl View for Reading {
    type V = StageView;

    closed spec fn view(&self) -> StageView {
        match self.stage {
            Stage::Command => StageView::Command,
            Stage::Headers(frame) => StageView::Headers(frame@),
            Stage::Counted(frame, n) => StageView::Counted(frame@, n as nat),
            Stage::Bare(frame) => StageView::Bare(frame@),
        }
    }
}

impl View for Step {
    type V = StepView;

    open spec fn view(&self) -> StepView {
        match *self {
            Step::More(reading) => StepView::More(reading@),
            Step::Whole(frame) => StepView::Whole(frame@),
            Step::Closed => StepView::Closed,
        }
    }
}

/// A step or an error, by what it says.
pub open spec fn step_result(result: Result<Step, Error>) -> Result<StepView, ErrorView> {
    match result {
        Ok(step) => Ok(step@),
        Err(error) => Err(error@),
    }
}

impl Reading {
    #[verifier::type_invariant]
    spec fn bounded(self) -> bool {
        match self.stage {
            Stage::Counted(_, n) => n <= MAX_BODY,
            _ => true,
        }
    }

    /// A frame of which nothing has been read.
    pub fn new() -> (reading: Self)
        ensures
            reading@ == StageView::Command,
    {
        Reading { stage: Stage::Command }
    }

    /// The bytes that are wanted next.
    pub fn want(&self) -> (want: Want)
        ensures
            want == wanted(self@),
    {
        proof {
            use_type_invariant(self);
        }
        match &self.stage {
            Stage::Command => Want::Line,
            Stage::Headers(_) => Want::Line,
            Stage::Counted(_, n) => Want::Exact(*n + 1),
            Stage::Bare(_) => Want::UntilNul,
        }
    }

    /// Take the bytes that were wanted.
    pub fn take(self, chunk: Vec<u8>) -> (result: Result<Step, Error>)
        ensures
            step_result(result) == step(self@, chunk@),
    {
        proof {
            use_type_invariant(&self);
        }
        match self.stage {
            Stage::Command => match line(chunk) {
                Err(error) => Err(error),
                Ok(None) => Ok(Step::Closed),
                Ok(Some(text)) => {
                    if text.as_str().is_empty() {
                        return Ok(Step::More(Reading { stage: Stage::Command }));
                    }
                    Ok(Step::More(Reading { stage: Stage::Headers(Frame::new(text.as_str())) }))
                },
            },
            Stage::Headers(frame) => match line(chunk) {
                Err(error) => Err(error),
                Ok(None) => Err(Error::EndsInHeaders),
                Ok(Some(text)) => {
                    if text.as_str().is_empty() {
                        return body(frame);
                    }
                    match header(frame.unescaped(), text) {
                        Err(error) => Err(error),
                        Ok((name, value)) => Ok(
                            Step::More(
                                Reading {
                                    stage: Stage::Headers(
                                        frame.with_header(name.as_str(), value.as_str()),
                                    ),
                                },
                            ),
                        ),
                    }
                },
            },
            Stage::Counted(frame, n) => counted(frame, n, chunk),
            Stage::Bare(frame) => bare(frame, chunk),
        }
    }
}

/// The blank line has come: what is the body?
fn body(frame: Frame) -> (result: Result<Step, Error>)
    ensures
        step_result(result) == body_stage(frame@),
{
    let length = match frame.header("content-length") {
        Some(length) => stated(length),
        None => {
            return Ok(Step::More(Reading { stage: Stage::Bare(frame) }));
        },
    };
    match length {
        Ok(n) => Ok(Step::More(Reading { stage: Stage::Counted(frame, n) })),
        Err(error) => Err(error),
    }
}

/// A body of `n` bytes, and the NUL after it.
fn counted(frame: Frame, n: usize, chunk: Vec<u8>) -> (result: Result<Step, Error>)
    requires
        n <= MAX_BODY,
    ensures
        step_result(result) == step(StageView::Counted(frame@, n as nat), chunk@),
{
    if chunk.len() != n + 1 {
        return Err(Error::CutShort);
    }
    if chunk[n] != 0 {
        return Err(Error::NoNulAfterBody);
    }
    Ok(Step::Whole(filled(frame, chunk)))
}

/// A body that runs to the first NUL, within the bound.
fn bare(frame: Frame, chunk: Vec<u8>) -> (result: Result<Step, Error>)
    ensures
        step_result(result) == step(StageView::Bare(frame@), chunk@),
{
    if chunk.len() > MAX_BODY + 1 {
        return Err(Error::TooLong);
    }
    if chunk.len() == 0 || chunk[chunk.len() - 1] != 0 {
        return Err(Error::EndsBeforeNul);
    }
    Ok(Step::Whole(filled(frame, chunk)))
}

/// The frame with all of `chunk` but its last byte as its body.
fn filled(frame: Frame, chunk: Vec<u8>) -> (whole: Frame)
    requires
        chunk@.len() > 0,
    ensures
        whole@ == frame@.with_body(chunk@.drop_last()),
{
    let mut whole = frame;
    let mut bytes = chunk;
    bytes.pop();
    whole.body = bytes;
    whole
}

/// Bytes that are already here, and how many of them have been read.
pub struct ByteReader {
    bytes: Vec<u8>,
    at: usize,
}

impl View for ByteReader {
    type V = Seq<u8>;

    /// The bytes that have not been read.
    closed spec fn view(&self) -> Seq<u8> {
        self.bytes@.skip(self.at as int)
    }
}

impl ByteReader {
    #[verifier::type_invariant]
    spec fn within(self) -> bool {
        self.at <= self.bytes@.len()
    }

    /// A reader at the start of `bytes`.
    pub fn new(bytes: &[u8]) -> (reader: Self)
        ensures
            reader@ == bytes@,
    {
        let reader = ByteReader { bytes: slice_to_vec(bytes), at: 0 };
        assert(reader@ == bytes@);
        reader
    }

    /// Where the first `b` that has not been read stands, or the end.
    fn find(&self, b: u8) -> (end: usize)
        ensures
            self.at <= end <= self.bytes@.len(),
            end - self.at == through(self@, b),
    {
        proof {
            use_type_invariant(self);
        }
        let mut end: usize = self.at;
        while end < self.bytes.len()
            invariant
                self.at <= end <= self.bytes@.len(),
                forall|i: int| self.at <= i < end ==> self.bytes@[i] != b,
            decreases self.bytes@.len() - end,
        {
            if self.bytes[end] == b {
                proof {
                    assert forall|i: int| 0 <= i < end - self.at implies self@[i] != b by {
                        assert(self@[i] == self.bytes@[i + self.at]);
                    }
                    assert(self@[end - self.at] == b);
                    lemma_first_at_is(self@, b, end - self.at);
                }
                return end + 1;
            }
            end = end + 1;
        }
        proof {
            assert forall|i: int| 0 <= i < end - self.at implies self@[i] != b by {
                assert(self@[i] == self.bytes@[i + self.at]);
            }
            lemma_first_at_is(self@, b, end - self.at);
        }
        end
    }

    /// The bytes that are wanted, read.
    pub fn fetch(&mut self, want: Want) -> (chunk: Vec<u8>)
        ensures
            chunk@ == old(self)@.take(fetched(want, old(self)@)),
            final(self)@ == old(self)@.skip(fetched(want, old(self)@)),
    {
        proof {
            use_type_invariant(&*self);
        }
        let end: usize = match want {
            Want::Line => self.find(10),
            Want::UntilNul => self.find(0),
            Want::Exact(n) => if n < self.bytes.len() - self.at {
                self.at + n
            } else {
                self.bytes.len()
            },
        };
        let chunk = slice_to_vec(slice_subrange(self.bytes.as_slice(), self.at, end));
        assert(chunk@ == self@.take(end - self.at));
        self.at = end;
        assert(self@ == old(self)@.skip(fetched(want, old(self)@)));
        chunk
    }
}

/// A frame, the end or an error, by what it says.
pub open spec fn read_result(result: Result<Option<Frame>, Error>) -> Result<
    Option<FrameView>,
    ErrorView,
> {
    match result {
        Ok(Some(frame)) => Ok(Some(frame@)),
        Ok(None) => Ok(None),
        Err(error) => Err(error@),
    }
}

/// Read one frame, or `None` when the peer closed between frames.
///
/// # Errors
/// Bytes that end mid-frame, a line that is not UTF-8, a header line without
/// a colon, an escape that is not defined, a `content-length` that is not a
/// number, a body over [`MAX_BODY`], whether its length is stated or not, or
/// a body that does not end in NUL.
pub fn read(reader: &mut ByteReader) -> (result: Result<Option<Frame>, Error>)
    ensures
        read_result(result) == read_one(old(reader)@).0,
        final(reader)@ == read_one(old(reader)@).1,
{
    let mut reading = Reading::new();
    loop
        invariant
            read_from(reading@, reader@) == read_one(old(reader)@),
        decreases reader@.len(),
    {
        let ghost before = reader@;
        proof {
            lemma_first_at(before, 10u8);
        }
        let want = reading.want();
        let chunk = reader.fetch(want);
        match reading.take(chunk) {
            Err(error) => {
                return Err(error);
            },
            Ok(Step::Closed) => {
                return Ok(None);
            },
            Ok(Step::Whole(frame)) => {
                return Ok(Some(frame));
            },
            Ok(Step::More(next)) => {
                reading = next;
            },
        }
    }
}

} // verus!
