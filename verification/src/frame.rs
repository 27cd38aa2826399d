//! STOMP 1.2 on the wire: a command line, header lines, a blank line, a
//! body, and the NUL that ends the frame.
//!
//! Header values escape `\r`, `\n`, `:` and `\` as `\r`, `\n`, `\c` and
//! `\\` — except in CONNECT and CONNECTED, which are left unescaped for the
//! sake of STOMP 1.0 brokers. A `content-length` header says how long the
//! body is, which is what lets a body carry NUL; without one the body runs
//! to the first NUL.

use vstd::prelude::*;
use vstd::utf8::encode_utf8;

use crate::error::{Error, ErrorView};
use crate::text::{chars_of, decimal, push_decimal, same};

verus! {

/// The most a frame body may be, or say it is, before it is refused.
pub const MAX_BODY: usize = 64 * 1024 * 1024;

/// One header: its name and its value.
pub type HeaderView = (Seq<char>, Seq<char>);

/// One frame, either direction.
#[derive(Clone, Debug, PartialEq, Eq)]
pub struct Frame {
    pub command: String,
    pub headers: Vec<(String, String)>,
    pub body: Vec<u8>,
}

/// A [`Frame`] by what it says.
#[verifier::ext_equal]
pub struct FrameView {
    pub command: Seq<char>,
    pub headers: Seq<HeaderView>,
    pub body: Seq<u8>,
}

/// Headers by what they say.
pub open spec fn headers_view(headers: Seq<(String, String)>) -> Seq<HeaderView> {
    headers.map_values(|header: (String, String)| (header.0@, header.1@))
}

impl View for Frame {
    type V = FrameView;

    open spec fn view(&self) -> FrameView {
        FrameView {
            command: self.command@,
            headers: headers_view(self.headers@),
            body: self.body@,
        }
    }
}

/// A frame that may be missing, by what it says.
pub open spec fn frame_view(frame: Option<Frame>) -> Option<FrameView> {
    match frame {
        Some(frame) => Some(frame@),
        None => None,
    }
}

/// The value of the first header called `name`: the first repetition wins.
pub open spec fn header_value(headers: Seq<HeaderView>, name: Seq<char>) -> Option<Seq<char>>
    decreases headers.len(),
{
    if headers.len() == 0 {
        None
    } else if headers[0].0 == name {
        Some(headers[0].1)
    } else {
        header_value(headers.drop_first(), name)
    }
}

/// A text that may be missing, as characters.
pub open spec fn text_view(text: Option<&str>) -> Option<Seq<char>> {
    match text {
        Some(text) => Some(text@),
        None => None,
    }
}

/// Whether a frame with this command has its headers written bare.
pub open spec fn is_bare(command: Seq<char>) -> bool {
    command == "CONNECT"@ || command == "CONNECTED"@
}

impl FrameView {
    /// `command`, no headers, no body.
    pub open spec fn new(command: Seq<char>) -> FrameView {
        FrameView { command, headers: Seq::empty(), body: Seq::empty() }
    }

    /// With this header too.
    pub open spec fn with_header(self, name: Seq<char>, value: Seq<char>) -> FrameView {
        FrameView { headers: self.headers.push((name, value)), ..self }
    }

    /// With this body.
    pub open spec fn with_body(self, body: Seq<u8>) -> FrameView {
        FrameView { body, ..self }
    }

    /// The first value of `name`.
    pub open spec fn header(self, name: Seq<char>) -> Option<Seq<char>> {
        header_value(self.headers, name)
    }

    /// The first value of `name`, or nothing where there is none.
    pub open spec fn header_or_empty(self, name: Seq<char>) -> Seq<char> {
        match self.header(name) {
            Some(value) => value,
            None => Seq::empty(),
        }
    }

    /// Whether the length of the body has to be stated beside the headers.
    pub open spec fn states_length(self) -> bool {
        self.body.len() > 0 && self.header("content-length"@) is None
    }

    /// The frame with the header that states its length, where one is added.
    pub open spec fn sealed(self) -> FrameView {
        if self.states_length() {
            self.with_header("content-length"@, decimal(self.body.len()))
        } else {
            self
        }
    }
}

impl Frame {
    /// `command`, no headers, no body.
    #[must_use]
    pub fn new(command: &str) -> (frame: Self)
        ensures
            frame@ == FrameView::new(command@),
    {
        let frame = Self { command: command.to_owned(), headers: Vec::new(), body: Vec::new() };
        assert(frame@ =~= FrameView::new(command@));
        frame
    }

    /// With this header too.
    #[must_use]
    pub fn with_header(self, name: &str, value: &str) -> (frame: Self)
        ensures
            frame@ == self@.with_header(name@, value@),
    {
        let mut frame = self;
        frame.headers.push((name.to_owned(), value.to_owned()));
        assert(frame@ =~= self@.with_header(name@, value@));
        frame
    }

    /// With this body.
    #[must_use]
    pub fn with_body(self, body: &[u8]) -> (frame: Self)
        ensures
            frame@ == self@.with_body(body@),
    {
        let mut frame = self;
        frame.body = vstd::slice::slice_to_vec(body);
        frame
    }

    /// The first value of `name`: STOMP says the first repetition wins.
    #[must_use]
    pub fn header(&self, name: &str) -> (value: Option<&str>)
        ensures
            text_view(value) == self@.header(name@),
    {
        let mut at: usize = 0;
        assert(self@.headers.skip(0) == self@.headers);
        while at < self.headers.len()
            invariant
                at <= self.headers@.len(),
                self@.header(name@) == header_value(self@.headers.skip(at as int), name@),
            decreases self.headers@.len() - at,
        {
            let header = &self.headers[at];
            let ghost rest = self@.headers.skip(at as int);
            assert(rest[0] == self@.headers[at as int]);
            assert(rest.drop_first() == self@.headers.skip(at + 1));
            if same(header.0.as_str(), name) {
                return Some(header.1.as_str());
            }
            at = at + 1;
        }
        None
    }

    /// The first value of `name`, or nothing where there is none.
    pub(crate) fn header_or_empty(&self, name: &str) -> (value: String)
        ensures
            value@ == self@.header_or_empty(name@),
    {
        match self.header(name) {
            Some(value) => value.to_owned(),
            None => String::new(),
        }
    }

    /// Whether the headers of this command are written bare.
    pub(crate) fn unescaped(&self) -> (bare: bool)
        ensures
            bare == is_bare(self@.command),
    {
        same(self.command.as_str(), "CONNECT") || same(self.command.as_str(), "CONNECTED")
    }
}

/// How one character of a header is written.
pub open spec fn escaped_char(c: char) -> Seq<char> {
    if c == '\r' {
        seq!['\\', 'r']
    } else if c == '\n' {
        seq!['\\', 'n']
    } else if c == ':' {
        seq!['\\', 'c']
    } else if c == '\\' {
        seq!['\\', '\\']
    } else {
        seq![c]
    }
}

/// How the text of a header is written.
pub open spec fn escaped(s: Seq<char>) -> Seq<char>
    decreases s.len(),
{
    if s.len() == 0 {
        Seq::empty()
    } else {
        escaped_char(s[0]) + escaped(s.drop_first())
    }
}

/// `text` as a header writes it.
pub fn escape(text: &str) -> (out: String)
    ensures
        out@ == escaped(text@),
{
    let chars = chars_of(text);
    let mut out = String::new();
    let mut at: usize = 0;
    assert(text@.skip(0) == text@);
    while at < chars.len()
        invariant
            chars@ == text@,
            at <= chars@.len(),
            escaped(text@) == out@ + escaped(text@.skip(at as int)),
        decreases chars@.len() - at,
    {
        let c = chars[at];
        let ghost before = out@;
        if c == '\r' {
            out.push('\\');
            out.push('r');
        } else if c == '\n' {
            out.push('\\');
            out.push('n');
        } else if c == ':' {
            out.push('\\');
            out.push('c');
        } else if c == '\\' {
            out.push('\\');
            out.push('\\');
        } else {
            out.push(c);
        }
        assert(out@ == before + escaped_char(c));
        assert(text@.skip(at as int).drop_first() == text@.skip(at + 1));
        at = at + 1;
    }
    out
}

/// What the character after a backslash stands for.
pub open spec fn escape_meaning(c: char) -> Option<char> {
    if c == 'r' {
        Some('\r')
    } else if c == 'n' {
        Some('\n')
    } else if c == 'c' {
        Some(':')
    } else if c == '\\' {
        Some('\\')
    } else {
        None
    }
}

/// `text`, where there is one, with `front` before it.
pub open spec fn prefixed(
    front: Seq<char>,
    text: Result<Seq<char>, ErrorView>,
) -> Result<Seq<char>, ErrorView> {
    match text {
        Ok(text) => Ok(front + text),
        Err(error) => Err(error),
    }
}

/// What a header that is written as `s` says.
pub open spec fn unescaped(s: Seq<char>) -> Result<Seq<char>, ErrorView>
    decreases s.len(),
{
    if s.len() == 0 {
        Ok(Seq::empty())
    } else if s[0] != '\\' {
        prefixed(seq![s[0]], unescaped(s.drop_first()))
    } else if s.len() == 1 {
        Err(ErrorView::UndefinedEscape(' '))
    } else {
        match escape_meaning(s[1]) {
            Some(c) => prefixed(seq![c], unescaped(s.skip(2))),
            None => Err(ErrorView::UndefinedEscape(s[1])),
        }
    }
}

/// A text or an error, as characters.
pub open spec fn string_result(result: Result<String, Error>) -> Result<Seq<char>, ErrorView> {
    match result {
        Ok(text) => Ok(text@),
        Err(error) => Err(error@),
    }
}

/// What a header that is written as `text` says.
pub fn unescape(text: &str) -> (result: Result<String, Error>)
    ensures
        string_result(result) == unescaped(text@),
{
    let chars = chars_of(text);
    let mut out = String::new();
    let mut at: usize = 0;
    assert(text@.skip(0) == text@);
    assert(prefixed(out@, unescaped(text@)) == unescaped(text@)) by {
        match unescaped(text@) {
            Ok(all) => {
                assert(out@ + all == all);
            },
            Err(_) => {},
        }
    }
    while at < chars.len()
        invariant
            chars@ == text@,
            at <= chars@.len(),
            unescaped(text@) == prefixed(out@, unescaped(text@.skip(at as int))),
        decreases chars@.len() - at,
    {
        let c = chars[at];
        let ghost before = out@;
        let ghost rest = text@.skip(at as int);
        assert(rest[0] == c);
        if c != '\\' {
            out.push(c);
            at = at + 1;
            proof {
                assert(rest.drop_first() == text@.skip(at as int));
                lemma_prefixed_push(before, c, unescaped(text@.skip(at as int)));
            }
        } else if at + 1 == chars.len() {
            return Err(Error::UndefinedEscape(' '));
        } else {
            let next = chars[at + 1];
            assert(rest[1] == next);
            let meant = if next == 'r' {
                '\r'
            } else if next == 'n' {
                '\n'
            } else if next == 'c' {
                ':'
            } else if next == '\\' {
                '\\'
            } else {
                return Err(Error::UndefinedEscape(next));
            };
            out.push(meant);
            at = at + 2;
            proof {
                assert(rest.skip(2) == text@.skip(at as int));
                lemma_prefixed_push(before, meant, unescaped(text@.skip(at as int)));
            }
        }
    }
    assert(out@ + Seq::<char>::empty() == out@);
    Ok(out)
}

/// A text put before another grows by one character.
proof fn lemma_prefixed_push(front: Seq<char>, c: char, text: Result<Seq<char>, ErrorView>)
    ensures
        prefixed(front, prefixed(seq![c], text)) == prefixed(front.push(c), text),
{
    match text {
        Ok(text) => {
            assert(front + (seq![c] + text) == front.push(c) + text);
        },
        Err(_) => {},
    }
}

/// The line of one header, its newline too.
pub open spec fn header_line(bare: bool, header: HeaderView) -> Seq<char> {
    if bare {
        header.0 + seq![':'] + header.1 + seq!['\n']
    } else {
        escaped(header.0) + seq![':'] + escaped(header.1) + seq!['\n']
    }
}

/// The lines of the headers, in order.
pub open spec fn header_lines(bare: bool, headers: Seq<HeaderView>) -> Seq<char>
    decreases headers.len(),
{
    if headers.len() == 0 {
        Seq::empty()
    } else {
        header_line(bare, headers[0]) + header_lines(bare, headers.drop_first())
    }
}

/// The line that states the length of the body, where one is added.
pub open spec fn length_line(frame: FrameView) -> Seq<char> {
    if frame.states_length() {
        "content-length"@ + seq![':'] + decimal(frame.body.len()) + seq!['\n']
    } else {
        Seq::empty()
    }
}

/// Everything before the body: command, headers, the blank line.
pub open spec fn head_text(frame: FrameView) -> Seq<char> {
    frame.command + seq!['\n'] + header_lines(is_bare(frame.command), frame.headers) + length_line(
        frame,
    ) + seq!['\n']
}

/// The bytes of a frame on the wire.
pub open spec fn encoded(frame: FrameView) -> Seq<u8> {
    encode_utf8(head_text(frame)) + frame.body + seq![0u8]
}

/// `frame` as bytes on the wire, `content-length` added where the body is
/// not empty and no header states its length.
#[must_use]
pub fn encode(frame: &Frame) -> (out: Vec<u8>)
    ensures
        out@ == encoded(frame@),
{
    let bare = frame.unescaped();
    let mut head = frame.command.clone();
    head.push('\n');
    let ghost first = head@;
    let mut at: usize = 0;
    assert(frame@.headers.skip(0) == frame@.headers);
    while at < frame.headers.len()
        invariant
            at <= frame.headers@.len(),
            bare == is_bare(frame@.command),
            first + header_lines(bare, frame@.headers) == head@ + header_lines(
                bare,
                frame@.headers.skip(at as int),
            ),
        decreases frame.headers@.len() - at,
    {
        let header = &frame.headers[at];
        let ghost before = head@;
        let ghost rest = frame@.headers.skip(at as int);
        if bare {
            head.push_str(header.0.as_str());
            head.push(':');
            head.push_str(header.1.as_str());
        } else {
            head.push_str(escape(header.0.as_str()).as_str());
            head.push(':');
            head.push_str(escape(header.1.as_str()).as_str());
        }
        head.push('\n');
        proof {
            assert(rest[0] == frame@.headers[at as int]);
            assert(head@ == before + header_line(bare, rest[0]));
            assert(rest.drop_first() == frame@.headers.skip(at + 1));
        }
        at = at + 1;
    }
    if frame.body.len() > 0 && frame.header("content-length").is_none() {
        head.push_str("content-length");
        head.push(':');
        push_decimal(&mut head, frame.body.len() as u64);
        head.push('\n');
    }
    head.push('\n');
    assert(head@ == head_text(frame@));
    let mut out = vstd::slice::slice_to_vec(head.as_str().as_bytes());
    out.extend_from_slice(frame.body.as_slice());
    out.push(0);
    out
}

/// The bytes of frames on the wire, one after the other.
pub open spec fn wire(frames: Seq<FrameView>) -> Seq<u8>
    decreases frames.len(),
{
    if frames.len() == 0 {
        Seq::empty()
    } else {
        wire(frames.drop_last()) + encoded(frames.last())
    }
}

/// One frame more on the wire.
pub proof fn lemma_wire_push(frames: Seq<FrameView>, frame: FrameView)
    ensures
        wire(frames.push(frame)) == wire(frames) + encoded(frame),
{
    assert(frames.push(frame).drop_last() == frames);
}

/// More frames on the wire.
pub proof fn lemma_wire_add(front: Seq<FrameView>, back: Seq<FrameView>)
    ensures
        wire(front + back) == wire(front) + wire(back),
    decreases back.len(),
{
    if back.len() == 0 {
        assert(front + back == front);
        assert(wire(front) + wire(back) == wire(front));
    } else {
        lemma_wire_add(front, back.drop_last());
        assert((front + back).drop_last() == front + back.drop_last());
        assert(wire(front + back) == wire(front) + wire(back));
    }
}

/// Put `frame` on the wire after what is there.
pub(crate) fn write_frame(out: &mut Vec<u8>, frame: &Frame)
    ensures
        final(out)@ == old(out)@ + encoded(frame@),
{
    let mut bytes = encode(frame);
    out.append(&mut bytes);
}

} // verus!
