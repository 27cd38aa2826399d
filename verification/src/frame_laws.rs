//! What reading gives back of what was written.

use vstd::prelude::*;
use vstd::utf8::{decode_utf8, decode_utf8_encode_utf8, encode_utf8, encode_utf8_decode_utf8, encode_utf8_valid_utf8, valid_utf8};

use crate::error::ErrorView;
use crate::frame::{encoded, escape_meaning, escaped, escaped_char, head_text, header_line, header_lines, header_value, is_bare, lemma_wire_add, unescaped, wire, FrameView, HeaderView, MAX_BODY};
use crate::reading::{body_stage, fetched, header_of, length_of, line_of, read_from, read_one, step, wanted, without_last, StageView, StepView, Want};
use crate::text::{decimal, first_at, is_digit, lemma_decimal, lemma_first_at, lemma_first_at_is, number};
use crate::text_laws::law_a_text_splits_at_the_first;
use crate::unicode::{lemma_encode_add, lemma_encode_ascii, lemma_encode_last, lemma_encode_without};

verus! {

/// What was escaped reads back as it was.
pub proof fn law_escape_round_trip(s: Seq<char>)
    ensures
        unescaped(escaped(s)) == Ok::<Seq<char>, ErrorView>(s),
    decreases s.len(),
{
    if s.len() > 0 {
        let c = s[0];
        let rest = s.drop_first();
        law_escape_round_trip(rest);
        let all = escaped(s);
        if escaped_char(c).len() == 1 {
            assert(all.drop_first() == escaped(rest));
        } else {
            assert(all.skip(2) == escaped(rest));
        }
        assert(seq![c] + rest == s);
    } else {
        assert(s == Seq::<char>::empty());
    }
}

/// What is escaped holds no colon and no end of a line.
pub proof fn law_escaped_is_one_field(s: Seq<char>)
    ensures
        forall|i: int|
            0 <= i < escaped(s).len() ==> escaped(s)[i] != ':' && escaped(s)[i] != '\n'
                && escaped(s)[i] != '\r',
    decreases s.len(),
{
    if s.len() > 0 {
        let front = escaped_char(s[0]);
        let back = escaped(s.drop_first());
        law_escaped_is_one_field(s.drop_first());
        assert forall|i: int| 0 <= i < escaped(s).len() implies escaped(s)[i] != ':'
            && escaped(s)[i] != '\n' && escaped(s)[i] != '\r' by {
            if i < front.len() {
                assert(escaped(s)[i] == front[i]);
            } else {
                assert(escaped(s)[i] == back[i - front.len()]);
            }
        }
    }
}

/// A text in which nothing needs an escape is written as it is.
proof fn lemma_escaped_plain(s: Seq<char>)
    requires
        forall|i: int|
            0 <= i < s.len() ==> s[i] != ':' && s[i] != '\n' && s[i] != '\r' && s[i] != '\\',
    ensures
        escaped(s) == s,
    decreases s.len(),
{
    if s.len() > 0 {
        let rest = s.drop_first();
        assert forall|i: int| 0 <= i < rest.len() implies rest[i] != ':' && rest[i] != '\n'
            && rest[i] != '\r' && rest[i] != '\\' by {
            assert(rest[i] == s[i + 1]);
        }
        lemma_escaped_plain(rest);
        assert(seq![s[0]] + rest == s);
    } else {
        assert(s == Seq::<char>::empty());
    }
}

/// Whether a text can stand on a line: no newline in it, and no carriage
/// return that would be taken for part of the line's end.
pub open spec fn fits_line(s: Seq<char>) -> bool {
    &&& forall|i: int| 0 <= i < s.len() ==> s[i] != '\n'
    &&& s.len() > 0 ==> s.last() != '\r'
}

/// A line is read as it was written, and nothing after it is touched.
proof fn lemma_line(line: Seq<char>, rest: Seq<u8>)
    requires
        fits_line(line),
    ensures
        ({
            let s = encode_utf8(line + seq!['\n']) + rest;
            let n = fetched(Want::Line, s);
            &&& 0 < n <= s.len()
            &&& line_of(s.take(n)) == Ok::<Option<Seq<char>>, ErrorView>(Some(line))
            &&& s.skip(n) == rest
        }),
{
    let text = encode_utf8(line);
    let s = encode_utf8(line + seq!['\n']) + rest;
    lemma_encode_add(line, seq!['\n']);
    lemma_encode_ascii('\n');
    lemma_encode_without(line, '\n');
    assert(s == text + seq![10u8] + rest);
    assert(s[text.len() as int] == 10u8);
    assert forall|i: int| 0 <= i < text.len() implies s[i] != 10u8 by {
        assert(s[i] == text[i]);
    }
    lemma_first_at_is(s, 10u8, text.len() as int);
    let raw = s.take(text.len() as int + 1);
    assert(raw.drop_last() == text);
    assert(raw.last() == 10u8);
    if line.len() > 0 {
        lemma_encode_last(line, '\r');
    }
    encode_utf8_valid_utf8(line);
    encode_utf8_decode_utf8(line);
    assert(s.skip(text.len() as int + 1) == rest);
}

/// Whether a header can be written bare: a name without colon or newline,
/// and a value that fits the rest of the line.
pub open spec fn fits_bare(header: HeaderView) -> bool {
    &&& forall|i: int| 0 <= i < header.0.len() ==> header.0[i] != ':' && header.0[i] != '\n'
    &&& fits_line(header.1)
}

/// A header line, without its newline.
spec fn header_text(bare: bool, header: HeaderView) -> Seq<char> {
    if bare {
        header.0 + seq![':'] + header.1
    } else {
        escaped(header.0) + seq![':'] + escaped(header.1)
    }
}

/// A header is read off its line as it was written.
proof fn lemma_header(bare: bool, header: HeaderView)
    requires
        bare ==> fits_bare(header),
    ensures
        header_line(bare, header) == header_text(bare, header) + seq!['\n'],
        fits_line(header_text(bare, header)),
        header_text(bare, header).len() > 0,
        header_of(bare, header_text(bare, header)) == Ok::<HeaderView, ErrorView>(
            header,
        ),
{
    let (name, value) = if bare {
        header
    } else {
        (escaped(header.0), escaped(header.1))
    };
    let line = header_text(bare, header);
    if !bare {
        law_escaped_is_one_field(header.0);
        law_escaped_is_one_field(header.1);
        law_escape_round_trip(header.0);
        law_escape_round_trip(header.1);
    }
    assert(line == name + seq![':'] + value);
    assert(line[name.len() as int] == ':');
    assert forall|i: int| 0 <= i < name.len() implies line[i] != ':' by {
        assert(line[i] == name[i]);
    }
    lemma_first_at_is(line, ':', name.len() as int);
    assert(line.take(name.len() as int) == name);
    assert(line.skip(name.len() as int + 1) == value);
    assert forall|i: int| 0 <= i < line.len() implies line[i] != '\n' by {
        if i < name.len() {
            assert(line[i] == name[i]);
        } else if i > name.len() {
            assert(line[i] == value[i - name.len() - 1]);
        }
    }
    if value.len() > 0 {
        assert(line.last() == value.last());
    } else {
        assert(line.last() == ':');
    }
}

/// `frame` with these headers after its own.
spec fn with_headers(frame: FrameView, headers: Seq<HeaderView>) -> FrameView {
    FrameView { headers: frame.headers + headers, ..frame }
}

/// What reading goes on with at the end of the headers.
spec fn at_body(frame: FrameView, s: Seq<u8>) -> (
    Result<Option<FrameView>, ErrorView>,
    Seq<u8>,
) {
    match body_stage(frame) {
        Ok(StepView::More(stage)) => read_from(stage, s),
        Ok(_) => (Ok(None), s),
        Err(error) => (Err(error), s),
    }
}

/// Headers are read in the order they were written, up to the blank line.
proof fn lemma_headers(frame: FrameView, headers: Seq<HeaderView>, rest: Seq<u8>)
    requires
        is_bare(frame.command) ==> forall|i: int|
            0 <= i < headers.len() ==> fits_bare(#[trigger] headers[i]),
    ensures
        read_from(
            StageView::Headers(frame),
            encode_utf8(header_lines(is_bare(frame.command), headers) + seq!['\n']) + rest,
        ) == at_body(with_headers(frame, headers), rest),
    decreases headers.len(),
{
    let bare = is_bare(frame.command);
    let lines = header_lines(bare, headers);
    let s = encode_utf8(lines + seq!['\n']) + rest;
    if headers.len() == 0 {
        let empty = Seq::<char>::empty();
        lemma_line(empty, rest);
        assert(lines == empty);
        assert(with_headers(frame, headers) =~= frame);
    } else {
        let header = headers[0];
        let others = headers.drop_first();
        let line = header_text(bare, header);
        lemma_header(bare, header);
        let more = header_lines(bare, others) + seq!['\n'];
        let tail = encode_utf8(more) + rest;
        assert(lines + seq!['\n'] == (line + seq!['\n']) + more);
        lemma_encode_add(line + seq!['\n'], more);
        assert(s == encode_utf8(line + seq!['\n']) + tail);
        lemma_line(line, tail);
        let next = frame.with_header(header.0, header.1);
        assert forall|i: int| bare && 0 <= i < others.len() implies fits_bare(
            #[trigger] others[i],
        ) by {
            assert(others[i] == headers[i + 1]);
        }
        lemma_headers(next, others, rest);
        assert(with_headers(next, others) =~= with_headers(frame, headers)) by {
            assert(frame.headers.push(header) + others =~= frame.headers + headers);
        }
    }
}

/// One header line more.
proof fn lemma_header_lines_push(bare: bool, headers: Seq<HeaderView>, header: HeaderView)
    ensures
        header_lines(bare, headers.push(header)) == header_lines(bare, headers) + header_line(
            bare,
            header,
        ),
    decreases headers.len(),
{
    let longer = headers.push(header);
    if headers.len() == 0 {
        assert(longer.drop_first() == headers);
        assert(header_lines(bare, headers) == Seq::<char>::empty());
        assert(header_line(bare, header) + Seq::<char>::empty() == header_line(bare, header));
        assert(Seq::<char>::empty() + header_line(bare, header) == header_line(bare, header));
    } else {
        lemma_header_lines_push(bare, headers.drop_first(), header);
        assert(longer.drop_first() == headers.drop_first().push(header));
        assert(header_lines(bare, longer) == header_lines(bare, headers) + header_line(
            bare,
            header,
        ));
    }
}

/// A header that was not there is found where it is added.
proof fn lemma_header_value_push(headers: Seq<HeaderView>, header: HeaderView, name: Seq<char>)
    ensures
        header_value(headers.push(header), name) == match header_value(headers, name) {
            Some(value) => Some(value),
            None => if header.0 == name {
                Some(header.1)
            } else {
                None
            },
        },
    decreases headers.len(),
{
    let longer = headers.push(header);
    if headers.len() == 0 {
        assert(longer.drop_first() == headers);
    } else {
        lemma_header_value_push(headers.drop_first(), header, name);
        assert(longer.drop_first() == headers.drop_first().push(header));
    }
}

/// The first repetition of a header wins: a later one changes nothing.
pub proof fn law_first_header_wins(
    frame: FrameView,
    name: Seq<char>,
    value: Seq<char>,
    other: Seq<char>,
)
    ensures
        frame.header(other) is Some ==> frame.with_header(name, value).header(other)
            == frame.header(other),
        frame.header(name) is None ==> frame.with_header(name, value).header(name) == Some(value),
        name != other ==> frame.with_header(name, value).header(other) == frame.header(other),
{
    lemma_header_value_push(frame.headers, (name, value), other);
    lemma_header_value_push(frame.headers, (name, value), name);
}

/// The line that states a length is a header line like any other.
proof fn lemma_head_text(frame: FrameView)
    ensures
        head_text(frame) == (frame.command + seq!['\n']) + (header_lines(
            is_bare(frame.command),
            frame.sealed().headers,
        ) + seq!['\n']),
        frame.states_length() ==> fits_bare(("content-length"@, decimal(frame.body.len()))),
{
    let bare = is_bare(frame.command);
    if frame.states_length() {
        let name = "content-length"@;
        let length = decimal(frame.body.len());
        reveal_strlit("content-length");
        lemma_decimal(frame.body.len());
        assert forall|i: int| 0 <= i < length.len() implies length[i] != ':' && length[i] != '\n'
            && length[i] != '\r' && length[i] != '\\' by {
            assert(is_digit(length[i]));
        }
        assert forall|i: int| 0 <= i < name.len() implies name[i] != ':' && name[i] != '\n'
            && name[i] != '\r' && name[i] != '\\' by {}
        lemma_escaped_plain(name);
        lemma_escaped_plain(length);
        lemma_header_lines_push(bare, frame.headers, (name, length));
        assert(length.last() == length[length.len() - 1]);
    }
    assert(head_text(frame) == (frame.command + seq!['\n']) + (header_lines(
        bare,
        frame.sealed().headers,
    ) + seq!['\n']));
}

/// What STOMP can carry: a command that is a line; headers that fit theirs,
/// where they are written bare; a body within bounds, and of the length that
/// its headers state, where they state one.
pub open spec fn can_carry(frame: FrameView) -> bool {
    &&& frame.command.len() > 0
    &&& fits_line(frame.command)
    &&& is_bare(frame.command) ==> forall|i: int|
        0 <= i < frame.headers.len() ==> fits_bare(#[trigger] frame.headers[i])
    &&& frame.body.len() <= MAX_BODY
    &&& match frame.header("content-length"@) {
        Some(length) => number(length) == Some(frame.body.len()),
        None => true,
    }
}

/// The body is read whole, and nothing after its NUL is touched.
proof fn lemma_body(frame: FrameView, head: FrameView, rest: Seq<u8>)
    requires
        can_carry(frame),
        head == (FrameView { body: Seq::empty(), ..frame.sealed() }),
    ensures
        at_body(head, frame.body + seq![0u8] + rest) == (
            Ok::<Option<FrameView>, ErrorView>(Some(frame.sealed())),
            rest,
        ),
{
    let n = frame.body.len();
    let tail = frame.body + seq![0u8] + rest;
    let chunk = frame.body + seq![0u8];
    assert(tail.take(n as int + 1) == chunk);
    assert(tail.skip(n as int + 1) == rest);
    assert(chunk.drop_last() == frame.body);
    lemma_decimal(n);
    lemma_header_value_push(
        frame.headers,
        ("content-length"@, decimal(n)),
        "content-length"@,
    );
    assert(head.with_body(frame.body) == frame.sealed());
    match head.header("content-length"@) {
        Some(length) => {
            assert(number(length) == Some(n));
            assert(length_of(length) == Ok::<nat, ErrorView>(n));
            assert(fetched(wanted(StageView::Counted(head, n)), tail) == n + 1);
        },
        None => {
            assert(n == 0);
            lemma_first_at_is(tail, 0u8, 0);
            assert(fetched(Want::UntilNul, tail) == 1);
        },
    }
}

/// What was written is read back, with the header that states its length
/// where one was added, and what follows it on the wire is left there.
pub proof fn law_read_gives_back_what_was_written(frame: FrameView, rest: Seq<u8>)
    requires
        can_carry(frame),
    ensures
        read_one(encoded(frame) + rest) == (
            Ok::<Option<FrameView>, ErrorView>(Some(frame.sealed())),
            rest,
        ),
{
    let sealed = frame.sealed();
    let lines = header_lines(is_bare(frame.command), sealed.headers) + seq!['\n'];
    let tail = frame.body + seq![0u8] + rest;
    lemma_head_text(frame);
    lemma_encode_add(frame.command + seq!['\n'], lines);
    let after = encode_utf8(lines) + tail;
    assert(encoded(frame) + rest == encode_utf8(frame.command + seq!['\n']) + after);
    lemma_line(frame.command, after);
    let begun = FrameView::new(frame.command);
    assert forall|i: int|
        is_bare(frame.command) && 0 <= i < sealed.headers.len() implies fits_bare(
        #[trigger] sealed.headers[i],
    ) by {
        if i < frame.headers.len() {
            assert(sealed.headers[i] == frame.headers[i]);
        }
    }
    lemma_headers(begun, sealed.headers, tail);
    let head = with_headers(begun, sealed.headers);
    assert(head =~= (FrameView { body: Seq::empty(), ..sealed }));
    lemma_body(frame, head, rest);
}

/// A line may end in a newline or in a carriage return and a newline.
pub proof fn law_lines_end_either_way(line: Seq<char>)
    requires
        fits_line(line),
    ensures
        line_of(encode_utf8(line) + seq![10u8]) == Ok::<Option<Seq<char>>, ErrorView>(Some(line)),
        line_of(encode_utf8(line) + seq![13u8, 10u8]) == Ok::<Option<Seq<char>>, ErrorView>(
            Some(line),
        ),
{
    let text = encode_utf8(line);
    encode_utf8_valid_utf8(line);
    encode_utf8_decode_utf8(line);
    if line.len() > 0 {
        lemma_encode_last(line, '\r');
    }
    assert((text + seq![10u8]).drop_last() == text);
    assert((text + seq![13u8, 10u8]).drop_last() == text + seq![13u8]);
    assert((text + seq![13u8]).drop_last() == text);
}

/// A body of stated length may hold any bytes, NUL too.
pub proof fn law_a_stated_length_carries_any_body(frame: FrameView, body: Seq<u8>, rest: Seq<u8>)
    requires
        body.len() <= MAX_BODY,
    ensures
        read_from(StageView::Counted(frame, body.len()), body + seq![0u8] + rest) == (
            Ok::<Option<FrameView>, ErrorView>(Some(frame.with_body(body))),
            rest,
        ),
{
    let n = body.len() as int;
    let s = body + seq![0u8] + rest;
    assert(s.take(n + 1) == body + seq![0u8]);
    assert((body + seq![0u8]).drop_last() == body);
    assert(s.skip(n + 1) == rest);
}

/// A body without stated length runs to the first NUL.
pub proof fn law_a_bare_body_runs_to_nul(frame: FrameView, body: Seq<u8>, rest: Seq<u8>)
    requires
        body.len() <= MAX_BODY,
        forall|i: int| 0 <= i < body.len() ==> body[i] != 0,
    ensures
        read_from(StageView::Bare(frame), body + seq![0u8] + rest) == (
            Ok::<Option<FrameView>, ErrorView>(Some(frame.with_body(body))),
            rest,
        ),
{
    let n = body.len() as int;
    let s = body + seq![0u8] + rest;
    assert forall|i: int| 0 <= i < n implies s[i] != 0 by {
        assert(s[i] == body[i]);
    }
    lemma_first_at_is(s, 0u8, n);
    assert(s.take(n + 1) == body + seq![0u8]);
    assert((body + seq![0u8]).drop_last() == body);
    assert(s.skip(n + 1) == rest);
}

/// Whether `s` is newlines alone, each with a carriage return before it or
/// not: heart-beats.
pub open spec fn is_heart_beats(s: Seq<u8>) -> bool
    decreases s.len(),
{
    if s.len() == 0 {
        true
    } else if s[0] == 10 {
        is_heart_beats(s.skip(1))
    } else {
        s.len() > 1 && s[0] == 13 && s[1] == 10 && is_heart_beats(s.skip(2))
    }
}

/// Heart-beats before a frame are skipped.
pub proof fn law_heart_beats_are_skipped(beats: Seq<u8>, rest: Seq<u8>)
    requires
        is_heart_beats(beats),
    ensures
        read_one(beats + rest) == read_one(rest),
    decreases beats.len(),
{
    let s = beats + rest;
    if beats.len() == 0 {
        assert(s == rest);
    } else {
        let n: int = if beats[0] == 10 {
            1
        } else {
            2
        };
        let empty = Seq::<char>::empty();
        law_heart_beats_are_skipped(beats.skip(n), rest);
        lemma_first_at_is(s, 10u8, n - 1);
        assert(s.skip(n) == beats.skip(n) + rest);
        law_lines_end_either_way(empty);
        assert(encode_utf8(empty) == Seq::<u8>::empty());
        if n == 1 {
            assert(s.take(1) == encode_utf8(empty) + seq![10u8]);
        } else {
            assert(s.take(2) == encode_utf8(empty) + seq![13u8, 10u8]);
        }
    }
}

/// Where nothing but heart-beats is left, the peer closed between frames.
pub proof fn law_the_end_between_frames_is_no_error(beats: Seq<u8>)
    requires
        is_heart_beats(beats),
    ensures
        read_one(beats) == (Ok::<Option<FrameView>, ErrorView>(None), Seq::<u8>::empty()),
{
    let nothing = Seq::<u8>::empty();
    law_heart_beats_are_skipped(beats, nothing);
    assert(beats + nothing == beats);
    assert(nothing.take(0) == nothing);
    assert(nothing.skip(0) == nothing);
}

/// Heart-beats are newlines and carriage returns.
proof fn lemma_beats(s: Seq<u8>)
    requires
        is_heart_beats(s),
    ensures
        forall|i: int| 0 <= i < s.len() ==> s[i] == 10 || s[i] == 13,
    decreases s.len(),
{
    if s.len() > 0 {
        let n: int = if s[0] == 10 {
            1
        } else {
            2
        };
        let rest = s.skip(n);
        lemma_beats(rest);
        assert forall|i: int| 0 <= i < s.len() implies s[i] == 10 || s[i] == 13 by {
            if i >= n {
                assert(rest[i - n] == s[i]);
            }
        }
    }
}

/// Past its command line a frame ends in a frame or in an error.
proof fn lemma_no_end_within(stage: StageView, s: Seq<u8>)
    requires
        !(stage is Command),
    ensures
        read_from(stage, s).0 != Ok::<Option<FrameView>, ErrorView>(None),
    decreases s.len(),
{
    lemma_first_at(s, 10u8);
    let n = fetched(wanted(stage), s);
    match step(stage, s.take(n)) {
        Ok(StepView::More(next)) => {
            lemma_no_end_within(next, s.skip(n));
        },
        _ => {},
    }
}

/// Whether `s` is heart-beats, or heart-beats and a carriage return whose
/// newline never came.
pub open spec fn is_quiet(s: Seq<u8>) -> bool {
    is_heart_beats(s) || (s.len() > 0 && s.last() == 13 && is_heart_beats(s.drop_last()))
}

/// Where a read gives the end, nothing but heart-beats was left.
proof fn lemma_end_is_quiet(s: Seq<u8>)
    requires
        read_one(s).0 == Ok::<Option<FrameView>, ErrorView>(None),
    ensures
        is_quiet(s),
    decreases s.len(),
{
    lemma_first_at(s, 10u8);
    let n = fetched(Want::Line, s);
    let raw = s.take(n);
    let rest = s.skip(n);
    if s.len() > 0 {
        let bytes = without_last(without_last(raw, 10), 13);
        match step(StageView::Command, raw) {
            Ok(StepView::More(next)) => {
                if !(next is Command) {
                    lemma_no_end_within(next, rest);
                }
                decode_utf8_encode_utf8(bytes);
                assert(decode_utf8(bytes) =~= Seq::<char>::empty());
                assert(encode_utf8(Seq::<char>::empty()) == Seq::<u8>::empty());
                assert(bytes.len() == 0);
                if raw.last() == 10 {
                    lemma_end_is_quiet(rest);
                    assert(raw[n - 1] == s[n - 1]);
                    assert(raw.drop_last().len() == n - 1);
                    if n == 2 {
                        assert(raw.drop_last().last() == raw[0]);
                        assert(s[0] == 13 && s[1] == 10);
                    } else {
                        assert(n == 1 && s[0] == 10);
                    }
                    if !is_heart_beats(rest) {
                        assert(s.last() == rest.last());
                        assert(s.drop_last().skip(n) =~= rest.drop_last());
                    }
                } else {
                    assert(n == 1 && raw[0] == 13);
                    assert(s.len() == 1);
                    assert(s.drop_last() =~= Seq::<u8>::empty());
                }
            },
            _ => {
                assert(raw.len() > 0);
            },
        }
    }
}

/// A read gives the end where the peer closed between frames, and only
/// there: nothing but heart-beats was left, the last of them perhaps without
/// its newline. No byte of a frame is passed over in silence.
pub proof fn law_only_the_end_between_frames_is_the_end(s: Seq<u8>)
    ensures
        read_one(s).0 == Ok::<Option<FrameView>, ErrorView>(None) <==> is_quiet(s),
        read_one(s).0 == Ok::<Option<FrameView>, ErrorView>(None) ==> read_one(s).1.len() == 0
            && forall|i: int| 0 <= i < s.len() ==> s[i] == 10 || s[i] == 13,
{
    if read_one(s).0 == Ok::<Option<FrameView>, ErrorView>(None) {
        lemma_end_is_quiet(s);
    }
    if is_heart_beats(s) {
        law_the_end_between_frames_is_no_error(s);
        lemma_beats(s);
    } else if is_quiet(s) {
        let beats = s.drop_last();
        let last = seq![13u8];
        let nothing = Seq::<u8>::empty();
        assert(beats + last =~= s);
        law_heart_beats_are_skipped(beats, last);
        lemma_beats(beats);
        lemma_first_at_is(last, 10u8, 1);
        assert(last.take(1) =~= last);
        assert(last.skip(1) =~= nothing);
        assert(without_last(without_last(last, 10), 13) =~= nothing);
        encode_utf8_valid_utf8(Seq::empty());
        encode_utf8_decode_utf8(Seq::empty());
        assert(encode_utf8(Seq::<char>::empty()) == nothing);
        assert(step(StageView::Command, last) == Ok::<StepView, ErrorView>(
            StepView::More(StageView::Command),
        ));
        law_the_end_between_frames_is_no_error(nothing);
        assert(read_one(last) == read_one(nothing));
    }
}

/// Frames on the wire are read one by one, in the order they were written.
pub proof fn law_the_wire_keeps_order(frames: Seq<FrameView>, rest: Seq<u8>)
    requires
        frames.len() > 0,
        can_carry(frames[0]),
    ensures
        read_one(wire(frames) + rest) == (
            Ok::<Option<FrameView>, ErrorView>(Some(frames[0].sealed())),
            wire(frames.drop_first()) + rest,
        ),
{
    let first = seq![frames[0]];
    let others = frames.drop_first();
    assert(first + others == frames);
    lemma_wire_add(first, others);
    assert(first.drop_last() == Seq::<FrameView>::empty());
    assert(wire(first.drop_last()) == Seq::<u8>::empty());
    assert(wire(first) == encoded(frames[0]));
    assert(wire(frames) + rest == encoded(frames[0]) + (wire(others) + rest));
    law_read_gives_back_what_was_written(frames[0], wire(others) + rest);
}

/// Reading on takes bytes from the front and leaves the others as they were.
proof fn lemma_reading_moves_on(stage: StageView, s: Seq<u8>)
    ensures
        exists|n: int|
            0 <= n <= s.len() && #[trigger] s.skip(n) == read_from(stage, s).1 && (n == 0
                ==> s.len() == 0 || stage is Counted),
    decreases s.len(),
{
    lemma_first_at(s, 10u8);
    lemma_first_at(s, 0u8);
    let n = fetched(wanted(stage), s);
    match step(stage, s.take(n)) {
        Ok(StepView::More(next)) => {
            let rest = s.skip(n);
            lemma_reading_moves_on(next, rest);
            let m = choose|m: int|
                0 <= m <= rest.len() && #[trigger] rest.skip(m) == read_from(next, rest).1;
            assert(rest.skip(m) == s.skip(n + m));
        },
        _ => {
            assert(s.skip(n) == read_from(stage, s).1);
        },
    }
}

/// A read takes bytes from the front and leaves the others as they were;
/// only the end itself takes none.
pub proof fn law_reading_moves_on(s: Seq<u8>)
    ensures
        exists|n: int|
            0 <= n <= s.len() && #[trigger] s.skip(n) == read_one(s).1 && (n == 0 ==> s.len() == 0),
{
    lemma_reading_moves_on(StageView::Command, s);
}

/// A body that says it is over the bound is refused before it is read.
pub proof fn law_a_body_over_the_bound_is_refused(frame: FrameView, length: Seq<char>)
    requires
        frame.header("content-length"@) == Some(length),
        number(length) matches Some(n) && n > MAX_BODY,
    ensures
        body_stage(frame) is Err,
{
}

/// A body that runs on over the bound is refused, wherever its NUL stands
/// and whether it has one.
pub proof fn law_a_bare_body_over_the_bound_is_refused(frame: FrameView, body: Seq<u8>)
    requires
        body.len() > MAX_BODY + 1,
        forall|i: int| 0 <= i <= MAX_BODY ==> body[i] != 0,
    ensures
        read_from(StageView::Bare(frame), body).0 == Err::<Option<FrameView>, ErrorView>(
            ErrorView::TooLong,
        ),
{
    lemma_first_at(body, 0u8);
}

/// What is read on is within the bound.
proof fn lemma_read_body_bound(stage: StageView, s: Seq<u8>)
    requires
        stage matches StageView::Counted(_, n) ==> n <= MAX_BODY,
    ensures
        read_from(stage, s).0 matches Ok(Some(frame)) ==> frame.body.len() <= MAX_BODY,
    decreases s.len(),
{
    lemma_first_at(s, 10u8);
    let n = fetched(wanted(stage), s);
    match step(stage, s.take(n)) {
        Ok(StepView::More(next)) => {
            lemma_read_body_bound(next, s.skip(n));
        },
        _ => {},
    }
}

/// Every body that is read is within the bound, its length stated or not.
pub proof fn law_a_read_body_is_within_the_bound(s: Seq<u8>)
    ensures
        read_one(s).0 matches Ok(Some(frame)) ==> frame.body.len() <= MAX_BODY,
{
    lemma_read_body_bound(StageView::Command, s);
}

/// Where the bytes end before what is wanted does, all of them are fetched.
proof fn lemma_all_is_fetched(want: Want, s: Seq<u8>, k: int)
    requires
        0 <= k < fetched(want, s),
    ensures
        fetched(want, s.take(k)) == k,
        want is Line ==> forall|i: int| 0 <= i < k ==> s[i] != 10,
        want is UntilNul ==> forall|i: int| 0 <= i < k ==> s[i] != 0,
        k <= s.len(),
{
    lemma_first_at(s, 10u8);
    lemma_first_at(s, 0u8);
    let cut = s.take(k);
    if want is Line {
        lemma_first_at_is(cut, 10u8, k);
    }
    if want is UntilNul {
        lemma_first_at_is(cut, 0u8, k);
    }
}

/// Where the bytes end after what is wanted does, the same is fetched.
proof fn lemma_same_is_fetched(want: Want, s: Seq<u8>, k: int)
    requires
        fetched(want, s) <= k < s.len(),
    ensures
        fetched(want, s.take(k)) == fetched(want, s),
        0 <= fetched(want, s),
{
    lemma_first_at(s, 10u8);
    lemma_first_at(s, 0u8);
    let cut = s.take(k);
    if want is Line {
        lemma_first_at_is(cut, 10u8, first_at(s, 10u8));
    }
    if want is UntilNul {
        lemma_first_at_is(cut, 0u8, first_at(s, 0u8));
    }
}

/// A part of the bytes that a frame or an error was read out of is no frame:
/// past the command line it is an error, before its end that or the end.
proof fn lemma_cut_off(stage: StageView, s: Seq<u8>, k: int)
    requires
        read_from(stage, s).0 != Ok::<Option<FrameView>, ErrorView>(None),
        0 <= k < s.len(),
        read_from(stage, s).0 is Ok ==> k < s.len() - read_from(stage, s).1.len(),
        stage matches StageView::Counted(_, n) ==> n <= MAX_BODY,
    ensures
        stage is Command ==> read_from(stage, s.take(k)).0 is Err || read_from(
            stage,
            s.take(k),
        ).0 == Ok::<Option<FrameView>, ErrorView>(None),
        !(stage is Command) ==> read_from(stage, s.take(k)).0 is Err,
    decreases s.len(),
{
    lemma_first_at(s, 10u8);
    lemma_first_at(s, 0u8);
    let cut = s.take(k);
    let n = fetched(wanted(stage), s);
    let chunk = s.take(n);
    let nothing = Seq::<u8>::empty();
    assert(nothing.take(0) == nothing && nothing.skip(0) == nothing);
    if k < n {
        lemma_all_is_fetched(wanted(stage), s, k);
        assert(cut.take(k) == cut);
        assert(cut.skip(k) == nothing);
        match stage {
            StageView::Bare(_) => {
                if k > 0 {
                    assert(cut.last() == s[k - 1]);
                }
            },
            StageView::Counted(_, length) => {
                assert(cut.len() < length + 1);
            },
            _ => {
                match step(stage, cut) {
                    Ok(StepView::More(next)) => {
                        assert(read_from(next, nothing).0 is Err || stage is Command);
                    },
                    _ => {},
                }
            },
        }
    } else {
        lemma_same_is_fetched(wanted(stage), s, k);
        assert(cut.take(n) == chunk);
        let rest = s.skip(n);
        assert(cut.skip(n) == rest.take(k - n));
        match step(stage, chunk) {
            Ok(StepView::More(next)) => {
                lemma_cut_off(next, rest, k - n);
            },
            _ => {},
        }
    }
}

/// No frame comes out of part of one: what a read took a frame out of, cut
/// off anywhere, gives an error or the end.
pub proof fn law_a_part_of_a_frame_is_no_frame(s: Seq<u8>, k: int)
    requires
        read_one(s).0 matches Ok(Some(_)),
        0 <= k < s.len() - read_one(s).1.len(),
    ensures
        read_one(s.take(k)).0 is Err || read_one(s.take(k)).0 == Ok::<
            Option<FrameView>,
            ErrorView,
        >(None),
{
    lemma_cut_off(StageView::Command, s, k);
}

/// Whether no part of what is written of a frame is a frame itself: the
/// command is a line, headers that are written bare fit theirs, and a length
/// that the headers state does not end at a NUL within the body. How long the
/// body is does not matter.
pub open spec fn ends_once(frame: FrameView) -> bool {
    &&& frame.command.len() > 0
    &&& fits_line(frame.command)
    &&& is_bare(frame.command) ==> forall|i: int|
        0 <= i < frame.headers.len() ==> fits_bare(#[trigger] frame.headers[i])
    &&& match frame.header("content-length"@) {
        Some(length) => number(length) matches Some(n) ==> n >= frame.body.len()
            || frame.body[n as int] != 0,
        None => true,
    }
}

/// What is written of a frame that cannot be carried is an error at its body.
proof fn lemma_uncarried_body(frame: FrameView, head: FrameView)
    requires
        ends_once(frame),
        !can_carry(frame),
        head == (FrameView { body: Seq::empty(), ..frame.sealed() }),
    ensures
        at_body(head, frame.body + seq![0u8]).0 is Err,
{
    let m = frame.body.len();
    let tail = frame.body + seq![0u8];
    lemma_decimal(m);
    lemma_header_value_push(
        frame.headers,
        ("content-length"@, decimal(m)),
        "content-length"@,
    );
    let length = head.header("content-length"@)->0;
    assert(head.header("content-length"@) is Some);
    if let Ok(n) = length_of(length) {
        assert(number(length) == Some(n));
        assert(n != m);
        let stage = StageView::Counted(head, n);
        if n < m {
            assert(fetched(wanted(stage), tail) == n + 1);
            assert(tail.take(n as int + 1).last() == frame.body[n as int]);
        } else {
            assert(fetched(wanted(stage), tail) == m + 1);
            assert(tail.take(m as int + 1).len() == m + 1);
        }
    }
}

/// What is written of a frame is, past its command line, read to the end or
/// an error.
proof fn lemma_written(frame: FrameView)
    requires
        ends_once(frame),
    ensures
        ({
            let s = encoded(frame);
            let begun = StageView::Headers(FrameView::new(frame.command));
            let n = fetched(Want::Line, s);
            &&& 0 < n <= s.len()
            &&& read_one(s) == read_from(begun, s.skip(n))
            &&& read_one(s).0 is Err || (read_one(s).0 matches Ok(Some(_)) && read_one(s).1.len()
                == 0)
        }),
{
    let s = encoded(frame);
    let nothing = Seq::<u8>::empty();
    let sealed = frame.sealed();
    let body = frame.body + seq![0u8];
    let lines = header_lines(is_bare(frame.command), sealed.headers) + seq!['\n'];
    let tail = encode_utf8(lines) + body;
    lemma_head_text(frame);
    lemma_encode_add(frame.command + seq!['\n'], lines);
    assert(s == encode_utf8(frame.command + seq!['\n']) + tail);
    lemma_line(frame.command, tail);
    if can_carry(frame) {
        law_read_gives_back_what_was_written(frame, nothing);
        assert(s + nothing == s);
    } else {
        let begun = FrameView::new(frame.command);
        assert forall|i: int|
            is_bare(frame.command) && 0 <= i < sealed.headers.len() implies fits_bare(
            #[trigger] sealed.headers[i],
        ) by {
            if i < frame.headers.len() {
                assert(sealed.headers[i] == frame.headers[i]);
            }
        }
        lemma_headers(begun, sealed.headers, body);
        let head = with_headers(begun, sealed.headers);
        assert(head =~= (FrameView { body: Seq::empty(), ..sealed }));
        lemma_uncarried_body(frame, head);
    }
}

/// A frame that was written and is cut off anywhere is an error, however long
/// its body, but for a command that begins with a carriage return and is cut
/// off behind it: that is a blank line.
pub proof fn law_a_frame_cut_off_is_an_error(frame: FrameView, k: int)
    requires
        ends_once(frame),
        0 < k < encoded(frame).len(),
        !(k == 1 && frame.command[0] == '\r'),
    ensures
        read_one(encoded(frame).take(k)).0 is Err,
{
    let s = encoded(frame);
    let cut = s.take(k);
    let nothing = Seq::<u8>::empty();
    lemma_written(frame);
    lemma_head_text(frame);
    let lines = header_lines(is_bare(frame.command), frame.sealed().headers) + seq!['\n'];
    let first = encode_utf8(frame.command + seq!['\n']);
    lemma_encode_add(frame.command + seq!['\n'], lines);
    assert(s == first + (encode_utf8(lines) + (frame.body + seq![0u8])));
    lemma_line(frame.command, encode_utf8(lines) + (frame.body + seq![0u8]));
    let begun = StageView::Headers(FrameView::new(frame.command));
    let n = fetched(Want::Line, s);
    if k < n {
        lemma_all_is_fetched(Want::Line, s, k);
        assert(cut.take(k) == cut);
        assert(cut.skip(k) == nothing);
        assert(nothing.take(0) == nothing && nothing.skip(0) == nothing);
        assert(cut.last() == s[k - 1]);
        let bytes = without_last(cut, 13);
        if k == 1 {
            let c = seq![frame.command[0]];
            let others = frame.command.drop_first() + seq!['\n'];
            assert(c + others == frame.command + seq!['\n']);
            lemma_encode_add(c, others);
            lemma_encode_last(c, '\r');
            lemma_encode_without(c, '\r');
            assert(cut[0] == encode_utf8(c)[0]);
        }
        assert(bytes.len() > 0);
        if valid_utf8(bytes) {
            decode_utf8_encode_utf8(bytes);
            assert(decode_utf8(bytes).len() > 0);
            let next = StageView::Headers(FrameView::new(decode_utf8(bytes)));
            assert(step(StageView::Command, cut) == Ok::<StepView, ErrorView>(StepView::More(next)));
            assert(read_from(next, nothing).0 is Err);
        }
    } else {
        lemma_same_is_fetched(Want::Line, s, k);
        assert(cut.take(n) == s.take(n));
        assert(cut.skip(n) == s.skip(n).take(k - n));
        lemma_cut_off(begun, s.skip(n), k - n);
    }
}

/// A header is the first value under its name, wherever that stands and
/// whatever other headers there are; and it is missing where no header has
/// the name.
pub proof fn law_a_header_is_its_first_value(frame: FrameView, name: Seq<char>, i: int)
    requires
        0 <= i <= frame.headers.len(),
        forall|j: int| 0 <= j < i ==> (#[trigger] frame.headers[j]).0 != name,
        i < frame.headers.len() ==> frame.headers[i].0 == name,
    ensures
        frame.header(name) == if i < frame.headers.len() {
            Some(frame.headers[i].1)
        } else {
            None
        },
        frame.header_or_empty(name) == if i < frame.headers.len() {
            frame.headers[i].1
        } else {
            Seq::empty()
        },
    decreases frame.headers.len(),
{
    if i > 0 {
        let rest = FrameView { headers: frame.headers.drop_first(), ..frame };
        assert forall|j: int| 0 <= j < i - 1 implies (#[trigger] rest.headers[j]).0 != name by {
            assert(rest.headers[j] == frame.headers[j + 1]);
        }
        law_a_header_is_its_first_value(rest, name, i - 1);
        assert(frame.headers[0].0 != name);
    }
}

/// A frame is made of what it is given: a command, headers in the order they
/// are added, a body.
pub proof fn law_a_frame_is_what_it_is_given(
    frame: FrameView,
    name: Seq<char>,
    value: Seq<char>,
    body: Seq<u8>,
)
    ensures
        FrameView::new(name).command == name,
        FrameView::new(name).headers.len() == 0,
        FrameView::new(name).body.len() == 0,
        frame.with_header(name, value).command == frame.command,
        frame.with_header(name, value).body == frame.body,
        frame.with_header(name, value).headers.len() == frame.headers.len() + 1,
        frame.with_header(name, value).headers.last() == (name, value),
        frame.with_header(name, value).headers.drop_last() == frame.headers,
        frame.with_body(body).command == frame.command,
        frame.with_body(body).headers == frame.headers,
        frame.with_body(body).body == body,
{
    assert(frame.headers.push((name, value)).drop_last() =~= frame.headers);
}

/// Text is escaped character by character: four characters as a backslash
/// and a letter or another backslash, every other as itself.
pub proof fn law_text_is_escaped_character_by_character(a: Seq<char>, b: Seq<char>, c: char)
    ensures
        escaped(a + b) == escaped(a) + escaped(b),
        escaped(Seq::empty()) == Seq::<char>::empty(),
        escaped(seq!['\r']) == seq!['\\', 'r'],
        escaped(seq!['\n']) == seq!['\\', 'n'],
        escaped(seq![':']) == seq!['\\', 'c'],
        escaped(seq!['\\']) == seq!['\\', '\\'],
        c != '\r' && c != '\n' && c != ':' && c != '\\' ==> escaped(seq![c]) == seq![c],
    decreases a.len(),
{
    if a.len() == 0 {
        assert(a + b =~= b);
        assert(escaped(a) + escaped(b) =~= escaped(b));
    } else {
        let rest = a.drop_first();
        law_text_is_escaped_character_by_character(rest, b, c);
        assert((a + b).drop_first() =~= rest + b);
        assert(escaped(a + b) =~= escaped(a) + escaped(b));
    }
    lemma_escaped_one('\r');
    lemma_escaped_one('\n');
    lemma_escaped_one(':');
    lemma_escaped_one('\\');
    lemma_escaped_one(c);
}

/// One character is escaped as itself or as its two.
proof fn lemma_escaped_one(c: char)
    ensures
        escaped(seq![c]) == escaped_char(c),
{
    assert(seq![c].drop_first() =~= Seq::<char>::empty());
    assert(escaped(Seq::<char>::empty()) =~= Seq::<char>::empty());
    assert(escaped_char(c) + Seq::<char>::empty() =~= escaped_char(c));
}

/// Text is unescaped from its front on: what reads as something reads as it
/// before anything else, and the first backslash before a character that has
/// no meaning, or before none, is the failure.
pub proof fn law_text_is_unescaped_from_the_front(front: Seq<char>, back: Seq<char>, c: char)
    requires
        unescaped(front) is Ok,
    ensures
        unescaped(back) matches Ok(text) ==> unescaped(front + back) == Ok::<Seq<char>, ErrorView>(
            unescaped(front)->Ok_0 + text,
        ),
        unescaped(back) matches Err(error) ==> unescaped(front + back) == Err::<
            Seq<char>,
            ErrorView,
        >(error),
        unescaped(Seq::empty()) == Ok::<Seq<char>, ErrorView>(Seq::empty()),
        c != '\\' ==> unescaped(seq![c]) == Ok::<Seq<char>, ErrorView>(seq![c]),
        unescaped(seq!['\\', 'r']) == Ok::<Seq<char>, ErrorView>(seq!['\r']),
        unescaped(seq!['\\', 'n']) == Ok::<Seq<char>, ErrorView>(seq!['\n']),
        unescaped(seq!['\\', 'c']) == Ok::<Seq<char>, ErrorView>(seq![':']),
        unescaped(seq!['\\', '\\']) == Ok::<Seq<char>, ErrorView>(seq!['\\']),
        c != 'r' && c != 'n' && c != 'c' && c != '\\' ==> unescaped(seq!['\\', c] + back) == Err::<
            Seq<char>,
            ErrorView,
        >(ErrorView::UndefinedEscape(c)),
        unescaped(seq!['\\']) == Err::<Seq<char>, ErrorView>(ErrorView::UndefinedEscape(' ')),
    decreases front.len(),
{
    let whole = front + back;
    let nothing = Seq::<char>::empty();
    assert(seq![c].drop_first() =~= nothing);
    assert(seq![c] + nothing =~= seq![c]);
    lemma_unescaped_pair('r');
    lemma_unescaped_pair('n');
    lemma_unescaped_pair('c');
    lemma_unescaped_pair('\\');
    if front.len() == 0 {
        assert(whole =~= back);
        if let Ok(text) = unescaped(back) {
            assert(nothing + text =~= text);
        }
    } else if front[0] != '\\' {
        let rest = front.drop_first();
        law_text_is_unescaped_from_the_front(rest, back, c);
        assert(whole.drop_first() =~= rest + back);
        if let Ok(text) = unescaped(back) {
            assert(seq![front[0]] + (unescaped(rest)->Ok_0 + text) =~= (seq![front[0]] + unescaped(
                rest,
            )->Ok_0) + text);
        }
    } else {
        let rest = front.skip(2);
        law_text_is_unescaped_from_the_front(rest, back, c);
        assert(whole.skip(2) =~= rest + back);
        assert(whole[1] == front[1]);
        if let Ok(text) = unescaped(back) {
            let meant = seq![escape_meaning(front[1])->0];
            assert(meant + (unescaped(rest)->Ok_0 + text) =~= (meant + unescaped(rest)->Ok_0)
                + text);
        }
    }
}

/// A backslash and the character behind it.
proof fn lemma_unescaped_pair(c: char)
    ensures
        escape_meaning(c) matches Some(meant) ==> unescaped(seq!['\\', c]) == Ok::<
            Seq<char>,
            ErrorView,
        >(seq![meant]),
{
    let nothing = Seq::<char>::empty();
    assert(seq!['\\', c].skip(2) =~= nothing);
    assert(unescaped(nothing) == Ok::<Seq<char>, ErrorView>(nothing));
    if let Some(meant) = escape_meaning(c) {
        assert(seq![meant] + nothing =~= seq![meant]);
    }
}

/// A frame without headers and body is its command, a blank line and a NUL.
pub proof fn law_a_command_alone_is_its_line(command: Seq<char>)
    ensures
        encoded(FrameView { command, headers: Seq::empty(), body: Seq::empty() }) == encode_utf8(
            command + seq!['\n', '\n'],
        ) + seq![0u8],
{
    let frame = FrameView { command, headers: Seq::<HeaderView>::empty(), body: Seq::empty() };
    assert(head_text(frame) =~= command + seq!['\n', '\n']);
    assert(encoded(frame) =~= encode_utf8(command + seq!['\n', '\n']) + seq![0u8]);
}

/// What is written of the head of a frame before its blank line.
pub open spec fn begun(head: FrameView) -> Seq<u8> {
    encoded(head).take(encoded(head).len() - 2)
}

/// The head of a frame ends in a blank line and, without a body, its NUL.
proof fn lemma_begun(head: FrameView)
    requires
        head.body.len() == 0,
    ensures
        encoded(head).len() >= 2,
        encoded(head) == begun(head) + seq![10u8, 0u8],
        begun(head) == encode_utf8(
            head.command + seq!['\n'] + header_lines(is_bare(head.command), head.headers),
        ),
{
    let text = head.command + seq!['\n'] + header_lines(is_bare(head.command), head.headers);
    assert(head_text(head) =~= text + seq!['\n']);
    lemma_encode_add(text, seq!['\n']);
    lemma_encode_ascii('\n');
    assert(encoded(head) =~= encode_utf8(text) + seq![10u8, 0u8]);
    assert(begun(head) =~= encode_utf8(text));
}

/// One header more is one line more before the blank line, its name and its
/// value with a colon between them: escaped, but for CONNECT and CONNECTED.
pub proof fn law_a_header_is_one_line_more(head: FrameView, name: Seq<char>, value: Seq<char>)
    requires
        head.body.len() == 0,
    ensures
        encoded(head) == begun(head) + seq![10u8, 0u8],
        head.command == "CONNECT"@ || head.command == "CONNECTED"@ ==> encoded(
            FrameView { headers: head.headers.push((name, value)), ..head },
        ) == begun(head) + encode_utf8(name + seq![':'] + value + seq!['\n']) + seq![10u8, 0u8],
        head.command != "CONNECT"@ && head.command != "CONNECTED"@ ==> encoded(
            FrameView { headers: head.headers.push((name, value)), ..head },
        ) == begun(head) + encode_utf8(
            escaped(name) + seq![':'] + escaped(value) + seq!['\n'],
        ) + seq![10u8, 0u8],
{
    let bare = is_bare(head.command);
    let longer = FrameView { headers: head.headers.push((name, value)), ..head };
    let line = header_line(bare, (name, value));
    lemma_begun(head);
    lemma_begun(longer);
    lemma_header_lines_push(bare, head.headers, (name, value));
    let text = head.command + seq!['\n'] + header_lines(bare, head.headers);
    assert(head.command + seq!['\n'] + header_lines(bare, longer.headers) =~= text + line);
    lemma_encode_add(text, line);
}

/// A body stands between the head and the NUL as it is, and its length is
/// stated in one header more, where none states it and it is not empty.
pub proof fn law_a_body_follows_its_head(head: FrameView, body: Seq<u8>)
    requires
        head.body.len() == 0,
    ensures
        body.len() == 0 || head.header("content-length"@) is Some ==> encoded(
            FrameView { body, ..head },
        ) == encoded(head).drop_last() + body + seq![0u8],
        body.len() > 0 && head.header("content-length"@) is None ==> encoded(
            FrameView { body, ..head },
        ) == encoded(
            FrameView {
                headers: head.headers.push(("content-length"@, decimal(body.len()))),
                ..head
            },
        ).drop_last() + body + seq![0u8],
{
    let whole = FrameView { body, ..head };
    if body.len() == 0 || head.header("content-length"@) is Some {
        assert(head_text(whole) =~= head_text(head));
        assert(encoded(head).drop_last() =~= encode_utf8(head_text(head)));
        assert(encoded(whole) =~= encoded(head).drop_last() + body + seq![0u8]);
    } else {
        let stated = FrameView {
            headers: head.headers.push(("content-length"@, decimal(body.len()))),
            ..head
        };
        lemma_head_text(whole);
        lemma_head_text(stated);
        assert(stated.sealed().headers =~= whole.sealed().headers);
        assert(head_text(whole) =~= head_text(stated));
        assert(encoded(stated).drop_last() =~= encode_utf8(head_text(stated)));
        assert(encoded(whole) =~= encoded(stated).drop_last() + body + seq![0u8]);
    }
}

/// Whether a head is read back as it is written: a command that is a line,
/// and headers that fit theirs, where they are written bare.
pub open spec fn can_head(head: FrameView) -> bool {
    &&& head.command.len() > 0
    &&& fits_line(head.command)
    &&& head.command == "CONNECT"@ || head.command == "CONNECTED"@ ==> forall|i: int|
        0 <= i < head.headers.len() ==> fits_bare(#[trigger] head.headers[i])
    &&& head.body.len() == 0
}

/// Header lines are read in the order they were written, and then what
/// follows them.
proof fn lemma_header_lines(frame: FrameView, headers: Seq<HeaderView>, tail: Seq<u8>)
    requires
        is_bare(frame.command) ==> forall|i: int|
            0 <= i < headers.len() ==> fits_bare(#[trigger] headers[i]),
    ensures
        read_from(
            StageView::Headers(frame),
            encode_utf8(header_lines(is_bare(frame.command), headers)) + tail,
        ) == read_from(StageView::Headers(with_headers(frame, headers)), tail),
    decreases headers.len(),
{
    let bare = is_bare(frame.command);
    let lines = header_lines(bare, headers);
    let s = encode_utf8(lines) + tail;
    if headers.len() == 0 {
        assert(lines =~= Seq::<char>::empty());
        assert(encode_utf8(lines) =~= Seq::<u8>::empty());
        assert(s =~= tail);
        assert(with_headers(frame, headers) =~= frame);
    } else {
        let header = headers[0];
        let others = headers.drop_first();
        let line = header_text(bare, header);
        lemma_header(bare, header);
        let more = header_lines(bare, others);
        let rest = encode_utf8(more) + tail;
        assert(lines == (line + seq!['\n']) + more);
        lemma_encode_add(line + seq!['\n'], more);
        assert(s == encode_utf8(line + seq!['\n']) + rest);
        lemma_line(line, rest);
        let next = frame.with_header(header.0, header.1);
        assert forall|i: int| bare && 0 <= i < others.len() implies fits_bare(
            #[trigger] others[i],
        ) by {
            assert(others[i] == headers[i + 1]);
        }
        lemma_header_lines(next, others, tail);
        assert(with_headers(next, others) =~= with_headers(frame, headers)) by {
            assert(frame.headers.push(header) + others =~= frame.headers + headers);
        }
    }
}

/// What follows a head that has begun is read as its next line.
proof fn lemma_read_begun(head: FrameView, tail: Seq<u8>)
    requires
        can_head(head),
    ensures
        read_one(begun(head) + tail) == read_from(StageView::Headers(head), tail),
{
    let bare = is_bare(head.command);
    let lines = header_lines(bare, head.headers);
    let first = head.command + seq!['\n'];
    lemma_begun(head);
    lemma_encode_add(first, lines);
    let after = encode_utf8(lines) + tail;
    assert(begun(head) + tail =~= encode_utf8(first) + after);
    lemma_line(head.command, after);
    let start = FrameView::new(head.command);
    lemma_header_lines(start, head.headers, tail);
    assert(with_headers(start, head.headers) =~= head);
}

/// What follows the blank line of a head is read as its body.
proof fn lemma_read_head(head: FrameView, tail: Seq<u8>)
    requires
        can_head(head),
    ensures
        read_one(encoded(head).drop_last() + tail) == at_body(head, tail),
{
    lemma_begun(head);
    lemma_read_begun(head, seq![10u8] + tail);
    assert(encoded(head).drop_last() + tail =~= begun(head) + (seq![10u8] + tail));
    let empty = Seq::<char>::empty();
    lemma_line(empty, tail);
    lemma_encode_ascii('\n');
    assert(empty + seq!['\n'] =~= seq!['\n']);
    assert(encode_utf8(empty + seq!['\n']) + tail =~= seq![10u8] + tail);
}

/// A frame whose headers do not state a length is read with the body up to
/// the first NUL, whatever its command and its headers are, and what follows
/// is left.
pub proof fn law_an_unstated_body_is_read_to_the_first_nul(
    head: FrameView,
    body: Seq<u8>,
    rest: Seq<u8>,
)
    requires
        can_head(head),
        forall|i: int|
            0 <= i < head.headers.len() ==> (#[trigger] head.headers[i]).0 != "content-length"@,
        forall|i: int| 0 <= i < body.len() ==> body[i] != 0,
        body.len() <= MAX_BODY,
    ensures
        read_one(encoded(head).drop_last() + body + seq![0u8] + rest) == (
            Ok::<Option<FrameView>, ErrorView>(
                Some(FrameView { command: head.command, headers: head.headers, body }),
            ),
            rest,
        ),
{
    let tail = body + seq![0u8] + rest;
    law_a_header_is_its_first_value(head, "content-length"@, head.headers.len() as int);
    lemma_read_head(head, tail);
    assert(encoded(head).drop_last() + body + seq![0u8] + rest =~= encoded(head).drop_last()
        + tail);
    law_a_bare_body_runs_to_nul(head, body, rest);
}

/// Without a stated length a body that never ends is an error, and so is one
/// that is too long.
pub proof fn law_an_unstated_body_must_end(head: FrameView, tail: Seq<u8>)
    requires
        can_head(head),
        forall|i: int|
            0 <= i < head.headers.len() ==> (#[trigger] head.headers[i]).0 != "content-length"@,
        forall|i: int| 0 <= i < tail.len() && i <= MAX_BODY ==> tail[i] != 0,
    ensures
        read_one(encoded(head).drop_last() + tail).0 == Err::<Option<FrameView>, ErrorView>(
            if tail.len() <= MAX_BODY + 1 {
                ErrorView::EndsBeforeNul
            } else {
                ErrorView::TooLong
            },
        ),
{
    law_a_header_is_its_first_value(head, "content-length"@, head.headers.len() as int);
    lemma_read_head(head, tail);
    lemma_first_at(tail, 0u8);
    let n = fetched(Want::UntilNul, tail);
    if tail.len() <= MAX_BODY + 1 {
        assert(n == tail.len());
        assert(tail.take(n) =~= tail);
        if tail.len() > 0 {
            assert(tail.last() == tail[tail.len() - 1]);
        }
    } else {
        assert(n > MAX_BODY + 1);
    }
}

/// A frame whose headers state a length, the first of them that does, is
/// read with that many bytes, NULs too, whatever its command and its other
/// headers are, and what follows the NUL behind them is left. A body cut
/// short, or not followed by a NUL, is an error.
pub proof fn law_a_stated_body_is_read_to_its_length(
    head: FrameView,
    i: int,
    body: Seq<u8>,
    next: u8,
    rest: Seq<u8>,
)
    requires
        can_head(head),
        0 <= i < head.headers.len(),
        head.headers[i].0 == "content-length"@,
        forall|j: int| 0 <= j < i ==> (#[trigger] head.headers[j]).0 != "content-length"@,
        number(head.headers[i].1) matches Some(n) && body.len() <= n <= MAX_BODY,
    ensures
        number(head.headers[i].1) == Some(body.len()) && next == 0 ==> read_one(
            encoded(head).drop_last() + body + seq![next] + rest,
        ) == (
            Ok::<Option<FrameView>, ErrorView>(
                Some(FrameView { command: head.command, headers: head.headers, body }),
            ),
            rest,
        ),
        number(head.headers[i].1) == Some(body.len()) && next != 0 ==> read_one(
            encoded(head).drop_last() + body + seq![next] + rest,
        ).0 == Err::<Option<FrameView>, ErrorView>(ErrorView::NoNulAfterBody),
        read_one(encoded(head).drop_last() + body).0 == Err::<Option<FrameView>, ErrorView>(
            ErrorView::CutShort,
        ),
{
    let n = number(head.headers[i].1)->0;
    let stage = StageView::Counted(head, n);
    law_a_header_is_its_first_value(head, "content-length"@, i);
    lemma_read_head(head, body);
    assert(fetched(wanted(stage), body) == body.len());
    assert(body.take(body.len() as int) =~= body);
    let tail = body + seq![next] + rest;
    lemma_read_head(head, tail);
    assert(encoded(head).drop_last() + body + seq![next] + rest =~= encoded(head).drop_last()
        + tail);
    if n == body.len() {
        assert(fetched(wanted(stage), tail) == n + 1);
        assert(tail.take(n as int + 1) =~= body + seq![next]);
        assert((body + seq![next]).last() == next);
        if next == 0 {
            law_a_stated_length_carries_any_body(head, body, rest);
        }
    }
}

/// A length that is not a number, or over the bound, is an error whatever
/// follows.
pub proof fn law_a_length_that_cannot_be_read_is_an_error(head: FrameView, i: int, tail: Seq<u8>)
    requires
        can_head(head),
        0 <= i < head.headers.len(),
        head.headers[i].0 == "content-length"@,
        forall|j: int| 0 <= j < i ==> (#[trigger] head.headers[j]).0 != "content-length"@,
    ensures
        number(head.headers[i].1) is None ==> read_one(encoded(head).drop_last() + tail).0 == Err::<
            Option<FrameView>,
            ErrorView,
        >(ErrorView::BadLength(head.headers[i].1)),
        number(head.headers[i].1) matches Some(n) ==> MAX_BODY < n <= usize::MAX ==> read_one(
            encoded(head).drop_last() + tail,
        ).0 == Err::<Option<FrameView>, ErrorView>(ErrorView::TooLong),
        number(head.headers[i].1) matches Some(n) ==> n > usize::MAX ==> read_one(
            encoded(head).drop_last() + tail,
        ).0 == Err::<Option<FrameView>, ErrorView>(ErrorView::BadLength(head.headers[i].1)),
{
    law_a_header_is_its_first_value(head, "content-length"@, i);
    lemma_read_head(head, tail);
}

/// A line that is read after a head has begun.
proof fn lemma_read_line(head: FrameView, line: Seq<char>, tail: Seq<u8>)
    requires
        can_head(head),
        fits_line(line),
    ensures
        line.len() > 0 ==> read_one(begun(head) + encode_utf8(line + seq!['\n']) + tail)
            == match header_of(is_bare(head.command), line) {
            Ok((name, value)) => read_from(StageView::Headers(head.with_header(name, value)), tail),
            Err(error) => (Err(error), tail),
        },
{
    let next = encode_utf8(line + seq!['\n']) + tail;
    lemma_read_begun(head, next);
    lemma_line(line, tail);
    assert(begun(head) + encode_utf8(line + seq!['\n']) + tail =~= begun(head) + next);
}

/// A header line is split at its first colon. What stands before it and
/// behind it are the name and the value: bare in CONNECT and CONNECTED, and
/// in every other frame with their escapes read. The frame goes on as if that
/// header had been written.
pub proof fn law_a_header_line_is_read_as_its_header(
    head: FrameView,
    left: Seq<char>,
    right: Seq<char>,
    tail: Seq<u8>,
)
    requires
        can_head(head),
        !left.contains(':'),
        fits_line(left + seq![':'] + right),
    ensures
        ({
            let read = read_one(
                begun(head) + encode_utf8(left + seq![':'] + right + seq!['\n']) + tail,
            );
            if head.command == "CONNECT"@ || head.command == "CONNECTED"@ {
                read == read_one(
                    begun(FrameView { headers: head.headers.push((left, right)), ..head }) + tail,
                )
            } else {
                match (unescaped(left), unescaped(right)) {
                    (Ok(name), Ok(value)) => read == read_one(
                        begun(FrameView { headers: head.headers.push((name, value)), ..head })
                            + tail,
                    ),
                    (Err(error), _) => read.0 == Err::<Option<FrameView>, ErrorView>(error),
                    (_, Err(error)) => read.0 == Err::<Option<FrameView>, ErrorView>(error),
                }
            }
        }),
{
    let line = left + seq![':'] + right;
    let bare = is_bare(head.command);
    law_a_text_splits_at_the_first(left, ':', right);
    lemma_read_line(head, line, tail);
    assert(line + seq!['\n'] =~= left + seq![':'] + right + seq!['\n']);
    if let Ok((name, value)) = header_of(bare, line) {
        let next = FrameView { headers: head.headers.push((name, value)), ..head };
        assert forall|i: int| bare && 0 <= i < next.headers.len() implies fits_bare(
            #[trigger] next.headers[i],
        ) by {
            if i < head.headers.len() {
                assert(next.headers[i] == head.headers[i]);
            } else {
                assert forall|k: int| 0 <= k < left.len() implies left[k] != ':' && left[k]
                    != '\n' by {
                    assert(left.contains(left[k]));
                    assert(line[k] == left[k]);
                }
                assert forall|k: int| 0 <= k < right.len() implies right[k] != '\n' by {
                    assert(line[k + left.len() + 1] == right[k]);
                }
                if right.len() > 0 {
                    assert(line.last() == right.last());
                }
            }
        }
        lemma_read_begun(next, tail);
    }
}

/// Before the blank line, a line without a colon is an error that names it,
/// a line that is not UTF-8 is an error, and so is the end.
pub proof fn law_what_is_no_header_line_is_an_error(
    head: FrameView,
    line: Seq<char>,
    raw: Seq<u8>,
    tail: Seq<u8>,
)
    requires
        can_head(head),
    ensures
        line.len() > 0 && fits_line(line) && !line.contains(':') ==> read_one(
            begun(head) + encode_utf8(line + seq!['\n']) + tail,
        ).0 == Err::<Option<FrameView>, ErrorView>(ErrorView::NoColon(line)),
        !valid_utf8(raw) && !raw.contains(10u8) && raw.last() != 13 ==> read_one(
            begun(head) + raw + seq![10u8] + tail,
        ).0 == Err::<Option<FrameView>, ErrorView>(ErrorView::NotUtf8),
        read_one(begun(head)).0 == Err::<Option<FrameView>, ErrorView>(ErrorView::EndsInHeaders),
{
    let nothing = Seq::<u8>::empty();
    if line.len() > 0 && fits_line(line) && !line.contains(':') {
        law_a_text_splits_at_the_first(line, ':', Seq::empty());
        lemma_read_line(head, line, tail);
    }
    if !valid_utf8(raw) && !raw.contains(10u8) && raw.last() != 13 {
        let next = raw + seq![10u8] + tail;
        let n = raw.len() as int;
        lemma_read_begun(head, next);
        assert(begun(head) + raw + seq![10u8] + tail =~= begun(head) + next);
        assert forall|i: int| 0 <= i < n implies next[i] != 10u8 by {
            assert(raw.contains(raw[i]));
            assert(next[i] == raw[i]);
        }
        lemma_first_at_is(next, 10u8, n);
        assert(next.take(n + 1) =~= raw + seq![10u8]);
        assert((raw + seq![10u8]).drop_last() =~= raw);
        assert(without_last(without_last(raw + seq![10u8], 10), 13) =~= raw);
    }
    lemma_read_begun(head, nothing);
    assert(begun(head) + nothing =~= begun(head));
    assert(nothing.take(0) =~= nothing);
}

/// A carriage return before the newline of a line changes nothing, be it the
/// command's, a header's or the blank one.
pub proof fn law_a_carriage_return_changes_nothing(
    stage: StageView,
    head: FrameView,
    line: Seq<char>,
    tail: Seq<u8>,
)
    requires
        fits_line(line),
        can_head(head),
    ensures
        stage is Command || stage is Headers ==> step(stage, encode_utf8(line) + seq![13u8, 10u8])
            == step(stage, encode_utf8(line) + seq![10u8]),
        read_one(encode_utf8(line) + seq![13u8, 10u8] + tail) == read_one(
            encode_utf8(line) + seq![10u8] + tail,
        ),
        read_one(begun(head) + encode_utf8(line) + seq![13u8, 10u8] + tail) == read_one(
            begun(head) + encode_utf8(line) + seq![10u8] + tail,
        ),
{
    let text = encode_utf8(line);
    let n = text.len() as int;
    let short = text + seq![10u8] + tail;
    let long = text + seq![13u8, 10u8] + tail;
    law_lines_end_either_way(line);
    lemma_encode_without(line, '\n');
    assert forall|i: int| 0 <= i < n implies short[i] != 10u8 && long[i] != 10u8 by {
        assert(short[i] == text[i] && long[i] == text[i]);
    }
    assert(long[n] == 13u8);
    lemma_first_at_is(short, 10u8, n);
    lemma_first_at_is(long, 10u8, n + 1);
    assert(short.take(n + 1) =~= text + seq![10u8]);
    assert(long.take(n + 2) =~= text + seq![13u8, 10u8]);
    assert(short.skip(n + 1) =~= tail);
    assert(long.skip(n + 2) =~= tail);
    lemma_read_begun(head, short);
    lemma_read_begun(head, long);
    assert(begun(head) + text + seq![13u8, 10u8] + tail =~= begun(head) + long);
    assert(begun(head) + text + seq![10u8] + tail =~= begun(head) + short);
    assert(step(StageView::Command, text + seq![13u8, 10u8]) == step(
        StageView::Command,
        text + seq![10u8],
    ));
}

/// A line is its characters, one newline and one carriage return before it
/// left out where they stand at its end; without either it is itself.
pub proof fn law_a_line_loses_its_end_alone(text: Seq<char>, raw: Seq<u8>)
    ensures
        line_of(encode_utf8(text) + seq![13u8, 10u8]) == Ok::<Option<Seq<char>>, ErrorView>(
            Some(text),
        ),
        fits_line(text) && text.len() > 0 ==> line_of(encode_utf8(text)) == Ok::<
            Option<Seq<char>>,
            ErrorView,
        >(Some(text)),
        line_of(Seq::empty()) == Ok::<Option<Seq<char>>, ErrorView>(None),
        !valid_utf8(raw) && raw.last() != 13 ==> line_of(raw + seq![10u8]) == Err::<
            Option<Seq<char>>,
            ErrorView,
        >(ErrorView::NotUtf8),
{
    let bytes = encode_utf8(text);
    encode_utf8_valid_utf8(text);
    encode_utf8_decode_utf8(text);
    assert((bytes + seq![13u8, 10u8]).drop_last() =~= bytes + seq![13u8]);
    assert((bytes + seq![13u8]).drop_last() =~= bytes);
    if fits_line(text) && text.len() > 0 {
        lemma_encode_last(text, '\r');
        assert(text[text.len() - 1] != '\n');
        lemma_encode_last(text, '\n');
    }
    assert((raw + seq![10u8]).drop_last() =~= raw);
}

/// A fetch is of the bytes up to the first newline or NUL and that one too,
/// of as many as were asked for, or of all there are.
pub proof fn law_a_fetch_is_of_what_is_wanted(front: Seq<u8>, b: u8, back: Seq<u8>, n: usize)
    requires
        !front.contains(b),
    ensures
        b == 10 ==> fetched(Want::Line, front + seq![b] + back) == front.len() + 1 && fetched(
            Want::Line,
            front,
        ) == front.len(),
        b == 0 ==> fetched(Want::UntilNul, front + seq![b] + back) == front.len() + 1 && fetched(
            Want::UntilNul,
            front,
        ) == front.len(),
        n <= back.len() ==> fetched(Want::Exact(n), back) == n,
        n >= back.len() ==> fetched(Want::Exact(n), back) == back.len(),
{
    let whole = front + seq![b] + back;
    let m = front.len() as int;
    assert forall|i: int| 0 <= i < m implies front[i] != b && whole[i] != b by {
        assert(front.contains(front[i]));
        assert(whole[i] == front[i]);
    }
    assert(whole[m] == b);
    lemma_first_at_is(whole, b, m);
    lemma_first_at_is(front, b, m);
}

/// Frames on the wire stand one after the other, and none is nothing.
pub proof fn law_the_wire_is_one_frame_after_the_other(frames: Seq<FrameView>, frame: FrameView)
    ensures
        wire(Seq::empty()) == Seq::<u8>::empty(),
        wire(seq![frame]) == encoded(frame),
        wire(frames.push(frame)) == wire(frames) + encoded(frame),
{
    let none = Seq::<FrameView>::empty();
    assert(seq![frame].drop_last() =~= none);
    assert(wire(none) + encoded(frame) =~= encoded(frame));
    assert(frames.push(frame).drop_last() =~= frames);
}

/// A command line that is not UTF-8 is an error, whatever follows.
pub proof fn law_a_command_that_is_not_text_is_an_error(raw: Seq<u8>, tail: Seq<u8>)
    requires
        !valid_utf8(raw),
        !raw.contains(10u8),
        raw.last() != 13,
    ensures
        read_one(raw + seq![10u8] + tail).0 == Err::<Option<FrameView>, ErrorView>(
            ErrorView::NotUtf8,
        ),
{
    let s = raw + seq![10u8] + tail;
    let n = raw.len() as int;
    assert forall|i: int| 0 <= i < n implies s[i] != 10u8 by {
        assert(raw.contains(raw[i]));
        assert(s[i] == raw[i]);
    }
    assert(s[n] == 10u8);
    lemma_first_at_is(s, 10u8, n);
    assert(s.take(n + 1) =~= raw + seq![10u8]);
    assert((raw + seq![10u8]).drop_last() =~= raw);
    assert(without_last(without_last(raw + seq![10u8], 10), 13) =~= raw);
}

/// The end of a line is left out of any text, wherever else in it a newline
/// or a carriage return stands, and bytes that are no text stay none.
pub proof fn law_the_end_of_a_line_is_left_out(text: Seq<char>, raw: Seq<u8>)
    ensures
        text.len() == 0 || text.last() != '\r' ==> line_of(encode_utf8(text) + seq![10u8]) == Ok::<
            Option<Seq<char>>,
            ErrorView,
        >(Some(text)),
        line_of(encode_utf8(text) + seq![13u8]) == Ok::<Option<Seq<char>>, ErrorView>(Some(text)),
        !valid_utf8(raw) ==> line_of(raw + seq![13u8, 10u8]) == Err::<
            Option<Seq<char>>,
            ErrorView,
        >(ErrorView::NotUtf8),
        !valid_utf8(raw) && raw.last() != 13 && raw.last() != 10 ==> line_of(raw) == Err::<
            Option<Seq<char>>,
            ErrorView,
        >(ErrorView::NotUtf8),
{
    let bytes = encode_utf8(text);
    encode_utf8_valid_utf8(text);
    encode_utf8_decode_utf8(text);
    if text.len() > 0 && text.last() != '\r' {
        lemma_encode_last(text, '\r');
    }
    assert((bytes + seq![10u8]).drop_last() =~= bytes);
    assert((bytes + seq![13u8]).drop_last() =~= bytes);
    assert((raw + seq![13u8, 10u8]).drop_last() =~= raw + seq![13u8]);
    assert((raw + seq![13u8]).drop_last() =~= raw);
    encode_utf8_valid_utf8(Seq::empty());
    assert(encode_utf8(Seq::<char>::empty()) =~= Seq::<u8>::empty());
    if raw.len() == 0 {
        assert(raw =~= encode_utf8(Seq::<char>::empty()));
    }
}

/// What is wanted is lines up to the blank one, and then the body that the
/// headers state and its NUL, or whatever comes up to a NUL.
pub proof fn law_what_is_wanted_next(frame: FrameView, n: nat)
    requires
        n <= MAX_BODY,
    ensures
        wanted(StageView::Command) == Want::Line,
        wanted(StageView::Headers(frame)) == Want::Line,
        wanted(StageView::Counted(frame, n)) == Want::Exact((n + 1) as usize),
        wanted(StageView::Bare(frame)) == Want::UntilNul,
{
}

/// The bytes of a body make the frame whole where a NUL stands behind them
/// and they are as many as they should be, and are an error otherwise.
pub proof fn law_a_body_makes_the_frame_whole(frame: FrameView, body: Seq<u8>, last: u8, n: nat)
    ensures
        last == 0 ==> step(StageView::Counted(frame, body.len()), body.push(last)) == Ok::<
            StepView,
            ErrorView,
        >(StepView::Whole(FrameView { body, ..frame })),
        last != 0 ==> step(StageView::Counted(frame, body.len()), body.push(last)) == Err::<
            StepView,
            ErrorView,
        >(ErrorView::NoNulAfterBody),
        body.len() != n + 1 ==> step(StageView::Counted(frame, n), body) == Err::<
            StepView,
            ErrorView,
        >(ErrorView::CutShort),
        last == 0 && body.len() <= MAX_BODY ==> step(StageView::Bare(frame), body.push(last))
            == Ok::<StepView, ErrorView>(StepView::Whole(FrameView { body, ..frame })),
        last != 0 && body.len() <= MAX_BODY ==> step(StageView::Bare(frame), body.push(last))
            == Err::<StepView, ErrorView>(ErrorView::EndsBeforeNul),
        body.len() > MAX_BODY ==> step(StageView::Bare(frame), body.push(last)) == Err::<
            StepView,
            ErrorView,
        >(ErrorView::TooLong),
        step(StageView::Bare(frame), Seq::empty()) == Err::<StepView, ErrorView>(
            ErrorView::EndsBeforeNul,
        ),
{
    assert(body.push(last).drop_last() =~= body);
    assert(frame.with_body(body) == (FrameView { body, ..frame }));
}

/// A line that is not blank begins a frame under that command, whatever it
/// is; a blank one is passed over; and where nothing comes the peer closed.
pub proof fn law_a_line_begins_a_frame(line: Seq<char>)
    ensures
        step(StageView::Command, encode_utf8(line) + seq![13u8, 10u8]) == Ok::<StepView, ErrorView>(
            StepView::More(
                if line.len() == 0 {
                    StageView::Command
                } else {
                    StageView::Headers(
                        FrameView { command: line, headers: Seq::empty(), body: Seq::empty() },
                    )
                },
            ),
        ),
        step(StageView::Command, Seq::empty()) == Ok::<StepView, ErrorView>(StepView::Closed),
{
    law_a_line_loses_its_end_alone(line, Seq::empty());
}

/// In whatever frame has begun, a line with a colon is one header more, bare
/// in CONNECT and CONNECTED and with its escapes read elsewhere, and the
/// first escape that cannot be read is the failure; a line without a colon
/// is a failure that names it, and so is the end.
pub proof fn law_a_line_is_one_header_more(
    frame: FrameView,
    left: Seq<char>,
    right: Seq<char>,
    line: Seq<char>,
)
    requires
        !left.contains(':'),
        !line.contains(':'),
    ensures
        ({
            let taken = step(
                StageView::Headers(frame),
                encode_utf8(left + seq![':'] + right) + seq![13u8, 10u8],
            );
            if frame.command == "CONNECT"@ || frame.command == "CONNECTED"@ {
                taken == Ok::<StepView, ErrorView>(
                    StepView::More(
                        StageView::Headers(
                            FrameView { headers: frame.headers.push((left, right)), ..frame },
                        ),
                    ),
                )
            } else {
                match (unescaped(left), unescaped(right)) {
                    (Ok(name), Ok(value)) => taken == Ok::<StepView, ErrorView>(
                        StepView::More(
                            StageView::Headers(
                                FrameView { headers: frame.headers.push((name, value)), ..frame },
                            ),
                        ),
                    ),
                    (Err(error), _) => taken == Err::<StepView, ErrorView>(error),
                    (_, Err(error)) => taken == Err::<StepView, ErrorView>(error),
                }
            }
        }),
        line.len() > 0 ==> step(
            StageView::Headers(frame),
            encode_utf8(line) + seq![13u8, 10u8],
        ) == Err::<StepView, ErrorView>(ErrorView::NoColon(line)),
        step(StageView::Headers(frame), Seq::empty()) == Err::<StepView, ErrorView>(
            ErrorView::EndsInHeaders,
        ),
{
    law_a_text_splits_at_the_first(left, ':', right);
    law_a_text_splits_at_the_first(line, ':', Seq::empty());
    law_a_line_loses_its_end_alone(left + seq![':'] + right, Seq::empty());
    law_a_line_loses_its_end_alone(line, Seq::empty());
}

/// In whatever frame has begun, the blank line is followed by the body: of
/// the length that the first `content-length` states, or up to a NUL where
/// no header states one.
pub proof fn law_the_blank_line_comes_before_the_body(frame: FrameView)
    ensures
        frame.header("content-length"@) is None ==> step(
            StageView::Headers(frame),
            seq![13u8, 10u8],
        ) == Ok::<StepView, ErrorView>(StepView::More(StageView::Bare(frame))),
        frame.header("content-length"@) matches Some(length) ==> step(
            StageView::Headers(frame),
            seq![13u8, 10u8],
        ) == match number(length) {
            Some(n) => if n > usize::MAX {
                Err::<StepView, ErrorView>(ErrorView::BadLength(length))
            } else if n > MAX_BODY {
                Err::<StepView, ErrorView>(ErrorView::TooLong)
            } else {
                Ok::<StepView, ErrorView>(StepView::More(StageView::Counted(frame, n)))
            },
            None => Err::<StepView, ErrorView>(ErrorView::BadLength(length)),
        },
{
    let nothing = Seq::<char>::empty();
    law_a_line_loses_its_end_alone(nothing, Seq::empty());
    assert(encode_utf8(nothing) =~= Seq::<u8>::empty());
    assert(encode_utf8(nothing) + seq![13u8, 10u8] =~= seq![13u8, 10u8]);
}

/// How a line ends does not matter to what it is taken for: with a newline,
/// with a carriage return before it, or with either missing at the end of the
/// bytes. And one that is not UTF-8 is an error however it ends.
pub proof fn law_how_a_line_ends_does_not_matter(stage: StageView, line: Seq<char>, raw: Seq<u8>)
    requires
        stage is Command || stage is Headers,
    ensures
        line.len() == 0 || line.last() != '\r' ==> step(stage, encode_utf8(line) + seq![10u8])
            == step(stage, encode_utf8(line) + seq![13u8, 10u8]),
        step(stage, encode_utf8(line) + seq![13u8]) == step(
            stage,
            encode_utf8(line) + seq![13u8, 10u8],
        ),
        line.len() > 0 && line.last() != '\r' && line.last() != '\n' ==> step(
            stage,
            encode_utf8(line),
        ) == step(stage, encode_utf8(line) + seq![13u8, 10u8]),
        !valid_utf8(raw) ==> step(stage, raw + seq![13u8, 10u8]) == Err::<StepView, ErrorView>(
            ErrorView::NotUtf8,
        ),
        !valid_utf8(raw) && raw.last() != 13 ==> step(stage, raw + seq![10u8]) == Err::<
            StepView,
            ErrorView,
        >(ErrorView::NotUtf8),
        !valid_utf8(raw) && raw.last() != 13 && raw.last() != 10 ==> step(stage, raw) == Err::<
            StepView,
            ErrorView,
        >(ErrorView::NotUtf8),
{
    let bytes = encode_utf8(line);
    law_a_line_loses_its_end_alone(line, raw);
    law_the_end_of_a_line_is_left_out(line, raw);
    if line.len() > 0 && line.last() != '\r' && line.last() != '\n' {
        lemma_encode_last(line, '\r');
        lemma_encode_last(line, '\n');
        encode_utf8_valid_utf8(line);
        encode_utf8_decode_utf8(line);
        assert(without_last(without_last(bytes, 10), 13) =~= bytes);
    }
}

/// Reading goes step by step: what is wanted is taken off the front, and what
/// it leads to is read on from what is left, up to a frame, the end or an
/// error.
pub proof fn law_reading_goes_step_by_step(stage: StageView, s: Seq<u8>)
    ensures
        ({
            let n = fetched(wanted(stage), s);
            match step(stage, s.take(n)) {
                Ok(StepView::More(next)) => read_from(stage, s) == read_from(next, s.skip(n)),
                Ok(StepView::Whole(frame)) => read_from(stage, s) == (
                    Ok::<Option<FrameView>, ErrorView>(Some(frame)),
                    s.skip(n),
                ),
                Ok(StepView::Closed) => read_from(stage, s) == (
                    Ok::<Option<FrameView>, ErrorView>(None),
                    s.skip(n),
                ),
                Err(error) => read_from(stage, s) == (
                    Err::<Option<FrameView>, ErrorView>(error),
                    s.skip(n),
                ),
            }
        }),
        read_one(s) == read_from(StageView::Command, s),
{
}

} // verus!
