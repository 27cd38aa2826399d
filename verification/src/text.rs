//! Text as the protocol handles it: characters, decimal numbers, pieces.

use vstd::prelude::*;
use vstd::utf8::{decode_utf8, valid_utf8};

verus! {

/// `String::push` of the standard library: `c` is appended.
pub assume_specification[ String::push ](text: &mut String, c: char)
    ensures
        final(text)@ == old(text)@.push(c),
;

/// `String::push_str` of the standard library: `more` is appended.
pub assume_specification[ String::push_str ](text: &mut String, more: &str)
    ensures
        final(text)@ == old(text)@ + more@,
;

/// Whether both hold the same characters.
pub(crate) fn same(left: &str, right: &str) -> (equal: bool)
    ensures
        equal == (left@ == right@),
{
    left.to_owned() == right.to_owned()
}

/// `String::from_utf8` of the standard library: the text that `bytes` encode,
/// where they are UTF-8, and nothing where they are not.
#[verifier::external_body]
pub(crate) fn utf8_text(bytes: Vec<u8>) -> (text: Option<String>)
    ensures
        match text {
            Some(text) => valid_utf8(bytes@) && text@ == decode_utf8(bytes@),
            None => !valid_utf8(bytes@),
        },
{
    String::from_utf8(bytes).ok()
}

/// The characters of `text`, in order.
pub(crate) fn chars_of(text: &str) -> (chars: Vec<char>)
    ensures
        chars@ == text@,
{
    let mut chars: Vec<char> = Vec::new();
    for c in it: text.chars()
        invariant
            it.seq() == text@,
            chars@ == text@.take(it.index() as int),
    {
        chars.push(c);
    }
    assert(text@.take(text@.len() as int) == text@);
    chars
}

/// The characters from `from` up to `to` as a `String`.
pub(crate) fn string_of(chars: &Vec<char>, from: usize, to: usize) -> (text: String)
    requires
        from <= to <= chars@.len(),
    ensures
        text@ == chars@.subrange(from as int, to as int),
{
    let mut text = String::new();
    let mut at: usize = from;
    while at < to
        invariant
            from <= at <= to <= chars@.len(),
            text@ == chars@.subrange(from as int, at as int),
        decreases to - at,
    {
        text.push(chars[at]);
        at = at + 1;
    }
    text
}

/// Where `x` first stands in `s`, or the length of `s` where it does not.
pub open spec fn first_at<T>(s: Seq<T>, x: T) -> int
    decreases s.len(),
{
    if s.len() == 0 || s[0] == x {
        0
    } else {
        1 + first_at(s.drop_first(), x)
    }
}

/// What `first_at` says of the elements it passes and of the one it stops at.
pub proof fn lemma_first_at<T>(s: Seq<T>, x: T)
    ensures
        0 <= first_at(s, x) <= s.len(),
        forall|i: int| 0 <= i < first_at(s, x) ==> s[i] != x,
        first_at(s, x) < s.len() ==> s[first_at(s, x)] == x,
    decreases s.len(),
{
    if s.len() != 0 && s[0] != x {
        lemma_first_at(s.drop_first(), x);
        assert forall|i: int| 0 <= i < first_at(s, x) implies s[i] != x by {
            if i > 0 {
                assert(s.drop_first()[i - 1] == s[i]);
            }
        }
    }
}

/// The one place that is free of `x` before it and ends in `x` or at the end.
pub proof fn lemma_first_at_is<T>(s: Seq<T>, x: T, n: int)
    requires
        0 <= n <= s.len(),
        forall|i: int| 0 <= i < n ==> s[i] != x,
        n < s.len() ==> s[n] == x,
    ensures
        first_at(s, x) == n,
{
    lemma_first_at(s, x);
    let m = first_at(s, x);
    if m < n {
        assert(s[m] == x);
    }
}

/// `s` before and after the first `c`, where there is one.
pub open spec fn split_first(s: Seq<char>, c: char) -> Option<(Seq<char>, Seq<char>)> {
    let n = first_at(s, c);
    if n < s.len() {
        Some((s.take(n), s.skip(n + 1)))
    } else {
        None
    }
}

/// The two texts as characters.
pub open spec fn pair_view(pair: Option<(String, String)>) -> Option<(Seq<char>, Seq<char>)> {
    match pair {
        Some((left, right)) => Some((left@, right@)),
        None => None,
    }
}

/// `text` before and after the first `c`, where there is one.
pub fn split_once(text: &str, c: char) -> (pair: Option<(String, String)>)
    ensures
        pair_view(pair) == split_first(text@, c),
{
    let chars = chars_of(text);
    let mut at: usize = 0;
    while at < chars.len()
        invariant
            at <= chars@.len(),
            chars@ == text@,
            forall|i: int| 0 <= i < at ==> chars@[i] != c,
        decreases chars@.len() - at,
    {
        if chars[at] == c {
            proof {
                lemma_first_at_is(text@, c, at as int);
            }
            let left = string_of(&chars, 0, at);
            let right = string_of(&chars, at + 1, chars.len());
            assert(left@ == text@.take(at as int));
            assert(right@ == text@.skip(at + 1));
            return Some((left, right));
        }
        at = at + 1;
    }
    proof {
        lemma_first_at_is(text@, c, at as int);
    }
    None
}

/// The digit that stands for `d`.
pub open spec fn digit(d: nat) -> char {
    ((48 + d) as u8) as char
}

/// `n` in decimal, without leading zeros.
pub open spec fn decimal(n: nat) -> Seq<char>
    decreases n,
{
    if n < 10 {
        seq![digit(n)]
    } else {
        decimal(n / 10).push(digit(n % 10))
    }
}

/// Append `n` in decimal.
pub fn push_decimal(text: &mut String, n: u64)
    ensures
        final(text)@ == old(text)@ + decimal(n as nat),
    decreases n,
{
    if n >= 10 {
        push_decimal(text, n / 10);
    }
    text.push((48u8 + (n % 10) as u8) as char);
}

/// `n` in decimal.
pub fn decimal_of(n: u64) -> (text: String)
    ensures
        text@ == decimal(n as nat),
{
    let mut text = String::new();
    push_decimal(&mut text, n);
    text
}

/// Whether `c` is a decimal digit.
pub open spec fn is_digit(c: char) -> bool {
    '0' <= c <= '9'
}

/// The number that the digits of `s` write.
pub open spec fn value(s: Seq<char>) -> nat
    decreases s.len(),
{
    if s.len() == 0 {
        0
    } else {
        (value(s.drop_last()) * 10 + (s.last() as nat - 48)) as nat
    }
}

/// Whether `s` holds nothing but digits.
pub open spec fn all_digits(s: Seq<char>) -> bool {
    forall|i: int| 0 <= i < s.len() ==> is_digit(#[trigger] s[i])
}

/// `s` without the `+` it may begin with.
pub open spec fn unsigned(s: Seq<char>) -> Seq<char> {
    if s.len() > 0 && s[0] == '+' {
        s.drop_first()
    } else {
        s
    }
}

/// The number that `s` writes: digits, at least one, after a `+` that may be left out.
pub open spec fn number(s: Seq<char>) -> Option<nat> {
    if unsigned(s).len() > 0 && all_digits(unsigned(s)) {
        Some(value(unsigned(s)))
    } else {
        None
    }
}

/// More digits never write a smaller number.
proof fn lemma_value_grows(s: Seq<char>, n: int)
    requires
        0 <= n <= s.len(),
        all_digits(s),
    ensures
        value(s.take(n)) <= value(s),
    decreases s.len(),
{
    if n < s.len() {
        let shorter = s.drop_last();
        assert forall|i: int| 0 <= i < shorter.len() implies is_digit(#[trigger] shorter[i]) by {
            assert(shorter[i] == s[i]);
        }
        lemma_value_grows(shorter, n);
        assert(shorter.take(n) == s.take(n));
        assert(is_digit(s[s.len() - 1]));
    } else {
        assert(s.take(n) == s);
    }
}

/// `number` of `text`, where it fits.
pub fn number_of(text: &str) -> (n: Option<usize>)
    ensures
        match number(text@) {
            Some(wanted) => if wanted <= usize::MAX {
                n == Some(wanted as usize)
            } else {
                n is None
            },
            None => n is None,
        },
{
    let chars = chars_of(text);
    let start: usize = if chars.len() > 0 && chars[0] == '+' {
        1
    } else {
        0
    };
    let ghost digits = chars@.skip(start as int);
    assert(digits == unsigned(text@));
    if start == chars.len() {
        return None;
    }
    let mut sum: usize = 0;
    let mut at: usize = start;
    while at < chars.len()
        invariant
            start <= at <= chars@.len(),
            start < chars@.len(),
            chars@ == text@,
            digits == chars@.skip(start as int),
            digits.len() == chars@.len() - start,
            digits == unsigned(text@),
            forall|i: int| 0 <= i < at - start ==> is_digit(#[trigger] digits[i]),
            sum == value(digits.take(at - start)),
        decreases chars@.len() - at,
    {
        let c = chars[at];
        assert(digits[at - start] == c);
        if c < '0' || c > '9' {
            assert(!is_digit(digits[at - start]));
            return None;
        }
        let ghost next = digits.take(at - start + 1);
        assert(next.drop_last() == digits.take(at - start));
        assert(next.last() == c);
        let step: usize = (c as u32 - 48) as usize;
        if sum > (usize::MAX - step) / 10 {
            proof {
                if all_digits(digits) {
                    lemma_value_grows(digits, at - start + 1);
                }
            }
            return None;
        }
        sum = sum * 10 + step;
        at = at + 1;
    }
    assert(digits.take(at - start) == digits);
    Some(sum)
}

/// A decimal is one digit or more, and reads back as its number.
pub proof fn lemma_decimal(n: nat)
    ensures
        decimal(n).len() > 0,
        all_digits(decimal(n)),
        value(decimal(n)) == n,
        number(decimal(n)) == Some(n),
    decreases n,
{
    let s = decimal(n);
    if n < 10 {
        assert(s.drop_last() == Seq::<char>::empty());
        assert(value(s.drop_last()) == 0);
    } else {
        lemma_decimal(n / 10);
        assert(s.drop_last() == decimal(n / 10));
        assert forall|i: int| 0 <= i < s.len() implies is_digit(#[trigger] s[i]) by {
            if i < s.len() - 1 {
                assert(s[i] == decimal(n / 10)[i]);
            }
        }
    }
    assert(is_digit(s[0]));
}

/// Whether `c` has the Unicode property `White_Space`.
pub open spec fn is_white(c: char) -> bool {
    ||| '\u{9}' <= c <= '\u{d}'
    ||| c == '\u{20}'
    ||| c == '\u{85}'
    ||| c == '\u{a0}'
    ||| c == '\u{1680}'
    ||| '\u{2000}' <= c <= '\u{200a}'
    ||| c == '\u{2028}'
    ||| c == '\u{2029}'
    ||| c == '\u{202f}'
    ||| c == '\u{205f}'
    ||| c == '\u{3000}'
}

/// `s` without the white space it begins with.
pub open spec fn trim_start(s: Seq<char>) -> Seq<char>
    decreases s.len(),
{
    if s.len() > 0 && is_white(s[0]) {
        trim_start(s.drop_first())
    } else {
        s
    }
}

/// `s` without the white space it ends with.
pub open spec fn trim_end(s: Seq<char>) -> Seq<char>
    decreases s.len(),
{
    if s.len() > 0 && is_white(s.last()) {
        trim_end(s.drop_last())
    } else {
        s
    }
}

/// `s` without the white space around it.
pub open spec fn trimmed(s: Seq<char>) -> Seq<char> {
    trim_end(trim_start(s))
}

fn white(c: char) -> (yes: bool)
    ensures
        yes == is_white(c),
{
    ('\u{9}' <= c && c <= '\u{d}') || c == '\u{20}' || c == '\u{85}' || c == '\u{a0}' || c
        == '\u{1680}' || ('\u{2000}' <= c && c <= '\u{200a}') || c == '\u{2028}' || c == '\u{2029}'
        || c == '\u{202f}' || c == '\u{205f}' || c == '\u{3000}'
}

/// The characters from `from` up to `to`, without the white space around them.
fn trim_range(chars: &Vec<char>, from: usize, to: usize) -> (text: String)
    requires
        from <= to <= chars@.len(),
    ensures
        text@ == trimmed(chars@.subrange(from as int, to as int)),
{
    let ghost whole = chars@.subrange(from as int, to as int);
    let mut low: usize = from;
    while low < to && white(chars[low])
        invariant
            from <= low <= to <= chars@.len(),
            trim_start(whole) == trim_start(chars@.subrange(low as int, to as int)),
        decreases to - low,
    {
        assert(chars@.subrange(low as int, to as int).drop_first() == chars@.subrange(
            low + 1,
            to as int,
        ));
        low = low + 1;
    }
    let ghost rest = chars@.subrange(low as int, to as int);
    assert(trim_start(whole) == rest);
    let mut high: usize = to;
    while low < high && white(chars[high - 1])
        invariant
            low <= high <= to <= chars@.len(),
            trim_end(rest) == trim_end(chars@.subrange(low as int, high as int)),
        decreases high - low,
    {
        assert(chars@.subrange(low as int, high as int).drop_last() == chars@.subrange(
            low as int,
            high - 1,
        ));
        high = high - 1;
    }
    string_of(chars, low, high)
}

/// `text` without the white space around it.
pub fn trim(text: &str) -> (trim: String)
    ensures
        trim@ == trimmed(text@),
{
    let chars = chars_of(text);
    assert(chars@.subrange(0, chars@.len() as int) == text@);
    trim_range(&chars, 0, chars.len())
}

/// What stands between one `c` and the next in `s`.
pub open spec fn pieces(s: Seq<char>, c: char) -> Seq<Seq<char>>
    decreases s.len(),
{
    proof {
        lemma_first_at(s, c);
    }
    let n = first_at(s, c);
    if n < s.len() {
        seq![s.take(n)] + pieces(s.skip(n + 1), c)
    } else {
        seq![s]
    }
}

/// Whether `wanted` stands between the `c`s of `s`, white space around it left out.
pub open spec fn has_piece(s: Seq<char>, c: char, wanted: Seq<char>) -> bool {
    exists|i: int| 0 <= i < pieces(s, c).len() && trimmed(#[trigger] pieces(s, c)[i]) == wanted
}

/// The first piece, or one of the rest.
proof fn lemma_has_piece(s: Seq<char>, c: char, wanted: Seq<char>)
    ensures
        has_piece(s, c, wanted) == {
            let n = first_at(s, c);
            if n < s.len() {
                trimmed(s.take(n)) == wanted || has_piece(s.skip(n + 1), c, wanted)
            } else {
                trimmed(s) == wanted
            }
        },
{
    let n = first_at(s, c);
    let all = pieces(s, c);
    assert(all[0] == if n < s.len() {
        s.take(n)
    } else {
        s
    });
    if n < s.len() {
        let rest = pieces(s.skip(n + 1), c);
        if has_piece(s.skip(n + 1), c, wanted) {
            let i = choose|i: int| 0 <= i < rest.len() && trimmed(#[trigger] rest[i]) == wanted;
            assert(all[i + 1] == rest[i]);
        }
        if has_piece(s, c, wanted) {
            let i = choose|i: int| 0 <= i < all.len() && trimmed(#[trigger] all[i]) == wanted;
            if i > 0 {
                assert(all[i] == rest[i - 1]);
            }
        }
    }
}

/// Whether `wanted` is one of the pieces of `text` between its `c`s.
pub fn lists(text: &str, c: char, wanted: &str) -> (yes: bool)
    ensures
        yes == has_piece(text@, c, wanted@),
{
    let chars = chars_of(text);
    let mut start: usize = 0;
    let mut at: usize = 0;
    assert(text@.skip(0) == text@);
    while at < chars.len()
        invariant
            chars@ == text@,
            start <= at <= chars@.len(),
            has_piece(text@, c, wanted@) == has_piece(text@.skip(start as int), c, wanted@),
            forall|i: int| start <= i < at ==> chars@[i] != c,
        decreases chars@.len() - at,
    {
        if chars[at] == c {
            let ghost rest = text@.skip(start as int);
            proof {
                assert forall|i: int| 0 <= i < at - start implies rest[i] != c by {
                    assert(rest[i] == chars@[i + start]);
                }
                lemma_first_at_is(rest, c, at - start);
                lemma_has_piece(rest, c, wanted@);
                assert(rest.take(at - start) == chars@.subrange(start as int, at as int));
                assert(rest.skip(at - start + 1) == text@.skip(at + 1));
            }
            let piece = trim_range(&chars, start, at);
            if same(piece.as_str(), wanted) {
                return true;
            }
            start = at + 1;
        }
        at = at + 1;
    }
    let ghost rest = text@.skip(start as int);
    proof {
        assert forall|i: int| 0 <= i < at - start implies rest[i] != c by {
            assert(rest[i] == chars@[i + start]);
        }
        lemma_first_at_is(rest, c, at - start);
        lemma_has_piece(rest, c, wanted@);
        assert(rest == chars@.subrange(start as int, at as int));
    }
    let piece = trim_range(&chars, start, at);
    same(piece.as_str(), wanted)
}

/// Whether `a` stands before `b` in a list sorted by character.
pub open spec fn precedes(a: Seq<char>, b: Seq<char>) -> bool
    decreases a.len(),
{
    if b.len() == 0 {
        false
    } else if a.len() == 0 {
        true
    } else if a[0] == b[0] {
        precedes(a.drop_first(), b.drop_first())
    } else {
        a[0] < b[0]
    }
}

/// Of two texts that differ one precedes the other, and none itself.
pub proof fn lemma_precedes(a: Seq<char>, b: Seq<char>)
    ensures
        a == b || precedes(a, b) || precedes(b, a),
        !(precedes(a, b) && precedes(b, a)),
        !precedes(a, a),
    decreases a.len(),
{
    if a.len() > 0 {
        lemma_precedes(a.drop_first(), a.drop_first());
    }
    if a.len() > 0 && b.len() > 0 && a[0] == b[0] {
        lemma_precedes(a.drop_first(), b.drop_first());
        assert(seq![a[0]] + a.drop_first() == a);
        assert(seq![b[0]] + b.drop_first() == b);
    } else if a.len() == 0 && b.len() == 0 {
        assert(a == b);
    }
}

/// What precedes a text precedes all that the text precedes.
pub proof fn lemma_precedes_on(a: Seq<char>, b: Seq<char>, c: Seq<char>)
    requires
        precedes(a, b),
        precedes(b, c),
    ensures
        precedes(a, c),
    decreases a.len(),
{
    if a.len() > 0 && b.len() > 0 && c.len() > 0 && a[0] == b[0] && b[0] == c[0] {
        lemma_precedes_on(a.drop_first(), b.drop_first(), c.drop_first());
    }
}

/// Whether `a` stands before `b` in a list sorted by character.
pub(crate) fn comes_before(a: &str, b: &str) -> (yes: bool)
    ensures
        yes == precedes(a@, b@),
{
    let left = chars_of(a);
    let right = chars_of(b);
    let mut at: usize = 0;
    assert(a@.skip(0) == a@ && b@.skip(0) == b@);
    while at < left.len() && at < right.len()
        invariant
            left@ == a@,
            right@ == b@,
            at <= left@.len(),
            at <= right@.len(),
            precedes(a@, b@) == precedes(a@.skip(at as int), b@.skip(at as int)),
        decreases left@.len() - at,
    {
        assert(a@.skip(at as int).drop_first() == a@.skip(at + 1));
        assert(b@.skip(at as int).drop_first() == b@.skip(at + 1));
        if left[at] != right[at] {
            return left[at] < right[at];
        }
        at = at + 1;
    }
    at < right.len()
}

} // verus!
