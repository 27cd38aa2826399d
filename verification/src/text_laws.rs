//! What the pieces of text come to, character by character.

use vstd::prelude::*;

use crate::text::{all_digits, decimal, first_at, has_piece, is_white, lemma_first_at, lemma_first_at_is, number, pieces, precedes, split_first, trim_end, trim_start, trimmed, unsigned, value};

verus! {

/// A text splits at the first of a character: what stands before it holds
/// none, and what stands behind it is kept whole.
pub proof fn law_a_text_splits_at_the_first(front: Seq<char>, c: char, back: Seq<char>)
    requires
        !front.contains(c),
    ensures
        split_first(front + seq![c] + back, c) == Some((front, back)),
        split_first(front, c) is None,
{
    let whole = front + seq![c] + back;
    let n = front.len() as int;
    assert forall|i: int| 0 <= i < n implies front[i] != c && whole[i] != c by {
        assert(front.contains(front[i]));
        assert(whole[i] == front[i]);
    }
    assert(whole[n] == c);
    lemma_first_at_is(whole, c, n);
    lemma_first_at_is(front, c, n);
    assert(whole.take(n) =~= front);
    assert(whole.skip(n + 1) =~= back);
}

/// White space is these characters and no other.
pub proof fn law_white_space(c: char)
    ensures
        is_white(c) <==> (9 <= c as int <= 13 || c as int == 0x20 || c as int == 0x85 || c as int
            == 0xa0 || c as int == 0x1680 || 0x2000 <= c as int <= 0x200a || c as int == 0x2028
            || c as int == 0x2029 || c as int == 0x202f || c as int == 0x205f || c as int
            == 0x3000),
{
}

/// Whether a text is white space alone.
pub open spec fn all_white(s: Seq<char>) -> bool {
    forall|i: int| 0 <= i < s.len() ==> is_white(#[trigger] s[i])
}

/// White space in front is left out, up to the first character that is none.
proof fn lemma_trim_start(front: Seq<char>, core: Seq<char>)
    requires
        all_white(front),
        core.len() > 0 ==> !is_white(core[0]),
    ensures
        trim_start(front + core) == core,
    decreases front.len(),
{
    let whole = front + core;
    if front.len() == 0 {
        assert(whole =~= core);
    } else {
        assert(whole[0] == front[0]);
        assert(whole.drop_first() =~= front.drop_first() + core);
        assert forall|i: int| 0 <= i < front.drop_first().len() implies is_white(
            #[trigger] front.drop_first()[i],
        ) by {
            assert(front.drop_first()[i] == front[i + 1]);
        }
        lemma_trim_start(front.drop_first(), core);
    }
}

/// White space behind is left out, down to the last character that is none.
proof fn lemma_trim_end(core: Seq<char>, back: Seq<char>)
    requires
        all_white(back),
        core.len() > 0 ==> !is_white(core.last()),
    ensures
        trim_end(core + back) == core,
    decreases back.len(),
{
    let whole = core + back;
    if back.len() == 0 {
        assert(whole =~= core);
    } else {
        assert(whole.last() == back[back.len() - 1]);
        assert(whole.drop_last() =~= core + back.drop_last());
        assert forall|i: int| 0 <= i < back.drop_last().len() implies is_white(
            #[trigger] back.drop_last()[i],
        ) by {
            assert(back.drop_last()[i] == back[i]);
        }
        lemma_trim_end(core, back.drop_last());
    }
}

/// Trimming takes the white space around a text and nothing else: not what
/// stands between, white space there included.
pub proof fn law_only_white_space_around_is_trimmed(
    front: Seq<char>,
    core: Seq<char>,
    back: Seq<char>,
)
    requires
        all_white(front),
        all_white(back),
        core.len() > 0 ==> !is_white(core[0]) && !is_white(core.last()),
    ensures
        trimmed(front + core + back) == core,
{
    if core.len() > 0 {
        let rest = core + back;
        assert(front + core + back =~= front + rest);
        assert(rest[0] == core[0]);
        lemma_trim_start(front, rest);
        lemma_trim_end(core, back);
    } else {
        let nothing = Seq::<char>::empty();
        let white = front + back;
        assert(front + core + back =~= white + nothing);
        assert forall|i: int| 0 <= i < white.len() implies is_white(#[trigger] white[i]) by {
            if i < front.len() {
                assert(white[i] == front[i]);
            } else {
                assert(white[i] == back[i - front.len()]);
            }
        }
        lemma_trim_start(white, nothing);
        assert(core =~= nothing);
    }
}

/// Whether what stands in `s` from `i` up to `j` stands between two `c`s, or
/// a `c` and an end, or both ends.
pub open spec fn stands_between(s: Seq<char>, c: char, i: int, j: int) -> bool {
    &&& 0 <= i <= j <= s.len()
    &&& i == 0 || s[i - 1] == c
    &&& j == s.len() || s[j] == c
    &&& forall|k: int| i <= k < j ==> s[k] != c
}

/// Each piece is what stands between.
proof fn lemma_piece_stands(s: Seq<char>, c: char, at: int) -> (ends: (int, int))
    requires
        0 <= at < pieces(s, c).len(),
    ensures
        stands_between(s, c, ends.0, ends.1),
        pieces(s, c)[at] == s.subrange(ends.0, ends.1),
    decreases s.len(),
{
    lemma_first_at(s, c);
    let n = first_at(s, c);
    if n < s.len() {
        let rest = s.skip(n + 1);
        if at == 0 {
            assert(s.take(n) =~= s.subrange(0, n));
            (0, n)
        } else {
            let (i, j) = lemma_piece_stands(rest, c, at - 1);
            assert(pieces(s, c)[at] == pieces(rest, c)[at - 1]);
            assert(rest.subrange(i, j) =~= s.subrange(i + n + 1, j + n + 1));
            assert forall|k: int| i + n + 1 <= k < j + n + 1 implies s[k] != c by {
                assert(rest[k - n - 1] == s[k]);
            }
            (i + n + 1, j + n + 1)
        }
    } else {
        assert(s.subrange(0, s.len() as int) =~= s);
        (0, s.len() as int)
    }
}

/// What stands between is a piece.
proof fn lemma_standing_is_piece(s: Seq<char>, c: char, i: int, j: int) -> (at: int)
    requires
        stands_between(s, c, i, j),
    ensures
        0 <= at < pieces(s, c).len(),
        pieces(s, c)[at] == s.subrange(i, j),
    decreases s.len(),
{
    lemma_first_at(s, c);
    let n = first_at(s, c);
    if n < s.len() {
        let rest = s.skip(n + 1);
        if i == 0 {
            assert(j == n);
            assert(s.take(n) =~= s.subrange(i, j));
            0
        } else {
            assert(i - 1 >= n);
            assert forall|k: int| i - n - 1 <= k < j - n - 1 implies rest[k] != c by {
                assert(rest[k] == s[k + n + 1]);
            }
            let at = lemma_standing_is_piece(rest, c, i - n - 1, j - n - 1);
            assert(pieces(s, c)[at + 1] == pieces(rest, c)[at]);
            assert(rest.subrange(i - n - 1, j - n - 1) =~= s.subrange(i, j));
            at + 1
        }
    } else {
        assert(i == 0 && j == s.len());
        assert(s.subrange(i, j) =~= s);
        0
    }
}

/// A list holds exactly what stands between its separators, white space
/// around it left out, wherever in the list and whatever else is listed.
pub proof fn law_a_list_holds_what_stands_between(s: Seq<char>, c: char, wanted: Seq<char>)
    ensures
        has_piece(s, c, wanted) <==> exists|i: int, j: int| #[trigger]
            stands_between(s, c, i, j) && trimmed(s.subrange(i, j)) == wanted,
{
    if has_piece(s, c, wanted) {
        let at = choose|at: int|
            0 <= at < pieces(s, c).len() && trimmed(#[trigger] pieces(s, c)[at]) == wanted;
        let (i, j) = lemma_piece_stands(s, c, at);
        assert(stands_between(s, c, i, j) && trimmed(s.subrange(i, j)) == wanted);
    }
    if exists|i: int, j: int| #[trigger]
        stands_between(s, c, i, j) && trimmed(s.subrange(i, j)) == wanted {
        let (i, j) = choose|i: int, j: int| #[trigger]
            stands_between(s, c, i, j) && trimmed(s.subrange(i, j)) == wanted;
        let at = lemma_standing_is_piece(s, c, i, j);
        assert(trimmed(pieces(s, c)[at]) == wanted);
    }
}

/// What is listed is found, whatever is listed before and behind it.
pub proof fn law_what_is_listed_is_found(
    before: Seq<char>,
    front: Seq<char>,
    wanted: Seq<char>,
    back: Seq<char>,
    behind: Seq<char>,
    c: char,
)
    requires
        before.len() > 0 ==> before.last() == c,
        behind.len() > 0 ==> behind[0] == c,
        all_white(front),
        all_white(back),
        !is_white(c),
        !wanted.contains(c),
        wanted.len() > 0 ==> !is_white(wanted[0]) && !is_white(wanted.last()),
    ensures
        has_piece(before + front + wanted + back + behind, c, wanted),
{
    let s = before + front + wanted + back + behind;
    let piece = front + wanted + back;
    let i = before.len() as int;
    let j = i + piece.len();
    assert(s =~= before + piece + behind);
    assert(s.subrange(i, j) =~= piece);
    law_only_white_space_around_is_trimmed(front, wanted, back);
    assert forall|k: int| i <= k < j implies s[k] != c by {
        assert(s[k] == piece[k - i]);
        if k - i < front.len() {
            assert(piece[k - i] == front[k - i]);
        } else if k - i < front.len() + wanted.len() {
            assert(piece[k - i] == wanted[k - i - front.len()]);
            assert(wanted.contains(wanted[k - i - front.len()]));
        } else {
            assert(piece[k - i] == back[k - i - front.len() - wanted.len()]);
        }
    }
    if i > 0 {
        assert(s[i - 1] == before.last());
    }
    if j < s.len() {
        assert(s[j] == behind[0]);
    }
    assert(stands_between(s, c, i, j));
    law_a_list_holds_what_stands_between(s, c, wanted);
}

/// A number is written digit by digit: ten times a number and a digit is the
/// number with that digit behind it, and a digit is itself.
pub proof fn law_a_decimal_grows_by_its_last_digit(n: nat, d: nat)
    requires
        d < 10,
    ensures
        decimal(d).len() == 1,
        decimal(d)[0] as int == '0' as int + d,
        n > 0 ==> decimal(10 * n + d) == decimal(n) + decimal(d),
{
    if n > 0 {
        assert((10 * n + d) / 10 == n && (10 * n + d) % 10 == d);
        assert(decimal(10 * n + d) =~= decimal(n) + decimal(d));
    }
}

/// A number is read digit by digit, leading zeros too, and a plus before its
/// digits changes nothing.
pub proof fn law_a_number_grows_by_its_last_digit(s: Seq<char>, c: char)
    requires
        forall|i: int| 0 <= i < s.len() ==> '0' <= #[trigger] s[i] <= '9',
        '0' <= c <= '9',
    ensures
        number(seq![c]) == Some((c as int - '0' as int) as nat),
        s.len() > 0 ==> number(s) is Some && number(s.push(c)) == Some(
            (10 * number(s)->0 + (c as int - '0' as int)) as nat,
        ),
        s.len() > 0 ==> number(seq!['+'] + s) == number(s),
{
    let one = seq![c];
    assert(one.drop_last() =~= Seq::<char>::empty());
    assert(value(one.drop_last()) == 0);
    assert(all_digits(one) && unsigned(one) == one);
    if s.len() > 0 {
        let longer = s.push(c);
        assert(all_digits(s) && unsigned(s) == s) by {
            assert('0' <= s[0] <= '9');
        }
        assert(longer[0] == s[0]);
        assert(all_digits(longer)) by {
            assert forall|i: int| 0 <= i < longer.len() implies '0' <= #[trigger] longer[i]
                <= '9' by {
                if i < s.len() {
                    assert(longer[i] == s[i]);
                }
            }
        }
        assert(unsigned(longer) == longer);
        assert(longer.drop_last() =~= s);
        let signed = seq!['+'] + s;
        assert(signed[0] == '+');
        assert(signed.drop_first() =~= s);
    }
}

/// What is not digits, with one plus before them or none, is no number.
pub proof fn law_nothing_else_is_a_number(s: Seq<char>, i: int)
    requires
        0 <= i < s.len(),
        !('0' <= s[i] <= '9'),
        !(i == 0 && s[i] == '+' && s.len() > 1),
    ensures
        number(s) is None,
        number(Seq::<char>::empty()) is None,
{
    let digits = unsigned(s);
    if s[0] == '+' {
        if i > 0 {
            assert(digits[i - 1] == s[i]);
        }
    } else {
        assert(digits[i] == s[i]);
    }
}

/// Texts are sorted by their first difference, and the shorter first where
/// there is none.
pub proof fn law_texts_are_sorted_by_their_first_difference(
    same: Seq<char>,
    x: char,
    y: char,
    a: Seq<char>,
    b: Seq<char>,
)
    ensures
        x != y ==> precedes(same + seq![x] + a, same + seq![y] + b) == ((x as int) < (y as int)),
        precedes(same, same + seq![y] + b),
        !precedes(same + seq![y] + b, same),
        !precedes(same, same),
    decreases same.len(),
{
    let left = same + seq![x] + a;
    let right = same + seq![y] + b;
    if same.len() > 0 {
        let rest = same.drop_first();
        law_texts_are_sorted_by_their_first_difference(rest, x, y, a, b);
        assert(left.drop_first() =~= rest + seq![x] + a);
        assert(right.drop_first() =~= rest + seq![y] + b);
        assert(left[0] == same[0] && right[0] == same[0]);
    } else {
        assert(left[0] == x && right[0] == y);
    }
}

} // verus!
