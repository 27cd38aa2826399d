//! What UTF-8 keeps of the text it encodes.

use vstd::prelude::*;
use vstd::utf8::{encode_utf8, encode_utf8_first_scalar};

verus! {

/// A text is encoded one part after the other.
pub proof fn lemma_encode_add(front: Seq<char>, back: Seq<char>)
    ensures
        encode_utf8(front + back) == encode_utf8(front) + encode_utf8(back),
    decreases front.len(),
{
    if front.len() == 0 {
        assert(front + back == back);
        assert(encode_utf8(front) + encode_utf8(back) == encode_utf8(back));
    } else {
        lemma_encode_add(front.drop_first(), back);
        assert((front + back).drop_first() == front.drop_first() + back);
        assert(encode_utf8(front + back) == encode_utf8(front) + encode_utf8(back));
    }
}

/// The bytes of one character: itself where it is ASCII, none that is ASCII
/// where it is not.
proof fn lemma_encode_char(c: char)
    ensures
        encode_utf8(seq![c]).len() > 0,
        c as u32 <= 0x7f ==> encode_utf8(seq![c]) == seq![c as u8],
        c as u32 > 0x7f ==> forall|i: int|
            0 <= i < encode_utf8(seq![c]).len() ==> encode_utf8(seq![c])[i] > 0x7f,
{
    let one = seq![c];
    let bytes = encode_utf8(one);
    encode_utf8_first_scalar(one);
    assert(one.drop_first() == Seq::<char>::empty());
    assert(encode_utf8(one.drop_first()) == Seq::<u8>::empty());
    assert(bytes =~= vstd::utf8::encode_scalar(c as u32));
    if c as u32 <= 0x7f {
        vstd::utf8::is_ascii_chars_encode_utf8(one);
        assert(bytes =~= seq![c as u8]);
    }
}

/// The bytes of a character hold no ASCII character but itself.
proof fn lemma_encode_other(d: char, c: char)
    requires
        c as u32 <= 0x7f,
        d != c,
    ensures
        forall|i: int| 0 <= i < encode_utf8(seq![d]).len() ==> encode_utf8(seq![d])[i] != c as u8,
{
    lemma_encode_char(d);
    if d as u32 <= 0x7f {
        assert(d as u8 != c as u8);
    }
}

/// A byte that is an ASCII character stands only where that character does.
pub proof fn lemma_encode_without(s: Seq<char>, c: char)
    requires
        c as u32 <= 0x7f,
        forall|i: int| 0 <= i < s.len() ==> s[i] != c,
    ensures
        forall|i: int| 0 <= i < encode_utf8(s).len() ==> encode_utf8(s)[i] != c as u8,
    decreases s.len(),
{
    if s.len() > 0 {
        let first = s[0];
        let front = seq![first];
        let back = s.drop_first();
        assert(front + back == s);
        lemma_encode_add(front, back);
        lemma_encode_other(first, c);
        assert forall|i: int| 0 <= i < back.len() implies back[i] != c by {
            assert(back[i] == s[i + 1]);
        }
        lemma_encode_without(back, c);
        assert forall|i: int| 0 <= i < encode_utf8(s).len() implies encode_utf8(s)[i]
            != c as u8 by {
            let n = encode_utf8(front).len();
            if i < n {
                assert(encode_utf8(s)[i] == encode_utf8(front)[i]);
            } else {
                assert(encode_utf8(s)[i] == encode_utf8(back)[i - n]);
            }
        }
    }
}

/// The last byte is an ASCII character only where the last character is that.
pub proof fn lemma_encode_last(s: Seq<char>, c: char)
    requires
        c as u32 <= 0x7f,
        s.len() > 0,
        s.last() != c,
    ensures
        encode_utf8(s).len() > 0,
        encode_utf8(s).last() != c as u8,
{
    let back = seq![s.last()];
    assert(s.drop_last() + back == s);
    lemma_encode_add(s.drop_last(), back);
    lemma_encode_char(s.last());
    lemma_encode_without(back, c);
    assert(encode_utf8(s).last() == encode_utf8(back).last());
}

/// An ASCII character is encoded as itself.
pub proof fn lemma_encode_ascii(c: char)
    requires
        c as u32 <= 0x7f,
    ensures
        encode_utf8(seq![c]) == seq![c as u8],
{
    lemma_encode_char(c);
}

} // verus!
