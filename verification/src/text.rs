//! Text and its bytes.
//!
//! The writer works on bytes. These laws say what that means for text in UTF-8: a
//! byte below 0x80 stands for itself alone, so text is cut at tabs and newlines
//! exactly where its characters are, and every piece is the UTF-8 of the
//! characters between two cuts.

use crate::split::{lemma_pieces_nonempty, pieces};
use vstd::prelude::*;
use vstd::utf8::{
    char_is_scalar, char_u32_cast, encode_scalar, encode_utf8, has_width_1_encoding,
    has_width_2_encoding, has_width_3_encoding, has_width_4_encoding, last_continuation_byte,
    leading_byte_width_1, leading_byte_width_2, leading_byte_width_3, leading_byte_width_4,
    second_last_continuation_byte, third_last_continuation_byte,
};

verus! {

/// Each of `ps` in UTF-8.
pub open spec fn encoded(ps: Seq<Seq<char>>) -> Seq<Seq<u8>> {
    Seq::new(ps.len(), |i: int| encode_utf8(ps[i]))
}

proof fn lemma_one_byte_is_the_scalar(s: u32)
    by (bit_vector)
    requires
        has_width_1_encoding(s),
    ensures
        leading_byte_width_1(s) as u32 == s,
{
}

proof fn lemma_two_bytes_are_high(s: u32)
    by (bit_vector)
    requires
        has_width_2_encoding(s),
    ensures
        leading_byte_width_2(s) >= 0x80,
        last_continuation_byte(s) >= 0x80,
{
}

proof fn lemma_three_bytes_are_high(s: u32)
    by (bit_vector)
    requires
        has_width_3_encoding(s),
    ensures
        leading_byte_width_3(s) >= 0x80,
        second_last_continuation_byte(s) >= 0x80,
        last_continuation_byte(s) >= 0x80,
{
}

proof fn lemma_four_bytes_are_high(s: u32)
    by (bit_vector)
    requires
        has_width_4_encoding(s),
    ensures
        leading_byte_width_4(s) >= 0x80,
        third_last_continuation_byte(s) >= 0x80,
        second_last_continuation_byte(s) >= 0x80,
        last_continuation_byte(s) >= 0x80,
{
}

/// A character below U+0080 is one byte, its own number; any other character is
/// made of bytes from 0x80 up.
pub proof fn lemma_bytes_of_char(c: char)
    ensures
        c as u32 <= 0x7F ==> encode_scalar(c as u32) == seq![c as u8],
        c as u32 > 0x7F ==> forall|i: int|
            0 <= i < encode_scalar(c as u32).len() ==> #[trigger] encode_scalar(c as u32)[i]
                >= 0x80,
{
    let s = c as u32;
    char_is_scalar(c);
    if has_width_1_encoding(s) {
        lemma_one_byte_is_the_scalar(s);
        assert(encode_scalar(s) =~= seq![c as u8]);
    } else if has_width_2_encoding(s) {
        lemma_two_bytes_are_high(s);
    } else if has_width_3_encoding(s) {
        lemma_three_bytes_are_high(s);
    } else {
        lemma_four_bytes_are_high(s);
    }
}

/// The UTF-8 of text with one more character is the UTF-8 of the text, then that
/// of the character.
pub proof fn lemma_utf8_of_push(chars: Seq<char>, c: char)
    ensures
        encode_utf8(chars.push(c)) == encode_utf8(chars) + encode_scalar(c as u32),
    decreases chars.len(),
{
    let more = chars.push(c);
    if chars.len() == 0 {
        assert(more.drop_first() =~= Seq::<char>::empty());
        assert(encode_utf8(more.drop_first()) =~= Seq::<u8>::empty());
        assert(more[0] == c);
        assert(encode_utf8(more) =~= encode_scalar(c as u32));
        assert(encode_utf8(chars) + encode_scalar(c as u32) =~= encode_scalar(c as u32));
    } else {
        assert(more.drop_first() =~= chars.drop_first().push(c));
        lemma_utf8_of_push(chars.drop_first(), c);
        assert(encode_utf8(more) =~= encode_utf8(chars) + encode_scalar(c as u32));
    }
}

/// A character below U+0080 that is not in a text has its byte nowhere in the
/// text's UTF-8.
pub proof fn lemma_utf8_keeps_out(chars: Seq<char>, sep: char)
    requires
        sep as u32 <= 0x7F,
        !chars.contains(sep),
    ensures
        !encode_utf8(chars).contains(sep as u8),
    decreases chars.len(),
{
    if chars.len() == 0 {
        assert(encode_utf8(chars) =~= Seq::<u8>::empty());
    } else {
        let init = chars.drop_last();
        let c = chars.last();
        let more = encode_scalar(c as u32);
        assert(chars[chars.len() - 1] == c);
        assert forall|i: int| 0 <= i < init.len() implies init[i] != sep by {
            assert(chars[i] == init[i]);
        }
        assert(init.push(c) =~= chars);
        lemma_utf8_keeps_out(init, sep);
        lemma_utf8_of_push(init, c);
        lemma_bytes_of_char(c);
        if c as u32 <= 0x7F && c as u8 == sep as u8 {
            char_u32_cast(c, c as u32);
            char_u32_cast(sep, sep as u32);
        }
        let bytes = encode_utf8(init);
        assert forall|i: int| 0 <= i < (bytes + more).len() implies (bytes + more)[i] != sep as u8 by {
            if i < bytes.len() {
                assert(bytes[i] == (bytes + more)[i]);
            } else {
                assert(more[i - bytes.len()] == (bytes + more)[i]);
            }
        }
    }
}

/// Bytes without the separator lengthen the last piece and cut nothing.
pub proof fn lemma_pieces_of_appended<T>(t: Seq<T>, more: Seq<T>, sep: T)
    requires
        !more.contains(sep),
    ensures
        pieces(t + more, sep) == pieces(t, sep).drop_last().push(pieces(t, sep).last() + more),
    decreases more.len(),
{
    lemma_pieces_nonempty(t, sep);
    let ps = pieces(t, sep);
    if more.len() == 0 {
        assert(t + more =~= t);
        assert(ps.last() + more =~= ps.last());
        assert(ps.drop_last().push(ps.last()) =~= ps);
    } else {
        let init = more.drop_last();
        assert(more[more.len() - 1] == more.last());
        assert forall|i: int| 0 <= i < init.len() implies init[i] != sep by {
            assert(more[i] == init[i]);
        }
        lemma_pieces_of_appended(t, init, sep);
        assert((t + more).drop_last() =~= t + init);
        let grown = ps.drop_last().push(ps.last() + init);
        assert(grown.drop_last() =~= ps.drop_last());
        assert((ps.last() + init).push(more.last()) =~= ps.last() + more);
    }
}

/// Text in UTF-8 is cut at a separator below U+0080 where its characters are:
/// the pieces of the bytes are the pieces of the characters, each in UTF-8.
pub proof fn lemma_pieces_of_utf8(chars: Seq<char>, sep: char)
    requires
        sep as u32 <= 0x7F,
    ensures
        pieces(encode_utf8(chars), sep as u8) == encoded(pieces(chars, sep)),
    decreases chars.len(),
{
    let b = sep as u8;
    if chars.len() == 0 {
        assert(encode_utf8(Seq::<char>::empty()) =~= Seq::<u8>::empty());
        assert(pieces(encode_utf8(chars), b) =~= encoded(pieces(chars, sep)));
    } else {
        let init = chars.drop_last();
        let c = chars.last();
        let ps = pieces(init, sep);
        let bytes = encode_utf8(init);
        let bs = pieces(bytes, b);
        assert(init.push(c) =~= chars);
        lemma_pieces_of_utf8(init, sep);
        lemma_utf8_of_push(init, c);
        lemma_pieces_nonempty(init, sep);
        lemma_bytes_of_char(c);
        lemma_utf8_of_push(ps.last(), c);
        if c == sep {
            assert((bytes + seq![b]).drop_last() =~= bytes);
            assert(encode_utf8(Seq::<char>::empty()) =~= Seq::<u8>::empty());
            assert(bs.push(Seq::empty()) =~= encoded(ps.push(Seq::empty())));
        } else {
            let more = encode_scalar(c as u32);
            if c as u32 <= 0x7F {
                if c as u8 == b {
                    char_u32_cast(c, c as u32);
                    char_u32_cast(sep, sep as u32);
                    assert(c as u32 == sep as u32);
                }
                assert(more[0] != b);
            }
            assert(!more.contains(b));
            lemma_pieces_of_appended(bytes, more, b);
            assert(bs.drop_last().push(bs.last() + more) =~= encoded(
                ps.drop_last().push(ps.last().push(c)),
            ));
        }
    }
}

} // verus!
