//! Measuring text: the width of a cell is its number of code points.

use vstd::prelude::*;
use vstd::utf8::{
    encode_scalar, encode_utf8, has_width_1_encoding, has_width_2_encoding, has_width_3_encoding,
    has_width_4_encoding, is_continuation_byte, last_continuation_byte, leading_byte_width_1,
    leading_byte_width_2, leading_byte_width_3, leading_byte_width_4,
    second_last_continuation_byte, third_last_continuation_byte,
};

verus! {

/// What the byte `b` adds to a width: a continuation byte starts no code point,
/// every other byte starts one.
pub open spec fn starts(b: u8) -> nat {
    if is_continuation_byte(b) {
        0
    } else {
        1
    }
}

/// The number of code points that start in `s`.
pub open spec fn width(s: Seq<u8>) -> nat
    decreases s.len(),
{
    if s.len() == 0 {
        0
    } else {
        width(s.drop_last()) + starts(s.last())
    }
}

/// The width of two texts in a row is the sum of their widths.
pub proof fn lemma_width_add(a: Seq<u8>, b: Seq<u8>)
    ensures
        width(a + b) == width(a) + width(b),
    decreases b.len(),
{
    if b.len() == 0 {
        assert(a + b =~= a);
    } else {
        assert((a + b).drop_last() =~= a + b.drop_last());
        lemma_width_add(a, b.drop_last());
    }
}

proof fn lemma_one_byte(s: u32)
    by (bit_vector)
    requires
        has_width_1_encoding(s),
    ensures
        !is_continuation_byte(leading_byte_width_1(s)),
{
}

proof fn lemma_two_bytes(s: u32)
    by (bit_vector)
    requires
        has_width_2_encoding(s),
    ensures
        !is_continuation_byte(leading_byte_width_2(s)),
        is_continuation_byte(last_continuation_byte(s)),
{
}

proof fn lemma_three_bytes(s: u32)
    by (bit_vector)
    requires
        has_width_3_encoding(s),
    ensures
        !is_continuation_byte(leading_byte_width_3(s)),
        is_continuation_byte(second_last_continuation_byte(s)),
        is_continuation_byte(last_continuation_byte(s)),
{
}

proof fn lemma_four_bytes(s: u32)
    by (bit_vector)
    requires
        has_width_4_encoding(s),
    ensures
        !is_continuation_byte(leading_byte_width_4(s)),
        is_continuation_byte(third_last_continuation_byte(s)),
        is_continuation_byte(second_last_continuation_byte(s)),
        is_continuation_byte(last_continuation_byte(s)),
{
}

/// The UTF-8 encoding of one character has width 1.
pub proof fn lemma_width_of_char(c: char)
    ensures
        width(encode_scalar(c as u32)) == 1,
{
    let s = c as u32;
    let bytes = encode_scalar(s);
    reveal_with_fuel(width, 5);
    if has_width_1_encoding(s) {
        lemma_one_byte(s);
        assert(bytes.drop_last() =~= Seq::<u8>::empty());
    } else if has_width_2_encoding(s) {
        lemma_two_bytes(s);
        assert(bytes.drop_last() =~= seq![bytes[0]]);
        assert(bytes.drop_last().drop_last() =~= Seq::<u8>::empty());
    } else if has_width_3_encoding(s) {
        lemma_three_bytes(s);
        assert(bytes.drop_last() =~= seq![bytes[0], bytes[1]]);
        assert(bytes.drop_last().drop_last() =~= seq![bytes[0]]);
        assert(bytes.drop_last().drop_last().drop_last() =~= Seq::<u8>::empty());
    } else {
        vstd::utf8::char_is_scalar(c);
        lemma_four_bytes(s);
        assert(bytes.drop_last() =~= seq![bytes[0], bytes[1], bytes[2]]);
        assert(bytes.drop_last().drop_last() =~= seq![bytes[0], bytes[1]]);
        assert(bytes.drop_last().drop_last().drop_last() =~= seq![bytes[0]]);
        assert(bytes.drop_last().drop_last().drop_last().drop_last() =~= Seq::<u8>::empty());
    }
}

/// The width of text in UTF-8 is its number of characters.
pub proof fn lemma_width_of_utf8(chars: Seq<char>)
    ensures
        width(encode_utf8(chars)) == chars.len(),
    decreases chars.len(),
{
    if chars.len() > 0 {
        lemma_width_of_char(chars[0]);
        lemma_width_of_utf8(chars.drop_first());
        lemma_width_add(encode_scalar(chars[0] as u32), encode_utf8(chars.drop_first()));
    }
}

/// Counts the code points of `cell`.
pub fn cell_width(cell: &[u8]) -> (w: usize)
    ensures
        w == width(cell@),
{
    let mut w: usize = 0;
    let mut i: usize = 0;
    while i < cell.len()
        invariant
            i <= cell.len(),
            w == width(cell@.take(i as int)),
            w <= i,
        decreases cell.len() - i,
    {
        proof {
            assert(cell@.take(i + 1).drop_last() =~= cell@.take(i as int));
        }
        let b: u8 = cell[i];
        if b < 0x80 || b > 0xBF {
            w = w + 1;
        }
        i = i + 1;
    }
    proof {
        assert(cell@.take(i as int) =~= cell@);
    }
    w
}

} // verus!
