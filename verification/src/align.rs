//! Aligning a whole text, block by block.
//!
//! A line without a tab is plain. A plain line that a newline has ended closes
//! the block it stands in: the text up to and including it is settled, and what
//! follows is aligned on its own.

use crate::block::{aligned_block, lemma_plain_block_unchanged};
use crate::rows::last_line;
use crate::split::{NEWLINE, TAB};
use vstd::prelude::*;

verus! {

/// Whether `t` ends in the newline of a plain line.
pub open spec fn ends_plain(t: Seq<u8>) -> bool {
    t.len() > 0 && t.last() == NEWLINE && !last_line(t.drop_last()).contains(TAB)
}

/// Whether all of `t` is settled: it is empty, or it ends in the newline of a
/// plain line.
pub open spec fn settled(t: Seq<u8>) -> bool {
    t.len() == 0 || ends_plain(t)
}

/// The length of the longest settled prefix of `t`.
pub open spec fn settled_len(t: Seq<u8>) -> nat
    decreases t.len(),
{
    if settled(t) {
        t.len()
    } else {
        settled_len(t.drop_last())
    }
}

/// Where the last block of a text `t` that is not empty starts: behind the
/// longest settled prefix that leaves at least one byte.
pub open spec fn last_block_start(t: Seq<u8>) -> nat {
    settled_len(t.drop_last())
}

/// The text `t` aligned: its blocks, each aligned on its own, one after another.
pub open spec fn aligned(t: Seq<u8>, minwidth: nat, padding: nat) -> Seq<u8>
    decreases t.len(),
    via aligned_decreases
{
    if t.len() == 0 {
        Seq::empty()
    } else {
        let k = last_block_start(t) as int;
        aligned(t.take(k), minwidth, padding) + aligned_block(t.skip(k), minwidth, padding)
    }
}

#[via_fn]
proof fn aligned_decreases(t: Seq<u8>, minwidth: nat, padding: nat) {
    if t.len() > 0 {
        lemma_settled_len_bound(t.drop_last());
    }
}

/// A settled prefix is a prefix.
pub proof fn lemma_settled_len_bound(t: Seq<u8>)
    ensures
        settled_len(t) <= t.len(),
    decreases t.len(),
{
    if !settled(t) {
        lemma_settled_len_bound(t.drop_last());
    }
}

/// The longest settled prefix is settled.
pub proof fn lemma_settled_prefix(t: Seq<u8>)
    ensures
        settled_len(t) <= t.len(),
        settled(t.take(settled_len(t) as int)),
    decreases t.len(),
{
    if settled(t) {
        assert(t.take(t.len() as int) =~= t);
    } else {
        let init = t.drop_last();
        lemma_settled_prefix(init);
        assert(init.take(settled_len(init) as int) =~= t.take(settled_len(init) as int));
    }
}

/// Behind a settled text the last line starts afresh.
pub proof fn lemma_last_line_after_settled(a: Seq<u8>, b: Seq<u8>)
    requires
        settled(a),
    ensures
        last_line(a + b) == last_line(b),
    decreases b.len(),
{
    if b.len() == 0 {
        assert(a + b =~= a);
    } else {
        assert((a + b).drop_last() =~= a + b.drop_last());
        lemma_last_line_after_settled(a, b.drop_last());
    }
}

/// Behind a settled text, what is settled next does not depend on that text.
pub proof fn lemma_settled_len_after_settled(a: Seq<u8>, b: Seq<u8>)
    requires
        settled(a),
    ensures
        settled_len(a + b) == a.len() + settled_len(b),
    decreases b.len(),
{
    if b.len() == 0 {
        assert(a + b =~= a);
    } else {
        assert((a + b).drop_last() =~= a + b.drop_last());
        lemma_last_line_after_settled(a, b.drop_last());
        lemma_settled_len_after_settled(a, b.drop_last());
    }
}

/// A plain line parts what is aligned before it from what is aligned after it:
/// behind a settled text `a`, the text `b` is aligned as it would be alone, and
/// `a` as if nothing followed.
pub proof fn lemma_aligned_apart(a: Seq<u8>, b: Seq<u8>, minwidth: nat, padding: nat)
    requires
        settled(a),
    ensures
        aligned(a + b, minwidth, padding) == aligned(a, minwidth, padding) + aligned(
            b,
            minwidth,
            padding,
        ),
    decreases b.len(),
{
    if b.len() == 0 {
        assert(a + b =~= a);
        assert(aligned(a, minwidth, padding) + Seq::<u8>::empty() =~= aligned(
            a,
            minwidth,
            padding,
        ));
    } else {
        let t = a + b;
        let kb = last_block_start(b) as int;
        let k = last_block_start(t) as int;
        assert(t.drop_last() =~= a + b.drop_last());
        lemma_settled_len_after_settled(a, b.drop_last());
        lemma_settled_len_bound(b.drop_last());
        assert(k == a.len() + kb);
        assert(t.take(k) =~= a + b.take(kb));
        assert(t.skip(k) =~= b.skip(kb));
        lemma_aligned_apart(a, b.take(kb), minwidth, padding);
        assert(aligned(t, minwidth, padding) =~= aligned(a, minwidth, padding) + aligned(
            b,
            minwidth,
            padding,
        ));
    }
}

/// Text without a tab comes out as it went in.
pub proof fn lemma_plain_text_unchanged(t: Seq<u8>, minwidth: nat, padding: nat)
    requires
        !t.contains(TAB),
    ensures
        aligned(t, minwidth, padding) == t,
    decreases t.len(),
{
    if t.len() == 0 {
        assert(t =~= Seq::<u8>::empty());
    } else {
        let k = last_block_start(t) as int;
        lemma_settled_len_bound(t.drop_last());
        assert forall|i: int| 0 <= i < t.take(k).len() implies t.take(k)[i] != TAB by {
            assert(t[i] == t.take(k)[i]);
        }
        assert forall|i: int| 0 <= i < t.skip(k).len() implies t.skip(k)[i] != TAB by {
            assert(t[i + k] == t.skip(k)[i]);
        }
        lemma_plain_text_unchanged(t.take(k), minwidth, padding);
        lemma_plain_block_unchanged(t.skip(k), minwidth, padding);
        assert(t.take(k) + t.skip(k) =~= t);
    }
}

} // verus!
