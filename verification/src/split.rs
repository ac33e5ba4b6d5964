//! Splitting text at a separator byte: lines at newlines, cells at tabs.

use vstd::prelude::*;

verus! {

/// The column separator.
pub const TAB: u8 = 0x09;

/// The line terminator.
pub const NEWLINE: u8 = 0x0A;

/// The pieces of `t` between occurrences of `sep`, in order. There is always at
/// least one piece; the last one is what follows the last `sep`.
pub open spec fn pieces<T>(t: Seq<T>, sep: T) -> Seq<Seq<T>>
    decreases t.len(),
{
    if t.len() == 0 {
        seq![Seq::empty()]
    } else {
        let before = pieces(t.drop_last(), sep);
        if t.last() == sep {
            before.push(Seq::empty())
        } else {
            before.drop_last().push(before.last().push(t.last()))
        }
    }
}

/// The pieces `ps` put together again with one `sep` between neighbours.
pub open spec fn join<T>(ps: Seq<Seq<T>>, sep: T) -> Seq<T>
    decreases ps.len(),
{
    if ps.len() == 0 {
        Seq::empty()
    } else if ps.len() == 1 {
        ps[0]
    } else {
        join(ps.drop_last(), sep).push(sep) + ps.last()
    }
}

/// Splitting never yields an empty list of pieces.
pub proof fn lemma_pieces_nonempty<T>(t: Seq<T>, sep: T)
    ensures
        pieces(t, sep).len() >= 1,
    decreases t.len(),
{
    if t.len() > 0 {
        lemma_pieces_nonempty(t.drop_last(), sep);
    }
}

/// No piece holds the separator.
pub proof fn lemma_pieces_free_of_sep<T>(t: Seq<T>, sep: T)
    ensures
        forall|i: int| 0 <= i < pieces(t, sep).len() ==> !(#[trigger] pieces(t, sep)[i]).contains(
            sep,
        ),
    decreases t.len(),
{
    if t.len() > 0 {
        lemma_pieces_free_of_sep(t.drop_last(), sep);
        lemma_pieces_nonempty(t.drop_last(), sep);
    }
}

/// A byte that is not in a text is in none of its pieces.
pub proof fn lemma_pieces_keep_out<T>(t: Seq<T>, sep: T, b: T)
    requires
        !t.contains(b),
    ensures
        forall|i: int| 0 <= i < pieces(t, sep).len() ==> !(#[trigger] pieces(t, sep)[i]).contains(b),
    decreases t.len(),
{
    if t.len() > 0 {
        let init = t.drop_last();
        assert(t[t.len() - 1] == t.last());
        assert forall|i: int| 0 <= i < init.len() implies init[i] != b by {
            assert(t[i] == init[i]);
        }
        lemma_pieces_keep_out(init, sep, b);
        lemma_pieces_nonempty(init, sep);
    }
}

/// Joining the pieces of a text gives the text back.
pub proof fn lemma_join_pieces<T>(t: Seq<T>, sep: T)
    ensures
        join(pieces(t, sep), sep) == t,
    decreases t.len(),
{
    if t.len() > 0 {
        let init = t.drop_last();
        let before = pieces(init, sep);
        lemma_join_pieces(init, sep);
        lemma_pieces_nonempty(init, sep);
        if t.last() == sep {
            assert(before.push(Seq::empty()).drop_last() =~= before);
            assert(join(before, sep).push(sep) + Seq::<T>::empty() =~= t);
        } else {
            let grown = before.drop_last().push(before.last().push(t.last()));
            assert(grown.drop_last() =~= before.drop_last());
            if before.len() == 1 {
                assert(before.last().push(t.last()) =~= t);
            } else {
                assert(join(before.drop_last(), sep).push(sep) + before.last().push(t.last())
                    =~= (join(before.drop_last(), sep).push(sep) + before.last()).push(t.last()));
                assert(init.push(t.last()) =~= t);
            }
        }
    }
}

/// A text without the separator is its own single piece.
pub proof fn lemma_pieces_of_unbroken<T>(t: Seq<T>, sep: T)
    requires
        !t.contains(sep),
    ensures
        pieces(t, sep) == seq![t],
    decreases t.len(),
{
    if t.len() == 0 {
        assert(t =~= Seq::empty());
    } else {
        let init = t.drop_last();
        assert(t[t.len() - 1] == t.last());
        assert forall|i: int| 0 <= i < init.len() implies init[i] != sep by {
            assert(t[i] == init[i]);
        }
        lemma_pieces_of_unbroken(init, sep);
        assert(init.push(t.last()) =~= t);
        assert(seq![init].drop_last().push(init.push(t.last())) =~= seq![t]);
    }
}

/// Splits `text` at every `sep`.
pub fn split(text: &[u8], sep: u8) -> (out: Vec<Vec<u8>>)
    ensures
        out.deep_view() == pieces(text@, sep),
{
    let mut out: Vec<Vec<u8>> = Vec::new();
    let mut cur: Vec<u8> = Vec::new();
    let mut i: usize = 0;
    while i < text.len()
        invariant
            i <= text.len(),
            out.deep_view().push(cur@) == pieces(text@.take(i as int), sep),
        decreases text.len() - i,
    {
        let ghost done = out.deep_view();
        let ghost held = cur@;
        proof {
            assert(text@.take(i + 1).drop_last() =~= text@.take(i as int));
            assert(done.push(held).drop_last() =~= done);
        }
        let b: u8 = text[i];
        if b == sep {
            proof {
                assert(cur.deep_view() =~= held);
            }
            out.push(cur);
            cur = Vec::new();
            proof {
                assert(out.deep_view() =~= done.push(held));
            }
        } else {
            cur.push(b);
            proof {
                assert(out.deep_view() =~= done);
            }
        }
        i = i + 1;
    }
    proof {
        assert(text@.take(i as int) =~= text@);
    }
    let ghost done = out.deep_view();
    let ghost held = cur@;
    proof {
        assert(cur.deep_view() =~= held);
    }
    out.push(cur);
    proof {
        assert(out.deep_view() =~= done.push(held));
    }
    out
}

} // verus!
