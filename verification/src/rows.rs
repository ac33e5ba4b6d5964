//! From text to rows of cells.
//!
//! A row is one line cut into cells at its tabs. A line that ended in a newline is
//! terminated; what follows the last newline is not, and forms a last row only if
//! it is not empty.

use crate::split::{lemma_pieces_nonempty, pieces, split, NEWLINE, TAB};
use vstd::prelude::*;
use vstd::slice::slice_subrange;

verus! {

/// How many lines of `t` ended in a newline.
pub open spec fn terminated(t: Seq<u8>) -> nat {
    (pieces(t, NEWLINE).len() - 1) as nat
}

/// What follows the last newline of `t` (all of `t`, if it has none).
pub open spec fn last_line(t: Seq<u8>) -> Seq<u8> {
    pieces(t, NEWLINE).last()
}

/// The cells of text that no newline has ended yet. A tab at its very end closes
/// the cell before it and opens no further one.
pub open spec fn open_cells(rest: Seq<u8>) -> Seq<Seq<u8>> {
    if rest.len() > 0 && rest.last() == TAB {
        pieces(rest.drop_last(), TAB)
    } else {
        pieces(rest, TAB)
    }
}

/// The rows of `t`: one for each terminated line, then one for the text after the
/// last newline unless that text is empty.
pub open spec fn rows(t: Seq<u8>) -> Seq<Seq<Seq<u8>>> {
    let lines = pieces(t, NEWLINE);
    let whole = Seq::new(terminated(t), |i: int| pieces(lines[i], TAB));
    if last_line(t).len() == 0 {
        whole
    } else {
        whole.push(open_cells(last_line(t)))
    }
}

/// Every row has at least one cell.
pub proof fn lemma_rows_have_cells(t: Seq<u8>)
    ensures
        forall|i: int| 0 <= i < rows(t).len() ==> (#[trigger] rows(t)[i]).len() >= 1,
{
    let lines = pieces(t, NEWLINE);
    lemma_pieces_nonempty(t, NEWLINE);
    assert forall|i: int| 0 <= i < rows(t).len() implies (#[trigger] rows(t)[i]).len() >= 1 by {
        if i < terminated(t) {
            lemma_pieces_nonempty(lines[i], TAB);
        } else {
            let rest = last_line(t);
            if rest.last() == TAB {
                lemma_pieces_nonempty(rest.drop_last(), TAB);
            } else {
                lemma_pieces_nonempty(rest, TAB);
            }
        }
    }
}

/// Cuts `text` into rows of cells, and counts the rows that a newline ended.
pub fn parse_rows(text: &[u8]) -> (out: (Vec<Vec<Vec<u8>>>, usize))
    ensures
        out.0.deep_view() == rows(text@),
        out.1 == terminated(text@),
{
    let lines = split(text, NEWLINE);
    proof {
        lemma_pieces_nonempty(text@, NEWLINE);
    }
    let n: usize = lines.len() - 1;
    let mut out: Vec<Vec<Vec<u8>>> = Vec::new();
    let mut i: usize = 0;
    while i < n
        invariant
            i <= n,
            n + 1 == lines.len(),
            lines.deep_view() == pieces(text@, NEWLINE),
            out.deep_view() == Seq::new(i as nat, |j: int| pieces(lines.deep_view()[j], TAB)),
        decreases n - i,
    {
        let ghost done = out.deep_view();
        let row = split(lines[i].as_slice(), TAB);
        proof {
            assert(lines[i as int].deep_view() =~= lines[i as int]@);
        }
        let ghost cut = row.deep_view();
        out.push(row);
        i = i + 1;
        proof {
            assert(out.deep_view() =~= done.push(cut));
            assert(out.deep_view() =~= Seq::new(
                i as nat,
                |j: int| pieces(lines.deep_view()[j], TAB),
            ));
        }
    }
    let rest = lines[n].as_slice();
    proof {
        assert(lines[n as int].deep_view() =~= lines[n as int]@);
        assert(rest@ == last_line(text@));
    }
    if rest.len() > 0 {
        let ghost done = out.deep_view();
        let row = if rest[rest.len() - 1] == TAB {
            proof {
                assert(rest@.subrange(0, rest.len() - 1) =~= rest@.drop_last());
            }
            split(slice_subrange(rest, 0, rest.len() - 1), TAB)
        } else {
            split(rest, TAB)
        };
        let ghost cut = row.deep_view();
        out.push(row);
        proof {
            assert(out.deep_view() =~= done.push(cut));
        }
    }
    (out, n)
}

} // verus!
