//! Aligning one block: a run of rows that share their column widths.

use crate::measure::{lemma_width_add, width};
use crate::pad::{field, fields, lemma_width_of_field, padded_row, width_at, write_row};
use crate::rows::{last_line, parse_rows, rows, terminated};
use crate::split::{
    join, lemma_join_pieces, lemma_pieces_keep_out, lemma_pieces_nonempty,
    lemma_pieces_of_unbroken, pieces, NEWLINE, TAB,
};
use crate::widths::{
    column_start, column_widths, field_width, floored_widths, lemma_content_width_covers, nats,
};
use vstd::prelude::*;

verus! {

/// What ends row `i` in the output: a newline after each of the first `ended`
/// rows, nothing after the others.
pub open spec fn row_end(i: int, ended: nat) -> Seq<u8> {
    if i < ended {
        seq![NEWLINE]
    } else {
        Seq::empty()
    }
}

/// The first `n` rows of `rows` as they are written, each padded to the column
/// widths of all of `rows`.
pub open spec fn written_rows(
    rows: Seq<Seq<Seq<u8>>>,
    n: nat,
    ended: nat,
    minwidth: nat,
    padding: nat,
) -> Seq<u8>
    decreases n,
{
    if n == 0 || n > rows.len() {
        Seq::empty()
    } else {
        written_rows(rows, (n - 1) as nat, ended, minwidth, padding) + padded_row(
            rows[n - 1],
            floored_widths(rows, minwidth),
            padding,
        ) + row_end(n - 1, ended)
    }
}

/// The text `t` aligned as one block: all its rows share the widths of their
/// columns, and each line keeps its newline, or its lack of one.
pub open spec fn aligned_block(t: Seq<u8>, minwidth: nat, padding: nat) -> Seq<u8> {
    written_rows(rows(t), rows(t).len(), terminated(t), minwidth, padding)
}

/// Appends to `out` the text `text` aligned as one block.
pub fn write_block(text: &[u8], minwidth: usize, padding: usize, out: &mut Vec<u8>)
    ensures
        final(out)@ == old(out)@ + aligned_block(text@, minwidth as nat, padding as nat),
{
    let (rows, ended) = parse_rows(text);
    let widths = column_widths(&rows, minwidth);
    let ghost all = rows.deep_view();
    let mut i: usize = 0;
    proof {
        assert(out@ =~= old(out)@ + written_rows(
            all,
            0,
            ended as nat,
            minwidth as nat,
            padding as nat,
        ));
    }
    while i < rows.len()
        invariant
            i <= rows.len(),
            all == rows.deep_view(),
            nats(widths@) == floored_widths(all, minwidth as nat),
            out@ == old(out)@ + written_rows(
                all,
                i as nat,
                ended as nat,
                minwidth as nat,
                padding as nat,
            ),
        decreases rows.len() - i,
    {
        let ghost before = out@;
        write_row(&rows[i], &widths, padding, out);
        if i < ended {
            out.push(NEWLINE);
        }
        i = i + 1;
        proof {
            assert(out@ =~= before + padded_row(
                all[i - 1],
                floored_widths(all, minwidth as nat),
                padding as nat,
            ) + row_end(i - 1, ended as nat));
            assert(out@ =~= old(out)@ + written_rows(
                all,
                i as nat,
                ended as nat,
                minwidth as nat,
                padding as nat,
            ));
        }
    }
}

/// Every field of a column is as wide as the column: a cell that is not the last
/// of its row is written with so much fill that cell and fill together have the
/// field width of the cell's column, whichever row of the block it stands in.
pub proof fn lemma_field_fills_column(
    rows: Seq<Seq<Seq<u8>>>,
    i: int,
    c: int,
    minwidth: nat,
    padding: nat,
)
    requires
        0 <= i < rows.len(),
        0 <= c < rows[i].len() - 1,
    ensures
        width(field(rows[i][c], width_at(floored_widths(rows, minwidth), c), padding))
            == field_width(rows, c, minwidth, padding),
{
    lemma_content_width_covers(rows, i, c);
    lemma_width_of_field(rows[i][c], width_at(floored_widths(rows, minwidth), c), padding);
}

/// The cells of a column stand one below the other: in every row of a block,
/// what is written before cell `c` is as wide as the fields of the columns
/// before `c`.
pub proof fn lemma_cells_line_up(
    rows: Seq<Seq<Seq<u8>>>,
    i: int,
    c: nat,
    minwidth: nat,
    padding: nat,
)
    requires
        0 <= i < rows.len(),
        c < rows[i].len(),
    ensures
        width(fields(rows[i], floored_widths(rows, minwidth), padding, c)) == column_start(
            rows,
            c,
            minwidth,
            padding,
        ),
    decreases c,
{
    if c > 0 {
        let ws = floored_widths(rows, minwidth);
        lemma_cells_line_up(rows, i, (c - 1) as nat, minwidth, padding);
        lemma_field_fills_column(rows, i, c - 1, minwidth, padding);
        lemma_width_add(
            fields(rows[i], ws, padding, (c - 1) as nat),
            field(rows[i][c - 1], width_at(ws, c - 1), padding),
        );
    }
}

/// The first `n` of the lines `ls`, each with its newline.
spec fn ended_lines(ls: Seq<Seq<u8>>, n: nat) -> Seq<u8>
    decreases n,
{
    if n == 0 || n > ls.len() {
        Seq::empty()
    } else {
        ended_lines(ls, (n - 1) as nat) + ls[n - 1] + seq![NEWLINE]
    }
}

/// Lines joined are all of them but the last with their newlines, and the last.
proof fn lemma_join_lines(ls: Seq<Seq<u8>>, n: nat)
    requires
        n < ls.len(),
    ensures
        join(ls.take(n as int + 1), NEWLINE) == ended_lines(ls, n) + ls[n as int],
    decreases n,
{
    let upto = ls.take(n as int + 1);
    if n == 0 {
        assert(ended_lines(ls, 0) + ls[0] =~= ls[0]);
    } else {
        lemma_join_lines(ls, (n - 1) as nat);
        assert(upto.drop_last() =~= ls.take(n as int));
        assert(join(upto, NEWLINE) =~= ended_lines(ls, n) + ls[n as int]);
    }
}

/// The ended rows of a block without a tab are its lines.
proof fn lemma_plain_rows_unchanged(t: Seq<u8>, n: nat, minwidth: nat, padding: nat)
    requires
        !t.contains(TAB),
        n <= terminated(t),
    ensures
        written_rows(rows(t), n, terminated(t), minwidth, padding) == ended_lines(
            pieces(t, NEWLINE),
            n,
        ),
    decreases n,
{
    if n > 0 {
        let ls = pieces(t, NEWLINE);
        let line = ls[n - 1];
        lemma_plain_rows_unchanged(t, (n - 1) as nat, minwidth, padding);
        lemma_pieces_keep_out(t, NEWLINE, TAB);
        lemma_pieces_of_unbroken(line, TAB);
        assert(rows(t)[n - 1] == seq![line]);
        assert(padded_row(seq![line], floored_widths(rows(t), minwidth), padding) =~= line);
    }
}

/// A block without a tab comes out as it went in.
pub proof fn lemma_plain_block_unchanged(t: Seq<u8>, minwidth: nat, padding: nat)
    requires
        !t.contains(TAB),
    ensures
        aligned_block(t, minwidth, padding) == t,
{
    let ls = pieces(t, NEWLINE);
    let n = terminated(t);
    let rest = last_line(t);
    lemma_pieces_nonempty(t, NEWLINE);
    lemma_join_pieces(t, NEWLINE);
    lemma_join_lines(ls, n);
    assert(ls.take(n as int + 1) =~= ls);
    lemma_plain_rows_unchanged(t, n, minwidth, padding);
    if rest.len() == 0 {
        assert(ended_lines(ls, n) + rest =~= ended_lines(ls, n));
    } else {
        lemma_pieces_keep_out(t, NEWLINE, TAB);
        lemma_pieces_of_unbroken(rest, TAB);
        assert(rest[rest.len() - 1] == rest.last());
        assert(rows(t)[n as int] == seq![rest]);
        assert(padded_row(seq![rest], floored_widths(rows(t), minwidth), padding) =~= rest);
        assert(written_rows(rows(t), (n + 1) as nat, n, minwidth, padding) =~= ended_lines(ls, n) + rest);
    }
}

} // verus!
