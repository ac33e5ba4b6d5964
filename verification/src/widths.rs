//! Column widths of a block of rows.
//!
//! A cell belongs to a column only where it is not the last cell of its row: last
//! cells are never padded, and so they widen nothing.

use crate::measure::{cell_width, width};
use vstd::prelude::*;

verus! {

/// The larger of two widths.
pub open spec fn larger(a: nat, b: nat) -> nat {
    if a >= b {
        a
    } else {
        b
    }
}

/// The width of the widest cell that stands at index `c` of a row of `rows`
/// without being that row's last cell; 0 where no row has such a cell.
pub open spec fn content_width(rows: Seq<Seq<Seq<u8>>>, c: int) -> nat
    decreases rows.len(),
{
    if rows.len() == 0 {
        0
    } else {
        let above = content_width(rows.drop_last(), c);
        let row = rows.last();
        if 0 <= c < row.len() - 1 {
            larger(above, width(row[c]))
        } else {
            above
        }
    }
}

/// The number of columns of `rows`: the largest number of cells that a row has
/// before its last one.
pub open spec fn column_count(rows: Seq<Seq<Seq<u8>>>) -> nat
    decreases rows.len(),
{
    if rows.len() == 0 {
        0
    } else {
        let above = column_count(rows.drop_last());
        let row = rows.last();
        if row.len() - 1 > above {
            (row.len() - 1) as nat
        } else {
            above
        }
    }
}

/// For each column of `rows`, its content width raised to at least `minwidth`.
pub open spec fn floored_widths(rows: Seq<Seq<Seq<u8>>>, minwidth: nat) -> Seq<nat> {
    Seq::new(column_count(rows), |c: int| larger(minwidth, content_width(rows, c)))
}

/// The width of the field that column `c` of `rows` gets: its content width, at
/// least `minwidth`, and `padding` more.
pub open spec fn field_width(rows: Seq<Seq<Seq<u8>>>, c: int, minwidth: nat, padding: nat) -> nat {
    larger(minwidth, content_width(rows, c)) + padding
}

/// Where column `c` of `rows` starts: behind the fields of the columns before it.
pub open spec fn column_start(rows: Seq<Seq<Seq<u8>>>, c: nat, minwidth: nat, padding: nat) -> nat
    decreases c,
{
    if c == 0 {
        0
    } else {
        column_start(rows, (c - 1) as nat, minwidth, padding) + field_width(
            rows,
            c - 1,
            minwidth,
            padding,
        )
    }
}

/// Machine widths read as numbers.
pub open spec fn nats(ws: Seq<usize>) -> Seq<nat> {
    Seq::new(ws.len(), |c: int| ws[c] as nat)
}

/// Beyond the last column there is no content.
pub proof fn lemma_no_content_beyond_columns(rows: Seq<Seq<Seq<u8>>>, c: int)
    requires
        c >= column_count(rows),
    ensures
        content_width(rows, c) == 0,
    decreases rows.len(),
{
    if rows.len() > 0 {
        lemma_no_content_beyond_columns(rows.drop_last(), c);
    }
}

/// A column is as wide as each of its cells.
pub proof fn lemma_content_width_covers(rows: Seq<Seq<Seq<u8>>>, i: int, c: int)
    requires
        0 <= i < rows.len(),
        0 <= c < rows[i].len() - 1,
    ensures
        width(rows[i][c]) <= content_width(rows, c),
        c < column_count(rows),
    decreases rows.len(),
{
    if i < rows.len() - 1 {
        lemma_content_width_covers(rows.drop_last(), i, c);
    }
}

/// A column is no wider than its widest cell: where its content width is not 0,
/// some row has a cell of exactly that width in it, and not as its last cell.
pub proof fn lemma_content_width_attained(rows: Seq<Seq<Seq<u8>>>, c: int)
    requires
        content_width(rows, c) > 0,
    ensures
        exists|i: int|
            0 <= i < rows.len() && 0 <= c < rows[i].len() - 1 && width(#[trigger] rows[i][c])
                == content_width(rows, c),
    decreases rows.len(),
{
    let row = rows.last();
    if 0 <= c < row.len() - 1 && width(row[c]) >= content_width(rows.drop_last(), c) {
        assert(width(rows[rows.len() - 1][c]) == content_width(rows, c));
    } else {
        lemma_content_width_attained(rows.drop_last(), c);
        let i = choose|i: int|
            0 <= i < rows.drop_last().len() && 0 <= c < rows.drop_last()[i].len() - 1 && width(
                #[trigger] rows.drop_last()[i][c],
            ) == content_width(rows.drop_last(), c);
        assert(width(rows[i][c]) == content_width(rows, c));
    }
}

/// The last cell of a row widens no column: with another last cell in row `i`,
/// every content width is what it was.
pub proof fn lemma_last_cell_widens_nothing(
    rows: Seq<Seq<Seq<u8>>>,
    i: int,
    cell: Seq<u8>,
    c: int,
)
    requires
        0 <= i < rows.len(),
        rows[i].len() >= 1,
    ensures
        content_width(rows.update(i, rows[i].update(rows[i].len() - 1, cell)), c) == content_width(
            rows,
            c,
        ),
        column_count(rows.update(i, rows[i].update(rows[i].len() - 1, cell))) == column_count(rows),
    decreases rows.len(),
{
    let changed = rows.update(i, rows[i].update(rows[i].len() - 1, cell));
    if i < rows.len() - 1 {
        lemma_last_cell_widens_nothing(rows.drop_last(), i, cell, c);
        assert(changed.drop_last() =~= rows.drop_last().update(
            i,
            rows[i].update(rows[i].len() - 1, cell),
        ));
    } else {
        assert(changed.drop_last() =~= rows.drop_last());
    }
}

/// Computes, for each column of `rows`, its content width raised to at least
/// `minwidth`.
pub fn column_widths(rows: &Vec<Vec<Vec<u8>>>, minwidth: usize) -> (ws: Vec<usize>)
    ensures
        nats(ws@) == floored_widths(rows.deep_view(), minwidth as nat),
{
    let ghost all = rows.deep_view();
    let mut ws: Vec<usize> = Vec::new();
    let mut i: usize = 0;
    while i < rows.len()
        invariant
            i <= rows.len(),
            all == rows.deep_view(),
            ws.len() == column_count(all.take(i as int)),
            forall|k: int|
                0 <= k < ws.len() ==> ws[k] as nat == larger(
                    minwidth as nat,
                    content_width(all.take(i as int), k),
                ),
        decreases rows.len() - i,
    {
        let row = &rows[i];
        let ghost above = all.take(i as int);
        let ghost upto = all.take(i + 1);
        proof {
            assert(upto.drop_last() =~= above);
            assert(upto.last() == row.deep_view());
        }
        let last: usize = if row.len() == 0 {
            0
        } else {
            row.len() - 1
        };
        let mut c: usize = 0;
        while c < last
            invariant
                c <= last,
                last == if row.len() == 0 {
                    0
                } else {
                    row.len() - 1
                },
                upto.len() > 0,
                upto.drop_last() == above,
                upto.last() == row.deep_view(),
                ws.len() == larger(column_count(above), c as nat),
                forall|k: int|
                    0 <= k < c ==> ws[k] as nat == larger(minwidth as nat, content_width(upto, k)),
                forall|k: int|
                    c <= k < ws.len() ==> ws[k] as nat == larger(
                        minwidth as nat,
                        content_width(above, k),
                    ),
            decreases last - c,
        {
            let w = cell_width(row[c].as_slice());
            proof {
                assert(row.deep_view()[c as int] =~= row[c as int]@);
            }
            if c < ws.len() {
                if w > ws[c] {
                    ws.set(c, w);
                }
            } else {
                proof {
                    lemma_no_content_beyond_columns(above, c as int);
                }
                ws.push(
                    if w > minwidth {
                        w
                    } else {
                        minwidth
                    },
                );
            }
            c = c + 1;
        }
        i = i + 1;
    }
    proof {
        assert(all.take(i as int) =~= all);
        assert(nats(ws@) =~= floored_widths(all, minwidth as nat));
    }
    ws
}

} // verus!
