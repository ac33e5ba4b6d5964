//! Writing a row with its cells padded to the widths of their columns.

use crate::measure::{cell_width, lemma_width_add, width};
use crate::widths::nats;
use vstd::prelude::*;

verus! {

/// The fill character.
pub const SPACE: u8 = 0x20;

/// `n` fill characters.
pub open spec fn spaces(n: nat) -> Seq<u8> {
    Seq::new(n, |i: int| SPACE)
}

/// The width on record for column `c`; 0 where `ws` does not reach.
pub open spec fn width_at(ws: Seq<nat>, c: int) -> nat {
    if 0 <= c < ws.len() {
        ws[c]
    } else {
        0
    }
}

/// How many fill characters follow `cell` in a column of width `w`: what `cell`
/// lacks to `w`, which is nothing where it is wider, and `padding` more.
pub open spec fn fill(cell: Seq<u8>, w: nat, padding: nat) -> nat {
    if w > width(cell) {
        (w - width(cell) + padding) as nat
    } else {
        padding
    }
}

/// `cell` followed by its fill.
pub open spec fn field(cell: Seq<u8>, w: nat, padding: nat) -> Seq<u8> {
    cell + spaces(fill(cell, w, padding))
}

/// The first `n` cells of `row`, each as a field of its column.
pub open spec fn fields(row: Seq<Seq<u8>>, ws: Seq<nat>, padding: nat, n: nat) -> Seq<u8>
    decreases n,
{
    if n == 0 || n > row.len() {
        Seq::empty()
    } else {
        fields(row, ws, padding, (n - 1) as nat) + field(row[n - 1], width_at(ws, n - 1), padding)
    }
}

/// A row as it is written: every cell but the last as a field of its column, the
/// last cell as it is.
pub open spec fn padded_row(row: Seq<Seq<u8>>, ws: Seq<nat>, padding: nat) -> Seq<u8> {
    if row.len() == 0 {
        Seq::empty()
    } else {
        fields(row, ws, padding, (row.len() - 1) as nat) + row.last()
    }
}

/// Fill characters are as wide as they are many.
pub proof fn lemma_width_of_spaces(n: nat)
    ensures
        width(spaces(n)) == n,
    decreases n,
{
    if n > 0 {
        assert(spaces(n).drop_last() =~= spaces((n - 1) as nat));
        lemma_width_of_spaces((n - 1) as nat);
    }
}

/// A field of a column that is wide enough for its cell is as wide as the
/// column and its padding.
pub proof fn lemma_width_of_field(cell: Seq<u8>, w: nat, padding: nat)
    requires
        width(cell) <= w,
    ensures
        width(field(cell, w, padding)) == w + padding,
{
    lemma_width_add(cell, spaces(fill(cell, w, padding)));
    lemma_width_of_spaces(fill(cell, w, padding));
}

/// Appends `bytes` to `out`.
pub fn write_bytes(out: &mut Vec<u8>, bytes: &[u8])
    ensures
        final(out)@ == old(out)@ + bytes@,
{
    let mut i: usize = 0;
    while i < bytes.len()
        invariant
            i <= bytes.len(),
            out@ == old(out)@ + bytes@.take(i as int),
        decreases bytes.len() - i,
    {
        out.push(bytes[i]);
        i = i + 1;
        proof {
            assert(bytes@.take(i as int) =~= bytes@.take(i - 1).push(bytes@[i - 1]));
            assert(out@ =~= old(out)@ + bytes@.take(i as int));
        }
    }
    proof {
        assert(bytes@.take(i as int) =~= bytes@);
    }
}

/// Appends `n` fill characters to `out`.
pub fn write_spaces(out: &mut Vec<u8>, n: usize)
    ensures
        final(out)@ == old(out)@ + spaces(n as nat),
{
    let mut i: usize = 0;
    while i < n
        invariant
            i <= n,
            out@ == old(out)@ + spaces(i as nat),
        decreases n - i,
    {
        out.push(SPACE);
        i = i + 1;
        proof {
            assert(out@ =~= old(out)@ + spaces(i as nat));
        }
    }
}

/// Appends `row` to `out`, each cell but the last filled up to the width that
/// `widths` holds for its column and `padding` beyond it.
pub fn write_row(row: &Vec<Vec<u8>>, widths: &Vec<usize>, padding: usize, out: &mut Vec<u8>)
    ensures
        final(out)@ == old(out)@ + padded_row(row.deep_view(), nats(widths@), padding as nat),
{
    if row.len() == 0 {
        proof {
            assert(out@ =~= old(out)@ + Seq::<u8>::empty());
        }
        return ;
    }
    let ghost cells = row.deep_view();
    let ghost ws = nats(widths@);
    let last: usize = row.len() - 1;
    let mut c: usize = 0;
    proof {
        assert(out@ =~= old(out)@ + fields(cells, ws, padding as nat, 0));
    }
    while c < last
        invariant
            c <= last,
            last + 1 == row.len(),
            cells == row.deep_view(),
            ws == nats(widths@),
            out@ == old(out)@ + fields(cells, ws, padding as nat, c as nat),
        decreases last - c,
    {
        let ghost before = out@;
        let cell = row[c].as_slice();
        proof {
            assert(cells[c as int] =~= cell@);
        }
        write_bytes(out, cell);
        let w = cell_width(cell);
        let target: usize = if c < widths.len() {
            widths[c]
        } else {
            0
        };
        if target > w {
            write_spaces(out, target - w);
        }
        write_spaces(out, padding);
        c = c + 1;
        proof {
            let f = fill(cell@, width_at(ws, c - 1), padding as nat);
            if target > w {
                assert(spaces((target - w) as nat) + spaces(padding as nat) =~= spaces(f));
            }
            assert(out@ =~= before + field(cell@, width_at(ws, c - 1), padding as nat));
            assert(out@ =~= old(out)@ + fields(cells, ws, padding as nat, c as nat));
        }
    }
    let ghost before = out@;
    let cell = row[last].as_slice();
    proof {
        assert(cells[last as int] =~= cell@);
    }
    write_bytes(out, cell);
    proof {
        assert(out@ =~= old(out)@ + padded_row(cells, ws, padding as nat));
    }
}

} // verus!
