//! The buffering writer.
//!
//! Text goes in through `write` in chunks of any size. Whatever is settled goes
//! to the sink at once, aligned; the open block and the line in progress are
//! held back until a plain line closes the block or `flush` is called.

use crate::align::{
    aligned, ends_plain, lemma_aligned_apart, lemma_plain_text_unchanged,
    lemma_settled_len_after_settled, lemma_settled_len_bound, lemma_settled_prefix, settled_len,
};
use crate::block::{aligned_block, write_block};
use crate::rows::last_line;
use crate::split::{lemma_pieces_nonempty, NEWLINE, TAB};
use crate::text::lemma_utf8_keeps_out;
use vstd::prelude::*;
use vstd::utf8::encode_utf8;

verus! {

/// What a writer is, as far as its users can tell.
pub struct Model {
    /// Everything that has reached the sink.
    pub written: Seq<u8>,
    /// The input that is held back, as it came in.
    pub pending: Seq<u8>,
    /// The least content width of a column.
    pub minwidth: nat,
    /// The fill that follows a field.
    pub padding: nat,
}

impl Model {
    /// The writer after the chunk `buf` has come in: the longest settled prefix
    /// of what is now pending goes to the sink, aligned, and the rest stays.
    pub open spec fn write(self, buf: Seq<u8>) -> Model {
        let t = self.pending + buf;
        let k = settled_len(t) as int;
        Model {
            written: self.written + aligned(t.take(k), self.minwidth, self.padding),
            pending: t.skip(k),
            ..self
        }
    }

    /// The writer after a flush: all that was pending goes to the sink, aligned.
    pub open spec fn flush(self) -> Model {
        Model {
            written: self.written + aligned(self.pending, self.minwidth, self.padding),
            pending: Seq::empty(),
            ..self
        }
    }
}

/// Where the chunks end makes no difference: two chunks written one after the
/// other leave the writer as the two written as one chunk do.
pub proof fn lemma_chunks_make_no_difference(m: Model, a: Seq<u8>, b: Seq<u8>)
    ensures
        m.write(a).write(b) == m.write(a + b),
{
    let t = m.pending + a;
    let k = settled_len(t) as int;
    let rest = t.skip(k);
    let kb = settled_len(rest + b) as int;
    lemma_settled_prefix(t);
    lemma_settled_len_bound(rest + b);
    assert(m.pending + (a + b) =~= t.take(k) + (rest + b));
    lemma_settled_len_after_settled(t.take(k), rest + b);
    lemma_aligned_apart(t.take(k), (rest + b).take(kb), m.minwidth, m.padding);
    assert((t.take(k) + (rest + b)).take(k + kb) =~= t.take(k) + (rest + b).take(kb));
    assert((t.take(k) + (rest + b)).skip(k + kb) =~= (rest + b).skip(kb));
    assert(m.write(a).write(b).written =~= m.write(a + b).written);
}

/// A flush after a write sends to the sink, aligned, all that was pending and
/// the chunk behind it.
pub proof fn lemma_flush_sends_all(m: Model, a: Seq<u8>)
    ensures
        m.write(a).flush() == (Model {
            written: m.written + aligned(m.pending + a, m.minwidth, m.padding),
            pending: Seq::empty(),
            ..m
        }),
{
    let t = m.pending + a;
    let k = settled_len(t) as int;
    lemma_settled_prefix(t);
    lemma_aligned_apart(t.take(k), t.skip(k), m.minwidth, m.padding);
    assert(t.take(k) + t.skip(k) =~= t);
    assert(m.write(a).flush().written =~= m.written + aligned(t, m.minwidth, m.padding));
}

/// Text without a tab passes through: written and flushed, it reaches the sink
/// as it came in, byte for byte.
pub proof fn lemma_plain_text_passes(m: Model, a: Seq<u8>)
    requires
        !(m.pending + a).contains(TAB),
    ensures
        m.write(a).flush().written == m.written + (m.pending + a),
{
    lemma_flush_sends_all(m, a);
    lemma_plain_text_unchanged(m.pending + a, m.minwidth, m.padding);
}

/// Text without a tab character, written to a writer that holds nothing back and
/// flushed, reaches the sink as its UTF-8 bytes.
pub proof fn lemma_plain_str_passes(m: Model, s: Seq<char>)
    requires
        m.pending.len() == 0,
        !s.contains('\t'),
    ensures
        m.write(encode_utf8(s)).flush().written == m.written + encode_utf8(s),
{
    lemma_utf8_keeps_out(s, '\t');
    assert(m.pending + encode_utf8(s) =~= encode_utf8(s));
    lemma_plain_text_passes(m, encode_utf8(s));
}

/// The input that a writer holds back, and whether its last line has a tab.
struct Held {
    text: Vec<u8>,
    tabbed: bool,
}

/// A writer that aligns the tab-separated columns of the text written to it.
/// The sink is a byte buffer that the writer owns until `unwrap` hands it back.
pub struct TabWriter {
    sink: Vec<u8>,
    held: Held,
    minwidth: usize,
    padding: usize,
}

impl View for TabWriter {
    type V = Model;

    closed spec fn view(&self) -> Model {
        Model {
            written: self.sink@,
            pending: self.held.text@,
            minwidth: self.minwidth as nat,
            padding: self.padding as nat,
        }
    }
}

/// Nothing held back is settled, and the flag says whether the line in progress
/// has a tab.
spec fn held_back(text: Seq<u8>, tabbed: bool) -> bool {
    settled_len(text) == 0 && tabbed == last_line(text).contains(TAB)
}

/// Text of which nothing is settled is a single block.
proof fn lemma_unsettled_is_one_block(t: Seq<u8>, minwidth: nat, padding: nat)
    requires
        settled_len(t) == 0,
    ensures
        aligned(t, minwidth, padding) == aligned_block(t, minwidth, padding),
{
    if t.len() > 0 {
        assert(t.take(0) =~= Seq::<u8>::empty());
        assert(t.skip(0) =~= t);
        assert(aligned(t.take(0), minwidth, padding) =~= Seq::<u8>::empty());
    }
}

impl TabWriter {
    #[verifier::type_invariant]
    spec fn inv(self) -> bool {
        held_back(self.held.text@, self.held.tabbed)
    }

    /// A writer on `sink`, with no least column width and a padding of 2.
    pub fn new(sink: Vec<u8>) -> (w: TabWriter)
        ensures
            w@ == (Model { written: sink@, pending: Seq::empty(), minwidth: 0, padding: 2 }),
    {
        TabWriter { sink, held: Held { text: Vec::new(), tabbed: false }, minwidth: 0, padding: 2 }
    }

    /// Sets the least content width of a column.
    pub fn minwidth(self, minwidth: usize) -> (w: TabWriter)
        ensures
            w@ == (Model { minwidth: minwidth as nat, ..self@ }),
    {
        let mut w = self;
        proof {
            use_type_invariant(&w);
        }
        w.minwidth = minwidth;
        w
    }

    /// Sets the fill that follows each field.
    pub fn padding(self, padding: usize) -> (w: TabWriter)
        ensures
            w@ == (Model { padding: padding as nat, ..self@ }),
    {
        let mut w = self;
        proof {
            use_type_invariant(&w);
        }
        w.padding = padding;
        w
    }

    /// Takes in the chunk `buf`. What it settles reaches the sink.
    pub fn write(&mut self, buf: &[u8])
        ensures
            final(self)@ == old(self)@.write(buf@),
    {
        proof {
            use_type_invariant(&*self);
        }
        let minwidth = self.minwidth;
        let padding = self.padding;
        let mut sink: Vec<u8> = Vec::new();
        let mut held = Held { text: Vec::new(), tabbed: false };
        std::mem::swap(&mut sink, &mut self.sink);
        std::mem::swap(&mut held, &mut self.held);
        let ghost written = sink@;
        let ghost pending = held.text@;
        let mut i: usize = 0;
        proof {
            assert(pending + buf@.take(0) =~= pending);
            assert(pending.take(0) =~= Seq::<u8>::empty());
            assert(pending.skip(0) =~= pending);
            assert(sink@ =~= written + aligned(pending.take(0), minwidth as nat, padding as nat));
        }
        while i < buf.len()
            invariant
                i <= buf.len(),
                held_back(held.text@, held.tabbed),
                last_line(pending + buf@.take(i as int)) == last_line(held.text@),
                sink@ == written + aligned(
                    (pending + buf@.take(i as int)).take(
                        settled_len(pending + buf@.take(i as int)) as int,
                    ),
                    minwidth as nat,
                    padding as nat,
                ),
                held.text@ == (pending + buf@.take(i as int)).skip(
                    settled_len(pending + buf@.take(i as int)) as int,
                ),
            decreases buf.len() - i,
        {
            let ghost t = pending + buf@.take(i as int);
            let ghost k = settled_len(t) as int;
            let ghost line = held.text@;
            let b: u8 = buf[i];
            let ghost next = pending + buf@.take(i + 1);
            proof {
                lemma_settled_len_bound(t);
                assert(next =~= t.push(b));
                assert(next.drop_last() =~= t);
                assert(line.push(b).drop_last() =~= line);
                assert(next.take(k) =~= t.take(k));
                assert(next.skip(k) =~= line.push(b));
                lemma_last_line_grows(t, b);
                lemma_last_line_grows(line, b);
            }
            held.text.push(b);
            if b == NEWLINE {
                if !held.tabbed {
                    proof {
                        assert(ends_plain(next));
                        assert(next.take(next.len() as int) =~= next);
                        assert(next.skip(next.len() as int) =~= Seq::<u8>::empty());
                    }
                    write_block(held.text.as_slice(), minwidth, padding, &mut sink);
                    held.text.clear();
                }
                held.tabbed = false;
            } else if b == TAB {
                held.tabbed = true;
            }
            i = i + 1;
        }
        proof {
            assert(buf@.take(i as int) =~= buf@);
        }
        self.sink = sink;
        self.held = held;
    }

    /// Takes in the text `s`, as its UTF-8 bytes.
    pub fn write_str(&mut self, s: &str)
        ensures
            final(self)@ == old(self)@.write(encode_utf8(s@)),
    {
        self.write(s.as_bytes());
    }

    /// Sends all that is held back to the sink, aligned: the open block, and with
    /// it the line in progress.
    pub fn flush(&mut self)
        ensures
            final(self)@ == old(self)@.flush(),
    {
        proof {
            use_type_invariant(&*self);
            lemma_unsettled_is_one_block(
                self.held.text@,
                self.minwidth as nat,
                self.padding as nat,
            );
        }
        let mut sink: Vec<u8> = Vec::new();
        let mut held = Held { text: Vec::new(), tabbed: false };
        std::mem::swap(&mut sink, &mut self.sink);
        std::mem::swap(&mut held, &mut self.held);
        write_block(held.text.as_slice(), self.minwidth, self.padding, &mut sink);
        self.sink = sink;
    }

    /// Takes out of the sink what has reached it so far, and leaves the sink
    /// empty. What is held back stays held back.
    pub fn take_written(&mut self) -> (bytes: Vec<u8>)
        ensures
            bytes@ == old(self)@.written,
            final(self)@ == (Model { written: Seq::empty(), ..old(self)@ }),
    {
        proof {
            use_type_invariant(&*self);
        }
        let mut bytes: Vec<u8> = Vec::new();
        std::mem::swap(&mut bytes, &mut self.sink);
        bytes
    }

    /// Gives the sink back. What is still held back is lost: flush first.
    pub fn unwrap(self) -> (sink: Vec<u8>)
        ensures
            sink@ == self@.written,
    {
        self.sink
    }
}

/// The last line of a text with one more byte: empty after a newline, else one
/// byte longer.
proof fn lemma_last_line_grows(t: Seq<u8>, b: u8)
    ensures
        last_line(t.push(b)) == if b == NEWLINE {
            Seq::empty()
        } else {
            last_line(t).push(b)
        },
        b != NEWLINE ==> (last_line(t.push(b)).contains(TAB) <==> (b == TAB || last_line(
            t,
        ).contains(TAB))),
{
    lemma_pieces_nonempty(t, NEWLINE);
    assert(t.push(b).drop_last() =~= t);
    if b != NEWLINE {
        let l = last_line(t);
        let g = l.push(b);
        assert(last_line(t.push(b)) == g);
        if b == TAB {
            assert(g[l.len() as int] == TAB);
        } else if l.contains(TAB) {
            let i = choose|i: int| 0 <= i < l.len() && l[i] == TAB;
            assert(g[i] == TAB);
        } else if g.contains(TAB) {
            let i = choose|i: int| 0 <= i < g.len() && g[i] == TAB;
            assert(l[i] == TAB);
        }
    }
}

} // verus!
