use tabwriter::report::{ordie, readable_str};
use tabwriter::writer::TabWriter;

fn tabw() -> TabWriter {
    TabWriter::new(Vec::new())
}

fn tabify(mut tw: TabWriter, s: &str) -> String {
    tw.write_str(s);
    tw.flush();
    ordie(String::from_utf8(tw.unwrap()))
}

fn iseq(tw: TabWriter, s: &str, expected: &str) {
    let written = tabify(tw, s);
    let got = written.as_str();
    if expected != got {
        let expected = readable_str(expected);
        let got = readable_str(got);
        panic!("expected = '{}' != '{}' = got", expected, got);
    }
}

#[test]
fn test_no_cells() {
    iseq(tabw(), "foo\nbar\nfubar", "foo\nbar\nfubar");
}

#[test]
fn test_no_cells_trailing() {
    iseq(tabw(), "foo\nbar\nfubar\n", "foo\nbar\nfubar\n");
}

#[test]
fn test_no_cells_prior() {
    iseq(tabw(), "\nfoo\nbar\nfubar", "\nfoo\nbar\nfubar");
}

#[test]
fn test_empty() {
    iseq(tabw(), "", "");
}

#[test]
fn test_empty_lines() {
    iseq(tabw(), "\n\n\n\n", "\n\n\n\n");
}

#[test]
fn test_empty_cell() {
    iseq(tabw().padding(0).minwidth(2), "\t\n", "  \n");
}

#[test]
fn test_empty_cell_no_min() {
    iseq(tabw().padding(0).minwidth(0), "\t\n", "\n");
}

#[test]
fn test_empty_cells() {
    iseq(tabw().padding(0).minwidth(2), "\t\t\n", "    \n");
}

#[test]
fn test_empty_cells_no_min() {
    iseq(tabw().padding(0).minwidth(0), "\t\t\n", "\n");
}

#[test]
fn test_empty_cells_ignore_trailing() {
    iseq(tabw().padding(0).minwidth(2), "\t\t\t", "    ");
}

#[test]
fn test_one_cell() {
    iseq(tabw().padding(2).minwidth(2), "a\tb\nxx\tyy", "a   b\nxx  yy");
}

#[test]
fn test_no_padding() {
    iseq(tabw().padding(0).minwidth(2), "a\tb\nxx\tyy", "a b\nxxyy");
}

#[test]
fn test_minwidth() {
    iseq(tabw().minwidth(5).padding(0),
         "a\tb\nxx\tyy", "a    b\nxx   yy");
}

#[test]
fn test_contiguous_columns() {
    iseq(tabw().padding(1).minwidth(0),
         "x\tfoo\tx\nx\tfoofoo\tx\n\nx\tfoofoofoo\tx",
         "x foo    x\nx foofoo x\n\nx foofoofoo x");
}


#[test]
fn test_contiguous_columns_complex() {
    iseq(tabw().padding(1).minwidth(3),
"
fn foobar() {
 	let mut x = 1+1;	// addition
 	x += 1;	// increment in place
 	let y = x * x * x * x;	// multiply!

 	y += 1;	// this is another group
 	y += 2 * 2;	// that is separately aligned
}
",
"
fn foobar() {
    let mut x = 1+1;       // addition
    x += 1;                // increment in place
    let y = x * x * x * x; // multiply!

    y += 1;     // this is another group
    y += 2 * 2; // that is separately aligned
}
");
}

fn written(tw: TabWriter) -> String {
    ordie(String::from_utf8(tw.unwrap()))
}

#[test]
fn defaults_are_no_floor_and_padding_two() {
    assert_eq!(tabify(tabw(), "a\tb\nccc\td\n"), "a    b\nccc  d\n");
}

#[test]
fn sink_keeps_what_it_held() {
    let tw = TabWriter::new(b"held:".to_vec());
    assert_eq!(tabify(tw, "x\n"), "held:x\n");
}

#[test]
fn plain_text_passes_unchanged() {
    let text = "one\n\n  two  \r\nthr\u{e9}e \n\nlast";
    assert_eq!(tabify(tabw().minwidth(7).padding(3), text), text);
}

#[test]
fn plain_line_goes_out_at_once() {
    let mut tw = tabw();
    tw.write_str("plain\n");
    assert_eq!(tw.take_written(), b"plain\n".to_vec());
    tw.write_str("hal");
    assert_eq!(tw.take_written(), b"".to_vec());
    tw.write_str("f\n");
    assert_eq!(tw.take_written(), b"half\n".to_vec());
}

#[test]
fn block_is_held_until_a_plain_line() {
    let mut tw = tabw().padding(1).minwidth(0);
    tw.write_str("a\tb\n");
    tw.write_str("ccc\td\n");
    assert_eq!(tw.take_written(), b"".to_vec());
    tw.write_str("\n");
    assert_eq!(tw.take_written(), b"a   b\nccc d\n\n".to_vec());
}

#[test]
fn unwrap_without_flush_loses_what_is_held() {
    let mut tw = tabw().padding(1).minwidth(0);
    tw.write_str("done\na\tb\n");
    assert_eq!(written(tw), "done\n");
}

#[test]
fn chunk_ends_make_no_difference() {
    let text = "x\tfoo\tx\nx\tfoofoo\tx\n\nplain\ny\t\u{e9}\u{e9}\tz\nlonger\tw\tv\nend\tof";
    let whole = tabify(tabw().padding(1).minwidth(2), text);
    let bytes = text.as_bytes();
    for cut in 0..=bytes.len() {
        let mut tw = tabw().padding(1).minwidth(2);
        tw.write(&bytes[..cut]);
        tw.write(&bytes[cut..]);
        tw.flush();
        assert_eq!(written(tw), whole);
    }
    let mut tw = tabw().padding(1).minwidth(2);
    for b in bytes {
        tw.write(&[*b]);
    }
    tw.flush();
    assert_eq!(written(tw), whole);
}

#[test]
fn blocks_are_aligned_apart() {
    let first = "a\tb\nlonger\tc\n\n";
    let second = "x\ty\nzz\tw\n";
    let both = tabify(tabw().padding(1).minwidth(0), &format!("{}{}", first, second));
    let alone = format!(
        "{}{}",
        tabify(tabw().padding(1).minwidth(0), first),
        tabify(tabw().padding(1).minwidth(0), second)
    );
    assert_eq!(both, alone);
    assert_eq!(both, "a      b\nlonger c\n\nx  y\nzz w\n");
}

#[test]
fn plain_line_with_text_separates_too() {
    assert_eq!(
        tabify(tabw().padding(1).minwidth(0), "aaaa\tb\nplain\nc\td\n"),
        "aaaa b\nplain\nc d\n"
    );
}

#[test]
fn flush_in_the_middle_ends_the_block() {
    let mut tw = tabw().padding(1).minwidth(0);
    tw.write_str("aaaa\tb\n");
    tw.flush();
    tw.write_str("c\td\n");
    tw.flush();
    assert_eq!(written(tw), "aaaa b\nc d\n");
}

#[test]
fn flush_of_nothing_writes_nothing() {
    let mut tw = tabw();
    tw.flush();
    tw.flush();
    assert_eq!(written(tw), "");
}

#[test]
fn widths_are_counted_in_code_points() {
    assert_eq!(
        tabify(tabw().padding(1).minwidth(0), "\u{e9}\u{e9}\u{e9}\tx\na\ty\n"),
        "\u{e9}\u{e9}\u{e9} x\na   y\n"
    );
}

#[test]
fn carriage_return_is_ordinary_content() {
    assert_eq!(tabify(tabw().padding(1).minwidth(0), "a\tb\r\nccc\td\r\n"), "a   b\r\nccc d\r\n");
}

#[test]
fn ragged_rows_share_the_columns_they_have() {
    assert_eq!(
        tabify(tabw().padding(1).minwidth(0), "a\tb\tc\td\nxx\ty\nm\tnnn\to\n"),
        "a  b   c d\nxx y\nm  nnn o\n"
    );
}

#[test]
fn last_cell_is_never_padded() {
    assert_eq!(
        tabify(tabw().padding(2).minwidth(10), "a\tlast\nb\ta much longer last cell\n"),
        "a           last\nb           a much longer last cell\n"
    );
}

#[test]
fn open_line_is_aligned_with_its_block() {
    assert_eq!(tabify(tabw().padding(1).minwidth(0), "aaa\tb\nc\td"), "aaa b\nc   d");
    assert_eq!(tabify(tabw().padding(1).minwidth(0), "aaa\tb\nc\t"), "aaa b\nc");
}
