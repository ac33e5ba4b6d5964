use tabwriter::block::write_block;
use tabwriter::measure::cell_width;
use tabwriter::pad::{write_bytes, write_row, write_spaces};
use tabwriter::report::{ordie, readable_str};
use tabwriter::rows::parse_rows;
use tabwriter::split::{split, NEWLINE, TAB};
use tabwriter::widths::column_widths;

fn cells(row: &[&str]) -> Vec<Vec<u8>> {
    row.iter().map(|c| c.as_bytes().to_vec()).collect()
}

fn block(rows: &[&[&str]]) -> Vec<Vec<Vec<u8>>> {
    rows.iter().map(|r| cells(r)).collect()
}

#[test]
fn width_counts_code_points() {
    assert_eq!(cell_width(b""), 0);
    assert_eq!(cell_width(b"abc"), 3);
    assert_eq!(cell_width("h\u{e9}llo".as_bytes()), 5);
    assert_eq!(cell_width("\u{4e2d}\u{6587}".as_bytes()), 2);
    assert_eq!(cell_width("\u{1f600}".as_bytes()), 1);
    assert_eq!("\u{1f600}".len(), 4);
}

#[test]
fn width_of_stray_continuation_bytes_is_zero() {
    assert_eq!(cell_width(&[0x80, 0xBF]), 0);
    assert_eq!(cell_width(&[0x7F, 0xC0, 0xFF]), 3);
}

#[test]
fn split_always_gives_a_piece() {
    assert_eq!(split(b"", TAB), cells(&[""]));
    assert_eq!(split(b"abc", TAB), cells(&["abc"]));
}

#[test]
fn split_keeps_empty_pieces() {
    assert_eq!(split(b"\t", TAB), cells(&["", ""]));
    assert_eq!(split(b"a\t\tb\t", TAB), cells(&["a", "", "b", ""]));
    assert_eq!(split(b"a\nb", NEWLINE), cells(&["a", "b"]));
    assert_eq!(split(b"a\tb", NEWLINE), cells(&["a\tb"]));
}

#[test]
fn rows_of_terminated_lines() {
    let (rows, ended) = parse_rows(b"a\tb\nc\n");
    assert_eq!(rows, block(&[&["a", "b"], &["c"]]));
    assert_eq!(ended, 2);
}

#[test]
fn rows_with_an_open_line() {
    let (rows, ended) = parse_rows(b"a\tb\nxx\tyy");
    assert_eq!(rows, block(&[&["a", "b"], &["xx", "yy"]]));
    assert_eq!(ended, 1);
}

#[test]
fn rows_of_nothing() {
    let (rows, ended) = parse_rows(b"");
    assert_eq!(rows, block(&[]));
    assert_eq!(ended, 0);
}

#[test]
fn open_line_ending_in_a_tab_opens_no_cell() {
    let (rows, ended) = parse_rows(b"\t\t\t");
    assert_eq!(rows, block(&[&["", "", ""]]));
    assert_eq!(ended, 0);
    let (rows, _) = parse_rows(b"x\t");
    assert_eq!(rows, block(&[&["x"]]));
}

#[test]
fn terminated_line_ending_in_a_tab_has_an_empty_last_cell() {
    let (rows, ended) = parse_rows(b"x\t\n");
    assert_eq!(rows, block(&[&["x", ""]]));
    assert_eq!(ended, 1);
}

#[test]
fn widths_are_the_widest_cell_or_the_floor() {
    let rows = block(&[&["a", "bbbb", "c"], &["xxx", "y", "zzzzzzzz"]]);
    assert_eq!(column_widths(&rows, 0), vec![3, 4]);
    assert_eq!(column_widths(&rows, 4), vec![4, 4]);
    assert_eq!(column_widths(&rows, 9), vec![9, 9]);
}

#[test]
fn last_cells_widen_nothing() {
    let rows = block(&[&["a", "a very long last cell"], &["bb", "c", "d"]]);
    assert_eq!(column_widths(&rows, 0), vec![2, 1]);
}

#[test]
fn widths_of_ragged_rows() {
    let rows = block(&[&["a", "b", "c", "d"], &["x", "y"], &["plain"]]);
    assert_eq!(column_widths(&rows, 0), vec![1, 1, 1]);
    assert_eq!(column_widths(&block(&[]), 3), Vec::<usize>::new());
    assert_eq!(column_widths(&block(&[&["only"]]), 3), Vec::<usize>::new());
}

#[test]
fn widths_count_characters_not_bytes() {
    let rows = block(&[&["\u{e9}\u{e9}", "x"], &["abc", "y"]]);
    assert_eq!(column_widths(&rows, 0), vec![3]);
}

#[test]
fn row_is_padded_but_for_its_last_cell() {
    let mut out = b">".to_vec();
    write_row(&cells(&["a", "bb", "ccc"]), &vec![3, 2], 1, &mut out);
    assert_eq!(out, b">a   bb ccc".to_vec());
}

#[test]
fn row_wider_than_its_column_gets_the_padding_only() {
    let mut out = Vec::new();
    write_row(&cells(&["abcdef", "x"]), &vec![2], 1, &mut out);
    assert_eq!(out, b"abcdef x".to_vec());
    let mut out = Vec::new();
    write_row(&cells(&["a", "b", "c"]), &vec![2], 0, &mut out);
    assert_eq!(out, b"a bc".to_vec());
}

#[test]
fn row_without_cells_writes_nothing() {
    let mut out = b"x".to_vec();
    write_row(&cells(&[]), &vec![4], 2, &mut out);
    assert_eq!(out, b"x".to_vec());
}

#[test]
fn bytes_and_spaces_are_appended() {
    let mut out = b"ab".to_vec();
    write_bytes(&mut out, b"cd");
    write_spaces(&mut out, 3);
    write_spaces(&mut out, 0);
    write_bytes(&mut out, b"");
    assert_eq!(out, b"abcd   ".to_vec());
}

#[test]
fn block_shares_its_widths() {
    let mut out = Vec::new();
    write_block(b"a\tb\nxxx\ty\nplain\n", 0, 1, &mut out);
    assert_eq!(out, b"a   b\nxxx y\nplain\n".to_vec());
}

#[test]
fn block_field_width_is_floor_plus_padding() {
    let mut out = Vec::new();
    write_block(b"ab\tc\n", 5, 3, &mut out);
    assert_eq!(out, b"ab      c\n".to_vec());
    let mut out = Vec::new();
    write_block(b"abcdefg\tc\n", 5, 3, &mut out);
    assert_eq!(out, b"abcdefg   c\n".to_vec());
}

#[test]
fn ordie_gives_the_value() {
    let r: Result<u32, String> = Ok(7);
    assert_eq!(ordie(r), 7);
}

#[test]
fn readable_spells_out_whitespace() {
    assert_eq!(readable_str("a\tb c\nd"), "a\\tb\u{b7}c\\nd");
    assert_eq!(readable_str(""), "");
    assert_eq!(readable_str("h\u{e9}\u{4e2d}"), "h\u{e9}\u{4e2d}");
    assert_eq!(readable_str("\\n"), "\\n");
}

#[test]
fn cells_of_a_column_start_at_the_same_place() {
    let mut out = Vec::new();
    write_block("a\tbb\tc\n\u{e9}\u{e9}\u{e9}\td\te\nxx\tyyyy\tz".as_bytes(), 2, 1, &mut out);
    let text = ordie(String::from_utf8(out));
    let lines: Vec<&str> = text.split('\n').collect();
    assert_eq!(lines, vec!["a   bb   c", "\u{e9}\u{e9}\u{e9} d    e", "xx  yyyy z"]);
    for line in lines {
        let chars: Vec<char> = line.chars().collect();
        assert_eq!(chars[3], ' ');
        assert_ne!(chars[4], ' ');
        assert_eq!(chars[8], ' ');
        assert_ne!(chars[9], ' ');
    }
}
