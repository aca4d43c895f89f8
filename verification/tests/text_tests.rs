use flowfield::text::{parse, render, NEWLINE, TAB};
use flowfield::Field;

fn words(rows: usize, columns: &[&[&str]]) -> Field<Vec<u8>> {
    let data: Vec<Vec<Vec<u8>>> = columns
        .iter()
        .map(|c| c.iter().map(|w| w.as_bytes().to_vec()).collect())
        .collect();
    Field::from_columns(rows, data).expect("columns of one length")
}

#[test]
fn separators_are_tab_and_newline() {
    assert_eq!(TAB, b'\t');
    assert_eq!(NEWLINE, b'\n');
}

#[test]
fn render_writes_one_line_per_column() {
    let f = words(2, &[&["a", "b"], &["c", "d"], &["e", "f"]]);
    assert_eq!(render(&f), b"a\tb\t\nc\td\t\ne\tf\t\n".to_vec());
}

#[test]
fn render_ends_every_cell_with_a_tab() {
    let f = words(1, &[&["1.5+0i"]]);
    assert_eq!(render(&f), b"1.5+0i\t\n".to_vec());
}

#[test]
fn render_has_as_many_lines_as_columns() {
    let f = Field::uniform(3, 5, b'x').map(|c: &u8| vec![*c]);
    let text = render(&f);
    let lines: Vec<&[u8]> = text.split(|b| *b == b'\n').collect();
    assert_eq!(lines.len(), 6);
    assert!(lines[5].is_empty());
    for line in &lines[..5] {
        assert_eq!(*line, b"x\tx\tx\t");
    }
}

#[test]
fn render_of_a_field_without_columns_is_empty() {
    let none: Vec<Vec<Vec<u8>>> = Vec::new();
    let f = Field::from_columns(4, none).expect("no column to refuse");
    assert!(render(&f).is_empty());
}

#[test]
fn render_of_a_field_without_rows_is_bare_newlines() {
    let f = words(0, &[&[], &[]]);
    assert_eq!(render(&f), b"\n\n".to_vec());
}

#[test]
fn render_keeps_empty_cells() {
    let f = words(2, &[&["", "a"], &["", ""]]);
    assert_eq!(render(&f), b"\ta\t\n\t\t\n".to_vec());
}

#[test]
fn render_twice_gives_the_same_bytes() {
    let f = words(2, &[&["1+2i", "3-4i"], &["5+6i", "7-8i"]]);
    assert_eq!(render(&f), render(&f));
}

#[test]
fn parse_reads_lines_as_columns() {
    let f = parse(b"a\tb\t\nc\td\t\ne\tf\t\n").expect("well-formed text");
    assert_eq!(f.nrows(), 2);
    assert_eq!(f.ncols(), 3);
    assert_eq!(f.cell(0, 0).as_slice(), b"a");
    assert_eq!(f.cell(1, 0).as_slice(), b"b");
    assert_eq!(f.cell(0, 2).as_slice(), b"e");
    assert_eq!(f.cell(1, 2).as_slice(), b"f");
}

#[test]
fn parse_inverts_render() {
    let f = words(3, &[&["1+2i", "", "-3.5-4e-7i"], &["NaN+NaNi", "inf-infi", "0+0i"]]);
    let back = parse(&render(&f)).expect("text of plain cells");
    assert_eq!(back, f);
}

#[test]
fn render_inverts_parse() {
    let text = b"1+2i\t3+4i\t\n\t\t\n".to_vec();
    let f = parse(&text).expect("well-formed text");
    assert_eq!(render(&f), text);
}

#[test]
fn parse_of_empty_text_is_the_empty_field() {
    let f = parse(b"").expect("no line to refuse");
    assert_eq!((f.nrows(), f.ncols()), (0, 0));
}

#[test]
fn parse_of_bare_newlines_has_no_rows() {
    let f = parse(b"\n\n\n").expect("three lines without cells");
    assert_eq!((f.nrows(), f.ncols()), (0, 3));
}

#[test]
fn parse_refuses_a_missing_final_newline() {
    assert!(parse(b"a\tb\t").is_none());
    assert!(parse(b"a\tb\t\nc\td\t").is_none());
    assert!(parse(b"a").is_none());
}

#[test]
fn parse_refuses_a_cell_without_its_tab() {
    assert!(parse(b"a\tb\n").is_none());
    assert!(parse(b"a\n").is_none());
    assert!(parse(b"a\tb\t\nc\n").is_none());
}

#[test]
fn parse_refuses_lines_of_different_lengths() {
    assert!(parse(b"a\tb\t\nc\t\n").is_none());
    assert!(parse(b"a\t\n\n").is_none());
    assert!(parse(b"\na\t\n").is_none());
}

#[test]
fn a_field_without_columns_loses_its_rows_in_text() {
    let none: Vec<Vec<Vec<u8>>> = Vec::new();
    let f = Field::from_columns(4, none).expect("no column to refuse");
    let back = parse(&render(&f)).expect("empty text");
    assert_eq!((back.nrows(), back.ncols()), (0, 0));
}

#[test]
fn a_cell_that_holds_a_tab_is_read_as_two() {
    let f = words(1, &[&["a\tb"]]);
    let back = parse(&render(&f)).expect("well-formed text");
    assert_eq!((back.nrows(), back.ncols()), (2, 1));
    assert_eq!(back.cell(0, 0).as_slice(), b"a");
    assert_eq!(back.cell(1, 0).as_slice(), b"b");
}

#[test]
fn a_cell_that_holds_a_newline_is_not_read_back() {
    let f = words(1, &[&["a\nb"]]);
    assert!(parse(&render(&f)).is_none());
}
