//! The text layout of a field.
//!
//! A field is written column by column: every column of the field becomes
//! one line of text, every cell of the column is followed by a tab, and every
//! line is closed by a newline. A field of `ny` rows and `nx` columns thus
//! becomes `nx` lines of `ny` tab-terminated cells each.

use vstd::prelude::*;
use crate::field::Field;
use crate::field::FieldView;

verus! {

/// The byte that follows every cell.
pub const TAB: u8 = 9;

/// The byte that closes every line.
pub const NEWLINE: u8 = 10;

/// A cell text is plain when it holds neither a tab nor a newline.
pub open spec fn plain(cell: Seq<u8>) -> bool {
    forall|k: int| 0 <= k < cell.len() ==> cell[k] != TAB && cell[k] != NEWLINE
}

/// Every cell of every line is plain.
pub open spec fn all_plain(lines: Seq<Seq<Seq<u8>>>) -> bool {
    forall|i: int, j: int| 0 <= i < lines.len() && 0 <= j < lines[i].len() ==> plain(#[trigger] lines[i][j])
}

/// All lines hold the same number of cells.
pub open spec fn rectangular(lines: Seq<Seq<Seq<u8>>>) -> bool {
    forall|i: int, k: int|
        0 <= i < lines.len() && 0 <= k < lines.len() ==> (#[trigger] lines[i]).len() == (
        #[trigger] lines[k]).len()
}

/// The number of cells of the first line, or zero where there is no line.
pub open spec fn first_len(lines: Seq<Seq<Seq<u8>>>) -> nat {
    if lines.len() == 0 {
        0
    } else {
        lines[0].len()
    }
}

/// The cells of one line, each followed by a tab.
pub open spec fn cells_text(cells: Seq<Seq<u8>>) -> Seq<u8>
    decreases cells.len(),
{
    if cells.len() == 0 {
        Seq::empty()
    } else {
        cells_text(cells.drop_last()) + cells.last() + seq![TAB]
    }
}

/// One line: its cells, each followed by a tab, then a newline.
pub open spec fn line_text(cells: Seq<Seq<u8>>) -> Seq<u8> {
    cells_text(cells) + seq![NEWLINE]
}

/// The text of a sequence of lines: the lines one after the other.
pub open spec fn text_of(lines: Seq<Seq<Seq<u8>>>) -> Seq<u8>
    decreases lines.len(),
{
    if lines.len() == 0 {
        Seq::empty()
    } else {
        text_of(lines.drop_last()) + line_text(lines.last())
    }
}

/// A text is well-formed when it is empty or ends with a newline, and every
/// newline in it stands at the start or directly after a tab or a newline.
pub open spec fn well_formed(text: Seq<u8>) -> bool {
    &&& text.len() > 0 ==> text.last() == NEWLINE
    &&& forall|k: int|
        0 < k < text.len() && #[trigger] text[k] == NEWLINE ==> text[k - 1] == TAB || text[k - 1]
            == NEWLINE
}

/// The lines that a text was made of: the lines of plain cells whose text it
/// is, if there are any.
pub open spec fn lines_of(text: Seq<u8>) -> Option<Seq<Seq<Seq<u8>>>> {
    if exists|lines: Seq<Seq<Seq<u8>>>| all_plain(lines) && #[trigger] text_of(lines) == text {
        Some(choose|lines: Seq<Seq<Seq<u8>>>| all_plain(lines) && #[trigger] text_of(lines) == text)
    } else {
        None
    }
}

/// The bytes of the cells of one column.
pub open spec fn column_texts(column: Seq<Vec<u8>>) -> Seq<Seq<u8>> {
    column.map_values(|cell: Vec<u8>| cell@)
}

/// The bytes of the cells of a field of texts, column by column.
pub open spec fn cell_texts(field: FieldView<Vec<u8>>) -> Seq<Seq<Seq<u8>>> {
    field.columns.map_values(|column: Seq<Vec<u8>>| column_texts(column))
}

/// The text of a field of texts: one line per column.
pub open spec fn field_text(field: FieldView<Vec<u8>>) -> Seq<u8> {
    text_of(cell_texts(field))
}

proof fn lemma_cells_text_push(cells: Seq<Seq<u8>>, cell: Seq<u8>)
    ensures
        cells_text(cells.push(cell)) == cells_text(cells) + cell + seq![TAB],
{
    assert(cells.push(cell).drop_last() =~= cells);
}

proof fn lemma_text_of_push(lines: Seq<Seq<Seq<u8>>>, line: Seq<Seq<u8>>)
    ensures
        text_of(lines.push(line)) == text_of(lines) + line_text(line),
{
    assert(lines.push(line).drop_last() =~= lines);
}

/// Lays a field of texts out as text: column by column, each cell followed
/// by a tab and each column closed by a newline.
pub fn render(field: &Field<Vec<u8>>) -> (out: Vec<u8>)
    ensures
        out@ == field_text(field@),
{
    let nx: usize = field.ncols();
    let ny: usize = field.nrows();
    let ghost texts = cell_texts(field@);
    proof {
        field.lemma_view_wf();
    }
    let mut out: Vec<u8> = Vec::new();
    let mut i: usize = 0;
    while i < nx
        invariant
            i <= nx,
            nx == field@.cols(),
            ny == field@.rows,
            field@.wf(),
            texts == cell_texts(field@),
            out@ == text_of(texts.take(i as int)),
        decreases nx - i,
    {
        let ghost done = out@;
        let mut j: usize = 0;
        while j < ny
            invariant
                i < nx,
                j <= ny,
                nx == field@.cols(),
                ny == field@.rows,
                field@.wf(),
                texts == cell_texts(field@),
                out@ == done + cells_text(texts[i as int].take(j as int)),
            decreases ny - j,
        {
            let cell = field.cell(j, i);
            let ghost before = out@;
            let mut k: usize = 0;
            while k < cell.len()
                invariant
                    k <= cell@.len(),
                    out@ == before + cell@.take(k as int),
                decreases cell@.len() - k,
            {
                out.push(cell[k]);
                proof {
                    assert(cell@.take(k + 1) =~= cell@.take(k as int).push(cell@[k as int]));
                }
                k += 1;
            }
            out.push(TAB);
            proof {
                assert(cell@.take(cell@.len() as int) =~= cell@);
                assert(texts[i as int][j as int] == cell@);
                assert(texts[i as int].take(j + 1) =~= texts[i as int].take(j as int).push(cell@));
                lemma_cells_text_push(texts[i as int].take(j as int), cell@);
                assert(out@ =~= done + cells_text(texts[i as int].take(j + 1)));
            }
            j += 1;
        }
        out.push(NEWLINE);
        proof {
            assert(texts[i as int].take(ny as int) =~= texts[i as int]);
            assert(texts.take(i + 1) =~= texts.take(i as int).push(texts[i as int]));
            lemma_text_of_push(texts.take(i as int), texts[i as int]);
            assert(out@ =~= text_of(texts.take(i + 1)));
        }
        i += 1;
    }
    proof {
        assert(texts.take(nx as int) =~= texts);
    }
    out
}

/// What a reader that goes through a text byte by byte holds in its hands:
/// the closed lines, the cells of the open line, the bytes of the open cell,
/// and whether the text has been well-formed so far.
struct Scan {
    lines: Seq<Seq<Seq<u8>>>,
    line: Seq<Seq<u8>>,
    cell: Seq<u8>,
    ok: bool,
}

spec fn start() -> Scan {
    Scan { lines: Seq::empty(), line: Seq::empty(), cell: Seq::empty(), ok: true }
}

/// A tab closes the open cell. A newline closes the open line, and is in
/// place only directly after a tab or a newline, or at the start.
spec fn step(s: Scan, b: u8) -> Scan {
    if !s.ok {
        s
    } else if b == TAB {
        Scan { line: s.line.push(s.cell), cell: Seq::empty(), ..s }
    } else if b == NEWLINE {
        if s.cell.len() == 0 {
            Scan { lines: s.lines.push(s.line), line: Seq::empty(), ..s }
        } else {
            Scan { ok: false, ..s }
        }
    } else {
        Scan { cell: s.cell.push(b), ..s }
    }
}

spec fn scan(s: Scan, text: Seq<u8>) -> Scan
    decreases text.len(),
{
    if text.len() == 0 {
        s
    } else {
        scan(step(s, text[0]), text.drop_first())
    }
}

/// Nothing is open: the text read so far is a whole number of lines.
spec fn closed(s: Scan) -> bool {
    s.ok && s.line.len() == 0 && s.cell.len() == 0
}

/// Every cell in the reader's hands is plain.
spec fn tidy(s: Scan) -> bool {
    &&& all_plain(s.lines)
    &&& forall|j: int| 0 <= j < s.line.len() ==> plain(#[trigger] s.line[j])
    &&& plain(s.cell)
}

/// The bytes that the reader has gone through.
spec fn consumed(s: Scan) -> Seq<u8> {
    text_of(s.lines) + cells_text(s.line) + s.cell
}

proof fn lemma_scan_concat(s: Scan, a: Seq<u8>, b: Seq<u8>)
    ensures
        scan(s, a + b) == scan(scan(s, a), b),
    decreases a.len(),
{
    if a.len() == 0 {
        assert(a + b =~= b);
    } else {
        assert((a + b).drop_first() =~= a.drop_first() + b);
        lemma_scan_concat(step(s, a[0]), a.drop_first(), b);
    }
}

proof fn lemma_scan_byte(s: Scan, b: u8)
    ensures
        scan(s, seq![b]) == step(s, b),
{
    reveal_with_fuel(scan, 2);
    assert(seq![b].drop_first().len() == 0);
}

proof fn lemma_scan_failed(s: Scan, text: Seq<u8>)
    requires
        !s.ok,
    ensures
        scan(s, text) == s,
    decreases text.len(),
{
    if text.len() > 0 {
        lemma_scan_failed(s, text.drop_first());
    }
}

proof fn lemma_scan_cell(s: Scan, cell: Seq<u8>)
    requires
        s.ok,
        plain(cell),
    ensures
        scan(s, cell) == (Scan { cell: s.cell + cell, ..s }),
    decreases cell.len(),
{
    if cell.len() == 0 {
        assert(s.cell + cell =~= s.cell);
    } else {
        let next = step(s, cell[0]);
        lemma_scan_cell(next, cell.drop_first());
        assert(next.cell + cell.drop_first() =~= s.cell + cell);
    }
}

proof fn lemma_scan_cells(s: Scan, cells: Seq<Seq<u8>>)
    requires
        s.ok,
        s.cell.len() == 0,
        forall|j: int| 0 <= j < cells.len() ==> plain(#[trigger] cells[j]),
    ensures
        scan(s, cells_text(cells)) == (Scan { line: s.line + cells, ..s }),
    decreases cells.len(),
{
    if cells.len() == 0 {
        assert(s.line + cells =~= s.line);
    } else {
        let front = cells.drop_last();
        let last = cells.last();
        let mid = Scan { line: s.line + front, ..s };
        let full = Scan { cell: last, ..mid };
        assert(scan(s, cells_text(front)) == mid) by {
            lemma_scan_cells(s, front);
        }
        assert(scan(mid, last) == full) by {
            lemma_scan_cell(mid, last);
            assert(mid.cell + last =~= last);
        }
        assert(scan(full, seq![TAB]) == (Scan { line: s.line + cells, ..s })) by {
            lemma_scan_byte(full, TAB);
            assert(mid.line.push(last) =~= s.line + cells);
            assert(s.cell =~= Seq::<u8>::empty());
        }
        lemma_scan_concat(s, cells_text(front), last);
        lemma_scan_concat(s, cells_text(front) + last, seq![TAB]);
    }
}

proof fn lemma_scan_lines(s: Scan, lines: Seq<Seq<Seq<u8>>>)
    requires
        closed(s),
        all_plain(lines),
    ensures
        scan(s, text_of(lines)) == (Scan { lines: s.lines + lines, ..s }),
    decreases lines.len(),
{
    if lines.len() == 0 {
        assert(s.lines + lines =~= s.lines);
    } else {
        let front = lines.drop_last();
        let last = lines.last();
        let mid = Scan { lines: s.lines + front, ..s };
        let full = Scan { line: last, ..mid };
        assert(scan(s, text_of(front)) == mid) by {
            assert forall|i: int, j: int| 0 <= i < front.len() && 0 <= j < front[i].len() implies plain(
                #[trigger] front[i][j],
            ) by {
                assert(front[i][j] == lines[i][j]);
            }
            lemma_scan_lines(s, front);
        }
        assert(scan(mid, cells_text(last)) == full) by {
            assert forall|j: int| 0 <= j < last.len() implies plain(#[trigger] last[j]) by {
                assert(last[j] == lines[lines.len() - 1][j]);
            }
            lemma_scan_cells(mid, last);
            assert(mid.line + last =~= last);
        }
        assert(scan(full, seq![NEWLINE]) == (Scan { lines: s.lines + lines, ..s })) by {
            lemma_scan_byte(full, NEWLINE);
            assert(mid.lines.push(last) =~= s.lines + lines);
            assert(s.line =~= Seq::<Seq<u8>>::empty());
            assert(s.cell =~= Seq::<u8>::empty());
        }
        lemma_scan_concat(mid, cells_text(last), seq![NEWLINE]);
        lemma_scan_concat(s, text_of(front), line_text(last));
    }
}

proof fn lemma_step_consumes(s: Scan, b: u8)
    requires
        s.ok,
        tidy(s),
        step(s, b).ok,
    ensures
        tidy(step(s, b)),
        consumed(step(s, b)) == consumed(s) + seq![b],
{
    let t = step(s, b);
    if b == TAB {
        lemma_cells_text_push(s.line, s.cell);
        assert(consumed(t) =~= consumed(s) + seq![b]);
    } else if b == NEWLINE {
        lemma_text_of_push(s.lines, s.line);
        assert(cells_text(t.line) =~= Seq::<u8>::empty());
        assert(consumed(t) =~= consumed(s) + seq![b]);
        assert forall|i: int, j: int| 0 <= i < t.lines.len() && 0 <= j < t.lines[i].len() implies plain(
            #[trigger] t.lines[i][j],
        ) by {
            if i < s.lines.len() {
                assert(t.lines[i][j] == s.lines[i][j]);
            } else {
                assert(t.lines[i][j] == s.line[j]);
            }
        }
    } else {
        assert(consumed(t) =~= consumed(s) + seq![b]);
    }
}

proof fn lemma_scan_consumes(s: Scan, text: Seq<u8>)
    requires
        s.ok,
        tidy(s),
        scan(s, text).ok,
    ensures
        tidy(scan(s, text)),
        consumed(scan(s, text)) == consumed(s) + text,
    decreases text.len(),
{
    if text.len() == 0 {
        assert(consumed(s) + text =~= consumed(s));
    } else {
        let next = step(s, text[0]);
        if !next.ok {
            lemma_scan_failed(next, text.drop_first());
        }
        lemma_step_consumes(s, text[0]);
        lemma_scan_consumes(next, text.drop_first());
        assert(consumed(s) + seq![text[0]] + text.drop_first() =~= consumed(s) + text);
    }
}

/// A text is the text of lines of plain cells exactly when the reader ends
/// on it with nothing open, and the closed lines are then those lines.
proof fn lemma_lines_of_scan(text: Seq<u8>)
    ensures
        lines_of(text) == if closed(scan(start(), text)) {
            Some(scan(start(), text).lines)
        } else {
            None
        },
{
    let end = scan(start(), text);
    assert forall|lines: Seq<Seq<Seq<u8>>>| all_plain(lines) && #[trigger] text_of(lines) == text implies closed(
        end,
    ) && end.lines == lines by {
        lemma_scan_lines(start(), lines);
        assert(start().lines + lines =~= lines);
    }
    if closed(end) {
        lemma_scan_consumes(start(), text);
        assert(cells_text(end.line) =~= Seq::<u8>::empty());
        assert(consumed(start()) =~= Seq::<u8>::empty());
        assert(text_of(end.lines) =~= text);
    }
}

/// The reader is in step with the text `read` that lies behind it: no cell
/// is open exactly after a tab or a newline, and no line exactly after a
/// newline.
spec fn in_step(s: Scan, read: Seq<u8>) -> bool {
    &&& s.ok
    &&& s.cell.len() == 0 <==> (read.len() == 0 || read.last() == TAB || read.last() == NEWLINE)
    &&& (s.line.len() == 0 && s.cell.len() == 0) <==> (read.len() == 0 || read.last() == NEWLINE)
}

/// Every newline of `text` from position `from` on stands at the start or
/// directly after a tab or a newline.
spec fn newlines_in_place(text: Seq<u8>, from: int) -> bool {
    forall|k: int|
        from <= k < text.len() && 0 < k && #[trigger] text[k] == NEWLINE ==> text[k - 1] == TAB
            || text[k - 1] == NEWLINE
}

proof fn lemma_scan_in_step(s: Scan, read: Seq<u8>, text: Seq<u8>)
    requires
        in_step(s, read),
    ensures
        scan(s, text).ok <==> newlines_in_place(read + text, read.len() as int),
        scan(s, text).ok ==> in_step(scan(s, text), read + text),
    decreases text.len(),
{
    let whole = read + text;
    if text.len() == 0 {
        assert(whole =~= read);
    } else {
        let b = text[0];
        let next = step(s, b);
        let read1 = read.push(b);
        let text1 = text.drop_first();
        assert(read1 + text1 =~= whole);
        assert(whole[read.len() as int] == b);
        if read.len() > 0 {
            assert(whole[read.len() - 1] == read.last());
        }
        if next.ok {
            assert(in_step(next, read1));
            lemma_scan_in_step(next, read1, text1);
            assert(newlines_in_place(whole, read1.len() as int) ==> newlines_in_place(
                whole,
                read.len() as int,
            ));
        } else {
            lemma_scan_failed(next, text1);
        }
    }
}

/// The texts that can be read back are the well-formed ones.
pub proof fn lemma_readable_iff_well_formed(text: Seq<u8>)
    ensures
        lines_of(text).is_some() <==> well_formed(text),
{
    lemma_lines_of_scan(text);
    lemma_scan_in_step(start(), Seq::empty(), text);
    assert(Seq::<u8>::empty() + text =~= text);
}

/// Reading back the text of lines of plain cells gives those lines.
pub proof fn lemma_lines_of_text(lines: Seq<Seq<Seq<u8>>>)
    requires
        all_plain(lines),
    ensures
        lines_of(text_of(lines)) == Some(lines),
{
    lemma_lines_of_scan(text_of(lines));
    lemma_scan_lines(start(), lines);
    assert(start().lines + lines =~= lines);
}

/// A text that can be read back is the text of what is read, and every cell
/// read from it is plain.
pub proof fn lemma_text_of_lines(text: Seq<u8>)
    requires
        lines_of(text).is_some(),
    ensures
        all_plain(lines_of(text).unwrap()),
        text_of(lines_of(text).unwrap()) == text,
{
}

/// Lines of plain cells and their text determine each other: two such
/// sequences of lines have the same text exactly when they are equal.
pub proof fn lemma_text_determines_lines(a: Seq<Seq<Seq<u8>>>, b: Seq<Seq<Seq<u8>>>)
    requires
        all_plain(a),
        all_plain(b),
    ensures
        text_of(a) == text_of(b) <==> a == b,
{
    lemma_lines_of_text(a);
    lemma_lines_of_text(b);
}

/// The text of a field of plain cells can be read back: reading gives the
/// field's columns as lines, as many lines as the field has columns and in
/// every line as many cells as the field has rows.
pub proof fn lemma_field_text_reads_back(field: FieldView<Vec<u8>>)
    requires
        field.wf(),
        all_plain(cell_texts(field)),
    ensures
        lines_of(field_text(field)) == Some(cell_texts(field)),
        cell_texts(field).len() == field.cols(),
        forall|i: int| 0 <= i < field.cols() ==> (#[trigger] cell_texts(field)[i]).len() == field.rows,
        rectangular(cell_texts(field)),
        field.cols() > 0 ==> first_len(cell_texts(field)) == field.rows,
{
    lemma_lines_of_text(cell_texts(field));
}

/// The reader's hands while the text is well-formed, from the vectors that
/// hold them.
spec fn hands(lines: Seq<Vec<Vec<u8>>>, line: Seq<Vec<u8>>, cell: Seq<u8>) -> Scan {
    Scan {
        lines: lines.map_values(|l: Vec<Vec<u8>>| column_texts(l@)),
        line: column_texts(line),
        cell,
        ok: true,
    }
}

/// Reads a field of texts back from its text: every line becomes a column,
/// every tab-terminated run of bytes a cell. Succeeds exactly when the text
/// is the text of lines of plain cells that all hold the same number of
/// cells; a text without any line gives the field without rows and columns.
pub fn parse(text: &[u8]) -> (r: Option<Field<Vec<u8>>>)
    ensures
        r.is_some() <==> (lines_of(text@) matches Some(lines) && rectangular(lines)),
        r matches Some(f) ==> f@.wf() && lines_of(text@) == Some(cell_texts(f@)) && f@.rows
            == first_len(cell_texts(f@)),
{
    let mut lines: Vec<Vec<Vec<u8>>> = Vec::new();
    let mut line: Vec<Vec<u8>> = Vec::new();
    let mut cell: Vec<u8> = Vec::new();
    let mut pos: usize = 0;
    proof {
        assert(hands(lines@, line@, cell@).lines =~= start().lines);
        assert(hands(lines@, line@, cell@).line =~= start().line);
        assert(hands(lines@, line@, cell@).cell =~= start().cell);
        assert(text@.subrange(0, text@.len() as int) =~= text@);
    }
    while pos < text.len()
        invariant
            pos <= text@.len(),
            scan(start(), text@) == scan(
                hands(lines@, line@, cell@),
                text@.subrange(pos as int, text@.len() as int),
            ),
        decreases text@.len() - pos,
    {
        let b: u8 = text[pos];
        let ghost before = hands(lines@, line@, cell@);
        let ghost rest = text@.subrange(pos as int, text@.len() as int);
        proof {
            assert(rest[0] == b);
            assert(rest.drop_first() =~= text@.subrange(pos + 1, text@.len() as int));
        }
        if b == TAB {
            line.push(cell);
            cell = Vec::new();
            proof {
                assert(hands(lines@, line@, cell@).line =~= before.line.push(before.cell));
                assert(hands(lines@, line@, cell@).cell =~= Seq::<u8>::empty());
            }
        } else if b == NEWLINE {
            if cell.len() != 0 {
                proof {
                    lemma_scan_failed(step(before, b), rest.drop_first());
                    lemma_lines_of_scan(text@);
                }
                return None;
            }
            lines.push(line);
            line = Vec::new();
            proof {
                assert(hands(lines@, line@, cell@).lines =~= before.lines.push(before.line));
                assert(hands(lines@, line@, cell@).line =~= Seq::<Seq<u8>>::empty());
            }
        } else {
            cell.push(b);
        }
        proof {
            assert(hands(lines@, line@, cell@) == step(before, b));
        }
        pos += 1;
    }
    let ghost end = hands(lines@, line@, cell@);
    proof {
        assert(text@.subrange(pos as int, text@.len() as int).len() == 0);
        lemma_lines_of_scan(text@);
    }
    if line.len() != 0 || cell.len() != 0 {
        return None;
    }
    let rows: usize = if lines.len() == 0 {
        0
    } else {
        lines[0].len()
    };
    proof {
        assert(closed(end));
        assert(lines_of(text@) == Some(end.lines));
        assert(rows == first_len(end.lines));
    }
    let r = Field::from_columns(rows, lines);
    proof {
        if r.is_some() {
            let f = r.unwrap();
            assert(cell_texts(f@) =~~= end.lines);
            f.lemma_view_wf();
            assert(rectangular(end.lines));
        } else if rectangular(end.lines) {
            assert forall|i: int| 0 <= i < lines@.len() implies (#[trigger] lines@[i])@.len()
                == rows by {
                assert(end.lines[i].len() == end.lines[0].len());
            }
        }
    }
    r
}

} // verus!
