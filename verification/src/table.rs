//! Minimal left-aligned text table.

use vstd::prelude::*;
use vstd::seq_lib::{group_to_multiset_ensures, to_multiset_build, to_multiset_len, to_multiset_remove};

use crate::text::{
    chars_of, join, join_strings, law_split_undoes_join, lemma_join_lacks, lemma_trim_end, split,
    string_views, text_of, trim_chars_end, trim_end, white_space,
};

verus! {

pub open spec fn larger(a: nat, b: nat) -> nat {
    if a >= b {
        a
    } else {
        b
    }
}

/// A cell of a row. A row that is too short has empty cells at its end.
pub open spec fn cell(row: Seq<Seq<char>>, column: int) -> Seq<char> {
    if 0 <= column < row.len() {
        row[column]
    } else {
        seq![]
    }
}

/// The number of cells in the longest row.
pub open spec fn columns(rows: Seq<Seq<Seq<char>>>) -> nat
    decreases rows.len(),
{
    if rows.len() == 0 {
        0
    } else {
        larger(columns(rows.drop_last()), rows.last().len())
    }
}

/// The number of characters in the longest cell of a column.
pub open spec fn width(rows: Seq<Seq<Seq<char>>>, column: int) -> nat
    decreases rows.len(),
{
    if rows.len() == 0 {
        0
    } else {
        larger(width(rows.drop_last(), column), cell(rows.last(), column).len())
    }
}

/// The widths of all columns.
pub open spec fn widths(rows: Seq<Seq<Seq<char>>>) -> Seq<nat> {
    Seq::new(columns(rows), |c: int| width(rows, c))
}

/// `n` times the same character.
pub open spec fn run(c: char, n: nat) -> Seq<char> {
    Seq::new(n, |i: int| c)
}

/// A text with spaces behind it, up to a width.
pub open spec fn padded(s: Seq<char>, width: nat) -> Seq<char> {
    if s.len() < width {
        s + run(' ', (width - s.len()) as nat)
    } else {
        s
    }
}

/// The cells of a row, each padded to its column's width.
pub open spec fn padded_row(row: Seq<Seq<char>>, widths: Seq<nat>) -> Seq<Seq<char>> {
    Seq::new(widths.len(), |c: int| padded(cell(row, c), widths[c]))
}

/// A row as a line, without the padding at its end.
pub open spec fn row_line(row: Seq<Seq<char>>, widths: Seq<nat>) -> Seq<char> {
    trim_end(join(padded_row(row, widths), "  "@))
}

/// The line that separates the headers from the rows.
pub open spec fn rule_line(widths: Seq<nat>) -> Seq<char> {
    join(Seq::new(widths.len(), |c: int| run('-', widths[c])), "  "@)
}

/// The lines of a table.
pub open spec fn table_lines(headers: Seq<Seq<char>>, rows: Seq<Seq<Seq<char>>>) -> Seq<Seq<char>> {
    let w = widths(seq![headers] + rows);
    seq![row_line(headers, w), rule_line(w)] + rows.map_values(
        |row: Seq<Seq<char>>| row_line(row, w),
    )
}

/// A table as text.
pub open spec fn table_text(headers: Seq<Seq<char>>, rows: Seq<Seq<Seq<char>>>) -> Seq<char> {
    join(table_lines(headers, rows), "\n"@)
}

/// The contents of a list of string slices.
pub open spec fn slice_views(v: Seq<&str>) -> Seq<Seq<char>> {
    v.map_values(|x: &str| x@)
}

/// The contents of rows of cells.
pub open spec fn row_views(rows: Seq<Vec<String>>) -> Seq<Seq<Seq<char>>> {
    rows.map_values(|row: Vec<String>| string_views(row@))
}

/// The machine integers of a sequence as numbers.
pub open spec fn counts(v: Seq<usize>) -> Seq<nat> {
    v.map_values(|n: usize| n as nat)
}

/// Character count, which is a good enough stand-in for terminal width here.
pub fn display_width(s: &str) -> (n: usize)
    ensures
        n == s@.len(),
{
    chars_of(s).len()
}

/// Makes room for one more row.
fn widen(widths: &mut Vec<usize>, cells: &[String])
    ensures
        final(widths)@.len() == larger(old(widths)@.len(), cells@.len()),
        forall|c: int|
            0 <= c < final(widths)@.len() ==> #[trigger] final(widths)@[c] == larger(
                if c < old(widths)@.len() {
                    old(widths)@[c] as nat
                } else {
                    0
                },
                cell(string_views(cells@), c).len(),
            ),
{
    for i in 0..cells.len()
        invariant
            widths@.len() == larger(old(widths)@.len(), i as nat),
            forall|c: int|
                0 <= c < widths@.len() ==> #[trigger] widths@[c] == larger(
                    if c < old(widths)@.len() {
                        old(widths)@[c] as nat
                    } else {
                        0
                    },
                    if c < i {
                        cell(string_views(cells@), c).len()
                    } else {
                        0
                    },
                ),
    {
        let n = display_width(cells[i].as_str());
        assert(cell(string_views(cells@), i as int) == cells@[i as int]@);
        if i < widths.len() {
            if widths[i] < n {
                widths.set(i, n);
            }
        } else {
            widths.push(n);
        }
    }
}

fn run_of(c: char, n: usize) -> (out: Vec<char>)
    ensures
        out@ == run(c, n as nat),
{
    let mut out: Vec<char> = Vec::new();
    for i in 0..n
        invariant
            out@ == run(c, i as nat),
    {
        out.push(c);
    }
    out
}

fn padded_text(s: &str, width: usize) -> (out: String)
    ensures
        out@ == padded(s@, width as nat),
{
    let mut chars = chars_of(s);
    if chars.len() < width {
        let mut fill = run_of(' ', width - chars.len());
        chars.append(&mut fill);
    }
    text_of(chars.as_slice())
}

fn render_row(cells: &[String], widths: &[usize]) -> (out: String)
    ensures
        out@ == row_line(string_views(cells@), counts(widths@)),
{
    let ghost wanted = padded_row(string_views(cells@), counts(widths@));
    let mut parts: Vec<String> = Vec::new();
    for i in 0..widths.len()
        invariant
            wanted == padded_row(string_views(cells@), counts(widths@)),
            string_views(parts@) == wanted.take(i as int),
    {
        let part = if i < cells.len() {
            padded_text(cells[i].as_str(), widths[i])
        } else {
            proof {
                reveal_strlit("");
                assert(""@ =~= seq![]);
            }
            padded_text("", widths[i])
        };
        let ghost before = string_views(parts@);
        assert(part@ == wanted[i as int]);
        parts.push(part);
        assert(string_views(parts@) =~= before.push(part@));
    }
    assert(wanted.take(widths@.len() as int) =~= wanted);
    let line = join_strings(parts.as_slice(), "  ");
    let chars = chars_of(line.as_str());
    text_of(trim_chars_end(chars.as_slice()))
}

fn render_rule(widths: &[usize]) -> (out: String)
    ensures
        out@ == rule_line(counts(widths@)),
{
    let ghost wanted = Seq::new(counts(widths@).len(), |c: int| run('-', counts(widths@)[c]));
    let mut parts: Vec<String> = Vec::new();
    for i in 0..widths.len()
        invariant
            wanted == Seq::new(counts(widths@).len(), |c: int| run('-', counts(widths@)[c])),
            string_views(parts@) == wanted.take(i as int),
    {
        let chars = run_of('-', widths[i]);
        let part = text_of(chars.as_slice());
        let ghost before = string_views(parts@);
        parts.push(part);
        assert(string_views(parts@) =~= before.push(part@));
    }
    assert(wanted.take(widths@.len() as int) =~= wanted);
    join_strings(parts.as_slice(), "  ")
}

/// One more row widens the columns by its own cells.
proof fn lemma_widen(rows: Seq<Seq<Seq<char>>>, row: Seq<Seq<char>>)
    ensures
        columns(rows.push(row)) == larger(columns(rows), row.len()),
        forall|c: int| #[trigger]
            width(rows.push(row), c) == larger(width(rows, c), cell(row, c).len()),
{
    assert(rows.push(row).drop_last() =~= rows);
}

/// A column beyond the longest row is empty.
proof fn lemma_no_column(rows: Seq<Seq<Seq<char>>>, c: int)
    requires
        c >= columns(rows),
    ensures
        width(rows, c) == 0,
    decreases rows.len(),
{
    if rows.len() > 0 {
        lemma_no_column(rows.drop_last(), c);
    }
}

/// Columns that were wide enough for some rows, made wide enough for one
/// more.
proof fn lemma_widths(
    rows: Seq<Seq<Seq<char>>>,
    row: Seq<Seq<char>>,
    before: Seq<usize>,
    after: Seq<usize>,
)
    requires
        counts(before) == widths(rows),
        after.len() == larger(before.len(), row.len()),
        forall|c: int|
            0 <= c < after.len() ==> #[trigger] after[c] == larger(
                if c < before.len() {
                    before[c] as nat
                } else {
                    0
                },
                cell(row, c).len(),
            ),
    ensures
        counts(after) == widths(rows.push(row)),
{
    lemma_widen(rows, row);
    assert(counts(before).len() == before.len());
    assert(widths(rows).len() == columns(rows));
    assert forall|c: int| 0 <= c < after.len() implies counts(after)[c] == width(
        rows.push(row),
        c,
    ) by {
        assert(counts(after)[c] == after[c]);
        if c < before.len() {
            assert(counts(before)[c] == before[c]);
            assert(counts(before)[c] == widths(rows)[c]);
        } else {
            lemma_no_column(rows, c);
        }
    }
    assert(counts(after) =~= widths(rows.push(row)));
}

/// Renders a table, sizing each column to its widest cell.
///
/// Ragged rows are tolerated: a row with fewer cells than there are headers
/// is padded, and extra cells beyond the header count get their own columns.
pub fn render(headers: &[&str], rows: &[Vec<String>]) -> (out: String)
    ensures
        out@ == table_text(slice_views(headers@), row_views(rows@)),
{
    let ghost head = slice_views(headers@);
    let ghost body = row_views(rows@);
    let mut header_cells: Vec<String> = Vec::new();
    for i in 0..headers.len()
        invariant
            string_views(header_cells@) == slice_views(headers@).take(i as int),
    {
        let ghost before = string_views(header_cells@);
        header_cells.push(headers[i].to_owned());
        assert(string_views(header_cells@) =~= before.push(headers@[i as int]@));
    }
    assert(slice_views(headers@).take(headers@.len() as int) =~= head);

    let mut widths: Vec<usize> = Vec::new();
    assert(counts(widths@) =~= self::widths(seq![]));
    let ghost none = Seq::<Seq<Seq<char>>>::empty();
    let ghost before = widths@;
    widen(&mut widths, header_cells.as_slice());
    proof {
        lemma_widths(none, head, before, widths@);
        assert(none.push(head) =~= seq![head] + body.take(0));
    }
    for i in 0..rows.len()
        invariant
            body == row_views(rows@),
            counts(widths@) == self::widths(seq![head] + body.take(i as int)),
    {
        let ghost so_far = seq![head] + body.take(i as int);
        let ghost before = widths@;
        widen(&mut widths, rows[i].as_slice());
        proof {
            lemma_widths(so_far, body[i as int], before, widths@);
            assert(so_far.push(body[i as int]) =~= seq![head] + body.take(i + 1));
        }
    }
    assert(body.take(rows@.len() as int) =~= body);

    let ghost w = counts(widths@);
    let ghost wanted = table_lines(head, body);
    let mut lines: Vec<String> = Vec::new();
    lines.push(render_row(header_cells.as_slice(), widths.as_slice()));
    lines.push(render_rule(widths.as_slice()));
    assert(string_views(lines@) =~= wanted.take(2));
    for i in 0..rows.len()
        invariant
            body == row_views(rows@),
            w == counts(widths@),
            w == self::widths(seq![head] + body),
            wanted == table_lines(head, body),
            string_views(lines@) == wanted.take(i + 2),
    {
        let ghost before = string_views(lines@);
        let line = render_row(rows[i].as_slice(), widths.as_slice());
        assert(body[i as int] == string_views(rows@[i as int]@));
        assert(wanted[i + 2] == line@);
        lines.push(line);
        assert(string_views(lines@) =~= before.push(line@));
        assert(before.push(line@) =~= wanted.take(i + 3));
    }
    assert(wanted.take((rows@.len() + 2) as int) =~= wanted);
    join_strings(lines.as_slice(), "\n")
}

// ---------------------------------------------------------------------
// Laws
// ---------------------------------------------------------------------

/// The position at which a column begins.
pub open spec fn column_start(widths: Seq<nat>, column: int) -> nat
    decreases column,
{
    if column <= 0 {
        0
    } else {
        column_start(widths, column - 1) + widths[column - 1] + 2
    }
}

/// Parts of known widths stand in known places once they are joined.
proof fn lemma_joined_parts(parts: Seq<Seq<char>>, widths: Seq<nat>)
    requires
        0 < parts.len() <= widths.len(),
        forall|i: int| 0 <= i < parts.len() ==> (#[trigger] parts[i]).len() == widths[i],
    ensures
        join(parts, "  "@).len() == column_start(widths, parts.len() as int) - 2,
        forall|c: int|
            0 <= c < parts.len() ==> {
                let start = #[trigger] column_start(widths, c) as int;
                &&& start + widths[c] <= join(parts, "  "@).len()
                &&& join(parts, "  "@).subrange(start, start + widths[c]) == parts[c]
            },
    decreases parts.len(),
{
    reveal_strlit("  ");
    let line = join(parts, "  "@);
    let n = parts.len() as int;
    assert(parts[n - 1].len() == widths[n - 1]);
    assert(column_start(widths, n) == column_start(widths, n - 1) + widths[n - 1] + 2);
    if n == 1 {
        assert(column_start(widths, 0) == 0);
        assert(line.subrange(0, line.len() as int) =~= parts[0]);
    } else {
        let front = parts.drop_last();
        assert forall|i: int| 0 <= i < front.len() implies (#[trigger] front[i]).len()
            == widths[i] by {
            assert(front[i] == parts[i]);
        }
        lemma_joined_parts(front, widths);
        let before = join(front, "  "@);
        assert forall|c: int| 0 <= c < n implies {
            let start = #[trigger] column_start(widths, c) as int;
            &&& start + widths[c] <= line.len()
            &&& line.subrange(start, start + widths[c]) == parts[c]
        } by {
            let start = column_start(widths, c) as int;
            if c < n - 1 {
                assert(before.subrange(start, start + widths[c]) == front[c]);
                assert(line.subrange(start, start + widths[c]) =~= before.subrange(
                    start,
                    start + widths[c],
                ));
            } else {
                assert(line.subrange(start, start + widths[c]) =~= parts[c]);
            }
        }
    }
}

/// No cell is wider than its column.
proof fn lemma_cell_fits(rows: Seq<Seq<Seq<char>>>, r: int, c: int)
    requires
        0 <= r < rows.len(),
    ensures
        cell(rows[r], c).len() <= width(rows, c),
    decreases rows.len(),
{
    if r < rows.len() - 1 {
        lemma_cell_fits(rows.drop_last(), r, c);
        assert(rows.drop_last()[r] == rows[r]);
    }
}

/// Columns line up: the cell of a column stands at the same position in every
/// line of a table, padded to the column's width, whatever the lengths of the
/// other cells. A line then loses the white space at its end, so that a cell
/// that does not itself end in white space is always there in full.
pub proof fn law_columns_line_up(
    headers: Seq<Seq<char>>,
    rows: Seq<Seq<Seq<char>>>,
    r: int,
    c: int,
)
    requires
        0 <= r <= rows.len(),
        0 <= c < columns(seq![headers] + rows),
    ensures
        ({
            let all = seq![headers] + rows;
            let w = widths(all);
            let start = column_start(w, c) as int;
            let text = cell(all[r], c);
            let full = join(padded_row(all[r], w), "  "@);
            let line = row_line(all[r], w);
            &&& start + w[c] <= full.len()
            &&& full.subrange(start, start + w[c]) == padded(text, w[c])
            &&& line == trim_end(full)
            &&& text.len() > 0 && !white_space(text.last()) ==> start + text.len() <= line.len()
                && line.subrange(start, start + text.len()) == text
        }),
{
    let all = seq![headers] + rows;
    let w = widths(all);
    let row = all[r];
    let text = cell(row, c);
    let parts = padded_row(row, w);
    assert forall|i: int| 0 <= i < parts.len() implies (#[trigger] parts[i]).len() == w[i] by {
        lemma_cell_fits(all, r, i);
    }
    lemma_joined_parts(parts, w);
    let full = join(parts, "  "@);
    let start = column_start(w, c) as int;
    lemma_cell_fits(all, r, c);
    assert(full.subrange(start, start + w[c]) == parts[c]);
    if text.len() > 0 && !white_space(text.last()) {
        assert(full.subrange(start, start + text.len()) =~= text) by {
            assert forall|i: int| 0 <= i < text.len() implies full[start + i] == text[i] by {
                assert(full.subrange(start, start + w[c])[i] == parts[c][i]);
            }
        }
        lemma_trim_end(full);
        let last = start + text.len() - 1;
        assert(full[last] == text.last()) by {
            assert(full.subrange(start, start + text.len())[text.len() - 1] == text.last());
        }
        let line = row_line(row, w);
        assert(line =~= full.take(line.len() as int));
        assert(line.subrange(start, start + text.len()) =~= full.subrange(
            start,
            start + text.len(),
        ));
    }
}

/// The line below the headers underlines every column over its whole width.
pub proof fn law_rule_underlines_columns(headers: Seq<Seq<char>>, rows: Seq<Seq<Seq<char>>>, c: int)
    requires
        0 <= c < columns(seq![headers] + rows),
    ensures
        ({
            let w = widths(seq![headers] + rows);
            let start = column_start(w, c) as int;
            &&& start + w[c] <= rule_line(w).len()
            &&& rule_line(w).subrange(start, start + w[c]) == run('-', w[c])
        }),
{
    let w = widths(seq![headers] + rows);
    let parts = Seq::new(w.len(), |i: int| run('-', w[i]));
    lemma_joined_parts(parts, w);
    assert(parts[c] == run('-', w[c]));
}

/// A table has one line for the headers, one for the rule and one for each
/// row, and no line of cells ends in white space.
pub proof fn law_table_lines(headers: Seq<Seq<char>>, rows: Seq<Seq<Seq<char>>>)
    ensures
        table_lines(headers, rows).len() == rows.len() + 2,
        forall|i: int|
            0 <= i < rows.len() + 2 && i != 1 ==> {
                let line = #[trigger] table_lines(headers, rows)[i];
                line.len() > 0 ==> !white_space(line.last())
            },
{
    let w = widths(seq![headers] + rows);
    assert forall|i: int| 0 <= i < rows.len() + 2 && i != 1 implies {
        let line = #[trigger] table_lines(headers, rows)[i];
        line.len() > 0 ==> !white_space(line.last())
    } by {
        let row = if i == 0 {
            headers
        } else {
            rows[i - 2]
        };
        assert(table_lines(headers, rows)[i] == row_line(row, w));
        lemma_trim_end(join(padded_row(row, w), "  "@));
    }
}

/// Whether no cell of a row holds a line end.
pub open spec fn single_lines(row: Seq<Seq<char>>) -> bool {
    forall|c: int| 0 <= c < row.len() ==> !(#[trigger] row[c]).contains('\n')
}

/// A row without line ends is a line without line ends.
proof fn lemma_row_is_one_line(row: Seq<Seq<char>>, widths: Seq<nat>)
    requires
        single_lines(row),
    ensures
        !row_line(row, widths).contains('\n'),
{
    let parts = padded_row(row, widths);
    assert forall|c: int| 0 <= c < parts.len() implies !(#[trigger] parts[c]).contains('\n') by {
        let text = cell(row, c);
        if parts[c].contains('\n') {
            let k = choose|k: int| 0 <= k < parts[c].len() && parts[c][k] == '\n';
            assert(k < text.len());
            assert(text[k] == '\n');
            assert(row[c].contains('\n'));
        }
    }
    reveal_strlit("  ");
    assert(!"  "@.contains('\n'));
    lemma_join_lacks(parts, "  "@, '\n');
    let full = join(parts, "  "@);
    lemma_trim_end(full);
    let line = row_line(row, widths);
    assert(line =~= full.take(line.len() as int));
    if line.contains('\n') {
        let k = choose|k: int| 0 <= k < line.len() && line[k] == '\n';
        assert(full[k] == '\n');
    }
}

/// The rule is a line without line ends.
proof fn lemma_rule_is_one_line(widths: Seq<nat>)
    ensures
        !rule_line(widths).contains('\n'),
{
    let parts = Seq::new(widths.len(), |c: int| run('-', widths[c]));
    assert forall|c: int| 0 <= c < parts.len() implies !(#[trigger] parts[c]).contains('\n') by {
        assert(parts[c] == run('-', widths[c]));
    }
    reveal_strlit("  ");
    assert(!"  "@.contains('\n'));
    lemma_join_lacks(parts, "  "@, '\n');
}

/// Cutting the text of a table at its line ends gives its lines, where no
/// header and no cell holds a line end itself.
pub proof fn law_table_text(headers: Seq<Seq<char>>, rows: Seq<Seq<Seq<char>>>)
    requires
        single_lines(headers),
        forall|r: int| 0 <= r < rows.len() ==> single_lines(#[trigger] rows[r]),
    ensures
        split(table_text(headers, rows), seq!['\n']) == table_lines(headers, rows),
{
    let w = widths(seq![headers] + rows);
    let lines = table_lines(headers, rows);
    assert forall|i: int| 0 <= i < lines.len() implies !(#[trigger] lines[i]).contains('\n') by {
        if i == 0 {
            lemma_row_is_one_line(headers, w);
        } else if i == 1 {
            lemma_rule_is_one_line(w);
        } else {
            lemma_row_is_one_line(rows[i - 2], w);
            assert(lines[i] == row_line(rows[i - 2], w));
        }
    }
    reveal_strlit("\n");
    assert("\n"@ =~= seq!['\n']);
    law_split_undoes_join(lines, '\n');
}

/// Rows that all stand in another table need no more room than it has.
proof fn lemma_fewer_rows(rows: Seq<Seq<Seq<char>>>, more: Seq<Seq<Seq<char>>>, c: int)
    requires
        forall|r: int| 0 <= r < rows.len() ==> more.contains(#[trigger] rows[r]),
    ensures
        columns(rows) <= columns(more),
        width(rows, c) <= width(more, c),
    decreases rows.len(),
{
    if rows.len() > 0 {
        let front = rows.drop_last();
        assert forall|r: int| 0 <= r < front.len() implies more.contains(#[trigger] front[r]) by {
            assert(front[r] == rows[r]);
        }
        lemma_fewer_rows(front, more, c);
        assert(more.contains(rows[rows.len() - 1]));
        let k = choose|k: int| 0 <= k < more.len() && more[k] == rows.last();
        lemma_cell_fits(more, k, c);
        lemma_columns(more, k);
    }
}

/// No row has more cells than the table has columns.
proof fn lemma_columns(rows: Seq<Seq<Seq<char>>>, r: int)
    requires
        0 <= r < rows.len(),
    ensures
        rows[r].len() <= columns(rows),
    decreases rows.len(),
{
    if r < rows.len() - 1 {
        lemma_columns(rows.drop_last(), r);
        assert(rows.drop_last()[r] == rows[r]);
    }
}

/// The same rows in another order, with the same headers.
proof fn lemma_same_rows(
    headers: Seq<Seq<char>>,
    rows: Seq<Seq<Seq<char>>>,
    other: Seq<Seq<Seq<char>>>,
)
    requires
        rows.to_multiset() == other.to_multiset(),
    ensures
        forall|r: int|
            0 <= r < (seq![headers] + rows).len() ==> (seq![headers] + other).contains(
                #[trigger] (seq![headers] + rows)[r],
            ),
{
    broadcast use group_to_multiset_ensures;

    let a = seq![headers] + rows;
    let b = seq![headers] + other;
    assert forall|r: int| 0 <= r < a.len() implies b.contains(#[trigger] a[r]) by {
        if r == 0 {
            assert(b[0] == headers);
        } else {
            let row = rows[r - 1];
            assert(rows.contains(row));
            assert(rows.to_multiset().count(row) > 0);
            assert(other.contains(row));
            let k = choose|k: int| 0 <= k < other.len() && other[k] == row;
            assert(b[k + 1] == row);
        }
    }
}

/// Taking a function of each element keeps two orders of the same elements
/// two orders of the same results.
proof fn lemma_map_multiset<A, B>(a: Seq<A>, b: Seq<A>, f: spec_fn(A) -> B)
    requires
        a.to_multiset() == b.to_multiset(),
    ensures
        a.map_values(f).to_multiset() == b.map_values(f).to_multiset(),
    decreases a.len(),
{
    broadcast use group_to_multiset_ensures;

    to_multiset_len(a);
    to_multiset_len(b);
    if a.len() > 0 {
        let front = a.drop_last();
        let x = a.last();
        assert(a =~= front.push(x));
        to_multiset_build(front, x);
        assert(a.to_multiset().count(x) > 0);
        assert(b.contains(x));
        let k = choose|k: int| 0 <= k < b.len() && b[k] == x;
        let rest = b.remove(k);
        to_multiset_remove(b, k);
        assert(front.to_multiset() =~= rest.to_multiset());
        lemma_map_multiset(front, rest, f);
        let fa = a.map_values(f);
        let fb = b.map_values(f);
        assert(fa =~= front.map_values(f).push(f(x)));
        to_multiset_build(front.map_values(f), f(x));
        assert(fb.remove(k) =~= rest.map_values(f));
        to_multiset_remove(fb, k);
        assert(fb[k] == f(x));
        assert(fb.contains(fb[k]));
        assert(fb.to_multiset().count(f(x)) > 0);
        assert(fa.to_multiset() =~= fb.to_multiset());
    } else {
        assert(a.map_values(f) =~= b.map_values(f));
    }
}

/// The order of the rows changes the order of their lines and nothing else:
/// the headers and the rule stay, and a row has the same line wherever it
/// stands.
pub proof fn law_row_order(
    headers: Seq<Seq<char>>,
    rows: Seq<Seq<Seq<char>>>,
    other: Seq<Seq<Seq<char>>>,
)
    requires
        rows.to_multiset() == other.to_multiset(),
    ensures
        ({
            let a = table_lines(headers, rows);
            let b = table_lines(headers, other);
            &&& a.len() == b.len()
            &&& a[0] == b[0]
            &&& a[1] == b[1]
            &&& a.skip(2).to_multiset() == b.skip(2).to_multiset()
            &&& forall|i: int, j: int|
                0 <= i < rows.len() && 0 <= j < other.len() && #[trigger] rows[i]
                    == #[trigger] other[j] ==> a[i + 2] == b[j + 2]
        }),
{
    broadcast use group_to_multiset_ensures;

    let x = seq![headers] + rows;
    let y = seq![headers] + other;
    let w = widths(x);
    lemma_same_rows(headers, rows, other);
    lemma_same_rows(headers, other, rows);
    to_multiset_len(rows);
    to_multiset_len(other);
    lemma_fewer_rows(x, y, 0);
    lemma_fewer_rows(y, x, 0);
    assert forall|c: int| 0 <= c < columns(x) implies width(x, c) == width(y, c) by {
        lemma_fewer_rows(x, y, c);
        lemma_fewer_rows(y, x, c);
    }
    assert(widths(y) =~= w);
    let f = |row: Seq<Seq<char>>| row_line(row, w);
    lemma_map_multiset(rows, other, f);
    assert(table_lines(headers, rows).skip(2) =~= rows.map_values(f));
    assert(table_lines(headers, other).skip(2) =~= other.map_values(f));
    assert forall|i: int, j: int|
        0 <= i < rows.len() && 0 <= j < other.len() && #[trigger] rows[i]
            == #[trigger] other[j] implies table_lines(headers, rows)[i + 2] == table_lines(
        headers,
        other,
    )[j + 2] by {
        assert(rows.map_values(f)[i] == other.map_values(f)[j]);
        assert(table_lines(headers, rows).skip(2)[i] == table_lines(headers, rows)[i + 2]);
        assert(table_lines(headers, other).skip(2)[j] == table_lines(headers, other)[j + 2]);
    }
}

/// Some row has as many cells as the table has columns.
proof fn lemma_columns_needed(rows: Seq<Seq<Seq<char>>>)
    requires
        rows.len() > 0,
    ensures
        exists|r: int| 0 <= r < rows.len() && (#[trigger] rows[r]).len() == columns(rows),
    decreases rows.len(),
{
    let front = rows.drop_last();
    let n = rows.len() - 1;
    assert(front.len() == 0 ==> columns(front) == 0);
    if rows[n].len() != columns(rows) {
        lemma_columns_needed(front);
        let r = choose|r: int| 0 <= r < front.len() && (#[trigger] front[r]).len() == columns(front);
        assert(rows[r].len() == columns(rows));
    }
}

/// Some cell is as wide as its column.
proof fn lemma_width_needed(rows: Seq<Seq<Seq<char>>>, c: int)
    requires
        rows.len() > 0,
    ensures
        exists|r: int| 0 <= r < rows.len() && cell(#[trigger] rows[r], c).len() == width(rows, c),
    decreases rows.len(),
{
    let front = rows.drop_last();
    let n = rows.len() - 1;
    assert(front.len() == 0 ==> width(front, c) == 0);
    if cell(rows[n], c).len() != width(rows, c) {
        lemma_width_needed(front, c);
        let r = choose|r: int|
            0 <= r < front.len() && cell(#[trigger] front[r], c).len() == width(front, c);
        assert(cell(rows[r], c).len() == width(rows, c));
    }
}

/// A table has as many columns as its longest row has cells, headers counted,
/// and each column is as wide as its widest cell: no less, and no more.
pub proof fn law_columns_are_tight(headers: Seq<Seq<char>>, rows: Seq<Seq<Seq<char>>>)
    ensures
        ({
            let all = seq![headers] + rows;
            let w = widths(all);
            &&& forall|r: int| 0 <= r < all.len() ==> (#[trigger] all[r]).len() <= w.len()
            &&& exists|r: int| 0 <= r < all.len() && (#[trigger] all[r]).len() == w.len()
            &&& forall|r: int, c: int|
                0 <= r < all.len() && 0 <= c < all[r].len() ==> (#[trigger] all[r][c]).len() <= w[c]
            &&& forall|c: int|
                0 <= c < w.len() && #[trigger] w[c] > 0 ==> exists|r: int|
                    0 <= r < all.len() && c < all[r].len() && (#[trigger] all[r][c]).len() == w[c]
        }),
{
    let all = seq![headers] + rows;
    let w = widths(all);
    lemma_columns_needed(all);
    assert forall|r: int| 0 <= r < all.len() implies (#[trigger] all[r]).len() <= w.len() by {
        lemma_columns(all, r);
    }
    assert forall|r: int, c: int| 0 <= r < all.len() && 0 <= c < all[r].len() implies (
    #[trigger] all[r][c]).len() <= w[c] by {
        lemma_columns(all, r);
        lemma_cell_fits(all, r, c);
    }
    assert forall|c: int| 0 <= c < w.len() && #[trigger] w[c] > 0 implies exists|r: int|
        0 <= r < all.len() && c < all[r].len() && (#[trigger] all[r][c]).len() == w[c] by {
        lemma_width_needed(all, c);
        let r = choose|r: int|
            0 <= r < all.len() && cell(#[trigger] all[r], c).len() == width(all, c);
        assert(all[r][c].len() == w[c]);
    }
}

/// Two spaces stand behind every part but the last.
proof fn lemma_gaps(parts: Seq<Seq<char>>, widths: Seq<nat>, c: int)
    requires
        0 < parts.len() <= widths.len(),
        forall|i: int| 0 <= i < parts.len() ==> (#[trigger] parts[i]).len() == widths[i],
        0 <= c < parts.len() - 1,
    ensures
        ({
            let line = join(parts, "  "@);
            let end = (column_start(widths, c) + widths[c]) as int;
            end + 1 < line.len() && line[end] == ' ' && line[end + 1] == ' '
        }),
    decreases parts.len(),
{
    reveal_strlit("  ");
    let front = parts.drop_last();
    assert forall|i: int| 0 <= i < front.len() implies (#[trigger] front[i]).len() == widths[i] by {
        assert(front[i] == parts[i]);
    }
    lemma_joined_parts(front, widths);
    let before = join(front, "  "@);
    let end = (column_start(widths, c) + widths[c]) as int;
    assert(join(parts, "  "@) == before + "  "@ + parts.last());
    if c < front.len() - 1 {
        lemma_gaps(front, widths, c);
        assert(join(parts, "  "@)[end] == before[end]);
        assert(join(parts, "  "@)[end + 1] == before[end + 1]);
    } else {
        assert(column_start(widths, c + 1) == column_start(widths, c) + widths[c] + 2);
        assert(before.len() == end);
        assert(parts.last().len() >= 0);
        assert(join(parts, "  "@)[end] == "  "@[0]);
        assert(join(parts, "  "@)[end + 1] == "  "@[1]);
    }
}

/// Between a cell and the next column there is nothing but spaces: those that
/// fill the column up, and two more.
pub proof fn law_only_spaces_between(
    headers: Seq<Seq<char>>,
    rows: Seq<Seq<Seq<char>>>,
    r: int,
    c: int,
    p: int,
)
    requires
        0 <= r <= rows.len(),
        0 <= c < columns(seq![headers] + rows),
    ensures
        ({
            let all = seq![headers] + rows;
            let w = widths(all);
            let start = column_start(w, c) as int;
            let line = row_line(all[r], w);
            start + cell(all[r], c).len() <= p < start + w[c] + 2 && p < line.len() ==> line[p]
                == ' '
        }),
{
    let all = seq![headers] + rows;
    let w = widths(all);
    let row = all[r];
    let text = cell(row, c);
    let parts = padded_row(row, w);
    assert forall|i: int| 0 <= i < parts.len() implies (#[trigger] parts[i]).len() == w[i] by {
        lemma_cell_fits(all, r, i);
    }
    lemma_joined_parts(parts, w);
    lemma_cell_fits(all, r, c);
    let full = join(parts, "  "@);
    let line = row_line(row, w);
    lemma_trim_end(full);
    assert(line =~= full.take(line.len() as int));
    let start = column_start(w, c) as int;
    if start + text.len() <= p < start + w[c] + 2 && p < line.len() {
        assert(line[p] == full[p]);
        if p < start + w[c] {
            assert(full.subrange(start, start + w[c]) == parts[c]);
            assert(full.subrange(start, start + w[c])[p - start] == full[p]);
            assert(parts[c][p - start] == ' ');
        } else if c < parts.len() - 1 {
            lemma_gaps(parts, w, c);
        } else {
            assert(column_start(w, c + 1) == start + w[c] + 2);
            assert(full.len() == start + w[c]);
        }
    }
}

/// The rule is made of dashes under the columns and of spaces between them.
pub proof fn law_rule(headers: Seq<Seq<char>>, rows: Seq<Seq<Seq<char>>>, c: int, p: int)
    requires
        0 <= c < columns(seq![headers] + rows),
    ensures
        ({
            let w = widths(seq![headers] + rows);
            let start = column_start(w, c) as int;
            let line = table_lines(headers, rows)[1];
            &&& start <= p < start + w[c] ==> p < line.len() && line[p] == '-'
            &&& start + w[c] <= p < start + w[c] + 2 && c < w.len() - 1 ==> p < line.len()
                && line[p] == ' '
            &&& c == w.len() - 1 ==> line.len() == start + w[c]
        }),
{
    let w = widths(seq![headers] + rows);
    let parts = Seq::new(w.len(), |i: int| run('-', w[i]));
    let start = column_start(w, c) as int;
    let line = table_lines(headers, rows)[1];
    assert(line == rule_line(w));
    lemma_joined_parts(parts, w);
    assert(parts[c] == run('-', w[c]));
    if start <= p < start + w[c] {
        assert(line.subrange(start, start + w[c])[p - start] == line[p]);
    }
    if c < w.len() - 1 {
        lemma_gaps(parts, w, c);
    } else {
        assert(column_start(w, c + 1) == start + w[c] + 2);
    }
}

/// In the text of a table without line ends in its cells, the first line holds
/// the headers, and the line of row `r` is two lines below the one that the
/// row's place counts. Both have their text of column `c` at the position
/// where that column begins.
pub proof fn law_cells_stand_below_their_headers(
    headers: Seq<Seq<char>>,
    rows: Seq<Seq<Seq<char>>>,
    r: int,
    c: int,
)
    requires
        single_lines(headers),
        forall|k: int| 0 <= k < rows.len() ==> single_lines(#[trigger] rows[k]),
        0 <= r < rows.len(),
        0 <= c < headers.len(),
        c < rows[r].len(),
    ensures
        ({
            let lines = split(table_text(headers, rows), seq!['\n']);
            let start = column_start(widths(seq![headers] + rows), c) as int;
            let head = headers[c];
            let text = rows[r][c];
            &&& lines.len() == rows.len() + 2
            &&& head.len() > 0 && !white_space(head.last()) ==> start + head.len() <= lines[0].len()
                && lines[0].subrange(start, start + head.len()) == head
            &&& text.len() > 0 && !white_space(text.last()) ==> start + text.len() <= lines[r
                + 2].len() && lines[r + 2].subrange(start, start + text.len()) == text
        }),
{
    let all = seq![headers] + rows;
    let w = widths(all);
    law_table_text(headers, rows);
    lemma_columns(all, 0);
    assert(all[0] == headers);
    assert(all[r + 1] == rows[r]);
    law_columns_line_up(headers, rows, 0, c);
    law_columns_line_up(headers, rows, r + 1, c);
    assert(table_lines(headers, rows)[0] == row_line(headers, w));
    assert(table_lines(headers, rows)[r + 2] == row_line(rows[r], w));
}

} // verus!
