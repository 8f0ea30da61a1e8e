//! Fixed-width text tables: numbered rows, a header line and one line per
//! row, with repeated values in a column shown by a marker.

use vstd::prelude::*;
use crate::text::{
    joined, padded_left, padded_right, trimmed, views, lightweight_trim, pad_left, pad_right,
    join_with,
};

verus! {

/// Rows shown on one page of a table.
pub const MAX_RESULTS_PER_PAGE: usize = 20;

/// What stands between two cells of a line.
pub const LIBRARY_SEPARATOR: &'static str = " ";

/// Shown in place of a value equal to the one above it on the same page.
pub const DUPLICATE_INDICATOR: &'static str = "^^^";

/// The decimal digit `d`.
pub open spec fn digit_char(d: nat) -> char {
    seq!['0', '1', '2', '3', '4', '5', '6', '7', '8', '9'][d as int]
}

/// `n` written in decimal.
pub open spec fn decimal(n: nat) -> Seq<char>
    decreases n,
{
    if n < 10 {
        seq![digit_char(n)]
    } else {
        decimal(n / 10) + seq![digit_char(n % 10)]
    }
}

/// `n` written in decimal.
pub fn decimal_string(n: usize) -> (r: String)
    ensures
        r@ == decimal(n as nat),
    decreases n,
{
    let d = n % 10;
    let digits = "0123456789";
    proof {
        reveal_strlit("0123456789");
    }
    let last = digits.substring_char(d, d + 1);
    proof {
        assert(last@ =~= seq![digit_char(d as nat)]);
    }
    if n < 10 {
        String::from_str(last)
    } else {
        decimal_string(n / 10).concat(last)
    }
}

/// The label of the row at position `i`, counted from one: `"12."`.
pub open spec fn row_label(i: nat) -> Seq<char> {
    decimal(i + 1) + seq!['.']
}

/// The width of the row-number column for `total` rows: the digits of the
/// largest number and the dot.
pub open spec fn rownum_width_for(total: nat) -> nat {
    decimal(total).len() + 1
}

/// The cells of each row of a table.
pub open spec fn table_views(t: Seq<Vec<String>>) -> Seq<Seq<Seq<char>>> {
    t.map_values(|r: Vec<String>| views(r@))
}

pub proof fn lemma_decimal_len(n: nat)
    ensures
        decimal(n).len() <= n / 2 + 1,
    decreases n,
{
    if n >= 10 {
        lemma_decimal_len(n / 10);
        assert(n / 10 / 2 + 2 <= n / 2 + 1) by (nonlinear_arith)
            requires
                n >= 10,
        ;
    }
}

/// Puts each row's number, counted from one and followed by a dot, in front
/// of its cells, and gives the width that the number column needs.
pub fn add_row_numbers(data: Vec<Vec<String>>) -> (r: (Vec<Vec<String>>, usize))
    ensures
        r.1 == rownum_width_for(data@.len()),
        r.0@.len() == data@.len(),
        forall|i: int|
            0 <= i < data@.len() ==> #[trigger] table_views(r.0@)[i] == seq![row_label(i as nat)]
                + table_views(data@)[i],
{
    let total_rows = data.len();
    let digits = decimal_string(total_rows);
    proof {
        lemma_decimal_len(total_rows as nat);
    }
    let rownum_width = digits.as_str().unicode_len() + 1;
    let mut out: Vec<Vec<String>> = Vec::new();
    let mut i: usize = 0;
    while i < total_rows
        invariant
            i <= total_rows == data@.len(),
            out@.len() == i,
            forall|k: int|
                0 <= k < i ==> #[trigger] table_views(out@)[k] == seq![row_label(k as nat)]
                    + table_views(data@)[k],
        decreases total_rows - i,
    {
        proof {
            reveal_strlit(".");
        }
        let label = decimal_string(i + 1).concat(".");
        let mut row: Vec<String> = Vec::new();
        row.push(label);
        let src = &data[i];
        let mut j: usize = 0;
        while j < src.len()
            invariant
                j <= src@.len(),
                row@.len() == j + 1,
                row@[0]@ == row_label(i as nat),
                forall|k: int| 0 <= k < j ==> #[trigger] row@[k + 1]@ == src@[k]@,
            decreases src@.len() - j,
        {
            row.push(src[j].clone());
            j = j + 1;
        }
        proof {
            assert(views(row@) =~= seq![row_label(i as nat)] + views(src@)) by {
                assert forall|k: int| 1 <= k < row@.len() implies #[trigger] row@[k]@ == src@[k
                    - 1]@ by {
                    assert(row@[(k - 1) + 1]@ == src@[k - 1]@);
                }
            }
        }
        let ghost before = out@;
        let ghost row_view = views(row@);
        out.push(row);
        i = i + 1;
        proof {
            assert forall|k: int| 0 <= k < i implies #[trigger] table_views(out@)[k] == seq![
                row_label(k as nat),
            ] + table_views(data@)[k] by {
                assert(table_views(out@)[k] == views(out@[k]@));
                assert(table_views(data@)[k] == views(data@[k]@));
                if k < i - 1 {
                    assert(out@[k] == before[k]);
                    assert(table_views(before)[k] == views(before[k]@));
                } else {
                    assert(views(out@[k]@) == row_view);
                }
            }
        }
    }
    (out, rownum_width)
}

/// The marker as a sequence of characters.
pub open spec fn duplicate_marker() -> Seq<char> {
    seq!['^', '^', '^']
}

/// A header cell: the row-number header right-aligned as it is, any other
/// header trimmed to its column and left-aligned.
pub open spec fn header_cell(j: int, h: Seq<char>, w: nat) -> Seq<char> {
    if j == 0 {
        padded_left(h, w)
    } else {
        padded_right(trimmed(h, w), w)
    }
}

/// The header line of a table.
pub open spec fn header_line(headers: Seq<Seq<char>>, widths: Seq<usize>) -> Seq<char> {
    joined(
        Seq::new(headers.len(), |j: int| header_cell(j, headers[j], widths[j] as nat)),
        seq![' '],
    )
}

/// Whether the value in row `i` is shown by the marker: it repeats the
/// non-empty value above it, and row `i` does not open a page.
pub open spec fn is_repeat(i: int, val: Seq<char>, above: Seq<char>) -> bool {
    &&& i % (MAX_RESULTS_PER_PAGE as int) != 0
    &&& above.len() > 0
    &&& val == above
}

/// Cell `j` of row `i`: the row number right-aligned; a repeated value as the
/// marker; any other value trimmed to its column; each left-aligned.
pub open spec fn row_cell(
    data: Seq<Seq<Seq<char>>>,
    widths: Seq<usize>,
    i: int,
    j: int,
) -> Seq<char> {
    let w = widths[j] as nat;
    if j == 0 {
        padded_left(data[i][j], w)
    } else if i > 0 && is_repeat(i, data[i][j], data[i - 1][j]) {
        padded_right(duplicate_marker(), w)
    } else {
        padded_right(trimmed(data[i][j], w), w)
    }
}

/// Line `i` of the body of a table.
pub open spec fn row_line(data: Seq<Seq<Seq<char>>>, widths: Seq<usize>, i: int) -> Seq<char> {
    joined(Seq::new(data[i].len(), |j: int| row_cell(data, widths, i, j)), seq![' '])
}

/// Within a page, a cell that repeats the non-empty cell above it renders as
/// the marker; on the first row of every page each cell renders in full,
/// whatever the row before it held.
pub proof fn lemma_duplicate_suppression(
    data: Seq<Seq<Seq<char>>>,
    widths: Seq<usize>,
    i: int,
    j: int,
)
    requires
        0 <= i < data.len(),
        1 <= j < data[i].len(),
    ensures
        i > 0 && i % (MAX_RESULTS_PER_PAGE as int) != 0 && data[i - 1][j].len() > 0 && data[i][j]
            == data[i - 1][j] ==> row_cell(data, widths, i, j) == padded_right(
            duplicate_marker(),
            widths[j] as nat,
        ),
        i % (MAX_RESULTS_PER_PAGE as int) == 0 ==> row_cell(data, widths, i, j) == padded_right(
            trimmed(data[i][j], widths[j] as nat),
            widths[j] as nat,
        ),
{
}

/// A table whose headers and rows all have one entry per column.
pub open spec fn well_shaped(
    headers: Seq<Seq<char>>,
    data: Seq<Seq<Seq<char>>>,
    widths: Seq<usize>,
) -> bool {
    &&& headers.len() == widths.len()
    &&& forall|i: int| 0 <= i < data.len() ==> (#[trigger] data[i]).len() == widths.len()
}

/// The header line of a table with `headers` over columns of `col_widths`.
pub fn format_header(headers: &Vec<String>, col_widths: &Vec<usize>) -> (r: String)
    requires
        headers@.len() == col_widths@.len(),
    ensures
        r@ == header_line(views(headers@), col_widths@),
{
    let ghost cells_spec = Seq::new(
        headers@.len(),
        |j: int| header_cell(j, headers@[j]@, col_widths@[j] as nat),
    );
    let mut cells: Vec<String> = Vec::new();
    let mut j: usize = 0;
    while j < headers.len()
        invariant
            j <= headers@.len() == col_widths@.len(),
            cells_spec == Seq::new(
                headers@.len(),
                |j: int| header_cell(j, headers@[j]@, col_widths@[j] as nat),
            ),
            views(cells@) == cells_spec.take(j as int),
        decreases headers@.len() - j,
    {
        let w = col_widths[j];
        let cell = if j == 0 {
            pad_left(headers[j].as_str(), w)
        } else {
            let t = lightweight_trim(headers[j].clone(), w);
            pad_right(t.as_str(), w)
        };
        proof {
            assert(cell@ == cells_spec[j as int]);
        }
        let ghost before = cells@;
        cells.push(cell);
        j = j + 1;
        proof {
            assert(views(cells@) =~= views(before).push(cell@));
            assert(views(cells@) =~= cells_spec.take(j as int));
        }
    }
    proof {
        reveal_strlit(" ");
        assert(LIBRARY_SEPARATOR@ =~= seq![' ']);
        assert(cells_spec.take(j as int) =~= cells_spec);
        assert(views(headers@) =~= headers@.map_values(|s: String| s@));
        assert(cells_spec =~= Seq::new(
            views(headers@).len(),
            |j: int| header_cell(j, views(headers@)[j], col_widths@[j] as nat),
        ));
    }
    join_with(&cells, LIBRARY_SEPARATOR)
}

/// Line `i` of the body of a table.
fn format_row(data: &Vec<Vec<String>>, col_widths: &Vec<usize>, i: usize) -> (r: String)
    requires
        i < data@.len(),
        forall|k: int| 0 <= k < data@.len() ==> (#[trigger] data@[k])@.len() == col_widths@.len(),
    ensures
        r@ == row_line(table_views(data@), col_widths@, i as int),
{
    let ghost t = table_views(data@);
    let row = &data[i];
    let ghost cells_spec = Seq::new(t[i as int].len(), |j: int| row_cell(t, col_widths@, i as int, j));
    let mut cells: Vec<String> = Vec::new();
    let mut j: usize = 0;
    proof {
        assert(t[i as int] == views(row@));
    }
    while j < row.len()
        invariant
            j <= row@.len() == col_widths@.len(),
            i < data@.len(),
            row == data@[i as int],
            forall|k: int| 0 <= k < data@.len() ==> (#[trigger] data@[k])@.len() == col_widths@.len(),
            t == table_views(data@),
            t[i as int] == views(row@),
            cells_spec == Seq::new(t[i as int].len(), |j: int| row_cell(t, col_widths@, i as int, j)),
            views(cells@) == cells_spec.take(j as int),
        decreases row@.len() - j,
    {
        let w = col_widths[j];
        let val = &row[j];
        let cell = if j == 0 {
            pad_left(val.as_str(), w)
        } else {
            let repeat = if i > 0 && i % MAX_RESULTS_PER_PAGE != 0 {
                let above = &data[i - 1][j];
                proof {
                    assert(t[i - 1] == views(data@[i - 1]@));
                }
                !above.as_str().is_empty() && *val == *above
            } else {
                false
            };
            if repeat {
                proof {
                    reveal_strlit("^^^");
                    assert(DUPLICATE_INDICATOR@ =~= duplicate_marker());
                }
                pad_right(DUPLICATE_INDICATOR, w)
            } else {
                let t = lightweight_trim(val.clone(), w);
                pad_right(t.as_str(), w)
            }
        };
        proof {
            if i > 0 {
                assert(t[i - 1] == views(data@[i - 1]@));
            }
            assert(cell@ == cells_spec[j as int]);
        }
        let ghost before = cells@;
        cells.push(cell);
        j = j + 1;
        proof {
            assert(views(cells@) =~= views(before).push(cell@));
            assert(views(cells@) =~= cells_spec.take(j as int));
        }
    }
    proof {
        reveal_strlit(" ");
        assert(LIBRARY_SEPARATOR@ =~= seq![' ']);
        assert(cells_spec.take(j as int) =~= cells_spec);
    }
    join_with(&cells, LIBRARY_SEPARATOR)
}

/// Renders a table: its header line, and one line per row of `data`, each
/// cell fitted to its column of `col_widths`. A value equal to the non-empty
/// value above it is shown as [`DUPLICATE_INDICATOR`], except on the first
/// row of each page of [`MAX_RESULTS_PER_PAGE`] rows.
pub fn format_table(
    headers: &Vec<String>,
    data: &Vec<Vec<String>>,
    col_widths: &Vec<usize>,
) -> (r: (String, Vec<String>))
    requires
        well_shaped(views(headers@), table_views(data@), col_widths@),
    ensures
        r.0@ == header_line(views(headers@), col_widths@),
        r.1@.len() == data@.len(),
        forall|i: int|
            0 <= i < data@.len() ==> (#[trigger] r.1@[i])@ == row_line(
                table_views(data@),
                col_widths@,
                i,
            ),
{
    proof {
        assert forall|k: int| 0 <= k < data@.len() implies (#[trigger] data@[k])@.len()
            == col_widths@.len() by {
            assert(table_views(data@)[k] == views(data@[k]@));
        }
    }
    let header = format_header(headers, col_widths);
    let mut lines: Vec<String> = Vec::new();
    let mut i: usize = 0;
    while i < data.len()
        invariant
            i <= data@.len(),
            forall|k: int| 0 <= k < data@.len() ==> (#[trigger] data@[k])@.len() == col_widths@.len(),
            lines@.len() == i,
            forall|k: int|
                0 <= k < i ==> (#[trigger] lines@[k])@ == row_line(table_views(data@), col_widths@, k),
        decreases data@.len() - i,
    {
        let line = format_row(data, col_widths, i);
        lines.push(line);
        i = i + 1;
    }
    (header, lines)
}

} // verus!
