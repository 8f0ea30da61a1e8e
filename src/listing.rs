//! The library listing: rows numbered, laid out in weighted columns and cut
//! into pages.

use vstd::prelude::*;
use crate::text::views;
use crate::columns::{compute_column_widths, column_widths, ROW_MAX_WIDTH};
use crate::table::{
    add_row_numbers, format_table, table_views, decimal, rownum_width_for, well_shaped,
    header_line, row_line, row_label, MAX_RESULTS_PER_PAGE,
};
use crate::pages::{paginate_table, page_count, page_text, page_lines};

verus! {

/// What a listing shows.
#[derive(Clone, Copy, PartialEq, Eq, Structural, Debug)]
pub enum ListMode {
    /// Every track with its artist, origin and tags.
    All,
    /// Tracks by artist.
    Artist,
    /// Tracks by origin.
    Origin,
    /// Tracks by tag.
    Tags,
}

/// The number of content columns of a listing.
pub open spec fn column_count(mode: ListMode) -> nat {
    match mode {
        ListMode::All => 4,
        _ => 2,
    }
}

/// The relative weights of a listing's content columns, in tenths.
pub open spec fn mode_weights(mode: ListMode) -> Seq<u32> {
    match mode {
        ListMode::Artist => seq![10, 20],
        ListMode::Origin => seq![15, 20],
        ListMode::Tags => seq![10, 40],
        ListMode::All => seq![20, 15, 15, 15],
    }
}

/// The relative weights of a listing's content columns, in tenths.
pub fn column_weights(mode: ListMode) -> (r: Vec<u32>)
    ensures
        r@ == mode_weights(mode),
{
    let r = match mode {
        ListMode::Artist => vec![10, 20],
        ListMode::Origin => vec![15, 20],
        ListMode::Tags => vec![10, 40],
        ListMode::All => vec![20, 15, 15, 15],
    };
    proof {
        assert(r@ =~= mode_weights(mode));
    }
    r
}

/// The headers of a listing, the row-number column's first.
pub open spec fn mode_headers(mode: ListMode) -> Seq<Seq<char>> {
    match mode {
        ListMode::Artist => seq!["#"@, "Artist"@, "Title"@],
        ListMode::Origin => seq!["#"@, "Origin"@, "Title"@],
        ListMode::Tags => seq!["#"@, "Tag"@, "Title"@],
        ListMode::All => seq!["#"@, "Title"@, "Artist"@, "Origin"@, "Tags"@],
    }
}

/// The headers of a listing, the row-number column's first.
pub fn column_headers(mode: ListMode) -> (r: Vec<String>)
    ensures
        views(r@) == mode_headers(mode),
{
    let mut r: Vec<String> = Vec::new();
    r.push(String::from_str("#"));
    match mode {
        ListMode::Artist => {
            r.push(String::from_str("Artist"));
            r.push(String::from_str("Title"));
        },
        ListMode::Origin => {
            r.push(String::from_str("Origin"));
            r.push(String::from_str("Title"));
        },
        ListMode::Tags => {
            r.push(String::from_str("Tag"));
            r.push(String::from_str("Title"));
        },
        ListMode::All => {
            r.push(String::from_str("Title"));
            r.push(String::from_str("Artist"));
            r.push(String::from_str("Origin"));
            r.push(String::from_str("Tags"));
        },
    }
    proof {
        assert(views(r@) =~= mode_headers(mode));
    }
    r
}

pub open spec fn pow10(k: nat) -> nat
    decreases k,
{
    if k == 0 {
        1
    } else {
        10 * pow10((k - 1) as nat)
    }
}

pub proof fn lemma_decimal_digits(n: nat, k: nat)
    requires
        k >= 1,
        n < pow10(k),
    ensures
        decimal(n).len() <= k,
    decreases k,
{
    if n >= 10 {
        assert(pow10(0) == 1);
        assert(pow10(1) == 10);
        assert(k >= 2);
        assert(n / 10 < pow10((k - 1) as nat)) by (nonlinear_arith)
            requires
                n < 10 * pow10((k - 1) as nat),
        ;
        lemma_decimal_digits(n / 10, (k - 1) as nat);
    }
}

/// The pages of a listing of `rows`, each row holding one value per content
/// column of `mode`: rows are numbered, laid out in `mode`'s weighted
/// columns and cut into pages of [`MAX_RESULTS_PER_PAGE`] rows.
pub fn render_listing(mode: ListMode, rows: Vec<Vec<String>>) -> (r: Vec<String>)
    requires
        forall|i: int| 0 <= i < rows@.len() ==> (#[trigger] rows@[i])@.len() == column_count(mode),
    ensures
        ({
            let n = rows@.len();
            let widths = column_widths(mode_weights(mode), rownum_width_for(n));
            let numbered = Seq::new(n, |i: int| seq![row_label(i as nat)] + table_views(rows@)[i]);
            let lines = Seq::new(n, |i: int| row_line(numbered, widths.map_values(|w: int| w as usize), i));
            &&& r@.len() == page_count(n, MAX_RESULTS_PER_PAGE as nat)
            &&& forall|p: int| 0 <= p < r@.len() ==> (#[trigger] r@[p])@ == page_text(
                header_line(mode_headers(mode), widths.map_values(|w: int| w as usize)),
                page_lines(lines, MAX_RESULTS_PER_PAGE as nat, p as nat),
            )
        }),
{
    let count = rows.len();
    let ghost n = rows@.len();
    let ghost tv = table_views(rows@);
    let (numbered, rownum_width) = add_row_numbers(rows);
    proof {
        assert(n == count);
        assert(usize::MAX < pow10(20)) by {
            reveal_with_fuel(pow10, 21);
        }
        lemma_decimal_digits(n, 20);
    }
    let weights = column_weights(mode);
    let widths = compute_column_widths(&weights, rownum_width);
    let headers = column_headers(mode);
    let ghost wseq = column_widths(mode_weights(mode), rownum_width as nat);
    proof {
        assert(widths@ =~= wseq.map_values(|w: int| w as usize));
        assert forall|i: int| 0 <= i < numbered@.len() implies (#[trigger] table_views(numbered@)[i]).len()
            == widths@.len() by {
            assert(table_views(numbered@)[i] == seq![row_label(i as nat)] + tv[i]);
            assert(tv[i] == views(rows@[i]@));
        }
    }
    let (header, lines) = format_table(&headers, &numbered, &widths);
    let ghost numbered_spec = Seq::new(n, |i: int| seq![row_label(i as nat)] + tv[i]);
    proof {
        assert(table_views(numbered@) =~= numbered_spec);
        assert(views(lines@) =~= Seq::new(n, |i: int| row_line(numbered_spec, widths@, i)));
    }
    paginate_table(header.as_str(), &lines, MAX_RESULTS_PER_PAGE)
}

} // verus!
