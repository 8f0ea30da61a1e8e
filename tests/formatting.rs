use chester::columns::compute_column_widths;
use chester::compose::build_autocomplete_display;
use chester::listing::{column_headers, column_weights, render_listing, ListMode};
use chester::pages::paginate_table;
use chester::table::{add_row_numbers, decimal_string, format_table};
use chester::text::{fmt_library_col, lightweight_trim, pad_left, pad_right};

fn strings(items: &[&str]) -> Vec<String> {
    items.iter().map(|s| s.to_string()).collect()
}

#[test]
fn trim_keeps_text_that_fits() {
    assert_eq!(lightweight_trim("hello".to_string(), 10), "hello");
    assert_eq!(lightweight_trim("abcd".to_string(), 4), "abcd");
}

#[test]
fn trim_cuts_and_marks_long_text() {
    let r = lightweight_trim("hello world".to_string(), 8);
    assert_eq!(r, "hello\u{2026}");
    assert_eq!(r.len(), 8);
}

#[test]
fn trim_never_splits_a_character() {
    // five two-byte characters, ten bytes; three bytes are left for content
    let r = lightweight_trim("\u{e9}\u{e9}\u{e9}\u{e9}\u{e9}".to_string(), 6);
    assert_eq!(r, "\u{e9}\u{2026}");
    assert!(r.len() <= 6);
}

#[test]
fn trim_fits_every_width() {
    let samples = ["", "a", "hello world", "\u{e9}t\u{e9} \u{2603} snow", "\u{1f3b5}\u{1f3b6}\u{1f3b5}"];
    for s in samples.iter() {
        for w in 4..30usize {
            let r = lightweight_trim(s.to_string(), w);
            assert!(r.len() <= w, "{:?} at {} gave {:?}", s, w, r);
        }
    }
}

#[test]
fn trim_narrow_width_gives_ellipsis_alone() {
    for w in 0..=3usize {
        assert_eq!(lightweight_trim("anything".to_string(), w), "\u{2026}");
        assert_eq!(lightweight_trim(String::new(), w), "\u{2026}");
    }
}

#[test]
fn padding_aligns_in_characters() {
    assert_eq!(pad_left("1.", 4), "  1.");
    assert_eq!(pad_right("ab", 4), "ab  ");
    assert_eq!(pad_right("abcdef", 4), "abcdef");
    assert_eq!(pad_right("\u{e9}", 3), "\u{e9}  ");
    assert_eq!(fmt_library_col("TITLE".to_string(), 8), "TITLE   ");
    assert_eq!(fmt_library_col("A long title".to_string(), 8), "A lon\u{2026}  ");
}

#[test]
fn compose_scenario_fits_in_budget() {
    let fields = strings(&[
        "A Very Long Track Title That Exceeds The Budget",
        "Artist",
        "Origin",
        "tag1, tag2",
    ]);
    let r = build_autocomplete_display(fields);
    assert!(r.len() <= 100);
    assert_eq!(
        r,
        "A Very Long Track Title That Exceeds The Budget | Artist | Origin | tag1, tag2"
    );
}

#[test]
fn compose_cuts_the_longest_field() {
    let fields = vec!["x".repeat(120), "Artist".to_string(), "Origin".to_string(), "tag1, tag2".to_string()];
    let r = build_autocomplete_display(fields);
    let expected = format!("{}\u{2026} | Artist | Origin | tag1, tag2", "x".repeat(64));
    assert_eq!(r, expected);
    assert!(r.len() <= 100);
}

#[test]
fn compose_breaks_ties_by_first_field() {
    let r = build_autocomplete_display(vec!["a".repeat(60), "b".repeat(60)]);
    assert_eq!(r, format!("{}\u{2026} | {}", "a".repeat(32), "b".repeat(60)));
}

#[test]
fn compose_keeps_cutting_until_it_fits() {
    let r = build_autocomplete_display(vec!["a".repeat(100), "b".repeat(100)]);
    assert_eq!(r, format!("\u{2026} | {}\u{2026}", "b".repeat(89)));
    assert!(r.len() <= 100);
}

#[test]
fn compose_fits_for_many_short_and_long_fields() {
    for n in 1..=16usize {
        let fields: Vec<String> = (0..n).map(|i| "\u{e9}".repeat(10 + 7 * i)).collect();
        let r = build_autocomplete_display(fields);
        assert!(r.len() <= 100, "{} fields gave {} bytes", n, r.len());
    }
}

#[test]
fn compose_of_nothing_is_empty() {
    assert_eq!(build_autocomplete_display(Vec::new()), "");
}

#[test]
fn column_scenario_two_weights() {
    let widths = compute_column_widths(&vec![10, 20], 3);
    assert_eq!(widths, vec![3, 17, 34]);
    assert_eq!(widths.iter().sum::<usize>() + 2, 56);
}

#[test]
fn columns_deal_spare_round_robin() {
    let widths = compute_column_widths(&vec![20, 15, 15, 15], 3);
    assert_eq!(widths, vec![3, 16, 11, 11, 11]);
    assert_eq!(widths.iter().sum::<usize>() + 4, 56);
    let widths = compute_column_widths(&vec![1, 1, 1, 1, 1, 1, 1], 2);
    assert_eq!(widths, vec![2, 7, 7, 7, 7, 7, 6, 6]);
    assert_eq!(widths.iter().sum::<usize>() + 7, 56);
}

#[test]
fn columns_without_weight_share_evenly() {
    let widths = compute_column_widths(&vec![0, 0], 3);
    assert_eq!(widths, vec![3, 26, 25]);
    assert_eq!(widths.iter().sum::<usize>() + 2, 56);
}

#[test]
fn columns_respect_the_floor() {
    let widths = compute_column_widths(&vec![1, 100], 3);
    assert_eq!(widths, vec![3, 4, 50]);
    for w in widths.iter().skip(1) {
        assert!(*w >= 4);
    }
}

#[test]
fn columns_sum_to_row_width() {
    let cases: Vec<(Vec<u32>, usize)> = vec![
        (vec![10, 20], 2),
        (vec![15, 20], 3),
        (vec![10, 40], 4),
        (vec![20, 15, 15, 15], 3),
        (vec![3, 5, 7], 5),
        (vec![1], 2),
    ];
    for (weights, rownum) in cases {
        let widths = compute_column_widths(&weights, rownum);
        assert_eq!(widths.len(), weights.len() + 1);
        assert_eq!(widths[0], rownum);
        assert_eq!(widths.iter().sum::<usize>() + weights.len(), 56);
    }
}

#[test]
fn decimal_numbers() {
    assert_eq!(decimal_string(0), "0");
    assert_eq!(decimal_string(7), "7");
    assert_eq!(decimal_string(12345), "12345");
}

#[test]
fn rows_are_numbered_from_one() {
    let data: Vec<Vec<String>> = (0..12).map(|i| vec![format!("v{}", i)]).collect();
    let (rows, width) = add_row_numbers(data);
    assert_eq!(width, 3);
    assert_eq!(rows[0], strings(&["1.", "v0"]));
    assert_eq!(rows[11], strings(&["12.", "v11"]));
}

#[test]
fn table_header_and_rows() {
    let headers = strings(&["#", "Artist", "Title"]);
    let widths = vec![3, 6, 8];
    let data = vec![strings(&["1.", "Koji", "Overworld Theme"]), strings(&["2.", "Yoko", "Song"])];
    let (header, lines) = format_table(&headers, &data, &widths);
    assert_eq!(header, "  # Artist Title   ");
    assert_eq!(lines[0], " 1. Koji   Overw\u{2026}  ");
    assert_eq!(lines[1], " 2. Yoko   Song    ");
}

#[test]
fn table_marks_repeats_within_a_page() {
    let headers = strings(&["#", "Artist", "Title"]);
    let widths = vec![3, 8, 8];
    let data = vec![
        strings(&["1.", "Koji", "A"]),
        strings(&["2.", "Koji", "A"]),
        strings(&["3.", "", "B"]),
        strings(&["4.", "", "B"]),
    ];
    let (_, lines) = format_table(&headers, &data, &widths);
    assert_eq!(lines[0], " 1. Koji     A       ");
    assert_eq!(lines[1], " 2. ^^^      ^^^     ");
    assert_eq!(lines[3], " 4.          ^^^     ");
}

#[test]
fn table_first_row_of_each_page_is_full() {
    let headers = strings(&["#", "Artist"]);
    let widths = vec![3, 8];
    let data: Vec<Vec<String>> = (1..=41).map(|i| vec![format!("{}.", i), "Koji".to_string()]).collect();
    let (_, lines) = format_table(&headers, &data, &widths);
    assert_eq!(lines[0], " 1. Koji    ");
    assert_eq!(lines[1], " 2. ^^^     ");
    assert_eq!(lines[19], "20. ^^^     ");
    assert_eq!(lines[20], "21. Koji    ");
    assert_eq!(lines[21], "22. ^^^     ");
    assert_eq!(lines[40], "41. Koji    ");
}

fn rows_on_page(page: &str) -> usize {
    page.lines().count() - 4
}

#[test]
fn pages_scenario_forty_five_rows() {
    let rows: Vec<String> = (0..45).map(|i| format!("row {}", i)).collect();
    let pages = paginate_table("HEADER", &rows, 20);
    assert_eq!(pages.len(), 3);
    let sizes: Vec<usize> = pages.iter().map(|p| rows_on_page(p)).collect();
    assert_eq!(sizes, vec![20, 20, 5]);
}

#[test]
fn page_layout() {
    let rows = strings(&["a", "b", "c"]);
    let pages = paginate_table("H", &rows, 2);
    let rule = "-".repeat(56);
    assert_eq!(pages.len(), 2);
    assert_eq!(pages[0], format!("```ansi\n\u{1b}[0;39mH\n{}\na\nb\n```", rule));
    assert_eq!(pages[1], format!("```ansi\n\u{1b}[0;39mH\n{}\nc\n```", rule));
}

#[test]
fn no_rows_no_pages() {
    assert!(paginate_table("H", &Vec::new(), 20).is_empty());
}

#[test]
fn listing_modes() {
    assert_eq!(column_weights(ListMode::Artist), vec![10, 20]);
    assert_eq!(column_weights(ListMode::All), vec![20, 15, 15, 15]);
    assert_eq!(column_headers(ListMode::Tags), strings(&["#", "Tag", "Title"]));
}

#[test]
fn listing_renders_pages() {
    let rows: Vec<Vec<String>> = (0..45)
        .map(|i| vec![if i < 30 { "Koji".to_string() } else { "Yoko".to_string() }, format!("Song {}", i)])
        .collect();
    let pages = render_listing(ListMode::Artist, rows);
    assert_eq!(pages.len(), 3);
    let rule = "-".repeat(56);
    let header = format!("  # {:<17} {:<34}", "Artist", "Title");
    assert!(pages[0].starts_with(&format!("```ansi\n\u{1b}[0;39m{}\n{}\n", header, rule)));
    let lines: Vec<&str> = pages[0].lines().collect();
    assert_eq!(lines[3], format!(" 1. {:<17} {:<34}", "Koji", "Song 0"));
    assert_eq!(lines[4], format!(" 2. {:<17} {:<34}", "^^^", "Song 1"));
    let second: Vec<&str> = pages[1].lines().collect();
    assert_eq!(second[3], format!("21. {:<17} {:<34}", "Koji", "Song 20"));
    assert_eq!(rows_on_page(&pages[2]), 5);
    for page in pages.iter() {
        for line in page.lines().skip(1).take_while(|l| !l.starts_with("```")) {
            assert!(line.len() <= 56 || line.starts_with('\u{1b}'));
        }
    }
}
