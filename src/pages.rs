//! Splits the lines of a table into pages, each wrapped for display in a
//! code block under the table's header.

use vstd::prelude::*;
use crate::text::{joined, views, join_with};

verus! {

/// The character that the rule under a header repeats.
pub const ROW_SEPARATOR: &'static str = "-";

/// The width of the rule under a header.
pub const RULE_WIDTH: usize = 56;

/// What opens a page: a code block that resets the text colour.
pub const PAGE_OPEN: &'static str = "```ansi\n\u{1b}[0;39m";

/// What closes a page.
pub const PAGE_CLOSE: &'static str = "\n```";

/// The opening of a page as characters.
pub open spec fn page_open() -> Seq<char> {
    seq!['`', '`', '`', 'a', 'n', 's', 'i', '\n', '\u{1b}', '[', '0', ';', '3', '9', 'm']
}

/// The closing of a page as characters.
pub open spec fn page_close() -> Seq<char> {
    seq!['\n', '`', '`', '`']
}

/// The rule under a header.
pub open spec fn rule() -> Seq<char> {
    Seq::new(RULE_WIDTH as nat, |i: int| '-')
}

/// A page holding `rows` under `header`.
pub open spec fn page_text(header: Seq<char>, rows: Seq<Seq<char>>) -> Seq<char> {
    page_open() + header + seq!['\n'] + rule() + seq!['\n'] + joined(rows, seq!['\n'])
        + page_close()
}

/// The number of pages of at most `m` lines that `n` lines fill.
pub open spec fn page_count(n: nat, m: nat) -> nat {
    ((n + m - 1) / m as int) as nat
}

/// The index one past the last line of page `p`.
pub open spec fn page_end(n: nat, m: nat, p: nat) -> int {
    if (p + 1) * m <= n {
        ((p + 1) * m) as int
    } else {
        n as int
    }
}

/// The lines on page `p`: the `p`-th run of `m` lines, the last run shorter.
pub open spec fn page_lines(rows: Seq<Seq<char>>, m: nat, p: nat) -> Seq<Seq<char>> {
    rows.subrange((p * m) as int, page_end(rows.len(), m, p))
}

/// The rule under a header, as a string.
fn rule_string() -> (r: String)
    ensures
        r@ == rule(),
{
    let mut r = String::new();
    let mut i: usize = 0;
    while i < RULE_WIDTH
        invariant
            i <= RULE_WIDTH,
            r@ == Seq::new(i as nat, |k: int| '-'),
        decreases RULE_WIDTH - i,
    {
        r.append(ROW_SEPARATOR);
        i = i + 1;
        proof {
            reveal_strlit("-");
            assert(r@ =~= Seq::new(i as nat, |k: int| '-'));
        }
    }
    r
}

/// Lines `start` to `end` of `rows`, copied.
fn copy_lines(rows: &Vec<String>, start: usize, end: usize) -> (r: Vec<String>)
    requires
        start <= end <= rows@.len(),
    ensures
        views(r@) == views(rows@).subrange(start as int, end as int),
{
    let mut out: Vec<String> = Vec::new();
    let mut k = start;
    while k < end
        invariant
            start <= k <= end <= rows@.len(),
            views(out@) == views(rows@).subrange(start as int, k as int),
        decreases end - k,
    {
        let ghost before = out@;
        out.push(rows[k].clone());
        k = k + 1;
        proof {
            assert(views(out@) =~= views(before).push(rows@[k - 1]@));
            assert(views(out@) =~= views(rows@).subrange(start as int, k as int));
        }
    }
    out
}

/// Splits `rows` into pages of at most `max_per_page` lines, in order; each
/// page shows `header`, a rule and its lines inside a code block.
pub fn paginate_table(header: &str, rows: &Vec<String>, max_per_page: usize) -> (r: Vec<String>)
    requires
        max_per_page > 0,
    ensures
        r@.len() == page_count(rows@.len(), max_per_page as nat),
        forall|p: int|
            0 <= p < r@.len() ==> (#[trigger] r@[p])@ == page_text(
                header@,
                page_lines(views(rows@), max_per_page as nat, p as nat),
            ),
{
    let n = rows.len();
    let m = max_per_page;
    let rule_line = rule_string();
    let mut pages: Vec<String> = Vec::new();
    let mut start: usize = 0;
    let ghost mut p: nat = 0;
    while start < n
        invariant
            n == rows@.len(),
            m == max_per_page > 0,
            rule_line@ == rule(),
            pages@.len() == p,
            start as int == if p * m <= n {
                p * m
            } else {
                n as int
            },
            p == 0 || (p - 1) * m < n,
            forall|q: int|
                0 <= q < p ==> (#[trigger] pages@[q])@ == page_text(
                    header@,
                    page_lines(views(rows@), m as nat, q as nat),
                ),
        decreases n - start,
    {
        proof {
            assert((p + 1) * m == p * m + m) by (nonlinear_arith);
        }
        let end = if n - start > m {
            start + m
        } else {
            n
        };
        let chunk = copy_lines(rows, start, end);
        let body = join_with(&chunk, "\n");
        let page = String::from_str(PAGE_OPEN).concat(header).concat("\n").concat(
            rule_line.as_str(),
        ).concat("\n").concat(body.as_str()).concat(PAGE_CLOSE);
        proof {
            reveal_strlit("\n");
            reveal_strlit("```ansi\n\u{1b}[0;39m");
            reveal_strlit("\n```");
            assert(PAGE_OPEN@ =~= page_open());
            assert(PAGE_CLOSE@ =~= page_close());
            assert("\n"@ =~= seq!['\n']);
            assert(end as int == page_end(n as nat, m as nat, p));
            assert(page@ =~= page_text(header@, page_lines(views(rows@), m as nat, p)));
        }
        pages.push(page);
        start = end;
        proof {
            p = p + 1;
        }
    }
    proof {
        let nn = n as int;
        let mm = m as int;
        let pp = p as int;
        assert(pp * mm >= nn);
        assert(0 <= nn + mm - 1 - pp * mm < mm) by (nonlinear_arith)
            requires
                pp * mm >= nn,
                pp == 0 || (pp - 1) * mm < nn,
                mm > 0,
                nn >= 0,
        ;
        vstd::arithmetic::div_mod::lemma_fundamental_div_mod_converse(
            nn + mm - 1,
            mm,
            pp,
            nn + mm - 1 - pp * mm,
        );
    }
    pages
}

} // verus!
