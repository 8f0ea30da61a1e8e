//! Splits the fixed width of a table row between a row-number column and
//! weighted content columns.

use vstd::prelude::*;

verus! {

/// The width of every table row, separators included.
pub const ROW_MAX_WIDTH: usize = 56;

/// No content column is narrower than this.
pub const MIN_COLUMN_WIDTH: usize = 4;

/// The weights added up.
pub open spec fn weight_sum(ws: Seq<u32>) -> nat
    decreases ws.len(),
{
    if ws.len() == 0 {
        0
    } else {
        weight_sum(ws.drop_last()) + ws.last() as nat
    }
}

/// The widths added up.
pub open spec fn width_sum(ws: Seq<usize>) -> int
    decreases ws.len(),
{
    if ws.len() == 0 {
        0
    } else {
        width_sum(ws.drop_last()) + ws.last()
    }
}

/// What the content columns share: the row less the row-number column and
/// one separator before each content column.
pub open spec fn usable_width(n: nat, rownum_width: nat) -> int {
    ROW_MAX_WIDTH - rownum_width - n
}

/// A column's share of `usable` in proportion to its weight, rounded down and
/// raised to [`MIN_COLUMN_WIDTH`]. With no weight at all every share is nil.
pub open spec fn base_width(w: u32, total: nat, usable: nat) -> int {
    let share = if total == 0 {
        0
    } else {
        (w * usable) / total as int
    };
    if share < MIN_COLUMN_WIDTH {
        MIN_COLUMN_WIDTH as int
    } else {
        share
    }
}

/// The first-pass widths of the content columns.
pub open spec fn base_widths(ws: Seq<u32>, rownum_width: nat) -> Seq<int> {
    Seq::new(
        ws.len(),
        |i: int| base_width(ws[i], weight_sum(ws), usable_width(ws.len(), rownum_width) as nat),
    )
}

/// The sum of a sequence of integers.
pub open spec fn int_sum(s: Seq<int>) -> int
    decreases s.len(),
{
    if s.len() == 0 {
        0
    } else {
        int_sum(s.drop_last()) + s.last()
    }
}

/// How much of the row the first pass leaves unused.
pub open spec fn spare_width(ws: Seq<u32>, rownum_width: nat) -> int {
    ROW_MAX_WIDTH - (rownum_width + int_sum(base_widths(ws, rownum_width)) + ws.len())
}

/// What content column `k` of `n` receives when `spare` units are dealt out
/// one at a time, from the first content column on and round again.
pub open spec fn dealt(spare: int, n: nat, k: int) -> int {
    if spare > 0 && n > 0 {
        spare / n as int + if k < spare % n as int {
            1int
        } else {
            0int
        }
    } else {
        0
    }
}

/// The widths of all columns: the row-number column first, then each
/// content column's first-pass width plus what it was dealt of the spare.
pub open spec fn column_widths(ws: Seq<u32>, rownum_width: nat) -> Seq<int> {
    seq![rownum_width as int] + Seq::new(
        ws.len(),
        |k: int|
            base_widths(ws, rownum_width)[k] + dealt(
                spare_width(ws, rownum_width),
                ws.len(),
                k,
            ),
    )
}

pub proof fn lemma_weight_le_sum(ws: Seq<u32>, k: int)
    requires
        0 <= k < ws.len(),
    ensures
        ws[k] <= weight_sum(ws),
    decreases ws.len(),
{
    if k < ws.len() - 1 {
        lemma_weight_le_sum(ws.drop_last(), k);
    }
}

pub proof fn lemma_width_sum_update(s: Seq<usize>, k: int, v: usize)
    requires
        0 <= k < s.len(),
    ensures
        width_sum(s.update(k, v)) + s[k] == width_sum(s) + v,
    decreases s.len(),
{
    if k == s.len() - 1 {
        assert(s.update(k, v).drop_last() =~= s.drop_last());
    } else {
        assert(s.update(k, v).drop_last() =~= s.drop_last().update(k, v));
        lemma_width_sum_update(s.drop_last(), k, v);
    }
}

proof fn lemma_width_sum_base(widths: Seq<usize>, base: Seq<int>, rownum_width: usize)
    requires
        widths.len() == base.len() + 1,
        widths[0] == rownum_width,
        forall|k: int| 0 <= k < base.len() ==> widths[k + 1] as int == #[trigger] base[k],
    ensures
        width_sum(widths) == rownum_width + int_sum(base),
    decreases base.len(),
{
    if base.len() == 0 {
        assert(widths.drop_last() =~= Seq::<usize>::empty());
        assert(width_sum(Seq::<usize>::empty()) == 0);
        assert(int_sum(base) == 0);
    } else {
        let wd = widths.drop_last();
        let bd = base.drop_last();
        assert(widths.last() as int == base.last()) by {
            assert(widths[(base.len() - 1) + 1] as int == base[base.len() - 1]);
        }
        assert forall|k: int| 0 <= k < bd.len() implies wd[k + 1] as int == #[trigger] bd[k] by {
            assert(wd[k + 1] == widths[k + 1]);
        }
        lemma_width_sum_base(wd, bd, rownum_width);
    }
}

/// Computes the width of each column of a row: the row-number column of
/// `rownum_width`, then one content column per weight. Each content column
/// first gets its weighted share of the usable width, rounded down and
/// raised to [`MIN_COLUMN_WIDTH`]; what rounding left unused is then dealt
/// out one unit at a time, round-robin from the first content column.
pub fn compute_column_widths(weights: &Vec<u32>, rownum_width: usize) -> (r: Vec<usize>)
    requires
        weights@.len() >= 1,
        rownum_width + weights@.len() <= ROW_MAX_WIDTH,
    ensures
        r@.len() == weights@.len() + 1,
        forall|k: int|
            0 <= k < r@.len() ==> r@[k] as int == #[trigger] column_widths(weights@, rownum_width as nat)[k],
        forall|k: int| 1 <= k < r@.len() ==> #[trigger] r@[k] >= MIN_COLUMN_WIDTH,
        spare_width(weights@, rownum_width as nat) >= 0 ==> width_sum(r@) + weights@.len()
            == ROW_MAX_WIDTH,
{
    let n = weights.len();
    let ghost ws = weights@;
    let usable = ROW_MAX_WIDTH - rownum_width - n;

    let mut total: u128 = 0;
    let mut i: usize = 0;
    while i < n
        invariant
            i <= n == ws.len(),
            ws == weights@,
            total == weight_sum(ws.take(i as int)),
            total <= i * (u32::MAX as int),
        decreases n - i,
    {
        proof {
            assert(ws.take(i + 1).drop_last() =~= ws.take(i as int));
            assert((i + 1) * (u32::MAX as int) <= (usize::MAX as int) * (u32::MAX as int))
                by (nonlinear_arith)
                requires
                    i + 1 <= usize::MAX,
            ;
            assert((usize::MAX as int) * (u32::MAX as int) <= u128::MAX) by (nonlinear_arith)
                requires
                    usize::MAX <= u64::MAX,
            ;
        }
        total = total + weights[i] as u128;
        i = i + 1;
    }
    proof {
        assert(ws.take(n as int) =~= ws);
    }

    let ghost base = base_widths(ws, rownum_width as nat);
    let mut widths: Vec<usize> = Vec::new();
    widths.push(rownum_width);
    let mut used: usize = rownum_width + n;
    let mut j: usize = 0;
    while j < n
        invariant
            j <= n == ws.len(),
            ws == weights@,
            total == weight_sum(ws),
            usable == usable_width(n as nat, rownum_width as nat),
            base == base_widths(ws, rownum_width as nat),
            widths@.len() == j + 1,
            widths@[0] == rownum_width,
            forall|k: int| 0 <= k < j ==> widths@[k + 1] as int == #[trigger] base[k],
            forall|k: int| 0 <= k < j ==> MIN_COLUMN_WIDTH <= #[trigger] base[k] <= ROW_MAX_WIDTH,
            used == rownum_width + n + int_sum(base.take(j as int)),
            used <= rownum_width + n + j * ROW_MAX_WIDTH,
        decreases n - j,
    {
        let w = weights[j];
        let share: usize = if total == 0 {
            0
        } else {
            proof {
                lemma_weight_le_sum(ws, j as int);
                assert((w as int * usable as int) / (total as int) <= usable as int)
                    by (nonlinear_arith)
                    requires
                        w <= total,
                        total > 0,
                        usable >= 0,
                {
                    assert(w as int * usable as int <= total as int * usable as int);
                    vstd::arithmetic::div_mod::lemma_div_is_ordered(
                        w as int * usable as int,
                        total as int * usable as int,
                        total as int,
                    );
                    vstd::arithmetic::div_mod::lemma_div_multiples_vanish(
                        usable as int,
                        total as int,
                    );
                }
            }
            assert(w as int * usable as int <= u32::MAX as int * 56) by (nonlinear_arith)
                requires
                    w <= u32::MAX,
                    usable <= 56,
            ;
            ((w as u128 * usable as u128) / total) as usize
        };
        assert(share <= usable);
        let width = if share < MIN_COLUMN_WIDTH {
            MIN_COLUMN_WIDTH
        } else {
            share
        };
        proof {
            assert(base.take(j + 1).drop_last() =~= base.take(j as int));
            assert(width as int == base[j as int]);
            assert((j + 1) * ROW_MAX_WIDTH == j * ROW_MAX_WIDTH + ROW_MAX_WIDTH) by (nonlinear_arith);
            assert(rownum_width + n + (j + 1) * ROW_MAX_WIDTH <= 56 + 57 * 56) by (nonlinear_arith)
                requires
                    rownum_width + n <= 56,
                    j + 1 <= n,
            ;
        }
        widths.push(width);
        used = used + width;
        j = j + 1;
    }
    proof {
        assert(base.take(n as int) =~= base);
    }

    let ghost spare = spare_width(ws, rownum_width as nat);
    let mut extra: usize = if used < ROW_MAX_WIDTH {
        ROW_MAX_WIDTH - used
    } else {
        0
    };
    let mut i: usize = 1;
    let ghost mut q: int = 0;
    let ghost mut rem: int = 0;
    proof {
        lemma_width_sum_base(widths@, base, rownum_width);
    }
    while extra > 0
        invariant
            n == ws.len() >= 1,
            n <= ROW_MAX_WIDTH,
            spare <= ROW_MAX_WIDTH,
            forall|k: int| 0 <= k < n ==> MIN_COLUMN_WIDTH <= #[trigger] base[k],
            ws == weights@,
            base == base_widths(ws, rownum_width as nat),
            spare == spare_width(ws, rownum_width as nat),
            widths@.len() == n + 1,
            widths@[0] == rownum_width,
            1 <= i <= n,
            i == rem + 1,
            0 <= rem < n,
            0 <= q <= q * n + rem,
            spare > 0 ==> q * n + rem + extra == spare,
            spare <= 0 ==> extra == 0 && q == 0 && rem == 0,
            forall|k: int|
                0 <= k < n ==> widths@[k + 1] as int == #[trigger] base[k] + q + if k < rem {
                    1int
                } else {
                    0int
                },
            forall|k: int| 0 <= k < n ==> base[k] <= ROW_MAX_WIDTH,
            spare >= 0 ==> width_sum(widths@) + n + extra == ROW_MAX_WIDTH,
        decreases extra,
    {
        proof {
            assert(widths@[(i - 1) + 1] as int == base[i - 1] + q + if i - 1 < rem {
                1int
            } else {
                0int
            });
            assert(base[i - 1] <= ROW_MAX_WIDTH);
            lemma_width_sum_update(widths@, i as int, (widths@[i as int] + 1) as usize);
        }
        widths.set(i, widths[i] + 1);
        extra = extra - 1;
        i = i + 1;
        proof {
            if rem + 1 < n {
                rem = rem + 1;
            } else {
                q = q + 1;
                rem = 0;
                assert(q * n + 0 == (q - 1) * n + n) by (nonlinear_arith);
            }
        }
        if i >= widths.len() {
            i = 1;
        }
    }
    proof {
        if spare > 0 {
            vstd::arithmetic::div_mod::lemma_fundamental_div_mod_converse(
                spare,
                n as int,
                q,
                rem,
            );
        }
        assert forall|k: int| 0 <= k < widths@.len() implies widths@[k] as int
            == #[trigger] column_widths(ws, rownum_width as nat)[k] by {
            if k > 0 {
                assert(MIN_COLUMN_WIDTH <= base[k - 1]);
                assert(widths@[(k - 1) + 1] as int == base[k - 1] + q + if k - 1 < rem {
                    1int
                } else {
                    0int
                });
            }
        }
    }
    proof {
        assert forall|k: int| 1 <= k < widths@.len() implies #[trigger] widths@[k]
            >= MIN_COLUMN_WIDTH by {
            assert(MIN_COLUMN_WIDTH <= base[k - 1]);
            assert(widths@[(k - 1) + 1] as int == base[k - 1] + q + if k - 1 < rem {
                1int
            } else {
                0int
            });
        }
    }
    widths
}

} // verus!
