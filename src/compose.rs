//! Packs several text fields into one label of bounded byte length, by
//! repeatedly shortening whichever field is currently the longest.

use vstd::prelude::*;
use crate::text::{
    byte_len, ellipsis, joined, longest_fit, views, lemma_byte_len_concat, lemma_byte_len_single,
    text_len, longest_prefix, join_with, ELLIPSIS, ELLIPSIS_LEN,
};

verus! {

/// The most choices an autocomplete answer may offer.
pub const AUTOCOMPLETE_MAX_CHOICES: usize = 25;

/// The most bytes an autocomplete label may hold.
pub const AUTOCOMPLETE_MAX_LENGTH: usize = 100;

/// What stands between two fields of a label.
pub const AUTOCOMPLETE_SEPARATOR: &'static str = " | ";

/// The length of [`AUTOCOMPLETE_SEPARATOR`] in bytes.
pub const AUTOCOMPLETE_SEPARATOR_LEN: usize = 3;

/// The separator as a sequence of characters.
pub open spec fn separator() -> Seq<char> {
    seq![' ', '|', ' ']
}

/// The byte lengths of `fs` added up.
pub open spec fn total_bytes(fs: Seq<Seq<char>>) -> nat
    decreases fs.len(),
{
    if fs.len() == 0 {
        0
    } else {
        total_bytes(fs.drop_last()) + byte_len(fs.last())
    }
}

/// The bytes left to the content of `n` fields once room for their
/// separators is set aside; none when the separators alone fill the label.
pub open spec fn content_budget(n: nat) -> nat {
    if AUTOCOMPLETE_SEPARATOR_LEN * n <= AUTOCOMPLETE_MAX_LENGTH {
        (AUTOCOMPLETE_MAX_LENGTH + 1 - AUTOCOMPLETE_SEPARATOR_LEN * n) as nat
    } else {
        0
    }
}

/// The byte length of each field.
pub open spec fn field_lens(fs: Seq<Seq<char>>) -> Seq<int> {
    fs.map_values(|f: Seq<char>| byte_len(f) as int)
}

/// The index of the first greatest value of `ls`.
pub open spec fn first_longest(ls: Seq<int>) -> int
    decreases ls.len(),
{
    if ls.len() <= 1 {
        0
    } else {
        let k = first_longest(ls.drop_last());
        if ls.last() > ls[k] {
            ls.len() - 1
        } else {
            k
        }
    }
}

/// Field `f` shortened for an overrun of `excess` bytes: at most `excess`
/// bytes are taken off, room is made for the ellipsis, the cut falls on a
/// character boundary and the ellipsis marks it.
pub open spec fn shortened(f: Seq<char>, excess: nat) -> Seq<char> {
    let l = byte_len(f);
    let chop = if excess < l {
        excess
    } else {
        l
    };
    let rest = (l - chop) as nat;
    let keep = if rest > ELLIPSIS_LEN {
        (rest - ELLIPSIS_LEN) as nat
    } else {
        0
    };
    f.take(longest_fit(f, keep) as int) + ellipsis()
}

/// Whether the fields overrun `budget` and the longest of them can still
/// lose bytes beside an ellipsis.
pub open spec fn can_shorten(fs: Seq<Seq<char>>, budget: nat) -> bool {
    &&& fs.len() > 0
    &&& total_bytes(fs) > budget
    &&& byte_len(fs[first_longest(field_lens(fs))]) > ELLIPSIS_LEN
}

/// One round: the first longest field is shortened by the current overrun.
pub open spec fn compose_step(fs: Seq<Seq<char>>, budget: nat) -> Seq<Seq<char>> {
    let k = first_longest(field_lens(fs));
    fs.update(k, shortened(fs[k], (total_bytes(fs) - budget) as nat))
}

/// The fields after as many rounds as it takes to fit in `budget`, or until
/// the longest field is no longer than the ellipsis.
pub open spec fn composed(fs: Seq<Seq<char>>, budget: nat) -> Seq<Seq<char>>
    decreases total_bytes(fs),
    via composed_decreases
{
    if can_shorten(fs, budget) {
        composed(compose_step(fs, budget), budget)
    } else {
        fs
    }
}

#[via_fn]
proof fn composed_decreases(fs: Seq<Seq<char>>, budget: nat) {
    if can_shorten(fs, budget) {
        lemma_step_shrinks(fs, budget);
    }
}

/// The label that [`build_autocomplete_display`] makes of `fs`.
pub open spec fn display_of(fs: Seq<Seq<char>>) -> Seq<char> {
    joined(composed(fs, content_budget(fs.len())), separator())
}

pub proof fn lemma_first_longest(ls: Seq<int>)
    requires
        ls.len() > 0,
    ensures
        0 <= first_longest(ls) < ls.len(),
        forall|j: int| 0 <= j < ls.len() ==> #[trigger] ls[j] <= ls[first_longest(ls)],
        forall|j: int| 0 <= j < first_longest(ls) ==> #[trigger] ls[j] < ls[first_longest(ls)],
    decreases ls.len(),
{
    if ls.len() > 1 {
        let d = ls.drop_last();
        lemma_first_longest(d);
        assert forall|j: int| 0 <= j < d.len() implies d[j] == ls[j] by {}
    }
}

pub proof fn lemma_total_bytes_update(fs: Seq<Seq<char>>, k: int, g: Seq<char>)
    requires
        0 <= k < fs.len(),
    ensures
        total_bytes(fs.update(k, g)) + byte_len(fs[k]) == total_bytes(fs) + byte_len(g),
    decreases fs.len(),
{
    if k == fs.len() - 1 {
        assert(fs.update(k, g).drop_last() =~= fs.drop_last());
    } else {
        assert(fs.update(k, g).drop_last() =~= fs.drop_last().update(k, g));
        lemma_total_bytes_update(fs.drop_last(), k, g);
    }
}

pub proof fn lemma_shortened_len(f: Seq<char>, excess: nat)
    requires
        byte_len(f) > ELLIPSIS_LEN,
        excess >= 1,
    ensures
        byte_len(shortened(f, excess)) < byte_len(f),
{
    let l = byte_len(f);
    let chop = if excess < l {
        excess
    } else {
        l
    };
    let rest = (l - chop) as nat;
    let keep = if rest > ELLIPSIS_LEN {
        (rest - ELLIPSIS_LEN) as nat
    } else {
        0
    };
    crate::text::lemma_longest_fit(f, keep);
    lemma_byte_len_concat(f.take(longest_fit(f, keep) as int), ellipsis());
    lemma_byte_len_single('\u{2026}');
}

pub proof fn lemma_step_shrinks(fs: Seq<Seq<char>>, budget: nat)
    requires
        can_shorten(fs, budget),
    ensures
        total_bytes(compose_step(fs, budget)) < total_bytes(fs),
{
    let ls = field_lens(fs);
    lemma_first_longest(ls);
    let k = first_longest(ls);
    let g = shortened(fs[k], (total_bytes(fs) - budget) as nat);
    lemma_shortened_len(fs[k], (total_bytes(fs) - budget) as nat);
    lemma_total_bytes_update(fs, k, g);
}

pub proof fn lemma_composed(fs: Seq<Seq<char>>, budget: nat)
    ensures
        composed(fs, budget).len() == fs.len(),
        !can_shorten(composed(fs, budget), budget),
    decreases total_bytes(fs),
{
    if can_shorten(fs, budget) {
        lemma_first_longest(field_lens(fs));
        lemma_step_shrinks(fs, budget);
        lemma_composed(compose_step(fs, budget), budget);
    }
}

pub proof fn lemma_joined_len(parts: Seq<Seq<char>>, sep: Seq<char>)
    requires
        parts.len() > 0,
    ensures
        byte_len(joined(parts, sep)) == total_bytes(parts) + byte_len(sep) * (parts.len() - 1),
    decreases parts.len(),
{
    if parts.len() == 1 {
        assert(parts.drop_last() =~= Seq::<Seq<char>>::empty());
        assert(total_bytes(Seq::<Seq<char>>::empty()) == 0);
        assert(total_bytes(parts) == byte_len(parts[0]));
    } else {
        lemma_joined_len(parts.drop_last(), sep);
        let j = joined(parts.drop_last(), sep);
        lemma_byte_len_concat(j, sep);
        lemma_byte_len_concat(j + sep, parts.last());
        assert(byte_len(sep) * (parts.len() - 1) == byte_len(sep) * (parts.len() - 2) + byte_len(
            sep,
        )) by (nonlinear_arith);
    }
}

pub proof fn lemma_total_bytes_short(fs: Seq<Seq<char>>)
    requires
        forall|i: int| 0 <= i < fs.len() ==> byte_len(#[trigger] fs[i]) <= ELLIPSIS_LEN,
    ensures
        total_bytes(fs) <= ELLIPSIS_LEN * fs.len(),
    decreases fs.len(),
{
    if fs.len() > 0 {
        let d = fs.drop_last();
        assert forall|i: int| 0 <= i < d.len() implies byte_len(#[trigger] d[i]) <= ELLIPSIS_LEN by {
            assert(d[i] == fs[i]);
        }
        lemma_total_bytes_short(d);
    }
}

/// Whatever the fields, a label of at most as many fields as the label has
/// room for an ellipsis and a separator each fits in
/// [`AUTOCOMPLETE_MAX_LENGTH`] bytes.
pub proof fn lemma_display_fits(fs: Seq<Seq<char>>)
    requires
        (ELLIPSIS_LEN + AUTOCOMPLETE_SEPARATOR_LEN) * fs.len() <= AUTOCOMPLETE_MAX_LENGTH,
    ensures
        byte_len(display_of(fs)) <= AUTOCOMPLETE_MAX_LENGTH,
{
    let budget = content_budget(fs.len());
    let c = composed(fs, budget);
    lemma_composed(fs, budget);
    reveal_with_fuel(byte_len, 4);
    assert(byte_len(separator()) == 3) by {
        assert(separator().drop_last() =~= seq![' ', '|']);
        assert(seq![' ', '|'].drop_last() =~= seq![' ']);
        assert(seq![' '].drop_last() =~= Seq::<char>::empty());
    }
    let n = fs.len();
    assert(AUTOCOMPLETE_SEPARATOR_LEN == 3);
    assert(6 * n <= 100);
    assert(3 * n <= 100) by (nonlinear_arith)
        requires
            6 * n <= 100,
    ;
    assert(AUTOCOMPLETE_SEPARATOR_LEN * n == 3 * n);
    assert(budget == 101 - 3 * n);
    assert(display_of(fs) == joined(c, separator()));
    if c.len() == 0 {
        assert(joined(c, separator()) == Seq::<char>::empty());
    } else {
        lemma_joined_len(c, separator());
        assert(byte_len(joined(c, separator())) == total_bytes(c) + 3 * (n - 1));
        if total_bytes(c) > budget {
            let ls = field_lens(c);
            lemma_first_longest(ls);
            assert forall|i: int| 0 <= i < c.len() implies byte_len(#[trigger] c[i])
                <= ELLIPSIS_LEN by {
                assert(ls[i] == byte_len(c[i]));
            }
            lemma_total_bytes_short(c);
            assert(total_bytes(c) <= 3 * n);
            assert(total_bytes(c) + 3 * (n - 1) <= 100) by (nonlinear_arith)
                requires
                    total_bytes(c) <= 3 * n,
                    6 * n <= 100,
                    n >= 1,
            ;
        } else {
            assert(total_bytes(c) + 3 * (n - 1) <= 98);
        }
    }
}

/// The index of the first greatest length in `lens`.
fn longest_index(lens: &Vec<usize>) -> (k: usize)
    requires
        lens@.len() > 0,
    ensures
        k == first_longest(lens@.map_values(|l: usize| l as int)),
        k < lens@.len(),
{
    let ghost ls = lens@.map_values(|l: usize| l as int);
    let mut best: usize = 0;
    let mut i: usize = 1;
    while i < lens.len()
        invariant
            1 <= i <= lens@.len(),
            ls == lens@.map_values(|l: usize| l as int),
            best < i,
            best == first_longest(ls.take(i as int)),
        decreases lens@.len() - i,
    {
        proof {
            assert(ls.take(i + 1).drop_last() =~= ls.take(i as int));
        }
        if lens[i] > lens[best] {
            best = i;
        }
        i = i + 1;
    }
    proof {
        assert(ls.take(i as int) =~= ls);
    }
    best
}

/// Joins `to_display` with the separator into one label. While the fields
/// overrun the bytes left to them by the separators, the first longest field
/// is cut by the overrun (never below a character boundary) and marked with
/// the ellipsis; this stops once they fit or the longest field is no longer
/// than the ellipsis.
pub fn build_autocomplete_display(to_display: Vec<String>) -> (r: String)
    ensures
        r@ == display_of(views(to_display@)),
{
    let mut fields = to_display;
    let n = fields.len();
    let budget: usize = if n <= AUTOCOMPLETE_MAX_LENGTH / AUTOCOMPLETE_SEPARATOR_LEN {
        AUTOCOMPLETE_MAX_LENGTH + 1 - AUTOCOMPLETE_SEPARATOR_LEN * n
    } else {
        0
    };
    let ghost orig = views(fields@);
    assert(budget == content_budget(n as nat));

    let mut lens: Vec<usize> = Vec::new();
    let mut total: u128 = 0;
    let mut i: usize = 0;
    while i < n
        invariant
            i <= n == fields@.len(),
            orig == views(fields@),
            lens@.len() == i,
            forall|j: int| 0 <= j < i ==> lens@[j] == byte_len(#[trigger] fields@[j]@),
            total == total_bytes(orig.take(i as int)),
            total <= i * (usize::MAX as int),
        decreases n - i,
    {
        let l = text_len(fields[i].as_str());
        proof {
            assert(orig.take(i + 1).drop_last() =~= orig.take(i as int));
            assert((i + 1) * (usize::MAX as int) <= (usize::MAX as int) * (usize::MAX as int))
                by (nonlinear_arith)
                requires
                    i + 1 <= usize::MAX,
            ;
            assert((usize::MAX as int) * (usize::MAX as int) <= u128::MAX) by (nonlinear_arith)
                requires
                    usize::MAX <= u64::MAX,
            ;
        }
        lens.push(l);
        total = total + l as u128;
        i = i + 1;
    }
    proof {
        assert(orig.take(n as int) =~= orig);
    }

    while total > budget as u128
        invariant
            fields@.len() == n,
            lens@.len() == n,
            forall|j: int| 0 <= j < n ==> lens@[j] == byte_len(#[trigger] fields@[j]@),
            total == total_bytes(views(fields@)),
            composed(views(fields@), budget as nat) == composed(orig, budget as nat),
        ensures
            composed(views(fields@), budget as nat) == composed(orig, budget as nat),
            !can_shorten(views(fields@), budget as nat),
        decreases total,
    {
        let ghost fs = views(fields@);
        proof {
            assert(lens@.map_values(|l: usize| l as int) =~= field_lens(fs));
            if n == 0 {
                assert(fs =~= Seq::<Seq<char>>::empty());
            }
        }
        let k = longest_index(&lens);
        let l = lens[k];
        proof {
            lemma_total_bytes_update(fs, k as int, Seq::empty());
            assert(byte_len(Seq::<char>::empty()) == 0);
        }
        if l <= ELLIPSIS_LEN {
            break;
        }
        let excess: u128 = total - budget as u128;
        let chop: usize = if excess < l as u128 {
            excess as usize
        } else {
            l
        };
        let rest = l - chop;
        let keep = if rest > ELLIPSIS_LEN {
            rest - ELLIPSIS_LEN
        } else {
            0
        };
        let (m, bytes) = longest_prefix(fields[k].as_str(), keep);
        let cut = String::from_str(fields[k].as_str().substring_char(0, m)).concat(
            ELLIPSIS,
        );
        proof {
            reveal_strlit("\u{2026}");
            assert(cut@ == shortened(fs[k as int], (total_bytes(fs) - budget) as nat));
            lemma_byte_len_concat(fs[k as int].take(m as int), ellipsis());
            lemma_byte_len_single('\u{2026}');
            lemma_total_bytes_update(fs, k as int, cut@);
            lemma_shortened_len(fs[k as int], (total_bytes(fs) - budget) as nat);
        }
        fields.set(k, cut);
        lens.set(k, bytes + ELLIPSIS_LEN);
        total = total - l as u128 + (bytes + ELLIPSIS_LEN) as u128;
        proof {
            assert(views(fields@) =~= compose_step(fs, budget as nat));
        }
    }
    proof {
        reveal_strlit(" | ");
        assert(AUTOCOMPLETE_SEPARATOR@ =~= separator());
    }
    join_with(&fields, AUTOCOMPLETE_SEPARATOR)
}

} // verus!
