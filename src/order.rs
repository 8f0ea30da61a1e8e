//! Lexicographic order on text, by code point, and sorting by it.

use vstd::prelude::*;
use crate::text::views;

verus! {

broadcast use vstd::seq_lib::to_multiset_insert;

/// `a` comes no later than `b`: compared character by character by code
/// point, a proper prefix first. On valid UTF-8 this is the byte order that
/// `str` compares by.
pub open spec fn lex_le(a: Seq<char>, b: Seq<char>) -> bool
    decreases a.len(),
{
    if a.len() == 0 {
        true
    } else if b.len() == 0 {
        false
    } else if a[0] != b[0] {
        (a[0] as u32) < (b[0] as u32)
    } else {
        lex_le(a.drop_first(), b.drop_first())
    }
}

/// Every text comes no later than those after it.
pub open spec fn sorted_texts(s: Seq<Seq<char>>) -> bool {
    forall|i: int, j: int| 0 <= i < j < s.len() ==> lex_le(#[trigger] s[i], #[trigger] s[j])
}

pub proof fn lemma_lex_total(a: Seq<char>, b: Seq<char>)
    ensures
        lex_le(a, b) || lex_le(b, a),
    decreases a.len(),
{
    if a.len() > 0 && b.len() > 0 {
        if a[0] == b[0] {
            lemma_lex_total(a.drop_first(), b.drop_first());
        } else {
            vstd::utf8::char_u32_cast(a[0], a[0] as u32);
            vstd::utf8::char_u32_cast(b[0], b[0] as u32);
        }
    }
}

pub proof fn lemma_lex_trans(a: Seq<char>, b: Seq<char>, c: Seq<char>)
    requires
        lex_le(a, b),
        lex_le(b, c),
    ensures
        lex_le(a, c),
    decreases a.len(),
{
    if a.len() > 0 && b.len() > 0 && c.len() > 0 && a[0] == b[0] && b[0] == c[0] {
        lemma_lex_trans(a.drop_first(), b.drop_first(), c.drop_first());
    }
}

/// Whether `a` comes no later than `b`.
pub fn text_le(a: &str, b: &str) -> (r: bool)
    ensures
        r == lex_le(a@, b@),
{
    let na = a.unicode_len();
    let nb = b.unicode_len();
    let mut i: usize = 0;
    proof {
        assert(a@.skip(0) =~= a@);
        assert(b@.skip(0) =~= b@);
    }
    loop
        invariant
            i <= na == a@.len(),
            i <= nb == b@.len(),
            lex_le(a@, b@) == lex_le(a@.skip(i as int), b@.skip(i as int)),
        decreases na - i,
    {
        if i == na {
            return true;
        }
        if i == nb {
            return false;
        }
        let ca = a.get_char(i);
        let cb = b.get_char(i);
        proof {
            assert(a@.skip(i as int)[0] == ca);
            assert(b@.skip(i as int)[0] == cb);
            assert(a@.skip(i as int).drop_first() =~= a@.skip(i + 1));
            assert(b@.skip(i as int).drop_first() =~= b@.skip(i + 1));
        }
        if ca != cb {
            return (ca as u32) < (cb as u32);
        }
        i = i + 1;
    }
}

/// `v` sorted by [`lex_le`].
pub fn sort_texts(v: Vec<String>) -> (r: Vec<String>)
    ensures
        sorted_texts(views(r@)),
        views(r@).to_multiset() == views(v@).to_multiset(),
{
    let mut out: Vec<String> = Vec::new();
    let mut i: usize = 0;
    proof {
        assert(views(out@) =~= views(v@).take(0));
    }
    while i < v.len()
        invariant
            i <= v@.len(),
            sorted_texts(views(out@)),
            views(out@).to_multiset() == views(v@).take(i as int).to_multiset(),
        decreases v@.len() - i,
    {
        let x = v[i].clone();
        let mut pos = out.len();
        while pos > 0 && !text_le(out[pos - 1].as_str(), x.as_str())
            invariant
                pos <= out@.len(),
                forall|j: int| pos <= j < out@.len() ==> !lex_le(#[trigger] out@[j]@, x@),
            decreases pos,
        {
            pos = pos - 1;
        }
        let ghost before = views(out@);
        proof {
            assert forall|a: int, b: int|
                0 <= a < b < before.len() + 1 implies lex_le(
                #[trigger] before.insert(pos as int, x@)[a],
                #[trigger] before.insert(pos as int, x@)[b],
            ) by {
                let s = before.insert(pos as int, x@);
                if b < pos {
                    assert(lex_le(before[a], before[b]));
                } else if b == pos {
                    assert(lex_le(before[pos - 1], x@));
                    if a < pos - 1 {
                        assert(lex_le(before[a], before[pos - 1]));
                        lemma_lex_trans(before[a], before[pos - 1], x@);
                    }
                } else if a == pos {
                    lemma_lex_total(before[b - 1], x@);
                } else if a < pos {
                    assert(lex_le(before[a], before[b - 1]));
                } else {
                    assert(lex_le(before[a - 1], before[b - 1]));
                }
            }
        }
        out.insert(pos, x);
        i = i + 1;
        proof {
            assert(views(out@) =~= before.insert(pos as int, v@[i - 1]@));
            assert(views(v@).take(i as int) =~= views(v@).take(i - 1).push(v@[i - 1]@));
            vstd::seq_lib::to_multiset_build(views(v@).take(i - 1), v@[i - 1]@);
        }
    }
    proof {
        assert(views(v@).take(i as int) =~= views(v@));
    }
    out
}

/// The character sequences of a sequence of pairs of strings.
pub open spec fn pair_views(v: Seq<(String, String)>) -> Seq<(Seq<char>, Seq<char>)> {
    v.map_values(|p: (String, String)| (p.0@, p.1@))
}

/// The first strings of a sequence of pairs.
pub open spec fn labels(v: Seq<(Seq<char>, Seq<char>)>) -> Seq<Seq<char>> {
    v.map_values(|p: (Seq<char>, Seq<char>)| p.0)
}

/// `v` sorted by [`lex_le`] on the first string of each pair.
pub fn sort_by_label(v: Vec<(String, String)>) -> (r: Vec<(String, String)>)
    ensures
        sorted_texts(labels(pair_views(r@))),
        pair_views(r@).to_multiset() == pair_views(v@).to_multiset(),
{
    let mut out: Vec<(String, String)> = Vec::new();
    let mut i: usize = 0;
    proof {
        assert(pair_views(out@) =~= pair_views(v@).take(0));
    }
    while i < v.len()
        invariant
            i <= v@.len(),
            sorted_texts(labels(pair_views(out@))),
            pair_views(out@).to_multiset() == pair_views(v@).take(i as int).to_multiset(),
        decreases v@.len() - i,
    {
        let x = (v[i].0.clone(), v[i].1.clone());
        let mut pos = out.len();
        while pos > 0 && !text_le(out[pos - 1].0.as_str(), x.0.as_str())
            invariant
                pos <= out@.len(),
                forall|j: int| pos <= j < out@.len() ==> !lex_le(#[trigger] out@[j].0@, x.0@),
            decreases pos,
        {
            pos = pos - 1;
        }
        let ghost before = pair_views(out@);
        let ghost ls = labels(before);
        proof {
            assert forall|a: int, b: int|
                0 <= a < b < ls.len() + 1 implies lex_le(
                #[trigger] ls.insert(pos as int, x.0@)[a],
                #[trigger] ls.insert(pos as int, x.0@)[b],
            ) by {
                if b < pos {
                    assert(lex_le(ls[a], ls[b]));
                } else if b == pos {
                    assert(ls[pos - 1] == out@[pos - 1].0@);
                    assert(lex_le(ls[pos - 1], x.0@));
                    if a < pos - 1 {
                        assert(lex_le(ls[a], ls[pos - 1]));
                        lemma_lex_trans(ls[a], ls[pos - 1], x.0@);
                    }
                } else if a == pos {
                    assert(ls[b - 1] == out@[b - 1].0@);
                    lemma_lex_total(ls[b - 1], x.0@);
                } else if a < pos {
                    assert(lex_le(ls[a], ls[b - 1]));
                } else {
                    assert(lex_le(ls[a - 1], ls[b - 1]));
                }
            }
        }
        out.insert(pos, x);
        i = i + 1;
        proof {
            let xv = (v@[i - 1].0@, v@[i - 1].1@);
            assert(pair_views(out@) =~= before.insert(pos as int, xv));
            assert(labels(pair_views(out@)) =~= ls.insert(pos as int, x.0@));
            assert(pair_views(v@).take(i as int) =~= pair_views(v@).take(i - 1).push(xv));
            vstd::seq_lib::to_multiset_build(pair_views(v@).take(i - 1), xv);
        }
    }
    proof {
        assert(pair_views(v@).take(i as int) =~= pair_views(v@));
    }
    out
}

} // verus!
