//! Case-insensitive candidate filtering for autocomplete.

use vstd::prelude::*;
use crate::text::{trimmed, views, lightweight_trim};
use crate::order::{sorted_texts, sort_texts, sort_by_label, labels, pair_views};
use crate::compose::{AUTOCOMPLETE_MAX_LENGTH, build_autocomplete_display, display_of};

verus! {

/// What `str::to_lowercase` makes of a text.
pub uninterp spec fn lower_of(s: Seq<char>) -> Seq<char>;

/// Relies on `str::to_lowercase`: the lowercase form of `s`, which depends
/// on the characters of `s` alone.
#[verifier::external_body]
fn lowercase(s: &str) -> (r: String)
    ensures
        r@ == lower_of(s@),
{
    s.to_lowercase()
}

/// Whether `needle` occurs in `hay` as a run of consecutive characters.
pub open spec fn occurs_in(needle: Seq<char>, hay: Seq<char>) -> bool {
    exists|i: int|
        0 <= i && i + needle.len() <= hay.len() && #[trigger] hay.subrange(i, i + needle.len())
            == needle
}

/// Whether `needle` occurs in `hay`.
pub fn contains_text(hay: &str, needle: &str) -> (r: bool)
    ensures
        r == occurs_in(needle@, hay@),
{
    let nh = hay.unicode_len();
    let nn = needle.unicode_len();
    if nn > nh {
        proof {
            assert forall|i: int| 0 <= i && i + needle@.len() <= hay@.len() implies #[trigger] hay@.subrange(
                i,
                i + needle@.len(),
            ) != needle@ by {}
        }
        return false;
    }
    let mut start: usize = 0;
    loop
        invariant
            nn <= nh,
            start <= nh - nn,
            nh == hay@.len(),
            nn == needle@.len(),
            forall|i: int| 0 <= i < start ==> #[trigger] hay@.subrange(i, i + nn) != needle@,
        decreases nh - nn - start,
    {
        let mut j: usize = 0;
        let mut same = true;
        while j < nn
            invariant
                j <= nn,
                start + nn <= nh,
                nh == hay@.len(),
                nn == needle@.len(),
                same == (forall|t: int| 0 <= t < j ==> hay@[start + t] == needle@[t]),
            decreases nn - j,
        {
            let a = hay.get_char(start + j);
            let b = needle.get_char(j);
            same = same && a == b;
            j = j + 1;
        }
        if same {
            proof {
                assert(hay@.subrange(start as int, start + nn) =~= needle@);
            }
            return true;
        }
        proof {
            let t = choose|t: int| 0 <= t < nn && hay@[start + t] != needle@[t];
            assert(hay@.subrange(start as int, start + nn)[t] != needle@[t]);
        }
        if start == nh - nn {
            proof {
                assert forall|i: int| 0 <= i && i + needle@.len() <= hay@.len() implies #[trigger] hay@.subrange(
                    i,
                    i + needle@.len(),
                ) != needle@ by {
                    assert(i <= start);
                }
            }
            return false;
        }
        start = start + 1;
    }
}

pub proof fn lemma_contains_push(s: Seq<Seq<char>>, x: Seq<char>, d: Seq<char>)
    ensures
        s.push(x).contains(d) == (s.contains(d) || x == d),
{
    if s.contains(d) {
        let i = choose|i: int| 0 <= i < s.len() && s[i] == d;
        assert(s.push(x)[i] == d);
    }
    if x == d {
        assert(s.push(x)[s.len() as int] == d);
    }
    if s.push(x).contains(d) {
        let i = choose|i: int| 0 <= i < s.push(x).len() && s.push(x)[i] == d;
        if i < s.len() {
            assert(s[i] == d);
        }
    }
}

/// Whether a candidate, in lowercase form `folded`, answers `needle`: an
/// empty needle answers everything.
pub open spec fn accepts(needle: Seq<char>, folded: Seq<char>) -> bool {
    needle.len() == 0 || occurs_in(needle, folded)
}

/// The distinct labels taken, in order of first appearance, from candidates
/// given as (label, lowercase form) pairs: a label is taken when it answers
/// `needle` and fewer than `max` were taken before it.
pub open spec fn chosen(
    needle: Seq<char>,
    cands: Seq<(Seq<char>, Seq<char>)>,
    max: nat,
) -> Seq<Seq<char>>
    decreases cands.len(),
{
    if cands.len() == 0 {
        Seq::empty()
    } else {
        let before = chosen(needle, cands.drop_last(), max);
        let c = cands.last();
        if before.len() < max && accepts(needle, c.1) && !before.contains(c.0) {
            before.push(c.0)
        } else {
            before
        }
    }
}

/// The character sequences of (label, lowercase form) pairs.
pub open spec fn cand_views(v: Seq<(String, String)>) -> Seq<(Seq<char>, Seq<char>)> {
    v.map_values(|p: (String, String)| (p.0@, p.1@))
}

/// Filters candidates given with their lowercase forms against a needle
/// already in lowercase: the distinct labels of the first matches, at most
/// `max_choices` of them, sorted.
pub fn filter_folded(
    needle: &str,
    candidates: &Vec<(String, String)>,
    max_choices: usize,
) -> (r: Vec<String>)
    ensures
        sorted_texts(views(r@)),
        views(r@).to_multiset() == chosen(needle@, cand_views(candidates@), max_choices as nat).to_multiset(),
{
    let ghost cs = cand_views(candidates@);
    let mut picked: Vec<String> = Vec::new();
    let mut i: usize = 0;
    let empty_needle = needle.is_empty();
    proof {
        assert(cs.take(0) =~= Seq::<(Seq<char>, Seq<char>)>::empty());
        assert(views(picked@) =~= Seq::<Seq<char>>::empty());
    }
    while i < candidates.len()
        invariant
            i <= candidates@.len(),
            cs == cand_views(candidates@),
            empty_needle == (needle@.len() == 0),
            views(picked@) == chosen(needle@, cs.take(i as int), max_choices as nat),
        decreases candidates@.len() - i,
    {
        let display = &candidates[i].0;
        let folded = &candidates[i].1;
        proof {
            assert(cs.take(i + 1).drop_last() =~= cs.take(i as int));
            assert(cs.take(i + 1).last() == (display@, folded@));
        }
        if picked.len() < max_choices && (empty_needle || contains_text(folded.as_str(), needle)) {
            let mut seen = false;
            let mut k: usize = 0;
            while k < picked.len()
                invariant
                    k <= picked@.len(),
                    seen == views(picked@).take(k as int).contains(display@),
                decreases picked@.len() - k,
            {
                proof {
                    assert(views(picked@).take(k + 1) =~= views(picked@).take(k as int).push(
                        picked@[k as int]@,
                    ));
                    lemma_contains_push(
                        views(picked@).take(k as int),
                        picked@[k as int]@,
                        display@,
                    );
                }
                seen = seen || picked[k] == *display;
                k = k + 1;
            }
            proof {
                assert(views(picked@).take(k as int) =~= views(picked@));
            }
            if !seen {
                let ghost before = views(picked@);
                picked.push(display.clone());
                proof {
                    assert(views(picked@) =~= before.push(display@));
                }
            }
        }
        i = i + 1;
    }
    proof {
        assert(cs.take(i as int) =~= cs);
    }
    sort_texts(picked)
}

/// The autocomplete labels for a partial input: each candidate is trimmed to
/// an autocomplete label, compared in lowercase against the lowercase input,
/// and the distinct matches, at most `max_choices` of them taken in order,
/// come back sorted.
pub fn fuzzy_filter(partial: &str, candidates: &Vec<String>, max_choices: usize) -> (r: Vec<String>)
    ensures
        sorted_texts(views(r@)),
        views(r@).to_multiset() == chosen(
            lower_of(partial@),
            Seq::new(
                candidates@.len(),
                |i: int|
                    (
                        trimmed(candidates@[i]@, AUTOCOMPLETE_MAX_LENGTH as nat),
                        lower_of(trimmed(candidates@[i]@, AUTOCOMPLETE_MAX_LENGTH as nat)),
                    ),
            ),
            max_choices as nat,
        ).to_multiset(),
{
    let needle = lowercase(partial);
    let ghost want = Seq::new(
        candidates@.len(),
        |i: int|
            (
                trimmed(candidates@[i]@, AUTOCOMPLETE_MAX_LENGTH as nat),
                lower_of(trimmed(candidates@[i]@, AUTOCOMPLETE_MAX_LENGTH as nat)),
            ),
    );
    let mut pairs: Vec<(String, String)> = Vec::new();
    let mut i: usize = 0;
    while i < candidates.len()
        invariant
            i <= candidates@.len(),
            want == Seq::new(
                candidates@.len(),
                |i: int|
                    (
                        trimmed(candidates@[i]@, AUTOCOMPLETE_MAX_LENGTH as nat),
                        lower_of(trimmed(candidates@[i]@, AUTOCOMPLETE_MAX_LENGTH as nat)),
                    ),
            ),
            cand_views(pairs@) == want.take(i as int),
        decreases candidates@.len() - i,
    {
        let display = lightweight_trim(candidates[i].clone(), AUTOCOMPLETE_MAX_LENGTH);
        let folded = lowercase(display.as_str());
        let ghost before = cand_views(pairs@);
        let ghost entry = (display@, folded@);
        proof {
            assert(entry == want[i as int]);
        }
        pairs.push((display, folded));
        i = i + 1;
        proof {
            assert(cand_views(pairs@) =~= before.push(entry));
            assert(cand_views(pairs@) =~= want.take(i as int));
        }
    }
    proof {
        assert(want.take(i as int) =~= want);
    }
    filter_folded(needle.as_str(), &pairs, max_choices)
}

/// Shown for a track that carries no tag.
pub const NO_TAGS: &'static str = "No tags";

/// One track as the autocomplete lookup returns it.
pub struct TrackRow {
    pub id: String,
    pub title: String,
    pub artist: String,
    pub origin: String,
    /// The track's tags joined into one text, if it has any.
    pub tags: Option<String>,
}

/// The fields shown for a track: title, artist, origin and tags.
pub open spec fn track_fields(r: TrackRow) -> Seq<Seq<char>> {
    let tags = match r.tags {
        Some(t) => t@,
        None => seq!['N', 'o', ' ', 't', 'a', 'g', 's'],
    };
    seq![r.title@, r.artist@, r.origin@, tags]
}

/// A track's autocomplete choice: its label and its identifier.
pub open spec fn track_choice(r: TrackRow) -> (Seq<char>, Seq<char>) {
    (display_of(track_fields(r)), r.id@)
}

/// The autocomplete choices for `rows`: each track's label, made of its
/// fields, paired with its identifier, sorted by label.
pub fn track_choices(rows: Vec<TrackRow>) -> (r: Vec<(String, String)>)
    ensures
        sorted_texts(labels(pair_views(r@))),
        pair_views(r@).to_multiset() == rows@.map_values(|t: TrackRow| track_choice(t)).to_multiset(),
{
    let ghost want = rows@.map_values(|t: TrackRow| track_choice(t));
    let mut out: Vec<(String, String)> = Vec::new();
    let mut i: usize = 0;
    while i < rows.len()
        invariant
            i <= rows@.len(),
            want == rows@.map_values(|t: TrackRow| track_choice(t)),
            pair_views(out@) == want.take(i as int),
        decreases rows@.len() - i,
    {
        let row = &rows[i];
        let tags = match &row.tags {
            Some(t) => t.clone(),
            None => {
                proof {
                    reveal_strlit("No tags");
                    assert(NO_TAGS@ =~= seq!['N', 'o', ' ', 't', 'a', 'g', 's']);
                }
                String::from_str(NO_TAGS)
            },
        };
        let mut fields: Vec<String> = Vec::new();
        fields.push(row.title.clone());
        fields.push(row.artist.clone());
        fields.push(row.origin.clone());
        fields.push(tags);
        proof {
            assert(tags@ == track_fields(*row)[3]);
            assert(views(fields@) =~= track_fields(*row));
        }
        let display = build_autocomplete_display(fields);
        let id = row.id.clone();
        let ghost entry = (display@, id@);
        let ghost before = pair_views(out@);
        out.push((display, id));
        i = i + 1;
        proof {
            assert(entry == want[i - 1]);
            assert(pair_views(out@) =~= before.push(entry));
            assert(pair_views(out@) =~= want.take(i as int));
        }
    }
    proof {
        assert(want.take(i as int) =~= want);
    }
    sort_by_label(out)
}

} // verus!
