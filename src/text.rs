//! Text measured in UTF-8 bytes: truncation with an ellipsis and padding.

use vstd::prelude::*;

verus! {

/// The marker appended to text that was cut short.
pub const ELLIPSIS: &'static str = "\u{2026}";

/// The length of [`ELLIPSIS`] in bytes.
pub const ELLIPSIS_LEN: usize = 3;

/// The ellipsis as a sequence of characters.
pub open spec fn ellipsis() -> Seq<char> {
    seq!['\u{2026}']
}

/// The number of bytes in the UTF-8 encoding of `c`.
pub open spec fn char_width(c: char) -> nat {
    let v = c as u32;
    if v <= 0x7f {
        1
    } else if v <= 0x7ff {
        2
    } else if v <= 0xffff {
        3
    } else {
        4
    }
}

/// The number of bytes in the UTF-8 encoding of `s`.
pub open spec fn byte_len(s: Seq<char>) -> nat
    decreases s.len(),
{
    if s.len() == 0 {
        0
    } else {
        byte_len(s.drop_last()) + char_width(s.last())
    }
}

/// The number of characters of the longest prefix of `s` that fits in `limit` bytes.
pub open spec fn longest_fit(s: Seq<char>, limit: nat) -> nat
    decreases s.len(),
{
    if byte_len(s) <= limit || s.len() == 0 {
        s.len()
    } else {
        longest_fit(s.drop_last(), limit)
    }
}

/// What [`lightweight_trim`] makes of `s`: `s` itself when it fits in
/// `max_width` bytes, otherwise its longest prefix that leaves room for the
/// ellipsis, followed by the ellipsis; the ellipsis alone when `max_width`
/// leaves no room for any content.
pub open spec fn trimmed(s: Seq<char>, max_width: nat) -> Seq<char> {
    if max_width <= ELLIPSIS_LEN {
        ellipsis()
    } else if byte_len(s) <= max_width {
        s
    } else {
        s.take(longest_fit(s, (max_width - ELLIPSIS_LEN) as nat) as int) + ellipsis()
    }
}

pub proof fn lemma_byte_len_concat(a: Seq<char>, b: Seq<char>)
    ensures
        byte_len(a + b) == byte_len(a) + byte_len(b),
    decreases b.len(),
{
    if b.len() == 0 {
        assert(a + b =~= a);
    } else {
        assert((a + b).drop_last() =~= a + b.drop_last());
        lemma_byte_len_concat(a, b.drop_last());
    }
}

pub proof fn lemma_byte_len_take_step(s: Seq<char>, k: int)
    requires
        0 <= k < s.len(),
    ensures
        byte_len(s.take(k + 1)) == byte_len(s.take(k)) + char_width(s[k]),
{
    assert(s.take(k + 1).drop_last() =~= s.take(k));
}

pub proof fn lemma_byte_len_single(c: char)
    ensures
        byte_len(seq![c]) == char_width(c),
{
    assert(seq![c].drop_last() =~= Seq::<char>::empty());
    assert(byte_len(Seq::<char>::empty()) == 0);
    assert(seq![c].last() == c);
}

/// `str::len` counts the bytes that [`byte_len`] describes.
pub proof fn lemma_encoded_len(s: Seq<char>)
    ensures
        vstd::utf8::encode_utf8(s).len() == byte_len(s),
    decreases s.len(),
{
    if s.len() > 0 {
        let c = s[0];
        vstd::utf8::char_is_scalar(c);
        assert(vstd::utf8::encode_scalar(c as u32).len() == char_width(c));
        assert(seq![c] + s.drop_first() =~= s);
        lemma_byte_len_concat(seq![c], s.drop_first());
        lemma_byte_len_single(c);
        lemma_encoded_len(s.drop_first());
        assert(vstd::utf8::encode_utf8(s) == vstd::utf8::encode_scalar(c as u32)
            + vstd::utf8::encode_utf8(s.drop_first()));
    }
}

pub proof fn lemma_longest_fit(s: Seq<char>, limit: nat)
    ensures
        longest_fit(s, limit) <= s.len(),
        byte_len(s.take(longest_fit(s, limit) as int)) <= limit,
    decreases s.len(),
{
    if byte_len(s) <= limit || s.len() == 0 {
        assert(s.take(s.len() as int) =~= s);
    } else {
        lemma_longest_fit(s.drop_last(), limit);
        let k = longest_fit(s, limit) as int;
        assert(s.drop_last().take(k) =~= s.take(k));
    }
}

/// The byte length of a string, as `str::len` reports it.
pub fn text_len(s: &str) -> (n: usize)
    ensures
        n == byte_len(s@),
{
    proof {
        lemma_encoded_len(s@);
    }
    s.as_bytes().len()
}

/// The number of bytes in the UTF-8 encoding of `c`.
pub fn char_len(c: char) -> (n: usize)
    ensures
        n == char_width(c),
{
    let v = c as u32;
    if v <= 0x7f {
        1
    } else if v <= 0x7ff {
        2
    } else if v <= 0xffff {
        3
    } else {
        4
    }
}

/// The ellipsis as an owned string.
fn ellipsis_string() -> (r: String)
    ensures
        r@ == ellipsis(),
{
    proof {
        reveal_strlit("\u{2026}");
    }
    String::from_str(ELLIPSIS)
}

/// The number of characters of the longest prefix of `s` that fits in
/// `limit` bytes, and that prefix's length in bytes. The scan walks back from
/// the end of `s`, one whole character at a time.
pub fn longest_prefix(s: &str, limit: usize) -> (r: (usize, usize))
    ensures
        r.0 == longest_fit(s@, limit as nat),
        r.0 <= s@.len(),
        r.1 == byte_len(s@.take(r.0 as int)),
        r.1 <= limit,
{
    let mut k = s.unicode_len();
    let mut acc = text_len(s);
    proof {
        assert(s@.take(k as int) =~= s@);
    }
    while acc > limit
        invariant
            k <= s@.len(),
            acc == byte_len(s@.take(k as int)),
            longest_fit(s@.take(k as int), limit as nat) == longest_fit(s@, limit as nat),
        decreases k,
    {
        proof {
            if k == 0 {
                assert(s@.take(0) =~= Seq::<char>::empty());
            }
            assert(s@.take(k as int).drop_last() =~= s@.take(k - 1));
            lemma_byte_len_take_step(s@, k - 1);
        }
        k = k - 1;
        let c = s.get_char(k);
        acc = acc - char_len(c);
    }
    proof {
        assert(s@.take(k as int).len() == k);
    }
    (k, acc)
}

/// Cuts `choice` to at most `max_width` bytes. Text that fits is returned as
/// it is; longer text keeps as many whole characters as fit in
/// `max_width - ELLIPSIS_LEN` bytes and ends with the ellipsis. A width that
/// leaves no room for content gives the ellipsis alone.
pub fn lightweight_trim(choice: String, max_width: usize) -> (r: String)
    ensures
        r@ == trimmed(choice@, max_width as nat),
{
    if max_width <= ELLIPSIS_LEN {
        return ellipsis_string();
    }
    let total = text_len(choice.as_str());
    if total <= max_width {
        return choice;
    }
    let (k, _) = longest_prefix(choice.as_str(), max_width - ELLIPSIS_LEN);
    let head = choice.as_str().substring_char(0, k);
    String::from_str(head).concat(ellipsis_string().as_str())
}

/// A trimmed text never exceeds the width it was trimmed to, once that width
/// leaves room for at least one byte besides the ellipsis, and it is always
/// valid UTF-8.
pub proof fn lemma_trim_fits(s: Seq<char>, max_width: nat)
    requires
        max_width >= ELLIPSIS_LEN + 1,
    ensures
        byte_len(trimmed(s, max_width)) <= max_width,
        vstd::utf8::valid_utf8(vstd::utf8::encode_utf8(trimmed(s, max_width))),
{
    vstd::utf8::encode_utf8_valid_utf8(trimmed(s, max_width));
    if byte_len(s) > max_width {
        let limit = (max_width - ELLIPSIS_LEN) as nat;
        lemma_longest_fit(s, limit);
        lemma_byte_len_concat(s.take(longest_fit(s, limit) as int), ellipsis());
        lemma_byte_len_single('\u{2026}');
    }
}

/// A width that leaves no room beside the ellipsis gives the ellipsis alone,
/// whatever the text.
pub proof fn lemma_trim_narrow(s: Seq<char>, max_width: nat)
    requires
        max_width <= ELLIPSIS_LEN,
    ensures
        trimmed(s, max_width) == ellipsis(),
{
}

/// `n` spaces.
pub open spec fn spaces(n: nat) -> Seq<char> {
    Seq::new(n, |i: int| ' ')
}

/// `s` followed by spaces up to `width` characters.
pub open spec fn padded_right(s: Seq<char>, width: nat) -> Seq<char> {
    if s.len() < width {
        s + spaces((width - s.len()) as nat)
    } else {
        s
    }
}

/// `s` preceded by spaces up to `width` characters.
pub open spec fn padded_left(s: Seq<char>, width: nat) -> Seq<char> {
    if s.len() < width {
        spaces((width - s.len()) as nat) + s
    } else {
        s
    }
}

/// `n` spaces as a string.
pub fn space_run(n: usize) -> (r: String)
    ensures
        r@ == spaces(n as nat),
{
    let mut r = String::new();
    let mut i: usize = 0;
    while i < n
        invariant
            i <= n,
            r@ == spaces(i as nat),
        decreases n - i,
    {
        r.append(" ");
        i = i + 1;
        proof {
            reveal_strlit(" ");
            assert(r@ =~= spaces(i as nat));
        }
    }
    r
}

/// Left-aligns `s` in a column of `width` characters.
pub fn pad_right(s: &str, width: usize) -> (r: String)
    ensures
        r@ == padded_right(s@, width as nat),
{
    let n = s.unicode_len();
    if n < width {
        let r = String::from_str(s).concat(space_run(width - n).as_str());
        r
    } else {
        String::from_str(s)
    }
}

/// Right-aligns `s` in a column of `width` characters.
pub fn pad_left(s: &str, width: usize) -> (r: String)
    ensures
        r@ == padded_left(s@, width as nat),
{
    let n = s.unicode_len();
    if n < width {
        space_run(width - n).concat(s)
    } else {
        String::from_str(s)
    }
}

/// A library column: `s` trimmed to `width` bytes, then left-aligned in
/// `width` characters.
pub fn fmt_library_col(s: String, width: usize) -> (r: String)
    ensures
        r@ == padded_right(trimmed(s@, width as nat), width as nat),
{
    let t = lightweight_trim(s, width);
    pad_right(t.as_str(), width)
}

/// The character sequences that a sequence of strings holds.
pub open spec fn views(v: Seq<String>) -> Seq<Seq<char>> {
    v.map_values(|s: String| s@)
}

/// `parts` with `sep` between each two neighbours.
pub open spec fn joined(parts: Seq<Seq<char>>, sep: Seq<char>) -> Seq<char>
    decreases parts.len(),
{
    if parts.len() == 0 {
        Seq::empty()
    } else if parts.len() == 1 {
        parts[0]
    } else {
        joined(parts.drop_last(), sep) + sep + parts.last()
    }
}

/// Joins `parts` with `sep` between each two neighbours.
pub fn join_with(parts: &Vec<String>, sep: &str) -> (r: String)
    ensures
        r@ == joined(views(parts@), sep@),
{
    let mut r = String::new();
    let mut i: usize = 0;
    while i < parts.len()
        invariant
            i <= parts@.len(),
            r@ == joined(views(parts@).take(i as int), sep@),
        decreases parts@.len() - i,
    {
        proof {
            assert(views(parts@).take(i + 1).drop_last() =~= views(parts@).take(i as int));
        }
        if i > 0 {
            r.append(sep);
        }
        r.append(parts[i].as_str());
        i = i + 1;
        proof {
            if i == 1 {
                assert(r@ =~= views(parts@).take(1)[0]);
            }
        }
    }
    proof {
        assert(views(parts@).take(i as int) =~= views(parts@));
    }
    r
}

} // verus!
