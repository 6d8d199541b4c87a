//! Stop sequences in generated text.

use vstd::prelude::*;
use vstd::string::StringSliceAdditionalSpecFns;
use crate::text::{
    chars_of, contains_seq, ends_with, ends_with_chars, find_chars, find_index, lemma_find_index,
    slice_chars, string_from,
};

verus! {

broadcast use vstd::string::group_string_axioms;

/// The character views of a list of strings.
pub open spec fn views_of(v: Seq<&str>) -> Seq<Seq<char>> {
    v.map_values(|s: &str| s@)
}

/// Index of the first stop that occurs in `s`, or -1.
pub open spec fn first_contained(s: Seq<char>, stops: Seq<Seq<char>>) -> int
    decreases stops.len(),
{
    if stops.len() == 0 {
        -1
    } else if contains_seq(s, stops[0]) {
        0
    } else {
        let r = first_contained(s, stops.drop_first());
        if r < 0 {
            -1
        } else {
            r + 1
        }
    }
}

proof fn lemma_first_contained(s: Seq<char>, stops: Seq<Seq<char>>)
    ensures
        -1 <= first_contained(s, stops) < stops.len(),
        first_contained(s, stops) >= 0 ==> contains_seq(s, stops[first_contained(s, stops)]),
        forall|j: int|
            0 <= j < stops.len() && (first_contained(s, stops) < 0 || j < first_contained(
                s,
                stops,
            )) ==> !contains_seq(s, #[trigger] stops[j]),
    decreases stops.len(),
{
    if stops.len() > 0 && !contains_seq(s, stops[0]) {
        let t = stops.drop_first();
        lemma_first_contained(s, t);
        assert forall|j: int|
            0 <= j < stops.len() && (first_contained(s, stops) < 0 || j < first_contained(
                s,
                stops,
            )) implies !contains_seq(s, #[trigger] stops[j]) by {
            if j > 0 {
                assert(stops[j] == t[j - 1]);
            }
        }
    }
}

/// The first of `stops` that occurs in `sequence`, if any.
pub fn find_stop<'a>(sequence: &'a str, stops: &[&'a str]) -> (r: Option<&'a str>)
    ensures
        first_contained(sequence@, views_of(stops@)) < 0 ==> r.is_none(),
        first_contained(sequence@, views_of(stops@)) >= 0 ==> r == Some(
            stops@[first_contained(sequence@, views_of(stops@))],
        ),
{
    let ghost vs = views_of(stops@);
    proof {
        lemma_first_contained(sequence@, vs);
    }
    let s = chars_of(sequence);
    let mut i: usize = 0;
    while i < stops.len()
        invariant
            i <= stops@.len(),
            s@ == sequence@,
            vs == views_of(stops@),
            vs.len() == stops@.len(),
            forall|j: int| 0 <= j < i ==> !contains_seq(sequence@, #[trigger] vs[j]),
        decreases stops@.len() - i,
    {
        let p = chars_of(stops[i]);
        proof {
            lemma_find_index(s@, p@);
        }
        assert(vs[i as int] == stops@[i as int]@);
        if find_chars(&s, &p).is_some() {
            assert(contains_seq(sequence@, vs[i as int]));
            assert(first_contained(sequence@, vs) == i) by {
                lemma_first_contained(sequence@, vs);
                let fc = first_contained(sequence@, vs);
                if fc < 0 || i < fc {
                    assert(!contains_seq(sequence@, vs[i as int]));
                } else if fc < i {
                    assert(contains_seq(sequence@, vs[fc]));
                }
            }
            return Some(stops[i]);
        }
        i += 1;
    }
    None
}

/// Some stop has a non-empty prefix with which `s` ends.
pub open spec fn has_stop_suffix(s: Seq<char>, stops: Seq<Seq<char>>) -> bool {
    exists|k: int, i: int|
        0 <= k < stops.len() && 1 <= i <= stops[k].len() && #[trigger] ends_with(
            s,
            stops[k].take(i),
        )
}

/// Whether `sequence` ends with the beginning of one of `stops`, so that a
/// stop may still be completing.
pub fn contains_stop_suffix(sequence: &str, stops: &[&str]) -> (r: bool)
    ensures
        r == has_stop_suffix(sequence@, views_of(stops@)),
{
    let ghost vs = views_of(stops@);
    let s = chars_of(sequence);
    let mut k: usize = 0;
    while k < stops.len()
        invariant
            k <= stops@.len(),
            s@ == sequence@,
            vs == views_of(stops@),
            vs.len() == stops@.len(),
            forall|kk: int, i: int|
                0 <= kk < k && 1 <= i <= vs[kk].len() ==> !#[trigger] ends_with(
                    sequence@,
                    vs[kk].take(i),
                ),
        decreases stops@.len() - k,
    {
        let p = chars_of(stops[k]);
        let mut i: usize = 0;
        assert(vs[k as int] == stops@[k as int]@);
        while i < p.len()
            invariant
                0 <= i <= p@.len(),
                k < stops@.len(),
                s@ == sequence@,
                p@ == vs[k as int],
                vs == views_of(stops@),
                vs.len() == stops@.len(),
                forall|ii: int| 1 <= ii <= i ==> !#[trigger] ends_with(sequence@, p@.take(ii)),
            decreases p@.len() - i,
        {
            let pre = slice_chars(&p, 0, i + 1);
            assert(pre@ == p@.take(i + 1));
            if ends_with_chars(&s, &pre) {
                assert(ends_with(sequence@, vs[k as int].take(i + 1)));
                return true;
            }
            i += 1;
        }
        assert forall|kk: int, ii: int|
            0 <= kk < k + 1 && 1 <= ii <= vs[kk].len() implies !#[trigger] ends_with(
            sequence@,
            vs[kk].take(ii),
        ) by {
            if kk == k {
                assert(!ends_with(sequence@, p@.take(ii)));
            }
        }
        k += 1;
    }
    false
}

/// The concatenation of `ps`.
pub open spec fn join(ps: Seq<Seq<char>>) -> Seq<char>
    decreases ps.len(),
{
    if ps.len() == 0 {
        Seq::empty()
    } else {
        ps[0] + join(ps.drop_first())
    }
}

/// The pieces that make up the first `budget` characters of `ps`, the
/// last one cut short if needed, and whether one was cut.
pub open spec fn cut_pieces(ps: Seq<Seq<char>>, budget: int) -> (Seq<Seq<char>>, bool)
    decreases ps.len(),
{
    if ps.len() == 0 || budget <= 0 {
        (Seq::empty(), false)
    } else if ps[0].len() <= budget {
        let (rest, cut) = cut_pieces(ps.drop_first(), budget - ps[0].len());
        (seq![ps[0]] + rest, cut)
    } else {
        (seq![ps[0].take(budget)], true)
    }
}

/// What `truncate_stop` gives: the pieces unchanged when `stop` does not
/// occur in their concatenation, else the pieces that hold the text before
/// its first occurrence.
pub open spec fn spec_truncate_stop(ps: Seq<Seq<char>>, stop: Seq<char>) -> (
    Seq<Seq<char>>,
    bool,
) {
    let k = find_index(join(ps), stop);
    if k < 0 {
        (ps, false)
    } else {
        cut_pieces(ps, k)
    }
}

/// The character views of a list of strings.
pub open spec fn string_views(v: Seq<String>) -> Seq<Seq<char>> {
    v.map_values(|s: String| s@)
}

proof fn lemma_join_push(ps: Seq<Seq<char>>, x: Seq<char>)
    ensures
        join(ps.push(x)) == join(ps) + x,
    decreases ps.len(),
{
    if ps.len() == 0 {
        assert(ps.push(x).drop_first() == Seq::<Seq<char>>::empty());
        assert(join(ps.push(x)) == x + join(Seq::<Seq<char>>::empty()));
    } else {
        assert(ps.push(x).drop_first() == ps.drop_first().push(x));
        lemma_join_push(ps.drop_first(), x);
    }
}

/// Cuts `pieces` at the first occurrence of `stop` in their concatenation.
/// Returns the pieces that hold the text before it and whether the last of
/// them had to be cut short.
pub fn truncate_stop(pieces: &[String], stop: &str) -> (r: (Vec<String>, bool))
    ensures
        string_views(r.0@) == spec_truncate_stop(string_views(pieces@), stop@).0,
        r.1 == spec_truncate_stop(string_views(pieces@), stop@).1,
{
    let ghost ps = string_views(pieces@);
    let mut joined: Vec<char> = Vec::new();
    let mut i: usize = 0;
    while i < pieces.len()
        invariant
            i <= pieces@.len(),
            ps == string_views(pieces@),
            joined@ == join(ps.take(i as int)),
        decreases pieces@.len() - i,
    {
        let c = chars_of(pieces[i].as_str());
        let mut k: usize = 0;
        let ghost before = joined@;
        while k < c.len()
            invariant
                k <= c@.len(),
                joined@ == before + c@.take(k as int),
            decreases c@.len() - k,
        {
            joined.push(c[k]);
            assert(c@.take(k + 1) == c@.take(k as int).push(c@[k as int]));
            k += 1;
        }
        assert(c@.take(c@.len() as int) == c@);
        proof {
            assert(ps.take(i + 1) == ps.take(i as int).push(ps[i as int]));
            lemma_join_push(ps.take(i as int), ps[i as int]);
        }
        i += 1;
    }
    assert(ps.len() == pieces@.len());
    assert(ps.take(pieces@.len() as int) == ps);
    assert(joined@ == join(ps));
    let stop_chars = chars_of(stop);
    let found = find_chars(&joined, &stop_chars);
    let budget = match found {
        None => {
            let mut out: Vec<String> = Vec::new();
            let mut j: usize = 0;
            while j < pieces.len()
                invariant
                    j <= pieces@.len(),
                    ps == string_views(pieces@),
                    string_views(out@) == ps.take(j as int),
                decreases pieces@.len() - j,
            {
                let ghost prev = out@;
                assert(string_views(prev).len() == prev.len());
                assert(ps.take(j as int).len() == j);
                let x = pieces[j].clone();
                assert(x@ == pieces@[j as int]@);
                out.push(x);
                assert(out@ == prev.push(x));
                assert(ps[j as int] == pieces@[j as int]@);
                assert(string_views(out@).len() == out@.len());
                assert forall|k: int| 0 <= k < j + 1 implies string_views(out@)[k] == ps.take(j + 1)[k] by {
                    if k < j {
                        assert(string_views(prev)[k] == ps.take(j as int)[k]);
                        assert(out@[k] == prev[k]);
                    }
                }
                assert(string_views(out@) =~= ps.take(j + 1));
                j += 1;
            }
            assert(ps.take(pieces@.len() as int) == ps);
            return (out, false);
        },
        Some(b) => b,
    };
    let mut out: Vec<String> = Vec::new();
    let mut left: usize = budget;
    let mut j: usize = 0;
    assert(ps.skip(0) == ps);
    assert(string_views(out@) + cut_pieces(ps, budget as int).0 == cut_pieces(ps, budget as int).0);
    while j < pieces.len() && left > 0
        invariant
            j <= pieces@.len(),
            ps == string_views(pieces@),
            budget as int == find_index(join(ps), stop@),
            cut_pieces(ps, budget as int) == (
                string_views(out@) + cut_pieces(ps.skip(j as int), left as int).0,
                cut_pieces(ps.skip(j as int), left as int).1,
            ),
        decreases pieces@.len() - j,
    {
        let c = chars_of(pieces[j].as_str());
        let ghost rest = ps.skip(j as int);
        assert(ps.len() == pieces@.len());
        assert(rest.len() > 0);
        assert(rest[0] == c@);
        assert(rest.drop_first() == ps.skip(j + 1));
        let ghost prev = string_views(out@);
        if c.len() <= left {
            let ghost prev_out = out@;
            out.push(pieces[j].clone());
            assert(out@ == prev_out.push(pieces@[j as int]));
            assert(string_views(out@) =~= prev.push(c@));
            assert(prev + (seq![c@] + cut_pieces(rest.drop_first(), left - c@.len()).0) == prev.push(
                c@,
            ) + cut_pieces(rest.drop_first(), left - c@.len()).0);
            left -= c.len();
            j += 1;
        } else {
            let part = slice_chars(&c, 0, left);
            let ghost prev_out = out@;
            let piece = string_from(&part);
            out.push(piece);
            assert(out@ == prev_out.push(piece));
            assert(string_views(out@) =~= prev.push(c@.take(left as int)));
            assert(cut_pieces(rest, left as int) == (seq![c@.take(left as int)], true));
            assert(prev + seq![c@.take(left as int)] =~= prev.push(c@.take(left as int)));
            assert(cut_pieces(ps, budget as int).0 =~= string_views(out@));
            assert(cut_pieces(ps, budget as int).1);
            assert(budget == find_index(join(ps), stop@));
            return (out, true);
        }
    }
    assert(string_views(out@) + Seq::<Seq<char>>::empty() == string_views(out@));
    (out, false)
}

/// Law: the pieces that `truncate_stop` keeps spell out exactly the text
/// before the first occurrence of the stop; with no occurrence, every piece
/// is kept unchanged.
pub proof fn law_truncate_stop_keeps_prefix(ps: Seq<Seq<char>>, stop: Seq<char>)
    ensures
        find_index(join(ps), stop) >= 0 ==> join(spec_truncate_stop(ps, stop).0) == join(ps).take(
            find_index(join(ps), stop),
        ),
        find_index(join(ps), stop) < 0 ==> spec_truncate_stop(ps, stop) == (ps, false),
{
    lemma_find_index(join(ps), stop);
    let k = find_index(join(ps), stop);
    if k >= 0 {
        lemma_join_cut(ps, k);
    }
}

proof fn lemma_join_cut(ps: Seq<Seq<char>>, b: int)
    requires
        0 <= b <= join(ps).len(),
    ensures
        join(cut_pieces(ps, b).0) == join(ps).take(b),
    decreases ps.len(),
{
    if ps.len() == 0 || b <= 0 {
        assert(join(Seq::<Seq<char>>::empty()) == Seq::<char>::empty());
        assert(join(ps).take(0) =~= Seq::<char>::empty());
    } else if ps[0].len() <= b {
        let rest = ps.drop_first();
        lemma_join_cut(rest, b - ps[0].len());
        let r = cut_pieces(rest, b - ps[0].len()).0;
        assert((seq![ps[0]] + r).drop_first() == r);
        assert(join(ps).take(b) =~= ps[0] + join(rest).take(b - ps[0].len()));
    } else {
        let one = seq![ps[0].take(b)];
        assert(one.drop_first() == Seq::<Seq<char>>::empty());
        assert(join(one) == ps[0].take(b) + join(Seq::<Seq<char>>::empty()));
        assert(join(ps).take(b) =~= ps[0].take(b));
    }
}

/// A UTF-8 continuation byte.
pub open spec fn is_continuation(c: u8) -> bool {
    0x80 <= c < 0xC0
}

/// Whether, looking back from the `i`-th last byte, the bytes end inside a
/// character: the nearest lead byte among the last four announces more
/// bytes than follow it.
pub open spec fn incomplete_from(b: Seq<u8>, i: int) -> bool
    decreases 5 - i,
{
    if i < 1 || i > 4 || i > b.len() {
        false
    } else {
        let c = b[b.len() - i];
        if is_continuation(c) {
            incomplete_from(b, i + 1)
        } else if 0xC0 <= c < 0xE0 {
            i < 2
        } else if 0xE0 <= c < 0xF0 {
            i < 3
        } else if 0xF0 <= c < 0xF8 {
            i < 4
        } else {
            false
        }
    }
}

/// Whether the bytes end with an incomplete UTF-8 character.
pub fn incomplete_unicode_bytes(bytes: &[u8]) -> (r: bool)
    ensures
        r == incomplete_from(bytes@, 1),
{
    let n = bytes.len();
    let max = if n < 4 { n } else { 4 };
    let mut i: usize = 1;
    while i <= max
        invariant
            n == bytes@.len(),
            max == if n < 4 { n } else { 4 },
            1 <= i <= max + 1,
            incomplete_from(bytes@, 1) == incomplete_from(bytes@, i as int),
        decreases max + 1 - i,
    {
        let c = bytes[n - i];
        assert((c & 0xC0u8 == 0x80u8) == (0x80u8 <= c && c < 0xC0u8)) by (bit_vector);
        assert((c & 0xE0u8 == 0xC0u8) == (0xC0u8 <= c && c < 0xE0u8)) by (bit_vector);
        assert((c & 0xF0u8 == 0xE0u8) == (0xE0u8 <= c && c < 0xF0u8)) by (bit_vector);
        assert((c & 0xF8u8 == 0xF0u8) == (0xF0u8 <= c && c < 0xF8u8)) by (bit_vector);
        if c & 0xC0 == 0x80 {
            i += 1;
            continue;
        }
        let incomplete = if c & 0xE0 == 0xC0 {
            i < 2
        } else if c & 0xF0 == 0xE0 {
            i < 3
        } else if c & 0xF8 == 0xF0 {
            i < 4
        } else {
            false
        };
        return incomplete;
    }
    false
}

/// Whether the UTF-8 bytes of `token` end with an incomplete character;
/// the bytes of a `str` are always complete, so this is always false.
pub fn incomplete_unicode(token: &str) -> (r: bool)
    ensures
        r == incomplete_from(token.spec_bytes(), 1),
{
    incomplete_unicode_bytes(token.as_bytes())
}

} // verus!
