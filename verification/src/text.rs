//! Conversions between Rust strings and character vectors, with their
//! views stated as sequences of characters.

use vstd::prelude::*;

verus! {

broadcast use vstd::string::group_string_axioms;

/// The characters of `s`, in order.
pub fn chars_of(s: &str) -> (out: Vec<char>)
    ensures
        out@ == s@,
{
    let mut out: Vec<char> = Vec::new();
    for c in it: s.chars()
        invariant
            it.seq() == s@,
            out@ == it.seq().take(it.index() as int),
    {
        out.push(c);
    }
    out
}

/// `String::push`: appends one character.
#[verifier::external_body]
pub fn push_char(s: &mut String, c: char)
    ensures
        final(s)@ == old(s)@.push(c),
{
    s.push(c);
}

/// A string made of the characters `cs`.
pub fn string_from(cs: &[char]) -> (out: String)
    ensures
        out@ == cs@,
{
    let mut out = String::new();
    let mut i: usize = 0;
    while i < cs.len()
        invariant
            i <= cs@.len(),
            out@ == cs@.take(i as int),
        decreases cs@.len() - i,
    {
        push_char(&mut out, cs[i]);
        assert(cs@.take(i + 1) == cs@.take(i as int).push(cs@[i as int]));
        i += 1;
    }
    assert(cs@.take(cs@.len() as int) == cs@);
    out
}

/// Index of the last occurrence of `c` in `s`, or -1.
pub open spec fn last_index_of(s: Seq<char>, c: char) -> int
    decreases s.len(),
{
    if s.len() == 0 {
        -1
    } else if s.last() == c {
        s.len() - 1
    } else {
        last_index_of(s.drop_last(), c)
    }
}

/// Index of the first place where `a` is directly followed by `b`, or -1.
pub open spec fn first_pair_index(s: Seq<char>, a: char, b: char) -> int
    decreases s.len(),
{
    if s.len() < 2 {
        -1
    } else if s[0] == a && s[1] == b {
        0
    } else {
        let r = first_pair_index(s.drop_first(), a, b);
        if r < 0 {
            -1
        } else {
            r + 1
        }
    }
}

/// `last_index_of` is the largest index holding `c`.
pub proof fn lemma_last_index_of(s: Seq<char>, c: char)
    ensures
        -1 <= last_index_of(s, c) < s.len(),
        last_index_of(s, c) >= 0 ==> s[last_index_of(s, c)] == c,
        forall|j: int| last_index_of(s, c) < j < s.len() ==> s[j] != c,
    decreases s.len(),
{
    if s.len() > 0 && s.last() != c {
        let t = s.drop_last();
        lemma_last_index_of(t, c);
        assert forall|j: int| last_index_of(s, c) < j < s.len() implies s[j] != c by {
            if j < s.len() - 1 {
                assert(s[j] == t[j]);
            }
        }
    }
}

/// `first_pair_index` is the smallest index where `a` is followed by `b`.
pub proof fn lemma_first_pair_index(s: Seq<char>, a: char, b: char)
    ensures
        -1 <= first_pair_index(s, a, b) < s.len(),
        first_pair_index(s, a, b) >= 0 ==> first_pair_index(s, a, b) + 1 < s.len()
            && s[first_pair_index(s, a, b)] == a && s[first_pair_index(s, a, b) + 1] == b,
        forall|j: int|
            0 <= j && j + 1 < s.len() && (first_pair_index(s, a, b) < 0 || j < first_pair_index(
                s,
                a,
                b,
            )) ==> !(#[trigger] s[j] == a && s[j + 1] == b),
    decreases s.len(),
{
    if s.len() >= 2 && !(s[0] == a && s[1] == b) {
        lemma_first_pair_index(s.drop_first(), a, b);
        let t = s.drop_first();
        assert forall|j: int|
            0 <= j && j + 1 < s.len() && (first_pair_index(s, a, b) < 0 || j < first_pair_index(
                s,
                a,
                b,
            )) implies !(#[trigger] s[j] == a && s[j + 1] == b) by {
            if j > 0 {
                assert(s[j] == t[j - 1]);
                assert(s[j + 1] == t[j]);
            }
        }
    }
}

/// The last index of `c` in `v`, if any.
pub fn rfind_char(v: &[char], c: char) -> (r: Option<usize>)
    ensures
        match r {
            Some(i) => i == last_index_of(v@, c),
            None => last_index_of(v@, c) == -1,
        },
{
    let mut i: usize = v.len();
    assert(v@.take(v@.len() as int) == v@);
    while i > 0
        invariant
            i <= v@.len(),
            last_index_of(v@, c) == last_index_of(v@.take(i as int), c),
        decreases i,
    {
        let ghost t = v@.take(i as int);
        assert(t.drop_last() == v@.take(i - 1));
        if v[i - 1] == c {
            return Some(i - 1);
        }
        i -= 1;
    }
    None
}

/// The first index where `a` is directly followed by `b`, if any.
pub fn find_pair(v: &[char], a: char, b: char) -> (r: Option<usize>)
    ensures
        match r {
            Some(i) => i == first_pair_index(v@, a, b),
            None => first_pair_index(v@, a, b) == -1,
        },
{
    let mut i: usize = 0;
    assert(v@.skip(0) == v@);
    while i < v.len() && v.len() - i >= 2
        invariant
            i <= v@.len(),
            first_pair_index(v@, a, b) == if first_pair_index(v@.skip(i as int), a, b) < 0 {
                -1
            } else {
                first_pair_index(v@.skip(i as int), a, b) + i
            },
        decreases v@.len() - i,
    {
        let ghost t = v@.skip(i as int);
        assert(t.drop_first() == v@.skip(i + 1));
        assert(t[0] == v@[i as int] && t[1] == v@[i + 1]);
        if v[i] == a && v[i + 1] == b {
            return Some(i);
        }
        i += 1;
    }
    None
}

/// The characters `v[lo..hi]`.
pub fn slice_chars(v: &[char], lo: usize, hi: usize) -> (out: Vec<char>)
    requires
        lo <= hi <= v@.len(),
    ensures
        out@ == v@.subrange(lo as int, hi as int),
{
    let mut out: Vec<char> = Vec::new();
    let mut i = lo;
    while i < hi
        invariant
            lo <= i <= hi <= v@.len(),
            out@ == v@.subrange(lo as int, i as int),
        decreases hi - i,
    {
        out.push(v[i]);
        i += 1;
    }
    out
}

/// `p` occurs in `s` starting at `i`.
pub open spec fn matches_at(s: Seq<char>, p: Seq<char>, i: int) -> bool {
    0 <= i && i + p.len() <= s.len() && s.subrange(i, i + p.len()) == p
}

/// Index of the first occurrence of `p` in `s`, or -1; an empty `p` occurs
/// at 0.
pub open spec fn find_index(s: Seq<char>, p: Seq<char>) -> int
    decreases s.len(),
{
    if matches_at(s, p, 0) {
        0
    } else if s.len() == 0 {
        -1
    } else {
        let r = find_index(s.drop_first(), p);
        if r < 0 {
            -1
        } else {
            r + 1
        }
    }
}

/// `s` holds `p` somewhere.
pub open spec fn contains_seq(s: Seq<char>, p: Seq<char>) -> bool {
    exists|i: int| matches_at(s, p, i)
}

/// `s` starts with `p`.
pub open spec fn starts_with(s: Seq<char>, p: Seq<char>) -> bool {
    p.len() <= s.len() && s.take(p.len() as int) == p
}

/// `s` ends with `p`.
pub open spec fn ends_with(s: Seq<char>, p: Seq<char>) -> bool {
    p.len() <= s.len() && s.skip(s.len() - p.len()) == p
}

/// `find_index` is the first place where `p` occurs.
pub proof fn lemma_find_index(s: Seq<char>, p: Seq<char>)
    ensures
        -1 <= find_index(s, p) <= s.len(),
        find_index(s, p) >= 0 ==> matches_at(s, p, find_index(s, p)),
        forall|j: int|
            0 <= j && (find_index(s, p) < 0 || j < find_index(s, p)) ==> !#[trigger] matches_at(
                s,
                p,
                j,
            ),
        find_index(s, p) >= 0 <==> contains_seq(s, p),
    decreases s.len(),
{
    if !matches_at(s, p, 0) && s.len() > 0 {
        let t = s.drop_first();
        lemma_find_index(t, p);
        assert forall|j: int| 0 <= j implies #[trigger] matches_at(s, p, j + 1) == matches_at(
            t,
            p,
            j,
        ) by {
            if j + 1 + p.len() <= s.len() {
                assert(s.subrange(j + 1, j + 1 + p.len()) == t.subrange(j, j + p.len()));
            }
        }
        assert forall|j: int|
            0 <= j && (find_index(s, p) < 0 || j < find_index(s, p)) implies !#[trigger] matches_at(
            s,
            p,
            j,
        ) by {
            if j > 0 {
                assert(matches_at(s, p, (j - 1) + 1) == matches_at(t, p, j - 1));
            }
        }
        if find_index(s, p) >= 0 {
            assert(matches_at(s, p, find_index(t, p) + 1) == matches_at(t, p, find_index(t, p)));
        }
        if contains_seq(s, p) {
            let j = choose|j: int| matches_at(s, p, j);
            if find_index(s, p) < 0 {
                assert(!matches_at(s, p, j));
            }
        }
    } else if !matches_at(s, p, 0) {
        if contains_seq(s, p) {
            let j = choose|j: int| matches_at(s, p, j);
            assert(p.len() == 0 && j == 0);
            assert(s.subrange(0, 0) == p);
        }
    }
}

/// Whether `p` occurs in `s` at `i`.
pub fn matches_here(s: &[char], p: &[char], i: usize) -> (r: bool)
    ensures
        r == matches_at(s@, p@, i as int),
{
    if i > s.len() || s.len() - i < p.len() {
        return false;
    }
    let n = s.len();
    let mut k: usize = 0;
    while k < p.len()
        invariant
            n == s@.len(),
            i + p@.len() <= s@.len(),
            k <= p@.len(),
            forall|j: int| 0 <= j < k ==> s@[i + j] == p@[j],
        decreases p@.len() - k,
    {
        if s[i + k] != p[k] {
            assert(s@.subrange(i as int, i + p@.len())[k as int] != p@[k as int]);
            return false;
        }
        k += 1;
    }
    assert(s@.subrange(i as int, i + p@.len()) =~= p@);
    true
}

/// The first index where `p` occurs in `s`, if any.
pub fn find_chars(s: &[char], p: &[char]) -> (r: Option<usize>)
    ensures
        match r {
            Some(i) => i == find_index(s@, p@),
            None => find_index(s@, p@) == -1,
        },
{
    proof {
        lemma_find_index(s@, p@);
    }
    let mut i: usize = 0;
    while i < s.len()
        invariant
            forall|j: int| 0 <= j < i ==> !#[trigger] matches_at(s@, p@, j),
            -1 <= find_index(s@, p@) <= s@.len(),
            find_index(s@, p@) >= 0 ==> matches_at(s@, p@, find_index(s@, p@)),
            forall|j: int|
                0 <= j && (find_index(s@, p@) < 0 || j < find_index(s@, p@)) ==> !#[trigger] matches_at(
                    s@,
                    p@,
                    j,
                ),
        decreases s@.len() + 1 - i,
    {
        if matches_here(s, p, i) {
            return Some(i);
        }
        i += 1;
    }
    if matches_here(s, p, s.len()) {
        return Some(s.len());
    }
    None
}

/// Whether `a` and `b` hold the same characters.
pub fn chars_eq(a: &[char], b: &[char]) -> (r: bool)
    ensures
        r == (a@ == b@),
{
    if a.len() != b.len() {
        return false;
    }
    let r = matches_here(a, b, 0);
    assert(a@.subrange(0, b@.len() as int) =~= a@);
    r
}

/// Whether `s` ends with `p`.
pub fn ends_with_chars(s: &[char], p: &[char]) -> (r: bool)
    ensures
        r == ends_with(s@, p@),
{
    if p.len() > s.len() {
        return false;
    }
    let r = matches_here(s, p, s.len() - p.len());
    assert(s@.subrange(s@.len() - p@.len(), s@.len() as int) == s@.skip(s@.len() - p@.len()));
    r
}

/// Whether `s` starts with `p`.
pub fn starts_with_chars(s: &[char], p: &[char]) -> (r: bool)
    ensures
        r == starts_with(s@, p@),
{
    if p.len() > s.len() {
        return false;
    }
    let r = matches_here(s, p, 0);
    assert(s@.subrange(0, p@.len() as int) == s@.take(p@.len() as int));
    r
}

/// The digit character for `d < 10`.
pub open spec fn digit_char(d: nat) -> char {
    (d + 48) as char
}

/// The decimal digits of `n`, without leading zeros ("0" for zero).
pub open spec fn decimal(n: nat) -> Seq<char>
    decreases n,
{
    if n < 10 {
        seq![digit_char(n)]
    } else {
        decimal(n / 10).push(digit_char(n % 10))
    }
}

/// The decimal text of an integer, with a leading `-` when negative.
pub open spec fn signed_decimal(n: int) -> Seq<char> {
    if n < 0 {
        seq!['-'] + decimal((-n) as nat)
    } else {
        decimal(n as nat)
    }
}

fn digit(d: u64) -> (c: char)
    requires
        d < 10,
    ensures
        c == digit_char(d as nat),
{
    if d == 0 { '0' } else if d == 1 { '1' } else if d == 2 { '2' } else if d == 3 { '3' }
    else if d == 4 { '4' } else if d == 5 { '5' } else if d == 6 { '6' } else if d == 7 { '7' }
    else if d == 8 { '8' } else { '9' }
}

/// The decimal digits of `n`.
pub fn decimal_chars(n: u64) -> (out: Vec<char>)
    ensures
        out@ == decimal(n as nat),
    decreases n,
{
    if n < 10 {
        let v: Vec<char> = vec![digit(n)];
        v
    } else {
        let mut v = decimal_chars(n / 10);
        v.push(digit(n % 10));
        v
    }
}

/// Appends the characters of `cs` to `out`.
pub fn extend_chars(out: &mut Vec<char>, cs: &[char])
    ensures
        final(out)@ == old(out)@ + cs@,
{
    let mut i: usize = 0;
    while i < cs.len()
        invariant
            i <= cs@.len(),
            out@ == old(out)@ + cs@.take(i as int),
        decreases cs@.len() - i,
    {
        out.push(cs[i]);
        assert(cs@.take(i + 1) == cs@.take(i as int).push(cs@[i as int]));
        i += 1;
    }
    assert(cs@.take(cs@.len() as int) == cs@);
}

/// Appends the characters of `cs` to `out`.
pub fn push_chars(out: &mut String, cs: &[char])
    ensures
        final(out)@ == old(out)@ + cs@,
{
    let mut i: usize = 0;
    while i < cs.len()
        invariant
            i <= cs@.len(),
            out@ == old(out)@ + cs@.take(i as int),
        decreases cs@.len() - i,
    {
        push_char(out, cs[i]);
        assert(cs@.take(i + 1) == cs@.take(i as int).push(cs@[i as int]));
        i += 1;
    }
    assert(cs@.take(cs@.len() as int) == cs@);
}

/// Appends the characters of `s` to `out`.
pub fn push_str(out: &mut String, s: &str)
    ensures
        final(out)@ == old(out)@ + s@,
{
    let v = chars_of(s);
    push_chars(out, &v);
}

/// The decimal text of `n`.
pub fn i64_decimal_chars(n: i64) -> (out: Vec<char>)
    ensures
        out@ == signed_decimal(n as int),
{
    if n < 0 {
        let m: u64 = if n == i64::MIN { 9223372036854775808u64 } else { (-n) as u64 };
        let mut v: Vec<char> = vec!['-'];
        let d = decimal_chars(m);
        let mut i: usize = 0;
        while i < d.len()
            invariant
                i <= d@.len(),
                v@ == seq!['-'] + d@.take(i as int),
            decreases d@.len() - i,
        {
            v.push(d[i]);
            assert(d@.take(i + 1) == d@.take(i as int).push(d@[i as int]));
            i += 1;
        }
        assert(d@.take(d@.len() as int) == d@);
        v
    } else {
        decimal_chars(n as u64)
    }
}

} // verus!
