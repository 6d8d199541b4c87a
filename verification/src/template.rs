//! Chat templates: the variables a template names, the source it is parsed
//! from, the choice of a known template by edit distance, and how chat
//! messages are collated and cut into the turns that older templates show.

use vstd::prelude::*;
use crate::text::{chars_of, chars_eq, string_from, push_chars};
use crate::schema::strings_view;
use vstd::utf8::encode_utf8;

verus! {

broadcast use vstd::string::group_string_axioms;

// ---------------------------------------------------------------------------
// Text order
// ---------------------------------------------------------------------------

/// `a` sorts before `b`, comparing from position `i` on: the first
/// differing character decides, and a proper prefix comes first.
pub open spec fn lt_from(a: Seq<char>, b: Seq<char>, i: nat) -> bool
    decreases a.len() - i,
{
    if i >= a.len() {
        i < b.len()
    } else if i >= b.len() {
        false
    } else if a[i as int] != b[i as int] {
        a[i as int] < b[i as int]
    } else {
        lt_from(a, b, i + 1)
    }
}

/// `a` sorts before `b`, as `String`'s order puts them.
pub open spec fn text_lt(a: Seq<char>, b: Seq<char>) -> bool {
    lt_from(a, b, 0)
}

/// Each text sorts before every later one: sorted, with no text twice.
pub open spec fn strictly_sorted(v: Seq<Seq<char>>) -> bool {
    forall|x: int, y: int| 0 <= x < y < v.len() ==> text_lt(#[trigger] v[x], #[trigger] v[y])
}

proof fn lemma_lt_irreflexive(a: Seq<char>, i: nat)
    ensures
        !lt_from(a, a, i),
    decreases a.len() - i,
{
    if i < a.len() {
        lemma_lt_irreflexive(a, i + 1);
    }
}

proof fn lemma_lt_transitive(a: Seq<char>, b: Seq<char>, c: Seq<char>, i: nat)
    requires
        lt_from(a, b, i),
        lt_from(b, c, i),
    ensures
        lt_from(a, c, i),
    decreases a.len() - i,
{
    if i < a.len() && i < b.len() && i < c.len() && a[i as int] == b[i as int] && b[i as int]
        == c[i as int] {
        lemma_lt_transitive(a, b, c, i + 1);
    }
}

proof fn lemma_lt_total(a: Seq<char>, b: Seq<char>, i: nat)
    requires
        i <= a.len(),
        i <= b.len(),
        forall|k: int| 0 <= k < i ==> a[k] == b[k],
    ensures
        lt_from(a, b, i) || lt_from(b, a, i) || a == b,
    decreases a.len() - i,
{
    if i < a.len() && i < b.len() && a[i as int] == b[i as int] {
        lemma_lt_total(a, b, i + 1);
    } else if i == a.len() && i == b.len() {
        assert(a =~= b);
    }
}

/// Whether `a` sorts before `b`.
fn chars_lt(a: &[char], b: &[char]) -> (r: bool)
    ensures
        r == text_lt(a@, b@),
{
    let mut i: usize = 0;
    while i < a.len() && i < b.len() && a[i] == b[i]
        invariant
            i <= a@.len(),
            i <= b@.len(),
            lt_from(a@, b@, 0) == lt_from(a@, b@, i as nat),
        decreases a@.len() - i,
    {
        i += 1;
    }
    if i == a.len() {
        i < b.len()
    } else if i == b.len() {
        false
    } else {
        a[i] < b[i]
    }
}

/// Adds `w` to the sorted texts `out`, where it is not already.
fn insert_sorted(out: &mut Vec<Vec<char>>, w: Vec<char>)
    requires
        strictly_sorted(texts(old(out)@)),
    ensures
        strictly_sorted(texts(final(out)@)),
        forall|x: Seq<char>| #[trigger] texts(final(out)@).contains(x) <==> (texts(
            old(out)@,
        ).contains(x) || x == w@),
{
    let ghost s = texts(out@);
    let mut p: usize = 0;
    while p < out.len() && chars_lt(&out[p], &w)
        invariant
            p <= out@.len(),
            s == texts(out@),
            forall|k: int| 0 <= k < p ==> text_lt(#[trigger] s[k], w@),
        decreases out@.len() - p,
    {
        p += 1;
    }
    if p < out.len() && chars_eq(&out[p], &w) {
        assert(s[p as int] == w@);
        return;
    }
    proof {
        if p < s.len() {
            lemma_lt_total(s[p as int], w@, 0);
        }
        lemma_insert_sorted(s, p as int, w@);
    }
    out.insert(p, w);
    assert(texts(out@) =~= s.insert(p as int, w@));
    assert forall|x: Seq<char>| #[trigger] texts(out@).contains(x) <==> (s.contains(x) || x == w@) by {
        if texts(out@).contains(x) {
            let k = choose|k: int| 0 <= k < texts(out@).len() && texts(out@)[k] == x;
            if k < p {
                assert(s[k] == x);
            } else if k > p {
                assert(s[k - 1] == x);
            }
        }
        if s.contains(x) {
            let k = choose|k: int| 0 <= k < s.len() && s[k] == x;
            if k < p {
                assert(texts(out@)[k] == x);
            } else {
                assert(texts(out@)[k + 1] == x);
            }
        }
        if x == w@ {
            assert(texts(out@)[p as int] == x);
        }
    }
}

proof fn lemma_insert_sorted(s: Seq<Seq<char>>, p: int, w: Seq<char>)
    requires
        strictly_sorted(s),
        0 <= p <= s.len(),
        forall|k: int| 0 <= k < p ==> text_lt(#[trigger] s[k], w),
        p < s.len() ==> text_lt(w, s[p]),
    ensures
        strictly_sorted(s.insert(p, w)),
{
    let t = s.insert(p, w);
    assert forall|x: int, y: int| 0 <= x < y < t.len() implies text_lt(#[trigger] t[x], #[trigger] t[y]) by {
        if x < p && y == p {
        } else if x < p && y > p {
            assert(t[y] == s[y - 1]);
            if y - 1 > x {
                assert(text_lt(s[x], s[y - 1]));
            } else {
                lemma_lt_irreflexive(s[x], 0);
            }
        } else if x == p {
            assert(t[y] == s[y - 1]);
            if y - 1 > p {
                lemma_lt_transitive(w, s[p], s[y - 1], 0);
            }
        } else if x > p {
            assert(t[x] == s[x - 1] && t[y] == s[y - 1]);
        } else {
            assert(t[x] == s[x] && t[y] == s[y]);
        }
    }
}

/// The texts of character vectors.
pub open spec fn texts(v: Seq<Vec<char>>) -> Seq<Seq<char>> {
    v.map_values(|x: Vec<char>| x@)
}

// ---------------------------------------------------------------------------
// Variables
// ---------------------------------------------------------------------------

/// A character that may begin an identifier.
pub open spec fn is_ident_start(c: char) -> bool {
    ('a' <= c && c <= 'z') || ('A' <= c && c <= 'Z') || c == '_'
}

/// A character that may stand in an identifier.
pub open spec fn is_ident_char(c: char) -> bool {
    is_ident_start(c) || ('0' <= c && c <= '9')
}

/// The end of the run of identifier characters that starts at `i`.
pub open spec fn ident_end(s: Seq<char>, i: int) -> int
    decreases s.len() - i,
{
    if 0 <= i < s.len() && is_ident_char(s[i]) {
        ident_end(s, i + 1)
    } else {
        i
    }
}

/// The run of identifier characters from `i` ends within `s`.
pub proof fn lemma_ident_end(s: Seq<char>, i: int)
    requires
        0 <= i <= s.len(),
    ensures
        i <= ident_end(s, i) <= s.len(),
        forall|k: int| i <= k < ident_end(s, i) ==> is_ident_char(#[trigger] s[k]),
    decreases s.len() - i,
{
    if i < s.len() && is_ident_char(s[i]) {
        lemma_ident_end(s, i + 1);
    }
}

/// An ASCII capital made small; other characters stay.
pub open spec fn lower_char(c: char) -> char {
    if 'A' <= c && c <= 'Z' {
        ((c as u32) + 32) as char
    } else {
        c
    }
}

/// The variables that `s` names from position `i` on, in order: each
/// identifier that follows a dot (the pattern `\.[A-Za-z_][A-Za-z0-9_]*`,
/// matched from left to right), lowercased.
pub open spec fn vars_from(s: Seq<char>, i: int) -> Seq<Seq<char>>
    decreases s.len() - i,
{
    if i < 0 || i >= s.len() {
        Seq::empty()
    } else if s[i] == '.' && i + 1 < s.len() && is_ident_start(s[i + 1]) {
        let e = ident_end(s, i + 1);
        proof {
            lemma_ident_end(s, i + 1);
        }
        seq![s.subrange(i + 1, e).map_values(|c: char| lower_char(c))] + vars_from(s, e)
    } else {
        vars_from(s, i + 1)
    }
}

fn lower(c: char) -> (r: char)
    ensures
        r == lower_char(c),
{
    if 'A' <= c && c <= 'Z' {
        let u: u8 = (c as u8) + 32;
        u as char
    } else {
        c
    }
}

fn is_start_exec(c: char) -> (r: bool)
    ensures
        r == is_ident_start(c),
{
    ('a' <= c && c <= 'z') || ('A' <= c && c <= 'Z') || c == '_'
}

fn is_ident_exec(c: char) -> (r: bool)
    ensures
        r == is_ident_char(c),
{
    is_start_exec(c) || ('0' <= c && c <= '9')
}

/// The variables a template's source names: each identifier after a dot,
/// lowercased, sorted, each once.
pub fn template_vars(raw: &str) -> (r: Vec<String>)
    ensures
        strictly_sorted(strings_view(r@)),
        forall|x: Seq<char>| #[trigger] strings_view(r@).contains(x) <==> vars_from(raw@, 0).contains(x),
{
    let s = chars_of(raw);
    let mut out: Vec<Vec<char>> = Vec::new();
    let mut i: usize = 0;
    while i < s.len()
        invariant
            i <= s@.len(),
            s@ == raw@,
            strictly_sorted(texts(out@)),
            forall|x: Seq<char>| #[trigger] vars_from(s@, 0).contains(x) <==> (texts(out@).contains(x)
                || vars_from(s@, i as int).contains(x)),
        decreases s@.len() - i,
    {
        let ghost rest = vars_from(s@, i as int);
        if s[i] == '.' && i + 1 < s.len() && is_start_exec(s[i + 1]) {
            proof {
                lemma_ident_end(s@, i + 1);
            }
            let mut e: usize = i + 1;
            let mut w: Vec<char> = Vec::new();
            while e < s.len() && is_ident_exec(s[e])
                invariant
                    i + 1 <= e <= s@.len(),
                    ident_end(s@, i + 1) == ident_end(s@, e as int),
                    w@ == s@.subrange(i + 1, e as int).map_values(|c: char| lower_char(c)),
                decreases s@.len() - e,
            {
                let lc = lower(s[e]);
                w.push(lc);
                assert(s@.subrange(i + 1, e + 1).map_values(|c: char| lower_char(c)) =~= s@.subrange(
                    i + 1,
                    e as int,
                ).map_values(|c: char| lower_char(c)).push(lower_char(s@[e as int])));
                e += 1;
            }
            let ghost wv = w@;
            let ghost tail = vars_from(s@, e as int);
            assert(rest == seq![wv] + tail);
            let ghost before = texts(out@);
            insert_sorted(&mut out, w);
            assert forall|x: Seq<char>| #[trigger] vars_from(s@, 0).contains(x) <==> (texts(
                out@,
            ).contains(x) || tail.contains(x)) by {
                if rest.contains(x) && !tail.contains(x) {
                    let k = choose|k: int| 0 <= k < rest.len() && rest[k] == x;
                    if k > 0 {
                        assert(tail[k - 1] == x);
                    }
                }
                if tail.contains(x) {
                    let k = choose|k: int| 0 <= k < tail.len() && tail[k] == x;
                    assert(rest[k + 1] == x);
                }
                if x == wv {
                    assert(rest[0] == x);
                }
            }
            i = e;
        } else {
            assert(rest == vars_from(s@, i + 1));
            i += 1;
        }
    }
    let mut r: Vec<String> = Vec::new();
    let mut k: usize = 0;
    while k < out.len()
        invariant
            k <= out@.len(),
            strings_view(r@) == texts(out@).take(k as int),
        decreases out@.len() - k,
    {
        let t = string_from(&out[k]);
        let ghost before = r@;
        r.push(t);
        assert(r@ == before.push(t));
        assert(strings_view(r@) =~= strings_view(before).push(t@));
        assert(texts(out@).take(k + 1) =~= texts(out@).take(k as int).push(out@[k as int]@));
        assert(strings_view(r@) =~= texts(out@).take(k + 1));
        k += 1;
    }
    assert(texts(out@).take(out@.len() as int) =~= texts(out@));
    r
}

// ---------------------------------------------------------------------------
// The source a template is parsed from
// ---------------------------------------------------------------------------

/// Whether the template named by its source shows a conversation itself:
/// it names `messages` or `response`.
pub open spec fn shows_response(src: Seq<char>) -> bool {
    vars_from(src, 0).contains("messages"@) || vars_from(src, 0).contains("response"@)
}

/// The source a template is parsed from: `{{ .Response }}` is added at the
/// end of one that names neither `messages` nor `response`.
pub open spec fn spec_source_with_response(src: Seq<char>) -> Seq<char> {
    if shows_response(src) {
        src
    } else {
        src + "{{ .Response }}"@
    }
}

proof fn lemma_ident_end_before(u: Seq<char>, j: int, m: int)
    requires
        0 <= j <= m < u.len(),
        !is_ident_char(u[m]),
    ensures
        ident_end(u, j) <= m,
    decreases m - j,
{
    if j < m && is_ident_char(u[j]) {
        lemma_ident_end_before(u, j + 1, m);
    }
}

/// The variables found from `i` on include those found from `m` on, when
/// no identifier can run across position `m`.
proof fn lemma_vars_reach(u: Seq<char>, i: int, m: int)
    requires
        0 <= i <= m < u.len(),
        !is_ident_char(u[m]),
        u[m] != '.',
    ensures
        forall|x: Seq<char>| #[trigger] vars_from(u, m).contains(x) ==> vars_from(u, i).contains(x),
    decreases m - i,
{
    if i < m {
        if u[i] == '.' && i + 1 < u.len() && is_ident_start(u[i + 1]) {
            lemma_ident_end(u, i + 1);
            let e = ident_end(u, i + 1);
            if i + 1 <= m {
                lemma_ident_end_before(u, i + 1, m);
            }
            lemma_vars_reach(u, e, m);
            let w = u.subrange(i + 1, e).map_values(|c: char| lower_char(c));
            assert(vars_from(u, i) == seq![w] + vars_from(u, e));
            assert forall|x: Seq<char>| #[trigger] vars_from(u, m).contains(x) implies vars_from(
                u,
                i,
            ).contains(x) by {
                let k = choose|k: int| 0 <= k < vars_from(u, e).len() && vars_from(u, e)[k] == x;
                assert(vars_from(u, i)[k + 1] == x);
            }
        } else {
            lemma_vars_reach(u, i + 1, m);
        }
    }
}

/// A source given `{{ .Response }}` names `response`.
proof fn lemma_response_named(src: Seq<char>)
    ensures
        vars_from(src + "{{ .Response }}"@, 0).contains("response"@),
{
    reveal_strlit("{{ .Response }}");
    reveal_strlit("response");
    let u = src + "{{ .Response }}"@;
    let m = src.len() as int;
    assert(u[m] == '{');
    lemma_vars_reach(u, 0, m);
    assert(u[m + 3] == '.' && u[m + 4] == 'R');
    assert(ident_end(u, m + 12) == m + 12) by {
        assert(u[m + 12] == ' ');
    }
    assert(ident_end(u, m + 4) == m + 12) by {
        assert(u[m + 11] == 'e');
        assert(ident_end(u, m + 11) == m + 12);
        assert(u[m + 10] == 's');
        assert(ident_end(u, m + 10) == m + 12);
        assert(u[m + 9] == 'n');
        assert(ident_end(u, m + 9) == m + 12);
        assert(u[m + 8] == 'o');
        assert(ident_end(u, m + 8) == m + 12);
        assert(u[m + 7] == 'p');
        assert(ident_end(u, m + 7) == m + 12);
        assert(u[m + 6] == 's');
        assert(ident_end(u, m + 6) == m + 12);
        assert(u[m + 5] == 'e');
        assert(ident_end(u, m + 5) == m + 12);
        assert(ident_end(u, m + 4) == m + 12);
    }
    let w = u.subrange(m + 4, m + 12).map_values(|c: char| lower_char(c));
    assert(w =~= "response"@) by {
        assert(lower_char('R') == 'r');
        assert(u.subrange(m + 4, m + 12) =~= seq!['R', 'e', 's', 'p', 'o', 'n', 's', 'e']);
    }
    assert(vars_from(u, m + 3) == seq![w] + vars_from(u, m + 12));
    assert(vars_from(u, m + 3)[0] == "response"@);
    assert(vars_from(u, m + 2) == vars_from(u, m + 3)) by {
        assert(u[m + 2] == ' ');
    }
    assert(vars_from(u, m + 1) == vars_from(u, m + 2)) by {
        assert(u[m + 1] == '{');
    }
    assert(vars_from(u, m) == vars_from(u, m + 1));
    assert(vars_from(u, m)[0] == "response"@);
    assert(vars_from(u, m).contains("response"@));
    assert(vars_from(u, 0).contains("response"@));
}

/// Adding `{{ .Response }}` to a source is done at most once: the source
/// a template is parsed from is parsed from itself again.
pub proof fn law_source_with_response_is_stable(src: Seq<char>)
    ensures
        spec_source_with_response(spec_source_with_response(src)) == spec_source_with_response(src),
{
    if !shows_response(src) {
        lemma_response_named(src);
    }
}

/// Whether `text` is among the sorted texts `v`.
fn contains_text(v: &Vec<String>, text: &str) -> (r: bool)
    ensures
        r == strings_view(v@).contains(text@),
{
    let t = chars_of(text);
    let mut k: usize = 0;
    while k < v.len()
        invariant
            k <= v@.len(),
            t@ == text@,
            forall|j: int| 0 <= j < k ==> strings_view(v@)[j] != text@,
        decreases v@.len() - k,
    {
        let c = chars_of(v[k].as_str());
        if chars_eq(&c, &t) {
            assert(strings_view(v@)[k as int] == text@);
            return true;
        }
        k += 1;
    }
    false
}

/// The source a template is parsed from; see `spec_source_with_response`.
pub fn source_with_response(source: &str) -> (r: String)
    ensures
        r@ == spec_source_with_response(source@),
{
    let vars = template_vars(source);
    let m = contains_text(&vars, "messages");
    let resp = contains_text(&vars, "response");
    let mut out = string_from(&chars_of(source));
    if !(m || resp) {
        push_chars(&mut out, &chars_of("{{ .Response }}"));
    }
    out
}

/// Whether a template's source holds `needle` somewhere (an empty needle
/// is everywhere).
pub fn template_contains(raw: &str, needle: &str) -> (r: bool)
    ensures
        r == crate::text::contains_seq(raw@, needle@),
{
    let a = chars_of(raw);
    let b = chars_of(needle);
    proof {
        crate::text::lemma_find_index(a@, b@);
    }
    crate::text::find_chars(&a, &b).is_some()
}

/// How a template is filled: with a prompt and a suffix, with the whole
/// conversation, or turn by turn.
#[derive(Debug, Clone, Copy, PartialEq, Eq)]
pub enum RenderMode {
    Infill,
    Messages,
    Legacy,
}

/// How the template whose source is `source` is filled: a prompt and a
/// suffix, both given, come first; then the conversation, where the
/// template names `messages` and the turn-by-turn way is not forced.
pub fn render_mode(prompt: &str, suffix: &str, force_legacy: bool, source: &str) -> (r: RenderMode)
    ensures
        r == (if prompt@.len() > 0 && suffix@.len() > 0 {
            RenderMode::Infill
        } else if !force_legacy && vars_from(source@, 0).contains("messages"@) {
            RenderMode::Messages
        } else {
            RenderMode::Legacy
        }),
{
    let p = chars_of(prompt);
    let s = chars_of(suffix);
    if p.len() > 0 && s.len() > 0 {
        return RenderMode::Infill;
    }
    if !force_legacy {
        let vars = template_vars(source);
        if contains_text(&vars, "messages") {
            return RenderMode::Messages;
        }
    }
    RenderMode::Legacy
}

// ---------------------------------------------------------------------------
// Known templates
// ---------------------------------------------------------------------------

/// The parameters that come with a known template.
pub struct TemplateParameters {
    pub stop: Vec<String>,
}

impl Default for TemplateParameters {
    fn default() -> (p: Self)
        ensures
            p.stop@.len() == 0,
    {
        TemplateParameters { stop: Vec::new() }
    }
}

/// A known template: its name, the template text it is matched by, its
/// source as bytes, and its parameters.
pub struct NamedTemplate {
    pub name: String,
    pub template: String,
    bytes: Vec<u8>,
    pub parameters: Option<TemplateParameters>,
}

/// A known template in specifications.
pub struct NamedTemplateV {
    pub name: Seq<char>,
    pub template: Seq<char>,
    pub bytes: Seq<u8>,
    pub parameters: Option<Seq<Seq<char>>>,
}

impl View for NamedTemplate {
    type V = NamedTemplateV;

    closed spec fn view(&self) -> NamedTemplateV {
        NamedTemplateV {
            name: self.name@,
            template: self.template@,
            bytes: self.bytes@,
            parameters: match self.parameters {
                Some(p) => Some(strings_view(p.stop@)),
                None => None,
            },
        }
    }
}

/// `s` with each `\r\n` made `\n`.
pub open spec fn crlf_to_lf(s: Seq<char>) -> Seq<char>
    decreases s.len(),
{
    if s.len() == 0 {
        s
    } else if s.len() >= 2 && s[0] == '\r' && s[1] == '\n' {
        seq!['\n'] + crlf_to_lf(s.skip(2))
    } else {
        seq![s[0]] + crlf_to_lf(s.skip(1))
    }
}

fn lf_lines(s: &[char]) -> (out: Vec<char>)
    ensures
        out@ == crlf_to_lf(s@),
{
    let mut out: Vec<char> = Vec::new();
    let mut i: usize = 0;
    assert(s@.skip(0) =~= s@);
    assert(out@ + crlf_to_lf(s@) =~= crlf_to_lf(s@));
    while i < s.len()
        invariant
            i <= s@.len(),
            out@ + crlf_to_lf(s@.skip(i as int)) == crlf_to_lf(s@),
        decreases s@.len() - i,
    {
        let ghost rest = s@.skip(i as int);
        if i + 1 < s.len() && s[i] == '\r' && s[i + 1] == '\n' {
            assert(rest.skip(2) =~= s@.skip(i + 2));
            out.push('\n');
            assert(out@ + crlf_to_lf(s@.skip(i + 2)) =~= crlf_to_lf(s@)) by {
                assert(crlf_to_lf(rest) == seq!['\n'] + crlf_to_lf(rest.skip(2)));
            }
            i += 2;
        } else {
            assert(rest.skip(1) =~= s@.skip(i + 1));
            out.push(s[i]);
            assert(out@ + crlf_to_lf(s@.skip(i + 1)) =~= crlf_to_lf(s@)) by {
                assert(crlf_to_lf(rest) == seq![rest[0]] + crlf_to_lf(rest.skip(1)));
            }
            i += 1;
        }
    }
    assert(s@.skip(i as int) =~= Seq::<char>::empty());
    assert(out@ + Seq::<char>::empty() =~= out@);
    out
}

fn copy_strings(v: &Vec<String>) -> (out: Vec<String>)
    ensures
        strings_view(out@) == strings_view(v@),
{
    let mut out: Vec<String> = Vec::new();
    let mut k: usize = 0;
    while k < v.len()
        invariant
            k <= v@.len(),
            strings_view(out@) == strings_view(v@).take(k as int),
        decreases v@.len() - k,
    {
        let t = v[k].clone();
        let ghost before = out@;
        out.push(t);
        assert(strings_view(out@) =~= strings_view(before).push(t@));
        assert(strings_view(v@).take(k + 1) =~= strings_view(v@).take(k as int).push(v@[k as int]@));
        k += 1;
    }
    assert(strings_view(v@).take(v@.len() as int) =~= strings_view(v@));
    out
}

fn copy_bytes(v: &Vec<u8>) -> (out: Vec<u8>)
    ensures
        out@ == v@,
{
    let mut out: Vec<u8> = Vec::new();
    let mut k: usize = 0;
    while k < v.len()
        invariant
            k <= v@.len(),
            out@ == v@.take(k as int),
        decreases v@.len() - k,
    {
        out.push(v[k]);
        assert(v@.take(k + 1) =~= v@.take(k as int).push(v@[k as int]));
        k += 1;
    }
    assert(v@.take(v@.len() as int) =~= v@);
    out
}

impl NamedTemplate {
    /// A known template whose source text is `content`; line ends written
    /// `\r\n` become `\n`.
    pub fn new(name: String, template: String, content: &str, parameters: Option<TemplateParameters>) -> (t: Self)
        ensures
            t@.name == name@,
            t@.template == template@,
            t@.bytes == encode_utf8(crlf_to_lf(content@)),
            t@.parameters == (match parameters {
                Some(p) => Some(strings_view(p.stop@)),
                None => None,
            }),
    {
        let text = string_from(&lf_lines(&chars_of(content)));
        let bytes = crate::tool_calls::bytes_of(text.as_str());
        NamedTemplate { name, template, bytes, parameters }
    }

    /// The template's source, as bytes.
    pub fn bytes(&self) -> (b: &[u8])
        ensures
            b@ == self@.bytes,
    {
        self.bytes.as_slice()
    }

    /// The same template again.
    pub fn duplicate(&self) -> (t: Self)
        ensures
            t@ == self@,
    {
        let parameters = match &self.parameters {
            Some(p) => Some(TemplateParameters { stop: copy_strings(&p.stop) }),
            None => None,
        };
        NamedTemplate {
            name: self.name.clone(),
            template: self.template.clone(),
            bytes: copy_bytes(&self.bytes),
            parameters,
        }
    }
}

/// Why no template could be had.
#[derive(Debug, Clone, PartialEq, Eq)]
pub enum Error {
    MissingTemplate(String),
    NoMatchingTemplate,
}

/// The message of a template error.
pub open spec fn error_message(e: Error) -> Seq<char> {
    match e {
        Error::MissingTemplate(f) => "template not found: "@ + f@,
        Error::NoMatchingTemplate => "no matching template found"@,
    }
}

impl Error {
    /// The error's message.
    pub fn to_string(&self) -> (s: String)
        ensures
            s@ == error_message(*self),
    {
        match self {
            Error::MissingTemplate(f) => {
                let mut out = string_from(&chars_of("template not found: "));
                push_chars(&mut out, &chars_of(f.as_str()));
                out
            },
            Error::NoMatchingTemplate => string_from(&chars_of("no matching template found")),
        }
    }
}

/// The least of three numbers.
pub open spec fn min3(x: nat, y: nat, z: nat) -> nat {
    if x <= y && x <= z {
        x
    } else if y <= z {
        y
    } else {
        z
    }
}

/// The Levenshtein distance between two texts: the least number of
/// one-character insertions, deletions and substitutions that turn `a`
/// into `b`.
pub open spec fn levenshtein_distance(a: Seq<char>, b: Seq<char>) -> nat
    decreases a.len() + b.len(),
{
    if a.len() == 0 {
        b.len()
    } else if b.len() == 0 {
        a.len()
    } else {
        min3(
            levenshtein_distance(a.drop_last(), b) + 1,
            levenshtein_distance(a, b.drop_last()) + 1,
            levenshtein_distance(a.drop_last(), b.drop_last()) + if a.last() == b.last() {
                0nat
            } else {
                1nat
            },
        )
    }
}

/// The distance is zero exactly between equal texts.
pub proof fn lemma_levenshtein_zero(a: Seq<char>, b: Seq<char>)
    ensures
        (levenshtein_distance(a, b) == 0) == (a == b),
    decreases a.len() + b.len(),
{
    if a.len() > 0 && b.len() > 0 {
        lemma_levenshtein_zero(a.drop_last(), b.drop_last());
        if a == b {
            assert(a.drop_last() == b.drop_last());
        }
        if levenshtein_distance(a, b) == 0 {
            assert(a.last() == b.last());
            assert(a.drop_last() == b.drop_last());
            assert(a =~= a.drop_last().push(a.last()));
            assert(b =~= b.drop_last().push(b.last()));
        }
    } else if a.len() == 0 && b.len() == 0 {
        assert(a =~= b);
    }
}

/// `strsim::levenshtein`: the Levenshtein distance of the two texts, taken
/// over their characters.
#[verifier::external_body]
fn levenshtein(a: &str, b: &str) -> (d: usize)
    ensures
        d == levenshtein_distance(a@, b@),
{
    strsim::levenshtein(a, b)
}

/// Whether `r` picks from the distances `d` the first of the least, when
/// it is below 100, and nothing when none is.
pub open spec fn first_best(d: Seq<int>, r: Option<int>) -> bool {
    match r {
        Some(i) => {
            &&& 0 <= i < d.len()
            &&& d[i] < 100
            &&& forall|j: int| 0 <= j < d.len() ==> d[i] <= #[trigger] d[j]
            &&& forall|j: int| 0 <= j < i ==> d[i] < #[trigger] d[j]
        },
        None => forall|j: int| 0 <= j < d.len() ==> #[trigger] d[j] >= 100,
    }
}

/// The distances as integers.
pub open spec fn ints(d: Seq<usize>) -> Seq<int> {
    d.map_values(|x: usize| x as int)
}

/// The first of the least distances, when it is below 100.
pub fn pick_best(d: &[usize]) -> (r: Option<usize>)
    ensures
        first_best(ints(d@), match r {
            Some(i) => Some(i as int),
            None => None,
        }),
{
    let ghost dv = ints(d@);
    let mut best: Option<usize> = None;
    let mut score: usize = usize::MAX;
    let mut k: usize = 0;
    while k < d.len()
        invariant
            k <= d@.len(),
            dv == ints(d@),
            dv.len() == d@.len(),
            match best {
                Some(i) => {
                    &&& i < k
                    &&& dv[i as int] == score
                    &&& forall|j: int| 0 <= j < k ==> dv[i as int] <= #[trigger] dv[j]
                    &&& forall|j: int| 0 <= j < i ==> dv[i as int] < #[trigger] dv[j]
                },
                None => score == usize::MAX && forall|j: int| 0 <= j < k ==> #[trigger] dv[j]
                    == usize::MAX,
            },
        decreases d@.len() - k,
    {
        assert(dv[k as int] == d@[k as int] as int);
        if d[k] < score {
            score = d[k];
            best = Some(k);
        }
        k += 1;
    }
    if score < 100 {
        best
    } else {
        None
    }
}

/// The distances from `t` to the template texts of `cands`.
pub open spec fn template_distances(t: Seq<char>, cands: Seq<NamedTemplate>) -> Seq<int> {
    cands.map_values(|c: NamedTemplate| levenshtein_distance(t, c@.template) as int)
}

/// The known template whose template text is nearest to `template`, the
/// first of the nearest, when it is fewer than 100 edits away.
pub fn named(template: &str, candidates: &[NamedTemplate]) -> (r: Result<NamedTemplate, Error>)
    ensures
        match r {
            Ok(t) => exists|i: int|
                first_best(template_distances(template@, candidates@), Some(i)) && t@
                    == #[trigger] candidates@[i]@,
            Err(e) => first_best(template_distances(template@, candidates@), None) && e
                == Error::NoMatchingTemplate,
        },
        (exists|i: int| 0 <= i < candidates@.len() && #[trigger] candidates@[i]@.template == template@)
            ==> (r is Ok && r->Ok_0@.template == template@),
{
    let ghost ds = template_distances(template@, candidates@);
    let mut d: Vec<usize> = Vec::new();
    let mut k: usize = 0;
    while k < candidates.len()
        invariant
            k <= candidates@.len(),
            ds == template_distances(template@, candidates@),
            ints(d@) == ds.take(k as int),
            forall|j: int| 0 <= j < k ==> (#[trigger] ds[j] == 0) == (candidates@[j]@.template == template@),
        decreases candidates@.len() - k,
    {
        let x = levenshtein(template, candidates[k].template.as_str());
        proof {
            lemma_levenshtein_zero(template@, candidates[k as int].template@);
        }
        assert(candidates@[k as int].template@ == candidates@[k as int]@.template);
        assert(ds[k as int] == x as int);
        let ghost before = d@;
        d.push(x);
        assert(ints(d@) =~= ints(before).push(x as int));
        assert(ints(d@) =~= ds.take(k + 1));
        k += 1;
    }
    assert(ds.take(candidates@.len() as int) =~= ds);
    assert(ints(d@) == ds);
    let r = pick_best(&d);
    proof {
        if exists|i: int| 0 <= i < candidates@.len() && #[trigger] candidates@[i]@.template == template@ {
            let i = choose|i: int| 0 <= i < candidates@.len() && #[trigger] candidates@[i]@.template == template@;
            assert(ds[i] == 0);
            assert forall|j: int| 0 <= j < ds.len() implies #[trigger] ds[j] >= 0 by {}
            match r {
                Some(b) => {
                    assert(ds[b as int] <= ds[i]);
                },
                None => {
                    assert(ds[i] >= 100);
                },
            }
        }
    }
    match r {
        Some(i) => Ok(candidates[i].duplicate()),
        None => Err(Error::NoMatchingTemplate),
    }
}

// ---------------------------------------------------------------------------
// Conversations
// ---------------------------------------------------------------------------

/// A chat message as the templates read it.
pub struct ChatMessage {
    pub role: String,
    pub content: String,
}

/// Messages as (role, content) pairs.
pub open spec fn messages_view(v: Seq<ChatMessage>) -> Seq<(Seq<char>, Seq<char>)> {
    v.map_values(|m: ChatMessage| (m.role@, m.content@))
}

/// The blank line that joins texts.
pub open spec fn para() -> Seq<char> {
    seq!['\n', '\n']
}

/// The texts `p` joined by blank lines.
pub open spec fn join_paras(p: Seq<Seq<char>>) -> Seq<char>
    decreases p.len(),
{
    if p.len() == 0 {
        Seq::empty()
    } else if p.len() == 1 {
        p[0]
    } else {
        join_paras(p.drop_last()) + para() + p.last()
    }
}

/// Collating so far: the system texts met, and the runs made, each with
/// its role, its content and the index of its first message.
pub type CollateState = (Seq<Seq<char>>, Seq<(Seq<char>, Seq<char>, int)>);

/// One message collated: a system message's text is kept aside, and a
/// message of the same role as the run before it (but for tool results)
/// joins that run after a blank line.
pub open spec fn collate_step(st: CollateState, m: (Seq<char>, Seq<char>), i: int) -> CollateState {
    let sys = if m.0 == "system"@ {
        st.0.push(m.1)
    } else {
        st.0
    };
    let out = st.1;
    if out.len() > 0 && out.last().0 == m.0 && m.0 != "tool"@ {
        (sys, out.update(out.len() - 1, (m.0, out.last().1 + para() + m.1, out.last().2)))
    } else {
        (sys, out.push((m.0, m.1, i)))
    }
}

/// The first `n` messages collated.
pub open spec fn collate_upto(ms: Seq<(Seq<char>, Seq<char>)>, n: nat) -> CollateState
    decreases n,
{
    if n == 0 {
        (Seq::empty(), Seq::empty())
    } else {
        collate_step(collate_upto(ms, (n - 1) as nat), ms[n - 1], n - 1)
    }
}

/// The messages collated: the system texts joined by blank lines, and the
/// runs.
pub open spec fn spec_collate(ms: Seq<(Seq<char>, Seq<char>)>) -> (Seq<char>, Seq<(Seq<char>, Seq<char>, int)>) {
    let st = collate_upto(ms, ms.len());
    (join_paras(st.0), st.1)
}

/// Collated messages: the system text, the runs, and for each run the
/// index of its first message.
pub struct Collated {
    pub system: String,
    pub messages: Vec<ChatMessage>,
    pub first: Vec<usize>,
}

/// The runs of collated messages.
pub open spec fn runs_view(m: Seq<ChatMessage>, f: Seq<usize>) -> Seq<(Seq<char>, Seq<char>, int)> {
    Seq::new(m.len(), |k: int| (m[k].role@, m[k].content@, f[k] as int))
}

fn is_role(role: &String, name: &str) -> (r: bool)
    ensures
        r == (role@ == name@),
{
    chars_eq(&chars_of(role.as_str()), &chars_of(name))
}

/// Consecutive messages of one role (but for tool results) made one, their
/// texts joined by blank lines; the system messages' texts joined apart.
pub fn collate(messages: &[ChatMessage]) -> (c: Collated)
    ensures
        c.messages@.len() == c.first@.len(),
        (c.system@, runs_view(c.messages@, c.first@)) == spec_collate(messages_view(messages@)),
{
    let ghost ms = messages_view(messages@);
    let mut system = String::new();
    let mut any_sys = false;
    let mut out: Vec<ChatMessage> = Vec::new();
    let mut first: Vec<usize> = Vec::new();
    let mut i: usize = 0;
    while i < messages.len()
        invariant
            i <= messages@.len(),
            ms == messages_view(messages@),
            ms.len() == messages@.len(),
            out@.len() == first@.len(),
            any_sys == (collate_upto(ms, i as nat).0.len() > 0),
            system@ == join_paras(collate_upto(ms, i as nat).0),
            runs_view(out@, first@) == collate_upto(ms, i as nat).1,
            forall|k: int| 0 <= k < first@.len() ==> first@[k] < i,
        decreases messages@.len() - i,
    {
        let m = &messages[i];
        let ghost st = collate_upto(ms, i as nat);
        assert(ms[i as int] == (m.role@, m.content@));
        if is_role(&m.role, "system") {
            if any_sys {
                push_chars(&mut system, &chars_of("\n\n"));
                proof { reveal_strlit("\n\n"); }
                assert("\n\n"@ =~= para());
            }
            push_chars(&mut system, &chars_of(m.content.as_str()));
            proof {
                let p = st.0.push(m.content@);
                assert(p.drop_last() =~= st.0);
                if !any_sys {
                    assert(system@ =~= p[0]);
                }
            }
            any_sys = true;
        }
        let n = out.len();
        let mut joined = false;
        if n > 0 {
            if is_role(&out[n - 1].role, m.role.as_str()) && !is_role(&m.role, "tool") {
                joined = true;
            }
        }
        if joined {
            assert(runs_view(out@, first@)[n - 1] == st.1.last());
            let ghost old_out = out@;
            let last = out.pop().unwrap();
            assert(last == old_out[n - 1]);
            let mut content = last.content;
            push_chars(&mut content, &chars_of("\n\n"));
            proof { reveal_strlit("\n\n"); }
            assert("\n\n"@ =~= para());
            push_chars(&mut content, &chars_of(m.content.as_str()));
            out.push(ChatMessage { role: last.role, content });
            assert(out@ =~= old_out.update(n - 1, out@[n - 1]));
            assert(out@[n - 1].content@ =~= st.1.last().1 + para() + m.content@);
            assert(runs_view(out@, first@) =~= st.1.update(
                st.1.len() - 1,
                (m.role@, st.1.last().1 + para() + m.content@, st.1.last().2),
            ));
        } else {
            out.push(ChatMessage { role: m.role.clone(), content: m.content.clone() });
            first.push(i);
            assert(runs_view(out@, first@) =~= st.1.push((m.role@, m.content@, i as int)));
        }
        i += 1;
    }
    assert(ms.len() == i);
    Collated { system, messages: out, first }
}

/// A turn as older templates show it: a system text, a prompt and a
/// response.
pub struct Turn {
    pub system: String,
    pub prompt: String,
    pub response: String,
}

/// Turns as triples.
pub open spec fn turns_view(v: Seq<Turn>) -> Seq<(Seq<char>, Seq<char>, Seq<char>)> {
    v.map_values(|t: Turn| (t.system@, t.prompt@, t.response@))
}

/// The turn `(s, p, r)` added, unless all three are empty.
pub open spec fn emit(
    t: Seq<(Seq<char>, Seq<char>, Seq<char>)>,
    s: Seq<char>,
    p: Seq<char>,
    r: Seq<char>,
) -> Seq<(Seq<char>, Seq<char>, Seq<char>)> {
    if s.len() == 0 && p.len() == 0 && r.len() == 0 {
        t
    } else {
        t.push((s, p, r))
    }
}

/// Cutting into turns so far: the system text, prompt and response of the
/// turn under way, and the turns done.
pub type LegacyState = (Seq<char>, Seq<char>, Seq<char>, Seq<(Seq<char>, Seq<char>, Seq<char>)>);

/// One message taken into the turns: a system message closes a turn that
/// has a prompt or a response, a user message one that has a response, and
/// an assistant message gives the response; other roles are left out.
pub open spec fn legacy_step(st: LegacyState, m: (Seq<char>, Seq<char>)) -> LegacyState {
    let (s, p, r, t) = st;
    if m.0 == "system"@ {
        if p.len() > 0 || r.len() > 0 {
            (m.1, Seq::empty(), Seq::empty(), t.push((s, p, r)))
        } else {
            (m.1, p, r, t)
        }
    } else if m.0 == "user"@ {
        if r.len() > 0 {
            (Seq::empty(), m.1, Seq::empty(), t.push((s, p, r)))
        } else {
            (s, m.1, r, t)
        }
    } else if m.0 == "assistant"@ {
        (s, p, m.1, t)
    } else {
        st
    }
}

/// The first `n` messages taken into turns, starting from the system text.
pub open spec fn legacy_upto(system: Seq<char>, ms: Seq<(Seq<char>, Seq<char>)>, n: nat) -> LegacyState
    decreases n,
{
    if n == 0 {
        (system, Seq::empty(), Seq::empty(), Seq::empty())
    } else {
        legacy_step(legacy_upto(system, ms, (n - 1) as nat), ms[n - 1])
    }
}

/// The turns of a conversation: the last turn is closed with its prompt
/// and no response.
pub open spec fn spec_legacy_turns(system: Seq<char>, ms: Seq<(Seq<char>, Seq<char>)>) -> Seq<
    (Seq<char>, Seq<char>, Seq<char>),
> {
    let st = legacy_upto(system, ms, ms.len());
    emit(st.3, st.0, st.1, Seq::empty())
}

fn copy_string(s: &String) -> (r: String)
    ensures
        r@ == s@,
{
    s.clone()
}

/// The turns, in order, that an older template is filled with for the
/// collated `messages`; see `spec_legacy_turns`.
pub fn legacy_turns(system: &str, messages: &[ChatMessage]) -> (t: Vec<Turn>)
    ensures
        turns_view(t@) == spec_legacy_turns(system@, messages_view(messages@)),
{
    let ghost ms = messages_view(messages@);
    let mut s = string_from(&chars_of(system));
    let mut p = String::new();
    let mut r = String::new();
    let mut turns: Vec<Turn> = Vec::new();
    let mut i: usize = 0;
    while i < messages.len()
        invariant
            i <= messages@.len(),
            ms == messages_view(messages@),
            ms.len() == messages@.len(),
            (s@, p@, r@, turns_view(turns@)) == legacy_upto(system@, ms, i as nat),
        decreases messages@.len() - i,
    {
        let m = &messages[i];
        let ghost before = turns@;
        assert(ms[i as int] == (m.role@, m.content@));
        let pl = chars_of(p.as_str()).len();
        let rl = chars_of(r.as_str()).len();
        if is_role(&m.role, "system") {
            if pl > 0 || rl > 0 {
                turns.push(Turn { system: s, prompt: p, response: r });
                assert(turns_view(turns@) =~= turns_view(before).push((s@, p@, r@)));
                p = String::new();
                r = String::new();
            }
            s = copy_string(&m.content);
        } else if is_role(&m.role, "user") {
            if rl > 0 {
                turns.push(Turn { system: s, prompt: p, response: r });
                assert(turns_view(turns@) =~= turns_view(before).push((s@, p@, r@)));
                s = String::new();
                r = String::new();
            }
            p = copy_string(&m.content);
        } else if is_role(&m.role, "assistant") {
            r = copy_string(&m.content);
        }
        i += 1;
    }
    let sl = chars_of(s.as_str()).len();
    let pl = chars_of(p.as_str()).len();
    if sl > 0 || pl > 0 {
        let ghost before = turns@;
        turns.push(Turn { system: s, prompt: p, response: String::new() });
        assert(turns_view(turns@) =~= turns_view(before).push((s@, p@, Seq::<char>::empty())));
    }
    turns
}


/// How many runs the first `n` messages make: a message starts a run
/// unless it follows a message of its own role that is not a tool result.
pub open spec fn run_starts(ms: Seq<(Seq<char>, Seq<char>)>, n: nat) -> nat
    decreases n,
{
    if n == 0 {
        0
    } else {
        run_starts(ms, (n - 1) as nat) + if n >= 2 && ms[n - 2].0 == ms[n - 1].0 && ms[n - 1].0
            != "tool"@ {
            0nat
        } else {
            1nat
        }
    }
}

proof fn lemma_collate_runs(ms: Seq<(Seq<char>, Seq<char>)>, n: nat)
    requires
        n <= ms.len(),
    ensures
        ({
            let out = collate_upto(ms, n).1;
            &&& out.len() == run_starts(ms, n)
            &&& n == 0 <==> out.len() == 0
            &&& n > 0 ==> out.last().0 == ms[n - 1].0
            &&& forall|k: int|
                #![trigger out[k]]
                0 < k < out.len() && out[k - 1].0 == out[k].0 ==> out[k].0 == "tool"@
            &&& forall|k: int|
                #![trigger out[k]]
                0 <= k < out.len() ==> 0 <= out[k].2 < n && ms[out[k].2].0 == out[k].0
        }),
    decreases n,
{
    if n > 0 {
        lemma_collate_runs(ms, (n - 1) as nat);
        let out0 = collate_upto(ms, (n - 1) as nat).1;
        let out = collate_upto(ms, n).1;
        let m = ms[n - 1];
        if out0.len() > 0 && out0.last().0 == m.0 && m.0 != "tool"@ {
            assert forall|k: int| 0 <= k < out.len() implies #[trigger] out[k].0 == out0[k].0 by {}
            assert forall|k: int|
                #![trigger out[k]]
                0 < k < out.len() && out[k - 1].0 == out[k].0 implies out[k].0 == "tool"@ by {
                assert(out0[k].0 == out[k].0);
                assert(out0[k - 1].0 == out[k - 1].0);
            }
        } else {
            assert forall|k: int|
                #![trigger out[k]]
                0 < k < out.len() && out[k - 1].0 == out[k].0 implies out[k].0 == "tool"@ by {
                if k < out0.len() {
                    assert(out[k] == out0[k]);
                    assert(out[k - 1] == out0[k - 1]);
                }
            }
        }
    }
}

proof fn lemma_collate_prefix(ms: Seq<(Seq<char>, Seq<char>)>, m: (Seq<char>, Seq<char>), n: nat)
    requires
        n <= ms.len(),
    ensures
        collate_upto(ms.push(m), n) == collate_upto(ms, n),
    decreases n,
{
    if n > 0 {
        lemma_collate_prefix(ms, m, (n - 1) as nat);
        assert(ms.push(m)[n - 1] == ms[n - 1]);
    }
}

/// The text of a system message; nothing for another message.
pub open spec fn system_text(m: (Seq<char>, Seq<char>)) -> Option<Seq<char>> {
    if m.0 == "system"@ {
        Some(m.1)
    } else {
        None
    }
}

proof fn lemma_collate_system(ms: Seq<(Seq<char>, Seq<char>)>, n: nat)
    requires
        n <= ms.len(),
    ensures
        collate_upto(ms, n).0 == ms.take(n as int).filter_map(|m: (Seq<char>, Seq<char>)| system_text(m)),
    decreases n,
{
    if n == 0 {
        assert(ms.take(0) =~= Seq::<(Seq<char>, Seq<char>)>::empty());
    } else {
        lemma_collate_system(ms, (n - 1) as nat);
        let t = ms.take(n as int);
        assert(t.drop_last() =~= ms.take(n - 1));
        assert(t.last() == ms[n - 1]);
        let m = ms[n - 1];
        let s0 = collate_upto(ms, (n - 1) as nat).0;
        if m.0 == "system"@ {
            assert(collate_upto(ms, n).0 =~= s0 + seq![m.1]);
        } else {
            assert(collate_upto(ms, n).0 =~= s0);
        }
    }
}

/// The system text of collated messages is the texts of the system
/// messages, in order, joined by blank lines.
pub proof fn law_collate_system_text(ms: Seq<(Seq<char>, Seq<char>)>)
    ensures
        spec_collate(ms).0 == join_paras(ms.filter_map(|m: (Seq<char>, Seq<char>)| system_text(m))),
{
    lemma_collate_system(ms, ms.len());
    assert(ms.take(ms.len() as int) =~= ms);
}

/// Collated runs never repeat a role side by side, but for tool results,
/// and there is one run per message that starts one (see `run_starts`);
/// each run has the role of the message it starts with.
pub proof fn law_collate_merges_same_role(ms: Seq<(Seq<char>, Seq<char>)>)
    ensures
        ({
            let runs = spec_collate(ms).1;
            &&& runs.len() == run_starts(ms, ms.len())
            &&& forall|k: int|
                #![trigger runs[k]]
                0 < k < runs.len() && runs[k - 1].0 == runs[k].0 ==> runs[k].0 == "tool"@
            &&& forall|k: int|
                #![trigger runs[k]]
                0 <= k < runs.len() ==> 0 <= runs[k].2 < ms.len() && ms[runs[k].2].0 == runs[k].0
        }),
{
    lemma_collate_runs(ms, ms.len());
}

/// A message that follows one of its own role, other than a tool result,
/// is added to the last run after a blank line; the runs before stay.
pub proof fn law_collate_appends_to_last_run(
    ms: Seq<(Seq<char>, Seq<char>)>,
    m: (Seq<char>, Seq<char>),
)
    requires
        ms.len() > 0,
        ms.last().0 == m.0,
        m.0 != "tool"@,
    ensures
        ({
            let before = spec_collate(ms).1;
            let after = spec_collate(ms.push(m)).1;
            &&& after.len() == before.len()
            &&& after.drop_last() == before.drop_last()
            &&& after.last().0 == m.0
            &&& after.last().1 == before.last().1 + seq!['\n', '\n'] + m.1
        }),
{
    lemma_collate_runs(ms, ms.len());
    lemma_collate_prefix(ms, m, ms.len());
    assert(ms.push(m)[ms.len() as int] == m);
    let before = spec_collate(ms).1;
    let after = spec_collate(ms.push(m)).1;
    assert(after.drop_last() =~= before.drop_last());
}

} // verus!
