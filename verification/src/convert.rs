//! JSON schemas turned into grammar rules: objects, arrays, strings,
//! numbers, references and unions.

use vstd::prelude::*;
use crate::schema::{RuleV, rule_index, spec_add_rule, join, spec_build_repetition, build_repetition};
use crate::grammar::{ConvV, SchemaConverter, texts_view};
use crate::builtin::{builtin, builtin_rule, spec_add_primitive};
use crate::json::{Json, JsonV, jv, jvs, jentries, member, get};
use crate::text::{chars_eq, chars_of, extend_chars, decimal, decimal_chars};

verus! {

// ---------------------------------------------------------------------------
// Strings other than given ones
// ---------------------------------------------------------------------------

/// The total length of the strings.
pub open spec fn total_len(s: Seq<Seq<char>>) -> nat
    decreases s.len(),
{
    if s.len() == 0 {
        0
    } else {
        total_len(s.drop_last()) + s.last().len()
    }
}

/// Whether one of the strings starts with `c`.
pub open spec fn has_start(s: Seq<Seq<char>>, c: char) -> bool {
    exists|k: int| 0 <= k < s.len() && s[k].len() > 0 && #[trigger] s[k][0] == c
}

/// Whether one of the strings is not empty.
pub open spec fn has_nonempty(s: Seq<Seq<char>>) -> bool {
    exists|k: int| 0 <= k < s.len() && #[trigger] s[k].len() > 0
}

/// Whether one of the strings is empty.
pub open spec fn has_empty(s: Seq<Seq<char>>) -> bool {
    exists|k: int| 0 <= k < s.len() && #[trigger] s[k].len() == 0
}

/// The strings that start with `c`, with that `c` taken off.
pub open spec fn after(s: Seq<Seq<char>>, c: char) -> Seq<Seq<char>>
    decreases s.len(),
{
    if s.len() == 0 {
        Seq::empty()
    } else {
        let rest = after(s.drop_last(), c);
        let l = s.last();
        if l.len() > 0 && l[0] == c {
            rest.push(l.drop_first())
        } else {
            rest
        }
    }
}

pub open spec fn is_char_code(code: int) -> bool {
    0 <= code < 0x110000 && !(0xD800 <= code <= 0xDFFF)
}

/// Taking off a first character leaves less text.
pub proof fn lemma_after_shorter(s: Seq<Seq<char>>, c: char)
    ensures
        total_len(after(s, c)) <= total_len(s),
        has_start(s, c) ==> total_len(after(s, c)) < total_len(s),
    decreases s.len(),
{
    if s.len() > 0 {
        lemma_after_shorter(s.drop_last(), c);
        let rest = after(s.drop_last(), c);
        let l = s.last();
        if l.len() > 0 && l[0] == c {
            assert(rest.push(l.drop_first()).drop_last() =~= rest);
            assert(total_len(rest.push(l.drop_first())) == total_len(rest) + l.len() - 1);
        }
        if has_start(s, c) && !(s.last().len() > 0 && s.last()[0] == c) {
            let k = choose|k: int| 0 <= k < s.len() && s[k].len() > 0 && #[trigger] s[k][0] == c;
            assert(s.drop_last()[k][0] == c);
        }
    }
}

/// The alternatives of a trie node for the first characters from `code`
/// on, in character order, and those characters: each character in
/// brackets, then what may follow it.
pub open spec fn alts_from(s: Seq<Seq<char>>, code: int, cr: Seq<char>, first: bool) -> (
    Seq<char>,
    Seq<char>,
)
    decreases total_len(s), 0x110000 - code, 0nat,
{
    if code < 0 || code >= 0x110000 {
        (Seq::empty(), Seq::empty())
    } else if !is_char_code(code) || !has_start(s, code as char) {
        alts_from(s, code + 1, cr, first)
    } else {
        let c = code as char;
        let child = after(s, c);
        proof {
            lemma_after_shorter(s, c);
        }
        let tail = if has_nonempty(child) {
            seq![' ', '('] + node_text(child, cr) + seq![')']
        } else if has_empty(child) {
            seq![' '] + cr + seq!['+']
        } else {
            Seq::empty()
        };
        let piece = (if first {
            Seq::empty()
        } else {
            seq![' ', '|', ' ']
        }) + seq!['[', c, ']'] + tail;
        let (rest, rej) = alts_from(s, code + 1, cr, false);
        (piece + rest, seq![c] + rej)
    }
}

/// The grammar text of a trie node holding the strings `s`: its
/// alternatives, then any other first character followed by anything.
pub open spec fn node_text(s: Seq<Seq<char>>, cr: Seq<char>) -> Seq<char>
    decreases total_len(s), 0x110001int, 0nat,
{
    let (t, rej) = alts_from(s, 0, cr, true);
    if has_nonempty(s) {
        t + " | [^\""@ + rej + "] "@ + cr + seq!['*']
    } else {
        t
    }
}

/// The body of a rule for any JSON string but the `strings`, with `cr` the
/// name of the character rule.
pub open spec fn not_strings_text(strings: Seq<Seq<char>>, cr: Seq<char>) -> Seq<char> {
    "[\"] ( "@ + node_text(strings, cr) + " )"@ + (if has_empty(strings) {
        Seq::empty()
    } else {
        seq!['?']
    }) + " [\"] space"@
}


proof fn lemma_alts_skip(s: Seq<Seq<char>>, lo: int, hi: int, cr: Seq<char>, first: bool)
    requires
        0 <= lo <= hi <= 0x110000,
        forall|k: int| lo <= k < hi && is_char_code(k) ==> !has_start(s, #[trigger] (k as char)),
    ensures
        alts_from(s, lo, cr, first) == alts_from(s, hi, cr, first),
    decreases hi - lo,
{
    if lo < hi {
        lemma_alts_skip(s, lo + 1, hi, cr, first);
    }
}

proof fn lemma_char_code(c: char)
    ensures
        is_char_code(c as int),
        (c as int) as char == c,
{
}

/// The smallest first character, from the code `lo` on, of the strings.
fn min_start_from(s: &Vec<Vec<char>>, lo: u32) -> (r: Option<char>)
    ensures
        match r {
            Some(c) => has_start(texts_view(s@), c) && lo <= c as int && forall|k: int|
                lo <= k < (c as int) && is_char_code(k) ==> !has_start(
                    texts_view(s@),
                    #[trigger] (k as char),
                ),
            None => forall|k: int|
                lo <= k && is_char_code(k) ==> !has_start(texts_view(s@), #[trigger] (k as char)),
        },
{
    let ghost sv = texts_view(s@);
    let mut best: Option<char> = None;
    let mut i: usize = 0;
    while i < s.len()
        invariant
            i <= s@.len(),
            sv == texts_view(s@),
            match best {
                Some(c) => lo <= c as int && (exists|k: int|
                    0 <= k < i && sv[k].len() > 0 && #[trigger] sv[k][0] == c) && forall|k: int|
                    0 <= k < i && sv[k].len() > 0 && lo <= (sv[k][0] as int) ==> (c as int)
                        <= (#[trigger] sv[k][0] as int),
                None => forall|k: int|
                    0 <= k < i && sv[k].len() > 0 ==> (#[trigger] sv[k][0] as int) < lo,
            },
        decreases s@.len() - i,
    {
        assert(sv[i as int] == s@[i as int]@);
        if s[i].len() > 0 {
            let c = s[i][0];
            assert(sv[i as int][0] == c);
            proof {
                lemma_char_code(c);
            }
            if (c as u32) >= lo {
                match best {
                    Some(b) => {
                        proof {
                            lemma_char_code(b);
                        }
                        if (c as u32) < (b as u32) {
                            best = Some(c);
                        }
                    },
                    None => {
                        best = Some(c);
                    },
                }
            }
        }
        i += 1;
    }
    proof {
        match best {
            Some(c) => {
                assert forall|k: int| lo <= k < (c as int) && is_char_code(k) implies !has_start(
                    sv,
                    #[trigger] (k as char),
                ) by {
                    if has_start(sv, k as char) {
                        let j = choose|j: int| 0 <= j < sv.len() && sv[j].len() > 0 && #[trigger] sv[j][0]
                            == k as char;
                        lemma_char_code(sv[j][0]);
                        assert((k as char) as int == k);
                    }
                }
            },
            None => {
                assert forall|k: int| lo <= k && is_char_code(k) implies !has_start(
                    sv,
                    #[trigger] (k as char),
                ) by {
                    if has_start(sv, k as char) {
                        let j = choose|j: int| 0 <= j < sv.len() && sv[j].len() > 0 && #[trigger] sv[j][0]
                            == k as char;
                        assert((k as char) as int == k);
                    }
                }
            },
        }
    }
    best
}

fn after_exec(s: &Vec<Vec<char>>, c: char) -> (out: Vec<Vec<char>>)
    ensures
        texts_view(out@) == after(texts_view(s@), c),
{
    let ghost sv = texts_view(s@);
    let mut out: Vec<Vec<char>> = Vec::new();
    let mut i: usize = 0;
    while i < s.len()
        invariant
            i <= s@.len(),
            sv == texts_view(s@),
            texts_view(out@) == after(sv.take(i as int), c),
        decreases s@.len() - i,
    {
        assert(sv.take(i + 1).drop_last() =~= sv.take(i as int));
        assert(sv.take(i + 1).last() == s@[i as int]@);
        if s[i].len() > 0 && s[i][0] == c {
            let t = crate::text::slice_chars(&s[i], 1, s[i].len());
            let ghost before = out@;
            out.push(t);
            assert(texts_view(out@) =~= texts_view(before).push(s@[i as int]@.drop_first()));
        }
        i += 1;
    }
    assert(sv.take(s@.len() as int) =~= sv);
    out
}

fn has_nonempty_exec(s: &Vec<Vec<char>>) -> (r: bool)
    ensures
        r == has_nonempty(texts_view(s@)),
{
    let mut i: usize = 0;
    while i < s.len()
        invariant
            i <= s@.len(),
            forall|k: int| 0 <= k < i ==> #[trigger] s@[k]@.len() == 0,
        decreases s@.len() - i,
    {
        if s[i].len() > 0 {
            assert(texts_view(s@)[i as int].len() > 0);
            return true;
        }
        i += 1;
    }
    assert forall|k: int| 0 <= k < s@.len() implies #[trigger] texts_view(s@)[k].len() == 0 by {
        assert(texts_view(s@)[k] == s@[k]@);
    }
    false
}

fn has_empty_exec(s: &Vec<Vec<char>>) -> (r: bool)
    ensures
        r == has_empty(texts_view(s@)),
{
    let mut i: usize = 0;
    while i < s.len()
        invariant
            i <= s@.len(),
            forall|k: int| 0 <= k < i ==> #[trigger] s@[k]@.len() > 0,
        decreases s@.len() - i,
    {
        if s[i].len() == 0 {
            assert(texts_view(s@)[i as int].len() == 0);
            return true;
        }
        i += 1;
    }
    assert forall|k: int| 0 <= k < s@.len() implies #[trigger] texts_view(s@)[k].len() > 0 by {
        assert(texts_view(s@)[k] == s@[k]@);
    }
    false
}

fn node_text_exec(s: &Vec<Vec<char>>, cr: &[char]) -> (out: Vec<char>)
    ensures
        out@ == node_text(texts_view(s@), cr@),
    decreases total_len(texts_view(s@)),
{
    let ghost sv = texts_view(s@);
    let mut t: Vec<char> = Vec::new();
    let mut rej: Vec<char> = Vec::new();
    let mut lo: u32 = 0;
    let mut first = true;
    while lo < 0x110000
        invariant
            lo <= 0x110000,
            sv == texts_view(s@),
            alts_from(sv, 0, cr@, true) == (t@ + alts_from(sv, lo as int, cr@, first).0, rej@
                + alts_from(sv, lo as int, cr@, first).1),
        decreases 0x110000 - lo,
    {
        match min_start_from(s, lo) {
            None => {
                proof {
                    lemma_alts_skip(sv, lo as int, 0x110000, cr@, first);
                }
                lo = 0x110000;
            },
            Some(c) => {
                proof {
                    lemma_char_code(c);
                    lemma_alts_skip(sv, lo as int, c as int, cr@, first);
                    lemma_after_shorter(sv, c);
                }
                let child = after_exec(s, c);
                let ghost cv = texts_view(child@);
                let mut piece: Vec<char> = Vec::new();
                if !first {
                    piece.push(' ');
                    piece.push('|');
                    piece.push(' ');
                }
                piece.push('[');
                piece.push(c);
                piece.push(']');
                let ghost head = piece@;
                if has_nonempty_exec(&child) {
                    piece.push(' ');
                    piece.push('(');
                    let inner = node_text_exec(&child, cr);
                    extend_chars(&mut piece, &inner);
                    piece.push(')');
                    assert(piece@ =~= head + (seq![' ', '('] + node_text(cv, cr@) + seq![')']));
                } else if has_empty_exec(&child) {
                    piece.push(' ');
                    extend_chars(&mut piece, cr);
                    piece.push('+');
                    assert(piece@ =~= head + (seq![' '] + cr@ + seq!['+']));
                } else {
                    assert(piece@ =~= head + Seq::<char>::empty());
                }
                let ghost before_t = t@;
                let ghost before_r = rej@;
                extend_chars(&mut t, &piece);
                rej.push(c);
                let ghost a = alts_from(sv, c as int + 1, cr@, false);
                assert(alts_from(sv, c as int, cr@, first) == (piece@ + a.0, seq![c] + a.1));
                assert(t@ + a.0 =~= before_t + (piece@ + a.0));
                assert(rej@ + a.1 =~= before_r + (seq![c] + a.1));
                lo = c as u32 + 1;
                first = false;
            },
        }
    }
    assert(alts_from(sv, lo as int, cr@, first) == (Seq::<char>::empty(), Seq::<char>::empty()));
    assert(t@ =~= t@ + Seq::<char>::empty());
    assert(rej@ =~= rej@ + Seq::<char>::empty());
    if has_nonempty_exec(s) {
        extend_chars(&mut t, &chars_of(" | [^\""));
        extend_chars(&mut t, &rej);
        extend_chars(&mut t, &chars_of("] "));
        extend_chars(&mut t, cr);
        t.push('*');
    }
    t
}

impl SchemaConverter {
    /// A rule body for any JSON string but the `strings`; adds the `char`
    /// rule it uses.
    pub fn not_strings(&mut self, strings: &Vec<Vec<char>>) -> (out: Vec<char>)
        ensures
            ({
                let (c2, cr) = spec_add_primitive(
                    old(self)@,
                    "char"@,
                    crate::builtin::builtin_body("char"@),
                    crate::builtin::builtin_deps("char"@),
                );
                &&& final(self)@ == c2
                &&& out@ == not_strings_text(texts_view(strings@), cr)
            }),
    {
        let ch = chars_of("char");
        let (content, deps) = builtin_rule(&ch).unwrap();
        let cr = self.add_primitive(&ch, &content, deps);
        let mut out = chars_of("[\"] ( ");
        let inner = node_text_exec(strings, &cr);
        extend_chars(&mut out, &inner);
        extend_chars(&mut out, &chars_of(" )"));
        if !has_empty_exec(strings) {
            out.push('?');
        }
        extend_chars(&mut out, &chars_of(" [\"] space"));
        out
    }
}


// ---------------------------------------------------------------------------
// References
// ---------------------------------------------------------------------------

/// The index of the entry named `key`, from index `i` on, or -1.
pub open spec fn key_index(refs: Seq<(Seq<char>, JsonV)>, key: Seq<char>, i: int) -> int
    decreases refs.len() - i,
{
    if i < 0 || i >= refs.len() {
        -1
    } else if refs[i].0 == key {
        i
    } else {
        key_index(refs, key, i + 1)
    }
}

/// `refs` with `key` set to `v`: in place when it is there, else at the end.
pub open spec fn refs_insert(refs: Seq<(Seq<char>, JsonV)>, key: Seq<char>, v: JsonV) -> Seq<
    (Seq<char>, JsonV),
> {
    let k = key_index(refs, key, 0);
    if k >= 0 {
        refs.update(k, (key, v))
    } else {
        refs.push((key, v))
    }
}

/// Where resolving references stands: the targets found so far, by
/// reference, and the errors met.
pub struct ResV {
    pub refs: Seq<(Seq<char>, JsonV)>,
    pub errors: Seq<Seq<char>>,
}

/// The text before the first `#` of `r`, and the text between it and the
/// next `#` (empty when there is none).
pub open spec fn ref_parts(r: Seq<char>) -> (Seq<char>, Seq<char>) {
    let p = crate::schema::spec_split(r, seq!['#']);
    (p[0], if p.len() > 1 {
        p[1]
    } else {
        Seq::empty()
    })
}

/// The reference `r` looked up in `target` at `ptr`: recorded when found,
/// an error otherwise.
pub open spec fn resolve_lookup(st: ResV, r: Seq<char>, target: JsonV, ptr: Seq<char>) -> ResV {
    match crate::json::json_pointer(target, ptr) {
        Some(v) => ResV { refs: refs_insert(st.refs, r, v), ..st },
        None => ResV {
            errors: st.errors.push("Error resolving ref "@ + r + ": "@ + ptr + " not found"@),
            ..st
        },
    }
}

/// Resolving the reference `r` met in the schema `root`: nothing when it
/// is known already; a remote one (`https://`) looked up in its document,
/// which is fetched as null; a local one (`#/...`) looked up in `root`;
/// any other is an error.
pub open spec fn resolve_one(root: JsonV, st: ResV, r: Seq<char>) -> ResV {
    if key_index(st.refs, r, 0) >= 0 {
        st
    } else if crate::text::starts_with(r, "https://"@) {
        let (base, ptr) = ref_parts(r);
        let st1 = if key_index(st.refs, base, 0) >= 0 {
            st
        } else {
            ResV { refs: refs_insert(st.refs, base, JsonV::Null), ..st }
        };
        let target = match crate::json::entries_get(st1.refs, base, 0) {
            Some(t) => t,
            None => JsonV::Null,
        };
        if ptr.len() == 0 {
            st1
        } else {
            resolve_lookup(st1, r, target, ptr)
        }
    } else if crate::text::starts_with(r, "#/"@) {
        let (_, ptr) = ref_parts(r);
        if ptr.len() == 0 {
            st
        } else {
            resolve_lookup(st, r, root, ptr)
        }
    } else {
        ResV { errors: st.errors.push("Unsupported ref: "@ + r), ..st }
    }
}

/// Resolving every reference in `node`, members and items in order; an
/// object with a string `$ref` is that reference and nothing more.
pub open spec fn resolve_node(root: JsonV, st: ResV, node: JsonV) -> ResV
    decreases node,
{
    match node {
        JsonV::Array(items) => resolve_list(root, st, items),
        JsonV::Object(e) => match crate::json::entries_get(e, "$ref"@, 0) {
            Some(JsonV::Str(r)) => resolve_one(root, st, r),
            _ => resolve_entries(root, st, e),
        },
        _ => st,
    }
}

pub open spec fn resolve_list(root: JsonV, st: ResV, items: Seq<JsonV>) -> ResV
    decreases items,
{
    if items.len() == 0 {
        st
    } else {
        resolve_list(root, resolve_node(root, st, items[0]), items.drop_first())
    }
}

pub open spec fn resolve_entries(root: JsonV, st: ResV, e: Seq<(Seq<char>, JsonV)>) -> ResV
    decreases e,
{
    if e.len() == 0 {
        st
    } else {
        resolve_entries(root, resolve_node(root, st, e[0].1), e.drop_first())
    }
}


// ---------------------------------------------------------------------------
// The converter for JSON schemas
// ---------------------------------------------------------------------------

/// A grammar converter together with the targets of the references found
/// in the schema.
pub struct JsonConverter {
    conv: SchemaConverter,
    refs: Vec<(Vec<char>, Json)>,
    stuck: bool,
}

/// What a JSON converter holds: the grammar converter, the resolved
/// references, and whether the conversion got stuck.
pub struct JcV {
    pub conv: ConvV,
    pub refs: Seq<(Seq<char>, JsonV)>,
    pub stuck: bool,
}

impl View for JsonConverter {
    type V = JcV;

    closed spec fn view(&self) -> JcV {
        JcV { conv: self.conv@, refs: jentries(self.refs@), stuck: self.stuck }
    }
}

fn key_index_exec(refs: &Vec<(Vec<char>, Json)>, key: &[char]) -> (r: Option<usize>)
    ensures
        match r {
            Some(k) => k < refs@.len() && key_index(jentries(refs@), key@, 0) == k as int,
            None => key_index(jentries(refs@), key@, 0) == -1,
        },
{
    let ghost rv = jentries(refs@);
    let mut i: usize = 0;
    while i < refs.len()
        invariant
            i <= refs@.len(),
            rv == jentries(refs@),
            key_index(rv, key@, i as int) == key_index(rv, key@, 0),
        decreases refs@.len() - i,
    {
        assert(rv[i as int].0 == refs@[i as int].0@);
        if chars_eq(&refs[i].0, key) {
            return Some(i);
        }
        i += 1;
    }
    None
}

fn refs_insert_exec(refs: &mut Vec<(Vec<char>, Json)>, key: Vec<char>, v: Json)
    ensures
        jentries(final(refs)@) == refs_insert(jentries(old(refs)@), key@, jv(v)),
{
    let ghost r0 = jentries(refs@);
    match key_index_exec(refs, &key) {
        Some(k) => {
            let ghost kv = key@;
            let ghost vv = jv(v);
            refs.set(k, (key, v));
            assert(jentries(refs@) =~= r0.update(k as int, (kv, vv)));
        },
        None => {
            let ghost kv = key@;
            let ghost vv = jv(v);
            refs.push((key, v));
            assert(jentries(refs@) =~= r0.push((kv, vv)));
        },
    }
}

fn ref_parts_exec(r: &[char]) -> (out: (Vec<char>, Vec<char>))
    ensures
        (out.0@, out.1@) == ref_parts(r@),
{
    let hash: Vec<char> = vec!['#'];
    assert(hash@ =~= seq!['#']);
    let p = crate::schema::string_split(r, &hash);
    proof {
        crate::schema::lemma_split_nonempty(r@, seq!['#']);
        assert(crate::schema::pieces_view(p@)[0] == p@[0]@);
    }
    let first = crate::json::copy_chars(&p[0]);
    if p.len() > 1 {
        assert(crate::schema::pieces_view(p@)[1] == p@[1]@);
        (first, crate::json::copy_chars(&p[1]))
    } else {
        (first, Vec::new())
    }
}

impl JsonConverter {
    /// A converter with no references known, holding only the `space` rule.
    pub fn new(dotall: bool) -> (c: Self)
        ensures
            c@.conv == crate::grammar::fresh_conv(dotall),
            c@.refs.len() == 0,
            !c@.stuck,
    {
        let c = JsonConverter { conv: SchemaConverter::new(dotall), refs: Vec::new(), stuck: false };
        assert(c@.refs =~= Seq::<(Seq<char>, JsonV)>::empty());
        c
    }

    spec fn res_view(&self) -> ResV {
        ResV { refs: jentries(self.refs@), errors: self.conv@.errors }
    }

    fn lookup_exec(&mut self, r: &[char], target: &Json, ptr: &[char])
        ensures
            final(self).res_view() == resolve_lookup(old(self).res_view(), r@, jv(*target), ptr@),
            final(self).conv@ == (ConvV { errors: final(self).conv@.errors, ..old(self).conv@ }),
            final(self).stuck == old(self).stuck,
    {
        match crate::json::pointer(target, ptr) {
            Some(v) => {
                let vc = crate::json::json_clone(v);
                refs_insert_exec(&mut self.refs, crate::json::copy_chars(r), vc);
            },
            None => {
                let mut t = chars_of("Error resolving ref ");
                extend_chars(&mut t, r);
                extend_chars(&mut t, &chars_of(": "));
                extend_chars(&mut t, ptr);
                extend_chars(&mut t, &chars_of(" not found"));
                assert(t@ =~= "Error resolving ref "@ + r@ + ": "@ + ptr@ + " not found"@);
                self.conv.push_error_text(t);
            },
        }
    }

    fn resolve_one_exec(&mut self, root: &Json, r: &[char])
        ensures
            final(self).res_view() == resolve_one(jv(*root), old(self).res_view(), r@),
            final(self).conv@ == (ConvV { errors: final(self).conv@.errors, ..old(self).conv@ }),
            final(self).stuck == old(self).stuck,
    {
        if key_index_exec(&self.refs, r).is_some() {
            return;
        }
        if crate::text::starts_with_chars(r, &chars_of("https://")) {
            let (base, ptr) = ref_parts_exec(r);
            if key_index_exec(&self.refs, &base).is_none() {
                refs_insert_exec(&mut self.refs, crate::json::copy_chars(&base), Json::Null);
            }
            let target: Json = match crate::json::entries_lookup(&self.refs, &base) {
                Some(t) => crate::json::json_clone(t),
                None => Json::Null,
            };
            if ptr.len() == 0 {
                return;
            }
            self.lookup_exec(r, &target, &ptr);
        } else if crate::text::starts_with_chars(r, &chars_of("#/")) {
            let (_, ptr) = ref_parts_exec(r);
            if ptr.len() == 0 {
                return;
            }
            self.lookup_exec(r, root, &ptr);
        } else {
            let mut t = chars_of("Unsupported ref: ");
            extend_chars(&mut t, r);
            self.conv.push_error_text(t);
        }
    }

    fn resolve_node_exec(&mut self, root: &Json, node: &Json)
        ensures
            final(self).res_view() == resolve_node(jv(*root), old(self).res_view(), jv(*node)),
            final(self).conv@ == (ConvV { errors: final(self).conv@.errors, ..old(self).conv@ }),
            final(self).stuck == old(self).stuck,
        decreases node,
    {
        match node {
            Json::Array(items) => {
                self.resolve_list_exec(root, items);
            },
            Json::Object(entries) => {
                let key = chars_of("$ref");
                match get(node, &key) {
                    Some(Json::Str(r)) => {
                        self.resolve_one_exec(root, r);
                    },
                    _ => {
                        self.resolve_entries_exec(root, entries);
                    },
                }
            },
            _ => {},
        }
    }

    fn resolve_list_exec(&mut self, root: &Json, items: &Vec<Json>)
        ensures
            final(self).res_view() == resolve_list(jv(*root), old(self).res_view(), jvs(items@)),
            final(self).conv@ == (ConvV { errors: final(self).conv@.errors, ..old(self).conv@ }),
            final(self).stuck == old(self).stuck,
        decreases items@,
    {
        let ghost iv = jvs(items@);
        let mut i: usize = 0;
        assert(iv.skip(0) =~= iv);
        while i < items.len()
            invariant
                i <= items@.len(),
                iv == jvs(items@),
                resolve_list(jv(*root), old(self).res_view(), iv) == resolve_list(
                    jv(*root),
                    self.res_view(),
                    iv.skip(i as int),
                ),
                self.conv@ == (ConvV { errors: self.conv@.errors, ..old(self).conv@ }),
                self.stuck == old(self).stuck,
            decreases items@.len() - i,
        {
            assert(iv.skip(i as int)[0] == jv(items@[i as int]));
            assert(iv.skip(i as int).drop_first() =~= iv.skip(i + 1));
            self.resolve_node_exec(root, &items[i]);
            i += 1;
        }
        assert(iv.skip(i as int) =~= Seq::<JsonV>::empty());
    }

    fn resolve_entries_exec(&mut self, root: &Json, entries: &Vec<(Vec<char>, Json)>)
        ensures
            final(self).res_view() == resolve_entries(jv(*root), old(self).res_view(), jentries(entries@)),
            final(self).conv@ == (ConvV { errors: final(self).conv@.errors, ..old(self).conv@ }),
            final(self).stuck == old(self).stuck,
        decreases entries@,
    {
        let ghost ev = jentries(entries@);
        let mut i: usize = 0;
        assert(ev.skip(0) =~= ev);
        while i < entries.len()
            invariant
                i <= entries@.len(),
                ev == jentries(entries@),
                resolve_entries(jv(*root), old(self).res_view(), ev) == resolve_entries(
                    jv(*root),
                    self.res_view(),
                    ev.skip(i as int),
                ),
                self.conv@ == (ConvV { errors: self.conv@.errors, ..old(self).conv@ }),
                self.stuck == old(self).stuck,
            decreases entries@.len() - i,
        {
            assert(ev.skip(i as int)[0] == (entries@[i as int].0@, jv(entries@[i as int].1)));
            assert(ev.skip(i as int).drop_first() =~= ev.skip(i + 1));
            self.resolve_node_exec(root, &entries[i].1);
            i += 1;
        }
        assert(ev.skip(i as int) =~= Seq::<(Seq<char>, JsonV)>::empty());
    }

    /// Finds the target of every reference in `schema` and records it;
    /// see `resolve_node`.  Local references are looked up in `schema`
    /// itself.
    pub fn resolve_refs(&mut self, schema: &Json)
        ensures
            ({
                let r = resolve_node(
                    jv(*schema),
                    ResV { refs: old(self)@.refs, errors: old(self)@.conv.errors },
                    jv(*schema),
                );
                &&& final(self)@.refs == r.refs
                &&& final(self)@.conv == (ConvV { errors: r.errors, ..old(self)@.conv })
                &&& final(self)@.stuck == old(self)@.stuck
            }),
    {
        self.resolve_node_exec(schema, schema);
    }
}


// ---------------------------------------------------------------------------
// Schemas to rules: the specification
// ---------------------------------------------------------------------------

/// Where the conversion stands: the converter, and whether it got stuck (a
/// pattern that stalls, a nesting deeper than the depth allowed, or a
/// number that would overflow where the conversion does arithmetic on it).
pub struct VisV {
    pub conv: ConvV,
    pub stuck: bool,
}

pub open spec fn vrule(st: VisV, name: Seq<char>, rule: Seq<char>) -> (VisV, Seq<char>) {
    let (n, r) = spec_add_rule(st.conv.rules, name, rule);
    (VisV { conv: ConvV { rules: r, ..st.conv }, ..st }, n)
}

/// The built-in rule `prim` added under a name made from `name`.
pub open spec fn vprim(st: VisV, name: Seq<char>, prim: Seq<char>) -> (VisV, Seq<char>) {
    let (c2, n) = spec_add_primitive(
        st.conv,
        name,
        crate::builtin::builtin_body(prim),
        crate::builtin::builtin_deps(prim),
    );
    (VisV { conv: c2, ..st }, n)
}

pub open spec fn verr(st: VisV, t: Seq<char>) -> VisV {
    VisV { conv: ConvV { errors: st.conv.errors.push(t), ..st.conv }, ..st }
}

pub open spec fn vstuck(st: VisV) -> VisV {
    VisV { stuck: true, ..st }
}

/// `-` after a non-empty name.
pub open spec fn name_sep(name: Seq<char>) -> Seq<char> {
    if name.len() == 0 {
        Seq::empty()
    } else {
        seq!['-']
    }
}

/// Names a schema's own rule may not take: `root` and the built-in ones.
pub open spec fn is_reserved(name: Seq<char>) -> bool {
    name == "root"@ || builtin(name) is Some
}

/// The built-in rules a schema `type` names.
pub open spec fn is_primitive(t: Seq<char>) -> bool {
    t == "boolean"@ || t == "decimal-part"@ || t == "integral-part"@ || t == "number"@ || t
        == "integer"@ || t == "value"@ || t == "object"@ || t == "array"@ || t == "uuid"@ || t
        == "char"@ || t == "string"@ || t == "null"@
}

/// A `format` that names a UUID: `uuid`, or `uuid` and one digit from 1 to 5.
pub open spec fn is_uuid_format(f: Seq<char>) -> bool {
    f == "uuid"@ || (f.len() == 5 && f.take(4) == "uuid"@ && '1' <= f[4] <= '5')
}

pub open spec fn as_i64(v: Option<JsonV>) -> Option<i64> {
    match v {
        Some(JsonV::Number(_, i)) => i,
        _ => None,
    }
}

pub open spec fn as_str(v: Option<JsonV>) -> Option<Seq<char>> {
    match v {
        Some(JsonV::Str(s)) => Some(s),
        _ => None,
    }
}

/// The strings among `items`.
pub open spec fn string_items(items: Seq<JsonV>) -> Seq<Seq<char>>
    decreases items.len(),
{
    if items.len() == 0 {
        Seq::empty()
    } else {
        let rest = string_items(items.drop_last());
        match items.last() {
            JsonV::Str(s) => rest.push(s),
            _ => rest,
        }
    }
}

/// The names a schema lists as `required`.
pub open spec fn required_of(schema: JsonV) -> Seq<Seq<char>> {
    match member(schema, "required"@) {
        Some(JsonV::Array(items)) => string_items(items),
        _ => Seq::empty(),
    }
}

/// The properties a schema lists, in order.
pub open spec fn properties_of(schema: JsonV) -> Seq<(Seq<char>, JsonV)> {
    match member(schema, "properties"@) {
        Some(JsonV::Object(e)) => e,
        _ => Seq::empty(),
    }
}

/// A constant as a grammar literal: its JSON text, quoted.
pub open spec fn constant_rule(v: JsonV) -> Seq<char> {
    crate::schema::spec_format_literal(crate::json::json_text(v))
}

pub open spec fn constant_rules(vals: Seq<JsonV>) -> Seq<Seq<char>> {
    vals.map_values(|v: JsonV| constant_rule(v))
}

/// `schema` with its `type` set to `t`.
pub open spec fn with_type(schema: JsonV, t: JsonV) -> JsonV {
    match schema {
        JsonV::Object(e) => JsonV::Object(refs_insert(e, "type"@, t)),
        _ => schema,
    }
}

/// The schema once for each of the `types`.
pub open spec fn type_variants(schema: JsonV, types: Seq<JsonV>) -> Seq<JsonV> {
    types.map_values(|t: JsonV| with_type(schema, t))
}

/// A `$ref`'s last path segment: the name its rule gets.
pub open spec fn ref_name(r: Seq<char>) -> Seq<char> {
    let p = crate::schema::spec_split(r, seq!['/']);
    p[p.len() - 1]
}

pub open spec fn being_has(being: Seq<Seq<char>>, r: Seq<char>) -> bool {
    exists|k: int| 0 <= k < being.len() && being[k] == r
}

/// What the properties of an object schema gave so far: the required and
/// the optional names, in order, the key-value rule made for each name,
/// and all names.
pub struct ObjAcc {
    pub req: Seq<Seq<char>>,
    pub opt: Seq<Seq<char>>,
    pub kv: Seq<(Seq<char>, Seq<char>)>,
    pub names: Seq<Seq<char>>,
}

pub open spec fn kv_get(kv: Seq<(Seq<char>, Seq<char>)>, k: Seq<char>) -> Seq<char> {
    match subs_find_kv(kv, k, 0) {
        Some(v) => v,
        None => Seq::empty(),
    }
}

pub open spec fn subs_find_kv(kv: Seq<(Seq<char>, Seq<char>)>, k: Seq<char>, i: int) -> Option<
    Seq<char>,
>
    decreases kv.len() - i,
{
    if i < 0 || i >= kv.len() {
        None
    } else if kv[i].0 == k {
        Some(kv[i].1)
    } else {
        subs_find_kv(kv, k, i + 1)
    }
}

/// `kv` with `k` set to `v`: in place when it is there, else at the end.
pub open spec fn kv_insert(kv: Seq<(Seq<char>, Seq<char>)>, k: Seq<char>, v: Seq<char>) -> Seq<
    (Seq<char>, Seq<char>),
> {
    match kv_index(kv, k, 0) {
        Some(i) => kv.update(i, (k, v)),
        None => kv.push((k, v)),
    }
}

pub open spec fn kv_index(kv: Seq<(Seq<char>, Seq<char>)>, k: Seq<char>, i: int) -> Option<int>
    decreases kv.len() - i,
{
    if i < 0 || i >= kv.len() {
        None
    } else if kv[i].0 == k {
        Some(i)
    } else {
        kv_index(kv, k, i + 1)
    }
}

pub open spec fn seq_has(s: Seq<Seq<char>>, x: Seq<char>) -> bool {
    exists|k: int| 0 <= k < s.len() && s[k] == x
}

/// The alternatives of an object's optional properties from `index` on:
/// the first one (or, when `first_is_optional`, a comma and it, optional),
/// then a rule for the rest; `*` stands for any further properties.
pub open spec fn recursive_refs(
    st: VisV,
    opt: Seq<Seq<char>>,
    kv: Seq<(Seq<char>, Seq<char>)>,
    name: Seq<char>,
    index: int,
    first_is_optional: bool,
) -> (VisV, Seq<char>)
    decreases opt.len() - index,
{
    if index < 0 || index >= opt.len() {
        (st, Seq::empty())
    } else {
        let k = opt[index];
        let kv_name = kv_get(kv, k);
        let comma_ref = "( \",\" space "@ + kv_name + " )"@;
        let res = if first_is_optional {
            if k == seq!['*'] {
                comma_ref + seq!['*']
            } else {
                comma_ref + seq!['?']
            }
        } else if k == seq!['*'] {
            kv_name + seq![' '] + comma_ref + seq!['*']
        } else {
            kv_name
        };
        if index + 1 < opt.len() {
            let (st1, rest) = recursive_refs(st, opt, kv, name, index + 1, true);
            if rest.len() > 0 {
                let (st2, rest_rule) = vrule(st1, name + name_sep(name) + k + "-rest"@, rest);
                (st2, if res.len() > 0 {
                    res + seq![' '] + rest_rule
                } else {
                    res + rest_rule
                })
            } else {
                (st1, res)
            }
        } else {
            (st, res)
        }
    }
}

/// The alternatives for starting with each optional property from `i` on,
/// added to `acc`.
pub open spec fn optional_alts(
    st: VisV,
    opt: Seq<Seq<char>>,
    kv: Seq<(Seq<char>, Seq<char>)>,
    name: Seq<char>,
    i: int,
    acc: Seq<char>,
) -> (VisV, Seq<char>)
    decreases opt.len() - i,
{
    if i < 0 || i >= opt.len() {
        (st, acc)
    } else {
        let (st1, r) = recursive_refs(st, opt, kv, name, i, false);
        let acc1 = if i > 0 {
            acc + " | "@ + r
        } else {
            acc + r
        };
        optional_alts(st1, opt, kv, name, i + 1, acc1)
    }
}

/// The rule body of an object from what its properties gave: the required
/// key-value rules in order, then the optional ones as alternatives.
pub open spec fn object_body(st: VisV, acc: ObjAcc, name: Seq<char>) -> (VisV, Seq<char>) {
    let req_rules = acc.req.map_values(|k: Seq<char>| kv_get(acc.kv, k));
    let head = "\"{\" space "@ + join(req_rules, " \",\" space "@);
    if acc.opt.len() == 0 {
        (st, head + " \"}\" space"@)
    } else {
        let open = head + " ("@ + (if acc.req.len() > 0 {
            " \",\" space ( "@
        } else {
            Seq::empty()
        });
        let (st1, alts) = optional_alts(st, acc.opt, acc.kv, name, 0, Seq::empty());
        (st1, open + alts + (if acc.req.len() > 0 {
            " )"@
        } else {
            Seq::empty()
        }) + " )?"@ + " \"}\" space"@)
    }
}

/// The properties collected from an `allOf` component: through a `$ref` to
/// its target, else the component's own `properties` (required when
/// `is_req`).  `None` when the chain of references is longer than `fuel`.
pub open spec fn add_component(
    refs: Seq<(Seq<char>, JsonV)>,
    comp: JsonV,
    is_req: bool,
    acc: (Seq<Seq<char>>, Seq<(Seq<char>, JsonV)>),
    fuel: nat,
) -> Option<(Seq<Seq<char>>, Seq<(Seq<char>, JsonV)>)>
    decreases fuel,
{
    if fuel == 0 {
        None
    } else {
        match member(comp, "$ref"@) {
            Some(JsonV::Str(r)) => match crate::json::entries_get(refs, r, 0) {
                Some(res) => add_component(refs, res, is_req, acc, (fuel - 1) as nat),
                None => Some(acc),
            },
            _ => match member(comp, "properties"@) {
                Some(JsonV::Object(e)) => Some(
                    (
                        if is_req {
                            acc.0 + e.map_values(|p: (Seq<char>, JsonV)| p.0)
                        } else {
                            acc.0
                        },
                        acc.1 + e,
                    ),
                ),
                _ => Some(acc),
            },
        }
    }
}

pub open spec fn any_of_components(
    refs: Seq<(Seq<char>, JsonV)>,
    xs: Seq<JsonV>,
    j: int,
    acc: (Seq<Seq<char>>, Seq<(Seq<char>, JsonV)>),
    fuel: nat,
) -> Option<(Seq<Seq<char>>, Seq<(Seq<char>, JsonV)>)>
    decreases xs.len() - j,
{
    if j < 0 || j >= xs.len() {
        Some(acc)
    } else {
        match add_component(refs, xs[j], false, acc, fuel) {
            Some(a) => any_of_components(refs, xs, j + 1, a, fuel),
            None => None,
        }
    }
}

/// The properties collected from the components of `allOf`: those of an
/// `anyOf` component optional, the others required.
pub open spec fn all_of_components(
    refs: Seq<(Seq<char>, JsonV)>,
    items: Seq<JsonV>,
    i: int,
    acc: (Seq<Seq<char>>, Seq<(Seq<char>, JsonV)>),
    fuel: nat,
) -> Option<(Seq<Seq<char>>, Seq<(Seq<char>, JsonV)>)>
    decreases items.len() - i,
{
    if i < 0 || i >= items.len() {
        Some(acc)
    } else {
        let a = match member(items[i], "anyOf"@) {
            Some(JsonV::Array(xs)) => any_of_components(refs, xs, 0, acc, fuel),
            _ => add_component(refs, items[i], true, acc, fuel),
        };
        match a {
            Some(a2) => all_of_components(refs, items, i + 1, a2, fuel),
            None => None,
        }
    }
}

/// The bounds of an integer schema: `minimum` (or `exclusiveMinimum` and
/// one) and `maximum` (or `exclusiveMaximum` less one), each cut to an
/// `i32`; `None` when the one added or taken away overflows.
pub open spec fn integer_bounds(schema: JsonV) -> Option<(i32, i32)> {
    let mn = match as_i64(member(schema, "minimum"@)) {
        Some(v) => Some(v as i32),
        None => match as_i64(member(schema, "exclusiveMinimum"@)) {
            Some(v) => if (v as i32) == i32::MAX {
                None
            } else {
                Some(((v as i32) + 1) as i32)
            },
            None => Some(i32::MIN),
        },
    };
    let mx = match as_i64(member(schema, "maximum"@)) {
        Some(v) => Some(v as i32),
        None => match as_i64(member(schema, "exclusiveMaximum"@)) {
            Some(v) => if (v as i32) == i32::MIN {
                None
            } else {
                Some(((v as i32) - 1) as i32)
            },
            None => Some(i32::MAX),
        },
    };
    match (mn, mx) {
        (Some(a), Some(b)) => Some((a, b)),
        _ => None,
    }
}

pub open spec fn i32_of(v: Option<i64>, default: i32) -> i32 {
    match v {
        Some(x) => x as i32,
        None => default,
    }
}


/// A `format` with a built-in string rule (`date-string` and the like).
pub open spec fn is_string_format(n: Seq<char>) -> bool {
    builtin(n) is Some && !is_primitive(n)
}

/// Whether the schema is an object with no members.
pub open spec fn is_empty_object(schema: JsonV) -> bool {
    match schema {
        JsonV::Object(e) => e.len() == 0,
        _ => false,
    }
}

/// The rule body for a string of `min` to `max` characters.
pub open spec fn sized_string_rule(rep: Seq<char>) -> Seq<char> {
    "\"\\\"\\\" "@ + rep + " \\\"\\\"\" space"@
}

/// A schema with none of the shapes above: a built-in rule when its
/// `type` names one, else an error.
pub open spec fn visit_fallback(st: VisV, schema: JsonV, rule_name: Seq<char>, tstr: Option<Seq<char>>) -> (
    VisV,
    Seq<char>,
) {
    match tstr {
        Some(t) => if is_primitive(t) {
            vprim(
                st,
                if rule_name == "root"@ {
                    "root"@
                } else {
                    t
                },
                t,
            )
        } else {
            (verr(st, "Unrecognized schema: "@ + crate::json::json_text(schema)), Seq::empty())
        },
        None => (verr(st, "Unrecognized schema: "@ + crate::json::json_text(schema)), Seq::empty()),
    }
}

/// The rule for `schema`, named after `name` (`root` when empty; a
/// reserved name gets a `-`): gives the converter afterwards and the name
/// of the rule (or, for some shapes, the rule text itself).  `refs` are the
/// resolved references, `being` those being resolved now; `fuel` bounds
/// the nesting.
pub open spec fn visit(
    refs: Seq<(Seq<char>, JsonV)>,
    being: Seq<Seq<char>>,
    st: VisV,
    schema: JsonV,
    name: Seq<char>,
    fuel: nat,
) -> (VisV, Seq<char>)
    decreases fuel, 1nat, 0nat,
{
    if st.stuck {
        (st, Seq::empty())
    } else if fuel == 0 {
        (vstuck(st), Seq::empty())
    } else {
        let f = (fuel - 1) as nat;
        let rule_name = if is_reserved(name) {
            name + seq!['-']
        } else if name.len() == 0 {
            "root"@
        } else {
            name
        };
        let ty = match member(schema, "type"@) {
            Some(t) => t,
            None => JsonV::Null,
        };
        match member(schema, "$ref"@) {
            Some(JsonV::Str(r)) => {
                let (st1, resolved) = resolve_ref(refs, being, st, r, f);
                vrule(st1, rule_name, resolved)
            },
            _ => match member(schema, "oneOf"@) {
                Some(JsonV::Array(alts)) => {
                    let (st1, rule) = union_from(refs, being, st, name, alts, 0, Seq::empty(), f);
                    vrule(st1, rule_name, rule)
                },
                _ => match member(schema, "anyOf"@) {
                    Some(JsonV::Array(alts)) => {
                        let (st1, rule) = union_from(refs, being, st, name, alts, 0, Seq::empty(), f);
                        vrule(st1, rule_name, rule)
                    },
                    _ => match ty {
                        JsonV::Array(types) => {
                            let (st1, rule) = union_from(
                                refs,
                                being,
                                st,
                                name,
                                type_variants(schema, types),
                                0,
                                Seq::empty(),
                                f,
                            );
                            vrule(st1, rule_name, rule)
                        },
                        _ => match member(schema, "const"@) {
                            Some(v) => vrule(st, rule_name, constant_rule(v) + " space"@),
                            None => match member(schema, "enum"@) {
                                Some(JsonV::Array(vals)) => vrule(
                                    st,
                                    rule_name,
                                    "("@ + join(constant_rules(vals), " | "@) + ") space"@,
                                ),
                                _ => visit_typed(refs, being, st, schema, name, rule_name, ty, f),
                            },
                        },
                    },
                },
            },
        }
    }
}

/// The rule for a schema by its `type`: objects, `allOf`, arrays and
/// tuples, strings (patterns, formats, lengths), bounded integers, and the
/// built-in rules.
pub open spec fn visit_typed(
    refs: Seq<(Seq<char>, JsonV)>,
    being: Seq<Seq<char>>,
    st: VisV,
    schema: JsonV,
    name: Seq<char>,
    rule_name: Seq<char>,
    ty: JsonV,
    f: nat,
) -> (VisV, Seq<char>)
    decreases f + 1, 0nat, 0nat,
{
    let tstr = match ty {
        JsonV::Str(t) => Some(t),
        _ => None,
    };
    let tnull = ty is Null;
    let is_obj = tnull || tstr == Some("object"@);
    let addl = member(schema, "additionalProperties"@);
    let format = match as_str(member(schema, "format"@)) {
        Some(x) => x,
        None => Seq::empty(),
    };
    if is_obj && (member(schema, "properties"@) is Some || (addl is Some && addl != Some(
        JsonV::Bool(true),
    ))) {
        let additional = match addl {
            Some(JsonV::Bool(false)) => None,
            x => x,
        };
        let (st1, rule) = object_rule(
            refs,
            being,
            st,
            properties_of(schema),
            required_of(schema),
            name,
            additional,
            f,
        );
        vrule(st1, rule_name, rule)
    } else if is_obj && member(schema, "allOf"@) is Some {
        let comps = match member(schema, "allOf"@) {
            Some(JsonV::Array(items)) => all_of_components(
                refs,
                items,
                0,
                (Seq::empty(), Seq::empty()),
                f,
            ),
            _ => Some((Seq::empty(), Seq::empty())),
        };
        match comps {
            None => (vstuck(st), Seq::empty()),
            Some((req, props)) => {
                let (st1, rule) = object_rule(refs, being, st, props, req, name, None, f);
                vrule(st1, rule_name, rule)
            },
        }
    } else if (tnull || tstr == Some("array"@)) && (member(schema, "items"@) is Some || member(
        schema,
        "prefixItems"@,
    ) is Some) {
        let items = match member(schema, "items"@) {
            Some(x) => x,
            None => match member(schema, "prefixItems"@) {
                Some(x) => x,
                None => JsonV::Null,
            },
        };
        match items {
            JsonV::Array(arr) => {
                let (st1, body) = tuple_from(refs, being, st, name, arr, 0, "\"[\" space "@, f);
                vrule(st1, rule_name, body + " \"]\" space"@)
            },
            _ => {
                let (st1, item_rule) = visit(
                    refs,
                    being,
                    st,
                    items,
                    name + name_sep(name) + "item"@,
                    f,
                );
                let mn = i32_of(as_i64(member(schema, "minItems"@)), 0);
                let mx = i32_of(as_i64(member(schema, "maxItems"@)), i32::MAX);
                if !crate::schema::repetition_ok(mn, mx, "\",\" space"@) {
                    (vstuck(st1), Seq::empty())
                } else {
                    vrule(
                        st1,
                        rule_name,
                        "\"[\" space "@ + spec_build_repetition(
                            item_rule,
                            mn as int,
                            mx as int,
                            "\",\" space"@,
                        ) + " \"]\" space"@,
                    )
                }
            },
        }
    } else if tnull || tstr == Some("string"@) {
        match as_str(member(schema, "pattern"@)) {
            Some(p) => {
                let (c2, used, stalled) = crate::grammar::spec_visit_pattern(
                    st.conv,
                    vstd::utf8::encode_utf8(p),
                    rule_name,
                );
                (VisV { conv: c2, stuck: st.stuck || stalled }, if stalled {
                    Seq::empty()
                } else {
                    used
                })
            },
            None => if is_uuid_format(format) {
                vprim(
                    st,
                    if rule_name == "root"@ {
                        "root"@
                    } else {
                        "uuid"@
                    },
                    "uuid"@,
                )
            } else if is_string_format(format + "-string"@) {
                let (st1, r) = vprim(st, format + "-string"@, format + "-string"@);
                vrule(st1, rule_name, r)
            } else if tstr == Some("string"@) && (member(schema, "minLength"@) is Some || member(
                schema,
                "maxLength"@,
            ) is Some) {
                let (st1, cr) = vprim(st, "char"@, "char"@);
                let mn = i32_of(as_i64(member(schema, "minLength"@)), 0);
                let mx = i32_of(as_i64(member(schema, "maxLength"@)), i32::MAX);
                vrule(
                    st1,
                    rule_name,
                    sized_string_rule(spec_build_repetition(cr, mn as int, mx as int, Seq::empty())),
                )
            } else {
                visit_fallback(st, schema, rule_name, tstr)
            },
        }
    } else if tstr == Some("integer"@) && (member(schema, "minimum"@) is Some || member(
        schema,
        "exclusiveMinimum"@,
    ) is Some || member(schema, "maximum"@) is Some || member(schema, "exclusiveMaximum"@) is Some) {
        match integer_bounds(schema) {
            None => (vstuck(st), Seq::empty()),
            Some((mn, mx)) => if !crate::schema::mm_ok(mn, mx, 16, true) {
                (vstuck(st), Seq::empty())
            } else {
                vrule(
                    st,
                    rule_name,
                    "("@ + crate::schema::spec_min_max_int(mn, mx, 16, true) + ") space"@,
                )
            },
        }
    } else if is_empty_object(schema) || tstr == Some("object"@) {
        let (st1, r) = vprim(st, "object"@, "object"@);
        vrule(st1, rule_name, r)
    } else {
        visit_fallback(st, schema, rule_name, tstr)
    }
}

/// The rule a `$ref` stands for: its last path segment as the name, and
/// its target converted under that name unless a rule of that name is
/// there or the reference is being resolved already.
pub open spec fn resolve_ref(
    refs: Seq<(Seq<char>, JsonV)>,
    being: Seq<Seq<char>>,
    st: VisV,
    r: Seq<char>,
    f: nat,
) -> (VisV, Seq<char>)
    decreases f, 1nat, 1nat,
{
    let rn = ref_name(r);
    if rule_index(st.conv.rules, rn) >= 0 || being_has(being, r) {
        (st, rn)
    } else {
        match crate::json::entries_get(refs, r, 0) {
            Some(resolved) => visit(refs, being.push(r), st, resolved, rn, f),
            None => (st, rn),
        }
    }
}

/// The alternatives from `i` on, each converted under the name with its
/// number, joined with ` | `.
pub open spec fn union_from(
    refs: Seq<(Seq<char>, JsonV)>,
    being: Seq<Seq<char>>,
    st: VisV,
    name: Seq<char>,
    alts: Seq<JsonV>,
    i: int,
    acc: Seq<Seq<char>>,
    f: nat,
) -> (VisV, Seq<char>)
    decreases f, 1nat, alts.len() - i + 1,
{
    if i < 0 || i >= alts.len() {
        (st, join(acc, " | "@))
    } else {
        let alt_name = name + (if name.len() == 0 {
            "alternative-"@
        } else {
            seq!['-']
        }) + decimal(i as nat);
        let (st1, r) = visit(refs, being, st, alts[i], alt_name, f);
        union_from(refs, being, st1, name, alts, i + 1, acc.push(r), f)
    }
}

/// The items of a tuple from `i` on, each converted under the name with
/// `tuple-` and its number, added to `acc` with commas between.
pub open spec fn tuple_from(
    refs: Seq<(Seq<char>, JsonV)>,
    being: Seq<Seq<char>>,
    st: VisV,
    name: Seq<char>,
    items: Seq<JsonV>,
    i: int,
    acc: Seq<char>,
    f: nat,
) -> (VisV, Seq<char>)
    decreases f, 1nat, items.len() - i + 1,
{
    if i < 0 || i >= items.len() {
        (st, acc)
    } else {
        let (st1, r) = visit(
            refs,
            being,
            st,
            items[i],
            name + name_sep(name) + "tuple-"@ + decimal(i as nat),
            f,
        );
        let acc1 = (if i > 0 {
            acc + " \",\" space "@
        } else {
            acc
        }) + r;
        tuple_from(refs, being, st1, name, items, i + 1, acc1, f)
    }
}

/// The properties from `i` on: each converted, then a key-value rule for
/// it, and its name filed as required or optional.
pub open spec fn props_from(
    refs: Seq<(Seq<char>, JsonV)>,
    being: Seq<Seq<char>>,
    st: VisV,
    props: Seq<(Seq<char>, JsonV)>,
    req: Seq<Seq<char>>,
    name: Seq<char>,
    i: int,
    acc: ObjAcc,
    f: nat,
) -> (VisV, ObjAcc)
    decreases f, 1nat, props.len() - i + 1,
{
    if i < 0 || i >= props.len() {
        (st, acc)
    } else {
        let pn = props[i].0;
        let (st1, prn) = visit(refs, being, st, props[i].1, name + name_sep(name) + pn, f);
        let (st2, kv) = vrule(
            st1,
            name + name_sep(name) + pn + "-kv"@,
            crate::schema::spec_format_literal(crate::json::str_text(pn)) + " space \":\" space "@
                + prn,
        );
        let acc1 = ObjAcc {
            req: if seq_has(req, pn) {
                acc.req.push(pn)
            } else {
                acc.req
            },
            opt: if seq_has(req, pn) {
                acc.opt
            } else {
                acc.opt.push(pn)
            },
            kv: kv_insert(acc.kv, pn, kv),
            names: acc.names.push(pn),
        };
        props_from(refs, being, st2, props, req, name, i + 1, acc1, f)
    }
}

/// The rule body of an object schema with the given properties, required
/// names and schema for further properties (none when they are not
/// allowed).
pub open spec fn object_rule(
    refs: Seq<(Seq<char>, JsonV)>,
    being: Seq<Seq<char>>,
    st: VisV,
    props: Seq<(Seq<char>, JsonV)>,
    req: Seq<Seq<char>>,
    name: Seq<char>,
    additional: Option<JsonV>,
    f: nat,
) -> (VisV, Seq<char>)
    decreases f, 1nat, props.len() + 2,
{
    let empty = ObjAcc { req: Seq::empty(), opt: Seq::empty(), kv: Seq::empty(), names: Seq::empty() };
    let (st1, acc) = props_from(refs, being, st, props, req, name, 0, empty, f);
    match additional {
        Some(a) => {
            let sub = name + name_sep(name) + "additional"@;
            let (sa, value_rule) = match a {
                JsonV::Object(_) => visit(refs, being, st1, a, sub + "-value"@, f),
                _ => vprim(st1, "value"@, "value"@),
            };
            let (sb, key_rule) = if acc.names.len() == 0 {
                vprim(sa, "string"@, "string"@)
            } else {
                let (sc, cr) = vprim(sa, "char"@, "char"@);
                vrule(sc, sub + "-k"@, not_strings_text(acc.names, cr))
            };
            let (sd, kv) = vrule(sb, sub + "-kv"@, key_rule + " \":\" space "@ + value_rule);
            object_body(
                sd,
                ObjAcc { opt: acc.opt.push(seq!['*']), kv: kv_insert(acc.kv, seq!['*'], kv), ..acc },
                name,
            )
        },
        None => object_body(st1, acc, name),
    }
}


// ---------------------------------------------------------------------------
// Schemas to rules: the running code
// ---------------------------------------------------------------------------

pub open spec fn vis_of(j: JcV) -> VisV {
    VisV { conv: j.conv, stuck: j.stuck }
}

spec fn kv_view(v: Seq<(Vec<char>, Vec<char>)>) -> Seq<(Seq<char>, Seq<char>)> {
    crate::schema::rules_view(v)
}

fn kv_index_exec(kv: &Vec<(Vec<char>, Vec<char>)>, k: &[char]) -> (r: Option<usize>)
    ensures
        match r {
            Some(i) => i < kv@.len() && kv_index(kv_view(kv@), k@, 0) == Some(i as int),
            None => kv_index(kv_view(kv@), k@, 0) is None,
        },
{
    let ghost v = kv_view(kv@);
    let mut i: usize = 0;
    while i < kv.len()
        invariant
            i <= kv@.len(),
            v == kv_view(kv@),
            kv_index(v, k@, i as int) == kv_index(v, k@, 0),
        decreases kv@.len() - i,
    {
        if chars_eq(&kv[i].0, k) {
            return Some(i);
        }
        i += 1;
    }
    None
}

fn kv_get_exec(kv: &Vec<(Vec<char>, Vec<char>)>, k: &[char]) -> (r: Vec<char>)
    ensures
        r@ == kv_get(kv_view(kv@), k@),
{
    let ghost v = kv_view(kv@);
    let mut i: usize = 0;
    while i < kv.len()
        invariant
            i <= kv@.len(),
            v == kv_view(kv@),
            subs_find_kv(v, k@, i as int) == subs_find_kv(v, k@, 0),
        decreases kv@.len() - i,
    {
        if chars_eq(&kv[i].0, k) {
            return crate::json::copy_chars(&kv[i].1);
        }
        i += 1;
    }
    Vec::new()
}

fn kv_insert_exec(kv: &mut Vec<(Vec<char>, Vec<char>)>, k: Vec<char>, v: Vec<char>)
    ensures
        kv_view(final(kv)@) == kv_insert(kv_view(old(kv)@), k@, v@),
{
    let ghost k0 = kv_view(kv@);
    let ghost kk = k@;
    let ghost vv = v@;
    match kv_index_exec(kv, &k) {
        Some(i) => {
            kv.set(i, (k, v));
            assert(kv_view(kv@) =~= k0.update(i as int, (kk, vv)));
        },
        None => {
            kv.push((k, v));
            assert(kv_view(kv@) =~= k0.push((kk, vv)));
        },
    }
}

fn concat(a: &[char], b: &[char]) -> (out: Vec<char>)
    ensures
        out@ == a@ + b@,
{
    let mut out = crate::json::copy_chars(a);
    extend_chars(&mut out, b);
    out
}

fn sep_exec(name: &[char]) -> (out: Vec<char>)
    ensures
        out@ == name_sep(name@),
{
    if name.len() == 0 {
        Vec::new()
    } else {
        let v: Vec<char> = vec!['-'];
        assert(v@ =~= seq!['-']);
        v
    }
}

fn is_star(k: &[char]) -> (r: bool)
    ensures
        r == (k@ == seq!['*']),
{
    let r = k.len() == 1 && k[0] == '*';
    assert(r ==> k@ =~= seq!['*']);
    r
}

impl JsonConverter {
    fn add_rule_v(&mut self, name: &[char], rule: &[char]) -> (used: Vec<char>)
        ensures
            (vis_of(final(self)@), used@) == vrule(vis_of(old(self)@), name@, rule@),
            final(self)@.refs == old(self)@.refs,
    {
        self.conv.add_rule(name, rule)
    }

    fn add_prim_v(&mut self, name: &[char], prim: &str) -> (used: Vec<char>)
        requires
            builtin(prim@) is Some,
        ensures
            (vis_of(final(self)@), used@) == vprim(vis_of(old(self)@), name@, prim@),
            final(self)@.refs == old(self)@.refs,
    {
        let pc = chars_of(prim);
        match builtin_rule(&pc) {
            Some((content, deps)) => self.conv.add_primitive(name, &content, deps),
            None => Vec::new(),
        }
    }

    fn recursive_refs_exec(
        &mut self,
        opt: &Vec<Vec<char>>,
        kv: &Vec<(Vec<char>, Vec<char>)>,
        name: &[char],
        index: usize,
        first_is_optional: bool,
    ) -> (out: Vec<char>)
        ensures
            (vis_of(final(self)@), out@) == recursive_refs(
                vis_of(old(self)@),
                texts_view(opt@),
                kv_view(kv@),
                name@,
                index as int,
                first_is_optional,
            ),
            final(self)@.refs == old(self)@.refs,
        decreases opt@.len() - index,
    {
        if index >= opt.len() {
            return Vec::new();
        }
        let k = &opt[index];
        assert(texts_view(opt@)[index as int] == k@);
        let kv_name = kv_get_exec(kv, k);
        let mut comma_ref = chars_of("( \",\" space ");
        extend_chars(&mut comma_ref, &kv_name);
        extend_chars(&mut comma_ref, &chars_of(" )"));
        let mut res: Vec<char> = if first_is_optional {
            let mut r = crate::json::copy_chars(&comma_ref);
            if is_star(k) {
                r.push('*');
            } else {
                r.push('?');
            }
            r
        } else if is_star(k) {
            let mut r = crate::json::copy_chars(&kv_name);
            r.push(' ');
            extend_chars(&mut r, &comma_ref);
            r.push('*');
            r
        } else {
            crate::json::copy_chars(&kv_name)
        };
        if index + 1 < opt.len() {
            let rest = self.recursive_refs_exec(opt, kv, name, index + 1, true);
            if rest.len() > 0 {
                let mut rest_name = concat(name, &sep_exec(name));
                extend_chars(&mut rest_name, k);
                extend_chars(&mut rest_name, &chars_of("-rest"));
                let rest_rule = self.add_rule_v(&rest_name, &rest);
                if res.len() > 0 {
                    res.push(' ');
                }
                extend_chars(&mut res, &rest_rule);
            }
        }
        res
    }

    fn optional_alts_exec(
        &mut self,
        opt: &Vec<Vec<char>>,
        kv: &Vec<(Vec<char>, Vec<char>)>,
        name: &[char],
    ) -> (out: Vec<char>)
        ensures
            (vis_of(final(self)@), out@) == optional_alts(
                vis_of(old(self)@),
                texts_view(opt@),
                kv_view(kv@),
                name@,
                0,
                Seq::empty(),
            ),
            final(self)@.refs == old(self)@.refs,
    {
        let mut acc: Vec<char> = Vec::new();
        let mut i: usize = 0;
        while i < opt.len()
            invariant
                i <= opt@.len(),
                optional_alts(vis_of(old(self)@), texts_view(opt@), kv_view(kv@), name@, 0, Seq::empty())
                    == optional_alts(vis_of(self@), texts_view(opt@), kv_view(kv@), name@, i as int, acc@),
                self@.refs == old(self)@.refs,
            decreases opt@.len() - i,
        {
            let r = self.recursive_refs_exec(opt, kv, name, i, false);
            if i > 0 {
                extend_chars(&mut acc, &chars_of(" | "));
            }
            extend_chars(&mut acc, &r);
            i += 1;
        }
        acc
    }

    fn object_body_exec(
        &mut self,
        req: &Vec<Vec<char>>,
        opt: &Vec<Vec<char>>,
        kv: &Vec<(Vec<char>, Vec<char>)>,
        names: Ghost<Seq<Seq<char>>>,
        name: &[char],
    ) -> (out: Vec<char>)
        ensures
            (vis_of(final(self)@), out@) == object_body(
                vis_of(old(self)@),
                ObjAcc { req: texts_view(req@), opt: texts_view(opt@), kv: kv_view(kv@), names: names@ },
                name@,
            ),
            final(self)@.refs == old(self)@.refs,
    {
        let ghost rv = texts_view(req@);
        let ghost req_rules = rv.map_values(|k: Seq<char>| kv_get(kv_view(kv@), k));
        let mut head = chars_of("\"{\" space ");
        let ghost h0 = head@;
        let mut j: usize = 0;
        while j < req.len()
            invariant
                j <= req@.len(),
                rv == texts_view(req@),
                req_rules == rv.map_values(|k: Seq<char>| kv_get(kv_view(kv@), k)),
                head@ == h0 + join(req_rules.take(j as int), " \",\" space "@),
            decreases req@.len() - j,
        {
            let ghost before = head@;
            if j > 0 {
                extend_chars(&mut head, &chars_of(" \",\" space "));
            }
            let r = kv_get_exec(kv, &req[j]);
            extend_chars(&mut head, &r);
            assert(req_rules.take(j + 1).drop_last() =~= req_rules.take(j as int));
            assert(req_rules.take(j + 1).last() == r@);
            if j == 0 {
                assert(head@ =~= h0 + join(req_rules.take(1), " \",\" space "@));
            } else {
                assert(head@ =~= h0 + join(req_rules.take(j + 1), " \",\" space "@));
            }
            j += 1;
        }
        assert(req_rules.take(req@.len() as int) =~= req_rules);
        if opt.len() == 0 {
            extend_chars(&mut head, &chars_of(" \"}\" space"));
            return head;
        }
        extend_chars(&mut head, &chars_of(" ("));
        if req.len() > 0 {
            extend_chars(&mut head, &chars_of(" \",\" space ( "));
        }
        let alts = self.optional_alts_exec(opt, kv, name);
        extend_chars(&mut head, &alts);
        if req.len() > 0 {
            extend_chars(&mut head, &chars_of(" )"));
        }
        extend_chars(&mut head, &chars_of(" )?"));
        extend_chars(&mut head, &chars_of(" \"}\" space"));
        head
    }
}


type Comps = (Vec<Vec<char>>, Vec<(Vec<char>, Json)>);

spec fn comps_view(c: Comps) -> (Seq<Seq<char>>, Seq<(Seq<char>, JsonV)>) {
    (texts_view(c.0@), jentries(c.1@))
}

fn add_component_exec(refs: &Vec<(Vec<char>, Json)>, comp: &Json, is_req: bool, acc: Comps, fuel: u64) -> (r:
    Option<Comps>)
    ensures
        match r {
            Some(c) => add_component(jentries(refs@), jv(*comp), is_req, comps_view(acc), fuel as nat)
                == Some(comps_view(c)),
            None => add_component(jentries(refs@), jv(*comp), is_req, comps_view(acc), fuel as nat)
                is None,
        },
    decreases fuel,
{
    if fuel == 0 {
        return None;
    }
    let rk = chars_of("$ref");
    match get(comp, &rk) {
        Some(Json::Str(r)) => {
            match crate::json::entries_lookup(refs, r) {
                Some(res) => add_component_exec(refs, res, is_req, acc, fuel - 1),
                None => Some(acc),
            }
        },
        _ => {
            let pk = chars_of("properties");
            match get(comp, &pk) {
                Some(Json::Object(e)) => {
                    let (mut req, mut props) = acc;
                    let ghost r0 = texts_view(req@);
                    let ghost p0 = jentries(props@);
                    let ghost ev = jentries(e@);
                    let mut k: usize = 0;
                    while k < e.len()
                        invariant
                            k <= e@.len(),
                            ev == jentries(e@),
                            texts_view(req@) == if is_req {
                                r0 + ev.take(k as int).map_values(|p: (Seq<char>, JsonV)| p.0)
                            } else {
                                r0
                            },
                            jentries(props@) == p0 + ev.take(k as int),
                        decreases e@.len() - k,
                    {
                        assert(ev[k as int] == (e@[k as int].0@, jv(e@[k as int].1)));
                        let ghost rb = req@;
                        let ghost pb = props@;
                        if is_req {
                            req.push(crate::json::copy_chars(&e[k].0));
                            assert(texts_view(req@) =~= texts_view(rb).push(e@[k as int].0@));
                        }
                        let key = crate::json::copy_chars(&e[k].0);
                        let val = crate::json::json_clone(&e[k].1);
                        props.push((key, val));
                        assert(jentries(props@) =~= jentries(pb).push(ev[k as int]));
                        assert(ev.take(k + 1) =~= ev.take(k as int).push(ev[k as int]));
                        assert(ev.take(k + 1).map_values(|p: (Seq<char>, JsonV)| p.0) =~= ev.take(
                            k as int,
                        ).map_values(|p: (Seq<char>, JsonV)| p.0).push(ev[k as int].0));
                        k += 1;
                    }
                    assert(ev.take(e@.len() as int) =~= ev);
                    Some((req, props))
                },
                _ => Some(acc),
            }
        },
    }
}

fn all_of_exec(refs: &Vec<(Vec<char>, Json)>, items: &Vec<Json>, fuel: u64) -> (r: Option<Comps>)
    ensures
        match r {
            Some(c) => all_of_components(
                jentries(refs@),
                jvs(items@),
                0,
                (Seq::empty(), Seq::empty()),
                fuel as nat,
            ) == Some(comps_view(c)),
            None => all_of_components(
                jentries(refs@),
                jvs(items@),
                0,
                (Seq::empty(), Seq::empty()),
                fuel as nat,
            ) is None,
        },
{
    let ghost iv = jvs(items@);
    let ghost rv = jentries(refs@);
    let mut acc: Comps = (Vec::new(), Vec::new());
    assert(comps_view(acc) =~= (Seq::<Seq<char>>::empty(), Seq::<(Seq<char>, JsonV)>::empty()));
    let mut i: usize = 0;
    while i < items.len()
        invariant
            i <= items@.len(),
            iv == jvs(items@),
            rv == jentries(refs@),
            all_of_components(rv, iv, 0, (Seq::empty(), Seq::empty()), fuel as nat)
                == all_of_components(rv, iv, i as int, comps_view(acc), fuel as nat),
        decreases items@.len() - i,
    {
        assert(iv[i as int] == jv(items@[i as int]));
        let ak = chars_of("anyOf");
        let next = match get(&items[i], &ak) {
            Some(Json::Array(xs)) => {
                let ghost xv = jvs(xs@);
                let ghost a0 = comps_view(acc);
                let mut a: Option<Comps> = Some(acc);
                let mut j: usize = 0;
                while j < xs.len()
                    invariant
                        j <= xs@.len(),
                        xv == jvs(xs@),
                        rv == jentries(refs@),
                        match a {
                            Some(c) => any_of_components(rv, xv, 0, a0, fuel as nat)
                                == any_of_components(rv, xv, j as int, comps_view(c), fuel as nat),
                            None => any_of_components(rv, xv, 0, a0, fuel as nat)
                                is None,
                        },
                    decreases xs@.len() - j,
                {
                    assert(xv[j as int] == jv(xs@[j as int]));
                    match a {
                        Some(c) => {
                            a = add_component_exec(refs, &xs[j], false, c, fuel);
                        },
                        None => {},
                    }
                    j += 1;
                }
                a
            },
            _ => add_component_exec(refs, &items[i], true, acc, fuel),
        };
        match next {
            Some(c) => {
                acc = c;
            },
            None => {
                return None;
            },
        }
        i += 1;
    }
    Some(acc)
}


fn eq_lit(a: &[char], b: &str) -> (r: bool)
    ensures
        r == (a@ == b@),
{
    chars_eq(a, &chars_of(b))
}

fn is_reserved_exec(name: &[char]) -> (r: bool)
    ensures
        r == is_reserved(name@),
{
    eq_lit(name, "root") || builtin_rule(name).is_some()
}

fn is_primitive_exec(t: &[char]) -> (r: bool)
    ensures
        r == is_primitive(t@),
{
    eq_lit(t, "boolean") || eq_lit(t, "decimal-part") || eq_lit(t, "integral-part") || eq_lit(
        t,
        "number",
    ) || eq_lit(t, "integer") || eq_lit(t, "value") || eq_lit(t, "object") || eq_lit(t, "array")
        || eq_lit(t, "uuid") || eq_lit(t, "char") || eq_lit(t, "string") || eq_lit(t, "null")
}

fn is_uuid_format_exec(f: &[char]) -> (r: bool)
    ensures
        r == is_uuid_format(f@),
{
    if eq_lit(f, "uuid") {
        return true;
    }
    if f.len() != 5 {
        return false;
    }
    let head = crate::text::slice_chars(f, 0, 4);
    assert(head@ =~= f@.take(4));
    eq_lit(&head, "uuid") && '1' <= f[4] && f[4] <= '5'
}

fn member_exec<'a>(j: &'a Json, key: &str) -> (r: Option<&'a Json>)
    ensures
        match r {
            Some(v) => member(jv(*j), key@) == Some(jv(*v)),
            None => member(jv(*j), key@) is None,
        },
{
    get(j, &chars_of(key))
}

fn as_i64_exec(v: Option<&Json>) -> (r: Option<i64>)
    ensures
        r == as_i64(match v {
            Some(x) => Some(jv(*x)),
            None => None,
        }),
{
    match v {
        Some(Json::Number(_, i)) => *i,
        _ => None,
    }
}

fn string_items_exec(items: &Vec<Json>) -> (out: Vec<Vec<char>>)
    ensures
        texts_view(out@) == string_items(jvs(items@)),
{
    let ghost iv = jvs(items@);
    let mut out: Vec<Vec<char>> = Vec::new();
    let mut i: usize = 0;
    while i < items.len()
        invariant
            i <= items@.len(),
            iv == jvs(items@),
            texts_view(out@) == string_items(iv.take(i as int)),
        decreases items@.len() - i,
    {
        assert(iv.take(i + 1).drop_last() =~= iv.take(i as int));
        assert(iv.take(i + 1).last() == jv(items@[i as int]));
        match &items[i] {
            Json::Str(s) => {
                let ghost before = out@;
                out.push(crate::json::copy_chars(s));
                assert(texts_view(out@) =~= texts_view(before).push(s@));
            },
            _ => {},
        }
        i += 1;
    }
    assert(iv.take(items@.len() as int) =~= iv);
    out
}

fn required_of_exec(schema: &Json) -> (out: Vec<Vec<char>>)
    ensures
        texts_view(out@) == required_of(jv(*schema)),
{
    match member_exec(schema, "required") {
        Some(Json::Array(items)) => string_items_exec(items),
        _ => {
            let out: Vec<Vec<char>> = Vec::new();
            assert(texts_view(out@) =~= Seq::<Seq<char>>::empty());
            out
        },
    }
}

fn properties_of_exec(schema: &Json) -> (out: Vec<(Vec<char>, Json)>)
    ensures
        jentries(out@) == properties_of(jv(*schema)),
{
    match member_exec(schema, "properties") {
        Some(Json::Object(e)) => crate::json::clone_entries(e),
        _ => {
            let out: Vec<(Vec<char>, Json)> = Vec::new();
            assert(jentries(out@) =~= Seq::<(Seq<char>, JsonV)>::empty());
            out
        },
    }
}

fn type_variants_exec(schema: &Json, types: &Vec<Json>) -> (out: Vec<Json>)
    ensures
        jvs(out@) == type_variants(jv(*schema), jvs(types@)),
{
    let ghost tv = jvs(types@);
    let mut out: Vec<Json> = Vec::new();
    let mut i: usize = 0;
    while i < types.len()
        invariant
            i <= types@.len(),
            tv == jvs(types@),
            jvs(out@) == type_variants(jv(*schema), tv).take(i as int),
        decreases types@.len() - i,
    {
        let copy = crate::json::json_clone(schema);
        let t = crate::json::json_clone(&types[i]);
        let v = match copy {
            Json::Object(mut e) => {
                refs_insert_exec(&mut e, chars_of("type"), t);
                Json::Object(e)
            },
            other => other,
        };
        assert(jv(v) == with_type(jv(*schema), tv[i as int]));
        let ghost before = out@;
        out.push(v);
        assert(jvs(out@) =~= jvs(before).push(jv(v)));
        assert(type_variants(jv(*schema), tv).take(i + 1) =~= type_variants(jv(*schema), tv).take(
            i as int,
        ).push(with_type(jv(*schema), tv[i as int])));
        i += 1;
    }
    assert(type_variants(jv(*schema), tv).take(types@.len() as int) =~= type_variants(jv(*schema), tv));
    out
}

fn ref_name_exec(r: &[char]) -> (out: Vec<char>)
    ensures
        out@ == ref_name(r@),
{
    let slash: Vec<char> = vec!['/'];
    assert(slash@ =~= seq!['/']);
    let p = crate::schema::string_split(r, &slash);
    proof {
        crate::schema::lemma_split_nonempty(r@, seq!['/']);
    }
    let n = p.len();
    assert(crate::schema::pieces_view(p@)[n - 1] == p@[n - 1]@);
    crate::json::copy_chars(&p[n - 1])
}

fn being_has_exec(being: &Vec<Vec<char>>, r: &[char]) -> (b: bool)
    ensures
        b == being_has(texts_view(being@), r@),
{
    let mut i: usize = 0;
    while i < being.len()
        invariant
            i <= being@.len(),
            forall|k: int| 0 <= k < i ==> #[trigger] texts_view(being@)[k] != r@,
        decreases being@.len() - i,
    {
        if chars_eq(&being[i], r) {
            assert(texts_view(being@)[i as int] == r@);
            return true;
        }
        i += 1;
    }
    false
}

fn integer_bounds_exec(schema: &Json) -> (r: Option<(i32, i32)>)
    ensures
        r == integer_bounds(jv(*schema)),
{
    let mn: Option<i32> = match as_i64_exec(member_exec(schema, "minimum")) {
        Some(v) => Some(v as i32),
        None => match as_i64_exec(member_exec(schema, "exclusiveMinimum")) {
            Some(v) => if (v as i32) == i32::MAX {
                None
            } else {
                Some((v as i32) + 1)
            },
            None => Some(i32::MIN),
        },
    };
    let mx: Option<i32> = match as_i64_exec(member_exec(schema, "maximum")) {
        Some(v) => Some(v as i32),
        None => match as_i64_exec(member_exec(schema, "exclusiveMaximum")) {
            Some(v) => if (v as i32) == i32::MIN {
                None
            } else {
                Some((v as i32) - 1)
            },
            None => Some(i32::MAX),
        },
    };
    match (mn, mx) {
        (Some(a), Some(b)) => Some((a, b)),
        _ => None,
    }
}

fn i32_of_exec(v: Option<i64>, default: i32) -> (r: i32)
    ensures
        r == i32_of(v, default),
{
    match v {
        Some(x) => x as i32,
        None => default,
    }
}

fn constant_rule_exec(v: &Json) -> (out: Vec<char>)
    ensures
        out@ == constant_rule(jv(*v)),
{
    crate::schema::format_literal(&crate::json::to_json_text(v))
}

fn enum_rule_exec(vals: &Vec<Json>) -> (out: Vec<char>)
    ensures
        out@ == "("@ + join(constant_rules(jvs(vals@)), " | "@) + ") space"@,
{
    let ghost cr = constant_rules(jvs(vals@));
    let mut body: Vec<char> = Vec::new();
    let mut i: usize = 0;
    while i < vals.len()
        invariant
            i <= vals@.len(),
            cr == constant_rules(jvs(vals@)),
            body@ == join(cr.take(i as int), " | "@),
        decreases vals@.len() - i,
    {
        if i > 0 {
            extend_chars(&mut body, &chars_of(" | "));
        }
        let r = constant_rule_exec(&vals[i]);
        extend_chars(&mut body, &r);
        assert(cr.take(i + 1).drop_last() =~= cr.take(i as int));
        assert(cr.take(i + 1).last() == r@);
        if i == 0 {
            assert(body@ =~= join(cr.take(1), " | "@));
        } else {
            assert(body@ =~= join(cr.take(i + 1), " | "@));
        }
        i += 1;
    }
    assert(cr.take(vals@.len() as int) =~= cr);
    let mut out = chars_of("(");
    extend_chars(&mut out, &body);
    extend_chars(&mut out, &chars_of(") space"));
    out
}


proof fn lemma_texts_pop(v: Seq<Vec<char>>, x: Vec<char>)
    ensures
        texts_view(v.push(x).drop_last()) == texts_view(v),
        texts_view(v.push(x)) == texts_view(v).push(x@),
{
    assert(v.push(x).drop_last() =~= v);
    assert(texts_view(v.push(x)) =~= texts_view(v).push(x@));
}

impl JsonConverter {
    #[verifier::rlimit(100)]
    fn visit_exec(&mut self, being: &mut Vec<Vec<char>>, schema: &Json, name: &[char], fuel: u64) -> (out:
        Vec<char>)
        ensures
            (vis_of(final(self)@), out@) == visit(
                old(self)@.refs,
                texts_view(old(being)@),
                vis_of(old(self)@),
                jv(*schema),
                name@,
                fuel as nat,
            ),
            final(self)@.refs == old(self)@.refs,
            texts_view(final(being)@) == texts_view(old(being)@),
        decreases fuel, 1nat, 0nat,
    {
        if self.stuck {
            return Vec::new();
        }
        if fuel == 0 {
            self.stuck = true;
            return Vec::new();
        }
        let f = fuel - 1;
        let rule_name: Vec<char> = if is_reserved_exec(name) {
            let mut r = crate::json::copy_chars(name);
            r.push('-');
            assert(r@ =~= name@ + seq!['-']);
            r
        } else if name.len() == 0 {
            chars_of("root")
        } else {
            crate::json::copy_chars(name)
        };
        let ghost rn = if is_reserved(name@) {
            name@ + seq!['-']
        } else if name@.len() == 0 {
            "root"@
        } else {
            name@
        };
        assert(rule_name@ == rn);
        let ty: Json = match member_exec(schema, "type") {
            Some(t) => crate::json::json_clone(t),
            None => Json::Null,
        };
        match member_exec(schema, "$ref") {
            Some(Json::Str(r)) => {
                let resolved = self.resolve_ref_exec(being, r, f);
                return self.add_rule_v(&rule_name, &resolved);
            },
            _ => {},
        }
        match member_exec(schema, "oneOf") {
            Some(Json::Array(alts)) => {
                let rule = self.union_exec(being, name, alts, f);
                return self.add_rule_v(&rule_name, &rule);
            },
            _ => {},
        }
        match member_exec(schema, "anyOf") {
            Some(Json::Array(alts)) => {
                let rule = self.union_exec(being, name, alts, f);
                return self.add_rule_v(&rule_name, &rule);
            },
            _ => {},
        }
        match &ty {
            Json::Array(types) => {
                let variants = type_variants_exec(schema, types);
                let rule = self.union_exec(being, name, &variants, f);
                return self.add_rule_v(&rule_name, &rule);
            },
            _ => {},
        }
        match member_exec(schema, "const") {
            Some(v) => {
                let mut rule = constant_rule_exec(v);
                extend_chars(&mut rule, &chars_of(" space"));
                return self.add_rule_v(&rule_name, &rule);
            },
            None => {},
        }
        match member_exec(schema, "enum") {
            Some(Json::Array(vals)) => {
                let rule = enum_rule_exec(vals);
                return self.add_rule_v(&rule_name, &rule);
            },
            _ => {},
        }
        self.visit_typed_exec(being, schema, name, &rule_name, &ty, f)
    }

    fn resolve_ref_exec(&mut self, being: &mut Vec<Vec<char>>, r: &[char], f: u64) -> (out: Vec<char>)
        ensures
            (vis_of(final(self)@), out@) == resolve_ref(
                old(self)@.refs,
                texts_view(old(being)@),
                vis_of(old(self)@),
                r@,
                f as nat,
            ),
            final(self)@.refs == old(self)@.refs,
            texts_view(final(being)@) == texts_view(old(being)@),
        decreases f, 1nat, 1nat,
    {
        let rn = ref_name_exec(r);
        if self.conv.has_rule(&rn) || being_has_exec(being, r) {
            return rn;
        }
        match crate::json::entries_lookup(&self.refs, r) {
            Some(res) => {
                let resolved = crate::json::json_clone(res);
                let ghost b0 = being@;
                let rc = crate::json::copy_chars(r);
                being.push(rc);
                proof {
                    lemma_texts_pop(b0, rc);
                }
                let out = self.visit_exec(being, &resolved, &rn, f);
                let ghost b1 = being@;
                assert(b1.len() == b0.len() + 1) by {
                    assert(texts_view(b1).len() == texts_view(b0.push(rc)).len());
                }
                being.pop();
                proof {
                    assert(being@ =~= b1.subrange(0, b1.len() - 1));
                    assert(texts_view(being@) =~= texts_view(b1).drop_last());
                    assert(texts_view(b0).push(r@).drop_last() =~= texts_view(b0));
                }
                out
            },
            None => rn,
        }
    }

    fn union_exec(&mut self, being: &mut Vec<Vec<char>>, name: &[char], alts: &Vec<Json>, f: u64) -> (out:
        Vec<char>)
        ensures
            (vis_of(final(self)@), out@) == union_from(
                old(self)@.refs,
                texts_view(old(being)@),
                vis_of(old(self)@),
                name@,
                jvs(alts@),
                0,
                Seq::empty(),
                f as nat,
            ),
            final(self)@.refs == old(self)@.refs,
            texts_view(final(being)@) == texts_view(old(being)@),
        decreases f, 1nat, 1nat,
    {
        let ghost av = jvs(alts@);
        let ghost refs0 = self@.refs;
        let ghost being0 = texts_view(being@);
        let mut parts: Vec<Vec<char>> = Vec::new();
        assert(texts_view(parts@) =~= Seq::<Seq<char>>::empty());
        let mut i: usize = 0;
        while i < alts.len()
            invariant
                i <= alts@.len(),
                av == jvs(alts@),
                self@.refs == refs0,
                texts_view(being@) == being0,
                union_from(refs0, being0, vis_of(old(self)@), name@, av, 0, Seq::empty(), f as nat)
                    == union_from(refs0, being0, vis_of(self@), name@, av, i as int, texts_view(parts@), f as nat),
            decreases alts@.len() - i,
        {
            let mut alt_name = crate::json::copy_chars(name);
            if name.len() == 0 {
                extend_chars(&mut alt_name, &chars_of("alternative-"));
            } else {
                alt_name.push('-');
            }
            extend_chars(&mut alt_name, &decimal_chars(i as u64));
            assert(alt_name@ =~= name@ + (if name@.len() == 0 {
                "alternative-"@
            } else {
                seq!['-']
            }) + decimal(i as nat));
            assert(av[i as int] == jv(alts@[i as int]));
            let r = self.visit_exec(being, &alts[i], &alt_name, f);
            let ghost pb = parts@;
            parts.push(r);
            assert(texts_view(parts@) =~= texts_view(pb).push(r@));
            i += 1;
        }
        join_texts(&parts, " | ")
    }

    fn tuple_exec(&mut self, being: &mut Vec<Vec<char>>, name: &[char], items: &Vec<Json>, f: u64) -> (out:
        Vec<char>)
        ensures
            (vis_of(final(self)@), out@) == tuple_from(
                old(self)@.refs,
                texts_view(old(being)@),
                vis_of(old(self)@),
                name@,
                jvs(items@),
                0,
                "\"[\" space "@,
                f as nat,
            ),
            final(self)@.refs == old(self)@.refs,
            texts_view(final(being)@) == texts_view(old(being)@),
        decreases f, 1nat, 1nat,
    {
        let ghost iv = jvs(items@);
        let ghost refs0 = self@.refs;
        let ghost being0 = texts_view(being@);
        let mut acc = chars_of("\"[\" space ");
        let mut i: usize = 0;
        while i < items.len()
            invariant
                i <= items@.len(),
                iv == jvs(items@),
                self@.refs == refs0,
                texts_view(being@) == being0,
                tuple_from(refs0, being0, vis_of(old(self)@), name@, iv, 0, "\"[\" space "@, f as nat)
                    == tuple_from(refs0, being0, vis_of(self@), name@, iv, i as int, acc@, f as nat),
            decreases items@.len() - i,
        {
            let mut item_name = concat(name, &sep_exec(name));
            extend_chars(&mut item_name, &chars_of("tuple-"));
            extend_chars(&mut item_name, &decimal_chars(i as u64));
            assert(iv[i as int] == jv(items@[i as int]));
            let r = self.visit_exec(being, &items[i], &item_name, f);
            if i > 0 {
                extend_chars(&mut acc, &chars_of(" \",\" space "));
            }
            extend_chars(&mut acc, &r);
            i += 1;
        }
        acc
    }
}

fn join_texts(parts: &Vec<Vec<char>>, sep: &str) -> (out: Vec<char>)
    ensures
        out@ == join(texts_view(parts@), sep@),
{
    let ghost pv = texts_view(parts@);
    let sc = chars_of(sep);
    let mut out: Vec<char> = Vec::new();
    let mut j: usize = 0;
    while j < parts.len()
        invariant
            j <= parts@.len(),
            pv == texts_view(parts@),
            sc@ == sep@,
            out@ == join(pv.take(j as int), sep@),
        decreases parts@.len() - j,
    {
        if j > 0 {
            extend_chars(&mut out, &sc);
        }
        extend_chars(&mut out, &parts[j]);
        assert(pv.take(j + 1).drop_last() =~= pv.take(j as int));
        assert(pv.take(j + 1).last() == parts@[j as int]@);
        if j == 0 {
            assert(out@ =~= join(pv.take(1), sep@));
        } else {
            assert(out@ =~= join(pv.take(j + 1), sep@));
        }
        j += 1;
    }
    assert(pv.take(parts@.len() as int) =~= pv);
    out
}


impl JsonConverter {
    fn object_rule_exec(
        &mut self,
        being: &mut Vec<Vec<char>>,
        props: &Vec<(Vec<char>, Json)>,
        req: &Vec<Vec<char>>,
        name: &[char],
        additional: Option<Json>,
        f: u64,
    ) -> (out: Vec<char>)
        ensures
            (vis_of(final(self)@), out@) == object_rule(
                old(self)@.refs,
                texts_view(old(being)@),
                vis_of(old(self)@),
                jentries(props@),
                texts_view(req@),
                name@,
                match additional {
                    Some(a) => Some(jv(a)),
                    None => None,
                },
                f as nat,
            ),
            final(self)@.refs == old(self)@.refs,
            texts_view(final(being)@) == texts_view(old(being)@),
        decreases f, 1nat, 1nat,
    {
        let ghost pv = jentries(props@);
        let ghost rqv = texts_view(req@);
        let ghost refs0 = self@.refs;
        let ghost being0 = texts_view(being@);
        let mut a_req: Vec<Vec<char>> = Vec::new();
        let mut a_opt: Vec<Vec<char>> = Vec::new();
        let mut a_kv: Vec<(Vec<char>, Vec<char>)> = Vec::new();
        let mut a_names: Vec<Vec<char>> = Vec::new();
        let ghost empty = ObjAcc {
            req: Seq::empty(),
            opt: Seq::empty(),
            kv: Seq::empty(),
            names: Seq::empty(),
        };
        assert(texts_view(a_req@) =~= Seq::<Seq<char>>::empty());
        assert(kv_view(a_kv@) =~= Seq::<(Seq<char>, Seq<char>)>::empty());
        let mut i: usize = 0;
        while i < props.len()
            invariant
                i <= props@.len(),
                pv == jentries(props@),
                rqv == texts_view(req@),
                self@.refs == refs0,
                texts_view(being@) == being0,
                props_from(refs0, being0, vis_of(old(self)@), pv, rqv, name@, 0, empty, f as nat)
                    == props_from(
                    refs0,
                    being0,
                    vis_of(self@),
                    pv,
                    rqv,
                    name@,
                    i as int,
                    ObjAcc {
                        req: texts_view(a_req@),
                        opt: texts_view(a_opt@),
                        kv: kv_view(a_kv@),
                        names: texts_view(a_names@),
                    },
                    f as nat,
                ),
            decreases props@.len() - i,
        {
            assert(pv[i as int] == (props@[i as int].0@, jv(props@[i as int].1)));
            let pn = &props[i].0;
            let sub = concat(&concat(name, &sep_exec(name)), pn);
            let prn = self.visit_exec(being, &props[i].1, &sub, f);
            let mut kv_name = crate::json::copy_chars(&sub);
            extend_chars(&mut kv_name, &chars_of("-kv"));
            let mut quoted: Vec<char> = Vec::new();
            crate::json::push_str_text(&mut quoted, pn);
            assert(quoted@ =~= crate::json::str_text(pn@));
            let mut body = crate::schema::format_literal(&quoted);
            extend_chars(&mut body, &chars_of(" space \":\" space "));
            extend_chars(&mut body, &prn);
            let kv = self.add_rule_v(&kv_name, &body);
            let in_req = texts_has_exec(req, pn);
            let ghost rb = a_req@;
            let ghost ob = a_opt@;
            let ghost nb = a_names@;
            if in_req {
                a_req.push(crate::json::copy_chars(pn));
                assert(texts_view(a_req@) =~= texts_view(rb).push(pn@));
            } else {
                a_opt.push(crate::json::copy_chars(pn));
                assert(texts_view(a_opt@) =~= texts_view(ob).push(pn@));
            }
            kv_insert_exec(&mut a_kv, crate::json::copy_chars(pn), kv);
            a_names.push(crate::json::copy_chars(pn));
            assert(texts_view(a_names@) =~= texts_view(nb).push(pn@));
            i += 1;
        }
        match additional {
            Some(a) => {
                let sub = concat(&concat(name, &sep_exec(name)), &chars_of("additional"));
                let value_rule: Vec<char> = match &a {
                    Json::Object(_) => {
                        let vn = concat(&sub, &chars_of("-value"));
                        self.visit_exec(being, &a, &vn, f)
                    },
                    _ => self.add_prim_v(&chars_of("value"), "value"),
                };
                let key_rule: Vec<char> = if a_names.len() == 0 {
                    self.add_prim_v(&chars_of("string"), "string")
                } else {
                    let cr = self.add_prim_v(&chars_of("char"), "char");
                    let mut t = chars_of("[\"] ( ");
                    let inner = node_text_exec(&a_names, &cr);
                    extend_chars(&mut t, &inner);
                    extend_chars(&mut t, &chars_of(" )"));
                    if !has_empty_exec(&a_names) {
                        t.push('?');
                    }
                    extend_chars(&mut t, &chars_of(" [\"] space"));
                    assert(t@ =~= not_strings_text(texts_view(a_names@), cr@));
                    let kn = concat(&sub, &chars_of("-k"));
                    self.add_rule_v(&kn, &t)
                };
                let mut kvb = crate::json::copy_chars(&key_rule);
                extend_chars(&mut kvb, &chars_of(" \":\" space "));
                extend_chars(&mut kvb, &value_rule);
                let kvn = concat(&sub, &chars_of("-kv"));
                let kv = self.add_rule_v(&kvn, &kvb);
                let star: Vec<char> = vec!['*'];
                assert(star@ =~= seq!['*']);
                let ghost ob = a_opt@;
                a_opt.push(crate::json::copy_chars(&star));
                assert(texts_view(a_opt@) =~= texts_view(ob).push(seq!['*']));
                kv_insert_exec(&mut a_kv, star, kv);
                self.object_body_exec(&a_req, &a_opt, &a_kv, Ghost(texts_view(a_names@)), name)
            },
            None => self.object_body_exec(&a_req, &a_opt, &a_kv, Ghost(texts_view(a_names@)), name),
        }
    }
}

fn texts_has_exec(v: &Vec<Vec<char>>, x: &[char]) -> (r: bool)
    ensures
        r == seq_has(texts_view(v@), x@),
{
    let mut i: usize = 0;
    while i < v.len()
        invariant
            i <= v@.len(),
            forall|k: int| 0 <= k < i ==> #[trigger] texts_view(v@)[k] != x@,
        decreases v@.len() - i,
    {
        if chars_eq(&v[i], x) {
            assert(texts_view(v@)[i as int] == x@);
            return true;
        }
        i += 1;
    }
    false
}


fn lit_opt_eq(t: Option<&Vec<char>>, lit: &str) -> (r: bool)
    ensures
        r == (match t {
            Some(x) => Some(x@),
            None => None::<Seq<char>>,
        } == Some(lit@)),
{
    match t {
        Some(x) => eq_lit(x, lit),
        None => false,
    }
}

impl JsonConverter {
    #[verifier::rlimit(100)]
    fn visit_typed_exec(
        &mut self,
        being: &mut Vec<Vec<char>>,
        schema: &Json,
        name: &[char],
        rule_name: &[char],
        ty: &Json,
        f: u64,
    ) -> (out: Vec<char>)
        ensures
            (vis_of(final(self)@), out@) == visit_typed(
                old(self)@.refs,
                texts_view(old(being)@),
                vis_of(old(self)@),
                jv(*schema),
                name@,
                rule_name@,
                jv(*ty),
                f as nat,
            ),
            final(self)@.refs == old(self)@.refs,
            texts_view(final(being)@) == texts_view(old(being)@),
        decreases f + 1, 0nat, 0nat,
    {
        let tstr: Option<&Vec<char>> = match ty {
            Json::Str(t) => Some(t),
            _ => None,
        };
        let tnull = match ty {
            Json::Null => true,
            _ => false,
        };
        let is_obj = tnull || lit_opt_eq(tstr, "object");
        let addl = member_exec(schema, "additionalProperties");
        let addl_counts = match addl {
            Some(Json::Bool(true)) => false,
            Some(_) => true,
            None => false,
        };
        let format: Vec<char> = match member_exec(schema, "format") {
            Some(Json::Str(x)) => crate::json::copy_chars(x),
            _ => Vec::new(),
        };
        if is_obj && (member_exec(schema, "properties").is_some() || addl_counts) {
            let additional: Option<Json> = match addl {
                Some(Json::Bool(false)) => None,
                Some(x) => Some(crate::json::json_clone(x)),
                None => None,
            };
            let props = properties_of_exec(schema);
            let req = required_of_exec(schema);
            let rule = self.object_rule_exec(being, &props, &req, name, additional, f);
            return self.add_rule_v(rule_name, &rule);
        }
        if is_obj && member_exec(schema, "allOf").is_some() {
            let comps: Option<Comps> = match member_exec(schema, "allOf") {
                Some(Json::Array(items)) => all_of_exec(&self.refs, items, f),
                _ => {
                    let c: Comps = (Vec::new(), Vec::new());
                    assert(comps_view(c) =~= (Seq::<Seq<char>>::empty(), Seq::<(Seq<char>, JsonV)>::empty()));
                    Some(c)
                },
            };
            match comps {
                None => {
                    self.stuck = true;
                    return Vec::new();
                },
                Some((req, props)) => {
                    let rule = self.object_rule_exec(being, &props, &req, name, None, f);
                    return self.add_rule_v(rule_name, &rule);
                },
            }
        }
        if (tnull || lit_opt_eq(tstr, "array")) && (member_exec(schema, "items").is_some()
            || member_exec(schema, "prefixItems").is_some()) {
            let items: Json = match member_exec(schema, "items") {
                Some(x) => crate::json::json_clone(x),
                None => match member_exec(schema, "prefixItems") {
                    Some(x) => crate::json::json_clone(x),
                    None => Json::Null,
                },
            };
            match &items {
                Json::Array(arr) => {
                    let mut body = self.tuple_exec(being, name, arr, f);
                    extend_chars(&mut body, &chars_of(" \"]\" space"));
                    return self.add_rule_v(rule_name, &body);
                },
                _ => {
                    let item_name = concat(&concat(name, &sep_exec(name)), &chars_of("item"));
                    let item_rule = self.visit_exec(being, &items, &item_name, f);
                    let mn = i32_of_exec(as_i64_exec(member_exec(schema, "minItems")), 0);
                    let mx = i32_of_exec(as_i64_exec(member_exec(schema, "maxItems")), i32::MAX);
                    let sep = chars_of("\",\" space");
                    proof {
                        reveal_strlit("\",\" space");
                    }
                    if !(mx == 0 || (mn == 0 && mx == 1) || (mn > i32::MIN && mx > i32::MIN)) {
                        self.stuck = true;
                        return Vec::new();
                    }
                    let mut body = chars_of("\"[\" space ");
                    let rep = build_repetition(&item_rule, mn, mx, &sep);
                    extend_chars(&mut body, &rep);
                    extend_chars(&mut body, &chars_of(" \"]\" space"));
                    return self.add_rule_v(rule_name, &body);
                },
            }
        }
        if tnull || lit_opt_eq(tstr, "string") {
            match member_exec(schema, "pattern") {
                Some(Json::Str(p)) => {
                    let ps = crate::text::string_from(p);
                    match self.conv.visit_pattern(ps.as_str(), rule_name) {
                        Some(u) => {
                            return u;
                        },
                        None => {
                            self.stuck = true;
                            return Vec::new();
                        },
                    }
                },
                _ => {},
            }
            if is_uuid_format_exec(&format) {
                let n = if eq_lit(rule_name, "root") {
                    chars_of("root")
                } else {
                    chars_of("uuid")
                };
                return self.add_prim_v(&n, "uuid");
            }
            let prim_name = concat(&format, &chars_of("-string"));
            if builtin_rule(&prim_name).is_some() && !is_primitive_exec(&prim_name) {
                let pc = builtin_rule(&prim_name);
                let r = match pc {
                    Some((content, deps)) => self.conv.add_primitive(&prim_name, &content, deps),
                    None => Vec::new(),
                };
                return self.add_rule_v(rule_name, &r);
            }
            if lit_opt_eq(tstr, "string") && (member_exec(schema, "minLength").is_some() || member_exec(
                schema,
                "maxLength",
            ).is_some()) {
                let cr = self.add_prim_v(&chars_of("char"), "char");
                let mn = i32_of_exec(as_i64_exec(member_exec(schema, "minLength")), 0);
                let mx = i32_of_exec(as_i64_exec(member_exec(schema, "maxLength")), i32::MAX);
                let empty: Vec<char> = Vec::new();
                assert(empty@ =~= Seq::<char>::empty());
                let rep = build_repetition(&cr, mn, mx, &empty);
                let mut body = chars_of("\"\\\"\\\" ");
                extend_chars(&mut body, &rep);
                extend_chars(&mut body, &chars_of(" \\\"\\\"\" space"));
                return self.add_rule_v(rule_name, &body);
            }
            return self.visit_fallback_exec(schema, rule_name, tstr);
        }
        if lit_opt_eq(tstr, "integer") && (member_exec(schema, "minimum").is_some() || member_exec(
            schema,
            "exclusiveMinimum",
        ).is_some() || member_exec(schema, "maximum").is_some() || member_exec(
            schema,
            "exclusiveMaximum",
        ).is_some()) {
            match integer_bounds_exec(schema) {
                None => {
                    self.stuck = true;
                    return Vec::new();
                },
                Some((mn, mx)) => {
                    if !crate::schema::min_max_ok(mn, mx, 16, true) {
                        self.stuck = true;
                        return Vec::new();
                    }
                    let mut body = chars_of("(");
                    crate::schema::build_min_max_int(mn, mx, &mut body, 16, true);
                    extend_chars(&mut body, &chars_of(") space"));
                    return self.add_rule_v(rule_name, &body);
                },
            }
        }
        let empty_obj = match schema {
            Json::Object(e) => e.len() == 0,
            _ => false,
        };
        if empty_obj || lit_opt_eq(tstr, "object") {
            let r = self.add_prim_v(&chars_of("object"), "object");
            return self.add_rule_v(rule_name, &r);
        }
        self.visit_fallback_exec(schema, rule_name, tstr)
    }

    fn visit_fallback_exec(&mut self, schema: &Json, rule_name: &[char], tstr: Option<&Vec<char>>) -> (out:
        Vec<char>)
        ensures
            (vis_of(final(self)@), out@) == visit_fallback(
                vis_of(old(self)@),
                jv(*schema),
                rule_name@,
                match tstr {
                    Some(x) => Some(x@),
                    None => None,
                },
            ),
            final(self)@.refs == old(self)@.refs,
    {
        match tstr {
            Some(t) => {
                if is_primitive_exec(t) {
                    let n = if eq_lit(rule_name, "root") {
                        chars_of("root")
                    } else {
                        crate::json::copy_chars(t)
                    };
                    match builtin_rule(t) {
                        Some((content, deps)) => {
                            return self.conv.add_primitive(&n, &content, deps);
                        },
                        None => {
                            return Vec::new();
                        },
                    }
                }
            },
            None => {},
        }
        let mut msg = chars_of("Unrecognized schema: ");
        extend_chars(&mut msg, &crate::json::to_json_text(schema));
        self.conv.push_error_text(msg);
        Vec::new()
    }
}


// ---------------------------------------------------------------------------
// Whole schemas
// ---------------------------------------------------------------------------

/// How deep schemas may nest (counting each reference followed) before the
/// conversion gives up.
pub const MAX_DEPTH: u64 = 100;

/// The message when a conversion got stuck.
pub open spec fn stuck_message() -> Seq<char> {
    "Schema cannot be converted"@
}

/// The grammar for a JSON schema, or the text of the conversion error: the
/// references resolved first, then the schema converted as the `root` rule;
/// any error met makes the whole conversion fail with all errors, one per
/// line.  A conversion that gets stuck (a nesting deeper than `MAX_DEPTH`
/// or a chain of references without end, a pattern with a stray `]` or
/// `}`, a bound that overflows) fails with `stuck_message`.
pub open spec fn spec_schema_grammar(schema: JsonV, dotall: bool) -> Result<Seq<char>, Seq<char>> {
    let r = resolve_node(schema, ResV { refs: Seq::empty(), errors: Seq::empty() }, schema);
    let c1 = ConvV { errors: r.errors, ..crate::grammar::fresh_conv(dotall) };
    let (st, _) = visit(
        r.refs,
        Seq::empty(),
        VisV { conv: c1, stuck: false },
        schema,
        Seq::empty(),
        MAX_DEPTH as nat,
    );
    if st.stuck {
        Err(stuck_message())
    } else if st.conv.errors.len() > 0 {
        Err(crate::grammar::issues_text(st.conv.errors))
    } else {
        Ok(crate::schema::spec_format_grammar(st.conv.rules))
    }
}

impl JsonConverter {
    /// Stores a rule of the caller's own under a name made from `name` (see
    /// `spec_add_rule`); gives the name used.
    pub fn add_rule(&mut self, name: &[char], rule: &[char]) -> (used: Vec<char>)
        ensures
            (used@, final(self)@.conv.rules) == crate::schema::spec_add_rule(
                old(self)@.conv.rules,
                name@,
                rule@,
            ),
            final(self)@.conv.dotall == old(self)@.conv.dotall,
            final(self)@.conv.errors == old(self)@.conv.errors,
            final(self)@.conv.warnings == old(self)@.conv.warnings,
            final(self)@.refs == old(self)@.refs,
            final(self)@.stuck == old(self)@.stuck,
    {
        self.conv.add_rule(name, rule)
    }

    /// Converts `schema` under the name `name` (`root` when empty); the
    /// name of its rule, or `None` when the conversion got stuck.
    pub fn visit(&mut self, schema: &Json, name: &[char]) -> (r: Option<Vec<char>>)
        ensures
            ({
                let (st, n) = visit(
                    old(self)@.refs,
                    Seq::empty(),
                    vis_of(old(self)@),
                    jv(*schema),
                    name@,
                    MAX_DEPTH as nat,
                );
                &&& vis_of(final(self)@) == st
                &&& final(self)@.refs == old(self)@.refs
                &&& match r {
                    Some(u) => !st.stuck && u@ == n,
                    None => st.stuck,
                }
            }),
    {
        let mut being: Vec<Vec<char>> = Vec::new();
        assert(texts_view(being@) =~= Seq::<Seq<char>>::empty());
        let n = self.visit_exec(&mut being, schema, name, MAX_DEPTH);
        if self.stuck {
            None
        } else {
            Some(n)
        }
    }

    /// The grammar text, or the errors met, one per line.
    pub fn finish(&self) -> (r: Result<Vec<char>, Vec<char>>)
        ensures
            self@.stuck ==> (r is Err && r->Err_0@ == stuck_message()),
            !self@.stuck && self@.conv.errors.len() > 0 ==> (r is Err && r->Err_0@
                == crate::grammar::issues_text(self@.conv.errors)),
            !self@.stuck && self@.conv.errors.len() == 0 ==> (r is Ok && r->Ok_0@
                == crate::schema::spec_format_grammar(self@.conv.rules)),
    {
        if self.stuck {
            return Err(chars_of("Schema cannot be converted"));
        }
        match self.conv.check_errors() {
            Err(crate::schema::SchemaError::Conversion(m)) => Err(chars_of(m.as_str())),
            Ok(()) => Ok(self.conv.format_grammar()),
        }
    }
}

/// The GBNF grammar for a JSON schema; see `spec_schema_grammar`.  A
/// grammar of this kind is made whatever `force_gbnf` says.
pub fn json_schema_to_grammar(schema: &Json, force_gbnf: bool) -> (r: Result<
    String,
    crate::schema::SchemaError,
>)
    ensures
        match r {
            Ok(g) => spec_schema_grammar(jv(*schema), false) == Ok::<Seq<char>, Seq<char>>(g@),
            Err(crate::schema::SchemaError::Conversion(m)) => spec_schema_grammar(jv(*schema), false)
                == Err::<Seq<char>, Seq<char>>(m@),
        },
{
    let _ = force_gbnf;
    let mut c = JsonConverter::new(false);
    assert(c@.refs =~= Seq::<(Seq<char>, JsonV)>::empty());
    assert(c@.conv.errors =~= Seq::<Seq<char>>::empty());
    c.resolve_refs(schema);
    let root: Vec<char> = Vec::new();
    assert(root@ =~= Seq::<char>::empty());
    let _ = c.visit(schema, &root);
    match c.finish() {
        Ok(g) => Ok(crate::text::string_from(&g)),
        Err(m) => Err(crate::schema::SchemaError::Conversion(crate::text::string_from(&m))),
    }
}

/// The message of a schema text that does not parse.
pub open spec fn parse_failure_message(m: Seq<char>) -> Seq<char> {
    "Failed to parse schema: "@ + m
}

/// The GBNF grammar for a JSON schema written as JSON text: when the text
/// does not parse, the error says so with the parser's message; otherwise
/// it is what `json_schema_to_grammar` gives for the value.
pub fn json_schema_str_to_grammar(schema: &str, force_gbnf: bool) -> (r: Result<
    String,
    crate::schema::SchemaError,
>)
    ensures
        match crate::json::json_text_value(schema@) {
            Err(pm) => r matches Err(crate::schema::SchemaError::Conversion(m)) && m@
                == parse_failure_message(pm),
            Ok(v) => match r {
                Ok(g) => spec_schema_grammar(v, false) == Ok::<Seq<char>, Seq<char>>(g@),
                Err(crate::schema::SchemaError::Conversion(m)) => spec_schema_grammar(v, false)
                    == Err::<Seq<char>, Seq<char>>(m@),
            },
        },
{
    match crate::json::parse_json_text(schema) {
        Err(pm) => {
            let mut m = crate::text::string_from(&chars_of("Failed to parse schema: "));
            crate::text::push_str(&mut m, pm.as_str());
            Err(crate::schema::SchemaError::Conversion(m))
        },
        Ok(v) => json_schema_to_grammar(&v, force_gbnf),
    }
}


/// The bounds of an integer schema: an inclusive `minimum` (`maximum`) is
/// the bound itself; without it an `exclusiveMinimum` m gives m + 1 (an
/// `exclusiveMaximum` m gives m - 1), so the excluded value is left out;
/// with neither, the bound is the end of the `i32` range.
pub proof fn law_integer_bounds(schema: JsonV)
    ensures
        integer_bounds(schema) matches Some((lo, hi)) ==> {
            &&& as_i64(member(schema, "minimum"@)) matches Some(v) ==> lo == v as i32
            &&& as_i64(member(schema, "minimum"@)) is None ==> (as_i64(
                member(schema, "exclusiveMinimum"@),
            ) matches Some(m) ==> lo == (m as i32) + 1 && lo > (m as i32))
            &&& as_i64(member(schema, "minimum"@)) is None && as_i64(
                member(schema, "exclusiveMinimum"@),
            ) is None ==> lo == i32::MIN
            &&& as_i64(member(schema, "maximum"@)) matches Some(v) ==> hi == v as i32
            &&& as_i64(member(schema, "maximum"@)) is None ==> (as_i64(
                member(schema, "exclusiveMaximum"@),
            ) matches Some(m) ==> hi == (m as i32) - 1 && hi < (m as i32))
            &&& as_i64(member(schema, "maximum"@)) is None && as_i64(
                member(schema, "exclusiveMaximum"@),
            ) is None ==> hi == i32::MAX
        },
{
}

} // verus!
