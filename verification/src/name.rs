//! Model names of the form `host/namespace/model:tag`.

use vstd::prelude::*;
use crate::text::{
    chars_of, find_pair, first_pair_index, last_index_of, lemma_first_pair_index,
    lemma_last_index_of, rfind_char, slice_chars, string_from,
};

verus! {

broadcast use vstd::string::group_string_axioms;

/// Placeholder for a part that was promised by a separator but left empty.
pub const MISSING_PART: &'static str = "!MISSING!";

/// Host used when a name does not give one.
pub const DEFAULT_HOST: &'static str = "registry.ollama.ai";

/// Namespace used when a name does not give one.
pub const DEFAULT_NAMESPACE: &'static str = "library";

/// Tag used when a name does not give one.
pub const DEFAULT_TAG: &'static str = "latest";

/// A model name; parts may be empty when the text did not give them.
#[derive(Debug, Clone, PartialEq, Eq)]
pub struct Name {
    pub host: String,
    pub namespace: String,
    pub model: String,
    pub tag: String,
}

/// The four parts of a name as character sequences.
pub struct NameView {
    pub host: Seq<char>,
    pub namespace: Seq<char>,
    pub model: Seq<char>,
    pub tag: Seq<char>,
}

impl View for Name {
    type V = NameView;

    open spec fn view(&self) -> NameView {
        NameView {
            host: self.host@,
            namespace: self.namespace@,
            model: self.model@,
            tag: self.tag@,
        }
    }
}

impl Default for Name {
    fn default() -> (n: Name)
        ensures
            n@ == empty_name(),
    {
        Name { host: String::new(), namespace: String::new(), model: String::new(), tag: String::new() }
    }
}

/// The name with every part empty.
pub open spec fn empty_name() -> NameView {
    NameView {
        host: Seq::empty(),
        namespace: Seq::empty(),
        model: Seq::empty(),
        tag: Seq::empty(),
    }
}

/// The name that supplies the default host, namespace and tag.
pub open spec fn spec_default_name() -> NameView {
    NameView {
        host: DEFAULT_HOST@,
        namespace: DEFAULT_NAMESPACE@,
        model: Seq::empty(),
        tag: DEFAULT_TAG@,
    }
}

/// `a` with its empty host, namespace and tag taken from `b`.
pub open spec fn spec_merge(a: NameView, b: NameView) -> NameView {
    NameView {
        host: if a.host.len() == 0 { b.host } else { a.host },
        namespace: if a.namespace.len() == 0 { b.namespace } else { a.namespace },
        model: a.model,
        tag: if a.tag.len() == 0 { b.tag } else { a.tag },
    }
}

/// Splits at the last `sep`: the text before it, the text after it, and
/// whether `sep` occurs at all.
pub open spec fn spec_cut_last(s: Seq<char>, sep: char) -> (Seq<char>, Seq<char>, bool) {
    let i = last_index_of(s, sep);
    if i < 0 {
        (s, Seq::empty(), false)
    } else {
        (s.take(i), s.skip(i + 1), true)
    }
}

/// Like `spec_cut_last`, with an empty side replaced by `MISSING_PART`
/// when the separator was found.
pub open spec fn spec_cut_promised(s: Seq<char>, sep: char) -> (Seq<char>, Seq<char>, bool) {
    let (before, after, ok) = spec_cut_last(s, sep);
    if !ok {
        (before, after, false)
    } else {
        (
            if before.len() == 0 { MISSING_PART@ } else { before },
            if after.len() == 0 { MISSING_PART@ } else { after },
            true,
        )
    }
}

/// Whether the tag is cut off at the last `:`: there is a `:` and no `/`
/// after it.
pub open spec fn has_tag_separator(s: Seq<char>) -> bool {
    let colon = last_index_of(s, ':');
    let slash = last_index_of(s, '/');
    colon >= 0 && (slash < 0 || colon > slash)
}

/// The parts that `s` gives, with no defaults filled in.
pub open spec fn spec_parse_name_bare(s: Seq<char>) -> NameView {
    let s1 = if has_tag_separator(s) { spec_cut_promised(s, ':').0 } else { s };
    let tag = if has_tag_separator(s) { spec_cut_promised(s, ':').1 } else { Seq::empty() };
    let (b1, model, p1) = spec_cut_promised(s1, '/');
    if !p1 {
        NameView { host: Seq::empty(), namespace: Seq::empty(), model: s1, tag }
    } else {
        let (b2, namespace, p2) = spec_cut_promised(b1, '/');
        if !p2 {
            NameView { host: Seq::empty(), namespace: b1, model, tag }
        } else {
            let k = first_pair_index(b2, '/', '/');
            NameView { host: if k >= 0 { b2.skip(k + 2) } else { b2 }, namespace, model, tag }
        }
    }
}

/// The kind of a name part; each kind accepts its own characters.
#[derive(Debug, Clone, Copy, PartialEq, Eq)]
pub enum PartKind {
    Host,
    Namespace,
    Model,
    Tag,
    Digest,
}

/// ASCII letter, digit or underscore.
pub open spec fn spec_alnum_or_underscore(c: u32) -> bool {
    (65 <= c <= 90) || (97 <= c <= 122) || (48 <= c <= 57) || c == 95
}

/// Whether `c` may stand after the first character of a part of `kind`.
pub open spec fn part_char_ok(kind: PartKind, c: char) -> bool {
    if c == '_' || c == '-' {
        true
    } else if c == '.' {
        kind != PartKind::Namespace
    } else if c == ':' {
        kind == PartKind::Host || kind == PartKind::Digest
    } else {
        spec_alnum_or_underscore(c as u32)
    }
}

/// Largest length a part of `kind` may have.
pub open spec fn max_part_len(kind: PartKind) -> nat {
    if kind == PartKind::Host {
        350
    } else {
        80
    }
}

/// A valid part: of allowed length, starting with a letter, digit or
/// underscore, and holding only the characters its kind accepts.
pub open spec fn spec_valid_part(kind: PartKind, s: Seq<char>) -> bool {
    &&& 1 <= s.len() <= max_part_len(kind)
    &&& spec_alnum_or_underscore(s[0] as u32)
    &&& forall|i: int| 1 <= i < s.len() ==> #[trigger] part_char_ok(kind, s[i])
}

/// All four parts are valid for their kinds.
pub open spec fn spec_fully_qualified(n: NameView) -> bool {
    &&& spec_valid_part(PartKind::Host, n.host)
    &&& spec_valid_part(PartKind::Namespace, n.namespace)
    &&& spec_valid_part(PartKind::Model, n.model)
    &&& spec_valid_part(PartKind::Tag, n.tag)
}

/// `host/namespace/model:tag`, leaving out empty parts with their separators.
pub open spec fn spec_display(n: NameView) -> Seq<char> {
    (if n.host.len() == 0 { Seq::empty() } else { n.host.push('/') }) + (if n.namespace.len()
        == 0 {
        Seq::empty()
    } else {
        n.namespace.push('/')
    }) + n.model + (if n.tag.len() == 0 {
        Seq::empty()
    } else {
        seq![':'] + n.tag
    })
}

/// A character lowered when it is an ASCII capital.
pub open spec fn ascii_lower(c: char) -> u32 {
    let u = c as u32;
    if 65 <= u <= 90 {
        (u + 32) as u32
    } else {
        u
    }
}

/// Equal when ASCII letters are compared without case.
pub open spec fn eq_fold(a: Seq<char>, b: Seq<char>) -> bool {
    a.len() == b.len() && forall|i: int| 0 <= i < a.len() ==> ascii_lower(#[trigger] a[i])
        == ascii_lower(b[i])
}

/// The shortest text that names `n`: the default host and namespace are
/// left out, the tag is always written.
pub open spec fn spec_display_shortest(n: NameView) -> Seq<char> {
    (if !eq_fold(n.host, DEFAULT_HOST@) {
        n.host.push('/') + n.namespace.push('/')
    } else if !eq_fold(n.namespace, DEFAULT_NAMESPACE@) {
        n.namespace.push('/')
    } else {
        Seq::empty()
    }) + n.model.push(':') + n.tag
}

/// The pieces of `s` between occurrences of `c`, as `str::split` gives them.
pub open spec fn split_char(s: Seq<char>, c: char) -> Seq<Seq<char>>
    decreases s.len(),
{
    let i = last_index_of(s, c);
    if i < 0 {
        seq![s]
    } else {
        proof {
            lemma_last_index_of(s, c);
        }
        split_char(s.take(i), c).push(s.skip(i + 1))
    }
}

/// A character that separates path components on some platform: `/`, or
/// `\` on Windows.
pub open spec fn is_path_separator(c: char) -> bool {
    c == '/' || c == '\\'
}

/// The name a store path `host<sep>namespace<sep>model<sep>tag` stands
/// for, or the empty name.
pub open spec fn spec_parse_name_from_filepath(s: Seq<char>, sep: char) -> NameView {
    let parts = split_char(s, sep);
    if parts.len() != 4 {
        empty_name()
    } else {
        let n = NameView { host: parts[0], namespace: parts[1], model: parts[2], tag: parts[3] };
        if spec_fully_qualified(n) {
            n
        } else {
            empty_name()
        }
    }
}

/// `host<sep>namespace<sep>model<sep>tag`.
pub open spec fn spec_filepath(n: NameView, sep: char) -> Seq<char> {
    n.host.push(sep) + n.namespace.push(sep) + n.model.push(sep) + n.tag
}

/// `std::path::MAIN_SEPARATOR`: the separator of path components on this
/// platform, `/` or, on Windows, `\`.
#[verifier::external_body]
fn main_separator() -> (c: char)
    ensures
        is_path_separator(c),
{
    std::path::MAIN_SEPARATOR
}

/// The default host, namespace and tag, with an empty model.
pub fn default_name() -> (n: Name)
    ensures
        n@ == spec_default_name(),
{
    Name {
        host: string_from(&chars_of(DEFAULT_HOST)),
        namespace: string_from(&chars_of(DEFAULT_NAMESPACE)),
        model: String::new(),
        tag: string_from(&chars_of(DEFAULT_TAG)),
    }
}

/// Fills the empty host, namespace and tag of `a` from `b`.
pub fn merge(a: Name, b: Name) -> (r: Name)
    ensures
        r@ == spec_merge(a@, b@),
{
    let mut a = a;
    if a.host.as_str().is_empty() {
        a.host = b.host;
    }
    if a.namespace.as_str().is_empty() {
        a.namespace = b.namespace;
    }
    if a.tag.as_str().is_empty() {
        a.tag = b.tag;
    }
    a
}

/// Parses `s` and fills in the default host, namespace and tag.
pub fn parse_name(s: &str) -> (n: Name)
    ensures
        n@ == spec_merge(spec_parse_name_bare(s@), spec_default_name()),
{
    merge(parse_name_bare(s), default_name())
}

fn missing_chars() -> (v: Vec<char>)
    ensures
        v@ == MISSING_PART@,
{
    chars_of(MISSING_PART)
}

/// Splits `s` at the last `sep`.
pub fn cut_last(s: &[char], sep: char) -> (r: (Vec<char>, Vec<char>, bool))
    ensures
        (r.0@, r.1@, r.2) == spec_cut_last(s@, sep),
{
    proof {
        lemma_last_index_of(s@, sep);
    }
    let n = s.len();
    match rfind_char(s, sep) {
        Some(i) => {
            assert(i < n);
            (slice_chars(s, 0, i), slice_chars(s, i + 1, s.len()), true)
        },
        None => (slice_chars(s, 0, s.len()), Vec::new(), false),
    }
}

/// Splits `s` at the last `sep`, writing `MISSING_PART` for an empty side.
pub fn cut_promised(s: &[char], sep: char) -> (r: (Vec<char>, Vec<char>, bool))
    ensures
        (r.0@, r.1@, r.2) == spec_cut_promised(s@, sep),
{
    let (before, after, ok) = cut_last(s, sep);
    if !ok {
        return (before, after, false);
    }
    let b = if before.len() == 0 { missing_chars() } else { before };
    let a = if after.len() == 0 { missing_chars() } else { after };
    (b, a, true)
}

/// Parses `s` into its parts without filling in defaults.
pub fn parse_name_bare(s: &str) -> (n: Name)
    ensures
        n@ == spec_parse_name_bare(s@),
{
    let v = chars_of(s);
    let colon = rfind_char(&v, ':');
    let slash = rfind_char(&v, '/');
    let cut_tag = match (colon, slash) {
        (Some(c), Some(sl)) => c > sl,
        (Some(_), None) => true,
        _ => false,
    };
    let (s1, tag) = if cut_tag {
        let (before, after, _) = cut_promised(&v, ':');
        (before, after)
    } else {
        (v, Vec::new())
    };
    let tag = string_from(&tag);
    let (b1, model, p1) = cut_promised(&s1, '/');
    if !p1 {
        return Name { host: String::new(), namespace: String::new(), model: string_from(&s1), tag };
    }
    let (b2, namespace, p2) = cut_promised(&b1, '/');
    if !p2 {
        return Name {
            host: String::new(),
            namespace: string_from(&b1),
            model: string_from(&model),
            tag,
        };
    }
    proof {
        lemma_first_pair_index(b2@, '/', '/');
    }
    let host = match find_pair(&b2, '/', '/') {
        Some(k) => slice_chars(&b2, k + 2, b2.len()),
        None => b2,
    };
    Name {
        host: string_from(&host),
        namespace: string_from(&namespace),
        model: string_from(&model),
        tag,
    }
}

/// Splits `v` at every `c`.
pub fn split_chars(v: &[char], c: char) -> (parts: Vec<Vec<char>>)
    ensures
        parts@.len() == split_char(v@, c).len(),
        forall|i: int| 0 <= i < parts@.len() ==> #[trigger] parts@[i]@ == split_char(v@, c)[i],
{
    let mut parts: Vec<Vec<char>> = Vec::new();
    let mut cur: Vec<char> = Vec::new();
    let mut i: usize = 0;
    assert(v@.take(0) =~= Seq::<char>::empty());
    assert(split_char(Seq::<char>::empty(), c) == seq![Seq::<char>::empty()]);
    while i < v.len()
        invariant
            i <= v@.len(),
            split_char(v@.take(i as int), c).len() == parts@.len() + 1,
            forall|j: int|
                0 <= j < parts@.len() ==> #[trigger] parts@[j]@ == split_char(
                    v@.take(i as int),
                    c,
                )[j],
            split_char(v@.take(i as int), c).last() == cur@,
        decreases v@.len() - i,
    {
        let ghost t = v@.take(i as int);
        let ghost t1 = v@.take(i + 1);
        assert(t1.drop_last() == t);
        assert(t1 == t.push(v@[i as int]));
        if v[i] == c {
            assert(last_index_of(t1, c) == i);
            assert(t1.take(i as int) == t);
            assert(t1.skip(i + 1) =~= Seq::<char>::empty());
            parts.push(cur);
            cur = Vec::new();
        } else {
            assert(last_index_of(t1, c) == last_index_of(t, c));
            proof { lemma_split_push(t, c, v@[i as int]); }
            cur.push(v[i]);
        }
        i += 1;
    }
    assert(v@.take(v@.len() as int) == v@);
    parts.push(cur);
    parts
}

proof fn lemma_split_push(s: Seq<char>, c: char, x: char)
    requires
        x != c,
    ensures
        split_char(s.push(x), c) == split_char(s, c).update(
            split_char(s, c).len() - 1,
            split_char(s, c).last().push(x),
        ),
        split_char(s.push(x), c).len() == split_char(s, c).len(),
        split_char(s, c).len() >= 1,
{
    let t = s.push(x);
    assert(t.drop_last() == s);
    lemma_last_index_of(s, c);
    let i = last_index_of(s, c);
    assert(last_index_of(t, c) == i);
    if i < 0 {
        assert(split_char(t, c) == seq![t]);
        assert(split_char(s, c) == seq![s]);
        assert(split_char(t, c) =~= split_char(s, c).update(0, s.push(x)));
    } else {
        assert(t.take(i) == s.take(i));
        assert(t.skip(i + 1) == s.skip(i + 1).push(x));
        assert(split_char(t, c) =~= split_char(s, c).update(
            split_char(s, c).len() - 1,
            split_char(s, c).last().push(x),
        ));
    }
}

/// Reads a name back from a store path `host<sep>namespace<sep>model<sep>tag`;
/// any other shape, or a part that is not valid, gives the empty name.
pub fn parse_name_from_filepath_with(s: &str, sep: char) -> (n: Name)
    ensures
        n@ == spec_parse_name_from_filepath(s@, sep),
{
    let v = chars_of(s);
    let parts = split_chars(&v, sep);
    if parts.len() != 4 {
        return Name::default();
    }
    let n = Name {
        host: string_from(&parts[0]),
        namespace: string_from(&parts[1]),
        model: string_from(&parts[2]),
        tag: string_from(&parts[3]),
    };
    assert(parts@[0]@ == split_char(v@, sep)[0]);
    assert(parts@[1]@ == split_char(v@, sep)[1]);
    assert(parts@[2]@ == split_char(v@, sep)[2]);
    assert(parts@[3]@ == split_char(v@, sep)[3]);
    if !n.is_fully_qualified() {
        Name::default()
    } else {
        n
    }
}

/// Reads a name back from a store path, its parts separated by this
/// platform's path separator; see `parse_name_from_filepath_with`.
pub fn parse_name_from_filepath(s: &str) -> (n: Name)
    ensures
        n@ == spec_parse_name_from_filepath(s@, '/') || n@ == spec_parse_name_from_filepath(s@, '\\'),
{
    parse_name_from_filepath_with(s, main_separator())
}

/// Whether `c` is an ASCII letter, digit or underscore.
pub fn is_alphanumeric_or_underscore(c: char) -> (r: bool)
    ensures
        r == spec_alnum_or_underscore(c as u32),
{
    let u = c as u32;
    (65 <= u && u <= 90) || (97 <= u && u <= 122) || (48 <= u && u <= 57) || u == 95
}

/// Whether the length of `s` is allowed for `kind`.
pub fn is_valid_len(kind: PartKind, s: &[char]) -> (r: bool)
    ensures
        r == (1 <= s@.len() <= max_part_len(kind)),
{
    match kind {
        PartKind::Host => 1 <= s.len() && s.len() <= 350,
        _ => 1 <= s.len() && s.len() <= 80,
    }
}

fn part_char_ok_exec(kind: PartKind, c: char) -> (r: bool)
    ensures
        r == part_char_ok(kind, c),
{
    if c == '_' || c == '-' {
        true
    } else if c == '.' {
        !matches!(kind, PartKind::Namespace)
    } else if c == ':' {
        matches!(kind, PartKind::Host | PartKind::Digest)
    } else {
        is_alphanumeric_or_underscore(c)
    }
}

fn is_valid_part_chars(kind: PartKind, v: &[char]) -> (r: bool)
    ensures
        r == spec_valid_part(kind, v@),
{
    if !is_valid_len(kind, v) {
        return false;
    }
    if !is_alphanumeric_or_underscore(v[0]) {
        return false;
    }
    let mut i: usize = 1;
    while i < v.len()
        invariant
            1 <= i <= v@.len(),
            forall|j: int| 1 <= j < i ==> #[trigger] part_char_ok(kind, v@[j]),
        decreases v@.len() - i,
    {
        if !part_char_ok_exec(kind, v[i]) {
            return false;
        }
        i += 1;
    }
    true
}

/// Whether `s` is a valid part of `kind`.
pub fn is_valid_part(kind: PartKind, s: &str) -> (r: bool)
    ensures
        r == spec_valid_part(kind, s@),
{
    is_valid_part_chars(kind, &chars_of(s))
}

/// Whether `s` is a valid namespace.
pub fn is_valid_namespace(s: &str) -> (r: bool)
    ensures
        r == spec_valid_part(PartKind::Namespace, s@),
{
    is_valid_part(PartKind::Namespace, s)
}

fn push_all(out: &mut String, s: &str)
    ensures
        final(out)@ == old(out)@ + s@,
{
    let v = chars_of(s);
    let mut i: usize = 0;
    while i < v.len()
        invariant
            i <= v@.len(),
            v@ == s@,
            out@ == old(out)@ + v@.take(i as int),
        decreases v@.len() - i,
    {
        crate::text::push_char(out, v[i]);
        assert(v@.take(i + 1) == v@.take(i as int).push(v@[i as int]));
        i += 1;
    }
    assert(v@.take(v@.len() as int) == v@);
}

/// Whether `a` and `b` are equal when ASCII letters are compared without
/// case.
pub fn eq_fold_chars(a: &[char], b: &[char]) -> (r: bool)
    ensures
        r == eq_fold(a@, b@),
{
    if a.len() != b.len() {
        return false;
    }
    let mut i: usize = 0;
    while i < a.len()
        invariant
            i <= a@.len(),
            a@.len() == b@.len(),
            forall|j: int| 0 <= j < i ==> ascii_lower(#[trigger] a@[j]) == ascii_lower(b@[j]),
        decreases a@.len() - i,
    {
        let u = a[i] as u32;
        let w = b[i] as u32;
        let lu = if 65 <= u && u <= 90 { u + 32 } else { u };
        let lw = if 65 <= w && w <= 90 { w + 32 } else { w };
        if lu != lw {
            return false;
        }
        i += 1;
    }
    true
}

fn eq_ignore_ascii_case(a: &str, b: &str) -> (r: bool)
    ensures
        r == eq_fold(a@, b@),
{
    let x = chars_of(a);
    let y = chars_of(b);
    if x.len() != y.len() {
        return false;
    }
    let mut i: usize = 0;
    while i < x.len()
        invariant
            i <= x@.len(),
            x@.len() == y@.len(),
            x@ == a@,
            y@ == b@,
            forall|j: int| 0 <= j < i ==> ascii_lower(#[trigger] x@[j]) == ascii_lower(y@[j]),
        decreases x@.len() - i,
    {
        let u = x[i] as u32;
        let w = y[i] as u32;
        let lu = if 65 <= u && u <= 90 { u + 32 } else { u };
        let lw = if 65 <= w && w <= 90 { w + 32 } else { w };
        if lu != lw {
            return false;
        }
        i += 1;
    }
    true
}

impl Name {
    /// A name is valid when it is fully qualified.
    pub fn is_valid(&self) -> (r: bool)
        ensures
            r == spec_fully_qualified(self@),
    {
        self.is_fully_qualified()
    }

    /// Whether every part is valid for its kind.
    pub fn is_fully_qualified(&self) -> (r: bool)
        ensures
            r == spec_fully_qualified(self@),
    {
        is_valid_part(PartKind::Host, self.host.as_str()) && is_valid_part(
            PartKind::Namespace,
            self.namespace.as_str(),
        ) && is_valid_part(PartKind::Model, self.model.as_str()) && is_valid_part(
            PartKind::Tag,
            self.tag.as_str(),
        )
    }

    /// The relative store path `host<sep>namespace<sep>model<sep>tag` of a
    /// fully qualified name.
    pub fn filepath_with(&self, sep: char) -> (p: String)
        requires
            spec_fully_qualified(self@),
        ensures
            p@ == spec_filepath(self@, sep),
    {
        let mut out = String::new();
        push_all(&mut out, self.host.as_str());
        crate::text::push_char(&mut out, sep);
        push_all(&mut out, self.namespace.as_str());
        crate::text::push_char(&mut out, sep);
        push_all(&mut out, self.model.as_str());
        crate::text::push_char(&mut out, sep);
        push_all(&mut out, self.tag.as_str());
        out
    }

    /// The relative store path of a fully qualified name, its parts joined
    /// by this platform's path separator; see `filepath_with`.
    pub fn filepath(&self) -> (p: String)
        requires
            spec_fully_qualified(self@),
        ensures
            p@ == spec_filepath(self@, '/') || p@ == spec_filepath(self@, '\\'),
    {
        self.filepath_with(main_separator())
    }

    /// The shortest text that names this model.
    pub fn display_shortest(&self) -> (out: String)
        ensures
            out@ == spec_display_shortest(self@),
    {
        let mut out = String::new();
        if !eq_ignore_ascii_case(self.host.as_str(), DEFAULT_HOST) {
            push_all(&mut out, self.host.as_str());
            crate::text::push_char(&mut out, '/');
            push_all(&mut out, self.namespace.as_str());
            crate::text::push_char(&mut out, '/');
        } else if !eq_ignore_ascii_case(self.namespace.as_str(), DEFAULT_NAMESPACE) {
            push_all(&mut out, self.namespace.as_str());
            crate::text::push_char(&mut out, '/');
        }
        push_all(&mut out, self.model.as_str());
        crate::text::push_char(&mut out, ':');
        push_all(&mut out, self.tag.as_str());
        out
    }

    /// Whether both names have the same parts, ignoring ASCII case.
    pub fn equal_fold(&self, other: &Name) -> (r: bool)
        ensures
            r == (eq_fold(self.host@, other.host@) && eq_fold(self.namespace@, other.namespace@)
                && eq_fold(self.model@, other.model@) && eq_fold(self.tag@, other.tag@)),
    {
        eq_ignore_ascii_case(self.host.as_str(), other.host.as_str()) && eq_ignore_ascii_case(
            self.namespace.as_str(),
            other.namespace.as_str(),
        ) && eq_ignore_ascii_case(self.model.as_str(), other.model.as_str())
            && eq_ignore_ascii_case(self.tag.as_str(), other.tag.as_str())
    }

    /// `host/namespace/model:tag`, leaving out empty parts.
    pub fn to_string(&self) -> (out: String)
        ensures
            out@ == spec_display(self@),
    {
        let mut out = String::new();
        if !self.host.as_str().is_empty() {
            push_all(&mut out, self.host.as_str());
            crate::text::push_char(&mut out, '/');
        }
        if !self.namespace.as_str().is_empty() {
            push_all(&mut out, self.namespace.as_str());
            crate::text::push_char(&mut out, '/');
        }
        push_all(&mut out, self.model.as_str());
        if !self.tag.as_str().is_empty() {
            crate::text::push_char(&mut out, ':');
            push_all(&mut out, self.tag.as_str());
        }
        out
    }
}

/// No valid part contains `c` when `c` is neither accepted after the first
/// character nor a letter, digit or underscore.
proof fn lemma_valid_part_excludes(kind: PartKind, s: Seq<char>, c: char)
    requires
        spec_valid_part(kind, s),
        !part_char_ok(kind, c),
        !spec_alnum_or_underscore(c as u32),
    ensures
        forall|i: int| 0 <= i < s.len() ==> s[i] != c,
{
    assert forall|i: int| 0 <= i < s.len() implies s[i] != c by {
        if i >= 1 {
            assert(part_char_ok(kind, s[i]));
        }
    }
}

/// `MISSING_PART` is not a valid part of any kind.
pub proof fn lemma_missing_part_invalid(kind: PartKind)
    ensures
        !spec_valid_part(kind, MISSING_PART@),
{
    reveal_strlit("!MISSING!");
    assert(MISSING_PART@[0] == '!');
}

/// A sequence without `c` is one piece.
proof fn lemma_split_none(s: Seq<char>, c: char)
    requires
        forall|i: int| 0 <= i < s.len() ==> s[i] != c,
    ensures
        split_char(s, c) == seq![s],
{
    lemma_last_index_of(s, c);
}

/// Appending `c` and a piece without `c` appends that piece.
proof fn lemma_split_append(a: Seq<char>, b: Seq<char>, c: char)
    requires
        forall|i: int| 0 <= i < b.len() ==> b[i] != c,
    ensures
        split_char(a.push(c) + b, c) == split_char(a, c).push(b),
{
    let s = a.push(c) + b;
    lemma_last_index_of(s, c);
    let r = last_index_of(s, c);
    assert(s[a.len() as int] == c);
    if r > a.len() {
        assert(s[r] == b[r - a.len() - 1]);
    }
    assert(r == a.len());
    assert(s.take(r) == a);
    assert(s.skip(r + 1) == b);
}

/// Law: the store path of a fully qualified name reads back as that name,
/// with either path separator.
pub proof fn law_filepath_round_trip(n: NameView, sep: char)
    requires
        spec_fully_qualified(n),
        is_path_separator(sep),
    ensures
        spec_parse_name_from_filepath(spec_filepath(n, sep), sep) == n,
{
    lemma_valid_part_excludes(PartKind::Host, n.host, sep);
    lemma_valid_part_excludes(PartKind::Namespace, n.namespace, sep);
    lemma_valid_part_excludes(PartKind::Model, n.model, sep);
    lemma_valid_part_excludes(PartKind::Tag, n.tag, sep);
    lemma_split_none(n.host, sep);
    lemma_split_append(n.host, n.namespace, sep);
    lemma_split_append(n.host.push(sep) + n.namespace, n.model, sep);
    lemma_split_append(n.host.push(sep) + n.namespace.push(sep) + n.model, n.tag, sep);
    assert(n.host.push(sep) + n.namespace.push(sep) == (n.host.push(sep) + n.namespace).push(sep));
    assert(n.host.push(sep) + n.namespace.push(sep) + n.model.push(sep) == (n.host.push(sep)
        + n.namespace.push(sep) + n.model).push(sep));
    let parts = split_char(spec_filepath(n, sep), sep);
    assert(parts == seq![n.host, n.namespace, n.model, n.tag]);
}

/// Cutting at the last `sep` of a sequence that holds it gives the text
/// around it.
proof fn lemma_cut_found(s: Seq<char>, sep: char)
    requires
        last_index_of(s, sep) >= 0,
    ensures
        s == spec_cut_last(s, sep).0.push(sep) + spec_cut_last(s, sep).1,
        spec_cut_last(s, sep).2,
        forall|i: int|
            0 <= i < spec_cut_last(s, sep).1.len() ==> #[trigger] spec_cut_last(s, sep).1[i]
                != sep,
{
    lemma_last_index_of(s, sep);
    let i = last_index_of(s, sep);
    assert(s == s.take(i).push(sep) + s.skip(i + 1));
    assert forall|j: int| 0 <= j < s.skip(i + 1).len() implies #[trigger] s.skip(i + 1)[j]
        != sep by {
        assert(s.skip(i + 1)[j] == s[i + 1 + j]);
    }
}

/// Law: a name read without defaults that turns out fully qualified prints
/// back as the text it was read from, when that text holds no `//`.
pub proof fn law_parse_display_round_trip(s: Seq<char>)
    requires
        first_pair_index(s, '/', '/') < 0,
        spec_fully_qualified(spec_parse_name_bare(s)),
    ensures
        spec_display(spec_parse_name_bare(s)) == s,
{
    let n = spec_parse_name_bare(s);
    lemma_missing_part_invalid(PartKind::Host);
    lemma_missing_part_invalid(PartKind::Namespace);
    lemma_missing_part_invalid(PartKind::Model);
    lemma_missing_part_invalid(PartKind::Tag);
    reveal_strlit("!MISSING!");
    let missing = MISSING_PART@;
    assert forall|i: int| 0 <= i < missing.len() implies missing[i] != '/' by {}
    lemma_last_index_of(missing, '/');
    assert(last_index_of(missing, '/') == -1);
    lemma_first_pair_index(missing, '/', '/');
    // The tag is cut off at the last ':'.
    assert(has_tag_separator(s));
    lemma_cut_found(s, ':');
    let (s1r, tag, _) = spec_cut_last(s, ':');
    assert(n.tag == tag);
    let s1 = spec_cut_promised(s, ':').0;
    assert(s1 == s1r) by {
        if s1r.len() == 0 {
            assert(last_index_of(s1, '/') == -1);
        }
    }
    // The model is cut off at the last '/' of what is left.
    assert(spec_cut_promised(s1, '/').2);
    lemma_cut_found(s1, '/');
    let (b1r, model, _) = spec_cut_last(s1, '/');
    assert(n.model == model);
    let b1 = spec_cut_promised(s1, '/').0;
    assert(b1 == b1r) by {
        if b1r.len() == 0 {
            assert(last_index_of(b1, '/') == -1);
        }
    }
    assert(spec_cut_promised(b1, '/').2);
    lemma_cut_found(b1, '/');
    let (b2r, namespace, _) = spec_cut_last(b1, '/');
    assert(n.namespace == namespace);
    let b2 = spec_cut_promised(b1, '/').0;
    // The host holds no "//", being a prefix of `s`.
    lemma_first_pair_index(s, '/', '/');
    lemma_first_pair_index(b2, '/', '/');
    if b2r.len() == 0 {
        assert(b2 == missing);
    } else {
        assert(b2 == b2r);
        assert(s == ((b2.push('/') + namespace).push('/') + model).push(':') + tag);
        if first_pair_index(b2, '/', '/') >= 0 {
            let k = first_pair_index(b2, '/', '/');
            assert(s[k] == b2[k] && s[k + 1] == b2[k + 1]);
        }
    }
    assert(n.host == b2);
    assert(spec_display(n) == ((b2.push('/') + namespace).push('/') + model).push(':') + tag);
}

} // verus!
