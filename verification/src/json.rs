//! JSON values as the schema converter reads them: their compact text and
//! JSON Pointer lookup.

use vstd::prelude::*;
use crate::text::{extend_chars, chars_eq};

verus! {

/// A JSON value.  A number keeps its JSON text and, when it is an integer
/// that fits in an `i64`, that integer; an object keeps its entries in
/// order.
pub enum Json {
    Null,
    Bool(bool),
    Number(Vec<char>, Option<i64>),
    Str(Vec<char>),
    Array(Vec<Json>),
    Object(Vec<(Vec<char>, Json)>),
}

/// A JSON value in specifications.
pub enum JsonV {
    Null,
    Bool(bool),
    Number(Seq<char>, Option<i64>),
    Str(Seq<char>),
    Array(Seq<JsonV>),
    Object(Seq<(Seq<char>, JsonV)>),
}

/// A JSON value in specifications.
pub open spec fn jv(j: Json) -> JsonV
    decreases j,
{
    match j {
        Json::Null => JsonV::Null,
        Json::Bool(b) => JsonV::Bool(b),
        Json::Number(t, i) => JsonV::Number(t@, i),
        Json::Str(s) => JsonV::Str(s@),
        Json::Array(items) => JsonV::Array(jvs(items@)),
        Json::Object(entries) => JsonV::Object(jentries(entries@)),
    }
}

/// JSON values in specifications.
pub open spec fn jvs(s: Seq<Json>) -> Seq<JsonV>
    decreases s,
{
    Seq::new(
        s.len(),
        |i: int|
            if 0 <= i < s.len() {
                jv(s[i])
            } else {
                JsonV::Null
            },
    )
}

/// Object entries in specifications.
pub open spec fn jentries(s: Seq<(Vec<char>, Json)>) -> Seq<(Seq<char>, JsonV)>
    decreases s,
{
    Seq::new(
        s.len(),
        |i: int|
            if 0 <= i < s.len() {
                (s[i].0@, jv(s[i].1))
            } else {
                (Seq::empty(), JsonV::Null)
            },
    )
}

/// A copy of `j`.
pub fn json_clone(j: &Json) -> (r: Json)
    ensures
        jv(r) == jv(*j),
    decreases j,
{
    match j {
        Json::Null => Json::Null,
        Json::Bool(b) => Json::Bool(*b),
        Json::Number(t, i) => Json::Number(copy_chars(t), *i),
        Json::Str(s) => Json::Str(copy_chars(s)),
        Json::Array(items) => Json::Array(clone_items(items)),
        Json::Object(entries) => Json::Object(clone_entries(entries)),
    }
}

/// `serde_json::Value`, carried from the parser to its conversion.
#[verifier::external_type_specification]
#[verifier::external_body]
pub struct ExJsonValue(serde_json::Value);

/// A `serde_json` value as the library's value, one for one: a number by
/// its text and its `i64` value, an object's entries in the order the map
/// gives them.
#[verifier::external_body]
pub(crate) fn json_from_value(v: &serde_json::Value) -> Json {
    match v {
        serde_json::Value::Null => Json::Null,
        serde_json::Value::Bool(b) => Json::Bool(*b),
        serde_json::Value::Number(n) => Json::Number(n.to_string().chars().collect(), n.as_i64()),
        serde_json::Value::String(t) => Json::Str(t.chars().collect()),
        serde_json::Value::Array(a) => Json::Array(a.iter().map(json_from_value).collect()),
        serde_json::Value::Object(m) => Json::Object(
            m.iter().map(|(k, x)| (k.chars().collect(), json_from_value(x))).collect(),
        ),
    }
}

/// What `serde_json` reads the JSON text `s` as: the value, or the message
/// of the error it reports.
pub uninterp spec fn json_text_value(s: Seq<char>) -> Result<JsonV, Seq<char>>;

/// `serde_json::from_str::<Value>`: the value the text holds, or the
/// parser's error message.
#[verifier::external_body]
pub(crate) fn parse_json_text(s: &str) -> (r: Result<Json, String>)
    ensures
        match r {
            Ok(j) => json_text_value(s@) == Ok::<JsonV, Seq<char>>(jv(j)),
            Err(m) => json_text_value(s@) == Err::<JsonV, Seq<char>>(m@),
        },
{
    match serde_json::from_str::<serde_json::Value>(s) {
        Ok(v) => Ok(json_from_value(&v)),
        Err(e) => Err(e.to_string()),
    }
}

/// A copy of the items of an array.
pub fn clone_items(items: &Vec<Json>) -> (out: Vec<Json>)
    ensures
        jvs(out@) == jvs(items@),
    decreases items@,
{
    let mut out: Vec<Json> = Vec::new();
    let mut k: usize = 0;
    while k < items.len()
        invariant
            k <= items@.len(),
            jvs(out@) == jvs(items@).take(k as int),
        decreases items@.len() - k,
    {
        let c = json_clone(&items[k]);
        let ghost before = out@;
        out.push(c);
        assert(jvs(out@) =~= jvs(before).push(jv(c)));
        assert(jvs(items@).take(k + 1) =~= jvs(items@).take(k as int).push(jv(items@[k as int])));
        k += 1;
    }
    assert(jvs(items@).take(items@.len() as int) =~= jvs(items@));
    out
}

/// A copy of the entries of an object.
pub fn clone_entries(entries: &Vec<(Vec<char>, Json)>) -> (out: Vec<(Vec<char>, Json)>)
    ensures
        jentries(out@) == jentries(entries@),
    decreases entries@,
{
    let mut out: Vec<(Vec<char>, Json)> = Vec::new();
    let mut k: usize = 0;
    while k < entries.len()
        invariant
            k <= entries@.len(),
            jentries(out@) == jentries(entries@).take(k as int),
        decreases entries@.len() - k,
    {
        let c = json_clone(&entries[k].1);
        let key = copy_chars(&entries[k].0);
        let ghost before = out@;
        out.push((key, c));
        assert(jentries(out@) =~= jentries(before).push((key@, jv(c))));
        assert(jentries(entries@).take(k + 1) =~= jentries(entries@).take(k as int).push(
            (entries@[k as int].0@, jv(entries@[k as int].1)),
        ));
        k += 1;
    }
    assert(jentries(entries@).take(entries@.len() as int) =~= jentries(entries@));
    out
}

/// A copy of `v`.
pub fn copy_chars(v: &[char]) -> (out: Vec<char>)
    ensures
        out@ == v@,
{
    let mut out: Vec<char> = Vec::new();
    extend_chars(&mut out, v);
    assert(out@ =~= v@);
    out
}

// ---------------------------------------------------------------------------
// Looking up
// ---------------------------------------------------------------------------

/// The value of the first entry named `key`, looking from index `i` on.
pub open spec fn entries_get(e: Seq<(Seq<char>, JsonV)>, key: Seq<char>, i: int) -> Option<JsonV>
    decreases e.len() - i,
{
    if i < 0 || i >= e.len() {
        None
    } else if e[i].0 == key {
        Some(e[i].1)
    } else {
        entries_get(e, key, i + 1)
    }
}

/// The member `key` of `v`, when `v` is an object that has one.
pub open spec fn member(v: JsonV, key: Seq<char>) -> Option<JsonV> {
    match v {
        JsonV::Object(e) => entries_get(e, key, 0),
        _ => None,
    }
}

/// The member `key` of `j`, when `j` is an object that has one.
pub fn get<'a>(j: &'a Json, key: &[char]) -> (r: Option<&'a Json>)
    ensures
        match r {
            Some(v) => member(jv(*j), key@) == Some(jv(*v)),
            None => member(jv(*j), key@) is None,
        },
{
    match j {
        Json::Object(entries) => {
            let ghost ev = jentries(entries@);
            let mut k: usize = 0;
            while k < entries.len()
                invariant
                    k <= entries@.len(),
                    ev == jentries(entries@),
                    member(jv(*j), key@) == entries_get(ev, key@, 0),
                    entries_get(ev, key@, k as int) == entries_get(ev, key@, 0),
                decreases entries@.len() - k,
            {
                assert(ev[k as int] == (entries@[k as int].0@, jv(entries@[k as int].1)));
                if chars_eq(&entries[k].0, key) {
                    return Some(&entries[k].1);
                }
                k += 1;
            }
            None
        },
        _ => None,
    }
}


/// The value of the first entry named `key`.
pub fn entries_lookup<'a>(entries: &'a Vec<(Vec<char>, Json)>, key: &[char]) -> (r: Option<&'a Json>)
    ensures
        match r {
            Some(v) => entries_get(jentries(entries@), key@, 0) == Some(jv(*v)),
            None => entries_get(jentries(entries@), key@, 0) is None,
        },
{
    let ghost ev = jentries(entries@);
    let mut k: usize = 0;
    while k < entries.len()
        invariant
            k <= entries@.len(),
            ev == jentries(entries@),
            entries_get(ev, key@, k as int) == entries_get(ev, key@, 0),
        decreases entries@.len() - k,
    {
        assert(ev[k as int] == (entries@[k as int].0@, jv(entries@[k as int].1)));
        if chars_eq(&entries[k].0, key) {
            return Some(&entries[k].1);
        }
        k += 1;
    }
    None
}

// ---------------------------------------------------------------------------
// JSON text
// ---------------------------------------------------------------------------

pub open spec fn hex_digit(d: nat) -> char {
    if d < 10 {
        (d + 48) as char
    } else {
        (d + 87) as char
    }
}

/// How a character stands in a JSON string: quote, backslash and control
/// characters escaped, the rest as they are.
pub open spec fn escape_char(c: char) -> Seq<char> {
    if c == '"' {
        seq!['\\', '"']
    } else if c == '\\' {
        seq!['\\', '\\']
    } else if c == '\x08' {
        seq!['\\', 'b']
    } else if c == '\x0C' {
        seq!['\\', 'f']
    } else if c == '\n' {
        seq!['\\', 'n']
    } else if c == '\r' {
        seq!['\\', 'r']
    } else if c == '\t' {
        seq!['\\', 't']
    } else if (c as u32) < 0x20 {
        seq!['\\', 'u', '0', '0', hex_digit((c as u32 / 16) as nat), hex_digit((c as u32 % 16) as nat)]
    } else {
        seq![c]
    }
}

pub open spec fn escape_str(s: Seq<char>) -> Seq<char>
    decreases s.len(),
{
    if s.len() == 0 {
        Seq::empty()
    } else {
        escape_str(s.drop_last()) + escape_char(s.last())
    }
}

/// A JSON string literal for `s`.
pub open spec fn str_text(s: Seq<char>) -> Seq<char> {
    seq!['"'] + escape_str(s) + seq!['"']
}

/// The compact JSON text of a value: no spaces, members in order.
pub open spec fn json_text(v: JsonV) -> Seq<char>
    decreases v,
{
    match v {
        JsonV::Null => "null"@,
        JsonV::Bool(b) => if b {
            "true"@
        } else {
            "false"@
        },
        JsonV::Number(t, _) => t,
        JsonV::Str(s) => str_text(s),
        JsonV::Array(items) => seq!['['] + items_text(items) + seq![']'],
        JsonV::Object(e) => seq!['{'] + entries_text(e) + seq!['}'],
    }
}

pub open spec fn items_text(items: Seq<JsonV>) -> Seq<char>
    decreases items,
{
    if items.len() == 0 {
        Seq::empty()
    } else if items.len() == 1 {
        json_text(items[0])
    } else {
        items_text(items.drop_last()) + seq![','] + json_text(items.last())
    }
}

pub open spec fn entries_text(e: Seq<(Seq<char>, JsonV)>) -> Seq<char>
    decreases e,
{
    if e.len() == 0 {
        Seq::empty()
    } else if e.len() == 1 {
        str_text(e[0].0) + seq![':'] + json_text(e[0].1)
    } else {
        entries_text(e.drop_last()) + seq![','] + str_text(e.last().0) + seq![':'] + json_text(
            e.last().1,
        )
    }
}

pub(crate) fn hex_digit_exec(d: u32) -> (c: char)
    requires
        d < 16,
    ensures
        c == hex_digit(d as nat),
{
    let t: [char; 16] = ['0', '1', '2', '3', '4', '5', '6', '7', '8', '9', 'a', 'b', 'c', 'd', 'e', 'f'];
    let c = t[d as usize];
    assert(c == hex_digit(d as nat)) by {
        assert(t@ =~= seq!['0', '1', '2', '3', '4', '5', '6', '7', '8', '9', 'a', 'b', 'c', 'd', 'e', 'f']);
    }
    c
}

/// Appends the JSON string literal for `s`.
pub fn push_str_text(out: &mut Vec<char>, s: &[char])
    ensures
        final(out)@ == old(out)@ + str_text(s@),
{
    let ghost o = out@;
    out.push('"');
    let mut k: usize = 0;
    while k < s.len()
        invariant
            k <= s@.len(),
            out@ == o + seq!['"'] + escape_str(s@.take(k as int)),
        decreases s@.len() - k,
    {
        let c = s[k];
        let ghost before = out@;
        if c == '"' {
            out.push('\\');
            out.push('"');
        } else if c == '\\' {
            out.push('\\');
            out.push('\\');
        } else if c == '\x08' {
            out.push('\\');
            out.push('b');
        } else if c == '\x0C' {
            out.push('\\');
            out.push('f');
        } else if c == '\n' {
            out.push('\\');
            out.push('n');
        } else if c == '\r' {
            out.push('\\');
            out.push('r');
        } else if c == '\t' {
            out.push('\\');
            out.push('t');
        } else if (c as u32) < 0x20 {
            out.push('\\');
            out.push('u');
            out.push('0');
            out.push('0');
            out.push(hex_digit_exec(c as u32 / 16));
            out.push(hex_digit_exec(c as u32 % 16));
        } else {
            out.push(c);
        }
        assert(out@ =~= before + escape_char(c));
        assert(s@.take(k + 1).drop_last() =~= s@.take(k as int));
        k += 1;
    }
    assert(s@.take(s@.len() as int) =~= s@);
    out.push('"');
    assert(out@ =~= o + str_text(s@));
}

/// Appends the compact JSON text of `j`.
pub fn push_json_text(out: &mut Vec<char>, j: &Json)
    ensures
        final(out)@ == old(out)@ + json_text(jv(*j)),
    decreases j,
{
    let ghost o = out@;
    match j {
        Json::Null => {
            extend_chars(out, &crate::text::chars_of("null"));
        },
        Json::Bool(b) => {
            if *b {
                extend_chars(out, &crate::text::chars_of("true"));
            } else {
                extend_chars(out, &crate::text::chars_of("false"));
            }
        },
        Json::Number(t, _) => {
            extend_chars(out, t);
        },
        Json::Str(s) => {
            push_str_text(out, s);
        },
        Json::Array(items) => {
            out.push('[');
            push_items_text(out, items);
            out.push(']');
            assert(out@ =~= o + json_text(jv(*j)));
        },
        Json::Object(entries) => {
            out.push('{');
            push_entries_text(out, entries);
            out.push('}');
            assert(out@ =~= o + json_text(jv(*j)));
        },
    }
}

fn push_items_text(out: &mut Vec<char>, items: &Vec<Json>)
    ensures
        final(out)@ == old(out)@ + items_text(jvs(items@)),
    decreases items@,
{
    let ghost o = out@;
    let ghost iv = jvs(items@);
    let mut k: usize = 0;
    assert(iv.take(0) =~= Seq::<JsonV>::empty());
    assert(out@ =~= o + items_text(iv.take(0)));
    while k < items.len()
        invariant
            k <= items@.len(),
            iv == jvs(items@),
            out@ == o + items_text(iv.take(k as int)),
        decreases items@.len() - k,
    {
        if k > 0 {
            out.push(',');
        }
        push_json_text(out, &items[k]);
        assert(iv.take(k + 1).drop_last() =~= iv.take(k as int));
        assert(iv.take(k + 1).last() == jv(items@[k as int]));
        if k == 0 {
            assert(out@ =~= o + items_text(iv.take(1)));
        } else {
            assert(out@ =~= o + items_text(iv.take(k + 1)));
        }
        k += 1;
    }
    assert(iv.take(items@.len() as int) =~= iv);
}

fn push_entries_text(out: &mut Vec<char>, entries: &Vec<(Vec<char>, Json)>)
    ensures
        final(out)@ == old(out)@ + entries_text(jentries(entries@)),
    decreases entries@,
{
    let ghost o = out@;
    let ghost ev = jentries(entries@);
    let mut k: usize = 0;
    assert(ev.take(0) =~= Seq::<(Seq<char>, JsonV)>::empty());
    assert(out@ =~= o + entries_text(ev.take(0)));
    while k < entries.len()
        invariant
            k <= entries@.len(),
            ev == jentries(entries@),
            out@ == o + entries_text(ev.take(k as int)),
        decreases entries@.len() - k,
    {
        if k > 0 {
            out.push(',');
        }
        push_str_text(out, &entries[k].0);
        out.push(':');
        push_json_text(out, &entries[k].1);
        assert(ev.take(k + 1).drop_last() =~= ev.take(k as int));
        assert(ev.take(k + 1).last() == (entries@[k as int].0@, jv(entries@[k as int].1)));
        if k == 0 {
            assert(out@ =~= o + entries_text(ev.take(1)));
        } else {
            assert(out@ =~= o + entries_text(ev.take(k + 1)));
        }
        k += 1;
    }
    assert(ev.take(entries@.len() as int) =~= ev);
}

/// The compact JSON text of `j`.
pub fn to_json_text(j: &Json) -> (out: Vec<char>)
    ensures
        out@ == json_text(jv(*j)),
{
    let mut out: Vec<char> = Vec::new();
    push_json_text(&mut out, j);
    assert(out@ =~= json_text(jv(*j)));
    out
}


// ---------------------------------------------------------------------------
// JSON Pointer
// ---------------------------------------------------------------------------

/// `s` with each `ab` made `r`, left to right.
pub open spec fn replace_pair(s: Seq<char>, a: char, b: char, r: char) -> Seq<char>
    decreases s.len(),
{
    if s.len() < 2 {
        s
    } else if s[0] == a && s[1] == b {
        seq![r] + replace_pair(s.skip(2), a, b, r)
    } else {
        seq![s[0]] + replace_pair(s.skip(1), a, b, r)
    }
}

/// A reference token with `~1` read as `/` and then `~0` as `~`.
pub open spec fn unescape_token(t: Seq<char>) -> Seq<char> {
    replace_pair(replace_pair(t, '~', '1', '/'), '~', '0', '~')
}

/// The reference tokens of a pointer that starts with `/`.
pub open spec fn pointer_tokens(ptr: Seq<char>) -> Seq<Seq<char>> {
    crate::schema::spec_split(ptr, seq!['/']).drop_first().map_values(|t: Seq<char>| unescape_token(t))
}

/// An array index as a pointer writes it: decimal digits, no sign and no
/// leading zero, in the range of `usize`.
pub open spec fn parse_index(s: Seq<char>) -> Option<nat> {
    if s.len() == 0 || s[0] == '+' || (s[0] == '0' && s.len() != 1) {
        None
    } else if forall|k: int| 0 <= k < s.len() ==> crate::grammar::is_digit(#[trigger] s[k]) {
        let v = crate::grammar::digits_value(s);
        if v <= usize::MAX {
            Some(v as nat)
        } else {
            None
        }
    } else {
        None
    }
}

/// The value the tokens lead to from `v`.
pub open spec fn walk(v: JsonV, toks: Seq<Seq<char>>) -> Option<JsonV>
    decreases toks.len(),
{
    if toks.len() == 0 {
        Some(v)
    } else {
        let next = match v {
            JsonV::Object(e) => entries_get(e, toks[0], 0),
            JsonV::Array(items) => match parse_index(toks[0]) {
                Some(i) => if i < items.len() {
                    Some(items[i as int])
                } else {
                    None
                },
                None => None,
            },
            _ => None,
        };
        match next {
            Some(n) => walk(n, toks.drop_first()),
            None => None,
        }
    }
}

/// The value a JSON Pointer names in `v`: `v` itself for the empty
/// pointer, nothing for one that does not start with `/`.
pub open spec fn json_pointer(v: JsonV, ptr: Seq<char>) -> Option<JsonV> {
    if ptr.len() == 0 {
        Some(v)
    } else if ptr[0] != '/' {
        None
    } else {
        walk(v, pointer_tokens(ptr))
    }
}

fn replace_pair_exec(s: &[char], a: char, b: char, r: char) -> (out: Vec<char>)
    ensures
        out@ == replace_pair(s@, a, b, r),
{
    let mut out: Vec<char> = Vec::new();
    let mut i: usize = 0;
    assert(s@.skip(0) =~= s@);
    assert(out@ + replace_pair(s@.skip(0), a, b, r) =~= replace_pair(s@, a, b, r));
    while i < s.len()
        invariant
            i <= s@.len(),
            out@ + replace_pair(s@.skip(i as int), a, b, r) == replace_pair(s@, a, b, r),
        decreases s@.len() - i,
    {
        let ghost before = out@;
        if i + 1 < s.len() && s[i] == a && s[i + 1] == b {
            out.push(r);
            assert(s@.skip(i as int).skip(2) =~= s@.skip(i + 2));
            assert(out@ + replace_pair(s@.skip(i + 2), a, b, r) =~= before + replace_pair(
                s@.skip(i as int),
                a,
                b,
                r,
            ));
            i = i + 2;
        } else if i + 1 < s.len() {
            out.push(s[i]);
            assert(s@.skip(i as int).skip(1) =~= s@.skip(i + 1));
            assert(out@ + replace_pair(s@.skip(i + 1), a, b, r) =~= before + replace_pair(
                s@.skip(i as int),
                a,
                b,
                r,
            ));
            i = i + 1;
        } else {
            out.push(s[i]);
            assert(s@.skip(i as int) =~= seq![s@[i as int]]);
            assert(s@.skip(i + 1) =~= Seq::<char>::empty());
            assert(out@ + replace_pair(s@.skip(i + 1), a, b, r) =~= before + replace_pair(
                s@.skip(i as int),
                a,
                b,
                r,
            ));
            i = i + 1;
        }
    }
    assert(s@.skip(i as int) =~= Seq::<char>::empty());
    assert(out@ =~= out@ + replace_pair(s@.skip(i as int), a, b, r));
    out
}

fn parse_index_exec(s: &[char]) -> (r: Option<usize>)
    ensures
        match r {
            Some(i) => parse_index(s@) == Some(i as nat),
            None => parse_index(s@) is None,
        },
{
    if s.len() == 0 || s[0] == '+' || (s[0] == '0' && s.len() != 1) {
        return None;
    }
    let mut acc: usize = 0;
    let mut i: usize = 0;
    while i < s.len()
        invariant
            i <= s@.len(),
            s@.len() > 0,
            forall|k: int| 0 <= k < i ==> crate::grammar::is_digit(#[trigger] s@[k]),
            acc == crate::grammar::digits_value(s@.take(i as int)),
        decreases s@.len() - i,
    {
        let c = s[i];
        if !('0' <= c && c <= '9') {
            assert(!crate::grammar::is_digit(s@[i as int]));
            return None;
        }
        let d = (c as u32 - '0' as u32) as usize;
        assert(s@.take(i + 1).drop_last() =~= s@.take(i as int));
        assert(s@.take(i + 1).last() == c);
        if acc > (usize::MAX - d) / 10 {
            proof {
                assert(acc * 10 + d > usize::MAX) by (nonlinear_arith)
                    requires
                        acc > (usize::MAX - d) / 10,
                        d <= 9,
                ;
                if forall|k: int| 0 <= k < s@.len() ==> crate::grammar::is_digit(#[trigger] s@[k]) {
                    lemma_digits_grow(s@, i + 1);
                }
            }
            return None;
        }
        assert(acc * 10 + d <= usize::MAX) by (nonlinear_arith)
            requires
                acc <= (usize::MAX - d) / 10,
                d <= 9,
        ;
        acc = acc * 10 + d;
        i = i + 1;
    }
    assert(s@.take(s@.len() as int) =~= s@);
    Some(acc)
}

proof fn lemma_digits_grow(s: Seq<char>, k: int)
    requires
        0 <= k <= s.len(),
        forall|j: int| 0 <= j < s.len() ==> crate::grammar::is_digit(#[trigger] s[j]),
    ensures
        crate::grammar::digits_value(s.take(k)) <= crate::grammar::digits_value(s),
    decreases s.len(),
{
    crate::grammar::lemma_digits_value_grows(s, k);
}

/// The value the JSON Pointer `ptr` names in `v`, if any.
pub fn pointer<'a>(v: &'a Json, ptr: &[char]) -> (r: Option<&'a Json>)
    ensures
        match r {
            Some(x) => json_pointer(jv(*v), ptr@) == Some(jv(*x)),
            None => json_pointer(jv(*v), ptr@) is None,
        },
{
    if ptr.len() == 0 {
        return Some(v);
    }
    if ptr[0] != '/' {
        return None;
    }
    let slash: Vec<char> = vec!['/'];
    assert(slash@ =~= seq!['/']);
    let parts = crate::schema::string_split(ptr, &slash);
    let ghost pv = crate::schema::pieces_view(parts@);
    let ghost toks = pointer_tokens(ptr@);
    assert(toks.len() == pv.len() - 1);
    let mut cur: &Json = v;
    let mut k: usize = 1;
    assert(toks.skip(0) =~= toks);
    while k < parts.len()
        invariant
            1 <= k <= parts@.len(),
            pv == crate::schema::pieces_view(parts@),
            pv == crate::schema::spec_split(ptr@, seq!['/']),
            toks == pointer_tokens(ptr@),
            toks.len() == pv.len() - 1,
            json_pointer(jv(*v), ptr@) == walk(jv(*cur), toks.skip(k - 1)),
        decreases parts@.len() - k,
    {
        let t1 = replace_pair_exec(&parts[k], '~', '1', '/');
        let tok = replace_pair_exec(&t1, '~', '0', '~');
        assert(tok@ == toks[k - 1]) by {
            assert(pv[k as int] == parts@[k as int]@);
            assert(pv.drop_first()[k - 1] == pv[k as int]);
            assert(toks[k - 1] == unescape_token(pv.drop_first()[k - 1]));
        }
        assert(toks.skip(k - 1)[0] == toks[k - 1]);
        assert(toks.skip(k - 1).drop_first() =~= toks.skip(k as int));
        let next: Option<&Json> = match cur {
            Json::Object(_) => get(cur, &tok),
            Json::Array(items) => match parse_index_exec(&tok) {
                Some(i) => if i < items.len() {
                    assert(jvs(items@)[i as int] == jv(items@[i as int]));
                    Some(&items[i])
                } else {
                    None
                },
                None => None,
            },
            _ => None,
        };
        match next {
            Some(n) => {
                cur = n;
            },
            None => {
                return None;
            },
        }
        k += 1;
    }
    assert(toks.skip(k - 1) =~= Seq::<Seq<char>>::empty());
    Some(cur)
}

} // verus!
