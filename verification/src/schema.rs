//! Pieces of a GBNF grammar built from a JSON schema: literals, repetitions
//! and integer ranges.

use vstd::prelude::*;
use crate::text::{decimal, extend_chars, signed_decimal, string_from};

verus! {

broadcast use vstd::string::group_string_axioms;

/// Why a schema could not be turned into a grammar.
#[derive(Debug, Clone, PartialEq, Eq)]
pub enum SchemaError {
    Conversion(String),
}

/// The message of a schema error.
pub open spec fn schema_error_message(e: SchemaError) -> Seq<char> {
    match e {
        SchemaError::Conversion(m) => "JSON schema conversion failed:\n"@ + m@,
    }
}

impl SchemaError {
    /// The error's message.
    pub fn to_string(&self) -> (s: String)
        ensures
            s@ == schema_error_message(*self),
    {
        let mut out = String::new();
        match self {
            SchemaError::Conversion(m) => {
                crate::text::push_str(&mut out, "JSON schema conversion failed:\n");
                crate::text::push_str(&mut out, m.as_str());
            },
        }
        out
    }
}

/// Options of a grammar: whether `.` in a pattern matches line breaks too.
#[derive(Debug, Clone, Copy, PartialEq, Eq)]
pub struct CommonGrammarOptions {
    pub dotall: bool,
}

impl Default for CommonGrammarOptions {
    fn default() -> (o: Self)
        ensures
            !o.dotall,
    {
        CommonGrammarOptions { dotall: false }
    }
}

// ---------------------------------------------------------------------------
// Strings
// ---------------------------------------------------------------------------

/// `s` written `n` times.
pub open spec fn repeat(s: Seq<char>, n: nat) -> Seq<char>
    decreases n,
{
    if n == 0 {
        Seq::empty()
    } else {
        repeat(s, (n - 1) as nat) + s
    }
}

/// `s` written `n` times.
pub fn string_repeat(s: &[char], n: usize) -> (out: Vec<char>)
    ensures
        out@ == repeat(s@, n as nat),
{
    let mut out: Vec<char> = Vec::new();
    let mut i: usize = 0;
    while i < n
        invariant
            i <= n,
            out@ == repeat(s@, i as nat),
        decreases n - i,
    {
        extend_chars(&mut out, s);
        i += 1;
    }
    out
}

/// `values` written one after the other with `sep` between two of them.
pub open spec fn join(values: Seq<Seq<char>>, sep: Seq<char>) -> Seq<char>
    decreases values.len(),
{
    if values.len() == 0 {
        Seq::empty()
    } else if values.len() == 1 {
        values[0]
    } else {
        join(values.drop_last(), sep) + sep + values.last()
    }
}

pub open spec fn strings_view(v: Seq<String>) -> Seq<Seq<char>> {
    v.map_values(|s: String| s@)
}

/// `values` joined with `sep` between two of them.
pub fn string_join(values: &[String], sep: &str) -> (out: Vec<char>)
    ensures
        out@ == join(strings_view(values@), sep@),
{
    let ghost vv = strings_view(values@);
    let sep_c = crate::text::chars_of(sep);
    let mut out: Vec<char> = Vec::new();
    let mut i: usize = 0;
    while i < values.len()
        invariant
            i <= values@.len(),
            vv == strings_view(values@),
            sep_c@ == sep@,
            out@ == join(vv.take(i as int), sep@),
        decreases values@.len() - i,
    {
        if i > 0 {
            extend_chars(&mut out, &sep_c);
        }
        extend_chars(&mut out, &crate::text::chars_of(values[i].as_str()));
        assert(vv.take(i + 1).drop_last() =~= vv.take(i as int));
        assert(vv.take(i + 1).last() == vv[i as int]);
        if i == 0 {
            assert(out@ =~= join(vv.take(1), sep@));
        }
        i += 1;
    }
    assert(vv.take(values@.len() as int) =~= vv);
    out
}

/// The pieces of `s` between the occurrences of `sep`, from index `i` on;
/// there is always at least one piece.
pub open spec fn split_from(s: Seq<char>, sep: Seq<char>, i: int) -> Seq<Seq<char>>
    recommends
        sep.len() > 0,
    decreases s.len() - i,
{
    if i < 0 || i > s.len() || sep.len() == 0 {
        seq![Seq::empty()]
    } else {
        let k = crate::text::find_index(s.skip(i), sep);
        if k < 0 || i + k + sep.len() > s.len() {
            seq![s.skip(i)]
        } else {
            seq![s.subrange(i, i + k)] + split_from(s, sep, i + k + sep.len())
        }
    }
}


/// Splitting at a non-empty separator gives at least one piece.
pub proof fn lemma_split_nonempty(s: Seq<char>, sep: Seq<char>)
    requires
        sep.len() > 0,
    ensures
        spec_split(s, sep).len() >= 1,
{
}

/// `s` split at `sep`: the characters of `s` one by one when `sep` is
/// empty.
pub open spec fn spec_split(s: Seq<char>, sep: Seq<char>) -> Seq<Seq<char>> {
    if sep.len() == 0 {
        Seq::new(s.len(), |i: int| seq![s[i]])
    } else {
        split_from(s, sep, 0)
    }
}

pub open spec fn pieces_view(v: Seq<Vec<char>>) -> Seq<Seq<char>> {
    v.map_values(|p: Vec<char>| p@)
}

/// `input` split at `sep`: the characters one by one when `sep` is empty.
pub fn string_split(input: &[char], sep: &[char]) -> (out: Vec<Vec<char>>)
    ensures
        pieces_view(out@) == spec_split(input@, sep@),
{
    let mut out: Vec<Vec<char>> = Vec::new();
    if sep.len() == 0 {
        let mut i: usize = 0;
        while i < input.len()
            invariant
                i <= input@.len(),
                pieces_view(out@) =~= Seq::new(i as nat, |j: int| seq![input@[j]]),
            decreases input@.len() - i,
        {
            let piece: Vec<char> = vec![input[i]];
            assert(piece@ =~= seq![input@[i as int]]);
            let ghost before = out@;
            out.push(piece);
            assert(pieces_view(out@) =~= pieces_view(before).push(seq![input@[i as int]]));
            assert(pieces_view(out@) =~= Seq::new((i + 1) as nat, |j: int| seq![input@[j]]));
            i += 1;
        }
        return out;
    }
    let n = input.len();
    let mut i: usize = 0;
    assert(pieces_view(out@) + split_from(input@, sep@, 0) =~= split_from(input@, sep@, 0));
    loop
        invariant
            n == input@.len(),
            sep@.len() > 0,
            i <= n,
            pieces_view(out@) + split_from(input@, sep@, i as int) == split_from(input@, sep@, 0),
        decreases n - i,
    {
        let rest = crate::text::slice_chars(input, i, n);
        assert(rest@ =~= input@.skip(i as int));
        proof {
            crate::text::lemma_find_index(rest@, sep@);
        }
        let ghost before = out@;
        match crate::text::find_chars(&rest, sep) {
            Some(k) if k + sep.len() <= n - i => {
                let piece = crate::text::slice_chars(input, i, i + k);
                out.push(piece);
                assert(pieces_view(out@) =~= pieces_view(before).push(piece@));
                assert(pieces_view(out@) + split_from(input@, sep@, (i + k + sep.len()) as int)
                    =~= pieces_view(before) + split_from(input@, sep@, i as int));
                i = i + k + sep.len();
            },
            _ => {
                out.push(rest);
                assert(pieces_view(out@) =~= pieces_view(before).push(input@.skip(i as int)));
                assert(pieces_view(out@) =~= pieces_view(before) + split_from(input@, sep@, i as int));
                return out;
            },
        }
    }
}

// ---------------------------------------------------------------------------
// Literals
// ---------------------------------------------------------------------------

/// A character that a grammar literal escapes.
pub open spec fn is_escaped_in_literal(c: char) -> bool {
    c == '\r' || c == '\n' || c == '"' || c == '-' || c == ']'
}

/// The escape of a character in a grammar literal.
pub open spec fn spec_literal_escape(c: char) -> Seq<char> {
    if c == '\r' {
        seq!['\\', 'r']
    } else if c == '\n' {
        seq!['\\', 'n']
    } else if c == '"' {
        seq!['\\', '"']
    } else if c == '-' {
        seq!['\\', '-']
    } else {
        seq!['\\', ']']
    }
}

/// The escape of a character in a grammar literal.
pub fn grammar_literal_escape(c: char) -> (s: Vec<char>)
    requires
        is_escaped_in_literal(c),
    ensures
        s@ == spec_literal_escape(c),
{
    if c == '\r' {
        vec!['\\', 'r']
    } else if c == '\n' {
        vec!['\\', 'n']
    } else if c == '"' {
        vec!['\\', '"']
    } else if c == '-' {
        vec!['\\', '-']
    } else {
        vec!['\\', ']']
    }
}

/// `s` with line breaks and double quotes escaped.
pub open spec fn escape_literal(s: Seq<char>) -> Seq<char>
    decreases s.len(),
{
    if s.len() == 0 {
        Seq::empty()
    } else {
        let c = s.last();
        escape_literal(s.drop_last()) + if c == '\r' || c == '\n' || c == '"' {
            spec_literal_escape(c)
        } else {
            seq![c]
        }
    }
}

/// A grammar literal: `literal` in double quotes, its line breaks and
/// double quotes escaped.
pub open spec fn spec_format_literal(literal: Seq<char>) -> Seq<char> {
    seq!['"'] + escape_literal(literal) + seq!['"']
}

/// A grammar literal for `literal`.
pub fn format_literal(literal: &[char]) -> (out: Vec<char>)
    ensures
        out@ == spec_format_literal(literal@),
{
    let mut body: Vec<char> = Vec::new();
    let mut i: usize = 0;
    while i < literal.len()
        invariant
            i <= literal@.len(),
            body@ == escape_literal(literal@.take(i as int)),
        decreases literal@.len() - i,
    {
        let c = literal[i];
        assert(literal@.take(i + 1).drop_last() =~= literal@.take(i as int));
        if c == '\r' || c == '\n' || c == '"' {
            let e = grammar_literal_escape(c);
            extend_chars(&mut body, &e);
        } else {
            body.push(c);
        }
        i += 1;
    }
    assert(literal@.take(literal@.len() as int) =~= literal@);
    let mut out: Vec<char> = vec!['"'];
    extend_chars(&mut out, &body);
    out.push('"');
    assert(out@ =~= spec_format_literal(literal@));
    out
}

// ---------------------------------------------------------------------------
// Repetitions and digit ranges
// ---------------------------------------------------------------------------

/// `item` repeated between `min` and `max` times (`i32::MAX` for no upper
/// bound), the items apart by `sep` when it is not empty.
pub open spec fn spec_build_repetition(item: Seq<char>, min: int, max: int, sep: Seq<char>) -> Seq<
    char,
>
    decreases sep.len(),
{
    let has_max = max != i32::MAX;
    if max == 0 {
        Seq::empty()
    } else if min == 0 && max == 1 {
        item + seq!['?']
    } else if sep.len() == 0 {
        if min == 1 && !has_max {
            item + seq!['+']
        } else if min == 0 && !has_max {
            item + seq!['*']
        } else {
            item + seq!['{'] + signed_decimal(min) + seq![','] + (if has_max {
                signed_decimal(max)
            } else {
                Seq::empty()
            }) + seq!['}']
        }
    } else {
        let tail = spec_build_repetition(
            seq!['('] + sep + seq![' '] + item + seq![')'],
            if min == 0 {
                0
            } else {
                min - 1
            },
            if has_max {
                max - 1
            } else {
                max
            },
            Seq::empty(),
        );
        let combined = if tail.len() == 0 {
            item
        } else {
            item + seq![' '] + tail
        };
        if min == 0 {
            seq!['('] + combined + seq![')', '?']
        } else {
            combined
        }
    }
}

/// The repetition can be written: with a separator, a bound of `i32::MIN`
/// would be decreased past the range of `i32`.
pub open spec fn repetition_ok(min: i32, max: i32, sep: Seq<char>) -> bool {
    sep.len() == 0 || max == 0 || (min == 0 && max == 1) || (min > i32::MIN && max > i32::MIN)
}

fn i32_text(n: i32) -> (out: Vec<char>)
    ensures
        out@ == signed_decimal(n as int),
{
    crate::text::i64_decimal_chars(n as i64)
}

/// `item` repeated between `min_items` and `max_items` times.
pub fn build_repetition(item_rule: &[char], min_items: i32, max_items: i32, separator_rule: &[char]) -> (out:
    Vec<char>)
    requires
        repetition_ok(min_items, max_items, separator_rule@),
    ensures
        out@ == spec_build_repetition(
            item_rule@,
            min_items as int,
            max_items as int,
            separator_rule@,
        ),
    decreases separator_rule@.len(),
{
    let has_max = max_items != i32::MAX;
    if max_items == 0 {
        return Vec::new();
    }
    if min_items == 0 && max_items == 1 {
        let mut s: Vec<char> = Vec::new();
        extend_chars(&mut s, item_rule);
        s.push('?');
        assert(s@ =~= item_rule@ + seq!['?']);
        return s;
    }
    if separator_rule.len() == 0 {
        let mut s: Vec<char> = Vec::new();
        extend_chars(&mut s, item_rule);
        if min_items == 1 && !has_max {
            s.push('+');
            assert(s@ =~= item_rule@ + seq!['+']);
        } else if min_items == 0 && !has_max {
            s.push('*');
            assert(s@ =~= item_rule@ + seq!['*']);
        } else {
            s.push('{');
            let lo = i32_text(min_items);
            extend_chars(&mut s, &lo);
            s.push(',');
            let ghost mid = s@;
            if has_max {
                let hi = i32_text(max_items);
                extend_chars(&mut s, &hi);
                assert(s@ =~= mid + signed_decimal(max_items as int));
            } else {
                assert(s@ =~= mid + Seq::<char>::empty());
            }
            s.push('}');
            assert(s@ =~= item_rule@ + seq!['{'] + signed_decimal(min_items as int) + seq![',']
                + (if has_max {
                signed_decimal(max_items as int)
            } else {
                Seq::empty()
            }) + seq!['}']);
        }
        s
    } else {
        let mut inner: Vec<char> = vec!['('];
        extend_chars(&mut inner, separator_rule);
        inner.push(' ');
        extend_chars(&mut inner, item_rule);
        inner.push(')');
        assert(inner@ =~= seq!['('] + separator_rule@ + seq![' '] + item_rule@ + seq![')']);
        let empty: Vec<char> = Vec::new();
        assert(empty@ =~= Seq::<char>::empty());
        let tail = build_repetition(
            &inner,
            if min_items == 0 {
                0
            } else {
                min_items - 1
            },
            if has_max {
                max_items - 1
            } else {
                max_items
            },
            &empty,
        );
        let mut combined: Vec<char> = Vec::new();
        extend_chars(&mut combined, item_rule);
        if tail.len() > 0 {
            combined.push(' ');
            extend_chars(&mut combined, &tail);
            assert(combined@ =~= item_rule@ + seq![' '] + tail@);
        } else {
            assert(combined@ =~= item_rule@);
        }
        if min_items == 0 {
            let mut s: Vec<char> = vec!['('];
            extend_chars(&mut s, &combined);
            s.push(')');
            s.push('?');
            assert(s@ =~= seq!['('] + combined@ + seq![')', '?']);
            s
        } else {
            combined
        }
    }
}

/// `[from-to]`, or `[from]` when both are the same.
pub open spec fn spec_digit_range(from: char, to: char) -> Seq<char> {
    if from == to {
        seq!['[', from, ']']
    } else {
        seq!['[', from, '-', to, ']']
    }
}

/// Appends `[from-to]`, or `[from]` when both are the same.
pub fn digit_range(out: &mut Vec<char>, from: char, to: char)
    ensures
        final(out)@ == old(out)@ + spec_digit_range(from, to),
{
    let ghost before = out@;
    out.push('[');
    if from == to {
        out.push(from);
    } else {
        out.push(from);
        out.push('-');
        out.push(to);
    }
    out.push(']');
    assert(out@ =~= before + spec_digit_range(from, to));
}

/// Between `min` and `max` more digits (`i32::MAX` for no upper bound).
pub open spec fn spec_more_digits(min: int, max: int) -> Seq<char> {
    seq!['[', '0', '-', '9', ']'] + if min == max && min == 1 {
        Seq::empty()
    } else {
        seq!['{'] + signed_decimal(min) + (if max != min {
            seq![','] + if max != i32::MAX {
                signed_decimal(max)
            } else {
                Seq::empty()
            }
        } else {
            Seq::empty()
        }) + seq!['}']
    }
}

/// Appends a rule for between `min_digits` and `max_digits` more digits.
pub fn more_digits(out: &mut Vec<char>, min_digits: i32, max_digits: i32)
    ensures
        final(out)@ == old(out)@ + spec_more_digits(min_digits as int, max_digits as int),
{
    let ghost before = out@;
    let head: Vec<char> = vec!['[', '0', '-', '9', ']'];
    extend_chars(out, &head);
    if min_digits == max_digits && min_digits == 1 {
        assert(out@ =~= before + spec_more_digits(min_digits as int, max_digits as int));
        return;
    }
    out.push('{');
    extend_chars(out, &i32_text(min_digits));
    if max_digits != min_digits {
        out.push(',');
        if max_digits != i32::MAX {
            extend_chars(out, &i32_text(max_digits));
        }
    }
    out.push('}');
    assert(out@ =~= before + spec_more_digits(min_digits as int, max_digits as int));
}

/// A printable ASCII character.
pub open spec fn is_printable_ascii(c: char) -> bool {
    0x20 <= c as u32 <= 0x7e
}

/// The character `d` places after `c`.
pub open spec fn shift_char(c: char, d: int) -> char {
    ((c as u32) + d) as char
}

fn shift_char_exec(c: char, up: bool) -> (r: char)
    requires
        is_printable_ascii(c),
    ensures
        r == shift_char(c, if up { 1 } else { -1 }),
{
    let u = c as u32;
    let v: u8 = if up { (u + 1) as u8 } else { (u - 1) as u8 };
    v as char
}

/// How many leading characters `from` and `to` share, from index `i` on.
pub open spec fn shared_prefix(from: Seq<char>, to: Seq<char>, i: int) -> int
    decreases from.len() - i,
{
    if 0 <= i < from.len() && i < to.len() && from[i] == to[i] {
        shared_prefix(from, to, i + 1)
    } else {
        i
    }
}

proof fn lemma_shared_prefix(from: Seq<char>, to: Seq<char>, i: int)
    requires
        0 <= i <= from.len(),
        i <= to.len(),
    ensures
        i <= shared_prefix(from, to, i) <= from.len(),
        shared_prefix(from, to, i) <= to.len(),
    decreases from.len() - i,
{
    if i < from.len() && i < to.len() && from[i] == to[i] {
        lemma_shared_prefix(from, to, i + 1);
    }
}

/// The choices on the first differing digit `fi` of `from` (up to `ti` of
/// `to`) when `from_sub` and `to_sub` follow it: the text, and whether it
/// already reaches `to`.
pub open spec fn uniform_choice(
    fi: char,
    ti: char,
    from_sub: Seq<char>,
    to_sub: Seq<char>,
    inner: Seq<char>,
    sub_len: int,
) -> (Seq<char>, bool) {
    let zeros = repeat(seq!['0'], sub_len as nat);
    let nines = repeat(seq!['9'], sub_len as nat);
    let more = spec_more_digits((sub_len as i32) as int, (sub_len as i32) as int);
    if from_sub == zeros {
        (spec_digit_range(fi, shift_char(ti, -1)) + seq![' '] + more, false)
    } else {
        let a = spec_digit_range(fi, fi) + seq![' ', '('] + inner + seq![')'];
        if (fi as u32) < (ti as u32) - 1 {
            if to_sub == nines {
                (a + seq![' ', '|', ' '] + spec_digit_range(shift_char(fi, 1), ti) + seq![' '] + more, true)
            } else {
                (
                    a + seq![' ', '|', ' '] + spec_digit_range(shift_char(fi, 1), shift_char(ti, -1))
                        + seq![' '] + more,
                    false,
                )
            }
        } else {
            (a, false)
        }
    }
}

/// The part of the grammar for `from` to `to` after their `i` shared
/// leading digits, when more than one digit follows: a choice on the first
/// differing digit, in parentheses.
pub open spec fn uniform_tail(from: Seq<char>, to: Seq<char>, i: int) -> Seq<char>
    decreases from.len(), 0int,
{
    if 0 <= i < from.len() && i < to.len() && from.len() - i - 1 > 0 {
        let sub_len: int = from.len() - i - 1;
        let from_sub = from.skip(i + 1);
        let to_sub = to.skip(i + 1);
        let zeros = repeat(seq!['0'], sub_len as nat);
        let nines = repeat(seq!['9'], sub_len as nat);
        proof {
            lemma_repeat_char('0', sub_len as nat);
        }
        let choice = uniform_choice(
            from[i],
            to[i],
            from_sub,
            to_sub,
            spec_uniform_range(from_sub, nines),
            sub_len,
        );
        let part2 = if !choice.1 {
            seq![' ', '|', ' '] + spec_digit_range(to[i], to[i]) + seq![' '] + spec_uniform_range(
                zeros,
                to_sub,
            )
        } else {
            Seq::empty()
        };
        seq!['('] + choice.0 + part2 + seq![')']
    } else {
        Seq::empty()
    }
}

/// A grammar for the numbers from `from` to `to`, both written with the
/// same number of digits: the shared leading digits as a literal, then a
/// choice on the first differing digit.
pub open spec fn spec_uniform_range(from: Seq<char>, to: Seq<char>) -> Seq<char>
    decreases from.len(), 1int,
{
    let i = shared_prefix(from, to, 0);
    let pre = if i > 0 {
        seq!['"'] + from.take(i) + seq!['"']
    } else {
        Seq::empty()
    };
    if 0 <= i < from.len() && i < to.len() {
        let sp = if i > 0 {
            seq![' ']
        } else {
            Seq::empty()
        };
        if from.len() - i - 1 > 0 {
            pre + sp + uniform_tail(from, to, i)
        } else {
            pre + sp + spec_digit_range(from[i], to[i])
        }
    } else {
        pre
    }
}

/// One character written `n` times is `n` characters long, all of them
/// that character.
pub proof fn lemma_repeat_char(c: char, n: nat)
    ensures
        repeat(seq![c], n).len() == n,
        forall|k: int| 0 <= k < n ==> #[trigger] repeat(seq![c], n)[k] == c,
    decreases n,
{
    if n > 0 {
        lemma_repeat_char(c, (n - 1) as nat);
    }
}

/// `s` written `n` times is `n` times as long as `s`.
pub proof fn lemma_repeat_len(s: Seq<char>, n: nat)
    ensures
        repeat(s, n).len() == s.len() * n,
        forall|k: int| 0 <= k < repeat(s, n).len() && s.len() == 1 ==> repeat(s, n)[k] == s[0],
    decreases n,
{
    if n > 0 {
        lemma_repeat_len(s, (n - 1) as nat);
        assert(s.len() * n == s.len() * (n - 1) + s.len()) by (nonlinear_arith);
    }
}

/// Appends the choices on the first differing digit; tells whether they
/// already reach the upper bound.
#[verifier::rlimit(100)]
fn uniform_choice_exec(
    out: &mut Vec<char>,
    fi: char,
    ti: char,
    from_sub: &Vec<char>,
    to_sub: &Vec<char>,
    sub_zeros: &Vec<char>,
    sub_nines: &Vec<char>,
    sub_len: usize,
) -> (to_reached: bool)
    requires
        is_printable_ascii(fi),
        is_printable_ascii(ti),
        forall|k: int| 0 <= k < from_sub@.len() ==> is_printable_ascii(#[trigger] from_sub@[k]),
        forall|k: int| 0 <= k < to_sub@.len() ==> is_printable_ascii(#[trigger] to_sub@[k]),
        sub_zeros@ == repeat(seq!['0'], sub_len as nat),
        sub_nines@ == repeat(seq!['9'], sub_len as nat),
        sub_len == from_sub@.len(),
    ensures
        final(out)@ == old(out)@ + uniform_choice(
            fi,
            ti,
            from_sub@,
            to_sub@,
            spec_uniform_range(from_sub@, sub_nines@),
            sub_len as int,
        ).0,
        to_reached == uniform_choice(
            fi,
            ti,
            from_sub@,
            to_sub@,
            spec_uniform_range(from_sub@, sub_nines@),
            sub_len as int,
        ).1,
    decreases from_sub@.len() + 1, 0int,
{
    let ghost base = out@;
    let ghost inner = spec_uniform_range(from_sub@, sub_nines@);
    let ghost choice = uniform_choice(fi, ti, from_sub@, to_sub@, inner, sub_len as int);
    proof {
        lemma_repeat_char('9', sub_len as nat);
    }
    if crate::text::chars_eq(from_sub, sub_zeros) {
        digit_range(out, fi, shift_char_exec(ti, false));
        out.push(' ');
        more_digits(out, sub_len as i32, sub_len as i32);
        assert(out@ =~= base + choice.0);
        return false;
    }
    digit_range(out, fi, fi);
    out.push(' ');
    out.push('(');
    uniform_range(out, from_sub, sub_nines);
    out.push(')');
    let ghost a = spec_digit_range(fi, fi) + seq![' ', '('] + inner + seq![')'];
    assert(out@ =~= base + a);
    let mut to_reached = false;
    if (fi as u32) < (ti as u32) - 1 {
        out.push(' ');
        out.push('|');
        out.push(' ');
        if crate::text::chars_eq(to_sub, sub_nines) {
            digit_range(out, shift_char_exec(fi, true), ti);
            to_reached = true;
        } else {
            digit_range(out, shift_char_exec(fi, true), shift_char_exec(ti, false));
        }
        out.push(' ');
        more_digits(out, sub_len as i32, sub_len as i32);
    }
    assert(out@ =~= base + choice.0);
    to_reached
}

/// Appends the part of the grammar for `from` to `to` after their `i`
/// shared leading digits, when more than one digit follows.
#[verifier::rlimit(100)]
fn uniform_range_tail(out: &mut Vec<char>, from: &[char], to: &[char], i: usize)
    requires
        forall|k: int| 0 <= k < from@.len() ==> is_printable_ascii(#[trigger] from@[k]),
        forall|k: int| 0 <= k < to@.len() ==> is_printable_ascii(#[trigger] to@[k]),
        i < from@.len(),
        i < to@.len(),
        from@.len() - i - 1 > 0,
    ensures
        final(out)@ == old(out)@ + uniform_tail(from@, to@, i as int),
    decreases from@.len(), 1int,
{
    let ghost before = out@;
    let sub_len = from.len() - i - 1;
    let from_sub = crate::text::slice_chars(from, i + 1, from.len());
    let to_sub = crate::text::slice_chars(to, i + 1, to.len());
    assert(from_sub@ =~= from@.skip(i + 1));
    assert(to_sub@ =~= to@.skip(i + 1));
    let zero: Vec<char> = vec!['0'];
    let nine: Vec<char> = vec!['9'];
    assert(zero@ =~= seq!['0']);
    assert(nine@ =~= seq!['9']);
    let sub_zeros = string_repeat(&zero, sub_len);
    let sub_nines = string_repeat(&nine, sub_len);
    proof {
        lemma_repeat_char('0', sub_len as nat);
        lemma_repeat_char('9', sub_len as nat);
    }
    let ti = to[i];
    out.push('(');
    let to_reached = uniform_choice_exec(
        out,
        from[i],
        ti,
        &from_sub,
        &to_sub,
        &sub_zeros,
        &sub_nines,
        sub_len,
    );
    let ghost mid = out@;
    if !to_reached {
        out.push(' ');
        out.push('|');
        out.push(' ');
        digit_range(out, ti, ti);
        out.push(' ');
        uniform_range(out, &sub_zeros, &to_sub);
        assert(out@ =~= mid + (seq![' ', '|', ' '] + spec_digit_range(ti, ti) + seq![' ']
            + spec_uniform_range(sub_zeros@, to_sub@)));
    } else {
        assert(out@ =~= mid + Seq::<char>::empty());
    }
    out.push(')');
    assert(out@ =~= before + uniform_tail(from@, to@, i as int));
}

/// Appends a grammar for the numbers from `from` to `to`, both written with
/// the same number of digits.
pub fn uniform_range(out: &mut Vec<char>, from: &[char], to: &[char])
    requires
        forall|k: int| 0 <= k < from@.len() ==> is_printable_ascii(#[trigger] from@[k]),
        forall|k: int| 0 <= k < to@.len() ==> is_printable_ascii(#[trigger] to@[k]),
    ensures
        final(out)@ == old(out)@ + spec_uniform_range(from@, to@),
    decreases from@.len(), 2int,
{
    let ghost before = out@;
    let mut i: usize = 0;
    proof {
        lemma_shared_prefix(from@, to@, 0);
    }
    while i < from.len() && i < to.len() && from[i] == to[i]
        invariant
            i <= from@.len(),
            i <= to@.len(),
            shared_prefix(from@, to@, 0) == shared_prefix(from@, to@, i as int),
        decreases from@.len() - i,
    {
        i += 1;
    }
    let ghost pre: Seq<char> = if i > 0 {
        seq!['"'] + from@.take(i as int) + seq!['"']
    } else {
        Seq::empty()
    };
    if i > 0 {
        out.push('"');
        let head = crate::text::slice_chars(from, 0, i);
        extend_chars(out, &head);
        out.push('"');
    }
    assert(out@ =~= before + pre);
    if !(i < from.len() && i < to.len()) {
        return;
    }
    if i > 0 {
        out.push(' ');
    }
    let ghost sp: Seq<char> = if i > 0 {
        seq![' ']
    } else {
        Seq::empty()
    };
    assert(out@ =~= before + pre + sp);
    if from.len() - i - 1 == 0 {
        digit_range(out, from[i], to[i]);
        assert(out@ =~= before + spec_uniform_range(from@, to@));
        return;
    }
    uniform_range_tail(out, from, to, i);
    assert(out@ =~= before + spec_uniform_range(from@, to@));
}

// ---------------------------------------------------------------------------
// Integer ranges
// ---------------------------------------------------------------------------

/// Ten to the power `k`.
pub open spec fn pow10(k: nat) -> nat
    decreases k,
{
    if k == 0 {
        1
    } else {
        10 * pow10((k - 1) as nat)
    }
}

/// The decimal text of `n` has its leading digit times a power of ten at
/// most `n`, below the next power, and only printable characters.
pub proof fn lemma_decimal(n: nat)
    ensures
        decimal(n).len() >= 1,
        forall|k: int|
            0 <= k < decimal(n).len() ==> '0' <= #[trigger] decimal(n)[k] <= '9' && is_printable_ascii(
                decimal(n)[k],
            ),
        n >= 1 ==> pow10((decimal(n).len() - 1) as nat) <= n,
        n < pow10(decimal(n).len()),
        decimal(n)[0] == crate::text::digit_char(n / pow10((decimal(n).len() - 1) as nat)),
    decreases n,
{
    if n >= 10 {
        lemma_decimal(n / 10);
        let m = n / 10;
        let l = decimal(m).len();
        assert(decimal(n) == decimal(m).push(crate::text::digit_char(n % 10)));
        assert(decimal(n).len() == l + 1);
        assert(pow10(l) == 10 * pow10((l - 1) as nat));
        assert(decimal(n)[0] == decimal(m)[0]);
        let p = pow10((l - 1) as nat);
        assert(m / p == n / (10 * p)) by {
            lemma_div_div(n, 10, p);
        }
        assert(10 * p <= n) by (nonlinear_arith)
            requires
                p <= m,
                m == n / 10,
                n >= 10,
        ;
        assert(n < 10 * pow10(l)) by (nonlinear_arith)
            requires
                m < pow10(l),
                m == n / 10,
        ;
        assert forall|k: int| 0 <= k < decimal(n).len() implies '0' <= #[trigger] decimal(n)[k]
            <= '9' && is_printable_ascii(decimal(n)[k]) by {
            if k < l {
                assert(decimal(n)[k] == decimal(m)[k]);
            }
        }
    } else {
        assert(pow10(0) == 1);
        assert(pow10(1) == 10 * pow10(0));
        assert(decimal(n) == seq![crate::text::digit_char(n)]);
        assert(n / 1 == n);
    }
}

proof fn lemma_div_div(n: nat, a: nat, b: nat)
    requires
        a > 0,
        b > 0,
    ensures
        (n / a) / b == n / (a * b),
{
    vstd::arithmetic::div_mod::lemma_div_denominator(n as int, a as int, b as int);
}

/// The text of `s` is made of printable ASCII characters.
pub open spec fn printable(s: Seq<char>) -> bool {
    forall|k: int| 0 <= k < s.len() ==> is_printable_ascii(#[trigger] s[k])
}

/// The ranges `from_s` to `99..9` for each width from `d` below `maxd`,
/// each followed by ` | `, every next one starting at `10..0`; and the
/// lower end left for the last width.
pub open spec fn digit_steps(from_s: Seq<char>, d: nat, maxd: nat) -> (Seq<char>, Seq<char>)
    decreases maxd - d,
{
    if d >= maxd {
        (Seq::empty(), from_s)
    } else {
        let r = digit_steps(seq!['1'] + repeat(seq!['0'], d), d + 1, maxd);
        (spec_uniform_range(from_s, repeat(seq!['9'], d)) + seq![' ', '|', ' '] + r.0, r.1)
    }
}

/// How far a range is from needing no further nesting; used to show the
/// construction ends.
pub open spec fn mm_stage(min: i32, max: i32) -> int {
    let has_min = min != i32::MIN;
    let has_max = max != i32::MAX;
    if has_min && has_max {
        if min < 0 {
            2
        } else {
            0
        }
    } else if has_min {
        if min < 0 {
            3
        } else {
            1
        }
    } else if has_max {
        2
    } else {
        0
    }
}

pub open spec fn mm_size(min: i32) -> nat {
    if min >= 0 {
        min as nat
    } else {
        0
    }
}

/// The digits after the first of a positive number, as a number.
pub open spec fn after_first_digit(n: nat) -> nat {
    n % pow10((decimal(n).len() - 1) as nat)
}

pub open spec fn lit(s: &str) -> Seq<char> {
    s@
}

/// `dl - 1`, but at least 1.
pub open spec fn less_decimals(dl: i32) -> i32 {
    if dl as int - 1 > 1 {
        (dl as int - 1) as i32
    } else {
        1i32
    }
}

/// The grammar for `min` to `max` when both bounds are set.
pub open spec fn spec_mm_both(min: i32, max: i32, dl: i32) -> Seq<char>
    decreases mm_stage(min, max), mm_size(min), 1int,
{
    if min < 0 && max < 0 {
        if max == i32::MIN || min == i32::MIN {
            Seq::empty()
        } else {
            lit("\"-\" (") + spec_min_max_int((-max) as i32, (-min) as i32, dl, true) + seq![')']
        }
    } else if min == i32::MIN || max == i32::MAX {
        Seq::empty()
    } else {
        let pre = if min < 0 {
            lit("\"-\" (") + spec_min_max_int(0, (-min) as i32, dl, true) + lit(") | ")
        } else {
            Seq::empty()
        };
        let min2: nat = if min < 0 {
            0
        } else {
            min as nat
        };
        let min_s = decimal(min2);
        let max_s = signed_decimal(max as int);
        let steps = digit_steps(min_s, min_s.len(), max_s.len());
        pre + steps.0 + spec_uniform_range(steps.1, max_s)
    }
}

/// The grammar for the integers from `min` up, with at most `dl` digits
/// where their number is open.
pub open spec fn spec_mm_min(min: i32, dl: i32, top: bool) -> Seq<char>
    decreases mm_stage(min, i32::MAX), mm_size(min), 1int,
{
    let less = less_decimals(dl);
    if min == i32::MIN {
        Seq::empty()
    } else if min < 0 {
        lit("\"-\" (") + spec_min_max_int(i32::MIN, (-min) as i32, dl, false) + lit(
            ") | [0] | [1-9] ",
        ) + spec_more_digits(0, dl as int - 1)
    } else if min == 0 {
        if top {
            lit("[0] | [1-9] ") + spec_more_digits(0, less as int)
        } else {
            spec_more_digits(1, dl as int)
        }
    } else if min <= 9 {
        spec_mm_min_digit(crate::text::digit_char(min as nat), less, top)
    } else {
        spec_mm_min_large(min, dl, top)
    }
}

/// The first digit a number may start with.
pub open spec fn first_digit(top: bool) -> char {
    if top {
        '1'
    } else {
        '0'
    }
}

/// The grammar for the integers from the one digit `c` up: a smaller first
/// digit followed by at least one more digit, or `c` or more.
pub open spec fn spec_mm_min_digit(c: char, less: i32, top: bool) -> Seq<char> {
    let start = first_digit(top);
    (if c > start {
        spec_digit_range(start, shift_char(c, -1)) + seq![' '] + spec_more_digits(1, less as int)
            + lit(" | ")
    } else {
        Seq::empty()
    }) + spec_digit_range(c, '9') + seq![' '] + spec_more_digits(0, less as int)
}

/// The numbers with a first digit below `c` and `len` more digits.
pub open spec fn mm_large_head(c: char, start: char, len: int, less: i32) -> Seq<char> {
    if c > '1' {
        spec_digit_range(start, shift_char(c, -1)) + seq![' '] + spec_more_digits(
            (len as i32) as int,
            less as int,
        ) + lit(" | ")
    } else {
        Seq::empty()
    }
}

/// The numbers with a first digit above `c` and `len - 1` more digits.
pub open spec fn mm_large_tail(c: char, len: int, less: i32) -> Seq<char> {
    if '9' > c {
        lit(" | ") + spec_digit_range(shift_char(c, 1), '9') + seq![' '] + spec_more_digits(
            ((len - 1) as i32) as int,
            less as int,
        )
    } else {
        Seq::empty()
    }
}

/// The grammar for the integers from `min` up, for `min` of two digits or
/// more: numbers with a smaller first digit and as many digits, the same
/// first digit followed by the rest of `min` or more, or a larger first
/// digit.
pub open spec fn spec_mm_min_large(min: i32, dl: i32, top: bool) -> Seq<char>
    decreases mm_stage(min, i32::MAX), mm_size(min), 0int,
{
    let less = less_decimals(dl);
    if min < 10 {
        Seq::empty()
    } else {
        let min_s = decimal(min as nat);
        let len = min_s.len();
        let c = min_s[0];
        let rest = after_first_digit(min as nat);
        proof {
            lemma_decimal(min as nat);
            assert(rest < pow10((len - 1) as nat));
        }
        mm_large_head(c, first_digit(top), len as int, less) + spec_digit_range(c, c) + seq![
            ' ',
            '(',
        ] + spec_min_max_int(rest as i32, i32::MAX, less, false) + seq![')'] + mm_large_tail(
            c,
            len as int,
            less,
        )
    }
}

/// The grammar for the integers up to `max`.
pub open spec fn spec_mm_max(max: i32, dl: i32, top: bool) -> Seq<char>
    decreases mm_stage(i32::MIN, max), 0nat, 1int,
{
    let less = less_decimals(dl);
    if max == i32::MAX {
        Seq::empty()
    } else if max >= 0 {
        (if top {
            lit("\"-\" [1-9] ") + spec_more_digits(0, less as int) + lit(" | ")
        } else {
            Seq::empty()
        }) + spec_min_max_int(0, max, dl, true)
    } else if max == i32::MIN {
        Seq::empty()
    } else {
        lit("\"-\" (") + spec_min_max_int((-max) as i32, i32::MAX, dl, false) + seq![')']
    }
}

/// A grammar for the integers from `min` to `max` (`i32::MIN` and
/// `i32::MAX` for no bound), with at most `dl` digits where the number of
/// digits is open; `top` tells whether a leading zero is forbidden.
pub open spec fn spec_min_max_int(min: i32, max: i32, dl: i32, top: bool) -> Seq<char>
    decreases mm_stage(min, max), mm_size(min), 2int,
{
    let has_min = min != i32::MIN;
    let has_max = max != i32::MAX;
    if has_min && has_max {
        spec_mm_both(min, max, dl)
    } else if has_min {
        spec_mm_min(min, dl, top)
    } else if has_max {
        spec_mm_max(max, dl, top)
    } else {
        Seq::empty()
    }
}

/// The bounds for which the construction of an integer range goes through:
/// at least one bound at every step, and every negation in range.
pub open spec fn mm_ok(min: i32, max: i32, dl: i32, top: bool) -> bool
    decreases mm_stage(min, max), mm_size(min),
{
    let has_min = min != i32::MIN;
    let has_max = max != i32::MAX;
    let less = if dl as int - 1 > 1 {
        (dl as int - 1) as i32
    } else {
        1i32
    };
    if has_min && has_max {
        if min < 0 && max < 0 {
            max != i32::MIN && mm_ok((-max) as i32, (-min) as i32, dl, true)
        } else if min < 0 {
            mm_ok(0, (-min) as i32, dl, true)
        } else {
            true
        }
    } else if !has_min && !has_max {
        false
    } else {
        dl != i32::MIN && if has_min {
            if min < 0 {
                mm_ok(i32::MIN, (-min) as i32, dl, false)
            } else if min >= 10 {
                let rest = after_first_digit(min as nat);
                proof {
                    lemma_decimal(min as nat);
                }
                mm_ok(rest as i32, i32::MAX, less, false)
            } else {
                true
            }
        } else {
            if max >= 0 {
                mm_ok(0, max, dl, true)
            } else {
                max != i32::MIN && mm_ok((-max) as i32, i32::MAX, dl, false)
            }
        }
    }
}

proof fn lemma_pow10_mono(a: nat, b: nat)
    requires
        a <= b,
    ensures
        pow10(a) <= pow10(b),
        pow10(a) >= 1,
    decreases b,
{
    if a < b {
        lemma_pow10_mono(a, (b - 1) as nat);
    } else if a > 0 {
        lemma_pow10_mono((a - 1) as nat, (a - 1) as nat);
    }
}

fn push_text(out: &mut Vec<char>, s: &str)
    ensures
        final(out)@ == old(out)@ + s@,
{
    let cs = crate::text::chars_of(s);
    extend_chars(out, &cs);
}

/// Appends the ranges for each width from that of `min_s` below `maxd`;
/// gives the lower end left for the last width.
fn digit_steps_exec(out: &mut Vec<char>, min_s: Vec<char>, maxd: usize) -> (last: Vec<char>)
    requires
        printable(min_s@),
    ensures
        final(out)@ == old(out)@ + digit_steps(min_s@, min_s@.len(), maxd as nat).0,
        last@ == digit_steps(min_s@, min_s@.len(), maxd as nat).1,
        printable(last@),
{
    let ghost total = digit_steps(min_s@, min_s@.len(), maxd as nat);
    let ghost before = out@;
    let mut cur = min_s;
    let mut digits: usize = cur.len();
    let zero: Vec<char> = vec!['0'];
    let nine: Vec<char> = vec!['9'];
    assert(zero@ =~= seq!['0']);
    assert(nine@ =~= seq!['9']);
    while digits < maxd
        invariant
            printable(cur@),
            zero@ == seq!['0'],
            nine@ == seq!['9'],
            out@ + digit_steps(cur@, digits as nat, maxd as nat).0 == before + total.0,
            digit_steps(cur@, digits as nat, maxd as nat).1 == total.1,
        decreases maxd - digits,
    {
        let nines = string_repeat(&nine, digits);
        proof {
            lemma_repeat_char('9', digits as nat);
            lemma_repeat_char('0', digits as nat);
        }
        let ghost step = digit_steps(cur@, digits as nat, maxd as nat);
        let ghost next = seq!['1'] + repeat(seq!['0'], digits as nat);
        let ghost out0 = out@;
        uniform_range(out, &cur, &nines);
        out.push(' ');
        out.push('|');
        out.push(' ');
        let mut nxt: Vec<char> = vec!['1'];
        let zeros = string_repeat(&zero, digits);
        extend_chars(&mut nxt, &zeros);
        assert(nxt@ =~= next);
        assert(out@ =~= out0 + (spec_uniform_range(cur@, repeat(seq!['9'], digits as nat)) + seq![
            ' ',
            '|',
            ' ',
        ]));
        cur = nxt;
        digits += 1;
    }
    assert(out@ =~= before + total.0);
    cur
}

/// Appends the grammar for `min_value` to `max_value`, both set.
fn mm_both_exec(min_value: i32, max_value: i32, out: &mut Vec<char>, decimals_left: i32)
    requires
        min_value != i32::MIN,
        max_value != i32::MAX,
        mm_ok(min_value, max_value, decimals_left, true),
    ensures
        final(out)@ == old(out)@ + spec_mm_both(min_value, max_value, decimals_left),
    decreases mm_stage(min_value, max_value), mm_size(min_value), 1int,
{
    let ghost before = out@;
    if min_value < 0 && max_value < 0 {
        push_text(out, "\"-\" (");
        build_min_max_int(-max_value, -min_value, out, decimals_left, true);
        out.push(')');
        assert(out@ =~= before + spec_mm_both(min_value, max_value, decimals_left));
        return;
    }
    let mut min_v = min_value;
    if min_value < 0 {
        push_text(out, "\"-\" (");
        build_min_max_int(0, -min_value, out, decimals_left, true);
        push_text(out, ") | ");
        min_v = 0;
    }
    let ghost pre = out@;
    let min_s = crate::text::decimal_chars(min_v as u64);
    let max_s = i32_text(max_value);
    proof {
        lemma_decimal(min_v as nat);
        if max_value < 0 {
            lemma_decimal((-max_value) as nat);
            assert(printable(max_s@)) by {
                assert forall|k: int| 0 <= k < max_s@.len() implies is_printable_ascii(
                    #[trigger] max_s@[k],
                ) by {
                    if k > 0 {
                        assert(max_s@[k] == decimal((-max_value) as nat)[k - 1]);
                    }
                }
            }
        } else {
            lemma_decimal(max_value as nat);
        }
    }
    let last = digit_steps_exec(out, min_s, max_s.len());
    uniform_range(out, &last, &max_s);
    assert(out@ =~= before + spec_mm_both(min_value, max_value, decimals_left));
}

/// The first `len - 1` powers: ten to the power `len - 1`.
fn pow10_exec(len: usize, bound: i32) -> (p: u64)
    requires
        len >= 1,
        pow10((len - 1) as nat) <= bound,
    ensures
        p == pow10((len - 1) as nat),
{
    let mut p: u64 = 1;
    let mut k: usize = 1;
    proof {
        lemma_pow10_mono(0, (len - 1) as nat);
    }
    while k < len
        invariant
            1 <= k <= len,
            p == pow10((k - 1) as nat),
            pow10((len - 1) as nat) <= bound,
        decreases len - k,
    {
        proof {
            lemma_pow10_mono(k as nat, (len - 1) as nat);
        }
        p = p * 10;
        k += 1;
    }
    p
}

/// Appends the grammar for the integers from `min_value` up.
fn mm_min_exec(min_value: i32, out: &mut Vec<char>, decimals_left: i32, top_level: bool)
    requires
        min_value != i32::MIN,
        decimals_left != i32::MIN,
        mm_ok(min_value, i32::MAX, decimals_left, top_level),
    ensures
        final(out)@ == old(out)@ + spec_mm_min(min_value, decimals_left, top_level),
    decreases mm_stage(min_value, i32::MAX), mm_size(min_value), 1int,
{
    let ghost before = out@;
    let less = if decimals_left - 1 > 1 {
        decimals_left - 1
    } else {
        1
    };
    if min_value < 0 {
        push_text(out, "\"-\" (");
        build_min_max_int(i32::MIN, -min_value, out, decimals_left, false);
        push_text(out, ") | [0] | [1-9] ");
        more_digits(out, 0, decimals_left - 1);
    } else if min_value == 0 {
        if top_level {
            push_text(out, "[0] | [1-9] ");
            more_digits(out, 0, less);
        } else {
            more_digits(out, 1, decimals_left);
        }
    } else if min_value <= 9 {
        let c = ((min_value as u8) + 48) as char;
        mm_min_digit_exec(out, c, less, top_level);
    } else {
        mm_min_large_exec(min_value, out, decimals_left, top_level);
    }
    assert(out@ =~= before + spec_mm_min(min_value, decimals_left, top_level));
}

/// Appends the grammar for the integers from the one digit `c` up.
fn mm_min_digit_exec(out: &mut Vec<char>, c: char, less: i32, top_level: bool)
    requires
        is_printable_ascii(c),
    ensures
        final(out)@ == old(out)@ + spec_mm_min_digit(c, less, top_level),
{
    let ghost before = out@;
    let start = if top_level {
        '1'
    } else {
        '0'
    };
    if c > start {
        digit_range(out, start, shift_char_exec(c, false));
        out.push(' ');
        more_digits(out, 1, less);
        push_text(out, " | ");
    }
    let ghost a = out@;
    digit_range(out, c, '9');
    out.push(' ');
    more_digits(out, 0, less);
    assert(out@ =~= before + spec_mm_min_digit(c, less, top_level));
}

fn mm_large_head_exec(out: &mut Vec<char>, c: char, top_level: bool, len: usize, less: i32)
    requires
        is_printable_ascii(c),
    ensures
        final(out)@ == old(out)@ + mm_large_head(c, first_digit(top_level), len as int, less),
{
    let ghost before = out@;
    let start = if top_level {
        '1'
    } else {
        '0'
    };
    if c > '1' {
        digit_range(out, start, shift_char_exec(c, false));
        out.push(' ');
        more_digits(out, len as i32, less);
        push_text(out, " | ");
    }
    assert(out@ =~= before + mm_large_head(c, first_digit(top_level), len as int, less));
}

fn mm_large_tail_exec(out: &mut Vec<char>, c: char, len: usize, less: i32)
    requires
        is_printable_ascii(c),
        len >= 1,
    ensures
        final(out)@ == old(out)@ + mm_large_tail(c, len as int, less),
{
    let ghost before = out@;
    if '9' > c {
        push_text(out, " | ");
        digit_range(out, shift_char_exec(c, true), '9');
        out.push(' ');
        more_digits(out, (len - 1) as i32, less);
    }
    assert(out@ =~= before + mm_large_tail(c, len as int, less));
}

/// Appends the grammar for the integers from `min_value` up, for
/// `min_value` of two digits or more.
#[verifier::rlimit(100)]
fn mm_min_large_exec(min_value: i32, out: &mut Vec<char>, decimals_left: i32, top_level: bool)
    requires
        min_value >= 10,
        decimals_left != i32::MIN,
        mm_ok(min_value, i32::MAX, decimals_left, top_level),
    ensures
        final(out)@ == old(out)@ + spec_mm_min_large(min_value, decimals_left, top_level),
    decreases mm_stage(min_value, i32::MAX), mm_size(min_value), 0int,
{
    let ghost before = out@;
    let less = if decimals_left - 1 > 1 {
        decimals_left - 1
    } else {
        1
    };
    let min_s = crate::text::decimal_chars(min_value as u64);
    proof {
        lemma_decimal(min_value as nat);
    }
    let len = min_s.len();
    let c = min_s[0];
    let p = pow10_exec(len, min_value);
    let rest = ((min_value as u64) % p) as i32;
    let ghost head = mm_large_head(c, first_digit(top_level), len as int, less);
    let ghost tail = mm_large_tail(c, len as int, less);
    mm_large_head_exec(out, c, top_level, len, less);
    let ghost a = out@;
    digit_range(out, c, c);
    out.push(' ');
    out.push('(');
    build_min_max_int(rest, i32::MAX, out, less, false);
    out.push(')');
    let ghost b = out@;
    assert(b =~= a + (spec_digit_range(c, c) + seq![' ', '('] + spec_min_max_int(
        rest,
        i32::MAX,
        less,
        false,
    ) + seq![')']));
    mm_large_tail_exec(out, c, len, less);
    assert(out@ =~= before + spec_mm_min_large(min_value, decimals_left, top_level));
}

/// Appends the grammar for the integers up to `max_value`.
fn mm_max_exec(max_value: i32, out: &mut Vec<char>, decimals_left: i32, top_level: bool)
    requires
        max_value != i32::MAX,
        decimals_left != i32::MIN,
        mm_ok(i32::MIN, max_value, decimals_left, top_level),
    ensures
        final(out)@ == old(out)@ + spec_mm_max(max_value, decimals_left, top_level),
    decreases mm_stage(i32::MIN, max_value), 0nat, 1int,
{
    let ghost before = out@;
    let less = if decimals_left - 1 > 1 {
        decimals_left - 1
    } else {
        1
    };
    if max_value >= 0 {
        if top_level {
            push_text(out, "\"-\" [1-9] ");
            more_digits(out, 0, less);
            push_text(out, " | ");
        }
        build_min_max_int(0, max_value, out, decimals_left, true);
    } else {
        push_text(out, "\"-\" (");
        build_min_max_int(-max_value, i32::MAX, out, decimals_left, false);
        out.push(')');
    }
    assert(out@ =~= before + spec_mm_max(max_value, decimals_left, top_level));
}


/// Whether `build_min_max_int` can write the range: at least one bound is
/// set and no bound is negated past the range of `i32` on the way.
pub fn min_max_ok(min_value: i32, max_value: i32, decimals_left: i32, top_level: bool) -> (r: bool)
    ensures
        r == mm_ok(min_value, max_value, decimals_left, top_level),
    decreases mm_stage(min_value, max_value), mm_size(min_value),
{
    let has_min = min_value != i32::MIN;
    let has_max = max_value != i32::MAX;
    if has_min && has_max {
        if min_value < 0 && max_value < 0 {
            max_value != i32::MIN && min_max_ok(-max_value, -min_value, decimals_left, true)
        } else if min_value < 0 {
            min_max_ok(0, -min_value, decimals_left, true)
        } else {
            true
        }
    } else if !has_min && !has_max {
        false
    } else if decimals_left == i32::MIN {
        false
    } else if has_min {
        if min_value < 0 {
            min_max_ok(i32::MIN, -min_value, decimals_left, false)
        } else if min_value >= 10 {
            let less = if decimals_left - 1 > 1 {
                decimals_left - 1
            } else {
                1
            };
            let min_s = crate::text::decimal_chars(min_value as u64);
            proof {
                lemma_decimal(min_value as nat);
            }
            let len = min_s.len();
            let p = pow10_exec(len, min_value);
            let rest = ((min_value as u64) % p) as i32;
            min_max_ok(rest, i32::MAX, less, false)
        } else {
            true
        }
    } else if max_value >= 0 {
        min_max_ok(0, max_value, decimals_left, true)
    } else {
        max_value != i32::MIN && min_max_ok(-max_value, i32::MAX, decimals_left, false)
    }
}

/// Appends a grammar for the integers from `min_value` to `max_value`
/// (`i32::MIN` and `i32::MAX` for no bound).
pub fn build_min_max_int(
    min_value: i32,
    max_value: i32,
    out: &mut Vec<char>,
    decimals_left: i32,
    top_level: bool,
)
    requires
        mm_ok(min_value, max_value, decimals_left, top_level),
    ensures
        final(out)@ == old(out)@ + spec_min_max_int(min_value, max_value, decimals_left, top_level),
    decreases mm_stage(min_value, max_value), mm_size(min_value), 2int,
{
    let has_min = min_value != i32::MIN;
    let has_max = max_value != i32::MAX;
    if has_min && has_max {
        mm_both_exec(min_value, max_value, out, decimals_left);
    } else if has_min {
        mm_min_exec(min_value, out, decimals_left, top_level);
    } else {
        mm_max_exec(max_value, out, decimals_left, top_level);
    }
}

// ---------------------------------------------------------------------------
// Rules
// ---------------------------------------------------------------------------

/// A grammar rule: its name and its body.
pub type RuleV = (Seq<char>, Seq<char>);

pub open spec fn rules_view(r: Seq<(Vec<char>, Vec<char>)>) -> Seq<RuleV> {
    r.map_values(|p: (Vec<char>, Vec<char>)| (p.0@, p.1@))
}

/// Index of the last rule named `name`, or -1.
pub open spec fn rule_index(rules: Seq<RuleV>, name: Seq<char>) -> int
    decreases rules.len(),
{
    if rules.len() == 0 {
        -1
    } else if rules.last().0 == name {
        rules.len() - 1
    } else {
        rule_index(rules.drop_last(), name)
    }
}

/// No two rules have the same name.
pub open spec fn names_unique(rules: Seq<RuleV>) -> bool {
    forall|i: int, j: int| 0 <= i < j < rules.len() ==> rules[i].0 != rules[j].0
}

/// A character a rule name may hold: an ASCII letter or digit, or `-`.
pub open spec fn is_rule_name_char(c: char) -> bool {
    ('a' <= c && c <= 'z') || ('A' <= c && c <= 'Z') || ('0' <= c && c <= '9') || c == '-'
}

/// `s` from index `i` on with every run of characters that may not stand
/// in a rule name made one `-`; `in_run` tells whether such a run is going
/// on at `i`.
pub open spec fn escape_name_from(s: Seq<char>, i: int, in_run: bool) -> Seq<char>
    decreases s.len() - i,
{
    if i < 0 || i >= s.len() {
        Seq::empty()
    } else if is_rule_name_char(s[i]) {
        seq![s[i]] + escape_name_from(s, i + 1, false)
    } else if in_run {
        escape_name_from(s, i + 1, true)
    } else {
        seq!['-'] + escape_name_from(s, i + 1, true)
    }
}

/// A rule name made from `s`.
pub open spec fn escape_name(s: Seq<char>) -> Seq<char> {
    escape_name_from(s, 0, false)
}

/// The rule `rule` stored under `esc` followed by the first number from
/// `i` on for which no other rule has that name; gives the name used.
pub open spec fn add_numbered(rules: Seq<RuleV>, esc: Seq<char>, rule: Seq<char>, i: nat) -> (
    Seq<char>,
    Seq<RuleV>,
)
    decreases rules.len() + 1 - i,
{
    if i > rules.len() {
        (esc, rules)
    } else {
        let c = esc + decimal(i);
        let k = rule_index(rules, c);
        if k < 0 {
            (c, rules.push((c, rule)))
        } else if rules[k].1 == rule {
            (c, rules)
        } else {
            add_numbered(rules, esc, rule, i + 1)
        }
    }
}

/// `rule` stored under a name made from `name`: that name when it is free
/// or already holds the same rule, else that name with the first number
/// that is free or holds the same rule.  Gives the name used and the rules.
pub open spec fn spec_add_rule(rules: Seq<RuleV>, name: Seq<char>, rule: Seq<char>) -> (
    Seq<char>,
    Seq<RuleV>,
) {
    let esc = escape_name(name);
    let k = rule_index(rules, esc);
    if k < 0 {
        (esc, rules.push((esc, rule)))
    } else if rules[k].1 == rule {
        (esc, rules)
    } else {
        add_numbered(rules, esc, rule, 0)
    }
}

proof fn lemma_rule_index(rules: Seq<RuleV>, name: Seq<char>)
    ensures
        -1 <= rule_index(rules, name) < rules.len(),
        rule_index(rules, name) >= 0 ==> rules[rule_index(rules, name)].0 == name,
        rule_index(rules, name) < 0 ==> forall|j: int| 0 <= j < rules.len() ==> #[trigger] rules[j].0 != name,
    decreases rules.len(),
{
    if rules.len() > 0 && rules.last().0 != name {
        lemma_rule_index(rules.drop_last(), name);
        assert forall|j: int| 0 <= j < rules.len() - 1 implies rules.drop_last()[j] == #[trigger] rules[j] by {}
    }
}

/// Different numbers have different decimal texts.
proof fn lemma_decimal_injective(a: nat, b: nat)
    requires
        decimal(a) == decimal(b),
    ensures
        a == b,
    decreases a,
{
    if a >= 10 {
        lemma_decimal(a / 10);
        assert(decimal(a).len() >= 2);
    }
    if b >= 10 {
        lemma_decimal(b / 10);
        assert(decimal(b).len() >= 2);
    }
    if a < 10 && b < 10 {
        assert(decimal(a)[0] == decimal(b)[0]);
        assert(decimal(a)[0] == crate::text::digit_char(a));
        assert(decimal(b)[0] == crate::text::digit_char(b));
        assert(crate::text::digit_char(a) as int == a + 48);
        assert(crate::text::digit_char(b) as int == b + 48);
    }
    if a >= 10 && b >= 10 {
        assert(decimal(a / 10) =~= decimal(a).drop_last());
        assert(decimal(b / 10) =~= decimal(b).drop_last());
        lemma_decimal_injective(a / 10, b / 10);
        assert(decimal(a).last() == decimal(b).last());
        assert(decimal(a).last() == crate::text::digit_char(a % 10));
        assert(decimal(b).last() == crate::text::digit_char(b % 10));
        assert(crate::text::digit_char(a % 10) as int == a % 10 + 48);
        assert(crate::text::digit_char(b % 10) as int == b % 10 + 48);
        assert(a % 10 == b % 10);
        assert(a == 10 * (a / 10) + a % 10);
        assert(b == 10 * (b / 10) + b % 10);
    }
    if a < 10 {
        assert(decimal(a).len() == 1);
    }
    if b < 10 {
        assert(decimal(b).len() == 1);
    }
}

/// Candidate `j` for `esc` is a name already holding a rule other than
/// `rule`.
spec fn candidate_taken(rules: Seq<RuleV>, esc: Seq<char>, rule: Seq<char>, j: int) -> bool {
    let k = rule_index(rules, esc + decimal(j as nat));
    k >= 0 && rules[k].1 != rule
}

/// Among the candidates `0..=rules.len()` one is free or holds `rule`:
/// they have distinct names and there are more of them than rules.
proof fn lemma_not_all_taken(rules: Seq<RuleV>, esc: Seq<char>, rule: Seq<char>)
    ensures
        exists|j: int| 0 <= j <= rules.len() && !#[trigger] candidate_taken(rules, esc, rule, j),
{
    if forall|j: int| 0 <= j <= rules.len() ==> #[trigger] candidate_taken(rules, esc, rule, j) {
        lemma_all_taken_impossible(rules, esc, rule);
    }
}

proof fn lemma_all_taken_impossible(rules: Seq<RuleV>, esc: Seq<char>, rule: Seq<char>)
    requires
        forall|j: int| 0 <= j <= rules.len() ==> #[trigger] candidate_taken(rules, esc, rule, j),
    ensures
        exists|j: int| 0 <= j <= rules.len() && !#[trigger] candidate_taken(rules, esc, rule, j),
{
    let x = vstd::set_lib::set_int_range(0, rules.len() as int + 1);
    let f = |j: int| rule_index(rules, esc + decimal(j as nat));
    let y = x.map(f);
    let z = vstd::set_lib::set_int_range(0, rules.len() as int);
    vstd::set_lib::lemma_int_range(0, rules.len() as int + 1);
    vstd::set_lib::lemma_int_range(0, rules.len() as int);
    assert forall|a: int, b: int| x.contains(a) && x.contains(b) && #[trigger] f(a) == #[trigger] f(
        b,
    ) implies a == b by {
        assert(candidate_taken(rules, esc, rule, a));
        assert(candidate_taken(rules, esc, rule, b));
        lemma_rule_index(rules, esc + decimal(a as nat));
        lemma_rule_index(rules, esc + decimal(b as nat));
        let ca = esc + decimal(a as nat);
        let cb = esc + decimal(b as nat);
        assert(ca == cb);
        assert(ca.subrange(esc.len() as int, ca.len() as int) =~= decimal(a as nat));
        assert(cb.subrange(esc.len() as int, cb.len() as int) =~= decimal(b as nat));
        lemma_decimal_injective(a as nat, b as nat);
    }
    assert(vstd::relations::injective_on(f, x));
    vstd::set_lib::lemma_map_size(x, y, f);
    assert forall|k: int| y.contains(k) implies z.contains(k) by {
        let j = choose|j: int| x.contains(j) && f(j) == k;
        assert(candidate_taken(rules, esc, rule, j));
        lemma_rule_index(rules, esc + decimal(j as nat));
    }
    vstd::set_lib::lemma_len_subset(y, z);
}

/// What numbering from candidate `i` on gives, when every earlier candidate
/// was taken: a name that holds `rule` afterwards, with the rules kept or
/// the new rule appended under a name no rule had.
proof fn lemma_add_numbered(rules: Seq<RuleV>, esc: Seq<char>, rule: Seq<char>, i: nat)
    requires
        i <= rules.len() + 1,
        forall|j: int| 0 <= j < i ==> #[trigger] candidate_taken(rules, esc, rule, j),
    ensures
        ({
            let (n, r2) = add_numbered(rules, esc, rule, i);
            ||| (r2 == rules && rule_index(rules, n) >= 0 && rules[rule_index(rules, n)].1 == rule)
            ||| (r2 == rules.push((n, rule)) && rule_index(rules, n) < 0)
        }),
    decreases rules.len() + 1 - i,
{
    if i > rules.len() {
        lemma_not_all_taken(rules, esc, rule);
    } else {
        let c = esc + decimal(i);
        let k = rule_index(rules, c);
        if k >= 0 && rules[k].1 != rule {
            assert(candidate_taken(rules, esc, rule, i as int));
            lemma_add_numbered(rules, esc, rule, i + 1);
        }
    }
}

/// The name `add_rule` gives back holds the rule it was handed: a lookup
/// of that name in the rules afterwards finds that rule.  Names stay
/// distinct, and the rules already there stay, in their order.
pub proof fn law_add_rule_stores(rules: Seq<RuleV>, name: Seq<char>, rule: Seq<char>)
    requires
        names_unique(rules),
    ensures
        ({
            let (n, r2) = spec_add_rule(rules, name, rule);
            &&& names_unique(r2)
            &&& 0 <= rule_index(r2, n) < r2.len()
            &&& r2[rule_index(r2, n)] == (n, rule)
            &&& r2.len() <= rules.len() + 1
            &&& r2.subrange(0, rules.len() as int) == rules
        }),
{
    let esc = escape_name(name);
    lemma_rule_index(rules, esc);
    if rule_index(rules, esc) >= 0 && rules[rule_index(rules, esc)].1 != rule {
        lemma_add_numbered(rules, esc, rule, 0);
    }
    let (n, r2) = spec_add_rule(rules, name, rule);
    lemma_rule_index(rules, n);
    lemma_rule_index(r2, n);
    if r2 != rules {
        assert(r2 == rules.push((n, rule)));
        assert(r2.last().0 == n);
        assert(r2.drop_last() =~= rules);
    }
    assert(r2.subrange(0, rules.len() as int) =~= rules);
}

fn is_rule_name_char_exec(c: char) -> (r: bool)
    ensures
        r == is_rule_name_char(c),
{
    ('a' <= c && c <= 'z') || ('A' <= c && c <= 'Z') || ('0' <= c && c <= '9') || c == '-'
}

/// A rule name made from `s`: every run of characters other than ASCII
/// letters, digits and `-` becomes one `-`.
pub fn escape_rule_name(s: &[char]) -> (out: Vec<char>)
    ensures
        out@ == escape_name(s@),
{
    let mut out: Vec<char> = Vec::new();
    let mut in_run = false;
    let mut i: usize = 0;
    while i < s.len()
        invariant
            i <= s@.len(),
            out@ + escape_name_from(s@, i as int, in_run) == escape_name(s@),
        decreases s@.len() - i,
    {
        let ghost before = out@;
        let ghost prev_run = in_run;
        if is_rule_name_char_exec(s[i]) {
            out.push(s[i]);
            in_run = false;
        } else if !in_run {
            out.push('-');
            in_run = true;
        }
        assert(out@ + escape_name_from(s@, i + 1, in_run) =~= before + escape_name_from(
            s@,
            i as int,
            prev_run,
        ));
        i += 1;
    }
    assert(out@ + escape_name_from(s@, i as int, in_run) =~= out@);
    out
}


/// The index of the last rule named `name`, if any.
fn find_rule(rules: &Vec<(Vec<char>, Vec<char>)>, name: &[char]) -> (r: Option<usize>)
    ensures
        match r {
            Some(k) => k < rules@.len() && k as int == rule_index(rules_view(rules@), name@),
            None => rule_index(rules_view(rules@), name@) < 0,
        },
{
    let ghost rv = rules_view(rules@);
    let mut i: usize = rules.len();
    assert(rv.take(i as int) =~= rv);
    while i > 0
        invariant
            i <= rules@.len(),
            rv == rules_view(rules@),
            rule_index(rv, name@) == rule_index(rv.take(i as int), name@),
        decreases i,
    {
        assert(rv.take(i as int).last() == rv[i - 1]);
        assert(rv.take(i as int).drop_last() =~= rv.take(i - 1));
        if crate::text::chars_eq(&rules[i - 1].0, name) {
            return Some(i - 1);
        }
        i -= 1;
    }
    None
}

fn copy_chars(v: &[char]) -> (out: Vec<char>)
    ensures
        out@ == v@,
{
    let out = crate::text::slice_chars(v, 0, v.len());
    assert(out@ =~= v@);
    out
}

/// Stores `rule` in `rules` under a name made from `name`; see
/// `spec_add_rule`.  Gives the name used.
pub fn add_rule_to(rules: &mut Vec<(Vec<char>, Vec<char>)>, name: &[char], rule: &[char]) -> (used:
    Vec<char>)
    ensures
        (used@, rules_view(final(rules)@)) == spec_add_rule(rules_view(old(rules)@), name@, rule@),
{
    let ghost rv = rules_view(rules@);
    let esc = escape_rule_name(name);
    match find_rule(rules, &esc) {
        None => {
            rules.push((copy_chars(&esc), copy_chars(rule)));
            assert(rules_view(rules@) =~= rv.push((esc@, rule@)));
            return esc;
        },
        Some(k) => {
            assert(rv[k as int].1 == rules@[k as int].1@);
            if crate::text::chars_eq(&rules[k].1, rule) {
                return esc;
            }
        },
    }
    let mut i: usize = 0;
    loop
        invariant
            rv == rules_view(rules@),
            rv == rules_view(old(rules)@),
            i <= rules@.len(),
            add_numbered(rv, esc@, rule@, i as nat) == spec_add_rule(rv, name@, rule@),
        decreases rules@.len() - i,
    {
        let mut cand = copy_chars(&esc);
        crate::text::extend_chars(&mut cand, &crate::text::decimal_chars(i as u64));
        assert(cand@ == esc@ + decimal(i as nat));
        match find_rule(rules, &cand) {
            None => {
                assert(add_numbered(rv, esc@, rule@, i as nat) == (cand@, rv.push((cand@, rule@))));
                rules.push((copy_chars(&cand), copy_chars(rule)));
                assert(rules_view(rules@) =~= rv.push((cand@, rule@)));
                return cand;
            },
            Some(k) => {
                assert(rv[k as int].1 == rules@[k as int].1@);
                if crate::text::chars_eq(&rules[k].1, rule) {
                    assert(add_numbered(rv, esc@, rule@, i as nat) == (cand@, rv));
                    return cand;
                }
            },
        }
        if i == rules.len() {
            assert(add_numbered(rv, esc@, rule@, (i + 1) as nat) == (esc@, rv));
            return esc;
        }
        i += 1;
    }
}

/// The grammar text of the rules: one `name ::= body` line per rule, in
/// order.
pub open spec fn spec_format_grammar(rules: Seq<RuleV>) -> Seq<char>
    decreases rules.len(),
{
    if rules.len() == 0 {
        Seq::empty()
    } else {
        spec_format_grammar(rules.drop_last()) + rules.last().0 + seq![' ', ':', ':', '=', ' ']
            + rules.last().1 + seq!['\n']
    }
}

/// The grammar text of the rules.
pub fn format_grammar(rules: &Vec<(Vec<char>, Vec<char>)>) -> (out: Vec<char>)
    ensures
        out@ == spec_format_grammar(rules_view(rules@)),
{
    let ghost rv = rules_view(rules@);
    let mut out: Vec<char> = Vec::new();
    let mut i: usize = 0;
    while i < rules.len()
        invariant
            i <= rules@.len(),
            rv == rules_view(rules@),
            out@ == spec_format_grammar(rv.take(i as int)),
        decreases rules@.len() - i,
    {
        let ghost before = out@;
        crate::text::extend_chars(&mut out, &rules[i].0);
        let sep: Vec<char> = vec![' ', ':', ':', '=', ' '];
        crate::text::extend_chars(&mut out, &sep);
        crate::text::extend_chars(&mut out, &rules[i].1);
        out.push('\n');
        assert(rv.take(i + 1).drop_last() =~= rv.take(i as int));
        assert(rv.take(i + 1).last() == rv[i as int]);
        assert(out@ =~= spec_format_grammar(rv.take(i + 1)));
        i += 1;
    }
    assert(rv.take(rules@.len() as int) =~= rv);
    out
}

} // verus!
