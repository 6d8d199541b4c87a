//! The grammar converter's state and its regular-expression patterns:
//! a `pattern` of a JSON schema string (`^...$`) becomes grammar rules.

use vstd::prelude::*;
use crate::schema::{
    RuleV, rules_view, spec_add_rule, add_rule_to, spec_build_repetition, build_repetition,
    spec_split, string_split, pieces_view, join, spec_format_grammar, format_grammar,
};
use crate::errtypes::{trim, trim_chars};
use crate::text::{decimal, decimal_chars, extend_chars, chars_eq, chars_of};
use vstd::string::StringSliceAdditionalSpecFns;

verus! {

/// A problem met while converting a schema.
#[derive(Clone, Copy, Debug, PartialEq, Eq, Structural)]
pub enum Issue {
    /// A pattern not written `^...$`.
    PatternAnchors,
    UnbalancedParentheses,
    UnbalancedSquareBrackets,
    UnbalancedCurlyBrackets,
    InvalidCurlyNumber,
    WrongCurlyCount,
    /// A group that starts `(?`: kept as a plain group.
    UnsupportedPatternSyntax,
}

/// The text of an issue.
pub open spec fn issue_message(i: Issue) -> Seq<char> {
    match i {
        Issue::PatternAnchors => "Pattern must start with '^' and end with '$'"@,
        Issue::UnbalancedParentheses => "Unbalanced parentheses"@,
        Issue::UnbalancedSquareBrackets => "Unbalanced square brackets"@,
        Issue::UnbalancedCurlyBrackets => "Unbalanced curly brackets"@,
        Issue::InvalidCurlyNumber => "Invalid number in curly brackets"@,
        Issue::WrongCurlyCount => "Wrong number of values in curly brackets"@,
        Issue::UnsupportedPatternSyntax => "Unsupported pattern syntax"@,
    }
}

impl Issue {
    /// The issue's text.
    pub fn message(&self) -> (out: Vec<char>)
        ensures
            out@ == issue_message(*self),
    {
        let m: &str = match self {
            Issue::PatternAnchors => "Pattern must start with '^' and end with '$'",
            Issue::UnbalancedParentheses => "Unbalanced parentheses",
            Issue::UnbalancedSquareBrackets => "Unbalanced square brackets",
            Issue::UnbalancedCurlyBrackets => "Unbalanced curly brackets",
            Issue::InvalidCurlyNumber => "Invalid number in curly brackets",
            Issue::WrongCurlyCount => "Wrong number of values in curly brackets",
            Issue::UnsupportedPatternSyntax => "Unsupported pattern syntax",
        };
        chars_of(m)
    }
}

// ---------------------------------------------------------------------------
// Pattern pieces
// ---------------------------------------------------------------------------

/// A piece of a pattern: its text and whether that text is a literal (to
/// be quoted) or already a rule.
pub type ItemV = (Seq<char>, bool);

/// The characters that have a meaning of their own in a pattern.
pub open spec fn is_non_literal(c: char) -> bool {
    c == '|' || c == '.' || c == '(' || c == ')' || c == '[' || c == ']' || c == '{' || c == '}'
        || c == '*' || c == '+' || c == '?'
}

fn is_non_literal_exec(c: char) -> (r: bool)
    ensures
        r == is_non_literal(c),
{
    c == '|' || c == '.' || c == '(' || c == ')' || c == '[' || c == ']' || c == '{' || c == '}'
        || c == '*' || c == '+' || c == '?'
}

/// The characters a pattern escapes that a grammar literal needs bare.
pub open spec fn is_regex_only_escape(c: char) -> bool {
    c == '^' || c == '$' || is_non_literal(c)
}

/// A piece as grammar text: a literal quoted, a rule as it is.
pub open spec fn item_rule(it: ItemV) -> Seq<char> {
    if it.1 {
        seq!['"'] + it.0 + seq!['"']
    } else {
        it.0
    }
}

/// The literal that starts at `i`, added to `lit`, and the index after it.
pub open spec fn scan_literal(p: Seq<char>, i: int, lit: Seq<char>) -> (Seq<char>, int)
    decreases p.len() - i,
{
    if i < 0 || i >= p.len() {
        (lit, i)
    } else if p[i] == '\\' && i + 1 < p.len() {
        let n = p[i + 1];
        if is_regex_only_escape(n) {
            scan_literal(p, i + 2, lit.push(n))
        } else {
            scan_literal(p, i + 2, lit.push('\\').push(n))
        }
    } else if p[i] == '"' {
        scan_literal(p, i + 1, lit + seq!['\\', '"'])
    } else {
        let next_special = i + 1 < p.len() && is_non_literal(p[i + 1]);
        if !is_non_literal(p[i]) && (i + 1 == p.len() || lit.len() == 0 || p[i + 1] == '.'
            || !next_special) {
            scan_literal(p, i + 1, lit.push(p[i]))
        } else {
            (lit, i)
        }
    }
}

/// The body of a `[...]` class from `i` on, added to `sq`, and the index of
/// its `]` (or the end).
pub open spec fn scan_square(p: Seq<char>, i: int, sq: Seq<char>) -> (Seq<char>, int)
    decreases p.len() - i,
{
    if i < 0 || i >= p.len() || p[i] == ']' {
        (sq, i)
    } else if p[i] == '\\' && i + 1 < p.len() {
        scan_square(p, i + 2, sq.push('\\').push(p[i + 1]))
    } else {
        scan_square(p, i + 1, sq.push(p[i]))
    }
}

/// The index of the first `}` from `i` on, or the end.
pub open spec fn scan_curly(p: Seq<char>, i: int) -> int
    decreases p.len() - i,
{
    if i < 0 || i >= p.len() || p[i] == '}' {
        i
    } else {
        scan_curly(p, i + 1)
    }
}

proof fn lemma_scan_literal(p: Seq<char>, i: int, lit: Seq<char>)
    requires
        0 <= i <= p.len(),
    ensures
        i <= scan_literal(p, i, lit).1 <= p.len(),
        scan_literal(p, i, lit).0.len() >= lit.len(),
        scan_literal(p, i, lit).0.len() == lit.len() ==> scan_literal(p, i, lit).1 == i,
        scan_literal(p, i, lit).0.len() > lit.len() ==> scan_literal(p, i, lit).1 > i,
    decreases p.len() - i,
{
    if i < p.len() {
        if p[i] == '\\' && i + 1 < p.len() {
            if is_regex_only_escape(p[i + 1]) {
                lemma_scan_literal(p, i + 2, lit.push(p[i + 1]));
            } else {
                lemma_scan_literal(p, i + 2, lit.push('\\').push(p[i + 1]));
            }
        } else if p[i] == '"' {
            lemma_scan_literal(p, i + 1, lit + seq!['\\', '"']);
        } else {
            lemma_scan_literal(p, i + 1, lit.push(p[i]));
        }
    }
}

proof fn lemma_scan_square(p: Seq<char>, i: int, sq: Seq<char>)
    requires
        0 <= i <= p.len(),
    ensures
        i <= scan_square(p, i, sq).1 <= p.len(),
    decreases p.len() - i,
{
    if i < p.len() && p[i] != ']' {
        if p[i] == '\\' && i + 1 < p.len() {
            lemma_scan_square(p, i + 2, sq.push('\\').push(p[i + 1]));
        } else {
            lemma_scan_square(p, i + 1, sq.push(p[i]));
        }
    }
}

proof fn lemma_scan_curly(p: Seq<char>, i: int)
    requires
        0 <= i <= p.len(),
    ensures
        i <= scan_curly(p, i) <= p.len(),
    decreases p.len() - i,
{
    if i < p.len() && p[i] != '}' {
        lemma_scan_curly(p, i + 1);
    }
}

fn scan_literal_exec(p: &[char], start: usize) -> (r: (Vec<char>, usize))
    requires
        start <= p@.len(),
    ensures
        (r.0@, r.1 as int) == scan_literal(p@, start as int, Seq::empty()),
{
    let mut lit: Vec<char> = Vec::new();
    let mut i = start;
    let n = p.len();
    while i < n
        invariant
            n == p@.len(),
            start <= i <= n,
            scan_literal(p@, i as int, lit@) == scan_literal(p@, start as int, Seq::empty()),
        decreases n - i,
    {
        if p[i] == '\\' && i + 1 < n {
            let nx = p[i + 1];
            if nx == '^' || nx == '$' || is_non_literal_exec(nx) {
                lit.push(nx);
            } else {
                lit.push('\\');
                lit.push(nx);
            }
            i = i + 2;
        } else if p[i] == '"' {
            let ghost before = lit@;
            lit.push('\\');
            lit.push('"');
            assert(lit@ =~= before + seq!['\\', '"']);
            i = i + 1;
        } else {
            let ch = p[i];
            let next_special = i + 1 < n && is_non_literal_exec(p[i + 1]);
            if !is_non_literal_exec(ch) && (i + 1 == n || lit.len() == 0 || p[i + 1] == '.'
                || !next_special) {
                lit.push(ch);
                i = i + 1;
            } else {
                return (lit, i);
            }
        }
    }
    (lit, i)
}


fn scan_square_exec(p: &[char], start: usize) -> (r: (Vec<char>, usize))
    requires
        start <= p@.len(),
    ensures
        (r.0@, r.1 as int) == scan_square(p@, start as int, seq!['[']),
{
    let mut sq: Vec<char> = vec!['['];
    assert(sq@ =~= seq!['[']);
    let mut i = start;
    let n = p.len();
    while i < n && p[i] != ']'
        invariant
            n == p@.len(),
            start <= i <= n,
            scan_square(p@, i as int, sq@) == scan_square(p@, start as int, seq!['[']),
        decreases n - i,
    {
        if p[i] == '\\' && i + 1 < n {
            sq.push('\\');
            sq.push(p[i + 1]);
            i = i + 2;
        } else {
            sq.push(p[i]);
            i = i + 1;
        }
    }
    (sq, i)
}

fn scan_curly_exec(p: &[char], start: usize) -> (r: usize)
    requires
        start <= p@.len(),
    ensures
        r as int == scan_curly(p@, start as int),
{
    let mut i = start;
    while i < p.len() && p[i] != '}'
        invariant
            start <= i <= p@.len(),
            scan_curly(p@, i as int) == scan_curly(p@, start as int),
        decreases p@.len() - i,
    {
        i = i + 1;
    }
    i
}

// ---------------------------------------------------------------------------
// Numbers in `{...}`
// ---------------------------------------------------------------------------

pub open spec fn is_digit(c: char) -> bool {
    '0' <= c <= '9'
}

/// The value of a run of decimal digits.
pub open spec fn digits_value(s: Seq<char>) -> int
    decreases s.len(),
{
    if s.len() == 0 {
        0
    } else {
        digits_value(s.drop_last()) * 10 + (s.last() as int - '0' as int)
    }
}

/// `s` without its leading sign, if it has one.
pub open spec fn unsigned_part(s: Seq<char>) -> Seq<char> {
    if s.len() > 0 && (s[0] == '-' || s[0] == '+') {
        s.drop_first()
    } else {
        s
    }
}

/// What `i32`'s `from_str` gives for `s`: an optional sign, then at least
/// one decimal digit, in range.
pub open spec fn parse_i32(s: Seq<char>) -> Option<i32> {
    let neg = s.len() > 0 && s[0] == '-';
    let digits = unsigned_part(s);
    if digits.len() == 0 || !(forall|k: int| 0 <= k < digits.len() ==> is_digit(#[trigger] digits[k])) {
        None
    } else {
        let v = if neg {
            -digits_value(digits)
        } else {
            digits_value(digits)
        };
        if i32::MIN <= v <= i32::MAX {
            Some(v as i32)
        } else {
            None
        }
    }
}

/// A run of digits is worth at least as much as any of its prefixes.
pub proof fn lemma_digits_value_grows(s: Seq<char>, k: int)
    requires
        0 <= k <= s.len(),
        forall|j: int| 0 <= j < s.len() ==> is_digit(#[trigger] s[j]),
    ensures
        0 <= digits_value(s.take(k)) <= digits_value(s),
    decreases s.len(),
{
    if s.len() > 0 {
        if k == s.len() {
            assert(s.take(k) =~= s);
            lemma_digits_value_grows(s.drop_last(), k - 1);
        } else {
            assert(s.take(k) =~= s.drop_last().take(k));
            lemma_digits_value_grows(s.drop_last(), k);
        }
        lemma_digits_value_grows(s.drop_last(), s.len() - 1);
        assert(s.drop_last().take(s.len() - 1) =~= s.drop_last());
    }
}

fn parse_i32_exec(s: &[char]) -> (r: Option<i32>)
    ensures
        r == parse_i32(s@),
{
    let neg = s.len() > 0 && s[0] == '-';
    let start: usize = if s.len() > 0 && (s[0] == '-' || s[0] == '+') {
        1
    } else {
        0
    };
    let ghost digits = unsigned_part(s@);
    assert(digits =~= s@.skip(start as int));
    if start >= s.len() {
        return None;
    }
    let mut acc: i64 = 0;
    let mut i: usize = start;
    while i < s.len()
        invariant
            start <= i <= s@.len(),
            digits =~= s@.skip(start as int),
            digits == unsigned_part(s@),
            neg == (s@.len() > 0 && s@[0] == '-'),
            forall|k: int| 0 <= k < i - start ==> is_digit(#[trigger] digits[k]),
            acc == digits_value(digits.take(i - start)),
            0 <= acc <= 2147483648,
        decreases s@.len() - i,
    {
        let c = s[i];
        assert(digits[i - start] == c);
        if !('0' <= c && c <= '9') {
            assert(!is_digit(digits[i - start]));
            return None;
        }
        let d = (c as u32 - '0' as u32) as i64;
        assert(digits.take(i - start + 1).drop_last() =~= digits.take(i - start));
        assert(digits.take(i - start + 1).last() == c);
        acc = acc * 10 + d;
        assert(acc == digits_value(digits.take(i - start + 1)));
        i = i + 1;
        if acc > 2147483648 {
            proof {
                if forall|k: int| 0 <= k < digits.len() ==> is_digit(#[trigger] digits[k]) {
                    lemma_digits_value_grows(digits, i - start);
                }
            }
            return None;
        }
    }
    assert(digits.take(i - start) =~= digits);
    if neg {
        Some((0 - acc) as i32)
    } else if acc > 2147483647 {
        None
    } else {
        Some(acc as i32)
    }
}

/// One number of a `{...}` quantifier: `Some(None)` when it is left out,
/// `None` when it is not a number.
pub open spec fn curly_component(s: Seq<char>) -> Option<Option<i32>> {
    let t = trim(s);
    if t.len() == 0 {
        Some(None)
    } else {
        match parse_i32(t) {
            Some(v) => Some(Some(v)),
            None => None,
        }
    }
}

fn curly_component_exec(s: &[char]) -> (r: Option<Option<i32>>)
    ensures
        r == curly_component(s@),
{
    let t = trim_chars(s);
    if t.len() == 0 {
        Some(None)
    } else {
        match parse_i32_exec(&t) {
            Some(v) => Some(Some(v)),
            None => None,
        }
    }
}

/// The bounds a `{...}` quantifier with body `inner` gives, or its issue:
/// `{n}` is `n` to `n`, `{}` is none at all, `{m,n}` with either left out
/// is unbounded on that side.
pub open spec fn curly_bounds(inner: Seq<char>) -> Result<(i32, i32), Issue> {
    let nums = spec_split(inner, seq![',']);
    if nums.len() == 1 {
        match curly_component(nums[0]) {
            Some(Some(v)) => Ok((v, v)),
            Some(None) => Ok((0, 0)),
            None => Err(Issue::InvalidCurlyNumber),
        }
    } else if nums.len() == 2 {
        match curly_component(nums[0]) {
            None => Err(Issue::InvalidCurlyNumber),
            Some(a) => match curly_component(nums[1]) {
                None => Err(Issue::InvalidCurlyNumber),
                Some(b) => Ok(
                    (
                        match a {
                            Some(v) => v,
                            None => 0,
                        },
                        match b {
                            Some(v) => v,
                            None => i32::MAX,
                        },
                    ),
                ),
            },
        }
    } else {
        Err(Issue::WrongCurlyCount)
    }
}

fn curly_bounds_exec(inner: &[char]) -> (r: Result<(i32, i32), Issue>)
    ensures
        r == curly_bounds(inner@),
{
    let comma: Vec<char> = vec![','];
    let nums = string_split(inner, &comma);
    assert(comma@ =~= seq![',']);
    proof {
        assert(pieces_view(nums@).len() == nums@.len());
    }
    if nums.len() == 1 {
        assert(pieces_view(nums@)[0] == nums@[0]@);
        match curly_component_exec(&nums[0]) {
            Some(Some(v)) => Ok((v, v)),
            Some(None) => Ok((0, 0)),
            None => Err(Issue::InvalidCurlyNumber),
        }
    } else if nums.len() == 2 {
        assert(pieces_view(nums@)[0] == nums@[0]@);
        assert(pieces_view(nums@)[1] == nums@[1]@);
        match curly_component_exec(&nums[0]) {
            None => Err(Issue::InvalidCurlyNumber),
            Some(a) => match curly_component_exec(&nums[1]) {
                None => Err(Issue::InvalidCurlyNumber),
                Some(b) => {
                    let lo = match a {
                        Some(v) => v,
                        None => 0,
                    };
                    let hi = match b {
                        Some(v) => v,
                        None => i32::MAX,
                    };
                    Ok((lo, hi))
                },
            },
        }
    } else {
        Err(Issue::WrongCurlyCount)
    }
}


// ---------------------------------------------------------------------------
// Joining pieces
// ---------------------------------------------------------------------------

/// A piece of a pattern being converted.
pub struct PItem {
    pub content: Vec<char>,
    pub literal: bool,
}

impl View for PItem {
    type V = ItemV;

    open spec fn view(&self) -> ItemV {
        (self.content@, self.literal)
    }
}

pub open spec fn items_view(v: Seq<PItem>) -> Seq<ItemV> {
    v.map_values(|it: PItem| it@)
}

/// `acc` with the pending literal `lit` added as one piece, if any.
pub open spec fn flush(acc: Seq<ItemV>, lit: Seq<char>) -> Seq<ItemV> {
    if lit.len() == 0 {
        acc
    } else {
        acc.push((lit, true))
    }
}

/// The pieces with runs of literals merged, and the literal still pending.
pub open spec fn merge_state(items: Seq<ItemV>) -> (Seq<ItemV>, Seq<char>)
    decreases items.len(),
{
    if items.len() == 0 {
        (Seq::empty(), Seq::empty())
    } else {
        let (acc, lit) = merge_state(items.drop_last());
        let it = items.last();
        if it.1 {
            (acc, lit + it.0)
        } else {
            (flush(acc, lit).push(it), Seq::empty())
        }
    }
}

/// A sequence of pieces as one rule: runs of literals merged into one
/// literal, then all written with spaces between.
pub open spec fn join_items(items: Seq<ItemV>) -> ItemV {
    let (acc, lit) = merge_state(items);
    let merged = flush(acc, lit);
    (join(merged.map_values(|it: ItemV| item_rule(it)), seq![' ']), false)
}

fn item_rule_exec(it: &PItem) -> (out: Vec<char>)
    ensures
        out@ == item_rule(it@),
{
    if it.literal {
        let mut out: Vec<char> = vec!['"'];
        extend_chars(&mut out, &it.content);
        out.push('"');
        assert(out@ =~= item_rule(it@));
        out
    } else {
        copy_chars(&it.content)
    }
}

fn copy_chars(v: &[char]) -> (out: Vec<char>)
    ensures
        out@ == v@,
{
    let mut out: Vec<char> = Vec::new();
    extend_chars(&mut out, v);
    assert(out@ =~= v@);
    out
}

fn copy_item(it: &PItem) -> (out: PItem)
    ensures
        out@ == it@,
{
    PItem { content: copy_chars(&it.content), literal: it.literal }
}

fn join_items_exec(items: &Vec<PItem>) -> (r: PItem)
    ensures
        r@ == join_items(items_view(items@)),
{
    let ghost iv = items_view(items@);
    let mut acc: Vec<PItem> = Vec::new();
    let mut lit: Vec<char> = Vec::new();
    let mut i: usize = 0;
    while i < items.len()
        invariant
            i <= items@.len(),
            iv == items_view(items@),
            (items_view(acc@), lit@) == merge_state(iv.take(i as int)),
        decreases items@.len() - i,
    {
        assert(iv.take(i + 1).drop_last() =~= iv.take(i as int));
        assert(iv.take(i + 1).last() == items@[i as int]@);
        if items[i].literal {
            extend_chars(&mut lit, &items[i].content);
        } else {
            if lit.len() > 0 {
                acc.push(PItem { content: lit, literal: true });
                lit = Vec::new();
            }
            acc.push(copy_item(&items[i]));
            assert(lit@ =~= Seq::<char>::empty());
        }
        assert(items_view(acc@) =~= merge_state(iv.take(i + 1)).0);
        i += 1;
    }
    if lit.len() > 0 {
        acc.push(PItem { content: lit, literal: true });
    }
    assert(iv.take(items@.len() as int) =~= iv);
    let ghost merged = items_view(acc@);
    assert(merged == flush(merge_state(iv).0, merge_state(iv).1));
    let ghost rs = merged.map_values(|it: ItemV| item_rule(it));
    let mut out: Vec<char> = Vec::new();
    let mut j: usize = 0;
    while j < acc.len()
        invariant
            j <= acc@.len(),
            merged == items_view(acc@),
            rs == merged.map_values(|it: ItemV| item_rule(it)),
            out@ == join(rs.take(j as int), seq![' ']),
        decreases acc@.len() - j,
    {
        if j > 0 {
            out.push(' ');
        }
        let r = item_rule_exec(&acc[j]);
        extend_chars(&mut out, &r);
        assert(rs.take(j + 1).drop_last() =~= rs.take(j as int));
        assert(rs.take(j + 1).last() == rs[j as int]);
        if j == 0 {
            assert(out@ =~= join(rs.take(1), seq![' ']));
        } else {
            assert(out@ =~= join(rs.take(j + 1), seq![' ']));
        }
        j += 1;
    }
    assert(rs.take(acc@.len() as int) =~= rs);
    PItem { content: out, literal: false }
}

// ---------------------------------------------------------------------------
// The converter
// ---------------------------------------------------------------------------

/// What a converter holds: whether `.` matches line breaks, the rules in
/// the order they were added, and the errors and warnings met.
pub struct ConvV {
    pub dotall: bool,
    pub rules: Seq<RuleV>,
    pub errors: Seq<Seq<char>>,
    pub warnings: Seq<Seq<char>>,
}

/// The body of the rule every grammar starts with: optional white space.
pub open spec fn space_rule() -> Seq<char> {
    "| \" \" | \"\\n\"{1,2} [ \\t]{0,20}"@
}

/// A converter before any rule but `space` is added.
pub open spec fn fresh_conv(dotall: bool) -> ConvV {
    ConvV {
        dotall,
        rules: seq![("space"@, space_rule())],
        errors: Seq::empty(),
        warnings: Seq::empty(),
    }
}

/// Converts JSON schema pieces into grammar rules.
pub struct SchemaConverter {
    dotall: bool,
    rules: Vec<(Vec<char>, Vec<char>)>,
    errors: Vec<Vec<char>>,
    warnings: Vec<Vec<char>>,
}

impl View for SchemaConverter {
    type V = ConvV;

    closed spec fn view(&self) -> ConvV {
        ConvV {
            dotall: self.dotall,
            rules: rules_view(self.rules@),
            errors: texts_view(self.errors@),
            warnings: texts_view(self.warnings@),
        }
    }
}

pub open spec fn texts_view(v: Seq<Vec<char>>) -> Seq<Seq<char>> {
    v.map_values(|t: Vec<char>| t@)
}

/// The errors written one per line.
pub open spec fn issues_text(v: Seq<Seq<char>>) -> Seq<char> {
    join(v, seq!['\n'])
}

impl SchemaConverter {
    /// A converter holding only the `space` rule.
    pub fn new(dotall: bool) -> (c: Self)
        ensures
            c@ == fresh_conv(dotall),
    {
        let mut rules: Vec<(Vec<char>, Vec<char>)> = Vec::new();
        rules.push((chars_of("space"), chars_of("| \" \" | \"\\n\"{1,2} [ \\t]{0,20}")));
        let c = SchemaConverter { dotall, rules, errors: Vec::new(), warnings: Vec::new() };
        assert(c@.rules =~= seq![("space"@, space_rule())]);
        assert(c@.errors =~= Seq::<Seq<char>>::empty());
        assert(c@.warnings =~= Seq::<Seq<char>>::empty());
        c
    }

    /// Stores `rule` under a name made from `name` (see `spec_add_rule`);
    /// gives the name used.
    pub fn add_rule(&mut self, name: &[char], rule: &[char]) -> (used: Vec<char>)
        ensures
            (used@, final(self)@.rules) == spec_add_rule(old(self)@.rules, name@, rule@),
            final(self)@.dotall == old(self)@.dotall,
            final(self)@.errors == old(self)@.errors,
            final(self)@.warnings == old(self)@.warnings,
    {
        add_rule_to(&mut self.rules, name, rule)
    }

    /// The grammar text: one `name ::= body` line per rule, in order.
    pub fn format_grammar(&self) -> (out: Vec<char>)
        ensures
            out@ == spec_format_grammar(self@.rules),
    {
        format_grammar(&self.rules)
    }

    /// The errors met, if any, as one error whose text lists them one per
    /// line.
    pub fn check_errors(&self) -> (r: Result<(), crate::schema::SchemaError>)
        ensures
            self@.errors.len() == 0 ==> r is Ok,
            self@.errors.len() > 0 ==> (r matches Err(crate::schema::SchemaError::Conversion(m))
                && m@ == issues_text(self@.errors)),
    {
        if self.errors.len() == 0 {
            return Ok(());
        }
        let ghost ms = self@.errors;
        let mut out: Vec<char> = Vec::new();
        let mut j: usize = 0;
        while j < self.errors.len()
            invariant
                j <= self.errors@.len(),
                ms == texts_view(self.errors@),
                out@ == join(ms.take(j as int), seq!['\n']),
            decreases self.errors@.len() - j,
        {
            if j > 0 {
                out.push('\n');
            }
            extend_chars(&mut out, &self.errors[j]);
            assert(ms.take(j + 1).drop_last() =~= ms.take(j as int));
            if j == 0 {
                assert(out@ =~= join(ms.take(1), seq!['\n']));
            } else {
                assert(out@ =~= join(ms.take(j + 1), seq!['\n']));
            }
            j += 1;
        }
        assert(ms.take(self.errors@.len() as int) =~= ms);
        Err(crate::schema::SchemaError::Conversion(crate::text::string_from(&out)))
    }
}


// ---------------------------------------------------------------------------
// Converting a pattern
// ---------------------------------------------------------------------------

/// Where the conversion of a pattern stands: the converter, the index in
/// the pattern, the open groups (each with the index where it started and
/// its pieces so far, innermost last), the rules made for repeated groups
/// by their text, the number for the next such rule, the result once the
/// outermost group is closed, and whether the conversion stalled.
pub struct PatV {
    pub conv: ConvV,
    pub idx: int,
    pub frames: Seq<(int, Seq<ItemV>)>,
    pub subs: Seq<(Seq<char>, Seq<char>)>,
    pub next_id: nat,
    pub result: Option<ItemV>,
    pub stalled: bool,
}

/// The body of the `dot` rule: any character, or any but a line break.
pub open spec fn dot_body(dotall: bool) -> Seq<char> {
    if dotall {
        "[\\U00000000-\\U0010FFFF]"@
    } else {
        "[^\\x0A\\x0D]"@
    }
}

/// The rule made for the group text `key`, looking from index `i` on.
pub open spec fn subs_find(subs: Seq<(Seq<char>, Seq<char>)>, key: Seq<char>, i: int) -> Option<
    Seq<char>,
>
    decreases subs.len() - i,
{
    if i < 0 || i >= subs.len() {
        None
    } else if subs[i].0 == key {
        Some(subs[i].1)
    } else {
        subs_find(subs, key, i + 1)
    }
}

pub open spec fn with_error(c: ConvV, e: Issue) -> ConvV {
    ConvV { errors: c.errors.push(issue_message(e)), ..c }
}

/// `st` with the pieces of the innermost group replaced.
pub open spec fn with_top(st: PatV, items: Seq<ItemV>) -> PatV {
    let n = st.frames.len() - 1;
    PatV { frames: st.frames.update(n, (st.frames[n].0, items)), ..st }
}

/// The innermost group closed with the piece `item`: the whole pattern's
/// result when it was the outermost, else a parenthesised piece of the
/// group around it.
pub open spec fn deliver(st: PatV, item: ItemV) -> PatV {
    let frames = st.frames.drop_last();
    if frames.len() == 0 {
        PatV { frames, result: Some(item), ..st }
    } else {
        let n = frames.len() - 1;
        PatV {
            frames: frames.update(
                n,
                (frames[n].0, frames[n].1.push((seq!['('] + item_rule(item) + seq![')'], false))),
            ),
            ..st
        }
    }
}

/// A `{...}` quantifier from index `i`.
pub open spec fn step_curly(p: Seq<char>, name: Seq<char>, st: PatV) -> PatV {
    let i = st.idx;
    let items = st.frames.last().1;
    let j = scan_curly(p, i + 1);
    let conv1 = if j >= p.len() {
        with_error(st.conv, Issue::UnbalancedCurlyBrackets)
    } else {
        st.conv
    };
    let i2 = if j < p.len() {
        j + 1
    } else {
        j
    };
    match curly_bounds(p.subrange(i + 1, j)) {
        Err(e) => deliver(PatV { conv: with_error(conv1, e), idx: i2, ..st }, (Seq::empty(), false)),
        Ok((mn, mx)) => {
            let st1 = PatV { conv: conv1, idx: i2, ..st };
            if items.len() == 0 {
                st1
            } else {
                let last = items.last();
                if last.1 {
                    let base = seq!['"'] + last.0 + seq!['"'];
                    with_top(
                        st1,
                        items.drop_last().push(
                            (spec_build_repetition(base, mn as int, mx as int, Seq::empty()), false),
                        ),
                    )
                } else {
                    match subs_find(st.subs, last.0, 0) {
                        Some(id) => with_top(
                            st1,
                            items.drop_last().push(
                                (spec_build_repetition(id, mn as int, mx as int, Seq::empty()), false),
                            ),
                        ),
                        None => {
                            let sub_name = name + seq!['-'] + decimal(st.next_id);
                            let (id, rules2) = spec_add_rule(conv1.rules, sub_name, last.0);
                            with_top(
                                PatV {
                                    conv: ConvV { rules: rules2, ..conv1 },
                                    subs: st.subs.push((last.0, id)),
                                    next_id: st.next_id + 1,
                                    ..st1
                                },
                                items.drop_last().push(
                                    (
                                        spec_build_repetition(id, mn as int, mx as int, Seq::empty()),
                                        false,
                                    ),
                                ),
                            )
                        },
                    }
                }
            }
        },
    }
}

/// One step of the conversion: the next piece of the pattern read into the
/// innermost open group, or that group closed.
pub open spec fn pat_step(p: Seq<char>, name: Seq<char>, st: PatV) -> PatV {
    let top = st.frames.last();
    let start = top.0;
    let items = top.1;
    let i = st.idx;
    if i >= p.len() {
        let conv = if start > 0 {
            with_error(st.conv, Issue::UnbalancedParentheses)
        } else {
            st.conv
        };
        deliver(PatV { conv, ..st }, join_items(items))
    } else {
        let c = p[i];
        if c == '.' {
            let (d, rules2) = spec_add_rule(st.conv.rules, "dot"@, dot_body(st.conv.dotall));
            with_top(
                PatV { conv: ConvV { rules: rules2, ..st.conv }, idx: i + 1, ..st },
                items.push((d, false)),
            )
        } else if c == '(' {
            let conv = if i + 1 < p.len() && p[i + 1] == '?' {
                ConvV {
                    warnings: st.conv.warnings.push(issue_message(Issue::UnsupportedPatternSyntax)),
                    ..st.conv
                }
            } else {
                st.conv
            };
            PatV { conv, idx: i + 1, frames: st.frames.push((i + 1, Seq::empty())), ..st }
        } else if c == ')' {
            let conv = if start > 0 && p[start - 1] != '(' {
                with_error(st.conv, Issue::UnbalancedParentheses)
            } else {
                st.conv
            };
            deliver(PatV { conv, idx: i + 1, ..st }, join_items(items))
        } else if c == '[' {
            let (sq, j) = scan_square(p, i + 1, seq!['[']);
            let conv = if j >= p.len() {
                with_error(st.conv, Issue::UnbalancedSquareBrackets)
            } else {
                st.conv
            };
            let i2 = if j < p.len() {
                j + 1
            } else {
                j
            };
            with_top(PatV { conv, idx: i2, ..st }, items.push((sq.push(']'), false)))
        } else if c == '|' {
            with_top(PatV { idx: i + 1, ..st }, items.push((seq!['|'], false)))
        } else if c == '*' || c == '+' || c == '?' {
            let items2 = if items.len() > 0 {
                items.drop_last().push((item_rule(items.last()).push(c), false))
            } else {
                items
            };
            with_top(PatV { idx: i + 1, ..st }, items2)
        } else if c == '{' {
            step_curly(p, name, st)
        } else {
            let (lit, j) = scan_literal(p, i, Seq::empty());
            if lit.len() == 0 {
                PatV { stalled: true, ..st }
            } else {
                with_top(PatV { idx: j, ..st }, items.push((lit, true)))
            }
        }
    }
}

/// Whether the conversion is over: a result, a stall, or a state it can
/// not go on from.
pub open spec fn pat_done(p: Seq<char>, st: PatV) -> bool {
    st.stalled || st.result is Some || st.frames.len() == 0 || st.idx < 0 || st.idx > p.len()
}

/// A step either stalls, reads on, or closes a group where it stands.
pub proof fn lemma_pat_step(p: Seq<char>, name: Seq<char>, st: PatV)
    requires
        !pat_done(p, st),
    ensures
        ({
            let s2 = pat_step(p, name, st);
            ||| s2.stalled
            ||| (st.idx < s2.idx <= p.len())
            ||| (s2.idx == st.idx && s2.frames.len() < st.frames.len())
        }),
{
    let i = st.idx;
    if i < p.len() {
        let c = p[i];
        if c == '[' {
            lemma_scan_square(p, i + 1, seq!['[']);
        } else if c == '{' {
            lemma_scan_curly(p, i + 1);
        } else if c != '.' && c != '(' && c != ')' && c != '|' && c != '*' && c != '+' && c != '?' {
            lemma_scan_literal(p, i, Seq::empty());
        }
    }
}

/// The conversion run from `st` until it is over.
pub open spec fn pat_run(p: Seq<char>, name: Seq<char>, st: PatV) -> PatV
    decreases p.len() - st.idx, st.frames.len(),
{
    if pat_done(p, st) {
        st
    } else {
        let s2 = pat_step(p, name, st);
        if s2.stalled {
            s2
        } else {
            proof {
                lemma_pat_step(p, name, st);
            }
            pat_run(p, name, s2)
        }
    }
}

/// The bytes of a pattern, each taken as the character of that number.
pub open spec fn byte_chars(b: Seq<u8>) -> Seq<char> {
    b.map_values(|x: u8| x as char)
}

/// The body of the rule for a pattern whose own rule text is `body`: the
/// pattern's text between JSON string quotes, then white space.
pub open spec fn pattern_rule(body: Seq<char>) -> Seq<char> {
    "\"\\\"\" ("@ + body + ") \"\\\"\" space"@
}

/// Converting the pattern with bytes `pat` into a rule named after `name`:
/// the converter afterwards, the name of the rule (empty when the pattern
/// is not `^...$`), and whether the conversion stalls, which it does on a
/// `]` or `}` that no `[` or `{` opened.
pub open spec fn spec_visit_pattern(c: ConvV, pat: Seq<u8>, name: Seq<char>) -> (ConvV, Seq<char>, bool) {
    if pat.len() < 2 || pat[0] != 94u8 || pat.last() != 36u8 {
        (with_error(c, Issue::PatternAnchors), Seq::empty(), false)
    } else {
        let p = byte_chars(pat.subrange(1, pat.len() - 1));
        let st0 = PatV {
            conv: c,
            idx: 0,
            frames: seq![(0int, Seq::<ItemV>::empty())],
            subs: Seq::empty(),
            next_id: 0,
            result: None,
            stalled: false,
        };
        let st = pat_run(p, name, st0);
        if st.stalled || st.result is None {
            (st.conv, Seq::empty(), true)
        } else {
            let body = item_rule(st.result->0);
            let (used, rules2) = spec_add_rule(st.conv.rules, name, pattern_rule(body));
            (ConvV { rules: rules2, ..st.conv }, used, false)
        }
    }
}


// ---------------------------------------------------------------------------
// Converting a pattern: the running code
// ---------------------------------------------------------------------------

struct PatState {
    idx: usize,
    frames: Vec<(usize, Vec<PItem>)>,
    subs: Vec<(Vec<char>, Vec<char>)>,
    next_id: usize,
    result: Option<PItem>,
    stalled: bool,
}

spec fn frames_view(f: Seq<(usize, Vec<PItem>)>) -> Seq<(int, Seq<ItemV>)> {
    f.map_values(|x: (usize, Vec<PItem>)| (x.0 as int, items_view(x.1@)))
}

spec fn pat_view(c: ConvV, st: PatState) -> PatV {
    PatV {
        conv: c,
        idx: st.idx as int,
        frames: frames_view(st.frames@),
        subs: rules_view(st.subs@),
        next_id: st.next_id as nat,
        result: match st.result {
            Some(it) => Some(it@),
            None => None,
        },
        stalled: st.stalled,
    }
}

spec fn pat_wf(n: int, st: PatState) -> bool {
    &&& st.idx <= n
    &&& st.next_id <= st.idx
    &&& forall|k: int| 0 <= k < st.frames@.len() ==> #[trigger] st.frames@[k].0 <= st.idx
}

proof fn lemma_items_push(v: Seq<PItem>, it: PItem)
    ensures
        items_view(v.push(it)) == items_view(v).push(it@),
{
    assert(items_view(v.push(it)) =~= items_view(v).push(it@));
}

proof fn lemma_frames_pop(f: Seq<(usize, Vec<PItem>)>)
    requires
        f.len() > 0,
    ensures
        frames_view(f.drop_last()) == frames_view(f).drop_last(),
        frames_view(f).last() == (f.last().0 as int, items_view(f.last().1@)),
{
    assert(frames_view(f.drop_last()) =~= frames_view(f).drop_last());
}

proof fn lemma_frames_push(f: Seq<(usize, Vec<PItem>)>, x: (usize, Vec<PItem>))
    ensures
        frames_view(f.push(x)) == frames_view(f).push((x.0 as int, items_view(x.1@))),
{
    assert(frames_view(f.push(x)) =~= frames_view(f).push((x.0 as int, items_view(x.1@))));
}

fn subs_find_exec(subs: &Vec<(Vec<char>, Vec<char>)>, key: &[char]) -> (r: Option<usize>)
    ensures
        match r {
            Some(k) => k < subs@.len() && subs_find(rules_view(subs@), key@, 0) == Some(
                subs@[k as int].1@,
            ),
            None => subs_find(rules_view(subs@), key@, 0) is None,
        },
{
    let ghost sv = rules_view(subs@);
    let mut i: usize = 0;
    while i < subs.len()
        invariant
            i <= subs@.len(),
            sv == rules_view(subs@),
            subs_find(sv, key@, i as int) == subs_find(sv, key@, 0),
        decreases subs@.len() - i,
    {
        if chars_eq(&subs[i].0, key) {
            return Some(i);
        }
        i += 1;
    }
    None
}

/// Replaces the pieces of the innermost group.
fn set_top(st: &mut PatState, items: Vec<PItem>)
    requires
        old(st).frames@.len() > 0,
    ensures
        final(st).idx == old(st).idx,
        final(st).subs == old(st).subs,
        final(st).next_id == old(st).next_id,
        final(st).result == old(st).result,
        final(st).stalled == old(st).stalled,
        final(st).frames@.len() == old(st).frames@.len(),
        forall|k: int| 0 <= k < final(st).frames@.len() ==> #[trigger] final(st).frames@[k].0
            == old(st).frames@[k].0,
        frames_view(final(st).frames@) == frames_view(old(st).frames@).update(
            old(st).frames@.len() - 1,
            (old(st).frames@.last().0 as int, items_view(items@)),
        ),
{
    let ghost f0 = st.frames@;
    let top = st.frames.pop().unwrap();
    let start = top.0;
    st.frames.push((start, items));
    proof {
        assert(st.frames@ =~= f0.drop_last().push((start, items)));
        assert forall|k: int| 0 <= k < st.frames@.len() implies #[trigger] st.frames@[k].0
            == f0[k].0 by {
            if k < f0.len() - 1 {
                assert(st.frames@[k] == f0[k]);
            }
        }
        assert(frames_view(st.frames@) =~= frames_view(f0).update(
            f0.len() - 1,
            (f0.last().0 as int, items_view(items@)),
        ));
    }
}

/// The items of the innermost group, taken out.
fn top_items(st: &PatState) -> (r: (usize, Vec<PItem>))
    requires
        st.frames@.len() > 0,
    ensures
        r.0 == st.frames@.last().0,
        items_view(r.1@) == items_view(st.frames@.last().1@),
{
    let n = st.frames.len() - 1;
    let items = &st.frames[n].1;
    let mut out: Vec<PItem> = Vec::new();
    let mut i: usize = 0;
    while i < items.len()
        invariant
            i <= items@.len(),
            items_view(out@) == items_view(items@).take(i as int),
        decreases items@.len() - i,
    {
        let ghost before = out@;
        out.push(copy_item(&items[i]));
        proof {
            lemma_items_push(before, out@.last());
            assert(items_view(items@).take(i + 1) =~= items_view(items@).take(i as int).push(
                items@[i as int]@,
            ));
        }
        i += 1;
    }
    assert(items_view(items@).take(items@.len() as int) =~= items_view(items@));
    (st.frames[n].0, out)
}

/// Closes the innermost group with the piece `item`.
fn deliver_exec(st: &mut PatState, item: PItem, Ghost(c): Ghost<ConvV>)
    requires
        old(st).frames@.len() > 0,
    ensures
        pat_view(c, *final(st)) == deliver(pat_view(c, *old(st)), item@),
        final(st).idx == old(st).idx,
        final(st).next_id == old(st).next_id,
        final(st).frames@.len() == old(st).frames@.len() - 1,
        forall|k: int| 0 <= k < final(st).frames@.len() ==> #[trigger] final(st).frames@[k].0
            == old(st).frames@[k].0,
{
    let ghost f0 = st.frames@;
    let _ = st.frames.pop();
    proof {
        lemma_frames_pop(f0);
    }
    if st.frames.len() == 0 {
        st.result = Some(item);
    } else {
        let ghost f1 = st.frames@;
        let parent = st.frames.pop().unwrap();
        let mut items = parent.1;
        let mut wrapped: Vec<char> = vec!['('];
        let r = item_rule_exec(&item);
        extend_chars(&mut wrapped, &r);
        wrapped.push(')');
        let ghost before = items@;
        items.push(PItem { content: wrapped, literal: false });
        proof {
            lemma_items_push(before, items@.last());
            assert(wrapped@ =~= seq!['('] + item_rule(item@) + seq![')']);
        }
        st.frames.push((parent.0, items));
        proof {
            lemma_frames_pop(f1);
            lemma_frames_push(f1.drop_last(), (parent.0, items));
            assert(frames_view(st.frames@) =~= frames_view(f1).update(
                f1.len() - 1,
                (f1.last().0 as int, items_view(f1.last().1@).push(
                    (seq!['('] + item_rule(item@) + seq![')'], false),
                )),
            ));
            assert forall|k: int| 0 <= k < st.frames@.len() implies #[trigger] st.frames@[k].0
                == f0[k].0 by {
                if k < f1.len() - 1 {
                    assert(st.frames@[k] == f1[k]);
                }
                assert(f1[k] == f0[k]);
            }
        }
    }
}


impl SchemaConverter {
    fn push_error(&mut self, e: Issue)
        ensures
            final(self)@ == with_error(old(self)@, e),
    {
        let ghost before = self.errors@;
        self.errors.push(e.message());
        assert(texts_view(self.errors@) =~= texts_view(before).push(issue_message(e)));
    }

    fn push_warning(&mut self, e: Issue)
        ensures
            final(self)@ == (ConvV { warnings: old(self)@.warnings.push(issue_message(e)), ..old(self)@ }),
    {
        let ghost before = self.warnings@;
        self.warnings.push(e.message());
        assert(texts_view(self.warnings@) =~= texts_view(before).push(issue_message(e)));
    }

    /// One step of converting the pattern `p`; see `pat_step`.
    #[verifier::rlimit(100)]
    fn pat_step_exec(&mut self, p: &[char], name: &[char], st: &mut PatState)
        requires
            !pat_done(p@, pat_view(old(self)@, *old(st))),
            pat_wf(p@.len() as int, *old(st)),
        ensures
            pat_view(final(self)@, *final(st)) == pat_step(p@, name@, pat_view(old(self)@, *old(st))),
            pat_wf(p@.len() as int, *final(st)),
    {
        let ghost s0 = pat_view(self@, *st);
        let ghost f0 = st.frames@;
        proof {
            lemma_frames_pop(f0);
        }
        let (start, items) = top_items(st);
        let i = st.idx;
        let n = p.len();
        if i >= n {
            if start > 0 {
                self.push_error(Issue::UnbalancedParentheses);
            }
            let joined = join_items_exec(&items);
            deliver_exec(st, joined, Ghost(self@));
            return;
        }
        let c = p[i];
        if c == '.' {
            let body: &str = if self.dotall {
                "[\\U00000000-\\U0010FFFF]"
            } else {
                "[^\\x0A\\x0D]"
            };
            let d = self.add_rule(&chars_of("dot"), &chars_of(body));
            let mut items2 = items;
            let ghost before = items2@;
            items2.push(PItem { content: d, literal: false });
            proof {
                lemma_items_push(before, items2@.last());
            }
            st.idx = i + 1;
            set_top(st, items2);
        } else if c == '(' {
            if i + 1 < n && p[i + 1] == '?' {
                self.push_warning(Issue::UnsupportedPatternSyntax);
            }
            st.idx = i + 1;
            let fresh: Vec<PItem> = Vec::new();
            let ghost entry = ((i + 1) as usize, fresh);
            st.frames.push((i + 1, fresh));
            proof {
                lemma_frames_push(f0, entry);
                assert(items_view(entry.1@) =~= Seq::<ItemV>::empty());
            }
        } else if c == ')' {
            if start > 0 && p[start - 1] != '(' {
                self.push_error(Issue::UnbalancedParentheses);
            }
            st.idx = i + 1;
            let joined = join_items_exec(&items);
            deliver_exec(st, joined, Ghost(self@));
        } else if c == '[' {
            let (mut sq, j) = scan_square_exec(p, i + 1);
            proof {
                lemma_scan_square(p@, i + 1, seq!['[']);
            }
            if j >= n {
                self.push_error(Issue::UnbalancedSquareBrackets);
            }
            sq.push(']');
            let mut items2 = items;
            let ghost before = items2@;
            items2.push(PItem { content: sq, literal: false });
            proof {
                lemma_items_push(before, items2@.last());
            }
            st.idx = if j < n {
                j + 1
            } else {
                j
            };
            set_top(st, items2);
        } else if c == '|' {
            let mut items2 = items;
            let ghost before = items2@;
            items2.push(PItem { content: vec!['|'], literal: false });
            proof {
                lemma_items_push(before, items2@.last());
                assert(items2@.last()@.0 =~= seq!['|']);
            }
            st.idx = i + 1;
            set_top(st, items2);
        } else if c == '*' || c == '+' || c == '?' {
            let mut items2 = items;
            if items2.len() > 0 {
                let ghost before = items2@;
                let last = items2.pop().unwrap();
                let mut r = item_rule_exec(&last);
                r.push(c);
                proof {
                    assert(items_view(items2@) =~= items_view(before).drop_last());
                }
                let ghost mid = items2@;
                items2.push(PItem { content: r, literal: false });
                proof {
                    lemma_items_push(mid, items2@.last());
                }
            }
            st.idx = i + 1;
            set_top(st, items2);
        } else if c == '{' {
            self.step_curly_exec(p, name, st, items);
        } else {
            let (lit, j) = scan_literal_exec(p, i);
            proof {
                lemma_scan_literal(p@, i as int, Seq::empty());
            }
            if lit.len() == 0 {
                st.stalled = true;
            } else {
                let mut items2 = items;
                let ghost before = items2@;
                items2.push(PItem { content: lit, literal: true });
                proof {
                    lemma_items_push(before, items2@.last());
                }
                st.idx = j;
                set_top(st, items2);
            }
        }
    }

    /// A `{...}` quantifier; see `step_curly`.
    #[verifier::rlimit(100)]
    fn step_curly_exec(&mut self, p: &[char], name: &[char], st: &mut PatState, items: Vec<PItem>)
        requires
            !pat_done(p@, pat_view(old(self)@, *old(st))),
            pat_wf(p@.len() as int, *old(st)),
            old(st).idx < p@.len(),
            p@[old(st).idx as int] == '{',
            items_view(items@) == items_view(old(st).frames@.last().1@),
        ensures
            pat_view(final(self)@, *final(st)) == step_curly(p@, name@, pat_view(old(self)@, *old(st))),
            pat_wf(p@.len() as int, *final(st)),
    {
        let ghost f0 = st.frames@;
        proof {
            lemma_frames_pop(f0);
        }
        let i = st.idx;
        let n = p.len();
        let j = scan_curly_exec(p, i + 1);
        proof {
            lemma_scan_curly(p@, i + 1);
        }
        if j >= n {
            self.push_error(Issue::UnbalancedCurlyBrackets);
        }
        let i2 = if j < n {
            j + 1
        } else {
            j
        };
        let inner = crate::text::slice_chars(p, i + 1, j);
        match curly_bounds_exec(&inner) {
            Err(e) => {
                self.push_error(e);
                st.idx = i2;
                let none: Vec<char> = Vec::new();
                assert(none@ =~= Seq::<char>::empty());
                deliver_exec(st, PItem { content: none, literal: false }, Ghost(self@));
            },
            Ok((mn, mx)) => {
                st.idx = i2;
                if items.len() > 0 {
                    let mut items2 = items;
                    let ghost before = items2@;
                    let last = items2.pop().unwrap();
                    proof {
                        assert(items_view(items2@) =~= items_view(before).drop_last());
                    }
                    let base: Vec<char> = if last.literal {
                        let mut b: Vec<char> = vec!['"'];
                        extend_chars(&mut b, &last.content);
                        b.push('"');
                        assert(b@ =~= seq!['"'] + last.content@ + seq!['"']);
                        b
                    } else {
                        match subs_find_exec(&st.subs, &last.content) {
                            Some(k) => copy_chars(&st.subs[k].1),
                            None => {
                                let mut sub_name = copy_chars(name);
                                sub_name.push('-');
                                extend_chars(&mut sub_name, &decimal_chars(st.next_id as u64));
                                assert(sub_name@ =~= name@ + seq!['-'] + decimal(
                                    st.next_id as nat,
                                ));
                                let id = self.add_rule(&sub_name, &last.content);
                                let ghost sv = st.subs@;
                                st.subs.push((copy_chars(&last.content), copy_chars(&id)));
                                assert(rules_view(st.subs@) =~= rules_view(sv).push(
                                    (last.content@, id@),
                                ));
                                st.next_id = st.next_id + 1;
                                id
                            },
                        }
                    };
                    let empty: Vec<char> = Vec::new();
                    let rep = build_repetition(&base, mn, mx, &empty);
                    assert(empty@ =~= Seq::<char>::empty());
                    let ghost mid = items2@;
                    items2.push(PItem { content: rep, literal: false });
                    proof {
                        lemma_items_push(mid, items2@.last());
                    }
                    set_top(st, items2);
                }
            },
        }
    }
}


impl SchemaConverter {
    /// Turns the pattern `pattern`, written `^...$`, into a rule named after
    /// `name`, and gives that rule's name; see `spec_visit_pattern`.  A
    /// pattern without those anchors is an error, and gives an empty name.
    /// `None` stands for a pattern on which the conversion stalls (a `]` or
    /// `}` that nothing opened): there is no name to give for it.
    pub fn visit_pattern(&mut self, pattern: &str, name: &[char]) -> (used: Option<Vec<char>>)
        ensures
            final(self)@ == spec_visit_pattern(old(self)@, pattern.spec_bytes(), name@).0,
            match used {
                Some(u) => !spec_visit_pattern(old(self)@, pattern.spec_bytes(), name@).2 && u@
                    == spec_visit_pattern(old(self)@, pattern.spec_bytes(), name@).1,
                None => spec_visit_pattern(old(self)@, pattern.spec_bytes(), name@).2,
            },
    {
        let b = pattern.as_bytes();
        let n = b.len();
        if n < 2 || b[0] != 94u8 || b[n - 1] != 36u8 {
            self.push_error(Issue::PatternAnchors);
            return Some(Vec::new());
        }
        let ghost pv = byte_chars(b@.subrange(1, n - 1));
        let mut p: Vec<char> = Vec::new();
        let mut k: usize = 1;
        while k < n - 1
            invariant
                1 <= k <= n - 1,
                n == b@.len(),
                p@ == byte_chars(b@.subrange(1, k as int)),
            decreases n - 1 - k,
        {
            p.push(b[k] as char);
            assert(byte_chars(b@.subrange(1, k + 1)) =~= byte_chars(b@.subrange(1, k as int)).push(
                b@[k as int] as char,
            ));
            k += 1;
        }
        let ghost c0 = self@;
        let mut first: Vec<(usize, Vec<PItem>)> = Vec::new();
        let fresh: Vec<PItem> = Vec::new();
        let ghost entry = (0usize, fresh);
        first.push((0, fresh));
        let mut st = PatState {
            idx: 0,
            frames: first,
            subs: Vec::new(),
            next_id: 0,
            result: None,
            stalled: false,
        };
        let ghost st0 = pat_view(self@, st);
        proof {
            assert(items_view(entry.1@) =~= Seq::<ItemV>::empty());
            assert(st0.frames =~= seq![(0int, Seq::<ItemV>::empty())]);
            assert(rules_view(st.subs@) =~= Seq::<(Seq<char>, Seq<char>)>::empty());
        }
        while st.result.is_none() && !st.stalled
            invariant
                p@ == pv,
                pat_wf(p@.len() as int, st),
                st.result is None ==> st.frames@.len() > 0,
                st.stalled ==> st.result is None,
                pat_run(pv, name@, pat_view(self@, st)) == pat_run(pv, name@, st0),
            decreases p@.len() - st.idx, st.frames@.len() + (if st.stalled {
                0int
            } else {
                1int
            }),
        {
            proof {
                lemma_pat_step(pv, name@, pat_view(self@, st));
            }
            self.pat_step_exec(&p, name, &mut st);
        }
        match st.result {
            Some(item) => {
                let body = item_rule_exec(&item);
                let mut content: Vec<char> = chars_of("\"\\\"\" (");
                extend_chars(&mut content, &body);
                extend_chars(&mut content, &chars_of(") \"\\\"\" space"));
                assert(content@ =~= pattern_rule(body@));
                Some(self.add_rule(name, &content))
            },
            None => None,
        }
    }
}


impl SchemaConverter {
    /// Whether `.` in a pattern matches line breaks too.
    pub fn dotall(&self) -> (r: bool)
        ensures
            r == self@.dotall,
    {
        self.dotall
    }

    /// Whether a rule named `name` is there.
    pub fn has_rule(&self, name: &[char]) -> (r: bool)
        ensures
            r == (crate::schema::rule_index(self@.rules, name@) >= 0),
    {
        let ghost rv = rules_view(self.rules@);
        let mut i: usize = self.rules.len();
        assert(rv.take(i as int) =~= rv);
        while i > 0
            invariant
                i <= self.rules@.len(),
                rv == rules_view(self.rules@),
                crate::schema::rule_index(rv, name@) == crate::schema::rule_index(rv.take(i as int), name@),
            decreases i,
        {
            assert(rv.take(i as int).last() == rv[i - 1]);
            assert(rv.take(i as int).drop_last() =~= rv.take(i - 1));
            if chars_eq(&self.rules[i - 1].0, name) {
                return true;
            }
            i -= 1;
        }
        false
    }

    /// Records an error with the text `t`.
    pub fn push_error_text(&mut self, t: Vec<char>)
        ensures
            final(self)@ == (ConvV { errors: old(self)@.errors.push(t@), ..old(self)@ }),
    {
        let ghost before = self.errors@;
        self.errors.push(t);
        assert(texts_view(self.errors@) =~= texts_view(before).push(t@));
    }
}

} // verus!
