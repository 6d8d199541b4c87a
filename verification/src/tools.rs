//! Finding, in a chat template, the text that opens a tool call.

use vstd::prelude::*;
use crate::errtypes::{trim, trim_chars};
use crate::text::{
    chars_of, contains_seq, find_chars, find_index, lemma_find_index, matches_at, slice_chars,
    starts_with, starts_with_chars, string_from,
};
use crate::thinking::{trim_start, trim_start_chars};

verus! {

broadcast use vstd::string::group_string_axioms;

/// `s` with every `\r\n` made `\n`.
pub open spec fn replace_crlf(s: Seq<char>) -> Seq<char>
    decreases s.len(),
{
    if s.len() == 0 {
        s
    } else if s.len() >= 2 && s[0] == '\r' && s[1] == '\n' {
        seq!['\n'] + replace_crlf(s.skip(2))
    } else {
        seq![s[0]] + replace_crlf(s.drop_first())
    }
}

fn replace_crlf_chars(v: &[char]) -> (out: Vec<char>)
    ensures
        out@ == replace_crlf(v@),
{
    let mut out: Vec<char> = Vec::new();
    let mut i: usize = 0;
    assert(v@.skip(0) == v@);
    while i < v.len()
        invariant
            i <= v@.len(),
            replace_crlf(v@) == out@ + replace_crlf(v@.skip(i as int)),
        decreases v@.len() - i,
    {
        let ghost rest = v@.skip(i as int);
        if i + 1 < v.len() && v[i] == '\r' && v[i + 1] == '\n' {
            assert(rest[0] == '\r' && rest[1] == '\n');
            assert(rest.skip(2) == v@.skip(i + 2));
            out.push('\n');
            i += 2;
        } else {
            assert(rest.drop_first() == v@.skip(i + 1));
            assert(rest[0] == v@[i as int]);
            out.push(v[i]);
            i += 1;
        }
    }
    assert(v@.skip(i as int).len() == 0);
    out
}

/// The tag in a piece of template text: the text before its first `{`,
/// trimmed; none when that is empty.
pub open spec fn spec_extract_tag(text: Seq<char>) -> Option<Seq<char>> {
    if trim(text).len() == 0 {
        None
    } else {
        let trimmed = trim_start(text);
        let k = find_index(trimmed, seq!['{']);
        let cut = if k < 0 { trimmed.len() as int } else { k };
        let tag = trim(trimmed.take(cut));
        if tag.len() == 0 {
            None
        } else {
            Some(tag)
        }
    }
}

/// The tag in a piece of template text, if any.
pub fn extract_tag(text: &[char]) -> (r: Option<Vec<char>>)
    ensures
        match r {
            Some(t) => spec_extract_tag(text@) == Some(t@),
            None => spec_extract_tag(text@).is_none(),
        },
{
    if trim_chars(text).len() == 0 {
        return None;
    }
    let trimmed = trim_start_chars(text);
    let brace: Vec<char> = vec!['{'];
    assert(brace@ == seq!['{']);
    proof {
        lemma_find_index(trimmed@, brace@);
    }
    let cut = match find_chars(&trimmed, &brace) {
        Some(k) => k,
        None => trimmed.len(),
    };
    let tag = trim_chars(&slice_chars(&trimmed, 0, cut));
    assert(trimmed@.subrange(0, cut as int) == trimmed@.take(cut as int));
    if tag.len() == 0 {
        None
    } else {
        Some(tag)
    }
}

/// The first `{{ ... }}` action at or after `i`, if closed: where it
/// starts and where its `}}` starts.
pub open spec fn open_at(s: Seq<char>, i: int) -> bool {
    starts_with(s.skip(i), seq!['{', '{'])
}

/// Scans template text after `i` for the tag of a tool call: the first
/// text that is not only whitespace gives it (none when it starts with
/// `{`), an `if`, `range` or `with` block is searched and ends the scan,
/// an `else` block is searched and the scan goes on after it, an `end`
/// ends the scan.  Returns the tag found, if any, and how far the scan went.
pub open spec fn scan_from(s: Seq<char>, i: int) -> (Option<Seq<char>>, int)
    decreases s.len() - i,
{
    if i < 0 || i >= s.len() {
        (None, i)
    } else if open_at(s, i) {
        let k = find_index(s.skip(i + 2), seq!['}', '}']);
        proof {
            lemma_find_index(s.skip(i + 2), seq!['}', '}']);
        }
        if k < 0 {
            (None, s.len() as int)
        } else {
            let end = i + 2 + k;
            let action = trim(s.subrange(i + 2, end));
            let next = end + 2;
            if starts_with(action, "if"@) || starts_with(action, "range"@) || starts_with(
                action,
                "with"@,
            ) {
                if next > s.len() {
                    (None, next)
                } else {
                    let (text, consumed) = scan_from(s.skip(next), 0);
                    (text, next + consumed)
                }
            } else if starts_with(action, "else"@) {
                if next > s.len() {
                    (None, next)
                } else {
                    let (text, consumed) = scan_from(s.skip(next), 0);
                    if text.is_some() {
                        (text, next + consumed)
                    } else if consumed < 0 || next + consumed > s.len() {
                        (None, next + consumed)
                    } else {
                        scan_from(s, next + consumed)
                    }
                }
            } else if starts_with(action, "end"@) {
                (None, next)
            } else {
                scan_from(s, next)
            }
        }
    } else {
        let n = find_index(s.skip(i), seq!['{', '{']);
        proof {
            lemma_find_index(s.skip(i), seq!['{', '{']);
            assert(s.skip(i).subrange(0, 2) == s.skip(i).take(2));
        }
        if n >= 0 {
            if trim(s.subrange(i, i + n)).len() > 0 {
                (spec_extract_tag(s.subrange(i, i + n)), i + n)
            } else {
                scan_from(s, i + n)
            }
        } else {
            (spec_extract_tag(s.skip(i)), s.len() as int)
        }
    }
}

/// `scan_from` over the whole text.
pub open spec fn spec_scan_block(s: Seq<char>) -> (Option<Seq<char>>, int) {
    scan_from(s, 0)
}

fn scan_from_exec(s: &[char], i: usize) -> (r: (Option<Vec<char>>, usize))
    requires
        i <= s@.len(),
        s@.len() + 4 < usize::MAX,
    ensures
        match r.0 {
            Some(t) => scan_from(s@, i as int).0 == Some(t@),
            None => scan_from(s@, i as int).0.is_none(),
        },
        r.1 as int == scan_from(s@, i as int).1,
        r.1 <= s@.len(),
    decreases s@.len() - i,
{
    if i >= s.len() {
        return (None, i);
    }
    let rest = slice_chars(s, i, s.len());
    assert(rest@ == s@.skip(i as int));
    let open: Vec<char> = vec!['{', '{'];
    let close: Vec<char> = vec!['}', '}'];
    if starts_with_chars(&rest, &open) {
        let inner = slice_chars(s, i + 2, s.len());
        assert(inner@ == s@.skip(i + 2));
        proof {
            lemma_find_index(inner@, close@);
        }
        match find_chars(&inner, &close) {
            None => (None, s.len()),
            Some(k) => {
                assert(matches_at(inner@, close@, k as int));
                let end = i + 2 + k;
                let action = trim_chars(&slice_chars(s, i + 2, end));
                let next = end + 2;
                let if_w: Vec<char> = vec!['i', 'f'];
                let range_w: Vec<char> = vec!['r', 'a', 'n', 'g', 'e'];
                let with_w: Vec<char> = vec!['w', 'i', 't', 'h'];
                let else_w: Vec<char> = vec!['e', 'l', 's', 'e'];
                let end_w: Vec<char> = vec!['e', 'n', 'd'];
                proof {
                    reveal_strlit("if");
                    reveal_strlit("range");
                    reveal_strlit("with");
                    reveal_strlit("else");
                    reveal_strlit("end");
                    assert(if_w@ == "if"@);
                    assert(range_w@ == "range"@);
                    assert(with_w@ == "with"@);
                    assert(else_w@ == "else"@);
                    assert(end_w@ == "end"@);
                }
                if starts_with_chars(&action, &if_w) || starts_with_chars(&action, &range_w)
                    || starts_with_chars(&action, &with_w) {
                    if next > s.len() {
                        return (None, next);
                    }
                    let tail = slice_chars(s, next, s.len());
                    assert(tail@ == s@.skip(next as int));
                    let (text, consumed) = scan_from_exec(&tail, 0);
                    (text, next + consumed)
                } else if starts_with_chars(&action, &else_w) {
                    if next > s.len() {
                        return (None, next);
                    }
                    let tail = slice_chars(s, next, s.len());
                    assert(tail@ == s@.skip(next as int));
                    let (text, consumed) = scan_from_exec(&tail, 0);
                    if text.is_some() {
                        return (text, next + consumed);
                    }
                    if consumed > s.len() - next {
                        return (None, next + consumed);
                    }
                    scan_from_exec(s, next + consumed)
                } else if starts_with_chars(&action, &end_w) {
                    (None, next)
                } else {
                    if next > s.len() {
                        return (None, next);
                    }
                    scan_from_exec(s, next)
                }
            },
        }
    } else {
        proof {
            lemma_find_index(rest@, open@);
        }
        match find_chars(&rest, &open) {
            Some(n) => {
                let piece = slice_chars(s, i, i + n);
                if trim_chars(&piece).len() > 0 {
                    (extract_tag(&piece), i + n)
                } else {
                    scan_from_exec(s, i + n)
                }
            },
            None => (extract_tag(&rest), s.len()),
        }
    }
}

/// The text that opens a tool call in template text `s`, and how far the
/// scan went.
pub fn scan_block(s: &[char]) -> (r: (Option<Vec<char>>, usize))
    requires
        s@.len() + 4 < usize::MAX,
    ensures
        match r.0 {
            Some(t) => spec_scan_block(s@).0 == Some(t@),
            None => spec_scan_block(s@).0.is_none(),
        },
        r.1 as int == spec_scan_block(s@).1,
{
    scan_from_exec(s, 0)
}

/// Looks for the first action from `pos` on that mentions `.ToolCalls`
/// and takes the tag from the text after it; `{` when there is none.
pub open spec fn parse_tag_from(t: Seq<char>, pos: int) -> Seq<char>
    decreases t.len() - pos,
{
    if pos < 0 || pos > t.len() {
        seq!['{']
    } else {
        let rest = t.skip(pos);
        let a = find_index(rest, seq!['{', '{']);
        if a < 0 {
            seq!['{']
        } else {
            let start = pos + a;
            let b = find_index(t.skip(start + 2), seq!['}', '}']);
            if b < 0 {
                seq!['{']
            } else {
                proof {
                    lemma_find_index(rest, seq!['{', '{']);
                    lemma_find_index(t.skip(start + 2), seq!['}', '}']);
                }
                let end = start + 2 + b;
                let expr = t.subrange(start + 2, end);
                if contains_seq(expr, ".ToolCalls"@) {
                    match spec_scan_block(t.skip(end + 2)).0 {
                        Some(tag) => tag,
                        None => seq!['{'],
                    }
                } else {
                    parse_tag_from(t, end + 2)
                }
            }
        }
    }
}

/// The text that opens a tool call in a template: the first text that is
/// not only whitespace after the first action naming `.ToolCalls`, cut
/// before any `{` and trimmed; `{` when that leaves nothing or there is no
/// such text before a nested block ends the search.
pub open spec fn spec_parse_tag(tmpl: Seq<char>) -> Seq<char> {
    if tmpl.len() == 0 {
        seq!['{']
    } else {
        parse_tag_from(replace_crlf(tmpl), 0)
    }
}

proof fn lemma_replace_crlf_len(s: Seq<char>)
    ensures
        replace_crlf(s).len() <= s.len(),
    decreases s.len(),
{
    if s.len() >= 2 && s[0] == '\r' && s[1] == '\n' {
        lemma_replace_crlf_len(s.skip(2));
    } else if s.len() > 0 {
        lemma_replace_crlf_len(s.drop_first());
    }
}

/// The text that opens a tool call in template `tmpl`; `{` when the
/// template gives none.
pub fn parse_tag(tmpl: &str) -> (r: String)
    requires
        tmpl@.len() + 4 < usize::MAX,
    ensures
        r@ == spec_parse_tag(tmpl@),
{
    let raw = chars_of(tmpl);
    let brace: Vec<char> = vec!['{'];
    if raw.len() == 0 {
        return string_from(&brace);
    }
    let t = replace_crlf_chars(&raw);
    proof {
        lemma_replace_crlf_len(raw@);
    }
    let open: Vec<char> = vec!['{', '{'];
    let close: Vec<char> = vec!['}', '}'];
    let tool_calls = chars_of(".ToolCalls");
    let mut pos: usize = 0;
    while pos <= t.len()
        invariant
            pos <= t@.len() + 2,
            t@.len() + 4 < usize::MAX,
            t@ == replace_crlf(tmpl@),
            open@ == seq!['{', '{'],
            close@ == seq!['}', '}'],
            brace@ == seq!['{'],
            tool_calls@ == ".ToolCalls"@,
            tmpl@.len() != 0,
            spec_parse_tag(tmpl@) == parse_tag_from(t@, pos as int),
        decreases t@.len() + 1 - pos,
    {
        let rest = slice_chars(&t, pos, t.len());
        assert(rest@ == t@.skip(pos as int));
        proof {
            lemma_find_index(rest@, open@);
        }
        let a = match find_chars(&rest, &open) {
            None => {
                return string_from(&brace);
            },
            Some(a) => a,
        };
        assert(matches_at(rest@, open@, a as int));
        let start = pos + a;
        let inner = slice_chars(&t, start + 2, t.len());
        assert(inner@ == t@.skip(start + 2));
        proof {
            lemma_find_index(inner@, close@);
        }
        let b = match find_chars(&inner, &close) {
            None => {
                return string_from(&brace);
            },
            Some(b) => b,
        };
        assert(matches_at(inner@, close@, b as int));
        let end = start + 2 + b;
        let expr = slice_chars(&t, start + 2, end);
        proof {
            lemma_find_index(expr@, tool_calls@);
        }
        if find_chars(&expr, &tool_calls).is_some() {
            let after = slice_chars(&t, end + 2, t.len());
            assert(after@ == t@.skip(end + 2));
            let (tag, _) = scan_block(&after);
            return match tag {
                Some(tag) => string_from(&tag),
                None => string_from(&brace),
            };
        }
        pos = end + 2;
    }
    string_from(&brace)
}

/// The first position where `needle` occurs in `haystack`; the needle must
/// not be empty.
pub fn find_subslice(haystack: &[u8], needle: &[u8]) -> (r: Option<usize>)
    requires
        needle@.len() > 0,
    ensures
        match r {
            Some(i) => i + needle@.len() <= haystack@.len() && haystack@.subrange(
                i as int,
                i + needle@.len(),
            ) == needle@ && forall|j: int|
                0 <= j < i ==> #[trigger] haystack@.subrange(j, j + needle@.len()) != needle@,
            None => forall|j: int|
                0 <= j && j + needle@.len() <= haystack@.len() ==> #[trigger] haystack@.subrange(
                    j,
                    j + needle@.len(),
                ) != needle@,
        },
{
    let n = needle.len();
    if haystack.len() < n {
        return None;
    }
    assert(n >= 1);
    let mut i: usize = 0;
    while i < haystack.len() - n + 1
        invariant
            n == needle@.len(),
            n >= 1,
            n <= haystack@.len(),
            haystack@.len() <= usize::MAX,
            forall|j: int| 0 <= j < i ==> #[trigger] haystack@.subrange(j, j + n) != needle@,
        decreases haystack@.len() - n + 1 - i,
    {
        let mut k: usize = 0;
        let mut same = true;
        while k < n
            invariant
                n == needle@.len(),
                i + n <= haystack@.len(),
                haystack@.len() <= usize::MAX,
                k <= n,
                same == forall|m: int| 0 <= m < k ==> haystack@[i + m] == needle@[m],
            decreases n - k,
        {
            if haystack[i + k] != needle[k] {
                same = false;
            }
            k += 1;
        }
        if same {
            assert(haystack@.subrange(i as int, i + n) =~= needle@);
            return Some(i);
        } else {
            assert(haystack@.subrange(i as int, i + n) != needle@) by {
                let m = choose|m: int| 0 <= m < n && haystack@[i + m] != needle@[m];
                assert(haystack@.subrange(i as int, i + n)[m] == haystack@[i + m]);
            }
        }
        i += 1;
    }
    None
}

} // verus!
