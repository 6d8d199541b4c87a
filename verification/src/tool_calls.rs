//! Recognizing tool calls in streamed model output: where the opening tag
//! stands, which tool is named, where a JSON object ends, what its
//! arguments are, and when a bracketed list of calls is complete.

use vstd::prelude::*;
use crate::json::{Json, JsonV, jv, jvs, jentries, entries_get, member};
use crate::tools::find_subslice;
use crate::text::chars_of;
use crate::errtypes::trim_chars;
use vstd::string::StringSliceAdditionalSpecFns;
use vstd::utf8::{valid_utf8, decode_utf8, encode_utf8};

verus! {

/// The first index from `j` on where `n` occurs in `h`, or -1.
pub open spec fn first_match(h: Seq<u8>, n: Seq<u8>, j: int) -> int
    decreases h.len() + 1 - j,
{
    if j < 0 || j > h.len() || j + n.len() > h.len() {
        -1
    } else if h.subrange(j, j + n.len()) == n {
        j
    } else {
        first_match(h, n, j + 1)
    }
}

proof fn lemma_first_match_some(h: Seq<u8>, n: Seq<u8>, j: int, i: int)
    requires
        0 <= j <= i,
        i + n.len() <= h.len(),
        h.subrange(i, i + n.len()) == n,
        forall|k: int| j <= k < i ==> #[trigger] h.subrange(k, k + n.len()) != n,
    ensures
        first_match(h, n, j) == i,
    decreases i - j,
{
    if j < i {
        lemma_first_match_some(h, n, j + 1, i);
    }
}

proof fn lemma_first_match_none(h: Seq<u8>, n: Seq<u8>, j: int)
    requires
        0 <= j <= h.len() + 1,
        forall|k: int| j <= k && k + n.len() <= h.len() ==> #[trigger] h.subrange(k, k + n.len()) != n,
    ensures
        first_match(h, n, j) == -1,
    decreases h.len() + 1 - j,
{
    if j <= h.len() && j + n.len() <= h.len() {
        lemma_first_match_none(h, n, j + 1);
    }
}

/// Where the first occurrence of `needle` starts, or -1.
pub fn first_match_exec(haystack: &[u8], needle: &[u8]) -> (r: isize)
    requires
        needle@.len() > 0,
        haystack@.len() < isize::MAX,
    ensures
        r as int == first_match(haystack@, needle@, 0),
{
    match find_subslice(haystack, needle) {
        Some(i) => {
            proof {
                lemma_first_match_some(haystack@, needle@, 0, i as int);
            }
            i as isize
        },
        None => {
            proof {
                lemma_first_match_none(haystack@, needle@, 0);
            }
            -1
        },
    }
}

// ---------------------------------------------------------------------------
// The opening tag
// ---------------------------------------------------------------------------

/// The longest start of `tag`, at most `i` bytes long, that ends `buf`:
/// where it starts in `buf`, or -1.
pub open spec fn partial_tag(buf: Seq<u8>, tag: Seq<u8>, i: int) -> int
    decreases i,
{
    if i < 1 {
        -1
    } else if i <= buf.len() && i <= tag.len() && buf.subrange(buf.len() - i, buf.len() as int)
        == tag.take(i) {
        buf.len() - i
    } else {
        partial_tag(buf, tag, i - 1)
    }
}

/// Where the tag starts in `buf` and whether it is all there: its first
/// occurrence, else where the longest start of it ends `buf` (not all
/// there), else -1.
pub open spec fn find_tag(buf: Seq<u8>, tag: Seq<u8>) -> (int, bool) {
    let i = first_match(buf, tag, 0);
    if i >= 0 {
        (i, true)
    } else {
        let m = if buf.len() < tag.len() {
            buf.len() as int
        } else {
            tag.len() as int
        };
        (partial_tag(buf, tag, m), false)
    }
}


fn ends_with_prefix(buf: &[u8], tag: &[u8], i: usize) -> (r: bool)
    requires
        1 <= i <= buf@.len(),
        i <= tag@.len(),
    ensures
        r == (buf@.subrange(buf@.len() - i, buf@.len() as int) == tag@.take(i as int)),
{
    let n = buf.len();
    let base = n - i;
    let mut k: usize = 0;
    while k < i
        invariant
            n == buf@.len(),
            base == buf@.len() - i,
            i <= tag@.len(),
            k <= i,
            forall|m: int| 0 <= m < k ==> buf@[base + m] == tag@[m],
        decreases i - k,
    {
        if buf[base + k] != tag[k] {
            assert(buf@.subrange(base as int, buf@.len() as int)[k as int] != tag@.take(i as int)[k as int]);
            return false;
        }
        k += 1;
    }
    assert(buf@.subrange(base as int, buf@.len() as int) =~= tag@.take(i as int));
    true
}

/// Where the tag starts in `buf` and whether it is all there; see
/// `find_tag`.
pub fn find_tag_exec(buf: &[u8], tag: &[u8]) -> (r: (isize, bool))
    requires
        tag@.len() > 0,
        buf@.len() < isize::MAX,
    ensures
        (r.0 as int, r.1) == find_tag(buf@, tag@),
{
    let i = first_match_exec(buf, tag);
    if i >= 0 {
        return (i, true);
    }
    let m = if buf.len() < tag.len() {
        buf.len()
    } else {
        tag.len()
    };
    let mut k = m;
    while k >= 1
        invariant
            k <= m,
            m <= buf@.len(),
            m <= tag@.len(),
            first_match(buf@, tag@, 0) < 0,
            m == (if buf@.len() < tag@.len() {
                buf@.len()
            } else {
                tag@.len()
            }),
            buf@.len() < isize::MAX,
            partial_tag(buf@, tag@, m as int) == partial_tag(buf@, tag@, k as int),
        decreases k,
    {
        if ends_with_prefix(buf, tag, k) {
            assert(partial_tag(buf@, tag@, k as int) == buf@.len() - k);
            return ((buf.len() - k) as isize, false);
        }
        k -= 1;
    }
    (-1, false)
}

// ---------------------------------------------------------------------------
// A finished list or object
// ---------------------------------------------------------------------------

/// The bracket that closes `open`, for the tags `{` and `[`.
pub open spec fn closer(tag: Seq<char>) -> Option<(u8, u8)> {
    if tag == seq!['{'] {
        Some((123u8, 125u8))
    } else if tag == seq!['['] {
        Some((91u8, 93u8))
    } else {
        None
    }
}

/// The count of open brackets after the bytes before `i` (`open` counts
/// up, `close` down), and whether a `close` already brought it to zero.
pub open spec fn scan_depth(buf: Seq<u8>, open: u8, close: u8, i: int) -> (int, bool)
    decreases i,
{
    if i <= 0 {
        (0, false)
    } else {
        let (d, done) = scan_depth(buf, open, close, i - 1);
        if done {
            (d, true)
        } else if buf[i - 1] == open {
            (d + 1, false)
        } else if buf[i - 1] == close {
            (d - 1, d - 1 == 0)
        } else {
            (d, false)
        }
    }
}

/// Whether the calls that started with the tag `{` or `[` are complete:
/// some closing bracket brings the count of open brackets back to zero.
pub open spec fn calls_done(tag: Seq<char>, buf: Seq<u8>) -> bool {
    match closer(tag) {
        Some((open, close)) => scan_depth(buf, open, close, buf.len() as int).1,
        None => false,
    }
}

/// Whether the calls are complete; see `calls_done`.
pub fn calls_done_exec(tag: &[char], buf: &[u8]) -> (r: bool)
    requires
        buf@.len() < isize::MAX,
    ensures
        r == calls_done(tag@, buf@),
{
    let (open, close): (u8, u8) = if tag.len() == 1 && tag[0] == '{' {
        assert(tag@ =~= seq!['{']);
        (123, 125)
    } else if tag.len() == 1 && tag[0] == '[' {
        assert(tag@ =~= seq!['[']);
        (91, 93)
    } else {
        assert(tag@ != seq!['{'] && tag@ != seq!['[']) by {
            if tag@ == seq!['{'] || tag@ == seq!['['] {
                assert(tag@.len() == 1);
            }
        }
        return false;
    };
    let n = buf.len();
    let mut count: isize = 0;
    let mut i: usize = 0;
    while i < n
        invariant
            n == buf@.len(),
            n < isize::MAX,
            i <= n,
            scan_depth(buf@, open, close, i as int) == (count as int, false),
            -(i as int) <= count <= i,
            closer(tag@) == Some((open, close)),
        decreases n - i,
    {
        let c = buf[i];
        if c == open {
            count = count + 1;
        } else if c == close {
            count = count - 1;
            if count == 0 {
                proof {
                    lemma_depth_stays(buf@, open, close, i as int + 1, n as int);
                }
                return true;
            }
        }
        i += 1;
    }
    false
}

proof fn lemma_depth_stays(buf: Seq<u8>, open: u8, close: u8, i: int, j: int)
    requires
        0 <= i <= j <= buf.len(),
        scan_depth(buf, open, close, i).1,
    ensures
        scan_depth(buf, open, close, j).1,
    decreases j - i,
{
    if i < j {
        lemma_depth_stays(buf, open, close, i, j - 1);
    }
}


// ---------------------------------------------------------------------------
// The tool named
// ---------------------------------------------------------------------------

/// Whether `buf` ends with the start, but not the whole, of a tool's name:
/// more output may still name that tool.
pub open spec fn name_pending(tools: Seq<Seq<u8>>, buf: Seq<u8>) -> bool {
    exists|i: int, k: int|
        1 <= i <= buf.len() && 0 <= k < tools.len() && i < tools[k].len() && #[trigger] tools[k].take(
            i,
        ) == buf.subrange(buf.len() - i, buf.len() as int)
}

/// The tool whose name occurs first in `buf`, looking from tool `k` on with
/// `best` (tool and start) so far; at the same start the longer name wins,
/// and among names as long the earlier tool.
pub open spec fn pick_tool(tools: Seq<Seq<u8>>, buf: Seq<u8>, k: int, best: Option<(int, int)>) -> Option<
    (int, int),
>
    decreases tools.len() - k,
{
    if k < 0 || k >= tools.len() {
        best
    } else {
        let pos = first_match(buf, tools[k], 0);
        if pos < 0 {
            pick_tool(tools, buf, k + 1, best)
        } else {
            match best {
                Some((b, start)) => if pos > start || (pos == start && tools[k].len() <= tools[b].len()) {
                    pick_tool(tools, buf, k + 1, best)
                } else {
                    pick_tool(tools, buf, k + 1, Some((k, pos)))
                },
                None => pick_tool(tools, buf, k + 1, Some((k, pos))),
            }
        }
    }
}

/// The tool named in `buf` and the index just after its name: none while
/// `buf` is empty or may still be naming a tool.
pub open spec fn find_tool(tools: Seq<Seq<u8>>, buf: Seq<u8>) -> Option<(int, int)> {
    if buf.len() == 0 || name_pending(tools, buf) {
        None
    } else {
        match pick_tool(tools, buf, 0, None) {
            Some((b, start)) => Some((b, start + tools[b].len())),
            None => None,
        }
    }
}

pub open spec fn bytes_view(v: Seq<Vec<u8>>) -> Seq<Seq<u8>> {
    v.map_values(|x: Vec<u8>| x@)
}

/// The tool named in `buf` and the index just after its name; see
/// `find_tool`.
pub fn find_tool_exec(tools: &Vec<Vec<u8>>, buf: &[u8]) -> (r: Option<(usize, usize)>)
    requires
        forall|k: int| 0 <= k < tools@.len() ==> #[trigger] tools@[k]@.len() > 0,
        buf@.len() < isize::MAX,
    ensures
        match r {
            Some((b, e)) => find_tool(bytes_view(tools@), buf@) == Some((b as int, e as int)),
            None => find_tool(bytes_view(tools@), buf@) is None,
        },
{
    let ghost tv = bytes_view(tools@);
    let n = buf.len();
    if n == 0 {
        return None;
    }
    let mut longest: usize = 0;
    let mut k: usize = 0;
    while k < tools.len()
        invariant
            k <= tools@.len(),
            forall|j: int| 0 <= j < k ==> #[trigger] tools@[j]@.len() <= longest,
        decreases tools@.len() - k,
    {
        if tools[k].len() > longest {
            longest = tools[k].len();
        }
        k += 1;
    }
    let m = if n < longest {
        n
    } else {
        longest
    };
    let mut i: usize = 1;
    while i <= m
        invariant
            1 <= i <= m + 1,
            m <= n,
            n == buf@.len(),
            n < isize::MAX,
            tv == bytes_view(tools@),
            forall|j: int| 0 <= j < tools@.len() ==> #[trigger] tools@[j]@.len() <= longest,
            m == (if n < longest {
                n
            } else {
                longest
            }),
            forall|ii: int, kk: int|
                1 <= ii < i && 0 <= kk < tv.len() && ii < tv[kk].len() ==> #[trigger] tv[kk].take(ii)
                    != buf@.subrange(buf@.len() - ii, buf@.len() as int),
        decreases m + 1 - i,
    {
        let mut t: usize = 0;
        while t < tools.len()
            invariant
                1 <= i <= m,
                m <= n,
                n == buf@.len(),
                tv == bytes_view(tools@),
                t <= tools@.len(),
                forall|ii: int, kk: int|
                    1 <= ii < i && 0 <= kk < tv.len() && ii < tv[kk].len() ==> #[trigger] tv[kk].take(
                        ii,
                    ) != buf@.subrange(buf@.len() - ii, buf@.len() as int),
                forall|kk: int|
                    0 <= kk < t && i < tv[kk].len() ==> #[trigger] tv[kk].take(i as int)
                        != buf@.subrange(buf@.len() - i, buf@.len() as int),
            decreases tools@.len() - t,
        {
            assert(tv[t as int] == tools@[t as int]@);
            if i < tools[t].len() && ends_with_prefix(buf, &tools[t], i) {
                assert(name_pending(tv, buf@));
                return None;
            }
            t += 1;
        }
        i += 1;
    }
    assert(!name_pending(tv, buf@)) by {
        if name_pending(tv, buf@) {
            let (ii, kk) = choose|ii: int, kk: int|
                1 <= ii <= buf@.len() && 0 <= kk < tv.len() && ii < tv[kk].len() && #[trigger] tv[kk].take(
                    ii,
                ) == buf@.subrange(buf@.len() - ii, buf@.len() as int);
            assert(tv[kk] == tools@[kk]@);
        }
    }
    let mut best: Option<(usize, usize)> = None;
    let mut t: usize = 0;
    while t < tools.len()
        invariant
            t <= tools@.len(),
            tv == bytes_view(tools@),
            n == buf@.len(),
            n < isize::MAX,
            forall|kk: int| 0 <= kk < tools@.len() ==> #[trigger] tools@[kk]@.len() > 0,
            pick_tool(tv, buf@, 0, None) == pick_tool(tv, buf@, t as int, match best {
                Some((b, s)) => Some((b as int, s as int)),
                None => None,
            }),
            match best {
                Some((b, s)) => b < t && s + tv[b as int].len() <= n,
                None => true,
            },
        decreases tools@.len() - t,
    {
        assert(tv[t as int] == tools@[t as int]@);
        let pos = first_match_exec(buf, &tools[t]);
        if pos >= 0 {
            proof {
                lemma_first_match_bound(buf@, tv[t as int], 0);
            }
            let p = pos as usize;
            match best {
                Some((b, s)) => {
                    if p > s || (p == s && tools[t].len() <= tools[b].len()) {
                    } else {
                        best = Some((t, p));
                    }
                },
                None => {
                    best = Some((t, p));
                },
            }
        }
        t += 1;
    }
    match best {
        Some((b, s)) => Some((b, s + tools[b].len())),
        None => None,
    }
}

proof fn lemma_first_match_bound(h: Seq<u8>, n: Seq<u8>, j: int)
    ensures
        first_match(h, n, j) >= 0 ==> first_match(h, n, j) + n.len() <= h.len(),
    decreases h.len() + 1 - j,
{
    if !(j < 0 || j > h.len() || j + n.len() > h.len()) && h.subrange(j, j + n.len()) != n {
        lemma_first_match_bound(h, n, j + 1);
    }
}


// ---------------------------------------------------------------------------
// JSON objects in the output
// ---------------------------------------------------------------------------

/// Where scanning for a JSON object stands: the next index, where the
/// outermost `{` started (-1 for none), how many braces are open, and
/// whether a string or an escape is going on.
pub struct ScanV {
    pub i: int,
    pub start: int,
    pub braces: int,
    pub in_string: bool,
    pub escaped: bool,
}

/// The next balanced `{...}` from where `st` stands (braces in strings and
/// escaped characters do not count; a stray `}` is forgotten): where it
/// starts and ends, and where scanning goes on after it.
pub open spec fn next_object(buf: Seq<u8>, st: ScanV) -> Option<(int, int, ScanV)>
    decreases buf.len() - st.i,
{
    if st.i < 0 || st.i >= buf.len() {
        None
    } else {
        let i = st.i;
        let c = buf[i];
        let nx = ScanV { i: i + 1, ..st };
        if st.escaped {
            next_object(buf, ScanV { escaped: false, ..nx })
        } else if c == 92u8 {
            next_object(buf, ScanV { escaped: true, ..nx })
        } else if c == 34u8 {
            next_object(buf, ScanV { in_string: !st.in_string, ..nx })
        } else if st.in_string {
            next_object(buf, nx)
        } else if c == 123u8 {
            next_object(
                buf,
                ScanV {
                    start: if st.braces == 0 {
                        i
                    } else {
                        st.start
                    },
                    braces: st.braces + 1,
                    ..nx
                },
            )
        } else if c == 125u8 {
            let b = st.braces - 1;
            if b == 0 && st.start != -1 {
                Some((st.start, i, ScanV { start: -1, braces: 0, ..nx }))
            } else {
                next_object(
                    buf,
                    ScanV {
                        braces: if b < 0 {
                            0
                        } else {
                            b
                        },
                        ..nx
                    },
                )
            }
        } else {
            next_object(buf, nx)
        }
    }
}

/// Where scanning for a JSON object stands.
#[derive(Clone, Copy)]
pub struct ObjScan {
    i: usize,
    start: isize,
    braces: isize,
    in_string: bool,
    escaped: bool,
}

impl View for ObjScan {
    type V = ScanV;

    closed spec fn view(&self) -> ScanV {
        ScanV {
            i: self.i as int,
            start: self.start as int,
            braces: self.braces as int,
            in_string: self.in_string,
            escaped: self.escaped,
        }
    }
}

impl ObjScan {
    /// Scanning from the start, outside any string or object.
    pub fn new() -> (s: Self)
        ensures
            s@ == (ScanV { i: 0, start: -1, braces: 0, in_string: false, escaped: false }),
    {
        ObjScan { i: 0, start: -1, braces: 0, in_string: false, escaped: false }
    }
}

/// The next balanced `{...}` in `buf` from `st`; see `next_object`.
pub fn next_object_exec(buf: &[u8], st: &ObjScan) -> (r: Option<(usize, usize, ObjScan)>)
    requires
        buf@.len() < isize::MAX,
        st@.i <= buf@.len(),
        0 <= st@.braces <= st@.i,
        -1 <= st@.start < st@.i || st@.start == -1,
    ensures
        match r {
            Some((s, e, nx)) => next_object(buf@, st@) == Some((s as int, e as int, nx@)) && s <= e < buf@.len()
                && nx@.i <= buf@.len() && 0 <= nx@.braces <= nx@.i && (-1 <= nx@.start < nx@.i || nx@.start == -1),
            None => next_object(buf@, st@) is None,
        },
{
    let n = buf.len();
    let mut i = st.i;
    let mut start = st.start;
    let mut braces = st.braces;
    let mut in_string = st.in_string;
    let mut escaped = st.escaped;
    while i < n
        invariant
            n == buf@.len(),
            n < isize::MAX,
            i <= n,
            0 <= braces <= i,
            -1 <= start < i || start == -1,
            next_object(buf@, st@) == next_object(
                buf@,
                ScanV { i: i as int, start: start as int, braces: braces as int, in_string, escaped },
            ),
        decreases n - i,
    {
        let c = buf[i];
        if escaped {
            escaped = false;
        } else if c == 92u8 {
            escaped = true;
        } else if c == 34u8 {
            in_string = !in_string;
        } else if in_string {
        } else if c == 123u8 {
            if braces == 0 {
                start = i as isize;
            }
            braces = braces + 1;
        } else if c == 125u8 {
            let b = braces - 1;
            if b == 0 && start != -1 {
                let nx = ObjScan { i: i + 1, start: -1, braces: 0, in_string, escaped };
                return Some((start as usize, i, nx));
            }
            braces = if b < 0 {
                0
            } else {
                b
            };
        }
        i = i + 1;
    }
    None
}

/// The arguments of the first tool call in an object: an object with a
/// `name` has its `arguments` (or else `parameters`) object, or none at all;
/// else the first one found among its members, in order, looking into
/// objects and the objects in arrays.
pub open spec fn find_object(e: Seq<(Seq<char>, JsonV)>) -> Option<Seq<(Seq<char>, JsonV)>>
    decreases e, 1nat,
{
    if entries_get(e, "name"@, 0) is Some {
        match entries_get(e, "arguments"@, 0) {
            Some(JsonV::Object(a)) => Some(a),
            _ => match entries_get(e, "parameters"@, 0) {
                Some(JsonV::Object(a)) => Some(a),
                _ => Some(Seq::empty()),
            },
        }
    } else {
        find_in_values(e)
    }
}

pub open spec fn find_in_values(e: Seq<(Seq<char>, JsonV)>) -> Option<Seq<(Seq<char>, JsonV)>>
    decreases e, 0nat,
{
    if e.len() == 0 {
        None
    } else {
        let found = match e[0].1 {
            JsonV::Object(m) => find_object(m),
            JsonV::Array(arr) => find_in_array(arr),
            _ => None,
        };
        match found {
            Some(r) => Some(r),
            None => find_in_values(e.drop_first()),
        }
    }
}

pub open spec fn find_in_array(arr: Seq<JsonV>) -> Option<Seq<(Seq<char>, JsonV)>>
    decreases arr, 0nat,
{
    if arr.len() == 0 {
        None
    } else {
        let found = match arr[0] {
            JsonV::Object(m) => find_object(m),
            _ => None,
        };
        match found {
            Some(r) => Some(r),
            None => find_in_array(arr.drop_first()),
        }
    }
}


/// The arguments of the first tool call in an object; see `find_object`.
pub fn find_object_exec(e: &Vec<(Vec<char>, Json)>) -> (r: Option<Vec<(Vec<char>, Json)>>)
    ensures
        match r {
            Some(a) => find_object(jentries(e@)) == Some(jentries(a@)),
            None => find_object(jentries(e@)) is None,
        },
    decreases e@, 1nat,
{
    let name = crate::text::chars_of("name");
    if crate::json::entries_lookup(e, &name).is_some() {
        match crate::json::entries_lookup(e, &crate::text::chars_of("arguments")) {
            Some(Json::Object(a)) => {
                return Some(crate::json::clone_entries(a));
            },
            _ => {},
        }
        match crate::json::entries_lookup(e, &crate::text::chars_of("parameters")) {
            Some(Json::Object(a)) => {
                return Some(crate::json::clone_entries(a));
            },
            _ => {},
        }
        let none: Vec<(Vec<char>, Json)> = Vec::new();
        assert(jentries(none@) =~= Seq::<(Seq<char>, JsonV)>::empty());
        return Some(none);
    }
    find_in_values_exec(e)
}

fn find_in_values_exec(e: &Vec<(Vec<char>, Json)>) -> (r: Option<Vec<(Vec<char>, Json)>>)
    ensures
        match r {
            Some(a) => find_in_values(jentries(e@)) == Some(jentries(a@)),
            None => find_in_values(jentries(e@)) is None,
        },
    decreases e@, 0nat,
{
    let ghost ev = jentries(e@);
    let mut k: usize = 0;
    assert(ev.skip(0) =~= ev);
    while k < e.len()
        invariant
            k <= e@.len(),
            ev == jentries(e@),
            find_in_values(ev) == find_in_values(ev.skip(k as int)),
        decreases e@.len() - k,
    {
        assert(ev.skip(k as int)[0] == (e@[k as int].0@, jv(e@[k as int].1)));
        assert(ev.skip(k as int).drop_first() =~= ev.skip(k + 1));
        let found = match &e[k].1 {
            Json::Object(m) => find_object_exec(m),
            Json::Array(arr) => find_in_array_exec(arr),
            _ => None,
        };
        match found {
            Some(r) => {
                return Some(r);
            },
            None => {},
        }
        k += 1;
    }
    assert(ev.skip(k as int) =~= Seq::<(Seq<char>, JsonV)>::empty());
    None
}

fn find_in_array_exec(arr: &Vec<Json>) -> (r: Option<Vec<(Vec<char>, Json)>>)
    ensures
        match r {
            Some(a) => find_in_array(jvs(arr@)) == Some(jentries(a@)),
            None => find_in_array(jvs(arr@)) is None,
        },
    decreases arr@, 0nat,
{
    let ghost av = jvs(arr@);
    let mut k: usize = 0;
    assert(av.skip(0) =~= av);
    while k < arr.len()
        invariant
            k <= arr@.len(),
            av == jvs(arr@),
            find_in_array(av) == find_in_array(av.skip(k as int)),
        decreases arr@.len() - k,
    {
        assert(av.skip(k as int)[0] == jv(arr@[k as int]));
        assert(av.skip(k as int).drop_first() =~= av.skip(k + 1));
        let found = match &arr[k] {
            Json::Object(m) => find_object_exec(m),
            _ => None,
        };
        match found {
            Some(r) => {
                return Some(r);
            },
            None => {},
        }
        k += 1;
    }
    assert(av.skip(k as int) =~= Seq::<JsonV>::empty());
    None
}


// ---------------------------------------------------------------------------
// The parser
// ---------------------------------------------------------------------------

/// The text that bytes stand for: their UTF-8 decoding, or nothing when
/// they are not valid UTF-8.
pub open spec fn utf8_text(b: Seq<u8>) -> Seq<char> {
    if valid_utf8(b) {
        decode_utf8(b)
    } else {
        Seq::empty()
    }
}

/// `String::from_utf8` on a copy of `b`, with an empty string for bytes
/// that are not valid UTF-8: the text is their decoding.
#[verifier::external_body]
fn utf8_or_empty(b: &[u8]) -> (s: String)
    ensures
        s@ == utf8_text(b@),
{
    String::from_utf8(b.to_vec()).unwrap_or_default()
}

/// Where a tool-call parser stands.
#[derive(Clone, Copy, PartialEq, Eq, Debug, Structural)]
pub enum ToolsState {
    LookingForTag,
    ToolCalling,
    Done,
}

/// A tool call found: its number among the calls, the tool's name, and the
/// arguments.
pub struct ToolCall {
    pub index: i32,
    pub name: String,
    pub arguments: Vec<(Vec<char>, Json)>,
}

pub type CallV = (int, Seq<char>, Seq<(Seq<char>, JsonV)>);

/// A tool call in specifications.
pub open spec fn call_view(c: ToolCall) -> CallV {
    (c.index as int, c.name@, jentries(c.arguments@))
}

/// Tool calls in specifications.
pub open spec fn calls_view(v: Seq<ToolCall>) -> Seq<CallV> {
    v.map_values(|c: ToolCall| call_view(c))
}

/// What a tool-call parser holds: the tag that opens calls, the tools'
/// names (and their bytes), its state, the output not handled yet, the
/// number of calls made, and, within one `add`, the calls and content so
/// far and the object waiting to be parsed (tool, end of its name, where
/// scanning goes on, and the object's first and last index).
pub struct TpV {
    pub tag: Seq<char>,
    pub names: Seq<Seq<char>>,
    pub tools: Seq<Seq<u8>>,
    pub state: ToolsState,
    pub buffer: Seq<u8>,
    pub n: int,
    pub calls: Seq<CallV>,
    pub content: Seq<char>,
    pub pending: Option<(int, int, ScanV, int, int)>,
}

/// What a step of the parser asks for: the bytes from `start` to `end` of
/// its buffer parsed as a JSON object, or nothing more, with the calls and
/// the content of this `add`.
pub enum StepV {
    Parse(int, int),
    Finished(Seq<CallV>, Seq<char>),
}

pub open spec fn is_bracket_tag(tag: Seq<char>) -> bool {
    tag == seq!['{'] || tag == seq!['[']
}

/// The step after the calls of one `add` are all found: when the calls
/// opened by `{` or `[` are complete, the parser is done and what follows
/// them is content.
pub open spec fn tp_finish(st: TpV) -> (TpV, StepV) {
    if calls_done(st.tag, st.buffer) {
        let c = utf8_text(st.buffer);
        (
            TpV {
                state: ToolsState::Done,
                buffer: Seq::empty(),
                pending: None,
                calls: Seq::empty(),
                content: Seq::empty(),
                ..st
            },
            StepV::Finished(st.calls, c),
        )
    } else {
        (
            TpV { pending: None, calls: Seq::empty(), content: Seq::empty(), ..st },
            StepV::Finished(st.calls, st.content),
        )
    }
}

/// Looking for the arguments of tool `t` from the scan state `sc`.
pub open spec fn tp_scan(st: TpV, t: int, end: int, sc: ScanV) -> (TpV, StepV) {
    match next_object(st.buffer, sc) {
        None => tp_finish(st),
        Some((s, e, nx)) => (TpV { pending: Some((t, end, nx, s, e)), ..st }, StepV::Parse(s, e)),
    }
}

/// Looking for the next tool call in the buffer.
pub open spec fn tp_next(st: TpV) -> (TpV, StepV) {
    match find_tool(st.tools, st.buffer) {
        None => tp_finish(st),
        Some((t, end)) => tp_scan(
            st,
            t,
            end,
            ScanV { i: 0, start: -1, braces: 0, in_string: false, escaped: false },
        ),
    }
}

/// Adding the output `s`: once done, it is all content; while looking for
/// the tag, what comes before the tag (or before a start of it at the end)
/// is content, and with a `{` or `[` tag any content that is not white
/// space means there are no tool calls; once the tag is there, calls are
/// looked for.
pub open spec fn tp_add(st: TpV, s: Seq<char>) -> (TpV, StepV) {
    if st.state == ToolsState::Done {
        (st, StepV::Finished(Seq::empty(), s))
    } else {
        let buf = st.buffer + encode_utf8(s);
        if st.state == ToolsState::LookingForTag {
            let (idx, found) = find_tag(buf, encode_utf8(st.tag));
            let content = if idx == -1 {
                utf8_text(buf)
            } else {
                utf8_text(buf.take(idx))
            };
            let rest = if idx == -1 {
                Seq::empty()
            } else {
                buf.skip(idx)
            };
            if is_bracket_tag(st.tag) && crate::errtypes::trim(content).len() != 0 {
                let all = content + utf8_text(rest);
                (
                    TpV {
                        state: ToolsState::Done,
                        buffer: Seq::empty(),
                        calls: Seq::empty(),
                        content: Seq::empty(),
                        pending: None,
                        ..st
                    },
                    StepV::Finished(Seq::empty(), all),
                )
            } else if !found {
                (
                    TpV { buffer: rest, calls: Seq::empty(), content: Seq::empty(), pending: None, ..st },
                    StepV::Finished(Seq::empty(), content),
                )
            } else {
                tp_next(
                    TpV {
                        state: ToolsState::ToolCalling,
                        buffer: rest,
                        calls: Seq::empty(),
                        content,
                        pending: None,
                        ..st
                    },
                )
            }
        } else {
            tp_next(TpV { buffer: buf, calls: Seq::empty(), content: Seq::empty(), pending: None, ..st })
        }
    }
}

/// Going on with the parse of the object asked for: a parsed object gives
/// a call of the tool (its arguments found in it, or the object itself),
/// and the buffer loses what comes before the later of the name's end and
/// the object's last index; an object that did not parse is passed over.
pub open spec fn tp_resume(st: TpV, parsed: Option<Seq<(Seq<char>, JsonV)>>) -> (TpV, StepV) {
    match st.pending {
        None => tp_finish(st),
        Some((t, end, nx, s, e)) => match parsed {
            Some(data) => {
                let args = match find_object(data) {
                    Some(a) => a,
                    None => data,
                };
                let end2 = if e > end {
                    e
                } else {
                    end
                };
                tp_next(
                    TpV {
                        n: st.n + 1,
                        buffer: st.buffer.skip(end2),
                        calls: st.calls.push((st.n, st.names[t], args)),
                        pending: None,
                        ..st
                    },
                )
            },
            None => tp_scan(TpV { pending: None, ..st }, t, end, nx),
        },
    }
}


/// What `serde_json` reads `bytes` as, when they hold a JSON object: its
/// entries.
pub uninterp spec fn json_object_of(bytes: Seq<u8>) -> Option<Seq<(Seq<char>, JsonV)>>;

/// `serde_json::from_slice::<Map<String, Value>>`: the entries of the JSON
/// object the bytes hold, or `None` where they hold none.
#[verifier::external_body]
fn parse_json_object(bytes: &[u8]) -> (r: Option<Vec<(Vec<char>, Json)>>)
    ensures
        match r {
            Some(d) => json_object_of(bytes@) == Some(jentries(d@)),
            None => json_object_of(bytes@) is None,
        },
{
    serde_json::from_slice::<serde_json::Map<String, serde_json::Value>>(bytes).ok().map(
        |m| m.iter().map(|(k, v)| (k.chars().collect(), crate::json::json_from_value(v))).collect(),
    )
}

/// Where the scan for the pending object goes on (0 with none).
pub open spec fn pend_i(st: TpV) -> int {
    match st.pending {
        Some(p) => p.2.i,
        None => 0,
    }
}

/// The parser `a` stands nearer the end of its work than `b`: a shorter
/// buffer, or the same buffer scanned further.
pub open spec fn nearer_end(a: TpV, b: TpV) -> bool {
    ||| a.buffer.len() < b.buffer.len()
    ||| (a.buffer.len() == b.buffer.len() && 0 <= a.buffer.len() - pend_i(a) < b.buffer.len()
        - pend_i(b))
}

/// Running the parser from a step to its end, each object it asks for
/// parsed as `serde_json` reads it: the parser left, the calls and the
/// content.  For a well-formed parser every step brings it nearer its end
/// (`lemma_resume_progress`); the last branch, which stops, is only there
/// to define the run for other states.
pub open spec fn tp_run(st: TpV, step: StepV) -> (TpV, Seq<CallV>, Seq<char>)
    decreases st.buffer.len(), st.buffer.len() - pend_i(st),
{
    match step {
        StepV::Finished(c, t) => (st, c, t),
        StepV::Parse(a, b) => {
            let parsed = json_object_of(st.buffer.subrange(a, b + 1));
            let (st2, step2) = tp_resume(st, parsed);
            match step2 {
                StepV::Finished(c, t) => (st2, c, t),
                StepV::Parse(_, _) => if nearer_end(st2, st) {
                    tp_run(st2, step2)
                } else {
                    (st2, Seq::empty(), Seq::empty())
                },
            }
        },
    }
}

/// A step that asks for a parse asks for the object pending.
pub open spec fn asks_pending(st: TpV, step: StepV) -> bool {
    match step {
        StepV::Parse(a, b) => st.pending matches Some(p) && p.3 == a && p.4 == b,
        StepV::Finished(_, _) => true,
    }
}

proof fn lemma_next_asks_pending(st: TpV)
    ensures
        asks_pending(tp_next(st).0, tp_next(st).1),
        tp_next(st).0.tools == st.tools,
{
}

proof fn lemma_add_asks_pending(st: TpV, s: Seq<char>)
    ensures
        asks_pending(tp_add(st, s).0, tp_add(st, s).1),
        tp_add(st, s).0.tools == st.tools,
{
    if st.state != ToolsState::Done {
        let buf = st.buffer + encode_utf8(s);
        if st.state == ToolsState::LookingForTag {
            let (idx, found) = find_tag(buf, encode_utf8(st.tag));
            let content = if idx == -1 { utf8_text(buf) } else { utf8_text(buf.take(idx)) };
            let rest = if idx == -1 { Seq::empty() } else { buf.skip(idx) };
            lemma_next_asks_pending(
                TpV {
                    state: ToolsState::ToolCalling,
                    buffer: rest,
                    calls: Seq::empty(),
                    content,
                    pending: None,
                    ..st
                },
            );
        } else {
            lemma_next_asks_pending(
                TpV { buffer: buf, calls: Seq::empty(), content: Seq::empty(), pending: None, ..st },
            );
        }
    }
}

proof fn lemma_resume_asks_pending(st: TpV, parsed: Option<Seq<(Seq<char>, JsonV)>>)
    ensures
        asks_pending(tp_resume(st, parsed).0, tp_resume(st, parsed).1),
        tp_resume(st, parsed).0.tools == st.tools,
{
    match st.pending {
        None => {},
        Some((t, end, nx, s, e)) => match parsed {
            Some(data) => {
                let args = match find_object(data) {
                    Some(a) => a,
                    None => data,
                };
                let end2 = if e > end { e } else { end };
                lemma_next_asks_pending(
                    TpV {
                        n: st.n + 1,
                        buffer: st.buffer.skip(end2),
                        calls: st.calls.push((st.n, st.names[t], args)),
                        pending: None,
                        ..st
                    },
                );
            },
            None => {},
        },
    }
}

/// A parser that takes streamed model output and picks out tool calls.
/// Each `add` may ask for JSON objects in its buffer to be parsed: the
/// caller parses `buffer()[start..=end]` and hands the result to `resume`,
/// until a step is finished.
pub struct ToolParser {
    tag: Vec<char>,
    tag_bytes: Vec<u8>,
    names: Vec<String>,
    tools: Vec<Vec<u8>>,
    state: ToolsState,
    buffer: Vec<u8>,
    n: i32,
    calls: Vec<ToolCall>,
    content: String,
    pending: Option<(usize, usize, ObjScan, usize, usize)>,
}

/// What a step of the parser gives: a request to parse bytes `start..=end`
/// of the buffer as a JSON object, or the calls and content of the `add`.
pub enum Step {
    Parse(usize, usize),
    Finished(Vec<ToolCall>, String),
}

/// A parser step in specifications.
pub open spec fn step_view(s: Step) -> StepV {
    match s {
        Step::Parse(a, b) => StepV::Parse(a as int, b as int),
        Step::Finished(c, t) => StepV::Finished(calls_view(c@), t@),
    }
}

pub open spec fn strings_view(v: Seq<String>) -> Seq<Seq<char>> {
    v.map_values(|x: String| x@)
}

impl View for ToolParser {
    type V = TpV;

    closed spec fn view(&self) -> TpV {
        TpV {
            tag: self.tag@,
            names: strings_view(self.names@),
            tools: bytes_view(self.tools@),
            state: self.state,
            buffer: self.buffer@,
            n: self.n as int,
            calls: calls_view(self.calls@),
            content: self.content@,
            pending: match self.pending {
                Some((t, e, nx, a, b)) => Some((t as int, e as int, nx@, a as int, b as int)),
                None => None,
            },
        }
    }
}

/// The bytes of each name are its UTF-8 encoding.
pub open spec fn tools_match(names: Seq<Seq<char>>, tools: Seq<Seq<u8>>) -> bool {
    &&& names.len() == tools.len()
    &&& forall|k: int| 0 <= k < tools.len() ==> #[trigger] tools[k] == encode_utf8(names[k])
}

pub(crate) fn bytes_of(s: &str) -> (out: Vec<u8>)
    ensures
        out@ == encode_utf8(s@),
{
    let b = s.as_bytes();
    let mut out: Vec<u8> = Vec::new();
    let mut i: usize = 0;
    while i < b.len()
        invariant
            i <= b@.len(),
            b@ == s.spec_bytes(),
            out@ == b@.take(i as int),
        decreases b@.len() - i,
    {
        out.push(b[i]);
        assert(b@.take(i + 1) =~= b@.take(i as int).push(b@[i as int]));
        i += 1;
    }
    assert(b@.take(b@.len() as int) =~= b@);
    out
}

impl ToolParser {
    /// The parser's state.
    pub closed spec fn wf(&self) -> bool {
        &&& self.tag_bytes@ == encode_utf8(self.tag@)
        &&& tools_match(strings_view(self.names@), bytes_view(self.tools@))
        &&& self.buffer@.len() < isize::MAX
        &&& self.n >= 0
        &&& match self.pending {
            Some((t, e, nx, a, b)) => {
                &&& t < self.tools@.len()
                &&& e <= self.buffer@.len()
                &&& a < b < self.buffer@.len()
                &&& nx@.i == b + 1
                &&& 0 <= nx@.braces <= nx@.i
                &&& (-1 <= nx@.start < nx@.i || nx@.start == -1)
            },
            None => true,
        }
    }

    /// A parser for calls opened by `tag`, of the tools named `names`.
    pub fn new_with_tag(names: Vec<String>, tag: String) -> (p: Self)
        ensures
            p.wf(),
            p@.tag == tag@,
            p@.names == strings_view(names@),
            p@.state == ToolsState::LookingForTag,
            p@.buffer.len() == 0,
            p@.n == 0,
            p@.pending is None,
    {
        let mut tools: Vec<Vec<u8>> = Vec::new();
        let mut k: usize = 0;
        while k < names.len()
            invariant
                k <= names@.len(),
                tools@.len() == k,
                forall|j: int| 0 <= j < k ==> #[trigger] tools@[j]@ == encode_utf8(names@[j]@),
            decreases names@.len() - k,
        {
            tools.push(bytes_of(names[k].as_str()));
            k += 1;
        }
        let tag_bytes = bytes_of(tag.as_str());
        let tag_chars = chars_of_string(&tag);
        let p = ToolParser {
            tag: tag_chars,
            tag_bytes,
            names,
            tools,
            state: ToolsState::LookingForTag,
            buffer: Vec::new(),
            n: 0,
            calls: Vec::new(),
            content: String::new(),
            pending: None,
        };
        assert(tools_match(strings_view(p.names@), bytes_view(p.tools@))) by {
            assert forall|j: int| 0 <= j < p.tools@.len() implies #[trigger] bytes_view(p.tools@)[j]
                == encode_utf8(strings_view(p.names@)[j]) by {}
        }
        p
    }

    /// A parser for calls as the chat template `template` writes them.
    pub fn new(template: &str, names: Vec<String>) -> (p: Self)
        requires
            template@.len() + 4 < usize::MAX,
        ensures
            p.wf(),
            p@.tag == crate::tools::spec_parse_tag(template@),
            p@.names == strings_view(names@),
            p@.state == ToolsState::LookingForTag,
            p@.buffer.len() == 0,
            p@.n == 0,
            p@.pending is None,
    {
        let tag = crate::tools::parse_tag(template);
        Self::new_with_tag(names, tag)
    }

    /// The output not handled yet.
    pub fn get_buffer(&self) -> (b: &Vec<u8>)
        ensures
            b@ == self@.buffer,
    {
        &self.buffer
    }

    /// Replaces the output not handled yet.
    pub fn set_buffer(&mut self, data: &[u8])
        requires
            old(self).wf(),
            old(self)@.pending is None,
            data@.len() < isize::MAX,
        ensures
            final(self).wf(),
            final(self)@ == (TpV { buffer: data@, ..old(self)@ }),
    {
        let mut b: Vec<u8> = Vec::new();
        let mut i: usize = 0;
        while i < data.len()
            invariant
                i <= data@.len(),
                b@ == data@.take(i as int),
            decreases data@.len() - i,
        {
            b.push(data[i]);
            assert(data@.take(i + 1) =~= data@.take(i as int).push(data@[i as int]));
            i += 1;
        }
        assert(data@.take(data@.len() as int) =~= data@);
        self.buffer = b;
    }

    /// Whether the calls opened by a `{` or `[` tag are complete.
    pub fn done(&self) -> (r: bool)
        requires
            self.wf(),
        ensures
            r == calls_done(self@.tag, self@.buffer),
    {
        calls_done_exec(&self.tag, &self.buffer)
    }

    /// The output kept as content: none once a call was made; with a `{`
    /// or `[` tag, the buffer's text.
    pub fn content(&self) -> (r: String)
        ensures
            r@ == (if self@.n > 0 {
                Seq::empty()
            } else if is_bracket_tag(self@.tag) {
                utf8_text(self@.buffer)
            } else {
                Seq::empty()
            }),
    {
        if self.n > 0 {
            return String::new();
        }
        if is_bracket_tag_exec(&self.tag) {
            return utf8_or_empty(&self.buffer);
        }
        String::new()
    }
}

fn chars_of_string(s: &String) -> (out: Vec<char>)
    ensures
        out@ == s@,
{
    crate::text::chars_of(s.as_str())
}

fn is_bracket_tag_exec(tag: &[char]) -> (r: bool)
    ensures
        r == is_bracket_tag(tag@),
{
    let r = tag.len() == 1 && (tag[0] == '{' || tag[0] == '[');
    proof {
        if tag@ == seq!['{'] || tag@ == seq!['['] {
            assert(tag@.len() == 1);
        }
        if r {
            assert(tag@ =~= seq![tag@[0]]);
        }
    }
    r
}



fn concat_bytes(a: &Vec<u8>, b: &Vec<u8>) -> (out: Vec<u8>)
    ensures
        out@ == a@ + b@,
{
    let mut out: Vec<u8> = Vec::new();
    let mut i: usize = 0;
    while i < a.len()
        invariant
            i <= a@.len(),
            out@ == a@.take(i as int),
        decreases a@.len() - i,
    {
        out.push(a[i]);
        assert(a@.take(i + 1) =~= a@.take(i as int).push(a@[i as int]));
        i += 1;
    }
    assert(a@.take(a@.len() as int) =~= a@);
    let mut j: usize = 0;
    while j < b.len()
        invariant
            j <= b@.len(),
            out@ == a@ + b@.take(j as int),
        decreases b@.len() - j,
    {
        out.push(b[j]);
        assert(a@ + b@.take(j + 1) =~= (a@ + b@.take(j as int)).push(b@[j as int]));
        j += 1;
    }
    assert(b@.take(b@.len() as int) =~= b@);
    out
}

fn skip_bytes(b: &Vec<u8>, k: usize) -> (out: Vec<u8>)
    requires
        k <= b@.len(),
    ensures
        out@ == b@.skip(k as int),
{
    let mut out: Vec<u8> = Vec::new();
    let mut i: usize = k;
    while i < b.len()
        invariant
            k <= i <= b@.len(),
            out@ == b@.subrange(k as int, i as int),
        decreases b@.len() - i,
    {
        out.push(b[i]);
        assert(b@.subrange(k as int, i + 1) =~= b@.subrange(k as int, i as int).push(b@[i as int]));
        i += 1;
    }
    assert(b@.subrange(k as int, b@.len() as int) =~= b@.skip(k as int));
    out
}

fn take_bytes(b: &Vec<u8>, k: usize) -> (out: Vec<u8>)
    requires
        k <= b@.len(),
    ensures
        out@ == b@.take(k as int),
{
    let mut out: Vec<u8> = Vec::new();
    let mut i: usize = 0;
    while i < k
        invariant
            i <= k,
            k <= b@.len(),
            out@ == b@.take(i as int),
        decreases k - i,
    {
        out.push(b[i]);
        assert(b@.take(i + 1) =~= b@.take(i as int).push(b@[i as int]));
        i += 1;
    }
    out
}

impl ToolParser {
    fn finish_exec(&mut self) -> (r: Step)
        requires
            old(self).wf(),
        ensures
            final(self).wf(),
            (final(self)@, step_view(r)) == tp_finish(old(self)@),
    {
        let mut calls: Vec<ToolCall> = Vec::new();
        std::mem::swap(&mut calls, &mut self.calls);
        self.pending = None;
        if calls_done_exec(&self.tag, &self.buffer) {
            let c = utf8_or_empty(&self.buffer);
            self.state = ToolsState::Done;
            self.buffer = Vec::new();
            self.content = String::new();
            assert(calls_view(self.calls@) =~= Seq::<CallV>::empty());
            Step::Finished(calls, c)
        } else {
            let mut c = String::new();
            std::mem::swap(&mut c, &mut self.content);
            assert(calls_view(self.calls@) =~= Seq::<CallV>::empty());
            Step::Finished(calls, c)
        }
    }

    fn scan_exec(&mut self, t: usize, end: usize, sc: ObjScan) -> (r: Step)
        requires
            old(self).wf(),
            t < old(self).tools@.len(),
            end <= old(self).buffer@.len(),
            sc@.i <= old(self).buffer@.len(),
            0 <= sc@.braces <= sc@.i,
            -1 <= sc@.start < sc@.i || sc@.start == -1,
        ensures
            final(self).wf(),
            (final(self)@, step_view(r)) == tp_scan(old(self)@, t as int, end as int, sc@),
    {
        proof {
            lemma_next_object(self@.buffer, sc@);
        }
        match next_object_exec(&self.buffer, &sc) {
            None => self.finish_exec(),
            Some((a, b, nx)) => {
                self.pending = Some((t, end, nx, a, b));
                Step::Parse(a, b)
            },
        }
    }

    fn next_exec(&mut self) -> (r: Step)
        requires
            old(self).wf(),
            forall|k: int| 0 <= k < old(self).tools@.len() ==> #[trigger] old(self).tools@[k]@.len() > 0,
        ensures
            final(self).wf(),
            (final(self)@, step_view(r)) == tp_next(old(self)@),
    {
        match find_tool_exec(&self.tools, &self.buffer) {
            None => self.finish_exec(),
            Some((t, end)) => {
                proof {
                    lemma_find_tool_bounds(self@.tools, self@.buffer);
                }
                let sc = ObjScan::new();
                self.scan_exec(t, end, sc)
            },
        }
    }

    /// Adds the output `s`; see `tp_add`.  A `Parse` step asks for an
    /// object of the buffer to be parsed and handed to `resume`.
    pub fn add(&mut self, s: &str) -> (r: Step)
        requires
            old(self).wf(),
            old(self)@.pending is None,
            old(self)@.buffer.len() + encode_utf8(s@).len() < isize::MAX,
            old(self)@.state == ToolsState::LookingForTag ==> encode_utf8(old(self)@.tag).len() > 0,
            old(self)@.state != ToolsState::Done ==> forall|k: int|
                0 <= k < old(self)@.tools.len() ==> #[trigger] old(self)@.tools[k].len() > 0,
        ensures
            final(self).wf(),
            (final(self)@, step_view(r)) == tp_add(old(self)@, s@),
    {
        if self.state == ToolsState::Done {
            let none: Vec<ToolCall> = Vec::new();
            assert(calls_view(none@) =~= Seq::<CallV>::empty());
            return Step::Finished(none, crate::text::string_from(&chars_of(s)));
        }
        proof {
            assert forall|k: int| 0 <= k < self.tools@.len() implies #[trigger] self.tools@[k]@.len()
                > 0 by {
                assert(self@.tools[k].len() > 0);
                assert(bytes_view(self.tools@)[k] == self.tools@[k]@);
            }
            if self.state == ToolsState::LookingForTag {
                assert(encode_utf8(self@.tag).len() > 0);
                assert(self.tag_bytes@.len() > 0);
            }
        }
        let sb = bytes_of(s);
        let nb = concat_bytes(&self.buffer, &sb);
        self.buffer = nb;
        if self.state == ToolsState::LookingForTag {
            let (idx, found) = find_tag_exec(&self.buffer, &self.tag_bytes);
            proof {
                lemma_find_tag_bounds(self.buffer@, self.tag_bytes@);
            }
            let content: String;
            let rest: Vec<u8>;
            if idx == -1 {
                content = utf8_or_empty(&self.buffer);
                rest = Vec::new();
            } else {
                content = utf8_or_empty(&take_bytes(&self.buffer, idx as usize));
                rest = skip_bytes(&self.buffer, idx as usize);
            }
            self.buffer = rest;
            self.calls = Vec::new();
            self.content = String::new();
            assert(calls_view(self.calls@) =~= Seq::<CallV>::empty());
            let cc = chars_of_string(&content);
            if is_bracket_tag_exec(&self.tag) && trim_chars(&cc).len() != 0 {
                let mut all = content;
                let tail = utf8_or_empty(&self.buffer);
                crate::text::push_str(&mut all, tail.as_str());
                self.state = ToolsState::Done;
                self.buffer = Vec::new();
                return Step::Finished(Vec::new(), all);
            }
            if !found {
                return Step::Finished(Vec::new(), content);
            }
            self.state = ToolsState::ToolCalling;
            self.content = content;
            return self.next_exec();
        }
        self.calls = Vec::new();
        self.content = String::new();
        assert(calls_view(self.calls@) =~= Seq::<CallV>::empty());
        self.next_exec()
    }

    /// How many calls the parser has found so far.
    pub fn calls_made(&self) -> (n: i32)
        ensures
            n as int == self@.n,
    {
        self.n
    }

    /// Adds the output `s` and runs the parser to the end of this piece,
    /// each object it asks for parsed with `serde_json`; gives the calls
    /// and the content; see `tp_run`.  The call counter must stay an
    /// `i32`: the calls made so far, the bytes held and the bytes added
    /// stay below `i32::MAX`.
    pub fn add_text(&mut self, s: &str) -> (r: (Vec<ToolCall>, String))
        requires
            old(self).wf(),
            old(self)@.pending is None,
            old(self)@.buffer.len() + encode_utf8(s@).len() < isize::MAX,
            old(self)@.n + old(self)@.buffer.len() + encode_utf8(s@).len() < i32::MAX,
            old(self)@.state == ToolsState::LookingForTag ==> encode_utf8(old(self)@.tag).len() > 0,
            old(self)@.state != ToolsState::Done ==> forall|k: int|
                0 <= k < old(self)@.tools.len() ==> #[trigger] old(self)@.tools[k].len() > 0,
        ensures
            final(self).wf(),
            final(self)@.pending is None,
            ({
                let (st1, step1) = tp_add(old(self)@, s@);
                let (st2, c, t) = tp_run(st1, step1);
                &&& final(self)@ == st2
                &&& calls_view(r.0@) == c
                &&& r.1@ == t
            }),
    {
        let ghost goal = tp_run(tp_add(self@, s@).0, tp_add(self@, s@).1);
        let ghost tools0 = self@.tools;
        let ghost live = self@.state != ToolsState::Done;
        proof {
            lemma_add_asks_pending(self@, s@);
            lemma_add_bounds(self@, s@);
        }
        let mut step = self.add(s);
        loop
            invariant
                self.wf(),
                self@.tools == tools0,
                live ==> forall|k: int| 0 <= k < tools0.len() ==> #[trigger] tools0[k].len() > 0,
                step is Parse ==> live,
                asks_pending(self@, step_view(step)),
                step is Finished ==> self@.pending is None,
                self@.n + self@.buffer.len() < i32::MAX,
                tp_run(self@, step_view(step)) == goal,
                goal == tp_run(tp_add(old(self)@, s@).0, tp_add(old(self)@, s@).1),
            decreases self@.buffer.len(), self@.buffer.len() - pend_i(self@),
        {
            match step {
                Step::Finished(c, t) => {
                    return (c, t);
                },
                Step::Parse(a, b) => {
                    let ghost st = self@;
                    assert(pending_ok(st));
                    let bytes = take_bytes(&skip_bytes(&self.buffer, a), b - a + 1);
                    assert(bytes@ =~= st.buffer.subrange(a as int, b + 1));
                    let parsed = parse_json_object(&bytes);
                    let ghost pv = if parsed is Some {
                        Some(jentries(parsed->0@))
                    } else {
                        None
                    };
                    proof {
                        lemma_resume_asks_pending(st, pv);
                        lemma_resume_progress(st, pv);
                    }
                    let next = self.resume(parsed);
                    match next {
                        Step::Finished(c, t) => {
                            return (c, t);
                        },
                        Step::Parse(_, _) => {
                            step = next;
                        },
                    }
                },
            }
        }
    }

    /// Goes on with the result of parsing the object asked for (`None` when
    /// it is not a JSON object); see `tp_resume`.
    pub fn resume(&mut self, parsed: Option<Vec<(Vec<char>, Json)>>) -> (r: Step)
        requires
            old(self).wf(),
            forall|k: int| 0 <= k < old(self)@.tools.len() ==> #[trigger] old(self)@.tools[k].len() > 0,
            old(self)@.pending is Some && parsed is Some ==> old(self)@.n < i32::MAX,
        ensures
            final(self).wf(),
            (final(self)@, step_view(r)) == tp_resume(
                old(self)@,
                match parsed {
                    Some(d) => Some(jentries(d@)),
                    None => None,
                },
            ),
    {
        proof {
            assert forall|k: int| 0 <= k < self.tools@.len() implies #[trigger] self.tools@[k]@.len()
                > 0 by {
                assert(self@.tools[k].len() > 0);
                assert(bytes_view(self.tools@)[k] == self.tools@[k]@);
            }
        }
        match self.pending {
            None => self.finish_exec(),
            Some((t, end, nx, a, b)) => match parsed {
                Some(data) => {
                    let ghost dv = jentries(data@);
                    let args = match find_object_exec(&data) {
                        Some(x) => x,
                        None => data,
                    };
                    let end2 = if b > end {
                        b
                    } else {
                        end
                    };
                    let name = crate::text::string_from(&chars_of(self.names[t].as_str()));
                    assert(strings_view(self.names@)[t as int] == self.names@[t as int]@);
                    let call = ToolCall { index: self.n, name, arguments: args };
                    self.n = self.n + 1;
                    self.buffer = skip_bytes(&self.buffer, end2);
                    let ghost c0 = self.calls@;
                    self.calls.push(call);
                    assert(calls_view(self.calls@) =~= calls_view(c0).push(call_view(call)));
                    self.pending = None;
                    self.next_exec()
                },
                None => {
                    self.pending = None;
                    self.scan_exec(t, end, nx)
                },
            },
        }
    }
}

proof fn lemma_find_tag_bounds(buf: Seq<u8>, tag: Seq<u8>)
    ensures
        -1 <= find_tag(buf, tag).0 <= buf.len(),
{
    lemma_first_match_bound(buf, tag, 0);
    lemma_first_match_range(buf, tag, 0);
    let m = if buf.len() < tag.len() {
        buf.len() as int
    } else {
        tag.len() as int
    };
    lemma_partial_tag_bound(buf, tag, m);
}

proof fn lemma_first_match_range(h: Seq<u8>, n: Seq<u8>, j: int)
    ensures
        first_match(h, n, j) >= -1,
        first_match(h, n, j) >= 0 ==> first_match(h, n, j) >= j,
    decreases h.len() + 1 - j,
{
    if !(j < 0 || j > h.len() || j + n.len() > h.len()) && h.subrange(j, j + n.len()) != n {
        lemma_first_match_range(h, n, j + 1);
    }
}

proof fn lemma_partial_tag_bound(buf: Seq<u8>, tag: Seq<u8>, i: int)
    ensures
        -1 <= partial_tag(buf, tag, i) <= buf.len(),
    decreases i,
{
    if i >= 1 && !(i <= buf.len() && i <= tag.len() && buf.subrange(buf.len() - i, buf.len() as int)
        == tag.take(i)) {
        lemma_partial_tag_bound(buf, tag, i - 1);
    }
}

proof fn lemma_find_tool_bounds(tools: Seq<Seq<u8>>, buf: Seq<u8>)
    ensures
        match find_tool(tools, buf) {
            Some((t, e)) => 0 <= t < tools.len() && e <= buf.len(),
            None => true,
        },
{
    lemma_pick_tool(tools, buf, 0, None);
}

proof fn lemma_pick_tool(tools: Seq<Seq<u8>>, buf: Seq<u8>, k: int, best: Option<(int, int)>)
    requires
        match best {
            Some((b, s)) => 0 <= b < tools.len() && 0 <= s && s + tools[b].len() <= buf.len(),
            None => true,
        },
    ensures
        match pick_tool(tools, buf, k, best) {
            Some((b, s)) => 0 <= b < tools.len() && 0 <= s && s + tools[b].len() <= buf.len(),
            None => true,
        },
    decreases tools.len() - k,
{
    if 0 <= k < tools.len() {
        let pos = first_match(buf, tools[k], 0);
        lemma_first_match_bound(buf, tools[k], 0);
        lemma_first_match_range(buf, tools[k], 0);
        if pos < 0 {
            lemma_pick_tool(tools, buf, k + 1, best);
        } else {
            match best {
                Some((b, start)) => {
                    if pos > start || (pos == start && tools[k].len() <= tools[b].len()) {
                        lemma_pick_tool(tools, buf, k + 1, best);
                    } else {
                        lemma_pick_tool(tools, buf, k + 1, Some((k, pos)));
                    }
                },
                None => lemma_pick_tool(tools, buf, k + 1, Some((k, pos))),
            }
        }
    }
}

/// An object found ends after it starts and no earlier than the scan
/// stood, and scanning goes on just after it.
proof fn lemma_next_object(buf: Seq<u8>, st: ScanV)
    requires
        0 <= st.i,
        st.start == -1 || 0 <= st.start < st.i,
    ensures
        next_object(buf, st) matches Some((s, e, nx)) ==> 0 <= s < e && st.i <= e < buf.len()
            && nx.i == e + 1,
    decreases buf.len() - st.i,
{
    if 0 <= st.i < buf.len() {
        let i = st.i;
        let c = buf[i];
        let nx = ScanV { i: i + 1, ..st };
        if st.escaped {
            lemma_next_object(buf, ScanV { escaped: false, ..nx });
        } else if c == 92u8 {
            lemma_next_object(buf, ScanV { escaped: true, ..nx });
        } else if c == 34u8 {
            lemma_next_object(buf, ScanV { in_string: !st.in_string, ..nx });
        } else if st.in_string {
            lemma_next_object(buf, nx);
        } else if c == 123u8 {
            lemma_next_object(
                buf,
                ScanV {
                    start: if st.braces == 0 {
                        i
                    } else {
                        st.start
                    },
                    braces: st.braces + 1,
                    ..nx
                },
            );
        } else if c == 125u8 {
            let b = st.braces - 1;
            if !(b == 0 && st.start != -1) {
                lemma_next_object(
                    buf,
                    ScanV {
                        braces: if b < 0 {
                            0
                        } else {
                            b
                        },
                        ..nx
                    },
                );
            }
        } else {
            lemma_next_object(buf, nx);
        }
    }
}

/// The object a well-formed parser waits for.
pub open spec fn pending_ok(st: TpV) -> bool {
    st.pending matches Some(p) && {
        let (t, e, nx, a, b) = p;
        &&& 0 <= t < st.tools.len()
        &&& e <= st.buffer.len()
        &&& 0 <= a < b < st.buffer.len()
        &&& nx.i == b + 1
        &&& 0 <= nx.braces
        &&& (nx.start == -1 || 0 <= nx.start < nx.i)
    }
}

/// Looking for calls never lengthens the buffer nor counts a call, and a
/// step that asks for an object leaves the buffer as it was, with the
/// scan inside it.
proof fn lemma_next_bounds(st: TpV)
    ensures
        tp_next(st).0.buffer.len() <= st.buffer.len(),
        tp_next(st).0.n == st.n,
        tp_next(st).1 is Parse ==> tp_next(st).0.buffer == st.buffer && 0 <= pend_i(tp_next(st).0)
            <= st.buffer.len(),
{
    match find_tool(st.tools, st.buffer) {
        None => {},
        Some((t, end)) => {
            lemma_next_object(st.buffer, ScanV { i: 0, start: -1, braces: 0, in_string: false, escaped: false });
        },
    }
}

/// Adding output lengthens the buffer by at most its bytes and counts no
/// call.
proof fn lemma_add_bounds(st: TpV, s: Seq<char>)
    ensures
        tp_add(st, s).0.buffer.len() <= st.buffer.len() + encode_utf8(s).len(),
        tp_add(st, s).0.n == st.n,
{
    if st.state != ToolsState::Done {
        let buf = st.buffer + encode_utf8(s);
        if st.state == ToolsState::LookingForTag {
            lemma_find_tag_bounds(buf, encode_utf8(st.tag));
            let (idx, found) = find_tag(buf, encode_utf8(st.tag));
            let content = if idx == -1 { utf8_text(buf) } else { utf8_text(buf.take(idx)) };
            let rest = if idx == -1 { Seq::empty() } else { buf.skip(idx) };
            lemma_next_bounds(
                TpV {
                    state: ToolsState::ToolCalling,
                    buffer: rest,
                    calls: Seq::empty(),
                    content,
                    pending: None,
                    ..st
                },
            );
        } else {
            lemma_next_bounds(
                TpV { buffer: buf, calls: Seq::empty(), content: Seq::empty(), pending: None, ..st },
            );
        }
    }
}

/// Going on after a parse brings the parser nearer its end: a parsed
/// object is cut off the buffer with what comes before it, and counts one
/// call; an object that did not parse is scanned past.
proof fn lemma_resume_progress(st: TpV, parsed: Option<Seq<(Seq<char>, JsonV)>>)
    requires
        pending_ok(st),
    ensures
        tp_resume(st, parsed).1 is Parse ==> nearer_end(tp_resume(st, parsed).0, st),
        parsed is Some ==> tp_resume(st, parsed).0.buffer.len() < st.buffer.len()
            && tp_resume(st, parsed).0.n == st.n + 1,
        parsed is None ==> tp_resume(st, parsed).0.buffer.len() <= st.buffer.len()
            && tp_resume(st, parsed).0.n == st.n,
{
    let (t, end, nx, s, e) = st.pending->0;
    match parsed {
        Some(data) => {
            let args = match find_object(data) {
                Some(a) => a,
                None => data,
            };
            let end2 = if e > end { e } else { end };
            let st2 = TpV {
                n: st.n + 1,
                buffer: st.buffer.skip(end2),
                calls: st.calls.push((st.n, st.names[t], args)),
                pending: None,
                ..st
            };
            lemma_next_bounds(st2);
        },
        None => {
            lemma_next_object(st.buffer, nx);
        },
    }
}

} // verus!
