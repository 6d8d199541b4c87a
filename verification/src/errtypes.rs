//! Errors reported to clients, and the capabilities a model can have.

use vstd::prelude::*;
use crate::text::{chars_of, push_char, push_chars, push_str, string_from};
use crate::thinking::{is_ws, leading_ws, trim_start, trim_start_chars};

verus! {

broadcast use vstd::string::group_string_axioms;

/// Message of an unknown-key error.
pub const UNKNOWN_OLLAMA_KEY_ERR_MSG: &'static str = "unknown ollama key";

/// Message of an invalid-name error.
pub const INVALID_MODEL_NAME_ERR_MSG: &'static str = "invalid model name";

/// A request was signed with a key this server does not know.
#[derive(Debug, Clone, PartialEq, Eq)]
pub struct UnknownOllamaKey {
    pub key: String,
}

/// Number of whitespace characters that end `s`.
pub open spec fn trailing_ws(s: Seq<char>) -> nat
    decreases s.len(),
{
    if s.len() == 0 || !is_ws(s.last()) {
        0
    } else {
        1 + trailing_ws(s.drop_last())
    }
}

/// `s` without leading and trailing whitespace.
pub open spec fn trim(s: Seq<char>) -> Seq<char> {
    let t = trim_start(s);
    t.take(t.len() - trailing_ws(t))
}

proof fn lemma_trailing_ws_bound(s: Seq<char>)
    ensures
        trailing_ws(s) <= s.len(),
    decreases s.len(),
{
    if s.len() > 0 && is_ws(s.last()) {
        lemma_trailing_ws_bound(s.drop_last());
    }
}

proof fn lemma_leading_ws_stop(s: Seq<char>)
    ensures
        leading_ws(s) <= s.len(),
        leading_ws(s) < s.len() ==> !is_ws(s[leading_ws(s) as int]),
    decreases s.len(),
{
    if s.len() > 0 && is_ws(s[0]) {
        let t = s.drop_first();
        lemma_leading_ws_stop(t);
        if leading_ws(s) < s.len() {
            assert(s[leading_ws(s) as int] == t[leading_ws(t) as int]);
        }
    }
}

proof fn lemma_trailing_ws_stop(s: Seq<char>)
    ensures
        trailing_ws(s) <= s.len(),
        trailing_ws(s) < s.len() ==> !is_ws(s[s.len() - 1 - trailing_ws(s)]),
    decreases s.len(),
{
    if s.len() > 0 && is_ws(s.last()) {
        let t = s.drop_last();
        lemma_trailing_ws_stop(t);
        if trailing_ws(s) < s.len() {
            assert(s[s.len() - 1 - trailing_ws(s)] == t[t.len() - 1 - trailing_ws(t)]);
        }
    }
}

/// Trimming twice is trimming once.
pub proof fn lemma_trim_idempotent(s: Seq<char>)
    ensures
        trim(trim(s)) == trim(s),
{
    let t = trim_start(s);
    lemma_leading_ws_stop(s);
    lemma_trailing_ws_stop(t);
    let r = trim(s);
    let k = t.len() - trailing_ws(t);
    if r.len() == 0 {
        assert(trim_start(r) =~= r);
        assert(trim(r) =~= r);
    } else {
        assert(r[0] == t[0]);
        assert(t[0] == s[leading_ws(s) as int]);
        assert(leading_ws(r) == 0);
        assert(trim_start(r) =~= r);
        assert(r.last() == t[t.len() - 1 - trailing_ws(t)]);
        assert(trailing_ws(r) == 0);
        assert(r.take(r.len() as int) =~= r);
    }
}

/// `v` without leading and trailing whitespace.
pub fn trim_chars(v: &[char]) -> (out: Vec<char>)
    ensures
        out@ == trim(v@),
{
    let t = trim_start_chars(v);
    let mut n: usize = t.len();
    proof {
        lemma_trailing_ws_bound(t@);
    }
    assert(t@.take(t@.len() as int) == t@);
    while n > 0 && crate::thinking::is_whitespace(t[n - 1])
        invariant
            n <= t@.len(),
            trailing_ws(t@) == (t@.len() - n) + trailing_ws(t@.take(n as int)),
        decreases n,
    {
        assert(t@.take(n as int).drop_last() == t@.take(n - 1));
        n -= 1;
    }
    assert(trailing_ws(t@.take(n as int)) == 0);
    crate::text::slice_chars(&t, 0, n)
}

/// `unauthorized: <message> "<key>"`.
pub open spec fn spec_unknown_key_message(key: Seq<char>) -> Seq<char> {
    "unauthorized: "@ + UNKNOWN_OLLAMA_KEY_ERR_MSG@ + seq![' ', '"'] + trim(key) + seq!['"']
}

impl UnknownOllamaKey {
    /// The error message, with the key trimmed.
    pub fn to_string(&self) -> (s: String)
        ensures
            s@ == spec_unknown_key_message(self.key@),
    {
        let mut out = String::new();
        push_str(&mut out, "unauthorized: ");
        push_str(&mut out, UNKNOWN_OLLAMA_KEY_ERR_MSG);
        push_char(&mut out, ' ');
        push_char(&mut out, '"');
        push_chars(&mut out, &trim_chars(&chars_of(self.key.as_str())));
        push_char(&mut out, '"');
        out
    }
}

/// Something a model can do.
#[derive(Debug, Clone, Copy, PartialEq, Eq)]
pub enum Capability {
    Completion,
    Tools,
    Insert,
    Vision,
    Embedding,
    Thinking,
}

/// The lowercase name of a capability.
pub open spec fn capability_name(c: Capability) -> Seq<char> {
    match c {
        Capability::Completion => "completion"@,
        Capability::Tools => "tools"@,
        Capability::Insert => "insert"@,
        Capability::Vision => "vision"@,
        Capability::Embedding => "embedding"@,
        Capability::Thinking => "thinking"@,
    }
}

fn eq_str(a: &str, b: &str) -> (r: bool)
    ensures
        r == (a@ == b@),
{
    let x = chars_of(a);
    let y = chars_of(b);
    if x.len() != y.len() {
        assert(a@.len() != b@.len());
        return false;
    }
    let mut i: usize = 0;
    while i < x.len()
        invariant
            i <= x@.len(),
            x@.len() == y@.len(),
            x@ == a@,
            y@ == b@,
            forall|j: int| 0 <= j < i ==> x@[j] == y@[j],
        decreases x@.len() - i,
    {
        if x[i] != y[i] {
            assert(x@[i as int] != y@[i as int]);
            return false;
        }
        i += 1;
    }
    assert(x@ == y@);
    true
}

impl Capability {
    /// The capability's name, as written in model metadata.
    pub fn to_string(&self) -> (s: String)
        ensures
            s@ == capability_name(*self),
    {
        let name: &str = match self {
            Capability::Completion => "completion",
            Capability::Tools => "tools",
            Capability::Insert => "insert",
            Capability::Vision => "vision",
            Capability::Embedding => "embedding",
            Capability::Thinking => "thinking",
        };
        string_from(&chars_of(name))
    }

    /// The capability with the given name; any other text is an error.
    pub fn from_str(s: &str) -> (r: Result<Capability, ()>)
        ensures
            match r {
                Ok(c) => capability_name(c) == s@,
                Err(_) => forall|c: Capability| capability_name(c) != s@,
            },
    {
        if eq_str(s, "completion") {
            Ok(Capability::Completion)
        } else if eq_str(s, "tools") {
            Ok(Capability::Tools)
        } else if eq_str(s, "insert") {
            Ok(Capability::Insert)
        } else if eq_str(s, "vision") {
            Ok(Capability::Vision)
        } else if eq_str(s, "embedding") {
            Ok(Capability::Embedding)
        } else if eq_str(s, "thinking") {
            Ok(Capability::Thinking)
        } else {
            Err(())
        }
    }
}

/// Law: distinct capabilities have distinct names, so a name reads back
/// as the capability it was written from.
pub proof fn law_capability_names_distinct(a: Capability, b: Capability)
    ensures
        capability_name(a) == capability_name(b) ==> a == b,
{
    reveal_strlit("completion");
    reveal_strlit("tools");
    reveal_strlit("insert");
    reveal_strlit("vision");
    reveal_strlit("embedding");
    reveal_strlit("thinking");
    if a != b {
        assert(capability_name(a) != capability_name(b)) by {
            if capability_name(a).len() == capability_name(b).len() {
                assert(capability_name(a)[0] != capability_name(b)[0]
                    || capability_name(a)[1] != capability_name(b)[1]);
            }
        }
    }
}

/// A fixed value kept for callers that used to ask a C helper.
pub fn helper_value() -> (v: i32)
    ensures
        v == 42,
{
    42
}

} // verus!
