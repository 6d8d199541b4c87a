//! Splitting streamed model output into a thinking trace and content.

use vstd::prelude::*;
use crate::text::{
    chars_of, ends_with, ends_with_chars, find_chars, find_index, lemma_find_index, slice_chars,
    starts_with, starts_with_chars, string_from,
};

verus! {

broadcast use vstd::string::group_string_axioms;

/// Where the parser stands in the stream.
#[derive(Debug, Clone, Copy, PartialEq, Eq)]
pub enum State {
    LookingForOpening,
    ThinkingStartedEatingWhitespace,
    Thinking,
    ThinkingDoneEatingWhitespace,
    ThinkingDone,
}

/// The order in which the states are passed through.
pub open spec fn rank(s: State) -> int {
    match s {
        State::LookingForOpening => 0,
        State::ThinkingStartedEatingWhitespace => 1,
        State::Thinking => 2,
        State::ThinkingDoneEatingWhitespace => 3,
        State::ThinkingDone => 4,
    }
}

/// Unicode `White_Space`, the characters `char::is_whitespace` accepts.
pub open spec fn is_ws(c: char) -> bool {
    let u = c as u32;
    (0x9 <= u <= 0xD) || u == 0x20 || u == 0x85 || u == 0xA0 || u == 0x1680 || (0x2000 <= u
        <= 0x200A) || u == 0x2028 || u == 0x2029 || u == 0x202F || u == 0x205F || u == 0x3000
}

/// Number of whitespace characters that start `s`.
pub open spec fn leading_ws(s: Seq<char>) -> nat
    decreases s.len(),
{
    if s.len() == 0 || !is_ws(s[0]) {
        0
    } else {
        1 + leading_ws(s.drop_first())
    }
}

/// `s` without its leading whitespace.
pub open spec fn trim_start(s: Seq<char>) -> Seq<char> {
    s.skip(leading_ws(s) as int)
}

/// Whether `c` is whitespace.
pub fn is_whitespace(c: char) -> (r: bool)
    ensures
        r == is_ws(c),
{
    let u = c as u32;
    (0x9 <= u && u <= 0xD) || u == 0x20 || u == 0x85 || u == 0xA0 || u == 0x1680 || (0x2000 <= u
        && u <= 0x200A) || u == 0x2028 || u == 0x2029 || u == 0x202F || u == 0x205F || u == 0x3000
}

/// `v` without its leading whitespace.
pub fn trim_start_chars(v: &[char]) -> (out: Vec<char>)
    ensures
        out@ == trim_start(v@),
{
    let mut i: usize = 0;
    assert(v@.skip(0) == v@);
    while i < v.len() && is_whitespace(v[i])
        invariant
            i <= v@.len(),
            leading_ws(v@) == i + leading_ws(v@.skip(i as int)),
        decreases v@.len() - i,
    {
        assert(v@.skip(i as int).drop_first() == v@.skip(i + 1));
        i += 1;
    }
    assert(v@.skip(0) == v@);
    assert(leading_ws(v@.skip(i as int)) == 0);
    slice_chars(v, i, v.len())
}

proof fn lemma_leading_ws_bound(s: Seq<char>)
    ensures
        leading_ws(s) <= s.len(),
    decreases s.len(),
{
    if s.len() > 0 && is_ws(s[0]) {
        lemma_leading_ws_bound(s.drop_first());
    }
}

/// Longest `i >= 1`, at most `i`, such that `s` ends with the first `i`
/// characters of `d`.
pub open spec fn overlap_from(s: Seq<char>, d: Seq<char>, i: int) -> Option<nat>
    decreases i,
{
    if i < 1 {
        None
    } else if ends_with(s, d.take(i)) {
        Some(i as nat)
    } else {
        overlap_from(s, d, i - 1)
    }
}

/// Length of the longest non-empty beginning of `d` with which `s` ends.
pub open spec fn spec_overlap(s: Seq<char>, d: Seq<char>) -> Option<nat> {
    if d.len() == 0 {
        None
    } else {
        overlap_from(s, d, if d.len() < s.len() { d.len() as int } else { s.len() as int })
    }
}

proof fn lemma_overlap_from_bound(s: Seq<char>, d: Seq<char>, i: int)
    ensures
        overlap_from(s, d, i) matches Some(o) ==> 1 <= o <= i,
    decreases i,
{
    if i >= 1 && !ends_with(s, d.take(i)) {
        lemma_overlap_from_bound(s, d, i - 1);
    }
}

/// How many characters at the end of `s` begin `delim`.
pub fn overlap(s: &[char], delim: &[char]) -> (r: Option<usize>)
    ensures
        match r {
            Some(i) => spec_overlap(s@, delim@) == Some(i as nat),
            None => spec_overlap(s@, delim@).is_none(),
        },
{
    if delim.len() == 0 {
        return None;
    }
    let max = if delim.len() < s.len() { delim.len() } else { s.len() };
    let mut i = max;
    while i >= 1
        invariant
            i <= max <= delim@.len(),
            max <= s@.len(),
            spec_overlap(s@, delim@) == overlap_from(s@, delim@, i as int),
            delim@.len() > 0,
        decreases i,
    {
        let pre = slice_chars(delim, 0, i);
        assert(pre@ == delim@.take(i as int));
        if ends_with_chars(s, &pre) {
            return Some(i);
        }
        i -= 1;
    }
    None
}

/// The parser as sequences: its state, tags and pending text.
pub struct ParserView {
    pub state: State,
    pub opening: Seq<char>,
    pub closing: Seq<char>,
    pub acc: Seq<char>,
}

/// One step: thinking text, content, whether to step again, and the
/// parser after it.
pub open spec fn spec_eat(p: ParserView) -> (Seq<char>, Seq<char>, bool, ParserView) {
    let e = Seq::<char>::empty();
    match p.state {
        State::LookingForOpening => {
            let trimmed = trim_start(p.acc);
            if starts_with(trimmed, p.opening) {
                let after = trim_start(trimmed.skip(p.opening.len() as int));
                if after.len() == 0 {
                    (e, e, true, ParserView { state: State::ThinkingStartedEatingWhitespace, acc: e, ..p })
                } else {
                    (e, e, true, ParserView { state: State::Thinking, acc: after, ..p })
                }
            } else if p.opening.len() != 0 && starts_with(p.opening, trimmed) {
                (e, e, false, p)
            } else if trimmed.len() == 0 {
                (e, e, false, p)
            } else {
                (e, p.acc, false, ParserView { state: State::ThinkingDone, acc: e, ..p })
            }
        },
        State::ThinkingStartedEatingWhitespace => {
            let trimmed = trim_start(p.acc);
            if trimmed.len() == 0 {
                (e, e, false, ParserView { acc: e, ..p })
            } else {
                (e, e, true, ParserView { state: State::Thinking, acc: trimmed, ..p })
            }
        },
        State::Thinking => {
            let idx = find_index(p.acc, p.closing);
            if idx >= 0 {
                let rem = trim_start(p.acc.skip(idx + p.closing.len()));
                (
                    p.acc.take(idx),
                    rem,
                    false,
                    ParserView {
                        state: if rem.len() == 0 {
                            State::ThinkingDoneEatingWhitespace
                        } else {
                            State::ThinkingDone
                        },
                        acc: e,
                        ..p
                    },
                )
            } else {
                match spec_overlap(p.acc, p.closing) {
                    Some(o) => (
                        p.acc.take(p.acc.len() - o),
                        e,
                        false,
                        ParserView { acc: p.acc.skip(p.acc.len() - o), ..p },
                    ),
                    None => (p.acc, e, false, ParserView { acc: e, ..p }),
                }
            }
        },
        State::ThinkingDoneEatingWhitespace => {
            let trimmed = trim_start(p.acc);
            if trimmed.len() == 0 {
                (e, e, false, ParserView { acc: e, ..p })
            } else {
                (e, trimmed, false, ParserView { state: State::ThinkingDone, acc: e, ..p })
            }
        },
        State::ThinkingDone => (e, p.acc, false, ParserView { acc: e, ..p }),
    }
}

/// A step asks to continue only when the state moves forward.
pub proof fn lemma_eat_progress(p: ParserView)
    ensures
        spec_eat(p).2 ==> rank(spec_eat(p).3.state) > rank(p.state),
        rank(spec_eat(p).3.state) >= rank(p.state),
        spec_eat(p).3.opening == p.opening,
        spec_eat(p).3.closing == p.closing,
{
}

/// Steps until a step says stop; returns the thinking text and content
/// gathered, and the parser left.
pub open spec fn spec_drain(p: ParserView) -> (Seq<char>, Seq<char>, ParserView)
    decreases 4 - rank(p.state),
{
    let (t, r, k, q) = spec_eat(p);
    if k && rank(q.state) > rank(p.state) && rank(q.state) <= 4 {
        let (t2, r2, q2) = spec_drain(q);
        (t + t2, r + r2, q2)
    } else {
        (t, r, q)
    }
}

/// Separates a thinking trace, enclosed in its opening and closing tags,
/// from the rest of the output, as the output arrives in pieces.  A parser
/// that is done holds no pending text (its type invariant).
pub struct Parser {
    state: State,
    opening_tag: String,
    closing_tag: String,
    acc: String,
}

impl View for Parser {
    type V = ParserView;

    closed spec fn view(&self) -> ParserView {
        ParserView {
            state: self.state,
            opening: self.opening_tag@,
            closing: self.closing_tag@,
            acc: self.acc@,
        }
    }
}

impl Parser {
    #[verifier::type_invariant]
    closed spec fn done_is_drained(&self) -> bool {
        drained(self@)
    }
}

/// The parser's working state while it takes a piece of output.
struct Machine {
    state: State,
    opening_tag: String,
    closing_tag: String,
    acc: String,
}

impl View for Machine {
    type V = ParserView;

    closed spec fn view(&self) -> ParserView {
        ParserView {
            state: self.state,
            opening: self.opening_tag@,
            closing: self.closing_tag@,
            acc: self.acc@,
        }
    }
}

/// A parser that has finished with its thinking trace holds no pending
/// text: everything after the trace has been handed out as content.
pub open spec fn drained(p: ParserView) -> bool {
    p.state == State::ThinkingDone ==> p.acc.len() == 0
}

impl Default for Parser {
    fn default() -> (p: Parser)
        ensures
            p@.state == State::LookingForOpening,
            p@.opening.len() == 0,
            p@.closing.len() == 0,
            p@.acc.len() == 0,
    {
        Parser {
            state: State::LookingForOpening,
            opening_tag: String::new(),
            closing_tag: String::new(),
            acc: String::new(),
        }
    }
}

/// One step of the parser.
fn eat(p: &mut Machine) -> (r: (String, String, bool))
    ensures
        (r.0@, r.1@, r.2, final(p)@) == spec_eat(old(p)@),
{
    let acc = chars_of(p.acc.as_str());
    let open = chars_of(p.opening_tag.as_str());
    let close = chars_of(p.closing_tag.as_str());
    match p.state {
        State::LookingForOpening => {
            let trimmed = trim_start_chars(&acc);
            if starts_with_chars(&trimmed, &open) {
                let rest = slice_chars(&trimmed, open.len(), trimmed.len());
                let after = trim_start_chars(&rest);
                if after.len() == 0 {
                    p.state = State::ThinkingStartedEatingWhitespace;
                    p.acc = String::new();
                } else {
                    p.state = State::Thinking;
                    p.acc = string_from(&after);
                }
                (String::new(), String::new(), true)
            } else if open.len() != 0 && starts_with_chars(&open, &trimmed) {
                (String::new(), String::new(), false)
            } else if trimmed.len() == 0 {
                (String::new(), String::new(), false)
            } else {
                p.state = State::ThinkingDone;
                let untrimmed = string_from(&acc);
                p.acc = String::new();
                (String::new(), untrimmed, false)
            }
        },
        State::ThinkingStartedEatingWhitespace => {
            let trimmed = trim_start_chars(&acc);
            p.acc = String::new();
            if trimmed.len() == 0 {
                (String::new(), String::new(), false)
            } else {
                p.state = State::Thinking;
                p.acc = string_from(&trimmed);
                (String::new(), String::new(), true)
            }
        },
        State::Thinking => {
            proof {
                lemma_find_index(acc@, close@);
            }
            match find_chars(&acc, &close) {
                Some(idx) => {
                    assert(crate::text::matches_at(acc@, close@, idx as int));
                    let thinking = slice_chars(&acc, 0, idx);
                    let after = slice_chars(&acc, idx + close.len(), acc.len());
                    let rem = trim_start_chars(&after);
                    p.acc = String::new();
                    if rem.len() == 0 {
                        p.state = State::ThinkingDoneEatingWhitespace;
                    } else {
                        p.state = State::ThinkingDone;
                    }
                    (string_from(&thinking), string_from(&rem), false)
                },
                None => {
                    match overlap(&acc, &close) {
                        Some(o) => {
                            proof {
                                lemma_overlap_from_bound(
                                    acc@,
                                    close@,
                                    if close@.len() < acc@.len() {
                                        close@.len() as int
                                    } else {
                                        acc@.len() as int
                                    },
                                );
                            }
                            let thinking = slice_chars(&acc, 0, acc.len() - o);
                            let rem = slice_chars(&acc, acc.len() - o, acc.len());
                            p.acc = string_from(&rem);
                            (string_from(&thinking), String::new(), false)
                        },
                        None => {
                            let all = string_from(&acc);
                            p.acc = String::new();
                            (all, String::new(), false)
                        },
                    }
                },
            }
        },
        State::ThinkingDoneEatingWhitespace => {
            let trimmed = trim_start_chars(&acc);
            p.acc = String::new();
            if trimmed.len() == 0 {
                (String::new(), String::new(), false)
            } else {
                p.state = State::ThinkingDone;
                (String::new(), string_from(&trimmed), false)
            }
        },
        State::ThinkingDone => {
            let all = string_from(&acc);
            p.acc = String::new();
            (String::new(), all, false)
        },
    }
}

fn append(out: &mut String, s: &String)
    ensures
        final(out)@ == old(out)@ + s@,
{
    let v = chars_of(s.as_str());
    let mut i: usize = 0;
    while i < v.len()
        invariant
            i <= v@.len(),
            v@ == s@,
            out@ == old(out)@ + v@.take(i as int),
        decreases v@.len() - i,
    {
        crate::text::push_char(out, v[i]);
        assert(v@.take(i + 1) == v@.take(i as int).push(v@[i as int]));
        i += 1;
    }
    assert(v@.take(v@.len() as int) == v@);
}

impl Parser {
    /// Takes the next piece of output; returns the thinking text and the
    /// content that can be told apart so far.  Once the parser is done,
    /// every piece is content, passed through unchanged.
    pub fn add_content(&mut self, content: &str) -> (r: (String, String))
        ensures
            ({
                let start = ParserView { acc: old(self)@.acc + content@, ..old(self)@ };
                let (t, c, q) = spec_drain(start);
                r.0@ == t && r.1@ == c && final(self)@ == q
            }),
            drained(old(self)@),
            old(self)@.state == State::ThinkingDone ==> r.0@.len() == 0 && r.1@ == content@
                && final(self)@.state == State::ThinkingDone,
    {
        proof {
            use_type_invariant(&*self);
            if self@.state == State::ThinkingDone {
                law_done_passes_through(self@, content@);
            }
        }
        let mut acc = String::new();
        std::mem::swap(&mut acc, &mut self.acc);
        append(&mut acc, &string_from(&chars_of(content)));
        let mut m = Machine {
            state: self.state,
            opening_tag: self.opening_tag.clone(),
            closing_tag: self.closing_tag.clone(),
            acc,
        };
        let ghost start = m@;
        assert(start == ParserView { acc: old(self)@.acc + content@, ..old(self)@ });
        let mut thinking = String::new();
        let mut remaining = String::new();
        let mut keep = true;
        while keep
            invariant
                keep ==> ({
                    let (t, c, q) = spec_drain(m@);
                    spec_drain(start) == (thinking@ + t, remaining@ + c, q)
                }),
                !keep ==> spec_drain(start) == (thinking@, remaining@, m@),
            decreases 5 - rank(m.state) - (if keep { 0int } else { 1int }),
        {
            let ghost before = m@;
            proof {
                lemma_eat_progress(before);
            }
            let (t, r, k) = eat(&mut m);
            append(&mut thinking, &t);
            append(&mut remaining, &r);
            keep = k;
            proof {
                let (t2, c2, q2) = spec_drain(m@);
                if k {
                    assert(spec_drain(before) == (t@ + t2, r@ + c2, q2));
                } else {
                    assert(spec_drain(before) == (t@, r@, m@));
                }
            }
        }
        proof {
            lemma_drain_leaves_drained(start);
            law_drain_monotone(start);
        }
        self.state = m.state;
        self.acc = m.acc;
        (thinking, remaining)
    }

    /// Sets the tag that opens a thinking trace.
    pub fn set_opening_tag(&mut self, tag: String)
        ensures
            final(self)@ == (ParserView { opening: tag@, ..old(self)@ }),
    {
        proof {
            use_type_invariant(&*self);
        }
        self.opening_tag = tag;
    }

    /// Sets the tag that closes a thinking trace.
    pub fn set_closing_tag(&mut self, tag: String)
        ensures
            final(self)@ == (ParserView { closing: tag@, ..old(self)@ }),
    {
        proof {
            use_type_invariant(&*self);
        }
        self.closing_tag = tag;
    }

    /// The state the parser is in.
    pub fn state(&self) -> (s: State)
        ensures
            s == self@.state,
    {
        self.state
    }
}

/// Law: feeding text never moves the parser back to an earlier state, and
/// never changes its tags.
pub proof fn law_drain_monotone(p: ParserView)
    ensures
        rank(spec_drain(p).2.state) >= rank(p.state),
        spec_drain(p).2.opening == p.opening,
        spec_drain(p).2.closing == p.closing,
    decreases 4 - rank(p.state),
{
    lemma_eat_progress(p);
    let (t, r, k, q) = spec_eat(p);
    if k && rank(q.state) > rank(p.state) && rank(q.state) <= 4 {
        law_drain_monotone(q);
    }
}

/// Whatever a parser takes in, it is left drained.
pub proof fn lemma_drain_leaves_drained(p: ParserView)
    ensures
        drained(spec_drain(p).2),
    decreases 4 - rank(p.state),
{
    let (t, r, k, q) = spec_eat(p);
    if k && rank(q.state) > rank(p.state) && rank(q.state) <= 4 {
        lemma_drain_leaves_drained(q);
    }
}

/// Law: once the thinking trace is over, every further piece of text is
/// content, passed through unchanged, whitespace included, and the parser
/// stays done.
pub proof fn law_done_passes_through(p: ParserView, s: Seq<char>)
    requires
        drained(p),
        p.state == State::ThinkingDone,
    ensures
        ({
            let start = ParserView { acc: p.acc + s, ..p };
            &&& spec_drain(start).0.len() == 0
            &&& spec_drain(start).1 == s
            &&& spec_drain(start).2.state == State::ThinkingDone
            &&& spec_drain(start).2.acc.len() == 0
        }),
{
    assert(p.acc + s =~= s);
}

/// Law: text that does not begin, after whitespace, with the opening tag
/// or a beginning of it is all content, and ends the search for thinking.
pub proof fn law_no_opening_is_content(p: ParserView)
    requires
        p.state == State::LookingForOpening,
        p.opening.len() != 0,
        !starts_with(trim_start(p.acc), p.opening),
        !starts_with(p.opening, trim_start(p.acc)),
    ensures
        spec_drain(p).0.len() == 0,
        spec_drain(p).1 == p.acc,
        spec_drain(p).2.state == State::ThinkingDone,
{
    if trim_start(p.acc).len() == 0 {
        assert(p.opening.take(0) =~= trim_start(p.acc));
    }
}

} // verus!
