//! Inferring the tags that surround a thinking trace from a chat template.
//!
//! The template is read as a simplified tree: text, actions, and the
//! `range`, `if` and `with` blocks that hold nested lists.  The tags are the
//! text at the edges of the innermost list that holds a `.Thinking` field,
//! provided the nearest enclosing `range` walks over `.Messages`.

use vstd::prelude::*;
use crate::text::{chars_eq, chars_of, find_chars, find_index, lemma_find_index, matches_at, slice_chars, starts_with, starts_with_chars, string_from};
use crate::thinking::{trim_start, trim_start_chars};
use crate::errtypes::{lemma_trim_idempotent, trim, trim_chars};

verus! {

broadcast use vstd::string::group_string_axioms;

// ---------------------------------------------------------------------------
// Tokens
// ---------------------------------------------------------------------------

/// A piece of the template: literal text or one action.
pub enum Tok {
    Text(Vec<char>),
    RangeStart(Vec<char>),
    IfStart(Vec<char>),
    WithStart(Vec<char>),
    Else,
    End,
    Comment,
    Other(Vec<char>),
}

/// The value a token stands for.
pub enum TokV {
    Text(Seq<char>),
    RangeStart(Seq<char>),
    IfStart(Seq<char>),
    WithStart(Seq<char>),
    Else,
    End,
    Comment,
    Other(Seq<char>),
}

impl View for Tok {
    type V = TokV;

    open spec fn view(&self) -> TokV {
        match self {
            Tok::Text(t) => TokV::Text(t@),
            Tok::RangeStart(p) => TokV::RangeStart(p@),
            Tok::IfStart(p) => TokV::IfStart(p@),
            Tok::WithStart(p) => TokV::WithStart(p@),
            Tok::Else => TokV::Else,
            Tok::End => TokV::End,
            Tok::Comment => TokV::Comment,
            Tok::Other(r) => TokV::Other(r@),
        }
    }
}

/// The values of a sequence of tokens.
pub open spec fn toks_view(v: Seq<Tok>) -> Seq<TokV> {
    v.map_values(|t: Tok| t@)
}

pub open spec fn lit_open() -> Seq<char> {
    seq!['{', '{']
}

pub open spec fn lit_close() -> Seq<char> {
    seq!['}', '}']
}

pub open spec fn lit_comment() -> Seq<char> {
    seq!['/', '*']
}

pub open spec fn lit_end() -> Seq<char> {
    seq!['e', 'n', 'd']
}

pub open spec fn lit_else() -> Seq<char> {
    seq!['e', 'l', 's', 'e']
}

pub open spec fn lit_else_if() -> Seq<char> {
    seq!['e', 'l', 's', 'e', ' ', 'i', 'f']
}

pub open spec fn lit_range() -> Seq<char> {
    seq!['r', 'a', 'n', 'g', 'e']
}

pub open spec fn lit_if() -> Seq<char> {
    seq!['i', 'f']
}

pub open spec fn lit_with() -> Seq<char> {
    seq!['w', 'i', 't', 'h']
}

/// The tokens of one trimmed action body.  `else if X` is read as an
/// `else` followed by the plain action `if X`.
pub open spec fn spec_action_tokens(t: Seq<char>) -> Seq<TokV> {
    if t.len() == 0 {
        Seq::empty()
    } else if starts_with(t, lit_comment()) {
        seq![TokV::Comment]
    } else if starts_with(t, lit_end()) {
        seq![TokV::End]
    } else if starts_with(t, lit_else_if()) {
        let rest = trim_start(t.skip(7));
        if rest.len() > 0 {
            seq![TokV::Else, TokV::Other(lit_if() + seq![' '] + rest)]
        } else {
            seq![TokV::Else]
        }
    } else if starts_with(t, lit_else()) {
        seq![TokV::Else]
    } else if starts_with(t, lit_range()) {
        seq![TokV::RangeStart(trim_start(t.skip(5)))]
    } else if starts_with(t, lit_if()) {
        seq![TokV::IfStart(trim_start(t.skip(2)))]
    } else if starts_with(t, lit_with()) {
        seq![TokV::WithStart(trim_start(t.skip(4)))]
    } else {
        seq![TokV::Other(t)]
    }
}

/// The inside of `{{ ... }}` without one leading and one trailing `-`.
pub open spec fn strip_dashes(inner: Seq<char>) -> Seq<char> {
    let a = if inner.len() > 0 && inner[0] == '-' {
        inner.skip(1)
    } else {
        inner
    };
    if a.len() > 0 && a.last() == '-' {
        a.drop_last()
    } else {
        a
    }
}

/// The tokens of `s` from index `i` on.
pub open spec fn tokens_from(s: Seq<char>, i: int) -> Seq<TokV>
    decreases s.len() - i,
{
    if i < 0 || i >= s.len() {
        Seq::empty()
    } else {
        let o = find_index(s.skip(i), lit_open());
        if o < 0 {
            seq![TokV::Text(s.skip(i))]
        } else {
            let start = i + o;
            let pre = if o > 0 {
                seq![TokV::Text(s.subrange(i, start))]
            } else {
                Seq::empty()
            };
            let after = start + 2;
            let c = find_index(s.skip(after), lit_close());
            if c < 0 {
                pre + seq![TokV::Text(s.skip(start))]
            } else {
                let end = after + c;
                if i < end + 2 <= s.len() {
                    pre + spec_action_tokens(trim(strip_dashes(s.subrange(after, end))))
                        + tokens_from(s, end + 2)
                } else {
                    Seq::empty()
                }
            }
        }
    }
}

/// The tokens of a whole template.
pub open spec fn spec_tokenize(s: Seq<char>) -> Seq<TokV> {
    tokens_from(s, 0)
}

/// The tokens of one trimmed action body.
fn action_tokens(t: &[char]) -> (out: Vec<Tok>)
    ensures
        toks_view(out@) == spec_action_tokens(t@),
{
    let mut out: Vec<Tok> = Vec::new();
    if t.len() == 0 {
        assert(toks_view(out@) =~= spec_action_tokens(t@));
        return out;
    }
    let p_comment: Vec<char> = vec!['/', '*'];
    let p_end: Vec<char> = vec!['e', 'n', 'd'];
    let p_else_if: Vec<char> = vec!['e', 'l', 's', 'e', ' ', 'i', 'f'];
    let p_else: Vec<char> = vec!['e', 'l', 's', 'e'];
    let p_range: Vec<char> = vec!['r', 'a', 'n', 'g', 'e'];
    let p_if: Vec<char> = vec!['i', 'f'];
    let p_with: Vec<char> = vec!['w', 'i', 't', 'h'];
    assert(p_comment@ == lit_comment());
    assert(p_end@ == lit_end());
    assert(p_else_if@ == lit_else_if());
    assert(p_else@ == lit_else());
    assert(p_range@ == lit_range());
    assert(p_if@ == lit_if());
    assert(p_with@ == lit_with());
    if starts_with_chars(t, &p_comment) {
        out.push(Tok::Comment);
    } else if starts_with_chars(t, &p_end) {
        out.push(Tok::End);
    } else if starts_with_chars(t, &p_else_if) {
        out.push(Tok::Else);
        let tail = slice_chars(t, 7, t.len());
        assert(tail@ =~= t@.skip(7));
        let rest = trim_start_chars(&tail);
        if rest.len() > 0 {
            let mut raw: Vec<char> = vec!['i', 'f', ' '];
            let mut k: usize = 0;
            while k < rest.len()
                invariant
                    k <= rest@.len(),
                    raw@ == seq!['i', 'f', ' '] + rest@.take(k as int),
                decreases rest@.len() - k,
            {
                raw.push(rest[k]);
                assert(rest@.take(k + 1) == rest@.take(k as int).push(rest@[k as int]));
                k += 1;
            }
            assert(rest@.take(rest@.len() as int) == rest@);
            assert(raw@ == lit_if() + seq![' '] + rest@);
            out.push(Tok::Other(raw));
        }
    } else if starts_with_chars(t, &p_else) {
        out.push(Tok::Else);
    } else if starts_with_chars(t, &p_range) {
        let tail = slice_chars(t, 5, t.len());
        assert(tail@ =~= t@.skip(5));
        out.push(Tok::RangeStart(trim_start_chars(&tail)));
    } else if starts_with_chars(t, &p_if) {
        let tail = slice_chars(t, 2, t.len());
        assert(tail@ =~= t@.skip(2));
        out.push(Tok::IfStart(trim_start_chars(&tail)));
    } else if starts_with_chars(t, &p_with) {
        let tail = slice_chars(t, 4, t.len());
        assert(tail@ =~= t@.skip(4));
        out.push(Tok::WithStart(trim_start_chars(&tail)));
    } else {
        let all = slice_chars(t, 0, t.len());
        assert(all@ =~= t@);
        out.push(Tok::Other(all));
    }
    assert(toks_view(out@) =~= spec_action_tokens(t@));
    out
}

proof fn lemma_toks_view_concat(a: Seq<Tok>, b: Seq<Tok>)
    ensures
        toks_view(a + b) == toks_view(a) + toks_view(b),
{
    assert(toks_view(a + b) =~= toks_view(a) + toks_view(b));
}

/// Reads the text and the action that start at `idx`, appending their
/// tokens; gives the index after the action, or `None` when the input ended.
fn tokenize_step(input: &[char], idx: usize, toks: &mut Vec<Tok>) -> (next: Option<usize>)
    requires
        idx < input@.len(),
    ensures
        match next {
            None => toks_view(final(toks)@) == toks_view(old(toks)@) + tokens_from(input@, idx as int),
            Some(j) => idx < j <= input@.len() && toks_view(final(toks)@) + tokens_from(input@, j as int)
                == toks_view(old(toks)@) + tokens_from(input@, idx as int),
        },
{
    let ghost s = input@;
    let ghost before = toks@;
    let open: Vec<char> = vec!['{', '{'];
    let close: Vec<char> = vec!['}', '}'];
    assert(open@ == lit_open());
    assert(close@ == lit_close());
    let n = input.len();
    let rest = slice_chars(input, idx, n);
    assert(rest@ =~= s.skip(idx as int));
    proof {
        lemma_find_index(rest@, open@);
    }
    match find_chars(&rest, &open) {
        None => {
            assert(tokens_from(s, idx as int) == seq![TokV::Text(s.skip(idx as int))]);
            toks.push(Tok::Text(rest));
            assert(toks_view(toks@) =~= toks_view(before).push(TokV::Text(s.skip(idx as int))));
            None
        },
        Some(o) => {
            let start = idx + o;
            if o > 0 {
                let text = slice_chars(input, idx, start);
                toks.push(Tok::Text(text));
            }
            let ghost pre: Seq<TokV> = if o > 0 {
                seq![TokV::Text(s.subrange(idx as int, start as int))]
            } else {
                Seq::empty()
            };
            assert(toks_view(toks@) =~= toks_view(before) + pre);
            let after = start + 2;
            let rest2 = slice_chars(input, after, n);
            assert(rest2@ =~= s.skip(after as int));
            proof {
                lemma_find_index(rest2@, close@);
            }
            match find_chars(&rest2, &close) {
                None => {
                    let tail = slice_chars(input, start, n);
                    assert(tail@ =~= s.skip(start as int));
                    let ghost mid = toks@;
                    toks.push(Tok::Text(tail));
                    assert(toks_view(toks@) =~= toks_view(mid).push(TokV::Text(s.skip(start as int))));
                    assert(tokens_from(s, idx as int) == pre + seq![TokV::Text(s.skip(start as int))]);
                    assert(toks_view(toks@) =~= toks_view(before) + tokens_from(s, idx as int));
                    None
                },
                Some(c) => {
                    let end = after + c;
                    let mut lo = after;
                    let mut hi = end;
                    if lo < hi && input[lo] == '-' {
                        lo = lo + 1;
                    }
                    if lo < hi && input[hi - 1] == '-' {
                        hi = hi - 1;
                    }
                    let inner = slice_chars(input, lo, hi);
                    assert(inner@ =~= strip_dashes(s.subrange(after as int, end as int)));
                    let trimmed = trim_chars(&inner);
                    let mut acts = action_tokens(&trimmed);
                    let ghost mid = toks@;
                    let ghost acts_seq = acts@;
                    toks.append(&mut acts);
                    proof {
                        lemma_toks_view_concat(mid, acts_seq);
                    }
                    let ghost acts_v = spec_action_tokens(
                        trim(strip_dashes(s.subrange(after as int, end as int))),
                    );
                    assert(tokens_from(s, idx as int) == pre + acts_v + tokens_from(s, end + 2));
                    assert(toks_view(toks@) + tokens_from(s, end + 2) =~= toks_view(before) + (pre
                        + acts_v + tokens_from(s, end + 2)));
                    Some(end + 2)
                },
            }
        },
    }
}

/// The tokens of a whole template.
fn tokenize(input: &[char]) -> (out: Vec<Tok>)
    ensures
        toks_view(out@) == spec_tokenize(input@),
{
    let mut toks: Vec<Tok> = Vec::new();
    let n = input.len();
    let mut idx: usize = 0;
    assert(toks_view(toks@) + tokens_from(input@, 0) =~= tokens_from(input@, 0));
    while idx < n
        invariant
            n == input@.len(),
            idx <= n,
            toks_view(toks@) + tokens_from(input@, idx as int) == tokens_from(input@, 0),
        decreases n - idx,
    {
        match tokenize_step(input, idx, &mut toks) {
            None => {
                return toks;
            },
            Some(j) => {
                idx = j;
            },
        }
    }
    assert(tokens_from(input@, idx as int) =~= Seq::<TokV>::empty());
    assert(toks_view(toks@) =~= toks_view(toks@) + tokens_from(input@, idx as int));
    toks
}

// ---------------------------------------------------------------------------
// The tree
// ---------------------------------------------------------------------------

/// The kind of a block that holds a nested list.
#[derive(Debug, Clone, Copy, PartialEq, Eq)]
pub enum BranchKind {
    Range,
    If,
    With,
}

/// One node of the template tree.
pub enum Node {
    Text(Vec<char>),
    Action(Vec<char>),
    Range(Branch),
    If(Branch),
    With(Branch),
}

/// A block: its pipeline, its body and, when it has one, its `else` body.
pub struct Branch {
    pub pipe: Vec<char>,
    pub list: Vec<Node>,
    pub else_list: Option<Vec<Node>>,
}

/// The value a node stands for.
pub enum TNode {
    Text(Seq<char>),
    Action(Seq<char>),
    Range(TBranch),
    If(TBranch),
    With(TBranch),
}

/// The value a block stands for.
pub struct TBranch {
    pub pipe: Seq<char>,
    pub list: Seq<TNode>,
    pub else_list: Option<Seq<TNode>>,
}

pub open spec fn node_view(n: Node) -> TNode
    decreases n,
{
    match n {
        Node::Text(t) => TNode::Text(t@),
        Node::Action(r) => TNode::Action(r@),
        Node::Range(b) => TNode::Range(branch_view(b)),
        Node::If(b) => TNode::If(branch_view(b)),
        Node::With(b) => TNode::With(branch_view(b)),
    }
}

pub open spec fn branch_view(b: Branch) -> TBranch
    decreases b,
{
    TBranch {
        pipe: b.pipe@,
        list: nodes_view(b.list@),
        else_list: match b.else_list {
            Some(e) => Some(nodes_view(e@)),
            None => None,
        },
    }
}

pub open spec fn nodes_view(s: Seq<Node>) -> Seq<TNode>
    decreases s,
{
    Seq::new(
        s.len(),
        |i: int|
            if 0 <= i < s.len() {
                node_view(s[i])
            } else {
                TNode::Text(Seq::empty())
            },
    )
}

proof fn lemma_nodes_view_push(s: Seq<Node>, n: Node)
    ensures
        nodes_view(s.push(n)) == nodes_view(s).push(node_view(n)),
{
    assert(nodes_view(s.push(n)) =~= nodes_view(s).push(node_view(n)));
}

/// A block built from its kind, pipeline, body and `else` body; an empty
/// `else` body counts as none.
pub open spec fn spec_node_from_branch(
    kind: BranchKind,
    pipe: Seq<char>,
    main: Seq<TNode>,
    else_nodes: Seq<TNode>,
) -> TNode {
    let b = TBranch {
        pipe,
        list: main,
        else_list: if else_nodes.len() == 0 {
            None
        } else {
            Some(else_nodes)
        },
    };
    match kind {
        BranchKind::Range => TNode::Range(b),
        BranchKind::If => TNode::If(b),
        BranchKind::With => TNode::With(b),
    }
}

fn node_from_branch(kind: BranchKind, pipe: Vec<char>, main: Vec<Node>, else_nodes: Vec<Node>) -> (n:
    Node)
    ensures
        node_view(n) == spec_node_from_branch(
            kind,
            pipe@,
            nodes_view(main@),
            nodes_view(else_nodes@),
        ),
{
    let else_list = if else_nodes.len() == 0 {
        None
    } else {
        Some(else_nodes)
    };
    let b = Branch { pipe, list: main, else_list };
    match kind {
        BranchKind::Range => Node::Range(b),
        BranchKind::If => Node::If(b),
        BranchKind::With => Node::With(b),
    }
}

// ---------------------------------------------------------------------------
// Parsing tokens into the tree
// ---------------------------------------------------------------------------

/// An open list while parsing: the top level, or a block being filled.
pub enum Ctx {
    List(Vec<Node>),
    Branch(BranchKind, Vec<char>, Vec<Node>, Vec<Node>, bool),
}

/// The value of an open list.
pub enum CtxV {
    List(Seq<TNode>),
    Branch(BranchKind, Seq<char>, Seq<TNode>, Seq<TNode>, bool),
}

pub open spec fn ctx_view(c: Ctx) -> CtxV {
    match c {
        Ctx::List(ns) => CtxV::List(nodes_view(ns@)),
        Ctx::Branch(k, p, m, e, ie) => CtxV::Branch(k, p@, nodes_view(m@), nodes_view(e@), ie),
    }
}

pub open spec fn stack_view(st: Seq<Ctx>) -> Seq<CtxV> {
    st.map_values(|c: Ctx| ctx_view(c))
}

/// `n` added to the list the parser is filling: the top level, a block's
/// body, or its `else` body once `else` was seen.
pub open spec fn push_cur(st: Seq<CtxV>, n: TNode) -> Seq<CtxV> {
    if st.len() == 0 {
        st
    } else {
        let top = match st.last() {
            CtxV::List(ns) => CtxV::List(ns.push(n)),
            CtxV::Branch(k, p, m, e, ie) => if ie {
                CtxV::Branch(k, p, m, e.push(n), ie)
            } else {
                CtxV::Branch(k, p, m.push(n), e, ie)
            },
        };
        st.drop_last().push(top)
    }
}

/// The innermost block closed and added to its parent.
pub open spec fn close_top(st: Seq<CtxV>) -> Seq<CtxV> {
    if st.len() == 0 {
        st
    } else {
        match st.last() {
            CtxV::Branch(k, p, m, e, _) => push_cur(st.drop_last(), spec_node_from_branch(k, p, m, e)),
            CtxV::List(_) => st.drop_last(),
        }
    }
}

/// One token read by the parser.
pub open spec fn parse_step(st: Seq<CtxV>, t: TokV) -> Seq<CtxV> {
    match t {
        TokV::Text(x) => push_cur(st, TNode::Text(x)),
        TokV::Comment => st,
        TokV::Else => if st.len() > 0 {
            match st.last() {
                CtxV::Branch(k, p, m, e, _) => st.drop_last().push(CtxV::Branch(k, p, m, e, true)),
                CtxV::List(_) => st,
            }
        } else {
            st
        },
        TokV::End => if st.len() <= 1 {
            st
        } else {
            close_top(st)
        },
        TokV::RangeStart(p) => st.push(
            CtxV::Branch(BranchKind::Range, p, Seq::empty(), Seq::empty(), false),
        ),
        TokV::IfStart(p) => st.push(CtxV::Branch(BranchKind::If, p, Seq::empty(), Seq::empty(), false)),
        TokV::WithStart(p) => st.push(
            CtxV::Branch(BranchKind::With, p, Seq::empty(), Seq::empty(), false),
        ),
        TokV::Other(r) => push_cur(st, TNode::Action(r)),
    }
}

/// The parser's open lists after reading `toks`.
pub open spec fn parse_run(st: Seq<CtxV>, toks: Seq<TokV>) -> Seq<CtxV>
    decreases toks.len(),
{
    if toks.len() == 0 {
        st
    } else {
        parse_run(parse_step(st, toks[0]), toks.drop_first())
    }
}

/// Every block still open at the end closed, innermost first.
pub open spec fn parse_finish(st: Seq<CtxV>) -> Seq<CtxV>
    decreases st.len(),
{
    if st.len() <= 1 {
        st
    } else {
        parse_finish(close_top(st))
    }
}

/// The top-level list.
pub open spec fn parse_root(st: Seq<CtxV>) -> Seq<TNode> {
    if st.len() > 0 {
        match st[0] {
            CtxV::List(ns) => ns,
            CtxV::Branch(..) => Seq::empty(),
        }
    } else {
        Seq::empty()
    }
}

/// The tree of a token sequence.
pub open spec fn spec_parse(toks: Seq<TokV>) -> Seq<TNode> {
    parse_root(parse_finish(parse_run(seq![CtxV::List(Seq::empty())], toks)))
}

proof fn lemma_stack_view_push(st: Seq<Ctx>, c: Ctx)
    ensures
        stack_view(st.push(c)) == stack_view(st).push(ctx_view(c)),
{
    assert(stack_view(st.push(c)) =~= stack_view(st).push(ctx_view(c)));
}

proof fn lemma_stack_view_drop_last(st: Seq<Ctx>)
    requires
        st.len() > 0,
    ensures
        stack_view(st.drop_last()) == stack_view(st).drop_last(),
        stack_view(st).last() == ctx_view(st.last()),
{
    assert(stack_view(st.drop_last()) =~= stack_view(st).drop_last());
}

fn push_cur_exec(stack: &mut Vec<Ctx>, n: Node)
    ensures
        stack_view(final(stack)@) == push_cur(stack_view(old(stack)@), node_view(n)),
        final(stack)@.len() == old(stack)@.len(),
{
    let ghost old_st = stack@;
    match stack.pop() {
        None => {},
        Some(top) => {
            proof {
                lemma_stack_view_drop_last(old_st);
            }
            let top2 = match top {
                Ctx::List(mut ns) => {
                    proof {
                        lemma_nodes_view_push(ns@, n);
                    }
                    ns.push(n);
                    Ctx::List(ns)
                },
                Ctx::Branch(k, p, mut m, mut e, ie) => {
                    if ie {
                        proof {
                            lemma_nodes_view_push(e@, n);
                        }
                        e.push(n);
                    } else {
                        proof {
                            lemma_nodes_view_push(m@, n);
                        }
                        m.push(n);
                    }
                    Ctx::Branch(k, p, m, e, ie)
                },
            };
            let ghost mid = stack@;
            stack.push(top2);
            proof {
                lemma_stack_view_push(mid, top2);
            }
        },
    }
}

fn close_top_exec(stack: &mut Vec<Ctx>)
    ensures
        stack_view(final(stack)@) == close_top(stack_view(old(stack)@)),
        old(stack)@.len() > 0 ==> final(stack)@.len() == old(stack)@.len() - 1,
{
    let ghost old_st = stack@;
    match stack.pop() {
        None => {},
        Some(top) => {
            proof {
                lemma_stack_view_drop_last(old_st);
            }
            match top {
                Ctx::Branch(k, p, m, e, _) => {
                    let node = node_from_branch(k, p, m, e);
                    push_cur_exec(stack, node);
                },
                Ctx::List(_) => {},
            }
        },
    }
}

fn parse_step_exec(stack: &mut Vec<Ctx>, t: Tok)
    ensures
        stack_view(final(stack)@) == parse_step(stack_view(old(stack)@), t@),
{
    let ghost old_st = stack@;
    match t {
        Tok::Text(x) => push_cur_exec(stack, Node::Text(x)),
        Tok::Comment => {},
        Tok::Else => {
            let len = stack.len();
            if len > 0 {
                proof {
                    lemma_stack_view_drop_last(old_st);
                }
                let top = stack.pop().unwrap();
                let top2 = match top {
                    Ctx::Branch(k, p, m, e, _) => Ctx::Branch(k, p, m, e, true),
                    other => other,
                };
                let ghost mid = stack@;
                stack.push(top2);
                proof {
                    lemma_stack_view_push(mid, top2);
                    if old_st.last() is List {
                        assert(stack@ =~= old_st);
                    }
                }
            }
        },
        Tok::End => {
            if stack.len() > 1 {
                close_top_exec(stack);
            }
        },
        Tok::RangeStart(p) => {
            let c = Ctx::Branch(BranchKind::Range, p, Vec::new(), Vec::new(), false);
            stack.push(c);
            proof {
                lemma_stack_view_push(old_st, c);
                assert(nodes_view(Seq::<Node>::empty()) =~= Seq::<TNode>::empty());
            }
        },
        Tok::IfStart(p) => {
            let c = Ctx::Branch(BranchKind::If, p, Vec::new(), Vec::new(), false);
            stack.push(c);
            proof {
                lemma_stack_view_push(old_st, c);
                assert(nodes_view(Seq::<Node>::empty()) =~= Seq::<TNode>::empty());
            }
        },
        Tok::WithStart(p) => {
            let c = Ctx::Branch(BranchKind::With, p, Vec::new(), Vec::new(), false);
            stack.push(c);
            proof {
                lemma_stack_view_push(old_st, c);
                assert(nodes_view(Seq::<Node>::empty()) =~= Seq::<TNode>::empty());
            }
        },
        Tok::Other(r) => push_cur_exec(stack, Node::Action(r)),
    }
}

proof fn lemma_parse_run_unfold(st: Seq<CtxV>, tv: Seq<TokV>, i: int)
    requires
        0 <= i < tv.len(),
    ensures
        parse_run(st, tv.skip(i)) == parse_run(parse_step(st, tv[i]), tv.skip(i + 1)),
{
    assert(tv.skip(i).drop_first() =~= tv.skip(i + 1));
}

/// The tree of a token sequence.
fn parse_template(toks: Vec<Tok>) -> (out: Vec<Node>)
    ensures
        nodes_view(out@) == spec_parse(toks_view(toks@)),
{
    let ghost tv = toks_view(toks@);
    let ghost init = seq![CtxV::List(Seq::empty())];
    let mut stack: Vec<Ctx> = Vec::new();
    stack.push(Ctx::List(Vec::new()));
    assert(stack_view(stack@) =~= init) by {
        assert(nodes_view(Seq::<Node>::empty()) =~= Seq::<TNode>::empty());
    }
    assert(tv.skip(0) =~= tv);
    for t in it: toks
        invariant
            tv == toks_view(it.seq()),
            parse_run(stack_view(stack@), tv.skip(it.index() as int)) == parse_run(init, tv),
    {
        proof {
            lemma_parse_run_unfold(stack_view(stack@), tv, it.index() as int);
        }
        parse_step_exec(&mut stack, t);
    }
    assert(tv.skip(tv.len() as int) =~= Seq::<TokV>::empty());
    let ghost ran = stack_view(stack@);
    assert(ran == parse_run(init, tv));
    while stack.len() > 1
        invariant
            parse_finish(stack_view(stack@)) == parse_finish(ran),
        decreases stack@.len(),
    {
        close_top_exec(&mut stack);
    }
    let ghost fin = stack_view(stack@);
    assert(fin == parse_finish(ran));
    match stack.pop() {
        None => Vec::new(),
        Some(Ctx::List(ns)) => ns,
        Some(Ctx::Branch(..)) => Vec::new(),
    }
}

// ---------------------------------------------------------------------------
// Fields named in a pipeline
// ---------------------------------------------------------------------------

/// A character that may start an identifier.
pub open spec fn is_ident_start(c: char) -> bool {
    c == '_' || ('a' <= c && c <= 'z') || ('A' <= c && c <= 'Z')
}

/// A character that may continue an identifier.
pub open spec fn is_ident_char(c: char) -> bool {
    is_ident_start(c) || ('0' <= c && c <= '9')
}

/// The end of the identifier characters that start at `i`.
pub open spec fn ident_end(s: Seq<char>, i: int) -> int
    decreases s.len() - i,
{
    if 0 <= i < s.len() && is_ident_char(s[i]) {
        ident_end(s, i + 1)
    } else {
        i
    }
}

/// The identifiers of a chain `a.b.c` that starts at `i`, and the index
/// where reading goes on: after the last identifier, or after a `.` that
/// no identifier follows.
pub open spec fn chain_from(s: Seq<char>, i: int) -> (Seq<Seq<char>>, int)
    decreases s.len() - i,
{
    let e = ident_end(s, i);
    let id = s.subrange(i, e);
    if i <= e && e + 1 < s.len() && s[e] == '.' && is_ident_start(s[e + 1]) {
        let r = chain_from(s, e + 1);
        (seq![id] + r.0, r.1)
    } else if 0 <= e < s.len() && s[e] == '.' {
        (seq![id], e + 1)
    } else {
        (seq![id], e)
    }
}

/// The field chains named in `s` from index `i` on: each `.` followed by an
/// identifier starts one.
pub open spec fn fields_from(s: Seq<char>, i: int) -> Seq<Seq<Seq<char>>>
    decreases s.len() - i,
{
    if i < 0 || i >= s.len() {
        Seq::empty()
    } else if s[i] == '.' {
        if i + 1 >= s.len() {
            Seq::empty()
        } else if !is_ident_start(s[i + 1]) {
            fields_from(s, i + 1)
        } else {
            let r = chain_from(s, i + 1);
            if i < r.1 <= s.len() {
                seq![r.0] + fields_from(s, r.1)
            } else {
                Seq::empty()
            }
        }
    } else {
        fields_from(s, i + 1)
    }
}

/// The field chains named in `s`.
pub open spec fn spec_extract_fields(s: Seq<char>) -> Seq<Seq<Seq<char>>> {
    fields_from(s, 0)
}

/// Some chain in `s` starts with `name`.
pub open spec fn uses_field(s: Seq<char>, name: Seq<char>) -> bool {
    exists|k: int|
        0 <= k < spec_extract_fields(s).len() && #[trigger] spec_extract_fields(s)[k].len() > 0
            && spec_extract_fields(s)[k][0] == name
}

pub open spec fn chain_view(c: Seq<Vec<char>>) -> Seq<Seq<char>> {
    c.map_values(|x: Vec<char>| x@)
}

pub open spec fn fields_view(f: Seq<Vec<Vec<char>>>) -> Seq<Seq<Seq<char>>> {
    f.map_values(|c: Vec<Vec<char>>| chain_view(c@))
}

proof fn lemma_ident_end(s: Seq<char>, i: int)
    requires
        0 <= i <= s.len(),
    ensures
        i <= ident_end(s, i) <= s.len(),
        forall|k: int| i <= k < ident_end(s, i) ==> is_ident_char(#[trigger] s[k]),
        ident_end(s, i) < s.len() ==> !is_ident_char(s[ident_end(s, i)]),
    decreases s.len() - i,
{
    if i < s.len() && is_ident_char(s[i]) {
        lemma_ident_end(s, i + 1);
    }
}

proof fn lemma_chain_from(s: Seq<char>, i: int)
    requires
        0 <= i < s.len(),
        is_ident_start(s[i]),
    ensures
        i < chain_from(s, i).1 <= s.len(),
        chain_from(s, i).0.len() > 0,
        chain_from(s, i).0[0] == s.subrange(i, ident_end(s, i)),
    decreases s.len() - i,
{
    lemma_ident_end(s, i);
    let e = ident_end(s, i);
    if i <= e && e + 1 < s.len() && s[e] == '.' && is_ident_start(s[e + 1]) {
        lemma_chain_from(s, e + 1);
    }
}

fn is_ident_start_exec(c: char) -> (r: bool)
    ensures
        r == is_ident_start(c),
{
    c == '_' || ('a' <= c && c <= 'z') || ('A' <= c && c <= 'Z')
}

fn is_ident_char_exec(c: char) -> (r: bool)
    ensures
        r == is_ident_char(c),
{
    is_ident_start_exec(c) || ('0' <= c && c <= '9')
}

/// The chain that starts at `i`, and where reading goes on.
fn chain_exec(s: &[char], i: usize) -> (r: (Vec<Vec<char>>, usize))
    requires
        i < s@.len(),
        is_ident_start(s@[i as int]),
    ensures
        (chain_view(r.0@), r.1 as int) == chain_from(s@, i as int),
{
    let n = s.len();
    let mut idents: Vec<Vec<char>> = Vec::new();
    let mut cur = i;
    proof {
        lemma_chain_from(s@, i as int);
    }
    assert(chain_view(idents@) + chain_from(s@, cur as int).0 =~= chain_from(s@, i as int).0);
    loop
        invariant
            n == s@.len(),
            cur < n,
            is_ident_start(s@[cur as int]),
            chain_view(idents@) + chain_from(s@, cur as int).0 == chain_from(s@, i as int).0,
            chain_from(s@, cur as int).1 == chain_from(s@, i as int).1,
        decreases n - cur,
    {
        let start = cur;
        let mut k = cur;
        proof {
            lemma_ident_end(s@, start as int);
        }
        while k < n && is_ident_char_exec(s[k])
            invariant
                n == s@.len(),
                start <= k <= n,
                ident_end(s@, start as int) == ident_end(s@, k as int),
            decreases n - k,
        {
            k += 1;
        }
        let e = k;
        let id = slice_chars(s, start, e);
        let ghost before = idents@;
        idents.push(id);
        assert(chain_view(idents@) =~= chain_view(before).push(s@.subrange(start as int, e as int)));
        if e < n && s[e] == '.' && e + 1 < n && is_ident_start_exec(s[e + 1]) {
            let ghost r = chain_from(s@, e + 1);
            assert(chain_from(s@, start as int) == (seq![s@.subrange(start as int, e as int)] + r.0, r.1));
            assert(chain_view(idents@) + r.0 =~= chain_view(before) + (seq![
                s@.subrange(start as int, e as int),
            ] + r.0));
            cur = e + 1;
        } else if e < n && s[e] == '.' {
            assert(chain_view(idents@) =~= chain_view(before) + chain_from(s@, start as int).0);
            return (idents, e + 1);
        } else {
            assert(chain_view(idents@) =~= chain_view(before) + chain_from(s@, start as int).0);
            return (idents, e);
        }
    }
}

/// The field chains named in `source`.
fn extract_fields(source: &[char]) -> (out: Vec<Vec<Vec<char>>>)
    ensures
        fields_view(out@) == spec_extract_fields(source@),
{
    let n = source.len();
    let mut fields: Vec<Vec<Vec<char>>> = Vec::new();
    let mut i: usize = 0;
    assert(fields_view(fields@) + fields_from(source@, 0) =~= fields_from(source@, 0));
    while i < n
        invariant
            n == source@.len(),
            i <= n,
            fields_view(fields@) + fields_from(source@, i as int) == fields_from(source@, 0),
        decreases n - i,
    {
        if source[i] == '$' && i + 1 < n && source[i + 1] == '.' {
            assert(fields_from(source@, i as int) == fields_from(source@, i + 1));
            i += 1;
        }
        if source[i] == '.' {
            if i + 1 >= n {
                assert(fields_from(source@, i as int) =~= Seq::<Seq<Seq<char>>>::empty());
                assert(fields_view(fields@) =~= fields_view(fields@) + fields_from(source@, i as int));
                return fields;
            }
            if !is_ident_start_exec(source[i + 1]) {
                assert(fields_from(source@, i as int) == fields_from(source@, i + 1));
                i += 1;
            } else {
                proof {
                    lemma_chain_from(source@, i + 1);
                }
                let (chain, j) = chain_exec(source, i + 1);
                let ghost before = fields@;
                let ghost r = chain_from(source@, i + 1);
                fields.push(chain);
                assert(fields_view(fields@) =~= fields_view(before).push(r.0));
                assert(fields_from(source@, i as int) == seq![r.0] + fields_from(source@, j as int));
                assert(fields_view(fields@) + fields_from(source@, j as int) =~= fields_view(before)
                    + (seq![r.0] + fields_from(source@, j as int)));
                i = j;
            }
        } else {
            assert(fields_from(source@, i as int) == fields_from(source@, i + 1));
            i += 1;
        }
    }
    assert(fields_from(source@, i as int) =~= Seq::<Seq<Seq<char>>>::empty());
    assert(fields_view(fields@) =~= fields_view(fields@) + fields_from(source@, i as int));
    fields
}

/// Whether some chain named in `source` starts with `name`.
fn uses_field_exec(source: &[char], name: &[char]) -> (r: bool)
    ensures
        r == uses_field(source@, name@),
{
    let fields = extract_fields(source);
    let ghost f = spec_extract_fields(source@);
    let mut k: usize = 0;
    while k < fields.len()
        invariant
            fields_view(fields@) == f,
            f == spec_extract_fields(source@),
            k <= fields@.len(),
            forall|j: int| 0 <= j < k ==> !(#[trigger] f[j].len() > 0 && f[j][0] == name@),
        decreases fields@.len() - k,
    {
        let chain = &fields[k];
        assert(chain_view(chain@) == f[k as int]);
        if chain.len() > 0 {
            if chars_eq(&chain[0], name) {
                assert(f[k as int].len() > 0 && f[k as int][0] == name@);
                return true;
            }
        }
        k += 1;
    }
    false
}

// ---------------------------------------------------------------------------
// Walking the tree
// ---------------------------------------------------------------------------

/// What encloses a node during the walk: a list, or a `range` block with its
/// pipeline.
pub enum AncV {
    List(Seq<TNode>),
    Range(Seq<char>),
}

pub open spec fn lit_messages() -> Seq<char> {
    seq!['M', 'e', 's', 's', 'a', 'g', 'e', 's']
}

pub open spec fn lit_thinking() -> Seq<char> {
    seq!['T', 'h', 'i', 'n', 'k', 'i', 'n', 'g']
}

/// Tags as sequences of characters, opening then closing.
pub type TagsV = (Seq<char>, Seq<char>);

/// The trimmed text of a text node.
pub open spec fn edge_text(n: TNode) -> Option<Seq<char>> {
    match n {
        TNode::Text(t) => Some(trim(t)),
        _ => None,
    }
}

pub open spec fn text_or_empty(o: Option<Seq<char>>) -> Seq<char> {
    match o {
        Some(t) => t,
        None => Seq::empty(),
    }
}

/// The tags a list offers: the trimmed text that opens it and the one that
/// closes it, when at least one of its ends is text.
pub open spec fn list_tags(ns: Seq<TNode>) -> Option<TagsV> {
    let o = if ns.len() > 0 {
        edge_text(ns[0])
    } else {
        None
    };
    let c = if ns.len() > 0 {
        edge_text(ns.last())
    } else {
        None
    };
    if o is Some || c is Some {
        Some((text_or_empty(o), text_or_empty(c)))
    } else {
        None
    }
}

/// The pipeline of the innermost enclosing `range` block.
pub open spec fn nearest_range(anc: Seq<AncV>) -> Option<Seq<char>>
    decreases anc.len(),
{
    if anc.len() == 0 {
        None
    } else {
        match anc.last() {
            AncV::Range(p) => Some(p),
            AncV::List(_) => nearest_range(anc.drop_last()),
        }
    }
}

/// The tags of the innermost enclosing list that offers some.
pub open spec fn nearest_tags(anc: Seq<AncV>) -> Option<TagsV>
    decreases anc.len(),
{
    if anc.len() == 0 {
        None
    } else {
        match anc.last() {
            AncV::List(ns) => match list_tags(ns) {
                Some(t) => Some(t),
                None => nearest_tags(anc.drop_last()),
            },
            AncV::Range(_) => nearest_tags(anc.drop_last()),
        }
    }
}

/// The tags found for a `.Thinking` field under `anc`: none unless the
/// innermost `range` walks over `.Messages`.
pub open spec fn infer_from_ancestors(anc: Seq<AncV>) -> Option<TagsV> {
    match nearest_range(anc) {
        None => None,
        Some(p) => if uses_field(p, lit_messages()) {
            nearest_tags(anc)
        } else {
            None
        },
    }
}

/// What a pipeline or action yields: tags when it is a field access that
/// names `.Thinking`.
pub open spec fn inspect(source: Seq<char>, anc: Seq<AncV>) -> Option<TagsV> {
    if starts_with(trim_start(source), seq!['.']) && uses_field(source, lit_thinking()) {
        infer_from_ancestors(anc)
    } else {
        None
    }
}

pub open spec fn first_some(a: Option<TagsV>, b: Option<TagsV>) -> Option<TagsV> {
    if a is Some {
        a
    } else {
        b
    }
}

/// The first tags found in a node, in template order.
pub open spec fn trav_node(n: TNode, anc: Seq<AncV>) -> Option<TagsV>
    decreases n,
{
    match n {
        TNode::Text(_) => None,
        TNode::Action(r) => inspect(r, anc),
        TNode::Range(b) => trav_branch(b, anc.push(AncV::Range(b.pipe))),
        TNode::If(b) => trav_branch(b, anc),
        TNode::With(b) => trav_branch(b, anc),
    }
}

/// The first tags found in a block: its pipeline, its body, its `else` body.
pub open spec fn trav_branch(b: TBranch, anc: Seq<AncV>) -> Option<TagsV>
    decreases b,
{
    first_some(
        inspect(b.pipe, anc),
        first_some(
            trav_items(b.list, anc.push(AncV::List(b.list))),
            match b.else_list {
                Some(e) => trav_items(e, anc.push(AncV::List(e))),
                None => None,
            },
        ),
    )
}

/// The first tags found in the nodes of a list, in order.
pub open spec fn trav_items(items: Seq<TNode>, anc: Seq<AncV>) -> Option<TagsV>
    decreases items,
{
    if items.len() == 0 {
        None
    } else {
        first_some(trav_node(items[0], anc), trav_items(items.drop_first(), anc))
    }
}

/// The tags of a template: opening and closing text around `.Thinking`, or
/// two empty strings.
pub open spec fn spec_infer_tags(s: Seq<char>) -> TagsV {
    let root = spec_parse(spec_tokenize(s));
    match trav_items(root, seq![AncV::List(root)]) {
        Some(t) => t,
        None => (Seq::empty(), Seq::empty()),
    }
}

/// What the walk keeps of the enclosing nodes: whether the innermost `range`
/// walks over `.Messages` (none when no `range` encloses), and the tags of
/// the innermost list that offers some.
struct Summary {
    range: Option<bool>,
    tags: Option<(Vec<char>, Vec<char>)>,
}

spec fn tags_view(t: Option<(Vec<char>, Vec<char>)>) -> Option<TagsV> {
    match t {
        Some((a, b)) => Some((a@, b@)),
        None => None,
    }
}

spec fn summarizes(sm: Summary, anc: Seq<AncV>) -> bool {
    &&& sm.range == (match nearest_range(anc) {
        Some(p) => Some(uses_field(p, lit_messages())),
        None => None,
    })
    &&& tags_view(sm.tags) == nearest_tags(anc)
}

fn copy_chars(v: &Vec<char>) -> (out: Vec<char>)
    ensures
        out@ == v@,
{
    let out = slice_chars(v, 0, v.len());
    assert(out@ =~= v@);
    out
}

fn copy_tags(t: &Option<(Vec<char>, Vec<char>)>) -> (r: Option<(Vec<char>, Vec<char>)>)
    ensures
        tags_view(r) == tags_view(*t),
{
    match t {
        Some((a, b)) => Some((copy_chars(a), copy_chars(b))),
        None => None,
    }
}

fn edge_text_exec(n: &Node) -> (r: Option<Vec<char>>)
    ensures
        match r {
            Some(t) => edge_text(node_view(*n)) == Some(t@),
            None => edge_text(node_view(*n)) is None,
        },
{
    match n {
        Node::Text(t) => Some(trim_chars(t)),
        _ => None,
    }
}

fn list_tags_exec(ns: &Vec<Node>) -> (r: Option<(Vec<char>, Vec<char>)>)
    ensures
        tags_view(r) == list_tags(nodes_view(ns@)),
{
    let ghost nv = nodes_view(ns@);
    if ns.len() == 0 {
        return None;
    }
    assert(nv[0] == node_view(ns@[0]));
    assert(nv.last() == node_view(ns@[ns@.len() - 1]));
    let o = edge_text_exec(&ns[0]);
    let c = edge_text_exec(&ns[ns.len() - 1]);
    if o.is_none() && c.is_none() {
        return None;
    }
    let o2 = match o {
        Some(t) => t,
        None => Vec::new(),
    };
    let c2 = match c {
        Some(t) => t,
        None => Vec::new(),
    };
    assert(o2@ == text_or_empty(edge_text(nv[0])));
    assert(c2@ == text_or_empty(edge_text(nv.last())));
    Some((o2, c2))
}

/// The summary once the list `ns` encloses the walk.
fn enter_list(ns: &Vec<Node>, sm: &Summary, Ghost(anc): Ghost<Seq<AncV>>) -> (r: Summary)
    requires
        summarizes(*sm, anc),
    ensures
        summarizes(r, anc.push(AncV::List(nodes_view(ns@)))),
{
    let ghost a2 = anc.push(AncV::List(nodes_view(ns@)));
    assert(a2.drop_last() =~= anc);
    let own = list_tags_exec(ns);
    let tags = match own {
        Some(t) => Some(t),
        None => copy_tags(&sm.tags),
    };
    Summary { range: sm.range, tags }
}

/// The summary once a `range` block with pipeline `pipe` encloses the walk.
fn enter_range(pipe: &Vec<char>, sm: &Summary, Ghost(anc): Ghost<Seq<AncV>>) -> (r: Summary)
    requires
        summarizes(*sm, anc),
    ensures
        summarizes(r, anc.push(AncV::Range(pipe@))),
{
    let ghost a2 = anc.push(AncV::Range(pipe@));
    assert(a2.drop_last() =~= anc);
    let messages: Vec<char> = vec!['M', 'e', 's', 's', 'a', 'g', 'e', 's'];
    assert(messages@ == lit_messages());
    let uses = uses_field_exec(pipe, &messages);
    Summary { range: Some(uses), tags: copy_tags(&sm.tags) }
}

/// What a pipeline or action yields under the enclosing nodes.
fn inspect_exec(source: &[char], sm: &Summary, Ghost(anc): Ghost<Seq<AncV>>) -> (r: Option<
    (Vec<char>, Vec<char>),
>)
    requires
        summarizes(*sm, anc),
    ensures
        tags_view(r) == inspect(source@, anc),
{
    let t = trim_start_chars(source);
    let allow = t.len() > 0 && t[0] == '.';
    assert(allow == starts_with(trim_start(source@), seq!['.'])) by {
        if t@.len() > 0 {
            if t@[0] == '.' {
                assert(t@.take(1) =~= seq!['.']);
            } else {
                assert(t@.take(1)[0] != seq!['.'][0]);
            }
        }
    }
    if !allow {
        return None;
    }
    let thinking: Vec<char> = vec!['T', 'h', 'i', 'n', 'k', 'i', 'n', 'g'];
    assert(thinking@ == lit_thinking());
    if !uses_field_exec(source, &thinking) {
        return None;
    }
    match sm.range {
        Some(true) => copy_tags(&sm.tags),
        _ => None,
    }
}

/// The first tags found in a node.
fn trav_node_exec(n: &Node, sm: &Summary, Ghost(anc): Ghost<Seq<AncV>>) -> (r: Option<
    (Vec<char>, Vec<char>),
>)
    requires
        summarizes(*sm, anc),
    ensures
        tags_view(r) == trav_node(node_view(*n), anc),
    decreases *n,
{
    match n {
        Node::Text(_) => None,
        Node::Action(raw) => inspect_exec(raw, sm, Ghost(anc)),
        Node::Range(b) => {
            let sm2 = enter_range(&b.pipe, sm, Ghost(anc));
            trav_branch_exec(b, &sm2, Ghost(anc.push(AncV::Range(b.pipe@))))
        },
        Node::If(b) => trav_branch_exec(b, sm, Ghost(anc)),
        Node::With(b) => trav_branch_exec(b, sm, Ghost(anc)),
    }
}

/// The first tags found in a block.
fn trav_branch_exec(b: &Branch, sm: &Summary, Ghost(anc): Ghost<Seq<AncV>>) -> (r: Option<
    (Vec<char>, Vec<char>),
>)
    requires
        summarizes(*sm, anc),
    ensures
        tags_view(r) == trav_branch(branch_view(*b), anc),
    decreases *b,
{
    let ghost bv = branch_view(*b);
    let a = inspect_exec(&b.pipe, sm, Ghost(anc));
    if a.is_some() {
        return a;
    }
    let sm_body = enter_list(&b.list, sm, Ghost(anc));
    let body = trav_items_exec(&b.list, &sm_body, Ghost(anc.push(AncV::List(bv.list))));
    if body.is_some() {
        return body;
    }
    match &b.else_list {
        Some(e) => {
            let sm_else = enter_list(e, sm, Ghost(anc));
            trav_items_exec(e, &sm_else, Ghost(anc.push(AncV::List(nodes_view(e@)))))
        },
        None => None,
    }
}

/// The first tags found in the nodes of a list.
fn trav_items_exec(items: &Vec<Node>, sm: &Summary, Ghost(anc): Ghost<Seq<AncV>>) -> (r: Option<
    (Vec<char>, Vec<char>),
>)
    requires
        summarizes(*sm, anc),
    ensures
        tags_view(r) == trav_items(nodes_view(items@), anc),
    decreases items@,
{
    let ghost nv = nodes_view(items@);
    let mut i: usize = 0;
    assert(nv.skip(0) =~= nv);
    while i < items.len()
        invariant
            i <= items@.len(),
            nv == nodes_view(items@),
            summarizes(*sm, anc),
            trav_items(nv, anc) == trav_items(nv.skip(i as int), anc),
        decreases items@.len() - i,
    {
        assert(nv.skip(i as int)[0] == node_view(items@[i as int]));
        assert(nv.skip(i as int).drop_first() =~= nv.skip(i + 1));
        let r = trav_node_exec(&items[i], sm, Ghost(anc));
        if r.is_some() {
            return r;
        }
        i += 1;
    }
    assert(nv.skip(i as int) =~= Seq::<TNode>::empty());
    None
}

/// Infers the opening and closing tags that surround thinking traces in a
/// chat template; two empty strings when none can be inferred.
pub fn infer_tags(tmpl: &str) -> (r: (String, String))
    ensures
        (r.0@, r.1@) == spec_infer_tags(tmpl@),
{
    let chars = chars_of(tmpl);
    let toks = tokenize(&chars);
    let root = parse_template(toks);
    let ghost rv = nodes_view(root@);
    let sm0 = Summary { range: None, tags: None };
    let sm = enter_list(&root, &sm0, Ghost(Seq::empty()));
    let ghost anc = seq![AncV::List(rv)];
    assert(Seq::<AncV>::empty().push(AncV::List(rv)) =~= anc);
    match trav_items_exec(&root, &sm, Ghost(anc)) {
        Some((o, c)) => (string_from(&o), string_from(&c)),
        None => (String::new(), String::new()),
    }
}

// ---------------------------------------------------------------------------
// Laws
// ---------------------------------------------------------------------------

/// Both tags, when there are tags, carry no surrounding whitespace.
pub open spec fn tags_trimmed(o: Option<TagsV>) -> bool {
    match o {
        Some(t) => trim(t.0) == t.0 && trim(t.1) == t.1,
        None => true,
    }
}

proof fn lemma_trim_empty()
    ensures
        trim(Seq::<char>::empty()) == Seq::<char>::empty(),
{
    assert(trim(Seq::<char>::empty()) =~= Seq::<char>::empty());
}

proof fn lemma_list_tags_trimmed(ns: Seq<TNode>)
    ensures
        tags_trimmed(list_tags(ns)),
{
    lemma_trim_empty();
    if ns.len() > 0 {
        if let TNode::Text(t) = ns[0] {
            lemma_trim_idempotent(t);
        }
        if let TNode::Text(t) = ns.last() {
            lemma_trim_idempotent(t);
        }
    }
}

proof fn lemma_nearest_tags_trimmed(anc: Seq<AncV>)
    ensures
        tags_trimmed(nearest_tags(anc)),
    decreases anc.len(),
{
    if anc.len() > 0 {
        lemma_nearest_tags_trimmed(anc.drop_last());
        if let AncV::List(ns) = anc.last() {
            lemma_list_tags_trimmed(ns);
        }
    }
}

proof fn lemma_trav_node_trimmed(n: TNode, anc: Seq<AncV>)
    ensures
        tags_trimmed(trav_node(n, anc)),
    decreases n,
{
    match n {
        TNode::Text(_) => {},
        TNode::Action(_) => lemma_nearest_tags_trimmed(anc),
        TNode::Range(b) => lemma_trav_branch_trimmed(b, anc.push(AncV::Range(b.pipe))),
        TNode::If(b) => lemma_trav_branch_trimmed(b, anc),
        TNode::With(b) => lemma_trav_branch_trimmed(b, anc),
    }
}

proof fn lemma_trav_branch_trimmed(b: TBranch, anc: Seq<AncV>)
    ensures
        tags_trimmed(trav_branch(b, anc)),
    decreases b,
{
    lemma_nearest_tags_trimmed(anc);
    lemma_trav_items_trimmed(b.list, anc.push(AncV::List(b.list)));
    if let Some(e) = b.else_list {
        lemma_trav_items_trimmed(e, anc.push(AncV::List(e)));
    }
}

proof fn lemma_trav_items_trimmed(items: Seq<TNode>, anc: Seq<AncV>)
    ensures
        tags_trimmed(trav_items(items, anc)),
    decreases items,
{
    if items.len() > 0 {
        lemma_trav_node_trimmed(items[0], anc);
        lemma_trav_items_trimmed(items.drop_first(), anc);
    }
}

/// The inferred tags never start or end with whitespace.
pub proof fn law_inferred_tags_trimmed(s: Seq<char>)
    ensures
        trim(spec_infer_tags(s).0) == spec_infer_tags(s).0,
        trim(spec_infer_tags(s).1) == spec_infer_tags(s).1,
{
    let root = spec_parse(spec_tokenize(s));
    lemma_trav_items_trimmed(root, seq![AncV::List(root)]);
    lemma_trim_empty();
}

} // verus!
