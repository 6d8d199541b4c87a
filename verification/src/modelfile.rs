//! Modelfiles: the commands they hold, read line by line.
//!
//! A command is a keyword (`FROM`, `ADAPTER`, `LICENSE`, `TEMPLATE`,
//! `SYSTEM`, `MESSAGE` or `PARAMETER`, in any ASCII case) and its argument.
//! An argument is either the rest of the line, a `"quoted"` string, or a
//! `"""triple-quoted"""` block that may span lines.

use vstd::prelude::*;
use crate::text::{
    chars_of, extend_chars, find_chars, find_index, lemma_find_index, slice_chars, starts_with,
    starts_with_chars, string_from,
};
use crate::thinking::{is_ws, is_whitespace, trim_start, trim_start_chars};
use crate::errtypes::{trailing_ws, trim, trim_chars};
use crate::name::{eq_fold, eq_fold_chars};
use sha2::Digest;

verus! {

broadcast use vstd::string::group_string_axioms;

/// One command of a Modelfile.
#[derive(Debug, Clone, PartialEq, Eq)]
pub struct Command {
    pub name: String,
    pub args: String,
}

/// The commands of a Modelfile, in order.
#[derive(Debug, Clone, PartialEq, Eq)]
pub struct Modelfile {
    pub commands: Vec<Command>,
}

/// A chat message given by a `MESSAGE` command.
#[derive(Debug, Clone, PartialEq, Eq)]
pub struct Message {
    pub role: String,
    pub content: String,
}

/// Why a Modelfile was refused.
#[derive(Debug, Clone, Copy, PartialEq, Eq)]
pub enum ParserError {
    MissingFrom,
    InvalidMessageRole,
    InvalidCommand,
    UnexpectedEOF,
}

impl Default for Modelfile {
    fn default() -> (m: Self)
        ensures
            m.commands@.len() == 0,
    {
        Modelfile { commands: Vec::new() }
    }
}

impl Default for Message {
    fn default() -> (m: Self)
        ensures
            m.role@.len() == 0,
            m.content@.len() == 0,
    {
        Message { role: String::new(), content: String::new() }
    }
}

/// A command as its name and argument.
pub type CommandV = (Seq<char>, Seq<char>);

pub open spec fn commands_view(v: Seq<Command>) -> Seq<CommandV> {
    v.map_values(|c: Command| (c.name@, c.args@))
}

pub open spec fn lines_view(v: Seq<Vec<char>>) -> Seq<Seq<char>> {
    v.map_values(|l: Vec<char>| l@)
}

/// The message of an error.
pub open spec fn parser_error_message(e: ParserError) -> Seq<char> {
    match e {
        ParserError::MissingFrom => "no FROM line"@,
        ParserError::InvalidMessageRole => "message role must be one of \"system\", \"user\", or \"assistant\""@,
        ParserError::InvalidCommand => "command must be one of \"from\", \"license\", \"template\", \"system\", \"adapter\", \"parameter\", or \"message\""@,
        ParserError::UnexpectedEOF => "unexpected end of file"@,
    }
}

impl ParserError {
    /// The error's message.
    pub fn to_string(&self) -> (s: String)
        ensures
            s@ == parser_error_message(*self),
    {
        let m: &str = match self {
            ParserError::MissingFrom => "no FROM line",
            ParserError::InvalidMessageRole => "message role must be one of \"system\", \"user\", or \"assistant\"",
            ParserError::InvalidCommand => "command must be one of \"from\", \"license\", \"template\", \"system\", \"adapter\", \"parameter\", or \"message\"",
            ParserError::UnexpectedEOF => "unexpected end of file",
        };
        string_from(&chars_of(m))
    }
}

// ---------------------------------------------------------------------------
// Lines
// ---------------------------------------------------------------------------

/// The lines of `s` from index `i` on: each ends before a `\n`, and a
/// `\r` just before that `\n` is dropped too; text after the last `\n`
/// is a last line.
pub open spec fn lines_from(s: Seq<char>, i: int) -> Seq<Seq<char>>
    decreases s.len() - i,
{
    if i < 0 || i >= s.len() {
        Seq::empty()
    } else {
        let k = find_index(s.skip(i), seq!['\n']);
        if k < 0 {
            seq![s.skip(i)]
        } else if i + k + 1 <= s.len() {
            let raw = s.subrange(i, i + k);
            let line = if raw.len() > 0 && raw.last() == '\r' {
                raw.drop_last()
            } else {
                raw
            };
            seq![line] + lines_from(s, i + k + 1)
        } else {
            Seq::empty()
        }
    }
}

/// The lines of a text.
pub open spec fn spec_lines(s: Seq<char>) -> Seq<Seq<char>> {
    lines_from(s, 0)
}

/// The lines of `s`.
pub fn split_lines(s: &[char]) -> (out: Vec<Vec<char>>)
    ensures
        lines_view(out@) == spec_lines(s@),
{
    let nl: Vec<char> = vec!['\n'];
    let n = s.len();
    let mut out: Vec<Vec<char>> = Vec::new();
    let mut i: usize = 0;
    assert(lines_view(out@) + lines_from(s@, 0) =~= lines_from(s@, 0));
    while i < n
        invariant
            n == s@.len(),
            i <= n,
            nl@ == seq!['\n'],
            lines_view(out@) + lines_from(s@, i as int) == lines_from(s@, 0),
        decreases n - i,
    {
        let rest = slice_chars(s, i, n);
        assert(rest@ =~= s@.skip(i as int));
        proof {
            lemma_find_index(rest@, nl@);
        }
        let ghost before = out@;
        match find_chars(&rest, &nl) {
            None => {
                out.push(rest);
                assert(lines_view(out@) =~= lines_view(before).push(s@.skip(i as int)));
                assert(lines_view(out@) =~= lines_view(before) + lines_from(s@, i as int));
                return out;
            },
            Some(k) => {
                let mut hi = i + k;
                if hi > i && s[hi - 1] == '\r' {
                    hi = hi - 1;
                }
                let line = slice_chars(s, i, hi);
                let ghost raw = s@.subrange(i as int, i + k);
                assert(line@ =~= (if raw.len() > 0 && raw.last() == '\r' {
                    raw.drop_last()
                } else {
                    raw
                }));
                out.push(line);
                assert(lines_view(out@) =~= lines_view(before).push(line@));
                assert(lines_view(out@) + lines_from(s@, i + k + 1) =~= lines_view(before)
                    + lines_from(s@, i as int));
                i = i + k + 1;
            },
        }
    }
    assert(lines_from(s@, i as int) =~= Seq::<Seq<char>>::empty());
    assert(lines_view(out@) =~= lines_view(out@) + lines_from(s@, i as int));
    out
}

// ---------------------------------------------------------------------------
// Words and arguments
// ---------------------------------------------------------------------------

/// Index of the first whitespace character of `s`, or -1.
pub open spec fn first_ws(s: Seq<char>) -> int
    decreases s.len(),
{
    if s.len() == 0 {
        -1
    } else if is_ws(s[0]) {
        0
    } else {
        let r = first_ws(s.drop_first());
        if r < 0 {
            -1
        } else {
            r + 1
        }
    }
}

/// `s` cut at its first whitespace character: the word before it, and the
/// text after it (empty when there is no whitespace).
pub open spec fn split_ws(s: Seq<char>) -> (Seq<char>, Seq<char>) {
    let k = first_ws(s);
    if k < 0 {
        (s, Seq::empty())
    } else {
        (s.take(k), s.skip(k + 1))
    }
}

/// `s` without its trailing whitespace.
pub open spec fn trim_end(s: Seq<char>) -> Seq<char> {
    s.take(s.len() - trailing_ws(s))
}

pub open spec fn lit_triple() -> Seq<char> {
    seq!['"', '"', '"']
}

proof fn lemma_first_ws(s: Seq<char>)
    ensures
        -1 <= first_ws(s) < s.len(),
        first_ws(s) >= 0 ==> is_ws(s[first_ws(s)]),
        forall|j: int| 0 <= j < s.len() && (first_ws(s) < 0 || j < first_ws(s)) ==> !is_ws(#[trigger] s[j]),
    decreases s.len(),
{
    if s.len() > 0 && !is_ws(s[0]) {
        let t = s.drop_first();
        lemma_first_ws(t);
        assert forall|j: int| 0 <= j < s.len() && (first_ws(s) < 0 || j < first_ws(s)) implies !is_ws(#[trigger] s[j]) by {
            if j > 0 {
                assert(s[j] == t[j - 1]);
            }
        }
    }
}

/// `s` cut at its first whitespace character.
fn split_ws_exec(s: &[char]) -> (r: (Vec<char>, Vec<char>))
    ensures
        (r.0@, r.1@) == split_ws(s@),
{
    proof {
        lemma_first_ws(s@);
    }
    let mut k: usize = 0;
    while k < s.len() && !is_whitespace(s[k])
        invariant
            k <= s@.len(),
            forall|j: int| 0 <= j < k ==> !is_ws(#[trigger] s@[j]),
            -1 <= first_ws(s@) < s@.len(),
            first_ws(s@) >= 0 ==> is_ws(s@[first_ws(s@)]),
            forall|j: int| 0 <= j < s@.len() && (first_ws(s@) < 0 || j < first_ws(s@)) ==> !is_ws(#[trigger] s@[j]),
        decreases s@.len() - k,
    {
        k += 1;
    }
    if k == s.len() {
        assert(first_ws(s@) < 0);
        let all = slice_chars(s, 0, s.len());
        assert(all@ =~= s@);
        (all, Vec::new())
    } else {
        assert(first_ws(s@) == k);
        let head = slice_chars(s, 0, k);
        let tail = slice_chars(s, k + 1, s.len());
        assert(head@ =~= s@.take(k as int));
        assert(tail@ =~= s@.skip(k + 1));
        (head, tail)
    }
}

/// `s` without its trailing whitespace.
fn trim_end_chars(s: &[char]) -> (out: Vec<char>)
    ensures
        out@ == trim_end(s@),
{
    let mut n: usize = s.len();
    assert(s@.take(s@.len() as int) =~= s@);
    while n > 0 && is_whitespace(s[n - 1])
        invariant
            n <= s@.len(),
            trailing_ws(s@) == (s@.len() - n) + trailing_ws(s@.take(n as int)),
        decreases n,
    {
        assert(s@.take(n as int).drop_last() =~= s@.take(n - 1));
        n -= 1;
    }
    assert(trailing_ws(s@.take(n as int)) == 0);
    let out = slice_chars(s, 0, n);
    assert(out@ =~= s@.take(n as int));
    out
}

/// The rest of a triple-quoted argument that started on an earlier line:
/// `acc` holds what was read so far, `i` is the next line.
pub open spec fn arg_continue(acc: Seq<char>, lines: Seq<Seq<char>>, i: int) -> Result<
    (Seq<char>, int),
    ParserError,
>
    decreases lines.len() - i,
{
    if i < 0 || i >= lines.len() {
        Err(ParserError::UnexpectedEOF)
    } else {
        let line = lines[i];
        let k = find_index(line, lit_triple());
        if k >= 0 {
            Ok((acc + line.take(k), i + 1))
        } else {
            arg_continue(acc + line + seq!['\n'], lines, i + 1)
        }
    }
}

/// The argument that starts with `first`, with the index of the line that
/// follows it; `i` is the line after the one holding `first`.
pub open spec fn spec_parse_arg(first: Seq<char>, lines: Seq<Seq<char>>, i: int) -> Result<
    (Seq<char>, int),
    ParserError,
> {
    if starts_with(first, lit_triple()) {
        let rest = first.skip(3);
        let k = find_index(rest, lit_triple());
        if k >= 0 {
            Ok((rest.take(k), i))
        } else {
            arg_continue(rest + seq!['\n'], lines, i)
        }
    } else if starts_with(first, seq!['"']) {
        let k = find_index(first.skip(1), seq!['"']);
        if k >= 0 {
            Ok((first.subrange(1, 1 + k), i))
        } else {
            Err(ParserError::UnexpectedEOF)
        }
    } else {
        Ok((trim_end(first), i))
    }
}

proof fn lemma_arg_continue_next(acc: Seq<char>, lines: Seq<Seq<char>>, i: int)
    ensures
        arg_continue(acc, lines, i) matches Ok((_, j)) ==> i < j <= lines.len(),
    decreases lines.len() - i,
{
    if 0 <= i < lines.len() {
        let line = lines[i];
        if find_index(line, lit_triple()) < 0 {
            lemma_arg_continue_next(acc + line + seq!['\n'], lines, i + 1);
        }
    }
}

/// The argument that starts with `first`, and the index of the line that
/// follows it.
fn parse_arg(first: &[char], lines: &Vec<Vec<char>>, i: usize) -> (r: Result<
    (Vec<char>, usize),
    ParserError,
>)
    requires
        i <= lines@.len(),
    ensures
        match r {
            Ok((a, j)) => spec_parse_arg(first@, lines_view(lines@), i as int) == Ok::<
                (Seq<char>, int),
                ParserError,
            >((a@, j as int)),
            Err(e) => spec_parse_arg(first@, lines_view(lines@), i as int) == Err::<
                (Seq<char>, int),
                ParserError,
            >(e),
        },
{
    let ghost lv = lines_view(lines@);
    let triple: Vec<char> = vec!['"', '"', '"'];
    let quote: Vec<char> = vec!['"'];
    assert(triple@ == lit_triple());
    assert(quote@ == seq!['"']);
    if starts_with_chars(first, &triple) {
        let rest = slice_chars(first, 3, first.len());
        assert(rest@ =~= first@.skip(3));
        match find_chars(&rest, &triple) {
            Some(k) => {
                proof {
                    lemma_find_index(rest@, triple@);
                }
                let a = slice_chars(&rest, 0, k);
                assert(a@ =~= rest@.take(k as int));
                return Ok((a, i));
            },
            None => {},
        }
        let ghost rest_v = rest@;
        let mut acc = rest;
        acc.push('\n');
        assert(acc@ =~= rest_v + seq!['\n']);
        let mut j = i;
        while j < lines.len()
            invariant
                i <= j <= lines@.len(),
                lv == lines_view(lines@),
                triple@ == lit_triple(),
                arg_continue(acc@, lv, j as int) == spec_parse_arg(first@, lv, i as int),
            decreases lines@.len() - j,
        {
            let line = &lines[j];
            assert(lv[j as int] == line@);
            match find_chars(line, &triple) {
                Some(k) => {
                    proof {
                        lemma_find_index(line@, triple@);
                    }
                    let head = slice_chars(line, 0, k);
                    assert(head@ =~= line@.take(k as int));
                    extend_chars(&mut acc, &head);
                    return Ok((acc, j + 1));
                },
                None => {
                    let ghost acc0 = acc@;
                    extend_chars(&mut acc, line);
                    acc.push('\n');
                    assert(acc@ =~= acc0 + line@ + seq!['\n']);
                    j += 1;
                },
            }
        }
        Err(ParserError::UnexpectedEOF)
    } else if starts_with_chars(first, &quote) {
        let rest = slice_chars(first, 1, first.len());
        assert(rest@ =~= first@.skip(1));
        match find_chars(&rest, &quote) {
            Some(k) => {
                proof {
                    lemma_find_index(rest@, quote@);
                }
                let a = slice_chars(first, 1, 1 + k);
                Ok((a, i))
            },
            None => Err(ParserError::UnexpectedEOF),
        }
    } else {
        let a = trim_end_chars(first);
        Ok((a, i))
    }
}

// ---------------------------------------------------------------------------
// Commands
// ---------------------------------------------------------------------------

pub open spec fn lit_from() -> Seq<char> {
    seq!['f', 'r', 'o', 'm']
}

pub open spec fn lit_model() -> Seq<char> {
    seq!['m', 'o', 'd', 'e', 'l']
}

pub open spec fn lit_adapter() -> Seq<char> {
    seq!['a', 'd', 'a', 'p', 't', 'e', 'r']
}

pub open spec fn lit_license() -> Seq<char> {
    seq!['l', 'i', 'c', 'e', 'n', 's', 'e']
}

pub open spec fn lit_template() -> Seq<char> {
    seq!['t', 'e', 'm', 'p', 'l', 'a', 't', 'e']
}

pub open spec fn lit_system() -> Seq<char> {
    seq!['s', 'y', 's', 't', 'e', 'm']
}

pub open spec fn lit_message() -> Seq<char> {
    seq!['m', 'e', 's', 's', 'a', 'g', 'e']
}

pub open spec fn lit_parameter() -> Seq<char> {
    seq!['p', 'a', 'r', 'a', 'm', 'e', 't', 'e', 'r']
}

pub open spec fn lit_user() -> Seq<char> {
    seq!['u', 's', 'e', 'r']
}

pub open spec fn lit_assistant() -> Seq<char> {
    seq!['a', 's', 's', 'i', 's', 't', 'a', 'n', 't']
}

/// A keyword that starts a command, compared without ASCII case.  (Full
/// Unicode lowering gives the same answer for these keywords: the only
/// non-ASCII character that lowers to an ASCII letter is the Kelvin sign,
/// which lowers to `k`, and no keyword holds a `k`.)
pub open spec fn spec_is_valid_command(cmd: Seq<char>) -> bool {
    eq_fold(cmd, lit_from()) || eq_fold(cmd, lit_license()) || eq_fold(cmd, lit_template())
        || eq_fold(cmd, lit_system()) || eq_fold(cmd, lit_adapter()) || eq_fold(cmd, lit_parameter())
        || eq_fold(cmd, lit_message())
}

/// A role a message may have.
pub open spec fn spec_is_valid_role(role: Seq<char>) -> bool {
    role == lit_system() || role == lit_user() || role == lit_assistant()
}

/// One command read from the word `cmd` and the text `rest` after it; `i`
/// is the line after the command's line.  Gives the command, the index of
/// the line after its argument, and whether it was a `FROM`.
pub open spec fn spec_parse_command(
    cmd: Seq<char>,
    rest: Seq<char>,
    lines: Seq<Seq<char>>,
    i: int,
) -> Result<(CommandV, int, bool), ParserError> {
    if eq_fold(cmd, lit_from()) {
        match spec_parse_arg(rest, lines, i) {
            Ok((a, j)) => Ok(((lit_model(), a), j, true)),
            Err(e) => Err(e),
        }
    } else if eq_fold(cmd, lit_adapter()) || eq_fold(cmd, lit_license()) || eq_fold(
        cmd,
        lit_template(),
    ) || eq_fold(cmd, lit_system()) {
        let kw = if eq_fold(cmd, lit_adapter()) {
            lit_adapter()
        } else if eq_fold(cmd, lit_license()) {
            lit_license()
        } else if eq_fold(cmd, lit_template()) {
            lit_template()
        } else {
            lit_system()
        };
        match spec_parse_arg(rest, lines, i) {
            Ok((a, j)) => Ok(((kw, a), j, false)),
            Err(e) => Err(e),
        }
    } else if eq_fold(cmd, lit_message()) {
        let role = split_ws(rest).0;
        if !spec_is_valid_role(role) {
            Err(ParserError::InvalidMessageRole)
        } else {
            match spec_parse_arg(trim_start(split_ws(rest).1), lines, i) {
                Ok((m, j)) => Ok(((lit_message(), role + seq![':', ' '] + m), j, false)),
                Err(e) => Err(e),
            }
        }
    } else if eq_fold(cmd, lit_parameter()) {
        let name = split_ws(rest).0;
        let value = trim_start(split_ws(rest).1);
        if value.len() == 0 {
            Err(ParserError::UnexpectedEOF)
        } else {
            match spec_parse_arg(value, lines, i) {
                Ok((v, j)) => Ok(((name, v), j, false)),
                Err(e) => Err(e),
            }
        }
    } else {
        Err(ParserError::InvalidCommand)
    }
}

/// A line with one trailing `\r` removed.
pub open spec fn strip_cr(line: Seq<char>) -> Seq<char> {
    if line.len() > 0 && line.last() == '\r' {
        line.drop_last()
    } else {
        line
    }
}

/// The commands read from line `i` on, after `cmds`; `seen` tells whether a
/// `FROM` was read.  Blank lines and lines starting with `#` are skipped.
pub open spec fn parse_from(lines: Seq<Seq<char>>, i: int, cmds: Seq<CommandV>, seen: bool) -> Result<
    Seq<CommandV>,
    ParserError,
>
    decreases lines.len() - i,
{
    if i < 0 || i >= lines.len() {
        if seen {
            Ok(cmds)
        } else {
            Err(ParserError::MissingFrom)
        }
    } else {
        let t = trim(strip_cr(lines[i]));
        if t.len() == 0 || t[0] == '#' {
            parse_from(lines, i + 1, cmds, seen)
        } else {
            let w = split_ws(t);
            match spec_parse_command(w.0, trim_start(w.1), lines, i + 1) {
                Err(e) => Err(e),
                Ok((c, j, is_from)) => if i < j <= lines.len() {
                    parse_from(lines, j, cmds.push(c), seen || is_from)
                } else {
                    Err(ParserError::UnexpectedEOF)
                },
            }
        }
    }
}

/// The commands of a Modelfile's text, or why it is refused.
pub open spec fn spec_parse_modelfile(s: Seq<char>) -> Result<Seq<CommandV>, ParserError> {
    parse_from(spec_lines(s), 0, Seq::empty(), false)
}

proof fn lemma_parse_arg_next(first: Seq<char>, lines: Seq<Seq<char>>, i: int)
    requires
        0 <= i <= lines.len(),
    ensures
        spec_parse_arg(first, lines, i) matches Ok((_, j)) ==> i <= j <= lines.len(),
{
    if starts_with(first, lit_triple()) {
        lemma_arg_continue_next(first.skip(3) + seq!['\n'], lines, i);
    }
}

/// Whether `cmd` is a command keyword, in any ASCII case.
fn is_valid_command(cmd: &[char]) -> (r: bool)
    ensures
        r == spec_is_valid_command(cmd@),
{
    let kws: Vec<Vec<char>> = vec![
        vec!['f', 'r', 'o', 'm'],
        vec!['l', 'i', 'c', 'e', 'n', 's', 'e'],
        vec!['t', 'e', 'm', 'p', 'l', 'a', 't', 'e'],
        vec!['s', 'y', 's', 't', 'e', 'm'],
        vec!['a', 'd', 'a', 'p', 't', 'e', 'r'],
        vec!['p', 'a', 'r', 'a', 'm', 'e', 't', 'e', 'r'],
        vec!['m', 'e', 's', 's', 'a', 'g', 'e'],
    ];
    eq_fold_chars(cmd, &kws[0]) || eq_fold_chars(cmd, &kws[1]) || eq_fold_chars(cmd, &kws[2])
        || eq_fold_chars(cmd, &kws[3]) || eq_fold_chars(cmd, &kws[4]) || eq_fold_chars(cmd, &kws[5])
        || eq_fold_chars(cmd, &kws[6])
}

/// Whether `role` is `system`, `user` or `assistant`.
fn is_valid_role(role: &[char]) -> (r: bool)
    ensures
        r == spec_is_valid_role(role@),
{
    let system: Vec<char> = vec!['s', 'y', 's', 't', 'e', 'm'];
    let user: Vec<char> = vec!['u', 's', 'e', 'r'];
    let assistant: Vec<char> = vec!['a', 's', 's', 'i', 's', 't', 'a', 'n', 't'];
    crate::text::chars_eq(role, &system) || crate::text::chars_eq(role, &user)
        || crate::text::chars_eq(role, &assistant)
}

/// One command read from the word `cmd` and the text `rest` after it.
fn parse_command(cmd: &[char], rest: &[char], lines: &Vec<Vec<char>>, i: usize) -> (r: Result<
    (Command, usize, bool),
    ParserError,
>)
    requires
        i <= lines@.len(),
    ensures
        match r {
            Ok((c, j, f)) => spec_parse_command(cmd@, rest@, lines_view(lines@), i as int) == Ok::<
                (CommandV, int, bool),
                ParserError,
            >(((c.name@, c.args@), j as int, f)),
            Err(e) => spec_parse_command(cmd@, rest@, lines_view(lines@), i as int) == Err::<
                (CommandV, int, bool),
                ParserError,
            >(e),
        },
{
    if !is_valid_command(cmd) {
        return Err(ParserError::InvalidCommand);
    }
    let from: Vec<char> = vec!['f', 'r', 'o', 'm'];
    let adapter: Vec<char> = vec!['a', 'd', 'a', 'p', 't', 'e', 'r'];
    let license: Vec<char> = vec!['l', 'i', 'c', 'e', 'n', 's', 'e'];
    let template: Vec<char> = vec!['t', 'e', 'm', 'p', 'l', 'a', 't', 'e'];
    let system: Vec<char> = vec!['s', 'y', 's', 't', 'e', 'm'];
    let message: Vec<char> = vec!['m', 'e', 's', 's', 'a', 'g', 'e'];
    assert(from@ == lit_from());
    assert(adapter@ == lit_adapter());
    assert(license@ == lit_license());
    assert(template@ == lit_template());
    assert(system@ == lit_system());
    assert(message@ == lit_message());
    if eq_fold_chars(cmd, &from) {
        let (a, j) = parse_arg(rest, lines, i)?;
        let model: Vec<char> = vec!['m', 'o', 'd', 'e', 'l'];
        assert(model@ == lit_model());
        return Ok((Command { name: string_from(&model), args: string_from(&a) }, j, true));
    }
    let kw: Option<Vec<char>> = if eq_fold_chars(cmd, &adapter) {
        Some(adapter)
    } else if eq_fold_chars(cmd, &license) {
        Some(license)
    } else if eq_fold_chars(cmd, &template) {
        Some(template)
    } else if eq_fold_chars(cmd, &system) {
        Some(system)
    } else {
        None
    };
    if let Some(k) = kw {
        let (a, j) = parse_arg(rest, lines, i)?;
        return Ok((Command { name: string_from(&k), args: string_from(&a) }, j, false));
    }
    let (head, tail) = split_ws_exec(rest);
    if eq_fold_chars(cmd, &message) {
        if !is_valid_role(&head) {
            return Err(ParserError::InvalidMessageRole);
        }
        let msg_rest = trim_start_chars(&tail);
        let (m, j) = parse_arg(&msg_rest, lines, i)?;
        let mut args = head;
        args.push(':');
        args.push(' ');
        let ghost args0 = args@;
        extend_chars(&mut args, &m);
        assert(args@ =~= split_ws(rest@).0 + seq![':', ' '] + m@);
        return Ok((Command { name: string_from(&message), args: string_from(&args) }, j, false));
    }
    let value = trim_start_chars(&tail);
    if value.len() == 0 {
        return Err(ParserError::UnexpectedEOF);
    }
    let (v, j) = parse_arg(&value, lines, i)?;
    Ok((Command { name: string_from(&head), args: string_from(&v) }, j, false))
}

/// The commands of a Modelfile's text, in order, or why it is refused:
/// a bad command keyword or message role, a missing argument or closing
/// quote, or no `FROM` command at all.
pub fn parse_file(input: &str) -> (r: Result<Modelfile, ParserError>)
    ensures
        match r {
            Ok(m) => spec_parse_modelfile(input@) == Ok::<Seq<CommandV>, ParserError>(
                commands_view(m.commands@),
            ),
            Err(e) => spec_parse_modelfile(input@) == Err::<Seq<CommandV>, ParserError>(e),
        },
{
    let chars = chars_of(input);
    let lines = split_lines(&chars);
    let ghost lv = lines_view(lines@);
    let mut commands: Vec<Command> = Vec::new();
    let mut seen_from = false;
    let mut i: usize = 0;
    assert(commands_view(commands@) =~= Seq::<CommandV>::empty());
    while i < lines.len()
        invariant
            lv == lines_view(lines@),
            lv == spec_lines(input@),
            i <= lines@.len(),
            parse_from(lv, i as int, commands_view(commands@), seen_from) == parse_from(
                lv,
                0,
                Seq::empty(),
                false,
            ),
        decreases lines@.len() - i,
    {
        let line0 = &lines[i];
        assert(lv[i as int] == line0@);
        let mut hi = line0.len();
        if hi > 0 && line0[hi - 1] == '\r' {
            hi -= 1;
        }
        let line = slice_chars(line0, 0, hi);
        assert(line@ =~= strip_cr(line0@));
        let t = trim_chars(&line);
        if t.len() == 0 || t[0] == '#' {
            i += 1;
        } else {
            let (cmd, tail) = split_ws_exec(&t);
            let rest = trim_start_chars(&tail);
            proof {
                lemma_parse_arg_next(rest@, lv, i + 1);
                lemma_parse_arg_next(trim_start(split_ws(rest@).1), lv, i + 1);
            }
            assert(t@ == trim(strip_cr(lv[i as int])));
            match parse_command(&cmd, &rest, &lines, i + 1) {
                Err(e) => {
                    assert(parse_from(lv, i as int, commands_view(commands@), seen_from) == Err::<
                        Seq<CommandV>,
                        ParserError,
                    >(e));
                    return Err(e);
                },
                Ok((c, j, is_from)) => {
                    let ghost before = commands@;
                    commands.push(c);
                    assert(commands_view(commands@) =~= commands_view(before).push(
                        (c.name@, c.args@),
                    ));
                    if is_from {
                        seen_from = true;
                    }
                    i = j;
                },
            }
        }
    }
    if !seen_from {
        return Err(ParserError::MissingFrom);
    }
    Ok(Modelfile { commands })
}

// ---------------------------------------------------------------------------
// Messages
// ---------------------------------------------------------------------------

/// The message that the argument of a `MESSAGE` command gives: the trimmed
/// text before its first `:` is the role, the trimmed text after it the
/// content; none when there is no `:`.
pub open spec fn spec_message_from_args(args: Seq<char>) -> Option<(Seq<char>, Seq<char>)> {
    let k = find_index(args, seq![':']);
    if k < 0 {
        None
    } else {
        Some((trim(args.take(k)), trim(args.skip(k + 1))))
    }
}

/// The message that the argument of a `MESSAGE` command gives.
pub fn message_from_args(args: &str) -> (r: Option<Message>)
    ensures
        match r {
            Some(m) => spec_message_from_args(args@) == Some((m.role@, m.content@)),
            None => spec_message_from_args(args@) is None,
        },
{
    let cs = chars_of(args);
    let colon: Vec<char> = vec![':'];
    assert(colon@ == seq![':']);
    proof {
        lemma_find_index(cs@, colon@);
    }
    match find_chars(&cs, &colon) {
        None => None,
        Some(k) => {
            let n = cs.len();
            assert(crate::text::matches_at(cs@, colon@, k as int));
            let role = slice_chars(&cs, 0, k);
            let content = slice_chars(&cs, k + 1, n);
            assert(role@ =~= cs@.take(k as int));
            assert(content@ =~= cs@.skip(k + 1));
            Some(
                Message {
                    role: string_from(&trim_chars(&role)),
                    content: string_from(&trim_chars(&content)),
                },
            )
        },
    }
}

// ---------------------------------------------------------------------------
// Home directories in paths
// ---------------------------------------------------------------------------

/// Where the first path separator (`/` or `\`) stands in `s` from `i` on,
/// or -1.
pub open spec fn first_sep(s: Seq<char>, i: int) -> int
    decreases s.len() - i,
{
    if i < 0 || i >= s.len() {
        -1
    } else if s[i] == '/' || s[i] == '\\' {
        i
    } else {
        first_sep(s, i + 1)
    }
}

/// For a path that starts with `~`: the user named after it (empty for
/// the current user) and the rest of the path after the first separator.
pub open spec fn spec_home_parts(p: Seq<char>) -> Option<(Seq<char>, Seq<char>)> {
    if p.len() == 0 || p[0] != '~' {
        None
    } else {
        let rest = p.skip(1);
        let k = first_sep(rest, 0);
        if k < 0 {
            Some((rest, Seq::empty()))
        } else {
            Some((rest.take(k), rest.skip(k + 1)))
        }
    }
}

/// The user and the remaining path of a path that starts with `~`; see
/// `spec_home_parts`.
pub fn home_parts(path: &str) -> (r: Option<(String, String)>)
    ensures
        match r {
            Some((u, rest)) => spec_home_parts(path@) == Some((u@, rest@)),
            None => spec_home_parts(path@) is None,
        },
{
    let p = chars_of(path);
    if p.len() == 0 || p[0] != '~' {
        return None;
    }
    let n = p.len();
    let rest = slice_chars(&p, 1, n);
    assert(rest@ =~= p@.skip(1));
    let mut k: usize = 0;
    while k < rest.len() && !(rest[k] == '/' || rest[k] == '\\')
        invariant
            k <= rest@.len(),
            first_sep(rest@, 0) == first_sep(rest@, k as int),
        decreases rest@.len() - k,
    {
        k += 1;
    }
    let m = rest.len();
    if k == m {
        assert(first_sep(rest@, k as int) == -1);
        let empty: Vec<char> = Vec::new();
        return Some((string_from(&rest), string_from(&empty)));
    }
    let user = slice_chars(&rest, 0, k);
    let tail = slice_chars(&rest, k + 1, m);
    assert(user@ =~= rest@.take(k as int));
    assert(tail@ =~= rest@.skip(k + 1));
    Some((string_from(&user), string_from(&tail)))
}

/// How a path is made absolute.
#[derive(Debug, Clone, PartialEq, Eq)]
pub enum PathPlan {
    /// It is absolute already.
    AsGiven,
    /// It starts at the home directory of `user` (the current user when
    /// empty); `rest` follows.
    Home { user: String, rest: String },
    /// It starts at the base directory.
    FromBase,
}

/// Where a relative path starts.
#[derive(Debug, Clone, Copy, PartialEq, Eq)]
pub enum BasePlan {
    /// The working directory, when no directory is given.
    WorkingDir,
    /// The directory given, when it is absolute.
    GivenDir,
    /// The directory given, taken from the working directory.
    WorkingDirJoined,
}

/// How `path` (absolute or not, as the platform says) is made absolute:
/// an absolute path as it is; one that starts with `~` from a home
/// directory (see `spec_home_parts`); any other from the base directory.
pub fn path_plan(path: &str, absolute: bool) -> (r: PathPlan)
    ensures
        absolute ==> r == PathPlan::AsGiven,
        !absolute ==> match spec_home_parts(path@) {
            Some((u, rest)) => r matches PathPlan::Home { user, rest: x } && user@ == u && x@ == rest,
            None => r == PathPlan::FromBase,
        },
{
    if absolute {
        return PathPlan::AsGiven;
    }
    match home_parts(path) {
        Some((user, rest)) => PathPlan::Home { user, rest },
        None => PathPlan::FromBase,
    }
}

/// Where a relative path starts, given whether the directory given is
/// empty and whether it is absolute.
pub fn base_plan(dir_empty: bool, dir_absolute: bool) -> (r: BasePlan)
    ensures
        dir_empty ==> r == BasePlan::WorkingDir,
        !dir_empty && dir_absolute ==> r == BasePlan::GivenDir,
        !dir_empty && !dir_absolute ==> r == BasePlan::WorkingDirJoined,
{
    if dir_empty {
        BasePlan::WorkingDir
    } else if dir_absolute {
        BasePlan::GivenDir
    } else {
        BasePlan::WorkingDirJoined
    }
}

// ---------------------------------------------------------------------------
// File digests
// ---------------------------------------------------------------------------

/// The SHA-256 digest of `data`.
pub uninterp spec fn sha256_of(data: Seq<u8>) -> Seq<u8>;

/// `sha2::Sha256::digest`: the SHA-256 digest of the bytes, 32 bytes long.
#[verifier::external_body]
fn sha256(data: &[u8]) -> (r: Vec<u8>)
    ensures
        r@ == sha256_of(data@),
        r@.len() == 32,
{
    sha2::Sha256::digest(data).to_vec()
}

/// Bytes written as lower-case hexadecimal, two digits each.
pub open spec fn hex_lower(b: Seq<u8>) -> Seq<char>
    decreases b.len(),
{
    if b.len() == 0 {
        Seq::empty()
    } else {
        hex_lower(b.drop_last()) + seq![
            crate::json::hex_digit((b.last() / 16) as nat),
            crate::json::hex_digit((b.last() % 16) as nat),
        ]
    }
}

/// A digest as the request names a file by: `sha256:` and the digest in
/// lower-case hexadecimal.
pub open spec fn spec_digest_name(digest: Seq<u8>) -> Seq<char> {
    "sha256:"@ + hex_lower(digest)
}

/// The name of a digest; see `spec_digest_name`.
pub fn digest_name(digest: &[u8]) -> (r: String)
    ensures
        r@ == spec_digest_name(digest@),
{
    let mut out: Vec<char> = chars_of("sha256:");
    let ghost head = out@;
    let mut i: usize = 0;
    while i < digest.len()
        invariant
            i <= digest@.len(),
            head == "sha256:"@,
            out@ == head + hex_lower(digest@.take(i as int)),
        decreases digest@.len() - i,
    {
        let b = digest[i];
        out.push(crate::json::hex_digit_exec((b / 16) as u32));
        out.push(crate::json::hex_digit_exec((b % 16) as u32));
        assert(digest@.take(i + 1).drop_last() =~= digest@.take(i as int));
        assert(out@ =~= head + hex_lower(digest@.take(i + 1)));
        i += 1;
    }
    assert(digest@.take(digest@.len() as int) =~= digest@);
    string_from(&out)
}

/// The name of the file whose bytes are `data`: `sha256:` and the
/// SHA-256 digest of the bytes in lower-case hexadecimal.
pub fn digest_text(data: &[u8]) -> (r: String)
    ensures
        r@ == spec_digest_name(sha256_of(data@)),
{
    let d = sha256(data);
    digest_name(&d)
}

// ---------------------------------------------------------------------------
// The request a Modelfile describes
// ---------------------------------------------------------------------------

/// A command that names files on disk: a model, or an adapter.
#[derive(Debug, Clone, PartialEq, Eq)]
pub enum FileCommand {
    Model(String),
    Adapter(String),
}

/// What a Modelfile asks of the request that creates its model, before
/// any file is read: the commands that name files, in order; the last
/// template and system text; the licenses and messages, in order; and each
/// parameter once, in the order first given, with all its values in order.
pub struct RequestPlan {
    pub files: Vec<FileCommand>,
    pub template: String,
    pub system: String,
    pub licenses: Vec<String>,
    pub messages: Vec<Message>,
    pub parameters: Vec<(String, Vec<String>)>,
}

/// A request plan in specifications; a file command is `(true, path)` for
/// a model and `(false, path)` for an adapter.
pub struct RequestPlanV {
    pub files: Seq<(bool, Seq<char>)>,
    pub template: Seq<char>,
    pub system: Seq<char>,
    pub licenses: Seq<Seq<char>>,
    pub messages: Seq<(Seq<char>, Seq<char>)>,
    pub parameters: Seq<(Seq<char>, Seq<Seq<char>>)>,
}

/// A file command as `(is a model, path)`.
pub open spec fn file_command_view(f: FileCommand) -> (bool, Seq<char>) {
    match f {
        FileCommand::Model(p) => (true, p@),
        FileCommand::Adapter(p) => (false, p@),
    }
}

/// The texts of strings.
pub open spec fn string_seqs(v: Seq<String>) -> Seq<Seq<char>> {
    v.map_values(|x: String| x@)
}

/// Parameters as names with their values.
pub open spec fn param_entries(v: Seq<(String, Vec<String>)>) -> Seq<(Seq<char>, Seq<Seq<char>>)> {
    v.map_values(|e: (String, Vec<String>)| (e.0@, string_seqs(e.1@)))
}

/// Messages as (role, content) pairs.
pub open spec fn message_pairs(v: Seq<Message>) -> Seq<(Seq<char>, Seq<char>)> {
    v.map_values(|m: Message| (m.role@, m.content@))
}

/// A request plan in specifications.
pub open spec fn plan_view(p: RequestPlan) -> RequestPlanV {
    RequestPlanV {
        files: p.files@.map_values(|f: FileCommand| file_command_view(f)),
        template: p.template@,
        system: p.system@,
        licenses: string_seqs(p.licenses@),
        messages: message_pairs(p.messages@),
        parameters: param_entries(p.parameters@),
    }
}

/// Where the parameter `name` stands among `ps` from `i` on, or -1.
pub open spec fn param_index(ps: Seq<(Seq<char>, Seq<Seq<char>>)>, name: Seq<char>, i: int) -> int
    decreases ps.len() - i,
{
    if i < 0 || i >= ps.len() {
        -1
    } else if ps[i].0 == name {
        i
    } else {
        param_index(ps, name, i + 1)
    }
}

proof fn lemma_param_index(ps: Seq<(Seq<char>, Seq<Seq<char>>)>, name: Seq<char>, i: int)
    requires
        0 <= i,
    ensures
        param_index(ps, name, i) == -1 || (i <= param_index(ps, name, i) < ps.len() && ps[param_index(
            ps,
            name,
            i,
        )].0 == name),
        param_index(ps, name, i) == -1 ==> forall|k: int| i <= k < ps.len() ==> #[trigger] ps[k].0 != name,
    decreases ps.len() - i,
{
    if i < ps.len() && ps[i].0 != name {
        lemma_param_index(ps, name, i + 1);
    }
}

/// The plan with no command taken.
pub open spec fn empty_plan() -> RequestPlanV {
    RequestPlanV {
        files: Seq::empty(),
        template: Seq::empty(),
        system: Seq::empty(),
        licenses: Seq::empty(),
        messages: Seq::empty(),
        parameters: Seq::empty(),
    }
}

/// One command taken into the plan: `model` and `adapter` name files,
/// `template` and `system` replace the text, `license` adds one, `message`
/// adds the message its argument splits into (none where there is no
/// colon), and any other command is a parameter value.
pub open spec fn plan_step(p: RequestPlanV, c: CommandV) -> RequestPlanV {
    if c.0 == "model"@ {
        RequestPlanV { files: p.files.push((true, c.1)), ..p }
    } else if c.0 == "adapter"@ {
        RequestPlanV { files: p.files.push((false, c.1)), ..p }
    } else if c.0 == "template"@ {
        RequestPlanV { template: c.1, ..p }
    } else if c.0 == "system"@ {
        RequestPlanV { system: c.1, ..p }
    } else if c.0 == "license"@ {
        RequestPlanV { licenses: p.licenses.push(c.1), ..p }
    } else if c.0 == "message"@ {
        match spec_message_from_args(c.1) {
            Some(m) => RequestPlanV { messages: p.messages.push(m), ..p },
            None => p,
        }
    } else {
        let k = param_index(p.parameters, c.0, 0);
        if k < 0 {
            RequestPlanV { parameters: p.parameters.push((c.0, seq![c.1])), ..p }
        } else {
            RequestPlanV {
                parameters: p.parameters.update(k, (c.0, p.parameters[k].1.push(c.1))),
                ..p
            }
        }
    }
}

/// The first `n` commands taken into the plan.
pub open spec fn plan_upto(cmds: Seq<CommandV>, n: nat) -> RequestPlanV
    decreases n,
{
    if n == 0 {
        empty_plan()
    } else {
        plan_step(plan_upto(cmds, (n - 1) as nat), cmds[n - 1])
    }
}

/// The plan of a whole Modelfile.
pub open spec fn spec_plan_request(cmds: Seq<CommandV>) -> RequestPlanV {
    plan_upto(cmds, cmds.len())
}

fn is_name(s: &String, name: &str) -> (r: bool)
    ensures
        r == (s@ == name@),
{
    crate::text::chars_eq(&chars_of(s.as_str()), &chars_of(name))
}

fn copy_strings(v: &Vec<String>) -> (out: Vec<String>)
    ensures
        string_seqs(out@) == string_seqs(v@),
{
    let mut out: Vec<String> = Vec::new();
    let mut k: usize = 0;
    while k < v.len()
        invariant
            k <= v@.len(),
            string_seqs(out@) == string_seqs(v@).take(k as int),
        decreases v@.len() - k,
    {
        let t = v[k].clone();
        let ghost before = out@;
        out.push(t);
        assert(string_seqs(out@) =~= string_seqs(before).push(t@));
        assert(string_seqs(v@).take(k + 1) =~= string_seqs(v@).take(k as int).push(v@[k as int]@));
        k += 1;
    }
    assert(string_seqs(v@).take(v@.len() as int) =~= string_seqs(v@));
    out
}

fn find_param(ps: &Vec<(String, Vec<String>)>, name: &String) -> (r: Option<usize>)
    ensures
        match r {
            Some(k) => k < ps@.len() && param_index(param_entries(ps@), name@, 0) == k as int,
            None => param_index(param_entries(ps@), name@, 0) == -1,
        },
{
    let ghost pv = param_entries(ps@);
    let mut k: usize = 0;
    while k < ps.len()
        invariant
            k <= ps@.len(),
            pv == param_entries(ps@),
            param_index(pv, name@, 0) == param_index(pv, name@, k as int),
        decreases ps@.len() - k,
    {
        if is_name(&ps[k].0, name.as_str()) {
            return Some(k);
        }
        k += 1;
    }
    None
}

/// The plan of the request that creates the model `m` describes; see
/// `spec_plan_request`.
pub fn plan_request(m: &Modelfile) -> (p: RequestPlan)
    ensures
        plan_view(p) == spec_plan_request(commands_view(m.commands@)),
{
    let ghost cmds = commands_view(m.commands@);
    let mut p = RequestPlan {
        files: Vec::new(),
        template: String::new(),
        system: String::new(),
        licenses: Vec::new(),
        messages: Vec::new(),
        parameters: Vec::new(),
    };
    proof {
        let v = plan_view(p);
        assert(v.files =~= Seq::<(bool, Seq<char>)>::empty());
        assert(v.template =~= Seq::<char>::empty());
        assert(v.system =~= Seq::<char>::empty());
        assert(v.licenses =~= Seq::<Seq<char>>::empty());
        assert(v.messages =~= Seq::<(Seq<char>, Seq<char>)>::empty());
        assert(v.parameters =~= Seq::<(Seq<char>, Seq<Seq<char>>)>::empty());
    }
    let mut i: usize = 0;
    while i < m.commands.len()
        invariant
            i <= m.commands@.len(),
            cmds == commands_view(m.commands@),
            cmds.len() == m.commands@.len(),
            plan_view(p) == plan_upto(cmds, i as nat),
        decreases m.commands@.len() - i,
    {
        let c = &m.commands[i];
        let ghost before = plan_view(p);
        assert(cmds[i as int] == (c.name@, c.args@));
        if is_name(&c.name, "model") {
            p.files.push(FileCommand::Model(c.args.clone()));
        } else if is_name(&c.name, "adapter") {
            p.files.push(FileCommand::Adapter(c.args.clone()));
        } else if is_name(&c.name, "template") {
            p.template = c.args.clone();
        } else if is_name(&c.name, "system") {
            p.system = c.args.clone();
        } else if is_name(&c.name, "license") {
            p.licenses.push(c.args.clone());
        } else if is_name(&c.name, "message") {
            match message_from_args(c.args.as_str()) {
                Some(msg) => p.messages.push(msg),
                None => {},
            }
        } else {
            match find_param(&p.parameters, &c.name) {
                None => {
                    let mut vals: Vec<String> = Vec::new();
                    vals.push(c.args.clone());
                    assert(string_seqs(vals@) =~= seq![c.args@]);
                    p.parameters.push((c.name.clone(), vals));
                },
                Some(k) => {
                    proof {
                        lemma_param_index(before.parameters, c.name@, 0);
                    }
                    let mut vals = copy_strings(&p.parameters[k].1);
                    let ghost old_vals = string_seqs(vals@);
                    vals.push(c.args.clone());
                    assert(string_seqs(vals@) =~= old_vals.push(c.args@));
                    p.parameters.set(k, (c.name.clone(), vals));
                },
            }
        }
        proof {
            let after = plan_view(p);
            let want = plan_step(before, cmds[i as int]);
            assert(after.files =~= want.files);
            assert(after.licenses =~= want.licenses);
            assert(after.messages =~= want.messages);
            assert(after.parameters =~= want.parameters);
        }
        i += 1;
    }
    p
}

// ---------------------------------------------------------------------------
// Laws
// ---------------------------------------------------------------------------

/// No two parameters of `ps` share a name.
pub open spec fn distinct_names(ps: Seq<(Seq<char>, Seq<Seq<char>>)>) -> bool {
    forall|i: int, j: int| 0 <= i < j < ps.len() ==> #[trigger] ps[i].0 != #[trigger] ps[j].0
}

proof fn lemma_plan_distinct(cmds: Seq<CommandV>, n: nat)
    requires
        n <= cmds.len(),
    ensures
        distinct_names(plan_upto(cmds, n).parameters),
    decreases n,
{
    if n > 0 {
        lemma_plan_distinct(cmds, (n - 1) as nat);
        let p = plan_upto(cmds, (n - 1) as nat);
        let c = cmds[n - 1];
        lemma_param_index(p.parameters, c.0, 0);
        let q = plan_upto(cmds, n);
        assert forall|i: int, j: int| 0 <= i < j < q.parameters.len() implies #[trigger] q.parameters[i].0
            != #[trigger] q.parameters[j].0 by {
            if q.parameters.len() > p.parameters.len() {
                if j < p.parameters.len() {
                    assert(q.parameters[i] == p.parameters[i] && q.parameters[j] == p.parameters[j]);
                } else {
                    assert(q.parameters[i] == p.parameters[i]);
                }
            } else {
                let k = param_index(p.parameters, c.0, 0);
                if q.parameters != p.parameters {
                    assert(q.parameters[i].0 == p.parameters[i].0);
                    assert(q.parameters[j].0 == p.parameters[j].0);
                }
            }
        }
    }
}

/// Each parameter stands once in a plan, however often the Modelfile
/// gives it: its values are gathered under one name.
pub proof fn law_plan_parameters_distinct(cmds: Seq<CommandV>)
    ensures
        distinct_names(spec_plan_request(cmds).parameters),
{
    lemma_plan_distinct(cmds, cmds.len());
}

/// Some command is the `model` command that `FROM` gives.
pub open spec fn has_model(cmds: Seq<CommandV>) -> bool {
    exists|k: int| 0 <= k < cmds.len() && (#[trigger] cmds[k]).0 == lit_model()
}

proof fn lemma_parse_from_has_model(
    lines: Seq<Seq<char>>,
    i: int,
    cmds: Seq<CommandV>,
    seen: bool,
)
    requires
        seen ==> has_model(cmds),
    ensures
        parse_from(lines, i, cmds, seen) matches Ok(r) ==> has_model(r),
    decreases lines.len() - i,
{
    if 0 <= i < lines.len() {
        let t = trim(strip_cr(lines[i]));
        if t.len() == 0 || t[0] == '#' {
            lemma_parse_from_has_model(lines, i + 1, cmds, seen);
        } else {
            let w = split_ws(t);
            if let Ok((c, j, is_from)) = spec_parse_command(w.0, trim_start(w.1), lines, i + 1) {
                if i < j <= lines.len() {
                    let c2 = cmds.push(c);
                    if seen {
                        let k = choose|k: int| 0 <= k < cmds.len() && (#[trigger] cmds[k]).0 == lit_model();
                        assert(c2[k] == cmds[k]);
                    }
                    if is_from {
                        assert(c2[cmds.len() as int] == c);
                    }
                    lemma_parse_from_has_model(lines, j, c2, seen || is_from);
                }
            }
        }
    }
}

/// Every accepted Modelfile holds a `model` command: one given by `FROM`.
pub proof fn law_accepted_has_from(s: Seq<char>)
    ensures
        spec_parse_modelfile(s) matches Ok(cmds) ==> has_model(cmds),
{
    lemma_parse_from_has_model(spec_lines(s), 0, Seq::empty(), false);
}


/// The argument of a `license` command; nothing for another command.
pub open spec fn license_arg(c: CommandV) -> Option<Seq<char>> {
    if c.0 == "license"@ {
        Some(c.1)
    } else {
        None
    }
}

/// The argument of a `template` command; nothing for another command.
pub open spec fn template_arg(c: CommandV) -> Option<Seq<char>> {
    if c.0 == "template"@ {
        Some(c.1)
    } else {
        None
    }
}

/// The argument of a `system` command; nothing for another command.
pub open spec fn system_arg(c: CommandV) -> Option<Seq<char>> {
    if c.0 == "system"@ {
        Some(c.1)
    } else {
        None
    }
}

/// The file a `model` (`true`) or `adapter` (`false`) command names.
pub open spec fn file_arg(c: CommandV) -> Option<(bool, Seq<char>)> {
    if c.0 == "model"@ {
        Some((true, c.1))
    } else if c.0 == "adapter"@ {
        Some((false, c.1))
    } else {
        None
    }
}

/// The message a `message` command gives, when its argument has a role.
pub open spec fn message_arg(c: CommandV) -> Option<(Seq<char>, Seq<char>)> {
    if c.0 == "message"@ {
        spec_message_from_args(c.1)
    } else {
        None
    }
}

/// The last text of `s`, or the empty text when there is none.
pub open spec fn last_or_empty(s: Seq<Seq<char>>) -> Seq<char> {
    if s.len() == 0 {
        Seq::empty()
    } else {
        s.last()
    }
}

proof fn lemma_plan_lists(cmds: Seq<CommandV>, n: nat)
    requires
        n <= cmds.len(),
    ensures
        ({
            let p = plan_upto(cmds, n);
            let t = cmds.take(n as int);
            &&& p.licenses == t.filter_map(|c: CommandV| license_arg(c))
            &&& p.files == t.filter_map(|c: CommandV| file_arg(c))
            &&& p.messages == t.filter_map(|c: CommandV| message_arg(c))
            &&& p.template == last_or_empty(t.filter_map(|c: CommandV| template_arg(c)))
            &&& p.system == last_or_empty(t.filter_map(|c: CommandV| system_arg(c)))
        }),
    decreases n,
{
    if n == 0 {
        assert(cmds.take(0) =~= Seq::<CommandV>::empty());
    } else {
        lemma_plan_lists(cmds, (n - 1) as nat);
        let t = cmds.take(n as int);
        assert(t.drop_last() =~= cmds.take(n - 1));
        assert(t.last() == cmds[n - 1]);
        reveal_strlit("license");
        reveal_strlit("model");
        reveal_strlit("adapter");
        reveal_strlit("template");
        reveal_strlit("system");
        reveal_strlit("message");
        assert("model"@.len() != "message"@.len());
        assert("model"@[0] != "adapter"@[0] && "model"@[0] != "template"@[0]);
        assert("model"@[0] != "system"@[0] && "model"@[0] != "license"@[0]);
        assert("adapter"@[0] != "template"@[0] && "adapter"@[0] != "system"@[0]);
        assert("adapter"@[0] != "license"@[0] && "adapter"@[0] != "message"@[0]);
        assert("template"@[0] != "system"@[0] && "template"@[0] != "license"@[0]);
        assert("template"@[0] != "message"@[0]);
        assert("system"@[0] != "license"@[0] && "system"@[0] != "message"@[0]);
        assert("license"@[0] != "message"@[0]);
        let p0 = plan_upto(cmds, (n - 1) as nat);
        let q = plan_upto(cmds, n);
        let c = cmds[n - 1];
        if c.0 == "license"@ {
            assert(q.licenses =~= p0.licenses + seq![c.1]);
        } else {
            assert(q.licenses =~= p0.licenses);
        }
        if c.0 == "model"@ {
            assert(q.files =~= p0.files + seq![(true, c.1)]);
        } else if c.0 == "adapter"@ {
            assert(q.files =~= p0.files + seq![(false, c.1)]);
        } else {
            assert(q.files =~= p0.files);
        }
        if c.0 == "message"@ {
            match spec_message_from_args(c.1) {
                Some(m) => assert(q.messages =~= p0.messages + seq![m]),
                None => assert(q.messages =~= p0.messages),
            }
        } else {
            assert(q.messages =~= p0.messages);
        }
        if c.0 == "template"@ {
            let ts = t.filter_map(|c: CommandV| template_arg(c));
            assert(ts == cmds.take(n - 1).filter_map(|c: CommandV| template_arg(c)) + seq![c.1]);
            assert(ts.last() == c.1);
        }
        if c.0 == "system"@ {
            let ss = t.filter_map(|c: CommandV| system_arg(c));
            assert(ss == cmds.take(n - 1).filter_map(|c: CommandV| system_arg(c)) + seq![c.1]);
            assert(ss.last() == c.1);
        }
    }
}

/// A plan lists the arguments of the Modelfile's `license` commands, one
/// per command, in the order they come; likewise the files its `model` and
/// `adapter` commands name and the messages its `message` commands give.
/// Its template and system text are those of the last `template` and
/// `system` commands (empty when there is none).
pub proof fn law_plan_collects_commands(cmds: Seq<CommandV>)
    ensures
        spec_plan_request(cmds).licenses == cmds.filter_map(|c: CommandV| license_arg(c)),
        spec_plan_request(cmds).files == cmds.filter_map(|c: CommandV| file_arg(c)),
        spec_plan_request(cmds).messages == cmds.filter_map(|c: CommandV| message_arg(c)),
        spec_plan_request(cmds).template == last_or_empty(
            cmds.filter_map(|c: CommandV| template_arg(c)),
        ),
        spec_plan_request(cmds).system == last_or_empty(
            cmds.filter_map(|c: CommandV| system_arg(c)),
        ),
{
    lemma_plan_lists(cmds, cmds.len());
    assert(cmds.take(cmds.len() as int) =~= cmds);
}

} // verus!
