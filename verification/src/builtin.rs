//! The built-in rules of the grammar converter (JSON values, numbers,
//! strings, dates) and how one is added together with the rules it uses.

use vstd::prelude::*;
use crate::schema::{RuleV, rule_index, spec_add_rule, escape_name, escape_name_from, is_rule_name_char};
use crate::grammar::{ConvV, SchemaConverter, texts_view};
use crate::text::{chars_eq, chars_of, extend_chars};

verus! {

/// The built-in rule named `name`: its body and the names of the rules it
/// uses, in order.
pub open spec fn builtin(name: Seq<char>) -> Option<(Seq<char>, Seq<Seq<char>>)> {
    if name == "boolean"@ {
        Some(("(\"true\" | \"false\") space"@, Seq::empty()))
    } else if name == "decimal-part"@ {
        Some(("[0-9]{1,16}"@, Seq::empty()))
    } else if name == "integral-part"@ {
        Some(("[0] | [1-9] [0-9]{0,15}"@, Seq::empty()))
    } else if name == "number"@ {
        Some(("(\"-\"? integral-part) (\".\" decimal-part)? ([eE] [-+]? integral-part)? space"@, seq!["integral-part"@, "decimal-part"@]))
    } else if name == "integer"@ {
        Some(("(\"-\"? integral-part) space"@, seq!["integral-part"@]))
    } else if name == "value"@ {
        Some(("object | array | string | number | boolean | null"@, seq!["object"@, "array"@, "string"@, "number"@, "boolean"@, "null"@]))
    } else if name == "object"@ {
        Some(("\"{\" space ( string \":\" space value (\",\" space string \":\" space value)* )? \"}\" space"@, seq!["string"@, "value"@]))
    } else if name == "array"@ {
        Some(("\"[\" space ( value (\",\" space value)* )? \"]\" space"@, seq!["value"@]))
    } else if name == "uuid"@ {
        Some(("\"\\\"\" [0-9a-fA-F]{8} \"-\" [0-9a-fA-F]{4} \"-\" [0-9a-fA-F]{4} \"-\" [0-9a-fA-F]{4} \"-\" [0-9a-fA-F]{12} \"\\\"\" space"@, Seq::empty()))
    } else if name == "char"@ {
        Some(("[^\"\\\\\\x7F\\x00-\\x1F] | [\\\\] ([\"\\\\bfnrt] | \"u\" [0-9a-fA-F]{4})"@, Seq::empty()))
    } else if name == "string"@ {
        Some(("\"\\\"\" char* \"\\\"\" space"@, seq!["char"@]))
    } else if name == "null"@ {
        Some(("\"null\" space"@, Seq::empty()))
    } else if name == "date"@ {
        Some(("[0-9]{4} \"-\" ( \"0\" [1-9] | \"1\" [0-2] ) \"-\" ( \"0\" [1-9] | [1-2] [0-9] | \"3\" [0-1] )"@, Seq::empty()))
    } else if name == "time"@ {
        Some(("([01] [0-9] | \"2\" [0-3]) \":\" [0-5] [0-9] \":\" [0-5] [0-9] ( \".\" [0-9]{3} )? ( \"Z\" | ( \"+\" | \"-\" ) ([01] [0-9] | \"2\" [0-3]) \":\" [0-5] [0-9] )"@, Seq::empty()))
    } else if name == "date-time"@ {
        Some(("date \"T\" time"@, seq!["date"@, "time"@]))
    } else if name == "date-string"@ {
        Some(("\"\\\"\" date \"\\\"\" space"@, seq!["date"@]))
    } else if name == "time-string"@ {
        Some(("\"\\\"\" time \"\\\"\" space"@, seq!["time"@]))
    } else if name == "date-time-string"@ {
        Some(("\"\\\"\" date-time \"\\\"\" space"@, seq!["date-time"@]))
    } else {
        None
    }
}

pub open spec fn builtin_names() -> Seq<Seq<char>> {
    seq!["boolean"@, "decimal-part"@, "integral-part"@, "number"@, "integer"@, "value"@, "object"@, "array"@, "uuid"@, "char"@, "string"@, "null"@, "date"@, "time"@, "date-time"@, "date-string"@, "time-string"@, "date-time-string"@]
}

/// The built-in rule named `name`: its body and the rules it uses.
pub fn builtin_rule(name: &[char]) -> (r: Option<(Vec<char>, Vec<Vec<char>>)>)
    ensures
        match r {
            Some((c, d)) => builtin(name@) == Some((c@, texts_view(d@))),
            None => builtin(name@) is None,
        },
{
    if chars_eq(name, &chars_of("boolean")) {
        let deps: Vec<Vec<char>> = vec![];
        assert(texts_view(deps@) =~= builtin_deps(name@));
        return Some((chars_of("(\"true\" | \"false\") space"), deps));
    }
    if chars_eq(name, &chars_of("decimal-part")) {
        let deps: Vec<Vec<char>> = vec![];
        assert(texts_view(deps@) =~= builtin_deps(name@));
        return Some((chars_of("[0-9]{1,16}"), deps));
    }
    if chars_eq(name, &chars_of("integral-part")) {
        let deps: Vec<Vec<char>> = vec![];
        assert(texts_view(deps@) =~= builtin_deps(name@));
        return Some((chars_of("[0] | [1-9] [0-9]{0,15}"), deps));
    }
    if chars_eq(name, &chars_of("number")) {
        let deps: Vec<Vec<char>> = vec![chars_of("integral-part"), chars_of("decimal-part")];
        assert(texts_view(deps@) =~= builtin_deps(name@));
        return Some((chars_of("(\"-\"? integral-part) (\".\" decimal-part)? ([eE] [-+]? integral-part)? space"), deps));
    }
    if chars_eq(name, &chars_of("integer")) {
        let deps: Vec<Vec<char>> = vec![chars_of("integral-part")];
        assert(texts_view(deps@) =~= builtin_deps(name@));
        return Some((chars_of("(\"-\"? integral-part) space"), deps));
    }
    if chars_eq(name, &chars_of("value")) {
        let deps: Vec<Vec<char>> = vec![chars_of("object"), chars_of("array"), chars_of("string"), chars_of("number"), chars_of("boolean"), chars_of("null")];
        assert(texts_view(deps@) =~= builtin_deps(name@));
        return Some((chars_of("object | array | string | number | boolean | null"), deps));
    }
    if chars_eq(name, &chars_of("object")) {
        let deps: Vec<Vec<char>> = vec![chars_of("string"), chars_of("value")];
        assert(texts_view(deps@) =~= builtin_deps(name@));
        return Some((chars_of("\"{\" space ( string \":\" space value (\",\" space string \":\" space value)* )? \"}\" space"), deps));
    }
    if chars_eq(name, &chars_of("array")) {
        let deps: Vec<Vec<char>> = vec![chars_of("value")];
        assert(texts_view(deps@) =~= builtin_deps(name@));
        return Some((chars_of("\"[\" space ( value (\",\" space value)* )? \"]\" space"), deps));
    }
    if chars_eq(name, &chars_of("uuid")) {
        let deps: Vec<Vec<char>> = vec![];
        assert(texts_view(deps@) =~= builtin_deps(name@));
        return Some((chars_of("\"\\\"\" [0-9a-fA-F]{8} \"-\" [0-9a-fA-F]{4} \"-\" [0-9a-fA-F]{4} \"-\" [0-9a-fA-F]{4} \"-\" [0-9a-fA-F]{12} \"\\\"\" space"), deps));
    }
    if chars_eq(name, &chars_of("char")) {
        let deps: Vec<Vec<char>> = vec![];
        assert(texts_view(deps@) =~= builtin_deps(name@));
        return Some((chars_of("[^\"\\\\\\x7F\\x00-\\x1F] | [\\\\] ([\"\\\\bfnrt] | \"u\" [0-9a-fA-F]{4})"), deps));
    }
    if chars_eq(name, &chars_of("string")) {
        let deps: Vec<Vec<char>> = vec![chars_of("char")];
        assert(texts_view(deps@) =~= builtin_deps(name@));
        return Some((chars_of("\"\\\"\" char* \"\\\"\" space"), deps));
    }
    if chars_eq(name, &chars_of("null")) {
        let deps: Vec<Vec<char>> = vec![];
        assert(texts_view(deps@) =~= builtin_deps(name@));
        return Some((chars_of("\"null\" space"), deps));
    }
    if chars_eq(name, &chars_of("date")) {
        let deps: Vec<Vec<char>> = vec![];
        assert(texts_view(deps@) =~= builtin_deps(name@));
        return Some((chars_of("[0-9]{4} \"-\" ( \"0\" [1-9] | \"1\" [0-2] ) \"-\" ( \"0\" [1-9] | [1-2] [0-9] | \"3\" [0-1] )"), deps));
    }
    if chars_eq(name, &chars_of("time")) {
        let deps: Vec<Vec<char>> = vec![];
        assert(texts_view(deps@) =~= builtin_deps(name@));
        return Some((chars_of("([01] [0-9] | \"2\" [0-3]) \":\" [0-5] [0-9] \":\" [0-5] [0-9] ( \".\" [0-9]{3} )? ( \"Z\" | ( \"+\" | \"-\" ) ([01] [0-9] | \"2\" [0-3]) \":\" [0-5] [0-9] )"), deps));
    }
    if chars_eq(name, &chars_of("date-time")) {
        let deps: Vec<Vec<char>> = vec![chars_of("date"), chars_of("time")];
        assert(texts_view(deps@) =~= builtin_deps(name@));
        return Some((chars_of("date \"T\" time"), deps));
    }
    if chars_eq(name, &chars_of("date-string")) {
        let deps: Vec<Vec<char>> = vec![chars_of("date")];
        assert(texts_view(deps@) =~= builtin_deps(name@));
        return Some((chars_of("\"\\\"\" date \"\\\"\" space"), deps));
    }
    if chars_eq(name, &chars_of("time-string")) {
        let deps: Vec<Vec<char>> = vec![chars_of("time")];
        assert(texts_view(deps@) =~= builtin_deps(name@));
        return Some((chars_of("\"\\\"\" time \"\\\"\" space"), deps));
    }
    if chars_eq(name, &chars_of("date-time-string")) {
        let deps: Vec<Vec<char>> = vec![chars_of("date-time")];
        assert(texts_view(deps@) =~= builtin_deps(name@));
        return Some((chars_of("\"\\\"\" date-time \"\\\"\" space"), deps));
    }
    None
}

/// The body of the built-in rule `name`.
pub open spec fn builtin_body(name: Seq<char>) -> Seq<char> {
    match builtin(name) {
        Some((b, _)) => b,
        None => Seq::empty(),
    }
}

/// The names of the rules the built-in rule `name` uses.
pub open spec fn builtin_deps(name: Seq<char>) -> Seq<Seq<char>> {
    match builtin(name) {
        Some((_, d)) => d,
        None => Seq::empty(),
    }
}

/// How many of the built-in rules are not there yet.
pub open spec fn count_missing(rules: Seq<RuleV>, names: Seq<Seq<char>>) -> nat
    decreases names.len(),
{
    if names.len() == 0 {
        0
    } else {
        count_missing(rules, names.drop_last()) + (if rule_index(rules, names.last()) < 0 {
            1nat
        } else {
            0nat
        })
    }
}

pub open spec fn missing(rules: Seq<RuleV>) -> nat {
    count_missing(rules, builtin_names())
}

proof fn lemma_rule_index_push(rules: Seq<RuleV>, r: RuleV, n: Seq<char>)
    ensures
        rule_index(rules.push(r), n) == if r.0 == n {
            rules.len() as int
        } else {
            rule_index(rules, n)
        },
{
    assert(rules.push(r).drop_last() =~= rules);
}

proof fn lemma_count_missing_push(rules: Seq<RuleV>, r: RuleV, names: Seq<Seq<char>>)
    ensures
        count_missing(rules.push(r), names) <= count_missing(rules, names),
        (exists|k: int| 0 <= k < names.len() && names[k] == r.0) && rule_index(rules, r.0) < 0
            ==> count_missing(rules.push(r), names) < count_missing(rules, names),
    decreases names.len(),
{
    if names.len() > 0 {
        lemma_count_missing_push(rules, r, names.drop_last());
        lemma_rule_index_push(rules, r, names.last());
        if (exists|k: int| 0 <= k < names.len() && names[k] == r.0) && rule_index(rules, r.0) < 0 {
            if names.last() != r.0 {
                let k = choose|k: int| 0 <= k < names.len() && names[k] == r.0;
                assert(names.drop_last()[k] == r.0);
            }
        }
    }
}

/// A name made of rule-name characters only is its own rule name.
proof fn lemma_escape_plain(s: Seq<char>, i: int, run: bool)
    requires
        0 <= i <= s.len(),
        forall|k: int| 0 <= k < s.len() ==> is_rule_name_char(#[trigger] s[k]),
    ensures
        escape_name_from(s, i, run) == s.skip(i),
    decreases s.len() - i,
{
    if i < s.len() {
        lemma_escape_plain(s, i + 1, false);
        assert(s.skip(i) =~= seq![s[i]] + s.skip(i + 1));
    } else {
        assert(s.skip(i) =~= Seq::<char>::empty());
    }
}

proof fn lemma_builtin_names()
    ensures
        forall|k: int| 0 <= k < builtin_names().len() ==> escape_name(#[trigger] builtin_names()[k])
            == builtin_names()[k],
        forall|n: Seq<char>| #[trigger] builtin(n) is Some ==> exists|k: int|
            0 <= k < builtin_names().len() && builtin_names()[k] == n,
{
    reveal_strlit("boolean");
    reveal_strlit("decimal-part");
    reveal_strlit("integral-part");
    reveal_strlit("number");
    reveal_strlit("integer");
    reveal_strlit("value");
    reveal_strlit("object");
    reveal_strlit("array");
    reveal_strlit("uuid");
    reveal_strlit("char");
    reveal_strlit("string");
    reveal_strlit("null");
    reveal_strlit("date");
    reveal_strlit("time");
    reveal_strlit("date-time");
    reveal_strlit("date-string");
    reveal_strlit("time-string");
    reveal_strlit("date-time-string");
    assert forall|k: int| 0 <= k < builtin_names().len() implies escape_name(
        #[trigger] builtin_names()[k],
    ) == builtin_names()[k] by {
        let s = builtin_names()[k];
        assert forall|j: int| 0 <= j < s.len() implies is_rule_name_char(#[trigger] s[j]) by {}
        lemma_escape_plain(s, 0, false);
        assert(s.skip(0) =~= s);
    }
    assert forall|n: Seq<char>| #[trigger] builtin(n) is Some implies exists|k: int|
        0 <= k < builtin_names().len() && builtin_names()[k] == n by {
        let names = builtin_names();
        if n == names[0] {} else if n == names[1] {} else if n == names[2] {} else if n == names[3] {
        } else if n == names[4] {} else if n == names[5] {} else if n == names[6] {} else if n
            == names[7] {} else if n == names[8] {} else if n == names[9] {} else if n == names[10] {
        } else if n == names[11] {} else if n == names[12] {} else if n == names[13] {} else if n
            == names[14] {} else if n == names[15] {} else if n == names[16] {} else if n
            == names[17] {}
    }
}


// ---------------------------------------------------------------------------
// Adding a built-in rule with the rules it uses
// ---------------------------------------------------------------------------

/// Where adding a rule with the built-in rules it uses stands: the
/// converter and, for each rule under way (innermost last), the names of
/// the rules it uses and how many of them were seen to.
pub struct PrimV {
    pub conv: ConvV,
    pub stack: Seq<(Seq<Seq<char>>, int)>,
}

/// How many names are still to be seen to on the stack.
pub open spec fn remaining(stack: Seq<(Seq<Seq<char>>, int)>) -> nat
    decreases stack.len(),
{
    if stack.len() == 0 {
        0
    } else {
        let (deps, i) = stack.last();
        remaining(stack.drop_last()) + (if i < deps.len() {
            (deps.len() - i) as nat
        } else {
            0nat
        })
    }
}

/// The error for a rule that uses a rule nobody knows.
pub open spec fn not_known_text(d: Seq<char>) -> Seq<char> {
    "Rule "@ + d + " not known"@
}

/// One step: the next name of the innermost rule seen to (skipped when a
/// rule of that name is there, added with the rules it uses when it is
/// built in, an error otherwise), or that rule done.
pub open spec fn prim_step(st: PrimV) -> PrimV {
    let n = st.stack.len() - 1;
    let (deps, i) = st.stack[n];
    if i >= deps.len() {
        PrimV { stack: st.stack.drop_last(), ..st }
    } else {
        let d = deps[i];
        let stack1 = st.stack.update(n, (deps, i + 1));
        if rule_index(st.conv.rules, d) >= 0 {
            PrimV { stack: stack1, ..st }
        } else {
            match builtin(d) {
                Some((content, dd)) => {
                    let (_, r2) = spec_add_rule(st.conv.rules, d, content);
                    PrimV { conv: ConvV { rules: r2, ..st.conv }, stack: stack1.push((dd, 0)) }
                },
                None => PrimV {
                    conv: ConvV { errors: st.conv.errors.push(not_known_text(d)), ..st.conv },
                    stack: stack1,
                },
            }
        }
    }
}

proof fn lemma_remaining_update(stack: Seq<(Seq<Seq<char>>, int)>, x: (Seq<Seq<char>>, int))
    requires
        stack.len() > 0,
    ensures
        remaining(stack.update(stack.len() - 1, x)) == remaining(stack.drop_last()) + (if x.1
            < x.0.len() {
            (x.0.len() - x.1) as nat
        } else {
            0nat
        }),
        remaining(stack.push(x)) == remaining(stack) + (if x.1 < x.0.len() {
            (x.0.len() - x.1) as nat
        } else {
            0nat
        }),
{
    assert(stack.update(stack.len() - 1, x).drop_last() =~= stack.drop_last());
    assert(stack.push(x).drop_last() =~= stack);
}

/// A step goes forward: fewer built-in rules missing, or fewer names to see
/// to, or a rule done.
pub proof fn lemma_prim_step(st: PrimV)
    requires
        st.stack.len() > 0,
    ensures
        ({
            let s2 = prim_step(st);
            ||| missing(s2.conv.rules) < missing(st.conv.rules)
            ||| (missing(s2.conv.rules) == missing(st.conv.rules) && remaining(s2.stack) < remaining(
                st.stack,
            ))
            ||| (missing(s2.conv.rules) == missing(st.conv.rules) && remaining(s2.stack)
                == remaining(st.stack) && s2.stack.len() < st.stack.len())
        }),
{
    let n = st.stack.len() - 1;
    let (deps, i) = st.stack[n];
    if i < deps.len() {
        let d = deps[i];
        lemma_remaining_update(st.stack, (deps, i + 1));
        if rule_index(st.conv.rules, d) < 0 {
            match builtin(d) {
                Some((content, dd)) => {
                    lemma_builtin_names();
                    let k = choose|k: int| 0 <= k < builtin_names().len() && builtin_names()[k] == d;
                    assert(escape_name(builtin_names()[k]) == builtin_names()[k]);
                    lemma_count_missing_push(st.conv.rules, (d, content), builtin_names());
                },
                None => {},
            }
        }
    } else {
        assert(st.stack.drop_last() =~= st.stack.drop_last());
    }
}

/// The adding run until no rule is under way.
pub open spec fn prim_run(st: PrimV) -> PrimV
    decreases missing(st.conv.rules), remaining(st.stack), st.stack.len(),
{
    if st.stack.len() == 0 {
        st
    } else {
        proof {
            lemma_prim_step(st);
        }
        prim_run(prim_step(st))
    }
}

/// Adding the rule `content` under a name made from `name`, and then each
/// built-in rule in `deps` (and those these use, depth first) that is not
/// there yet: the converter afterwards and the name used.
pub open spec fn spec_add_primitive(c: ConvV, name: Seq<char>, content: Seq<char>, deps: Seq<
    Seq<char>,
>) -> (ConvV, Seq<char>) {
    let (n, r1) = spec_add_rule(c.rules, name, content);
    (prim_run(PrimV { conv: ConvV { rules: r1, ..c }, stack: seq![(deps, 0int)] }).conv, n)
}

spec fn stack_view(s: Seq<(Vec<Vec<char>>, usize)>) -> Seq<(Seq<Seq<char>>, int)> {
    s.map_values(|x: (Vec<Vec<char>>, usize)| (texts_view(x.0@), x.1 as int))
}

fn copy_text(v: &Vec<char>) -> (out: Vec<char>)
    ensures
        out@ == v@,
{
    let mut out: Vec<char> = Vec::new();
    extend_chars(&mut out, v);
    assert(out@ =~= v@);
    out
}

impl SchemaConverter {
    /// Adds `content` under a name made from `name`, then the built-in
    /// rules in `deps` that are not there yet, each with the rules it uses;
    /// gives the name used.  See `spec_add_primitive`.
    pub fn add_primitive(&mut self, name: &[char], content: &[char], deps: Vec<Vec<char>>) -> (used:
        Vec<char>)
        ensures
            (final(self)@, used@) == spec_add_primitive(old(self)@, name@, content@, texts_view(
                deps@,
            )),
    {
        let used = self.add_rule(name, content);
        let ghost c1 = self@;
        let mut stack: Vec<(Vec<Vec<char>>, usize)> = Vec::new();
        let ghost d0 = deps;
        stack.push((deps, 0));
        let ghost start = PrimV { conv: c1, stack: stack_view(stack@) };
        assert(stack_view(stack@) =~= seq![(texts_view(d0@), 0int)]);
        while stack.len() > 0
            invariant
                prim_run(PrimV { conv: self@, stack: stack_view(stack@) }) == prim_run(start),
                forall|k: int| 0 <= k < stack@.len() ==> #[trigger] stack@[k].1 <= stack@[k].0@.len(),
            decreases missing(self@.rules), remaining(stack_view(stack@)), stack@.len(),
        {
            let ghost st = PrimV { conv: self@, stack: stack_view(stack@) };
            let ghost s0 = stack@;
            proof {
                lemma_prim_step(st);
            }
            let n = stack.len() - 1;
            let i = stack[n].1;
            if i >= stack[n].0.len() {
                stack.pop();
                assert(stack_view(stack@) =~= st.stack.drop_last());
            } else {
                let d = copy_text(&stack[n].0[i]);
                assert(d@ == st.stack[n as int].0[i as int]);
                let top = stack.pop().unwrap();
                let ghost t0 = top.0;
                stack.push((top.0, i + 1));
                let ghost stack1 = stack_view(stack@);
                assert(stack1 =~= st.stack.update(n as int, (st.stack[n as int].0, i + 1)));
                if !self.has_rule(&d) {
                    match builtin_rule(&d) {
                        Some((content, dd)) => {
                            self.add_rule(&d, &content);
                            let ghost ddv = texts_view(dd@);
                            stack.push((dd, 0));
                            assert(stack_view(stack@) =~= stack1.push((ddv, 0int)));
                        },
                        None => {
                            let mut t = chars_of("Rule ");
                            extend_chars(&mut t, &d);
                            extend_chars(&mut t, &chars_of(" not known"));
                            assert(t@ =~= not_known_text(d@));
                            self.push_error_text(t);
                        },
                    }
                }
                proof {
                    assert forall|k: int| 0 <= k < stack@.len() implies #[trigger] stack@[k].1
                        <= stack@[k].0@.len() by {
                        if k < n {
                            assert(stack@[k] == s0[k]);
                        }
                    }
                }
            }
        }
        used
    }
}

} // verus!
