use oxi::grammar::{Issue, SchemaConverter};

fn chars(s: &str) -> Vec<char> {
    s.chars().collect()
}

fn text(v: &[char]) -> String {
    v.iter().collect()
}

const SPACE_LINE: &str = "space ::= | \" \" | \"\\n\"{1,2} [ \\t]{0,20}\n";

#[test]
fn visit_pattern_handles_repetition() {
    let mut c = SchemaConverter::new(false);
    let used = c.visit_pattern("^[a-z]{2}$", &chars("root")).unwrap();
    assert_eq!(text(&used), "root");
    assert!(c.check_errors().is_ok());
    let grammar = text(&c.format_grammar());
    assert!(grammar.contains("root-0{2,2}"), "grammar did not encode repetition: {grammar}");
    assert!(grammar.contains("root"), "root rule missing: {grammar}");
    assert_eq!(
        grammar,
        format!(
            "{SPACE_LINE}root-0 ::= [a-z]\nroot ::= \"\\\"\" (root-0{{2,2}}) \"\\\"\" space\n"
        )
    );
}

#[test]
fn visit_pattern_requires_anchors() {
    let mut c = SchemaConverter::new(false);
    let used = c.visit_pattern("[a-z]+", &chars("root")).unwrap();
    assert!(used.is_empty());
    let err = c.check_errors().expect_err("pattern without anchors should fail");
    let msg = err.to_string();
    assert!(msg.contains("Pattern must start"), "unexpected error: {msg}");
    assert_eq!(
        msg,
        "JSON schema conversion failed:\nPattern must start with '^' and end with '$'"
    );
}

#[test]
fn pattern_literals_and_quantifiers() {
    let mut c = SchemaConverter::new(false);
    let used = c.visit_pattern("^ab+$", &chars("p")).unwrap();
    assert_eq!(text(&used), "p");
    assert_eq!(
        text(&c.format_grammar()),
        format!("{SPACE_LINE}p ::= \"\\\"\" (\"a\" \"b\"+) \"\\\"\" space\n")
    );
}

#[test]
fn pattern_groups_and_dot() {
    let mut c = SchemaConverter::new(false);
    c.visit_pattern("^(ab)?.$", &chars("g")).unwrap();
    assert_eq!(
        text(&c.format_grammar()),
        format!(
            "{SPACE_LINE}dot ::= [^\\x0A\\x0D]\ng ::= \"\\\"\" ((\"ab\")? dot) \"\\\"\" space\n"
        )
    );
    let mut d = SchemaConverter::new(true);
    d.visit_pattern("^.$", &chars("h")).unwrap();
    assert!(text(&d.format_grammar()).contains("dot ::= [\\U00000000-\\U0010FFFF]\n"));
}

#[test]
fn pattern_bad_quantifier_is_an_error() {
    let mut c = SchemaConverter::new(false);
    c.visit_pattern("^a{x}$", &chars("q")).unwrap();
    let err = c.check_errors().unwrap_err();
    assert_eq!(
        err.to_string(),
        "JSON schema conversion failed:\nInvalid number in curly brackets"
    );
    assert!(text(&c.format_grammar()).contains("q ::= \"\\\"\" () \"\\\"\" space\n"));
    let mut d = SchemaConverter::new(false);
    d.visit_pattern("^a{1,2,3}$", &chars("q")).unwrap();
    assert!(d.check_errors().unwrap_err().to_string().ends_with("Wrong number of values in curly brackets"));
    let mut e = SchemaConverter::new(false);
    e.visit_pattern("^a{2$", &chars("q")).unwrap();
    assert!(e.check_errors().unwrap_err().to_string().ends_with("Unbalanced curly brackets"));
}

#[test]
fn pattern_repeated_group_reuses_rule() {
    let mut c = SchemaConverter::new(false);
    c.visit_pattern("^[0-9]{3}-[0-9]{3}$", &chars("n")).unwrap();
    assert_eq!(
        text(&c.format_grammar()),
        format!("{SPACE_LINE}n-0 ::= [0-9]\nn ::= \"\\\"\" (n-0{{3,3}} \"-\" n-0{{3,3}}) \"\\\"\" space\n")
    );
}

#[test]
fn pattern_stray_bracket_stalls() {
    let mut c = SchemaConverter::new(false);
    assert!(c.visit_pattern("^a]$", &chars("s")).is_none());
    let mut d = SchemaConverter::new(false);
    assert!(d.visit_pattern("^}$", &chars("s")).is_none());
}

#[test]
fn issue_messages() {
    assert_eq!(text(&Issue::UnbalancedParentheses.message()), "Unbalanced parentheses");
    assert_eq!(text(&Issue::UnsupportedPatternSyntax.message()), "Unsupported pattern syntax");
    let mut c = SchemaConverter::new(false);
    c.visit_pattern("^(a$", &chars("u")).unwrap();
    assert_eq!(
        c.check_errors().unwrap_err().to_string(),
        "JSON schema conversion failed:\nUnbalanced parentheses"
    );
}
