use oxi::schema::{
    build_min_max_int, build_repetition, digit_range, format_literal, grammar_literal_escape,
    more_digits, string_join, string_repeat, string_split, uniform_range, CommonGrammarOptions,
    SchemaError,
};

fn chars(s: &str) -> Vec<char> {
    s.chars().collect()
}

fn text(v: &[char]) -> String {
    v.iter().collect()
}

fn min_max(min: i32, max: i32) -> String {
    let mut out = Vec::new();
    build_min_max_int(min, max, &mut out, 16, true);
    text(&out)
}

#[test]
fn min_max_two_to_five() {
    assert_eq!(min_max(2, 5), "[2-5]");
}

#[test]
fn integer_ranges() {
    assert_eq!(min_max(0, i32::MAX), "[0] | [1-9] [0-9]{0,15}");
    assert_eq!(min_max(-5, 10), "\"-\" ([0-5]) | [0-9] | \"10\"");
    assert_eq!(min_max(i32::MIN, 0), "\"-\" [1-9] [0-9]{0,15} | \"0\"");
    assert_eq!(min_max(5, i32::MAX), "[1-4] [0-9]{1,15} | [5-9] [0-9]{0,15}");
    assert_eq!(min_max(-10, -3), "\"-\" ([3-9] | \"10\")");
}

#[test]
fn uniform_ranges() {
    let mut out = Vec::new();
    uniform_range(&mut out, &chars("12"), &chars("15"));
    assert_eq!(text(&out), "\"1\" [2-5]");
    let mut out = Vec::new();
    uniform_range(&mut out, &chars("100"), &chars("299"));
    assert_eq!(text(&out), "([1] [0-9]{2} | [2] ([0-8] [0-9] | [9] [0-9]))");
}

#[test]
fn repetitions() {
    let item = chars("x");
    let none: Vec<char> = Vec::new();
    let sep = chars("\",\" space");
    assert_eq!(text(&build_repetition(&item, 0, i32::MAX, &none)), "x*");
    assert_eq!(text(&build_repetition(&item, 1, i32::MAX, &none)), "x+");
    assert_eq!(text(&build_repetition(&item, 0, 1, &none)), "x?");
    assert_eq!(text(&build_repetition(&item, 2, 2, &none)), "x{2,2}");
    assert_eq!(text(&build_repetition(&item, 3, i32::MAX, &none)), "x{3,}");
    assert_eq!(text(&build_repetition(&item, 0, 0, &none)), "");
    assert_eq!(
        text(&build_repetition(&item, 0, 3, &sep)),
        "(x (\",\" space x){0,2})?"
    );
    assert_eq!(
        text(&build_repetition(&item, 1, i32::MAX, &sep)),
        "x (\",\" space x)*"
    );
}

#[test]
fn digits_and_literals() {
    let mut out = Vec::new();
    digit_range(&mut out, '1', '1');
    digit_range(&mut out, '2', '7');
    assert_eq!(text(&out), "[1][2-7]");
    let mut out = Vec::new();
    more_digits(&mut out, 1, 1);
    out.push(' ');
    more_digits(&mut out, 0, 15);
    out.push(' ');
    more_digits(&mut out, 2, i32::MAX);
    assert_eq!(text(&out), "[0-9] [0-9]{0,15} [0-9]{2,}");
    assert_eq!(text(&format_literal(&chars("a\"b\n"))), "\"a\\\"b\\n\"");
    assert_eq!(text(&grammar_literal_escape('-')), "\\-");
    assert_eq!(text(&grammar_literal_escape(']')), "\\]");
}

#[test]
fn string_helpers() {
    assert_eq!(text(&string_repeat(&chars("ab"), 3)), "ababab");
    let parts = vec!["a".to_string(), "b".to_string(), "c".to_string()];
    assert_eq!(text(&string_join(&parts, " | ")), "a | b | c");
    let split: Vec<String> = string_split(&chars("1,,2"), &chars(",")).iter().map(|p| text(p)).collect();
    assert_eq!(split, vec!["1", "", "2"]);
    let split: Vec<String> = string_split(&chars("ab"), &[]).iter().map(|p| text(p)).collect();
    assert_eq!(split, vec!["a", "b"]);
}

#[test]
fn schema_error_message() {
    let e = SchemaError::Conversion("bad".to_string());
    assert_eq!(e.to_string(), "JSON schema conversion failed:\nbad");
    assert!(!CommonGrammarOptions::default().dotall);
}
