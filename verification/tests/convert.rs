use oxi::convert::{json_schema_str_to_grammar, json_schema_to_grammar};
use oxi::schema::SchemaError;
use oxi::grammar::SchemaConverter;
use oxi::json::{json_clone, pointer, to_json_text, Json};

fn to_json(v: &serde_json::Value) -> Json {
    match v {
        serde_json::Value::Null => Json::Null,
        serde_json::Value::Bool(b) => Json::Bool(*b),
        serde_json::Value::Number(n) => Json::Number(n.to_string().chars().collect(), n.as_i64()),
        serde_json::Value::String(s) => Json::Str(s.chars().collect()),
        serde_json::Value::Array(items) => Json::Array(items.iter().map(to_json).collect()),
        serde_json::Value::Object(map) => Json::Object(
            map.iter()
                .map(|(k, v)| (k.chars().collect(), to_json(v)))
                .collect(),
        ),
    }
}

fn parse(s: &str) -> Json {
    to_json(&serde_json::from_str::<serde_json::Value>(s).expect("valid JSON"))
}

fn grammar(s: &str) -> String {
    json_schema_to_grammar(&parse(s), true).expect("conversion failed")
}

fn chars(s: &str) -> Vec<char> {
    s.chars().collect()
}

fn text(v: &[char]) -> String {
    v.iter().collect()
}

#[test]
fn pattern_conversion_handles_repetition() {
    let grammar = grammar(r#"{ "type": "string", "pattern": "^[a-z]{2}$" }"#);
    assert!(grammar.contains("root-0{2,2}"), "grammar did not encode repetition: {grammar}");
    assert!(grammar.contains("root"), "root rule missing: {grammar}");
}

#[test]
fn pattern_requires_anchors() {
    let schema = parse(r#"{ "type": "string", "pattern": "[a-z]+" }"#);
    let err = json_schema_to_grammar(&schema, true).expect_err("pattern without anchors should fail");
    let msg = err.to_string();
    assert!(msg.contains("Pattern must start"), "unexpected error: {msg}");
}

#[test]
fn object_with_additional_properties_generates_wildcard_rule() {
    let grammar = grammar(
        r#"{ "type": "object", "properties": { "known": { "type": "string" } }, "additionalProperties": true }"#,
    );
    assert!(grammar.contains("additional-kv"), "{grammar}");
    assert!(grammar.contains("known-kv"), "{grammar}");
}

#[test]
fn local_reference_is_resolved() {
    let grammar = grammar(
        r##"{
            "$defs": { "identifier": { "type": "string", "minLength": 1 } },
            "type": "object",
            "properties": { "id": { "$ref": "#/$defs/identifier" } },
            "required": ["id"],
            "additionalProperties": false
        }"##,
    );
    assert!(grammar.contains("id ::= identifier"), "resolved rule missing: {grammar}");
    assert!(grammar.contains("id-kv"), "{grammar}");
}

#[test]
fn integer_bounds_are_encoded() {
    let grammar = grammar(r#"{ "type": "integer", "minimum": 2, "maximum": 5 }"#);
    assert!(grammar.contains("[2-5]"), "{grammar}");
}

#[test]
fn json_string_input_round_trip() {
    let schema_str = r#"{ "type": "array", "items": { "type": "number" }, "minItems": 1 }"#;
    let grammar = json_schema_str_to_grammar(schema_str, true).expect("string conversion failed");
    assert!(grammar.contains("number"), "{grammar}");
}

#[test]
fn unparsable_schema_text_is_an_error() {
    match json_schema_str_to_grammar("{ not json", true) {
        Err(SchemaError::Conversion(m)) => assert!(m.starts_with("Failed to parse schema: "), "{m}"),
        Ok(g) => panic!("unexpected grammar {g}"),
    }
}

#[test]
fn whole_grammar_for_a_string() {
    assert_eq!(
        grammar(r#"{ "type": "string" }"#),
        "space ::= | \" \" | \"\\n\"{1,2} [ \\t]{0,20}\n\
         root ::= \"\\\"\" char* \"\\\"\" space\n\
         char ::= [^\"\\\\\\x7F\\x00-\\x1F] | [\\\\] ([\"\\\\bfnrt] | \"u\" [0-9a-fA-F]{4})\n"
    );
}

#[test]
fn enum_and_const_become_literals() {
    let g = grammar(r#"{ "enum": ["a", 1, null] }"#);
    assert!(g.contains("root ::= (\"\\\"a\\\"\" | \"1\" | \"null\") space\n"), "{g}");
    let g = grammar(r#"{ "const": true }"#);
    assert!(g.contains("root ::= \"true\" space\n"), "{g}");
}

#[test]
fn unions_number_their_alternatives() {
    let g = grammar(r#"{ "oneOf": [ { "type": "string" }, { "type": "null" } ] }"#);
    assert!(g.contains("root ::= string | null\n"), "{g}");
    let g = grammar(r#"{ "anyOf": [ { "type": "object", "properties": { "x": { "const": 1 } } } ] }"#);
    assert!(g.contains("alternative-0-x ::= \"1\" space\n"), "{g}");
    assert!(g.contains("root ::= alternative-0\n"), "{g}");
    let g = grammar(r#"{ "type": ["string", "integer"] }"#);
    assert!(g.contains("root ::= string | integer\n"), "{g}");
}

#[test]
fn required_and_optional_properties() {
    let g = grammar(
        r#"{ "type": "object", "properties": { "a": { "type": "integer" }, "b": { "type": "boolean" } }, "required": ["a"] }"#,
    );
    assert!(g.contains("a-kv ::= \"\\\"a\\\"\" space \":\" space integer\n"), "{g}");
    assert!(
        g.contains("root ::= \"{\" space a-kv ( \",\" space ( b-kv ) )? \"}\" space\n"),
        "{g}"
    );
}

#[test]
fn arrays_and_tuples() {
    let g = grammar(r#"{ "type": "array", "items": { "type": "boolean" }, "maxItems": 3 }"#);
    assert!(
        g.contains("root ::= \"[\" space (boolean (\",\" space boolean){0,2})? \"]\" space\n"),
        "{g}"
    );
    let g = grammar(r#"{ "type": "array", "prefixItems": [ { "type": "null" }, { "type": "boolean" } ] }"#);
    assert!(g.contains("root ::= \"[\" space null \",\" space boolean \"]\" space\n"), "{g}");
}

#[test]
fn unknown_schema_is_an_error() {
    let err = json_schema_to_grammar(&parse(r#"{ "type": "frobnicate" }"#), true).unwrap_err();
    assert_eq!(
        err.to_string(),
        "JSON schema conversion failed:\nUnrecognized schema: {\"type\":\"frobnicate\"}"
    );
}

#[test]
fn missing_reference_is_an_error() {
    let err = json_schema_to_grammar(&parse(r##"{ "$ref": "#/nowhere" }"##), true).unwrap_err();
    assert!(
        err.to_string().contains("Error resolving ref #/nowhere: /nowhere not found"),
        "{}",
        err.to_string()
    );
    let err = json_schema_to_grammar(&parse(r#"{ "$ref": "elsewhere" }"#), true).unwrap_err();
    assert!(err.to_string().contains("Unsupported ref: elsewhere"));
}

#[test]
fn endless_references_get_stuck() {
    let s = r##"{ "$defs": { "a": { "$ref": "#/$defs/a" } }, "allOf": [ { "$ref": "#/$defs/a" } ] }"##;
    let err = json_schema_to_grammar(&parse(s), true).unwrap_err();
    assert_eq!(err.to_string(), "JSON schema conversion failed:\nSchema cannot be converted");
}

#[test]
fn self_reference_terminates() {
    let g = grammar(r##"{ "$defs": { "a": { "$ref": "#/$defs/a" } }, "$ref": "#/$defs/a" }"##);
    assert!(g.contains("a ::= a\n"), "{g}");
    assert!(g.contains("root ::= a\n"), "{g}");
}

#[test]
fn format_strings_use_builtins() {
    let g = grammar(r#"{ "type": "string", "format": "date" }"#);
    assert!(g.contains("root ::= date-string\n"), "{g}");
    assert!(g.contains("date-string ::= \"\\\"\" date \"\\\"\" space\n"), "{g}");
    let g = grammar(r#"{ "type": "string", "format": "uuid" }"#);
    assert!(g.starts_with("space ::="), "{g}");
    assert!(g.contains("root ::= \"\\\"\" [0-9a-fA-F]{8}"), "{g}");
}

#[test]
fn not_strings_excludes_known_keys() {
    let mut c = SchemaConverter::new(false);
    let out = c.not_strings(&vec![chars("ab"), chars("c")]);
    assert_eq!(
        text(&out),
        "[\"] ( [a] ([b] char+ | [^\"b] char*) | [c] char+ | [^\"ac] char* )? [\"] space"
    );
}

#[test]
fn json_text_and_pointer() {
    let v = parse(r#"{ "a": [1, "x\n\u0001", true], "b~c": { "d/e": null } }"#);
    assert_eq!(text(&to_json_text(&v)), "{\"a\":[1,\"x\\n\\u0001\",true],\"b~c\":{\"d/e\":null}}");
    let p = pointer(&v, &chars("/a/1")).unwrap();
    assert_eq!(text(&to_json_text(p)), "\"x\\n\\u0001\"");
    let q = pointer(&v, &chars("/b~0c/d~1e")).unwrap();
    assert_eq!(text(&to_json_text(&json_clone(q))), "null");
    assert!(pointer(&v, &chars("/a/01")).is_none());
    assert!(pointer(&v, &chars("a")).is_none());
    assert!(pointer(&v, &chars("")).is_some());
}
