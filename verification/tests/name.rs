use oxi::name::{
    is_valid_namespace, is_valid_part, parse_name, parse_name_bare, parse_name_from_filepath,
    Name, PartKind,
};
use std::path::PathBuf;

const PART80: &str =
    "88888888888888888888888888888888888888888888888888888888888888888888888888888888";

fn join(parts: &[&str]) -> PathBuf {
    let mut pb = PathBuf::new();
    for p in parts {
        pb.push(p);
    }
    pb
}

fn name(host: &str, namespace: &str, model: &str, tag: &str) -> Name {
    Name {
        host: host.to_string(),
        namespace: namespace.to_string(),
        model: model.to_string(),
        tag: tag.to_string(),
    }
}

#[test]
fn is_valid_part_cases() {
    let cases = [
        (PartKind::Host, "", false),
        (PartKind::Host, "a", true),
        (PartKind::Host, "a.", true),
        (PartKind::Host, "a.b", true),
        (PartKind::Host, "a:123", true),
        (PartKind::Host, "a:123/aa/bb", false),
        (PartKind::Namespace, "bb", true),
        (PartKind::Namespace, "a.", false),
        (PartKind::Model, "-h", false),
        (
            PartKind::Digest,
            "sha256-1000000000000000000000000000000000000000000000000000000000000000",
            true,
        ),
    ];
    for (kind, s, want) in cases {
        assert_eq!(is_valid_part(kind, s), want, "kind {:?} s {}", kind, s);
    }
}

#[test]
fn parse_name_parts() {
    let part350 = "3".repeat(350);
    let cases: Vec<(String, Name, PathBuf)> = vec![
        (
            "registry.ollama.ai/library/dolphin-mistral:7b-v2.6-dpo-laser-q6_K".into(),
            name("registry.ollama.ai", "library", "dolphin-mistral", "7b-v2.6-dpo-laser-q6_K"),
            join(&["registry.ollama.ai", "library", "dolphin-mistral", "7b-v2.6-dpo-laser-q6_K"]),
        ),
        (
            "scheme://host:port/namespace/model:tag".into(),
            name("host:port", "namespace", "model", "tag"),
            join(&["host:port", "namespace", "model", "tag"]),
        ),
        (
            "host/namespace/model:tag".into(),
            name("host", "namespace", "model", "tag"),
            join(&["host", "namespace", "model", "tag"]),
        ),
        (
            "host/namespace/model".into(),
            name("host", "namespace", "model", ""),
            join(&["host", "namespace", "model", "latest"]),
        ),
        (
            "namespace/model".into(),
            name("", "namespace", "model", ""),
            join(&["registry.ollama.ai", "namespace", "model", "latest"]),
        ),
        (
            "model".into(),
            name("", "", "model", ""),
            join(&["registry.ollama.ai", "library", "model", "latest"]),
        ),
        (
            format!("{PART80}/{PART80}/{PART80}:{PART80}"),
            name(PART80, PART80, PART80, PART80),
            join(&[PART80, PART80, PART80, PART80]),
        ),
        (
            format!("{part350}/{PART80}/{PART80}:{PART80}"),
            name(&part350, PART80, PART80, PART80),
            join(&[part350.as_str(), PART80, PART80, PART80]),
        ),
    ];
    for (input, want, filepath) in cases {
        let got = parse_name_bare(&input);
        assert_eq!(got, want, "parse_name_bare {}", input);
        let merged = parse_name(&input);
        assert_eq!(PathBuf::from(merged.filepath()), filepath, "filepath for {}", input);
    }
}

#[test]
fn parse_name_from_filepath_test() {
    let cases: Vec<(String, Name)> = vec![
        (
            join(&["host", "namespace", "model", "tag"]).to_str().unwrap().to_string(),
            name("host", "namespace", "model", "tag"),
        ),
        (
            join(&["host:port", "namespace", "model", "tag"]).to_str().unwrap().to_string(),
            name("host:port", "namespace", "model", "tag"),
        ),
        (
            join(&["namespace", "model", "tag"]).to_str().unwrap().to_string(),
            Name::default(),
        ),
        (join(&["model", "tag"]).to_str().unwrap().to_string(), Name::default()),
    ];
    for (input, want) in cases {
        let got = parse_name_from_filepath(&input);
        assert_eq!(got, want, "{}", input);
    }
}

#[test]
fn display_shortest() {
    let cases = vec![
        ("registry.ollama.ai/library/model:latest", "model:latest"),
        ("registry.ollama.ai/library/model:tag", "model:tag"),
        ("registry.ollama.ai/namespace/model:tag", "namespace/model:tag"),
        ("host/namespace/model:tag", "host/namespace/model:tag"),
    ];
    for (input, want) in cases {
        let n = parse_name(input);
        assert_eq!(n.display_shortest(), want, "{}", input);
    }
}

#[test]
fn is_valid_namespace_cases() {
    let cases = vec![
        ("", false),
        ("a", true),
        ("a:b", false),
        ("a/b", false),
        ("himynameisjoe", true),
    ];
    for (input, expected) in cases {
        assert_eq!(is_valid_namespace(input), expected, "{}", input);
    }
}

#[test]
fn parse_name_default() {
    let n = parse_name("xx");
    assert_eq!(n.to_string(), "registry.ollama.ai/library/xx:latest");
}

#[test]
fn name_is_valid() {
    let part350 = "3".repeat(350);
    let test_cases: Vec<(String, bool)> = vec![
        ("".into(), false),
        ("_why/_the/_lucky:_stiff".into(), true),
        ("h/n/m:t".into(), true),
        ("host/namespace/model:tag".into(), true),
        ("host/namespace/model".into(), false),
        ("namespace/model".into(), false),
        ("model".into(), false),
        (format!("{PART80}/{PART80}/{PART80}:{PART80}"), true),
        (format!("{part350}/{PART80}/{PART80}:{PART80}"), true),
        ("h/nn/mm:t".into(), true),
        ("m".into(), false),
        ("n/m:".into(), false),
        ("h/n/m".into(), false),
        ("@t".into(), false),
        ("m@d".into(), false),
        ("^".into(), false),
        ("mm:".into(), false),
        ("/nn/mm".into(), false),
        ("//".into(), false),
        ("//mm".into(), false),
        ("hh//".into(), false),
        ("//mm:@".into(), false),
        ("00@".into(), false),
        ("@".into(), false),
        ("-hh/nn/mm:tt".into(), false),
        ("hh/-nn/mm:tt".into(), false),
        ("hh/nn/-mm:tt".into(), false),
        ("hh/nn/mm:-tt".into(), false),
        ("host:https/namespace/model:tag".into(), true),
        ("host/name:space/model:tag".into(), false),
    ];

    let mut tested_string = false;
    for (s, want) in test_cases {
        let n = parse_name_bare(&s);
        let got = n.is_valid();
        assert_eq!(got, want, "is_valid {}", s);
        if got {
            assert_eq!(parse_name_bare(&s).to_string(), s);
            tested_string = true;
        }
    }
    assert!(tested_string, "no tests for Name::to_string");
}

#[test]
fn name_merge_keeps_given_parts() {
    let a = name("", "ns", "m", "");
    let b = name("h", "x", "y", "t");
    assert_eq!(oxi::name::merge(a, b), name("h", "ns", "m", "t"));
}

#[test]
fn name_filepath_round_trip() {
    let n = parse_name("host/namespace/model:tag");
    assert_eq!(parse_name_from_filepath(&n.filepath()), n);
}

#[test]
fn name_equal_fold_ignores_case() {
    assert!(parse_name("HOST/NS/Model:TAG").equal_fold(&parse_name("host/ns/model:tag")));
    assert!(!parse_name("host/ns/model:tag").equal_fold(&parse_name("host/ns/model:tag2")));
}

#[test]
fn name_missing_parts() {
    let n = parse_name_bare("/nn/mm");
    assert_eq!(n.host, "!MISSING!");
    assert_eq!(n.namespace, "nn");
    assert_eq!(n.model, "mm");
}

#[test]
fn filepath_round_trip_with_either_separator() {
    let n = oxi::name::parse_name("registry.ollama.ai/library/llama3:8b");
    for sep in ['/', '\\'] {
        let p = n.filepath_with(sep);
        assert_eq!(oxi::name::parse_name_from_filepath_with(&p, sep), n);
    }
    assert_eq!(n.filepath_with('\\'), "registry.ollama.ai\\library\\llama3\\8b");
}
