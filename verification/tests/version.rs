use oxi::version::{
    eq_ignore_case, metadata, parse_bool, to_lower, Version, BUILD_PROFILE, BUILD_TARGET,
    BUILD_TIMESTAMP, GIT_COMMIT, GIT_DIRTY, RUSTC_VERSION,
};

#[test]
fn metadata_matches_constants() {
    let meta = metadata();
    assert_eq!(meta.version, Version);
    assert_eq!(meta.git_commit, GIT_COMMIT);
    assert_eq!(meta.git_dirty, GIT_DIRTY);
    assert_eq!(meta.build_timestamp, BUILD_TIMESTAMP);
    assert_eq!(meta.build_target, BUILD_TARGET);
    assert_eq!(meta.build_profile, BUILD_PROFILE);
    assert_eq!(meta.rustc_version, RUSTC_VERSION);
}

#[test]
fn parse_bool_spellings() {
    for s in ["1", "true", "TRUE", "t", "T", "yes", "Yes", "y"] {
        assert!(parse_bool(s), "{}", s);
    }
    for s in ["", "0", "false", "no", "tru", "yess", "2"] {
        assert!(!parse_bool(s), "{}", s);
    }
    assert!(eq_ignore_case("AbC", "aBc"));
    assert!(!eq_ignore_case("abc", "abcd"));
    assert_eq!(to_lower(b'Q'), b'q');
    assert_eq!(to_lower(b'['), b'[');
}

#[test]
fn version_answer_holds_version_and_metadata() {
    let text: String = oxi::json::to_json_text(&oxi::version::version_json()).into_iter().collect();
    let body: serde_json::Value = serde_json::from_str(&text).unwrap();
    assert_eq!(body["version"], oxi::version::Version);
    assert!(body["git_commit"].is_string());
    assert!(body["build_timestamp"].is_string());
    assert_eq!(body["git_dirty"], false);
    assert_eq!(body.as_object().unwrap().len(), 7);
}
