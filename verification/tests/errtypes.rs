use oxi::errtypes::{helper_value, Capability, UnknownOllamaKey, UNKNOWN_OLLAMA_KEY_ERR_MSG};

#[test]
fn unknown_key_display() {
    let err = UnknownOllamaKey { key: "abc".into() };
    assert_eq!(err.to_string(), format!("unauthorized: {} \"abc\"", UNKNOWN_OLLAMA_KEY_ERR_MSG));
    let err = UnknownOllamaKey { key: "  abc \n".into() };
    assert_eq!(err.to_string(), "unauthorized: unknown ollama key \"abc\"");
}

#[test]
fn capability_names_round_trip() {
    for c in [
        Capability::Completion,
        Capability::Tools,
        Capability::Insert,
        Capability::Vision,
        Capability::Embedding,
        Capability::Thinking,
    ] {
        assert_eq!(Capability::from_str(&c.to_string()), Ok(c));
    }
    assert_eq!(Capability::Vision.to_string(), "vision");
    assert_eq!(Capability::from_str("Vision"), Err(()));
}

#[test]
fn helper_value_is_fixed() {
    assert_eq!(helper_value(), 42);
}
