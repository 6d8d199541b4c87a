use oxi::stop::{contains_stop_suffix, find_stop, incomplete_unicode, incomplete_unicode_bytes, truncate_stop};

#[test]
fn test_truncate_stop() {
    struct Case {
        pieces: Vec<&'static str>,
        stop: &'static str,
        expected: Vec<&'static str>,
        trunc: bool,
    }
    let cases = vec![
        Case { pieces: vec!["hello", "world"], stop: "world", expected: vec!["hello"], trunc: false },
        Case { pieces: vec!["hello", "wor"], stop: "or", expected: vec!["hello", "w"], trunc: true },
        Case { pieces: vec!["Hello", " there", "!"], stop: "!", expected: vec!["Hello", " there"], trunc: false },
        Case { pieces: vec!["Hello", " the", "re!"], stop: "there!", expected: vec!["Hello", " "], trunc: true },
        Case { pieces: vec!["hello", " wor"], stop: "llo w", expected: vec!["he"], trunc: true },
    ];
    for case in cases {
        let (res, trunc) = truncate_stop(
            &case.pieces.iter().map(|s| s.to_string()).collect::<Vec<_>>(),
            case.stop,
        );
        let res_str: Vec<&str> = res.iter().map(|s| s.as_str()).collect();
        assert_eq!(res_str, case.expected);
        assert_eq!(trunc, case.trunc);
    }
}

#[test]
fn test_incomplete_unicode() {
    let cases: Vec<(Vec<u8>, bool)> = vec![
        (b"hi".to_vec(), false),
        ([b"hi".to_vec(), vec![0xc2, 0xa3]].concat(), false),
        ([b"hi".to_vec(), vec![0xc2]].concat(), true),
        ([b"hi".to_vec(), vec![0xe0, 0xA0, 0x80]].concat(), false),
        ([b"hi".to_vec(), vec![0xe0, 0xA0]].concat(), true),
        ([b"hi".to_vec(), vec![0xe0]].concat(), true),
        ([b"hi".to_vec(), vec![0xf0, 0x92, 0x8a, 0xb7]].concat(), false),
        ([b"hi".to_vec(), vec![0xf0, 0x92, 0x8a]].concat(), true),
        ([b"hi".to_vec(), vec![0xf0, 0x92]].concat(), true),
        ([b"hi".to_vec(), vec![0xf0]].concat(), true),
    ];
    for (input, expect) in cases {
        assert_eq!(incomplete_unicode_bytes(&input), expect, "input {:?}", input);
    }
}

#[test]
fn incomplete_unicode_str_is_complete() {
    assert!(!incomplete_unicode("hi\u{00a3}"));
    assert!(!incomplete_unicode(""));
}

#[test]
fn find_stop_returns_first_listed_stop() {
    assert_eq!(find_stop("hello world", &["xyz", "world", "hello"]), Some("world"));
    assert_eq!(find_stop("hello", &["xyz"]), None);
    assert_eq!(find_stop("hello", &[""]), Some(""));
}

#[test]
fn contains_stop_suffix_cases() {
    assert!(contains_stop_suffix("hello <|im", &["<|im_end|>"]));
    assert!(!contains_stop_suffix("hello", &["<|im_end|>"]));
    assert!(!contains_stop_suffix("hello", &[""]));
    assert!(contains_stop_suffix("abc", &["x", "cde"]));
}

#[test]
fn truncate_stop_without_stop_keeps_pieces() {
    let pieces = vec!["ab".to_string(), "cd".to_string()];
    assert_eq!(truncate_stop(&pieces, "zz"), (pieces.clone(), false));
    assert_eq!(truncate_stop(&pieces, "ab"), (vec![], false));
}
