use oxi::cache::{Input, InputCache, InputCacheSlot, KvCache, KvCall, NoKvCache, ShiftError};

fn embed(v: &[f32]) -> Input {
    Input::Embed(v.iter().map(|x| x.to_bits()).collect())
}

const SEC: u128 = 1_000_000_000;

#[test]
fn test_count_common() {
    let cases = vec![
        (
            vec![Input::Token(1), Input::Token(2), Input::Token(3)],
            vec![Input::Token(1), Input::Token(2), Input::Token(3)],
            3,
        ),
        (vec![Input::Token(1)], vec![Input::Token(1), Input::Token(2), Input::Token(3)], 1),
        (
            vec![embed(&[0.1, 0.2, 0.3])],
            vec![embed(&[0.1, 0.2, 0.3]), embed(&[0.4, 0.5, 0.6]), embed(&[0.7])],
            1,
        ),
        (
            vec![embed(&[0.1, 0.2, 0.3])],
            vec![embed(&[0.1, 0.2]), embed(&[0.4, 0.5, 0.6]), embed(&[0.7])],
            0,
        ),
        (
            vec![Input::Token(1), embed(&[0.2, 0.3, 0.4])],
            vec![Input::Token(1), embed(&[0.2, 0.3, 0.4]), Input::Token(5)],
            2,
        ),
        (vec![], vec![Input::Token(1), Input::Token(2)], 0),
        (vec![], vec![], 0),
    ];
    for (a, b, expected) in cases {
        let result = InputCache::<NoKvCache>::count_common_prefix(&a, &b);
        assert_eq!(result, expected);
    }
}

#[test]
fn cache_test_count_common() {
    let cases = vec![
        (
            vec![Input::Token(1), Input::Token(2), Input::Token(3)],
            vec![Input::Token(1), Input::Token(2), Input::Token(3)],
            3usize,
        ),
        (vec![Input::Token(1)], vec![Input::Token(1), Input::Token(2), Input::Token(3)], 1),
        (
            vec![Input::Multimodal(1)],
            vec![Input::Multimodal(1), Input::Multimodal(2), Input::Multimodal(3)],
            1,
        ),
        (
            vec![Input::Token(1), Input::Multimodal(1)],
            vec![Input::Token(1), Input::Multimodal(1), Input::Token(5)],
            2,
        ),
        (
            vec![Input::Token(1), Input::Multimodal(1)],
            vec![Input::Token(1), Input::Multimodal(2)],
            1,
        ),
        (vec![], vec![Input::Token(1)], 0),
        (vec![], vec![], 0),
    ];
    for (a, b, expected) in cases {
        assert_eq!(InputCache::<NoKvCache>::count_common_prefix(&a, &b), expected);
    }
}

fn slot(id: usize, inputs: Vec<Input>, in_use: bool, last_used: u128) -> InputCacheSlot {
    InputCacheSlot { id, inputs, in_use, last_used }
}

#[test]
fn test_find_cache_slot() {
    let now: u128 = 1_700_000_000 * SEC;
    let mut tests = Vec::new();
    tests.push((
        "Extend",
        InputCache::<NoKvCache> {
            num_ctx: 0,
            slots: vec![
                slot(0, vec![Input::Token(1)], false, now - SEC),
                slot(1, vec![Input::Token(1), Input::Token(2)], false, now - 2 * SEC),
            ],
            multi_user_cache: false,
            cache: None,
        },
        vec![Input::Token(1), Input::Token(2)],
        (1, 2),
        (1, 2),
    ));
    tests.push((
        "In use",
        InputCache::<NoKvCache> {
            num_ctx: 0,
            slots: vec![
                slot(0, vec![Input::Token(1), Input::Token(2)], true, now - SEC),
                slot(1, vec![Input::Token(1)], false, now - 2 * SEC),
            ],
            multi_user_cache: false,
            cache: None,
        },
        vec![Input::Token(1), Input::Token(2)],
        (1, 1),
        (1, 2),
    ));
    for (name, mut cache, prompt, longest_expect, best_expect) in tests {
        let (idx, len) = cache.find_longest_cache_slot(&prompt).unwrap();
        assert_eq!((idx, len), longest_expect, "{} longest", name);
        let (idxb, lenb) = cache.find_best_cache_slot(&prompt).unwrap();
        assert_eq!((idxb, lenb), best_expect, "{} best", name);
    }
}

#[test]
fn find_best_copies_prefix_into_oldest_slot() {
    let mut cache = InputCache::<NoKvCache> {
        num_ctx: 0,
        slots: vec![
            slot(0, vec![Input::Token(1), Input::Token(2), Input::Token(9)], true, 5),
            slot(1, vec![Input::Token(7)], false, 3),
            slot(2, vec![], false, 4),
        ],
        multi_user_cache: true,
        cache: None,
    };
    let prompt = vec![Input::Token(1), Input::Token(2), Input::Token(3)];
    assert_eq!(cache.find_best_cache_slot(&prompt).unwrap(), (1, 2));
    assert_eq!(cache.slots[1].inputs, vec![Input::Token(1), Input::Token(2)]);
    assert_eq!(cache.slots[0].inputs.len(), 3);
}

#[test]
fn no_free_slot_is_an_error() {
    let mut cache = InputCache::<NoKvCache> {
        num_ctx: 0,
        slots: vec![slot(0, vec![Input::Token(1)], true, 0)],
        multi_user_cache: false,
        cache: None,
    };
    let prompt = vec![Input::Token(1)];
    assert_eq!(cache.find_longest_cache_slot(&prompt), Err("no available cache slots"));
    assert_eq!(cache.find_best_cache_slot(&prompt), Err("no available cache slots"));
    assert_eq!(cache.load_cache_slot(prompt, true).unwrap_err(), "no available cache slots");
}

#[test]
fn test_shift_discard() {
    let cases = vec![
        ("Shift", 2048usize, 5usize, 2048usize, 1021usize),
        ("Max Keep", 2048, 2047, 2048, 1),
        ("No Keep", 2048, 0, 2048, 1024),
        ("Truncate", 2048, 5, 5000, 3973),
        ("Truncate Keep", 2048, 2047, 5000, 2953),
        ("No Op", 2048, 5, 512, 0),
    ];
    for (name, num_ctx, num_keep, input_len, expected) in cases {
        let c = InputCache::<NoKvCache>::new(num_ctx, 1);
        let result = c.shift_discard(input_len, num_keep);
        assert_eq!(result, expected, "{}", name);
    }
}

#[test]
fn test_load_cache_slot() {
    let now: u128 = 1_700_000_000 * SEC;
    let mut cache = InputCache::<NoKvCache> {
        num_ctx: 10,
        slots: vec![
            slot(0, vec![], false, now - 2 * SEC),
            slot(1, vec![Input::Token(1)], false, now - SEC),
        ],
        multi_user_cache: false,
        cache: None,
    };
    let prompt = vec![Input::Token(1), Input::Token(2)];
    let (slot_idx, remaining) = cache.load_cache_slot(prompt, true).unwrap();
    assert_eq!(slot_idx, 1);
    assert_eq!(remaining.len(), 1);
}

#[test]
fn load_whole_prompt_leaves_last_input() {
    let mut cache = InputCache::<NoKvCache>::new(10, 1);
    let prompt = vec![Input::Token(1), Input::Token(2)];
    let (idx, rest) = cache.load_cache_slot_at(prompt.clone(), true, 42).unwrap();
    assert_eq!(idx, 0);
    assert_eq!(rest, prompt);
    assert!(cache.slots[0].inputs.is_empty());
    assert!(cache.slots[0].in_use);
    assert_eq!(cache.slots[0].last_used, 42);
    cache.slots[0].in_use = false;
    cache.slots[0].inputs = prompt.clone();
    let (_, rest) = cache.load_cache_slot_at(prompt.clone(), true, 43).unwrap();
    assert_eq!(rest, vec![Input::Token(2)]);
    assert_eq!(cache.slots[0].inputs, vec![Input::Token(1)]);
    cache.slots[0].in_use = false;
    cache.slots[0].inputs = prompt.clone();
    let (_, rest) = cache.load_cache_slot_at(prompt, false, 44).unwrap();
    assert_eq!(rest.len(), 2);
    assert!(cache.slots[0].inputs.is_empty());
}

struct MockCache {
    should_fail: bool,
}

impl KvCache for MockCache {
    fn remove(&mut self, _slot: usize, _begin: i32, _end: i32) -> Result<(), String> {
        if self.should_fail {
            Err("mock".to_string())
        } else {
            Ok(())
        }
    }
    fn copy_prefix(&mut self, _src: usize, _dst: usize, _len: i32) {}
    fn can_shift(&self) -> bool {
        true
    }
    fn shift(&mut self, _slot: usize, _start: i32, _end: i32, _delta: i32) {}
}

#[test]
fn test_shift_cache_slot() {
    let tests = vec![("normal", false, None), ("cache_error", true, Some("mock"))];
    for (name, fail, expected_err) in tests {
        let mut cache = InputCache {
            num_ctx: 10,
            slots: vec![slot(0, (1..=10).map(Input::Token).collect(), false, 0)],
            multi_user_cache: false,
            cache: Some(MockCache { should_fail: fail }),
        };
        let res = cache.shift_cache_slot(0, 2);
        match expected_err {
            None => assert!(res.is_ok(), "{}", name),
            Some(_) => assert!(res.is_err(), "{}", name),
        }
    }
}

#[test]
fn shift_without_backend_drops_after_kept_prefix() {
    let mut cache = InputCache::<NoKvCache> {
        num_ctx: 10,
        slots: vec![slot(0, (1..=10).map(Input::Token).collect(), false, 0)],
        multi_user_cache: false,
        cache: None,
    };
    cache.shift_cache_slot(0, 2).unwrap();
    let expected: Vec<Input> = vec![1, 2, 7, 8, 9, 10].into_iter().map(Input::Token).collect();
    assert_eq!(cache.slots[0].inputs, expected);
}

#[test]
fn shift_failure_returns_inputs_to_reprocess() {
    let mut cache = InputCache {
        num_ctx: 10,
        slots: vec![slot(0, (1..=10).map(Input::Token).collect(), false, 0)],
        multi_user_cache: false,
        cache: Some(MockCache { should_fail: true }),
    };
    match cache.shift_cache_slot(0, 2) {
        Err(ShiftError::Reprocess(e)) => {
            assert_eq!(e.inputs.len(), 6);
            assert_eq!(
                ShiftError::Reprocess(e).to_string(),
                "kv cache shift not supported, inputs need reprocessing (input count: 6)"
            );
        }
        _ => panic!("expected reprocessing"),
    }
    assert!(cache.slots[0].inputs.is_empty());
    let err = cache.shift_cache_slot(0, 10).unwrap_err();
    assert_eq!(
        err.to_string(),
        "unable to shift context - keep exceeds context (keep: 10 context: 10)"
    );
}

struct RecordingCache {
    should_fail: bool,
    shifts: bool,
    calls: Vec<KvCall>,
}

impl KvCache for RecordingCache {
    fn remove(&mut self, slot: usize, begin: i32, end: i32) -> Result<(), String> {
        self.calls.push(KvCall::Remove { slot, begin, end, ok: !self.should_fail });
        if self.should_fail {
            Err("mock".to_string())
        } else {
            Ok(())
        }
    }
    fn copy_prefix(&mut self, src: usize, dst: usize, len: i32) {
        self.calls.push(KvCall::CopyPrefix { src, dst, len });
    }
    fn can_shift(&self) -> bool {
        self.shifts
    }
    fn shift(&mut self, slot: usize, start: i32, end: i32, delta: i32) {
        self.calls.push(KvCall::Shift { slot, start, end, delta });
    }
}

fn shift_with(should_fail: bool, shifts: bool) -> (Result<(), ShiftError>, Vec<KvCall>, Vec<Input>) {
    let mut cache = InputCache {
        num_ctx: 10,
        slots: vec![slot(0, (1..=10).map(Input::Token).collect(), false, 0)],
        multi_user_cache: false,
        cache: Some(RecordingCache { should_fail, shifts, calls: Vec::new() }),
    };
    let r = cache.shift_cache_slot(0, 2);
    let calls = cache.cache.unwrap().calls;
    (r, calls, cache.slots[0].inputs.clone())
}

#[test]
fn shift_hands_remove_and_shift_to_the_backend() {
    let (r, calls, inputs) = shift_with(false, true);
    assert!(r.is_ok());
    assert_eq!(
        calls,
        vec![
            KvCall::Remove { slot: 0, begin: 2, end: 6, ok: true },
            KvCall::Shift { slot: 0, start: 6, end: 10, delta: -4 },
        ]
    );
    let expected: Vec<Input> = vec![1, 2, 7, 8, 9, 10].into_iter().map(Input::Token).collect();
    assert_eq!(inputs, expected);
}

#[test]
fn failed_remove_clears_the_slot_in_the_backend() {
    let (r, calls, inputs) = shift_with(true, true);
    match r {
        Err(ShiftError::Reprocess(e)) => {
            let expected: Vec<Input> = vec![1, 2, 7, 8, 9, 10].into_iter().map(Input::Token).collect();
            assert_eq!(e.inputs, expected);
        }
        _ => panic!("expected reprocessing"),
    }
    assert_eq!(
        calls,
        vec![
            KvCall::Remove { slot: 0, begin: 2, end: 6, ok: false },
            KvCall::Remove { slot: 0, begin: 0, end: -1, ok: false },
        ]
    );
    assert!(inputs.is_empty());
}

#[test]
fn backend_that_cannot_shift_is_cleared() {
    let (r, calls, inputs) = shift_with(false, false);
    assert!(matches!(r, Err(ShiftError::Reprocess(_))));
    assert_eq!(calls, vec![KvCall::Remove { slot: 0, begin: 0, end: -1, ok: true }]);
    assert!(inputs.is_empty());
}

#[test]
fn shared_cache_copies_prefix_in_the_backend() {
    let mut cache = InputCache {
        num_ctx: 10,
        slots: vec![
            slot(0, vec![Input::Token(1), Input::Token(2), Input::Token(3)], true, 5),
            slot(1, vec![], false, 1),
        ],
        multi_user_cache: true,
        cache: Some(RecordingCache { should_fail: false, shifts: true, calls: Vec::new() }),
    };
    let prompt = vec![Input::Token(1), Input::Token(2), Input::Token(9)];
    let (idx, n) = cache.find_best_cache_slot(&prompt).unwrap();
    assert_eq!((idx, n), (1, 2));
    assert_eq!(
        cache.cache.unwrap().calls,
        vec![
            KvCall::Remove { slot: 1, begin: 0, end: -1, ok: true },
            KvCall::CopyPrefix { src: 0, dst: 1, len: 2 },
        ]
    );
}

#[test]
fn embeddings_compare_as_floats() {
    let e = |xs: &[f32]| Input::Embed(xs.iter().map(|x| x.to_bits()).collect());
    let c = |a: &[Input], b: &[Input]| InputCache::<NoKvCache>::count_common_prefix(a, b);
    assert_eq!(c(&[e(&[0.0])], &[e(&[-0.0])]), 1);
    assert_eq!(c(&[e(&[f32::NAN])], &[e(&[f32::NAN])]), 0);
    assert_eq!(c(&[Input::Token(1), e(&[0.2, 0.3, 0.4])], &[Input::Token(1), e(&[0.2, 0.3, 0.4]), Input::Token(5)]), 2);
    assert_eq!(c(&[e(&[1.0, 2.0])], &[e(&[1.0])]), 0);
    assert!(e(&[0.0]) == e(&[-0.0]));
    assert!(e(&[f32::NAN]) != e(&[f32::NAN]));
}
