use streamregex::{compile_pattern, StreamMatcher};

#[test]
fn basic_matching() {
    let pattern = compile_pattern("test").unwrap();
    let mut matcher = StreamMatcher::new();
    let obs = matcher.add_callback();
    matcher.add_pattern(pattern);
    matcher.process_chunk(b"this is a test string");

    let matches = matcher.observer_events(obs);
    assert_eq!(matches.len(), 1);
    assert_eq!(matches[0], "test");
}

#[test]
fn test_large_stream_processing() {
    let pattern = compile_pattern("needle").unwrap();
    let mut matcher = StreamMatcher::new();
    let obs = matcher.add_callback();
    matcher.add_pattern(pattern);

    // A large stream with known matches, processed in chunks.
    let mut data = vec![b'x'; 1_000_000];
    data[500_000..500_006].copy_from_slice(b"needle");
    data[750_000..750_006].copy_from_slice(b"needle");

    for chunk in data.chunks(1024) {
        matcher.process_chunk(chunk);
    }

    assert_eq!(matcher.observer_events(obs).len(), 2);
}

#[test]
fn test_pattern_matching_accuracy() {
    let test_cases = vec![
        ("abc", "xxabcxx", 1),
        ("needle", "haystackneedlemore", 1),
        ("multi", "multimulti", 2),
    ];

    for (pattern, input, expected_matches) in test_cases {
        let compiled = compile_pattern(pattern).unwrap();
        let mut matcher = StreamMatcher::new();
        let obs = matcher.add_callback();
        matcher.add_pattern(compiled);
        matcher.process_chunk(input.as_bytes());

        let matches = matcher.observer_events(obs).len();
        assert_eq!(
            matches, expected_matches,
            "Pattern '{}' on input '{}' produced {} matches, expected {}",
            pattern, input, matches, expected_matches
        );
    }
}

#[test]
fn overlapping_match_not_dropped() {
    // The failure transitions keep the longest matching prefix alive: the
    // occurrence of "aab" ending at the final byte of "aaab" is reported.
    let pattern = compile_pattern("aab").unwrap();
    let mut matcher = StreamMatcher::new();
    let obs = matcher.add_callback();
    matcher.add_pattern(pattern);
    matcher.process_chunk(b"aaab");
    assert_eq!(matcher.observer_events(obs).len(), 1);
}

#[test]
fn overlapping_matches_both_reported() {
    let pattern = compile_pattern("aa").unwrap();
    let mut matcher = StreamMatcher::new();
    let obs = matcher.add_callback();
    matcher.add_pattern(pattern);
    matcher.process_chunk(b"aaa");
    assert_eq!(matcher.observer_events(obs).len(), 2);
}

#[test]
fn chunk_boundaries_are_invisible() {
    let whole_events = {
        let mut matcher = StreamMatcher::new();
        let obs = matcher.add_callback();
        matcher.add_pattern(compile_pattern("test").unwrap());
        matcher.process_chunk(b"xxtestxxtest");
        matcher.observer_events(obs).clone()
    };
    let split_events = {
        let mut matcher = StreamMatcher::new();
        let obs = matcher.add_callback();
        matcher.add_pattern(compile_pattern("test").unwrap());
        matcher.process_chunk(b"xxte");
        matcher.process_chunk(b"stxxt");
        matcher.process_chunk(b"est");
        matcher.observer_events(obs).clone()
    };
    assert_eq!(whole_events, vec!["test".to_string(), "test".to_string()]);
    assert_eq!(whole_events, split_events);
}

#[test]
fn two_observers_receive_every_match() {
    let mut matcher = StreamMatcher::new();
    let first = matcher.add_callback();
    let second = matcher.add_callback();
    matcher.add_pattern(compile_pattern("ab").unwrap());
    matcher.process_chunk(b"abxab");

    let first_events = matcher.observer_events(first).clone();
    let second_events = matcher.observer_events(second).clone();
    assert_eq!(first_events, vec!["ab".to_string(), "ab".to_string()]);
    assert_eq!(first_events, second_events);
}

#[test]
fn same_table_two_identifiers_fire_independently() {
    // The same two-byte literal automaton built twice under different
    // identifiers: both fire at the same byte positions, in registration
    // order within each position.
    let mut matcher = StreamMatcher::new();
    let obs = matcher.add_callback();
    for id in ["first", "second"] {
        let mut builder = streamregex::PatternBuilder::new();
        let s1 = builder.add_state(false);
        let s2 = builder.add_state(true);
        builder.add_transition(0, b'a', s1).unwrap();
        builder.add_transition(s1, b'b', s2).unwrap();
        matcher.add_pattern(builder.build(id.to_string()).unwrap());
    }
    matcher.process_chunk(b"xabab");

    let events = matcher.observer_events(obs).clone();
    assert_eq!(
        events,
        vec![
            "first".to_string(),
            "second".to_string(),
            "first".to_string(),
            "second".to_string(),
        ]
    );
}

#[test]
fn empty_literal_matches_at_every_byte() {
    // A literal of length zero compiles to one accepting state, so every
    // byte position reports a completed (empty) occurrence.
    let pattern = compile_pattern("").unwrap();
    assert_eq!(pattern.states.len(), 1);
    let mut matcher = StreamMatcher::new();
    let obs = matcher.add_callback();
    matcher.add_pattern(pattern);
    matcher.process_chunk(b"abc");
    assert_eq!(matcher.observer_events(obs).len(), 3);
}
