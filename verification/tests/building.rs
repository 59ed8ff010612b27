use streamregex::{compile_pattern, Error, PatternBuilder, StreamMatcher};

#[test]
fn test_pattern_builder() {
    let mut builder = PatternBuilder::new();
    let s1 = builder.add_state(false);
    let s2 = builder.add_state(true);

    builder.add_transition(0, b'a', s1).unwrap();
    builder.add_transition(s1, b'b', s2).unwrap();

    let pattern = builder.build("test".into()).unwrap();

    assert_eq!(pattern.states.len(), 3);
    assert!(pattern.states[s2].is_accepting);
}

#[test]
fn test_compile_pattern() {
    let pattern = compile_pattern("abc").unwrap();
    assert_eq!(pattern.states.len(), 4); // initial + 3 states
    assert!(pattern.states.last().unwrap().is_accepting);
}

#[test]
fn out_of_range_transition_is_rejected_and_recoverable() {
    let mut builder = PatternBuilder::new();
    let s1 = builder.add_state(true);

    let result = builder.add_transition(0, b'x', 5);
    assert!(matches!(result, Err(Error::InvalidPattern(_))));

    // The builder stays usable for further valid edges.
    builder.add_transition(0, b'x', s1).unwrap();
    let pattern = builder.build("x".to_string()).unwrap();
    assert_eq!(pattern.states.len(), 2);
    assert_eq!(pattern.states[0].transitions, vec![(b'x', s1)]);
}

#[test]
fn duplicate_edge_last_one_wins() {
    let mut builder = PatternBuilder::new();
    let s1 = builder.add_state(false);
    let s2 = builder.add_state(true);
    builder.add_transition(0, b'a', s1).unwrap();
    builder.add_transition(0, b'a', s2).unwrap();
    let pattern = builder.build("dup".to_string()).unwrap();

    let mut matcher = StreamMatcher::new();
    let obs = matcher.add_callback();
    matcher.add_pattern(pattern);
    matcher.process_chunk(b"a");
    // The later edge sent byte 'a' to the accepting state.
    assert_eq!(matcher.observer_events(obs).len(), 1);
}

#[test]
fn compiled_literal_failure_targets() {
    // "aab": after consuming "aa" the longest proper suffix that is still a
    // prefix is "a", so state 2 falls back to state 1; the other states
    // restart from the beginning.
    let pattern = compile_pattern("aab").unwrap();
    assert_eq!(pattern.states[0].failure, 0);
    assert_eq!(pattern.states[1].failure, 0);
    assert_eq!(pattern.states[2].failure, 1);
    assert_eq!(pattern.states[3].failure, 0);
    assert_eq!(pattern.states[0].transitions, vec![(b'a', 1)]);
    assert_eq!(pattern.states[1].transitions, vec![(b'a', 2)]);
    assert_eq!(pattern.states[2].transitions, vec![(b'b', 3)]);
    assert!(pattern.states[3].transitions.is_empty());
}

#[test]
fn test_memory_usage() {
    let _pattern = compile_pattern("pattern").unwrap();
    let mut matcher = StreamMatcher::new();

    // Memory usage should be relatively constant.
    let initial_usage = matcher.memory_usage();
    let big_data = vec![0u8; 1_000_000];
    matcher.process_chunk(&big_data);

    // Memory shouldn't grow significantly with input size.
    assert!(matcher.memory_usage() - initial_usage < 1024 * 10); // Less than 10KB growth
}

#[test]
fn test_memory_usage_over_time() {
    let pattern = compile_pattern("memory").unwrap();
    let mut matcher = StreamMatcher::new();
    matcher.add_pattern(pattern);

    let initial_memory = matcher.memory_usage();

    // Process increasing amounts of data.
    for size in [1024, 10_240, 102_400, 1_024_000] {
        let data = vec![b'x'; size];
        matcher.process_chunk(&data);

        // Memory usage should remain relatively constant.
        let current_memory = matcher.memory_usage();
        assert!(
            (current_memory as i64 - initial_memory as i64).abs() < 1024 * 10,
            "Memory usage grew too much: {} vs {}",
            current_memory,
            initial_memory
        );
    }
}

#[test]
fn memory_accounting_is_exact() {
    // "ab" compiles to three states: two with one transition entry each and
    // the accepting one with none, plus one cursor word.
    let pattern = compile_pattern("ab").unwrap();
    let mut matcher = StreamMatcher::new();
    assert_eq!(matcher.memory_usage(), 0);
    matcher.add_pattern(pattern);
    let per_state = streamregex::STATE_BYTES;
    let per_transition = streamregex::TRANSITION_BYTES;
    let expected = 3 * per_state + 2 * per_transition + streamregex::CURSOR_BYTES;
    assert_eq!(matcher.memory_usage(), expected);
}
