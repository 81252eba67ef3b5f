use turing_machine::analyzer::{
    analyze, check_head, check_tape_symbols, check_undefined_next_states,
    check_unreachable_states, check_valid_stop_states, AnalysisError,
};
use turing_machine::types::{Direction, Mode, Program, Rules, Transition, TuringMachineError};

fn create_test_program(initial_state: &str, initial_tape: &str, rules: Rules) -> Program {
    Program {
        name: "Test Program".to_string(),
        mode: Mode::Normal,
        initial_state: initial_state.to_string(),
        tapes: vec![initial_tape.to_string()],
        heads: vec![0],
        blank: '-',
        rules,
    }
}

fn create_single_tape_transition(
    read: char,
    write: char,
    direction: Direction,
    next_state: &str,
) -> Transition {
    Transition {
        read: vec![read],
        write: vec![write],
        directions: vec![direction],
        next_state: next_state.to_string(),
    }
}

#[test]
fn test_valid_program() {
    let mut rules = Rules::new();

    rules.insert(
        "start".to_string(),
        vec![create_single_tape_transition('a', 'b', Direction::Right, "halt")],
    );
    rules.insert("halt".to_string(), Vec::new());

    let program = create_test_program("start", "a", rules);
    let result = analyze(&program);
    assert!(result.is_ok());
}

#[test]
fn test_invalid_head_position() {
    let mut rules = Rules::new();
    rules.insert("start".to_string(), Vec::new());

    // With an empty tape, head offset 0 is valid.
    let program = create_test_program("start", "", rules);
    let result = check_head(&program);

    assert!(result.is_ok());
}

#[test]
fn test_stop_states_not_found() {
    let mut rules = Rules::new();

    rules.insert(
        "start".to_string(),
        vec![create_single_tape_transition('a', 'b', Direction::Right, "other")],
    );
    rules.insert("halt".to_string(), Vec::new());
    rules.insert("other".to_string(), Vec::new());

    let program = create_test_program("start", "a", rules);
    let result = check_valid_stop_states(&program);

    assert!(result.is_err());
    let error = result.unwrap_err();
    assert_eq!(error, AnalysisError::StopStatesNotFound(vec!["halt".to_string()]));
}

#[test]
fn test_analysis_error_conversion() {
    let error = AnalysisError::InvalidHead(5);
    let tm_error: TuringMachineError = error.into();

    match tm_error {
        TuringMachineError::ValidationError(msg) => {
            assert!(msg.contains("Invalid head position: 5"));
        }
        _ => panic!("Expected ParseError"),
    }
}

#[test]
fn test_undefined_next_states() {
    let mut rules = Rules::new();

    rules.insert(
        "start".to_string(),
        vec![create_single_tape_transition('a', 'b', Direction::Right, "nonexistent")],
    );

    let program = create_test_program("start", "a", rules);
    let result = check_undefined_next_states(&program);

    assert!(result.is_err());
    let error = result.unwrap_err();
    match error {
        AnalysisError::UndefinedNextStates(transitions) => {
            assert_eq!(transitions.len(), 1);
            assert!(transitions[0].contains("nonexistent"));
        }
        _ => panic!("Expected UndefinedNextStates error"),
    }
}

#[test]
fn test_undefined_next_states_with_halt() {
    let mut rules = Rules::new();

    rules.insert(
        "start".to_string(),
        vec![create_single_tape_transition('a', 'b', Direction::Right, "halt")],
    );

    let program = create_test_program("start", "a", rules);
    let result = check_undefined_next_states(&program);

    assert!(result.is_ok());
}

#[test]
fn test_unreachable_states() {
    let mut rules = Rules::new();

    rules.insert(
        "start".to_string(),
        vec![create_single_tape_transition('a', 'b', Direction::Right, "middle")],
    );
    rules.insert(
        "middle".to_string(),
        vec![create_single_tape_transition('b', 'c', Direction::Right, "end")],
    );
    rules.insert("end".to_string(), Vec::new());
    rules.insert("unreachable".to_string(), Vec::new());

    let program = create_test_program("start", "a", rules);
    let result = check_unreachable_states(&program);

    assert!(result.is_err());
    let error = result.unwrap_err();
    match error {
        AnalysisError::UnreachableStates(states) => {
            assert_eq!(states.len(), 1);
            assert_eq!(states[0], "unreachable");
        }
        _ => panic!("Expected UnreachableStates error"),
    }
}

#[test]
fn test_reachability_scenario() {
    // rules {start -> middle -> end; orphan with no transitions}: the
    // analyzer reports exactly the orphan, by name.
    let mut rules = Rules::new();
    rules.insert(
        "start".to_string(),
        vec![create_single_tape_transition('a', 'a', Direction::Right, "middle")],
    );
    rules.insert(
        "middle".to_string(),
        vec![create_single_tape_transition('a', 'a', Direction::Right, "end")],
    );
    rules.insert("end".to_string(), Vec::new());
    rules.insert("orphan".to_string(), Vec::new());

    let program = create_test_program("start", "a", rules);
    let result = check_unreachable_states(&program);
    assert_eq!(
        result.unwrap_err(),
        AnalysisError::UnreachableStates(vec!["orphan".to_string()])
    );
}

#[test]
fn test_tape_symbols() {
    let mut rules = Rules::new();

    rules.insert(
        "start".to_string(),
        vec![create_single_tape_transition('a', 'b', Direction::Right, "halt")],
    );

    let program = create_test_program("start", "ac", rules);
    let result = check_tape_symbols(&program);

    assert!(result.is_err());
    let error = result.unwrap_err();
    match error {
        AnalysisError::InvalidTapeSymbols(symbols) => {
            assert_eq!(symbols.len(), 1);
            assert_eq!(symbols[0], 'c');
        }
        _ => panic!("Expected InvalidTapeSymbols error"),
    }
}

#[test]
fn test_multi_tape_symbols() {
    let mut rules = Rules::new();

    rules.insert(
        "start".to_string(),
        vec![Transition {
            read: vec!['a', 'x'],
            write: vec!['b', 'y'],
            directions: vec![Direction::Right, Direction::Right],
            next_state: "halt".to_string(),
        }],
    );
    rules.insert("halt".to_string(), Vec::new());

    let program_valid = Program {
        name: "Valid Multi-Tape".to_string(),
        mode: Mode::Normal,
        initial_state: "start".to_string(),
        tapes: vec!["a".to_string(), "x".to_string()],
        heads: vec![0, 0],
        blank: '-',
        rules: rules.clone(),
    };
    assert!(check_tape_symbols(&program_valid).is_ok());

    let program_invalid = Program {
        name: "Invalid Multi-Tape".to_string(),
        mode: Mode::Normal,
        initial_state: "start".to_string(),
        tapes: vec!["a".to_string(), "z".to_string()],
        heads: vec![0, 0],
        blank: '-',
        rules,
    };
    let result = check_tape_symbols(&program_invalid);
    assert!(result.is_err());
    let error = result.unwrap_err();
    match error {
        AnalysisError::InvalidTapeSymbols(symbols) => {
            assert_eq!(symbols.len(), 1);
            assert_eq!(symbols[0], 'z');
        }
        _ => panic!("Expected InvalidTapeSymbols error"),
    }
}

#[test]
fn test_all_checks_together() {
    let mut rules = Rules::new();

    rules.insert(
        "start".to_string(),
        vec![create_single_tape_transition('a', 'b', Direction::Right, "nonexistent")],
    );
    rules.insert("unreachable".to_string(), Vec::new());

    let program = create_test_program("start", "ax", rules);
    let result = analyze(&program);

    assert!(result.is_err());

    if let Err(TuringMachineError::ValidationError(msg)) = result {
        let has_error = msg.contains("No tapes defined")
            || msg.contains("Number of head positions")
            || msg.contains("Invalid start state")
            || msg.contains("Stop states not found")
            || msg.contains("undefined state")
            || msg.contains("Unreachable states")
            || msg.contains("not handled by any transition");
        assert!(has_error, "Expected a validation error, got: {}", msg);
    } else {
        panic!("Expected ValidationError");
    }
}

#[test]
fn test_valid_program_with_all_checks() {
    let mut rules = Rules::new();

    rules.insert(
        "start".to_string(),
        vec![create_single_tape_transition('a', 'b', Direction::Right, "middle")],
    );
    rules.insert(
        "middle".to_string(),
        vec![create_single_tape_transition('b', 'c', Direction::Right, "halt")],
    );

    let program = create_test_program("start", "a", rules);
    let result = analyze(&program);

    assert!(result.is_ok());
}

#[test]
fn test_analyze_success() {
    let mut rules = Rules::new();
    rules.insert(
        "start".to_string(),
        vec![create_single_tape_transition('a', 'b', Direction::Right, "halt")],
    );

    let program = create_test_program("start", "a", rules);
    let result = analyze(&program);
    assert!(result.is_ok());
}

#[test]
fn test_analyze_structural_error() {
    let mut rules = Rules::new();
    rules.insert("other".to_string(), Vec::new());

    let program = create_test_program("start", "a", rules);
    let result = analyze(&program);

    assert!(result.is_err());
    if let Err(TuringMachineError::ValidationError(msg)) = result {
        assert!(msg.contains("Invalid start state: start"));
    } else {
        panic!("Expected ValidationError");
    }
}

#[test]
fn test_analyze_empty_tapes() {
    let mut rules = Rules::new();
    rules.insert("start".to_string(), Vec::new());

    let mut program = create_test_program("start", "a", rules);
    program.tapes.clear();

    let result = analyze(&program);

    assert!(result.is_err());
    if let Err(TuringMachineError::ValidationError(msg)) = result {
        assert!(msg.contains("No tapes defined"));
    } else {
        panic!("Expected ValidationError");
    }
}

#[test]
fn test_analyze_inconsistent_head_positions() {
    let mut rules = Rules::new();
    rules.insert("start".to_string(), Vec::new());

    let mut program = create_test_program("start", "a", rules);
    program.heads.push(1);

    let result = analyze(&program);

    assert!(result.is_err());
    if let Err(TuringMachineError::ValidationError(msg)) = result {
        assert!(msg.contains("Number of head positions"));
    } else {
        panic!("Expected ValidationError");
    }
}

#[test]
fn test_analyze_twice_same_result() {
    // the analyzer is pure: two runs on the same program agree
    let mut rules = Rules::new();
    rules.insert(
        "start".to_string(),
        vec![create_single_tape_transition('a', 'b', Direction::Right, "nonexistent")],
    );
    rules.insert("stray".to_string(), Vec::new());

    let program = create_test_program("start", "a", rules);
    let first = analyze(&program);
    let second = analyze(&program);
    assert_eq!(first.is_ok(), second.is_ok());
    let m1 = first.unwrap_err().message();
    let m2 = second.unwrap_err().message();
    assert_eq!(m1, m2);
}
