use turing_machine::encoder::{decode, encode};
use turing_machine::machine::TuringMachine;
use turing_machine::parser::parse;
use turing_machine::types::{Direction, Step, Transition, TuringMachineError, DEFAULT_BLANK_SYMBOL};

#[test]
fn test_parse_simple_program() {
    let input = "\nname: Simple Test\ntape: a\nrules:\n  start:\n    a -> b, R, halt\n  halt:\n";

    let result = parse(input);
    assert!(result.is_ok());

    let program = result.unwrap();
    assert_eq!(program.name, "Simple Test");
    assert_eq!(program.initial_tape(), "a");
    assert!(program.rules.contains_key("start"));
    assert!(program.rules.contains_key("halt"));
}

#[test]
fn test_parse_simple_multi_tape_program() {
    let input = "\nname: Simple Multi-Tape\nheads: [0, 0]\ntapes:\n  [a]\n  [d]\nrules:\n  start:\n    [a, d] -> [b, e], [R, R], halt\n  halt:\n";

    let result = parse(input);
    assert!(result.is_ok());

    let program = result.unwrap();
    assert_eq!(program.name, "Simple Multi-Tape");
    assert_eq!(program.tapes, vec!["a", "d"]);
    assert_eq!(
        program.rules.get("start").unwrap()[0],
        Transition {
            read: vec!['a', 'd'],
            write: vec!['b', 'e'],
            directions: vec![Direction::Right, Direction::Right],
            next_state: "halt".into(),
        }
    );
    assert!(program.rules.contains_key("start"));
    assert!(program.rules.contains_key("halt"));
}

#[test]
fn test_parse_duplicate_section() {
    let input = "\nname: First Name\nname: Second Name\ntape: a\nrules:\n  start:\n    a -> b, R, halt\n";
    let result = parse(input);
    assert!(result.is_err());
    let error = result.unwrap_err();
    assert!(matches!(error, TuringMachineError::ParseError(_)));
    assert!(error.message().contains("Duplicate \"name:\" declaration"));
}

#[test]
fn test_parse_missing_name() {
    let input = "\ntape: a\nrules:\n  start:\n    a -> b, R, halt\n";
    let result = parse(input);
    assert!(result.is_err());
    let error = result.unwrap_err();
    assert!(matches!(error, TuringMachineError::ParseError(_)));
}

#[test]
fn test_parse_missing_tape() {
    let input = "\nname: Missing Tape\nrules:\n  start:\n    a -> b, R, halt\n";
    let result = parse(input);
    assert!(result.is_err());
    let error = result.unwrap_err();
    assert!(matches!(error, TuringMachineError::ValidationError(_)));
    assert_eq!(
        error.message(),
        "Program validation error: Missing 'tape' or 'tapes' section"
    );
}

#[test]
fn test_parse_missing_transitions() {
    let input = "\nname: Missing Transitions\ntape: a\n";
    let result = parse(input);
    assert!(result.is_err());
    let error = result.unwrap_err();
    assert!(matches!(error, TuringMachineError::ValidationError(_)));
    assert_eq!(error.message(), "Program validation error: Missing 'rules' section");
}

#[test]
fn test_parse_exclusive_tape_and_tapes() {
    let input = "\nname: Exclusive Tapes\ntape: a\ntapes:\n  [b]\nrules:\n  start:\n    a -> b, R, halt\n";
    let result = parse(input);
    assert!(result.is_err());
    let error = result.unwrap_err();
    assert!(matches!(error, TuringMachineError::ParseError(_)));
    assert!(error.message().contains("Only one of 'tape' or 'tapes' is allowed"));
}

#[test]
fn test_parse_exclusive_head_and_heads() {
    let input = "\nname: Exclusive Heads\nhead: 0\nheads: [1]\ntape: a\nrules:\n  start:\n    a -> b, R, halt\n";
    let result = parse(input);
    assert!(result.is_err());
    let error = result.unwrap_err();
    assert!(matches!(error, TuringMachineError::ParseError(_)));
    assert!(error.message().contains("Only one of 'head' or 'heads' is allowed"));
}

#[test]
fn test_parse_mismatched_heads_and_tapes() {
    let input = "\nname: Mismatched\nheads: [0, 1]\ntapes:\n  [a]\nrules:\n  start:\n    a -> b, R, halt\n";
    let result = parse(input);
    assert!(result.is_err());
    let error = result.unwrap_err();
    assert!(matches!(error, TuringMachineError::ValidationError(_)));
    assert_eq!(
        error.message(),
        "Program validation error: Number of head positions (2) does not match number of tapes (1)"
    );
}

#[test]
fn test_parse_duplicate_transition_rule() {
    let input = "\nname: Duplicate Transition\ntape: a\nrules:\n  start:\n    a -> b, R, halt\n  start:\n    b -> a, L, start\n";
    let result = parse(input);
    assert!(result.is_err());
    let error = result.unwrap_err();
    assert!(matches!(error, TuringMachineError::ParseError(_)));
    assert!(error.message().contains("Duplicate transition rule: start"));
}

#[test]
fn test_parse_inconsistent_multi_tape_action() {
    let input = "\nname: Inconsistent Action\ntapes:\n  [a]\n  [b]\nrules:\n  start:\n    [a, b] -> [c], [R, R], halt\n";
    let result = parse(input);
    assert!(result.is_err());
    let error = result.unwrap_err();
    assert!(matches!(error, TuringMachineError::ParseError(_)));
    assert!(error
        .message()
        .contains("Inconsistent multi-tape action: read=2, write=1, directions=2"));
}

#[test]
fn test_parse_unsupported_direction() {
    let input = "\nname: Bad Direction\ntape: a\nrules:\n  start:\n    a -> b, X, halt\n";
    let result = parse(input);
    assert!(result.is_err());
    let error = result.unwrap_err();
    assert!(matches!(error, TuringMachineError::ParseError(_)));
}

#[test]
fn test_parse_with_custom_blank() {
    let input = "\nname: Custom Blank\nblank: '_'\ntape: a\nrules:\n  start:\n    a -> b, R, halt\n";
    let result = parse(input);
    assert!(result.is_ok());
    let program = result.unwrap();
    assert_eq!(program.blank, '_');
}

#[test]
fn test_parse_with_default_blank() {
    let input = "\nname: Default Blank\ntape: a\nrules:\n  start:\n    a -> b, R, halt\n";
    let result = parse(input);
    assert!(result.is_ok());
    let program = result.unwrap();
    assert_eq!(program.blank, DEFAULT_BLANK_SYMBOL);
}

#[test]
fn test_parse_with_single_head() {
    let input = "\nname: Single Head\nhead: 5\ntape: \"123456789\"\nrules:\n  start:\n    '6' -> 'X', R, halt\n";
    let result = parse(input);
    if let Err(e) = &result {
        println!("Parsing error for single head: {:?}", e);
    }
    assert!(result.is_err());
    let error = result.unwrap_err();
    assert!(matches!(error, TuringMachineError::ParseError(_)));
    assert!(error.message().contains("tape"));
}

#[test]
fn test_parse_omitted_write_symbol() {
    let input = "\nname: Omitted Write\ntape: a\nrules:\n  start:\n    a, R, halt\n";
    let result = parse(input);
    if let Err(e) = &result {
        println!("Parsing error: {:?}", e);
    }
    assert!(result.is_ok());
    let program = result.unwrap();
    let transitions = program.rules.get("start").unwrap();
    let transition = &transitions[0];
    assert_eq!(transition.read, vec!['a']);
    assert_eq!(transition.write, vec!['a']);
    assert_eq!(transition.directions, vec![Direction::Right]);
    assert_eq!(transition.next_state, "halt");
}

#[test]
fn test_parse_tape_with_blank_symbol() {
    let input = "\nname: Blank Tape Test\ntape: a, _\nrules:\n  start:\n    a -> a, R, halt\n  halt:\n";

    let result = parse(input);
    assert!(result.is_ok());

    let program = result.unwrap();
    assert_eq!(program.tapes[0].chars().nth(1).unwrap(), DEFAULT_BLANK_SYMBOL);
}

#[test]
fn test_end_to_end_single_step() {
    // name, a one-symbol tape and one rule: after one step the machine is
    // halted in state `halt`, the tape grew to ['b', blank], and the step
    // counter reads one
    let input = "name: T\ntape: a\nrules:\n  start:\n    a -> b, R, halt\n";
    let program = parse(input).unwrap();
    assert_eq!(program.initial_state, "start");

    let blank = program.blank;
    let mut machine = TuringMachine::new(program);
    let result = machine.step();
    assert!(matches!(result, Step::Continue));
    assert_eq!(machine.state(), "halt");
    assert_eq!(machine.step_count(), 1);
    assert_eq!(machine.tapes()[0], vec!['b', blank]);
    assert!(machine.is_halted());
}

#[test]
fn test_parse_then_encode_round_trip() {
    // a parsed single-tape program survives the canonical encoding: tape
    // content, transition semantics and state count are preserved
    let input = "name: Round\ntape: a, b\nrules:\n  start:\n    a -> b, R, next\n  next:\n    b -> a, L, halt\n";
    let program = parse(input).unwrap();
    let decoded = decode(&encode(&program)).unwrap();

    assert_eq!(decoded.tapes[0], "ab");
    assert_eq!(decoded.rules.len(), program.rules.len());
    assert_eq!(decoded.initial_state, "start");
    let ts = decoded.rules.get("start").unwrap();
    assert_eq!(ts[0].read, vec!['a']);
    assert_eq!(ts[0].write, vec!['b']);
    assert_eq!(ts[0].directions, vec![Direction::Right]);
}
