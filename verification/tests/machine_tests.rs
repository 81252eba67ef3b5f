use turing_machine::machine::{format_tapes, TuringMachine};
use turing_machine::parser::parse;
use turing_machine::types::{
    Direction, Halt, Mode, Program, Rules, Step, Transition, TuringMachineError,
};

fn create_simple_multi_tape_program() -> Program {
    let mut rules = Rules::new();

    // Replace ['a', 'x'] with ['b', 'y'], move right on both tapes, halt.
    rules.insert(
        "start".to_string(),
        vec![Transition {
            read: vec!['a', 'x'],
            write: vec!['b', 'y'],
            directions: vec![Direction::Right, Direction::Right],
            next_state: "halt".to_string(),
        }],
    );
    rules.insert("halt".to_string(), Vec::new());

    Program {
        name: "Simple Multi-Tape Test".to_string(),
        mode: Mode::Normal,
        initial_state: "start".to_string(),
        tapes: vec!["a".to_string(), "x".to_string()],
        heads: vec![0, 0],
        blank: '-',
        rules,
    }
}

#[test]
fn test_multi_tape_machine_creation() {
    let program = create_simple_multi_tape_program();
    let machine = TuringMachine::new(program);

    assert_eq!(machine.state(), "start");
    assert_eq!(machine.tapes(), &vec![vec!['a'], vec!['x']]);
    assert_eq!(machine.heads(), &vec![0, 0]);
    assert_eq!(machine.step_count(), 0);
}

#[test]
fn test_multi_tape_single_step() {
    let program = create_simple_multi_tape_program();
    let mut machine = TuringMachine::new(program);

    let result = machine.step();

    assert_eq!(result, Step::Continue);
    assert_eq!(machine.state(), "halt");
    assert_eq!(machine.tapes(), &vec![vec!['b', '-'], vec!['y', '-']]);
    assert_eq!(machine.heads(), &vec![1, 1]);
    assert_eq!(machine.step_count(), 1);
}

#[test]
fn test_multi_tape_halt_state() {
    let program = create_simple_multi_tape_program();
    let mut machine = TuringMachine::new(program);

    let result1 = machine.step();
    assert_eq!(result1, Step::Continue);

    let result2 = machine.step();
    assert_eq!(result2, Step::Halt(Halt::Normal));
}

#[test]
fn test_multi_tape_rejection() {
    let mut program = create_simple_multi_tape_program();
    program.mode = Mode::Strict;

    let mut machine = TuringMachine::new(program);

    machine
        .set_tapes_content(&vec!["z".to_string(), "z".to_string()])
        .unwrap();

    let result = machine.step();

    match result {
        Step::Halt(Halt::Error(TuringMachineError::UndefinedTransition(state, symbols))) => {
            assert_eq!(state, "start");
            assert_eq!(symbols, vec!['z', 'z']);
        }
        _ => panic!("Expected a Rejection result, but got {:?}", result),
    }
}

#[test]
fn test_multi_tape_reset() {
    let program = create_simple_multi_tape_program();
    let mut machine = TuringMachine::new(program);

    machine.step();
    assert_eq!(machine.state(), "halt");
    assert_eq!(machine.step_count(), 1);

    machine.reset();
    assert_eq!(machine.state(), "start");
    assert_eq!(machine.tapes(), &vec![vec!['a'], vec!['x']]);
    assert_eq!(machine.heads(), &vec![0, 0]);
    assert_eq!(machine.step_count(), 0);
}

#[test]
fn test_multi_tape_run_to_completion() {
    let program = create_simple_multi_tape_program();
    let mut machine = TuringMachine::new(program);

    let step = machine.run();
    assert_eq!(step, Step::Halt(Halt::Normal));
}

#[test]
fn test_multi_tape_is_halted() {
    let program = create_simple_multi_tape_program();
    let mut machine = TuringMachine::new(program);

    assert!(!machine.is_halted());

    machine.step();
    assert!(machine.is_halted());
}

#[test]
fn test_multi_tape_get_current_symbols() {
    let program = create_simple_multi_tape_program();
    let machine = TuringMachine::new(program);

    assert_eq!(machine.symbols(), vec!['a', 'x']);
}

#[test]
fn test_multi_tape_stay_direction() {
    let mut rules = Rules::new();

    rules.insert(
        "start".to_string(),
        vec![Transition {
            read: vec!['a', 'x'],
            write: vec!['b', 'y'],
            directions: vec![Direction::Stay, Direction::Right],
            next_state: "halt".to_string(),
        }],
    );
    rules.insert("halt".to_string(), Vec::new());

    let program = Program {
        name: "Stay Direction Test".to_string(),
        mode: Mode::Normal,
        initial_state: "start".to_string(),
        tapes: vec!["a".to_string(), "x".to_string()],
        heads: vec![0, 0],
        blank: '-',
        rules,
    };

    let mut machine = TuringMachine::new(program);
    machine.step();

    assert_eq!(machine.heads(), &vec![0, 1]);
    assert_eq!(machine.tapes(), &vec![vec!['b'], vec!['y', '-']]);
}

#[test]
fn test_set_tape_content_with_blank_symbol() {
    let program = create_simple_multi_tape_program();
    let mut machine = TuringMachine::new(program);

    machine.set_tape_content(0, "a_b").unwrap();

    assert_eq!(machine.tapes()[0], vec!['a', '-', 'b']);
}

#[test]
fn test_set_tapes_content_with_blank_symbol() {
    let program = create_simple_multi_tape_program();
    let mut machine = TuringMachine::new(program);

    let contents = vec!["a_b".to_string(), "x_y".to_string()];
    machine.set_tapes_content(&contents).unwrap();

    assert_eq!(machine.tapes()[0], vec!['a', '-', 'b']);
    assert_eq!(machine.tapes()[1], vec!['x', '-', 'y']);
}

#[test]
fn test_write_input_blank_symbol_with_custom_blank() {
    let custom_blank = 'X';
    let program_content = format!(
        "\nname: Custom Blank Write Test\nblank: {custom_blank}\ntape: a, _\nrules:\n  start:\n    a -> a, R, halt\n  halt:\n",
    );

    let program = parse(&program_content).unwrap();
    assert_eq!(program.blank, custom_blank);
    assert_eq!(program.tapes[0].chars().nth(1).unwrap(), custom_blank);
}

#[test]
fn test_set_tape_content_out_of_range() {
    let program = create_simple_multi_tape_program();
    let mut machine = TuringMachine::new(program);

    let result = machine.set_tape_content(5, "abc");
    match result {
        Err(TuringMachineError::ValidationError(msg)) => {
            assert_eq!(msg, "Tape index 5 is out of bounds (machine has 2 tapes)");
        }
        _ => panic!("Expected a validation error"),
    }
}

#[test]
fn test_set_tapes_content_too_many() {
    let program = create_simple_multi_tape_program();
    let mut machine = TuringMachine::new(program);

    let contents = vec!["a".to_string(), "b".to_string(), "c".to_string()];
    let result = machine.set_tapes_content(&contents);
    match result {
        Err(TuringMachineError::ValidationError(msg)) => {
            assert_eq!(msg, "Too many tape contents provided: 3 contents for 2 tapes");
        }
        _ => panic!("Expected a validation error"),
    }
}

#[test]
fn test_step_progress_or_halt() {
    // one step either continues with the counter advanced by one, or halts
    let program = create_simple_multi_tape_program();
    let mut machine = TuringMachine::new(program);
    for _ in 0..5 {
        let before = machine.step_count();
        match machine.step() {
            Step::Continue => assert_eq!(machine.step_count(), before + 1),
            Step::Halt(_) => assert_eq!(machine.step_count(), before),
        }
    }
}

#[test]
fn test_wildcard_read_matches_custom_blank() {
    // a `_` read matches whatever blank the program configured
    let mut rules = Rules::new();
    rules.insert(
        "start".to_string(),
        vec![Transition {
            read: vec!['_'],
            write: vec!['m'],
            directions: vec![Direction::Stay],
            next_state: "halt".to_string(),
        }],
    );
    rules.insert("halt".to_string(), Vec::new());
    let program = Program {
        name: "Wildcard".to_string(),
        mode: Mode::Normal,
        initial_state: "start".to_string(),
        tapes: vec!["Q".to_string()],
        heads: vec![0],
        blank: 'Q',
        rules,
    };
    let mut machine = TuringMachine::new(program);
    assert_eq!(machine.step(), Step::Continue);
    assert_eq!(machine.tapes()[0], vec!['m']);
}

#[test]
fn test_left_growth_at_offset_zero() {
    // stepping Left from offset 0 inserts one blank at position 0 and the
    // head stays at 0
    let mut rules = Rules::new();
    rules.insert(
        "start".to_string(),
        vec![Transition {
            read: vec!['a'],
            write: vec!['b'],
            directions: vec![Direction::Left],
            next_state: "halt".to_string(),
        }],
    );
    rules.insert("halt".to_string(), Vec::new());
    let program = Program {
        name: "Left Growth".to_string(),
        mode: Mode::Normal,
        initial_state: "start".to_string(),
        tapes: vec!["a".to_string()],
        heads: vec![0],
        blank: '-',
        rules,
    };
    let mut machine = TuringMachine::new(program);
    machine.step();
    assert_eq!(machine.tapes()[0], vec!['-', 'b']);
    assert_eq!(machine.heads(), &vec![0]);
}

#[test]
fn test_format_tapes_renders_contents() {
    let tapes = vec![vec!['a', 'b'], vec!['c']];
    let rendered = format_tapes(&tapes);
    assert_eq!(rendered, vec!["ab".to_string(), "c".to_string()]);
}

#[test]
fn test_run_respects_step_budget() {
    // a two-state loop never halts on its own; run() stops at the budget
    let mut rules = Rules::new();
    rules.insert(
        "start".to_string(),
        vec![Transition {
            read: vec!['a'],
            write: vec!['a'],
            directions: vec![Direction::Stay],
            next_state: "start".to_string(),
        }],
    );
    let program = Program {
        name: "Loop".to_string(),
        mode: Mode::Normal,
        initial_state: "start".to_string(),
        tapes: vec!["a".to_string()],
        heads: vec![0],
        blank: '-',
        rules,
    };
    let mut machine = TuringMachine::new(program);
    assert_eq!(machine.run(), Step::Halt(Halt::Normal));
    assert_eq!(machine.step_count(), 10000);
}
