use turing_machine::loader::ProgramLoader;
use turing_machine::programs::ProgramManager;
use turing_machine::types::{Direction, Transition, TuringMachineError};

#[test]
fn test_transition_creation() {
    let transition = Transition {
        read: vec!['A'],
        write: vec!['X'],
        directions: vec![Direction::Right],
        next_state: "q1".to_string(),
    };

    assert_eq!(transition.write, vec!['X']);
    assert_eq!(transition.directions, vec![Direction::Right]);
    assert_eq!(transition.next_state, "q1");
}

#[test]
fn test_error_display() {
    let error = TuringMachineError::InvalidState("q0".to_string());

    let error_msg = error.message();
    assert!(error_msg.contains("Invalid state"));
    assert!(error_msg.contains("q0"));
}

#[test]
fn test_error_messages_by_variant() {
    assert_eq!(
        TuringMachineError::TapeBoundary.message(),
        "Tape boundary exceeded"
    );
    assert_eq!(
        TuringMachineError::FileError("gone".to_string()).message(),
        "File error: gone"
    );
    assert_eq!(
        TuringMachineError::ValidationError("bad".to_string()).message(),
        "Program validation error: bad"
    );
    let undef = TuringMachineError::UndefinedTransition("start".to_string(), vec!['z', 'z']);
    assert_eq!(
        undef.message(),
        "No rule defined for state start and symbols ['z', 'z']"
    );
}

#[test]
fn test_load_program_from_string() {
    let content = "name: Loaded\ntape: a\nrules:\n  start:\n    a -> b, R, halt\n";
    let program = ProgramLoader::load_program_from_string(content).unwrap();
    assert_eq!(program.name, "Loaded");
    assert_eq!(program.initial_state, "start");
}

#[test]
fn test_load_program_from_invalid_string() {
    let result = ProgramLoader::load_program_from_string("This is not a valid program");
    assert!(result.is_err());
}

fn catalog_texts() -> Vec<String> {
    vec![
        "name: Flipper\ntape: a, b\nrules:\n  start:\n    a -> b, R, next\n  next:\n    b -> a, R, halt\n".to_string(),
        "name: Mover\ntape: x\nrules:\n  start:\n    x -> x, R, halt\n".to_string(),
        "this text does not parse".to_string(),
    ]
}

#[test]
fn test_program_manager_load() {
    let manager = ProgramManager::load(&catalog_texts());
    // the unparsable text is left out
    assert_eq!(manager.get_program_count(), 2);
}

#[test]
fn test_program_manager_get_program_by_index() {
    let manager = ProgramManager::load(&catalog_texts());

    let program = manager.get_program_by_index(0);
    assert!(program.is_ok());
    assert_eq!(program.unwrap().name, "Flipper");

    let result = manager.get_program_by_index(999);
    match result {
        Err(TuringMachineError::ValidationError(msg)) => {
            assert_eq!(msg, "Program index 999 out of range");
        }
        _ => panic!("Expected a validation error"),
    }
}

#[test]
fn test_program_manager_get_program_by_name() {
    let manager = ProgramManager::load(&catalog_texts());

    let program = manager.get_program_by_name("Mover");
    assert!(program.is_ok());
    assert_eq!(program.unwrap().initial_tape(), "x");

    let result = manager.get_program_by_name("Nonexistent");
    assert!(result.is_err());
}

#[test]
fn test_program_manager_list_program_names() {
    let manager = ProgramManager::load(&catalog_texts());

    let names = manager.list_program_names();
    assert_eq!(names, vec!["Flipper".to_string(), "Mover".to_string()]);
}

#[test]
fn test_program_manager_get_program_info() {
    let manager = ProgramManager::load(&catalog_texts());

    let info = manager.get_program_info(0).unwrap();
    assert_eq!(info.index, 0);
    assert_eq!(info.name, "Flipper");
    assert_eq!(info.initial_state, "start");
    assert_eq!(info.initial_tape, "ab");
    assert_eq!(info.state_count, 2);
    assert_eq!(info.transition_count, 2);

    assert!(manager.get_program_info(999).is_err());
}

#[test]
fn test_program_manager_search_programs() {
    let manager = ProgramManager::load(&catalog_texts());

    // matching is case-insensitive: the stored names are capitalized
    let results = manager.search_programs("flip");
    assert_eq!(results, vec![0]);

    let results = manager.search_programs("MOVER");
    assert_eq!(results, vec![1]);

    let results = manager.search_programs("nonexistent");
    assert_eq!(results.len(), 0);
}

#[test]
fn test_program_manager_search_empty_query_matches_all() {
    let manager = ProgramManager::load(&catalog_texts());

    let results = manager.search_programs("");
    assert_eq!(results, vec![0, 1]);
}

#[test]
fn test_program_manager_get_program_text_by_index() {
    let manager = ProgramManager::load(&catalog_texts());

    let text = manager.get_program_text_by_index(1).unwrap();
    assert!(text.contains("name: Mover"));
    assert!(manager.get_program_text_by_index(999).is_err());
}

#[test]
fn test_program_initial_accessors() {
    let manager = ProgramManager::load(&catalog_texts());
    let program = manager.get_program_by_index(0).unwrap();
    assert_eq!(program.initial_tape(), "ab");
    assert_eq!(program.head_position(), 0);
    assert!(program.is_single_tape());
    assert_eq!(program.tapes(), vec![vec!['a', 'b']]);
}
