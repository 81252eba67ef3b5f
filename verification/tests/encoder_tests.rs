use turing_machine::encoder::{
    create_state_mapping, decode, encode, encode_initial_tape, encode_rules,
};
use turing_machine::types::{Direction, Mode, Program, Rules, Transition};

fn mapping_get<'a>(mapping: &'a Vec<(String, String)>, key: &str) -> Option<&'a String> {
    for (k, v) in mapping.iter() {
        if k == key {
            return Some(v);
        }
    }
    None
}

fn create_test_program() -> Program {
    let mut rules = Rules::new();

    // start: a -> b, R, s2
    rules.insert(
        "start".to_string(),
        vec![Transition {
            read: vec!['a'],
            write: vec!['b'],
            directions: vec![Direction::Right],
            next_state: "s2".to_string(),
        }],
    );

    // s2: b -> b, R, halt
    rules.insert(
        "s2".to_string(),
        vec![Transition {
            read: vec!['b'],
            write: vec!['b'],
            directions: vec![Direction::Right],
            next_state: "halt".to_string(),
        }],
    );

    Program {
        name: "Test Program".to_string(),
        mode: Mode::Normal,
        initial_state: "start".to_string(),
        tapes: vec!["abb".to_string()],
        heads: vec![0],
        blank: '_',
        rules,
    }
}

#[test]
fn test_encode_program() {
    let program = create_test_program();
    let encoded = encode(&program);

    assert!(encoded.contains(':'));
    let parts: Vec<&str> = encoded.split(':').collect();
    assert_eq!(parts.len(), 3);
    assert_eq!(parts[0], "Test Program");

    println!("Encoded: {}", encoded);
}

#[test]
fn test_state_mapping() {
    let program = create_test_program();
    let mapping = create_state_mapping(&program);

    assert_eq!(mapping_get(&mapping, "start"), Some(&"0".to_string()));
    assert_eq!(mapping_get(&mapping, "halt"), Some(&"h".to_string()));
    assert!(mapping_get(&mapping, "s2").is_some());
}

#[test]
fn test_encode_rules() {
    let program = create_test_program();
    let state_mapping = create_state_mapping(&program);
    let rules = encode_rules(&program, &state_mapping);

    assert!(rules.contains('|'));
    assert!(rules.contains(','));

    println!("Encoded rules: {}", rules);
}

#[test]
fn test_encode_initial_tape() {
    let program = create_test_program();
    let tape = encode_initial_tape(&program);

    assert_eq!(tape, "a,b,b");
}

#[test]
fn test_round_trip_encoding() {
    let original = create_test_program();
    let encoded = encode(&original);
    println!("Encoded: {}", encoded);

    let decoded = decode(&encoded).unwrap();

    assert_eq!(decoded.name, "Test Program");
    assert_eq!(decoded.initial_state, "start");
    assert_eq!(decoded.tapes[0], "abb");
    assert!(decoded.rules.contains_key("start"));
    // the state "s2" is encoded as "1" and decoded back as "s2"
    assert!(decoded.rules.contains_key("s2"));
    assert_eq!(decoded.rules.len(), 2);
}

#[test]
fn test_decode_invalid_format() {
    let result = decode("invalid");
    assert!(result.is_err());
    assert!(result.unwrap_err().contains("Invalid encoding format"));
}

#[test]
fn test_simple_example() {
    let mut rules = Rules::new();

    rules.insert(
        "start".to_string(),
        vec![
            Transition {
                read: vec!['a'],
                write: vec!['b'],
                directions: vec![Direction::Right],
                next_state: "s2".to_string(),
            },
            Transition {
                read: vec!['b'],
                write: vec!['b'],
                directions: vec![Direction::Right],
                next_state: "s2".to_string(),
            },
        ],
    );

    let program = Program {
        name: "Simple Example".to_string(),
        mode: Mode::Normal,
        initial_state: "start".to_string(),
        tapes: vec!["ab".to_string()],
        heads: vec![0],
        blank: '_',
        rules,
    };

    let encoded = encode(&program);
    println!("Simple example encoded: {}", encoded);

    assert!(encoded.starts_with("Simple Example:a,b:"));
    assert!(encoded.contains("0,a,b,R,"));
    assert!(encoded.contains("0,b,b,R,"));
}

#[test]
fn test_round_trip_preserves_transition_semantics() {
    // the decoded program has the same transitions, modulo renamed states
    let original = create_test_program();
    let decoded = decode(&encode(&original)).unwrap();

    let start_ts = decoded.rules.get("start").unwrap();
    assert_eq!(start_ts.len(), 1);
    assert_eq!(start_ts[0].read, vec!['a']);
    assert_eq!(start_ts[0].write, vec!['b']);
    assert_eq!(start_ts[0].directions, vec![Direction::Right]);
    assert_eq!(start_ts[0].next_state, "s2");

    let s2_ts = decoded.rules.get("s2").unwrap();
    assert_eq!(s2_ts.len(), 1);
    assert_eq!(s2_ts[0].read, vec!['b']);
    assert_eq!(s2_ts[0].write, vec!['b']);
    assert_eq!(s2_ts[0].directions, vec![Direction::Right]);
    assert_eq!(s2_ts[0].next_state, "halt");
}

#[test]
fn test_decode_invalid_direction() {
    let result = decode("Name:a:0,a,b,X,h");
    assert!(result.is_err());
    assert!(result.unwrap_err().contains("Invalid direction"));
}

#[test]
fn test_decode_invalid_rule_format() {
    let result = decode("Name:a:0,a,b");
    assert!(result.is_err());
    assert!(result.unwrap_err().contains("Invalid rule format"));
}

#[test]
fn test_encode_empty_tape_program() {
    let mut rules = Rules::new();
    rules.insert("start".to_string(), Vec::new());
    let program = Program {
        name: "Empty".to_string(),
        mode: Mode::Normal,
        initial_state: "start".to_string(),
        tapes: vec!["".to_string()],
        heads: vec![0],
        blank: '_',
        rules,
    };
    let encoded = encode(&program);
    assert_eq!(encoded, "Empty::");
}
