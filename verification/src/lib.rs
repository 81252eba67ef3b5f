//! Core logic of a deterministic, possibly multi-tape Turing machine
//! simulator: a parser for a compact textual machine description language,
//! a semantic analyzer, a stepwise interpreter, and a canonical single-tape
//! encoder/decoder, all sharing one data model.

pub mod analyzer;
pub mod encoder;
pub mod laws;
pub mod loader;
pub mod machine;
pub mod parser;
pub mod programs;
pub mod strutil;
pub mod types;

pub use encoder::{decode, encode};
pub use analyzer::{analyze, AnalysisError};
pub use loader::ProgramLoader;
pub use machine::TuringMachine;
pub use parser::parse;
pub use programs::{ProgramInfo, ProgramManager};
pub use types::{Direction, Program, Step, Transition, TuringMachineError, MAX_PROGRAM_SIZE};
