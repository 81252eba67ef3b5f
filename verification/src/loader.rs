//! Loading programs from raw source text. Reading files and directories is
//! a hosting concern; the loader itself needs only a string.

use vstd::prelude::*;

use crate::analyzer::{analysis_pass, validation_message, AnalysisErrorV};
use crate::parser::{
    out_analysis_pass, out_first_analysis_error, parse, program_matches_scan, scan_spec,
};
use crate::types::{Mode, Program, TuringMachineError, TuringMachineErrorV};

verus! {

/// A utility for loading programs from source text.
pub struct ProgramLoader;

impl ProgramLoader {
    /// Parses a program from the provided source text: the scan, the
    /// parsed program and the first error are exactly what the parser
    /// promises of the text, and a returned program passes every analyzer
    /// check.
    pub fn load_program_from_string(content: &str) -> (r: Result<Program, TuringMachineError>)
        ensures
            r is Ok ==> {
                let p = r->Ok_0;
                &&& analysis_pass(p)
                &&& crate::types::rules_wf(p.rules@)
                &&& p.heads@.len() == p.tapes@.len()
                &&& p.mode == Mode::Normal
            },
            r is Err ==> (r->Err_0 is ParseError || r->Err_0 is ValidationError),
            scan_spec(content@) is Err ==> r is Err && (r->Err_0)@ == scan_spec(content@)->Err_0,
            scan_spec(content@) is Ok ==> {
                let o = scan_spec(content@)->Ok_0;
                &&& (r is Ok <==> out_analysis_pass(o))
                &&& (r is Ok ==> program_matches_scan(r->Ok_0, o))
                &&& (r is Err ==> exists|e: AnalysisErrorV|
                    #[trigger] out_first_analysis_error(o, e) && (r->Err_0)@
                        == TuringMachineErrorV::ValidationError(validation_message(e)))
            },
    {
        parse(content)
    }
}

} // verus!
