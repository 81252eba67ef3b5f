//! Independent structural and semantic validation of an already-parsed
//! program: structural consistency, head bounds, start-state existence,
//! reachability of every state, and coverage of every initial tape symbol.
//! The checks run in a fixed order and only the first failure is reported.

use vstd::prelude::*;
use vstd::string::StringExecFns;

use crate::strutil::{
    chars_eq, chars_le, dec_digits, debug_char_list, debug_str_list, format_char_list,
    format_str_list, insert_sorted, seq_has, sorted_unique, str_eq, str_to_chars, usize_to_string,
    vec_has_string,
};
use crate::types::{
    rules_arity_ok, rules_contains_key, rules_get, Program, Rules, RulesV, Transition, TransitionV,
    TuringMachineError, TuringMachineErrorV,
};

verus! {

/// The errors the analyzer can report, in the order the checks run.
#[derive(Debug, Clone)]
pub enum AnalysisError {
    /// An initial head offset lies beyond its non-empty tape.
    InvalidHead(usize),
    /// The initial state has no entry in the rules.
    InvalidStartState(String),
    /// States without outgoing transitions that no transition enters.
    StopStatesNotFound(Vec<String>),
    /// Transitions that name a next state with no entry in the rules.
    UndefinedNextStates(Vec<String>),
    /// Rule keys that no transition path from the initial state reaches.
    UnreachableStates(Vec<String>),
    /// Initial tape symbols that no transition reads.
    InvalidTapeSymbols(Vec<char>),
    /// Inconsistent tape, head or transition arity, or no tapes at all.
    StructuralError(String),
}

/// The mathematical value of an [`AnalysisError`].
#[verifier::ext_equal]
pub ghost enum AnalysisErrorV {
    InvalidHead(int),
    InvalidStartState(Seq<char>),
    StopStatesNotFound(Seq<Seq<char>>),
    UndefinedNextStates(Seq<Seq<char>>),
    UnreachableStates(Seq<Seq<char>>),
    InvalidTapeSymbols(Seq<char>),
    StructuralError(Seq<char>),
}

impl View for AnalysisError {
    type V = AnalysisErrorV;

    open spec fn view(&self) -> AnalysisErrorV {
        match self {
            AnalysisError::InvalidHead(p) => AnalysisErrorV::InvalidHead(*p as int),
            AnalysisError::InvalidStartState(s) => AnalysisErrorV::InvalidStartState(s@),
            AnalysisError::StopStatesNotFound(v) => AnalysisErrorV::StopStatesNotFound(
                v.deep_view(),
            ),
            AnalysisError::UndefinedNextStates(v) => AnalysisErrorV::UndefinedNextStates(
                v.deep_view(),
            ),
            AnalysisError::UnreachableStates(v) => AnalysisErrorV::UnreachableStates(v.deep_view()),
            AnalysisError::InvalidTapeSymbols(v) => AnalysisErrorV::InvalidTapeSymbols(v@),
            AnalysisError::StructuralError(s) => AnalysisErrorV::StructuralError(s@),
        }
    }
}

/// Whether two string vectors hold the same strings.
fn strings_eq(a: &Vec<String>, b: &Vec<String>) -> (r: bool)
    ensures
        r == (a.deep_view() == b.deep_view()),
{
    if a.len() != b.len() {
        proof {
            assert(a.deep_view().len() != b.deep_view().len());
        }
        return false;
    }
    let mut i: usize = 0;
    while i < a.len()
        invariant
            i <= a@.len(),
            a@.len() == b@.len(),
            forall|j: int| 0 <= j < i ==> a.deep_view()[j] == b.deep_view()[j],
        decreases a@.len() - i,
    {
        if !str_eq(a[i].as_str(), b[i].as_str()) {
            proof {
                assert(a.deep_view()[i as int] != b.deep_view()[i as int]);
            }
            return false;
        }
        i = i + 1;
    }
    proof {
        assert(a.deep_view() =~= b.deep_view());
    }
    true
}

impl PartialEq for AnalysisError {
    fn eq(&self, other: &Self) -> (r: bool) {
        match (self, other) {
            (AnalysisError::InvalidHead(a), AnalysisError::InvalidHead(b)) => a == b,
            (AnalysisError::InvalidStartState(a), AnalysisError::InvalidStartState(b)) => str_eq(
                a.as_str(),
                b.as_str(),
            ),
            (AnalysisError::StopStatesNotFound(a), AnalysisError::StopStatesNotFound(b)) => {
                strings_eq(a, b)
            },
            (AnalysisError::UndefinedNextStates(a), AnalysisError::UndefinedNextStates(b)) => {
                strings_eq(a, b)
            },
            (AnalysisError::UnreachableStates(a), AnalysisError::UnreachableStates(b)) => {
                strings_eq(a, b)
            },
            (AnalysisError::InvalidTapeSymbols(a), AnalysisError::InvalidTapeSymbols(b)) => {
                chars_eq(a, b)
            },
            (AnalysisError::StructuralError(a), AnalysisError::StructuralError(b)) => str_eq(
                a.as_str(),
                b.as_str(),
            ),
            _ => false,
        }
    }
}

impl vstd::std_specs::cmp::PartialEqSpecImpl for AnalysisError {
    open spec fn obeys_eq_spec() -> bool {
        true
    }

    open spec fn eq_spec(&self, other: &Self) -> bool {
        self@ == other@
    }
}

/// The message reported for a program without tapes.
pub open spec fn no_tapes_message() -> Seq<char> {
    "No tapes defined"@
}

/// The message reported when the head count differs from the tape count.
pub open spec fn heads_mismatch_message(heads: int, tapes: int) -> Seq<char> {
    "Number of head positions ("@ + dec_digits(heads) + ") does not match number of tapes ("@
        + dec_digits(tapes) + ")"@
}

/// The message reported for a state with a transition of the wrong arity.
pub open spec fn arity_message(state: Seq<char>) -> Seq<char> {
    "Transition in state '"@ + state + "' has inconsistent tape counts"@
}

/// The validation message that stands for an analysis error.
pub open spec fn validation_message(e: AnalysisErrorV) -> Seq<char> {
    match e {
        AnalysisErrorV::InvalidHead(pos) => "Invalid head position: "@ + dec_digits(pos),
        AnalysisErrorV::InvalidStartState(s) => "Invalid start state: "@ + s,
        AnalysisErrorV::StopStatesNotFound(v) => "Stop states not found in transitions: "@
            + debug_str_list(v),
        AnalysisErrorV::UndefinedNextStates(v) => "Transitions reference undefined states: "@
            + debug_str_list(v),
        AnalysisErrorV::UnreachableStates(v) => "Unreachable states detected: "@ + debug_str_list(
            v,
        ),
        AnalysisErrorV::InvalidTapeSymbols(v) =>
            "Initial tape contains symbols not handled by any transition: "@ + debug_char_list(v),
        AnalysisErrorV::StructuralError(m) => m,
    }
}

impl AnalysisError {
    /// The validation error this analysis error stands for, with its
    /// human-readable message.
    pub fn to_validation_error(&self) -> (r: TuringMachineError)
        ensures
            r@ == TuringMachineErrorV::ValidationError(validation_message(self@)),
    {
        match self {
            AnalysisError::InvalidHead(pos) => {
                let mut m = "Invalid head position: ".to_owned();
                m.append(usize_to_string(*pos).as_str());
                proof {
                    assert(m@ =~= validation_message(self@));
                }
                TuringMachineError::ValidationError(m)
            },
            AnalysisError::InvalidStartState(s) => {
                let mut m = "Invalid start state: ".to_owned();
                m.append(s.as_str());
                proof {
                    assert(m@ =~= validation_message(self@));
                }
                TuringMachineError::ValidationError(m)
            },
            AnalysisError::StopStatesNotFound(v) => {
                let mut m = "Stop states not found in transitions: ".to_owned();
                m.append(format_str_list(v).as_str());
                proof {
                    assert(m@ =~= validation_message(self@));
                }
                TuringMachineError::ValidationError(m)
            },
            AnalysisError::UndefinedNextStates(v) => {
                let mut m = "Transitions reference undefined states: ".to_owned();
                m.append(format_str_list(v).as_str());
                proof {
                    assert(m@ =~= validation_message(self@));
                }
                TuringMachineError::ValidationError(m)
            },
            AnalysisError::UnreachableStates(v) => {
                let mut m = "Unreachable states detected: ".to_owned();
                m.append(format_str_list(v).as_str());
                proof {
                    assert(m@ =~= validation_message(self@));
                }
                TuringMachineError::ValidationError(m)
            },
            AnalysisError::InvalidTapeSymbols(v) => {
                let mut m =
                    "Initial tape contains symbols not handled by any transition: ".to_owned();
                m.append(format_char_list(v).as_str());
                proof {
                    assert(m@ =~= validation_message(self@));
                }
                TuringMachineError::ValidationError(m)
            },
            AnalysisError::StructuralError(s) => {
                TuringMachineError::ValidationError(s.clone())
            },
        }
    }
}

impl From<AnalysisError> for TuringMachineError {
    fn from(error: AnalysisError) -> (r: Self) {
        error.to_validation_error()
    }
}

impl vstd::std_specs::convert::FromSpecImpl<AnalysisError> for TuringMachineError {
    open spec fn obeys_from_spec() -> bool {
        false
    }

    open spec fn from_spec(t: AnalysisError) -> Self {
        choose|r: TuringMachineError|
            r@ == TuringMachineErrorV::ValidationError(validation_message(t@))
    }
}

/// Whether every transition of entry `e` has exactly `n` read symbols,
/// write symbols and directions.
pub open spec fn entry_arity_ok(e: (Seq<char>, Seq<TransitionV>), n: int) -> bool {
    forall|j: int|
        0 <= j < e.1.len() ==> {
            &&& (#[trigger] e.1[j]).read.len() == n
            &&& e.1[j].write.len() == n
            &&& e.1[j].directions.len() == n
        }
}

/// Whether the program passes the structural check: at least one tape, one
/// head per tape, and every transition of tape-count arity.
pub open spec fn structure_pass(p: Program) -> bool {
    &&& p.tapes@.len() > 0
    &&& p.heads@.len() == p.tapes@.len()
    &&& rules_arity_ok(p.rules@, p.tapes@.len() as int)
}

/// Checks basic structural requirements: tapes are defined, head offsets
/// match the number of tapes, and every transition's arity equals the tape
/// count.
#[verifier::loop_isolation(false)]
pub fn check_structure(program: &Program) -> (r: Result<(), AnalysisError>)
    ensures
        r is Ok <==> structure_pass(*program),
        program.tapes@.len() == 0 ==> r is Err && (r->Err_0)@ == AnalysisErrorV::StructuralError(
            no_tapes_message(),
        ),
        program.tapes@.len() > 0 && program.heads@.len() != program.tapes@.len() ==> r is Err && (
        r->Err_0)@ == AnalysisErrorV::StructuralError(
            heads_mismatch_message(program.heads@.len() as int, program.tapes@.len() as int),
        ),
        program.tapes@.len() > 0 && program.heads@.len() == program.tapes@.len()
            && !rules_arity_ok(program.rules@, program.tapes@.len() as int) ==> r is Err && exists|
            i: int,
        |
            {
                &&& 0 <= i < program.rules@.len()
                &&& !entry_arity_ok(#[trigger] program.rules@[i], program.tapes@.len() as int)
                &&& forall|j: int|
                    0 <= j < i ==> entry_arity_ok(
                        #[trigger] program.rules@[j],
                        program.tapes@.len() as int,
                    )
                &&& (r->Err_0)@ == AnalysisErrorV::StructuralError(
                    arity_message(program.rules@[i].0),
                )
            },
{
    let n = program.tapes.len();
    if n == 0 {
        return Err(AnalysisError::StructuralError("No tapes defined".to_owned()));
    }
    if program.heads.len() != n {
        let mut m = "Number of head positions (".to_owned();
        m.append(usize_to_string(program.heads.len()).as_str());
        m.append(") does not match number of tapes (");
        m.append(usize_to_string(n).as_str());
        m.append(")");
        proof {
            assert(m@ =~= heads_mismatch_message(
                program.heads@.len() as int,
                program.tapes@.len() as int,
            ));
        }
        return Err(AnalysisError::StructuralError(m));
    }
    let mut i: usize = 0;
    while i < program.rules.len()
        invariant
            i <= program.rules@.len(),
            forall|j: int| 0 <= j < i ==> entry_arity_ok(#[trigger] program.rules@[j], n as int),
        decreases program.rules@.len() - i,
    {
        let ts = program.rules.transitions_at(i);
        let mut j: usize = 0;
        while j < ts.len()
            invariant
                j <= ts@.len(),
                ts.deep_view() == program.rules@[i as int].1,
                i < program.rules@.len(),
                forall|k: int|
                    0 <= k < j ==> {
                        &&& (#[trigger] ts.deep_view()[k]).read.len() == n
                        &&& ts.deep_view()[k].write.len() == n
                        &&& ts.deep_view()[k].directions.len() == n
                    },
            decreases ts@.len() - j,
        {
            let t = &ts[j];
            if t.read.len() != n || t.write.len() != n || t.directions.len() != n {
                let mut m = "Transition in state '".to_owned();
                m.append(program.rules.key_at(i).as_str());
                m.append("' has inconsistent tape counts");
                proof {
                    assert(ts.deep_view()[j as int] == t@);
                    assert(!entry_arity_ok(program.rules@[i as int], n as int));
                    assert(m@ =~= arity_message(program.rules@[i as int].0));
                }
                return Err(AnalysisError::StructuralError(m));
            }
            proof {
                assert(ts.deep_view()[j as int] == t@);
            }
            j = j + 1;
        }
        proof {
            assert(entry_arity_ok(program.rules@[i as int], n as int));
        }
        i = i + 1;
    }
    proof {
        assert(rules_arity_ok(program.rules@, n as int));
    }
    Ok(())
}

/// Whether every initial head offset is within its non-empty tape; any
/// offset is allowed on an empty tape. Only offsets with a matching tape
/// are considered.
pub open spec fn heads_pass(p: Program) -> bool {
    forall|i: int|
        0 <= i < p.heads@.len() && i < p.tapes@.len() ==> !((#[trigger] p.heads@[i])
            >= p.tapes@[i]@.len() && p.tapes@[i]@.len() > 0)
}

/// Checks that each initial head offset lies within its tape; offset 0 on
/// an empty tape is always valid.
#[verifier::loop_isolation(false)]
pub fn check_head(program: &Program) -> (r: Result<(), AnalysisError>)
    ensures
        r is Ok <==> heads_pass(*program),
        r is Err ==> exists|i: int|
            {
                &&& 0 <= i < program.heads@.len()
                &&& i < program.tapes@.len()
                &&& (#[trigger] program.heads@[i]) >= program.tapes@[i]@.len()
                &&& program.tapes@[i]@.len() > 0
                &&& forall|j: int|
                    0 <= j < i ==> !((#[trigger] program.heads@[j]) >= program.tapes@[j]@.len()
                        && program.tapes@[j]@.len() > 0)
                &&& (r->Err_0)@ == AnalysisErrorV::InvalidHead(program.heads@[i] as int)
            },
{
    let mut i: usize = 0;
    while i < program.heads.len() && i < program.tapes.len()
        invariant
            i <= program.heads@.len(),
            forall|j: int|
                0 <= j < i && j < program.tapes@.len() ==> !((#[trigger] program.heads@[j])
                    >= program.tapes@[j]@.len() && program.tapes@[j]@.len() > 0),
        decreases program.heads@.len() - i,
    {
        let head_pos = program.heads[i];
        let tape_len = program.tapes[i].as_str().unicode_len();
        if head_pos >= tape_len && tape_len > 0 {
            return Err(AnalysisError::InvalidHead(head_pos));
        }
        i = i + 1;
    }
    Ok(())
}

/// Checks that the initial state has an entry in the rules.
pub fn check_valid_start_state(program: &Program) -> (r: Result<(), AnalysisError>)
    ensures
        r is Ok <==> rules_contains_key(program.rules@, program.initial_state@),
        r is Err ==> (r->Err_0)@ == AnalysisErrorV::InvalidStartState(program.initial_state@),
{
    if !program.rules.contains_key(program.initial_state.as_str()) {
        return Err(AnalysisError::InvalidStartState(program.initial_state.clone()));
    }
    Ok(())
}


/// Whether some transition of `m` enters state `s`.
pub open spec fn state_referenced(m: RulesV, s: Seq<char>) -> bool {
    exists|i: int, j: int|
        0 <= i < m.len() && 0 <= j < m[i].1.len() && (#[trigger] m[i].1[j]).next_state == s
}

/// Whether some entry of `m` binds key `s` to an empty transition list.
pub open spec fn is_stop_key(m: RulesV, s: Seq<char>) -> bool {
    exists|i: int| 0 <= i < m.len() && (#[trigger] m[i]).0 == s && m[i].1.len() == 0
}

/// Whether some transition of `rules` enters state `s`.
#[verifier::loop_isolation(false)]
fn next_state_referenced(rules: &Rules, s: &str) -> (r: bool)
    ensures
        r == state_referenced(rules@, s@),
{
    let mut i: usize = 0;
    while i < rules.len()
        invariant
            i <= rules@.len(),
            forall|ii: int, j: int|
                0 <= ii < i && 0 <= j < rules@[ii].1.len() ==> (#[trigger] rules@[ii].1[j]).next_state
                    != s@,
        decreases rules@.len() - i,
    {
        let ts = rules.transitions_at(i);
        let mut j: usize = 0;
        while j < ts.len()
            invariant
                j <= ts@.len(),
                i < rules@.len(),
                ts.deep_view() == rules@[i as int].1,
                forall|k: int|
                    0 <= k < j ==> (#[trigger] ts.deep_view()[k]).next_state != s@,
            decreases ts@.len() - j,
        {
            if str_eq(ts[j].next_state.as_str(), s) {
                proof {
                    assert(ts.deep_view()[j as int] == ts[j as int]@);
                    assert(rules@[i as int].1[j as int].next_state == s@);
                }
                return true;
            }
            proof {
                assert(ts.deep_view()[j as int] == ts[j as int]@);
            }
            j = j + 1;
        }
        i = i + 1;
    }
    false
}

/// Checks that every state without outgoing transitions — a potential stop
/// state — is entered by some transition; the offenders are reported
/// sorted.
#[verifier::loop_isolation(false)]
pub fn check_valid_stop_states(program: &Program) -> (r: Result<(), AnalysisError>)
    ensures
        r is Ok <==> (forall|s: Seq<char>|
            is_stop_key(program.rules@, s) ==> state_referenced(program.rules@, s)),
        r is Err ==> {
            &&& (r->Err_0)@ matches AnalysisErrorV::StopStatesNotFound(v)
            &&& sorted_unique(v)
            &&& forall|x: Seq<char>|
                #![trigger seq_has(v, x)]
                seq_has(v, x) <==> (is_stop_key(program.rules@, x) && !state_referenced(
                    program.rules@,
                    x,
                ))
        },
{
    let mut invalid: Vec<Vec<char>> = Vec::new();
    let ghost m = program.rules@;
    let mut i: usize = 0;
    proof {
        assert(forall|x: Seq<char>| !seq_has(invalid.deep_view(), x));
    }
    while i < program.rules.len()
        invariant
            i <= m.len(),
            sorted_unique(invalid.deep_view()),
            forall|x: Seq<char>|
                #![trigger seq_has(invalid.deep_view(), x)]
                seq_has(invalid.deep_view(), x) <==> ((exists|ii: int|
                    0 <= ii < i && (#[trigger] m[ii]).0 == x && m[ii].1.len() == 0)
                    && !state_referenced(m, x)),
        decreases m.len() - i,
    {
        let ghost inv0 = invalid.deep_view();
        let ts = program.rules.transitions_at(i);
        if ts.len() == 0 {
            let key = program.rules.key_at(i);
            let referenced = next_state_referenced(&program.rules, key.as_str());
            if !referenced {
                insert_sorted(&mut invalid, &str_to_chars(key.as_str()));
            }
            proof {
                assert(m[i as int].0 == key@);
                assert(m[i as int].1.len() == 0);
                assert forall|x: Seq<char>|
                    #![trigger seq_has(invalid.deep_view(), x)]
                    seq_has(invalid.deep_view(), x) <==> ((exists|ii: int|
                        0 <= ii < i + 1 && (#[trigger] m[ii]).0 == x && m[ii].1.len() == 0)
                        && !state_referenced(m, x)) by {
                    if seq_has(invalid.deep_view(), x) {
                        if seq_has(inv0, x) {
                            let ii = choose|ii: int|
                                0 <= ii < i && (#[trigger] m[ii]).0 == x && m[ii].1.len() == 0;
                            assert(0 <= ii < i + 1 && m[ii].0 == x && m[ii].1.len() == 0);
                        } else {
                            assert(!referenced && x == key@);
                            assert(0 <= i < i + 1 && m[i as int].0 == x && m[i as int].1.len()
                                == 0);
                        }
                    }
                    if (exists|ii: int|
                        0 <= ii < i + 1 && (#[trigger] m[ii]).0 == x && m[ii].1.len() == 0)
                        && !state_referenced(m, x) {
                        let ii = choose|ii: int|
                            0 <= ii < i + 1 && (#[trigger] m[ii]).0 == x && m[ii].1.len() == 0;
                        if ii < i {
                            assert(seq_has(inv0, x));
                            assert(seq_has(invalid.deep_view(), x));
                        } else {
                            assert(x == key@);
                            assert(seq_has(invalid.deep_view(), x));
                        }
                    }
                }
            }
        } else {
            proof {
                assert(m[i as int].1.len() > 0);
                assert forall|x: Seq<char>|
                    #![trigger seq_has(invalid.deep_view(), x)]
                    seq_has(invalid.deep_view(), x) <==> ((exists|ii: int|
                        0 <= ii < i + 1 && (#[trigger] m[ii]).0 == x && m[ii].1.len() == 0)
                        && !state_referenced(m, x)) by {
                    if seq_has(invalid.deep_view(), x) {
                        let ii = choose|ii: int|
                            0 <= ii < i && (#[trigger] m[ii]).0 == x && m[ii].1.len() == 0;
                        assert(0 <= ii < i + 1 && m[ii].0 == x && m[ii].1.len() == 0);
                    }
                    if (exists|ii: int|
                        0 <= ii < i + 1 && (#[trigger] m[ii]).0 == x && m[ii].1.len() == 0)
                        && !state_referenced(m, x) {
                        let ii = choose|ii: int|
                            0 <= ii < i + 1 && (#[trigger] m[ii]).0 == x && m[ii].1.len() == 0;
                        assert(ii < i);
                        assert(seq_has(invalid.deep_view(), x));
                    }
                }
            }
        }
        i = i + 1;
    }
    if invalid.len() == 0 {
        proof {
            assert forall|s: Seq<char>|
                is_stop_key(m, s) implies state_referenced(m, s) by {
                if !state_referenced(m, s) {
                    assert(seq_has(invalid.deep_view(), s));
                }
            }
        }
        return Ok(());
    }
    // Turn the sorted character lists back into strings.
    let mut names: Vec<String> = Vec::new();
    let mut k: usize = 0;
    while k < invalid.len()
        invariant
            k <= invalid@.len(),
            names.deep_view() == invalid.deep_view().subrange(0, k as int),
        decreases invalid@.len() - k,
    {
        let ghost prev = names.deep_view();
        names.push(crate::strutil::chars_to_string(&invalid[k]));
        proof {
            assert(prev.len() == k as nat);
            assert(names@.len() == k + 1);
            assert(names.deep_view().len() == k + 1);
            assert forall|j: int| 0 <= j < k + 1 implies names.deep_view()[j]
                == invalid.deep_view()[j] by {
                if j < k {
                    assert(names.deep_view()[j] == prev[j]);
                }
            }
            assert(names.deep_view() =~~= invalid.deep_view().subrange(0, k + 1));
        }
        k = k + 1;
    }
    proof {
        assert(names.deep_view() =~~= invalid.deep_view());
        assert(i == m.len());
        let s0 = invalid.deep_view()[0];
        assert(seq_has(invalid.deep_view(), s0));
        let ii = choose|ii: int| 0 <= ii < i && (#[trigger] m[ii]).0 == s0 && m[ii].1.len() == 0;
        assert(0 <= ii < m.len() && m[ii].0 == s0 && m[ii].1.len() == 0);
        assert(is_stop_key(m, s0) && !state_referenced(m, s0));
    }
    Err(AnalysisError::StopStatesNotFound(names))
}

/// A report line for a transition that enters an undefined state.
pub open spec fn undefined_item(state: Seq<char>, index: int, next: Seq<char>) -> Seq<char> {
    state + seq!['['] + dec_digits(index) + seq![']'] + " -> "@ + next
}

/// Whether `s` is a legal transition target: a rules key, or the implicit
/// halting state.
pub open spec fn target_defined(m: RulesV, s: Seq<char>) -> bool {
    rules_contains_key(m, s) || s == "halt"@
}

/// The report lines for the undefined targets among the first `j`
/// transitions of the entry with key `key` and transitions `ts`.
pub open spec fn entry_undefined_upto(m: RulesV, key: Seq<char>, ts: Seq<TransitionV>, j: int) -> Seq<
    Seq<char>,
>
    decreases j,
{
    if j <= 0 {
        Seq::empty()
    } else {
        entry_undefined_upto(m, key, ts, j - 1) + if target_defined(m, ts[j - 1].next_state) {
            Seq::empty()
        } else {
            seq![undefined_item(key, j - 1, ts[j - 1].next_state)]
        }
    }
}

/// The report lines for the undefined targets among the first `i` entries
/// of `m`.
pub open spec fn undefined_upto(m: RulesV, i: int) -> Seq<Seq<char>>
    decreases i,
{
    if i <= 0 {
        Seq::empty()
    } else {
        undefined_upto(m, i - 1) + entry_undefined_upto(m, m[i - 1].0, m[i - 1].1, m[i - 1].1.len() as int)
    }
}

/// Checks that every transition's next state is a rules key or the
/// implicit halting state, reporting each offending transition.
#[verifier::loop_isolation(false)]
pub fn check_undefined_next_states(program: &Program) -> (r: Result<(), AnalysisError>)
    ensures
        r is Ok <==> undefined_upto(program.rules@, program.rules@.len() as int).len() == 0,
        r is Err ==> (r->Err_0)@ == AnalysisErrorV::UndefinedNextStates(
            undefined_upto(program.rules@, program.rules@.len() as int),
        ),
{
    let ghost m = program.rules@;
    let mut undefined: Vec<String> = Vec::new();
    let mut i: usize = 0;
    proof {
        assert(undefined.deep_view() =~= undefined_upto(m, 0));
    }
    while i < program.rules.len()
        invariant
            i <= m.len(),
            undefined.deep_view() == undefined_upto(m, i as int),
        decreases m.len() - i,
    {
        let key = program.rules.key_at(i);
        let ts = program.rules.transitions_at(i);
        let mut j: usize = 0;
        proof {
            assert(undefined.deep_view() =~= undefined_upto(m, i as int)
                + entry_undefined_upto(m, m[i as int].0, m[i as int].1, 0));
        }
        while j < ts.len()
            invariant
                j <= ts@.len(),
                i < m.len(),
                key@ == m[i as int].0,
                ts.deep_view() == m[i as int].1,
                undefined.deep_view() == undefined_upto(m, i as int) + entry_undefined_upto(
                    m,
                    m[i as int].0,
                    m[i as int].1,
                    j as int,
                ),
            decreases ts@.len() - j,
        {
            let next = &ts[j].next_state;
            proof {
                assert(ts.deep_view()[j as int] == ts[j as int]@);
            }
            if !program.rules.contains_key(next.as_str()) && !str_eq(next.as_str(), "halt") {
                let mut item = key.clone();
                crate::strutil::push_char(&mut item, '[');
                item.append(usize_to_string(j).as_str());
                crate::strutil::push_char(&mut item, ']');
                item.append(" -> ");
                item.append(next.as_str());
                let ghost prev = undefined.deep_view();
                undefined.push(item);
                proof {
                    assert(prev.len() + 1 == undefined.deep_view().len());
                    assert forall|q: int| 0 <= q < prev.len() implies undefined.deep_view()[q]
                        == prev[q] by {}
                    assert(undefined.deep_view()[prev.len() as int] =~= undefined_item(
                        m[i as int].0,
                        j as int,
                        m[i as int].1[j as int].next_state,
                    ));
                    assert(undefined.deep_view() =~~= prev + seq![undefined_item(
                        m[i as int].0,
                        j as int,
                        m[i as int].1[j as int].next_state,
                    )]);
                    assert(undefined.deep_view() =~~= undefined_upto(m, i as int)
                        + entry_undefined_upto(m, m[i as int].0, m[i as int].1, j + 1));
                }
            } else {
                proof {
                    assert(undefined.deep_view() =~= undefined_upto(m, i as int)
                        + entry_undefined_upto(m, m[i as int].0, m[i as int].1, j + 1));
                }
            }
            j = j + 1;
        }
        proof {
            assert(undefined.deep_view() =~= undefined_upto(m, i + 1));
        }
        i = i + 1;
    }
    if undefined.len() == 0 {
        proof {
            assert(undefined_upto(m, m.len() as int).len() == 0);
        }
        return Ok(());
    }
    Err(AnalysisError::UndefinedNextStates(undefined))
}

/// Whether symbol `c` occurs on some initial tape.
pub open spec fn symbol_on_tapes(p: Program, c: char) -> bool {
    exists|i: int| 0 <= i < p.tapes@.len() && (#[trigger] p.tapes@[i]@).contains(c)
}

/// Whether symbol `c` is handled: it is the blank symbol, or some
/// transition reads it on some tape.
pub open spec fn symbol_handled(p: Program, c: char) -> bool {
    ||| c == p.blank
    ||| exists|i: int, j: int, k: int|
        0 <= i < p.rules@.len() && 0 <= j < p.rules@[i].1.len() && 0 <= k < p.rules@[i].1[j].read.len()
            && (#[trigger] p.rules@[i].1[j].read[k]) == c
}

/// Whether some transition of `rules` reads `c`, or `c` is `blank`.
#[verifier::loop_isolation(false)]
fn symbol_is_handled(program: &Program, c: char) -> (r: bool)
    ensures
        r == symbol_handled(*program, c),
{
    if c == program.blank {
        return true;
    }
    let mut i: usize = 0;
    while i < program.rules.len()
        invariant
            i <= program.rules@.len(),
            forall|ii: int, j: int, k: int|
                0 <= ii < i && 0 <= j < program.rules@[ii].1.len() && 0 <= k
                    < program.rules@[ii].1[j].read.len() ==> (
                #[trigger] program.rules@[ii].1[j].read[k]) != c,
        decreases program.rules@.len() - i,
    {
        let ts = program.rules.transitions_at(i);
        let mut j: usize = 0;
        while j < ts.len()
            invariant
                j <= ts@.len(),
                i < program.rules@.len(),
                ts.deep_view() == program.rules@[i as int].1,
                forall|jj: int, k: int|
                    0 <= jj < j && 0 <= k < ts.deep_view()[jj].read.len() ==> (
                    #[trigger] ts.deep_view()[jj].read[k]) != c,
            decreases ts@.len() - j,
        {
            let reads = &ts[j].read;
            proof {
                assert(ts.deep_view()[j as int] == ts[j as int]@);
            }
            let mut k: usize = 0;
            while k < reads.len()
                invariant
                    k <= reads@.len(),
                    reads@ == ts.deep_view()[j as int].read,
                    forall|kk: int| 0 <= kk < k ==> reads@[kk] != c,
                decreases reads@.len() - k,
            {
                if reads[k] == c {
                    return true;
                }
                k = k + 1;
            }
            j = j + 1;
        }
        i = i + 1;
    }
    false
}

/// Checks that every symbol on an initial tape is the blank symbol or is
/// read by some transition; the unhandled symbols are reported sorted and
/// deduplicated.
#[verifier::loop_isolation(false)]
pub fn check_tape_symbols(program: &Program) -> (r: Result<(), AnalysisError>)
    ensures
        r is Ok <==> (forall|c: char| symbol_on_tapes(*program, c) ==> symbol_handled(*program, c)),
        r is Err ==> {
            &&& (r->Err_0)@ matches AnalysisErrorV::InvalidTapeSymbols(v)
            &&& crate::strutil::sorted_unique_chars(v)
            &&& forall|x: char|
                #![trigger seq_has(v, x)]
                seq_has(v, x) <==> (symbol_on_tapes(*program, x) && !symbol_handled(*program, x))
        },
{
    let mut unhandled: Vec<char> = Vec::new();
    let mut i: usize = 0;
    while i < program.tapes.len()
        invariant
            i <= program.tapes@.len(),
            crate::strutil::sorted_unique_chars(unhandled@),
            forall|x: char|
                #![trigger seq_has(unhandled@, x)]
                seq_has(unhandled@, x) <==> ((exists|ii: int|
                    0 <= ii < i && (#[trigger] program.tapes@[ii]@).contains(x)) && !symbol_handled(
                    *program,
                    x,
                )),
        decreases program.tapes@.len() - i,
    {
        let tape = str_to_chars(program.tapes[i].as_str());
        let mut j: usize = 0;
        while j < tape.len()
            invariant
                j <= tape@.len(),
                i < program.tapes@.len(),
                tape@ == program.tapes@[i as int]@,
                crate::strutil::sorted_unique_chars(unhandled@),
                forall|x: char|
                    #![trigger seq_has(unhandled@, x)]
                    seq_has(unhandled@, x) <==> (((exists|ii: int|
                        0 <= ii < i && (#[trigger] program.tapes@[ii]@).contains(x)) || (exists|
                        jj: int,
                    | 0 <= jj < j && tape@[jj] == x)) && !symbol_handled(*program, x)),
            decreases tape@.len() - j,
        {
            let c = tape[j];
            if !symbol_is_handled(program, c) {
                crate::strutil::insert_sorted_char(&mut unhandled, c);
            }
            proof {
                assert forall|x: char|
                    #![trigger seq_has(unhandled@, x)]
                    seq_has(unhandled@, x) <==> (((exists|ii: int|
                        0 <= ii < i && (#[trigger] program.tapes@[ii]@).contains(x)) || (exists|
                        jj: int,
                    | 0 <= jj < j + 1 && tape@[jj] == x)) && !symbol_handled(*program, x)) by {
                    if (exists|jj: int| 0 <= jj < j + 1 && tape@[jj] == x) && !symbol_handled(
                        *program,
                        x,
                    ) {
                        let jj = choose|jj: int| 0 <= jj < j + 1 && tape@[jj] == x;
                        if jj < j {
                            assert(seq_has(unhandled@, x));
                        } else {
                            assert(x == c);
                        }
                    }
                }
            }
            j = j + 1;
        }
        proof {
            assert forall|x: char|
                #![trigger seq_has(unhandled@, x)]
                seq_has(unhandled@, x) <==> ((exists|ii: int|
                    0 <= ii < i + 1 && (#[trigger] program.tapes@[ii]@).contains(x))
                    && !symbol_handled(*program, x)) by {
                if (exists|ii: int| 0 <= ii < i + 1 && (#[trigger] program.tapes@[ii]@).contains(x))
                    && !symbol_handled(*program, x) {
                    let ii = choose|ii: int|
                        0 <= ii < i + 1 && (#[trigger] program.tapes@[ii]@).contains(x);
                    if ii < i {
                        assert(seq_has(unhandled@, x));
                    } else {
                        let jj = choose|jj: int| 0 <= jj < tape@.len() && tape@[jj] == x;
                        assert(seq_has(unhandled@, x));
                    }
                }
            }
        }
        i = i + 1;
    }
    if unhandled.len() == 0 {
        proof {
            assert forall|c: char|
                symbol_on_tapes(*program, c) implies symbol_handled(*program, c) by {
                if !symbol_handled(*program, c) {
                    let ii = choose|ii: int|
                        0 <= ii < program.tapes@.len() && (#[trigger] program.tapes@[ii]@).contains(
                            c,
                        );
                    assert(seq_has(unhandled@, c));
                }
            }
        }
        return Ok(());
    }
    proof {
        assert(i == program.tapes@.len());
        assert(seq_has(unhandled@, unhandled@[0]));
        assert(symbol_on_tapes(*program, unhandled@[0]) && !symbol_handled(
            *program,
            unhandled@[0],
        ));
    }
    Err(AnalysisError::InvalidTapeSymbols(unhandled))
}


/// Whether some transition leaving state `a` enters state `b`.
pub open spec fn has_edge(m: RulesV, a: Seq<char>, b: Seq<char>) -> bool {
    match rules_get(m, a) {
        Option::Some(ts) => exists|j: int| 0 <= j < ts.len() && (#[trigger] ts[j]).next_state == b,
        Option::None => false,
    }
}

/// A transition list entry witnesses an edge.
pub proof fn lemma_has_edge(m: RulesV, a: Seq<char>, ts: Seq<TransitionV>, j: int, b: Seq<char>)
    requires
        rules_get(m, a) == Some(ts),
        0 <= j < ts.len(),
        ts[j].next_state == b,
    ensures
        has_edge(m, a, b),
{
    let ts2 = rules_get(m, a)->Some_0;
    assert(ts2 == ts);
    assert(0 <= j < ts2.len() && (ts2[j]).next_state == b);
    assert(exists|jj: int| 0 <= jj < ts2.len() && (#[trigger] ts2[jj]).next_state == b);
}

/// An edge out of a state with a known transition list names one of its
/// transitions' next states.
pub proof fn lemma_edge_target_index(m: RulesV, a: Seq<char>, ts: Seq<TransitionV>, b: Seq<char>)
    requires
        rules_get(m, a) == Some(ts),
        has_edge(m, a, b),
    ensures
        exists|j: int| 0 <= j < ts.len() && (#[trigger] ts[j]).next_state == b,
{
}

/// Whether consecutive entries of `p` are connected by transition edges.
pub open spec fn is_path(m: RulesV, p: Seq<Seq<char>>) -> bool {
    forall|i: int| 0 <= i < p.len() - 1 ==> has_edge(m, #[trigger] p[i], p[i + 1])
}

/// Whether state `to` can be reached from state `from` along transition
/// edges: some edge-connected sequence of states starts at `from` and ends
/// at `to`.
pub open spec fn reachable(m: RulesV, from: Seq<char>, to: Seq<char>) -> bool {
    exists|p: Seq<Seq<char>>|
        #[trigger] is_path(m, p) && p.len() >= 1 && p[0] == from && p[p.len() - 1] == to
}

/// Every state reaches itself.
pub proof fn lemma_reachable_self(m: RulesV, s: Seq<char>)
    ensures
        reachable(m, s, s),
{
    let p = seq![s];
    assert(is_path(m, p) && p.len() >= 1 && p[0] == s && p[p.len() - 1] == s);
}

/// One more edge keeps a state reachable.
pub proof fn lemma_reachable_edge(m: RulesV, init: Seq<char>, a: Seq<char>, b: Seq<char>)
    requires
        reachable(m, init, a),
        has_edge(m, a, b),
    ensures
        reachable(m, init, b),
{
    let p = choose|p: Seq<Seq<char>>|
        #[trigger] is_path(m, p) && p.len() >= 1 && p[0] == init && p[p.len() - 1] == a;
    let p1 = p.push(b);
    assert forall|i: int| 0 <= i < p1.len() - 1 implies has_edge(m, #[trigger] p1[i], p1[i + 1]) by {
        if i < p.len() - 1 {
            assert(p1[i] == p[i]);
            assert(p1[i + 1] == p[i + 1]);
            assert(has_edge(m, p[i], p[i + 1]));
        } else {
            assert(p1[i] == a);
            assert(p1[i + 1] == b);
        }
    }
    assert(is_path(m, p1) && p1.len() >= 1 && p1[0] == init && p1[p1.len() - 1] == b);
}

/// A set of states that contains the start of an edge-connected path and is
/// closed under transition edges contains the path's end.
pub proof fn lemma_path_in_closed(m: RulesV, v: Seq<Seq<char>>, p: Seq<Seq<char>>)
    requires
        is_path(m, p),
        p.len() >= 1,
        seq_has(v, p[0]),
        forall|a: Seq<char>, b: Seq<char>|
            seq_has(v, a) && #[trigger] has_edge(m, a, b) ==> seq_has(v, b),
    ensures
        seq_has(v, p[p.len() - 1]),
    decreases p.len(),
{
    if p.len() == 1 {
    } else {
        let q = p.drop_last();
        assert forall|i: int| 0 <= i < q.len() - 1 implies has_edge(m, #[trigger] q[i], q[i + 1]) by {
            assert(q[i] == p[i]);
            assert(q[i + 1] == p[i + 1]);
            assert(has_edge(m, p[i], p[i + 1]));
        }
        assert(q[0] == p[0]);
        lemma_path_in_closed(m, v, q);
        assert(seq_has(v, p[p.len() - 2]));
        assert(has_edge(m, p[p.len() - 2], p[p.len() - 1]));
    }
}

/// The next states of a transition list, in order.
pub open spec fn entry_targets(ts: Seq<TransitionV>) -> Seq<Seq<char>>
    decreases ts.len(),
{
    if ts.len() == 0 {
        Seq::empty()
    } else {
        seq![ts[0].next_state] + entry_targets(ts.drop_first())
    }
}

/// The next states of every transition of `m`.
pub open spec fn all_targets(m: RulesV) -> Seq<Seq<char>>
    decreases m.len(),
{
    if m.len() == 0 {
        Seq::empty()
    } else {
        entry_targets(m[0].1) + all_targets(m.drop_first())
    }
}

/// Every state that can ever enter the worklist: the initial state and
/// every transition target.
pub open spec fn state_universe(m: RulesV, init: Seq<char>) -> Seq<Seq<char>> {
    seq![init] + all_targets(m)
}

/// Each transition's next state occurs among a list's targets.
pub proof fn lemma_entry_targets_has(ts: Seq<TransitionV>, j: int)
    requires
        0 <= j < ts.len(),
    ensures
        seq_has(entry_targets(ts), ts[j].next_state),
    decreases ts.len(),
{
    if j == 0 {
        assert(entry_targets(ts)[0] == ts[0].next_state);
    } else {
        lemma_entry_targets_has(ts.drop_first(), j - 1);
        let k = choose|k: int|
            0 <= k < entry_targets(ts.drop_first()).len() && entry_targets(ts.drop_first())[k]
                == ts.drop_first()[j - 1].next_state;
        assert(entry_targets(ts)[k + 1] == ts[j].next_state);
    }
}

/// Each transition's next state occurs in the universe of states.
pub proof fn lemma_all_targets_has(m: RulesV, i: int, j: int)
    requires
        0 <= i < m.len(),
        0 <= j < m[i].1.len(),
    ensures
        seq_has(all_targets(m), m[i].1[j].next_state),
    decreases m.len(),
{
    if i == 0 {
        lemma_entry_targets_has(m[0].1, j);
        let k = choose|k: int|
            0 <= k < entry_targets(m[0].1).len() && entry_targets(m[0].1)[k]
                == m[0].1[j].next_state;
        assert(all_targets(m)[k] == m[i].1[j].next_state);
    } else {
        lemma_all_targets_has(m.drop_first(), i - 1, j);
        let k = choose|k: int|
            0 <= k < all_targets(m.drop_first()).len() && all_targets(m.drop_first())[k]
                == m.drop_first()[i - 1].1[j].next_state;
        assert(all_targets(m)[entry_targets(m[0].1).len() + k] == m[i].1[j].next_state);
    }
}

/// A rule lookup that succeeds names some entry of the mapping.
proof fn lemma_rules_get_entry_index(m: RulesV, k: Seq<char>) -> (i: int)
    requires
        rules_get(m, k) is Some,
    ensures
        0 <= i < m.len() && m[i].0 == k && m[i].1 == rules_get(m, k)->Some_0,
    decreases m.len(),
{
    if m.len() > 0 && m[0].0 == k {
        0
    } else {
        let i = lemma_rules_get_entry_index(m.drop_first(), k);
        i + 1
    }
}

/// The states reachable from `initial` along transition edges, found by a
/// worklist traversal in which each state is enqueued at most once.
#[verifier::loop_isolation(false)]
fn reachable_states(rules: &Rules, initial: &String) -> (r: Vec<String>)
    ensures
        forall|x: Seq<char>|
            #![trigger seq_has(r.deep_view(), x)]
            seq_has(r.deep_view(), x) <==> reachable(rules@, initial@, x),
{
    let ghost m = rules@;
    let ghost uni = state_universe(m, initial@);
    let mut queue: Vec<String> = Vec::new();
    queue.push(initial.clone());
    proof {
        assert(queue.deep_view().len() == 1);
        assert(queue.deep_view()[0] == initial@);
        assert(uni[0] == initial@);
        lemma_reachable_self(m, initial@);
    }
    let mut qi: usize = 0;
    while qi < queue.len()
        invariant
            qi <= queue@.len(),
            queue@.len() >= 1,
            queue.deep_view()[0] == initial@,
            forall|p: int, q: int|
                0 <= p < q < queue.deep_view().len() ==> queue.deep_view()[p]
                    != queue.deep_view()[q],
            forall|x: Seq<char>|
                #![trigger seq_has(queue.deep_view(), x)]
                seq_has(queue.deep_view(), x) ==> reachable(m, initial@, x) && seq_has(uni, x),
            forall|p: int, b: Seq<char>|
                0 <= p < qi && #[trigger] has_edge(m, queue.deep_view()[p], b) ==> seq_has(
                    queue.deep_view(),
                    b,
                ),
        decreases uni.len() - qi,
    {
        let s = queue[qi].clone();
        proof {
            assert(seq_has(queue.deep_view(), s@)) by {
                assert(queue.deep_view()[qi as int] == s@);
            }
        }
        let found = rules.get(s.as_str());
        match found {
            Option::None => {
                proof {
                    assert forall|b: Seq<char>| #[trigger]
                        has_edge(m, queue.deep_view()[qi as int], b) implies seq_has(
                        queue.deep_view(),
                        b,
                    ) by {}
                }
            },
            Option::Some(ts) => {
                let ghost tsv = ts.deep_view();
                let mut j: usize = 0;
                while j < ts.len()
                    invariant
                        j <= tsv.len(),
                        tsv == ts.deep_view(),
                        rules_get(m, queue.deep_view()[qi as int]) == Some(tsv),
                        qi < queue@.len(),
                        queue@.len() >= 1,
                        queue.deep_view()[0] == initial@,
                        forall|p: int, q: int|
                            0 <= p < q < queue.deep_view().len() ==> queue.deep_view()[p]
                                != queue.deep_view()[q],
                        forall|x: Seq<char>|
                            #![trigger seq_has(queue.deep_view(), x)]
                            seq_has(queue.deep_view(), x) ==> reachable(m, initial@, x) && seq_has(
                                uni,
                                x,
                            ),
                        forall|p: int, b: Seq<char>|
                            0 <= p < qi && #[trigger] has_edge(m, queue.deep_view()[p], b)
                                ==> seq_has(queue.deep_view(), b),
                        forall|jj: int|
                            0 <= jj < j ==> seq_has(
                                queue.deep_view(),
                                (#[trigger] tsv[jj]).next_state,
                            ),
                        queue.deep_view()[qi as int] == s@,
                    decreases tsv.len() - j,
                {
                    let next = &ts[j].next_state;
                    proof {
                        assert(tsv[j as int] == ts[j as int]@);
                    }
                    if !vec_has_string(&queue, next.as_str()) {
                        let ghost q0 = queue.deep_view();
                        queue.push(next.clone());
                        proof {
                            assert(queue.deep_view().len() == q0.len() + 1);
                            assert(forall|p: int|
                                0 <= p < q0.len() ==> queue.deep_view()[p] == q0[p]);
                            assert(queue.deep_view()[q0.len() as int] == next@);
                            assert(!seq_has(q0, next@));
                            assert forall|p: int, q: int|
                                0 <= p < q < queue.deep_view().len() implies queue.deep_view()[p]
                                != queue.deep_view()[q] by {
                                if q == q0.len() {
                                    assert(queue.deep_view()[p] == q0[p]);
                                    if queue.deep_view()[p] == next@ {
                                        assert(seq_has(q0, next@));
                                    }
                                } else {
                                    assert(queue.deep_view()[p] == q0[p]);
                                    assert(queue.deep_view()[q] == q0[q]);
                                }
                            }
                            assert forall|p: int, b: Seq<char>|
                                0 <= p < qi && #[trigger] has_edge(m, queue.deep_view()[p], b)
                                implies seq_has(queue.deep_view(), b) by {
                                assert(queue.deep_view()[p] == q0[p]);
                                assert(has_edge(m, q0[p], b));
                                assert(seq_has(q0, b));
                                let pp = choose|pp: int| 0 <= pp < q0.len() && q0[pp] == b;
                                assert(queue.deep_view()[pp] == b);
                            }
                            assert forall|jj: int| 0 <= jj < j + 1 implies seq_has(
                                queue.deep_view(),
                                (#[trigger] tsv[jj]).next_state,
                            ) by {
                                if jj < j {
                                    assert(seq_has(q0, tsv[jj].next_state));
                                    let pp = choose|pp: int|
                                        0 <= pp < q0.len() && q0[pp] == tsv[jj].next_state;
                                    assert(queue.deep_view()[pp] == tsv[jj].next_state);
                                } else {
                                    assert(queue.deep_view()[q0.len() as int] == next@);
                                }
                            }
                            // the pushed state is reachable: one edge from `s`
                            assert(rules_get(m, s@) == Some(tsv));
                            assert(tsv[j as int].next_state == next@);
                            lemma_has_edge(m, s@, tsv, j as int, next@);
                            lemma_reachable_edge(m, initial@, s@, next@);
                            // and it lies in the universe
                            let ei = lemma_rules_get_entry_index(m, s@);
                            lemma_all_targets_has(m, ei, j as int);
                            let k = choose|k: int|
                                0 <= k < all_targets(m).len() && all_targets(m)[k] == next@;
                            assert(uni[1 + k] == next@);
                            assert(seq_has(uni, next@));
                            assert forall|x: Seq<char>|
                                #![trigger seq_has(queue.deep_view(), x)]
                                seq_has(queue.deep_view(), x) implies reachable(m, initial@, x)
                                && seq_has(uni, x) by {
                                if x != next@ {
                                    let p = choose|p: int|
                                        0 <= p < queue.deep_view().len() && queue.deep_view()[p]
                                            == x;
                                    assert(q0[p] == x);
                                    assert(seq_has(q0, x));
                                } else {
                                    assert(seq_has(queue.deep_view(), next@));
                                }
                            }
                        }
                    }
                    j = j + 1;
                }
                proof {
                    assert forall|b: Seq<char>| #[trigger]
                        has_edge(m, queue.deep_view()[qi as int], b) implies seq_has(
                        queue.deep_view(),
                        b,
                    ) by {
                        lemma_edge_target_index(m, queue.deep_view()[qi as int], tsv, b);
                        let jj = choose|jj: int|
                            0 <= jj < tsv.len() && (#[trigger] tsv[jj]).next_state == b;
                        assert(seq_has(queue.deep_view(), tsv[jj].next_state));
                    }
                }
            },
        }
        proof {
            // the worklist stays within the finite universe, so the cursor
            // catches up with it
            let qv = queue.deep_view();
            assert(qv.no_duplicates());
            qv.unique_seq_to_set();
            assert forall|x: Seq<char>| qv.to_set().contains(x) implies uni.to_set().contains(
                x,
            ) by {
                assert(qv.contains(x));
                let p = choose|p: int| 0 <= p < qv.len() && qv[p] == x;
                assert(seq_has(qv, x));
                let q = choose|q: int| 0 <= q < uni.len() && uni[q] == x;
                assert(uni.contains(x));
            }
            assert(qv.to_set().subset_of(uni.to_set()));
            broadcast use vstd::seq_lib::seq_to_set_is_finite;

            vstd::set_lib::lemma_len_subset(qv.to_set(), uni.to_set());
            uni.lemma_cardinality_of_set();
            assert(queue@.len() <= uni.len());
            assert forall|p: int, b: Seq<char>|
                0 <= p < qi + 1 && #[trigger] has_edge(m, queue.deep_view()[p], b) implies seq_has(
                queue.deep_view(),
                b,
            ) by {
                if p == qi {
                    assert(has_edge(m, queue.deep_view()[qi as int], b));
                }
            }
        }
        qi = qi + 1;
    }
    proof {
        assert forall|x: Seq<char>|
            #![trigger seq_has(queue.deep_view(), x)]
            seq_has(queue.deep_view(), x) <==> reachable(m, initial@, x) by {
            if reachable(m, initial@, x) {
                let pth = choose|pth: Seq<Seq<char>>|
                    #[trigger] is_path(m, pth) && pth.len() >= 1 && pth[0] == initial@
                        && pth[pth.len() - 1] == x;
                assert(seq_has(queue.deep_view(), initial@)) by {
                    assert(queue.deep_view()[0] == initial@);
                }
                assert forall|a: Seq<char>, b: Seq<char>|
                    seq_has(queue.deep_view(), a) && #[trigger] has_edge(m, a, b) implies seq_has(
                    queue.deep_view(),
                    b,
                ) by {
                    let p = choose|p: int|
                        0 <= p < queue.deep_view().len() && queue.deep_view()[p] == a;
                }
                lemma_path_in_closed(m, queue.deep_view(), pth);
            }
        }
    }
    queue
}


/// Whether every rules key is reachable from the initial state.
pub open spec fn reachability_pass(p: Program) -> bool {
    forall|s: Seq<char>|
        #[trigger] rules_contains_key(p.rules@, s) ==> reachable(p.rules@, p.initial_state@, s)
}

/// Checks that every rules key can be reached from the initial state along
/// transition edges; the unreachable keys are reported sorted.
#[verifier::loop_isolation(false)]
pub fn check_unreachable_states(program: &Program) -> (r: Result<(), AnalysisError>)
    ensures
        r is Ok <==> reachability_pass(*program),
        r is Err ==> {
            &&& (r->Err_0)@ matches AnalysisErrorV::UnreachableStates(v)
            &&& sorted_unique(v)
            &&& forall|x: Seq<char>|
                #![trigger seq_has(v, x)]
                seq_has(v, x) <==> (rules_contains_key(program.rules@, x) && !reachable(
                    program.rules@,
                    program.initial_state@,
                    x,
                ))
        },
{
    let ghost m = program.rules@;
    let ghost init = program.initial_state@;
    let visited = reachable_states(&program.rules, &program.initial_state);
    let mut unreachable: Vec<Vec<char>> = Vec::new();
    let mut i: usize = 0;
    while i < program.rules.len()
        invariant
            i <= m.len(),
            sorted_unique(unreachable.deep_view()),
            forall|x: Seq<char>|
                #![trigger seq_has(unreachable.deep_view(), x)]
                seq_has(unreachable.deep_view(), x) <==> ((exists|ii: int|
                    0 <= ii < i && (#[trigger] m[ii]).0 == x) && !reachable(m, init, x)),
        decreases m.len() - i,
    {
        let ghost un0 = unreachable.deep_view();
        let key = program.rules.key_at(i);
        let absent = !vec_has_string(&visited, key.as_str());
        if absent {
            insert_sorted(&mut unreachable, &str_to_chars(key.as_str()));
        }
        proof {
            assert(m[i as int].0 == key@);
            assert(absent <==> !reachable(m, init, key@));
            assert forall|x: Seq<char>|
                #![trigger seq_has(unreachable.deep_view(), x)]
                seq_has(unreachable.deep_view(), x) <==> ((exists|ii: int|
                    0 <= ii < i + 1 && (#[trigger] m[ii]).0 == x) && !reachable(m, init, x)) by {
                if seq_has(unreachable.deep_view(), x) {
                    if seq_has(un0, x) {
                        let ii = choose|ii: int| 0 <= ii < i && (#[trigger] m[ii]).0 == x;
                        assert(0 <= ii < i + 1 && m[ii].0 == x);
                    } else {
                        assert(absent && x == key@);
                        assert(0 <= i < i + 1 && m[i as int].0 == x);
                    }
                }
                if (exists|ii: int| 0 <= ii < i + 1 && (#[trigger] m[ii]).0 == x) && !reachable(
                    m,
                    init,
                    x,
                ) {
                    let ii = choose|ii: int| 0 <= ii < i + 1 && (#[trigger] m[ii]).0 == x;
                    if ii < i {
                        assert(seq_has(un0, x));
                        assert(seq_has(unreachable.deep_view(), x));
                    } else {
                        assert(x == key@);
                        assert(seq_has(unreachable.deep_view(), x));
                    }
                }
            }
        }
        i = i + 1;
    }
    if unreachable.len() == 0 {
        proof {
            assert forall|s: Seq<char>| #[trigger]
                rules_contains_key(m, s) implies reachable(m, init, s) by {
                if !reachable(m, init, s) {
                    let ii = choose|ii: int| 0 <= ii < m.len() && (#[trigger] m[ii]).0 == s;
                    assert(seq_has(unreachable.deep_view(), s));
                }
            }
        }
        return Ok(());
    }
    let mut names: Vec<String> = Vec::new();
    let mut k: usize = 0;
    while k < unreachable.len()
        invariant
            k <= unreachable@.len(),
            names.deep_view() == unreachable.deep_view().subrange(0, k as int),
        decreases unreachable@.len() - k,
    {
        let ghost prev = names.deep_view();
        names.push(crate::strutil::chars_to_string(&unreachable[k]));
        proof {
            assert(prev.len() == k as nat);
            assert(names@.len() == k + 1);
            assert(names.deep_view().len() == k + 1);
            assert forall|j: int| 0 <= j < k + 1 implies names.deep_view()[j]
                == unreachable.deep_view()[j] by {
                if j < k {
                    assert(names.deep_view()[j] == prev[j]);
                }
            }
            assert(names.deep_view() =~~= unreachable.deep_view().subrange(0, k + 1));
        }
        k = k + 1;
    }
    proof {
        assert(names.deep_view() =~~= unreachable.deep_view());
        assert(i == m.len());
        let s0 = unreachable.deep_view()[0];
        assert(seq_has(unreachable.deep_view(), s0));
        let ii = choose|ii: int| 0 <= ii < i && (#[trigger] m[ii]).0 == s0;
        assert(rules_contains_key(m, s0) && !reachable(m, init, s0));
    }
    Err(AnalysisError::UnreachableStates(names))
}

/// Whether the initial state has an entry in the rules.
pub open spec fn start_state_pass(p: Program) -> bool {
    rules_contains_key(p.rules@, p.initial_state@)
}

/// Whether every initial tape symbol is handled by some transition or is
/// the blank symbol.
pub open spec fn symbols_pass(p: Program) -> bool {
    forall|c: char| #[trigger] symbol_on_tapes(p, c) ==> symbol_handled(p, c)
}

/// Whether the program passes every analyzer check.
pub open spec fn analysis_pass(p: Program) -> bool {
    &&& structure_pass(p)
    &&& heads_pass(p)
    &&& start_state_pass(p)
    &&& reachability_pass(p)
    &&& symbols_pass(p)
}

/// The shape of the structural error the analyzer reports first.
pub open spec fn structural_error_shape(p: Program, e: AnalysisErrorV) -> bool {
    if p.tapes@.len() == 0 {
        e == AnalysisErrorV::StructuralError(no_tapes_message())
    } else if p.heads@.len() != p.tapes@.len() {
        e == AnalysisErrorV::StructuralError(
            heads_mismatch_message(p.heads@.len() as int, p.tapes@.len() as int),
        )
    } else {
        exists|i: int|
            {
                &&& 0 <= i < p.rules@.len()
                &&& !entry_arity_ok(#[trigger] p.rules@[i], p.tapes@.len() as int)
                &&& forall|j: int|
                    0 <= j < i ==> entry_arity_ok(#[trigger] p.rules@[j], p.tapes@.len() as int)
                &&& e == AnalysisErrorV::StructuralError(arity_message(p.rules@[i].0))
            }
    }
}

/// The shape of the head error the analyzer reports.
pub open spec fn invalid_head_shape(p: Program, e: AnalysisErrorV) -> bool {
    exists|i: int|
        {
            &&& 0 <= i < p.heads@.len()
            &&& i < p.tapes@.len()
            &&& (#[trigger] p.heads@[i]) >= p.tapes@[i]@.len()
            &&& p.tapes@[i]@.len() > 0
            &&& forall|j: int|
                0 <= j < i ==> !((#[trigger] p.heads@[j]) >= p.tapes@[j]@.len()
                    && p.tapes@[j]@.len() > 0)
            &&& e == AnalysisErrorV::InvalidHead(p.heads@[i] as int)
        }
}

/// The shape of the unreachable-states error the analyzer reports: the
/// sorted list of exactly the unreachable rules keys.
pub open spec fn unreachable_shape(p: Program, e: AnalysisErrorV) -> bool {
    &&& e matches AnalysisErrorV::UnreachableStates(v)
    &&& sorted_unique(v)
    &&& forall|x: Seq<char>|
        #![trigger seq_has(v, x)]
        seq_has(v, x) <==> (rules_contains_key(p.rules@, x) && !reachable(
            p.rules@,
            p.initial_state@,
            x,
        ))
}

/// The shape of the tape-symbol error the analyzer reports: the sorted
/// list of exactly the unhandled initial tape symbols.
pub open spec fn symbols_shape(p: Program, e: AnalysisErrorV) -> bool {
    &&& e matches AnalysisErrorV::InvalidTapeSymbols(v)
    &&& crate::strutil::sorted_unique_chars(v)
    &&& forall|x: char|
        #![trigger seq_has(v, x)]
        seq_has(v, x) <==> (symbol_on_tapes(p, x) && !symbol_handled(p, x))
}

/// The analysis error the analyzer reports for `p`: the checks run in a
/// fixed order — structure, head bounds, start state, reachability, tape
/// symbols — and the first failing check's error is reported.
pub open spec fn first_analysis_error(p: Program, e: AnalysisErrorV) -> bool {
    if !structure_pass(p) {
        structural_error_shape(p, e)
    } else if !heads_pass(p) {
        invalid_head_shape(p, e)
    } else if !start_state_pass(p) {
        e == AnalysisErrorV::InvalidStartState(p.initial_state@)
    } else if !reachability_pass(p) {
        unreachable_shape(p, e)
    } else if !symbols_pass(p) {
        symbols_shape(p, e)
    } else {
        false
    }
}

/// Analyzes a program: runs the structural check, the head-bound check,
/// the start-state check, the reachability check and the tape-symbol
/// check, in that order, and reports the first failure as a validation
/// error.
pub fn analyze(program: &Program) -> (r: Result<(), TuringMachineError>)
    ensures
        r is Ok <==> analysis_pass(*program),
        r is Err ==> exists|e: AnalysisErrorV|
            {
                &&& #[trigger] first_analysis_error(*program, e)
                &&& (r->Err_0)@ == TuringMachineErrorV::ValidationError(validation_message(e))
            },
{
    match check_structure(program) {
        Err(e) => {
            proof {
                assert(first_analysis_error(*program, e@));
            }
            return Err(e.to_validation_error());
        },
        Ok(()) => {},
    }
    match check_head(program) {
        Err(e) => {
            proof {
                assert(first_analysis_error(*program, e@));
            }
            return Err(e.to_validation_error());
        },
        Ok(()) => {},
    }
    match check_valid_start_state(program) {
        Err(e) => {
            proof {
                assert(first_analysis_error(*program, e@));
            }
            return Err(e.to_validation_error());
        },
        Ok(()) => {},
    }
    match check_unreachable_states(program) {
        Err(e) => {
            proof {
                assert(first_analysis_error(*program, e@));
            }
            return Err(e.to_validation_error());
        },
        Ok(()) => {},
    }
    match check_tape_symbols(program) {
        Err(e) => {
            proof {
                assert(first_analysis_error(*program, e@));
            }
            return Err(e.to_validation_error());
        },
        Ok(()) => {},
    }
    Ok(())
}

} // verus!
