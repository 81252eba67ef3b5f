//! The general laws of the library, stated and proved once over the spec
//! functions that the public contracts use: progress of a single step,
//! wildcard matching, tape growth, the two halting modes, determinism of
//! the analyzer, and exact restoration by a reset.

use vstd::prelude::*;

use crate::analyzer::{
    first_analysis_error, heads_pass, reachability_pass, start_state_pass, structure_pass,
    symbols_pass, validation_message, AnalysisErrorV,
};
use crate::machine::{
    applied_action, padded_tape, step_config, ConfigV, TuringMachine,
};
use crate::strutil::{
    chars_le, lemma_chars_le_antisym, seq_has, sorted_unique, sorted_unique_chars,
};
use crate::types::{
    first_matching, program_tapes_view, resolve_symbol, rules_get, symbols_of, transition_matches,
    Direction, HaltV, Mode, Program, StepV, TransitionV, TuringMachineErrorV, INPUT_BLANK_SYMBOL,
};

verus! {

/// One step either continues and advances the step counter by exactly one,
/// or halts and leaves the counter unchanged.
pub proof fn lemma_step_progress(p: Program, c: ConfigV)
    ensures
        ({
            let (c1, s) = step_config(p, c);
            &&& (s == StepV::Continue ==> c1.step_count == c.step_count + 1)
            &&& (s != StepV::Continue ==> (s matches StepV::Halt(_)) && c1.step_count
                == c.step_count)
        }),
{
}

/// A transition whose read positions are all the wildcard matches exactly
/// the configurations whose symbols under the heads all equal the
/// program's configured blank — whatever literal blank was chosen.
pub proof fn lemma_wildcard_matches(t: TransitionV, symbols: Seq<char>, blank: char)
    requires
        t.read.len() == symbols.len(),
        forall|i: int| 0 <= i < t.read.len() ==> #[trigger] t.read[i] == INPUT_BLANK_SYMBOL,
    ensures
        transition_matches(t, symbols, blank) <==> (forall|i: int|
            0 <= i < symbols.len() ==> #[trigger] symbols[i] == blank),
{
    if transition_matches(t, symbols, blank) {
        assert forall|i: int| 0 <= i < symbols.len() implies #[trigger] symbols[i] == blank by {
            assert(t.read[i] == INPUT_BLANK_SYMBOL);
            assert(resolve_symbol(t.read[i], blank) == symbols[i]);
        }
    }
    if forall|i: int| 0 <= i < symbols.len() ==> #[trigger] symbols[i] == blank {
        assert forall|i: int| 0 <= i < symbols.len() implies resolve_symbol(
            #[trigger] t.read[i],
            blank,
        ) == symbols[i] by {
            assert(t.read[i] == INPUT_BLANK_SYMBOL);
            assert(symbols[i] == blank);
        }
        assert(transition_matches(t, symbols, blank));
    }
}

/// A single wildcard read position matches exactly the tape positions
/// holding the configured blank symbol.
pub proof fn lemma_wildcard_position(sym: char, blank: char)
    ensures
        (resolve_symbol(INPUT_BLANK_SYMBOL, blank) == sym) <==> (sym == blank),
{
}

/// Applying a transition while moving left from offset 0 inserts one blank
/// cell at position 0 and keeps the head at 0; moving right from the last
/// cell appends one blank cell and the head advances onto it.
pub proof fn lemma_tape_growth(tape: Seq<char>, head: int, write: char, blank: char)
    requires
        0 <= head < tape.len(),
    ensures
        head == 0 ==> ({
            let (t1, h1) = applied_action(tape, head, write, Direction::Left, blank);
            t1 == seq![blank] + tape.update(0, resolve_symbol(write, blank)) && h1 == 0
        }),
        head == tape.len() - 1 ==> ({
            let (t2, h2) = applied_action(tape, head, write, Direction::Right, blank);
            &&& t2 == tape.update(head, resolve_symbol(write, blank)).push(blank)
            &&& h2 == head + 1
            &&& h2 == t2.len() - 1
        }),
{
    assert(padded_tape(tape, head, blank) == tape);
}

/// With the same rules, blank symbol and configuration, and no matching
/// transition in a state that has transitions, normal mode halts normally
/// while strict mode reports the undefined transition, carrying the very
/// state and symbols; the tapes end up identical either way.
pub proof fn lemma_mode_semantics(p1: Program, p2: Program, c: ConfigV)
    requires
        p1.mode == Mode::Normal,
        p2.mode == Mode::Strict,
        p1.rules@ == p2.rules@,
        p1.blank == p2.blank,
        match rules_get(p1.rules@, c.state) {
            Option::Some(ts) => ts.len() > 0 && first_matching(
                ts,
                symbols_of(c.tapes, c.heads, p1.blank),
                p1.blank,
            ) is None,
            Option::None => false,
        },
    ensures
        ({
            let (c1n, sn) = step_config(p1, c);
            let (c1s, ss) = step_config(p2, c);
            &&& sn == StepV::Halt(HaltV::Normal)
            &&& ss == StepV::Halt(
                HaltV::Error(
                    TuringMachineErrorV::UndefinedTransition(
                        c.state,
                        symbols_of(c.tapes, c.heads, p1.blank),
                    ),
                ),
            )
            &&& c1n == c1s
        }),
{
}

/// Two sorted, duplicate-free lists with the same members are the same
/// list.
pub proof fn lemma_sorted_unique_canonical(v1: Seq<Seq<char>>, v2: Seq<Seq<char>>)
    requires
        sorted_unique(v1),
        sorted_unique(v2),
        forall|x: Seq<char>| #[trigger] seq_has(v1, x) <==> seq_has(v2, x),
    ensures
        v1 == v2,
    decreases v1.len(),
{
    if v1.len() == 0 {
        if v2.len() > 0 {
            assert(seq_has(v2, v2[0]));
            assert(seq_has(v1, v2[0]));
        }
        assert(v1 =~= v2);
    } else {
        assert(seq_has(v1, v1[0]));
        assert(seq_has(v2, v1[0]));
        let k2 = choose|k: int| 0 <= k < v2.len() && v2[k] == v1[0];
        assert(seq_has(v2, v2[0]));
        assert(seq_has(v1, v2[0]));
        let k1 = choose|k: int| 0 <= k < v1.len() && v1[k] == v2[0];
        // the heads are mutual members, so they are equal
        assert(v1[0] == v2[0]) by {
            if k2 > 0 {
                assert(chars_le(v2[0], v2[k2]) && v2[0] != v2[k2]);
                if k1 > 0 {
                    assert(chars_le(v1[0], v1[k1]) && v1[0] != v1[k1]);
                    lemma_chars_le_antisym(v1[0], v2[0]);
                } else {
                    assert(v1[0] == v2[0]);
                }
            }
        }
        let t1 = v1.drop_first();
        let t2 = v2.drop_first();
        assert(sorted_unique(t1)) by {
            assert forall|i: int, j: int|
                0 <= i < j < t1.len() implies chars_le(#[trigger] t1[i], #[trigger] t1[j])
                && t1[i] != t1[j] by {
                assert(t1[i] == v1[i + 1]);
                assert(t1[j] == v1[j + 1]);
                assert(chars_le(v1[i + 1], v1[j + 1]) && v1[i + 1] != v1[j + 1]);
            }
        }
        assert(sorted_unique(t2)) by {
            assert forall|i: int, j: int|
                0 <= i < j < t2.len() implies chars_le(#[trigger] t2[i], #[trigger] t2[j])
                && t2[i] != t2[j] by {
                assert(t2[i] == v2[i + 1]);
                assert(t2[j] == v2[j + 1]);
                assert(chars_le(v2[i + 1], v2[j + 1]) && v2[i + 1] != v2[j + 1]);
            }
        }
        assert forall|x: Seq<char>| #[trigger] seq_has(t1, x) <==> seq_has(t2, x) by {
            if seq_has(t1, x) {
                let k = choose|k: int| 0 <= k < t1.len() && t1[k] == x;
                assert(v1[k + 1] == x);
                assert(seq_has(v1, x));
                assert(seq_has(v2, x));
                let m = choose|m: int| 0 <= m < v2.len() && v2[m] == x;
                assert(x != v1[0]) by {
                    assert(chars_le(v1[0], v1[k + 1]) && v1[0] != v1[k + 1]);
                }
                assert(m > 0) by {
                    if m == 0 {
                        assert(v2[0] == x);
                    }
                }
                assert(t2[m - 1] == x);
            }
            if seq_has(t2, x) {
                let k = choose|k: int| 0 <= k < t2.len() && t2[k] == x;
                assert(v2[k + 1] == x);
                assert(seq_has(v2, x));
                assert(seq_has(v1, x));
                let m = choose|m: int| 0 <= m < v1.len() && v1[m] == x;
                assert(x != v2[0]) by {
                    assert(chars_le(v2[0], v2[k + 1]) && v2[0] != v2[k + 1]);
                }
                assert(m > 0) by {
                    if m == 0 {
                        assert(v1[0] == x);
                    }
                }
                assert(t1[m - 1] == x);
            }
        }
        lemma_sorted_unique_canonical(t1, t2);
        assert forall|i: int| 0 <= i < v1.len() implies v1[i] == v2[i] by {
            if i > 0 {
                assert(v1[i] == t1[i - 1]);
                assert(v2[i] == t2[i - 1]);
            }
        }
        assert(v1 =~= v2);
    }
}

/// Two strictly increasing character lists with the same members are the
/// same list.
pub proof fn lemma_sorted_unique_chars_canonical(v1: Seq<char>, v2: Seq<char>)
    requires
        sorted_unique_chars(v1),
        sorted_unique_chars(v2),
        forall|x: char| #[trigger] seq_has(v1, x) <==> seq_has(v2, x),
    ensures
        v1 == v2,
    decreases v1.len(),
{
    if v1.len() == 0 {
        if v2.len() > 0 {
            assert(seq_has(v2, v2[0]));
            assert(seq_has(v1, v2[0]));
        }
        assert(v1 =~= v2);
    } else {
        assert(seq_has(v1, v1[0]));
        assert(seq_has(v2, v1[0]));
        let k2 = choose|k: int| 0 <= k < v2.len() && v2[k] == v1[0];
        assert(seq_has(v2, v2[0]));
        assert(seq_has(v1, v2[0]));
        let k1 = choose|k: int| 0 <= k < v1.len() && v1[k] == v2[0];
        assert(v1[0] == v2[0]) by {
            if k2 > 0 && k1 > 0 {
                assert(v2[0] < v2[k2]);
                assert(v1[0] < v1[k1]);
            }
        }
        let t1 = v1.drop_first();
        let t2 = v2.drop_first();
        assert forall|x: char| #[trigger] seq_has(t1, x) <==> seq_has(t2, x) by {
            if seq_has(t1, x) {
                let k = choose|k: int| 0 <= k < t1.len() && t1[k] == x;
                assert(v1[k + 1] == x);
                assert(seq_has(v1, x));
                assert(seq_has(v2, x));
                let m = choose|m: int| 0 <= m < v2.len() && v2[m] == x;
                assert(x != v1[0]) by {
                    assert(v1[0] < v1[k + 1]);
                }
                assert(m > 0);
                assert(t2[m - 1] == x);
            }
            if seq_has(t2, x) {
                let k = choose|k: int| 0 <= k < t2.len() && t2[k] == x;
                assert(v2[k + 1] == x);
                assert(seq_has(v2, x));
                assert(seq_has(v1, x));
                let m = choose|m: int| 0 <= m < v1.len() && v1[m] == x;
                assert(x != v2[0]) by {
                    assert(v2[0] < v2[k + 1]);
                }
                assert(m > 0);
                assert(t1[m - 1] == x);
            }
        }
        assert forall|i: int, j: int| 0 <= i < j < t1.len() implies (#[trigger] t1[i]) < (
        #[trigger] t1[j]) by {
            assert(v1[i + 1] < v1[j + 1]);
        }
        assert forall|i: int, j: int| 0 <= i < j < t2.len() implies (#[trigger] t2[i]) < (
        #[trigger] t2[j]) by {
            assert(v2[i + 1] < v2[j + 1]);
        }
        lemma_sorted_unique_chars_canonical(t1, t2);
        assert forall|i: int| 0 <= i < v1.len() implies v1[i] == v2[i] by {
            if i > 0 {
                assert(v1[i] == t1[i - 1]);
                assert(v2[i] == t2[i - 1]);
            }
        }
        assert(v1 =~= v2);
    }
}

/// The analyzer is deterministic, hence idempotent: any two errors that
/// satisfy the analyzer's contract for the same program are the same
/// error, so two runs of `analyze` return the same verdict and, on
/// failure, the same message.
pub proof fn lemma_analyze_idempotent(p: Program, e1: AnalysisErrorV, e2: AnalysisErrorV)
    requires
        first_analysis_error(p, e1),
        first_analysis_error(p, e2),
    ensures
        e1 == e2,
        validation_message(e1) == validation_message(e2),
{
    if !structure_pass(p) {
        if p.tapes@.len() > 0 && p.heads@.len() == p.tapes@.len() {
            let i1 = choose|i: int|
                {
                    &&& 0 <= i < p.rules@.len()
                    &&& !crate::analyzer::entry_arity_ok(
                        #[trigger] p.rules@[i],
                        p.tapes@.len() as int,
                    )
                    &&& forall|j: int|
                        0 <= j < i ==> crate::analyzer::entry_arity_ok(
                            #[trigger] p.rules@[j],
                            p.tapes@.len() as int,
                        )
                    &&& e1 == AnalysisErrorV::StructuralError(
                        crate::analyzer::arity_message(p.rules@[i].0),
                    )
                };
            let i2 = choose|i: int|
                {
                    &&& 0 <= i < p.rules@.len()
                    &&& !crate::analyzer::entry_arity_ok(
                        #[trigger] p.rules@[i],
                        p.tapes@.len() as int,
                    )
                    &&& forall|j: int|
                        0 <= j < i ==> crate::analyzer::entry_arity_ok(
                            #[trigger] p.rules@[j],
                            p.tapes@.len() as int,
                        )
                    &&& e2 == AnalysisErrorV::StructuralError(
                        crate::analyzer::arity_message(p.rules@[i].0),
                    )
                };
            assert(i1 == i2);
        }
    } else if !heads_pass(p) {
        let i1 = choose|i: int|
            {
                &&& 0 <= i < p.heads@.len()
                &&& i < p.tapes@.len()
                &&& (#[trigger] p.heads@[i]) >= p.tapes@[i]@.len()
                &&& p.tapes@[i]@.len() > 0
                &&& forall|j: int|
                    0 <= j < i ==> !((#[trigger] p.heads@[j]) >= p.tapes@[j]@.len()
                        && p.tapes@[j]@.len() > 0)
                &&& e1 == AnalysisErrorV::InvalidHead(p.heads@[i] as int)
            };
        let i2 = choose|i: int|
            {
                &&& 0 <= i < p.heads@.len()
                &&& i < p.tapes@.len()
                &&& (#[trigger] p.heads@[i]) >= p.tapes@[i]@.len()
                &&& p.tapes@[i]@.len() > 0
                &&& forall|j: int|
                    0 <= j < i ==> !((#[trigger] p.heads@[j]) >= p.tapes@[j]@.len()
                        && p.tapes@[j]@.len() > 0)
                &&& e2 == AnalysisErrorV::InvalidHead(p.heads@[i] as int)
            };
        assert(i1 == i2);
    } else if !start_state_pass(p) {
    } else if !reachability_pass(p) {
        let v1 = e1->UnreachableStates_0;
        let v2 = e2->UnreachableStates_0;
        assert forall|x: Seq<char>| #[trigger] seq_has(v1, x) <==> seq_has(v2, x) by {}
        lemma_sorted_unique_canonical(v1, v2);
    } else if !symbols_pass(p) {
        let v1 = e1->InvalidTapeSymbols_0;
        let v2 = e2->InvalidTapeSymbols_0;
        assert forall|x: char| #[trigger] seq_has(v1, x) <==> seq_has(v2, x) by {}
        lemma_sorted_unique_chars_canonical(v1, v2);
    }
}

/// A reset machine is indistinguishable from a machine freshly built from
/// the same program: after any number of steps, a reset restores the
/// state, tapes, heads and step count exactly to their construction-time
/// values.
pub proof fn lemma_reset_restores(reset_m: TuringMachine, fresh_m: TuringMachine, p: Program)
    requires
        reset_m.state@ == p.initial_state@,
        reset_m.tapes_view() == program_tapes_view(p),
        reset_m.heads@ == p.heads@,
        reset_m.step_count == 0,
        fresh_m.state@ == p.initial_state@,
        fresh_m.tapes_view() == program_tapes_view(p),
        fresh_m.heads@ == p.heads@,
        fresh_m.step_count == 0,
    ensures
        reset_m.config() == fresh_m.config(),
{
    assert(reset_m.heads_view() =~= fresh_m.heads_view());
    assert(reset_m.config() =~~= fresh_m.config());
}

} // verus!
