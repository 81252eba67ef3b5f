//! The execution engine: a stepwise, bounded interpreter for a program,
//! owning the mutable tapes, head offsets, current state and step counter,
//! and reading the immutable program for rule lookup and reset.

use vstd::prelude::*;

use vstd::string::StringExecFns;

use crate::strutil::{chars_to_string, dec_digits, str_to_chars, usize_to_string};
use crate::types::{
    first_matching, program_tapes_view, rules_arity_ok, rules_get, symbols_of, Direction, Halt,
    HaltV, Mode, Program, Step, StepV, Transition, TransitionV, TuringMachineError,
    TuringMachineErrorV, INPUT_BLANK_SYMBOL, MAX_EXECUTION_STEPS,
};

verus! {

/// A multi-tape machine in execution: the current state, tape contents,
/// head offsets and step count, plus the immutable program they came from.
pub struct TuringMachine {
    /// The current state name.
    pub state: String,
    /// The current content of each tape.
    pub tapes: Vec<Vec<char>>,
    /// The current head offset of each tape.
    pub heads: Vec<usize>,
    /// The blank symbol, copied from the program.
    pub blank: char,
    /// The program being executed; never mutated.
    pub program: Program,
    /// How many steps have been executed since construction or reset.
    pub step_count: usize,
}

/// The mutable part of a machine as a mathematical value.
#[verifier::ext_equal]
pub ghost struct ConfigV {
    pub state: Seq<char>,
    pub tapes: Seq<Seq<char>>,
    pub heads: Seq<int>,
    pub step_count: int,
}

/// The tape `tape` grown with blanks until offset `head` is in range.
pub open spec fn padded_tape(tape: Seq<char>, head: int, blank: char) -> Seq<char> {
    if head < tape.len() {
        tape
    } else {
        tape + Seq::new((head + 1 - tape.len()) as nat, |i: int| blank)
    }
}

/// All tapes grown on demand so that every head offset is in range.
pub open spec fn padded_tapes(tapes: Seq<Seq<char>>, heads: Seq<int>, blank: char) -> Seq<
    Seq<char>,
> {
    Seq::new(tapes.len(), |i: int| padded_tape(tapes[i], heads[i], blank))
}

/// The tape and head after moving in direction `dir`: moving left at offset
/// 0 grows the tape by one blank cell on the left and keeps the head at 0;
/// moving right past the last cell appends one blank cell and the head
/// advances onto it.
pub open spec fn moved_head(tape: Seq<char>, head: int, dir: Direction, blank: char) -> (
    Seq<char>,
    int,
) {
    match dir {
        Direction::Left => if head == 0 {
            (seq![blank] + tape, 0)
        } else {
            (tape, head - 1)
        },
        Direction::Right => if head + 1 >= tape.len() {
            (tape.push(blank), head + 1)
        } else {
            (tape, head + 1)
        },
        Direction::Stay => (tape, head),
    }
}

/// One tape's part of applying a transition: grow on demand, write the
/// resolved symbol under the head, then move the head.
pub open spec fn applied_action(
    tape: Seq<char>,
    head: int,
    write: char,
    dir: Direction,
    blank: char,
) -> (Seq<char>, int) {
    moved_head(
        padded_tape(tape, head, blank).update(head, crate::types::resolve_symbol(write, blank)),
        head,
        dir,
        blank,
    )
}

impl TuringMachine {
    /// The current tape contents as character sequences.
    pub open spec fn tapes_view(self) -> Seq<Seq<char>> {
        self.tapes.deep_view()
    }

    /// The current head offsets as mathematical integers.
    pub open spec fn heads_view(self) -> Seq<int> {
        Seq::new(self.heads@.len(), |i: int| self.heads@[i] as int)
    }

    /// The mutable part of the machine as a mathematical value.
    pub open spec fn config(self) -> ConfigV {
        ConfigV {
            state: self.state@,
            tapes: self.tapes_view(),
            heads: self.heads_view(),
            step_count: self.step_count as int,
        }
    }

    /// The machine's well-formedness: one head per tape, the program
    /// structurally consistent with the tape count, and the blank symbol
    /// agreeing with the program.
    pub open spec fn wf(self) -> bool {
        &&& self.heads@.len() == self.tapes@.len()
        &&& self.program.heads@.len() == self.tapes@.len()
        &&& self.program.tapes@.len() == self.tapes@.len()
        &&& rules_arity_ok(self.program.rules@, self.tapes@.len() as int)
        &&& crate::types::rules_wf(self.program.rules@)
        &&& self.blank == self.program.blank
    }

    /// The symbol currently under each head; blank when a head is out of
    /// range.
    pub open spec fn spec_symbols(self) -> Seq<char> {
        symbols_of(self.tapes_view(), self.heads_view(), self.blank)
    }

    /// Whether the machine is halted: its current state has no entry in the
    /// rules, or an empty transition list.
    pub open spec fn spec_halted(self) -> bool {
        match rules_get(self.program.rules@, self.state@) {
            Option::None => true,
            Option::Some(ts) => ts.len() == 0,
        }
    }

    /// The transition the machine would fire now: the first transition of
    /// the current state, in declaration order, whose read symbols match the
    /// symbols under the heads.
    pub open spec fn spec_transition(self) -> Option<TransitionV> {
        match rules_get(self.program.rules@, self.state@) {
            Option::None => None,
            Option::Some(ts) => first_matching(ts, self.spec_symbols(), self.blank),
        }
    }
}

/// The configuration and outcome after one step of `p` from `c`:
/// - a halted configuration is returned unchanged with a normal halt;
/// - otherwise every tape is grown so its head is in range; then, if no
///   transition of the current state matches, the machine halts — normally
///   in `Mode::Normal`, with an `UndefinedTransition` error carrying the
///   state and the symbols under the heads in `Mode::Strict`;
/// - otherwise the first matching transition is applied to every tape
///   simultaneously, the state advances and the step count grows by one.
pub open spec fn step_config(p: Program, c: ConfigV) -> (ConfigV, StepV) {
    let blank = p.blank;
    let symbols = symbols_of(c.tapes, c.heads, blank);
    let halted = match rules_get(p.rules@, c.state) {
        Option::None => true,
        Option::Some(ts) => ts.len() == 0,
    };
    if halted {
        (c, StepV::Halt(HaltV::Normal))
    } else {
        let ts = rules_get(p.rules@, c.state)->Some_0;
        let padded = padded_tapes(c.tapes, c.heads, blank);
        match first_matching(ts, symbols, blank) {
            Option::None => {
                let c1 = ConfigV { tapes: padded, ..c };
                match p.mode {
                    Mode::Normal => (c1, StepV::Halt(HaltV::Normal)),
                    Mode::Strict => (
                        c1,
                        StepV::Halt(
                            HaltV::Error(TuringMachineErrorV::UndefinedTransition(c.state, symbols)),
                        ),
                    ),
                }
            },
            Option::Some(t) => {
                let c1 = ConfigV {
                    state: t.next_state,
                    tapes: Seq::new(
                        c.tapes.len(),
                        |i: int| applied_action(c.tapes[i], c.heads[i], t.write[i], t.directions[i], blank).0,
                    ),
                    heads: Seq::new(
                        c.tapes.len(),
                        |i: int| applied_action(c.tapes[i], c.heads[i], t.write[i], t.directions[i], blank).1,
                    ),
                    step_count: c.step_count + 1,
                };
                (c1, StepV::Continue)
            },
        }
    }
}

/// The configuration and outcome of running `p` from `c` for at most `fuel`
/// steps: stepping repeats until a halt, or until the fuel is exhausted, in
/// which case the run reports a normal halt as a safety bound.
pub open spec fn run_config(p: Program, c: ConfigV, fuel: nat) -> (ConfigV, StepV)
    decreases fuel,
{
    if fuel == 0 {
        (c, StepV::Halt(HaltV::Normal))
    } else {
        let (c1, s) = step_config(p, c);
        if s == StepV::Continue {
            run_config(p, c1, (fuel - 1) as nat)
        } else {
            (c1, s)
        }
    }
}

/// Reading a padded tape at any position sees the same symbol as reading
/// the unpadded tape: grown cells hold the blank, which is also what an
/// out-of-range read yields.
pub proof fn lemma_padded_read(tape: Seq<char>, head: int, pos: int, blank: char)
    requires
        0 <= head,
        0 <= pos,
    ensures
        crate::types::read_symbol(padded_tape(tape, head, blank), pos, blank)
            == crate::types::read_symbol(tape, pos, blank),
{
}

/// Padding leaves the symbols under the heads unchanged.
pub proof fn lemma_padded_symbols(tapes: Seq<Seq<char>>, heads: Seq<int>, blank: char)
    requires
        tapes.len() == heads.len(),
        forall|i: int| 0 <= i < heads.len() ==> heads[i] >= 0,
    ensures
        symbols_of(padded_tapes(tapes, heads, blank), heads, blank) == symbols_of(
            tapes,
            heads,
            blank,
        ),
{
    let lhs = symbols_of(padded_tapes(tapes, heads, blank), heads, blank);
    let rhs = symbols_of(tapes, heads, blank);
    assert forall|i: int| 0 <= i < heads.len() implies lhs[i] == rhs[i] by {
        lemma_padded_read(tapes[i], heads[i], heads[i], blank);
    }
    assert(lhs =~= rhs);
}

/// A copy of a head-offset vector.
fn copy_heads(v: &Vec<usize>) -> (r: Vec<usize>)
    ensures
        r@ == v@,
{
    let mut r: Vec<usize> = Vec::new();
    let mut i: usize = 0;
    while i < v.len()
        invariant
            i <= v@.len(),
            r@ == v@.subrange(0, i as int),
        decreases v@.len() - i,
    {
        r.push(v[i]);
        proof {
            assert(r@ =~= v@.subrange(0, i + 1));
        }
        i = i + 1;
    }
    proof {
        assert(r@ =~= v@);
    }
    r
}

impl TuringMachine {
    /// A fresh machine initialized from `program`: its initial state, tape
    /// contents, head offsets and blank symbol, with a zero step count.
    pub fn new(program: Program) -> (r: Self)
        requires
            program.structure_ok(),
        ensures
            r.wf(),
            r.state@ == program.initial_state@,
            r.tapes_view() == program_tapes_view(program),
            r.heads@ == program.heads@,
            r.blank == program.blank,
            r.step_count == 0,
            r.program == program,
    {
        let state = program.initial_state.clone();
        let tapes = program.tapes();
        let heads = copy_heads(&program.heads);
        let blank = program.blank;
        let r = TuringMachine { state, tapes, heads, blank, program, step_count: 0 };
        proof {
            assert(r.tapes.deep_view().len() == r.program.tapes@.len());
        }
        r
    }

    /// The current state name.
    pub fn state(&self) -> (r: &str)
        ensures
            r@ == self.state@,
    {
        self.state.as_str()
    }

    /// The initial state of the underlying program.
    pub fn initial_state(&self) -> (r: &str)
        ensures
            r@ == self.program.initial_state@,
    {
        self.program.initial_state.as_str()
    }

    /// The number of steps executed since construction or the last reset.
    pub fn step_count(&self) -> (r: usize)
        ensures
            r == self.step_count,
    {
        self.step_count
    }

    /// The blank symbol of this machine.
    pub fn blank(&self) -> (r: char)
        ensures
            r == self.blank,
    {
        self.blank
    }

    /// The current tape contents.
    pub fn tapes(&self) -> (r: &Vec<Vec<char>>)
        ensures
            r.deep_view() == self.tapes_view(),
    {
        &self.tapes
    }

    /// The current head offsets.
    pub fn heads(&self) -> (r: &Vec<usize>)
        ensures
            r@ == self.heads@,
    {
        &self.heads
    }

    /// Whether the machine is halted: no transitions are defined for its
    /// current state.
    pub fn is_halted(&self) -> (r: bool)
        ensures
            r == self.spec_halted(),
    {
        match self.program.rules.get(self.state.as_str()) {
            Option::None => true,
            Option::Some(ts) => ts.len() == 0,
        }
    }

    /// The symbol under each head, blank where a head is out of range.
    pub fn symbols(&self) -> (r: Vec<char>)
        requires
            self.wf(),
        ensures
            r@ == self.spec_symbols(),
    {
        let mut r: Vec<char> = Vec::new();
        let mut i: usize = 0;
        while i < self.heads.len()
            invariant
                self.wf(),
                i <= self.heads@.len(),
                r@ == self.spec_symbols().subrange(0, i as int),
            decreases self.heads@.len() - i,
        {
            let pos = self.heads[i];
            let c = if pos < self.tapes[i].len() {
                self.tapes[i][pos]
            } else {
                self.blank
            };
            r.push(c);
            proof {
                assert(c == self.spec_symbols()[i as int]);
                assert(r@ =~= self.spec_symbols().subrange(0, i + 1));
            }
            i = i + 1;
        }
        proof {
            assert(r@ =~= self.spec_symbols());
        }
        r
    }

    /// Restores the machine to the program's initial configuration and
    /// zeroes the step count.
    pub fn reset(&mut self)
        requires
            old(self).wf(),
        ensures
            final(self).wf(),
            final(self).program == old(self).program,
            final(self).blank == old(self).blank,
            final(self).state@ == old(self).program.initial_state@,
            final(self).tapes_view() == program_tapes_view(old(self).program),
            final(self).heads@ == old(self).program.heads@,
            final(self).step_count == 0,
    {
        self.state = self.program.initial_state.clone();
        self.tapes = self.program.tapes();
        self.heads = copy_heads(&self.program.heads);
        self.step_count = 0;
        proof {
            assert(self.tapes.deep_view().len() == self.program.tapes@.len());
        }
    }
}

/// The content of each tape rendered as a string.
pub fn format_tapes(tapes: &Vec<Vec<char>>) -> (r: Vec<String>)
    ensures
        r.deep_view() == tapes.deep_view(),
{
    let mut r: Vec<String> = Vec::new();
    let mut i: usize = 0;
    while i < tapes.len()
        invariant
            i <= tapes@.len(),
            r.deep_view() == tapes.deep_view().subrange(0, i as int),
        decreases tapes@.len() - i,
    {
        let ghost prev = r.deep_view();
        r.push(chars_to_string(&tapes[i]));
        proof {
            assert(prev.len() == i as nat);
            assert(r@.len() == i + 1);
            assert(r.deep_view().len() == i + 1);
            assert forall|j: int| 0 <= j < i + 1 implies r.deep_view()[j] == tapes.deep_view()[j] by {
                if j < i {
                    assert(r.deep_view()[j] == prev[j]);
                }
            }
            assert(r.deep_view() =~~= tapes.deep_view().subrange(0, i + 1));
        }
        i = i + 1;
    }
    proof {
        assert(r.deep_view() =~~= tapes.deep_view());
    }
    r
}

/// A copy of a direction vector.
fn copy_directions(v: &Vec<Direction>) -> (r: Vec<Direction>)
    ensures
        r@ == v@,
{
    let mut r: Vec<Direction> = Vec::new();
    let mut i: usize = 0;
    while i < v.len()
        invariant
            i <= v@.len(),
            r@ == v@.subrange(0, i as int),
        decreases v@.len() - i,
    {
        r.push(v[i]);
        proof {
            assert(r@ =~= v@.subrange(0, i + 1));
        }
        i = i + 1;
    }
    proof {
        assert(r@ =~= v@);
    }
    r
}

/// A copy of a transition.
fn copy_transition(t: &Transition) -> (r: Transition)
    ensures
        r@ == t@,
{
    Transition {
        read: crate::strutil::copy_chars(&t.read),
        write: crate::strutil::copy_chars(&t.write),
        directions: copy_directions(&t.directions),
        next_state: t.next_state.clone(),
    }
}

/// Whether transition `t` fires on the given symbols: lengths agree and
/// every read position, with the wildcard resolved to the blank symbol,
/// equals the symbol under the corresponding head.
pub fn transition_fires(t: &Transition, symbols: &Vec<char>, blank: char) -> (r: bool)
    ensures
        r == crate::types::transition_matches(t@, symbols@, blank),
{
    if t.read.len() != symbols.len() {
        return false;
    }
    let mut i: usize = 0;
    while i < symbols.len()
        invariant
            i <= symbols@.len(),
            t.read@.len() == symbols@.len(),
            forall|j: int|
                0 <= j < i ==> crate::types::resolve_symbol(#[trigger] t.read@[j], blank)
                    == symbols@[j],
        decreases symbols@.len() - i,
    {
        let expected = if t.read[i] == INPUT_BLANK_SYMBOL {
            blank
        } else {
            t.read[i]
        };
        if symbols[i] != expected {
            return false;
        }
        i = i + 1;
    }
    true
}

/// Skipping a non-matching transition leaves the first match unchanged.
pub proof fn lemma_first_matching_skip(
    ts: Seq<TransitionV>,
    symbols: Seq<char>,
    blank: char,
    i: int,
)
    requires
        0 <= i < ts.len(),
        first_matching(ts, symbols, blank) == first_matching(ts.skip(i), symbols, blank),
        !crate::types::transition_matches(ts[i], symbols, blank),
    ensures
        first_matching(ts, symbols, blank) == first_matching(ts.skip(i + 1), symbols, blank),
{
    assert(ts.skip(i).drop_first() =~= ts.skip(i + 1));
}

/// The first match in a list whose head matches is that head; an empty list
/// has no match.
pub proof fn lemma_first_matching_head(ts: Seq<TransitionV>, symbols: Seq<char>, blank: char)
    ensures
        ts.len() == 0 ==> first_matching(ts, symbols, blank) is None,
        ts.len() > 0 && crate::types::transition_matches(ts[0], symbols, blank)
            ==> first_matching(ts, symbols, blank) == Some(ts[0]),
{
}

/// A first match is an element of the list and fires on the symbols.
pub proof fn lemma_first_matching_found(ts: Seq<TransitionV>, symbols: Seq<char>, blank: char)
    requires
        first_matching(ts, symbols, blank) is Some,
    ensures
        exists|i: int|
            0 <= i < ts.len() && ts[i] == first_matching(ts, symbols, blank)->Some_0,
        crate::types::transition_matches(
            first_matching(ts, symbols, blank)->Some_0,
            symbols,
            blank,
        ),
    decreases ts.len(),
{
    if ts.len() > 0 {
        if crate::types::transition_matches(ts[0], symbols, blank) {
            assert(ts[0] == first_matching(ts, symbols, blank)->Some_0);
        } else {
            lemma_first_matching_found(ts.drop_first(), symbols, blank);
            let j = choose|j: int|
                0 <= j < ts.drop_first().len() && ts.drop_first()[j] == first_matching(
                    ts.drop_first(),
                    symbols,
                    blank,
                )->Some_0;
            assert(ts[j + 1] == first_matching(ts, symbols, blank)->Some_0);
        }
    }
}

/// A rule lookup that succeeds returns the transition list of an entry of
/// the mapping.
pub proof fn lemma_rules_get_is_entry(m: crate::types::RulesV, k: Seq<char>)
    requires
        rules_get(m, k) is Some,
    ensures
        exists|i: int|
            0 <= i < m.len() && m[i].0 == k && m[i].1 == rules_get(m, k)->Some_0,
    decreases m.len(),
{
    if m.len() > 0 {
        if m[0].0 == k {
            assert(m[0].0 == k && m[0].1 == rules_get(m, k)->Some_0);
        } else {
            lemma_rules_get_is_entry(m.drop_first(), k);
            let j = choose|j: int|
                0 <= j < m.drop_first().len() && m.drop_first()[j].0 == k && m.drop_first()[j].1
                    == rules_get(m.drop_first(), k)->Some_0;
            assert(m[j + 1].0 == k && m[j + 1].1 == rules_get(m, k)->Some_0);
        }
    }
}

impl TuringMachine {
    /// The transition the machine would fire in its current configuration:
    /// the first transition of the current state, in declaration order,
    /// whose read symbols match the symbols under the heads.
    pub fn transition(&self) -> (r: Option<&Transition>)
        requires
            self.wf(),
        ensures
            match r {
                Some(t) => self.spec_transition() == Some(t@),
                None => self.spec_transition() is None,
            },
    {
        match self.program.rules.get(self.state.as_str()) {
            Option::None => None,
            Option::Some(ts) => {
                let symbols = self.symbols();
                let ghost tsv = ts.deep_view();
                let mut j: usize = 0;
                proof {
                    assert(tsv.skip(0) =~= tsv);
                }
                while j < ts.len()
                    invariant
                        self.wf(),
                        j <= ts@.len(),
                        ts@.len() == tsv.len(),
                        tsv == ts.deep_view(),
                        symbols@ == self.spec_symbols(),
                        rules_get(self.program.rules@, self.state@) == Some(tsv),
                        first_matching(tsv, symbols@, self.blank) == first_matching(
                            tsv.skip(j as int),
                            symbols@,
                            self.blank,
                        ),
                    decreases ts@.len() - j,
                {
                    if transition_fires(&ts[j], &symbols, self.blank) {
                        proof {
                            assert(tsv.skip(j as int)[0] == tsv[j as int]);
                            lemma_first_matching_head(tsv.skip(j as int), symbols@, self.blank);
                        }
                        return Some(&ts[j]);
                    }
                    proof {
                        assert(tsv.skip(j as int)[0] == tsv[j as int]);
                        lemma_first_matching_skip(tsv, symbols@, self.blank, j as int);
                    }
                    j = j + 1;
                }
                proof {
                    lemma_first_matching_head(tsv.skip(j as int), symbols@, self.blank);
                }
                None
            },
        }
    }
}


/// The per-tape growth of one step: the larger of "one past the head" and
/// the tape length can grow by at most one cell.
pub open spec fn extent(c: ConfigV, i: int) -> int {
    if c.heads[i] + 1 >= c.tapes[i].len() {
        c.heads[i] + 1
    } else {
        c.tapes[i].len() as int
    }
}

impl TuringMachine {
    /// Executes a single step: grows tapes on demand, fires the first
    /// matching transition of the current state — writing, moving every
    /// head, advancing the state, and counting the step — or halts as the
    /// mode prescribes when no transition is defined or none matches.
    #[verifier::loop_isolation(false)]
    pub fn step(&mut self) -> (r: Step)
        requires
            old(self).wf(),
            old(self).step_count < usize::MAX,
            forall|i: int|
                0 <= i < old(self).heads@.len() ==> old(self).heads@[i] < usize::MAX - 1,
        ensures
            final(self).wf(),
            final(self).program == old(self).program,
            final(self).blank == old(self).blank,
            (final(self).config(), r@) == step_config(old(self).program, old(self).config()),
    {
        let ghost c0 = old(self).config();
        let ghost p = old(self).program;
        if self.is_halted() {
            return Step::Halt(Halt::Normal);
        }
        proof {
            lemma_padded_symbols(c0.tapes, c0.heads, old(self).blank);
        }

        // Grow every tape so that its head offset is in range.
        let blank = self.blank;
        let n = self.tapes.len();
        let mut grown: Vec<Vec<char>> = Vec::new();
        let mut i: usize = 0;
        while i < n
            invariant
                i <= n,
                grown.deep_view() == padded_tapes(c0.tapes, c0.heads, blank).subrange(
                    0,
                    i as int,
                ),
            decreases n - i,
        {
            proof {
                assert(c0.heads[i as int] == self.heads@[i as int] as int);
                assert(c0.tapes[i as int] == self.tapes@[i as int]@);
            }
            let h = self.heads[i];
            let mut t = crate::strutil::copy_chars(&self.tapes[i]);
            if h >= t.len() {
                t.resize(h + 1, blank);
            }
            proof {
                assert(t@ =~= padded_tape(c0.tapes[i as int], c0.heads[i as int], blank));
            }
            let ghost prev = grown.deep_view();
            grown.push(t);
            proof {
                assert(prev.len() == i as nat);
                assert(grown@.len() == i + 1);
                assert(grown.deep_view().len() == i + 1);
                assert forall|j: int| 0 <= j < i + 1 implies grown.deep_view()[j] == padded_tapes(
                    c0.tapes,
                    c0.heads,
                    blank,
                )[j] by {
                    if j < i {
                        assert(grown.deep_view()[j] == prev[j]);
                    }
                }
                assert(grown.deep_view() =~~= padded_tapes(c0.tapes, c0.heads, blank).subrange(
                    0,
                    i + 1,
                ));
            }
            i = i + 1;
        }
        self.tapes = grown;
        proof {
            assert(self.tapes_view() =~~= padded_tapes(c0.tapes, c0.heads, blank));
            assert(self.spec_symbols() == symbols_of(c0.tapes, c0.heads, blank));
            assert(self.spec_transition() == old(self).spec_transition());
        }

        // Find the first matching transition, by declaration order.
        let found = match self.transition() {
            Option::Some(t) => Option::Some(copy_transition(t)),
            Option::None => Option::None,
        };
        let tr = match found {
            Option::Some(t) => t,
            Option::None => {
                // No transition matches: halt, as the mode prescribes.
                match self.program.mode {
                    Mode::Normal => {
                        return Step::Halt(Halt::Normal);
                    },
                    Mode::Strict => {
                        let symbols = self.symbols();
                        let state = self.state.clone();
                        return Step::Halt(
                            Halt::Error(TuringMachineError::UndefinedTransition(state, symbols)),
                        );
                    },
                }
            },
        };
        let ghost t = old(self).spec_transition()->Some_0;
        proof {
            lemma_rules_get_is_entry(p.rules@, c0.state);
            lemma_first_matching_found(
                rules_get(p.rules@, c0.state)->Some_0,
                symbols_of(c0.tapes, c0.heads, blank),
                blank,
            );
            assert(t.read.len() == n);
            assert(t.write.len() == n);
            assert(t.directions.len() == n);
        }

        // Apply the matched transition to every tape simultaneously.
        let ghost acted_tapes = Seq::new(
            c0.tapes.len(),
            |j: int| applied_action(c0.tapes[j], c0.heads[j], t.write[j], t.directions[j], blank).0,
        );
        let ghost acted_heads = Seq::new(
            c0.tapes.len(),
            |j: int| applied_action(c0.tapes[j], c0.heads[j], t.write[j], t.directions[j], blank).1,
        );
        let mut new_tapes: Vec<Vec<char>> = Vec::new();
        let mut new_heads: Vec<usize> = Vec::new();
        let mut i: usize = 0;
        while i < n
            invariant
                i <= n,
                tr@ == t,
                new_heads@.len() == i,
                new_tapes.deep_view() == acted_tapes.subrange(0, i as int),
                forall|j: int| 0 <= j < i ==> new_heads@[j] as int == acted_heads[j],
            decreases n - i,
        {
            proof {
                assert(c0.heads[i as int] == self.heads@[i as int] as int);
                assert(self.tapes@[i as int]@ == padded_tapes(c0.tapes, c0.heads, blank)[i as int]);
            }
            let h = self.heads[i];
            let w = tr.write[i];
            let d = tr.directions[i];
            let mut tape = crate::strutil::copy_chars(&self.tapes[i]);
            let mut head: usize = h;
            proof {
                assert(tape@ == padded_tape(c0.tapes[i as int], c0.heads[i as int], blank));
                assert((h as int) < tape@.len());
            }
            let wsym = if w == INPUT_BLANK_SYMBOL {
                blank
            } else {
                w
            };
            tape[h] = wsym;
            match d {
                Direction::Left => {
                    if h == 0 {
                        tape.insert(0, blank);
                        proof {
                            assert(tape@ =~= seq![blank] + padded_tape(
                                c0.tapes[i as int],
                                c0.heads[i as int],
                                blank,
                            ).update(c0.heads[i as int], crate::types::resolve_symbol(
                                t.write[i as int],
                                blank,
                            )));
                        }
                    } else {
                        head = h - 1;
                    }
                },
                Direction::Right => {
                    head = h + 1;
                    if head >= tape.len() {
                        tape.push(blank);
                    }
                },
                Direction::Stay => {},
            }
            proof {
                assert(tape@ == applied_action(
                    c0.tapes[i as int],
                    c0.heads[i as int],
                    t.write[i as int],
                    t.directions[i as int],
                    blank,
                ).0);
                assert(head as int == applied_action(
                    c0.tapes[i as int],
                    c0.heads[i as int],
                    t.write[i as int],
                    t.directions[i as int],
                    blank,
                ).1);
            }
            let ghost prev = new_tapes.deep_view();
            new_tapes.push(tape);
            new_heads.push(head);
            proof {
                assert(prev.len() == i as nat);
                assert(new_tapes@.len() == i + 1);
                assert(new_tapes.deep_view().len() == i + 1);
                assert forall|j: int| 0 <= j < i + 1 implies new_tapes.deep_view()[j]
                    == acted_tapes[j] by {
                    if j < i {
                        assert(new_tapes.deep_view()[j] == prev[j]);
                    }
                }
                assert(new_tapes.deep_view() =~~= acted_tapes.subrange(0, i + 1));
            }
            i = i + 1;
        }
        self.tapes = new_tapes;
        self.heads = new_heads;
        self.state = tr.next_state;
        self.step_count = self.step_count + 1;
        proof {
            let (c1, s1) = step_config(p, c0);
            assert(self.config().tapes =~~= c1.tapes);
            assert(self.config().heads =~~= c1.heads);
            assert(self.config() =~~= c1);
        }
        Step::Continue
    }
}


/// One step changes each tape's extent — the larger of its length and one
/// past its head — by at most one cell, keeps the tape and head counts, and
/// advances the step count exactly when the machine continues.
pub proof fn lemma_step_config_growth(p: Program, c: ConfigV)
    requires
        c.tapes.len() == c.heads.len(),
        forall|i: int| 0 <= i < c.heads.len() ==> c.heads[i] >= 0,
    ensures
        ({
            let (c1, s) = step_config(p, c);
            &&& c1.tapes.len() == c.tapes.len()
            &&& c1.heads.len() == c.heads.len()
            &&& (s == StepV::Continue ==> c1.step_count == c.step_count + 1)
            &&& (s != StepV::Continue ==> c1.step_count == c.step_count)
            &&& forall|i: int|
                0 <= i < c.heads.len() ==> 0 <= #[trigger] c1.heads[i] && extent(c1, i) <= extent(
                    c,
                    i,
                ) + 1
        }),
{
    let (c1, s) = step_config(p, c);
    let blank = p.blank;
    let halted = match rules_get(p.rules@, c.state) {
        Option::None => true,
        Option::Some(ts) => ts.len() == 0,
    };
    if halted {
    } else {
        let ts = rules_get(p.rules@, c.state)->Some_0;
        let symbols = symbols_of(c.tapes, c.heads, blank);
        match first_matching(ts, symbols, blank) {
            Option::None => {
                assert forall|i: int|
                    0 <= i < c.heads.len() implies 0 <= #[trigger] c1.heads[i] && extent(c1, i)
                    <= extent(c, i) + 1 by {
                    assert(c1.tapes[i] == padded_tape(c.tapes[i], c.heads[i], blank));
                }
            },
            Option::Some(t) => {
                assert forall|i: int|
                    0 <= i < c.heads.len() implies 0 <= #[trigger] c1.heads[i] && extent(c1, i)
                    <= extent(c, i) + 1 by {
                    let act = applied_action(c.tapes[i], c.heads[i], t.write[i], t.directions[i], blank);
                    assert(c1.tapes[i] == act.0);
                    assert(c1.heads[i] == act.1);
                    let padded = padded_tape(c.tapes[i], c.heads[i], blank).update(
                        c.heads[i],
                        crate::types::resolve_symbol(t.write[i], blank),
                    );
                    assert(padded.len() == if c.heads[i] + 1 >= c.tapes[i].len() {
                        c.heads[i] + 1
                    } else {
                        c.tapes[i].len() as int
                    });
                }
            },
        }
    }
}

impl TuringMachine {
    /// Runs the machine until it halts, or until the fixed maximum step
    /// budget is exhausted, in which case a normal halt is reported as a
    /// termination safety bound.
    #[verifier::loop_isolation(false)]
    pub fn run(&mut self) -> (r: Step)
        requires
            old(self).wf(),
            old(self).step_count + MAX_EXECUTION_STEPS <= usize::MAX,
            forall|i: int|
                0 <= i < old(self).heads@.len() ==> old(self).heads@[i] <= usize::MAX / 2,
            forall|i: int|
                0 <= i < old(self).tapes@.len() ==> old(self).tapes@[i]@.len() <= usize::MAX / 2,
        ensures
            final(self).wf(),
            final(self).program == old(self).program,
            final(self).blank == old(self).blank,
            (final(self).config(), r@) == run_config(
                old(self).program,
                old(self).config(),
                MAX_EXECUTION_STEPS as nat,
            ),
    {
        let ghost c0 = old(self).config();
        let ghost p = old(self).program;
        let mut k: usize = 0;
        while k < MAX_EXECUTION_STEPS
            invariant
                k <= MAX_EXECUTION_STEPS,
                self.wf(),
                self.program == old(self).program,
                self.blank == old(self).blank,
                self.step_count == old(self).step_count + k,
                forall|i: int|
                    0 <= i < self.heads@.len() ==> extent(self.config(), i) <= extent(c0, i) + k,
                run_config(p, c0, MAX_EXECUTION_STEPS as nat) == run_config(
                    p,
                    self.config(),
                    (MAX_EXECUTION_STEPS - k) as nat,
                ),
            decreases MAX_EXECUTION_STEPS - k,
        {
            proof {
                assert forall|i: int|
                    0 <= i < self.heads@.len() implies self.heads@[i] < usize::MAX - 1 by {
                    assert(extent(self.config(), i) <= extent(c0, i) + k);
                    assert(c0.heads[i] == old(self).heads@[i] as int);
                    assert(c0.tapes[i] == old(self).tapes@[i]@);
                    assert(extent(c0, i) <= usize::MAX / 2 + 1);
                    assert(self.heads@[i] + 1 <= extent(self.config(), i));
                }
            }
            let ghost cpre = self.config();
            let res = self.step();
            proof {
                lemma_step_config_growth(p, cpre);
                assert forall|i: int|
                    0 <= i < self.heads@.len() implies extent(self.config(), i) <= extent(c0, i) + (
                k + 1) by {
                    assert(extent(self.config(), i) <= extent(cpre, i) + 1);
                }
            }
            match res {
                Step::Continue => {},
                _ => {
                    return res;
                },
            }
            k = k + 1;
        }
        Step::Halt(Halt::Normal)
    }
}


/// The content sequence with every wildcard rewritten to the blank symbol.
pub open spec fn resolved_seq(s: Seq<char>, blank: char) -> Seq<char> {
    Seq::new(s.len(), |i: int| crate::types::resolve_symbol(s[i], blank))
}

/// A copy of `v` with every wildcard rewritten to `blank`.
pub fn resolve_chars(v: &Vec<char>, blank: char) -> (r: Vec<char>)
    ensures
        r@ == resolved_seq(v@, blank),
{
    let mut r: Vec<char> = Vec::new();
    let mut i: usize = 0;
    while i < v.len()
        invariant
            i <= v@.len(),
            r@ == resolved_seq(v@, blank).subrange(0, i as int),
        decreases v@.len() - i,
    {
        let c = v[i];
        let rc = if c == INPUT_BLANK_SYMBOL {
            blank
        } else {
            c
        };
        r.push(rc);
        proof {
            assert(r@ =~= resolved_seq(v@, blank).subrange(0, i + 1));
        }
        i = i + 1;
    }
    proof {
        assert(r@ =~= resolved_seq(v@, blank));
    }
    r
}

/// The message reported for a tape index out of range.
pub open spec fn tape_index_message(index: int, count: int) -> Seq<char> {
    "Tape index "@ + dec_digits(index) + " is out of bounds (machine has "@ + dec_digits(count)
        + " tapes)"@
}

/// The message reported when more tape contents are supplied than tapes
/// exist.
pub open spec fn too_many_contents_message(given: int, count: int) -> Seq<char> {
    "Too many tape contents provided: "@ + dec_digits(given) + " contents for "@ + dec_digits(
        count,
    ) + " tapes"@
}

impl TuringMachine {
    /// Overwrites the content of the tape at `tape_index`, rewriting the
    /// wildcard symbol to the machine's blank; an out-of-range index is a
    /// validation error and leaves the machine unchanged.
    pub fn set_tape_content(&mut self, tape_index: usize, content: &str) -> (r: Result<
        (),
        TuringMachineError,
    >)
        requires
            old(self).wf(),
        ensures
            final(self).wf(),
            final(self).program == old(self).program,
            final(self).blank == old(self).blank,
            final(self).state == old(self).state,
            final(self).heads == old(self).heads,
            final(self).step_count == old(self).step_count,
            tape_index < old(self).tapes@.len() ==> {
                &&& r is Ok
                &&& final(self).tapes_view() == old(self).tapes_view().update(
                    tape_index as int,
                    resolved_seq(content@, old(self).blank),
                )
            },
            tape_index >= old(self).tapes@.len() ==> {
                &&& final(self).tapes_view() == old(self).tapes_view()
                &&& r is Err
                &&& (r->Err_0)@ == TuringMachineErrorV::ValidationError(
                    tape_index_message(tape_index as int, old(self).tapes@.len() as int),
                )
            },
    {
        if tape_index >= self.tapes.len() {
            let mut m = "Tape index ".to_owned();
            m.append(usize_to_string(tape_index).as_str());
            m.append(" is out of bounds (machine has ");
            m.append(usize_to_string(self.tapes.len()).as_str());
            m.append(" tapes)");
            proof {
                assert(m@ =~= tape_index_message(
                    tape_index as int,
                    old(self).tapes@.len() as int,
                ));
            }
            return Err(TuringMachineError::ValidationError(m));
        }
        let resolved = resolve_chars(&str_to_chars(content), self.blank);
        let ghost before = self.tapes.deep_view();
        self.tapes[tape_index] = resolved;
        proof {
            assert(self.tapes.deep_view().len() == before.len());
            assert(forall|j: int|
                0 <= j < before.len() && j != tape_index ==> self.tapes_view()[j] == before[j]);
            assert(self.tapes_view() =~~= before.update(
                tape_index as int,
                resolved_seq(content@, old(self).blank),
            ));
        }
        Ok(())
    }

    /// Overwrites the contents of the first tapes with the supplied strings,
    /// one tape per entry; supplying more contents than the machine has
    /// tapes is a validation error and leaves the machine unchanged.
    #[verifier::loop_isolation(false)]
    pub fn set_tapes_content(&mut self, contents: &Vec<String>) -> (r: Result<
        (),
        TuringMachineError,
    >)
        requires
            old(self).wf(),
        ensures
            final(self).wf(),
            final(self).program == old(self).program,
            final(self).blank == old(self).blank,
            final(self).state == old(self).state,
            final(self).heads == old(self).heads,
            final(self).step_count == old(self).step_count,
            contents@.len() <= old(self).tapes@.len() ==> {
                &&& r is Ok
                &&& final(self).tapes_view() == Seq::new(
                    old(self).tapes@.len() as nat,
                    |i: int|
                        if i < contents@.len() {
                            resolved_seq(contents@[i]@, old(self).blank)
                        } else {
                            old(self).tapes_view()[i]
                        },
                )
            },
            contents@.len() > old(self).tapes@.len() ==> {
                &&& final(self).tapes_view() == old(self).tapes_view()
                &&& r is Err
                &&& (r->Err_0)@ == TuringMachineErrorV::ValidationError(
                    too_many_contents_message(
                        contents@.len() as int,
                        old(self).tapes@.len() as int,
                    ),
                )
            },
    {
        if contents.len() > self.tapes.len() {
            let mut m = "Too many tape contents provided: ".to_owned();
            m.append(usize_to_string(contents.len()).as_str());
            m.append(" contents for ");
            m.append(usize_to_string(self.tapes.len()).as_str());
            m.append(" tapes");
            proof {
                assert(m@ =~= too_many_contents_message(
                    contents@.len() as int,
                    old(self).tapes@.len() as int,
                ));
            }
            return Err(TuringMachineError::ValidationError(m));
        }
        let ghost target = Seq::new(
            old(self).tapes@.len() as nat,
            |i: int|
                if i < contents@.len() {
                    resolved_seq(contents@[i]@, old(self).blank)
                } else {
                    old(self).tapes_view()[i]
                },
        );
        let mut i: usize = 0;
        while i < contents.len()
            invariant
                i <= contents@.len(),
                self.wf(),
                self.program == old(self).program,
                self.blank == old(self).blank,
                self.state == old(self).state,
                self.heads == old(self).heads,
                self.step_count == old(self).step_count,
                self.tapes@.len() == old(self).tapes@.len(),
                forall|j: int| 0 <= j < i ==> self.tapes_view()[j] == target[j],
                forall|j: int|
                    i <= j < self.tapes@.len() ==> self.tapes_view()[j] == old(
                        self,
                    ).tapes_view()[j],
            decreases contents@.len() - i,
        {
            let ghost before = self.tapes.deep_view();
            let res = self.set_tape_content(i, contents[i].as_str());
            proof {
                assert(self.tapes_view() == before.update(
                    i as int,
                    resolved_seq(contents@[i as int]@, old(self).blank),
                ));
            }
            match res {
                Ok(()) => {},
                Err(e) => {
                    return Err(e);
                },
            }
            i = i + 1;
        }
        proof {
            assert(self.tapes_view() =~~= target);
        }
        Ok(())
    }
}

} // verus!
