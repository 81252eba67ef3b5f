//! The shared data model: programs, transitions, directions, execution
//! modes, step outcomes, and the error taxonomy.

use vstd::prelude::*;

use vstd::string::StringExecFns;

use crate::strutil::{chars_eq, str_eq, str_to_chars};

verus! {

/// The default blank symbol used on the machine tape.
pub const DEFAULT_BLANK_SYMBOL: char = ' ';

/// The reserved wildcard symbol that stands, in program text and in rules,
/// for "whatever the program's blank symbol is".
pub const INPUT_BLANK_SYMBOL: char = '_';

/// The maximum allowed size for a program source in bytes.
pub const MAX_PROGRAM_SIZE: usize = 65536;

/// The maximum number of steps `run` executes before giving up.
pub const MAX_EXECUTION_STEPS: usize = 10000;

/// A direction for a tape head to move after a transition.
#[derive(Clone, Copy, Debug, PartialEq, Eq, Structural)]
pub enum Direction {
    /// Move the head one position to the left.
    Left,
    /// Move the head one position to the right.
    Right,
    /// Keep the head in the same position.
    Stay,
}

/// The execution mode of a program: what happens when no transition matches.
#[derive(Clone, Copy, Debug, PartialEq, Eq, Structural)]
pub enum Mode {
    /// An undefined transition halts the machine normally.
    Normal,
    /// An undefined transition is reported as an error.
    Strict,
}

impl Default for Mode {
    fn default() -> (r: Self)
        ensures
            r == Mode::Normal,
    {
        Mode::Normal
    }
}

/// The mathematical value of a [`Transition`]: its per-tape symbol and
/// direction sequences and the name of the next state.
#[verifier::ext_equal]
pub ghost struct TransitionV {
    pub read: Seq<char>,
    pub write: Seq<char>,
    pub directions: Seq<Direction>,
    pub next_state: Seq<char>,
}

/// A single transition rule: fires when the symbols under the heads match
/// `read`, then writes `write`, moves each head by `directions`, and enters
/// `next_state`.
#[derive(Clone, Debug)]
pub struct Transition {
    /// The symbol expected under each tape's head.
    pub read: Vec<char>,
    /// The symbol to write on each tape.
    pub write: Vec<char>,
    /// The direction each tape's head moves afterwards.
    pub directions: Vec<Direction>,
    /// The state the machine enters next.
    pub next_state: String,
}

impl View for Transition {
    type V = TransitionV;

    open spec fn view(&self) -> TransitionV {
        TransitionV {
            read: self.read@,
            write: self.write@,
            directions: self.directions@,
            next_state: self.next_state@,
        }
    }
}

impl DeepView for Transition {
    type V = TransitionV;

    open spec fn deep_view(&self) -> TransitionV {
        self@
    }
}

impl PartialEq for Transition {
    fn eq(&self, other: &Self) -> (r: bool) {
        chars_eq(&self.read, &other.read) && chars_eq(&self.write, &other.write)
            && directions_eq(&self.directions, &other.directions)
            && str_eq(self.next_state.as_str(), other.next_state.as_str())
    }
}

impl vstd::std_specs::cmp::PartialEqSpecImpl for Transition {
    open spec fn obeys_eq_spec() -> bool {
        true
    }

    open spec fn eq_spec(&self, other: &Self) -> bool {
        self@ == other@
    }
}

/// Whether two direction vectors hold the same directions.
pub fn directions_eq(a: &Vec<Direction>, b: &Vec<Direction>) -> (r: bool)
    ensures
        r == (a@ == b@),
{
    if a.len() != b.len() {
        return false;
    }
    let mut i: usize = 0;
    while i < a.len()
        invariant
            i <= a.len(),
            a.len() == b.len(),
            forall|j: int| 0 <= j < i ==> a@[j] == b@[j],
        decreases a.len() - i,
    {
        if a[i] != b[i] {
            return false;
        }
        i = i + 1;
    }
    proof {
        assert(a@ =~= b@);
    }
    true
}

/// The mathematical value of a rule mapping: state names paired with their
/// transition lists, in insertion order.
pub type RulesV = Seq<(Seq<char>, Seq<TransitionV>)>;

/// Whether `m` has an entry with key `k`.
pub open spec fn rules_contains_key(m: RulesV, k: Seq<char>) -> bool {
    exists|i: int| 0 <= i < m.len() && m[i].0 == k
}

/// The transition list of the first entry with key `k`, if any.
pub open spec fn rules_get(m: RulesV, k: Seq<char>) -> Option<Seq<TransitionV>>
    decreases m.len(),
{
    if m.len() == 0 {
        None
    } else if m[0].0 == k {
        Some(m[0].1)
    } else {
        rules_get(m.drop_first(), k)
    }
}

/// Whether the keys of `m` are pairwise distinct.
pub open spec fn rules_wf(m: RulesV) -> bool {
    forall|i: int, j: int| 0 <= i < j < m.len() ==> m[i].0 != m[j].0
}

/// The value of `m` after binding `k` to `v`: the first entry with key `k`
/// is replaced, or a new entry is appended if none exists.
pub open spec fn rules_insert(m: RulesV, k: Seq<char>, v: Seq<TransitionV>) -> RulesV
    decreases m.len(),
{
    if m.len() == 0 {
        seq![(k, v)]
    } else if m[0].0 == k {
        seq![(k, v)] + m.drop_first()
    } else {
        seq![m[0]] + rules_insert(m.drop_first(), k, v)
    }
}

/// The symbol a read or write position stands for: the reserved wildcard
/// denotes the program's blank symbol, any other symbol denotes itself.
pub open spec fn resolve_symbol(sym: char, blank: char) -> char {
    if sym == INPUT_BLANK_SYMBOL {
        blank
    } else {
        sym
    }
}

/// The symbol at offset `pos` of `tape`, the blank symbol when the offset
/// is out of range.
pub open spec fn read_symbol(tape: Seq<char>, pos: int, blank: char) -> char {
    if 0 <= pos < tape.len() {
        tape[pos]
    } else {
        blank
    }
}

/// The symbol under each head.
pub open spec fn symbols_of(tapes: Seq<Seq<char>>, heads: Seq<int>, blank: char) -> Seq<char> {
    Seq::new(heads.len(), |i: int| read_symbol(tapes[i], heads[i], blank))
}

/// Whether transition `t` fires on `symbols`: the lengths agree and every
/// read position matches literally, the wildcard matching exactly the blank
/// symbol.
pub open spec fn transition_matches(t: TransitionV, symbols: Seq<char>, blank: char) -> bool {
    &&& t.read.len() == symbols.len()
    &&& forall|i: int| 0 <= i < symbols.len() ==> resolve_symbol(#[trigger] t.read[i], blank) == symbols[i]
}

/// The first transition of `ts`, in declaration order, that fires on
/// `symbols`, if any.
pub open spec fn first_matching(ts: Seq<TransitionV>, symbols: Seq<char>, blank: char) -> Option<
    TransitionV,
>
    decreases ts.len(),
{
    if ts.len() == 0 {
        None
    } else if transition_matches(ts[0], symbols, blank) {
        Some(ts[0])
    } else {
        first_matching(ts.drop_first(), symbols, blank)
    }
}

/// The transition rules of a program: a mapping from state name to the
/// ordered list of transitions leaving that state. Entries keep their
/// insertion order and keys are unique.
#[derive(Clone, Debug)]
pub struct Rules {
    pub entries: Vec<(String, Vec<Transition>)>,
}

impl View for Rules {
    type V = RulesV;

    open spec fn view(&self) -> RulesV {
        self.entries.deep_view()
    }
}

impl Rules {
    /// An empty rule mapping.
    pub fn new() -> (r: Self)
        ensures
            r@ == Seq::<(Seq<char>, Seq<TransitionV>)>::empty(),
            rules_wf(r@),
    {
        let r = Rules { entries: Vec::new() };
        proof {
            assert(r@ =~= Seq::<(Seq<char>, Seq<TransitionV>)>::empty());
        }
        r
    }

    /// The number of states that have an entry.
    pub fn len(&self) -> (r: usize)
        ensures
            r == self@.len(),
    {
        self.entries.len()
    }

    /// Whether no state has an entry.
    pub fn is_empty(&self) -> (r: bool)
        ensures
            r == (self@.len() == 0),
    {
        self.entries.is_empty()
    }

    /// The state name of the entry at position `i`.
    pub fn key_at(&self, i: usize) -> (r: &String)
        requires
            i < self@.len(),
        ensures
            r@ == self@[i as int].0,
    {
        &self.entries[i].0
    }

    /// The transition list of the entry at position `i`.
    pub fn transitions_at(&self, i: usize) -> (r: &Vec<Transition>)
        requires
            i < self@.len(),
        ensures
            r.deep_view() == self@[i as int].1,
    {
        &self.entries[i].1
    }

    /// Whether `k` is a key of the mapping.
    pub fn contains_key(&self, k: &str) -> (r: bool)
        ensures
            r == rules_contains_key(self@, k@),
    {
        let mut i: usize = 0;
        while i < self.entries.len()
            invariant
                i <= self.entries.len(),
                forall|j: int| 0 <= j < i ==> self@[j].0 != k@,
            decreases self.entries.len() - i,
        {
            if str_eq(self.entries[i].0.as_str(), k) {
                proof {
                    assert(self@[i as int].0 == k@);
                }
                return true;
            }
            i = i + 1;
        }
        false
    }

    /// The transition list bound to `k`, if any.
    pub fn get(&self, k: &str) -> (r: Option<&Vec<Transition>>)
        ensures
            match r {
                Some(v) => rules_get(self@, k@) == Some(v.deep_view()),
                None => rules_get(self@, k@) is None,
            },
    {
        let mut i: usize = 0;
        proof {
            assert(self@.skip(0) =~= self@);
        }
        while i < self.entries.len()
            invariant
                i <= self.entries.len(),
                forall|j: int| 0 <= j < i ==> self@[j].0 != k@,
                rules_get(self@, k@) == rules_get(self@.skip(i as int), k@),
            decreases self.entries.len() - i,
        {
            if str_eq(self.entries[i].0.as_str(), k) {
                proof {
                    lemma_rules_get_head(self@.skip(i as int), k@);
                }
                return Some(&self.entries[i].1);
            }
            proof {
                lemma_rules_get_skip(self@, k@, i as int);
            }
            i = i + 1;
        }
        proof {
            lemma_rules_get_head(self@.skip(i as int), k@);
        }
        None
    }

    /// Binds `k` to `v`, replacing the previous binding of `k` if one exists
    /// and appending a new entry otherwise.
    pub fn insert(&mut self, k: String, v: Vec<Transition>)
        ensures
            final(self)@ == rules_insert(old(self)@, k@, v.deep_view()),
    {
        let ghost orig = self@;
        let mut i: usize = 0;
        while i < self.entries.len()
            invariant
                i <= self.entries.len(),
                self.entries@ == old(self).entries@,
                self@ == orig,
                forall|j: int| 0 <= j < i ==> orig[j].0 != k@,
            decreases self.entries.len() - i,
        {
            if str_eq(self.entries[i].0.as_str(), k.as_str()) {
                let ghost kv = k@;
                let ghost vv = v.deep_view();
                self.entries[i] = (k, v);
                proof {
                    lemma_rules_insert_at(orig, kv, i as int);
                    assert(self.entries@.len() == orig.len());
                    assert(self@.len() == orig.len());
                    assert forall|j: int| 0 <= j < orig.len() implies self@[j] == orig.update(
                        i as int,
                        (kv, vv),
                    )[j] by {
                        if j != i {
                            assert(self.entries@[j] == old(self).entries@[j]);
                        }
                    }
                    assert(self@ =~~= orig.update(i as int, (kv, vv)));
                    assert(rules_insert(orig, kv, vv) =~= orig.update(i as int, (kv, vv)));
                }
                return ;
            }
            i = i + 1;
        }
        let ghost kv = k@;
        let ghost vv = v.deep_view();
        self.entries.push((k, v));
        proof {
            lemma_rules_insert_append(orig, kv);
            assert(self.entries@.len() == orig.len() + 1);
            assert(self@.len() == orig.len() + 1);
            assert forall|j: int| 0 <= j < orig.len() + 1 implies self@[j] == orig.push(
                (kv, vv),
            )[j] by {
                if j < orig.len() {
                    assert(self.entries@[j] == old(self).entries@[j]);
                }
            }
            assert(self@ =~~= orig.push((kv, vv)));
            assert(rules_insert(orig, kv, vv) =~= orig.push((kv, vv)));
        }
    }

    /// Appends transition `t` to the entry of `k`, creating the entry if
    /// none exists.
    #[verifier::loop_isolation(false)]
    pub fn push_transition(&mut self, k: String, t: Transition)
        ensures
            final(self)@ == rules_add(old(self)@, k@, t@),
    {
        let ghost orig = self@;
        let mut i: usize = 0;
        while i < self.entries.len()
            invariant
                i <= self.entries@.len(),
                self.entries@ == old(self).entries@,
                self@ == orig,
                forall|j: int| 0 <= j < i ==> orig[j].0 != k@,
            decreases self.entries@.len() - i,
        {
            if str_eq(self.entries[i].0.as_str(), k.as_str()) {
                let ghost kv = k@;
                let ghost tv = t@;
                let (key_i, mut ts) = self.entries.remove(i);
                ts.push(t);
                self.entries.insert(i, (key_i, ts));
                proof {
                    lemma_rules_add_at(orig, kv, tv, i as int);
                    assert(self.entries@.len() == orig.len());
                    assert(self@.len() == orig.len());
                    assert forall|j: int| 0 <= j < orig.len() implies self@[j] == orig.update(
                        i as int,
                        (orig[i as int].0, orig[i as int].1.push(tv)),
                    )[j] by {
                        if j != i {
                            assert(self.entries@[j] == old(self).entries@[j]);
                        } else {
                            assert(self.entries@[i as int].1@ =~= old(self).entries@[
                                i as int
                            ].1@.push(t));
                        }
                    }
                    assert(self@ =~~= orig.update(
                        i as int,
                        (orig[i as int].0, orig[i as int].1.push(tv)),
                    ));
                }
                return ;
            }
            i = i + 1;
        }
        let ghost kv = k@;
        let ghost tv = t@;
        let mut ts: Vec<Transition> = Vec::new();
        ts.push(t);
        self.entries.push((k, ts));
        proof {
            lemma_rules_add_append(orig, kv, tv);
            assert(self.entries@.len() == orig.len() + 1);
            assert(self@.len() == orig.len() + 1);
            assert forall|j: int| 0 <= j < orig.len() + 1 implies self@[j] == orig.push(
                (kv, seq![tv]),
            )[j] by {
                if j < orig.len() {
                    assert(self.entries@[j] == old(self).entries@[j]);
                } else {
                    assert(self.entries@[j].1.deep_view() =~= seq![tv]);
                }
            }
            assert(self@ =~~= orig.push((kv, seq![tv])));
        }
    }

    /// The state names, in entry order.
    pub fn keys(&self) -> (r: Vec<String>)
        ensures
            r.deep_view() == Seq::new(self@.len(), |i: int| self@[i].0),
    {
        let mut r: Vec<String> = Vec::new();
        let mut i: usize = 0;
        while i < self.entries.len()
            invariant
                i <= self.entries.len(),
                r.deep_view() == Seq::new(i as nat, |j: int| self@[j].0),
            decreases self.entries.len() - i,
        {
            let ghost prev = r.deep_view();
            r.push(self.entries[i].0.clone());
            proof {
                assert(prev.len() == i as nat);
                assert(r@.len() == i + 1);
                assert(r.deep_view().len() == i + 1);
                assert forall|j: int| 0 <= j < i + 1 implies r.deep_view()[j] == self@[j].0 by {
                    if j < i {
                        assert(r.deep_view()[j] == prev[j]);
                    }
                }
                assert(r.deep_view() =~~= Seq::new((i + 1) as nat, |j: int| self@[j].0));
            }
            i = i + 1;
        }
        proof {
            assert(r.deep_view() =~~= Seq::new(self@.len(), |j: int| self@[j].0));
        }
        r
    }
}

/// On a mapping whose first entry is not `k` (or that is empty after
/// skipping), looking `k` up skips that entry.
pub proof fn lemma_rules_get_skip(m: RulesV, k: Seq<char>, i: int)
    requires
        0 <= i < m.len(),
        rules_get(m, k) == rules_get(m.skip(i), k),
        m[i].0 != k,
    ensures
        rules_get(m, k) == rules_get(m.skip(i + 1), k),
{
    assert(m.skip(i).drop_first() =~= m.skip(i + 1));
}

/// Looking up `k` in a mapping whose first entry has key `k` yields that
/// entry; in an empty mapping it yields nothing.
pub proof fn lemma_rules_get_head(m: RulesV, k: Seq<char>)
    ensures
        m.len() == 0 ==> rules_get(m, k) is None,
        m.len() > 0 && m[0].0 == k ==> rules_get(m, k) == Some(m[0].1),
{
}

/// When the first `i` keys differ from `k` and entry `i` has key `k`,
/// inserting `k` updates entry `i` in place.
pub proof fn lemma_rules_insert_at(m: RulesV, k: Seq<char>, i: int)
    requires
        0 <= i < m.len(),
        forall|j: int| 0 <= j < i ==> m[j].0 != k,
        m[i].0 == k,
    ensures
        forall|v: Seq<TransitionV>| #[trigger] rules_insert(m, k, v) =~= m.update(i, (k, v)),
    decreases i,
{
    if i == 0 {
        assert forall|v: Seq<TransitionV>| #[trigger] rules_insert(m, k, v) =~= m.update(
            0,
            (k, v),
        ) by {
            assert(rules_insert(m, k, v) == seq![(k, v)] + m.drop_first());
        }
    } else {
        lemma_rules_insert_at(m.drop_first(), k, i - 1);
        assert forall|v: Seq<TransitionV>| #[trigger] rules_insert(m, k, v) =~= m.update(
            i,
            (k, v),
        ) by {
            assert(rules_insert(m, k, v) == seq![m[0]] + rules_insert(m.drop_first(), k, v));
            assert(rules_insert(m.drop_first(), k, v) =~= m.drop_first().update(i - 1, (k, v)));
        }
    }
}

/// When no key of `m` equals `k`, inserting `k` appends a new entry.
pub proof fn lemma_rules_insert_append(m: RulesV, k: Seq<char>)
    requires
        forall|j: int| 0 <= j < m.len() ==> m[j].0 != k,
    ensures
        forall|v: Seq<TransitionV>| #[trigger] rules_insert(m, k, v) =~= m.push((k, v)),
    decreases m.len(),
{
    if m.len() == 0 {
    } else {
        lemma_rules_insert_append(m.drop_first(), k);
        assert forall|v: Seq<TransitionV>| #[trigger] rules_insert(m, k, v) =~= m.push(
            (k, v),
        ) by {
            assert(rules_insert(m, k, v) == seq![m[0]] + rules_insert(m.drop_first(), k, v));
            assert(rules_insert(m.drop_first(), k, v) =~= m.drop_first().push((k, v)));
        }
    }
}

/// The value of `m` after appending transition `t` under key `k`: the
/// first entry with key `k` grows by `t` at the end, or a new entry is
/// appended if none exists.
pub open spec fn rules_add(m: RulesV, k: Seq<char>, t: TransitionV) -> RulesV
    decreases m.len(),
{
    if m.len() == 0 {
        seq![(k, seq![t])]
    } else if m[0].0 == k {
        seq![(m[0].0, m[0].1.push(t))] + m.drop_first()
    } else {
        seq![m[0]] + rules_add(m.drop_first(), k, t)
    }
}

/// When the first `i` keys differ from `k` and entry `i` has key `k`,
/// appending under `k` extends entry `i`.
pub proof fn lemma_rules_add_at(m: RulesV, k: Seq<char>, t: TransitionV, i: int)
    requires
        0 <= i < m.len(),
        forall|j: int| 0 <= j < i ==> m[j].0 != k,
        m[i].0 == k,
    ensures
        rules_add(m, k, t) =~= m.update(i, (m[i].0, m[i].1.push(t))),
    decreases i,
{
    if i == 0 {
        assert(rules_add(m, k, t) == seq![(m[0].0, m[0].1.push(t))] + m.drop_first());
    } else {
        lemma_rules_add_at(m.drop_first(), k, t, i - 1);
        assert(rules_add(m, k, t) == seq![m[0]] + rules_add(m.drop_first(), k, t));
        assert(rules_add(m.drop_first(), k, t) =~= m.drop_first().update(
            i - 1,
            (m[i].0, m[i].1.push(t)),
        ));
    }
}

/// When no key of `m` equals `k`, appending under `k` adds a new entry.
pub proof fn lemma_rules_add_append(m: RulesV, k: Seq<char>, t: TransitionV)
    requires
        forall|j: int| 0 <= j < m.len() ==> m[j].0 != k,
    ensures
        rules_add(m, k, t) =~= m.push((k, seq![t])),
    decreases m.len(),
{
    if m.len() == 0 {
    } else {
        lemma_rules_add_append(m.drop_first(), k, t);
        assert(rules_add(m, k, t) == seq![m[0]] + rules_add(m.drop_first(), k, t));
        assert(rules_add(m.drop_first(), k, t) =~= m.drop_first().push((k, seq![t])));
    }
}

/// Binding a fresh key keeps the keys unique.
pub proof fn lemma_rules_insert_wf(m: RulesV, k: Seq<char>, v: Seq<TransitionV>)
    requires
        rules_wf(m),
        !rules_contains_key(m, k),
    ensures
        rules_wf(rules_insert(m, k, v)),
{
    lemma_rules_insert_append(m, k);
    let m1 = m.push((k, v));
    assert forall|i: int, j: int| 0 <= i < j < m1.len() implies m1[i].0 != m1[j].0 by {
        if j == m.len() {
            if m1[i].0 == k {
                assert(m[i].0 == k);
            }
        }
    }
    assert(rules_insert(m, k, v) =~= m1);
}

/// Appending a transition keeps the keys unique.
pub proof fn lemma_rules_add_wf(m: RulesV, k: Seq<char>, t: TransitionV)
    requires
        rules_wf(m),
    ensures
        rules_wf(rules_add(m, k, t)),
{
    if rules_contains_key(m, k) {
        let i = choose|i: int| 0 <= i < m.len() && (#[trigger] m[i]).0 == k;
        let first = choose|i: int|
            0 <= i < m.len() && (#[trigger] m[i]).0 == k && forall|j: int|
                0 <= j < i ==> m[j].0 != k;
        assert(exists|i: int|
            0 <= i < m.len() && (#[trigger] m[i]).0 == k && (forall|j: int|
                0 <= j < i ==> m[j].0 != k)) by {
            assert forall|j: int| 0 <= j < i implies m[j].0 != k by {
                if m[j].0 == k {
                    assert(m[j].0 != m[i].0);
                }
            }
            assert(m[i].0 == k && (forall|j: int| 0 <= j < i ==> m[j].0 != k));
        }
        lemma_rules_add_at(m, k, t, first);
        let m1 = m.update(first, (m[first].0, m[first].1.push(t)));
        assert forall|p: int, q: int| 0 <= p < q < m1.len() implies m1[p].0 != m1[q].0 by {
            assert(m1[p].0 == m[p].0);
            assert(m1[q].0 == m[q].0);
        }
        assert(rules_wf(rules_add(m, k, t)));
    } else {
        assert(forall|j: int| 0 <= j < m.len() ==> (#[trigger] m[j]).0 != k);
        lemma_rules_add_append(m, k, t);
        let m1 = m.push((k, seq![t]));
        assert forall|p: int, q: int| 0 <= p < q < m1.len() implies m1[p].0 != m1[q].0 by {
            if q == m.len() {
                if m1[p].0 == k {
                    assert(m[p].0 == k);
                }
            }
        }
        assert(rules_wf(rules_add(m, k, t)));
    }
}

/// A complete machine description: the initial configuration and the
/// transition rules. Immutable once built by the parser or the decoder.
#[derive(Clone, Debug)]
pub struct Program {
    /// The name of the program.
    pub name: String,
    /// Execution mode: behavior on an undefined transition.
    pub mode: Mode,
    /// The state the machine starts in.
    pub initial_state: String,
    /// The initial content of each tape, one entry per tape.
    pub tapes: Vec<String>,
    /// The initial head offset of each tape, one entry per tape.
    pub heads: Vec<usize>,
    /// The blank symbol used on the tapes.
    pub blank: char,
    /// The transition rules, keyed by state name.
    pub rules: Rules,
}

/// The views of the initial tapes of `p`, one character sequence per tape.
pub open spec fn program_tapes_view(p: Program) -> Seq<Seq<char>> {
    Seq::new(p.tapes@.len(), |i: int| p.tapes@[i]@)
}

/// Whether every transition of `m` uses exactly `n` read symbols, `n` write
/// symbols and `n` directions.
pub open spec fn rules_arity_ok(m: RulesV, n: int) -> bool {
    forall|i: int, j: int|
        0 <= i < m.len() && 0 <= j < m[i].1.len() ==> {
            &&& (#[trigger] m[i].1[j]).read.len() == n
            &&& m[i].1[j].write.len() == n
            &&& m[i].1[j].directions.len() == n
        }
}

impl Program {
    /// The structural invariant of the data model: one head per tape, every
    /// transition's arity equal to the tape count, and rule keys unique.
    pub open spec fn structure_ok(self) -> bool {
        &&& self.heads@.len() == self.tapes@.len()
        &&& rules_arity_ok(self.rules@, self.tapes@.len() as int)
        &&& rules_wf(self.rules@)
    }

    /// The initial content of the first tape, or the empty string for a
    /// program without tapes.
    pub fn initial_tape(&self) -> (r: String)
        ensures
            r@ == if self.tapes@.len() > 0 {
                self.tapes@[0]@
            } else {
                Seq::<char>::empty()
            },
    {
        if self.tapes.len() > 0 {
            self.tapes[0].clone()
        } else {
            String::new()
        }
    }

    /// The initial head offset of the first tape, or 0 for a program
    /// without head declarations.
    pub fn head_position(&self) -> (r: usize)
        ensures
            r == if self.heads@.len() > 0 {
                self.heads@[0]
            } else {
                0usize
            },
    {
        if self.heads.len() > 0 {
            self.heads[0]
        } else {
            0
        }
    }

    /// Whether the program drives a single-tape machine.
    pub fn is_single_tape(&self) -> (r: bool)
        ensures
            r == (self.tapes@.len() == 1),
    {
        self.tapes.len() == 1
    }

    /// The initial tape contents as character vectors.
    pub fn tapes(&self) -> (r: Vec<Vec<char>>)
        ensures
            r.deep_view() == program_tapes_view(*self),
    {
        let mut r: Vec<Vec<char>> = Vec::new();
        let mut i: usize = 0;
        while i < self.tapes.len()
            invariant
                i <= self.tapes@.len(),
                r.deep_view() == Seq::new(i as nat, |j: int| self.tapes@[j]@),
            decreases self.tapes@.len() - i,
        {
            let ghost prev = r.deep_view();
            r.push(str_to_chars(self.tapes[i].as_str()));
            proof {
                assert(prev.len() == i as nat);
                assert(r@.len() == i + 1);
                assert(r.deep_view().len() == i + 1);
                assert forall|j: int| 0 <= j < i + 1 implies r.deep_view()[j] == self.tapes@[j]@ by {
                    if j < i {
                        assert(r.deep_view()[j] == prev[j]);
                    }
                }
                assert(r.deep_view() =~~= Seq::new((i + 1) as nat, |j: int| self.tapes@[j]@));
            }
            i = i + 1;
        }
        proof {
            assert(r.deep_view() =~~= program_tapes_view(*self));
        }
        r
    }
}

/// Details of a strict-mode rejection: the state the machine was in and the
/// symbols under the heads when no transition matched.
#[derive(Clone, Debug)]
pub struct Rejection {
    pub state: String,
    pub symbols: Vec<char>,
}

/// A parse failure, carrying the position of the offending source text.
#[derive(Clone, Debug)]
pub struct SourceError {
    /// What went wrong, in words.
    pub message: String,
    /// The 1-based source line of the offending text.
    pub line: usize,
    /// The 1-based column of the offending text.
    pub column: usize,
}

/// The errors a machine operation can report.
#[derive(Clone, Debug)]
pub enum TuringMachineError {
    /// A transition into an invalid or undefined state.
    InvalidState(String),
    /// No rule is defined for the given state and symbols (strict mode).
    UndefinedTransition(String, Vec<char>),
    /// A tape head moved beyond the defined tape boundaries.
    TapeBoundary,
    /// The program source is malformed; carries its source position.
    ParseError(SourceError),
    /// The program is well-formed but violates a validation rule.
    ValidationError(String),
    /// A file could not be read or written.
    FileError(String),
}

/// The outcome of a single execution step.
#[derive(Clone, Debug)]
pub enum Step {
    /// The machine performed a step and can continue.
    Continue,
    /// The machine has halted.
    Halt(Halt),
}

/// How a machine halted.
#[derive(Clone, Debug)]
pub enum Halt {
    /// A normal halt: no transition is defined or, in normal mode, none
    /// matches.
    Normal,
    /// A halt with an error, such as a strict-mode undefined transition.
    Error(TuringMachineError),
}

/// The mathematical value of a [`SourceError`].
pub ghost struct SourceErrorV {
    pub message: Seq<char>,
    pub line: int,
    pub column: int,
}

impl View for SourceError {
    type V = SourceErrorV;

    open spec fn view(&self) -> SourceErrorV {
        SourceErrorV { message: self.message@, line: self.line as int, column: self.column as int }
    }
}

/// The mathematical value of a [`TuringMachineError`].
pub ghost enum TuringMachineErrorV {
    InvalidState(Seq<char>),
    UndefinedTransition(Seq<char>, Seq<char>),
    TapeBoundary,
    ParseError(SourceErrorV),
    ValidationError(Seq<char>),
    FileError(Seq<char>),
}

impl View for TuringMachineError {
    type V = TuringMachineErrorV;

    open spec fn view(&self) -> TuringMachineErrorV {
        match self {
            TuringMachineError::InvalidState(s) => TuringMachineErrorV::InvalidState(s@),
            TuringMachineError::UndefinedTransition(s, v) => TuringMachineErrorV::UndefinedTransition(
                s@,
                v@,
            ),
            TuringMachineError::TapeBoundary => TuringMachineErrorV::TapeBoundary,
            TuringMachineError::ParseError(e) => TuringMachineErrorV::ParseError(e@),
            TuringMachineError::ValidationError(s) => TuringMachineErrorV::ValidationError(s@),
            TuringMachineError::FileError(s) => TuringMachineErrorV::FileError(s@),
        }
    }
}

/// The mathematical value of a [`Halt`].
pub ghost enum HaltV {
    Normal,
    Error(TuringMachineErrorV),
}

impl View for Halt {
    type V = HaltV;

    open spec fn view(&self) -> HaltV {
        match self {
            Halt::Normal => HaltV::Normal,
            Halt::Error(e) => HaltV::Error(e@),
        }
    }
}

/// The mathematical value of a [`Step`].
pub ghost enum StepV {
    Continue,
    Halt(HaltV),
}

impl View for Step {
    type V = StepV;

    open spec fn view(&self) -> StepV {
        match self {
            Step::Continue => StepV::Continue,
            Step::Halt(h) => StepV::Halt(h@),
        }
    }
}


/// The human-readable message of an error value.
pub open spec fn error_message(e: TuringMachineErrorV) -> Seq<char> {
    match e {
        TuringMachineErrorV::InvalidState(s) => "Invalid state: "@ + s,
        TuringMachineErrorV::UndefinedTransition(s, syms) => "No rule defined for state "@ + s
            + " and symbols "@ + crate::strutil::debug_char_list(syms),
        TuringMachineErrorV::TapeBoundary => "Tape boundary exceeded"@,
        TuringMachineErrorV::ParseError(pe) => "Program parsing error: "@ + pe.message,
        TuringMachineErrorV::ValidationError(m) => "Program validation error: "@ + m,
        TuringMachineErrorV::FileError(m) => "File error: "@ + m,
    }
}

impl TuringMachineError {
    /// The error rendered as a human-readable message.
    pub fn message(&self) -> (r: String)
        ensures
            r@ == error_message(self@),
    {
        match self {
            TuringMachineError::InvalidState(s) => {
                let mut m = "Invalid state: ".to_owned();
                m.append(s.as_str());
                proof {
                    assert(m@ =~= error_message(self@));
                }
                m
            },
            TuringMachineError::UndefinedTransition(s, syms) => {
                let mut m = "No rule defined for state ".to_owned();
                m.append(s.as_str());
                m.append(" and symbols ");
                m.append(crate::strutil::format_char_list(syms).as_str());
                proof {
                    assert(m@ =~= error_message(self@));
                }
                m
            },
            TuringMachineError::TapeBoundary => "Tape boundary exceeded".to_owned(),
            TuringMachineError::ParseError(pe) => {
                let mut m = "Program parsing error: ".to_owned();
                m.append(pe.message.as_str());
                proof {
                    assert(m@ =~= error_message(self@));
                }
                m
            },
            TuringMachineError::ValidationError(msg) => {
                let mut m = "Program validation error: ".to_owned();
                m.append(msg.as_str());
                proof {
                    assert(m@ =~= error_message(self@));
                }
                m
            },
            TuringMachineError::FileError(msg) => {
                let mut m = "File error: ".to_owned();
                m.append(msg.as_str());
                proof {
                    assert(m@ =~= error_message(self@));
                }
                m
            },
        }
    }
}

impl PartialEq for SourceError {
    fn eq(&self, other: &Self) -> (r: bool) {
        crate::strutil::str_eq(self.message.as_str(), other.message.as_str()) && self.line
            == other.line && self.column == other.column
    }
}

impl vstd::std_specs::cmp::PartialEqSpecImpl for SourceError {
    open spec fn obeys_eq_spec() -> bool {
        true
    }

    open spec fn eq_spec(&self, other: &Self) -> bool {
        self@ == other@
    }
}

impl PartialEq for TuringMachineError {
    fn eq(&self, other: &Self) -> (r: bool) {
        match (self, other) {
            (TuringMachineError::InvalidState(a), TuringMachineError::InvalidState(b)) => str_eq(
                a.as_str(),
                b.as_str(),
            ),
            (
                TuringMachineError::UndefinedTransition(a, av),
                TuringMachineError::UndefinedTransition(b, bv),
            ) => str_eq(a.as_str(), b.as_str()) && chars_eq(av, bv),
            (TuringMachineError::TapeBoundary, TuringMachineError::TapeBoundary) => true,
            (TuringMachineError::ParseError(a), TuringMachineError::ParseError(b)) => a == b,
            (TuringMachineError::ValidationError(a), TuringMachineError::ValidationError(b)) => {
                str_eq(a.as_str(), b.as_str())
            },
            (TuringMachineError::FileError(a), TuringMachineError::FileError(b)) => str_eq(
                a.as_str(),
                b.as_str(),
            ),
            _ => false,
        }
    }
}

impl vstd::std_specs::cmp::PartialEqSpecImpl for TuringMachineError {
    open spec fn obeys_eq_spec() -> bool {
        true
    }

    open spec fn eq_spec(&self, other: &Self) -> bool {
        self@ == other@
    }
}

impl PartialEq for Halt {
    fn eq(&self, other: &Self) -> (r: bool) {
        match (self, other) {
            (Halt::Normal, Halt::Normal) => true,
            (Halt::Error(a), Halt::Error(b)) => a == b,
            _ => false,
        }
    }
}

impl vstd::std_specs::cmp::PartialEqSpecImpl for Halt {
    open spec fn obeys_eq_spec() -> bool {
        true
    }

    open spec fn eq_spec(&self, other: &Self) -> bool {
        self@ == other@
    }
}

impl PartialEq for Step {
    fn eq(&self, other: &Self) -> (r: bool) {
        match (self, other) {
            (Step::Continue, Step::Continue) => true,
            (Step::Halt(a), Step::Halt(b)) => a == b,
            _ => false,
        }
    }
}

impl vstd::std_specs::cmp::PartialEqSpecImpl for Step {
    open spec fn obeys_eq_spec() -> bool {
        true
    }

    open spec fn eq_spec(&self, other: &Self) -> bool {
        self@ == other@
    }
}

} // verus!
