//! The canonical single-tape serialization of a program and its structural
//! inverse. An encoded program is `name:tape:rules`: the tape section holds
//! the first tape's symbols joined with commas, and the rules section holds
//! one `state,read,write,direction,next` quintuple per transition, joined
//! with `|`, with states renumbered deterministically — the initial state
//! becomes `0`, conventional halting names keep fixed one-letter codes, and
//! the remaining states get numeric codes in sorted-name order.

use vstd::prelude::*;
use vstd::string::StringExecFns;

use crate::analyzer::{all_targets, state_referenced};
use crate::strutil::{
    chars_eq, chars_le, chars_to_string, copy_chars, dec_digits, insert_sorted, join_seqs,
    push_char, seq_has, sorted_unique, split_chars, split_seq, str_eq, str_to_chars,
    usize_to_string,
};
use crate::types::{
    rules_contains_key, rules_get, Direction, Mode, Program, Rules, RulesV, Transition,
    TransitionV, INPUT_BLANK_SYMBOL,
};

verus! {

/// A state-name-to-code mapping as a mathematical value.
pub type StateMapV = Seq<(Seq<char>, Seq<char>)>;

/// The code bound to `k`, if any.
pub open spec fn smap_get(m: StateMapV, k: Seq<char>) -> Option<Seq<char>>
    decreases m.len(),
{
    if m.len() == 0 {
        None
    } else if m[0].0 == k {
        Some(m[0].1)
    } else {
        smap_get(m.drop_first(), k)
    }
}

/// Whether `k` has a code.
pub open spec fn smap_contains(m: StateMapV, k: Seq<char>) -> bool {
    exists|i: int| 0 <= i < m.len() && (#[trigger] m[i]).0 == k
}

/// Whether `x` names a state of the program: the initial state, a rules
/// key, or a transition target.
pub open spec fn state_in_program(p: Program, x: Seq<char>) -> bool {
    ||| x == p.initial_state@
    ||| rules_contains_key(p.rules@, x)
    ||| state_referenced(p.rules@, x)
}

/// The fixed one-letter code of a conventional halting name, if any.
pub open spec fn special_code(x: Seq<char>) -> Option<Seq<char>> {
    if x == "halt"@ {
        Some("h"@)
    } else if x == "accept"@ {
        Some("a"@)
    } else if x == "stop"@ {
        Some("s"@)
    } else if x == "reject"@ {
        Some("r"@)
    } else {
        None
    }
}

/// The number of numerically coded entries among positions 1 to `q` of the
/// mapping.
pub open spec fn numeric_count(m: StateMapV, q: int) -> int
    decreases q,
{
    if q <= 1 {
        0
    } else {
        numeric_count(m, q - 1) + if special_code(m[q - 1].0) is None {
            1int
        } else {
            0int
        }
    }
}

/// What a correct state mapping for `p` looks like: its domain is exactly
/// the states of the program; names and codes are both duplicate-free; the
/// initial state is coded `0` and comes first; the remaining states follow
/// in sorted-name order, each keeping its fixed one-letter code if it has
/// one and otherwise getting the next decimal code, counted from 1.
pub open spec fn state_mapping_ok(p: Program, m: StateMapV) -> bool {
    &&& forall|i: int, j: int| 0 <= i < j < m.len() ==> (#[trigger] m[i]).0 != (#[trigger] m[j]).0
    &&& forall|i: int, j: int| 0 <= i < j < m.len() ==> (#[trigger] m[i]).1 != (#[trigger] m[j]).1
    &&& forall|i: int, j: int|
        0 < i < j < m.len() ==> chars_le((#[trigger] m[i]).0, (#[trigger] m[j]).0)
    &&& forall|x: Seq<char>| #[trigger] smap_contains(m, x) <==> state_in_program(p, x)
    &&& m.len() > 0 && m[0] == (p.initial_state@, "0"@)
    &&& forall|i: int|
        0 < i < m.len() ==> {
            &&& (#[trigger] m[i]).0 != p.initial_state@
            &&& match special_code(m[i].0) {
                Option::Some(c) => m[i].1 == c,
                Option::None => exists|n: int| 1 <= n && (#[trigger] dec_digits(n)) == m[i].1,
            }
        }
    &&& forall|i: int|
        0 < i < m.len() && special_code((#[trigger] m[i]).0) is None ==> m[i].1 == dec_digits(
            numeric_count(m, i) + 1,
        )
}

/// The keys of a rule mapping, in entry order.
pub open spec fn all_keys(m: RulesV) -> Seq<Seq<char>> {
    Seq::new(m.len(), |i: int| m[i].0)
}

/// Every state name the encoder can meet: the initial state, every rules
/// key, and every transition target.
pub open spec fn encoder_universe(p: Program) -> Seq<Seq<char>> {
    seq![p.initial_state@] + all_keys(p.rules@) + all_targets(p.rules@)
}

/// Every character of a decimal rendering is a digit.
pub proof fn lemma_dec_digits_are_digits(n: int)
    requires
        n >= 0,
    ensures
        dec_digits(n).len() >= 1,
        forall|i: int|
            0 <= i < dec_digits(n).len() ==> '0' <= #[trigger] dec_digits(n)[i] && dec_digits(
                n,
            )[i] <= '9',
    decreases n,
{
    if n < 10 {
        assert(dec_digits(n) == seq![crate::strutil::digit_char(n)]);
    } else {
        lemma_dec_digits_are_digits(n / 10);
        assert(dec_digits(n) == dec_digits(n / 10).push(crate::strutil::digit_char(n % 10)));
    }
}

/// Distinct numbers have distinct decimal renderings.
pub proof fn lemma_dec_digits_injective(a: int, b: int)
    requires
        a >= 0,
        b >= 0,
        dec_digits(a) == dec_digits(b),
    ensures
        a == b,
    decreases a,
{
    lemma_dec_digits_are_digits(a);
    lemma_dec_digits_are_digits(b);
    if a < 10 && b < 10 {
        assert(dec_digits(a)[0] == crate::strutil::digit_char(a));
        assert(dec_digits(b)[0] == crate::strutil::digit_char(b));
    } else if a < 10 {
        assert(dec_digits(b).len() >= 2) by {
            lemma_dec_digits_are_digits(b / 10);
        }
    } else if b < 10 {
        assert(dec_digits(a).len() >= 2) by {
            lemma_dec_digits_are_digits(a / 10);
        }
    } else {
        let da = dec_digits(a);
        let db = dec_digits(b);
        assert(da == dec_digits(a / 10).push(crate::strutil::digit_char(a % 10)));
        assert(db == dec_digits(b / 10).push(crate::strutil::digit_char(b % 10)));
        assert(da[da.len() - 1] == crate::strutil::digit_char(a % 10));
        assert(db[db.len() - 1] == crate::strutil::digit_char(b % 10));
        assert(a % 10 == b % 10);
        assert(dec_digits(a / 10) =~= da.drop_last());
        assert(dec_digits(b / 10) =~= db.drop_last());
        lemma_dec_digits_injective(a / 10, b / 10);
    }
}

/// The one-letter codes, the code `0`, and positive decimal codes are
/// pairwise distinct.
pub proof fn lemma_code_separation()
    ensures
        forall|n: int|
            1 <= n ==> #[trigger] dec_digits(n) != "h"@ && dec_digits(n) != "a"@ && dec_digits(n)
                != "s"@ && dec_digits(n) != "r"@ && dec_digits(n) != "0"@,
        "h"@ != "a"@ && "h"@ != "s"@ && "h"@ != "r"@ && "h"@ != "0"@,
        "a"@ != "s"@ && "a"@ != "r"@ && "a"@ != "0"@,
        "s"@ != "r"@ && "s"@ != "0"@,
        "r"@ != "0"@,
        forall|x: Seq<char>, y: Seq<char>|
            special_code(x) is Some && special_code(x) == special_code(y) ==> x == y,
{
    lemma_special_shapes();
    assert(seq!['h'][0] == 'h');
    assert(seq!['a'][0] == 'a');
    assert(seq!['s'][0] == 's');
    assert(seq!['r'][0] == 'r');
    assert(seq!['0'][0] == '0');
    assert forall|n: int|
        1 <= n implies #[trigger] dec_digits(n) != "h"@ && dec_digits(n) != "a"@ && dec_digits(n)
        != "s"@ && dec_digits(n) != "r"@ && dec_digits(n) != "0"@ by {
        lemma_dec_digits_are_digits(n);
        assert(dec_digits(n)[0] == dec_digits(n)[0]);
        if dec_digits(n) == "h"@ {
            assert(dec_digits(n)[0] == 'h');
        }
        if dec_digits(n) == "a"@ {
            assert(dec_digits(n)[0] == 'a');
        }
        if dec_digits(n) == "s"@ {
            assert(dec_digits(n)[0] == 's');
        }
        if dec_digits(n) == "r"@ {
            assert(dec_digits(n)[0] == 'r');
        }
        if dec_digits(n) == "0"@ {
            assert(dec_digits(0) == seq![crate::strutil::digit_char(0)]);
            assert(dec_digits(0) =~= "0"@);
            lemma_dec_digits_injective(n, 0);
        }
    }
}

/// Builds the mapping from state names to codes: the initial state becomes
/// `0`; the remaining states — rule keys and transition targets — are
/// visited in sorted-name order, conventional halting names keep their
/// one-letter codes, and every other state gets the next positive decimal
/// code.
#[verifier::loop_isolation(false)]
pub fn create_state_mapping(program: &Program) -> (r: Vec<(String, String)>)
    requires
        encoder_universe(*program).len() < usize::MAX - 1,
    ensures
        state_mapping_ok(*program, r.deep_view()),
{
    let ghost p = *program;
    // Collect all state names, sorted and deduplicated.
    let mut states: Vec<Vec<char>> = Vec::new();
    insert_sorted(&mut states, &str_to_chars(program.initial_state.as_str()));
    let mut i: usize = 0;
    while i < program.rules.len()
        invariant
            i <= program.rules@.len(),
            sorted_unique(states.deep_view()),
            forall|x: Seq<char>|
                #![trigger seq_has(states.deep_view(), x)]
                seq_has(states.deep_view(), x) <==> (x == p.initial_state@ || (exists|ii: int|
                    0 <= ii < i && (#[trigger] p.rules@[ii]).0 == x) || (exists|ii: int, jj: int|
                    0 <= ii < i && 0 <= jj < p.rules@[ii].1.len() && (
                    #[trigger] p.rules@[ii].1[jj]).next_state == x)),
        decreases program.rules@.len() - i,
    {
        let ghost s0 = states.deep_view();
        insert_sorted(&mut states, &str_to_chars(program.rules.key_at(i).as_str()));
        let ghost s1 = states.deep_view();
        let ts = program.rules.transitions_at(i);
        let mut j: usize = 0;
        while j < ts.len()
            invariant
                j <= ts@.len(),
                i < p.rules@.len(),
                ts.deep_view() == p.rules@[i as int].1,
                sorted_unique(states.deep_view()),
                forall|x: Seq<char>|
                    #![trigger seq_has(states.deep_view(), x)]
                    seq_has(states.deep_view(), x) <==> (seq_has(s1, x) || (exists|jj: int|
                        0 <= jj < j && (#[trigger] ts.deep_view()[jj]).next_state == x)),
            decreases ts@.len() - j,
        {
            let ghost sj = states.deep_view();
            insert_sorted(&mut states, &str_to_chars(ts[j].next_state.as_str()));
            proof {
                assert(ts.deep_view()[j as int] == ts[j as int]@);
                assert forall|x: Seq<char>|
                    #![trigger seq_has(states.deep_view(), x)]
                    seq_has(states.deep_view(), x) <==> (seq_has(s1, x) || (exists|jj: int|
                        0 <= jj < j + 1 && (#[trigger] ts.deep_view()[jj]).next_state == x)) by {
                    if seq_has(states.deep_view(), x) {
                        if !seq_has(sj, x) {
                            assert(ts.deep_view()[j as int].next_state == x);
                        } else {
                            if !seq_has(s1, x) {
                                let jj = choose|jj: int|
                                    0 <= jj < j && (#[trigger] ts.deep_view()[jj]).next_state == x;
                            }
                        }
                    }
                    if seq_has(s1, x) || (exists|jj: int|
                        0 <= jj < j + 1 && (#[trigger] ts.deep_view()[jj]).next_state == x) {
                        if seq_has(s1, x) {
                            assert(seq_has(sj, x));
                        } else {
                            let jj = choose|jj: int|
                                0 <= jj < j + 1 && (#[trigger] ts.deep_view()[jj]).next_state == x;
                            if jj < j {
                                assert(seq_has(sj, x));
                            }
                        }
                    }
                }
            }
            j = j + 1;
        }
        proof {
            assert forall|x: Seq<char>|
                #![trigger seq_has(states.deep_view(), x)]
                seq_has(states.deep_view(), x) <==> (x == p.initial_state@ || (exists|ii: int|
                    0 <= ii < i + 1 && (#[trigger] p.rules@[ii]).0 == x) || (exists|
                    ii: int,
                    jj: int,
                |
                    0 <= ii < i + 1 && 0 <= jj < p.rules@[ii].1.len() && (
                    #[trigger] p.rules@[ii].1[jj]).next_state == x)) by {
                if seq_has(states.deep_view(), x) {
                    if seq_has(s1, x) {
                        if !seq_has(s0, x) {
                            assert(p.rules@[i as int].0 == x);
                        } else {
                            if x != p.initial_state@ {
                                if exists|ii: int| 0 <= ii < i && (#[trigger] p.rules@[ii]).0 == x {
                                    let ii = choose|ii: int|
                                        0 <= ii < i && (#[trigger] p.rules@[ii]).0 == x;
                                    assert(0 <= ii < i + 1 && p.rules@[ii].0 == x);
                                } else {
                                    let (ii, jj): (int, int) = choose|ii: int, jj: int|
                                        0 <= ii < i && 0 <= jj < p.rules@[ii].1.len() && (
                                        #[trigger] p.rules@[ii].1[jj]).next_state == x;
                                    assert(0 <= ii < i + 1 && 0 <= jj < p.rules@[ii].1.len()
                                        && p.rules@[ii].1[jj].next_state == x);
                                }
                            }
                        }
                    } else {
                        let jj = choose|jj: int|
                            0 <= jj < ts.deep_view().len() && (
                            #[trigger] ts.deep_view()[jj]).next_state == x;
                        assert(0 <= i < i + 1 && 0 <= jj < p.rules@[i as int].1.len()
                            && p.rules@[i as int].1[jj].next_state == x);
                    }
                }
                if x == p.initial_state@ {
                    assert(seq_has(s0, x));
                    assert(seq_has(s1, x));
                    assert(seq_has(states.deep_view(), x));
                }
                if exists|ii: int| 0 <= ii < i + 1 && (#[trigger] p.rules@[ii]).0 == x {
                    let ii = choose|ii: int| 0 <= ii < i + 1 && (#[trigger] p.rules@[ii]).0 == x;
                    if ii < i {
                        assert(seq_has(s0, x));
                        assert(seq_has(s1, x));
                    } else {
                        assert(seq_has(s1, x));
                    }
                    assert(seq_has(states.deep_view(), x));
                }
                if exists|ii: int, jj: int|
                    0 <= ii < i + 1 && 0 <= jj < p.rules@[ii].1.len() && (
                    #[trigger] p.rules@[ii].1[jj]).next_state == x {
                    let (ii, jj): (int, int) = choose|ii: int, jj: int|
                        0 <= ii < i + 1 && 0 <= jj < p.rules@[ii].1.len() && (
                        #[trigger] p.rules@[ii].1[jj]).next_state == x;
                    if ii < i {
                        assert(seq_has(s0, x));
                        assert(seq_has(s1, x));
                    } else {
                        assert(ts.deep_view()[jj].next_state == x);
                    }
                    assert(seq_has(states.deep_view(), x));
                }
            }
        }
        i = i + 1;
    }

    // The sorted list of states is no longer than the state universe, so
    // the numeric codes stay within bounds.
    proof {
        let sv = states.deep_view();
        let uni = encoder_universe(p);
        assert(sv.no_duplicates());
        sv.unique_seq_to_set();
        assert forall|x: Seq<char>| sv.to_set().contains(x) implies uni.to_set().contains(x) by {
            assert(sv.contains(x));
            let q = choose|q: int| 0 <= q < sv.len() && sv[q] == x;
            assert(seq_has(sv, x));
            assert(i == p.rules@.len());
            if x == p.initial_state@ {
                assert(uni[0] == x);
            } else if exists|ii: int| 0 <= ii < i && (#[trigger] p.rules@[ii]).0 == x {
                let ii = choose|ii: int| 0 <= ii < i && (#[trigger] p.rules@[ii]).0 == x;
                assert(all_keys(p.rules@)[ii] == x);
                assert(uni[1 + ii] == x);
                assert(uni.contains(x));
            } else {
                let (ii, jj): (int, int) = choose|ii: int, jj: int|
                    0 <= ii < i && 0 <= jj < p.rules@[ii].1.len() && (
                    #[trigger] p.rules@[ii].1[jj]).next_state == x;
                crate::analyzer::lemma_all_targets_has(p.rules@, ii, jj);
                let w = choose|w: int|
                    0 <= w < all_targets(p.rules@).len() && all_targets(p.rules@)[w] == x;
                assert(uni[1 + p.rules@.len() + w] == x);
                assert(uni.contains(x));
            }
        }
        assert(sv.to_set().subset_of(uni.to_set()));
        broadcast use vstd::seq_lib::seq_to_set_is_finite;

        vstd::set_lib::lemma_len_subset(sv.to_set(), uni.to_set());
        uni.lemma_cardinality_of_set();
        assert(states@.len() <= uni.len());
    }

    // Assign codes: the initial state first, then the rest in sorted order.
    let mut mapping: Vec<(String, String)> = Vec::new();
    let mut zero = String::new();
    push_char(&mut zero, '0');
    mapping.push((program.initial_state.clone(), zero));
    let mut counter: usize = 1;
    let mut k: usize = 0;
    proof {
        reveal_strlit("0");
        assert(mapping.deep_view().len() == 1);
        assert(mapping.deep_view()[0] == (p.initial_state@, "0"@));
    }
    while k < states.len()
        invariant
            k <= states@.len(),
            states@.len() <= encoder_universe(p).len(),
            encoder_universe(p).len() < usize::MAX - 1,
            1 <= counter,
            counter <= k + 1,
            mapping.deep_view().len() >= 1,
            mapping.deep_view()[0] == (p.initial_state@, "0"@),
            sorted_unique(states.deep_view()),
            forall|x: Seq<char>|
                #![trigger seq_has(states.deep_view(), x)]
                seq_has(states.deep_view(), x) <==> state_in_program(p, x),
            // entries after the first are earlier states other than the
            // initial one; every earlier non-initial state is mapped
            forall|q: int|
                0 < q < mapping.deep_view().len() ==> exists|kk: int|
                    0 <= kk < k && states.deep_view()[kk] == (#[trigger] mapping.deep_view()[
                        q
                    ]).0,
            forall|kk: int|
                0 <= kk < k && #[trigger] states.deep_view()[kk] != p.initial_state@
                    ==> smap_contains(mapping.deep_view(), states.deep_view()[kk]),
            forall|q1: int, q2: int|
                0 <= q1 < q2 < mapping.deep_view().len() ==> (#[trigger] mapping.deep_view()[
                    q1
                ]).0 != (#[trigger] mapping.deep_view()[q2]).0,
            forall|q1: int, q2: int|
                0 <= q1 < q2 < mapping.deep_view().len() ==> (#[trigger] mapping.deep_view()[
                    q1
                ]).1 != (#[trigger] mapping.deep_view()[q2]).1,
            forall|q: int|
                0 < q < mapping.deep_view().len() ==> {
                    &&& (#[trigger] mapping.deep_view()[q]).0 != p.initial_state@
                    &&& match special_code(mapping.deep_view()[q].0) {
                        Option::Some(c) => mapping.deep_view()[q].1 == c,
                        Option::None => exists|n: int|
                            1 <= n < counter && (#[trigger] dec_digits(n)) == mapping.deep_view()[
                                q
                            ].1,
                    }
                },
            // non-initial entries follow in sorted-name order
            forall|q1: int, q2: int|
                0 < q1 < q2 < mapping.deep_view().len() ==> chars_le(
                    (#[trigger] mapping.deep_view()[q1]).0,
                    (#[trigger] mapping.deep_view()[q2]).0,
                ),
            // the numeric codes are the consecutive ranks, counted from 1
            counter == numeric_count(mapping.deep_view(), mapping.deep_view().len() as int) + 1,
            forall|q: int|
                0 < q < mapping.deep_view().len() && special_code(
                    (#[trigger] mapping.deep_view()[q]).0,
                ) is None ==> mapping.deep_view()[q].1 == dec_digits(
                    numeric_count(mapping.deep_view(), q) + 1,
                ),
        decreases states@.len() - k,
    {
        let state = chars_to_string(&states[k]);
        proof {
            assert(state@ == states.deep_view()[k as int]);
        }
        if !str_eq(state.as_str(), program.initial_state.as_str()) {
            let ghost m0 = mapping.deep_view();
            let is_halt = str_eq(state.as_str(), "halt");
            let is_accept = str_eq(state.as_str(), "accept");
            let is_stop = str_eq(state.as_str(), "stop");
            let is_reject = str_eq(state.as_str(), "reject");
            let ghost old_counter = counter as int;
            let code: String = if is_halt {
                "h".to_owned()
            } else if is_accept {
                "a".to_owned()
            } else if is_stop {
                "s".to_owned()
            } else if is_reject {
                "r".to_owned()
            } else {
                let c = usize_to_string(counter);
                proof {
                    assert(counter + 1 <= k + 2);
                    assert(k + 2 <= states@.len() + 1);
                    assert(states@.len() + 1 < usize::MAX);
                }
                counter = counter + 1;
                c
            };
            let ghost sname = state@;
            let ghost cval = code@;
            proof {
                lemma_special_shapes();
                if is_halt || is_accept || is_stop || is_reject {
                    assert(special_code(sname) == Some(cval));
                } else {
                    assert(special_code(sname) is None);
                    assert(cval == dec_digits(old_counter));
                }
            }
            mapping.push((state, code));
            proof {
                let mv = mapping.deep_view();
                assert(mv.len() == m0.len() + 1);
                assert(forall|q: int| 0 <= q < m0.len() ==> mv[q] == m0[q]);
                assert(mv[m0.len() as int] == (sname, cval));
                // the new key is a fresh state name
                assert forall|q1: int, q2: int|
                    0 <= q1 < q2 < mv.len() implies (#[trigger] mv[q1]).0 != (
                #[trigger] mv[q2]).0 by {
                    if q2 == m0.len() {
                        if q1 == 0 {
                            assert(mv[q1].0 == p.initial_state@);
                        } else {
                            let kk = choose|kk: int|
                                0 <= kk < k && states.deep_view()[kk] == (#[trigger] m0[q1]).0;
                            assert(states.deep_view()[kk] != states.deep_view()[k as int]);
                        }
                    }
                }
                // the new code differs from every earlier code
                assert forall|q1: int, q2: int|
                    0 <= q1 < q2 < mv.len() implies (#[trigger] mv[q1]).1 != (
                #[trigger] mv[q2]).1 by {
                    if q2 == m0.len() {
                        lemma_code_separation();
                        if q1 == 0 {
                            assert(mv[q1].1 == "0"@);
                        } else {
                            match special_code(m0[q1].0) {
                                Option::Some(c1) => {
                                    if special_code(sname) is Some && c1 == cval {
                                        assert(m0[q1].0 == sname);
                                        let kk = choose|kk: int|
                                            0 <= kk < k && states.deep_view()[kk] == (
                                            #[trigger] m0[q1]).0;
                                        assert(states.deep_view()[kk] != states.deep_view()[
                                            k as int
                                        ]);
                                    }
                                },
                                Option::None => {
                                    let n1 = choose|n: int|
                                        1 <= n < old_counter && (#[trigger] dec_digits(n)) == m0[
                                            q1
                                        ].1;
                                    if special_code(sname) is None && m0[q1].1 == cval {
                                        lemma_dec_digits_injective(n1, old_counter);
                                    }
                                },
                            }
                        }
                    }
                }
                // the recorded states stay mapped, and the new entry has
                // the promised shape
                assert forall|kk: int|
                    0 <= kk < k + 1 && #[trigger] states.deep_view()[kk] != p.initial_state@
                    implies smap_contains(mv, states.deep_view()[kk]) by {
                    if kk < k {
                        let q = choose|q: int|
                            0 <= q < m0.len() && (#[trigger] m0[q]).0 == states.deep_view()[kk];
                        assert(mv[q].0 == states.deep_view()[kk]);
                    } else {
                        assert(mv[m0.len() as int].0 == states.deep_view()[kk]);
                    }
                }
                assert forall|q: int| 0 < q < mv.len() implies exists|kk: int|
                    0 <= kk < k + 1 && states.deep_view()[kk] == (#[trigger] mv[q]).0 by {
                    if q < m0.len() {
                        let kk = choose|kk: int|
                            0 <= kk < k && states.deep_view()[kk] == (#[trigger] m0[q]).0;
                        assert(0 <= kk < k + 1 && states.deep_view()[kk] == mv[q].0);
                    } else {
                        assert(states.deep_view()[k as int] == mv[q].0);
                    }
                }
                assert forall|q: int| 0 < q < mv.len() implies {
                    &&& (#[trigger] mv[q]).0 != p.initial_state@
                    &&& match special_code(mv[q].0) {
                        Option::Some(c) => mv[q].1 == c,
                        Option::None => exists|n: int|
                            1 <= n < counter && (#[trigger] dec_digits(n)) == mv[q].1,
                    }
                } by {
                    if q < m0.len() {
                        assert(mv[q] == m0[q]);
                        if special_code(m0[q].0) is None {
                            let n1 = choose|n: int|
                                1 <= n < old_counter && (#[trigger] dec_digits(n)) == m0[q].1;
                            assert(1 <= n1 < counter && dec_digits(n1) == mv[q].1);
                        }
                    } else {
                        if special_code(sname) is None {
                            assert(1 <= old_counter < counter && dec_digits(old_counter) == cval);
                        }
                    }
                }
                // the new entry's name comes after every earlier one
                assert forall|q1: int, q2: int|
                    0 < q1 < q2 < mv.len() implies chars_le(
                    (#[trigger] mv[q1]).0,
                    (#[trigger] mv[q2]).0,
                ) by {
                    if q2 == m0.len() {
                        assert(mv[q1] == m0[q1]);
                        let kk = choose|kk: int|
                            0 <= kk < k && states.deep_view()[kk] == (#[trigger] m0[q1]).0;
                        assert(chars_le(states.deep_view()[kk], states.deep_view()[k as int])
                            && states.deep_view()[kk] != states.deep_view()[k as int]);
                    } else {
                        assert(mv[q1] == m0[q1]);
                        assert(mv[q2] == m0[q2]);
                    }
                }
                // the numeric ranks stay consecutive
                lemma_numeric_count_prefix(m0, mv, m0.len() as int);
                assert(numeric_count(mv, mv.len() as int) == numeric_count(mv, m0.len() as int)
                    + if special_code(sname) is None {
                    1int
                } else {
                    0int
                });
                assert forall|q: int|
                    0 < q < mv.len() && special_code((#[trigger] mv[q]).0) is None implies mv[q].1
                    == dec_digits(numeric_count(mv, q) + 1) by {
                    if q < m0.len() {
                        assert(mv[q] == m0[q]);
                        lemma_numeric_count_prefix(m0, mv, q);
                    } else {
                        assert(mv[q].1 == cval);
                        assert(numeric_count(mv, q) == numeric_count(m0, m0.len() as int));
                    }
                }
            }
        } else {
            proof {
                assert forall|kk: int|
                    0 <= kk < k + 1 && #[trigger] states.deep_view()[kk] != p.initial_state@
                    implies smap_contains(mapping.deep_view(), states.deep_view()[kk]) by {}
            }
        }
        k = k + 1;
    }
    proof {
        let mv = mapping.deep_view();
        assert forall|x: Seq<char>| #[trigger]
            smap_contains(mv, x) implies state_in_program(p, x) by {
            let q = choose|q: int| 0 <= q < mv.len() && (#[trigger] mv[q]).0 == x;
            if q == 0 {
            } else {
                let kk = choose|kk: int|
                    0 <= kk < k && states.deep_view()[kk] == (#[trigger] mv[q]).0;
                assert(seq_has(states.deep_view(), x));
            }
        }
        assert forall|x: Seq<char>| state_in_program(p, x) implies #[trigger] smap_contains(
            mv,
            x,
        ) by {
            if x == p.initial_state@ {
                assert(mv[0].0 == x);
            } else {
                assert(seq_has(states.deep_view(), x));
                let kk = choose|kk: int|
                    0 <= kk < states.deep_view().len() && states.deep_view()[kk] == x;
                assert(smap_contains(mv, states.deep_view()[kk]));
            }
        }
    }
    mapping
}

/// The four conventional halting names and their codes, spelled out.
pub proof fn lemma_special_shapes()
    ensures
        "halt"@ == seq!['h', 'a', 'l', 't'],
        "accept"@ == seq!['a', 'c', 'c', 'e', 'p', 't'],
        "stop"@ == seq!['s', 't', 'o', 'p'],
        "reject"@ == seq!['r', 'e', 'j', 'e', 'c', 't'],
        "h"@ == seq!['h'],
        "a"@ == seq!['a'],
        "s"@ == seq!['s'],
        "r"@ == seq!['r'],
        "0"@ == seq!['0'],
{
    reveal_strlit("halt");
    reveal_strlit("accept");
    reveal_strlit("stop");
    reveal_strlit("reject");
    reveal_strlit("h");
    reveal_strlit("a");
    reveal_strlit("s");
    reveal_strlit("r");
    reveal_strlit("0");
    assert("halt"@ =~= seq!['h', 'a', 'l', 't']);
    assert("accept"@ =~= seq!['a', 'c', 'c', 'e', 'p', 't']);
    assert("stop"@ =~= seq!['s', 't', 'o', 'p']);
    assert("reject"@ =~= seq!['r', 'e', 'j', 'e', 'c', 't']);
    assert("h"@ =~= seq!['h']);
    assert("a"@ =~= seq!['a']);
    assert("s"@ =~= seq!['s']);
    assert("r"@ =~= seq!['r']);
    assert("0"@ =~= seq!['0']);
}


/// The letter that stands for a direction in the encoded form.
pub open spec fn dir_char(d: Direction) -> char {
    match d {
        Direction::Left => 'L',
        Direction::Right => 'R',
        Direction::Stay => 'S',
    }
}

/// Each tape symbol as a one-character part.
pub open spec fn tape_parts(t: Seq<char>) -> Seq<Seq<char>> {
    Seq::new(t.len(), |i: int| seq![t[i]])
}

/// The tape section of the encoded form: the first tape's symbols joined
/// with commas, or nothing for a program without tapes.
pub open spec fn tape_section(p: Program) -> Seq<char> {
    if p.tapes@.len() > 0 {
        join_seqs(tape_parts(p.tapes@[0]@), seq![','])
    } else {
        Seq::empty()
    }
}

/// Encodes the initial tape as comma-separated symbols.
#[verifier::loop_isolation(false)]
pub fn encode_initial_tape(program: &Program) -> (r: String)
    ensures
        r@ == tape_section(*program),
{
    if program.tapes.len() == 0 {
        let r = String::new();
        return r;
    }
    let tape = str_to_chars(program.tapes[0].as_str());
    let ghost parts = tape_parts(program.tapes@[0]@);
    let mut r = String::new();
    let mut i: usize = 0;
    proof {
        assert(parts.subrange(0, 0) =~= Seq::<Seq<char>>::empty());
        assert(r@ =~= join_seqs(parts.subrange(0, 0), seq![',']));
    }
    while i < tape.len()
        invariant
            i <= tape@.len(),
            tape@ == program.tapes@[0]@,
            r@ == join_seqs(parts.subrange(0, i as int), seq![',']),
        decreases tape@.len() - i,
    {
        if i > 0 {
            push_char(&mut r, ',');
        }
        push_char(&mut r, tape[i]);
        proof {
            crate::strutil::lemma_join_push(parts.subrange(0, i as int), seq![','], parts[i as int]);
            assert(parts.subrange(0, i as int).push(parts[i as int]) =~= parts.subrange(0, i + 1));
            assert(parts[i as int] == seq![tape@[i as int]]);
            assert(r@ =~= join_seqs(parts.subrange(0, i + 1), seq![',']));
        }
        i = i + 1;
    }
    proof {
        assert(parts.subrange(0, parts.len() as int) =~= parts);
    }
    r
}

/// A key with an entry has a transition list, and conversely.
pub proof fn lemma_rules_contains_get(m: RulesV, k: Seq<char>)
    ensures
        rules_contains_key(m, k) <==> rules_get(m, k) is Some,
    decreases m.len(),
{
    if m.len() > 0 {
        if m[0].0 == k {
        } else {
            lemma_rules_contains_get(m.drop_first(), k);
            if rules_contains_key(m, k) {
                let i = choose|i: int| 0 <= i < m.len() && (#[trigger] m[i]).0 == k;
                assert(m.drop_first()[i - 1].0 == k);
            }
            if rules_contains_key(m.drop_first(), k) {
                let i = choose|i: int|
                    0 <= i < m.drop_first().len() && (#[trigger] m.drop_first()[i]).0 == k;
                assert(m[i + 1].0 == k);
            }
        }
    }
}

/// A name with a code, and conversely.
pub proof fn lemma_smap_contains_get(m: StateMapV, k: Seq<char>)
    ensures
        smap_contains(m, k) <==> smap_get(m, k) is Some,
    decreases m.len(),
{
    if m.len() > 0 {
        if m[0].0 == k {
        } else {
            lemma_smap_contains_get(m.drop_first(), k);
            if smap_contains(m, k) {
                let i = choose|i: int| 0 <= i < m.len() && (#[trigger] m[i]).0 == k;
                assert(m.drop_first()[i - 1].0 == k);
            }
            if smap_contains(m.drop_first(), k) {
                let i = choose|i: int|
                    0 <= i < m.drop_first().len() && (#[trigger] m.drop_first()[i]).0 == k;
                assert(m[i + 1].0 == k);
            }
        }
    }
}

/// Looking a code up skips entries with other names.
proof fn lemma_smap_get_skip(m: StateMapV, k: Seq<char>, i: int)
    requires
        0 <= i < m.len(),
        smap_get(m, k) == smap_get(m.skip(i), k),
        m[i].0 != k,
    ensures
        smap_get(m, k) == smap_get(m.skip(i + 1), k),
{
    assert(m.skip(i).drop_first() =~= m.skip(i + 1));
}

/// The code bound to `k` in the mapping, if any.
#[verifier::loop_isolation(false)]
pub fn smap_lookup<'a>(mapping: &'a Vec<(String, String)>, k: &str) -> (r: Option<&'a String>)
    ensures
        match r {
            Some(c) => smap_get(mapping.deep_view(), k@) == Some(c@),
            None => smap_get(mapping.deep_view(), k@) is None,
        },
{
    let ghost m = mapping.deep_view();
    let mut i: usize = 0;
    proof {
        assert(m.skip(0) =~= m);
    }
    while i < mapping.len()
        invariant
            i <= m.len(),
            m == mapping.deep_view(),
            forall|j: int| 0 <= j < i ==> (#[trigger] m[j]).0 != k@,
            smap_get(m, k@) == smap_get(m.skip(i as int), k@),
        decreases m.len() - i,
    {
        if str_eq(mapping[i].0.as_str(), k) {
            proof {
                assert(m[i as int].0 == k@);
                assert(m.skip(i as int)[0] == m[i as int]);
            }
            return Some(&mapping[i].1);
        }
        proof {
            assert(m.skip(i as int)[0] == m[i as int]);
            lemma_smap_get_skip(m, k@, i as int);
        }
        i = i + 1;
    }
    None
}

/// The five fields of one encoded transition: the state code, the first
/// read symbol, the first write symbol, the direction letter, and the next
/// state's code. A missing symbol is encoded as the wildcard; a missing
/// direction as `S`.
pub open spec fn quint_fields(sm: StateMapV, key: Seq<char>, t: TransitionV) -> Seq<Seq<char>> {
    seq![
        smap_get(sm, key)->Some_0,
        seq![
            if t.read.len() > 0 {
                t.read[0]
            } else {
                crate::types::INPUT_BLANK_SYMBOL
            },
        ],
        seq![
            if t.write.len() > 0 {
                t.write[0]
            } else {
                crate::types::INPUT_BLANK_SYMBOL
            },
        ],
        seq![
            dir_char(
                if t.directions.len() > 0 {
                    t.directions[0]
                } else {
                    Direction::Stay
                },
            ),
        ],
        smap_get(sm, t.next_state)->Some_0,
    ]
}

/// One encoded transition: its five fields joined with commas.
pub open spec fn quint(sm: StateMapV, key: Seq<char>, t: TransitionV) -> Seq<char> {
    join_seqs(quint_fields(sm, key, t), seq![','])
}

/// The encoded transitions of one state, in declaration order.
pub open spec fn state_quints(sm: StateMapV, key: Seq<char>, ts: Seq<TransitionV>) -> Seq<
    Seq<char>,
> {
    Seq::new(ts.len(), |j: int| quint(sm, key, ts[j]))
}

/// The encoded transitions of the first `i` keys of `ks`, in order.
pub open spec fn quints_upto(sm: StateMapV, m: RulesV, ks: Seq<Seq<char>>, i: int) -> Seq<
    Seq<char>,
>
    decreases i,
{
    if i <= 0 {
        Seq::empty()
    } else {
        quints_upto(sm, m, ks, i - 1) + state_quints(sm, ks[i - 1], rules_get(m, ks[i - 1])->Some_0)
    }
}

/// The rules section of the encoded form: every transition of every key of
/// `ks`, joined with `|`.
pub open spec fn rules_section(sm: StateMapV, m: RulesV, ks: Seq<Seq<char>>) -> Seq<char> {
    join_seqs(quints_upto(sm, m, ks, ks.len() as int), seq!['|'])
}

/// Encodes the rules as `|`-joined quintuples, the states visited in
/// sorted-name order.
#[verifier::loop_isolation(false)]
#[verifier::rlimit(40)]
pub fn encode_rules(program: &Program, state_mapping: &Vec<(String, String)>) -> (r: String)
    requires
        forall|x: Seq<char>|
            state_in_program(*program, x) ==> #[trigger] smap_contains(
                state_mapping.deep_view(),
                x,
            ),
    ensures
        exists|ks: Seq<Seq<char>>|
            {
                &&& #[trigger] sorted_unique(ks)
                &&& forall|x: Seq<char>|
                    #![trigger seq_has(ks, x)]
                    seq_has(ks, x) <==> rules_contains_key(program.rules@, x)
                &&& r@ == rules_section(state_mapping.deep_view(), program.rules@, ks)
            },
{
    let ghost p = *program;
    let ghost sm = state_mapping.deep_view();
    // Sort the state keys for a deterministic output.
    let mut keys: Vec<Vec<char>> = Vec::new();
    let mut i: usize = 0;
    while i < program.rules.len()
        invariant
            i <= p.rules@.len(),
            sorted_unique(keys.deep_view()),
            forall|x: Seq<char>|
                #![trigger seq_has(keys.deep_view(), x)]
                seq_has(keys.deep_view(), x) <==> (exists|ii: int|
                    0 <= ii < i && (#[trigger] p.rules@[ii]).0 == x),
        decreases p.rules@.len() - i,
    {
        let ghost k0 = keys.deep_view();
        insert_sorted(&mut keys, &str_to_chars(program.rules.key_at(i).as_str()));
        proof {
            assert forall|x: Seq<char>|
                #![trigger seq_has(keys.deep_view(), x)]
                seq_has(keys.deep_view(), x) <==> (exists|ii: int|
                    0 <= ii < i + 1 && (#[trigger] p.rules@[ii]).0 == x) by {
                if seq_has(keys.deep_view(), x) {
                    if seq_has(k0, x) {
                        let ii = choose|ii: int| 0 <= ii < i && (#[trigger] p.rules@[ii]).0 == x;
                        assert(0 <= ii < i + 1 && p.rules@[ii].0 == x);
                    } else {
                        assert(p.rules@[i as int].0 == x);
                    }
                }
                if exists|ii: int| 0 <= ii < i + 1 && (#[trigger] p.rules@[ii]).0 == x {
                    let ii = choose|ii: int| 0 <= ii < i + 1 && (#[trigger] p.rules@[ii]).0 == x;
                    if ii < i {
                        assert(seq_has(k0, x));
                    }
                    assert(seq_has(keys.deep_view(), x));
                }
            }
        }
        i = i + 1;
    }
    let ghost ks = keys.deep_view();
    proof {
        assert forall|x: Seq<char>|
            #![trigger seq_has(ks, x)]
            seq_has(ks, x) <==> rules_contains_key(p.rules@, x) by {}
    }

    // Emit the quintuples, key by key, transition by transition.
    let mut r = String::new();
    let mut first: bool = true;
    proof {
        assert(r@ =~= join_seqs(quints_upto(sm, p.rules@, ks, 0), seq!['|']));
    }
    let mut k: usize = 0;
    while k < keys.len()
        invariant
            k <= ks.len(),
            ks == keys.deep_view(),
            sm == state_mapping.deep_view(),
            r@ == join_seqs(quints_upto(sm, p.rules@, ks, k as int), seq!['|']),
            first == (quints_upto(sm, p.rules@, ks, k as int).len() == 0),
        decreases ks.len() - k,
    {
        let key = chars_to_string(&keys[k]);
        proof {
            assert(key@ == ks[k as int]);
            assert(seq_has(ks, key@)) by {
                assert(ks[k as int] == key@);
            }
            lemma_rules_contains_get(p.rules@, key@);
        }
        let ts = match program.rules.get(key.as_str()) {
            Some(ts) => ts,
            None => {
                proof {
                    assert(false);
                }
                return r;
            },
        };
        let ghost tsv = ts.deep_view();
        let ghost state_done = quints_upto(sm, p.rules@, ks, k as int);
        let mut j: usize = 0;
        while j < ts.len()
            invariant
                j <= tsv.len(),
                tsv == ts.deep_view(),
                k < ks.len(),
                ks == keys.deep_view(),
                sm == state_mapping.deep_view(),
                key@ == ks[k as int],
                rules_get(p.rules@, ks[k as int]) == Some(tsv),
                state_done == quints_upto(sm, p.rules@, ks, k as int),
                r@ == join_seqs(
                    state_done + state_quints(sm, key@, tsv).subrange(0, j as int),
                    seq!['|'],
                ),
                first == ((state_done + state_quints(sm, key@, tsv).subrange(0, j as int)).len()
                    == 0),
                forall|x: Seq<char>|
                    state_in_program(p, x) ==> #[trigger] smap_contains(sm, x),
            decreases tsv.len() - j,
        {
            let t = &ts[j];
            proof {
                assert(tsv[j as int] == t@);
                assert(state_in_program(p, key@)) by {
                    let ii = choose|ii: int|
                        0 <= ii < p.rules@.len() && (#[trigger] p.rules@[ii]).0 == key@;
                }
                assert(state_in_program(p, t@.next_state)) by {
                    crate::machine::lemma_rules_get_is_entry(p.rules@, key@);
                    let ii = choose|ii: int|
                        0 <= ii < p.rules@.len() && (#[trigger] p.rules@[ii]).0 == key@
                            && p.rules@[ii].1 == tsv;
                    assert(p.rules@[ii].1[j as int].next_state == t@.next_state);
                    assert(crate::analyzer::state_referenced(p.rules@, t@.next_state));
                }
                lemma_smap_contains_get(sm, key@);
                lemma_smap_contains_get(sm, t@.next_state);
            }
            let code = match smap_lookup(state_mapping, key.as_str()) {
                Some(c) => c,
                None => {
                    proof {
                        assert(false);
                    }
                    return r;
                },
            };
            let ncode = match smap_lookup(state_mapping, t.next_state.as_str()) {
                Some(c) => c,
                None => {
                    proof {
                        assert(false);
                    }
                    return r;
                },
            };
            let read0 = if t.read.len() > 0 {
                t.read[0]
            } else {
                crate::types::INPUT_BLANK_SYMBOL
            };
            let write0 = if t.write.len() > 0 {
                t.write[0]
            } else {
                crate::types::INPUT_BLANK_SYMBOL
            };
            let dir0 = if t.directions.len() > 0 {
                match t.directions[0] {
                    Direction::Left => 'L',
                    Direction::Right => 'R',
                    Direction::Stay => 'S',
                }
            } else {
                'S'
            };
            let mut q = code.clone();
            push_char(&mut q, ',');
            push_char(&mut q, read0);
            push_char(&mut q, ',');
            push_char(&mut q, write0);
            push_char(&mut q, ',');
            push_char(&mut q, dir0);
            push_char(&mut q, ',');
            q.append(ncode.as_str());
            proof {
                let f = quint_fields(sm, key@, t@);
                assert(f.drop_first() =~= seq![f[1], f[2], f[3], f[4]]);
                assert(seq![f[1], f[2], f[3], f[4]].drop_first() =~= seq![f[2], f[3], f[4]]);
                assert(seq![f[2], f[3], f[4]].drop_first() =~= seq![f[3], f[4]]);
                assert(seq![f[3], f[4]].drop_first() =~= seq![f[4]]);
                assert(join_seqs(seq![f[4]], seq![',']) == f[4]);
                assert(join_seqs(seq![f[3], f[4]], seq![',']) == f[3] + seq![','] + join_seqs(
                    seq![f[4]],
                    seq![','],
                ));
                assert(join_seqs(seq![f[2], f[3], f[4]], seq![',']) == f[2] + seq![',']
                    + join_seqs(seq![f[3], f[4]], seq![',']));
                assert(join_seqs(seq![f[1], f[2], f[3], f[4]], seq![',']) == f[1] + seq![',']
                    + join_seqs(seq![f[2], f[3], f[4]], seq![',']));
                assert(quint(sm, key@, t@) == f[0] + seq![','] + join_seqs(
                    seq![f[1], f[2], f[3], f[4]],
                    seq![','],
                ));
                assert(f[1] == seq![read0]);
                assert(f[2] == seq![write0]);
                assert(f[3] == seq![dir0]);
                assert(q@ =~= quint(sm, key@, t@));
            }
            if !first {
                push_char(&mut r, '|');
            }
            first = false;
            r.append(q.as_str());
            proof {
                let parts = state_done + state_quints(sm, key@, tsv).subrange(0, j as int);
                crate::strutil::lemma_join_push(parts, seq!['|'], quint(sm, key@, t@));
                assert(state_quints(sm, key@, tsv).subrange(0, j as int).push(
                    quint(sm, key@, t@),
                ) =~= state_quints(sm, key@, tsv).subrange(0, j + 1));
                assert(parts.push(quint(sm, key@, t@)) =~= state_done + state_quints(
                    sm,
                    key@,
                    tsv,
                ).subrange(0, j + 1));
                assert(r@ =~= join_seqs(
                    state_done + state_quints(sm, key@, tsv).subrange(0, j + 1),
                    seq!['|'],
                ));
            }
            j = j + 1;
        }
        proof {
            assert(state_quints(sm, key@, tsv).subrange(0, tsv.len() as int) =~= state_quints(
                sm,
                key@,
                tsv,
            ));
            assert(state_done + state_quints(sm, key@, tsv) =~= quints_upto(
                sm,
                p.rules@,
                ks,
                k + 1,
            ));
        }
        k = k + 1;
    }
    proof {
        assert(r@ == rules_section(sm, p.rules@, ks));
    }
    r
}


/// Encodes a program as `name:tape:rules`: the name, the first tape's
/// symbols joined with commas, and the `|`-joined transition quintuples
/// with states renumbered by the canonical state mapping.
pub fn encode(program: &Program) -> (r: String)
    requires
        encoder_universe(*program).len() < usize::MAX - 1,
    ensures
        exists|sm: StateMapV, ks: Seq<Seq<char>>|
            {
                &&& #[trigger] state_mapping_ok(*program, sm)
                &&& #[trigger] sorted_unique(ks)
                &&& forall|x: Seq<char>|
                    #![trigger seq_has(ks, x)]
                    seq_has(ks, x) <==> rules_contains_key(program.rules@, x)
                &&& r@ == program.name@ + seq![':'] + tape_section(*program) + seq![':']
                    + rules_section(sm, program.rules@, ks)
            },
{
    let state_mapping = create_state_mapping(program);
    proof {
        assert forall|x: Seq<char>|
            state_in_program(*program, x) implies #[trigger] smap_contains(
            state_mapping.deep_view(),
            x,
        ) by {}
    }
    let rules_text = encode_rules(program, &state_mapping);
    let tape_text = encode_initial_tape(program);
    let mut r = program.name.clone();
    push_char(&mut r, ':');
    r.append(tape_text.as_str());
    push_char(&mut r, ':');
    r.append(rules_text.as_str());
    proof {
        let sm = state_mapping.deep_view();
        let ks = choose|ks: Seq<Seq<char>>|
            {
                &&& #[trigger] sorted_unique(ks)
                &&& forall|x: Seq<char>|
                    #![trigger seq_has(ks, x)]
                    seq_has(ks, x) <==> rules_contains_key(program.rules@, x)
                &&& rules_text@ == rules_section(sm, program.rules@, ks)
            };
        assert(r@ =~= program.name@ + seq![':'] + tape_section(*program) + seq![':']
            + rules_section(sm, program.rules@, ks));
    }
    r
}


/// Whether every character of `s` is a decimal digit.
pub open spec fn all_digits(s: Seq<char>) -> bool {
    forall|i: int| 0 <= i < s.len() ==> '0' <= #[trigger] s[i] && s[i] <= '9'
}

/// The numeric value of a digit string, most significant digit first.
pub open spec fn dec_value(s: Seq<char>) -> int
    decreases s.len(),
{
    if s.len() == 0 {
        0
    } else {
        dec_value(s.drop_last()) * 10 + (s.last() as int - 48)
    }
}

/// The value of a digit string is non-negative.
pub proof fn lemma_dec_value_nonneg(s: Seq<char>)
    requires
        all_digits(s),
    ensures
        dec_value(s) >= 0,
    decreases s.len(),
{
    if s.len() > 0 {
        assert(all_digits(s.drop_last())) by {
            assert(forall|i: int|
                0 <= i < s.drop_last().len() ==> s.drop_last()[i] == #[trigger] s[i]);
        }
        lemma_dec_value_nonneg(s.drop_last());
    }
}

/// One more digit multiplies the value by ten and adds the digit.
pub proof fn lemma_dec_value_push(s: Seq<char>, c: char)
    ensures
        dec_value(s.push(c)) == dec_value(s) * 10 + (c as int - 48),
{
    assert(s.push(c).drop_last() =~= s);
    assert(s.push(c).last() == c);
}

/// The digits of a decimal rendering evaluate back to the number.
pub proof fn lemma_dec_digits_value(n: int)
    requires
        n >= 0,
    ensures
        all_digits(dec_digits(n)),
        dec_value(dec_digits(n)) == n,
    decreases n,
{
    if n < 10 {
        assert(dec_digits(n) == seq![crate::strutil::digit_char(n)]);
        assert(dec_digits(n).drop_last() =~= Seq::<char>::empty());
        assert(dec_digits(n).last() == crate::strutil::digit_char(n));
        assert(dec_value(Seq::<char>::empty()) == 0);
        assert(crate::strutil::digit_char(n) as int == n + 48) by {
            assert((((n + 48) as u8) as char) as int == ((n + 48) as u8) as int);
        }
    } else {
        lemma_dec_digits_value(n / 10);
        lemma_dec_digits_are_digits(n);
        assert(dec_digits(n) == dec_digits(n / 10).push(crate::strutil::digit_char(n % 10)));
        lemma_dec_value_push(dec_digits(n / 10), crate::strutil::digit_char(n % 10));
        assert(crate::strutil::digit_char(n % 10) as int == n % 10 + 48) by {
            assert((((n % 10 + 48) as u8) as char) as int == ((n % 10 + 48) as u8) as int);
        }
    }
}

/// The number a digit string denotes, when it is one and its value does not
/// exceed the bound the original format allows.
pub fn parse_decimal(v: &Vec<char>) -> (r: Option<usize>)
    ensures
        match r {
            Some(n) => v@.len() > 0 && all_digits(v@) && n as int == dec_value(v@) && n as int
                <= u32::MAX as int,
            None => v@.len() == 0 || !all_digits(v@) || dec_value(v@) > u32::MAX as int,
        },
{
    if v.len() == 0 {
        return None;
    }
    let mut acc: u64 = 0;
    let mut i: usize = 0;
    while i < v.len()
        invariant
            i <= v@.len(),
            v@.len() > 0,
            all_digits(v@.subrange(0, i as int)),
            acc as int == dec_value(v@.subrange(0, i as int)),
            acc <= u32::MAX as u64,
        decreases v@.len() - i,
    {
        let c = v[i];
        if !(c >= '0' && c <= '9') {
            proof {
                assert(!all_digits(v@));
            }
            return None;
        }
        let d: u64 = (c as u8 - 48) as u64;
        let next: u64 = acc * 10 + d;
        proof {
            assert(v@.subrange(0, i as int).push(c) =~= v@.subrange(0, i + 1));
            lemma_dec_value_push(v@.subrange(0, i as int), c);
            assert(d as int == c as int - 48) by {
                assert('0' <= c && c <= '9');
            }
        }
        if next > u32::MAX as u64 {
            proof {
                // once a prefix exceeds the bound, the whole string does
                let ghost k = i + 1;
                assert(dec_value(v@.subrange(0, k as int)) > u32::MAX as int);
                lemma_dec_value_prefix_monotone(v@, k as int);
            }
            return None;
        }
        acc = next;
        i = i + 1;
    }
    proof {
        assert(v@.subrange(0, v@.len() as int) =~= v@);
    }
    Some(acc as usize)
}

/// If a prefix of a digit string exceeds a bound, so does the whole
/// string; if the rest is not all digits, the whole string is not either.
pub proof fn lemma_dec_value_prefix_monotone(s: Seq<char>, k: int)
    requires
        0 <= k <= s.len(),
        all_digits(s.subrange(0, k)),
        dec_value(s.subrange(0, k)) > u32::MAX as int,
    ensures
        !all_digits(s) || dec_value(s) > u32::MAX as int,
    decreases s.len() - k,
{
    if k == s.len() {
        assert(s.subrange(0, k) =~= s);
    } else {
        if all_digits(s) {
            assert(s.subrange(0, k).push(s[k]) =~= s.subrange(0, k + 1));
            lemma_dec_value_push(s.subrange(0, k), s[k]);
            assert(all_digits(s.subrange(0, k + 1))) by {
                assert(forall|j: int|
                    0 <= j < k + 1 ==> s.subrange(0, k + 1)[j] == #[trigger] s[j]);
            }
            assert(dec_value(s.subrange(0, k + 1)) > u32::MAX as int) by {
                assert(s[k] as int - 48 >= 0);
                assert(dec_value(s.subrange(0, k)) * 10 > u32::MAX as int * 10) by (nonlinear_arith)
                    requires
                        dec_value(s.subrange(0, k)) > u32::MAX as int,
                ;
            }
            lemma_dec_value_prefix_monotone(s, k + 1);
        }
    }
}

/// The state name a code stands for after decoding: the one-letter codes
/// map back to their conventional names, `0` maps to `start`, a numeric
/// code `n` becomes a synthesized `s`-name, and anything else is kept
/// verbatim.
pub open spec fn decoded_state_name(code: Seq<char>) -> Seq<char> {
    if code == "h"@ {
        "halt"@
    } else if code == "a"@ {
        "accept"@
    } else if code == "s"@ {
        "stop"@
    } else if code == "r"@ {
        "reject"@
    } else if code == "0"@ {
        "start"@
    } else if code.len() > 0 && all_digits(code) && dec_value(code) <= u32::MAX as int {
        if dec_value(code) == 1 {
            "s2"@
        } else {
            seq!['s'] + dec_digits(dec_value(code) + 1)
        }
    } else {
        code
    }
}

/// The original state name a code stands for.
pub fn decode_state_name(code: &Vec<char>) -> (r: String)
    ensures
        r@ == decoded_state_name(code@),
{
    if chars_eq(code, &str_to_chars("h")) {
        return "halt".to_owned();
    }
    if chars_eq(code, &str_to_chars("a")) {
        return "accept".to_owned();
    }
    if chars_eq(code, &str_to_chars("s")) {
        return "stop".to_owned();
    }
    if chars_eq(code, &str_to_chars("r")) {
        return "reject".to_owned();
    }
    if chars_eq(code, &str_to_chars("0")) {
        return "start".to_owned();
    }
    match parse_decimal(code) {
        Some(n) => {
            if n == 1 {
                "s2".to_owned()
            } else {
                let mut r = "s".to_owned();
                r.append(crate::strutil::u64_to_string(n as u64 + 1).as_str());
                proof {
                    reveal_strlit("s");
                    assert(r@ =~= seq!['s'] + dec_digits(dec_value(code@) + 1));
                }
                r
            }
        },
        None => chars_to_string(code),
    }
}


/// The field lists of the encoded transitions: each `|`-part split on
/// commas.
pub open spec fn rule_quints(s: Seq<char>) -> Seq<Seq<Seq<char>>> {
    Seq::new(split_seq(s, '|').len(), |i: int| split_seq(split_seq(s, '|')[i], ','))
}

/// Whether every encoded transition has exactly five fields.
pub open spec fn rules_well_formed(s: Seq<char>) -> bool {
    s.len() == 0 || forall|i: int|
        0 <= i < rule_quints(s).len() ==> (#[trigger] rule_quints(s)[i]).len() == 5
}

/// Whether code `c` occurs as a source or target state in the encoded
/// rules.
pub open spec fn code_in_rules(s: Seq<char>, c: Seq<char>) -> bool {
    s.len() > 0 && exists|i: int|
        0 <= i < rule_quints(s).len() && (#[trigger] rule_quints(s)[i]).len() == 5 && (rule_quints(
            s,
        )[i][0] == c || rule_quints(s)[i][4] == c)
}

/// The message for a transition with the wrong number of fields.
pub open spec fn rule_format_message(part: Seq<char>) -> Seq<char> {
    "Invalid rule format: "@ + part
}

/// Adds code `c` to the list unless it is already present, keeping the
/// list duplicate-free.
#[verifier::loop_isolation(false)]
fn push_code(codes: &mut Vec<Vec<char>>, c: &Vec<char>)
    requires
        forall|q1: int, q2: int|
            0 <= q1 < q2 < old(codes).deep_view().len() ==> old(codes).deep_view()[q1] != old(
                codes,
            ).deep_view()[q2],
    ensures
        forall|q1: int, q2: int|
            0 <= q1 < q2 < final(codes).deep_view().len() ==> final(codes).deep_view()[q1]
                != final(codes).deep_view()[q2],
        forall|x: Seq<char>|
            #![trigger seq_has(final(codes).deep_view(), x)]
            #![trigger seq_has(old(codes).deep_view(), x)]
            seq_has(final(codes).deep_view(), x) <==> (seq_has(old(codes).deep_view(), x) || x
                == c@),
{
    let ghost c0 = codes.deep_view();
    if !crate::strutil::vec_has_chars(codes, c) {
        codes.push(copy_chars(c));
        proof {
            assert(codes@.len() == c0.len() + 1);
            assert(codes.deep_view().len() == c0.len() + 1);
            assert(forall|q: int| 0 <= q < c0.len() ==> codes.deep_view()[q] == c0[q]);
            assert(codes.deep_view()[c0.len() as int] == c@);
            assert forall|q1: int, q2: int|
                0 <= q1 < q2 < codes.deep_view().len() implies codes.deep_view()[q1]
                != codes.deep_view()[q2] by {
                if q2 == c0.len() {
                    assert(codes.deep_view()[q1] == c0[q1]);
                    if codes.deep_view()[q1] == c@ {
                        assert(c0[q1] == c@);
                        assert(seq_has(c0, c@));
                    }
                } else {
                    assert(codes.deep_view()[q1] == c0[q1]);
                    assert(codes.deep_view()[q2] == c0[q2]);
                }
            }
            assert forall|x: Seq<char>|
                #![trigger seq_has(codes.deep_view(), x)]
                seq_has(codes.deep_view(), x) <==> (seq_has(c0, x) || x == c@) by {
                if seq_has(codes.deep_view(), x) {
                    let q = choose|q: int|
                        0 <= q < codes.deep_view().len() && codes.deep_view()[q] == x;
                    if q < c0.len() {
                        assert(c0[q] == x);
                        assert(seq_has(c0, x));
                    }
                }
                if seq_has(c0, x) {
                    let q = choose|q: int| 0 <= q < c0.len() && c0[q] == x;
                    assert(codes.deep_view()[q] == x);
                }
                if x == c@ {
                    assert(codes.deep_view()[c0.len() as int] == x);
                }
            }
        }
    }
}

/// Scans the encoded rules and builds the mapping from state codes back to
/// synthesized state names; the code `0` is always included.
#[verifier::loop_isolation(false)]
pub fn decode_states_from_rules(rules_section: &str) -> (r: Result<Vec<(String, String)>, String>)
    ensures
        r is Ok <==> rules_well_formed(rules_section@),
        r is Ok ==> {
            let m = (r->Ok_0).deep_view();
            &&& forall|q1: int, q2: int|
                0 <= q1 < q2 < m.len() ==> (#[trigger] m[q1]).0 != (#[trigger] m[q2]).0
            &&& forall|c: Seq<char>|
                #[trigger] smap_contains(m, c) <==> (c == "0"@ || code_in_rules(rules_section@, c))
            &&& forall|q: int|
                0 <= q < m.len() ==> (#[trigger] m[q]).1 == decoded_state_name(m[q].0)
        },
        r is Err ==> exists|i: int|
            {
                &&& 0 <= i < rule_quints(rules_section@).len()
                &&& (#[trigger] rule_quints(rules_section@)[i]).len() != 5
                &&& forall|j: int|
                    0 <= j < i ==> (#[trigger] rule_quints(rules_section@)[j]).len() == 5
                &&& (r->Err_0)@ == rule_format_message(split_seq(rules_section@, '|')[i])
            },
{
    let ghost s = rules_section@;
    let chars = str_to_chars(rules_section);
    let mut codes: Vec<Vec<char>> = Vec::new();
    if chars.len() > 0 {
        let groups = split_chars(&chars, '|');
        let ghost gs = groups.deep_view();
        let mut i: usize = 0;
        while i < groups.len()
            invariant
                i <= gs.len(),
                gs == groups.deep_view(),
                gs == split_seq(s, '|'),
                s.len() > 0,
                forall|j: int| 0 <= j < i ==> (#[trigger] rule_quints(s)[j]).len() == 5,
                forall|q1: int, q2: int|
                    0 <= q1 < q2 < codes.deep_view().len() ==> codes.deep_view()[q1]
                        != codes.deep_view()[q2],
                forall|c: Seq<char>|
                    #![trigger seq_has(codes.deep_view(), c)]
                    seq_has(codes.deep_view(), c) <==> (exists|ii: int|
                        0 <= ii < i && (#[trigger] rule_quints(s)[ii]).len() == 5 && (rule_quints(
                            s,
                        )[ii][0] == c || rule_quints(s)[ii][4] == c)),
            decreases gs.len() - i,
        {
            let fields = split_chars(&groups[i], ',');
            proof {
                assert(groups@[i as int]@ == gs[i as int]);
                assert(fields.deep_view() == rule_quints(s)[i as int]);
            }
            if fields.len() != 5 {
                let mut m = "Invalid rule format: ".to_owned();
                m.append(chars_to_string(&groups[i]).as_str());
                proof {
                    assert(m@ =~= rule_format_message(split_seq(s, '|')[i as int]));
                }
                return Err(m);
            }
            let ghost c0 = codes.deep_view();
            proof {
                assert(fields.deep_view()[0] == fields@[0]@);
                assert(fields.deep_view()[4] == fields@[4]@);
            }
            push_code(&mut codes, &fields[0]);
            let ghost c1 = codes.deep_view();
            push_code(&mut codes, &fields[4]);
            proof {
                let c2 = codes.deep_view();
                assert(seq_has(c2, rule_quints(s)[i as int][4]));
                assert(seq_has(c2, rule_quints(s)[i as int][0])) by {
                    assert(seq_has(c1, rule_quints(s)[i as int][0]));
                }
                assert forall|c: Seq<char>|
                    #![trigger seq_has(codes.deep_view(), c)]
                    seq_has(codes.deep_view(), c) <==> (exists|ii: int|
                        0 <= ii < i + 1 && (#[trigger] rule_quints(s)[ii]).len() == 5 && (
                        rule_quints(s)[ii][0] == c || rule_quints(s)[ii][4] == c)) by {
                    if seq_has(c2, c) {
                        if c == rule_quints(s)[i as int][0] || c == rule_quints(s)[i as int][4] {
                            assert(0 <= i < i + 1 && rule_quints(s)[i as int].len() == 5 && (
                            rule_quints(s)[i as int][0] == c || rule_quints(s)[i as int][4] == c));
                        } else {
                            assert(seq_has(c1, c));
                            assert(seq_has(c0, c));
                            let ii = choose|ii: int|
                                0 <= ii < i && (#[trigger] rule_quints(s)[ii]).len() == 5 && (
                                rule_quints(s)[ii][0] == c || rule_quints(s)[ii][4] == c);
                            assert(0 <= ii < i + 1 && rule_quints(s)[ii].len() == 5 && (
                            rule_quints(s)[ii][0] == c || rule_quints(s)[ii][4] == c));
                        }
                    }
                    if exists|ii: int|
                        0 <= ii < i + 1 && (#[trigger] rule_quints(s)[ii]).len() == 5 && (
                        rule_quints(s)[ii][0] == c || rule_quints(s)[ii][4] == c) {
                        let ii = choose|ii: int|
                            0 <= ii < i + 1 && (#[trigger] rule_quints(s)[ii]).len() == 5 && (
                            rule_quints(s)[ii][0] == c || rule_quints(s)[ii][4] == c);
                        if ii < i {
                            assert(seq_has(c0, c));
                            assert(seq_has(c1, c));
                            assert(seq_has(c2, c));
                        } else {
                            if c == rule_quints(s)[i as int][0] {
                                assert(seq_has(c1, c));
                                assert(seq_has(c2, c));
                            } else {
                                assert(seq_has(c2, c));
                            }
                        }
                    }
                }
            }
            i = i + 1;
        }
        proof {
            assert(i == rule_quints(s).len());
            assert forall|c: Seq<char>|
                #![trigger seq_has(codes.deep_view(), c)]
                seq_has(codes.deep_view(), c) <==> code_in_rules(s, c) by {
                if code_in_rules(s, c) {
                    let ii = choose|ii: int|
                        0 <= ii < rule_quints(s).len() && (#[trigger] rule_quints(s)[ii]).len()
                            == 5 && (rule_quints(s)[ii][0] == c || rule_quints(s)[ii][4] == c);
                    assert(seq_has(codes.deep_view(), c));
                }
            }
        }
    } else {
        proof {
            assert(s.len() == 0);
            assert forall|c: Seq<char>|
                #![trigger seq_has(codes.deep_view(), c)]
                seq_has(codes.deep_view(), c) <==> code_in_rules(s, c) by {
                assert(codes.deep_view().len() == 0);
            }
        }
    }
    // the initial state's code is always present
    let zero = str_to_chars("0");
    let ghost cfin = codes.deep_view();
    proof {
        assert(forall|c: Seq<char>|
            #[trigger] seq_has(cfin, c) <==> code_in_rules(s, c));
    }
    push_code(&mut codes, &zero);
    proof {
        reveal_strlit("0");
        assert(zero@ == "0"@);
        assert forall|c: Seq<char>|
            #![trigger seq_has(codes.deep_view(), c)]
            seq_has(codes.deep_view(), c) <==> (c == "0"@ || code_in_rules(s, c)) by {
            assert(seq_has(codes.deep_view(), c) <==> (seq_has(cfin, c) || c == "0"@));
        }
    }
    // map each code to its synthesized name
    let mut mapping: Vec<(String, String)> = Vec::new();
    let mut k: usize = 0;
    while k < codes.len()
        invariant
            k <= codes.deep_view().len(),
            mapping.deep_view().len() == k,
            forall|q: int|
                0 <= q < k ==> (#[trigger] mapping.deep_view()[q]) == (
                    codes.deep_view()[q],
                    decoded_state_name(codes.deep_view()[q]),
                ),
        decreases codes.deep_view().len() - k,
    {
        proof {
            assert(codes.deep_view()[k as int] == codes@[k as int]@);
        }
        let name = decode_state_name(&codes[k]);
        let code_s = chars_to_string(&codes[k]);
        let ghost prev = mapping.deep_view();
        mapping.push((code_s, name));
        proof {
            assert(mapping@.len() == k + 1);
            assert(mapping.deep_view().len() == k + 1);
            assert(forall|q: int| 0 <= q < k ==> mapping.deep_view()[q] == prev[q]);
            assert forall|q: int| 0 <= q < k + 1 implies (#[trigger] mapping.deep_view()[q]) == (
                codes.deep_view()[q],
                decoded_state_name(codes.deep_view()[q]),
            ) by {
                if q < k {
                    assert(mapping.deep_view()[q] == prev[q]);
                    assert(prev[q] == (codes.deep_view()[q], decoded_state_name(
                        codes.deep_view()[q],
                    )));
                } else {
                    assert(mapping.deep_view()[k as int] == (
                        codes.deep_view()[k as int],
                        decoded_state_name(codes.deep_view()[k as int]),
                    ));
                }
            }
        }
        k = k + 1;
    }
    proof {
        let m = mapping.deep_view();
        let cs = codes.deep_view();
        assert forall|c: Seq<char>| #[trigger]
            smap_contains(m, c) <==> (c == "0"@ || code_in_rules(s, c)) by {
            if smap_contains(m, c) {
                let q = choose|q: int| 0 <= q < m.len() && (#[trigger] m[q]).0 == c;
                assert(cs[q] == c);
                assert(seq_has(cs, c));
            }
            if c == "0"@ || code_in_rules(s, c) {
                assert(seq_has(cs, c));
                let q = choose|q: int| 0 <= q < cs.len() && cs[q] == c;
                assert(m[q].0 == c);
            }
        }
        assert forall|q1: int, q2: int|
            0 <= q1 < q2 < m.len() implies (#[trigger] m[q1]).0 != (#[trigger] m[q2]).0 by {
            assert(cs[q1] != cs[q2]);
        }
    }
    Ok(mapping)
}


/// The first character of a field, or a default for an empty field.
pub open spec fn first_char_or(s: Seq<char>, d: char) -> char {
    if s.len() > 0 {
        s[0]
    } else {
        d
    }
}

/// Whether a character is a direction letter.
pub open spec fn valid_dir_char(c: char) -> bool {
    c == 'L' || c == 'R' || c == 'S'
}

/// The direction a letter stands for.
pub open spec fn char_dir(c: char) -> Direction {
    if c == 'L' {
        Direction::Left
    } else if c == 'R' {
        Direction::Right
    } else {
        Direction::Stay
    }
}

/// Whether an encoded transition is usable: five fields and a valid
/// direction letter.
pub open spec fn quint_ok(s: Seq<char>, j: int) -> bool {
    &&& rule_quints(s)[j].len() == 5
    &&& valid_dir_char(first_char_or(rule_quints(s)[j][3], 'S'))
}

/// The single-tape transition an encoded quintuple stands for.
pub open spec fn quint_transition(q: Seq<Seq<char>>) -> TransitionV {
    TransitionV {
        read: seq![first_char_or(q[1], crate::types::INPUT_BLANK_SYMBOL)],
        write: seq![first_char_or(q[2], crate::types::INPUT_BLANK_SYMBOL)],
        directions: seq![char_dir(first_char_or(q[3], 'S'))],
        next_state: decoded_state_name(q[4]),
    }
}

/// The rules decoded from the first `i` quintuples: each transition is
/// appended under its decoded source state, in order of appearance.
pub open spec fn decoded_rules_upto(qs: Seq<Seq<Seq<char>>>, i: int) -> RulesV
    decreases i,
{
    if i <= 0 {
        Seq::empty()
    } else {
        crate::types::rules_add(
            decoded_rules_upto(qs, i - 1),
            decoded_state_name(qs[i - 1][0]),
            quint_transition(qs[i - 1]),
        )
    }
}

/// The message for an unsupported direction letter.
pub open spec fn direction_message(c: char) -> Seq<char> {
    "Invalid direction: "@ + seq![c]
}

/// A code has a name, and the name is the synthesized one.
pub proof fn lemma_smap_get_decoded(m: StateMapV, c: Seq<char>)
    requires
        forall|q: int|
            0 <= q < m.len() ==> (#[trigger] m[q]).1 == decoded_state_name(m[q].0),
        smap_contains(m, c),
    ensures
        smap_get(m, c) == Some(decoded_state_name(c)),
    decreases m.len(),
{
    lemma_smap_contains_get(m, c);
    if m.len() > 0 {
        if m[0].0 == c {
            assert(m[0].1 == decoded_state_name(c));
        } else {
            assert forall|q: int|
                0 <= q < m.drop_first().len() implies (#[trigger] m.drop_first()[q]).1
                == decoded_state_name(m.drop_first()[q].0) by {
                assert(m.drop_first()[q] == m[q + 1]);
            }
            assert(smap_contains(m.drop_first(), c)) by {
                let q = choose|q: int| 0 <= q < m.len() && (#[trigger] m[q]).0 == c;
                assert(m.drop_first()[q - 1].0 == c);
            }
            lemma_smap_get_decoded(m.drop_first(), c);
        }
    }
}

/// Rebuilds the transition rules from the encoded rules section, using the
/// code-to-name mapping for the state fields.
#[verifier::loop_isolation(false)]
pub fn decode_rules(rules_section: &str, state_mapping: &Vec<(String, String)>) -> (r: Result<
    Rules,
    String,
>)
    requires
        forall|q: int|
            0 <= q < state_mapping.deep_view().len() ==> (#[trigger] state_mapping.deep_view()[
                q
            ]).1 == decoded_state_name(state_mapping.deep_view()[q].0),
        forall|c: Seq<char>|
            code_in_rules(rules_section@, c) ==> #[trigger] smap_contains(
                state_mapping.deep_view(),
                c,
            ),
    ensures
        r is Ok <==> (rules_section@.len() == 0 || forall|j: int|
            0 <= j < rule_quints(rules_section@).len() ==> #[trigger] quint_ok(rules_section@, j)),
        r is Ok ==> (r->Ok_0)@ == if rules_section@.len() == 0 {
            Seq::<(Seq<char>, Seq<TransitionV>)>::empty()
        } else {
            decoded_rules_upto(
                rule_quints(rules_section@),
                rule_quints(rules_section@).len() as int,
            )
        },
        r is Err ==> exists|i: int|
            {
                &&& 0 <= i < rule_quints(rules_section@).len()
                &&& !#[trigger] quint_ok(rules_section@, i)
                &&& forall|j: int| 0 <= j < i ==> #[trigger] quint_ok(rules_section@, j)
                &&& if rule_quints(rules_section@)[i].len() != 5 {
                    (r->Err_0)@ == rule_format_message(split_seq(rules_section@, '|')[i])
                } else {
                    (r->Err_0)@ == direction_message(
                        first_char_or(rule_quints(rules_section@)[i][3], 'S'),
                    )
                }
            },
{
    let ghost s = rules_section@;
    let ghost sm = state_mapping.deep_view();
    let mut rules = Rules::new();
    let chars = str_to_chars(rules_section);
    if chars.len() == 0 {
        return Ok(rules);
    }
    let groups = split_chars(&chars, '|');
    let ghost gs = groups.deep_view();
    let ghost qs = rule_quints(s);
    let mut i: usize = 0;
    while i < groups.len()
        invariant
            i <= gs.len(),
            gs == groups.deep_view(),
            gs == split_seq(s, '|'),
            qs == rule_quints(s),
            s.len() > 0,
            sm == state_mapping.deep_view(),
            forall|q: int|
                0 <= q < sm.len() ==> (#[trigger] sm[q]).1 == decoded_state_name(sm[q].0),
            forall|c: Seq<char>| code_in_rules(s, c) ==> #[trigger] smap_contains(sm, c),
            forall|j: int| 0 <= j < i ==> #[trigger] quint_ok(s, j),
            rules@ == decoded_rules_upto(qs, i as int),
        decreases gs.len() - i,
    {
        let fields = split_chars(&groups[i], ',');
        proof {
            assert(groups@[i as int]@ == gs[i as int]);
            assert(fields.deep_view() == qs[i as int]);
        }
        if fields.len() != 5 {
            let mut m = "Invalid rule format: ".to_owned();
            m.append(chars_to_string(&groups[i]).as_str());
            proof {
                assert(m@ =~= rule_format_message(split_seq(s, '|')[i as int]));
                assert(!quint_ok(s, i as int));
            }
            return Err(m);
        }
        let dchar = if fields[3].len() > 0 {
            fields[3][0]
        } else {
            'S'
        };
        proof {
            assert(fields.deep_view()[3] == fields@[3]@);
            assert(dchar == first_char_or(qs[i as int][3], 'S'));
        }
        let direction = if dchar == 'L' {
            Direction::Left
        } else if dchar == 'R' {
            Direction::Right
        } else if dchar == 'S' {
            Direction::Stay
        } else {
            let mut m = "Invalid direction: ".to_owned();
            push_char(&mut m, dchar);
            proof {
                assert(m@ =~= direction_message(first_char_or(qs[i as int][3], 'S')));
                assert(!quint_ok(s, i as int));
            }
            return Err(m);
        };
        proof {
            assert(code_in_rules(s, qs[i as int][0])) by {
                assert(0 <= i < qs.len() && qs[i as int].len() == 5 && (qs[i as int][0] == qs[
                    i as int
                ][0] || qs[i as int][4] == qs[i as int][0]));
            }
            assert(code_in_rules(s, qs[i as int][4])) by {
                assert(0 <= i < qs.len() && qs[i as int].len() == 5 && (qs[i as int][0] == qs[
                    i as int
                ][4] || qs[i as int][4] == qs[i as int][4]));
            }
            lemma_smap_get_decoded(sm, qs[i as int][0]);
            lemma_smap_get_decoded(sm, qs[i as int][4]);
            assert(fields.deep_view()[0] == fields@[0]@);
            assert(fields.deep_view()[4] == fields@[4]@);
            assert(fields.deep_view()[1] == fields@[1]@);
            assert(fields.deep_view()[2] == fields@[2]@);
        }
        let current_state = match smap_lookup(state_mapping, chars_to_string(&fields[0]).as_str()) {
            Some(n) => n.clone(),
            None => {
                let mut m = "Unknown state: ".to_owned();
                m.append(chars_to_string(&fields[0]).as_str());
                proof {
                    assert(false);
                }
                return Err(m);
            },
        };
        let next_state = match smap_lookup(state_mapping, chars_to_string(&fields[4]).as_str()) {
            Some(n) => n.clone(),
            None => {
                let mut m = "Unknown state: ".to_owned();
                m.append(chars_to_string(&fields[4]).as_str());
                proof {
                    assert(false);
                }
                return Err(m);
            },
        };
        let input_symbol = if fields[1].len() > 0 {
            fields[1][0]
        } else {
            INPUT_BLANK_SYMBOL
        };
        let output_symbol = if fields[2].len() > 0 {
            fields[2][0]
        } else {
            INPUT_BLANK_SYMBOL
        };
        let mut read: Vec<char> = Vec::new();
        read.push(input_symbol);
        let mut write: Vec<char> = Vec::new();
        write.push(output_symbol);
        let mut directions: Vec<Direction> = Vec::new();
        directions.push(direction);
        let transition = Transition { read, write, directions, next_state };
        proof {
            assert(transition@ =~= quint_transition(qs[i as int]));
            assert(current_state@ == decoded_state_name(qs[i as int][0]));
        }
        rules.push_transition(current_state, transition);
        proof {
            assert(rules@ == decoded_rules_upto(qs, i + 1));
        }
        i = i + 1;
    }
    proof {
        assert(rules@ == decoded_rules_upto(qs, qs.len() as int));
    }
    Ok(rules)
}

/// The tape content an encoded tape section stands for: its comma-separated
/// parts, concatenated.
pub open spec fn decoded_tape(s: Seq<char>) -> Seq<char> {
    if s.len() == 0 {
        Seq::empty()
    } else {
        crate::strutil::concat_parts(split_seq(s, ','))
    }
}

/// Decodes the tape section into the initial tape content.
#[verifier::loop_isolation(false)]
pub fn decode_initial_tape(tape_section: &str) -> (r: String)
    ensures
        r@ == decoded_tape(tape_section@),
{
    let ghost s = tape_section@;
    let chars = str_to_chars(tape_section);
    if chars.len() == 0 {
        return String::new();
    }
    let parts = split_chars(&chars, ',');
    let ghost ps = parts.deep_view();
    let mut r = String::new();
    let mut i: usize = 0;
    proof {
        assert(ps.subrange(0, 0) =~= Seq::<Seq<char>>::empty());
        assert(r@ =~= crate::strutil::concat_parts(ps.subrange(0, 0)));
    }
    while i < parts.len()
        invariant
            i <= ps.len(),
            ps == parts.deep_view(),
            r@ == crate::strutil::concat_parts(ps.subrange(0, i as int)),
        decreases ps.len() - i,
    {
        let part = chars_to_string(&parts[i]);
        r.append(part.as_str());
        proof {
            assert(part@ == ps[i as int]);
            crate::strutil::lemma_concat_push(ps.subrange(0, i as int), ps[i as int]);
            assert(ps.subrange(0, i as int).push(ps[i as int]) =~= ps.subrange(0, i + 1));
        }
        i = i + 1;
    }
    proof {
        assert(ps.subrange(0, ps.len() as int) =~= ps);
    }
    r
}

/// The fixed message for an encoded text without exactly three sections.
pub open spec fn format_error_message() -> Seq<char> {
    "Invalid encoding format: expected 3 sections separated by :"@
}

/// Decodes an encoded program text back into a single-tape program: the
/// name, the tape content rebuilt from the tape section, and the rules
/// rebuilt from the quintuples with synthesized state names. The decoded
/// program starts in the synthesized initial state, with one head at offset
/// 0 and the wildcard as its blank symbol.
pub fn decode(encoded: &str) -> (r: Result<Program, String>)
    ensures
        split_seq(encoded@, ':').len() != 3 ==> r is Err && (r->Err_0)@ == format_error_message(),
        split_seq(encoded@, ':').len() == 3 ==> {
            let sections = split_seq(encoded@, ':');
            let rs = sections[2];
            &&& (r is Ok <==> (rs.len() == 0 || forall|j: int|
                0 <= j < rule_quints(rs).len() ==> #[trigger] quint_ok(rs, j)))
            &&& (r is Ok ==> {
                let p = r->Ok_0;
                &&& p.name@ == sections[0]
                &&& p.mode == Mode::Normal
                &&& p.initial_state@ == "start"@
                &&& p.tapes@.len() == 1
                &&& p.tapes@[0]@ == decoded_tape(sections[1])
                &&& p.heads@ == seq![0usize]
                &&& p.blank == crate::types::INPUT_BLANK_SYMBOL
                &&& p.rules@ == if rs.len() == 0 {
                    Seq::<(Seq<char>, Seq<TransitionV>)>::empty()
                } else {
                    decoded_rules_upto(rule_quints(rs), rule_quints(rs).len() as int)
                }
            })
            &&& (r is Err ==> if !rules_well_formed(rs) {
                exists|i: int|
                    {
                        &&& 0 <= i < rule_quints(rs).len()
                        &&& (#[trigger] rule_quints(rs)[i]).len() != 5
                        &&& forall|j: int|
                            0 <= j < i ==> (#[trigger] rule_quints(rs)[j]).len() == 5
                        &&& (r->Err_0)@ == rule_format_message(split_seq(rs, '|')[i])
                    }
            } else {
                exists|i: int|
                    {
                        &&& 0 <= i < rule_quints(rs).len()
                        &&& !#[trigger] quint_ok(rs, i)
                        &&& forall|j: int| 0 <= j < i ==> #[trigger] quint_ok(rs, j)
                        &&& (r->Err_0)@ == direction_message(
                            first_char_or(rule_quints(rs)[i][3], 'S'),
                        )
                    }
            })
        },
{
    let ghost s = encoded@;
    let chars = str_to_chars(encoded);
    let parts = split_chars(&chars, ':');
    if parts.len() != 3 {
        return Err("Invalid encoding format: expected 3 sections separated by :".to_owned());
    }
    proof {
        assert(parts.deep_view()[0] == parts@[0]@);
        assert(parts.deep_view()[1] == parts@[1]@);
        assert(parts.deep_view()[2] == parts@[2]@);
    }
    let name = chars_to_string(&parts[0]);
    let tape_section = chars_to_string(&parts[1]);
    let rules_section = chars_to_string(&parts[2]);

    let state_mapping = match decode_states_from_rules(rules_section.as_str()) {
        Ok(m) => m,
        Err(e) => {
            proof {
                let rs = split_seq(s, ':')[2];
                let i = choose|i: int|
                    {
                        &&& 0 <= i < rule_quints(rs).len()
                        &&& (#[trigger] rule_quints(rs)[i]).len() != 5
                        &&& forall|j: int|
                            0 <= j < i ==> (#[trigger] rule_quints(rs)[j]).len() == 5
                        &&& e@ == rule_format_message(split_seq(rs, '|')[i])
                    };
                assert(!quint_ok(rs, i));
                assert(rs.len() > 0) by {
                    if rs.len() == 0 {
                        assert(rules_well_formed(rs));
                    }
                }
                assert(!rules_well_formed(rs));
            }
            return Err(e);
        },
    };
    let rules = match decode_rules(rules_section.as_str(), &state_mapping) {
        Ok(rl) => rl,
        Err(e) => {
            proof {
                let rs = split_seq(s, ':')[2];
                let i = choose|i: int|
                    {
                        &&& 0 <= i < rule_quints(rs).len()
                        &&& !#[trigger] quint_ok(rs, i)
                        &&& forall|j: int| 0 <= j < i ==> #[trigger] quint_ok(rs, j)
                        &&& if rule_quints(rs)[i].len() != 5 {
                            e@ == rule_format_message(split_seq(rs, '|')[i])
                        } else {
                            e@ == direction_message(first_char_or(rule_quints(rs)[i][3], 'S'))
                        }
                    };
                assert(rs.len() > 0) by {
                    if rs.len() == 0 {
                        assert(rules_well_formed(rs));
                    }
                }
                // the mapping pass succeeded, so every quintuple has five
                // fields and the first failure is a bad direction letter
                assert(rules_well_formed(rs));
                assert(rule_quints(rs)[i].len() == 5);
            }
            return Err(e);
        },
    };
    let initial_tape = decode_initial_tape(tape_section.as_str());

    // the initial state's code is always present in the mapping
    proof {
        assert(smap_contains(state_mapping.deep_view(), "0"@));
        lemma_smap_get_decoded(state_mapping.deep_view(), "0"@);
    }
    let initial_state = match smap_lookup(&state_mapping, "0") {
        Some(n) => n.clone(),
        None => {
            proof {
                assert(false);
            }
            return Err("No initial state found (state 0)".to_owned());
        },
    };
    proof {
        lemma_code_separation();
        assert(decoded_state_name("0"@) == "start"@);
    }

    let mut tapes: Vec<String> = Vec::new();
    tapes.push(initial_tape);
    let mut heads: Vec<usize> = Vec::new();
    heads.push(0);
    proof {
        assert(heads@ =~= seq![0usize]);
        assert(tapes@.len() == 1);
        assert(tapes@[0]@ == decoded_tape(split_seq(s, ':')[1]));
    }
    Ok(
        Program {
            name,
            mode: Mode::Normal,
            initial_state,
            tapes,
            heads,
            blank: INPUT_BLANK_SYMBOL,
            rules,
        },
    )
}


/// Whether `c` never occurs in `s`.
pub open spec fn seq_no_char(s: Seq<char>, c: char) -> bool {
    forall|i: int| 0 <= i < s.len() ==> (#[trigger] s[i]) != c
}

/// A join holds only characters of its parts and its separator.
pub proof fn lemma_join_no_char(parts: Seq<Seq<char>>, sep: Seq<char>, c: char)
    requires
        seq_no_char(sep, c),
        forall|i: int| 0 <= i < parts.len() ==> seq_no_char(#[trigger] parts[i], c),
    ensures
        seq_no_char(join_seqs(parts, sep), c),
    decreases parts.len(),
{
    if parts.len() == 0 {
    } else if parts.len() == 1 {
        assert(join_seqs(parts, sep) == parts[0]);
    } else {
        assert forall|i: int|
            0 <= i < parts.drop_first().len() implies seq_no_char(
            #[trigger] parts.drop_first()[i],
            c,
        ) by {
            assert(parts.drop_first()[i] == parts[i + 1]);
        }
        lemma_join_no_char(parts.drop_first(), sep, c);
        let j = join_seqs(parts, sep);
        let rest = join_seqs(parts.drop_first(), sep);
        assert(j == parts[0] + sep + rest);
        assert forall|i: int| 0 <= i < j.len() implies (#[trigger] j[i]) != c by {
            if i < parts[0].len() {
                assert(j[i] == parts[0][i]);
            } else if i < parts[0].len() + sep.len() {
                assert(j[i] == sep[i - parts[0].len()]);
            } else {
                assert(j[i] == rest[i - parts[0].len() - sep.len()]);
            }
        }
    }
}

/// Whether a character can occur in a state code: a decimal digit or one
/// of the four fixed one-letter codes.
pub open spec fn code_char_ok(c: char) -> bool {
    ('0' <= c && c <= '9') || c == 'h' || c == 'a' || c == 's' || c == 'r'
}

/// A code lookup that succeeds returns the code of an entry.
pub proof fn lemma_smap_get_entry(m: StateMapV, k: Seq<char>)
    requires
        smap_get(m, k) is Some,
    ensures
        exists|q: int|
            0 <= q < m.len() && (#[trigger] m[q]) == (k, smap_get(m, k)->Some_0),
    decreases m.len(),
{
    if m.len() > 0 {
        if m[0].0 == k {
            assert(m[0] == (k, smap_get(m, k)->Some_0));
        } else {
            lemma_smap_get_entry(m.drop_first(), k);
            let q = choose|q: int|
                0 <= q < m.drop_first().len() && (#[trigger] m.drop_first()[q]) == (
                    k,
                    smap_get(m.drop_first(), k)->Some_0,
                );
            assert(m[q + 1] == (k, smap_get(m, k)->Some_0));
        }
    }
}

/// Under a correct state mapping, every code consists of code characters
/// only, and is non-empty.
pub proof fn lemma_code_chars(p: Program, sm: StateMapV, x: Seq<char>)
    requires
        state_mapping_ok(p, sm),
        smap_contains(sm, x),
    ensures
        smap_get(sm, x) is Some,
        (smap_get(sm, x)->Some_0).len() >= 1,
        forall|i: int|
            0 <= i < (smap_get(sm, x)->Some_0).len() ==> code_char_ok(
                #[trigger] (smap_get(sm, x)->Some_0)[i],
            ),
{
    lemma_smap_contains_get(sm, x);
    lemma_smap_get_entry(sm, x);
    lemma_special_shapes();
    let code = smap_get(sm, x)->Some_0;
    let q = choose|q: int| 0 <= q < sm.len() && (#[trigger] sm[q]) == (x, code);
    if q == 0 {
        assert(code == "0"@);
        assert(code[0] == '0');
    } else {
        match special_code(sm[q].0) {
            Option::Some(c) => {
                assert(code == c);
                assert(c == "h"@ || c == "a"@ || c == "s"@ || c == "r"@);
            },
            Option::None => {
                let n = choose|n: int| 1 <= n && (#[trigger] dec_digits(n)) == code;
                lemma_dec_digits_are_digits(n);
            },
        }
    }
}


/// Whether a symbol can survive the encoded form: it is none of the three
/// separator characters.
pub open spec fn symbol_clean(c: char) -> bool {
    c != ':' && c != ',' && c != '|'
}

/// Whether the canonical single-tape encoding can represent `p` exactly:
/// one tape, single-symbol transitions each present under its key, no
/// separator characters among the name and the symbols, and every declared
/// state carrying at least one transition.
pub open spec fn single_tape_representable(p: Program) -> bool {
    &&& p.tapes@.len() == 1
    &&& crate::types::rules_wf(p.rules@)
    &&& crate::types::rules_arity_ok(p.rules@, 1)
    &&& seq_no_char(p.name@, ':')
    &&& forall|i: int| 0 <= i < p.tapes@[0]@.len() ==> symbol_clean(#[trigger] p.tapes@[0]@[i])
    &&& forall|i: int, j: int|
        0 <= i < p.rules@.len() && 0 <= j < p.rules@[i].1.len() ==> symbol_clean(
            (#[trigger] p.rules@[i].1[j]).read[0],
        ) && symbol_clean(p.rules@[i].1[j].write[0])
    &&& forall|i: int| 0 <= i < p.rules@.len() ==> (#[trigger] p.rules@[i]).1.len() >= 1
}

/// An encoded transition holds commas only between its fields: neither of
/// the other two separators occurs in it, and each of its five fields is
/// free of all three.
pub proof fn lemma_quint_clean(p: Program, sm: StateMapV, key: Seq<char>, t: TransitionV)
    requires
        state_mapping_ok(p, sm),
        smap_contains(sm, key),
        smap_contains(sm, t.next_state),
        t.read.len() == 1,
        t.write.len() == 1,
        t.directions.len() == 1,
        symbol_clean(t.read[0]),
        symbol_clean(t.write[0]),
    ensures
        seq_no_char(quint(sm, key, t), ':'),
        seq_no_char(quint(sm, key, t), '|'),
        forall|f: int|
            0 <= f < 5 ==> seq_no_char(#[trigger] quint_fields(sm, key, t)[f], ':') && seq_no_char(
                quint_fields(sm, key, t)[f],
                '|',
            ) && seq_no_char(quint_fields(sm, key, t)[f], ','),
{
    lemma_code_chars(p, sm, key);
    lemma_code_chars(p, sm, t.next_state);
    let fs = quint_fields(sm, key, t);
    assert forall|f: int|
        0 <= f < 5 implies seq_no_char(#[trigger] fs[f], ':') && seq_no_char(fs[f], '|')
        && seq_no_char(fs[f], ',') by {
        if f == 0 || f == 4 {
            let code = if f == 0 {
                smap_get(sm, key)->Some_0
            } else {
                smap_get(sm, t.next_state)->Some_0
            };
            assert(fs[f] == code);
            assert forall|i: int| 0 <= i < code.len() implies (#[trigger] code[i]) != ':' && code[i]
                != '|' && code[i] != ',' by {
                assert(code_char_ok(code[i]));
            }
        } else if f == 1 {
            assert(fs[f] == seq![t.read[0]]);
        } else if f == 2 {
            assert(fs[f] == seq![t.write[0]]);
        } else {
            assert(fs[f] == seq![dir_char(t.directions[0])]);
        }
    }
    assert(seq_no_char(seq![','], ':'));
    assert(seq_no_char(seq![','], '|'));
    lemma_join_no_char(fs, seq![','], ':');
    lemma_join_no_char(fs, seq![','], '|');
}

/// Every encoded transition of `quints_upto` comes from a key of `ks` and
/// a transition of that key's list.
pub proof fn lemma_quints_upto_elem(sm: StateMapV, m: RulesV, ks: Seq<Seq<char>>, i: int, q: int)
    requires
        0 <= i <= ks.len(),
        0 <= q < quints_upto(sm, m, ks, i).len(),
    ensures
        exists|k: int, j: int|
            {
                &&& 0 <= k < i
                &&& 0 <= j < (rules_get(m, ks[k])->Some_0).len()
                &&& quints_upto(sm, m, ks, i)[q] == #[trigger] quint(
                    sm,
                    ks[k],
                    (rules_get(m, ks[k])->Some_0)[j],
                )
            },
    decreases i,
{
    if i > 0 {
        let prev = quints_upto(sm, m, ks, i - 1);
        let sq = state_quints(sm, ks[i - 1], rules_get(m, ks[i - 1])->Some_0);
        assert(quints_upto(sm, m, ks, i) == prev + sq);
        if q < prev.len() {
            lemma_quints_upto_elem(sm, m, ks, i - 1, q);
            let (k, j): (int, int) = choose|k: int, j: int|
                {
                    &&& 0 <= k < i - 1
                    &&& 0 <= j < (rules_get(m, ks[k])->Some_0).len()
                    &&& prev[q] == #[trigger] quint(sm, ks[k], (rules_get(m, ks[k])->Some_0)[j])
                };
            assert(quints_upto(sm, m, ks, i)[q] == prev[q]);
            assert(0 <= k < i && 0 <= j < (rules_get(m, ks[k])->Some_0).len() && quints_upto(
                sm,
                m,
                ks,
                i,
            )[q] == quint(sm, ks[k], (rules_get(m, ks[k])->Some_0)[j]));
        } else {
            let j = q - prev.len();
            assert(quints_upto(sm, m, ks, i)[q] == sq[j]);
            assert(sq[j] == quint(sm, ks[i - 1], (rules_get(m, ks[i - 1])->Some_0)[j]));
            assert(0 <= i - 1 < i && 0 <= j < (rules_get(m, ks[i - 1])->Some_0).len()
                && quints_upto(sm, m, ks, i)[q] == quint(
                sm,
                ks[i - 1],
                (rules_get(m, ks[i - 1])->Some_0)[j],
            ));
        }
    }
}

/// A key of `ks` and the next state of any of its transitions are states
/// of the program, so both have codes.
pub proof fn lemma_key_and_target_mapped(
    p: Program,
    sm: StateMapV,
    ks: Seq<Seq<char>>,
    k: int,
    j: int,
)
    requires
        state_mapping_ok(p, sm),
        forall|x: Seq<char>|
            #![trigger seq_has(ks, x)]
            seq_has(ks, x) <==> rules_contains_key(p.rules@, x),
        0 <= k < ks.len(),
        rules_get(p.rules@, ks[k]) is Some,
        0 <= j < (rules_get(p.rules@, ks[k])->Some_0).len(),
    ensures
        smap_contains(sm, ks[k]),
        smap_contains(sm, (rules_get(p.rules@, ks[k])->Some_0)[j].next_state),
{
    assert(seq_has(ks, ks[k])) by {
        assert(ks[k] == ks[k]);
    }
    assert(rules_contains_key(p.rules@, ks[k]));
    assert(state_in_program(p, ks[k]));
    crate::machine::lemma_rules_get_is_entry(p.rules@, ks[k]);
    let e = choose|e: int|
        0 <= e < p.rules@.len() && p.rules@[e].0 == ks[k] && p.rules@[e].1 == rules_get(
            p.rules@,
            ks[k],
        )->Some_0;
    assert(crate::analyzer::state_referenced(
        p.rules@,
        (rules_get(p.rules@, ks[k])->Some_0)[j].next_state,
    )) by {
        assert(p.rules@[e].1[j].next_state == (rules_get(p.rules@, ks[k])->Some_0)[j].next_state);
    }
    assert(state_in_program(p, (rules_get(p.rules@, ks[k])->Some_0)[j].next_state));
}


/// The tape parts of a sequence — one singleton per symbol — concatenate
/// back to the sequence.
pub proof fn lemma_concat_singletons(t: Seq<char>)
    ensures
        crate::strutil::concat_parts(tape_parts(t)) == t,
    decreases t.len(),
{
    if t.len() == 0 {
        assert(tape_parts(t).len() == 0);
        assert(crate::strutil::concat_parts(tape_parts(t)) =~= t);
    } else {
        lemma_concat_singletons(t.drop_first());
        assert(tape_parts(t).drop_first() =~= tape_parts(t.drop_first()));
        assert(crate::strutil::concat_parts(tape_parts(t)) == tape_parts(t)[0]
            + crate::strutil::concat_parts(tape_parts(t.drop_first())));
        assert(tape_parts(t)[0] == seq![t[0]]);
        assert(seq![t[0]] + t.drop_first() =~= t);
    }
}

/// The encoded form of a representable program splits back into its three
/// sections; the tape section decodes to the original tape content; and
/// every encoded transition is well-formed, so decoding succeeds.
pub proof fn lemma_round_trip_sections(
    p: Program,
    sm: StateMapV,
    ks: Seq<Seq<char>>,
    s: Seq<char>,
)
    requires
        single_tape_representable(p),
        state_mapping_ok(p, sm),
        sorted_unique(ks),
        forall|x: Seq<char>|
            #![trigger seq_has(ks, x)]
            seq_has(ks, x) <==> rules_contains_key(p.rules@, x),
        s == p.name@ + seq![':'] + tape_section(p) + seq![':'] + rules_section(sm, p.rules@, ks),
    ensures
        split_seq(s, ':') == seq![
            p.name@,
            tape_section(p),
            rules_section(sm, p.rules@, ks),
        ],
        decoded_tape(tape_section(p)) == p.tapes@[0]@,
        ({
            let rs = rules_section(sm, p.rules@, ks);
            rs.len() == 0 || forall|j: int|
                0 <= j < rule_quints(rs).len() ==> #[trigger] quint_ok(rs, j)
        }),
        ({
            let rs = rules_section(sm, p.rules@, ks);
            rs.len() > 0 ==> split_seq(rs, '|') == quints_upto(
                sm,
                p.rules@,
                ks,
                ks.len() as int,
            )
        }),
        quints_upto(sm, p.rules@, ks, ks.len() as int).len() > 0 ==> rules_section(
            sm,
            p.rules@,
            ks,
        ).len() > 0,
{
    let m = p.rules@;
    let qs = quints_upto(sm, m, ks, ks.len() as int);
    let rs = rules_section(sm, m, ks);
    let ts = tape_section(p);
    let tape = p.tapes@[0]@;

    // every emitted quintuple is clean and splits into its five fields
    assert forall|q: int|
        0 <= q < qs.len() implies seq_no_char(#[trigger] qs[q], ':') && seq_no_char(qs[q], '|')
        && split_seq(qs[q], ',').len() == 5 && valid_dir_char(
        first_char_or(split_seq(qs[q], ',')[3], 'S'),
    ) by {
        lemma_quints_upto_elem(sm, m, ks, ks.len() as int, q);
        let (k, j): (int, int) = choose|k: int, j: int|
            {
                &&& 0 <= k < ks.len()
                &&& 0 <= j < (rules_get(m, ks[k])->Some_0).len()
                &&& qs[q] == #[trigger] quint(sm, ks[k], (rules_get(m, ks[k])->Some_0)[j])
            };
        assert(seq_has(ks, ks[k])) by {
            assert(ks[k] == ks[k]);
        }
        lemma_rules_contains_get(m, ks[k]);
        lemma_key_and_target_mapped(p, sm, ks, k, j);
        let t = (rules_get(m, ks[k])->Some_0)[j];
        crate::machine::lemma_rules_get_is_entry(m, ks[k]);
        let e = choose|e: int|
            0 <= e < m.len() && m[e].0 == ks[k] && m[e].1 == rules_get(m, ks[k])->Some_0;
        assert(t == m[e].1[j]);
        assert(t.read.len() == 1 && t.write.len() == 1 && t.directions.len() == 1);
        assert(symbol_clean(t.read[0]) && symbol_clean(t.write[0]));
        lemma_quint_clean(p, sm, ks[k], t);
        let fs = quint_fields(sm, ks[k], t);
        assert forall|f: int, c: int|
            0 <= f < fs.len() && 0 <= c < fs[f].len() implies (#[trigger] fs[f][c]) != ',' by {
            assert(seq_no_char(fs[f], ','));
        }
        assert(fs.len() >= 1);
        crate::strutil::lemma_split_join(fs, ',');
        assert(split_seq(qs[q], ',') == fs);
        assert(fs[3] == seq![dir_char(t.directions[0])]);
        assert(first_char_or(fs[3], 'S') == dir_char(t.directions[0]));
    }

    // the rules section splits back into the quintuples
    if qs.len() > 0 {
        assert forall|i: int, j: int|
            0 <= i < qs.len() && 0 <= j < qs[i].len() implies (#[trigger] qs[i][j]) != '|' by {
            assert(seq_no_char(qs[i], '|'));
        }
        crate::strutil::lemma_split_join(qs, '|');
        assert(split_seq(rs, '|') == qs);
        assert(rs.len() > 0) by {
            assert(qs[0].len() >= 1) by {
                lemma_quints_upto_elem(sm, m, ks, ks.len() as int, 0);
                let (k, j): (int, int) = choose|k: int, j: int|
                    {
                        &&& 0 <= k < ks.len()
                        &&& 0 <= j < (rules_get(m, ks[k])->Some_0).len()
                        &&& qs[0] == #[trigger] quint(sm, ks[k], (rules_get(m, ks[k])->Some_0)[j])
                    };
                assert(seq_has(ks, ks[k])) by {
                    assert(ks[k] == ks[k]);
                }
                lemma_rules_contains_get(m, ks[k]);
                lemma_key_and_target_mapped(p, sm, ks, k, j);
                lemma_code_chars(p, sm, ks[k]);
                let t = (rules_get(m, ks[k])->Some_0)[j];
                let fs = quint_fields(sm, ks[k], t);
                if fs.len() == 1 {
                } else {
                    assert(join_seqs(fs, seq![',']) == fs[0] + seq![','] + join_seqs(
                        fs.drop_first(),
                        seq![','],
                    ));
                }
            }
            if rs.len() == 0 {
                crate::strutil::lemma_split_seq_parts(rs, '|');
                assert(split_seq(rs, '|')[0] == qs[0]);
                assert(split_seq(rs, '|')[0].len() == 0) by {
                    assert(crate::strutil::index_of_char(rs, '|') < 0) by {
                        crate::strutil::lemma_index_of_char(rs, '|');
                    }
                    assert(split_seq(rs, '|') == seq![rs]);
                }
            }
        }
        // each part of the rules section is a well-formed quintuple
        assert forall|j: int|
            0 <= j < rule_quints(rs).len() implies #[trigger] quint_ok(rs, j) by {
            assert(rule_quints(rs)[j] == split_seq(split_seq(rs, '|')[j], ','));
            assert(split_seq(rs, '|')[j] == qs[j]);
        }
    }

    // the tape section is clean and decodes back to the tape content
    assert forall|i: int|
        0 <= i < tape_parts(tape).len() implies seq_no_char(#[trigger] tape_parts(tape)[i], ':')
        && seq_no_char(tape_parts(tape)[i], ',') by {
        assert(tape_parts(tape)[i] == seq![tape[i]]);
        assert(symbol_clean(tape[i]));
    }
    if tape.len() == 0 {
        assert(ts.len() == 0) by {
            assert(tape_parts(tape).len() == 0);
            assert(ts == join_seqs(tape_parts(tape), seq![',']));
        }
        assert(decoded_tape(ts) =~= tape);
    } else {
        assert(tape_parts(tape).len() >= 1);
        assert forall|i: int, j: int|
            0 <= i < tape_parts(tape).len() && 0 <= j < tape_parts(tape)[i].len() implies (
        #[trigger] tape_parts(tape)[i][j]) != ',' by {
            assert(seq_no_char(tape_parts(tape)[i], ','));
        }
        crate::strutil::lemma_split_join(tape_parts(tape), ',');
        assert(split_seq(ts, ',') == tape_parts(tape));
        assert(ts.len() > 0) by {
            if tape_parts(tape).len() == 1 {
                assert(ts == tape_parts(tape)[0]);
                assert(tape_parts(tape)[0] == seq![tape[0]]);
            } else {
                assert(ts == tape_parts(tape)[0] + seq![','] + join_seqs(
                    tape_parts(tape).drop_first(),
                    seq![','],
                ));
            }
        }
        lemma_concat_singletons(tape);
        assert(decoded_tape(ts) == tape);
    }

    // the three sections are clean of the section separator, so the whole
    // encoded text splits back into them
    assert(seq_no_char(seq![','], ':'));
    lemma_join_no_char(tape_parts(tape), seq![','], ':');
    assert(seq_no_char(ts, ':'));
    assert(seq_no_char(seq!['|'], ':'));
    lemma_join_no_char(qs, seq!['|'], ':');
    assert(seq_no_char(rs, ':'));
    let sections = seq![p.name@, ts, rs];
    assert forall|i: int, j: int|
        0 <= i < sections.len() && 0 <= j < sections[i].len() implies (#[trigger] sections[i][j])
        != ':' by {
        if i == 0 {
            assert(seq_no_char(p.name@, ':'));
        } else if i == 1 {
            assert(seq_no_char(ts, ':'));
        } else {
            assert(seq_no_char(rs, ':'));
        }
    }
    assert(join_seqs(sections, seq![':']) == s) by {
        assert(sections.drop_first() =~= seq![ts, rs]);
        assert(seq![ts, rs].drop_first() =~= seq![rs]);
        assert(join_seqs(seq![rs], seq![':']) == rs);
        assert(join_seqs(seq![ts, rs], seq![':']) == ts + seq![':'] + rs);
        assert(join_seqs(sections, seq![':']) == p.name@ + seq![':'] + (ts + seq![':'] + rs));
        assert(p.name@ + seq![':'] + (ts + seq![':'] + rs) =~= s);
    }
    crate::strutil::lemma_split_join(sections, ':');
}


/// The decoded state name a program state ends up with: the synthesized
/// name of its code.
pub open spec fn renamed_state(sm: StateMapV, x: Seq<char>) -> Seq<char> {
    decoded_state_name(smap_get(sm, x)->Some_0)
}

/// The single-tape transition a program transition decodes back to: the
/// same read, write and direction, with the next state renamed.
pub open spec fn renamed_transition(sm: StateMapV, t: TransitionV) -> TransitionV {
    TransitionV {
        read: seq![t.read[0]],
        write: seq![t.write[0]],
        directions: seq![t.directions[0]],
        next_state: renamed_state(sm, t.next_state),
    }
}

/// The synthesized state names, spelled out.
pub proof fn lemma_name_shapes()
    ensures
        "start"@ == seq!['s', 't', 'a', 'r', 't'],
        "s2"@ == seq!['s', '2'],
{
    reveal_strlit("start");
    reveal_strlit("s2");
    assert("start"@ =~= seq!['s', 't', 'a', 'r', 't']);
    assert("s2"@ =~= seq!['s', '2']);
}

/// The code of every mapped state has one of three shapes: the fixed code
/// `0`, a one-letter code, or a positive decimal.
pub open spec fn code_shape(c: Seq<char>) -> bool {
    ||| c == "0"@
    ||| c == "h"@
    ||| c == "a"@
    ||| c == "s"@
    ||| c == "r"@
    ||| exists|n: int| 1 <= n && #[trigger] dec_digits(n) == c
}

/// Every code of a correct state mapping has a code shape.
pub proof fn lemma_mapping_code_shape(p: Program, sm: StateMapV, x: Seq<char>)
    requires
        state_mapping_ok(p, sm),
        smap_contains(sm, x),
    ensures
        smap_get(sm, x) is Some,
        code_shape(smap_get(sm, x)->Some_0),
{
    lemma_smap_contains_get(sm, x);
    lemma_smap_get_entry(sm, x);
    let code = smap_get(sm, x)->Some_0;
    let q = choose|q: int| 0 <= q < sm.len() && (#[trigger] sm[q]) == (x, code);
    if q == 0 {
    } else {
        match special_code(sm[q].0) {
            Option::Some(c) => {},
            Option::None => {},
        }
    }
}

/// Distinct codes of code shape decode to distinct synthesized names.
pub proof fn lemma_decoded_name_injective(c1: Seq<char>, c2: Seq<char>)
    requires
        code_shape(c1),
        code_shape(c2),
        c1 != c2,
    ensures
        decoded_state_name(c1) != decoded_state_name(c2),
{
    lemma_special_shapes();
    lemma_name_shapes();
    lemma_code_separation();
    reveal_strlit("halt");
    reveal_strlit("accept");
    reveal_strlit("stop");
    reveal_strlit("reject");
    let n1 = decoded_name_facts(c1);
    let n2 = decoded_name_facts(c2);
    let d1 = decoded_state_name(c1);
    let d2 = decoded_state_name(c2);
    if d1 == d2 {
        // equal synthesized names force equal codes
        if d1 == "start"@ || d1 == "halt"@ || d1 == "accept"@ || d1 == "stop"@ || d1
            == "reject"@ {
            assert(c1 == c2);
        } else {
            // both codes are numeric
            assert(n1 >= 1 && c1 == dec_digits(n1));
            assert(n2 >= 1 && c2 == dec_digits(n2));
            lemma_dec_digits_are_digits(n1);
            lemma_dec_digits_are_digits(n2);
            if n1 == 1 {
                if n2 == 1 {
                    assert(c1 == c2);
                } else if n2 <= u32::MAX as int {
                    assert(d2 == seq!['s'] + dec_digits(n2 + 1));
                    lemma_dec_digits_are_digits(n2 + 1);
                    assert(d1 == "s2"@);
                    assert(d1.len() == 2);
                    assert(dec_digits(n2 + 1).len() == 1);
                    assert(d2[1] == dec_digits(n2 + 1)[0]);
                    assert(d1[1] == '2');
                    assert(dec_digits(n2 + 1) =~= seq!['2']);
                    assert(dec_digits(2) == seq![crate::strutil::digit_char(2)]);
                    assert(crate::strutil::digit_char(2) as int == 2 + 48) by {
                        assert((((2 + 48) as u8) as char) as int == ((2 + 48) as u8) as int);
                    }
                    assert('2' as int == 50);
                    assert(dec_digits(2) =~= seq!['2']);
                    lemma_dec_digits_injective(n2 + 1, 2);
                } else {
                    assert(d2 == c2);
                    assert(d1 == "s2"@);
                    assert(d1[0] == 's');
                    assert('0' <= d2[0] && d2[0] <= '9');
                }
            } else if n1 <= u32::MAX as int {
                if n2 == 1 {
                    assert(d1 == seq!['s'] + dec_digits(n1 + 1));
                    lemma_dec_digits_are_digits(n1 + 1);
                    assert(d2 == "s2"@);
                    assert(d2.len() == 2);
                    assert(dec_digits(n1 + 1).len() == 1);
                    assert(d1[1] == dec_digits(n1 + 1)[0]);
                    assert(d2[1] == '2');
                    assert(dec_digits(n1 + 1) =~= seq!['2']);
                    assert(dec_digits(2) == seq![crate::strutil::digit_char(2)]);
                    assert(crate::strutil::digit_char(2) as int == 2 + 48) by {
                        assert((((2 + 48) as u8) as char) as int == ((2 + 48) as u8) as int);
                    }
                    assert('2' as int == 50);
                    assert(dec_digits(2) =~= seq!['2']);
                    lemma_dec_digits_injective(n1 + 1, 2);
                } else if n2 <= u32::MAX as int {
                    assert(d1 == seq!['s'] + dec_digits(n1 + 1));
                    assert(d2 == seq!['s'] + dec_digits(n2 + 1));
                    assert(dec_digits(n1 + 1) =~= dec_digits(n2 + 1)) by {
                        assert(d1.len() == 1 + dec_digits(n1 + 1).len());
                        assert(d2.len() == 1 + dec_digits(n2 + 1).len());
                        assert forall|i: int|
                            0 <= i < dec_digits(n1 + 1).len() implies #[trigger] dec_digits(
                            n1 + 1,
                        )[i] == dec_digits(n2 + 1)[i] by {
                            assert(d1[i + 1] == dec_digits(n1 + 1)[i]);
                            assert(d2[i + 1] == dec_digits(n2 + 1)[i]);
                        }
                    }
                    lemma_dec_digits_injective(n1 + 1, n2 + 1);
                    assert(c1 == c2);
                } else {
                    assert(d1 == seq!['s'] + dec_digits(n1 + 1));
                    assert(d2 == c2);
                    assert(d1[0] == 's');
                    assert('0' <= d2[0] && d2[0] <= '9');
                }
            } else {
                if n2 == 1 {
                    assert(d1 == c1);
                    assert(d2 == "s2"@);
                    assert(d2[0] == 's');
                    assert('0' <= d1[0] && d1[0] <= '9');
                } else if n2 <= u32::MAX as int {
                    assert(d1 == c1);
                    assert(d2 == seq!['s'] + dec_digits(n2 + 1));
                    assert(d2[0] == 's');
                    assert('0' <= d1[0] && d1[0] <= '9');
                } else {
                    assert(c1 == c2);
                }
            }
        }
    }
}

/// Evaluates the decoded name of a shaped code, returning its numeric
/// value when it has one and 0 otherwise, and records which name the code
/// decodes to.
proof fn decoded_name_facts(c: Seq<char>) -> (n: int)
    requires
        code_shape(c),
    ensures
        c == "0"@ ==> n == 0 && decoded_state_name(c) == "start"@,
        c == "h"@ ==> n == 0 && decoded_state_name(c) == "halt"@,
        c == "a"@ ==> n == 0 && decoded_state_name(c) == "accept"@,
        c == "s"@ ==> n == 0 && decoded_state_name(c) == "stop"@,
        c == "r"@ ==> n == 0 && decoded_state_name(c) == "reject"@,
        (c != "0"@ && c != "h"@ && c != "a"@ && c != "s"@ && c != "r"@) ==> {
            &&& n >= 1
            &&& c == dec_digits(n)
            &&& (n == 1 ==> decoded_state_name(c) == "s2"@)
            &&& (2 <= n && n <= u32::MAX as int ==> decoded_state_name(c) == seq!['s']
                + dec_digits(n + 1))
            &&& (n > u32::MAX as int ==> decoded_state_name(c) == c)
        },
        decoded_state_name(c) == "start"@ <==> c == "0"@,
        decoded_state_name(c) == "halt"@ <==> c == "h"@,
        decoded_state_name(c) == "accept"@ <==> c == "a"@,
        decoded_state_name(c) == "stop"@ <==> c == "s"@,
        decoded_state_name(c) == "reject"@ <==> c == "r"@,
{
    lemma_special_shapes();
    lemma_name_shapes();
    lemma_code_separation();
    reveal_strlit("halt");
    reveal_strlit("accept");
    reveal_strlit("stop");
    reveal_strlit("reject");
    if c == "0"@ || c == "h"@ || c == "a"@ || c == "s"@ || c == "r"@ {
        assert(decoded_state_name(c) == "start"@ || decoded_state_name(c) == "halt"@
            || decoded_state_name(c) == "accept"@ || decoded_state_name(c) == "stop"@
            || decoded_state_name(c) == "reject"@);
        assert(("start"@)[1] == 't' && ("halt"@)[0] == 'h' && ("accept"@)[0] == 'a' && (
        "stop"@)[1] == 't' && ("reject"@)[0] == 'r' && ("s2"@)[1] == '2');
        0
    } else {
        let n = choose|n: int| 1 <= n && #[trigger] dec_digits(n) == c;
        lemma_dec_digits_value(n);
        assert(c.len() > 0 && all_digits(c) && dec_value(c) == n);
        if n == 1 {
            assert(decoded_state_name(c) == "s2"@);
        } else if n <= u32::MAX as int {
            assert(decoded_state_name(c) == seq!['s'] + dec_digits(n + 1));
            // an s-name is none of the special names
            lemma_dec_digits_are_digits(n + 1);
            assert(decoded_state_name(c)[0] == 's');
            assert(decoded_state_name(c)[1] == dec_digits(n + 1)[0]);
            assert('0' <= decoded_state_name(c)[1] && decoded_state_name(c)[1] <= '9');
        } else {
            assert(decoded_state_name(c) == c);
            lemma_dec_digits_are_digits(n);
        }
        // the decoded name of a numeric code is never one of the five
        // synthesized special names
        assert(decoded_state_name(c) != "start"@ && decoded_state_name(c) != "halt"@
            && decoded_state_name(c) != "accept"@ && decoded_state_name(c) != "stop"@
            && decoded_state_name(c) != "reject"@) by {
            lemma_dec_digits_are_digits(n);
            if n == 1 {
                assert(decoded_state_name(c) == "s2"@);
                assert(("s2"@)[1] == '2');
                assert(("start"@)[1] == 't');
                assert(("stop"@)[1] == 't');
                assert(("halt"@)[0] == 'h');
                assert(("accept"@)[0] == 'a');
                assert(("reject"@)[0] == 'r');
                assert(("s2"@)[0] == 's');
            } else if n <= u32::MAX as int {
                lemma_dec_digits_are_digits(n + 1);
                let d = decoded_state_name(c);
                assert(d[0] == 's');
                assert('0' <= d[1] && d[1] <= '9');
                if d == "start"@ {
                    assert(d[1] == 't');
                }
                if d == "stop"@ {
                    assert(d[1] == 't');
                }
                if d == "halt"@ {
                    assert(d[0] == 'h');
                }
                if d == "accept"@ {
                    assert(d[0] == 'a');
                }
                if d == "reject"@ {
                    assert(d[0] == 'r');
                }
            } else {
                let d = decoded_state_name(c);
                assert(d == c);
                assert('0' <= d[0] && d[0] <= '9');
                if d == "start"@ || d == "stop"@ {
                    assert(d[0] == 's');
                }
                if d == "halt"@ {
                    assert(d[0] == 'h');
                }
                if d == "accept"@ {
                    assert(d[0] == 'a');
                }
                if d == "reject"@ {
                    assert(d[0] == 'r');
                }
            }
        }
        n
    }
}


/// Distinct program states are renamed to distinct synthesized names.
pub proof fn lemma_renamed_injective(p: Program, sm: StateMapV, x: Seq<char>, y: Seq<char>)
    requires
        state_mapping_ok(p, sm),
        smap_contains(sm, x),
        smap_contains(sm, y),
        x != y,
    ensures
        renamed_state(sm, x) != renamed_state(sm, y),
{
    lemma_smap_contains_get(sm, x);
    lemma_smap_contains_get(sm, y);
    lemma_smap_get_entry(sm, x);
    lemma_smap_get_entry(sm, y);
    let cx = smap_get(sm, x)->Some_0;
    let cy = smap_get(sm, y)->Some_0;
    let qx = choose|q: int| 0 <= q < sm.len() && (#[trigger] sm[q]) == (x, cx);
    let qy = choose|q: int| 0 <= q < sm.len() && (#[trigger] sm[q]) == (y, cy);
    assert(qx != qy);
    assert(cx != cy);
    lemma_mapping_code_shape(p, sm, x);
    lemma_mapping_code_shape(p, sm, y);
    lemma_decoded_name_injective(cx, cy);
}

/// A shorter prefix of the emitted quintuples is a prefix of a longer one.
pub proof fn lemma_quints_upto_prefix(sm: StateMapV, m: RulesV, ks: Seq<Seq<char>>, a: int, b: int)
    requires
        0 <= a <= b,
    ensures
        quints_upto(sm, m, ks, a).len() <= quints_upto(sm, m, ks, b).len(),
        quints_upto(sm, m, ks, b).subrange(0, quints_upto(sm, m, ks, a).len() as int)
            == quints_upto(sm, m, ks, a),
    decreases b - a,
{
    if a == b {
        assert(quints_upto(sm, m, ks, b).subrange(
            0,
            quints_upto(sm, m, ks, a).len() as int,
        ) =~= quints_upto(sm, m, ks, a));
    } else {
        lemma_quints_upto_prefix(sm, m, ks, a, b - 1);
        assert(quints_upto(sm, m, ks, b) == quints_upto(sm, m, ks, b - 1) + state_quints(
            sm,
            ks[b - 1],
            rules_get(m, ks[b - 1])->Some_0,
        ));
        assert(quints_upto(sm, m, ks, b).subrange(
            0,
            quints_upto(sm, m, ks, a).len() as int,
        ) =~= quints_upto(sm, m, ks, a));
    }
}

/// The position of each key's transitions among the emitted quintuples.
pub proof fn lemma_quints_upto_index(
    sm: StateMapV,
    m: RulesV,
    ks: Seq<Seq<char>>,
    k: int,
    j: int,
)
    requires
        0 <= k < ks.len(),
        0 <= j < (rules_get(m, ks[k])->Some_0).len(),
    ensures
        quints_upto(sm, m, ks, k).len() + j < quints_upto(sm, m, ks, ks.len() as int).len(),
        quints_upto(sm, m, ks, ks.len() as int)[quints_upto(sm, m, ks, k).len() + j] == quint(
            sm,
            ks[k],
            (rules_get(m, ks[k])->Some_0)[j],
        ),
{
    let nk = quints_upto(sm, m, ks, k).len() as int;
    let sq = state_quints(sm, ks[k], rules_get(m, ks[k])->Some_0);
    assert(quints_upto(sm, m, ks, k + 1) == quints_upto(sm, m, ks, k) + sq);
    assert(quints_upto(sm, m, ks, k + 1)[nk + j] == sq[j]);
    assert(sq[j] == quint(sm, ks[k], (rules_get(m, ks[k])->Some_0)[j]));
    lemma_quints_upto_prefix(sm, m, ks, k + 1, ks.len() as int);
    let total = quints_upto(sm, m, ks, ks.len() as int);
    let n1 = quints_upto(sm, m, ks, k + 1).len() as int;
    assert(total.subrange(0, n1) == quints_upto(sm, m, ks, k + 1));
    assert(total.subrange(0, n1)[nk + j] == total[nk + j]);
}

/// The transitions of a key, renamed for the decoded program.
pub open spec fn renamed_list(sm: StateMapV, ts: Seq<TransitionV>) -> Seq<TransitionV> {
    Seq::new(ts.len(), |j: int| renamed_transition(sm, ts[j]))
}

/// The rules of the decoded program: one entry per key of `ks`, in order,
/// each state renamed and each transition renamed.
pub open spec fn renamed_rules(p: Program, sm: StateMapV, ks: Seq<Seq<char>>, k: int) -> RulesV {
    Seq::new(k as nat, |i: int| (renamed_state(sm, ks[i]), renamed_list(sm, rules_get(p.rules@, ks[i])->Some_0)))
}


/// An emitted quintuple splits back into its five fields, which decode to
/// the renamed source state and the renamed transition.
pub proof fn lemma_quint_fields_roundtrip(
    p: Program,
    sm: StateMapV,
    ks: Seq<Seq<char>>,
    k: int,
    j: int,
)
    requires
        single_tape_representable(p),
        state_mapping_ok(p, sm),
        forall|x: Seq<char>|
            #![trigger seq_has(ks, x)]
            seq_has(ks, x) <==> rules_contains_key(p.rules@, x),
        0 <= k < ks.len(),
        rules_get(p.rules@, ks[k]) is Some,
        0 <= j < (rules_get(p.rules@, ks[k])->Some_0).len(),
    ensures
        ({
            let t = (rules_get(p.rules@, ks[k])->Some_0)[j];
            let fs = quint_fields(sm, ks[k], t);
            &&& split_seq(quint(sm, ks[k], t), ',') == fs
            &&& fs.len() == 5
            &&& decoded_state_name(fs[0]) == renamed_state(sm, ks[k])
            &&& quint_transition(fs) == renamed_transition(sm, t)
        }),
{
    let m = p.rules@;
    lemma_key_and_target_mapped(p, sm, ks, k, j);
    let t = (rules_get(m, ks[k])->Some_0)[j];
    crate::machine::lemma_rules_get_is_entry(m, ks[k]);
    let e = choose|e: int|
        0 <= e < m.len() && m[e].0 == ks[k] && m[e].1 == rules_get(m, ks[k])->Some_0;
    assert(t == m[e].1[j]);
    assert(t.read.len() == 1 && t.write.len() == 1 && t.directions.len() == 1);
    assert(symbol_clean(t.read[0]) && symbol_clean(t.write[0]));
    lemma_quint_clean(p, sm, ks[k], t);
    let fs = quint_fields(sm, ks[k], t);
    assert forall|f: int, c: int|
        0 <= f < fs.len() && 0 <= c < fs[f].len() implies (#[trigger] fs[f][c]) != ',' by {
        assert(seq_no_char(fs[f], ','));
    }
    crate::strutil::lemma_split_join(fs, ',');
    assert(fs[1] == seq![t.read[0]]);
    assert(fs[2] == seq![t.write[0]]);
    assert(fs[3] == seq![dir_char(t.directions[0])]);
    assert(first_char_or(fs[1], crate::types::INPUT_BLANK_SYMBOL) == t.read[0]);
    assert(first_char_or(fs[2], crate::types::INPUT_BLANK_SYMBOL) == t.write[0]);
    assert(char_dir(first_char_or(fs[3], 'S')) == t.directions[0]) by {
        match t.directions[0] {
            Direction::Left => {},
            Direction::Right => {},
            Direction::Stay => {},
        }
    }
    assert(quint_transition(fs) =~~= renamed_transition(sm, t)) by {
        assert(quint_transition(fs).read =~= renamed_transition(sm, t).read);
        assert(quint_transition(fs).write =~= renamed_transition(sm, t).write);
        assert(quint_transition(fs).directions =~= renamed_transition(sm, t).directions);
    }
}

/// Folding the decoded quintuples, key by key and transition by
/// transition, rebuilds exactly the renamed rules: after the quintuples of
/// the first `k` keys and `j` transitions of key `k`, the decoded mapping
/// holds the first `k` renamed entries, plus a partial entry for key `k`
/// once its first transition has been taken.
pub proof fn lemma_fold_quints(
    p: Program,
    sm: StateMapV,
    ks: Seq<Seq<char>>,
    qf: Seq<Seq<Seq<char>>>,
    k: int,
    j: int,
)
    requires
        single_tape_representable(p),
        state_mapping_ok(p, sm),
        sorted_unique(ks),
        forall|x: Seq<char>|
            #![trigger seq_has(ks, x)]
            seq_has(ks, x) <==> rules_contains_key(p.rules@, x),
        qf.len() == quints_upto(sm, p.rules@, ks, ks.len() as int).len(),
        forall|q: int|
            0 <= q < qf.len() ==> #[trigger] qf[q] == split_seq(
                quints_upto(sm, p.rules@, ks, ks.len() as int)[q],
                ',',
            ),
        0 <= k < ks.len(),
        rules_get(p.rules@, ks[k]) is Some,
        0 <= j <= (rules_get(p.rules@, ks[k])->Some_0).len(),
    ensures
        quints_upto(sm, p.rules@, ks, k).len() + j <= qf.len(),
        decoded_rules_upto(qf, quints_upto(sm, p.rules@, ks, k).len() + j) == if j == 0 {
            renamed_rules(p, sm, ks, k)
        } else {
            renamed_rules(p, sm, ks, k).push(
                (
                    renamed_state(sm, ks[k]),
                    renamed_list(sm, rules_get(p.rules@, ks[k])->Some_0).subrange(0, j),
                ),
            )
        },
    decreases k, j,
{
    let m = p.rules@;
    let nk = quints_upto(sm, m, ks, k).len() as int;
    let ts = rules_get(m, ks[k])->Some_0;
    assert(quints_upto(sm, m, ks, k + 1) == quints_upto(sm, m, ks, k) + state_quints(
        sm,
        ks[k],
        ts,
    ));
    lemma_quints_upto_prefix(sm, m, ks, k + 1, ks.len() as int);
    assert(nk + ts.len() <= qf.len());
    if j == 0 {
        if k == 0 {
            assert(nk == 0);
            assert(decoded_rules_upto(qf, 0) =~= renamed_rules(p, sm, ks, 0));
        } else {
            assert(seq_has(ks, ks[k - 1])) by {
                assert(ks[k - 1] == ks[k - 1]);
            }
            lemma_rules_contains_get(m, ks[k - 1]);
            let lenp = (rules_get(m, ks[k - 1])->Some_0).len() as int;
            lemma_fold_quints(p, sm, ks, qf, k - 1, lenp);
            assert(lenp >= 1) by {
                crate::machine::lemma_rules_get_is_entry(m, ks[k - 1]);
                let e = choose|e: int|
                    0 <= e < m.len() && m[e].0 == ks[k - 1] && m[e].1 == rules_get(
                        m,
                        ks[k - 1],
                    )->Some_0;
                assert(m[e].1.len() >= 1);
            }
            assert(quints_upto(sm, m, ks, k) == quints_upto(sm, m, ks, k - 1) + state_quints(
                sm,
                ks[k - 1],
                rules_get(m, ks[k - 1])->Some_0,
            ));
            assert(nk == quints_upto(sm, m, ks, k - 1).len() + lenp);
            let full = renamed_list(sm, rules_get(m, ks[k - 1])->Some_0);
            assert(full.subrange(0, lenp) =~= full);
            assert(renamed_rules(p, sm, ks, k - 1).push(
                (renamed_state(sm, ks[k - 1]), full),
            ) =~= renamed_rules(p, sm, ks, k));
        }
    } else {
        lemma_fold_quints(p, sm, ks, qf, k, j - 1);
        let nq = nk + (j - 1);
        // the quintuple at this position carries key k's transition j-1
        lemma_quints_upto_index(sm, m, ks, k, j - 1);
        assert(quints_upto(sm, m, ks, ks.len() as int)[nq] == quint(sm, ks[k], ts[j - 1]));
        assert(qf[nq] == split_seq(quint(sm, ks[k], ts[j - 1]), ','));
        lemma_quint_fields_roundtrip(p, sm, ks, k, j - 1);
        let fs = quint_fields(sm, ks[k], ts[j - 1]);
        assert(qf[nq] == fs);
        assert(decoded_rules_upto(qf, nq + 1) == crate::types::rules_add(
            decoded_rules_upto(qf, nq),
            decoded_state_name(fs[0]),
            quint_transition(fs),
        ));
        let acc = decoded_rules_upto(qf, nq);
        let key = renamed_state(sm, ks[k]);
        let tr = renamed_transition(sm, ts[j - 1]);
        // the renamed keys of earlier entries differ from this key
        assert forall|i: int|
            0 <= i < k implies renamed_state(sm, ks[i]) != key by {
            assert(seq_has(ks, ks[i])) by {
                assert(ks[i] == ks[i]);
            }
            assert(seq_has(ks, ks[k])) by {
                assert(ks[k] == ks[k]);
            }
            assert(rules_contains_key(m, ks[i]));
            assert(state_in_program(p, ks[i]));
            assert(state_in_program(p, ks[k]));
            assert(ks[i] != ks[k]);
            lemma_renamed_injective(p, sm, ks[i], ks[k]);
        }
        if j - 1 == 0 {
            assert(acc == renamed_rules(p, sm, ks, k));
            assert(forall|i: int| 0 <= i < acc.len() ==> (#[trigger] acc[i]).0 != key);
            crate::types::lemma_rules_add_append(acc, key, tr);
            assert(renamed_list(sm, ts).subrange(0, 1) =~= seq![tr]);
            assert(acc.push((key, seq![tr])) =~= renamed_rules(p, sm, ks, k).push(
                (key, renamed_list(sm, ts).subrange(0, 1)),
            ));
        } else {
            let partial = renamed_list(sm, ts).subrange(0, j - 1);
            assert(acc == renamed_rules(p, sm, ks, k).push((key, partial)));
            assert(acc.len() == k + 1);
            assert(acc[k as int].0 == key);
            assert(forall|i: int| 0 <= i < k ==> (#[trigger] acc[i]).0 != key);
            crate::types::lemma_rules_add_at(acc, key, tr, k);
            assert(partial.push(tr) =~= renamed_list(sm, ts).subrange(0, j));
            assert(acc.update(k, (key, partial.push(tr))) =~= renamed_rules(p, sm, ks, k).push(
                (key, renamed_list(sm, ts).subrange(0, j)),
            ));
        }
    }
}


/// The keys of a rule mapping occur among its key list, and conversely.
pub proof fn lemma_all_keys_membership(m: RulesV)
    ensures
        forall|x: Seq<char>|
            #![trigger seq_has(all_keys(m), x)]
            seq_has(all_keys(m), x) <==> rules_contains_key(m, x),
{
    assert forall|x: Seq<char>|
        #![trigger seq_has(all_keys(m), x)]
        seq_has(all_keys(m), x) <==> rules_contains_key(m, x) by {
        if seq_has(all_keys(m), x) {
            let i = choose|i: int| 0 <= i < all_keys(m).len() && all_keys(m)[i] == x;
            assert(m[i].0 == x);
        }
        if rules_contains_key(m, x) {
            let i = choose|i: int| 0 <= i < m.len() && (#[trigger] m[i]).0 == x;
            assert(all_keys(m)[i] == x);
        }
    }
}

/// Two duplicate-free lists with the same members have the same length.
pub proof fn lemma_unique_same_members_same_len(v1: Seq<Seq<char>>, v2: Seq<Seq<char>>)
    requires
        forall|i: int, j: int| 0 <= i < j < v1.len() ==> v1[i] != v1[j],
        forall|i: int, j: int| 0 <= i < j < v2.len() ==> v2[i] != v2[j],
        forall|x: Seq<char>| #[trigger] seq_has(v1, x) <==> seq_has(v2, x),
    ensures
        v1.len() == v2.len(),
{
    broadcast use vstd::seq_lib::seq_to_set_is_finite;

    assert(v1.no_duplicates()) by {
        assert forall|i: int, j: int|
            0 <= i < v1.len() && 0 <= j < v1.len() && i != j implies v1[i] != v1[j] by {
            if i < j {
            } else {
                assert(v1[j] != v1[i]);
            }
        }
    }
    assert(v2.no_duplicates()) by {
        assert forall|i: int, j: int|
            0 <= i < v2.len() && 0 <= j < v2.len() && i != j implies v2[i] != v2[j] by {
            if i < j {
            } else {
                assert(v2[j] != v2[i]);
            }
        }
    }
    v1.unique_seq_to_set();
    v2.unique_seq_to_set();
    assert(v1.to_set() =~= v2.to_set()) by {
        assert forall|x: Seq<char>| v1.to_set().contains(x) implies v2.to_set().contains(x) by {
            assert(v1.contains(x));
            let i = choose|i: int| 0 <= i < v1.len() && v1[i] == x;
            assert(v1[i] == x);
            assert(seq_has(v1, x));
            assert(seq_has(v2, x));
            let j = choose|j: int| 0 <= j < v2.len() && v2[j] == x;
            assert(v2[j] == x);
            assert(v2.contains(x));
        }
        assert forall|x: Seq<char>| v2.to_set().contains(x) implies v1.to_set().contains(x) by {
            assert(v2.contains(x));
            let i = choose|i: int| 0 <= i < v2.len() && v2[i] == x;
            assert(v2[i] == x);
            assert(seq_has(v2, x));
            assert(seq_has(v1, x));
            let j = choose|j: int| 0 <= j < v1.len() && v1[j] == x;
            assert(v1[j] == x);
            assert(v1.contains(x));
        }
    }
}

/// The round trip: the encoded form of a single-tape-representable program
/// splits back into its three sections; decoding succeeds; the decoded
/// program carries the original name and tape content; and its rules are
/// exactly the original rules with every state renamed by the injective
/// synthesized renaming — so the state count and every transition's read,
/// write and direction survive.
pub proof fn theorem_round_trip(p: Program, sm: StateMapV, ks: Seq<Seq<char>>, s: Seq<char>)
    requires
        single_tape_representable(p),
        state_mapping_ok(p, sm),
        sorted_unique(ks),
        forall|x: Seq<char>|
            #![trigger seq_has(ks, x)]
            seq_has(ks, x) <==> rules_contains_key(p.rules@, x),
        s == p.name@ + seq![':'] + tape_section(p) + seq![':'] + rules_section(sm, p.rules@, ks),
    ensures
        split_seq(s, ':').len() == 3,
        split_seq(s, ':')[0] == p.name@,
        decoded_tape(split_seq(s, ':')[1]) == p.tapes@[0]@,
        ({
            let rs = split_seq(s, ':')[2];
            let decoded = if rs.len() == 0 {
                Seq::<(Seq<char>, Seq<TransitionV>)>::empty()
            } else {
                decoded_rules_upto(rule_quints(rs), rule_quints(rs).len() as int)
            };
            &&& rs.len() == 0 || (forall|j: int|
                0 <= j < rule_quints(rs).len() ==> #[trigger] quint_ok(rs, j))
            &&& decoded == renamed_rules(p, sm, ks, ks.len() as int)
            &&& decoded.len() == p.rules@.len()
        }),
        forall|x: Seq<char>, y: Seq<char>|
            state_in_program(p, x) && state_in_program(p, y) && x != y ==> #[trigger] renamed_state(
                sm,
                x,
            ) != #[trigger] renamed_state(sm, y),
{
    lemma_round_trip_sections(p, sm, ks, s);
    let m = p.rules@;
    let rs = rules_section(sm, m, ks);
    let total = quints_upto(sm, m, ks, ks.len() as int);
    lemma_all_keys_membership(m);
    assert forall|x: Seq<char>| #[trigger] seq_has(all_keys(m), x) <==> seq_has(ks, x) by {}
    lemma_unique_same_members_same_len(ks, all_keys(m));
    assert(ks.len() == m.len());

    if total.len() == 0 {
        assert(ks.len() == 0) by {
            if ks.len() > 0 {
                assert(seq_has(ks, ks[0])) by {
                    assert(ks[0] == ks[0]);
                }
                lemma_rules_contains_get(m, ks[0]);
                assert((rules_get(m, ks[0])->Some_0).len() >= 1) by {
                    crate::machine::lemma_rules_get_is_entry(m, ks[0]);
                    let e = choose|e: int|
                        0 <= e < m.len() && m[e].0 == ks[0] && m[e].1 == rules_get(
                            m,
                            ks[0],
                        )->Some_0;
                    assert(m[e].1.len() >= 1);
                }
                assert(quints_upto(sm, m, ks, 1) == quints_upto(sm, m, ks, 0) + state_quints(
                    sm,
                    ks[0],
                    rules_get(m, ks[0])->Some_0,
                ));
                lemma_quints_upto_prefix(sm, m, ks, 1, ks.len() as int);
                assert(total.len() >= 1);
            }
        }
        assert(rs.len() == 0) by {
            assert(rs == join_seqs(total, seq!['|']));
        }
        assert(renamed_rules(p, sm, ks, 0) =~= Seq::<(Seq<char>, Seq<TransitionV>)>::empty());
    } else {
        assert(rs.len() > 0);
        assert(split_seq(rs, '|') == total);
        assert(ks.len() > 0) by {
            if ks.len() == 0 {
                assert(total.len() == 0);
            }
        }
        let qf = rule_quints(rs);
        assert(qf.len() == total.len());
        assert forall|q: int|
            0 <= q < qf.len() implies #[trigger] qf[q] == split_seq(total[q], ',') by {
            assert(qf[q] == split_seq(split_seq(rs, '|')[q], ','));
        }
        let last = ks.len() - 1;
        assert(seq_has(ks, ks[last as int])) by {
            assert(ks[last as int] == ks[last as int]);
        }
        lemma_rules_contains_get(m, ks[last as int]);
        let lenl = (rules_get(m, ks[last as int])->Some_0).len() as int;
        lemma_fold_quints(p, sm, ks, qf, last as int, lenl);
        assert(lenl >= 1) by {
            crate::machine::lemma_rules_get_is_entry(m, ks[last as int]);
            let e = choose|e: int|
                0 <= e < m.len() && m[e].0 == ks[last as int] && m[e].1 == rules_get(
                    m,
                    ks[last as int],
                )->Some_0;
            assert(m[e].1.len() >= 1);
        }
        assert(quints_upto(sm, m, ks, ks.len() as int) == quints_upto(sm, m, ks, last as int)
            + state_quints(sm, ks[last as int], rules_get(m, ks[last as int])->Some_0));
        assert(quints_upto(sm, m, ks, last as int).len() + lenl == total.len());
        let full = renamed_list(sm, rules_get(m, ks[last as int])->Some_0);
        assert(full.subrange(0, lenl) =~= full);
        assert(renamed_rules(p, sm, ks, last as int).push(
            (renamed_state(sm, ks[last as int]), full),
        ) =~= renamed_rules(p, sm, ks, ks.len() as int));
    }

    assert forall|x: Seq<char>, y: Seq<char>|
        state_in_program(p, x) && state_in_program(p, y) && x != y implies #[trigger] renamed_state(
        sm,
        x,
    ) != #[trigger] renamed_state(sm, y) by {
        lemma_renamed_injective(p, sm, x, y);
    }
}


/// Counting numeric codes looks only at entries before the cut, so a
/// longer mapping that keeps a prefix keeps its counts.
pub proof fn lemma_numeric_count_prefix(m1: StateMapV, m2: StateMapV, q: int)
    requires
        0 <= q <= m1.len(),
        m1.len() <= m2.len(),
        forall|j: int| 0 <= j < m1.len() ==> #[trigger] m2[j] == m1[j],
    ensures
        numeric_count(m2, q) == numeric_count(m1, q),
    decreases q,
{
    if q > 1 {
        lemma_numeric_count_prefix(m1, m2, q - 1);
    }
}

} // verus!
