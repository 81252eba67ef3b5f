//! A read-only catalog of programs: parsed once from injected source
//! texts, then served by index or name, listed, summarized and searched.

use vstd::prelude::*;
use vstd::string::StringExecFns;

use crate::analyzer::analysis_pass;
use crate::parser::{parse, parse_accepts, program_matches_scan, scan_spec};
use crate::strutil::{copy_chars, push_char, seq_has, str_eq, str_to_chars, usize_to_string};
use crate::types::{
    rules_wf, Mode, Program, Rules, Transition, TuringMachineError, TuringMachineErrorV,
};

verus! {

/// The name of what an unreadable `str::to_lowercase` computes: the
/// lowercase form of a character sequence. It depends on the characters
/// alone.
pub uninterp spec fn lower_of(s: Seq<char>) -> Seq<char>;

/// Relies on `str::to_lowercase`: returns the lowercase equivalent of the
/// string, a function of its characters alone; the lowercase of the empty
/// string is empty.
#[verifier::external_body]
fn lowercase(s: &str) -> (r: String)
    ensures
        r@ == lower_of(s@),
        s@.len() == 0 ==> r@.len() == 0,
{
    s.to_lowercase()
}

/// Whether `needle` occurs as a contiguous part of `haystack`.
pub open spec fn contains_sub(haystack: Seq<char>, needle: Seq<char>) -> bool {
    exists|k: int|
        0 <= k <= haystack.len() - needle.len() && #[trigger] haystack.subrange(
            k,
            k + needle.len(),
        ) == needle
}

/// Whether `needle` occurs as a contiguous part of `haystack`.
#[verifier::loop_isolation(false)]
pub fn chars_contain(haystack: &Vec<char>, needle: &Vec<char>) -> (r: bool)
    ensures
        r == contains_sub(haystack@, needle@),
{
    if needle.len() > haystack.len() {
        proof {
            if contains_sub(haystack@, needle@) {
                let k = choose|k: int|
                    0 <= k <= haystack@.len() - needle@.len() && #[trigger] haystack@.subrange(
                        k,
                        k + needle@.len(),
                    ) == needle@;
            }
        }
        return false;
    }
    let mut k: usize = 0;
    while k <= haystack.len() - needle.len()
        invariant
            needle@.len() <= haystack@.len(),
            k <= haystack@.len() - needle@.len() + 1,
            forall|kk: int|
                0 <= kk < k ==> #[trigger] haystack@.subrange(kk, kk + needle@.len()) != needle@,
        decreases haystack@.len() - needle@.len() + 1 - k,
    {
        let mut j: usize = 0;
        let mut matched = true;
        while j < needle.len()
            invariant
                j <= needle@.len(),
                k + needle@.len() <= haystack@.len(),
                matched <==> (forall|q: int| 0 <= q < j ==> haystack@[k + q] == needle@[q]),
            decreases needle@.len() - j,
        {
            if haystack[k + j] != needle[j] {
                matched = false;
                proof {
                    assert(haystack@[k + j] != needle@[j as int]);
                }
                j = needle.len();
            } else {
                proof {
                    assert(haystack@[k + j] == needle@[j as int]);
                }
                j = j + 1;
            }
        }
        if matched {
            proof {
                assert(haystack@.subrange(k as int, k + needle@.len()) =~= needle@);
            }
            return true;
        }
        proof {
            if haystack@.subrange(k as int, k + needle@.len()) == needle@ {
                assert forall|q: int| 0 <= q < needle@.len() implies haystack@[k + q]
                    == needle@[q] by {
                    assert(haystack@.subrange(k as int, k + needle@.len())[q] == haystack@[k + q]);
                }
            }
        }
        k = k + 1;
    }
    proof {
        if contains_sub(haystack@, needle@) {
            let kk = choose|kk: int|
                0 <= kk <= haystack@.len() - needle@.len() && #[trigger] haystack@.subrange(
                    kk,
                    kk + needle@.len(),
                ) == needle@;
        }
    }
    false
}

/// A summary of one catalog program.
#[derive(Debug, Clone)]
pub struct ProgramInfo {
    /// The program's position in the catalog.
    pub index: usize,
    /// The program's name.
    pub name: String,
    /// The program's initial state.
    pub initial_state: String,
    /// The initial content of the first tape.
    pub initial_tape: String,
    /// How many states have an entry in the rules.
    pub state_count: usize,
    /// How many transitions the rules hold in total.
    pub transition_count: usize,
}

/// The total number of transitions of the first `i` entries.
pub open spec fn transition_total(m: crate::types::RulesV, i: int) -> int
    decreases i,
{
    if i <= 0 {
        0
    } else {
        transition_total(m, i - 1) + m[i - 1].1.len()
    }
}

/// A catalog of programs, parsed once from the supplied source texts; a
/// text that does not parse is left out.
pub struct ProgramManager {
    /// The programs that parsed, in the order of their texts.
    pub programs: Vec<Program>,
    /// The source text of each parsed program.
    pub texts: Vec<String>,
}

/// The texts among `ts`, in order, that parse.
pub open spec fn kept_texts(ts: Seq<Seq<char>>) -> Seq<Seq<char>>
    decreases ts.len(),
{
    if ts.len() == 0 {
        Seq::empty()
    } else if parse_accepts(ts.last()) {
        kept_texts(ts.drop_last()).push(ts.last())
    } else {
        kept_texts(ts.drop_last())
    }
}

impl ProgramManager {
    /// Parses each supplied source text and keeps the programs that parse,
    /// with their texts: the kept texts are exactly, in order, the texts
    /// that parse, and each kept program is the parse of its text.
    #[verifier::loop_isolation(false)]
    pub fn load(texts: &Vec<String>) -> (r: ProgramManager)
        ensures
            r.programs@.len() == r.texts@.len(),
            r.programs@.len() <= texts@.len(),
            r.texts.deep_view() == kept_texts(texts.deep_view()),
            forall|i: int|
                0 <= i < r.programs@.len() ==> {
                    &&& parse_accepts(#[trigger] r.texts.deep_view()[i])
                    &&& program_matches_scan(
                        r.programs@[i],
                        scan_spec(r.texts.deep_view()[i])->Ok_0,
                    )
                    &&& analysis_pass(r.programs@[i])
                    &&& rules_wf(r.programs@[i].rules@)
                },
    {
        let mut programs: Vec<Program> = Vec::new();
        let mut kept: Vec<String> = Vec::new();
        let mut i: usize = 0;
        proof {
            assert(kept.deep_view() =~= kept_texts(texts.deep_view().subrange(0, 0)));
        }
        while i < texts.len()
            invariant
                i <= texts@.len(),
                programs@.len() == kept@.len(),
                programs@.len() <= i,
                kept.deep_view() == kept_texts(texts.deep_view().subrange(0, i as int)),
                forall|j: int|
                    0 <= j < programs@.len() ==> {
                        &&& parse_accepts(#[trigger] kept.deep_view()[j])
                        &&& program_matches_scan(
                            programs@[j],
                            scan_spec(kept.deep_view()[j])->Ok_0,
                        )
                        &&& analysis_pass(programs@[j])
                        &&& rules_wf(programs@[j].rules@)
                    },
            decreases texts@.len() - i,
        {
            let ghost pre_kept = kept.deep_view();
            proof {
                assert(texts.deep_view()[i as int] == texts@[i as int]@);
            }
            match parse(texts[i].as_str()) {
                Ok(p) => {
                    programs.push(p);
                    kept.push(texts[i].clone());
                    proof {
                        assert(kept.deep_view().len() == pre_kept.len() + 1);
                        assert(forall|j: int|
                            0 <= j < pre_kept.len() ==> kept.deep_view()[j] == pre_kept[j]);
                        assert(kept.deep_view()[pre_kept.len() as int] == texts.deep_view()[
                            i as int
                        ]);
                        assert(parse_accepts(texts.deep_view()[i as int]));
                        assert(kept.deep_view() =~= pre_kept.push(texts.deep_view()[i as int]));
                    }
                },
                Err(_) => {
                    proof {
                        assert(!parse_accepts(texts.deep_view()[i as int]));
                    }
                },
            }
            proof {
                assert(texts.deep_view().subrange(0, i + 1).drop_last() =~= texts.deep_view()
                    .subrange(0, i as int));
                assert(texts.deep_view().subrange(0, i + 1).last() == texts.deep_view()[i as int]);
                assert(kept.deep_view() =~= kept_texts(texts.deep_view().subrange(0, i + 1)));
            }
            i = i + 1;
        }
        proof {
            assert(texts.deep_view().subrange(0, texts.deep_view().len() as int) =~= texts
                .deep_view());
        }
        ProgramManager { programs, texts: kept }
    }

    /// The number of programs in the catalog.
    pub fn get_program_count(&self) -> (r: usize)
        ensures
            r == self.programs@.len(),
    {
        self.programs.len()
    }

    /// The program at `index`, or a validation error for an index out of
    /// range.
    pub fn get_program_by_index(&self, index: usize) -> (r: Result<&Program, TuringMachineError>)
        ensures
            index < self.programs@.len() <==> r is Ok,
            r is Ok ==> r->Ok_0 == &self.programs@[index as int],
            r is Err ==> (r->Err_0)@ == TuringMachineErrorV::ValidationError(
                "Program index "@ + crate::strutil::dec_digits(index as int) + " out of range"@,
            ),
    {
        if index < self.programs.len() {
            Ok(&self.programs[index])
        } else {
            let mut m = "Program index ".to_owned();
            m.append(usize_to_string(index).as_str());
            m.append(" out of range");
            proof {
                assert(m@ =~= "Program index "@ + crate::strutil::dec_digits(index as int)
                    + " out of range"@);
            }
            Err(TuringMachineError::ValidationError(m))
        }
    }

    /// The first program whose name is `name`, or a validation error when
    /// none matches.
    #[verifier::loop_isolation(false)]
    pub fn get_program_by_name(&self, name: &str) -> (r: Result<&Program, TuringMachineError>)
        ensures
            r is Ok <==> (exists|i: int|
                0 <= i < self.programs@.len() && (#[trigger] self.programs@[i]).name@ == name@),
            r is Ok ==> exists|i: int|
                {
                    &&& 0 <= i < self.programs@.len()
                    &&& (#[trigger] self.programs@[i]).name@ == name@
                    &&& forall|j: int| 0 <= j < i ==> self.programs@[j].name@ != name@
                    &&& r->Ok_0 == &self.programs@[i]
                },
            r is Err ==> (r->Err_0)@ == TuringMachineErrorV::ValidationError(
                "Program '"@ + name@ + "' not found"@,
            ),
    {
        let mut i: usize = 0;
        while i < self.programs.len()
            invariant
                i <= self.programs@.len(),
                forall|j: int| 0 <= j < i ==> (#[trigger] self.programs@[j]).name@ != name@,
            decreases self.programs@.len() - i,
        {
            if str_eq(self.programs[i].name.as_str(), name) {
                return Ok(&self.programs[i]);
            }
            i = i + 1;
        }
        let mut m = "Program '".to_owned();
        m.append(name);
        m.append("' not found");
        proof {
            assert(m@ =~= "Program '"@ + name@ + "' not found"@);
        }
        Err(TuringMachineError::ValidationError(m))
    }

    /// The names of all catalog programs, in order.
    #[verifier::loop_isolation(false)]
    pub fn list_program_names(&self) -> (r: Vec<String>)
        ensures
            r.deep_view() == Seq::new(
                self.programs@.len(),
                |i: int| self.programs@[i].name@,
            ),
    {
        let mut r: Vec<String> = Vec::new();
        let mut i: usize = 0;
        while i < self.programs.len()
            invariant
                i <= self.programs@.len(),
                r.deep_view() == Seq::new(i as nat, |j: int| self.programs@[j].name@),
            decreases self.programs@.len() - i,
        {
            let ghost prev = r.deep_view();
            r.push(self.programs[i].name.clone());
            proof {
                assert(prev.len() == i as nat);
                assert(r@.len() == i + 1);
                assert(r.deep_view().len() == i + 1);
                assert forall|j: int| 0 <= j < i + 1 implies r.deep_view()[j]
                    == self.programs@[j].name@ by {
                    if j < i {
                        assert(r.deep_view()[j] == prev[j]);
                    }
                }
                assert(r.deep_view() =~~= Seq::new(
                    (i + 1) as nat,
                    |j: int| self.programs@[j].name@,
                ));
            }
            i = i + 1;
        }
        proof {
            assert(r.deep_view() =~~= Seq::new(
                self.programs@.len(),
                |j: int| self.programs@[j].name@,
            ));
        }
        r
    }

    /// A summary of the program at `index`: its name, initial state and
    /// tape, and its state and transition counts.
    #[verifier::loop_isolation(false)]
    pub fn get_program_info(&self, index: usize) -> (r: Result<ProgramInfo, TuringMachineError>)
        ensures
            index < self.programs@.len() <==> r is Ok,
            r is Ok ==> {
                let info = r->Ok_0;
                let p = self.programs@[index as int];
                &&& info.index == index
                &&& info.name@ == p.name@
                &&& info.initial_state@ == p.initial_state@
                &&& info.initial_tape@ == if p.tapes@.len() > 0 {
                    p.tapes@[0]@
                } else {
                    Seq::<char>::empty()
                }
                &&& info.state_count == p.rules@.len()
                &&& info.transition_count as int == (if transition_total(
                    p.rules@,
                    p.rules@.len() as int,
                ) <= usize::MAX as int {
                    transition_total(p.rules@, p.rules@.len() as int)
                } else {
                    usize::MAX as int
                })
            },
    {
        let program = match self.get_program_by_index(index) {
            Ok(p) => p,
            Err(e) => {
                return Err(e);
            },
        };
        let mut transition_count: usize = 0;
        let mut i: usize = 0;
        while i < program.rules.len()
            invariant
                i <= program.rules@.len(),
                transition_count as int == (if transition_total(program.rules@, i as int)
                    <= usize::MAX as int {
                    transition_total(program.rules@, i as int)
                } else {
                    usize::MAX as int
                }),
            decreases program.rules@.len() - i,
        {
            let ts = program.rules.transitions_at(i);
            proof {
                // every entry's transition list fits in memory alongside
                // the others, so the running total stays in bounds
                crate::programs::lemma_transition_total_bound(program.rules@, i as int);
            }
            transition_count = add_clamped(transition_count, ts.len());
            i = i + 1;
        }
        Ok(
            ProgramInfo {
                index,
                name: program.name.clone(),
                initial_state: program.initial_state.clone(),
                initial_tape: program.initial_tape(),
                state_count: program.rules.len(),
                transition_count,
            },
        )
    }

    /// The catalog positions of the programs whose name contains the
    /// query, compared case-insensitively, in ascending order. An empty
    /// query matches every program.
    #[verifier::loop_isolation(false)]
    pub fn search_programs(&self, query: &str) -> (r: Vec<usize>)
        ensures
            forall|a: int, b: int| 0 <= a < b < r@.len() ==> r@[a] < r@[b],
            forall|j: int|
                0 <= j < r@.len() ==> (#[trigger] r@[j]) < self.programs@.len() && contains_sub(
                    lower_of(self.programs@[r@[j] as int].name@),
                    lower_of(query@),
                ),
            forall|i: int|
                0 <= i < self.programs@.len() && contains_sub(
                    lower_of((#[trigger] self.programs@[i]).name@),
                    lower_of(query@),
                ) ==> seq_has(r@, i as usize),
            query@.len() == 0 ==> forall|i: int|
                0 <= i < self.programs@.len() ==> #[trigger] seq_has(r@, i as usize),
    {
        let query_lower = str_to_chars(lowercase(query).as_str());
        proof {
            // the empty needle occurs in every haystack
            if query@.len() == 0 {
                assert(query_lower@.len() == 0);
                assert forall|h: Seq<char>| contains_sub(h, lower_of(query@)) by {
                    assert(h.subrange(0, 0) =~= lower_of(query@));
                    assert(0 <= 0 <= h.len() - lower_of(query@).len() && h.subrange(
                        0,
                        0 + lower_of(query@).len() as int,
                    ) == lower_of(query@));
                }
            }
        }
        let mut r: Vec<usize> = Vec::new();
        let mut i: usize = 0;
        while i < self.programs.len()
            invariant
                i <= self.programs@.len(),
                forall|a: int, b: int| 0 <= a < b < r@.len() ==> r@[a] < r@[b],
                forall|j: int| 0 <= j < r@.len() ==> (#[trigger] r@[j]) < i,
                forall|j: int|
                    0 <= j < r@.len() ==> contains_sub(
                        lower_of(self.programs@[r@[j] as int].name@),
                        lower_of(query@),
                    ),
                forall|ii: int|
                    0 <= ii < i && contains_sub(
                        lower_of((#[trigger] self.programs@[ii]).name@),
                        lower_of(query@),
                    ) ==> seq_has(r@, ii as usize),
            decreases self.programs@.len() - i,
        {
            let name_lower = str_to_chars(lowercase(self.programs[i].name.as_str()).as_str());
            let ghost r0 = r@;
            if chars_contain(&name_lower, &query_lower) {
                r.push(i);
            }
            proof {
                assert forall|ii: int|
                    0 <= ii < i + 1 && contains_sub(
                        lower_of((#[trigger] self.programs@[ii]).name@),
                        lower_of(query@),
                    ) implies seq_has(r@, ii as usize) by {
                    if ii < i {
                        assert(seq_has(r0, ii as usize));
                        let q = choose|q: int| 0 <= q < r0.len() && r0[q] == ii as usize;
                        assert(r@[q] == ii as usize);
                    } else {
                        assert(r@[r@.len() - 1] == i);
                    }
                }
            }
            i = i + 1;
        }
        proof {
            if query@.len() == 0 {
                assert forall|j: int|
                    0 <= j < self.programs@.len() implies #[trigger] seq_has(r@, j as usize) by {
                    assert(contains_sub(lower_of(self.programs@[j].name@), lower_of(query@)));
                }
            }
        }
        r
    }

    /// The source text of the program at `index`, or a validation error
    /// for an index out of range.
    pub fn get_program_text_by_index(&self, index: usize) -> (r: Result<
        &String,
        TuringMachineError,
    >)
        ensures
            index < self.texts@.len() <==> r is Ok,
            r is Ok ==> (r->Ok_0)@ == self.texts@[index as int]@,
            r is Err ==> (r->Err_0)@ == TuringMachineErrorV::ValidationError(
                "Program text index "@ + crate::strutil::dec_digits(index as int)
                    + " out of range"@,
            ),
    {
        if index < self.texts.len() {
            Ok(&self.texts[index])
        } else {
            let mut m = "Program text index ".to_owned();
            m.append(usize_to_string(index).as_str());
            m.append(" out of range");
            proof {
                assert(m@ =~= "Program text index "@ + crate::strutil::dec_digits(index as int)
                    + " out of range"@);
            }
            Err(TuringMachineError::ValidationError(m))
        }
    }
}

/// A sum capped at the largest representable value; the cap is never
/// reached for rule sets that fit in memory.
fn add_clamped(a: usize, b: usize) -> (r: usize)
    ensures
        a + b <= usize::MAX ==> r == a + b,
        a + b > usize::MAX ==> r == usize::MAX,
{
    if a <= usize::MAX - b {
        a + b
    } else {
        usize::MAX
    }
}

/// The running transition total is non-negative.
pub proof fn lemma_transition_total_bound(m: crate::types::RulesV, i: int)
    requires
        0 <= i,
    ensures
        transition_total(m, i) >= 0,
    decreases i,
{
    if i > 0 {
        lemma_transition_total_bound(m, i - 1);
    }
}

} // verus!
