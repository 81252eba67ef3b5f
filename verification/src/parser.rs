//! The front end for the machine description language: a hand-written,
//! line-oriented parser that turns source text into a validated [`Program`].
//! Unindented lines declare sections (`name`, `blank`, `tape`/`tapes`,
//! `head`/`heads`, `rules`); indented lines belong to the open `tapes` or
//! `rules` section. A parsed program is analyzed before it is returned, so
//! `parse` is the single validated entry point.

use vstd::prelude::*;
use vstd::string::StringExecFns;

use crate::analyzer::{
    analysis_pass, analyze, arity_message, entry_arity_ok, first_analysis_error,
    heads_mismatch_message, heads_pass, no_tapes_message, reachability_pass, reachable,
    start_state_pass, structure_pass, symbol_handled, symbol_on_tapes, symbols_pass,
    validation_message, AnalysisErrorV,
};
use crate::strutil::{
    chars_to_string, copy_chars, dec_digits, join_seqs, push_char, seq_has, sorted_unique,
    sorted_unique_chars, split_chars, split_seq, str_eq, str_to_chars, trim_chars, trim_spec,
    usize_to_string,
};
use crate::machine::resolved_seq;
use crate::types::{
    program_tapes_view, rules_add, rules_arity_ok, rules_contains_key, rules_insert, rules_wf,
    Direction, Mode, Program, Rules, RulesV, SourceError, SourceErrorV, Transition, TransitionV,
    TuringMachineError, TuringMachineErrorV, DEFAULT_BLANK_SYMBOL, INPUT_BLANK_SYMBOL,
};

verus! {

/// The hand-written parser for the machine description language.
pub struct TuringMachineParser;

/// A parse failure at a source line.
fn parse_error(message: String, line: usize) -> (r: TuringMachineError)
    ensures
        r@ == TuringMachineErrorV::ParseError(
            crate::types::SourceErrorV { message: message@, line: line as int, column: 1 },
        ),
{
    TuringMachineError::ParseError(SourceError { message, line, column: 1 })
}

/// A parse error value: a message at a source line, in column 1.
pub open spec fn perr(message: Seq<char>, line: int) -> TuringMachineErrorV {
    TuringMachineErrorV::ParseError(SourceErrorV { message, line, column: 1 })
}

/// The message for a malformed symbol token of a section.
pub open spec fn invalid_symbol_message(section: Seq<char>) -> Seq<char> {
    "Invalid symbol in '"@ + section + "' section"@
}

/// The position of the first occurrence of `c` in `s` at or after `from`.
pub open spec fn find_at(s: Seq<char>, c: char, from: int) -> Option<int>
    decreases s.len() - from,
{
    if from < 0 || from >= s.len() {
        None
    } else if s[from] == c {
        Some(from)
    } else {
        find_at(s, c, from + 1)
    }
}

/// A scan that sees no occurrence before `k`, and one at `k` unless `k` is
/// the length, finds exactly that.
pub proof fn lemma_find_at(s: Seq<char>, c: char, from: int, k: int)
    requires
        0 <= from <= k <= s.len(),
        forall|j: int| from <= j < k ==> s[j] != c,
        k == s.len() || s[k] == c,
    ensures
        k == s.len() ==> find_at(s, c, from) is None,
        k < s.len() ==> find_at(s, c, from) == Some(k),
    decreases k - from,
{
    if from < k {
        lemma_find_at(s, c, from + 1, k);
    }
}

/// The position of the first `->` in `s` at or after `from`.
pub open spec fn find_arrow_at(s: Seq<char>, from: int) -> Option<int>
    decreases s.len() - from,
{
    if from < 0 || from + 1 >= s.len() {
        None
    } else if s[from] == '-' && s[from + 1] == '>' {
        Some(from)
    } else {
        find_arrow_at(s, from + 1)
    }
}

/// A scan that sees no arrow anywhere finds none.
pub proof fn lemma_find_arrow_none(s: Seq<char>, from: int)
    requires
        0 <= from,
        forall|j: int| from <= j < s.len() - 1 ==> !((#[trigger] s[j]) == '-' && s[j + 1] == '>'),
    ensures
        find_arrow_at(s, from) is None,
    decreases s.len() - from,
{
    if from + 1 < s.len() {
        lemma_find_arrow_none(s, from + 1);
    }
}

/// A scan that sees no arrow before `k` and one at `k` finds `k`.
pub proof fn lemma_find_arrow_some(s: Seq<char>, from: int, k: int)
    requires
        0 <= from <= k,
        k + 1 < s.len(),
        s[k] == '-' && s[k + 1] == '>',
        forall|j: int| from <= j < k ==> !((#[trigger] s[j]) == '-' && s[j + 1] == '>'),
    ensures
        find_arrow_at(s, from) == Some(k),
    decreases k - from,
{
    if from < k {
        lemma_find_arrow_some(s, from + 1, k);
    }
}

/// Whether a token holds exactly one symbol after trimming and unquoting.
pub open spec fn sym_token_ok(v: Seq<char>) -> bool {
    unquoted(trim_spec(v)).len() == 1
}

/// The symbol a valid token denotes.
pub open spec fn sym_of_token(v: Seq<char>) -> char {
    unquoted(trim_spec(v))[0]
}

/// Whether a token is a direction symbol.
pub open spec fn dir_token_ok(v: Seq<char>) -> bool {
    trim_spec(v) == seq!['<'] || trim_spec(v) == seq!['L'] || trim_spec(v) == seq!['>']
        || trim_spec(v) == seq!['R'] || trim_spec(v) == seq!['-'] || trim_spec(v) == seq!['S']
}

/// The direction a valid token denotes.
pub open spec fn dir_of_token(v: Seq<char>) -> Direction {
    if trim_spec(v) == seq!['<'] || trim_spec(v) == seq!['L'] {
        Direction::Left
    } else if trim_spec(v) == seq!['>'] || trim_spec(v) == seq!['R'] {
        Direction::Right
    } else {
        Direction::Stay
    }
}

/// The message for a token that is no direction symbol.
pub open spec fn direction_error_message(v: Seq<char>) -> Seq<char> {
    "Unsupported direction: "@ + trim_spec(v)
}

/// The directions of a token list; the first bad token decides the error.
pub open spec fn dirs_spec(parts: Seq<Seq<char>>, line: int) -> Result<
    Seq<Direction>,
    TuringMachineErrorV,
>
    decreases parts.len(),
{
    if parts.len() == 0 {
        Ok(Seq::empty())
    } else if !dir_token_ok(parts[0]) {
        Err(perr(direction_error_message(parts[0]), line))
    } else {
        match dirs_spec(parts.drop_first(), line) {
            Ok(ds) => Ok(seq![dir_of_token(parts[0])] + ds),
            Err(e) => Err(e),
        }
    }
}

/// A list of valid direction tokens denotes its directions, in order.
pub proof fn lemma_dirs_spec_ok(parts: Seq<Seq<char>>, line: int)
    requires
        forall|j: int| 0 <= j < parts.len() ==> dir_token_ok(#[trigger] parts[j]),
    ensures
        dirs_spec(parts, line) == Ok::<Seq<Direction>, TuringMachineErrorV>(
            Seq::new(parts.len(), |j: int| dir_of_token(parts[j])),
        ),
    decreases parts.len(),
{
    if parts.len() == 0 {
        assert(Seq::new(parts.len(), |j: int| dir_of_token(parts[j])) =~= Seq::<
            Direction,
        >::empty());
    } else {
        lemma_dirs_spec_ok(parts.drop_first(), line);
        assert(seq![dir_of_token(parts[0])] + Seq::new(
            parts.drop_first().len(),
            |j: int| dir_of_token(parts.drop_first()[j]),
        ) =~= Seq::new(parts.len(), |j: int| dir_of_token(parts[j])));
    }
}

/// The first bad token of a direction list decides the error.
pub proof fn lemma_dirs_spec_err(parts: Seq<Seq<char>>, line: int, i: int)
    requires
        0 <= i < parts.len(),
        !dir_token_ok(parts[i]),
        forall|j: int| 0 <= j < i ==> dir_token_ok(#[trigger] parts[j]),
    ensures
        dirs_spec(parts, line) == Err::<Seq<Direction>, TuringMachineErrorV>(
            perr(direction_error_message(parts[i]), line),
        ),
    decreases i,
{
    if i > 0 {
        lemma_dirs_spec_err(parts.drop_first(), line, i - 1);
    }
}

/// Whether a token denotes a head offset: a non-empty digit string whose
/// value fits the format's bound.
pub open spec fn head_token_ok(v: Seq<char>) -> bool {
    &&& trim_spec(v).len() > 0
    &&& crate::encoder::all_digits(trim_spec(v))
    &&& crate::encoder::dec_value(trim_spec(v)) <= u32::MAX as int
}

/// The offset a valid head token denotes.
pub open spec fn head_of_token(v: Seq<char>) -> usize {
    crate::encoder::dec_value(trim_spec(v)) as usize
}

/// The message for a token that is no head offset.
pub open spec fn head_error_message(v: Seq<char>) -> Seq<char> {
    "Invalid head position: "@ + trim_spec(v)
}

/// The offsets of a token list; the first bad token decides the error.
pub open spec fn heads_items_spec(parts: Seq<Seq<char>>, line: int) -> Result<
    Seq<usize>,
    TuringMachineErrorV,
>
    decreases parts.len(),
{
    if parts.len() == 0 {
        Ok(Seq::empty())
    } else if !head_token_ok(parts[0]) {
        Err(perr(head_error_message(parts[0]), line))
    } else {
        match heads_items_spec(parts.drop_first(), line) {
            Ok(hs) => Ok(seq![head_of_token(parts[0])] + hs),
            Err(e) => Err(e),
        }
    }
}

/// A list of valid head tokens denotes its offsets, in order.
pub proof fn lemma_heads_items_ok(parts: Seq<Seq<char>>, line: int)
    requires
        forall|j: int| 0 <= j < parts.len() ==> head_token_ok(#[trigger] parts[j]),
    ensures
        heads_items_spec(parts, line) == Ok::<Seq<usize>, TuringMachineErrorV>(
            Seq::new(parts.len(), |j: int| head_of_token(parts[j])),
        ),
    decreases parts.len(),
{
    if parts.len() == 0 {
        assert(Seq::new(parts.len(), |j: int| head_of_token(parts[j])) =~= Seq::<usize>::empty());
    } else {
        lemma_heads_items_ok(parts.drop_first(), line);
        assert(seq![head_of_token(parts[0])] + Seq::new(
            parts.drop_first().len(),
            |j: int| head_of_token(parts.drop_first()[j]),
        ) =~= Seq::new(parts.len(), |j: int| head_of_token(parts[j])));
    }
}

/// The first bad token of a head list decides the error.
pub proof fn lemma_heads_items_err(parts: Seq<Seq<char>>, line: int, i: int)
    requires
        0 <= i < parts.len(),
        !head_token_ok(parts[i]),
        forall|j: int| 0 <= j < i ==> head_token_ok(#[trigger] parts[j]),
    ensures
        heads_items_spec(parts, line) == Err::<Seq<usize>, TuringMachineErrorV>(
            perr(head_error_message(parts[i]), line),
        ),
    decreases i,
{
    if i > 0 {
        lemma_heads_items_err(parts.drop_first(), line, i - 1);
    }
}

/// The message for a token that should be a bracketed list and is not.
pub open spec fn bracket_message() -> Seq<char> {
    "Expected a bracketed list"@
}

/// Whether a token, after trimming, is a bracketed list.
pub open spec fn bracketed(v: Seq<char>) -> bool {
    trim_spec(v).len() >= 2 && trim_spec(v)[0] == '[' && trim_spec(v).last() == ']'
}

/// The content between the brackets of a bracketed token.
pub open spec fn bracket_content(v: Seq<char>) -> Seq<char> {
    trim_spec(v).subrange(1, trim_spec(v).len() - 1)
}

/// The symbols of a comma-separated token list, or the section's symbol
/// error.
pub open spec fn symbols_list_spec(v: Seq<char>, section: Seq<char>, line: int) -> Result<
    Seq<char>,
    TuringMachineErrorV,
> {
    if tokens_ok(v) {
        Ok(token_symbols(v))
    } else {
        Err(perr(invalid_symbol_message(section), line))
    }
}

/// The head-offset list a `heads` section value denotes: a bracketed,
/// comma-separated list of offsets, with a single offset 0 for an empty
/// list.
pub open spec fn heads_list_spec(v: Seq<char>, line: int) -> Result<
    Seq<usize>,
    TuringMachineErrorV,
> {
    if !bracketed(v) {
        Err(perr(bracket_message(), line))
    } else {
        let inner = trim_spec(bracket_content(v));
        if inner.len() == 0 {
            Ok(seq![0usize])
        } else {
            heads_items_spec(split_seq(inner, ','), line)
        }
    }
}

/// The message for a multi-tape action whose three lists disagree.
pub open spec fn arity_error_message(r: int, w: int, d: int) -> Seq<char> {
    "Inconsistent multi-tape action: read="@ + dec_digits(r) + ", write="@ + dec_digits(w)
        + ", directions="@ + dec_digits(d)
}

/// The transition a bracketed multi-tape action line denotes, or its first
/// error: bracketed read, write and direction lists around an arrow,
/// followed by the next state, with all three lists of one length.
pub open spec fn multi_action_spec(t: Seq<char>, line: int) -> Result<
    TransitionV,
    TuringMachineErrorV,
> {
    match find_at(t, ']', 0) {
        None => Err(perr("Expected ']' in multi-tape action"@, line)),
        Some(close1) => match symbols_list_spec(t.subrange(1, close1), "rules"@, line) {
            Err(e) => Err(e),
            Ok(read) => match find_at(t, '>', close1) {
                None => Err(perr("Expected '->' in multi-tape action"@, line)),
                Some(arrow) => match find_at(t, '[', arrow) {
                    None => Err(perr("Expected '[' after '->'"@, line)),
                    Some(open2) => match find_at(t, ']', open2) {
                        None => Err(perr("Expected ']' in multi-tape action"@, line)),
                        Some(close2) => match symbols_list_spec(
                            t.subrange(open2 + 1, close2),
                            "rules"@,
                            line,
                        ) {
                            Err(e) => Err(e),
                            Ok(write) => match find_at(t, '[', close2) {
                                None => Err(perr("Expected a direction list"@, line)),
                                Some(open3) => match find_at(t, ']', open3) {
                                    None => Err(perr("Expected ']' in direction list"@, line)),
                                    Some(close3) => match dirs_spec(
                                        split_seq(t.subrange(open3 + 1, close3), ','),
                                        line,
                                    ) {
                                        Err(e) => Err(e),
                                        Ok(dirs) => match find_at(t, ',', close3) {
                                            None => Err(perr("Expected a next state"@, line)),
                                            Some(comma) => if read.len() != write.len()
                                                || read.len() != dirs.len() {
                                                Err(
                                                    perr(
                                                        arity_error_message(
                                                            read.len() as int,
                                                            write.len() as int,
                                                            dirs.len() as int,
                                                        ),
                                                        line,
                                                    ),
                                                )
                                            } else {
                                                Ok(
                                                    TransitionV {
                                                        read,
                                                        write,
                                                        directions: dirs,
                                                        next_state: trim_spec(
                                                            t.subrange(comma + 1, t.len() as int),
                                                        ),
                                                    },
                                                )
                                            },
                                        },
                                    },
                                },
                            },
                        },
                    },
                },
            },
        },
    }
}

/// The transition a single-tape action line denotes, or its first error:
/// `read -> write, direction, next` with an arrow, `read, direction, next`
/// without one, the omitted write repeating the read symbol.
pub open spec fn single_action_spec(t: Seq<char>, line: int) -> Result<
    TransitionV,
    TuringMachineErrorV,
> {
    match find_arrow_at(t, 0) {
        Some(k) => {
            let parts = split_seq(t.subrange(k + 2, t.len() as int), ',');
            if parts.len() != 3 {
                Err(perr("Expected 'write, direction, next state'"@, line))
            } else if !sym_token_ok(t.subrange(0, k)) {
                Err(perr(invalid_symbol_message("rules"@), line))
            } else if !sym_token_ok(parts[0]) {
                Err(perr(invalid_symbol_message("rules"@), line))
            } else if !dir_token_ok(parts[1]) {
                Err(perr(direction_error_message(parts[1]), line))
            } else {
                Ok(
                    TransitionV {
                        read: seq![sym_of_token(t.subrange(0, k))],
                        write: seq![sym_of_token(parts[0])],
                        directions: seq![dir_of_token(parts[1])],
                        next_state: trim_spec(parts[2]),
                    },
                )
            }
        },
        None => {
            let parts = split_seq(t, ',');
            if parts.len() != 3 {
                Err(
                    perr(
                        "Expected 'read, direction, next state' or 'read -> write, direction, next state'"@,
                        line,
                    ),
                )
            } else if !sym_token_ok(parts[0]) {
                Err(perr(invalid_symbol_message("rules"@), line))
            } else if !dir_token_ok(parts[1]) {
                Err(perr(direction_error_message(parts[1]), line))
            } else {
                Ok(
                    TransitionV {
                        read: seq![sym_of_token(parts[0])],
                        write: seq![sym_of_token(parts[0])],
                        directions: seq![dir_of_token(parts[1])],
                        next_state: trim_spec(parts[2]),
                    },
                )
            }
        },
    }
}

/// The transition a transition line denotes, or its first error.
pub open spec fn action_spec(t: Seq<char>, line: int) -> Result<
    TransitionV,
    TuringMachineErrorV,
> {
    if t.len() > 0 && t[0] == '[' {
        multi_action_spec(t, line)
    } else {
        single_action_spec(t, line)
    }
}

/// The scan state after some prefix of the source lines: what each section
/// declared so far, which sections were seen, and which indented section is
/// open.
#[verifier::ext_equal]
pub ghost struct ScanStateV {
    /// The declared program name, if the `name` section was seen.
    pub name: Option<Seq<char>>,
    /// The declared blank symbol, if the `blank` section was seen.
    pub blank: Option<char>,
    /// The tape rows declared so far, as symbol sequences.
    pub tape_rows: Seq<Seq<char>>,
    /// The declared head offsets, if a `head` or `heads` section was seen.
    pub heads: Option<Seq<usize>>,
    /// The transition rules declared so far.
    pub rules: RulesV,
    /// The first state declared under `rules`, if any.
    pub initial: Option<Seq<char>>,
    /// The state block that is open, if any.
    pub current: Option<Seq<char>>,
    /// Whether the `tape` section was seen.
    pub seen_tape: bool,
    /// Whether the `tapes` section was seen.
    pub seen_tapes: bool,
    /// Whether the `head` section was seen.
    pub seen_head: bool,
    /// Whether the `heads` section was seen.
    pub seen_heads: bool,
    /// Whether the `rules` section was seen.
    pub seen_rules: bool,
    /// Whether indented lines belong to the `tapes` section.
    pub in_tapes: bool,
    /// Whether indented lines belong to the `rules` section.
    pub in_rules: bool,
}

/// The scan state before any line.
pub open spec fn scan_init() -> ScanStateV {
    ScanStateV {
        name: None,
        blank: None,
        tape_rows: Seq::empty(),
        heads: None,
        rules: Seq::empty(),
        initial: None,
        current: None,
        seen_tape: false,
        seen_tapes: false,
        seen_head: false,
        seen_heads: false,
        seen_rules: false,
        in_tapes: false,
        in_rules: false,
    }
}

/// The scan state after a section line `t` (already trimmed), or its first
/// error: the text before the first colon names the section, the rest is
/// its value; a duplicate declaration, a forbidden singular/plural pair and
/// an unknown section are errors.
pub open spec fn scan_section(st: ScanStateV, t: Seq<char>, line: int) -> Result<
    ScanStateV,
    TuringMachineErrorV,
> {
    match find_at(t, ':', 0) {
        None => Err(perr("Expected a section declaration"@, line)),
        Some(colon) => {
            let key = trim_spec(t.subrange(0, colon));
            let val = trim_spec(t.subrange(colon + 1, t.len() as int));
            let st0 = ScanStateV { in_tapes: false, in_rules: false, ..st };
            if key == "name"@ {
                if st.name is Some {
                    Err(perr("Duplicate \"name:\" declaration"@, line))
                } else {
                    Ok(ScanStateV { name: Some(val), ..st0 })
                }
            } else if key == "blank"@ {
                if st.blank is Some {
                    Err(perr("Duplicate \"blank:\" declaration"@, line))
                } else if !sym_token_ok(val) {
                    Err(perr(invalid_symbol_message("blank"@), line))
                } else {
                    Ok(ScanStateV { blank: Some(sym_of_token(val)), ..st0 })
                }
            } else if key == "tape"@ {
                if st.seen_tape {
                    Err(perr("Duplicate \"tape:\" declaration"@, line))
                } else if st.seen_tapes {
                    Err(perr("Only one of 'tape' or 'tapes' is allowed"@, line))
                } else if !tokens_ok(val) {
                    Err(perr(invalid_symbol_message("tape"@), line))
                } else {
                    Ok(
                        ScanStateV {
                            seen_tape: true,
                            tape_rows: st.tape_rows.push(token_symbols(val)),
                            ..st0
                        },
                    )
                }
            } else if key == "tapes"@ {
                if st.seen_tapes {
                    Err(perr("Duplicate \"tapes:\" declaration"@, line))
                } else if st.seen_tape {
                    Err(perr("Only one of 'tape' or 'tapes' is allowed"@, line))
                } else {
                    Ok(ScanStateV { seen_tapes: true, in_tapes: true, in_rules: false, ..st })
                }
            } else if key == "head"@ {
                if st.seen_head {
                    Err(perr("Duplicate \"head:\" declaration"@, line))
                } else if st.seen_heads {
                    Err(perr("Only one of 'head' or 'heads' is allowed"@, line))
                } else if !head_token_ok(val) {
                    Err(perr(head_error_message(val), line))
                } else {
                    Ok(
                        ScanStateV {
                            seen_head: true,
                            heads: Some(seq![head_of_token(val)]),
                            ..st0
                        },
                    )
                }
            } else if key == "heads"@ {
                if st.seen_heads {
                    Err(perr("Duplicate \"heads:\" declaration"@, line))
                } else if st.seen_head {
                    Err(perr("Only one of 'head' or 'heads' is allowed"@, line))
                } else {
                    match heads_list_spec(val, line) {
                        Ok(hs) => Ok(ScanStateV { seen_heads: true, heads: Some(hs), ..st0 }),
                        Err(e) => Err(e),
                    }
                }
            } else if key == "rules"@ {
                if st.seen_rules {
                    Err(perr("Duplicate \"rules:\" declaration"@, line))
                } else {
                    Ok(ScanStateV { seen_rules: true, in_rules: true, in_tapes: false, ..st })
                }
            } else {
                Err(perr("Unknown section: "@ + key, line))
            }
        },
    }
}

/// The scan state after an indented line `t` (already trimmed), or its
/// first error: a tape row under `tapes`, a state block or a transition
/// under `rules`, and an error anywhere else. The first state block seen
/// fixes the initial state.
pub open spec fn scan_indented(st: ScanStateV, t: Seq<char>, line: int) -> Result<
    ScanStateV,
    TuringMachineErrorV,
> {
    if st.in_tapes {
        if !bracketed(t) {
            Err(perr(bracket_message(), line))
        } else if !tokens_ok(bracket_content(t)) {
            Err(perr(invalid_symbol_message("tapes"@), line))
        } else {
            Ok(ScanStateV { tape_rows: st.tape_rows.push(token_symbols(bracket_content(t))), ..st })
        }
    } else if st.in_rules {
        if t.last() == ':' {
            let state = trim_spec(t.subrange(0, t.len() - 1));
            if state.len() == 0 {
                Err(perr("Empty state name"@, line))
            } else if rules_contains_key(st.rules, state) {
                Err(perr("Duplicate transition rule: "@ + state, line))
            } else {
                Ok(
                    ScanStateV {
                        rules: rules_insert(st.rules, state, Seq::empty()),
                        initial: if st.initial is Some {
                            st.initial
                        } else {
                            Some(state)
                        },
                        current: Some(state),
                        ..st
                    },
                )
            }
        } else {
            match st.current {
                None => Err(perr("Transition outside of a state block"@, line)),
                Some(cur) => match action_spec(t, line) {
                    Ok(tr) => Ok(ScanStateV { rules: rules_add(st.rules, cur, tr), ..st }),
                    Err(e) => Err(e),
                },
            }
        }
    } else {
        Err(perr("Unexpected indented line"@, line))
    }
}

/// The scan state after one raw source line: a blank line changes nothing,
/// an unindented line declares a section, an indented line belongs to the
/// open section.
pub open spec fn scan_line(st: ScanStateV, raw: Seq<char>, line: int) -> Result<
    ScanStateV,
    TuringMachineErrorV,
> {
    let t = trim_spec(raw);
    if t.len() == 0 {
        Ok(st)
    } else if raw[0] != ' ' && raw[0] != '\t' {
        scan_section(st, t, line)
    } else {
        scan_indented(st, t, line)
    }
}

/// The scan state after the lines from position `i` on, starting from
/// `st`, or the first error among them.
pub open spec fn scan_lines(lines: Seq<Seq<char>>, i: int, st: ScanStateV) -> Result<
    ScanStateV,
    TuringMachineErrorV,
>
    decreases lines.len() - i,
{
    if i < 0 || i >= lines.len() {
        Ok(st)
    } else {
        match scan_line(st, lines[i], i + 1) {
            Ok(st1) => scan_lines(lines, i + 1, st1),
            Err(e) => Err(e),
        }
    }
}

/// What a successful scan of a whole source determines: every field of the
/// program except the fixed execution mode.
#[verifier::ext_equal]
pub ghost struct ScanOutV {
    /// The program name.
    pub name: Seq<char>,
    /// The initial state: the first state declared under `rules`.
    pub initial: Seq<char>,
    /// The initial tapes, with the wildcard rewritten to the blank symbol.
    pub tapes: Seq<Seq<char>>,
    /// The initial head offsets: the declared ones, or zero per tape.
    pub heads: Seq<usize>,
    /// The blank symbol: the declared one, or the space default.
    pub blank: char,
    /// The transition rules, in declaration order.
    pub rules: RulesV,
}

/// The outcome a finished scan state determines: the required sections
/// must have been seen, the blank and the head offsets get their defaults,
/// the wildcard in tape rows is rewritten to the resolved blank, and the
/// head count must match the tape count.
pub open spec fn scan_finish(st: ScanStateV) -> Result<ScanOutV, TuringMachineErrorV> {
    if st.name is None {
        Err(perr("Missing 'name' section"@, 1))
    } else if !st.seen_rules {
        Err(TuringMachineErrorV::ValidationError(missing_section_message(seq!["rules"@])))
    } else if st.initial is None {
        Err(TuringMachineErrorV::ValidationError(missing_section_message(seq!["initial_state"@])))
    } else if !st.seen_tape && !st.seen_tapes {
        Err(
            TuringMachineErrorV::ValidationError(
                missing_section_message(seq!["tape"@, "tapes"@]),
            ),
        )
    } else {
        let blank = if st.blank is Some {
            st.blank->Some_0
        } else {
            DEFAULT_BLANK_SYMBOL
        };
        let tapes = Seq::new(st.tape_rows.len(), |i: int| resolved_seq(st.tape_rows[i], blank));
        let heads = if st.heads is Some {
            st.heads->Some_0
        } else {
            Seq::new(tapes.len(), |i: int| 0usize)
        };
        if heads.len() != tapes.len() {
            Err(
                TuringMachineErrorV::ValidationError(
                    heads_mismatch_message(heads.len() as int, tapes.len() as int),
                ),
            )
        } else {
            Ok(
                ScanOutV {
                    name: st.name->Some_0,
                    initial: st.initial->Some_0,
                    tapes,
                    heads,
                    blank,
                    rules: st.rules,
                },
            )
        }
    }
}

/// What a source text determines before analysis: the scanned program
/// values, or the first scan error.
pub open spec fn scan_spec(s: Seq<char>) -> Result<ScanOutV, TuringMachineErrorV> {
    match scan_lines(split_seq(trim_spec(s), '\n'), 0, scan_init()) {
        Ok(st) => scan_finish(st),
        Err(e) => Err(e),
    }
}

/// Whether program `p` holds exactly the values scan outcome `o`
/// determines, with the fixed normal execution mode.
pub open spec fn program_matches_scan(p: Program, o: ScanOutV) -> bool {
    &&& p.name@ == o.name
    &&& p.mode == Mode::Normal
    &&& p.initial_state@ == o.initial
    &&& program_tapes_view(p) == o.tapes
    &&& p.heads@ == o.heads
    &&& p.blank == o.blank
    &&& p.rules@ == o.rules
}

/// The structural check, over a scan outcome.
pub open spec fn out_structure_pass(o: ScanOutV) -> bool {
    &&& o.tapes.len() > 0
    &&& o.heads.len() == o.tapes.len()
    &&& rules_arity_ok(o.rules, o.tapes.len() as int)
}

/// The head-bound check, over a scan outcome.
pub open spec fn out_heads_pass(o: ScanOutV) -> bool {
    forall|i: int|
        0 <= i < o.heads.len() && i < o.tapes.len() ==> !((#[trigger] o.heads[i])
            >= o.tapes[i].len() && o.tapes[i].len() > 0)
}

/// The start-state check, over a scan outcome.
pub open spec fn out_start_state_pass(o: ScanOutV) -> bool {
    rules_contains_key(o.rules, o.initial)
}

/// The reachability check, over a scan outcome.
pub open spec fn out_reachability_pass(o: ScanOutV) -> bool {
    forall|s: Seq<char>|
        #[trigger] rules_contains_key(o.rules, s) ==> reachable(o.rules, o.initial, s)
}

/// Whether symbol `c` occurs on some scanned tape.
pub open spec fn out_symbol_on_tapes(o: ScanOutV, c: char) -> bool {
    exists|i: int| 0 <= i < o.tapes.len() && (#[trigger] o.tapes[i]).contains(c)
}

/// Whether symbol `c` is the scanned blank or is read by some transition.
pub open spec fn out_symbol_handled(o: ScanOutV, c: char) -> bool {
    ||| c == o.blank
    ||| exists|i: int, j: int, k: int|
        0 <= i < o.rules.len() && 0 <= j < o.rules[i].1.len() && 0 <= k
            < o.rules[i].1[j].read.len() && (#[trigger] o.rules[i].1[j].read[k]) == c
}

/// The symbol-coverage check, over a scan outcome.
pub open spec fn out_symbols_pass(o: ScanOutV) -> bool {
    forall|c: char| #[trigger] out_symbol_on_tapes(o, c) ==> out_symbol_handled(o, c)
}

/// Whether a scanned program passes every analyzer check.
pub open spec fn out_analysis_pass(o: ScanOutV) -> bool {
    &&& out_structure_pass(o)
    &&& out_heads_pass(o)
    &&& out_start_state_pass(o)
    &&& out_reachability_pass(o)
    &&& out_symbols_pass(o)
}

/// The structural error the analyzer reports first, over a scan outcome.
pub open spec fn out_structural_error_shape(o: ScanOutV, e: AnalysisErrorV) -> bool {
    if o.tapes.len() == 0 {
        e == AnalysisErrorV::StructuralError(no_tapes_message())
    } else if o.heads.len() != o.tapes.len() {
        e == AnalysisErrorV::StructuralError(
            heads_mismatch_message(o.heads.len() as int, o.tapes.len() as int),
        )
    } else {
        exists|i: int|
            {
                &&& 0 <= i < o.rules.len()
                &&& !entry_arity_ok(#[trigger] o.rules[i], o.tapes.len() as int)
                &&& forall|j: int|
                    0 <= j < i ==> entry_arity_ok(#[trigger] o.rules[j], o.tapes.len() as int)
                &&& e == AnalysisErrorV::StructuralError(arity_message(o.rules[i].0))
            }
    }
}

/// The head error the analyzer reports, over a scan outcome.
pub open spec fn out_invalid_head_shape(o: ScanOutV, e: AnalysisErrorV) -> bool {
    exists|i: int|
        {
            &&& 0 <= i < o.heads.len()
            &&& i < o.tapes.len()
            &&& (#[trigger] o.heads[i]) >= o.tapes[i].len()
            &&& o.tapes[i].len() > 0
            &&& forall|j: int|
                0 <= j < i ==> !((#[trigger] o.heads[j]) >= o.tapes[j].len() && o.tapes[j].len()
                    > 0)
            &&& e == AnalysisErrorV::InvalidHead(o.heads[i] as int)
        }
}

/// The unreachable-states error, over a scan outcome.
pub open spec fn out_unreachable_shape(o: ScanOutV, e: AnalysisErrorV) -> bool {
    &&& e matches AnalysisErrorV::UnreachableStates(v)
    &&& sorted_unique(v)
    &&& forall|x: Seq<char>|
        #![trigger seq_has(v, x)]
        seq_has(v, x) <==> (rules_contains_key(o.rules, x) && !reachable(o.rules, o.initial, x))
}

/// The tape-symbol error, over a scan outcome.
pub open spec fn out_symbols_shape(o: ScanOutV, e: AnalysisErrorV) -> bool {
    &&& e matches AnalysisErrorV::InvalidTapeSymbols(v)
    &&& sorted_unique_chars(v)
    &&& forall|x: char|
        #![trigger seq_has(v, x)]
        seq_has(v, x) <==> (out_symbol_on_tapes(o, x) && !out_symbol_handled(o, x))
}

/// The analysis error a scanned program is rejected with: the checks run
/// in their fixed order and the first failing check's error is reported.
pub open spec fn out_first_analysis_error(o: ScanOutV, e: AnalysisErrorV) -> bool {
    if !out_structure_pass(o) {
        out_structural_error_shape(o, e)
    } else if !out_heads_pass(o) {
        out_invalid_head_shape(o, e)
    } else if !out_start_state_pass(o) {
        e == AnalysisErrorV::InvalidStartState(o.initial)
    } else if !out_reachability_pass(o) {
        out_unreachable_shape(o, e)
    } else if !out_symbols_pass(o) {
        out_symbols_shape(o, e)
    } else {
        false
    }
}

/// Whether a source text parses: its scan succeeds and the scanned
/// program passes every analyzer check.
pub open spec fn parse_accepts(s: Seq<char>) -> bool {
    scan_spec(s) is Ok && out_analysis_pass(scan_spec(s)->Ok_0)
}

/// Analysis depends only on the values a scan determines: a program that
/// matches a scan outcome passes each analyzer check exactly when the
/// outcome does, and admits the same first error.
pub proof fn lemma_out_analysis(p: Program, o: ScanOutV)
    requires
        program_matches_scan(p, o),
    ensures
        analysis_pass(p) == out_analysis_pass(o),
        forall|e: AnalysisErrorV|
            #[trigger] first_analysis_error(p, e) == out_first_analysis_error(o, e),
{
    assert(o.tapes.len() == p.tapes@.len());
    assert forall|i: int| 0 <= i < p.tapes@.len() implies p.tapes@[i]@ == o.tapes[i] by {
        assert(program_tapes_view(p)[i] == p.tapes@[i]@);
    }
    assert(structure_pass(p) == out_structure_pass(o));
    assert(heads_pass(p) == out_heads_pass(o)) by {
        if heads_pass(p) {
            assert forall|i: int|
                0 <= i < o.heads.len() && i < o.tapes.len() implies !((#[trigger] o.heads[i])
                >= o.tapes[i].len() && o.tapes[i].len() > 0) by {
                assert(p.heads@[i] == o.heads[i]);
                assert(p.tapes@[i]@ == o.tapes[i]);
            }
        }
        if out_heads_pass(o) {
            assert forall|i: int|
                0 <= i < p.heads@.len() && i < p.tapes@.len() implies !((#[trigger] p.heads@[i])
                >= p.tapes@[i]@.len() && p.tapes@[i]@.len() > 0) by {
                assert(o.heads[i] == p.heads@[i]);
                assert(o.tapes[i] == p.tapes@[i]@);
            }
        }
    }
    assert(start_state_pass(p) == out_start_state_pass(o));
    assert(reachability_pass(p) == out_reachability_pass(o));
    assert forall|c: char| #[trigger] symbol_on_tapes(p, c) == out_symbol_on_tapes(o, c) by {
        if symbol_on_tapes(p, c) {
            let i = choose|i: int|
                0 <= i < p.tapes@.len() && (#[trigger] p.tapes@[i]@).contains(c);
            assert(o.tapes[i].contains(c));
            assert(out_symbol_on_tapes(o, c));
        }
        if out_symbol_on_tapes(o, c) {
            let i = choose|i: int| 0 <= i < o.tapes.len() && (#[trigger] o.tapes[i]).contains(c);
            assert(p.tapes@[i]@.contains(c));
            assert(symbol_on_tapes(p, c));
        }
    }
    assert forall|c: char| #[trigger] symbol_handled(p, c) == out_symbol_handled(o, c) by {}
    assert(symbols_pass(p) == out_symbols_pass(o)) by {
        if symbols_pass(p) {
            assert forall|c: char|
                #[trigger] out_symbol_on_tapes(o, c) implies out_symbol_handled(o, c) by {
                assert(symbol_on_tapes(p, c));
                assert(symbol_handled(p, c));
            }
        }
        if out_symbols_pass(o) {
            assert forall|c: char|
                #[trigger] symbol_on_tapes(p, c) implies symbol_handled(p, c) by {
                assert(out_symbol_on_tapes(o, c));
                assert(out_symbol_handled(o, c));
            }
        }
    }
    assert(analysis_pass(p) == out_analysis_pass(o));
    assert forall|e: AnalysisErrorV|
        #[trigger] first_analysis_error(p, e) == out_first_analysis_error(o, e) by {
        if !structure_pass(p) {
            assert(crate::analyzer::structural_error_shape(p, e) == out_structural_error_shape(
                o,
                e,
            )) by {
                if p.tapes@.len() > 0 && p.heads@.len() == p.tapes@.len() {
                    assert(o.rules == p.rules@);
                }
            }
        } else if !heads_pass(p) {
            assert(crate::analyzer::invalid_head_shape(p, e) == out_invalid_head_shape(o, e)) by {
                if crate::analyzer::invalid_head_shape(p, e) {
                    let i = choose|i: int|
                        {
                            &&& 0 <= i < p.heads@.len()
                            &&& i < p.tapes@.len()
                            &&& (#[trigger] p.heads@[i]) >= p.tapes@[i]@.len()
                            &&& p.tapes@[i]@.len() > 0
                            &&& forall|j: int|
                                0 <= j < i ==> !((#[trigger] p.heads@[j]) >= p.tapes@[j]@.len()
                                    && p.tapes@[j]@.len() > 0)
                            &&& e == AnalysisErrorV::InvalidHead(p.heads@[i] as int)
                        };
                    assert forall|j: int|
                        0 <= j < i implies !((#[trigger] o.heads[j]) >= o.tapes[j].len()
                        && o.tapes[j].len() > 0) by {
                        assert(o.heads[j] == p.heads@[j]);
                        assert(o.tapes[j] == p.tapes@[j]@);
                    }
                    assert(o.heads[i] == p.heads@[i] && o.tapes[i] == p.tapes@[i]@);
                    assert(out_invalid_head_shape(o, e));
                }
                if out_invalid_head_shape(o, e) {
                    let i = choose|i: int|
                        {
                            &&& 0 <= i < o.heads.len()
                            &&& i < o.tapes.len()
                            &&& (#[trigger] o.heads[i]) >= o.tapes[i].len()
                            &&& o.tapes[i].len() > 0
                            &&& forall|j: int|
                                0 <= j < i ==> !((#[trigger] o.heads[j]) >= o.tapes[j].len()
                                    && o.tapes[j].len() > 0)
                            &&& e == AnalysisErrorV::InvalidHead(o.heads[i] as int)
                        };
                    assert forall|j: int|
                        0 <= j < i implies !((#[trigger] p.heads@[j]) >= p.tapes@[j]@.len()
                        && p.tapes@[j]@.len() > 0) by {
                        assert(o.heads[j] == p.heads@[j]);
                        assert(o.tapes[j] == p.tapes@[j]@);
                    }
                    assert(p.heads@[i] == o.heads[i] && p.tapes@[i]@ == o.tapes[i]);
                    assert(crate::analyzer::invalid_head_shape(p, e));
                }
            }
        } else if !start_state_pass(p) {
        } else if !reachability_pass(p) {
            assert(crate::analyzer::unreachable_shape(p, e) == out_unreachable_shape(o, e));
        } else if !symbols_pass(p) {
            assert(crate::analyzer::symbols_shape(p, e) == out_symbols_shape(o, e)) by {
                match e {
                    AnalysisErrorV::InvalidTapeSymbols(v) => {
                        assert forall|x: char|
                            (seq_has(v, x) <==> (symbol_on_tapes(p, x) && !symbol_handled(p, x)))
                                == (seq_has(v, x) <==> (out_symbol_on_tapes(o, x)
                                && !out_symbol_handled(o, x))) by {
                            assert(symbol_on_tapes(p, x) == out_symbol_on_tapes(o, x));
                            assert(symbol_handled(p, x) == out_symbol_handled(o, x));
                        }
                    },
                    _ => {},
                }
            }
        }
    }
}

/// A quoted section name, or two alternatives joined with ` or `.
#[verifier::loop_isolation(false)]
pub fn format_rules(names: &Vec<String>) -> (r: String)
    ensures
        r@ == join_seqs(
            Seq::new(names.deep_view().len(), |i: int| seq!['\''] + names.deep_view()[i] + seq!['\'']),
            " or "@,
        ),
{
    let ghost parts = Seq::new(
        names.deep_view().len(),
        |i: int| seq!['\''] + names.deep_view()[i] + seq!['\''],
    );
    let mut r = String::new();
    let mut i: usize = 0;
    proof {
        assert(parts.subrange(0, 0) =~= Seq::<Seq<char>>::empty());
        assert(r@ =~= join_seqs(parts.subrange(0, 0), " or "@));
    }
    while i < names.len()
        invariant
            i <= names@.len(),
            r@ == join_seqs(parts.subrange(0, i as int), " or "@),
        decreases names@.len() - i,
    {
        if i > 0 {
            r.append(" or ");
        }
        push_char(&mut r, '\'');
        r.append(names[i].as_str());
        push_char(&mut r, '\'');
        proof {
            crate::strutil::lemma_join_push(parts.subrange(0, i as int), " or "@, parts[i as int]);
            assert(parts.subrange(0, i as int).push(parts[i as int]) =~= parts.subrange(0, i + 1));
            assert(r@ =~= join_seqs(parts.subrange(0, i + 1), " or "@));
        }
        i = i + 1;
    }
    proof {
        assert(parts.subrange(0, parts.len() as int) =~= parts);
    }
    r
}

/// The message for a missing required section.
pub open spec fn missing_section_message(names: Seq<Seq<char>>) -> Seq<char> {
    "Missing "@ + join_seqs(Seq::new(names.len(), |i: int| seq!['\''] + names[i] + seq!['\'']), " or "@)
        + " section"@
}

/// Unwraps a required section, or reports which section is missing.
pub fn check_required_rule<T>(value: Option<T>, names: &Vec<String>) -> (r: Result<
    T,
    TuringMachineError,
>)
    ensures
        value is Some <==> r is Ok,
        value is Some ==> r is Ok && r->Ok_0 == value->Some_0,
        value is None ==> r is Err && (r->Err_0)@ == TuringMachineErrorV::ValidationError(
            missing_section_message(names.deep_view()),
        ),
{
    match value {
        Some(v) => Ok(v),
        None => {
            let mut m = "Missing ".to_owned();
            m.append(format_rules(names).as_str());
            m.append(" section");
            proof {
                assert(m@ =~= missing_section_message(names.deep_view()));
            }
            Err(TuringMachineError::ValidationError(m))
        },
    }
}

/// Checks that there is one head offset per tape.
pub fn check_head_tape_consistency(heads: &Vec<usize>, tapes: &Vec<Vec<char>>) -> (r: Result<
    (),
    TuringMachineError,
>)
    ensures
        r is Ok <==> heads@.len() == tapes@.len(),
        r is Err ==> (r->Err_0)@ == TuringMachineErrorV::ValidationError(
            heads_mismatch_message(heads@.len() as int, tapes@.len() as int),
        ),
{
    if heads.len() != tapes.len() {
        let mut m = "Number of head positions (".to_owned();
        m.append(usize_to_string(heads.len()).as_str());
        m.append(") does not match number of tapes (");
        m.append(usize_to_string(tapes.len()).as_str());
        m.append(")");
        proof {
            assert(m@ =~= heads_mismatch_message(heads@.len() as int, tapes@.len() as int));
        }
        return Err(TuringMachineError::ValidationError(m));
    }
    Ok(())
}

/// Replaces the wildcard symbol with the actual blank symbol on every tape.
#[verifier::loop_isolation(false)]
pub fn rewrite_tapes(tapes: &Vec<Vec<char>>, blank: char) -> (r: Vec<Vec<char>>)
    ensures
        r.deep_view().len() == tapes.deep_view().len(),
        forall|i: int|
            0 <= i < tapes.deep_view().len() ==> #[trigger] r.deep_view()[i] == resolved_seq(
                tapes.deep_view()[i],
                blank,
            ),
{
    let mut r: Vec<Vec<char>> = Vec::new();
    let mut i: usize = 0;
    while i < tapes.len()
        invariant
            i <= tapes@.len(),
            r.deep_view().len() == i,
            forall|j: int|
                0 <= j < i ==> #[trigger] r.deep_view()[j] == resolved_seq(
                    tapes.deep_view()[j],
                    blank,
                ),
        decreases tapes@.len() - i,
    {
        let ghost prev = r.deep_view();
        proof {
            assert(tapes.deep_view()[i as int] == tapes@[i as int]@);
        }
        r.push(crate::machine::resolve_chars(&tapes[i], blank));
        proof {
            assert(r@.len() == i + 1);
            assert(r.deep_view().len() == i + 1);
            assert(forall|j: int| 0 <= j < i ==> r.deep_view()[j] == prev[j]);
            assert(r.deep_view()[i as int] == r@[i as int]@);
            assert(r.deep_view()[i as int] == resolved_seq(tapes.deep_view()[i as int], blank));
            assert forall|j: int| 0 <= j < i + 1 implies #[trigger] r.deep_view()[j]
                == resolved_seq(tapes.deep_view()[j], blank) by {
                if j < i {
                    assert(r.deep_view()[j] == prev[j]);
                    assert(prev[j] == resolved_seq(tapes.deep_view()[j], blank));
                }
            }
        }
        i = i + 1;
    }
    r
}

/// The unquoted value of a symbol token: surrounding single quotes are
/// stripped.
pub open spec fn unquoted(s: Seq<char>) -> Seq<char>
    decreases s.len(),
{
    if s.len() > 0 && s[0] == '\'' {
        unquoted(s.drop_first())
    } else if s.len() > 0 && s.last() == '\'' {
        unquoted(s.drop_last())
    } else {
        s
    }
}

/// A copy of `v` with surrounding single quotes stripped.
fn unquote_chars(v: &Vec<char>) -> (r: Vec<char>)
    ensures
        r@ == unquoted(v@),
    decreases v@.len(),
{
    if v.len() > 0 && v[0] == '\'' {
        let mut w: Vec<char> = Vec::new();
        let mut i: usize = 1;
        while i < v.len()
            invariant
                1 <= i <= v@.len(),
                v@.len() > 0,
                w@ == v@.subrange(1, i as int),
            decreases v@.len() - i,
        {
            w.push(v[i]);
            proof {
                assert(w@ =~= v@.subrange(1, i + 1));
            }
            i = i + 1;
        }
        proof {
            assert(w@ =~= v@.drop_first());
        }
        unquote_chars(&w)
    } else if v.len() > 0 && v[v.len() - 1] == '\'' {
        let mut w: Vec<char> = Vec::new();
        let mut i: usize = 0;
        while i < v.len() - 1
            invariant
                0 <= i <= v@.len() - 1,
                v@.len() > 0,
                w@ == v@.subrange(0, i as int),
            decreases v@.len() - 1 - i,
        {
            w.push(v[i]);
            proof {
                assert(w@ =~= v@.subrange(0, i + 1));
            }
            i = i + 1;
        }
        proof {
            assert(w@ =~= v@.drop_last());
        }
        unquote_chars(&w)
    } else {
        copy_chars(v)
    }
}

/// The symbol a token stands for: the first character after stripping
/// quotes, or the default blank symbol for an empty token.
pub fn parse_symbol(input: &str) -> (r: char)
    ensures
        r == if unquoted(trim_spec(input@)).len() > 0 {
            unquoted(trim_spec(input@))[0]
        } else {
            DEFAULT_BLANK_SYMBOL
        },
{
    let u = unquote_chars(&trim_chars(&str_to_chars(input)));
    if u.len() > 0 {
        u[0]
    } else {
        DEFAULT_BLANK_SYMBOL
    }
}

/// A symbol token that must hold exactly one character after unquoting.
fn parse_symbol_checked(v: &Vec<char>, section: &str, line: usize) -> (r: Result<
    char,
    TuringMachineError,
>)
    ensures
        r is Ok <==> sym_token_ok(v@),
        r is Ok ==> r->Ok_0 == sym_of_token(v@),
        r is Err ==> (r->Err_0)@ == perr(invalid_symbol_message(section@), line as int),
{
    let u = unquote_chars(&trim_chars(v));
    if u.len() != 1 {
        let mut m = "Invalid symbol in '".to_owned();
        m.append(section);
        m.append("' section");
        proof {
            assert(m@ =~= invalid_symbol_message(section@));
        }
        return Err(parse_error(m, line));
    }
    Ok(u[0])
}

/// A direction token: `<` or `L`, `>` or `R`, `-` or `S`.
fn parse_direction(v: &Vec<char>, line: usize) -> (r: Result<Direction, TuringMachineError>)
    ensures
        r is Ok <==> dir_token_ok(v@),
        r is Ok ==> r->Ok_0 == dir_of_token(v@),
        r is Err ==> (r->Err_0)@ == perr(direction_error_message(v@), line as int),
{
    let t = trim_chars(v);
    if t.len() == 1 {
        let c = t[0];
        proof {
            assert(trim_spec(v@) =~= seq![c] || trim_spec(v@).len() != 1 || trim_spec(v@)[0] != c);
            assert(t@ == trim_spec(v@));
            assert(trim_spec(v@) =~= seq![c]);
        }
        if c == '<' || c == 'L' {
            return Ok(Direction::Left);
        }
        if c == '>' || c == 'R' {
            return Ok(Direction::Right);
        }
        if c == '-' || c == 'S' {
            return Ok(Direction::Stay);
        }
    }
    proof {
        if trim_spec(v@) == seq!['<'] || trim_spec(v@) == seq!['L'] || trim_spec(v@) == seq!['>']
            || trim_spec(v@) == seq!['R'] || trim_spec(v@) == seq!['-'] || trim_spec(v@)
            == seq!['S'] {
            assert(trim_spec(v@).len() == 1);
        }
    }
    let mut m = "Unsupported direction: ".to_owned();
    m.append(chars_to_string(&trim_chars(v)).as_str());
    proof {
        assert(m@ =~= direction_error_message(v@));
    }
    Err(parse_error(m, line))
}

/// A non-negative decimal head offset.
fn parse_head_index(v: &Vec<char>, line: usize) -> (r: Result<usize, TuringMachineError>)
    ensures
        r is Ok <==> head_token_ok(v@),
        r is Ok ==> r->Ok_0 == head_of_token(v@),
        r is Err ==> (r->Err_0)@ == perr(head_error_message(v@), line as int),
{
    let t = trim_chars(v);
    match crate::encoder::parse_decimal(&t) {
        Some(n) => Ok(n),
        None => {
            let mut m = "Invalid head position: ".to_owned();
            m.append(chars_to_string(&t).as_str());
            proof {
                assert(m@ =~= head_error_message(v@));
            }
            Err(parse_error(m, line))
        },
    }
}


/// The first position of `c` in `v` at or after `from`, if any.
fn find_char(v: &Vec<char>, c: char, from: usize) -> (r: Option<usize>)
    requires
        from <= v@.len(),
    ensures
        match r {
            Some(k) => from <= k < v@.len() && v@[k as int] == c && forall|j: int|
                from <= j < k ==> v@[j] != c,
            None => forall|j: int| from <= j < v@.len() ==> v@[j] != c,
        },
        find_at(v@, c, from as int) == match r {
            Some(k) => Some(k as int),
            None => None::<int>,
        },
{
    let mut i: usize = from;
    while i < v.len()
        invariant
            from <= i <= v@.len(),
            forall|j: int| from <= j < i ==> v@[j] != c,
        decreases v@.len() - i,
    {
        if v[i] == c {
            proof {
                lemma_find_at(v@, c, from as int, i as int);
            }
            return Some(i);
        }
        i = i + 1;
    }
    proof {
        lemma_find_at(v@, c, from as int, v@.len() as int);
    }
    None
}

/// A copy of `v[a..b]`.
fn slice_chars(v: &Vec<char>, a: usize, b: usize) -> (r: Vec<char>)
    requires
        a <= b <= v@.len(),
    ensures
        r@ == v@.subrange(a as int, b as int),
{
    let mut r: Vec<char> = Vec::new();
    let mut i: usize = a;
    while i < b
        invariant
            a <= i <= b <= v@.len(),
            r@ == v@.subrange(a as int, i as int),
        decreases b - i,
    {
        r.push(v[i]);
        proof {
            assert(r@ =~= v@.subrange(a as int, i + 1));
        }
        i = i + 1;
    }
    r
}

/// The symbol each token of a comma-separated list stands for.
pub open spec fn token_symbols(s: Seq<char>) -> Seq<char> {
    Seq::new(
        crate::strutil::split_seq(s, ',').len(),
        |i: int| unquoted(trim_spec(crate::strutil::split_seq(s, ',')[i]))[0],
    )
}

/// Whether every comma-separated token of `s` holds exactly one symbol
/// after trimming and unquoting.
pub open spec fn tokens_ok(s: Seq<char>) -> bool {
    forall|i: int|
        0 <= i < crate::strutil::split_seq(s, ',').len() ==> unquoted(
            trim_spec(#[trigger] crate::strutil::split_seq(s, ',')[i]),
        ).len() == 1
}

/// The symbols of a comma-separated token list; each token must hold
/// exactly one symbol.
#[verifier::loop_isolation(false)]
fn parse_symbols_list(v: &Vec<char>, section: &str, line: usize) -> (r: Result<
    Vec<char>,
    TuringMachineError,
>)
    ensures
        r is Ok <==> tokens_ok(v@),
        r is Ok ==> (r->Ok_0)@ == token_symbols(v@) && (r->Ok_0)@.len() >= 1,
        r is Err ==> (r->Err_0)@ == perr(invalid_symbol_message(section@), line as int),
        match symbols_list_spec(v@, section@, line as int) {
            Ok(syms) => r is Ok && (r->Ok_0)@ == syms,
            Err(e) => r is Err && (r->Err_0)@ == e,
        },
{
    let parts = split_chars(v, ',');
    let ghost ps = parts.deep_view();
    let mut symbols: Vec<char> = Vec::new();
    let mut i: usize = 0;
    while i < parts.len()
        invariant
            i <= ps.len(),
            ps == parts.deep_view(),
            ps == crate::strutil::split_seq(v@, ','),
            symbols@.len() == i,
            forall|j: int| 0 <= j < i ==> unquoted(trim_spec(#[trigger] ps[j])).len() == 1,
            forall|j: int| 0 <= j < i ==> symbols@[j] == unquoted(trim_spec(#[trigger] ps[j]))[0],
        decreases ps.len() - i,
    {
        proof {
            assert(parts.deep_view()[i as int] == parts@[i as int]@);
        }
        match parse_symbol_checked(&parts[i], section, line) {
            Ok(c) => {
                symbols.push(c);
            },
            Err(e) => {
                proof {
                    assert(unquoted(trim_spec(ps[i as int])).len() != 1);
                }
                return Err(e);
            },
        }
        i = i + 1;
    }
    proof {
        crate::strutil::lemma_split_seq_parts(v@, ',');
        assert(symbols@ =~= token_symbols(v@));
    }
    Ok(symbols)
}

/// The content between the surrounding brackets of a token.
fn parse_bracket_inner(v: &Vec<char>, line: usize) -> (r: Result<Vec<char>, TuringMachineError>)
    ensures
        r is Ok <==> bracketed(v@),
        r is Ok ==> (r->Ok_0)@ == bracket_content(v@),
        r is Err ==> (r->Err_0)@ == perr(bracket_message(), line as int),
{
    let t = trim_chars(v);
    if t.len() >= 2 && t[0] == '[' && t[t.len() - 1] == ']' {
        Ok(slice_chars(&t, 1, t.len() - 1))
    } else {
        Err(parse_error("Expected a bracketed list".to_owned(), line))
    }
}

/// A head-offset list: a bracketed, comma-separated list of offsets, with
/// a single offset 0 for an empty list.
#[verifier::loop_isolation(false)]
fn parse_heads_list(v: &Vec<char>, line: usize) -> (r: Result<Vec<usize>, TuringMachineError>)
    ensures
        r is Err ==> r->Err_0 is ParseError,
        r is Ok ==> (r->Ok_0)@.len() >= 1,
        match heads_list_spec(v@, line as int) {
            Ok(hs) => r is Ok && (r->Ok_0)@ == hs,
            Err(e) => r is Err && (r->Err_0)@ == e,
        },
{
    let inner = match parse_bracket_inner(v, line) {
        Ok(x) => x,
        Err(e) => {
            return Err(e);
        },
    };
    let trimmed = trim_chars(&inner);
    let mut positions: Vec<usize> = Vec::new();
    if trimmed.len() > 0 {
        let parts = split_chars(&trimmed, ',');
        let ghost ps = parts.deep_view();
        let mut i: usize = 0;
        while i < parts.len()
            invariant
                i <= ps.len(),
                ps == parts.deep_view(),
                ps == split_seq(trimmed@, ','),
                positions@.len() == i,
                forall|j: int|
                    0 <= j < i ==> head_token_ok(#[trigger] ps[j]) && positions@[j]
                        == head_of_token(ps[j]),
            decreases ps.len() - i,
        {
            proof {
                assert(ps[i as int] == parts@[i as int]@);
            }
            match parse_head_index(&parts[i], line) {
                Ok(n) => {
                    positions.push(n);
                },
                Err(e) => {
                    proof {
                        lemma_heads_items_err(ps, line as int, i as int);
                    }
                    return Err(e);
                },
            }
            i = i + 1;
        }
        proof {
            crate::strutil::lemma_split_seq_parts(trimmed@, ',');
            lemma_heads_items_ok(ps, line as int);
            assert(positions@ =~= Seq::new(ps.len(), |j: int| head_of_token(ps[j])));
        }
    }
    if positions.len() == 0 {
        positions.push(0);
        proof {
            assert(positions@ =~= seq![0usize]);
        }
    }
    Ok(positions)
}

/// One transition line: the single-tape shorthand
/// `read [-> write], direction, next` or the bracketed multi-tape form
/// `[reads] -> [writes], [directions], next`. An omitted write repeats the
/// read symbol.
#[verifier::loop_isolation(false)]
fn parse_action(t: &Vec<char>, line: usize) -> (r: Result<Transition, TuringMachineError>)
    ensures
        r is Err ==> r->Err_0 is ParseError,
        r is Ok ==> {
            let tr = r->Ok_0;
            &&& tr@.read.len() == tr@.write.len()
            &&& tr@.read.len() == tr@.directions.len()
            &&& tr@.read.len() >= 1
        },
        match action_spec(t@, line as int) {
            Ok(tv) => r is Ok && (r->Ok_0)@ == tv,
            Err(e) => r is Err && (r->Err_0)@ == e,
        },
{
    if t.len() > 0 && t[0] == '[' {
        // multi-tape form
        let close1 = match find_char(t, ']', 0) {
            Some(k) => k,
            None => {
                return Err(parse_error("Expected ']' in multi-tape action".to_owned(), line));
            },
        };
        let read = match parse_symbols_list(&slice_chars(t, 1, close1), "rules", line) {
            Ok(x) => x,
            Err(e) => {
                return Err(e);
            },
        };
        let arrow = match find_char(t, '>', close1) {
            Some(k) => k,
            None => {
                return Err(parse_error("Expected '->' in multi-tape action".to_owned(), line));
            },
        };
        let open2 = match find_char(t, '[', arrow) {
            Some(k) => k,
            None => {
                return Err(parse_error("Expected '[' after '->'".to_owned(), line));
            },
        };
        let close2 = match find_char(t, ']', open2) {
            Some(k) => k,
            None => {
                return Err(parse_error("Expected ']' in multi-tape action".to_owned(), line));
            },
        };
        let write = match parse_symbols_list(&slice_chars(t, open2 + 1, close2), "rules", line) {
            Ok(x) => x,
            Err(e) => {
                return Err(e);
            },
        };
        let open3 = match find_char(t, '[', close2) {
            Some(k) => k,
            None => {
                return Err(parse_error("Expected a direction list".to_owned(), line));
            },
        };
        let close3 = match find_char(t, ']', open3) {
            Some(k) => k,
            None => {
                return Err(parse_error("Expected ']' in direction list".to_owned(), line));
            },
        };
        let dir_parts = split_chars(&slice_chars(t, open3 + 1, close3), ',');
        let ghost dp = dir_parts.deep_view();
        proof {
            assert(dp == split_seq(t@.subrange(open3 + 1, close3 as int), ','));
        }
        let mut directions: Vec<Direction> = Vec::new();
        let mut i: usize = 0;
        while i < dir_parts.len()
            invariant
                i <= dp.len(),
                dp == dir_parts.deep_view(),
                directions@.len() == i,
                forall|j: int|
                    0 <= j < i ==> dir_token_ok(#[trigger] dp[j]) && directions@[j]
                        == dir_of_token(dp[j]),
            decreases dp.len() - i,
        {
            proof {
                assert(dp[i as int] == dir_parts@[i as int]@);
            }
            match parse_direction(&dir_parts[i], line) {
                Ok(d) => {
                    directions.push(d);
                },
                Err(e) => {
                    proof {
                        lemma_dirs_spec_err(dp, line as int, i as int);
                    }
                    return Err(e);
                },
            }
            i = i + 1;
        }
        proof {
            crate::strutil::lemma_split_seq_parts(
                t@.subrange(open3 + 1, close3 as int),
                ',',
            );
            lemma_dirs_spec_ok(dp, line as int);
            assert(directions@ =~= Seq::new(dp.len(), |j: int| dir_of_token(dp[j])));
        }
        let comma = match find_char(t, ',', close3) {
            Some(k) => k,
            None => {
                return Err(parse_error("Expected a next state".to_owned(), line));
            },
        };
        let next_state = chars_to_string(&trim_chars(&slice_chars(t, comma + 1, t.len())));
        if read.len() != write.len() || read.len() != directions.len() {
            let mut m = "Inconsistent multi-tape action: read=".to_owned();
            m.append(usize_to_string(read.len()).as_str());
            m.append(", write=");
            m.append(usize_to_string(write.len()).as_str());
            m.append(", directions=");
            m.append(usize_to_string(directions.len()).as_str());
            proof {
                assert(m@ =~= arity_error_message(
                    read@.len() as int,
                    write@.len() as int,
                    directions@.len() as int,
                ));
            }
            return Err(parse_error(m, line));
        }
        let tr = Transition { read, write, directions, next_state };
        proof {
            assert(multi_action_spec(t@, line as int) == Ok::<
                TransitionV,
                TuringMachineErrorV,
            >(tr@));
        }
        Ok(tr)
    } else {
        // single-tape shorthand: find an arrow `->` outside any token
        let mut arrow: Option<usize> = None;
        if t.len() >= 2 {
            let mut i: usize = 0;
            while i < t.len() - 1 && arrow.is_none()
                invariant
                    t@.len() >= 2,
                    i <= t@.len() - 1,
                    (arrow matches Some(k) ==> k as int + 2 <= t@.len() && find_arrow_at(t@, 0)
                        == Some(k as int)),
                    arrow is None ==> forall|j: int|
                        0 <= j < i ==> !((#[trigger] t@[j]) == '-' && t@[j + 1] == '>'),
                decreases t@.len() - 1 - i, (if arrow is None { 1int } else { 0int }),
            {
                if t[i] == '-' && t[i + 1] == '>' {
                    arrow = Some(i);
                    proof {
                        lemma_find_arrow_some(t@, 0, i as int);
                    }
                } else {
                    i = i + 1;
                }
            }
            proof {
                if arrow is None {
                    lemma_find_arrow_none(t@, 0);
                }
            }
        } else {
            proof {
                lemma_find_arrow_none(t@, 0);
            }
        }
        let (read_tok, rest) = match arrow {
            Some(k) => (slice_chars(t, 0, k), slice_chars(t, k + 2, t.len())),
            None => (Vec::new(), copy_chars(t)),
        };
        let parts = split_chars(&rest, ',');
        let ghost ps = parts.deep_view();
        match arrow {
            Some(_) => {
                // read -> write, direction, next
                if parts.len() != 3 {
                    return Err(
                        parse_error("Expected 'write, direction, next state'".to_owned(), line),
                    );
                }
                proof {
                    assert(ps[0] == parts@[0]@);
                    assert(ps[1] == parts@[1]@);
                    assert(ps[2] == parts@[2]@);
                }
                let read_c = match parse_symbol_checked(&read_tok, "rules", line) {
                    Ok(c) => c,
                    Err(e) => {
                        return Err(e);
                    },
                };
                let write_c = match parse_symbol_checked(&parts[0], "rules", line) {
                    Ok(c) => c,
                    Err(e) => {
                        return Err(e);
                    },
                };
                let d = match parse_direction(&parts[1], line) {
                    Ok(d) => d,
                    Err(e) => {
                        return Err(e);
                    },
                };
                let next_state = chars_to_string(&trim_chars(&parts[2]));
                let mut read: Vec<char> = Vec::new();
                read.push(read_c);
                let mut write: Vec<char> = Vec::new();
                write.push(write_c);
                let mut directions: Vec<Direction> = Vec::new();
                directions.push(d);
                let tr = Transition { read, write, directions, next_state };
                proof {
                    assert(tr@.read =~= seq![read_c]);
                    assert(tr@.write =~= seq![write_c]);
                    assert(tr@.directions =~= seq![d]);
                    assert(single_action_spec(t@, line as int) == Ok::<
                        TransitionV,
                        TuringMachineErrorV,
                    >(tr@));
                }
                Ok(tr)
            },
            None => {
                // read, direction, next: the write repeats the read
                if parts.len() != 3 {
                    return Err(
                        parse_error(
                            "Expected 'read, direction, next state' or 'read -> write, direction, next state'".to_owned(),
                            line,
                        ),
                    );
                }
                proof {
                    assert(ps[0] == parts@[0]@);
                    assert(ps[1] == parts@[1]@);
                    assert(ps[2] == parts@[2]@);
                }
                let read_c = match parse_symbol_checked(&parts[0], "rules", line) {
                    Ok(c) => c,
                    Err(e) => {
                        return Err(e);
                    },
                };
                let d = match parse_direction(&parts[1], line) {
                    Ok(d) => d,
                    Err(e) => {
                        return Err(e);
                    },
                };
                let next_state = chars_to_string(&trim_chars(&parts[2]));
                let mut read: Vec<char> = Vec::new();
                read.push(read_c);
                let mut write: Vec<char> = Vec::new();
                write.push(read_c);
                let mut directions: Vec<Direction> = Vec::new();
                directions.push(d);
                let tr = Transition { read, write, directions, next_state };
                proof {
                    assert(tr@.read =~= seq![read_c]);
                    assert(tr@.write =~= seq![read_c]);
                    assert(tr@.directions =~= seq![d]);
                    assert(single_action_spec(t@, line as int) == Ok::<
                        TransitionV,
                        TuringMachineErrorV,
                    >(tr@));
                }
                Ok(tr)
            },
        }
    }
}


/// The scanner's mutable state: what each section has declared so far.
struct ScanState {
    /// The declared program name, if the `name` section was seen.
    name: Option<String>,
    /// The declared blank symbol, if the `blank` section was seen.
    blank: Option<char>,
    /// The tape rows declared so far.
    tape_rows: Vec<Vec<char>>,
    /// The declared head offsets, if a `head` or `heads` section was seen.
    heads: Option<Vec<usize>>,
    /// The transition rules declared so far.
    rules: Rules,
    /// The first state declared under `rules`, if any.
    initial: Option<String>,
    /// The state block that is open, if any.
    current: Option<String>,
    /// Whether the `tape` section was seen.
    seen_tape: bool,
    /// Whether the `tapes` section was seen.
    seen_tapes: bool,
    /// Whether the `head` section was seen.
    seen_head: bool,
    /// Whether the `heads` section was seen.
    seen_heads: bool,
    /// Whether the `rules` section was seen.
    seen_rules: bool,
    /// Whether indented lines belong to the `tapes` section.
    in_tapes: bool,
    /// Whether indented lines belong to the `rules` section.
    in_rules: bool,
}

/// The mathematical value of a scanner state.
spec fn sv_of(st: ScanState) -> ScanStateV {
    ScanStateV {
        name: st.name.deep_view(),
        blank: st.blank,
        tape_rows: st.tape_rows.deep_view(),
        heads: st.heads.deep_view(),
        rules: st.rules@,
        initial: st.initial.deep_view(),
        current: st.current.deep_view(),
        seen_tape: st.seen_tape,
        seen_tapes: st.seen_tapes,
        seen_head: st.seen_head,
        seen_heads: st.seen_heads,
        seen_rules: st.seen_rules,
        in_tapes: st.in_tapes,
        in_rules: st.in_rules,
    }
}

/// The scanner state before any line.
fn new_scan_state() -> (r: ScanState)
    ensures
        sv_of(r) == scan_init(),
{
    let r = ScanState {
        name: None,
        blank: None,
        tape_rows: Vec::new(),
        heads: None,
        rules: Rules::new(),
        initial: None,
        current: None,
        seen_tape: false,
        seen_tapes: false,
        seen_head: false,
        seen_heads: false,
        seen_rules: false,
        in_tapes: false,
        in_rules: false,
    };
    proof {
        assert(sv_of(r).tape_rows =~= scan_init().tape_rows);
        assert(sv_of(r) =~~= scan_init());
    }
    r
}

/// Scans one section line (`t` trimmed and non-empty): the text before the
/// first colon names the section, the rest is its value.
#[verifier::rlimit(80)]
fn handle_section(st: &mut ScanState, t: &Vec<char>, line_no: usize) -> (r: Result<
    (),
    TuringMachineError,
>)
    ensures
        match scan_section(sv_of(*old(st)), t@, line_no as int) {
            Ok(sv) => r is Ok && sv_of(*final(st)) == sv,
            Err(e) => r is Err && (r->Err_0)@ == e,
        },
        r is Ok ==> sv_of(*final(st)).rules == sv_of(*old(st)).rules,
        r is Err ==> r->Err_0 is ParseError,
{
    let colon = match find_char(t, ':', 0) {
        Some(k) => k,
        None => {
            return Err(parse_error("Expected a section declaration".to_owned(), line_no));
        },
    };
    let tlen = t.len();
    let key = trim_chars(&slice_chars(t, 0, colon));
    let val = trim_chars(&slice_chars(t, colon + 1, tlen));
    let ghost keyv = trim_spec(t@.subrange(0, colon as int));
    let ghost valv = trim_spec(t@.subrange(colon as int + 1, t@.len() as int));
    st.in_tapes = false;
    st.in_rules = false;
    if str_eq(chars_to_string(&key).as_str(), "name") {
        if st.name.is_some() {
            return Err(parse_error("Duplicate \"name:\" declaration".to_owned(), line_no));
        }
        st.name = Some(chars_to_string(&val));
        proof {
            assert(sv_of(*st) =~~= (ScanStateV {
                name: Some(valv),
                in_tapes: false,
                in_rules: false,
                ..sv_of(*old(st))
            }));
        }
        Ok(())
    } else if str_eq(chars_to_string(&key).as_str(), "blank") {
        if st.blank.is_some() {
            return Err(parse_error("Duplicate \"blank:\" declaration".to_owned(), line_no));
        }
        match parse_symbol_checked(&val, "blank", line_no) {
            Ok(c) => {
                st.blank = Some(c);
                proof {
                    assert(sv_of(*st) =~~= (ScanStateV {
                        blank: Some(sym_of_token(valv)),
                        in_tapes: false,
                        in_rules: false,
                        ..sv_of(*old(st))
                    }));
                }
                Ok(())
            },
            Err(e) => Err(e),
        }
    } else if str_eq(chars_to_string(&key).as_str(), "tape") {
        if st.seen_tape {
            return Err(parse_error("Duplicate \"tape:\" declaration".to_owned(), line_no));
        }
        if st.seen_tapes {
            return Err(
                parse_error("Only one of 'tape' or 'tapes' is allowed".to_owned(), line_no),
            );
        }
        st.seen_tape = true;
        match parse_symbols_list(&val, "tape", line_no) {
            Ok(row) => {
                let ghost prev = st.tape_rows.deep_view();
                st.tape_rows.push(row);
                proof {
                    assert(st.tape_rows@.len() == prev.len() + 1);
                    assert(st.tape_rows.deep_view().len() == prev.len() + 1);
                    assert(forall|j: int|
                        0 <= j < prev.len() ==> st.tape_rows.deep_view()[j] == prev[j]);
                    assert(st.tape_rows.deep_view()[prev.len() as int] == token_symbols(valv));
                    assert(st.tape_rows.deep_view() =~= prev.push(token_symbols(valv)));
                    assert(sv_of(*st) =~~= (ScanStateV {
                        seen_tape: true,
                        tape_rows: sv_of(*old(st)).tape_rows.push(token_symbols(valv)),
                        in_tapes: false,
                        in_rules: false,
                        ..sv_of(*old(st))
                    }));
                }
                Ok(())
            },
            Err(e) => Err(e),
        }
    } else if str_eq(chars_to_string(&key).as_str(), "tapes") {
        if st.seen_tapes {
            return Err(parse_error("Duplicate \"tapes:\" declaration".to_owned(), line_no));
        }
        if st.seen_tape {
            return Err(
                parse_error("Only one of 'tape' or 'tapes' is allowed".to_owned(), line_no),
            );
        }
        st.seen_tapes = true;
        st.in_tapes = true;
        proof {
            assert(sv_of(*st) =~~= (ScanStateV {
                seen_tapes: true,
                in_tapes: true,
                in_rules: false,
                ..sv_of(*old(st))
            }));
        }
        Ok(())
    } else if str_eq(chars_to_string(&key).as_str(), "head") {
        if st.seen_head {
            return Err(parse_error("Duplicate \"head:\" declaration".to_owned(), line_no));
        }
        if st.seen_heads {
            return Err(
                parse_error("Only one of 'head' or 'heads' is allowed".to_owned(), line_no),
            );
        }
        match parse_head_index(&val, line_no) {
            Ok(n) => {
                let mut hs: Vec<usize> = Vec::new();
                hs.push(n);
                st.seen_head = true;
                st.heads = Some(hs);
                proof {
                    assert(st.heads.deep_view() == Some(seq![head_of_token(valv)]));
                    assert(sv_of(*st) =~~= (ScanStateV {
                        seen_head: true,
                        heads: Some(seq![head_of_token(valv)]),
                        in_tapes: false,
                        in_rules: false,
                        ..sv_of(*old(st))
                    }));
                }
                Ok(())
            },
            Err(e) => Err(e),
        }
    } else if str_eq(chars_to_string(&key).as_str(), "heads") {
        if st.seen_heads {
            return Err(parse_error("Duplicate \"heads:\" declaration".to_owned(), line_no));
        }
        if st.seen_head {
            return Err(
                parse_error("Only one of 'head' or 'heads' is allowed".to_owned(), line_no),
            );
        }
        match parse_heads_list(&val, line_no) {
            Ok(hs) => {
                let ghost hsv = hs@;
                st.seen_heads = true;
                st.heads = Some(hs);
                proof {
                    assert(sv_of(*st) =~~= (ScanStateV {
                        seen_heads: true,
                        heads: Some(hsv),
                        in_tapes: false,
                        in_rules: false,
                        ..sv_of(*old(st))
                    }));
                }
                Ok(())
            },
            Err(e) => Err(e),
        }
    } else if str_eq(chars_to_string(&key).as_str(), "rules") {
        if st.seen_rules {
            return Err(parse_error("Duplicate \"rules:\" declaration".to_owned(), line_no));
        }
        st.seen_rules = true;
        st.in_rules = true;
        proof {
            assert(sv_of(*st) =~~= (ScanStateV {
                seen_rules: true,
                in_rules: true,
                in_tapes: false,
                ..sv_of(*old(st))
            }));
        }
        Ok(())
    } else {
        let mut m = "Unknown section: ".to_owned();
        m.append(chars_to_string(&key).as_str());
        proof {
            assert(m@ =~= "Unknown section: "@ + keyv);
        }
        Err(parse_error(m, line_no))
    }
}

/// Scans one indented line (`t` trimmed and non-empty) of the open
/// section: a tape row under `tapes`, a state block or a transition under
/// `rules`.
#[verifier::rlimit(80)]
fn handle_indented(st: &mut ScanState, t: &Vec<char>, line_no: usize) -> (r: Result<
    (),
    TuringMachineError,
>)
    requires
        t@.len() > 0,
        rules_wf(sv_of(*old(st)).rules),
    ensures
        match scan_indented(sv_of(*old(st)), t@, line_no as int) {
            Ok(sv) => r is Ok && sv_of(*final(st)) == sv && rules_wf(sv.rules),
            Err(e) => r is Err && (r->Err_0)@ == e,
        },
        r is Err ==> r->Err_0 is ParseError,
{
    if st.in_tapes {
        let inner = match parse_bracket_inner(t, line_no) {
            Ok(x) => x,
            Err(e) => {
                return Err(e);
            },
        };
        match parse_symbols_list(&inner, "tapes", line_no) {
            Ok(row) => {
                let ghost prev = st.tape_rows.deep_view();
                st.tape_rows.push(row);
                proof {
                    assert(st.tape_rows@.len() == prev.len() + 1);
                    assert(st.tape_rows.deep_view().len() == prev.len() + 1);
                    assert(forall|j: int|
                        0 <= j < prev.len() ==> st.tape_rows.deep_view()[j] == prev[j]);
                    assert(st.tape_rows.deep_view()[prev.len() as int] == token_symbols(
                        bracket_content(t@),
                    ));
                    assert(st.tape_rows.deep_view() =~= prev.push(
                        token_symbols(bracket_content(t@)),
                    ));
                    assert(sv_of(*st) =~~= (ScanStateV {
                        tape_rows: sv_of(*old(st)).tape_rows.push(token_symbols(bracket_content(t@))),
                        ..sv_of(*old(st))
                    }));
                }
                Ok(())
            },
            Err(e) => Err(e),
        }
    } else if st.in_rules {
        if t[t.len() - 1] == ':' {
            // a state block
            let state_chars = trim_chars(&slice_chars(t, 0, t.len() - 1));
            if state_chars.len() == 0 {
                return Err(parse_error("Empty state name".to_owned(), line_no));
            }
            let state = chars_to_string(&state_chars);
            if st.rules.contains_key(state.as_str()) {
                let mut m = "Duplicate transition rule: ".to_owned();
                m.append(state.as_str());
                proof {
                    assert(m@ =~= "Duplicate transition rule: "@ + state@);
                }
                return Err(parse_error(m, line_no));
            }
            proof {
                crate::types::lemma_rules_insert_wf(sv_of(*st).rules, state@, Seq::empty());
            }
            let empty_ts: Vec<Transition> = Vec::new();
            proof {
                assert(empty_ts.deep_view() =~= Seq::<TransitionV>::empty());
            }
            st.rules.insert(state.clone(), empty_ts);
            if st.initial.is_none() {
                st.initial = Some(state.clone());
            }
            st.current = Some(state);
            proof {
                assert(sv_of(*st) =~~= (ScanStateV {
                    rules: rules_insert(sv_of(*old(st)).rules, sv_of(*st).current->Some_0, Seq::empty()),
                    initial: if sv_of(*old(st)).initial is Some {
                        sv_of(*old(st)).initial
                    } else {
                        sv_of(*st).current
                    },
                    current: sv_of(*st).current,
                    ..sv_of(*old(st))
                }));
            }
            Ok(())
        } else {
            // a transition of the open state block
            let state = match &st.current {
                Some(s) => s.clone(),
                None => {
                    return Err(
                        parse_error("Transition outside of a state block".to_owned(), line_no),
                    );
                },
            };
            let tr = match parse_action(t, line_no) {
                Ok(tr) => tr,
                Err(e) => {
                    return Err(e);
                },
            };
            let ghost trv = tr@;
            proof {
                crate::types::lemma_rules_add_wf(sv_of(*st).rules, state@, tr@);
            }
            st.rules.push_transition(state, tr);
            proof {
                assert(sv_of(*st) =~~= (ScanStateV {
                    rules: rules_add(sv_of(*old(st)).rules, sv_of(*old(st)).current->Some_0, trv),
                    ..sv_of(*old(st))
                }));
            }
            Ok(())
        }
    } else {
        Err(parse_error("Unexpected indented line".to_owned(), line_no))
    }
}

/// Scans one raw source line: a blank line changes nothing, an unindented
/// line declares a section, an indented line belongs to the open section.
fn scan_one_line(st: &mut ScanState, raw: &Vec<char>, line_no: usize) -> (r: Result<
    (),
    TuringMachineError,
>)
    requires
        rules_wf(sv_of(*old(st)).rules),
    ensures
        match scan_line(sv_of(*old(st)), raw@, line_no as int) {
            Ok(sv) => r is Ok && sv_of(*final(st)) == sv && rules_wf(sv.rules),
            Err(e) => r is Err && (r->Err_0)@ == e,
        },
        r is Err ==> r->Err_0 is ParseError,
{
    let t = trim_chars(raw);
    if t.len() == 0 {
        return Ok(());
    }
    proof {
        if raw@.len() == 0 {
            assert(trim_spec(raw@).len() == 0);
        }
    }
    let first = raw[0];
    if first != ' ' && first != '\t' {
        handle_section(st, &t, line_no)
    } else {
        handle_indented(st, &t, line_no)
    }
}

/// Parses a complete program source: section lines at the left margin,
/// indented tape rows under `tapes:` and state blocks with their
/// transitions under `rules:`. The first state declared under `rules`
/// becomes the initial state. The scan and its first error are exactly
/// what `scan_spec` determines of the source; a scanned program is then
/// analyzed, so `parse` succeeds exactly on the sources whose scanned
/// program passes every analyzer check, and returns that program.
#[verifier::loop_isolation(false)]
#[verifier::rlimit(80)]
pub fn parse(input: &str) -> (r: Result<Program, TuringMachineError>)
    ensures
        r is Ok ==> {
            let p = r->Ok_0;
            &&& analysis_pass(p)
            &&& crate::types::rules_wf(p.rules@)
            &&& p.heads@.len() == p.tapes@.len()
            &&& p.mode == Mode::Normal
        },
        r is Err ==> (r->Err_0 is ParseError || r->Err_0 is ValidationError),
        scan_spec(input@) is Err ==> r is Err && (r->Err_0)@ == scan_spec(input@)->Err_0,
        scan_spec(input@) is Ok ==> {
            let o = scan_spec(input@)->Ok_0;
            &&& (r is Ok <==> out_analysis_pass(o))
            &&& (r is Ok ==> program_matches_scan(r->Ok_0, o))
            &&& (r is Err ==> exists|e: AnalysisErrorV|
                #[trigger] out_first_analysis_error(o, e) && (r->Err_0)@
                    == TuringMachineErrorV::ValidationError(validation_message(e)))
        },
{
    let chars = trim_chars(&str_to_chars(input));
    let lines = split_chars(&chars, '\n');
    let ghost linesv = lines.deep_view();
    proof {
        assert(linesv == split_seq(trim_spec(input@), '\n'));
    }
    let mut st = new_scan_state();
    let mut li: usize = 0;
    while li < lines.len()
        invariant
            li <= lines@.len(),
            linesv == lines.deep_view(),
            rules_wf(sv_of(st).rules),
            scan_lines(linesv, 0, scan_init()) == scan_lines(linesv, li as int, sv_of(st)),
        decreases lines@.len() - li,
    {
        let ghost pre = sv_of(st);
        proof {
            assert(linesv[li as int] == lines@[li as int]@);
        }
        match scan_one_line(&mut st, &lines[li], li + 1) {
            Ok(()) => {
                proof {
                    assert(scan_lines(linesv, li as int, pre) == scan_lines(
                        linesv,
                        li as int + 1,
                        sv_of(st),
                    ));
                }
            },
            Err(e) => {
                proof {
                    assert(scan_lines(linesv, li as int, pre) == Err::<
                        ScanStateV,
                        TuringMachineErrorV,
                    >(e@));
                    assert(scan_spec(input@) == Err::<ScanOutV, TuringMachineErrorV>(e@));
                }
                return Err(e);
            },
        }
        li = li + 1;
    }
    let ghost stv = sv_of(st);
    proof {
        assert(scan_lines(linesv, li as int, stv) == Ok::<ScanStateV, TuringMachineErrorV>(stv));
        assert(scan_spec(input@) == scan_finish(stv));
    }

    // required sections, defaults, and consistency
    let ScanState {
        name,
        blank,
        tape_rows,
        heads,
        rules,
        initial,
        current: _,
        seen_tape,
        seen_tapes,
        seen_head: _,
        seen_heads: _,
        seen_rules,
        in_tapes: _,
        in_rules: _,
    } = st;
    let name_v = match name {
        Some(n) => n,
        None => {
            return Err(parse_error("Missing 'name' section".to_owned(), 1));
        },
    };
    if !seen_rules {
        let mut names: Vec<String> = Vec::new();
        names.push("rules".to_owned());
        let missing: Option<()> = None;
        match check_required_rule(missing, &names) {
            Ok(_) => {
                return Err(parse_error("Missing 'rules' section".to_owned(), 1));
            },
            Err(e) => {
                proof {
                    assert(names.deep_view() =~= seq!["rules"@]);
                }
                return Err(e);
            },
        }
    }
    let initial_v = match initial {
        Some(s) => s,
        None => {
            let mut names: Vec<String> = Vec::new();
            names.push("initial_state".to_owned());
            let missing: Option<()> = None;
            match check_required_rule(missing, &names) {
                Ok(_) => {
                    return Err(parse_error("Missing 'initial_state' section".to_owned(), 1));
                },
                Err(e) => {
                    proof {
                        assert(names.deep_view() =~= seq!["initial_state"@]);
                    }
                    return Err(e);
                },
            }
        },
    };
    if !seen_tape && !seen_tapes {
        let mut names: Vec<String> = Vec::new();
        names.push("tape".to_owned());
        names.push("tapes".to_owned());
        let missing: Option<()> = None;
        match check_required_rule(missing, &names) {
            Ok(_) => {
                return Err(parse_error("Missing 'tape' or 'tapes' section".to_owned(), 1));
            },
            Err(e) => {
                proof {
                    assert(names.deep_view() =~= seq!["tape"@, "tapes"@]);
                }
                return Err(e);
            },
        }
    }
    let blank_v = match blank {
        Some(c) => c,
        None => DEFAULT_BLANK_SYMBOL,
    };
    let ghost tapesv = Seq::new(stv.tape_rows.len(), |i: int| resolved_seq(stv.tape_rows[i], blank_v));
    let resolved_rows = rewrite_tapes(&tape_rows, blank_v);
    proof {
        assert(resolved_rows.deep_view() =~~= tapesv);
    }
    let heads_v = match heads {
        Some(hs) => hs,
        None => {
            let mut hs: Vec<usize> = Vec::new();
            let mut i: usize = 0;
            while i < resolved_rows.len()
                invariant
                    i <= resolved_rows@.len(),
                    hs@.len() == i,
                    forall|j: int| 0 <= j < i ==> hs@[j] == 0usize,
                decreases resolved_rows@.len() - i,
            {
                hs.push(0);
                i = i + 1;
            }
            proof {
                assert(hs@ =~= Seq::new(tapesv.len(), |j: int| 0usize));
            }
            hs
        },
    };
    match check_head_tape_consistency(&heads_v, &resolved_rows) {
        Ok(()) => {},
        Err(e) => {
            return Err(e);
        },
    }
    let mut tape_strings: Vec<String> = Vec::new();
    let mut i: usize = 0;
    while i < resolved_rows.len()
        invariant
            i <= resolved_rows@.len(),
            tape_strings.deep_view() == resolved_rows.deep_view().subrange(0, i as int),
        decreases resolved_rows@.len() - i,
    {
        let ghost prev = tape_strings.deep_view();
        tape_strings.push(chars_to_string(&resolved_rows[i]));
        proof {
            assert(prev.len() == i as nat);
            assert(tape_strings@.len() == i + 1);
            assert(tape_strings.deep_view().len() == i + 1);
            assert forall|j: int|
                0 <= j < i + 1 implies tape_strings.deep_view()[j] == resolved_rows.deep_view()[j] by {
                if j < i {
                    assert(tape_strings.deep_view()[j] == prev[j]);
                } else {
                    assert(tape_strings.deep_view()[j] == tape_strings@[j]@);
                    assert(resolved_rows.deep_view()[j] == resolved_rows@[j]@);
                }
            }
            assert(tape_strings.deep_view() =~~= resolved_rows.deep_view().subrange(0, i + 1));
        }
        i = i + 1;
    }
    proof {
        assert(tape_strings.deep_view() =~~= resolved_rows.deep_view());
    }
    let program = Program {
        name: name_v,
        mode: Mode::Normal,
        initial_state: initial_v,
        tapes: tape_strings,
        heads: heads_v,
        blank: blank_v,
        rules,
    };
    let ghost o = scan_finish(stv)->Ok_0;
    proof {
        assert(scan_finish(stv) is Ok);
        assert(program_tapes_view(program) =~~= o.tapes) by {
            assert forall|j: int| 0 <= j < program.tapes@.len() implies program_tapes_view(
                program,
            )[j] == o.tapes[j] by {
                assert(program.tapes@[j]@ == tape_strings.deep_view()[j]);
                assert(tape_strings.deep_view()[j] == tapesv[j]);
            }
        }
        assert(program.heads@ =~= o.heads);
        assert(program_matches_scan(program, o));
        lemma_out_analysis(program, o);
    }
    match analyze(&program) {
        Ok(()) => Ok(program),
        Err(e) => {
            proof {
                let e0 = choose|ev: AnalysisErrorV|
                    #[trigger] first_analysis_error(program, ev) && e@
                        == TuringMachineErrorV::ValidationError(validation_message(ev));
                assert(out_first_analysis_error(o, e0));
            }
            Err(e)
        },
    }
}

} // verus!
