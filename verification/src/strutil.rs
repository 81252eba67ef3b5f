//! Verified helpers for working with characters, strings and character
//! vectors: conversions between `String` and `Vec<char>`, equality tests,
//! decimal rendering of numbers, and splitting/joining on separator
//! characters. These are the string-level building blocks shared by the
//! parser, the analyzer and the encoder.

use vstd::prelude::*;
use vstd::string::StringExecFns;

verus! {

/// Relies on `String::push`: appends the given character to the end of the
/// string.
#[verifier::external_body]
pub fn push_char(s: &mut String, c: char)
    ensures
        final(s)@ == old(s)@.push(c),
{
    s.push(c);
}

/// A `String` holding exactly the characters of `v`.
pub fn chars_to_string(v: &Vec<char>) -> (r: String)
    ensures
        r@ == v@,
{
    let mut r = String::new();
    let mut i: usize = 0;
    while i < v.len()
        invariant
            i <= v.len(),
            r@ == v@.subrange(0, i as int),
        decreases v.len() - i,
    {
        push_char(&mut r, v[i]);
        proof {
            assert(r@ =~= v@.subrange(0, i + 1 as int));
        }
        i = i + 1;
    }
    proof {
        assert(r@ =~= v@);
    }
    r
}

/// The characters of `s`, in order, as a vector.
pub fn str_to_chars(s: &str) -> (r: Vec<char>)
    ensures
        r@ == s@,
{
    let n = s.unicode_len();
    let mut r: Vec<char> = Vec::new();
    let mut i: usize = 0;
    while i < n
        invariant
            i <= n,
            n == s@.len(),
            r@ == s@.subrange(0, i as int),
        decreases n - i,
    {
        r.push(s.get_char(i));
        proof {
            assert(r@ =~= s@.subrange(0, i + 1 as int));
        }
        i = i + 1;
    }
    proof {
        assert(r@ =~= s@);
    }
    r
}

/// Whether two strings hold the same characters.
pub fn str_eq(a: &str, b: &str) -> (r: bool)
    ensures
        r == (a@ == b@),
{
    let na = a.unicode_len();
    let nb = b.unicode_len();
    if na != nb {
        proof {
            assert(a@ != b@);
        }
        return false;
    }
    let mut i: usize = 0;
    while i < na
        invariant
            i <= na,
            na == a@.len(),
            na == b@.len(),
            forall|j: int| 0 <= j < i ==> a@[j] == b@[j],
        decreases na - i,
    {
        if a.get_char(i) != b.get_char(i) {
            proof {
                assert(a@[i as int] != b@[i as int]);
            }
            return false;
        }
        i = i + 1;
    }
    proof {
        assert(a@ =~= b@);
    }
    true
}

/// Whether two character vectors hold the same characters.
pub fn chars_eq(a: &Vec<char>, b: &Vec<char>) -> (r: bool)
    ensures
        r == (a@ == b@),
{
    if a.len() != b.len() {
        return false;
    }
    let mut i: usize = 0;
    while i < a.len()
        invariant
            i <= a.len(),
            a.len() == b.len(),
            forall|j: int| 0 <= j < i ==> a@[j] == b@[j],
        decreases a.len() - i,
    {
        if a[i] != b[i] {
            return false;
        }
        i = i + 1;
    }
    proof {
        assert(a@ =~= b@);
    }
    true
}

/// The decimal digit character for a value between 0 and 9.
pub open spec fn digit_char(d: int) -> char {
    ((d + 48) as u8) as char
}

/// The decimal rendering of a non-negative number, most significant digit
/// first.
pub open spec fn dec_digits(n: int) -> Seq<char>
    recommends
        n >= 0,
    decreases n,
{
    if n < 10 {
        seq![digit_char(n)]
    } else {
        dec_digits(n / 10).push(digit_char(n % 10))
    }
}

/// A string holding exactly the character `c`.
pub fn char_to_string(c: char) -> (r: String)
    ensures
        r@ == seq![c],
{
    let mut r = String::new();
    push_char(&mut r, c);
    proof {
        assert(r@ =~= seq![c]);
    }
    r
}

/// The decimal rendering of `n` as a string.
pub fn usize_to_string(n: usize) -> (r: String)
    ensures
        r@ == dec_digits(n as int),
    decreases n,
{
    if n < 10 {
        char_to_string((48 + n as u8) as char)
    } else {
        let mut r = usize_to_string(n / 10);
        push_char(&mut r, (48 + (n % 10) as u8) as char);
        r
    }
}


/// A copy of a character vector.
pub fn copy_chars(v: &Vec<char>) -> (r: Vec<char>)
    ensures
        r@ == v@,
{
    let mut r: Vec<char> = Vec::new();
    let mut i: usize = 0;
    while i < v.len()
        invariant
            i <= v@.len(),
            r@ == v@.subrange(0, i as int),
        decreases v@.len() - i,
    {
        r.push(v[i]);
        proof {
            assert(r@ =~= v@.subrange(0, i + 1));
        }
        i = i + 1;
    }
    proof {
        assert(r@ =~= v@);
    }
    r
}


/// Lexicographic order on character sequences: the empty sequence comes
/// first, otherwise the first differing character decides.
pub open spec fn chars_le(a: Seq<char>, b: Seq<char>) -> bool
    decreases a.len(),
{
    if a.len() == 0 {
        true
    } else if b.len() == 0 {
        false
    } else if a[0] < b[0] {
        true
    } else if b[0] < a[0] {
        false
    } else {
        chars_le(a.drop_first(), b.drop_first())
    }
}

/// Lexicographic order is reflexive.
pub proof fn lemma_chars_le_refl(a: Seq<char>)
    ensures
        chars_le(a, a),
    decreases a.len(),
{
    if a.len() > 0 {
        lemma_chars_le_refl(a.drop_first());
    }
}

/// Lexicographic order is total.
pub proof fn lemma_chars_le_total(a: Seq<char>, b: Seq<char>)
    ensures
        chars_le(a, b) || chars_le(b, a),
    decreases a.len(),
{
    if a.len() > 0 && b.len() > 0 && a[0] == b[0] {
        lemma_chars_le_total(a.drop_first(), b.drop_first());
    }
}

/// Lexicographic order is antisymmetric.
pub proof fn lemma_chars_le_antisym(a: Seq<char>, b: Seq<char>)
    requires
        chars_le(a, b),
        chars_le(b, a),
    ensures
        a == b,
    decreases a.len(),
{
    if a.len() == 0 {
        assert(b.len() == 0);
        assert(a =~= b);
    } else {
        assert(a[0] == b[0]);
        lemma_chars_le_antisym(a.drop_first(), b.drop_first());
        assert(a =~= seq![a[0]] + a.drop_first());
        assert(b =~= seq![b[0]] + b.drop_first());
    }
}

/// Lexicographic order is transitive.
pub proof fn lemma_chars_le_trans(a: Seq<char>, b: Seq<char>, c: Seq<char>)
    requires
        chars_le(a, b),
        chars_le(b, c),
    ensures
        chars_le(a, c),
    decreases a.len(),
{
    if a.len() > 0 && b.len() > 0 && c.len() > 0 && a[0] == b[0] && b[0] == c[0] {
        lemma_chars_le_trans(a.drop_first(), b.drop_first(), c.drop_first());
    }
}

/// Whether the characters of `a` from position `i` on come no later than
/// those of `b` from position `i` on, in lexicographic order.
pub fn chars_le_from(a: &Vec<char>, b: &Vec<char>, i: usize) -> (r: bool)
    requires
        i <= a@.len(),
        i <= b@.len(),
    ensures
        r == chars_le(a@.skip(i as int), b@.skip(i as int)),
    decreases a@.len() - i,
{
    if i == a.len() {
        true
    } else if i == b.len() {
        false
    } else if a[i] < b[i] {
        true
    } else if b[i] < a[i] {
        false
    } else {
        let r = chars_le_from(a, b, i + 1);
        proof {
            assert(a@.skip(i as int).drop_first() =~= a@.skip(i + 1));
            assert(b@.skip(i as int).drop_first() =~= b@.skip(i + 1));
        }
        r
    }
}

/// Whether `a` comes no later than `b` in lexicographic order.
pub fn chars_vec_le(a: &Vec<char>, b: &Vec<char>) -> (r: bool)
    ensures
        r == chars_le(a@, b@),
{
    let r = chars_le_from(a, b, 0);
    proof {
        assert(a@.skip(0) =~= a@);
        assert(b@.skip(0) =~= b@);
    }
    r
}

/// Whether `x` occurs in `s`.
pub open spec fn seq_has<T>(s: Seq<T>, x: T) -> bool {
    exists|i: int| 0 <= i < s.len() && s[i] == x
}

/// Whether `v` is strictly increasing in lexicographic order: sorted, with
/// no duplicates.
pub open spec fn sorted_unique(v: Seq<Seq<char>>) -> bool {
    forall|i: int, j: int|
        0 <= i < j < v.len() ==> chars_le(#[trigger] v[i], #[trigger] v[j]) && v[i] != v[j]
}

/// Inserts the characters of `s` into the sorted duplicate-free vector `v`,
/// keeping it sorted and duplicate-free; a value already present is not
/// added again.
#[verifier::loop_isolation(false)]
pub fn insert_sorted(v: &mut Vec<Vec<char>>, s: &Vec<char>)
    requires
        sorted_unique(old(v).deep_view()),
    ensures
        sorted_unique(final(v).deep_view()),
        forall|x: Seq<char>|
            #![trigger seq_has(final(v).deep_view(), x)]
            #![trigger seq_has(old(v).deep_view(), x)]
            seq_has(final(v).deep_view(), x) <==> (seq_has(old(v).deep_view(), x) || x == s@),
{
    let ghost orig = v.deep_view();
    let mut i: usize = 0;
    while i < v.len()
        invariant
            i <= v@.len(),
            v.deep_view() == orig,
            forall|j: int| 0 <= j < i ==> !chars_le(s@, #[trigger] orig[j]),
        decreases v@.len() - i,
    {
        proof {
            assert(orig[i as int] == v@[i as int]@);
        }
        if chars_vec_le(s, &v[i]) {
            if chars_le_from(&v[i], s, 0) {
                proof {
                    assert(v@[i as int]@.skip(0) =~= v@[i as int]@);
                    assert(s@.skip(0) =~= s@);
                    assert(orig[i as int] == v@[i as int]@);
                    lemma_chars_le_antisym(s@, orig[i as int]);
                    assert forall|x: Seq<char>|
                        seq_has(v.deep_view(), x) <==> (seq_has(orig, x) || x == s@) by {
                        if x == s@ {
                            assert(orig[i as int] == x);
                        }
                    }
                }
                return ;
            }
            // `s` comes strictly before entry `i`: insert it here.
            proof {
                assert(v@[i as int]@.skip(0) =~= v@[i as int]@);
                assert(s@.skip(0) =~= s@);
            }
            let ghost prev = v.deep_view();
            v.insert(i, crate::strutil::copy_chars(s));
            proof {
                assert(v@.len() == prev.len() + 1);
                assert(v.deep_view().len() == prev.len() + 1);
                assert(v.deep_view()[i as int] == s@);
                assert(forall|j: int| 0 <= j < i ==> v.deep_view()[j] == prev[j]);
                assert(forall|j: int|
                    i < j < v.deep_view().len() ==> v.deep_view()[j] == prev[j - 1]);
                assert forall|p: int, q: int|
                    0 <= p < q < v.deep_view().len() implies chars_le(
                    #[trigger] v.deep_view()[p],
                    #[trigger] v.deep_view()[q],
                ) && v.deep_view()[p] != v.deep_view()[q] by {
                    if p == i {
                        assert(v.deep_view()[p] == s@);
                        assert(v.deep_view()[q] == prev[q - 1]);
                        assert(!chars_le(prev[i as int], s@));
                        if q - 1 == i {
                            if prev[i as int] == s@ {
                                lemma_chars_le_refl(s@);
                            }
                        } else {
                            assert(chars_le(prev[i as int], prev[q - 1]) && prev[i as int]
                                != prev[q - 1]);
                            lemma_chars_le_trans(s@, prev[i as int], prev[q - 1]);
                            if s@ == prev[q - 1] {
                                lemma_chars_le_antisym(prev[i as int], s@);
                            }
                        }
                    } else if q == i {
                        assert(v.deep_view()[q] == s@);
                        assert(v.deep_view()[p] == prev[p]);
                        assert(!chars_le(s@, prev[p]));
                        lemma_chars_le_total(s@, prev[p]);
                        if prev[p] == s@ {
                            lemma_chars_le_refl(s@);
                        }
                    } else {
                        let pp = if p < i {
                            p
                        } else {
                            p - 1
                        };
                        let qq = if q < i {
                            q
                        } else {
                            q - 1
                        };
                        assert(v.deep_view()[p] == prev[pp]);
                        assert(v.deep_view()[q] == prev[qq]);
                        assert(chars_le(prev[pp], prev[qq]) && prev[pp] != prev[qq]);
                    }
                }
                assert forall|x: Seq<char>|
                    seq_has(v.deep_view(), x) <==> (seq_has(orig, x) || x == s@) by {
                    if seq_has(v.deep_view(), x) {
                        let j = choose|j: int|
                            0 <= j < v.deep_view().len() && v.deep_view()[j] == x;
                        if j < i {
                            assert(orig[j] == x);
                        } else if j > i {
                            assert(orig[j - 1] == x);
                        }
                    }
                    if seq_has(orig, x) {
                        let j = choose|j: int| 0 <= j < orig.len() && orig[j] == x;
                        if j < i {
                            assert(v.deep_view()[j] == x);
                        } else {
                            assert(v.deep_view()[j + 1] == x);
                        }
                    }
                    if x == s@ {
                        assert(v.deep_view()[i as int] == x);
                    }
                }
            }
            return ;
        }
        i = i + 1;
    }
    // `s` comes after every entry: append it.
    proof {
        assert(i == v@.len());
    }
    let ghost prev = v.deep_view();
    v.push(crate::strutil::copy_chars(s));
    proof {
        assert(prev == orig);
        assert(v@.len() == prev.len() + 1);
        assert(v.deep_view().len() == prev.len() + 1);
        assert(v.deep_view()[prev.len() as int] == s@);
        assert(forall|j: int| 0 <= j < prev.len() ==> v.deep_view()[j] == prev[j]);
        assert forall|p: int, q: int|
            0 <= p < q < v.deep_view().len() implies chars_le(
            #[trigger] v.deep_view()[p],
            #[trigger] v.deep_view()[q],
        ) && v.deep_view()[p] != v.deep_view()[q] by {
            if q == prev.len() {
                assert(v.deep_view()[q] == s@);
                assert(v.deep_view()[p] == prev[p]);
                assert(!chars_le(s@, prev[p]));
                lemma_chars_le_total(s@, prev[p]);
                if prev[p] == s@ {
                    lemma_chars_le_refl(s@);
                }
            } else {
                assert(v.deep_view()[p] == prev[p]);
                assert(v.deep_view()[q] == prev[q]);
                assert(chars_le(prev[p], prev[q]) && prev[p] != prev[q]);
            }
        }
        assert forall|x: Seq<char>|
            seq_has(v.deep_view(), x) <==> (seq_has(orig, x) || x == s@) by {
            if seq_has(v.deep_view(), x) {
                let j = choose|j: int| 0 <= j < v.deep_view().len() && v.deep_view()[j] == x;
                if j < prev.len() {
                    assert(orig[j] == x);
                }
            }
            if seq_has(orig, x) {
                let j = choose|j: int| 0 <= j < orig.len() && orig[j] == x;
                assert(v.deep_view()[j] == x);
            }
        }
    }
}

/// The parts joined with `sep` between consecutive parts.
pub open spec fn join_seqs(parts: Seq<Seq<char>>, sep: Seq<char>) -> Seq<char>
    decreases parts.len(),
{
    if parts.len() == 0 {
        Seq::empty()
    } else if parts.len() == 1 {
        parts[0]
    } else {
        parts[0] + sep + join_seqs(parts.drop_first(), sep)
    }
}

/// Joining one more part appends a separator and the part, except to an
/// empty list of parts.
pub proof fn lemma_join_push(parts: Seq<Seq<char>>, sep: Seq<char>, x: Seq<char>)
    ensures
        parts.len() == 0 ==> join_seqs(parts.push(x), sep) == x,
        parts.len() > 0 ==> join_seqs(parts.push(x), sep) == join_seqs(parts, sep) + sep + x,
    decreases parts.len(),
{
    if parts.len() == 0 {
        assert(parts.push(x).len() == 1);
        assert(join_seqs(parts.push(x), sep) == parts.push(x)[0]);
    } else if parts.len() == 1 {
        let p = parts.push(x);
        assert(p.len() == 2);
        assert(p.drop_first() =~= seq![x]);
        assert(join_seqs(p, sep) == p[0] + sep + join_seqs(p.drop_first(), sep));
        assert(join_seqs(parts, sep) == parts[0]);
        assert(p[0] == parts[0]);
    } else {
        lemma_join_push(parts.drop_first(), sep, x);
        let p = parts.push(x);
        assert(p.drop_first() =~= parts.drop_first().push(x));
        assert(join_seqs(p, sep) == p[0] + sep + join_seqs(parts.drop_first().push(x), sep));
        assert(join_seqs(parts.drop_first().push(x), sep) == join_seqs(parts.drop_first(), sep)
            + sep + x);
        assert((parts[0] + sep + (join_seqs(parts.drop_first(), sep) + sep + x)) =~= (parts[0]
            + sep + join_seqs(parts.drop_first(), sep)) + sep + x);
    }
}

/// A string rendered the way a debug listing quotes it.
pub open spec fn quoted_str(s: Seq<char>) -> Seq<char> {
    seq!['"'] + s + seq!['"']
}

/// A character rendered the way a debug listing quotes it.
pub open spec fn quoted_char(c: char) -> Seq<char> {
    seq!['\'', c, '\'']
}

/// A list of strings rendered as a bracketed, comma-separated debug
/// listing.
pub open spec fn debug_str_list(v: Seq<Seq<char>>) -> Seq<char> {
    seq!['['] + join_seqs(Seq::new(v.len(), |i: int| quoted_str(v[i])), ", "@) + seq![']']
}

/// A list of characters rendered as a bracketed, comma-separated debug
/// listing.
pub open spec fn debug_char_list(v: Seq<char>) -> Seq<char> {
    seq!['['] + join_seqs(Seq::new(v.len(), |i: int| quoted_char(v[i])), ", "@) + seq![']']
}

/// Renders a list of strings as a debug listing, `["a", "b"]`.
#[verifier::loop_isolation(false)]
pub fn format_str_list(v: &Vec<String>) -> (r: String)
    ensures
        r@ == debug_str_list(v.deep_view()),
{
    let ghost parts = Seq::new(v.deep_view().len(), |i: int| quoted_str(v.deep_view()[i]));
    let mut r = String::new();
    push_char(&mut r, '[');
    let mut i: usize = 0;
    proof {
        assert(parts.subrange(0, 0) =~= Seq::<Seq<char>>::empty());
        assert(r@ =~= seq!['['] + join_seqs(parts.subrange(0, 0), ", "@));
    }
    while i < v.len()
        invariant
            i <= v@.len(),
            r@ == seq!['['] + join_seqs(parts.subrange(0, i as int), ", "@),
        decreases v@.len() - i,
    {
        if i > 0 {
            r.append(", ");
        }
        push_char(&mut r, '"');
        r.append(v[i].as_str());
        push_char(&mut r, '"');
        proof {
            lemma_join_push(parts.subrange(0, i as int), ", "@, parts[i as int]);
            assert(parts.subrange(0, i as int).push(parts[i as int]) =~= parts.subrange(
                0,
                i + 1,
            ));
            assert(parts[i as int] == quoted_str(v.deep_view()[i as int]));
            if i > 0 {
                assert(r@ =~= seq!['['] + join_seqs(parts.subrange(0, i + 1), ", "@));
            } else {
                assert(r@ =~= seq!['['] + join_seqs(parts.subrange(0, i + 1), ", "@));
            }
        }
        i = i + 1;
    }
    push_char(&mut r, ']');
    proof {
        assert(parts.subrange(0, parts.len() as int) =~= parts);
        assert(r@ =~= debug_str_list(v.deep_view()));
    }
    r
}

/// Renders a list of characters as a debug listing, `['a', 'b']`.
#[verifier::loop_isolation(false)]
pub fn format_char_list(v: &Vec<char>) -> (r: String)
    ensures
        r@ == debug_char_list(v@),
{
    let ghost parts = Seq::new(v@.len(), |i: int| quoted_char(v@[i]));
    let mut r = String::new();
    push_char(&mut r, '[');
    let mut i: usize = 0;
    proof {
        assert(parts.subrange(0, 0) =~= Seq::<Seq<char>>::empty());
        assert(r@ =~= seq!['['] + join_seqs(parts.subrange(0, 0), ", "@));
    }
    while i < v.len()
        invariant
            i <= v@.len(),
            r@ == seq!['['] + join_seqs(parts.subrange(0, i as int), ", "@),
        decreases v@.len() - i,
    {
        if i > 0 {
            r.append(", ");
        }
        push_char(&mut r, '\'');
        push_char(&mut r, v[i]);
        push_char(&mut r, '\'');
        proof {
            lemma_join_push(parts.subrange(0, i as int), ", "@, parts[i as int]);
            assert(parts.subrange(0, i as int).push(parts[i as int]) =~= parts.subrange(
                0,
                i + 1,
            ));
            assert(r@ =~= seq!['['] + join_seqs(parts.subrange(0, i + 1), ", "@));
        }
        i = i + 1;
    }
    push_char(&mut r, ']');
    proof {
        assert(parts.subrange(0, parts.len() as int) =~= parts);
        assert(r@ =~= debug_char_list(v@));
    }
    r
}

/// Whether the string `s` occurs in `v`.
pub fn vec_has_string(v: &Vec<String>, s: &str) -> (r: bool)
    ensures
        r == seq_has(v.deep_view(), s@),
{
    let mut i: usize = 0;
    while i < v.len()
        invariant
            i <= v@.len(),
            forall|j: int| 0 <= j < i ==> v.deep_view()[j] != s@,
        decreases v@.len() - i,
    {
        if str_eq(v[i].as_str(), s) {
            proof {
                assert(v.deep_view()[i as int] == s@);
            }
            return true;
        }
        i = i + 1;
    }
    false
}

/// Whether `v` is strictly increasing.
pub open spec fn sorted_unique_chars(v: Seq<char>) -> bool {
    forall|i: int, j: int| 0 <= i < j < v.len() ==> (#[trigger] v[i]) < (#[trigger] v[j])
}

/// Inserts `c` into the strictly increasing vector `v`, keeping it strictly
/// increasing; a character already present is not added again.
#[verifier::loop_isolation(false)]
pub fn insert_sorted_char(v: &mut Vec<char>, c: char)
    requires
        sorted_unique_chars(old(v)@),
    ensures
        sorted_unique_chars(final(v)@),
        forall|x: char|
            #![trigger seq_has(final(v)@, x)]
            #![trigger seq_has(old(v)@, x)]
            seq_has(final(v)@, x) <==> (seq_has(old(v)@, x) || x == c),
{
    let ghost orig = v@;
    let mut i: usize = 0;
    while i < v.len()
        invariant
            i <= v@.len(),
            v@ == orig,
            forall|j: int| 0 <= j < i ==> (#[trigger] orig[j]) < c,
        decreases v@.len() - i,
    {
        if c <= v[i] {
            if c == v[i] {
                proof {
                    assert forall|x: char| seq_has(v@, x) <==> (seq_has(orig, x) || x == c) by {
                        if x == c {
                            assert(orig[i as int] == x);
                        }
                    }
                }
                return ;
            }
            let ghost prev = v@;
            v.insert(i, c);
            proof {
                assert(v@.len() == prev.len() + 1);
                assert(v@[i as int] == c);
                assert(forall|j: int| 0 <= j < i ==> v@[j] == prev[j]);
                assert(forall|j: int| i < j < v@.len() ==> v@[j] == prev[j - 1]);
                assert forall|p: int, q: int| 0 <= p < q < v@.len() implies (#[trigger] v@[p]) < (
                #[trigger] v@[q]) by {
                    if p == i {
                        assert(v@[q] == prev[q - 1]);
                        if q - 1 > i {
                            assert(prev[i as int] < prev[q - 1]);
                        }
                    } else if q == i {
                        assert(v@[p] == prev[p]);
                    } else {
                        let pp = if p < i { p } else { p - 1 };
                        let qq = if q < i { q } else { q - 1 };
                        assert(v@[p] == prev[pp]);
                        assert(v@[q] == prev[qq]);
                        assert(prev[pp] < prev[qq]);
                    }
                }
                assert forall|x: char| seq_has(v@, x) <==> (seq_has(orig, x) || x == c) by {
                    if seq_has(v@, x) {
                        let j = choose|j: int| 0 <= j < v@.len() && v@[j] == x;
                        if j < i {
                            assert(orig[j] == x);
                        } else if j > i {
                            assert(orig[j - 1] == x);
                        }
                    }
                    if seq_has(orig, x) {
                        let j = choose|j: int| 0 <= j < orig.len() && orig[j] == x;
                        if j < i {
                            assert(v@[j] == x);
                        } else {
                            assert(v@[j + 1] == x);
                        }
                    }
                    if x == c {
                        assert(v@[i as int] == x);
                    }
                }
            }
            return ;
        }
        i = i + 1;
    }
    proof {
        assert(i == v@.len());
    }
    let ghost prev = v@;
    v.push(c);
    proof {
        assert(v@[prev.len() as int] == c);
        assert(forall|j: int| 0 <= j < prev.len() ==> v@[j] == prev[j]);
        assert forall|p: int, q: int| 0 <= p < q < v@.len() implies (#[trigger] v@[p]) < (
        #[trigger] v@[q]) by {
            if q == prev.len() {
                assert(v@[p] == prev[p]);
                assert(prev[p] < c);
            } else {
                assert(prev[p] < prev[q]);
            }
        }
        assert forall|x: char| seq_has(v@, x) <==> (seq_has(orig, x) || x == c) by {
            if seq_has(v@, x) {
                let j = choose|j: int| 0 <= j < v@.len() && v@[j] == x;
                if j < prev.len() {
                    assert(orig[j] == x);
                }
            }
            if seq_has(orig, x) {
                let j = choose|j: int| 0 <= j < orig.len() && orig[j] == x;
                assert(v@[j] == x);
            }
            if x == c {
                assert(v@[prev.len() as int] == x);
            }
        }
    }
}

/// The position of the first occurrence of `sep` in `s`, or -1 if `sep`
/// does not occur.
pub open spec fn index_of_char(s: Seq<char>, sep: char) -> int
    decreases s.len(),
{
    if s.len() == 0 {
        -1
    } else if s[0] == sep {
        0
    } else {
        let r = index_of_char(s.drop_first(), sep);
        if r < 0 {
            -1
        } else {
            r + 1
        }
    }
}

/// The first occurrence of a separator is an occurrence, nothing before it
/// is one, and -1 means there is none.
pub proof fn lemma_index_of_char(s: Seq<char>, sep: char)
    ensures
        index_of_char(s, sep) >= 0 ==> {
            &&& index_of_char(s, sep) < s.len()
            &&& s[index_of_char(s, sep)] == sep
            &&& forall|j: int| 0 <= j < index_of_char(s, sep) ==> s[j] != sep
        },
        index_of_char(s, sep) < 0 ==> forall|j: int| 0 <= j < s.len() ==> s[j] != sep,
    decreases s.len(),
{
    if s.len() > 0 && s[0] != sep {
        lemma_index_of_char(s.drop_first(), sep);
        let r = index_of_char(s.drop_first(), sep);
        if r >= 0 {
            assert(s[r + 1] == s.drop_first()[r]);
            assert forall|j: int| 0 <= j < r + 1 implies s[j] != sep by {
                if j > 0 {
                    assert(s[j] == s.drop_first()[j - 1]);
                }
            }
        } else {
            assert forall|j: int| 0 <= j < s.len() implies s[j] != sep by {
                if j > 0 {
                    assert(s[j] == s.drop_first()[j - 1]);
                }
            }
        }
    }
}

/// A sequence with a separator occurrence has a first one.
pub proof fn lemma_index_of_char_finds(s: Seq<char>, sep: char, j: int)
    requires
        0 <= j < s.len(),
        s[j] == sep,
    ensures
        index_of_char(s, sep) >= 0,
    decreases s.len(),
{
    if s[0] != sep {
        lemma_index_of_char_finds(s.drop_first(), sep, j - 1);
    }
}

/// The parts of `s` between occurrences of `sep`: splitting always yields
/// one more part than there are separators, so splitting the empty sequence
/// yields one empty part.
pub open spec fn split_seq(s: Seq<char>, sep: char) -> Seq<Seq<char>>
    decreases s.len(),
{
    let k = index_of_char(s, sep);
    if k < 0 || k >= s.len() {
        seq![s]
    } else {
        seq![s.subrange(0, k)] + split_seq(s.subrange(k + 1, s.len() as int), sep)
    }
}

/// Splitting yields at least one part, and no part holds the separator.
pub proof fn lemma_split_seq_parts(s: Seq<char>, sep: char)
    ensures
        split_seq(s, sep).len() >= 1,
        forall|i: int, j: int|
            0 <= i < split_seq(s, sep).len() && 0 <= j < split_seq(s, sep)[i].len() ==> (
            #[trigger] split_seq(s, sep)[i][j]) != sep,
    decreases s.len(),
{
    lemma_index_of_char(s, sep);
    let k = index_of_char(s, sep);
    if k >= 0 {
        lemma_split_seq_parts(s.subrange(k + 1, s.len() as int), sep);
        let sp = split_seq(s, sep);
        let rest = split_seq(s.subrange(k + 1, s.len() as int), sep);
        assert forall|i: int, j: int|
            0 <= i < sp.len() && 0 <= j < sp[i].len() implies (#[trigger] sp[i][j]) != sep by {
            if i == 0 {
                assert(sp[0] == s.subrange(0, k));
                assert(s.subrange(0, k)[j] == s[j]);
            } else {
                assert(sp[i] == rest[i - 1]);
            }
        }
    } else {
        let sp = split_seq(s, sep);
        assert forall|i: int, j: int|
            0 <= i < sp.len() && 0 <= j < sp[i].len() implies (#[trigger] sp[i][j]) != sep by {
            assert(sp[0] == s);
        }
    }
}

/// Splitting inverts joining, for any non-empty list of parts none of which
/// holds the separator.
pub proof fn lemma_split_join(parts: Seq<Seq<char>>, sep: char)
    requires
        parts.len() >= 1,
        forall|i: int, j: int|
            0 <= i < parts.len() && 0 <= j < parts[i].len() ==> (#[trigger] parts[i][j]) != sep,
    ensures
        split_seq(join_seqs(parts, seq![sep]), sep) == parts,
    decreases parts.len(),
{
    let s = join_seqs(parts, seq![sep]);
    if parts.len() == 1 {
        assert(s == parts[0]);
        assert(index_of_char(s, sep) < 0) by {
            lemma_index_of_char(s, sep);
            if index_of_char(s, sep) >= 0 {
                assert(parts[0][index_of_char(s, sep)] == sep);
            }
        }
        assert(split_seq(s, sep) =~= parts);
    } else {
        let head = parts[0];
        let rest = join_seqs(parts.drop_first(), seq![sep]);
        assert(s == head + seq![sep] + rest);
        assert(s.len() == head.len() + 1 + rest.len());
        assert(index_of_char(s, sep) == head.len()) by {
            lemma_index_of_char(s, sep);
            assert(s[head.len() as int] == sep);
            lemma_index_of_char_finds(s, sep, head.len() as int);
            let k = index_of_char(s, sep);
            if k < head.len() {
                assert(s[k] == head[k]);
                assert(head[k] != sep);
            }
            if k > head.len() {
                assert(s[head.len() as int] != sep);
            }
        }
        assert(s.subrange(0, head.len() as int) =~= head);
        assert(s.subrange(head.len() as int + 1, s.len() as int) =~= rest);
        assert forall|i: int, j: int|
            0 <= i < parts.drop_first().len() && 0 <= j < parts.drop_first()[i].len() implies (
        #[trigger] parts.drop_first()[i][j]) != sep by {
            assert(parts.drop_first()[i] == parts[i + 1]);
            assert(parts[i + 1][j] != sep);
        }
        lemma_split_join(parts.drop_first(), sep);
        assert(split_seq(s, sep) =~= seq![head] + split_seq(rest, sep));
        assert(seq![head] + parts.drop_first() =~= parts);
    }
}

/// The concatenation of all parts, in order.
pub open spec fn concat_parts(parts: Seq<Seq<char>>) -> Seq<char>
    decreases parts.len(),
{
    if parts.len() == 0 {
        Seq::empty()
    } else {
        parts[0] + concat_parts(parts.drop_first())
    }
}

/// Concatenating one more part appends it.
pub proof fn lemma_concat_push(parts: Seq<Seq<char>>, x: Seq<char>)
    ensures
        concat_parts(parts.push(x)) == concat_parts(parts) + x,
    decreases parts.len(),
{
    if parts.len() == 0 {
        assert(parts.push(x).drop_first() =~= Seq::<Seq<char>>::empty());
        assert(concat_parts(parts.push(x)) == x + concat_parts(Seq::<Seq<char>>::empty()));
        assert(x + Seq::<char>::empty() =~= x);
        assert(concat_parts(parts) + x =~= x);
    } else {
        lemma_concat_push(parts.drop_first(), x);
        assert(parts.push(x).drop_first() =~= parts.drop_first().push(x));
        assert(concat_parts(parts.push(x)) == parts[0] + concat_parts(parts.drop_first().push(x)));
        assert(parts[0] + (concat_parts(parts.drop_first()) + x) =~= (parts[0] + concat_parts(
            parts.drop_first(),
        )) + x);
    }
}

/// The parts of `v` from position `start` on, split on `sep`.
#[verifier::loop_isolation(false)]
pub fn split_chars_from(v: &Vec<char>, sep: char, start: usize) -> (r: Vec<Vec<char>>)
    requires
        start <= v@.len(),
    ensures
        r.deep_view() == split_seq(v@.skip(start as int), sep),
    decreases v@.len() - start,
{
    let ghost tail = v@.skip(start as int);
    // find the first separator at or after `start`
    let mut i: usize = start;
    while i < v.len() && v[i] != sep
        invariant
            start <= i <= v@.len(),
            forall|j: int| start <= j < i ==> v@[j] != sep,
        decreases v@.len() - i,
    {
        i = i + 1;
    }
    if i == v.len() {
        // no separator: one part, the rest of the vector
        let mut part: Vec<char> = Vec::new();
        let mut j: usize = start;
        while j < v.len()
            invariant
                start <= j <= v@.len(),
                part@ == v@.subrange(start as int, j as int),
            decreases v@.len() - j,
        {
            part.push(v[j]);
            proof {
                assert(part@ =~= v@.subrange(start as int, j + 1));
            }
            j = j + 1;
        }
        let mut r: Vec<Vec<char>> = Vec::new();
        r.push(part);
        proof {
            assert(index_of_char(tail, sep) < 0) by {
                lemma_index_of_char(tail, sep);
                if index_of_char(tail, sep) >= 0 {
                    assert(tail[index_of_char(tail, sep)] == v@[start + index_of_char(
                        tail,
                        sep,
                    )]);
                }
            }
            assert(part@ =~= tail);
            assert(r.deep_view() =~~= split_seq(tail, sep));
        }
        r
    } else {
        // a separator at `i`: one part before it, then the rest, split
        let mut part: Vec<char> = Vec::new();
        let mut j: usize = start;
        while j < i
            invariant
                start <= j <= i,
                i < v@.len(),
                part@ == v@.subrange(start as int, j as int),
            decreases i - j,
        {
            part.push(v[j]);
            proof {
                assert(part@ =~= v@.subrange(start as int, j + 1));
            }
            j = j + 1;
        }
        let mut r = split_chars_from(v, sep, i + 1);
        r.insert(0, part);
        proof {
            assert(index_of_char(tail, sep) == i - start) by {
                lemma_index_of_char(tail, sep);
                assert(tail[i - start] == v@[i as int]);
                lemma_index_of_char_finds(tail, sep, i - start);
                let k = index_of_char(tail, sep);
                if k < i - start {
                    assert(tail[k] == v@[start + k]);
                }
                if k > i - start {
                    assert(tail[i - start] != sep);
                }
            }
            assert(part@ =~= tail.subrange(0, i - start));
            assert(v@.skip(i + 1) =~= tail.subrange(i - start + 1, tail.len() as int));
            let sp = split_seq(tail, sep);
            assert(sp == seq![tail.subrange(0, i - start)] + split_seq(
                tail.subrange(i - start + 1, tail.len() as int),
                sep,
            ));
            assert(r.deep_view() =~~= sp);
        }
        r
    }
}

/// The parts of `v`, split on `sep`.
pub fn split_chars(v: &Vec<char>, sep: char) -> (r: Vec<Vec<char>>)
    ensures
        r.deep_view() == split_seq(v@, sep),
{
    let r = split_chars_from(v, sep, 0);
    proof {
        assert(v@.skip(0) =~= v@);
    }
    r
}

/// The decimal rendering of `n` as a string.
pub fn u64_to_string(n: u64) -> (r: String)
    ensures
        r@ == dec_digits(n as int),
    decreases n,
{
    if n < 10 {
        char_to_string((48 + n as u8) as char)
    } else {
        let mut r = u64_to_string(n / 10);
        push_char(&mut r, (48 + (n % 10) as u8) as char);
        r
    }
}

/// Whether the character vector `x` occurs in `v`.
pub fn vec_has_chars(v: &Vec<Vec<char>>, x: &Vec<char>) -> (r: bool)
    ensures
        r == seq_has(v.deep_view(), x@),
{
    let mut i: usize = 0;
    while i < v.len()
        invariant
            i <= v@.len(),
            forall|j: int| 0 <= j < i ==> v.deep_view()[j] != x@,
        decreases v@.len() - i,
    {
        proof {
            assert(v.deep_view()[i as int] == v@[i as int]@);
        }
        if chars_eq(&v[i], x) {
            proof {
                assert(v.deep_view()[i as int] == x@);
            }
            return true;
        }
        i = i + 1;
    }
    false
}

/// Whether a character is horizontal or line-ending whitespace.
pub open spec fn is_space(c: char) -> bool {
    c == ' ' || c == '\t' || c == '\r' || c == '\n'
}

/// The sequence without its leading whitespace.
pub open spec fn trim_front(s: Seq<char>) -> Seq<char>
    decreases s.len(),
{
    if s.len() > 0 && is_space(s[0]) {
        trim_front(s.drop_first())
    } else {
        s
    }
}

/// The sequence without its trailing whitespace.
pub open spec fn trim_back(s: Seq<char>) -> Seq<char>
    decreases s.len(),
{
    if s.len() > 0 && is_space(s.last()) {
        trim_back(s.drop_last())
    } else {
        s
    }
}

/// The sequence without leading and trailing whitespace.
pub open spec fn trim_spec(s: Seq<char>) -> Seq<char> {
    trim_back(trim_front(s))
}

/// Dropping a leading run of whitespace is what `trim_front` does.
pub proof fn lemma_trim_front_skip(s: Seq<char>, a: int)
    requires
        0 <= a <= s.len(),
        forall|j: int| 0 <= j < a ==> is_space(#[trigger] s[j]),
        a == s.len() || !is_space(s[a]),
    ensures
        trim_front(s) == s.skip(a),
    decreases a,
{
    if a == 0 {
        assert(s.skip(0) =~= s);
        if s.len() > 0 && is_space(s[0]) {
            assert(false);
        }
    } else {
        assert(is_space(s[0]));
        assert(s.drop_first() =~= s.skip(1));
        assert forall|j: int| 0 <= j < a - 1 implies is_space(#[trigger] s.skip(1)[j]) by {
            assert(s.skip(1)[j] == s[j + 1]);
        }
        if a - 1 < s.skip(1).len() {
            assert(s.skip(1)[a - 1] == s[a as int]);
        }
        lemma_trim_front_skip(s.skip(1), a - 1);
        assert(s.skip(1).skip(a - 1) =~= s.skip(a));
    }
}

/// Dropping a trailing run of whitespace is what `trim_back` does.
pub proof fn lemma_trim_back_take(s: Seq<char>, b: int)
    requires
        0 <= b <= s.len(),
        forall|j: int| b <= j < s.len() ==> is_space(#[trigger] s[j]),
        b == 0 || !is_space(s[b - 1]),
    ensures
        trim_back(s) == s.take(b),
    decreases s.len() - b,
{
    if b == s.len() {
        assert(s.take(b) =~= s);
        if s.len() > 0 && is_space(s.last()) {
            assert(false);
        }
    } else {
        assert(is_space(s.last()));
        assert(s.drop_last() =~= s.take(s.len() - 1));
        assert forall|j: int| b <= j < s.drop_last().len() implies is_space(
            #[trigger] s.drop_last()[j],
        ) by {
            assert(s.drop_last()[j] == s[j]);
        }
        if b > 0 {
            assert(s.drop_last()[b - 1] == s[b - 1]);
        }
        lemma_trim_back_take(s.drop_last(), b);
        assert(s.drop_last().take(b) =~= s.take(b));
    }
}

/// A copy of `v` without leading and trailing whitespace.
#[verifier::loop_isolation(false)]
pub fn trim_chars(v: &Vec<char>) -> (r: Vec<char>)
    ensures
        r@ == trim_spec(v@),
{
    let mut a: usize = 0;
    while a < v.len() && (v[a] == ' ' || v[a] == '\t' || v[a] == '\r' || v[a] == '\n')
        invariant
            a <= v@.len(),
            forall|j: int| 0 <= j < a ==> is_space(#[trigger] v@[j]),
        decreases v@.len() - a,
    {
        a = a + 1;
    }
    let mut b: usize = v.len();
    while b > a && (v[b - 1] == ' ' || v[b - 1] == '\t' || v[b - 1] == '\r' || v[b - 1] == '\n')
        invariant
            a <= b <= v@.len(),
            forall|j: int| b <= j < v@.len() ==> is_space(#[trigger] v@[j]),
        decreases b,
    {
        b = b - 1;
    }
    let mut r: Vec<char> = Vec::new();
    let mut i: usize = a;
    while i < b
        invariant
            a <= i <= b <= v@.len(),
            r@ == v@.subrange(a as int, i as int),
        decreases b - i,
    {
        r.push(v[i]);
        proof {
            assert(r@ =~= v@.subrange(a as int, i + 1));
        }
        i = i + 1;
    }
    proof {
        lemma_trim_front_skip(v@, a as int);
        if b == a {
            lemma_trim_back_take(v@.skip(a as int), 0);
        } else {
            assert(!is_space(v@[b - 1]));
            assert forall|j: int|
                b - a <= j < v@.skip(a as int).len() implies is_space(
                #[trigger] v@.skip(a as int)[j],
            ) by {
                assert(v@.skip(a as int)[j] == v@[j + a]);
            }
            assert(v@.skip(a as int)[b - a - 1] == v@[b - 1]);
            lemma_trim_back_take(v@.skip(a as int), b - a);
        }
        assert(v@.skip(a as int).take(b - a) =~= v@.subrange(a as int, b as int));
        assert(r@ =~= trim_spec(v@));
    }
    r
}

} // verus!
