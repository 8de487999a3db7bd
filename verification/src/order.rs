//! Comparisons on state identifiers and transitions: character-exact string
//! equality, the lexicographic order used for canonical naming, and the
//! triple order used to sort a transition relation deterministically.

use vstd::prelude::*;
use crate::model::SpecTransition;

verus! {

use vstd::string::StrSliceExecFns;

/// The views of a list of strings.
pub open spec fn views_of_strings(v: Seq<String>) -> Seq<Seq<char>> {
    v.map_values(|s: String| s@)
}

/// Character-for-character equality of two string slices.
pub fn str_eq(a: &str, b: &str) -> (r: bool)
    ensures
        r == (a@ == b@),
{
    let la = a.unicode_len();
    let lb = b.unicode_len();
    if la != lb {
        return false;
    }
    let mut i: usize = 0;
    while i < la
        invariant
            la == a@.len(),
            la == b@.len(),
            0 <= i <= la,
            forall|j: int| 0 <= j < i ==> a@[j] == b@[j],
        decreases la - i,
    {
        if a.get_char(i) != b.get_char(i) {
            return false;
        }
        i += 1;
    }
    proof {
        assert(a@ =~= b@);
    }
    true
}

/// Membership of a string in a list of strings.
pub fn vec_str_contains(v: &Vec<String>, s: &String) -> (r: bool)
    ensures
        r == views_of_strings(v@).contains(s@),
{
    let n = v.len();
    let mut i: usize = 0;
    while i < n
        invariant
            n == v.len(),
            0 <= i <= n,
            forall|j: int| 0 <= j < i ==> (#[trigger] v@[j])@ != s@,
        decreases n - i,
    {
        if v[i] == *s {
            assert(views_of_strings(v@)[i as int] == s@);
            return true;
        }
        i += 1;
    }
    proof {
        if views_of_strings(v@).contains(s@) {
            let j = choose|j: int| 0 <= j < v@.len() && views_of_strings(v@)[j] == s@;
            assert((v@[j])@ == s@);
        }
    }
    false
}

/// Membership of a symbol in a list of symbols.
pub fn vec_char_contains(v: &Vec<char>, c: char) -> (r: bool)
    ensures
        r == v@.contains(c),
{
    let n = v.len();
    let mut i: usize = 0;
    while i < n
        invariant
            n == v.len(),
            0 <= i <= n,
            forall|j: int| 0 <= j < i ==> v@[j] != c,
        decreases n - i,
    {
        if v[i] == c {
            return true;
        }
        i += 1;
    }
    false
}

/// Appends `c` unless it is already present: the result lists exactly the
/// old symbols and `c`, still without duplicates.
pub fn insert_char(out: &mut Vec<char>, c: char)
    requires
        old(out)@.no_duplicates(),
    ensures
        final(out)@.no_duplicates(),
        forall|x: char| final(out)@.contains(x) <==> (old(out)@.contains(x) || x == c),
{
    if !vec_char_contains(out, c) {
        let ghost prev = out@;
        out.push(c);
        proof {
            assert(out@[prev.len() as int] == c);
            assert forall|x: char| out@.contains(x) implies (prev.contains(x) || x == c) by {
                let j = choose|j: int| 0 <= j < out@.len() && out@[j] == x;
                if j < prev.len() {
                    assert(prev[j] == x);
                }
            }
            assert forall|x: char| prev.contains(x) implies out@.contains(x) by {
                let j = choose|j: int| 0 <= j < prev.len() && prev[j] == x;
                assert(out@[j] == x);
            }
            assert forall|p: int, q: int|
                0 <= p < out@.len() && 0 <= q < out@.len() && p != q implies out@[p]
                != out@[q] by {
                if q == prev.len() && p < prev.len() {
                    if out@[p] == c {
                        assert(prev[p] == c);
                        assert(prev.contains(c));
                    }
                } else if p == prev.len() && q < prev.len() {
                    if out@[q] == c {
                        assert(prev[q] == c);
                        assert(prev.contains(c));
                    }
                }
            }
        }
    }
}

/// Appends a copy of `s` unless a string of the same characters is already
/// present: the result lists exactly the old identifiers and `s@`, still
/// without duplicates.
pub fn insert_string(out: &mut Vec<String>, s: &String)
    requires
        views_of_strings(old(out)@).no_duplicates(),
    ensures
        views_of_strings(final(out)@).no_duplicates(),
        forall|x: Seq<char>|
            views_of_strings(final(out)@).contains(x) <==> (views_of_strings(
                old(out)@,
            ).contains(x) || x == s@),
        views_of_strings(final(out)@) == views_of_strings(old(out)@) || views_of_strings(
            final(out)@,
        ) == views_of_strings(old(out)@).push(s@),
{
    if !vec_str_contains(out, s) {
        let ghost prev = views_of_strings(out@);
        out.push(s.clone());
        proof {
            let cur = views_of_strings(out@);
            assert(cur =~= prev.push(s@));
            assert(cur[prev.len() as int] == s@);
            assert forall|x: Seq<char>| cur.contains(x) implies (prev.contains(x) || x == s@) by {
                let j = choose|j: int| 0 <= j < cur.len() && cur[j] == x;
                if j < prev.len() {
                    assert(prev[j] == x);
                }
            }
            assert forall|x: Seq<char>| prev.contains(x) implies cur.contains(x) by {
                let j = choose|j: int| 0 <= j < prev.len() && prev[j] == x;
                assert(cur[j] == x);
            }
            assert forall|p: int, q: int|
                0 <= p < cur.len() && 0 <= q < cur.len() && p != q implies cur[p] != cur[q] by {
                if q == prev.len() && p < prev.len() {
                    if cur[p] == s@ {
                        assert(prev[p] == s@);
                        assert(prev.contains(s@));
                    }
                } else if p == prev.len() && q < prev.len() {
                    if cur[q] == s@ {
                        assert(prev[q] == s@);
                        assert(prev.contains(s@));
                    }
                }
            }
        }
    }
}

/// Strict lexicographic order on state identifiers: by the first differing
/// character's scalar value, a proper prefix coming first.
pub open spec fn lex_lt(a: Seq<char>, b: Seq<char>) -> bool
    decreases a.len(),
{
    if b.len() == 0 {
        false
    } else if a.len() == 0 {
        true
    } else if a[0] != b[0] {
        a[0] < b[0]
    } else {
        lex_lt(a.drop_first(), b.drop_first())
    }
}

pub open spec fn lex_le(a: Seq<char>, b: Seq<char>) -> bool {
    lex_lt(a, b) || a == b
}

/// The lexicographic order is a strict total order.
pub proof fn lemma_lex_trichotomy(a: Seq<char>, b: Seq<char>)
    ensures
        lex_lt(a, b) || lex_lt(b, a) || a == b,
        lex_lt(a, b) ==> !lex_lt(b, a) && a != b,
    decreases a.len() + b.len(),
{
    if a.len() == 0 && b.len() == 0 {
        assert(a =~= b);
    } else if a.len() > 0 && b.len() > 0 && a[0] == b[0] {
        lemma_lex_trichotomy(a.drop_first(), b.drop_first());
        if a.drop_first() == b.drop_first() {
            assert forall|i: int| 0 <= i < a.len() implies a[i] == b[i] by {
                if i > 0 {
                    assert(a.drop_first()[i - 1] == a[i]);
                    assert(b.drop_first()[i - 1] == b[i]);
                }
            }
            assert(a =~= b);
        }
    }
}

pub proof fn lemma_lex_le_trans(a: Seq<char>, b: Seq<char>, c: Seq<char>)
    requires
        lex_le(a, b),
        lex_le(b, c),
    ensures
        lex_le(a, c),
{
    if a != b && b != c {
        lemma_lex_lt_trans(a, b, c);
    }
}

pub proof fn lemma_lex_lt_trans(a: Seq<char>, b: Seq<char>, c: Seq<char>)
    requires
        lex_lt(a, b),
        lex_lt(b, c),
    ensures
        lex_lt(a, c),
    decreases a.len() + b.len() + c.len(),
{
    if a.len() > 0 && b.len() > 0 && c.len() > 0 {
        if a[0] == b[0] && b[0] == c[0] {
            lemma_lex_lt_trans(a.drop_first(), b.drop_first(), c.drop_first());
        }
    }
}

/// Strict lexicographic comparison of two string slices.
pub fn str_lt(a: &str, b: &str) -> (r: bool)
    ensures
        r == lex_lt(a@, b@),
{
    let la = a.unicode_len();
    let lb = b.unicode_len();
    let mut i: usize = 0;
    proof {
        assert(a@.skip(0) =~= a@);
        assert(b@.skip(0) =~= b@);
    }
    loop
        invariant
            la == a@.len(),
            lb == b@.len(),
            0 <= i <= la,
            0 <= i <= lb,
            forall|j: int| 0 <= j < i ==> a@[j] == b@[j],
            lex_lt(a@, b@) == lex_lt(a@.skip(i as int), b@.skip(i as int)),
        decreases la - i,
    {
        if i >= la || i >= lb {
            proof {
                if i >= la {
                    assert(a@.skip(i as int).len() == 0);
                    assert(lex_lt(a@.skip(i as int), b@.skip(i as int)) == (i < lb));
                } else {
                    assert(b@.skip(i as int).len() == 0);
                    assert(!lex_lt(a@.skip(i as int), b@.skip(i as int)));
                }
            }
            return i >= la && i < lb;
        }
        let ca = a.get_char(i);
        let cb = b.get_char(i);
        proof {
            assert(a@.skip(i as int)[0] == a@[i as int]);
            assert(b@.skip(i as int)[0] == b@[i as int]);
            assert(a@.skip(i as int).drop_first() =~= a@.skip(i as int + 1));
            assert(b@.skip(i as int).drop_first() =~= b@.skip(i as int + 1));
        }
        if ca != cb {
            return ca < cb;
        }
        i += 1;
    }
}

/// The triple order on transitions: by source state, then symbol, then
/// target state.
pub open spec fn spec_trans_lt(a: SpecTransition, b: SpecTransition) -> bool {
    ||| lex_lt(a.state, b.state)
    ||| (a.state == b.state && a.input < b.input)
    ||| (a.state == b.state && a.input == b.input && lex_lt(a.next_state, b.next_state))
}

pub open spec fn spec_trans_le(a: SpecTransition, b: SpecTransition) -> bool {
    spec_trans_lt(a, b) || a == b
}

pub proof fn lemma_trans_trichotomy(a: SpecTransition, b: SpecTransition)
    ensures
        spec_trans_lt(a, b) || spec_trans_lt(b, a) || a == b,
        spec_trans_lt(a, b) ==> !spec_trans_lt(b, a) && a != b,
{
    lemma_lex_trichotomy(a.state, b.state);
    lemma_lex_trichotomy(a.next_state, b.next_state);
    if a.state == b.state && a.input == b.input && a.next_state == b.next_state {
        assert(a == b);
    }
}

pub proof fn lemma_trans_le_trans(a: SpecTransition, b: SpecTransition, c: SpecTransition)
    requires
        spec_trans_le(a, b),
        spec_trans_le(b, c),
    ensures
        spec_trans_le(a, c),
{
    if a != b && b != c {
        lemma_trans_lt_trans(a, b, c);
    }
}

pub proof fn lemma_trans_lt_trans(a: SpecTransition, b: SpecTransition, c: SpecTransition)
    requires
        spec_trans_lt(a, b),
        spec_trans_lt(b, c),
    ensures
        spec_trans_lt(a, c),
{
    lemma_lex_trichotomy(a.state, b.state);
    lemma_lex_trichotomy(b.state, c.state);
    lemma_lex_trichotomy(a.state, c.state);
    if lex_lt(a.state, b.state) && lex_lt(b.state, c.state) {
        lemma_lex_lt_trans(a.state, b.state, c.state);
    }
    if a.state == c.state && a.input == c.input {
        if lex_lt(a.next_state, b.next_state) && lex_lt(b.next_state, c.next_state) {
            lemma_lex_lt_trans(a.next_state, b.next_state, c.next_state);
        }
    }
}

} // verus!
