//! The partition refiner: states are split into equivalence classes, the
//! classes are refined until no class distinguishes two of its members, and
//! the resulting blocks drive the renaming that `minimize` applies.

use vstd::prelude::*;
use crate::model::{
    SpecTransition, SpecDfa, spec_lookup, lemma_lookup_sound, accept_contains, relevant_state,
    state_in_transitions, obs_equiv, lemma_obs_equiv_lookup, lemma_obs_equiv_step, spec_pruned,
    alphabet_has, rename_state, rename_transition, pairs_lookup, pairs_keys, pairs_view,
    lemma_pairs_lookup_first, lemma_pairs_lookup_none, lemma_pairs_lookup_sound,
    lemma_pairs_lookup_at,
};
use crate::automaton::{Dfa, Transition, views_of_transitions};
use crate::order::{
    str_eq, str_lt, vec_str_contains, insert_string, views_of_strings, lex_le,
    lemma_lex_trichotomy, lemma_lex_le_trans,
};
use crate::canon::strictly_sorted;

verus! {

/// Merged sources move alike: on symbol `c` both states have no rule, or
/// both have one and the renamed targets coincide.
pub open spec fn next_names_agree(
    ts: Seq<SpecTransition>,
    m: Seq<(Seq<char>, Seq<char>)>,
    s1: Seq<char>,
    s2: Seq<char>,
    c: char,
) -> bool {
    match (spec_lookup(ts, s1, c), spec_lookup(ts, s2, c)) {
        (Some(t1), Some(t2)) => rename_state(m, t1.next_state) == rename_state(m, t2.next_state),
        (None, None) => true,
        _ => false,
    }
}

/// The renaming merges only states that the refinement could not split: two
/// states with the same new name agree, on every symbol of the working
/// alphabet, about where they go, up to renaming.
pub open spec fn renaming_stable(ts: Seq<SpecTransition>, m: Seq<(Seq<char>, Seq<char>)>) -> bool {
    forall|s1: Seq<char>, s2: Seq<char>, c: char|
        #![trigger rename_state(m, s1), rename_state(m, s2), alphabet_has(ts, c)]
        rename_state(m, s1) == rename_state(m, s2) && alphabet_has(ts, c) ==> next_names_agree(
            ts,
            m,
            s1,
            s2,
            c,
        )
}

/// The renaming merges no accept state with a non-accept state.
pub open spec fn renaming_respects_accept(
    ts: Seq<SpecTransition>,
    accept: Seq<Seq<char>>,
    m: Seq<(Seq<char>, Seq<char>)>,
) -> bool {
    forall|s1: Seq<char>, s2: Seq<char>|
        #![trigger rename_state(m, s1), rename_state(m, s2)]
        relevant_state(ts, accept, s1) && relevant_state(ts, accept, s2) && rename_state(m, s1)
            == rename_state(m, s2) ==> (accept_contains(accept, s1) <==> accept_contains(
            accept,
            s2,
        ))
}

/// The renaming merges every pair of observably equivalent states: nothing
/// mergeable is left unmerged.
pub open spec fn renaming_complete(
    ts: Seq<SpecTransition>,
    accept: Seq<Seq<char>>,
    m: Seq<(Seq<char>, Seq<char>)>,
) -> bool {
    forall|s1: Seq<char>, s2: Seq<char>|
        relevant_state(ts, accept, s1) && relevant_state(ts, accept, s2) && #[trigger] obs_equiv(
            ts,
            accept,
            s1,
            s2,
        ) ==> rename_state(m, s1) == rename_state(m, s2)
}

/// The renaming list is a well-formed result of canonical naming: keys are
/// listed once and belong to the automaton, every new name is the
/// lexicographically smallest member of its block and maps to itself, and
/// every block named in the list has at least two members.
pub open spec fn renaming_well_formed(
    ts: Seq<SpecTransition>,
    accept: Seq<Seq<char>>,
    m: Seq<(Seq<char>, Seq<char>)>,
) -> bool {
    &&& pairs_keys(m).no_duplicates()
    &&& forall|i: int|
        0 <= i < m.len() ==> relevant_state(ts, accept, (#[trigger] m[i]).0) && pairs_lookup(
            m,
            m[i].1,
        ) == Some(m[i].1) && lex_le(m[i].1, m[i].0)
    &&& forall|i: int|
        0 <= i < m.len() ==> exists|j: int|
            0 <= j < m.len() && (#[trigger] m[j]).1 == (#[trigger] m[i]).1 && m[j].0 != m[i].1
}

/// What `minimize` does to an automaton, as a relation between the automaton
/// before (`d0`), the automaton after (`d1`) and the returned renaming `m`.
/// The automaton is first pruned to `p`; the renaming then merges exactly
/// the observably equivalent states of `p`, names each merged block after
/// its lexicographically smallest member, and the result is `p` rewritten
/// through the renaming, its transitions deduplicated and sorted by the
/// triple order.
pub open spec fn minimize_rel(d0: SpecDfa, d1: SpecDfa, m: Seq<(Seq<char>, Seq<char>)>) -> bool {
    let p = spec_pruned(d0);
    &&& d1.name == d0.name
    &&& renaming_well_formed(p.transitions, p.accept_states, m)
    &&& renaming_stable(p.transitions, m)
    &&& renaming_respects_accept(p.transitions, p.accept_states, m)
    &&& renaming_complete(p.transitions, p.accept_states, m)
    &&& d1.start_state == rename_state(m, p.start_state)
    &&& d1.accept_states.no_duplicates()
    &&& forall|x: Seq<char>|
        #[trigger] d1.accept_states.contains(x) ==> exists|a: Seq<char>|
            #[trigger] p.accept_states.contains(a) && rename_state(m, a) == x
    &&& forall|a: Seq<char>|
        #[trigger] p.accept_states.contains(a) ==> d1.accept_states.contains(rename_state(m, a))
    &&& strictly_sorted(d1.transitions)
    &&& forall|t: SpecTransition|
        #[trigger] d1.transitions.contains(t) ==> exists|t0: SpecTransition|
            #[trigger] p.transitions.contains(t0) && rename_transition(m, t0) == t
    &&& forall|t0: SpecTransition|
        #[trigger] p.transitions.contains(t0) ==> d1.transitions.contains(
            rename_transition(m, t0),
        )
}

/// Some smallest member of the class is the target of every member's entry.
pub open spec fn class_mapped(m: Seq<(Seq<char>, Seq<char>)>, cl: Seq<Seq<char>>) -> bool {
    exists|v: Seq<char>|
        #[trigger] cl.contains(v) && (forall|y: Seq<char>|
            #[trigger] cl.contains(y) ==> lex_le(v, y) && pairs_lookup(m, y) == Some(v))
}

/// `k` is a member of some class of two or more states.
pub open spec fn key_in_multi_class(cls: Seq<Seq<Seq<char>>>, k: Seq<char>) -> bool {
    exists|ci: int|
        0 <= ci < cls.len() && (#[trigger] cls[ci]).len() >= 2 && cls[ci].contains(k)
}

/// The renaming list is exactly the canonical naming of the partition:
/// every class of two or more members is mapped, member by member, to its
/// smallest member, and nothing else is mapped.
pub open spec fn renaming_matches_classes(
    cls: Seq<Seq<Seq<char>>>,
    m: Seq<(Seq<char>, Seq<char>)>,
) -> bool {
    &&& pairs_keys(m).no_duplicates()
    &&& forall|idx: int|
        0 <= idx < m.len() ==> key_in_multi_class(cls, (#[trigger] m[idx]).0)
    &&& forall|ci: int|
        0 <= ci < cls.len() && (#[trigger] cls[ci]).len() >= 2 ==> class_mapped(m, cls[ci])
}

/// A state in no multi-member class keeps its name.
proof fn lemma_rename_unmapped(
    cls: Seq<Seq<Seq<char>>>,
    m: Seq<(Seq<char>, Seq<char>)>,
    s: Seq<char>,
)
    requires
        renaming_matches_classes(cls, m),
        forall|ci: int|
            0 <= ci < cls.len() ==> !((#[trigger] cls[ci]).len() >= 2 && cls[ci].contains(s)),
    ensures
        pairs_lookup(m, s) is None,
        rename_state(m, s) == s,
{
    lemma_pairs_lookup_sound(m, s);
    match pairs_lookup(m, s) {
        Some(v) => {
            let idx = choose|idx: int| 0 <= idx < m.len() && m[idx] == (s, v);
            assert(key_in_multi_class(cls, m[idx].0));
            assert(m[idx].0 == s);
            let ci = choose|ci: int|
                0 <= ci < cls.len() && (#[trigger] cls[ci]).len() >= 2 && cls[ci].contains(s);
            assert(false);
        },
        None => {},
    }
}

/// A member of a multi-member class is renamed to that class's smallest
/// member, which itself maps to itself.
proof fn lemma_rename_mapped(
    cls: Seq<Seq<Seq<char>>>,
    m: Seq<(Seq<char>, Seq<char>)>,
    s: Seq<char>,
    ci: int,
)
    requires
        renaming_matches_classes(cls, m),
        0 <= ci < cls.len(),
        cls[ci].len() >= 2,
        cls[ci].contains(s),
    ensures
        pairs_lookup(m, s) == Some(rename_state(m, s)),
        cls[ci].contains(rename_state(m, s)),
        pairs_lookup(m, rename_state(m, s)) == Some(rename_state(m, s)),
        forall|y: Seq<char>|
            #[trigger] cls[ci].contains(y) ==> lex_le(rename_state(m, s), y) && pairs_lookup(
                m,
                y,
            ) == Some(rename_state(m, s)),
{
    assert(class_mapped(m, cls[ci]));
    let v = choose|v: Seq<char>|
        #[trigger] cls[ci].contains(v) && (forall|y: Seq<char>|
            #[trigger] cls[ci].contains(y) ==> lex_le(v, y) && pairs_lookup(m, y) == Some(v));
    assert(pairs_lookup(m, s) == Some(v));
    assert(rename_state(m, s) == v);
}

/// Two distinct states with the same new name share a multi-member class.
proof fn lemma_rename_eq_same_class(
    cls: Seq<Seq<Seq<char>>>,
    m: Seq<(Seq<char>, Seq<char>)>,
    s1: Seq<char>,
    s2: Seq<char>,
) -> (ci: int)
    requires
        renaming_matches_classes(cls, m),
        classes_disjoint(cls),
        rename_state(m, s1) == rename_state(m, s2),
        s1 != s2,
    ensures
        0 <= ci < cls.len(),
        cls[ci].len() >= 2,
        cls[ci].contains(s1),
        cls[ci].contains(s2),
{
    lemma_pairs_lookup_sound(m, s1);
    lemma_pairs_lookup_sound(m, s2);
    if pairs_lookup(m, s1) is None && pairs_lookup(m, s2) is None {
        assert(rename_state(m, s1) == s1);
        assert(rename_state(m, s2) == s2);
        assert(false);
    }
    if pairs_lookup(m, s1) is Some && pairs_lookup(m, s2) is None {
        let v = pairs_lookup(m, s1).unwrap();
        let idx = choose|idx: int| 0 <= idx < m.len() && m[idx] == (s1, v);
        assert(key_in_multi_class(cls, m[idx].0));
        let c1 = choose|ci: int|
            0 <= ci < cls.len() && (#[trigger] cls[ci]).len() >= 2 && cls[ci].contains(s1);
        lemma_rename_mapped(cls, m, s1, c1);
        assert(cls[c1].contains(rename_state(m, s1)));
        assert(rename_state(m, s2) == s2);
        assert(cls[c1].contains(s2));
        assert(pairs_lookup(m, s2) == Some(rename_state(m, s1)));
        assert(false);
    }
    if pairs_lookup(m, s1) is None && pairs_lookup(m, s2) is Some {
        let v = pairs_lookup(m, s2).unwrap();
        let idx = choose|idx: int| 0 <= idx < m.len() && m[idx] == (s2, v);
        assert(key_in_multi_class(cls, m[idx].0));
        let c2 = choose|ci: int|
            0 <= ci < cls.len() && (#[trigger] cls[ci]).len() >= 2 && cls[ci].contains(s2);
        lemma_rename_mapped(cls, m, s2, c2);
        assert(cls[c2].contains(rename_state(m, s2)));
        assert(rename_state(m, s1) == s1);
        assert(cls[c2].contains(s1));
        assert(pairs_lookup(m, s1) == Some(rename_state(m, s2)));
        assert(false);
    }
    let v1 = pairs_lookup(m, s1).unwrap();
    let idx1 = choose|idx: int| 0 <= idx < m.len() && m[idx] == (s1, v1);
    assert(key_in_multi_class(cls, m[idx1].0));
    let c1 = choose|ci: int|
        0 <= ci < cls.len() && (#[trigger] cls[ci]).len() >= 2 && cls[ci].contains(s1);
    let v2 = pairs_lookup(m, s2).unwrap();
    let idx2 = choose|idx: int| 0 <= idx < m.len() && m[idx] == (s2, v2);
    assert(key_in_multi_class(cls, m[idx2].0));
    let c2 = choose|ci: int|
        0 <= ci < cls.len() && (#[trigger] cls[ci]).len() >= 2 && cls[ci].contains(s2);
    lemma_rename_mapped(cls, m, s1, c1);
    lemma_rename_mapped(cls, m, s2, c2);
    assert(cls[c1].contains(rename_state(m, s1)));
    assert(cls[c2].contains(rename_state(m, s2)));
    if c1 != c2 {
        assert(!cls[c2].contains(rename_state(m, s1)));
        assert(false);
    }
    c1
}

/// The renamed target of a classified state is determined by its class.
proof fn lemma_rename_of_classified(
    cls: Seq<Seq<Seq<char>>>,
    m: Seq<(Seq<char>, Seq<char>)>,
    x: Seq<char>,
    y: Seq<char>,
    i: int,
)
    requires
        renaming_matches_classes(cls, m),
        classes_wf(cls),
        0 <= i < cls.len(),
        cls[i].contains(x),
        cls[i].contains(y),
    ensures
        rename_state(m, x) == rename_state(m, y),
{
    if cls[i].len() >= 2 {
        lemma_rename_mapped(cls, m, x, i);
        lemma_rename_mapped(cls, m, y, i);
        assert(pairs_lookup(m, x) == Some(rename_state(m, x)));
        assert(pairs_lookup(m, y) == Some(rename_state(m, x)));
    } else {
        let xi = choose|k: int| 0 <= k < cls[i].len() && cls[i][k] == x;
        let yi = choose|k: int| 0 <= k < cls[i].len() && cls[i][k] == y;
        assert(xi == 0 && yi == 0);
        assert(x == y);
    }
}

/// From a refined, covering partition and its canonical renaming list, the
/// renaming has all the properties `minimize` promises of it.
#[verifier::rlimit(60)]
proof fn lemma_renaming_from_classes(
    ts: Seq<SpecTransition>,
    acc: Seq<Seq<char>>,
    cls: Seq<Seq<Seq<char>>>,
    sym: Seq<char>,
    m: Seq<(Seq<char>, Seq<char>)>,
)
    requires
        classes_wf(cls),
        classes_disjoint(cls),
        classes_within(cls, ts, acc),
        classes_cover(cls, ts, acc),
        classes_respect_accept(cls, acc),
        classes_complete(cls, ts, acc),
        classes_stable(cls, ts, sym),
        forall|c: char| #[trigger] sym.contains(c) <==> alphabet_has(ts, c),
        renaming_matches_classes(cls, m),
    ensures
        renaming_well_formed(ts, acc, m),
        renaming_stable(ts, m),
        renaming_respects_accept(ts, acc, m),
        renaming_complete(ts, acc, m),
{
    // well-formedness, entry by entry
    assert forall|i: int| 0 <= i < m.len() implies relevant_state(ts, acc, (#[trigger] m[i]).0)
        && pairs_lookup(m, m[i].1) == Some(m[i].1) && lex_le(m[i].1, m[i].0) by {
        assert(key_in_multi_class(cls, m[i].0));
        let ci = choose|ci: int|
            0 <= ci < cls.len() && (#[trigger] cls[ci]).len() >= 2 && cls[ci].contains(m[i].0);
        assert(cls[ci].contains(m[i].0));
        assert(relevant_state(ts, acc, m[i].0));
        assert forall|j: int| 0 <= j < m.len() && j != i implies (#[trigger] m[j]).0 != m[i].0 by {
            assert(pairs_keys(m)[j] == m[j].0);
            assert(pairs_keys(m)[i] == m[i].0);
        }
        lemma_pairs_lookup_at(m, i);
        lemma_rename_mapped(cls, m, m[i].0, ci);
        assert(pairs_lookup(m, m[i].0) == Some(rename_state(m, m[i].0)));
        assert(m[i].1 == rename_state(m, m[i].0));
    }
    assert forall|i: int| 0 <= i < m.len() implies exists|j: int|
        0 <= j < m.len() && (#[trigger] m[j]).1 == (#[trigger] m[i]).1 && m[j].0 != m[i].1 by {
        assert(key_in_multi_class(cls, m[i].0));
        let ci = choose|ci: int|
            0 <= ci < cls.len() && (#[trigger] cls[ci]).len() >= 2 && cls[ci].contains(m[i].0);
        lemma_rename_mapped(cls, m, m[i].0, ci);
        let v = rename_state(m, m[i].0);
        assert(m[i].1 == v) by {
            assert forall|j: int| 0 <= j < m.len() && j != i implies (#[trigger] m[j]).0
                != m[i].0 by {
                assert(pairs_keys(m)[j] == m[j].0);
                assert(pairs_keys(m)[i] == m[i].0);
            }
            lemma_pairs_lookup_at(m, i);
        }
        let x0 = cls[ci][0];
        let x1 = cls[ci][1];
        assert(cls[ci].contains(x0));
        assert(cls[ci].contains(x1));
        assert(x0 != x1);
        let w = if x0 != v {
            x0
        } else {
            x1
        };
        assert(cls[ci].contains(w) && w != v);
        assert(pairs_lookup(m, w) == Some(v));
        lemma_pairs_lookup_sound(m, w);
        let j = choose|j: int| 0 <= j < m.len() && m[j] == (w, v);
        assert(m[j].1 == m[i].1 && m[j].0 != m[i].1);
    }
    // stability
    assert forall|s1: Seq<char>, s2: Seq<char>, c: char|
        #![trigger rename_state(m, s1), rename_state(m, s2), alphabet_has(ts, c)]
        rename_state(m, s1) == rename_state(m, s2) && alphabet_has(ts, c) implies next_names_agree(
        ts,
        m,
        s1,
        s2,
        c,
    ) by {
        assert(sym.contains(c));
        if s1 == s2 {
            match spec_lookup(ts, s1, c) {
                Some(t1) => {},
                None => {},
            }
        } else {
            let ci = lemma_rename_eq_same_class(cls, m, s1, s2);
            assert(spec_indistinguishable(ts, cls, sym, s1, s2));
            assert(next_class(ts, cls, s1, c) == next_class(ts, cls, s2, c));
            match (spec_lookup(ts, s1, c), spec_lookup(ts, s2, c)) {
                (Some(t1), Some(t2)) => {
                    lemma_lookup_sound(ts, s1, c);
                    lemma_lookup_sound(ts, s2, c);
                    let i1 = choose|i: int| 0 <= i < ts.len() && ts[i] == t1;
                    let i2 = choose|i: int| 0 <= i < ts.len() && ts[i] == t2;
                    assert(ts[i1].state == t1.next_state || ts[i1].next_state == t1.next_state);
                    assert(ts[i2].state == t2.next_state || ts[i2].next_state == t2.next_state);
                    assert(state_in_transitions(ts, t1.next_state));
                    assert(state_in_transitions(ts, t2.next_state));
                    assert(relevant_state(ts, acc, t1.next_state));
                    assert(relevant_state(ts, acc, t2.next_state));
                    assert(in_some_class(cls, t1.next_state));
                    assert(in_some_class(cls, t2.next_state));
                    let k1 = choose|k: int|
                        0 <= k < cls.len() && (#[trigger] cls[k]).contains(t1.next_state);
                    let k2 = choose|k: int|
                        0 <= k < cls.len() && (#[trigger] cls[k]).contains(t2.next_state);
                    lemma_class_index_unique(cls, t1.next_state, k1);
                    lemma_class_index_unique(cls, t2.next_state, k2);
                    assert(k1 == k2);
                    lemma_rename_of_classified(cls, m, t1.next_state, t2.next_state, k1);
                },
                (None, None) => {},
                (Some(t1), None) => {
                    lemma_lookup_sound(ts, s1, c);
                    let i1 = choose|i: int| 0 <= i < ts.len() && ts[i] == t1;
                    assert(ts[i1].state == t1.next_state || ts[i1].next_state == t1.next_state);
                    assert(state_in_transitions(ts, t1.next_state));
                    assert(relevant_state(ts, acc, t1.next_state));
                    assert(in_some_class(cls, t1.next_state));
                    let k1 = choose|k: int|
                        0 <= k < cls.len() && (#[trigger] cls[k]).contains(t1.next_state);
                    lemma_class_index_unique(cls, t1.next_state, k1);
                    assert(next_class(ts, cls, s1, c) == Some(k1));
                    assert(next_class(ts, cls, s2, c) is None);
                    assert(false);
                },
                (None, Some(t2)) => {
                    lemma_lookup_sound(ts, s2, c);
                    let i2 = choose|i: int| 0 <= i < ts.len() && ts[i] == t2;
                    assert(ts[i2].state == t2.next_state || ts[i2].next_state == t2.next_state);
                    assert(state_in_transitions(ts, t2.next_state));
                    assert(relevant_state(ts, acc, t2.next_state));
                    assert(in_some_class(cls, t2.next_state));
                    let k2 = choose|k: int|
                        0 <= k < cls.len() && (#[trigger] cls[k]).contains(t2.next_state);
                    lemma_class_index_unique(cls, t2.next_state, k2);
                    assert(next_class(ts, cls, s2, c) == Some(k2));
                    assert(next_class(ts, cls, s1, c) is None);
                    assert(false);
                },
            }
        }
    }
    // acceptance respect
    assert forall|s1: Seq<char>, s2: Seq<char>|
        #![trigger rename_state(m, s1), rename_state(m, s2)]
        relevant_state(ts, acc, s1) && relevant_state(ts, acc, s2) && rename_state(m, s1)
            == rename_state(m, s2) implies (accept_contains(acc, s1) <==> accept_contains(
        acc,
        s2,
    )) by {
        if s1 != s2 {
            let ci = lemma_rename_eq_same_class(cls, m, s1, s2);
            assert(cls[ci].contains(s1) && cls[ci].contains(s2));
        }
    }
    // completeness
    assert forall|s1: Seq<char>, s2: Seq<char>|
        relevant_state(ts, acc, s1) && relevant_state(ts, acc, s2) && #[trigger] obs_equiv(
            ts,
            acc,
            s1,
            s2,
        ) implies rename_state(m, s1) == rename_state(m, s2) by {
        assert(same_class(cls, s1, s2));
        let ci = choose|i: int|
            0 <= i < cls.len() && (#[trigger] cls[i]).contains(s1) && cls[i].contains(s2);
        lemma_rename_of_classified(cls, m, s1, s2, ci);
    }
}

/// The new name of a state under a renaming list: the value of its first
/// matching entry, or the state itself when no entry matches.
pub fn map_name(renaming: &Vec<(String, String)>, s: &String) -> (r: String)
    ensures
        r@ == rename_state(pairs_view(renaming@), s@),
{
    let ghost mv = pairs_view(renaming@);
    let n = renaming.len();
    let mut i: usize = 0;
    while i < n
        invariant
            n == renaming@.len(),
            mv == pairs_view(renaming@),
            0 <= i <= n,
            forall|j: int| 0 <= j < i ==> (#[trigger] mv[j]).0 != s@,
        decreases n - i,
    {
        proof {
            assert(mv[i as int] == (renaming@[i as int].0@, renaming@[i as int].1@));
        }
        if renaming[i].0 == *s {
            proof {
                lemma_pairs_lookup_first(mv, s@, i as int);
            }
            return renaming[i].1.clone();
        }
        i += 1;
    }
    proof {
        lemma_pairs_lookup_none(mv, s@);
    }
    s.clone()
}

/// The lexicographically smallest member of a nonempty class.
pub fn lexically_smallest(class: &Vec<String>) -> (r: String)
    requires
        class@.len() >= 1,
    ensures
        views_of_strings(class@).contains(r@),
        forall|x: Seq<char>| #[trigger] views_of_strings(class@).contains(x) ==> lex_le(r@, x),
{
    let ghost cv = views_of_strings(class@);
    let mut best = class[0].clone();
    proof {
        assert(best@ == cv[0]);
    }
    let n = class.len();
    let mut k: usize = 1;
    while k < n
        invariant
            n == cv.len(),
            cv == views_of_strings(class@),
            1 <= k <= n,
            cv.contains(best@),
            forall|j: int| 0 <= j < k ==> lex_le(best@, #[trigger] cv[j]),
        decreases n - k,
    {
        proof {
            assert(class@[k as int]@ == cv[k as int]);
        }
        if str_lt(class[k].as_str(), best.as_str()) {
            let newbest = class[k].clone();
            proof {
                lemma_lex_trichotomy(newbest@, best@);
                assert forall|j: int| 0 <= j < k + 1 implies lex_le(newbest@, #[trigger] cv[j]) by {
                    if j < k {
                        lemma_lex_le_trans(newbest@, best@, cv[j]);
                    }
                }
                assert(cv[k as int] == newbest@);
            }
            best = newbest;
        } else {
            proof {
                lemma_lex_trichotomy(cv[k as int], best@);
            }
        }
        k += 1;
    }
    proof {
        assert forall|x: Seq<char>| #[trigger] cv.contains(x) implies lex_le(best@, x) by {
            let j = choose|j: int| 0 <= j < cv.len() && cv[j] == x;
        }
    }
    best
}

/// Every class is nonempty and lists each member once.
pub open spec fn classes_wf(cls: Seq<Seq<Seq<char>>>) -> bool {
    forall|i: int| 0 <= i < cls.len() ==> (#[trigger] cls[i]).len() >= 1 && cls[i].no_duplicates()
}

/// No state sits in two classes.
pub open spec fn classes_disjoint(cls: Seq<Seq<Seq<char>>>) -> bool {
    forall|i: int, j: int, s: Seq<char>|
        #![trigger cls[i].contains(s), cls[j].contains(s)]
        0 <= i < cls.len() && 0 <= j < cls.len() && i != j && cls[i].contains(s) ==> !cls[j].contains(
            s,
        )
}

/// `s` sits in some class.
pub open spec fn in_some_class(cls: Seq<Seq<Seq<char>>>, s: Seq<char>) -> bool {
    exists|i: int| 0 <= i < cls.len() && (#[trigger] cls[i]).contains(s)
}

/// Some class holds both states.
pub open spec fn same_class(cls: Seq<Seq<Seq<char>>>, s1: Seq<char>, s2: Seq<char>) -> bool {
    exists|i: int| 0 <= i < cls.len() && (#[trigger] cls[i]).contains(s1) && cls[i].contains(s2)
}

/// Every classified state is one the minimizer acts on.
pub open spec fn classes_within(
    cls: Seq<Seq<Seq<char>>>,
    ts: Seq<SpecTransition>,
    accept: Seq<Seq<char>>,
) -> bool {
    forall|i: int, s: Seq<char>|
        0 <= i < cls.len() && #[trigger] cls[i].contains(s) ==> relevant_state(ts, accept, s)
}

/// Every state the minimizer acts on is classified.
pub open spec fn classes_cover(
    cls: Seq<Seq<Seq<char>>>,
    ts: Seq<SpecTransition>,
    accept: Seq<Seq<char>>,
) -> bool {
    forall|s: Seq<char>| #[trigger] relevant_state(ts, accept, s) ==> in_some_class(cls, s)
}

/// No class mixes accept states with other states.
pub open spec fn classes_respect_accept(cls: Seq<Seq<Seq<char>>>, accept: Seq<Seq<char>>) -> bool {
    forall|i: int, s1: Seq<char>, s2: Seq<char>|
        #![trigger cls[i].contains(s1), cls[i].contains(s2)]
        0 <= i < cls.len() && cls[i].contains(s1) && cls[i].contains(s2) ==> (accept_contains(
            accept,
            s1,
        ) <==> accept_contains(accept, s2))
}

/// Observably equivalent states always share a class.
pub open spec fn classes_complete(
    cls: Seq<Seq<Seq<char>>>,
    ts: Seq<SpecTransition>,
    accept: Seq<Seq<char>>,
) -> bool {
    forall|s1: Seq<char>, s2: Seq<char>|
        relevant_state(ts, accept, s1) && relevant_state(ts, accept, s2) && #[trigger] obs_equiv(
            ts,
            accept,
            s1,
            s2,
        ) ==> same_class(cls, s1, s2)
}

/// The partition no longer distinguishes two members of any class.
pub open spec fn classes_stable(
    cls: Seq<Seq<Seq<char>>>,
    ts: Seq<SpecTransition>,
    symbols: Seq<char>,
) -> bool {
    forall|i: int, s1: Seq<char>, s2: Seq<char>|
        #![trigger cls[i].contains(s1), cls[i].contains(s2)]
        0 <= i < cls.len() && cls[i].contains(s1) && cls[i].contains(s2)
            ==> spec_indistinguishable(ts, cls, symbols, s1, s2)
}

/// The member count of a partition.
pub open spec fn sum_len(cls: Seq<Seq<Seq<char>>>) -> int
    decreases cls.len(),
{
    if cls.len() == 0 {
        0
    } else {
        cls[0].len() + sum_len(cls.drop_first())
    }
}

pub proof fn lemma_sum_len_push(cls: Seq<Seq<Seq<char>>>, c: Seq<Seq<char>>)
    ensures
        sum_len(cls.push(c)) == sum_len(cls) + c.len(),
    decreases cls.len(),
{
    if cls.len() == 0 {
        assert(cls.push(c)[0] == c);
        assert(cls.push(c).drop_first() =~= Seq::<Seq<Seq<char>>>::empty());
        assert(sum_len(Seq::<Seq<Seq<char>>>::empty()) == 0);
    } else {
        assert(cls.push(c)[0] == cls[0]);
        assert(cls.push(c).drop_first() =~= cls.drop_first().push(c));
        lemma_sum_len_push(cls.drop_first(), c);
    }
}

pub proof fn lemma_sum_len_update(cls: Seq<Seq<Seq<char>>>, i: int, c: Seq<Seq<char>>)
    requires
        0 <= i < cls.len(),
    ensures
        sum_len(cls.update(i, c)) == sum_len(cls) - cls[i].len() + c.len(),
    decreases cls.len(),
{
    if i == 0 {
        assert(cls.update(0, c)[0] == c);
        assert(cls.update(0, c).drop_first() =~= cls.drop_first());
    } else {
        assert(cls.update(i, c)[0] == cls[0]);
        assert(cls.update(i, c).drop_first() =~= cls.drop_first().update(i - 1, c));
        lemma_sum_len_update(cls.drop_first(), i - 1, c);
    }
}

pub proof fn lemma_sum_len_append(a: Seq<Seq<Seq<char>>>, b: Seq<Seq<Seq<char>>>)
    ensures
        sum_len(a + b) == sum_len(a) + sum_len(b),
    decreases a.len(),
{
    if a.len() == 0 {
        assert(a + b =~= b);
    } else {
        assert((a + b)[0] == a[0]);
        assert((a + b).drop_first() =~= a.drop_first() + b);
        lemma_sum_len_append(a.drop_first(), b);
    }
}

pub proof fn lemma_len_le_sum(cls: Seq<Seq<Seq<char>>>)
    requires
        forall|i: int| 0 <= i < cls.len() ==> (#[trigger] cls[i]).len() >= 1,
    ensures
        cls.len() <= sum_len(cls),
        sum_len(cls) >= 0,
    decreases cls.len(),
{
    if cls.len() > 0 {
        assert(forall|i: int|
            0 <= i < cls.drop_first().len() ==> #[trigger] cls.drop_first()[i] == cls[i + 1]);
        lemma_len_le_sum(cls.drop_first());
    }
}

/// A state found in exactly one class has that class as its index.
pub proof fn lemma_class_index_unique(cls: Seq<Seq<Seq<char>>>, s: Seq<char>, i: int)
    requires
        classes_disjoint(cls),
        0 <= i < cls.len(),
        cls[i].contains(s),
    ensures
        class_index(cls, s) == Some(i),
{
    lemma_class_index_sound(cls, s);
    match class_index(cls, s) {
        Some(k) => {
            if k != i {
                assert(cls[k].contains(s));
                assert(!cls[i].contains(s));
            }
        },
        None => {
            assert(!cls[i].contains(s));
        },
    }
}

/// Under a partition that already keeps observably equivalent states
/// together, two observably equivalent states are indistinguishable.
pub proof fn lemma_obs_indist(
    ts: Seq<SpecTransition>,
    accept: Seq<Seq<char>>,
    cls: Seq<Seq<Seq<char>>>,
    symbols: Seq<char>,
    x: Seq<char>,
    y: Seq<char>,
)
    requires
        classes_disjoint(cls),
        classes_complete(cls, ts, accept),
        obs_equiv(ts, accept, x, y),
    ensures
        spec_indistinguishable(ts, cls, symbols, x, y),
{
    if x != y {
        assert forall|c: char| symbols.contains(c) implies next_class(ts, cls, x, c) == next_class(
            ts,
            cls,
            y,
            c,
        ) by {
            lemma_obs_equiv_lookup(ts, accept, x, y, c);
            match (spec_lookup(ts, x, c), spec_lookup(ts, y, c)) {
                (Some(t1), Some(t2)) => {
                    lemma_obs_equiv_step(ts, accept, x, y, c, t1, t2);
                    lemma_lookup_sound(ts, x, c);
                    lemma_lookup_sound(ts, y, c);
                    let i1 = choose|i: int| 0 <= i < ts.len() && ts[i] == t1;
                    let i2 = choose|i: int| 0 <= i < ts.len() && ts[i] == t2;
                    assert(ts[i1].state == t1.next_state || ts[i1].next_state == t1.next_state);
                    assert(ts[i2].state == t2.next_state || ts[i2].next_state == t2.next_state);
                    assert(state_in_transitions(ts, t1.next_state));
                    assert(state_in_transitions(ts, t2.next_state));
                    assert(relevant_state(ts, accept, t1.next_state));
                    assert(relevant_state(ts, accept, t2.next_state));
                    assert(same_class(cls, t1.next_state, t2.next_state));
                    let i = choose|i: int|
                        0 <= i < cls.len() && (#[trigger] cls[i]).contains(t1.next_state)
                            && cls[i].contains(t2.next_state);
                    lemma_class_index_unique(cls, t1.next_state, i);
                    lemma_class_index_unique(cls, t2.next_state, i);
                },
                (None, None) => {},
                _ => {
                    assert(false);
                },
            }
        }
    }
}

/// The views of a list of classes of states.
pub open spec fn views_of_classes(v: Seq<Vec<String>>) -> Seq<Seq<Seq<char>>> {
    v.map_values(|c: Vec<String>| views_of_strings(c@))
}

/// The first class containing `s`, by index.
pub open spec fn class_index(classes: Seq<Seq<Seq<char>>>, s: Seq<char>) -> Option<int>
    decreases classes.len(),
{
    if classes.len() == 0 {
        None
    } else if classes[0].contains(s) {
        Some(0 as int)
    } else {
        match class_index(classes.drop_first(), s) {
            Some(i) => Some(i + 1),
            None => None,
        }
    }
}

pub proof fn lemma_class_index_at(classes: Seq<Seq<Seq<char>>>, s: Seq<char>, i: int)
    requires
        0 <= i < classes.len(),
        classes[i].contains(s),
        forall|j: int| 0 <= j < i ==> !(#[trigger] classes[j]).contains(s),
    ensures
        class_index(classes, s) == Some(i),
    decreases classes.len(),
{
    if i > 0 {
        assert(!classes[0].contains(s));
        assert(forall|j: int|
            0 <= j < i - 1 ==> classes.drop_first()[j] == #[trigger] classes[j + 1]);
        lemma_class_index_at(classes.drop_first(), s, i - 1);
    }
}

pub proof fn lemma_class_index_none(classes: Seq<Seq<Seq<char>>>, s: Seq<char>)
    requires
        forall|j: int| 0 <= j < classes.len() ==> !(#[trigger] classes[j]).contains(s),
    ensures
        class_index(classes, s) is None,
    decreases classes.len(),
{
    if classes.len() > 0 {
        lemma_class_index_none(classes.drop_first(), s);
    }
}

pub proof fn lemma_class_index_sound(classes: Seq<Seq<Seq<char>>>, s: Seq<char>)
    ensures
        match class_index(classes, s) {
            Some(i) => 0 <= i < classes.len() && classes[i].contains(s) && forall|j: int|
                0 <= j < i ==> !(#[trigger] classes[j]).contains(s),
            None => forall|j: int| 0 <= j < classes.len() ==> !(#[trigger] classes[j]).contains(s),
        },
    decreases classes.len(),
{
    if classes.len() > 0 && !classes[0].contains(s) {
        lemma_class_index_sound(classes.drop_first(), s);
        assert(forall|j: int|
            1 <= j < classes.len() ==> classes.drop_first()[j - 1] == #[trigger] classes[j]);
    }
}

/// The class the automaton moves to from `s` on symbol `c`: the first class
/// holding the target of the applicable rule. `None` when no rule applies,
/// and also when the target sits in no class.
pub open spec fn next_class(
    ts: Seq<SpecTransition>,
    classes: Seq<Seq<Seq<char>>>,
    s: Seq<char>,
    c: char,
) -> Option<int> {
    match spec_lookup(ts, s, c) {
        Some(t) => class_index(classes, t.next_state),
        None => None,
    }
}

/// Two states the current partition cannot tell apart: on every symbol of
/// the working alphabet they move to the same class, where "no applicable
/// rule" agrees only with "no applicable rule".
pub open spec fn spec_indistinguishable(
    ts: Seq<SpecTransition>,
    classes: Seq<Seq<Seq<char>>>,
    symbols: Seq<char>,
    s1: Seq<char>,
    s2: Seq<char>,
) -> bool {
    s1 == s2 || forall|c: char|
        #[trigger] symbols.contains(c) ==> next_class(ts, classes, s1, c) == next_class(
            ts,
            classes,
            s2,
            c,
        )
}

/// Indistinguishability under a fixed partition is reflexive, symmetric and
/// transitive.
pub proof fn lemma_indist_equivalence(
    ts: Seq<SpecTransition>,
    classes: Seq<Seq<Seq<char>>>,
    symbols: Seq<char>,
    x: Seq<char>,
    y: Seq<char>,
    z: Seq<char>,
)
    ensures
        spec_indistinguishable(ts, classes, symbols, x, x),
        spec_indistinguishable(ts, classes, symbols, x, y) ==> spec_indistinguishable(
            ts,
            classes,
            symbols,
            y,
            x,
        ),
        spec_indistinguishable(ts, classes, symbols, x, y) && spec_indistinguishable(
            ts,
            classes,
            symbols,
            y,
            z,
        ) ==> spec_indistinguishable(ts, classes, symbols, x, z),
{
}

/// The index of the first class containing `state`, if any.
pub fn find_class_index(classes: &Vec<Vec<String>>, state: &String) -> (r: Option<usize>)
    ensures
        match r {
            Some(ci) => class_index(views_of_classes(classes@), state@) == Some(ci as int),
            None => class_index(views_of_classes(classes@), state@) is None,
        },
{
    let ghost cls = views_of_classes(classes@);
    let n = classes.len();
    let mut ci: usize = 0;
    while ci < n
        invariant
            n == classes.len(),
            cls == views_of_classes(classes@),
            0 <= ci <= n,
            forall|j: int| 0 <= j < ci ==> !(#[trigger] cls[j]).contains(state@),
        decreases n - ci,
    {
        proof {
            assert(cls[ci as int] == views_of_strings(classes@[ci as int]@));
        }
        if vec_str_contains(&classes[ci], state) {
            proof {
                lemma_class_index_at(cls, state@, ci as int);
            }
            return Some(ci);
        }
        ci += 1;
    }
    proof {
        lemma_class_index_none(cls, state@);
    }
    None
}

impl Dfa {
    /// The first bucket whose representative cannot be told apart from
    /// `state` by the current partition.
    fn find_bucket(
        &self,
        state: &String,
        buckets: &Vec<Vec<String>>,
        all_input_symbols: &Vec<char>,
        equivalence_classes: &Vec<Vec<String>>,
    ) -> (r: Option<usize>)
        requires
            forall|b: int|
                0 <= b < buckets@.len() ==> (#[trigger] views_of_classes(buckets@)[b]).len() >= 1,
        ensures
            match r {
                Some(b) => 0 <= b < buckets@.len() && spec_indistinguishable(
                    self@.transitions,
                    views_of_classes(equivalence_classes@),
                    all_input_symbols@,
                    state@,
                    views_of_classes(buckets@)[b as int][0],
                ) && forall|bb: int|
                    0 <= bb < b ==> !spec_indistinguishable(
                        self@.transitions,
                        views_of_classes(equivalence_classes@),
                        all_input_symbols@,
                        state@,
                        (#[trigger] views_of_classes(buckets@)[bb])[0],
                    ),
                None => forall|bb: int|
                    0 <= bb < buckets@.len() ==> !spec_indistinguishable(
                        self@.transitions,
                        views_of_classes(equivalence_classes@),
                        all_input_symbols@,
                        state@,
                        (#[trigger] views_of_classes(buckets@)[bb])[0],
                    ),
            },
    {
        let ghost ts = self@.transitions;
        let ghost cls = views_of_classes(equivalence_classes@);
        let ghost sym = all_input_symbols@;
        let ghost bks = views_of_classes(buckets@);
        let n = buckets.len();
        let mut b: usize = 0;
        while b < n
            invariant
                n == buckets@.len(),
                ts == self@.transitions,
                cls == views_of_classes(equivalence_classes@),
                sym == all_input_symbols@,
                bks == views_of_classes(buckets@),
                forall|bb: int| 0 <= bb < n ==> (#[trigger] bks[bb]).len() >= 1,
                0 <= b <= n,
                forall|bb: int|
                    0 <= bb < b ==> !spec_indistinguishable(
                        ts,
                        cls,
                        sym,
                        state@,
                        (#[trigger] bks[bb])[0],
                    ),
            decreases n - b,
        {
            proof {
                assert(bks[b as int] == views_of_strings(buckets@[b as int]@));
                assert(buckets@[b as int]@.len() == bks[b as int].len());
            }
            let rep = &buckets[b][0];
            proof {
                assert(rep@ == bks[b as int][0]);
            }
            if self.are_states_indistinguishable(
                state.as_str(),
                rep.as_str(),
                all_input_symbols,
                equivalence_classes,
            ) {
                return Some(b);
            }
            b += 1;
        }
        None
    }

    /// Splits one class of the current partition into its groups of mutually
    /// indistinguishable members. Each member joins the first group whose
    /// representative it cannot be told apart from, so the groups are exactly
    /// the equivalence classes of indistinguishability within the class.
    fn split_class(
        &self,
        class: &Vec<String>,
        all_input_symbols: &Vec<char>,
        equivalence_classes: &Vec<Vec<String>>,
    ) -> (r: Vec<Vec<String>>)
        requires
            views_of_strings(class@).no_duplicates(),
        ensures
            classes_wf(views_of_classes(r@)),
            classes_disjoint(views_of_classes(r@)),
            forall|b: int, x: Seq<char>|
                0 <= b < views_of_classes(r@).len() && #[trigger] views_of_classes(
                    r@,
                )[b].contains(x) ==> views_of_strings(class@).contains(x),
            forall|x: Seq<char>|
                #[trigger] views_of_strings(class@).contains(x) ==> in_some_class(
                    views_of_classes(r@),
                    x,
                ),
            forall|b: int, x: Seq<char>, y: Seq<char>|
                #![trigger views_of_classes(r@)[b].contains(x), views_of_classes(r@)[b].contains(y)]
                0 <= b < views_of_classes(r@).len() && views_of_classes(r@)[b].contains(x)
                    && views_of_classes(r@)[b].contains(y) ==> spec_indistinguishable(
                    self@.transitions,
                    views_of_classes(equivalence_classes@),
                    all_input_symbols@,
                    x,
                    y,
                ),
            forall|x: Seq<char>, y: Seq<char>|
                views_of_strings(class@).contains(x) && views_of_strings(class@).contains(y)
                    && #[trigger] spec_indistinguishable(
                    self@.transitions,
                    views_of_classes(equivalence_classes@),
                    all_input_symbols@,
                    x,
                    y,
                ) ==> same_class(views_of_classes(r@), x, y),
            sum_len(views_of_classes(r@)) == views_of_strings(class@).len(),
    {
        let ghost ts = self@.transitions;
        let ghost cls = views_of_classes(equivalence_classes@);
        let ghost sym = all_input_symbols@;
        let ghost cv = views_of_strings(class@);
        let mut buckets: Vec<Vec<String>> = Vec::new();
        proof {
            assert(views_of_classes(buckets@) =~= Seq::<Seq<Seq<char>>>::empty());
            assert(sum_len(views_of_classes(buckets@)) == 0);
            assert(cv.take(0) =~= Seq::<Seq<char>>::empty());
        }
        let n = class.len();
        let mut k: usize = 0;
        while k < n
            invariant
                n == class@.len(),
                ts == self@.transitions,
                cls == views_of_classes(equivalence_classes@),
                sym == all_input_symbols@,
                cv == views_of_strings(class@),
                cv.no_duplicates(),
                0 <= k <= n,
                classes_wf(views_of_classes(buckets@)),
                classes_disjoint(views_of_classes(buckets@)),
                forall|b: int, x: Seq<char>|
                    0 <= b < views_of_classes(buckets@).len() && #[trigger] views_of_classes(
                        buckets@,
                    )[b].contains(x) ==> cv.take(k as int).contains(x),
                forall|kk: int|
                    0 <= kk < k ==> in_some_class(views_of_classes(buckets@), #[trigger] cv[kk]),
                forall|b: int, x: Seq<char>|
                    0 <= b < views_of_classes(buckets@).len() && #[trigger] views_of_classes(
                        buckets@,
                    )[b].contains(x) ==> spec_indistinguishable(
                        ts,
                        cls,
                        sym,
                        views_of_classes(buckets@)[b][0],
                        x,
                    ),
                forall|b1: int, b2: int|
                    0 <= b1 < views_of_classes(buckets@).len() && 0 <= b2 < views_of_classes(
                        buckets@,
                    ).len() && b1 != b2 ==> !spec_indistinguishable(
                        ts,
                        cls,
                        sym,
                        (#[trigger] views_of_classes(buckets@)[b1])[0],
                        (#[trigger] views_of_classes(buckets@)[b2])[0],
                    ),
                sum_len(views_of_classes(buckets@)) == k,
            decreases n - k,
        {
            let ghost prev = views_of_classes(buckets@);
            let s = &class[k];
            proof {
                assert(s@ == cv[k as int]);
                assert(!cv.take(k as int).contains(s@)) by {
                    if cv.take(k as int).contains(s@) {
                        let kk = choose|kk: int|
                            0 <= kk < k && #[trigger] cv.take(k as int)[kk] == s@;
                        assert(cv[kk] == cv[k as int]);
                    }
                }
                cv.lemma_take_succ_push(k as int);
            }
            match self.find_bucket(s, &buckets, all_input_symbols, equivalence_classes) {
                Some(b) => {
                    buckets[b].push(s.clone());
                    proof {
                        let cur = views_of_classes(buckets@);
                        assert(cur =~~= prev.update(b as int, prev[b as int].push(s@)));
                        lemma_sum_len_update(prev, b as int, prev[b as int].push(s@));
                        assert forall|bi: int, x: Seq<char>|
                            0 <= bi < cur.len() && #[trigger] cur[bi].contains(x) implies (
                        prev[bi].contains(x) || (bi == b as int && x == s@)) by {
                            if bi == b as int {
                                let xi = choose|xi: int| 0 <= xi < cur[bi].len() && cur[bi][xi] == x;
                                if xi < prev[bi].len() {
                                    assert(prev[bi][xi] == x);
                                }
                            }
                        }
                        assert forall|bi: int, x: Seq<char>|
                            0 <= bi < cur.len() && prev[bi].contains(x) implies #[trigger] cur[bi].contains(
                            x,
                        ) by {
                            let xi = choose|xi: int| 0 <= xi < prev[bi].len() && prev[bi][xi] == x;
                            assert(cur[bi][xi] == x);
                        }
                        assert(cur[b as int].contains(s@)) by {
                            assert(cur[b as int][prev[b as int].len() as int] == s@);
                        }
                        assert forall|bi: int| 0 <= bi < cur.len() implies (#[trigger] cur[bi]).len()
                            >= 1 && cur[bi].no_duplicates() by {
                            if bi == b as int {
                                assert forall|p: int, q: int|
                                    0 <= p < cur[bi].len() && 0 <= q < cur[bi].len() && p != q
                                    implies cur[bi][p] != cur[bi][q] by {
                                    if q == prev[bi].len() && p < prev[bi].len() {
                                        if cur[bi][p] == s@ {
                                            assert(prev[bi][p] == s@);
                                            assert(prev[bi].contains(s@));
                                        }
                                    } else if p == prev[bi].len() && q < prev[bi].len() {
                                        if cur[bi][q] == s@ {
                                            assert(prev[bi][q] == s@);
                                            assert(prev[bi].contains(s@));
                                        }
                                    }
                                }
                            }
                        }
                        assert(cur[b as int][0] == prev[b as int][0]);
                        assert forall|kk: int| 0 <= kk < k + 1 implies in_some_class(
                            cur,
                            #[trigger] cv[kk],
                        ) by {
                            if kk < k {
                                let bi = choose|bi: int|
                                    0 <= bi < prev.len() && (#[trigger] prev[bi]).contains(cv[kk]);
                                assert(cur[bi].contains(cv[kk]));
                            } else {
                                assert(cur[b as int].contains(s@));
                            }
                        }
                        assert forall|bi: int, x: Seq<char>|
                            0 <= bi < cur.len() && #[trigger] cur[bi].contains(x) implies cv.take(
                            k + 1,
                        ).contains(x) by {
                            if prev[bi].contains(x) {
                                assert(cv.take(k as int).contains(x));
                                let xi = choose|xi: int|
                                    0 <= xi < k && #[trigger] cv.take(k as int)[xi] == x;
                                assert(cv.take(k + 1)[xi] == x);
                            } else {
                                assert(x == s@);
                                assert(cv.take(k + 1)[k as int] == s@);
                            }
                        }
                    }
                },
                None => {
                    let mut nb: Vec<String> = Vec::new();
                    nb.push(s.clone());
                    proof {
                        assert(views_of_strings(nb@) =~= seq![s@]);
                    }
                    buckets.push(nb);
                    proof {
                        let cur = views_of_classes(buckets@);
                        assert(cur =~~= prev.push(seq![s@]));
                        lemma_sum_len_push(prev, seq![s@]);
                        assert(cur[prev.len() as int] == seq![s@]);
                        assert(cur[prev.len() as int][0] == s@);
                        assert(cur[prev.len() as int].contains(s@));
                        assert(forall|bi: int| 0 <= bi < prev.len() ==> #[trigger] cur[bi] == prev[bi]);
                        lemma_indist_equivalence(ts, cls, sym, s@, s@, s@);
                        assert forall|b1: int, b2: int|
                            0 <= b1 < cur.len() && 0 <= b2 < cur.len() && b1 != b2 implies
                            !spec_indistinguishable(
                            ts,
                            cls,
                            sym,
                            (#[trigger] cur[b1])[0],
                            (#[trigger] cur[b2])[0],
                        ) by {
                            if b1 == prev.len() && b2 < prev.len() {
                                lemma_indist_equivalence(ts, cls, sym, s@, prev[b2][0], s@);
                            } else if b2 == prev.len() && b1 < prev.len() {
                                lemma_indist_equivalence(ts, cls, sym, s@, prev[b1][0], s@);
                            }
                        }
                        assert forall|kk: int| 0 <= kk < k + 1 implies in_some_class(
                            cur,
                            #[trigger] cv[kk],
                        ) by {
                            if kk < k {
                                let bi = choose|bi: int|
                                    0 <= bi < prev.len() && (#[trigger] prev[bi]).contains(cv[kk]);
                                assert(cur[bi].contains(cv[kk]));
                            } else {
                                assert(cur[prev.len() as int].contains(s@));
                            }
                        }
                        assert forall|bi: int, x: Seq<char>|
                            0 <= bi < cur.len() && #[trigger] cur[bi].contains(x) implies cv.take(
                            k + 1,
                        ).contains(x) by {
                            if bi < prev.len() {
                                assert(prev[bi].contains(x));
                                assert(cv.take(k as int).contains(x));
                                let xi = choose|xi: int|
                                    0 <= xi < k && #[trigger] cv.take(k as int)[xi] == x;
                                assert(cv.take(k + 1)[xi] == x);
                            } else {
                                assert(cur[bi] == seq![s@]);
                                assert(x == s@);
                                assert(cv.take(k + 1)[k as int] == s@);
                            }
                        }
                    }
                },
            }
            k += 1;
        }
        proof {
            let fin = views_of_classes(buckets@);
            assert(cv.take(n as int) =~= cv);
            assert forall|x: Seq<char>| #[trigger] cv.contains(x) implies in_some_class(fin, x) by {
                let kk = choose|kk: int| 0 <= kk < cv.len() && cv[kk] == x;
                assert(in_some_class(fin, cv[kk]));
            }
            assert forall|b: int, x: Seq<char>, y: Seq<char>|
                #![trigger fin[b].contains(x), fin[b].contains(y)]
                0 <= b < fin.len() && fin[b].contains(x) && fin[b].contains(y) implies
                spec_indistinguishable(ts, cls, sym, x, y) by {
                assert(spec_indistinguishable(ts, cls, sym, fin[b][0], x));
                assert(spec_indistinguishable(ts, cls, sym, fin[b][0], y));
                lemma_indist_equivalence(ts, cls, sym, x, fin[b][0], y);
                lemma_indist_equivalence(ts, cls, sym, fin[b][0], x, y);
            }
            assert forall|x: Seq<char>, y: Seq<char>|
                cv.contains(x) && cv.contains(y) && #[trigger] spec_indistinguishable(
                    ts,
                    cls,
                    sym,
                    x,
                    y,
                ) implies same_class(fin, x, y) by {
                let b1 = choose|bi: int| 0 <= bi < fin.len() && (#[trigger] fin[bi]).contains(x);
                let b2 = choose|bi: int| 0 <= bi < fin.len() && (#[trigger] fin[bi]).contains(y);
                if b1 != b2 {
                    assert(spec_indistinguishable(ts, cls, sym, fin[b1][0], x));
                    assert(spec_indistinguishable(ts, cls, sym, fin[b2][0], y));
                    lemma_indist_equivalence(ts, cls, sym, fin[b1][0], x, y);
                    lemma_indist_equivalence(ts, cls, sym, fin[b1][0], y, fin[b2][0]);
                    lemma_indist_equivalence(ts, cls, sym, y, fin[b2][0], y);
                    assert(spec_indistinguishable(ts, cls, sym, y, fin[b2][0]));
                    assert(spec_indistinguishable(ts, cls, sym, fin[b1][0], fin[b2][0]));
                    assert(false);
                }
                assert(fin[b1].contains(x) && fin[b1].contains(y));
            }
        }
        buckets
    }

    /// Refines the partition round by round until no class splits any
    /// further. Each round regroups every class into its groups of mutually
    /// indistinguishable members; the rounds stop at the first one in which
    /// every class stays whole.
    #[verifier::rlimit(60)]
    fn refine_partition(
        &self,
        all_input_symbols: &Vec<char>,
        initial_classes: Vec<Vec<String>>,
    ) -> (r: Vec<Vec<String>>)
        requires
            classes_wf(views_of_classes(initial_classes@)),
            classes_disjoint(views_of_classes(initial_classes@)),
            classes_within(
                views_of_classes(initial_classes@),
                self@.transitions,
                self@.accept_states,
            ),
            classes_cover(
                views_of_classes(initial_classes@),
                self@.transitions,
                self@.accept_states,
            ),
            classes_respect_accept(views_of_classes(initial_classes@), self@.accept_states),
            classes_complete(
                views_of_classes(initial_classes@),
                self@.transitions,
                self@.accept_states,
            ),
        ensures
            classes_wf(views_of_classes(r@)),
            classes_disjoint(views_of_classes(r@)),
            classes_within(views_of_classes(r@), self@.transitions, self@.accept_states),
            classes_cover(views_of_classes(r@), self@.transitions, self@.accept_states),
            classes_respect_accept(views_of_classes(r@), self@.accept_states),
            classes_complete(views_of_classes(r@), self@.transitions, self@.accept_states),
            classes_stable(views_of_classes(r@), self@.transitions, all_input_symbols@),
    {
        let ghost ts = self@.transitions;
        let ghost acc = self@.accept_states;
        let ghost sym = all_input_symbols@;
        let mut classes = initial_classes;
        loop
            invariant
                ts == self@.transitions,
                acc == self@.accept_states,
                sym == all_input_symbols@,
                classes_wf(views_of_classes(classes@)),
                classes_disjoint(views_of_classes(classes@)),
                classes_within(views_of_classes(classes@), ts, acc),
                classes_cover(views_of_classes(classes@), ts, acc),
                classes_respect_accept(views_of_classes(classes@), acc),
                classes_complete(views_of_classes(classes@), ts, acc),
            decreases sum_len(views_of_classes(classes@)) - views_of_classes(classes@).len(),
        {
            let ghost cls = views_of_classes(classes@);
            proof {
                lemma_len_le_sum(cls);
            }
            let mut new_classes: Vec<Vec<String>> = Vec::new();
            let mut split = false;
            let nc = classes.len();
            proof {
                assert(views_of_classes(new_classes@) =~= Seq::<Seq<Seq<char>>>::empty());
                assert(sum_len(views_of_classes(new_classes@)) == 0);
                assert(cls.take(0) =~= Seq::<Seq<Seq<char>>>::empty());
                assert(sum_len(cls.take(0)) == 0);
            }
            let mut ci: usize = 0;
            while ci < nc
                invariant
                    ts == self@.transitions,
                    acc == self@.accept_states,
                    sym == all_input_symbols@,
                    nc == classes@.len(),
                    0 <= ci <= nc,
                    cls == views_of_classes(classes@),
                    classes_wf(cls),
                    classes_disjoint(cls),
                    classes_within(cls, ts, acc),
                    classes_cover(cls, ts, acc),
                    classes_respect_accept(cls, acc),
                    classes_complete(cls, ts, acc),
                    classes_wf(views_of_classes(new_classes@)),
                    forall|b: int, x: Seq<char>|
                        0 <= b < views_of_classes(new_classes@).len()
                            && #[trigger] views_of_classes(new_classes@)[b].contains(x) ==> exists|
                            i: int,
                        |
                            0 <= i < ci && (#[trigger] cls[i]).contains(x),
                    forall|b: int, x: Seq<char>, y: Seq<char>|
                        #![trigger views_of_classes(new_classes@)[b].contains(x), views_of_classes(new_classes@)[b].contains(y)]
                        0 <= b < views_of_classes(new_classes@).len() && views_of_classes(
                            new_classes@,
                        )[b].contains(x) && views_of_classes(new_classes@)[b].contains(y)
                            ==> same_class(cls, x, y) && spec_indistinguishable(
                            ts,
                            cls,
                            sym,
                            x,
                            y,
                        ),
                    classes_disjoint(views_of_classes(new_classes@)),
                    forall|i: int, x: Seq<char>|
                        0 <= i < ci && #[trigger] cls[i].contains(x) ==> in_some_class(
                            views_of_classes(new_classes@),
                            x,
                        ),
                    forall|i: int, x: Seq<char>, y: Seq<char>|
                        #![trigger cls[i].contains(x), cls[i].contains(y)]
                        0 <= i < ci && cls[i].contains(x) && cls[i].contains(y)
                            && spec_indistinguishable(ts, cls, sym, x, y) ==> same_class(
                            views_of_classes(new_classes@),
                            x,
                            y,
                        ),
                    sum_len(views_of_classes(new_classes@)) == sum_len(cls.take(ci as int)),
                    views_of_classes(new_classes@).len() >= ci + if split {
                        1int
                    } else {
                        0int
                    },
                    !split ==> forall|i: int, x: Seq<char>, y: Seq<char>|
                        #![trigger cls[i].contains(x), cls[i].contains(y)]
                        0 <= i < ci && cls[i].contains(x) && cls[i].contains(y) ==> same_class(
                            views_of_classes(new_classes@),
                            x,
                            y,
                        ),
                decreases nc - ci,
            {
                let ghost prev_new = views_of_classes(new_classes@);
                proof {
                    assert(cls[ci as int] == views_of_strings(classes@[ci as int]@));
                }
                let mut buckets = self.split_class(&classes[ci], all_input_symbols, &classes);
                let ghost bks = views_of_classes(buckets@);
                let bcount = buckets.len();
                if bcount > 1 {
                    split = true;
                }
                new_classes.append(&mut buckets);
                proof {
                    let cur_new = views_of_classes(new_classes@);
                    let cv = cls[ci as int];
                    assert(cur_new =~= prev_new + bks);
                    lemma_sum_len_append(prev_new, bks);
                    cls.lemma_take_succ_push(ci as int);
                    lemma_sum_len_push(cls.take(ci as int), cv);
                    assert(bks.len() == bcount);
                    assert(cv.len() >= 1);
                    assert(cv.contains(cv[0]));
                    assert(in_some_class(bks, cv[0]));
                    assert(bks.len() >= 1);
                    // membership in the combined list, by index range
                    assert(forall|b: int|
                        0 <= b < prev_new.len() ==> #[trigger] cur_new[b] == prev_new[b]);
                    assert(forall|b: int|
                        prev_new.len() <= b < cur_new.len() ==> #[trigger] cur_new[b] == bks[b
                            - prev_new.len()]);
                    assert forall|b: int, x: Seq<char>|
                        0 <= b < cur_new.len() && #[trigger] cur_new[b].contains(x) implies exists|
                        i: int,
                    |
                        0 <= i < ci + 1 && (#[trigger] cls[i]).contains(x) by {
                        if b < prev_new.len() {
                            let i = choose|i: int| 0 <= i < ci && (#[trigger] cls[i]).contains(x);
                            assert(cls[i].contains(x));
                        } else {
                            assert(bks[b - prev_new.len()].contains(x));
                            assert(cv.contains(x));
                        }
                    }
                    assert forall|b: int, x: Seq<char>, y: Seq<char>|
                        #![trigger cur_new[b].contains(x), cur_new[b].contains(y)]
                        0 <= b < cur_new.len() && cur_new[b].contains(x) && cur_new[b].contains(y)
                        implies same_class(cls, x, y) && spec_indistinguishable(
                        ts,
                        cls,
                        sym,
                        x,
                        y,
                    ) by {
                        if b >= prev_new.len() {
                            assert(bks[b - prev_new.len()].contains(x));
                            assert(bks[b - prev_new.len()].contains(y));
                            assert(cv.contains(x) && cv.contains(y));
                            assert(cls[ci as int].contains(x) && cls[ci as int].contains(y));
                        }
                    }
                    assert forall|b1: int, b2: int, x: Seq<char>|
                        #![trigger cur_new[b1].contains(x), cur_new[b2].contains(x)]
                        0 <= b1 < cur_new.len() && 0 <= b2 < cur_new.len() && b1 != b2
                            && cur_new[b1].contains(x) implies !cur_new[b2].contains(x) by {
                        if cur_new[b2].contains(x) {
                            if b1 < prev_new.len() && b2 < prev_new.len() {
                                assert(prev_new[b1].contains(x));
                                assert(prev_new[b2].contains(x));
                            } else if b1 >= prev_new.len() && b2 >= prev_new.len() {
                                assert(bks[b1 - prev_new.len()].contains(x));
                                assert(bks[b2 - prev_new.len()].contains(x));
                            } else if b1 < prev_new.len() {
                                assert(prev_new[b1].contains(x));
                                let i = choose|i: int|
                                    0 <= i < ci && (#[trigger] cls[i]).contains(x);
                                assert(bks[b2 - prev_new.len()].contains(x));
                                assert(cv.contains(x));
                                assert(cls[ci as int].contains(x));
                            } else {
                                assert(prev_new[b2].contains(x));
                                let i = choose|i: int|
                                    0 <= i < ci && (#[trigger] cls[i]).contains(x);
                                assert(bks[b1 - prev_new.len()].contains(x));
                                assert(cv.contains(x));
                                assert(cls[ci as int].contains(x));
                            }
                        }
                    }
                    assert forall|i: int, x: Seq<char>|
                        0 <= i < ci + 1 && #[trigger] cls[i].contains(x) implies in_some_class(
                        cur_new,
                        x,
                    ) by {
                        if i < ci {
                            let b = choose|b: int|
                                0 <= b < prev_new.len() && (#[trigger] prev_new[b]).contains(x);
                            assert(cur_new[b].contains(x));
                        } else {
                            assert(cv.contains(x));
                            assert(in_some_class(bks, x));
                            let b = choose|b: int|
                                0 <= b < bks.len() && (#[trigger] bks[b]).contains(x);
                            assert(cur_new[prev_new.len() + b].contains(x));
                        }
                    }
                    assert forall|i: int, x: Seq<char>, y: Seq<char>|
                        #![trigger cls[i].contains(x), cls[i].contains(y)]
                        0 <= i < ci + 1 && cls[i].contains(x) && cls[i].contains(y)
                            && spec_indistinguishable(ts, cls, sym, x, y) implies same_class(
                        cur_new,
                        x,
                        y,
                    ) by {
                        if i < ci {
                            assert(same_class(prev_new, x, y));
                            let b = choose|b: int|
                                0 <= b < prev_new.len() && (#[trigger] prev_new[b]).contains(x)
                                    && prev_new[b].contains(y);
                            assert(cur_new[b].contains(x) && cur_new[b].contains(y));
                        } else {
                            assert(cv.contains(x) && cv.contains(y));
                            assert(same_class(bks, x, y));
                            let b = choose|b: int|
                                0 <= b < bks.len() && (#[trigger] bks[b]).contains(x)
                                    && bks[b].contains(y);
                            assert(cur_new[prev_new.len() + b].contains(x) && cur_new[prev_new.len()
                                + b].contains(y));
                        }
                    }
                    if bcount == 1 {
                        assert forall|i: int, x: Seq<char>, y: Seq<char>|
                            #![trigger cls[i].contains(x), cls[i].contains(y)]
                            (!split && 0 <= i < ci + 1 && cls[i].contains(x) && cls[i].contains(y))
                            implies same_class(cur_new, x, y) by {
                            if i == ci {
                                assert(cv.contains(x) && cv.contains(y));
                                assert(in_some_class(bks, x));
                                assert(in_some_class(bks, y));
                                let b1 = choose|b: int|
                                    0 <= b < bks.len() && (#[trigger] bks[b]).contains(x);
                                let b2 = choose|b: int|
                                    0 <= b < bks.len() && (#[trigger] bks[b]).contains(y);
                                assert(b1 == 0 && b2 == 0);
                                assert(cur_new[prev_new.len() as int].contains(x)
                                    && cur_new[prev_new.len() as int].contains(y));
                            } else {
                                let b = choose|b: int|
                                    0 <= b < prev_new.len() && (#[trigger] prev_new[b]).contains(x)
                                        && prev_new[b].contains(y);
                                assert(cur_new[b].contains(x) && cur_new[b].contains(y));
                            }
                        }
                    }
                }
                ci += 1;
            }
            if !split {
                proof {
                    assert(cls.take(nc as int) =~= cls);
                    let new_v = views_of_classes(new_classes@);
                    assert forall|i: int, s1: Seq<char>, s2: Seq<char>|
                        #![trigger cls[i].contains(s1), cls[i].contains(s2)]
                        0 <= i < cls.len() && cls[i].contains(s1) && cls[i].contains(s2) implies
                        spec_indistinguishable(ts, cls, sym, s1, s2) by {
                        assert(same_class(new_v, s1, s2));
                        let b = choose|b: int|
                            0 <= b < new_v.len() && (#[trigger] new_v[b]).contains(s1)
                                && new_v[b].contains(s2);
                        assert(spec_indistinguishable(ts, cls, sym, s1, s2));
                    }
                }
                return classes;
            }
            proof {
                assert(cls.take(nc as int) =~= cls);
                let new_v = views_of_classes(new_classes@);
                lemma_len_le_sum(new_v);
                assert forall|i: int, s: Seq<char>|
                    0 <= i < new_v.len() && #[trigger] new_v[i].contains(s) implies relevant_state(
                    ts,
                    acc,
                    s,
                ) by {
                    let j = choose|j: int| 0 <= j < nc && (#[trigger] cls[j]).contains(s);
                    assert(cls[j].contains(s));
                }
                assert forall|s: Seq<char>| #[trigger] relevant_state(ts, acc, s) implies
                    in_some_class(new_v, s) by {
                    assert(in_some_class(cls, s));
                    let j = choose|j: int| 0 <= j < cls.len() && (#[trigger] cls[j]).contains(s);
                    assert(cls[j].contains(s));
                }
                assert forall|i: int, s1: Seq<char>, s2: Seq<char>|
                    #![trigger new_v[i].contains(s1), new_v[i].contains(s2)]
                    0 <= i < new_v.len() && new_v[i].contains(s1) && new_v[i].contains(s2) implies (
                accept_contains(acc, s1) <==> accept_contains(acc, s2)) by {
                    assert(same_class(cls, s1, s2));
                    let j = choose|j: int|
                        0 <= j < cls.len() && (#[trigger] cls[j]).contains(s1) && cls[j].contains(
                            s2,
                        );
                    assert(cls[j].contains(s1) && cls[j].contains(s2));
                }
                assert forall|s1: Seq<char>, s2: Seq<char>|
                    relevant_state(ts, acc, s1) && relevant_state(ts, acc, s2)
                        && #[trigger] obs_equiv(ts, acc, s1, s2) implies same_class(
                    new_v,
                    s1,
                    s2,
                ) by {
                    assert(same_class(cls, s1, s2));
                    let j = choose|j: int|
                        0 <= j < cls.len() && (#[trigger] cls[j]).contains(s1) && cls[j].contains(
                            s2,
                        );
                    lemma_obs_indist(ts, acc, cls, sym, s1, s2);
                    assert(cls[j].contains(s1) && cls[j].contains(s2));
                }
            }
            classes = new_classes;
        }
    }

    /// Minimizes the automaton: inaccessible states are pruned away, the
    /// remaining states are split into blocks of observably equivalent
    /// states by partition refinement, every block of two or more states is
    /// collapsed into one state named after the block's lexicographically
    /// smallest member, and the rewritten transitions are deduplicated and
    /// sorted into their canonical order. The start state and the accept
    /// states are renamed along. Returns the renaming: every member of every
    /// collapsed block, mapped to the block's new name.
    #[verifier::rlimit(100)]
    pub fn minimize(&mut self) -> (r: Vec<(String, String)>)
        ensures
            minimize_rel(old(self)@, final(self)@, pairs_view(r@)),
    {
        self.remove_inaccessible_states();
        let ghost p = self@;
        let ghost ts = p.transitions;
        let ghost acc = p.accept_states;
        let all_input_symbols = self.get_all_input_symbols();
        let ghost sym = all_input_symbols@;
        let all_states = self.get_all_states();
        let ghost stv = views_of_strings(all_states@);

        // Initial partition: the accept states, and every other state known
        // to the transition relation. An empty block is left out.
        let mut accepting_class: Vec<String> = Vec::new();
        let na = self.accept_states.len();
        let mut k: usize = 0;
        while k < na
            invariant
                p == self@,
                acc == views_of_strings(self.accept_states@),
                na == self.accept_states@.len(),
                0 <= k <= na,
                views_of_strings(accepting_class@).no_duplicates(),
                forall|x: Seq<char>|
                    #[trigger] views_of_strings(accepting_class@).contains(x) <==> exists|j: int|
                        0 <= j < k && acc[j] == x,
            decreases na - k,
        {
            let ghost prev = views_of_strings(accepting_class@);
            proof {
                assert(self.accept_states@[k as int]@ == acc[k as int]);
            }
            insert_string(&mut accepting_class, &self.accept_states[k]);
            proof {
                let cur = views_of_strings(accepting_class@);
                assert forall|x: Seq<char>| #[trigger] cur.contains(x) implies exists|j: int|
                    0 <= j < k + 1 && acc[j] == x by {
                    if prev.contains(x) {
                        let j = choose|j: int| 0 <= j < k && acc[j] == x;
                        assert(acc[j] == x);
                    } else {
                        assert(acc[k as int] == x);
                    }
                }
                assert forall|x: Seq<char>| (exists|j: int| 0 <= j < k + 1 && acc[j] == x) implies
                    #[trigger] cur.contains(x) by {
                    let j = choose|j: int| 0 <= j < k + 1 && acc[j] == x;
                    if j < k {
                        assert(exists|jj: int| 0 <= jj < k && acc[jj] == x);
                    }
                }
            }
            k += 1;
        }
        let mut rejecting_class: Vec<String> = Vec::new();
        let nst = all_states.len();
        let mut k2: usize = 0;
        while k2 < nst
            invariant
                p == self@,
                acc == views_of_strings(self.accept_states@),
                stv == views_of_strings(all_states@),
                nst == all_states@.len(),
                0 <= k2 <= nst,
                views_of_strings(rejecting_class@).no_duplicates(),
                forall|x: Seq<char>|
                    #[trigger] views_of_strings(rejecting_class@).contains(x) <==> ((exists|j: int|
                        0 <= j < k2 && stv[j] == x) && !accept_contains(acc, x)),
            decreases nst - k2,
        {
            let ghost prev = views_of_strings(rejecting_class@);
            proof {
                assert(all_states@[k2 as int]@ == stv[k2 as int]);
            }
            if !vec_str_contains(&self.accept_states, &all_states[k2]) {
                insert_string(&mut rejecting_class, &all_states[k2]);
            }
            proof {
                let cur = views_of_strings(rejecting_class@);
                assert forall|x: Seq<char>| #[trigger] cur.contains(x) implies ((exists|j: int|
                    0 <= j < k2 + 1 && stv[j] == x) && !accept_contains(acc, x)) by {
                    if prev.contains(x) {
                        let j = choose|j: int| 0 <= j < k2 && stv[j] == x;
                        assert(stv[j] == x);
                    } else {
                        assert(stv[k2 as int] == x);
                    }
                }
                assert forall|x: Seq<char>|
                    ((exists|j: int| 0 <= j < k2 + 1 && stv[j] == x) && !accept_contains(acc, x))
                    implies #[trigger] cur.contains(x) by {
                    let j = choose|j: int| 0 <= j < k2 + 1 && stv[j] == x;
                    if j < k2 {
                        assert((exists|jj: int| 0 <= jj < k2 && stv[jj] == x) && !accept_contains(
                            acc,
                            x,
                        ));
                    }
                }
            }
            k2 += 1;
        }
        let ghost acv = views_of_strings(accepting_class@);
        let ghost rjv = views_of_strings(rejecting_class@);
        proof {
            assert forall|x: Seq<char>| #[trigger] acv.contains(x) implies accept_contains(
                acc,
                x,
            ) by {
                let j = choose|j: int| 0 <= j < na && acc[j] == x;
            }
            assert forall|x: Seq<char>| accept_contains(acc, x) implies #[trigger] acv.contains(
                x,
            ) by {
                let j = choose|j: int| 0 <= j < acc.len() && acc[j] == x;
                assert(exists|jj: int| 0 <= jj < na && acc[jj] == x);
            }
            assert forall|x: Seq<char>| #[trigger] rjv.contains(x) implies (state_in_transitions(
                ts,
                x,
            ) && !accept_contains(acc, x)) by {
                let j = choose|j: int| 0 <= j < nst && stv[j] == x;
                assert(stv.contains(x));
            }
            assert forall|x: Seq<char>|
                (state_in_transitions(ts, x) && !accept_contains(acc, x)) implies
                #[trigger] rjv.contains(x) by {
                assert(stv.contains(x));
                let j = choose|j: int| 0 <= j < stv.len() && stv[j] == x;
                assert(exists|jj: int| 0 <= jj < nst && stv[jj] == x);
            }
        }
        let mut initial_classes: Vec<Vec<String>> = Vec::new();
        let push_accepting = accepting_class.len() > 0;
        if push_accepting {
            initial_classes.push(accepting_class);
        }
        if rejecting_class.len() > 0 {
            initial_classes.push(rejecting_class);
        }
        proof {
            let icv = views_of_classes(initial_classes@);
            assert(forall|i: int|
                0 <= i < icv.len() ==> #[trigger] icv[i] == acv || icv[i] == rjv);
            if acv.len() > 0 {
                assert(icv[0] == acv);
            }
            if rjv.len() > 0 {
                if acv.len() > 0 {
                    assert(icv[1] == rjv);
                } else {
                    assert(icv[0] == rjv);
                }
                assert(icv.contains(rjv));
            }
            assert(classes_wf(icv));
            assert forall|i: int, j: int, s: Seq<char>|
                #![trigger icv[i].contains(s), icv[j].contains(s)]
                0 <= i < icv.len() && 0 <= j < icv.len() && i != j && icv[i].contains(s) implies
                !icv[j].contains(s) by {
                assert(icv[i] == acv || icv[i] == rjv);
                assert(icv[j] == acv || icv[j] == rjv);
            }
            assert(classes_disjoint(icv));
            assert forall|i: int, s: Seq<char>|
                0 <= i < icv.len() && #[trigger] icv[i].contains(s) implies relevant_state(
                ts,
                acc,
                s,
            ) by {
                assert(icv[i] == acv || icv[i] == rjv);
            }
            assert(classes_within(icv, ts, acc));
            assert forall|s: Seq<char>| #[trigger] relevant_state(ts, acc, s) implies in_some_class(
                icv,
                s,
            ) by {
                if accept_contains(acc, s) {
                    assert(acv.contains(s));
                    assert(acv.len() > 0);
                    assert(icv[0].contains(s));
                } else {
                    assert(state_in_transitions(ts, s));
                    assert(rjv.contains(s));
                    assert(rjv.len() > 0);
                    if acv.len() > 0 {
                        assert(icv[1].contains(s));
                    } else {
                        assert(icv[0].contains(s));
                    }
                }
            }
            assert(classes_cover(icv, ts, acc));
            assert forall|i: int, s1: Seq<char>, s2: Seq<char>|
                #![trigger icv[i].contains(s1), icv[i].contains(s2)]
                0 <= i < icv.len() && icv[i].contains(s1) && icv[i].contains(s2) implies (
            accept_contains(acc, s1) <==> accept_contains(acc, s2)) by {
                assert(icv[i] == acv || icv[i] == rjv);
            }
            assert(classes_respect_accept(icv, acc));
            assert forall|s1: Seq<char>, s2: Seq<char>|
                relevant_state(ts, acc, s1) && relevant_state(ts, acc, s2) && #[trigger] obs_equiv(
                    ts,
                    acc,
                    s1,
                    s2,
                ) implies same_class(icv, s1, s2) by {
                crate::model::lemma_obs_equiv_accept(ts, acc, s1, s2);
                if accept_contains(acc, s1) {
                    assert(acv.contains(s1) && acv.contains(s2));
                    assert(icv[0].contains(s1) && icv[0].contains(s2));
                } else {
                    assert(rjv.contains(s1) && rjv.contains(s2));
                    if acv.len() > 0 {
                        assert(icv[1].contains(s1) && icv[1].contains(s2));
                    } else {
                        assert(icv[0].contains(s1) && icv[0].contains(s2));
                    }
                }
            }
            assert(classes_complete(icv, ts, acc));
        }
        let final_classes = self.refine_partition(&all_input_symbols, initial_classes);
        let ghost cls = views_of_classes(final_classes@);

        // Canonical naming: each block of two or more states is mapped,
        // member by member, to its lexicographically smallest member.
        let mut renaming: Vec<(String, String)> = Vec::new();
        let ncl = final_classes.len();
        let mut ci: usize = 0;
        while ci < ncl
            invariant
                p == self@,
                ncl == final_classes@.len(),
                cls == views_of_classes(final_classes@),
                classes_wf(cls),
                classes_disjoint(cls),
                0 <= ci <= ncl,
                pairs_keys(pairs_view(renaming@)).no_duplicates(),
                forall|idx: int|
                    0 <= idx < pairs_view(renaming@).len() ==> exists|cj: int|
                        0 <= cj < ci && (#[trigger] cls[cj]).len() >= 2 && cls[cj].contains(
                            (#[trigger] pairs_view(renaming@)[idx]).0,
                        ),
                forall|cj: int|
                    0 <= cj < ci && (#[trigger] cls[cj]).len() >= 2 ==> class_mapped(
                        pairs_view(renaming@),
                        cls[cj],
                    ),
            decreases ncl - ci,
        {
            let ghost mv0 = pairs_view(renaming@);
            let ghost cv = cls[ci as int];
            proof {
                assert(cv == views_of_strings(final_classes@[ci as int]@));
            }
            if final_classes[ci].len() >= 2 {
                let new_name = lexically_smallest(&final_classes[ci]);
                let nm = final_classes[ci].len();
                let mut km: usize = 0;
                while km < nm
                    invariant
                        ncl == final_classes@.len(),
                        cls == views_of_classes(final_classes@),
                        0 <= ci < ncl,
                        cv == cls[ci as int],
                        cv == views_of_strings(final_classes@[ci as int]@),
                        nm == final_classes@[ci as int]@.len(),
                        0 <= km <= nm,
                        cv.contains(new_name@),
                        forall|x: Seq<char>| #[trigger] cv.contains(x) ==> lex_le(new_name@, x),
                        pairs_view(renaming@).len() == mv0.len() + km,
                        forall|idx: int|
                            0 <= idx < mv0.len() ==> #[trigger] pairs_view(renaming@)[idx]
                                == mv0[idx],
                        forall|kk: int|
                            0 <= kk < km ==> #[trigger] pairs_view(renaming@)[mv0.len() + kk] == (
                            cv[kk],
                            new_name@,
                            ),
                    decreases nm - km,
                {
                    let key = final_classes[ci][km].clone();
                    proof {
                        assert(key@ == cv[km as int]);
                    }
                    let ghost prev_mv = pairs_view(renaming@);
                    renaming.push((key, new_name.clone()));
                    proof {
                        assert(pairs_view(renaming@) =~= prev_mv.push((cv[km as int], new_name@)));
                        assert forall|idx: int| 0 <= idx < mv0.len() implies
                            #[trigger] pairs_view(renaming@)[idx] == mv0[idx] by {
                            assert(pairs_view(renaming@)[idx] == prev_mv[idx]);
                        }
                        assert forall|kk: int| 0 <= kk < km + 1 implies
                            #[trigger] pairs_view(renaming@)[mv0.len() + kk] == (
                            cv[kk],
                            new_name@,
                        ) by {
                            if kk < km {
                                assert(pairs_view(renaming@)[mv0.len() + kk] == prev_mv[mv0.len()
                                    + kk]);
                            }
                        }
                    }
                    km += 1;
                }
                proof {
                    let mv = pairs_view(renaming@);
                    let block = mv.skip(mv0.len() as int);
                    assert(mv =~= mv0 + block);
                    assert(block.len() == cv.len());
                    assert forall|kk: int| 0 <= kk < cv.len() implies #[trigger] block[kk] == (
                        cv[kk],
                        new_name@,
                    ) by {
                        assert(block[kk] == mv[mv0.len() + kk]);
                        assert(pairs_view(renaming@)[mv0.len() + kk] == (cv[kk], new_name@));
                    }
                    // keys stay unique
                    assert forall|q1: int, q2: int|
                        0 <= q1 < mv.len() && 0 <= q2 < mv.len() && q1 != q2 implies (
                    #[trigger] pairs_keys(mv)[q1]) != (#[trigger] pairs_keys(mv)[q2]) by {
                        assert(pairs_keys(mv)[q1] == mv[q1].0);
                        assert(pairs_keys(mv)[q2] == mv[q2].0);
                        if q1 < mv0.len() && q2 < mv0.len() {
                            assert(pairs_keys(mv0)[q1] == mv0[q1].0);
                            assert(pairs_keys(mv0)[q2] == mv0[q2].0);
                        } else if q1 < mv0.len() && q2 >= mv0.len() {
                            let cj = choose|cj: int|
                                0 <= cj < ci && (#[trigger] cls[cj]).len() >= 2 && cls[cj].contains(
                                    mv0[q1].0,
                                );
                            assert(mv[q2].0 == cv[q2 - mv0.len()]);
                            assert(cv.contains(mv[q2].0));
                            if mv[q1].0 == mv[q2].0 {
                                assert(cls[cj].contains(mv[q2].0));
                                assert(cls[ci as int].contains(mv[q2].0));
                            }
                        } else if q1 >= mv0.len() && q2 < mv0.len() {
                            let cj = choose|cj: int|
                                0 <= cj < ci && (#[trigger] cls[cj]).len() >= 2 && cls[cj].contains(
                                    mv0[q2].0,
                                );
                            assert(mv[q1].0 == cv[q1 - mv0.len()]);
                            assert(cv.contains(mv[q1].0));
                            if mv[q1].0 == mv[q2].0 {
                                assert(cls[cj].contains(mv[q1].0));
                                assert(cls[ci as int].contains(mv[q1].0));
                            }
                        } else {
                            assert(mv[q1].0 == cv[q1 - mv0.len()]);
                            assert(mv[q2].0 == cv[q2 - mv0.len()]);
                            assert(cv.no_duplicates());
                        }
                    }
                    // every key belongs to a processed multi-member class
                    assert forall|idx: int| 0 <= idx < mv.len() implies exists|cj: int|
                        0 <= cj < ci + 1 && (#[trigger] cls[cj]).len() >= 2 && cls[cj].contains(
                            (#[trigger] mv[idx]).0,
                        ) by {
                        if idx < mv0.len() {
                            let cj = choose|cj: int|
                                0 <= cj < ci && (#[trigger] cls[cj]).len() >= 2 && cls[cj].contains(
                                    mv0[idx].0,
                                );
                            assert(cls[cj].len() >= 2 && cls[cj].contains(mv[idx].0));
                        } else {
                            assert(mv[idx].0 == cv[idx - mv0.len()]);
                            assert(cls[ci as int].len() >= 2 && cls[ci as int].contains(mv[idx].0));
                        }
                    }
                    // earlier blocks stay mapped
                    assert forall|cj: int|
                        0 <= cj < ci + 1 && (#[trigger] cls[cj]).len() >= 2 implies class_mapped(
                        mv,
                        cls[cj],
                    ) by {
                        if cj < ci {
                            let v = choose|v: Seq<char>|
                                #[trigger] cls[cj].contains(v) && (forall|y: Seq<char>|
                                    #[trigger] cls[cj].contains(y) ==> lex_le(v, y) && pairs_lookup(
                                        mv0,
                                        y,
                                    ) == Some(v));
                            assert forall|y: Seq<char>| #[trigger] cls[cj].contains(y) implies
                                lex_le(v, y) && pairs_lookup(mv, y) == Some(v) by {
                                crate::model::lemma_pairs_lookup_append(mv0, block, y);
                            }
                            assert(cls[cj].contains(v));
                        } else {
                            assert forall|y: Seq<char>| #[trigger] cls[ci as int].contains(y)
                                implies lex_le(new_name@, y) && pairs_lookup(mv, y) == Some(
                                new_name@,
                            ) by {
                                crate::model::lemma_pairs_lookup_append(mv0, block, y);
                                assert(pairs_lookup(mv0, y) is None) by {
                                    lemma_pairs_lookup_sound(mv0, y);
                                    match pairs_lookup(mv0, y) {
                                        Some(w) => {
                                            let idx = choose|idx: int|
                                                0 <= idx < mv0.len() && mv0[idx] == (y, w);
                                            let cj2 = choose|cj2: int|
                                                0 <= cj2 < ci && (#[trigger] cls[cj2]).len() >= 2
                                                    && cls[cj2].contains(mv0[idx].0);
                                            assert(cls[cj2].contains(y));
                                            assert(cls[ci as int].contains(y));
                                        },
                                        None => {},
                                    }
                                }
                                let kk0 = choose|kk: int| 0 <= kk < cv.len() && cv[kk] == y;
                                assert(block[kk0].0 == y);
                                assert forall|jj: int| 0 <= jj < kk0 implies (
                                #[trigger] block[jj]).0 != y by {
                                    assert(block[jj].0 == cv[jj]);
                                    assert(cv.no_duplicates());
                                }
                                crate::model::lemma_pairs_lookup_first(block, y, kk0);
                                assert(block[kk0].1 == new_name@);
                            }
                            assert(cls[ci as int].contains(new_name@));
                        }
                    }
                }
            } else {
                proof {
                    assert forall|cj: int|
                        0 <= cj < ci + 1 && (#[trigger] cls[cj]).len() >= 2 implies class_mapped(
                        pairs_view(renaming@),
                        cls[cj],
                    ) by {
                        if cj == ci {
                            assert(cls[ci as int].len() < 2);
                        }
                    }
                    assert forall|idx: int| 0 <= idx < pairs_view(renaming@).len() implies exists|
                        cj: int,
                    |
                        0 <= cj < ci + 1 && (#[trigger] cls[cj]).len() >= 2 && cls[cj].contains(
                            (#[trigger] pairs_view(renaming@)[idx]).0,
                        ) by {
                        let cj = choose|cj: int|
                            0 <= cj < ci && (#[trigger] cls[cj]).len() >= 2 && cls[cj].contains(
                                pairs_view(renaming@)[idx].0,
                            );
                        assert(cls[cj].len() >= 2 && cls[cj].contains(pairs_view(renaming@)[idx].0));
                    }
                }
            }
            ci += 1;
        }
        let ghost mv = pairs_view(renaming@);
        proof {
            assert(cls.len() == ncl);
            assert forall|idx: int| 0 <= idx < mv.len() implies key_in_multi_class(
                cls,
                (#[trigger] mv[idx]).0,
            ) by {
                let cj = choose|cj: int|
                    0 <= cj < ncl && (#[trigger] cls[cj]).len() >= 2 && cls[cj].contains(
                        mv[idx].0,
                    );
                assert(cls[cj].len() >= 2 && cls[cj].contains(mv[idx].0));
            }
            assert(pairs_keys(mv).no_duplicates());
            assert forall|c2: int|
                0 <= c2 < cls.len() && (#[trigger] cls[c2]).len() >= 2 implies class_mapped(
                mv,
                cls[c2],
            ) by {
                assert(0 <= c2 < ncl);
            }
            assert(renaming_matches_classes(cls, mv));
            lemma_renaming_from_classes(ts, acc, cls, sym, mv);
        }

        // Rewrite the transition relation through the renaming, then bring
        // it into canonical form.
        let mut renamed: Vec<Transition> = Vec::new();
        let ntr = self.transitions.len();
        let mut j: usize = 0;
        while j < ntr
            invariant
                p == self@,
                ts == p.transitions,
                mv == pairs_view(renaming@),
                ntr == self.transitions@.len(),
                0 <= j <= ntr,
                views_of_transitions(renamed@).len() == j,
                forall|jj: int|
                    0 <= jj < j ==> #[trigger] views_of_transitions(renamed@)[jj]
                        == rename_transition(mv, ts[jj]),
            decreases ntr - j,
        {
            let t = &self.transitions[j];
            proof {
                assert(t@ == ts[j as int]);
            }
            let ns = map_name(&renaming, &t.state);
            let nn = map_name(&renaming, &t.next_state);
            let ghost prev_rv = views_of_transitions(renamed@);
            let newt = Transition { state: ns, input: t.input, next_state: nn };
            proof {
                assert(newt@ == rename_transition(mv, ts[j as int]));
            }
            renamed.push(newt);
            proof {
                assert(views_of_transitions(renamed@) =~= prev_rv.push(
                    rename_transition(mv, ts[j as int]),
                ));
                assert forall|jj: int| 0 <= jj < j + 1 implies
                    #[trigger] views_of_transitions(renamed@)[jj] == rename_transition(
                    mv,
                    ts[jj],
                ) by {
                    if jj < j {
                        assert(views_of_transitions(renamed@)[jj] == prev_rv[jj]);
                    }
                }
            }
            j += 1;
        }
        let ghost rnv = views_of_transitions(renamed@);
        proof {
            assert forall|t: SpecTransition| #[trigger] rnv.contains(t) implies exists|
                t0: SpecTransition,
            |
                #[trigger] ts.contains(t0) && rename_transition(mv, t0) == t by {
                let jj = choose|jj: int| 0 <= jj < rnv.len() && rnv[jj] == t;
                assert(ts.contains(ts[jj]));
                assert(rename_transition(mv, ts[jj]) == t);
            }
            assert forall|t0: SpecTransition| #[trigger] ts.contains(t0) implies rnv.contains(
                rename_transition(mv, t0),
            ) by {
                let jj = choose|jj: int| 0 <= jj < ts.len() && ts[jj] == t0;
                assert(rnv[jj] == rename_transition(mv, ts[jj]));
            }
        }
        let sorted = crate::canon::sort_transitions(renamed);
        let deduped = crate::canon::dedup_sorted(sorted);

        // Rename the accept states, keeping each new name once.
        let mut new_accept: Vec<String> = Vec::new();
        let nac = self.accept_states.len();
        let mut ka: usize = 0;
        while ka < nac
            invariant
                p == self@,
                acc == views_of_strings(self.accept_states@),
                mv == pairs_view(renaming@),
                nac == self.accept_states@.len(),
                0 <= ka <= nac,
                views_of_strings(new_accept@).no_duplicates(),
                forall|x: Seq<char>|
                    #[trigger] views_of_strings(new_accept@).contains(x) <==> exists|jj: int|
                        0 <= jj < ka && rename_state(mv, #[trigger] acc[jj]) == x,
            decreases nac - ka,
        {
            let ghost prev = views_of_strings(new_accept@);
            proof {
                assert(self.accept_states@[ka as int]@ == acc[ka as int]);
            }
            let rn = map_name(&renaming, &self.accept_states[ka]);
            insert_string(&mut new_accept, &rn);
            proof {
                let cur = views_of_strings(new_accept@);
                assert forall|x: Seq<char>| #[trigger] cur.contains(x) implies exists|jj: int|
                    0 <= jj < ka + 1 && rename_state(mv, #[trigger] acc[jj]) == x by {
                    if prev.contains(x) {
                        let jj = choose|jj: int|
                            0 <= jj < ka && rename_state(mv, #[trigger] acc[jj]) == x;
                        assert(rename_state(mv, acc[jj]) == x);
                    } else {
                        assert(rename_state(mv, acc[ka as int]) == x);
                    }
                }
                assert forall|x: Seq<char>|
                    (exists|jj: int| 0 <= jj < ka + 1 && rename_state(mv, #[trigger] acc[jj]) == x)
                    implies #[trigger] cur.contains(x) by {
                    let jj = choose|jj: int|
                        0 <= jj < ka + 1 && rename_state(mv, #[trigger] acc[jj]) == x;
                    if jj < ka {
                        assert(exists|j2: int|
                            0 <= j2 < ka && rename_state(mv, #[trigger] acc[j2]) == x);
                    }
                }
            }
            ka += 1;
        }
        let new_start = map_name(&renaming, &self.start_state);
        self.transitions = deduped;
        self.start_state = new_start;
        self.accept_states = new_accept;
        proof {
            let d1 = self@;
            assert(d1.name == p.name);
            assert(d1.start_state == rename_state(mv, p.start_state));
            assert(d1.transitions == views_of_transitions(deduped@));
            assert forall|t: SpecTransition| #[trigger] d1.transitions.contains(t) implies exists|
                t0: SpecTransition,
            |
                #[trigger] p.transitions.contains(t0) && rename_transition(mv, t0) == t by {
                assert(rnv.contains(t));
            }
            assert forall|t0: SpecTransition| #[trigger] p.transitions.contains(t0) implies
                d1.transitions.contains(rename_transition(mv, t0)) by {
                assert(rnv.contains(rename_transition(mv, t0)));
            }
            assert forall|x: Seq<char>| #[trigger] d1.accept_states.contains(x) implies exists|
                a: Seq<char>,
            |
                #[trigger] p.accept_states.contains(a) && rename_state(mv, a) == x by {
                let jj = choose|jj: int|
                    0 <= jj < nac && rename_state(mv, #[trigger] acc[jj]) == x;
                assert(acc.contains(acc[jj]));
                assert(rename_state(mv, acc[jj]) == x);
            }
            assert forall|a: Seq<char>| #[trigger] p.accept_states.contains(a) implies
                d1.accept_states.contains(rename_state(mv, a)) by {
                let jj = choose|jj: int| 0 <= jj < acc.len() && acc[jj] == a;
                assert(exists|j2: int|
                    0 <= j2 < nac && rename_state(mv, #[trigger] acc[j2]) == rename_state(mv, a));
            }
            assert(minimize_rel(old(self)@, d1, mv));
        }
        renaming
    }

    /// Two states are considered indistinguishable if, for every symbol of
    /// the working alphabet, they transition into the same equivalence class
    /// of the current partition. A state whose rule is missing for a symbol
    /// is distinguished from one that has a rule for it.
    pub fn are_states_indistinguishable(
        &self,
        state_1: &str,
        state_2: &str,
        all_input_symbols: &Vec<char>,
        equivalence_classes: &Vec<Vec<String>>,
    ) -> (r: bool)
        ensures
            r == spec_indistinguishable(
                self@.transitions,
                views_of_classes(equivalence_classes@),
                all_input_symbols@,
                state_1@,
                state_2@,
            ),
    {
        let ghost ts = self@.transitions;
        let ghost cls = views_of_classes(equivalence_classes@);
        let ghost sym = all_input_symbols@;
        if str_eq(state_1, state_2) {
            return true;
        }
        let n = all_input_symbols.len();
        let mut i: usize = 0;
        while i < n
            invariant
                n == sym.len(),
                0 <= i <= n,
                ts == self@.transitions,
                cls == views_of_classes(equivalence_classes@),
                sym == all_input_symbols@,
                forall|j: int|
                    0 <= j < i ==> next_class(ts, cls, state_1@, #[trigger] sym[j]) == next_class(
                        ts,
                        cls,
                        state_2@,
                        sym[j],
                    ),
            decreases n - i,
        {
            let c = all_input_symbols[i];
            let nc1: Option<usize> = match self.get_transition(state_1, &c) {
                Some(t) => find_class_index(equivalence_classes, &t.next_state),
                None => None,
            };
            let nc2: Option<usize> = match self.get_transition(state_2, &c) {
                Some(t) => find_class_index(equivalence_classes, &t.next_state),
                None => None,
            };
            proof {
                assert(sym[i as int] == c);
                assert(match nc1 {
                    Some(a) => next_class(ts, cls, state_1@, c) == Some(a as int),
                    None => next_class(ts, cls, state_1@, c) is None,
                });
                assert(match nc2 {
                    Some(a) => next_class(ts, cls, state_2@, c) == Some(a as int),
                    None => next_class(ts, cls, state_2@, c) is None,
                });
            }
            let same = match (nc1, nc2) {
                (Some(a), Some(b)) => a == b,
                (None, None) => true,
                _ => false,
            };
            if !same {
                proof {
                    assert(next_class(ts, cls, state_1@, c) != next_class(ts, cls, state_2@, c));
                    assert(sym.contains(c));
                    assert(!spec_indistinguishable(ts, cls, sym, state_1@, state_2@));
                }
                return false;
            }
            i += 1;
        }
        proof {
            assert forall|c: char| sym.contains(c) implies next_class(ts, cls, state_1@, c)
                == next_class(ts, cls, state_2@, c) by {
                let j = choose|j: int| 0 <= j < sym.len() && sym[j] == c;
                assert(next_class(ts, cls, state_1@, sym[j]) == next_class(
                    ts,
                    cls,
                    state_2@,
                    sym[j],
                ));
            }
        }
        true
    }
}

} // verus!
