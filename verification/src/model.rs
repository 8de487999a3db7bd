//! Mathematical model of an automaton: the transition relation, the walk a
//! simulation takes, reachability from the start state, and the renaming
//! relation produced by minimization. All executable code in this crate is
//! specified against these functions.

use vstd::prelude::*;

verus! {

/// Mathematical image of one transition rule: a source state, an input
/// symbol, and a target state. State identifiers are sequences of characters.
pub ghost struct SpecTransition {
    pub state: Seq<char>,
    pub input: char,
    pub next_state: Seq<char>,
}

/// Mathematical image of an automaton.
pub ghost struct SpecDfa {
    pub name: Seq<char>,
    pub start_state: Seq<char>,
    pub accept_states: Seq<Seq<char>>,
    pub transitions: Seq<SpecTransition>,
}

/// Does rule `t` apply when the automaton is in `state` and reads `input`?
pub open spec fn t_matches(t: SpecTransition, state: Seq<char>, input: char) -> bool {
    t.state == state && t.input == input
}

/// The first rule in `ts` that applies to `(state, input)`, if any. When an
/// automaton holds several rules for one pair (which a well-formed automaton
/// does not), the first match wins; this tie-break is fixed here once and
/// shared by every operation.
pub open spec fn spec_lookup(ts: Seq<SpecTransition>, state: Seq<char>, input: char) -> Option<
    SpecTransition,
>
    decreases ts.len(),
{
    if ts.len() == 0 {
        None
    } else if t_matches(ts[0], state, input) {
        Some(ts[0])
    } else {
        spec_lookup(ts.drop_first(), state, input)
    }
}

/// `i` is the index of the first rule of `ts` applying to `(state, input)`.
pub open spec fn first_match_at(
    ts: Seq<SpecTransition>,
    state: Seq<char>,
    input: char,
    i: int,
) -> bool {
    &&& 0 <= i < ts.len()
    &&& t_matches(ts[i], state, input)
    &&& forall|j: int| 0 <= j < i ==> !t_matches(#[trigger] ts[j], state, input)
}

pub proof fn lemma_lookup_at(ts: Seq<SpecTransition>, state: Seq<char>, input: char, i: int)
    requires
        first_match_at(ts, state, input, i),
    ensures
        spec_lookup(ts, state, input) == Some(ts[i]),
    decreases ts.len(),
{
    if i > 0 {
        assert(!t_matches(ts[0], state, input));
        assert(first_match_at(ts.drop_first(), state, input, i - 1)) by {
            assert(forall|j: int|
                0 <= j < i - 1 ==> ts.drop_first()[j] == #[trigger] ts[j + 1]);
        }
        lemma_lookup_at(ts.drop_first(), state, input, i - 1);
    }
}

pub proof fn lemma_lookup_none(ts: Seq<SpecTransition>, state: Seq<char>, input: char)
    requires
        forall|i: int| 0 <= i < ts.len() ==> !t_matches(#[trigger] ts[i], state, input),
    ensures
        spec_lookup(ts, state, input) is None,
    decreases ts.len(),
{
    if ts.len() > 0 {
        lemma_lookup_none(ts.drop_first(), state, input);
    }
}

/// Whatever `spec_lookup` returns applies to the pair it was asked about and
/// occurs in the relation; a `None` answer means no rule applies.
pub proof fn lemma_lookup_sound(ts: Seq<SpecTransition>, state: Seq<char>, input: char)
    ensures
        match spec_lookup(ts, state, input) {
            Some(t) => t_matches(t, state, input) && exists|i: int|
                0 <= i < ts.len() && ts[i] == t,
            None => forall|i: int| 0 <= i < ts.len() ==> !t_matches(#[trigger] ts[i], state, input),
        },
    decreases ts.len(),
{
    if ts.len() > 0 && !t_matches(ts[0], state, input) {
        lemma_lookup_sound(ts.drop_first(), state, input);
        match spec_lookup(ts, state, input) {
            Some(t) => {
                let i = choose|i: int|
                    0 <= i < ts.drop_first().len() && ts.drop_first()[i] == t;
                assert(ts[i + 1] == t);
            },
            None => {
                assert forall|i: int| 0 <= i < ts.len() implies !t_matches(
                    #[trigger] ts[i],
                    state,
                    input,
                ) by {
                    if i > 0 {
                        assert(ts.drop_first()[i - 1] == ts[i]);
                    }
                }
            },
        }
    }
}

/// The states an automaton with rules `ts` walks through when started in
/// `state` and fed `input`, the initial state included. The walk stops early
/// at the first symbol for which no rule applies.
pub open spec fn spec_trace(ts: Seq<SpecTransition>, state: Seq<char>, input: Seq<char>) -> Seq<
    Seq<char>,
>
    decreases input.len(),
{
    if input.len() == 0 {
        seq![state]
    } else {
        match spec_lookup(ts, state, input[0]) {
            Some(t) => seq![state] + spec_trace(ts, t.next_state, input.drop_first()),
            None => seq![state],
        }
    }
}

/// Does the walk consume all of `input` without getting stuck?
pub open spec fn spec_runs_to_end(ts: Seq<SpecTransition>, state: Seq<char>, input: Seq<char>) -> bool
    decreases input.len(),
{
    if input.len() == 0 {
        true
    } else {
        match spec_lookup(ts, state, input[0]) {
            Some(t) => spec_runs_to_end(ts, t.next_state, input.drop_first()),
            None => false,
        }
    }
}

/// Membership in a list of accept states.
pub open spec fn accept_contains(accept: Seq<Seq<char>>, s: Seq<char>) -> bool {
    accept.contains(s)
}

/// Acceptance from an arbitrary state: the whole input is consumed and the
/// walk ends in an accept state.
pub open spec fn spec_accepts_from(
    ts: Seq<SpecTransition>,
    accept: Seq<Seq<char>>,
    state: Seq<char>,
    input: Seq<char>,
) -> bool {
    &&& spec_runs_to_end(ts, state, input)
    &&& accept_contains(accept, spec_trace(ts, state, input).last())
}

/// Acceptance of an input by an automaton.
pub open spec fn spec_accepts(d: SpecDfa, input: Seq<char>) -> bool {
    spec_accepts_from(d.transitions, d.accept_states, d.start_state, input)
}

pub proof fn lemma_trace_shape(ts: Seq<SpecTransition>, state: Seq<char>, input: Seq<char>)
    ensures
        1 <= spec_trace(ts, state, input).len() <= input.len() + 1,
        spec_trace(ts, state, input)[0] == state,
        spec_runs_to_end(ts, state, input) <==> spec_trace(ts, state, input).len() == input.len()
            + 1,
    decreases input.len(),
{
    if input.len() > 0 {
        match spec_lookup(ts, state, input[0]) {
            Some(t) => {
                lemma_trace_shape(ts, t.next_state, input.drop_first());
            },
            None => {},
        }
    }
}

/// How a walk on `w1 + w2` decomposes: if the walk gets through `w1`, the
/// rest continues from the last state that walk reached; if it gets stuck
/// inside `w1`, appending `w2` changes nothing.
pub proof fn lemma_trace_append(
    ts: Seq<SpecTransition>,
    state: Seq<char>,
    w1: Seq<char>,
    w2: Seq<char>,
)
    ensures
        spec_runs_to_end(ts, state, w1) ==> spec_trace(ts, state, w1 + w2) == spec_trace(
            ts,
            state,
            w1,
        ).drop_last() + spec_trace(ts, spec_trace(ts, state, w1).last(), w2),
        spec_runs_to_end(ts, state, w1) ==> (spec_runs_to_end(ts, state, w1 + w2)
            <==> spec_runs_to_end(ts, spec_trace(ts, state, w1).last(), w2)),
        !spec_runs_to_end(ts, state, w1) ==> spec_trace(ts, state, w1 + w2) == spec_trace(
            ts,
            state,
            w1,
        ) && !spec_runs_to_end(ts, state, w1 + w2),
    decreases w1.len(),
{
    lemma_trace_shape(ts, state, w1);
    if w1.len() == 0 {
        assert(w1 + w2 =~= w2);
        assert(spec_trace(ts, state, w1) =~= seq![state]);
        assert(spec_trace(ts, state, w1).drop_last() =~= Seq::<Seq<char>>::empty());
        assert(Seq::<Seq<char>>::empty() + spec_trace(ts, state, w2) =~= spec_trace(
            ts,
            state,
            w2,
        ));
    } else {
        assert((w1 + w2)[0] == w1[0]);
        assert((w1 + w2).drop_first() =~= w1.drop_first() + w2);
        match spec_lookup(ts, state, w1[0]) {
            Some(t) => {
                let rest = w1.drop_first();
                lemma_trace_append(ts, t.next_state, rest, w2);
                lemma_trace_shape(ts, t.next_state, rest);
                if spec_runs_to_end(ts, state, w1) {
                    assert(spec_trace(ts, state, w1) == seq![state] + spec_trace(
                        ts,
                        t.next_state,
                        rest,
                    ));
                    assert(spec_trace(ts, state, w1).last() == spec_trace(
                        ts,
                        t.next_state,
                        rest,
                    ).last());
                    assert(spec_trace(ts, state, w1).drop_last() =~= seq![state] + spec_trace(
                        ts,
                        t.next_state,
                        rest,
                    ).drop_last());
                    assert(spec_trace(ts, state, w1 + w2) == seq![state] + spec_trace(
                        ts,
                        t.next_state,
                        rest + w2,
                    ));
                    assert(seq![state] + (spec_trace(ts, t.next_state, rest).drop_last()
                        + spec_trace(ts, spec_trace(ts, t.next_state, rest).last(), w2)) =~= (
                    seq![state] + spec_trace(ts, t.next_state, rest).drop_last()) + spec_trace(
                        ts,
                        spec_trace(ts, t.next_state, rest).last(),
                        w2,
                    ));
                }
            },
            None => {
                assert(spec_trace(ts, state, w1 + w2) =~= seq![state]);
            },
        }
    }
}

/// Every state appearing as a source or a target of some rule.
pub open spec fn state_in_transitions(ts: Seq<SpecTransition>, s: Seq<char>) -> bool {
    exists|i: int| 0 <= i < ts.len() && (#[trigger] ts[i].state == s || ts[i].next_state == s)
}

/// Every symbol appearing in some rule: the working alphabet.
pub open spec fn alphabet_has(ts: Seq<SpecTransition>, c: char) -> bool {
    exists|i: int| 0 <= i < ts.len() && #[trigger] ts[i].input == c
}

/// One step of the transition graph, ignoring the symbol.
pub open spec fn spec_step(ts: Seq<SpecTransition>, a: Seq<char>, b: Seq<char>) -> bool {
    exists|i: int| 0 <= i < ts.len() && #[trigger] ts[i].state == a && ts[i].next_state == b
}

/// `s` can be reached from `start` in at most `n` steps.
pub open spec fn reachable_in(
    ts: Seq<SpecTransition>,
    start: Seq<char>,
    s: Seq<char>,
    n: nat,
) -> bool
    decreases n,
{
    if s == start {
        true
    } else if n == 0 {
        false
    } else {
        exists|m: Seq<char>| reachable_in(ts, start, m, (n - 1) as nat) && spec_step(ts, m, s)
    }
}

/// `s` can be reached from `start` by following finitely many rules.
pub open spec fn spec_reachable(ts: Seq<SpecTransition>, start: Seq<char>, s: Seq<char>) -> bool {
    exists|n: nat| reachable_in(ts, start, s, n)
}

/// Does pruning an automaton with rules `ts` keep a given rule? Both of its
/// endpoints must be reachable from the start state.
pub open spec fn keeps(ts: Seq<SpecTransition>, start: Seq<char>) -> spec_fn(SpecTransition) -> bool {
    |t: SpecTransition|
        spec_reachable(ts, start, t.state) && spec_reachable(ts, start, t.next_state)
}

/// The transitions that survive pruning: those whose two endpoints are both
/// reachable from the start state, kept in their original order.
pub open spec fn prune_trans(ts: Seq<SpecTransition>, start: Seq<char>) -> Seq<SpecTransition> {
    ts.filter(keeps(ts, start))
}

/// Reachability extends along one transition step.
pub proof fn lemma_reachable_step(
    ts: Seq<SpecTransition>,
    start: Seq<char>,
    m: Seq<char>,
    s: Seq<char>,
)
    requires
        spec_reachable(ts, start, m),
        spec_step(ts, m, s),
    ensures
        spec_reachable(ts, start, s),
{
    let n = choose|n: nat| reachable_in(ts, start, m, n);
    assert(reachable_in(ts, start, s, n + 1));
}

/// The automaton after pruning: same name, start state and accept states,
/// transitions restricted to the reachable subgraph.
pub open spec fn spec_pruned(d: SpecDfa) -> SpecDfa {
    SpecDfa { transitions: prune_trans(d.transitions, d.start_state), ..d }
}

/// A state the minimizer acts on: one known to the transition relation or
/// listed as an accept state.
pub open spec fn relevant_state(ts: Seq<SpecTransition>, accept: Seq<Seq<char>>, s: Seq<char>) -> bool {
    state_in_transitions(ts, s) || accept_contains(accept, s)
}

/// Two states no finite input can tell apart: any input runs to the end from
/// one exactly when it does from the other, and when both walks finish they
/// agree on acceptance. Getting stuck counts as an observable outcome, so a
/// state lacking a rule is told apart from one that has it.
pub open spec fn obs_equiv(
    ts: Seq<SpecTransition>,
    accept: Seq<Seq<char>>,
    s1: Seq<char>,
    s2: Seq<char>,
) -> bool {
    forall|w: Seq<char>|
        (#[trigger] spec_runs_to_end(ts, s1, w) <==> #[trigger] spec_runs_to_end(ts, s2, w))
            && (spec_runs_to_end(ts, s1, w) ==> (accept_contains(
            accept,
            spec_trace(ts, s1, w).last(),
        ) <==> accept_contains(accept, spec_trace(ts, s2, w).last())))
}

/// Observably equivalent states agree on acceptance: the empty input tells
/// them apart otherwise.
pub proof fn lemma_obs_equiv_accept(
    ts: Seq<SpecTransition>,
    accept: Seq<Seq<char>>,
    s1: Seq<char>,
    s2: Seq<char>,
)
    requires
        obs_equiv(ts, accept, s1, s2),
    ensures
        accept_contains(accept, s1) <==> accept_contains(accept, s2),
{
    let w = Seq::<char>::empty();
    assert(spec_runs_to_end(ts, s1, w));
    assert(spec_runs_to_end(ts, s2, w));
    assert(spec_trace(ts, s1, w) == seq![s1]);
    assert(spec_trace(ts, s2, w) == seq![s2]);
    assert(spec_trace(ts, s1, w).last() == s1);
    assert(spec_trace(ts, s2, w).last() == s2);
}

/// Observably equivalent states have rules for the same symbols: a single
/// symbol tells them apart otherwise.
pub proof fn lemma_obs_equiv_lookup(
    ts: Seq<SpecTransition>,
    accept: Seq<Seq<char>>,
    s1: Seq<char>,
    s2: Seq<char>,
    c: char,
)
    requires
        obs_equiv(ts, accept, s1, s2),
    ensures
        spec_lookup(ts, s1, c) is Some <==> spec_lookup(ts, s2, c) is Some,
{
    let w = seq![c];
    reveal_with_fuel(spec_runs_to_end, 2);
    assert(w[0] == c);
    assert(w.drop_first() =~= Seq::<char>::empty());
    assert(spec_runs_to_end(ts, s1, w) == (spec_lookup(ts, s1, c) is Some));
    assert(spec_runs_to_end(ts, s2, w) == (spec_lookup(ts, s2, c) is Some));
}

/// Observational equivalence is preserved along matching steps.
pub proof fn lemma_obs_equiv_step(
    ts: Seq<SpecTransition>,
    accept: Seq<Seq<char>>,
    s1: Seq<char>,
    s2: Seq<char>,
    c: char,
    t1: SpecTransition,
    t2: SpecTransition,
)
    requires
        obs_equiv(ts, accept, s1, s2),
        spec_lookup(ts, s1, c) == Some(t1),
        spec_lookup(ts, s2, c) == Some(t2),
    ensures
        obs_equiv(ts, accept, t1.next_state, t2.next_state),
{
    let n1 = t1.next_state;
    let n2 = t2.next_state;
    assert forall|w: Seq<char>|
        (#[trigger] spec_runs_to_end(ts, n1, w) <==> #[trigger] spec_runs_to_end(ts, n2, w))
            && (spec_runs_to_end(ts, n1, w) ==> (accept_contains(
            accept,
            spec_trace(ts, n1, w).last(),
        ) <==> accept_contains(accept, spec_trace(ts, n2, w).last()))) by {
        let cw = seq![c] + w;
        assert(cw.len() > 0);
        assert(cw[0] == c);
        assert(cw.drop_first() =~= w);
        assert(spec_runs_to_end(ts, s1, cw) == spec_runs_to_end(ts, n1, w));
        assert(spec_runs_to_end(ts, s2, cw) == spec_runs_to_end(ts, n2, w));
        lemma_trace_shape(ts, n1, w);
        lemma_trace_shape(ts, n2, w);
        assert(spec_trace(ts, s1, cw) == seq![s1] + spec_trace(ts, n1, w));
        assert(spec_trace(ts, s2, cw) == seq![s2] + spec_trace(ts, n2, w));
        assert(spec_trace(ts, s1, cw).last() == spec_trace(ts, n1, w).last());
        assert(spec_trace(ts, s2, cw).last() == spec_trace(ts, n2, w).last());
    }
}

// ---------------------------------------------------------------------------
// The renaming relation returned by `minimize`.
// ---------------------------------------------------------------------------

/// The first value paired with key `s`, if any.
pub open spec fn pairs_lookup(m: Seq<(Seq<char>, Seq<char>)>, s: Seq<char>) -> Option<Seq<char>>
    decreases m.len(),
{
    if m.len() == 0 {
        None
    } else if m[0].0 == s {
        Some(m[0].1)
    } else {
        pairs_lookup(m.drop_first(), s)
    }
}

/// The new name of `s` under renaming `m`: its mapped name when `s` was
/// merged, otherwise `s` itself.
pub open spec fn rename_state(m: Seq<(Seq<char>, Seq<char>)>, s: Seq<char>) -> Seq<char> {
    match pairs_lookup(m, s) {
        Some(n) => n,
        None => s,
    }
}

/// A transition with both endpoints renamed.
pub open spec fn rename_transition(m: Seq<(Seq<char>, Seq<char>)>, t: SpecTransition) -> SpecTransition {
    SpecTransition {
        state: rename_state(m, t.state),
        input: t.input,
        next_state: rename_state(m, t.next_state),
    }
}

/// The keys of a renaming, in order.
pub open spec fn pairs_keys(m: Seq<(Seq<char>, Seq<char>)>) -> Seq<Seq<char>> {
    m.map_values(|p: (Seq<char>, Seq<char>)| p.0)
}

pub proof fn lemma_pairs_lookup_sound(m: Seq<(Seq<char>, Seq<char>)>, s: Seq<char>)
    ensures
        match pairs_lookup(m, s) {
            Some(n) => exists|i: int| 0 <= i < m.len() && m[i] == (s, n),
            None => forall|i: int| 0 <= i < m.len() ==> (#[trigger] m[i]).0 != s,
        },
    decreases m.len(),
{
    if m.len() > 0 && m[0].0 != s {
        lemma_pairs_lookup_sound(m.drop_first(), s);
        match pairs_lookup(m, s) {
            Some(n) => {
                let i = choose|i: int|
                    0 <= i < m.drop_first().len() && m.drop_first()[i] == (s, n);
                assert(m[i + 1] == (s, n));
            },
            None => {
                assert forall|i: int| 0 <= i < m.len() implies (#[trigger] m[i]).0 != s by {
                    if i > 0 {
                        assert(m.drop_first()[i - 1] == m[i]);
                    }
                }
            },
        }
    }
}

/// The views of a list of renaming pairs.
pub open spec fn pairs_view(v: Seq<(String, String)>) -> Seq<(Seq<char>, Seq<char>)> {
    v.map_values(|p: (String, String)| (p.0@, p.1@))
}

pub proof fn lemma_pairs_lookup_first(m: Seq<(Seq<char>, Seq<char>)>, s: Seq<char>, i: int)
    requires
        0 <= i < m.len(),
        m[i].0 == s,
        forall|j: int| 0 <= j < i ==> (#[trigger] m[j]).0 != s,
    ensures
        pairs_lookup(m, s) == Some(m[i].1),
    decreases m.len(),
{
    if i > 0 {
        assert(m[0].0 != s);
        assert(forall|j: int|
            0 <= j < i - 1 ==> #[trigger] m.drop_first()[j] == m[j + 1]);
        lemma_pairs_lookup_first(m.drop_first(), s, i - 1);
    }
}

pub proof fn lemma_pairs_lookup_none(m: Seq<(Seq<char>, Seq<char>)>, s: Seq<char>)
    requires
        forall|j: int| 0 <= j < m.len() ==> (#[trigger] m[j]).0 != s,
    ensures
        pairs_lookup(m, s) is None,
    decreases m.len(),
{
    if m.len() > 0 {
        lemma_pairs_lookup_none(m.drop_first(), s);
    }
}

/// Looking a key up in a concatenation tries the front part first.
pub proof fn lemma_pairs_lookup_append(
    m1: Seq<(Seq<char>, Seq<char>)>,
    m2: Seq<(Seq<char>, Seq<char>)>,
    s: Seq<char>,
)
    ensures
        pairs_lookup(m1 + m2, s) == if pairs_lookup(m1, s) is Some {
            pairs_lookup(m1, s)
        } else {
            pairs_lookup(m2, s)
        },
    decreases m1.len(),
{
    if m1.len() == 0 {
        assert(m1 + m2 =~= m2);
    } else {
        assert((m1 + m2)[0] == m1[0]);
        assert((m1 + m2).drop_first() =~= m1.drop_first() + m2);
        lemma_pairs_lookup_append(m1.drop_first(), m2, s);
    }
}

pub proof fn lemma_pairs_lookup_at(m: Seq<(Seq<char>, Seq<char>)>, i: int)
    requires
        0 <= i < m.len(),
        forall|j: int| 0 <= j < m.len() && j != i ==> (#[trigger] m[j]).0 != m[i].0,
    ensures
        pairs_lookup(m, m[i].0) == Some(m[i].1),
    decreases m.len(),
{
    if i > 0 {
        assert(m[0].0 != m[i].0);
        assert(forall|j: int|
            0 <= j < m.drop_first().len() && j != i - 1 ==> (#[trigger] m.drop_first()[j]).0
                != m.drop_first()[i - 1].0);
        lemma_pairs_lookup_at(m.drop_first(), i - 1);
    }
}

} // verus!
