//! Laws relating the crate's operations, stated over the same spec functions
//! that the operations' contracts use and proved once and for all.

use vstd::prelude::*;
use crate::model::{
    SpecTransition, SpecDfa, t_matches, spec_lookup, lemma_lookup_sound, spec_trace,
    spec_runs_to_end, spec_accepts, spec_step, reachable_in, spec_reachable, keeps, prune_trans,
    spec_pruned, lemma_reachable_step, lemma_trace_shape, rename_state, rename_transition,
    pairs_lookup, lemma_pairs_lookup_sound, alphabet_has, relevant_state, accept_contains,
};
use crate::refine::{minimize_rel, next_names_agree};

verus! {

/// A well-formed transition relation: at most one target per source state
/// and symbol. Duplicate identical rules are allowed; conflicting ones are
/// not.
pub open spec fn deterministic(ts: Seq<SpecTransition>) -> bool {
    forall|i: int, j: int|
        #![trigger ts[i].state, ts[j].state]
        0 <= i < ts.len() && 0 <= j < ts.len() && ts[i].state == ts[j].state && ts[i].input
            == ts[j].input ==> ts[i].next_state == ts[j].next_state
}

/// Looking a rule up in a longer relation tries the front first and falls
/// back to the appended rule.
proof fn lemma_lookup_push(x: Seq<SpecTransition>, e: SpecTransition, s: Seq<char>, c: char)
    ensures
        spec_lookup(x.push(e), s, c) == if spec_lookup(x, s, c) is Some {
            spec_lookup(x, s, c)
        } else if t_matches(e, s, c) {
            Some(e)
        } else {
            None::<SpecTransition>
        },
    decreases x.len(),
{
    if x.len() == 0 {
        assert(x.push(e)[0] == e);
        assert(x.push(e).drop_first() =~= Seq::<SpecTransition>::empty());
        assert(spec_lookup(Seq::<SpecTransition>::empty(), s, c) is None);
    } else {
        assert(x.push(e)[0] == x[0]);
        assert(x.push(e).drop_first() =~= x.drop_first().push(e));
        lemma_lookup_push(x.drop_first(), e, s, c);
    }
}

/// A filter that keeps everything returns the list unchanged.
proof fn lemma_filter_all_true(s: Seq<SpecTransition>, pred: spec_fn(SpecTransition) -> bool)
    requires
        forall|i: int| 0 <= i < s.len() ==> pred(#[trigger] s[i]),
    ensures
        s.filter(pred) == s,
    decreases s.len(),
{
    reveal(Seq::filter);
    if s.len() > 0 {
        assert forall|i: int| 0 <= i < s.drop_last().len() implies pred(
            #[trigger] s.drop_last()[i],
        ) by {
            assert(s.drop_last()[i] == s[i]);
        }
        lemma_filter_all_true(s.drop_last(), pred);
        assert(pred(s.last()));
        assert(s.filter(pred) =~= s);
    }
}

/// Filtering does not change which rule applies first, as long as the filter
/// keeps every applicable rule.
proof fn lemma_lookup_filter_matches(
    l: Seq<SpecTransition>,
    pred: spec_fn(SpecTransition) -> bool,
    s: Seq<char>,
    c: char,
)
    requires
        forall|i: int| 0 <= i < l.len() && t_matches(#[trigger] l[i], s, c) ==> pred(l[i]),
    ensures
        spec_lookup(l.filter(pred), s, c) == spec_lookup(l, s, c),
    decreases l.len(),
{
    reveal(Seq::filter);
    if l.len() > 0 {
        let l0 = l.drop_last();
        let last = l.last();
        assert forall|i: int| 0 <= i < l0.len() && t_matches(#[trigger] l0[i], s, c) implies pred(
            l0[i],
        ) by {
            assert(l0[i] == l[i]);
        }
        lemma_lookup_filter_matches(l0, pred, s, c);
        assert(l =~= l0.push(last));
        lemma_lookup_push(l0, last, s, c);
        if pred(last) {
            assert(l.filter(pred) == l0.filter(pred).push(last));
            lemma_lookup_push(l0.filter(pred), last, s, c);
        } else {
            assert(!t_matches(last, s, c)) by {
                assert(l[l.len() - 1] == last);
            }
            assert(l.filter(pred) == l0.filter(pred));
        }
    }
}

/// Every rule that survives pruning is a rule of the original relation, with
/// both endpoints reachable there.
proof fn lemma_prune_elements(ts: Seq<SpecTransition>, start: Seq<char>)
    ensures
        forall|t: SpecTransition|
            #[trigger] prune_trans(ts, start).contains(t) ==> ts.contains(t) && spec_reachable(
                ts,
                start,
                t.state,
            ) && spec_reachable(ts, start, t.next_state),
{
    let pr = prune_trans(ts, start);
    assert forall|t: SpecTransition| #[trigger] pr.contains(t) implies ts.contains(t)
        && spec_reachable(ts, start, t.state) && spec_reachable(ts, start, t.next_state) by {
        let i = choose|i: int| 0 <= i < pr.len() && pr[i] == t;
        ts.lemma_filter_pred(keeps(ts, start), i);
        ts.lemma_filter_contains_rev(keeps(ts, start), t);
    }
}

/// Pruning keeps reachability as it was: a state is reachable through the
/// pruned relation exactly when it was reachable through the original one.
proof fn lemma_reach_in_to_prune(ts: Seq<SpecTransition>, start: Seq<char>, s: Seq<char>, n: nat)
    requires
        reachable_in(ts, start, s, n),
    ensures
        reachable_in(prune_trans(ts, start), start, s, n),
    decreases n,
{
    let pr = prune_trans(ts, start);
    if s != start {
        let m = choose|m: Seq<char>|
            reachable_in(ts, start, m, (n - 1) as nat) && spec_step(ts, m, s);
        lemma_reach_in_to_prune(ts, start, m, (n - 1) as nat);
        let j = choose|j: int|
            0 <= j < ts.len() && #[trigger] ts[j].state == m && ts[j].next_state == s;
        assert(spec_reachable(ts, start, m));
        lemma_reachable_step(ts, start, m, s);
        assert(keeps(ts, start)(ts[j]));
        ts.lemma_filter_contains(keeps(ts, start), j);
        let jj = choose|jj: int| 0 <= jj < pr.len() && pr[jj] == ts[j];
        assert(pr[jj].state == m && pr[jj].next_state == s);
        assert(spec_step(pr, m, s));
    }
}

proof fn lemma_reach_in_from_prune(ts: Seq<SpecTransition>, start: Seq<char>, s: Seq<char>, n: nat)
    requires
        reachable_in(prune_trans(ts, start), start, s, n),
    ensures
        reachable_in(ts, start, s, n),
    decreases n,
{
    let pr = prune_trans(ts, start);
    if s != start {
        let m = choose|m: Seq<char>|
            reachable_in(pr, start, m, (n - 1) as nat) && spec_step(pr, m, s);
        lemma_reach_in_from_prune(ts, start, m, (n - 1) as nat);
        let j = choose|j: int|
            0 <= j < pr.len() && #[trigger] pr[j].state == m && pr[j].next_state == s;
        ts.lemma_filter_contains_rev(keeps(ts, start), pr[j]);
        let i = choose|i: int| 0 <= i < ts.len() && ts[i] == pr[j];
        assert(ts[i].state == m && ts[i].next_state == s);
        assert(spec_step(ts, m, s));
    }
}

proof fn lemma_reachable_prune_iff(ts: Seq<SpecTransition>, start: Seq<char>, s: Seq<char>)
    ensures
        spec_reachable(prune_trans(ts, start), start, s) <==> spec_reachable(ts, start, s),
{
    let pr = prune_trans(ts, start);
    if spec_reachable(pr, start, s) {
        let n = choose|n: nat| reachable_in(pr, start, s, n);
        lemma_reach_in_from_prune(ts, start, s, n);
        assert(reachable_in(ts, start, s, n));
    }
    if spec_reachable(ts, start, s) {
        let n = choose|n: nat| reachable_in(ts, start, s, n);
        lemma_reach_in_to_prune(ts, start, s, n);
        assert(reachable_in(pr, start, s, n));
    }
}

/// The reachability pruner is idempotent: pruning an already pruned
/// transition relation gives the same relation back.
pub proof fn lemma_prune_idempotent(ts: Seq<SpecTransition>, start: Seq<char>)
    ensures
        prune_trans(prune_trans(ts, start), start) == prune_trans(ts, start),
{
    let pr = prune_trans(ts, start);
    assert forall|i: int| 0 <= i < pr.len() implies keeps(pr, start)(#[trigger] pr[i]) by {
        ts.lemma_filter_pred(keeps(ts, start), i);
        assert(keeps(ts, start)(pr[i]));
        lemma_reachable_prune_iff(ts, start, pr[i].state);
        lemma_reachable_prune_iff(ts, start, pr[i].next_state);
    }
    lemma_filter_all_true(pr, keeps(pr, start));
}

/// From a reachable state, the pruned relation walks exactly as the original
/// one does.
proof fn lemma_run_prune(
    ts: Seq<SpecTransition>,
    start: Seq<char>,
    s: Seq<char>,
    w: Seq<char>,
)
    requires
        spec_reachable(ts, start, s),
    ensures
        spec_trace(prune_trans(ts, start), s, w) == spec_trace(ts, s, w),
        spec_runs_to_end(prune_trans(ts, start), s, w) == spec_runs_to_end(ts, s, w),
    decreases w.len(),
{
    let pr = prune_trans(ts, start);
    if w.len() > 0 {
        let c = w[0];
        assert forall|i: int| 0 <= i < ts.len() && t_matches(#[trigger] ts[i], s, c) implies keeps(
            ts,
            start,
        )(ts[i]) by {
            assert(ts[i].state == s);
            assert(spec_step(ts, s, ts[i].next_state));
            lemma_reachable_step(ts, start, s, ts[i].next_state);
        }
        lemma_lookup_filter_matches(ts, keeps(ts, start), s, c);
        match spec_lookup(ts, s, c) {
            Some(t) => {
                lemma_lookup_sound(ts, s, c);
                let i = choose|i: int| 0 <= i < ts.len() && ts[i] == t;
                assert(ts[i].state == s && ts[i].next_state == t.next_state);
                assert(spec_step(ts, s, t.next_state));
                lemma_reachable_step(ts, start, s, t.next_state);
                lemma_run_prune(ts, start, t.next_state, w.drop_first());
            },
            None => {},
        }
    }
}

/// Pruning preserves the language: the pruned automaton accepts exactly the
/// inputs the original automaton accepts, with the same trace.
pub proof fn lemma_prune_preserves_language(d: SpecDfa, w: Seq<char>)
    ensures
        spec_accepts(spec_pruned(d), w) == spec_accepts(d, w),
        spec_trace(spec_pruned(d).transitions, d.start_state, w) == spec_trace(
            d.transitions,
            d.start_state,
            w,
        ),
{
    assert(reachable_in(d.transitions, d.start_state, d.start_state, 0));
    assert(spec_reachable(d.transitions, d.start_state, d.start_state));
    lemma_run_prune(d.transitions, d.start_state, d.start_state, w);
}

/// A rule that occurs and applies means the lookup finds some rule.
proof fn lemma_lookup_some_of_match(
    l: Seq<SpecTransition>,
    t: SpecTransition,
    s: Seq<char>,
    c: char,
)
    requires
        l.contains(t),
        t_matches(t, s, c),
    ensures
        spec_lookup(l, s, c) is Some,
{
    lemma_lookup_sound(l, s, c);
    if spec_lookup(l, s, c) is None {
        let i = choose|i: int| 0 <= i < l.len() && l[i] == t;
        assert(!t_matches(l[i], s, c));
    }
}

/// One step of the walk corresponds across the renaming: from a state and
/// its new name, either both automata are stuck on `c`, or both move and the
/// new automaton reaches the renamed target.
proof fn lemma_quotient_step(d0: SpecDfa, d1: SpecDfa, m: Seq<(Seq<char>, Seq<char>)>, s: Seq<
    char,
>, c: char)
    requires
        minimize_rel(d0, d1, m),
        deterministic(spec_pruned(d0).transitions),
    ensures
        spec_lookup(d1.transitions, rename_state(m, s), c) is Some <==> spec_lookup(
            spec_pruned(d0).transitions,
            s,
            c,
        ) is Some,
        spec_lookup(spec_pruned(d0).transitions, s, c) is Some ==> spec_lookup(
            d1.transitions,
            rename_state(m, s),
            c,
        ).unwrap().next_state == rename_state(
            m,
            spec_lookup(spec_pruned(d0).transitions, s, c).unwrap().next_state,
        ),
{
    let p = spec_pruned(d0);
    let rs = rename_state(m, s);
    if spec_lookup(p.transitions, s, c) is Some {
        let t1 = spec_lookup(p.transitions, s, c).unwrap();
        lemma_lookup_sound(p.transitions, s, c);
        assert(p.transitions.contains(t1));
        assert(d1.transitions.contains(rename_transition(m, t1)));
        assert(t_matches(rename_transition(m, t1), rs, c));
        lemma_lookup_some_of_match(d1.transitions, rename_transition(m, t1), rs, c);
    }
    if spec_lookup(d1.transitions, rs, c) is Some {
        let t = spec_lookup(d1.transitions, rs, c).unwrap();
        lemma_lookup_sound(d1.transitions, rs, c);
        assert(d1.transitions.contains(t));
        let t0 = choose|t0: SpecTransition|
            #[trigger] p.transitions.contains(t0) && rename_transition(m, t0) == t;
        assert(rename_state(m, t0.state) == rs);
        assert(alphabet_has(p.transitions, c)) by {
            let i = choose|i: int| 0 <= i < p.transitions.len() && p.transitions[i] == t0;
            assert(p.transitions[i].input == c);
        }
        assert(next_names_agree(p.transitions, m, t0.state, s, c));
        assert(spec_lookup(p.transitions, t0.state, c) is Some) by {
            lemma_lookup_some_of_match(p.transitions, t0, t0.state, c);
        }
        assert(spec_lookup(p.transitions, s, c) is Some);
        let t0p = spec_lookup(p.transitions, t0.state, c).unwrap();
        let t1 = spec_lookup(p.transitions, s, c).unwrap();
        assert(rename_state(m, t0p.next_state) == rename_state(m, t1.next_state));
        // determinism: the rule found for t0.state agrees with t0 itself
        assert(t0p.next_state == t0.next_state) by {
            lemma_lookup_sound(p.transitions, t0.state, c);
            let i = choose|i: int| 0 <= i < p.transitions.len() && p.transitions[i] == t0;
            let j = choose|j: int| 0 <= j < p.transitions.len() && p.transitions[j] == t0p;
            assert(p.transitions[i].state == p.transitions[j].state);
        }
        assert(t.next_state == rename_state(m, t0.next_state));
        assert(t.next_state == rename_state(m, t1.next_state));
    }
}

/// The walks of the pruned automaton and of the minimized automaton
/// correspond under the renaming, step for step.
proof fn lemma_quotient_run(
    d0: SpecDfa,
    d1: SpecDfa,
    m: Seq<(Seq<char>, Seq<char>)>,
    s: Seq<char>,
    w: Seq<char>,
)
    requires
        minimize_rel(d0, d1, m),
        deterministic(spec_pruned(d0).transitions),
    ensures
        spec_runs_to_end(d1.transitions, rename_state(m, s), w) == spec_runs_to_end(
            spec_pruned(d0).transitions,
            s,
            w,
        ),
        spec_runs_to_end(spec_pruned(d0).transitions, s, w) ==> spec_trace(
            d1.transitions,
            rename_state(m, s),
            w,
        ).last() == rename_state(
            m,
            spec_trace(spec_pruned(d0).transitions, s, w).last(),
        ),
    decreases w.len(),
{
    let p = spec_pruned(d0);
    let rs = rename_state(m, s);
    if w.len() > 0 {
        let c = w[0];
        lemma_quotient_step(d0, d1, m, s, c);
        match spec_lookup(p.transitions, s, c) {
            Some(t1) => {
                let t = spec_lookup(d1.transitions, rs, c).unwrap();
                lemma_quotient_run(d0, d1, m, t1.next_state, w.drop_first());
                lemma_trace_shape(d1.transitions, t.next_state, w.drop_first());
                lemma_trace_shape(p.transitions, t1.next_state, w.drop_first());
                assert(spec_trace(d1.transitions, rs, w) == seq![rs] + spec_trace(
                    d1.transitions,
                    t.next_state,
                    w.drop_first(),
                ));
                assert(spec_trace(p.transitions, s, w) == seq![s] + spec_trace(
                    p.transitions,
                    t1.next_state,
                    w.drop_first(),
                ));
                assert(t.next_state == rename_state(m, t1.next_state));
            },
            None => {},
        }
    }
}

/// A state with no entry in a well-formed renaming keeps its name; in
/// particular a state the minimizer never saw does.
proof fn lemma_rename_value_relevant(
    ts: Seq<SpecTransition>,
    acc: Seq<Seq<char>>,
    m: Seq<(Seq<char>, Seq<char>)>,
    a: Seq<char>,
)
    requires
        crate::refine::renaming_well_formed(ts, acc, m),
        pairs_lookup(m, a) is Some,
    ensures
        relevant_state(ts, acc, rename_state(m, a)),
{
    let v = pairs_lookup(m, a).unwrap();
    lemma_pairs_lookup_sound(m, a);
    let i = choose|i: int| 0 <= i < m.len() && m[i] == (a, v);
    assert(pairs_lookup(m, m[i].1) == Some(m[i].1));
    assert(pairs_lookup(m, v) == Some(v));
    lemma_pairs_lookup_sound(m, v);
    let j = choose|j: int| 0 <= j < m.len() && m[j] == (v, v);
    assert(relevant_state(ts, acc, m[j].0));
}

/// Minimizing preserves the language: for every input, the minimized
/// automaton accepts exactly when the automaton it was built from did. The
/// automaton must be well formed, as acceptance under conflicting duplicate
/// rules is settled by rule order, which renaming does not preserve.
pub proof fn lemma_minimize_preserves_language(
    d0: SpecDfa,
    d1: SpecDfa,
    m: Seq<(Seq<char>, Seq<char>)>,
    w: Seq<char>,
)
    requires
        minimize_rel(d0, d1, m),
        deterministic(d0.transitions),
    ensures
        spec_accepts(d1, w) == spec_accepts(d0, w),
{
    let p = spec_pruned(d0);
    assert(deterministic(p.transitions)) by {
        assert forall|i: int, j: int|
            0 <= i < p.transitions.len() && 0 <= j < p.transitions.len()
                && #[trigger] p.transitions[i].state == #[trigger] p.transitions[j].state
                && p.transitions[i].input == p.transitions[j].input implies p.transitions[i].next_state
            == p.transitions[j].next_state by {
            lemma_prune_elements(d0.transitions, d0.start_state);
            assert(p.transitions.contains(p.transitions[i]));
            assert(p.transitions.contains(p.transitions[j]));
            assert(d0.transitions.contains(p.transitions[i]));
            assert(d0.transitions.contains(p.transitions[j]));
            let i0 = choose|k: int|
                0 <= k < d0.transitions.len() && d0.transitions[k] == p.transitions[i];
            let j0 = choose|k: int|
                0 <= k < d0.transitions.len() && d0.transitions[k] == p.transitions[j];
            assert(d0.transitions[i0].state == d0.transitions[j0].state);
        }
    }
    lemma_prune_preserves_language(d0, w);
    lemma_quotient_run(d0, d1, m, d0.start_state, w);
    assert(p.start_state == d0.start_state);
    assert(d1.start_state == rename_state(m, d0.start_state));
    if spec_runs_to_end(p.transitions, d0.start_state, w) {
        let last_p = spec_trace(p.transitions, d0.start_state, w).last();
        let last_1 = spec_trace(d1.transitions, d1.start_state, w).last();
        assert(last_1 == rename_state(m, last_p));
        if accept_contains(p.accept_states, last_p) {
            assert(d1.accept_states.contains(rename_state(m, last_p)));
        }
        if accept_contains(d1.accept_states, last_1) {
            let a = choose|a: Seq<char>|
                #[trigger] p.accept_states.contains(a) && rename_state(m, a) == last_1;
            assert(relevant_state(p.transitions, p.accept_states, a));
            if relevant_state(p.transitions, p.accept_states, last_p) {
                assert(rename_state(m, a) == rename_state(m, last_p));
                assert(accept_contains(p.accept_states, a) <==> accept_contains(
                    p.accept_states,
                    last_p,
                ));
            } else {
                // an unclassified state keeps its name, so the accept state
                // it coincides with is itself
                assert(pairs_lookup(m, last_p) is None) by {
                    lemma_pairs_lookup_sound(m, last_p);
                    match pairs_lookup(m, last_p) {
                        Some(v) => {
                            let i = choose|i: int| 0 <= i < m.len() && m[i] == (last_p, v);
                            assert(relevant_state(p.transitions, p.accept_states, m[i].0));
                        },
                        None => {},
                    }
                }
                assert(rename_state(m, last_p) == last_p);
                match pairs_lookup(m, a) {
                    Some(v) => {
                        lemma_rename_value_relevant(p.transitions, p.accept_states, m, a);
                        assert(relevant_state(p.transitions, p.accept_states, last_p));
                    },
                    None => {
                        assert(rename_state(m, a) == a);
                        assert(a == last_p);
                    },
                }
            }
        }
    }
}

/// The set of states known to a transition relation.
pub open spec fn states_set(ts: Seq<SpecTransition>) -> Set<Seq<char>> {
    Set::new(|s: Seq<char>| crate::model::state_in_transitions(ts, s))
}

proof fn lemma_sit_witness(ts: Seq<SpecTransition>, s: Seq<char>, i: int)
    requires
        0 <= i < ts.len(),
        ts[i].state == s || ts[i].next_state == s,
    ensures
        crate::model::state_in_transitions(ts, s),
{
}

proof fn lemma_states_set_finite(ts: Seq<SpecTransition>)
    ensures
        states_set(ts).finite(),
{
    broadcast use vstd::seq_lib::seq_to_set_is_finite;
    broadcast use vstd::set::group_set_axioms;

    let srcs = ts.map_values(|t: SpecTransition| t.state);
    let dsts = ts.map_values(|t: SpecTransition| t.next_state);
    assert(states_set(ts) =~= srcs.to_set().union(dsts.to_set())) by {
        assert forall|s: Seq<char>| states_set(ts).contains(s) implies srcs.to_set().union(
            dsts.to_set(),
        ).contains(s) by {
            let i = choose|i: int|
                0 <= i < ts.len() && (#[trigger] ts[i].state == s || ts[i].next_state == s);
            if ts[i].state == s {
                assert(srcs[i] == s);
                assert(srcs.contains(s));
            } else {
                assert(dsts[i] == s);
                assert(dsts.contains(s));
            }
        }
        assert forall|s: Seq<char>| srcs.to_set().union(dsts.to_set()).contains(s) implies
            states_set(ts).contains(s) by {
            if srcs.contains(s) {
                let i = choose|i: int| 0 <= i < srcs.len() && srcs[i] == s;
                assert(ts[i].state == s || ts[i].next_state == s);
                lemma_sit_witness(ts, s, i);
            } else {
                assert(dsts.contains(s));
                let i = choose|i: int| 0 <= i < dsts.len() && dsts[i] == s;
                assert(ts[i].state == s || ts[i].next_state == s);
                lemma_sit_witness(ts, s, i);
            }
        }
    }
}

/// The image of a finite set is no larger than the set.
proof fn lemma_map_card(s: Set<Seq<char>>, f: spec_fn(Seq<char>) -> Seq<char>)
    requires
        s.finite(),
    ensures
        s.map(f).finite(),
        s.map(f).len() <= s.len(),
    decreases s.len(),
{
    broadcast use vstd::set::group_set_axioms;

    s.lemma_map_finite(f);
    if s.len() == 0 {
        s.lemma_len0_is_empty();
        assert(s.map(f) =~= Set::<Seq<char>>::empty());
    } else {
        let x = s.choose();
        let rest = s.remove(x);
        lemma_map_card(rest, f);
        rest.lemma_set_map_insert_commute(x, f);
        assert(rest.insert(x) =~= s);
        assert(s.map(f) =~= rest.map(f).insert(f(x)));
        assert(rest.map(f).insert(f(x)).len() <= rest.map(f).len() + 1);
    }
}

/// Minimizing never adds states: the states of the minimized automaton are
/// at most as many as those of the pruned automaton it was built from.
pub proof fn lemma_minimize_state_count(d0: SpecDfa, d1: SpecDfa, m: Seq<(Seq<char>, Seq<char>)>)
    requires
        minimize_rel(d0, d1, m),
    ensures
        states_set(d1.transitions).finite(),
        states_set(spec_pruned(d0).transitions).finite(),
        states_set(d1.transitions).len() <= states_set(spec_pruned(d0).transitions).len(),
{
    broadcast use vstd::set::group_set_axioms;

    let p = spec_pruned(d0);
    let f = |s: Seq<char>| rename_state(m, s);
    lemma_states_set_finite(d1.transitions);
    lemma_states_set_finite(p.transitions);
    lemma_map_card(states_set(p.transitions), f);
    assert(states_set(d1.transitions).subset_of(states_set(p.transitions).map(f))) by {
        assert forall|x: Seq<char>| states_set(d1.transitions).contains(x) implies states_set(
            p.transitions,
        ).map(f).contains(x) by {
            let i = choose|i: int|
                0 <= i < d1.transitions.len() && (#[trigger] d1.transitions[i].state == x
                    || d1.transitions[i].next_state == x);
            let t = d1.transitions[i];
            assert(d1.transitions.contains(t));
            let t0 = choose|t0: SpecTransition|
                #[trigger] p.transitions.contains(t0) && rename_transition(m, t0) == t;
            let j = choose|j: int| 0 <= j < p.transitions.len() && p.transitions[j] == t0;
            if t.state == x {
                assert(p.transitions[j].state == t0.state);
                assert(states_set(p.transitions).contains(t0.state));
                assert(f(t0.state) == x);
            } else {
                assert(p.transitions[j].next_state == t0.next_state);
                assert(states_set(p.transitions).contains(t0.next_state));
                assert(f(t0.next_state) == x);
            }
        }
    }
    vstd::set_lib::lemma_len_subset(
        states_set(d1.transitions),
        states_set(p.transitions).map(f),
    );
}

} // verus!
