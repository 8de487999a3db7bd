//! The reachability pruner: a breadth-first walk from the start state marks
//! every reachable state, and every transition touching an unmarked state is
//! discarded.

use vstd::prelude::*;
use crate::model::{
    SpecTransition, spec_step, reachable_in, spec_reachable, keeps, prune_trans, spec_pruned,
    lemma_reachable_step,
};
use crate::automaton::{Dfa, Transition, views_of_transitions};
use crate::order::{str_eq, vec_str_contains, insert_string, views_of_strings};

verus! {

/// `s` is the target of some rule.
pub open spec fn state_is_target(ts: Seq<SpecTransition>, s: Seq<char>) -> bool {
    exists|j: int| 0 <= j < ts.len() && #[trigger] ts[j].next_state == s
}

/// Every listed state past the first is the target of some rule.
pub open spec fn sourced_in(v: Seq<Seq<char>>, ts: Seq<SpecTransition>) -> bool {
    forall|k: int| 1 <= k < v.len() ==> state_is_target(ts, #[trigger] v[k])
}

/// A list of states is closed under the transition relation: every rule
/// leaving a listed state leads to a listed state.
pub open spec fn closed_under_steps(v: Seq<Seq<char>>, ts: Seq<SpecTransition>) -> bool {
    forall|k: int, j: int|
        #![trigger v[k], ts[j].state]
        0 <= k < v.len() && 0 <= j < ts.len() && ts[j].state == v[k] ==> v.contains(
            ts[j].next_state,
        )
}

/// Any list of states containing the start state and closed under steps
/// contains every reachable state.
proof fn lemma_closed_covers(
    v: Seq<Seq<char>>,
    ts: Seq<SpecTransition>,
    start: Seq<char>,
    s: Seq<char>,
    n: nat,
)
    requires
        v.contains(start),
        closed_under_steps(v, ts),
        reachable_in(ts, start, s, n),
    ensures
        v.contains(s),
    decreases n,
{
    if s != start {
        let m = choose|m: Seq<char>|
            reachable_in(ts, start, m, (n - 1) as nat) && spec_step(ts, m, s);
        lemma_closed_covers(v, ts, start, m, (n - 1) as nat);
        let k = choose|k: int| 0 <= k < v.len() && v[k] == m;
        let j = choose|j: int| 0 <= j < ts.len() && #[trigger] ts[j].state == m && ts[j].next_state == s;
        assert(ts[j].state == v[k]);
    }
}

/// A duplicate-free list whose members past the first are all targets of
/// transitions cannot be longer than the transition list plus one.
proof fn lemma_visited_bound(v: Seq<Seq<char>>, ts: Seq<SpecTransition>)
    requires
        v.no_duplicates(),
        sourced_in(v, ts),
    ensures
        v.len() <= ts.len() + 1,
{
    broadcast use vstd::seq_lib::seq_to_set_is_finite;
    broadcast use vstd::set::group_set_axioms;

    if v.len() > 1 {
        let tail = v.skip(1);
        let nexts = ts.map_values(|t: SpecTransition| t.next_state);
        assert(tail.no_duplicates()) by {
            assert forall|p: int, q: int|
                0 <= p < tail.len() && 0 <= q < tail.len() && p != q implies tail[p]
                != tail[q] by {
                assert(tail[p] == v[p + 1]);
                assert(tail[q] == v[q + 1]);
            }
        }
        assert forall|x: Seq<char>| tail.to_set().contains(x) implies nexts.to_set().contains(
            x,
        ) by {
            let p = choose|p: int| 0 <= p < tail.len() && tail[p] == x;
            assert(tail[p] == v[p + 1]);
            assert(state_is_target(ts, v[p + 1]));
            let j = choose|j: int| 0 <= j < ts.len() && #[trigger] ts[j].next_state == v[p + 1];
            assert(nexts[j] == x);
            assert(nexts.contains(x));
        }
        tail.unique_seq_to_set();
        nexts.lemma_cardinality_of_set();
        vstd::set_lib::lemma_len_subset(tail.to_set(), nexts.to_set());
        assert(tail.len() <= nexts.len());
    }
}

impl Dfa {
    /// Removes all states that cannot be reached from the start state, by
    /// discarding every transition that has such a state as its source or its
    /// target. The graph is walked breadth-first, and a state is marked
    /// visited the moment it is scheduled, so the walk terminates on cyclic
    /// graphs. The surviving transitions keep their order; the name, the
    /// start state and the accept states stay untouched.
    pub fn remove_inaccessible_states(&mut self)
        ensures
            final(self)@ == spec_pruned(old(self)@),
    {
        let ghost ts = old(self)@.transitions;
        let ghost start = old(self)@.start_state;
        let mut visited_states: Vec<String> = Vec::new();
        visited_states.push(self.start_state.clone());
        proof {
            assert(views_of_strings(visited_states@) =~= seq![start]);
            assert(views_of_strings(visited_states@)[0] == start);
            assert(views_of_strings(visited_states@).contains(start));
            assert(reachable_in(ts, start, start, 0));
            assert(spec_reachable(ts, start, start));
        }
        let mut i: usize = 0;
        while i < visited_states.len()
            invariant
                *self == *old(self),
                ts == self@.transitions,
                start == self@.start_state,
                0 <= i <= visited_states@.len(),
                views_of_strings(visited_states@).no_duplicates(),
                views_of_strings(visited_states@).contains(start),
                forall|k: int|
                    0 <= k < visited_states@.len() ==> spec_reachable(
                        ts,
                        start,
                        #[trigger] views_of_strings(visited_states@)[k],
                    ),
                sourced_in(views_of_strings(visited_states@), ts),
                visited_states@.len() <= ts.len() + 1,
                forall|k: int, j: int|
                    #![trigger views_of_strings(visited_states@)[k], ts[j].state]
                    0 <= k < i && 0 <= j < ts.len() && ts[j].state == views_of_strings(
                        visited_states@,
                    )[k] ==> views_of_strings(visited_states@).contains(ts[j].next_state),
            decreases ts.len() + 1 - i,
        {
            let current = visited_states[i].clone();
            proof {
                assert(current@ == views_of_strings(visited_states@)[i as int]);
            }
            let n = self.transitions.len();
            let mut j: usize = 0;
            while j < n
                invariant
                    *self == *old(self),
                    ts == self@.transitions,
                    start == self@.start_state,
                    n == ts.len(),
                    0 <= j <= n,
                    0 <= i < visited_states@.len(),
                    current@ == views_of_strings(visited_states@)[i as int],
                    views_of_strings(visited_states@).no_duplicates(),
                    views_of_strings(visited_states@).contains(start),
                    forall|k: int|
                        0 <= k < visited_states@.len() ==> spec_reachable(
                            ts,
                            start,
                            #[trigger] views_of_strings(visited_states@)[k],
                        ),
                    sourced_in(views_of_strings(visited_states@), ts),
                    visited_states@.len() <= ts.len() + 1,
                    forall|k: int, jj: int|
                        #![trigger views_of_strings(visited_states@)[k], ts[jj].state]
                        0 <= k < i && 0 <= jj < ts.len() && ts[jj].state == views_of_strings(
                            visited_states@,
                        )[k] ==> views_of_strings(visited_states@).contains(ts[jj].next_state),
                    forall|jj: int|
                        0 <= jj < j && #[trigger] ts[jj].state == current@ ==> views_of_strings(
                            visited_states@,
                        ).contains(ts[jj].next_state),
                decreases n - j,
            {
                let t = &self.transitions[j];
                proof {
                    assert(ts[j as int] == t@);
                }
                if str_eq(t.state.as_str(), current.as_str()) {
                    let ghost prev = views_of_strings(visited_states@);
                    insert_string(&mut visited_states, &t.next_state);
                    proof {
                        let cur_v = views_of_strings(visited_states@);
                        if cur_v != prev {
                            assert(cur_v == prev.push(t.next_state@));
                            assert(cur_v[prev.len() as int] == t.next_state@);
                            assert(spec_step(ts, current@, t.next_state@)) by {
                                assert(ts[j as int].state == current@ && ts[j as int].next_state
                                    == t.next_state@);
                            }
                            lemma_reachable_step(ts, start, current@, t.next_state@);
                            assert forall|k: int| 0 <= k < cur_v.len() implies spec_reachable(
                                ts,
                                start,
                                #[trigger] cur_v[k],
                            ) by {
                                if k < prev.len() {
                                    assert(cur_v[k] == prev[k]);
                                }
                            }
                            assert(state_is_target(ts, t.next_state@)) by {
                                assert(ts[j as int].next_state == t.next_state@);
                            }
                            assert forall|k: int| 1 <= k < cur_v.len() implies state_is_target(
                                ts,
                                #[trigger] cur_v[k],
                            ) by {
                                if k < prev.len() {
                                    assert(cur_v[k] == prev[k]);
                                } else {
                                    assert(cur_v[k] == t.next_state@);
                                }
                            }
                            lemma_visited_bound(cur_v, ts);
                        }
                    }
                }
                j += 1;
            }
            i += 1;
        }
        proof {
            let v = views_of_strings(visited_states@);
            assert(closed_under_steps(v, ts));
            assert forall|s: Seq<char>| v.contains(s) <==> spec_reachable(ts, start, s) by {
                if v.contains(s) {
                    let k = choose|k: int| 0 <= k < v.len() && v[k] == s;
                    assert(spec_reachable(ts, start, v[k]));
                }
                if spec_reachable(ts, start, s) {
                    let n = choose|n: nat| reachable_in(ts, start, s, n);
                    lemma_closed_covers(v, ts, start, s, n);
                }
            }
        }
        let m = self.transitions.len();
        let mut kept: Vec<Transition> = Vec::new();
        proof {
            assert(ts.take(0) =~= Seq::<SpecTransition>::empty());
            assert(views_of_transitions(kept@) =~= Seq::<SpecTransition>::empty());
            assert(Seq::<SpecTransition>::empty().filter(keeps(ts, start))
                =~= Seq::<SpecTransition>::empty()) by {
                reveal(Seq::filter);
            }
        }
        let mut j: usize = 0;
        while j < m
            invariant
                *self == *old(self),
                ts == self@.transitions,
                start == self@.start_state,
                m == ts.len(),
                0 <= j <= m,
                forall|s: Seq<char>|
                    views_of_strings(visited_states@).contains(s) <==> spec_reachable(
                        ts,
                        start,
                        s,
                    ),
                views_of_transitions(kept@) == ts.take(j as int).filter(keeps(ts, start)),
            decreases m - j,
        {
            let t = &self.transitions[j];
            proof {
                assert(ts[j as int] == t@);
            }
            let keep_state = vec_str_contains(&visited_states, &t.state);
            let keep_next = vec_str_contains(&visited_states, &t.next_state);
            let ghost prev_kept = views_of_transitions(kept@);
            proof {
                ts.lemma_take_succ_push(j as int);
                ts.take(j as int).lemma_filter_push(ts[j as int], keeps(ts, start));
                assert((keep_state && keep_next) == keeps(ts, start)(ts[j as int]));
            }
            if keep_state && keep_next {
                kept.push(
                    Transition {
                        state: t.state.clone(),
                        input: t.input,
                        next_state: t.next_state.clone(),
                    },
                );
                proof {
                    assert(views_of_transitions(kept@) =~= prev_kept.push(t@));
                }
            }
            j += 1;
        }
        proof {
            assert(ts.take(m as int) =~= ts);
        }
        self.transitions = kept;
    }
}

} // verus!
