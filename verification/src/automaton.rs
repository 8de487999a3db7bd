//! The automaton data model and its read-only operations: transition lookup,
//! enumeration of states and symbols, and the simulator.

use vstd::prelude::*;
use crate::model::{
    SpecTransition, SpecDfa, t_matches, spec_lookup, lemma_lookup_at, lemma_lookup_none,
    spec_trace, spec_runs_to_end, spec_accepts, alphabet_has, state_in_transitions,
    lemma_trace_shape, lemma_trace_append,
};
use crate::order::{str_eq, vec_str_contains, insert_char, insert_string, views_of_strings};

verus! {

/// Describes to which next state a DFA switches when it reads a certain
/// input symbol while sitting in a certain state.
#[derive(Clone, Debug, PartialEq, Eq, Hash, PartialOrd, Ord)]
pub struct Transition {
    pub state: String,
    pub input: char,
    pub next_state: String,
}

impl View for Transition {
    type V = SpecTransition;

    open spec fn view(&self) -> SpecTransition {
        SpecTransition {
            state: self.state@,
            input: self.input,
            next_state: self.next_state@,
        }
    }
}

/// The views of a list of transitions.
pub open spec fn views_of_transitions(v: Seq<Transition>) -> Seq<SpecTransition> {
    v.map_values(|t: Transition| t@)
}

/// A deterministic finite acceptor: a descriptive name (diagnostics only), a
/// start state, the accept states, and the transition relation. A well-formed
/// automaton holds at most one transition per (state, symbol) pair; this is
/// not validated, and lookups in a malformed automaton take the first match.
#[derive(Clone, Debug)]
pub struct Dfa {
    pub name: String,
    pub start_state: String,
    pub accept_states: Vec<String>,
    pub transitions: Vec<Transition>,
}

impl View for Dfa {
    type V = SpecDfa;

    open spec fn view(&self) -> SpecDfa {
        SpecDfa {
            name: self.name@,
            start_state: self.start_state@,
            accept_states: views_of_strings(self.accept_states@),
            transitions: views_of_transitions(self.transitions@),
        }
    }
}

impl Dfa {
    /// Tries to find a transition that fits the current situation: what
    /// happens when the automaton is in `state` and reads `input`? `None`
    /// means no rule applies and the automaton is in its implicit error
    /// state.
    pub fn get_transition(&self, state: &str, input: &char) -> (r: Option<&Transition>)
        ensures
            match r {
                Some(t) => spec_lookup(self@.transitions, state@, *input) == Some(t@),
                None => spec_lookup(self@.transitions, state@, *input) is None,
            },
    {
        let ghost ts = self@.transitions;
        let n = self.transitions.len();
        let mut i: usize = 0;
        while i < n
            invariant
                n == self.transitions.len(),
                ts == views_of_transitions(self.transitions@),
                0 <= i <= n,
                forall|j: int| 0 <= j < i ==> !t_matches(#[trigger] ts[j], state@, *input),
            decreases n - i,
        {
            let t = &self.transitions[i];
            if str_eq(t.state.as_str(), state) && t.input == *input {
                proof {
                    assert(ts[i as int] == t@);
                    lemma_lookup_at(ts, state@, *input, i as int);
                }
                return Some(t);
            }
            proof {
                assert(ts[i as int] == t@);
            }
            i += 1;
        }
        proof {
            lemma_lookup_none(ts, state@, *input);
        }
        None
    }

    /// Every symbol appearing in some transition: the working alphabet,
    /// derived from the data. Each symbol is listed once.
    pub fn get_all_input_symbols(&self) -> (r: Vec<char>)
        ensures
            r@.no_duplicates(),
            forall|c: char| r@.contains(c) <==> alphabet_has(self@.transitions, c),
    {
        let ghost ts = self@.transitions;
        let n = self.transitions.len();
        let mut out: Vec<char> = Vec::new();
        let mut i: usize = 0;
        while i < n
            invariant
                n == self.transitions.len(),
                ts == views_of_transitions(self.transitions@),
                0 <= i <= n,
                out@.no_duplicates(),
                forall|c: char|
                    out@.contains(c) <==> exists|j: int| 0 <= j < i && #[trigger] ts[j].input == c,
            decreases n - i,
        {
            let c = self.transitions[i].input;
            proof {
                assert(ts[i as int].input == c);
            }
            let ghost prev = out@;
            insert_char(&mut out, c);
            proof {
                assert forall|x: char| out@.contains(x) implies exists|j: int|
                    0 <= j < i + 1 && #[trigger] ts[j].input == x by {
                    if prev.contains(x) {
                        let j = choose|j: int| 0 <= j < i && #[trigger] ts[j].input == x;
                        assert(ts[j].input == x);
                    } else {
                        assert(ts[i as int].input == x);
                    }
                }
                assert forall|x: char|
                    (exists|j: int| 0 <= j < i + 1 && #[trigger] ts[j].input == x) implies out@
                    .contains(x) by {
                    let j = choose|j: int| 0 <= j < i + 1 && #[trigger] ts[j].input == x;
                    if j < i {
                        assert(exists|k: int| 0 <= k < i && #[trigger] ts[k].input == x);
                    }
                }
            }
            i += 1;
        }
        out
    }

    /// Every state appearing as a source or a target of some transition.
    /// States appearing only among the accept states are not included. Each
    /// state is listed once.
    pub fn get_all_states(&self) -> (r: Vec<String>)
        ensures
            views_of_strings(r@).no_duplicates(),
            forall|s: Seq<char>|
                views_of_strings(r@).contains(s) <==> state_in_transitions(self@.transitions, s),
    {
        let ghost ts = self@.transitions;
        let n = self.transitions.len();
        let mut out: Vec<String> = Vec::new();
        let mut i: usize = 0;
        while i < n
            invariant
                n == self.transitions.len(),
                ts == views_of_transitions(self.transitions@),
                0 <= i <= n,
                views_of_strings(out@).no_duplicates(),
                forall|s: Seq<char>|
                    views_of_strings(out@).contains(s) ==> state_in_transitions(ts, s),
                forall|j: int|
                    0 <= j < i ==> views_of_strings(out@).contains(#[trigger] ts[j].state)
                        && views_of_strings(out@).contains(ts[j].next_state),
            decreases n - i,
        {
            let t = &self.transitions[i];
            proof {
                assert(ts[i as int] == t@);
            }
            let ghost prev = views_of_strings(out@);
            insert_string(&mut out, &t.state);
            let ghost mid = views_of_strings(out@);
            insert_string(&mut out, &t.next_state);
            proof {
                assert forall|s: Seq<char>|
                    views_of_strings(out@).contains(s) implies state_in_transitions(ts, s) by {
                    if !prev.contains(s) {
                        assert(ts[i as int].state == s || ts[i as int].next_state == s);
                    }
                }
                assert(mid.contains(t.state@));
                assert(views_of_strings(out@).contains(t.state@));
                assert(views_of_strings(out@).contains(t.next_state@));
                assert forall|j: int| 0 <= j < i + 1 implies views_of_strings(out@).contains(
                    #[trigger] ts[j].state,
                ) && views_of_strings(out@).contains(ts[j].next_state) by {
                    if j < i {
                        assert(prev.contains(ts[j].state));
                        assert(prev.contains(ts[j].next_state));
                        assert(mid.contains(ts[j].state));
                        assert(mid.contains(ts[j].next_state));
                    }
                }
            }
            i += 1;
        }
        proof {
            assert forall|s: Seq<char>| state_in_transitions(ts, s) implies views_of_strings(
                out@,
            ).contains(s) by {
                let j = choose|j: int|
                    0 <= j < ts.len() && (#[trigger] ts[j].state == s || ts[j].next_state == s);
                assert(views_of_strings(out@).contains(ts[j].state));
                assert(views_of_strings(out@).contains(ts[j].next_state));
            }
        }
        out
    }

    /// Checks whether the input is accepted. Additionally returns the states
    /// traversed while processing the input, the start state first. The walk
    /// stops at the first symbol with no applicable rule and rejects there;
    /// otherwise the verdict says whether the last reached state accepts.
    pub fn check(&self, input: &str) -> (r: (bool, Vec<String>))
        ensures
            views_of_strings(r.1@) == spec_trace(self@.transitions, self@.start_state, input@),
            r.0 == spec_accepts(self@, input@),
    {
        let ghost ts = self@.transitions;
        let ghost w = input@;
        let ghost start = self@.start_state;
        let n = input.unicode_len();
        let mut traversed_states: Vec<String> = Vec::new();
        traversed_states.push(self.start_state.clone());
        proof {
            assert(w.take(0) =~= Seq::<char>::empty());
            assert(views_of_strings(traversed_states@) =~= seq![start]);
        }
        let mut i: usize = 0;
        while i < n
            invariant
                n == w.len(),
                0 <= i <= n,
                ts == self@.transitions,
                w == input@,
                start == self@.start_state,
                traversed_states@.len() >= 1,
                views_of_strings(traversed_states@) == spec_trace(ts, start, w.take(i as int)),
                spec_runs_to_end(ts, start, w.take(i as int)),
            decreases n - i,
        {
            let c = input.get_char(i);
            let cur = traversed_states[traversed_states.len() - 1].clone();
            proof {
                lemma_trace_shape(ts, start, w.take(i as int));
                assert(cur@ == views_of_strings(traversed_states@).last());
                assert(cur@ == spec_trace(ts, start, w.take(i as int)).last());
            }
            match self.get_transition(cur.as_str(), &c) {
                Some(next_transition) => {
                    let ns = next_transition.next_state.clone();
                    proof {
                        reveal_with_fuel(spec_trace, 2);
                        reveal_with_fuel(spec_runs_to_end, 2);
                        lemma_trace_append(ts, start, w.take(i as int), seq![c]);
                        assert(w.take(i as int) + seq![c] =~= w.take(i as int + 1));
                        assert(seq![c][0] == c);
                        assert(seq![c].drop_first() =~= Seq::<char>::empty());
                        assert(spec_trace(ts, cur@, seq![c]) =~= seq![cur@, ns@]);
                        assert(spec_runs_to_end(ts, cur@, seq![c]));
                        assert(spec_trace(ts, start, w.take(i as int + 1)) =~= spec_trace(
                            ts,
                            start,
                            w.take(i as int),
                        ) + seq![ns@]);
                        assert(views_of_strings(traversed_states@.push(ns)) =~= views_of_strings(
                            traversed_states@,
                        ).push(ns@));
                    }
                    traversed_states.push(ns);
                },
                None => {
                    proof {
                        lemma_trace_append(ts, start, w.take(i as int), w.skip(i as int));
                        assert(w.take(i as int) + w.skip(i as int) =~= w);
                        assert(w.skip(i as int)[0] == c);
                        assert(w.skip(i as int).len() > 0);
                        assert(spec_trace(ts, cur@, w.skip(i as int)) =~= seq![cur@]);
                        assert(!spec_runs_to_end(ts, cur@, w.skip(i as int)));
                        assert(spec_trace(ts, start, w) =~= spec_trace(ts, start, w.take(i as int)));
                        assert(!spec_runs_to_end(ts, start, w));
                    }
                    return (false, traversed_states);
                },
            }
            i += 1;
        }
        proof {
            assert(w.take(n as int) =~= w);
            lemma_trace_shape(ts, start, w);
        }
        let last = traversed_states[traversed_states.len() - 1].clone();
        proof {
            assert(last@ == views_of_strings(traversed_states@).last());
            assert(last@ == spec_trace(ts, start, w).last());
        }
        let verdict = vec_str_contains(&self.accept_states, &last);
        (verdict, traversed_states)
    }

    /// The verdict of `check` without the trace: performs the same walk but
    /// keeps only the current state.
    pub fn test(&self, input: &str) -> (r: bool)
        ensures
            r == spec_accepts(self@, input@),
    {
        let ghost ts = self@.transitions;
        let ghost w = input@;
        let ghost start = self@.start_state;
        let n = input.unicode_len();
        let mut current_state = self.start_state.clone();
        proof {
            assert(w.take(0) =~= Seq::<char>::empty());
        }
        let mut i: usize = 0;
        while i < n
            invariant
                n == w.len(),
                0 <= i <= n,
                ts == self@.transitions,
                w == input@,
                start == self@.start_state,
                current_state@ == spec_trace(ts, start, w.take(i as int)).last(),
                spec_runs_to_end(ts, start, w.take(i as int)),
            decreases n - i,
        {
            let c = input.get_char(i);
            proof {
                lemma_trace_shape(ts, start, w.take(i as int));
            }
            match self.get_transition(current_state.as_str(), &c) {
                Some(next_transition) => {
                    let ns = next_transition.next_state.clone();
                    proof {
                        reveal_with_fuel(spec_trace, 2);
                        reveal_with_fuel(spec_runs_to_end, 2);
                        lemma_trace_append(ts, start, w.take(i as int), seq![c]);
                        assert(w.take(i as int) + seq![c] =~= w.take(i as int + 1));
                        assert(seq![c][0] == c);
                        assert(seq![c].drop_first() =~= Seq::<char>::empty());
                        assert(spec_trace(ts, current_state@, seq![c]) =~= seq![
                            current_state@,
                            ns@,
                        ]);
                        assert(spec_runs_to_end(ts, current_state@, seq![c]));
                        assert(spec_trace(ts, start, w.take(i as int + 1)) =~= spec_trace(
                            ts,
                            start,
                            w.take(i as int),
                        ) + seq![ns@]);
                    }
                    current_state = ns;
                },
                None => {
                    proof {
                        lemma_trace_append(ts, start, w.take(i as int), w.skip(i as int));
                        assert(w.take(i as int) + w.skip(i as int) =~= w);
                        assert(w.skip(i as int)[0] == c);
                        assert(w.skip(i as int).len() > 0);
                        assert(!spec_runs_to_end(ts, current_state@, w.skip(i as int)));
                        assert(!spec_runs_to_end(ts, start, w));
                    }
                    return false;
                },
            }
            i += 1;
        }
        proof {
            assert(w.take(n as int) =~= w);
            lemma_trace_shape(ts, start, w);
        }
        vec_str_contains(&self.accept_states, &current_state)
    }
}

} // verus!
