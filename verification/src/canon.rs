//! Canonical form of a transition relation: sorting by the triple order and
//! removing duplicates, so that equal relations always print the same way.

use vstd::prelude::*;
use crate::model::SpecTransition;
use crate::automaton::{Transition, views_of_transitions};
use crate::order::{
    str_eq, str_lt, spec_trans_lt, spec_trans_le, lemma_trans_trichotomy, lemma_trans_le_trans,
};

verus! {

/// Adjacent pairs are weakly ordered.
pub open spec fn sorted_le(ts: Seq<SpecTransition>) -> bool {
    forall|i: int| 0 <= i < ts.len() - 1 ==> spec_trans_le(#[trigger] ts[i], ts[i + 1])
}

/// Adjacent pairs are strictly ordered: sorted and duplicate-free.
pub open spec fn strictly_sorted(ts: Seq<SpecTransition>) -> bool {
    forall|i: int| 0 <= i < ts.len() - 1 ==> spec_trans_lt(#[trigger] ts[i], ts[i + 1])
}

/// Weak adjacent order extends to any two positions.
pub proof fn lemma_sorted_le_global(ts: Seq<SpecTransition>, i: int, j: int)
    requires
        sorted_le(ts),
        0 <= i <= j < ts.len(),
    ensures
        spec_trans_le(ts[i], ts[j]),
    decreases j - i,
{
    if i < j {
        lemma_sorted_le_global(ts, i, j - 1);
        lemma_trans_le_trans(ts[i], ts[j - 1], ts[j]);
    }
}

/// Strict adjacent order extends to any two positions.
pub proof fn lemma_strictly_sorted_global(ts: Seq<SpecTransition>, i: int, j: int)
    requires
        strictly_sorted(ts),
        0 <= i < j < ts.len(),
    ensures
        spec_trans_lt(ts[i], ts[j]),
    decreases j - i,
{
    if i < j - 1 {
        lemma_strictly_sorted_global(ts, i, j - 1);
        lemma_trans_trichotomy(ts[i], ts[j - 1]);
        lemma_trans_trichotomy(ts[j - 1], ts[j]);
        if spec_trans_lt(ts[i], ts[j - 1]) && spec_trans_lt(ts[j - 1], ts[j]) {
            crate::order::lemma_trans_lt_trans(ts[i], ts[j - 1], ts[j]);
        }
    }
}

/// The strict triple order on transition values.
pub fn trans_lt(a: &Transition, b: &Transition) -> (r: bool)
    ensures
        r == spec_trans_lt(a@, b@),
{
    if str_lt(a.state.as_str(), b.state.as_str()) {
        true
    } else if str_eq(a.state.as_str(), b.state.as_str()) {
        if a.input < b.input {
            true
        } else if a.input == b.input {
            str_lt(a.next_state.as_str(), b.next_state.as_str())
        } else {
            false
        }
    } else {
        false
    }
}

/// Field-for-field equality of two transitions.
pub fn trans_eq(a: &Transition, b: &Transition) -> (r: bool)
    ensures
        r == (a@ == b@),
{
    let r = str_eq(a.state.as_str(), b.state.as_str()) && a.input == b.input && str_eq(
        a.next_state.as_str(),
        b.next_state.as_str(),
    );
    proof {
        if a@.state == b@.state && a@.input == b@.input && a@.next_state == b@.next_state {
            assert(a@ == b@);
        }
    }
    r
}

/// Sorts a transition list by the triple order with a selection sort. The
/// result holds exactly the values of the input, weakly ordered.
pub fn sort_transitions(input: Vec<Transition>) -> (r: Vec<Transition>)
    ensures
        sorted_le(views_of_transitions(r@)),
        forall|t: SpecTransition|
            views_of_transitions(r@).contains(t) <==> views_of_transitions(input@).contains(t),
{
    let ghost orig = views_of_transitions(input@);
    let mut rest = input;
    let mut out: Vec<Transition> = Vec::new();
    while rest.len() > 0
        invariant
            sorted_le(views_of_transitions(out@)),
            forall|t: SpecTransition|
                #![trigger views_of_transitions(out@).contains(t)]
                views_of_transitions(out@).contains(t) ==> orig.contains(t),
            forall|t: SpecTransition|
                #![trigger views_of_transitions(rest@).contains(t)]
                views_of_transitions(rest@).contains(t) ==> orig.contains(t),
            forall|t: SpecTransition|
                #![trigger orig.contains(t)]
                orig.contains(t) ==> views_of_transitions(out@).contains(t)
                    || views_of_transitions(rest@).contains(t),
            forall|oi: int, ri: int|
                #![trigger views_of_transitions(out@)[oi], views_of_transitions(rest@)[ri]]
                0 <= oi < out@.len() && 0 <= ri < rest@.len() ==> spec_trans_le(
                    views_of_transitions(out@)[oi],
                    views_of_transitions(rest@)[ri],
                ),
        decreases rest@.len(),
    {
        let ghost rv = views_of_transitions(rest@);
        let n = rest.len();
        let mut min_idx: usize = 0;
        let mut k: usize = 1;
        while k < n
            invariant
                n == rest@.len(),
                rv == views_of_transitions(rest@),
                0 <= min_idx < n,
                1 <= k <= n,
                forall|j: int| 0 <= j < k ==> spec_trans_le(rv[min_idx as int], #[trigger] rv[j]),
            decreases n - k,
        {
            let is_less = trans_lt(&rest[k], &rest[min_idx]);
            proof {
                assert(rv[k as int] == rest@[k as int]@);
                lemma_trans_trichotomy(rv[k as int], rv[min_idx as int]);
            }
            if is_less {
                proof {
                    assert forall|j: int| 0 <= j < k + 1 implies spec_trans_le(
                        rv[k as int],
                        #[trigger] rv[j],
                    ) by {
                        if j < k {
                            lemma_trans_le_trans(rv[k as int], rv[min_idx as int], rv[j]);
                        }
                    }
                }
                min_idx = k;
            }
            k += 1;
        }
        let ghost prev_out = views_of_transitions(out@);
        let ghost prev_rest = views_of_transitions(rest@);
        let picked = rest.swap_remove(min_idx);
        out.push(picked);
        proof {
            let cur_out = views_of_transitions(out@);
            let cur_rest = views_of_transitions(rest@);
            assert(picked@ == prev_rest[min_idx as int]);
            assert(cur_out =~= prev_out.push(picked@));
            // every remaining element was in the previous rest
            assert forall|ri: int| 0 <= ri < cur_rest.len() implies prev_rest.contains(
                #[trigger] cur_rest[ri],
            ) by {
                if ri == min_idx as int {
                    assert(cur_rest[ri] == prev_rest[prev_rest.len() - 1]);
                } else {
                    assert(cur_rest[ri] == prev_rest[ri]);
                }
            }
            // every previous element is picked or still present
            assert forall|t: SpecTransition| prev_rest.contains(t) implies (t == picked@
                || cur_rest.contains(t)) by {
                let j = choose|j: int| 0 <= j < prev_rest.len() && prev_rest[j] == t;
                if j != min_idx as int {
                    if j == prev_rest.len() - 1 {
                        if min_idx as int != j {
                            assert(cur_rest[min_idx as int] == prev_rest[j]);
                        }
                    } else {
                        assert(cur_rest[j] == prev_rest[j]);
                    }
                }
            }
            // ordering: picked is minimal among previous rest
            assert forall|oi: int, ri: int|
                0 <= oi < cur_out.len() && 0 <= ri < cur_rest.len() implies spec_trans_le(
                    #[trigger] cur_out[oi],
                    #[trigger] cur_rest[ri],
                ) by {
                assert(prev_rest.contains(cur_rest[ri]));
                let j = choose|j: int| 0 <= j < prev_rest.len() && prev_rest[j] == cur_rest[ri];
                assert(spec_trans_le(picked@, prev_rest[j]));
                if oi < prev_out.len() {
                    assert(cur_out[oi] == prev_out[oi]);
                    assert(spec_trans_le(prev_out[oi], prev_rest[min_idx as int]));
                    lemma_trans_le_trans(cur_out[oi], picked@, cur_rest[ri]);
                } else {
                    assert(cur_out[oi] == picked@);
                }
            }
            assert forall|t: SpecTransition| cur_out.contains(t) implies orig.contains(t) by {
                let oi = choose|oi: int| 0 <= oi < cur_out.len() && cur_out[oi] == t;
                if oi < prev_out.len() {
                    assert(prev_out[oi] == t);
                    assert(prev_out.contains(t));
                } else {
                    assert(t == picked@);
                    assert(prev_rest.contains(t));
                }
            }
            assert forall|t: SpecTransition| orig.contains(t) implies (cur_out.contains(t)
                || cur_rest.contains(t)) by {
                if prev_out.contains(t) {
                    let oi = choose|oi: int| 0 <= oi < prev_out.len() && prev_out[oi] == t;
                    assert(cur_out[oi] == t);
                } else {
                    assert(prev_rest.contains(t));
                    if t == picked@ {
                        assert(cur_out[cur_out.len() - 1] == t);
                    }
                }
            }
            // sortedness of out: new last is above everything in prev_out
            assert forall|i: int| 0 <= i < cur_out.len() - 1 implies spec_trans_le(
                #[trigger] cur_out[i],
                cur_out[i + 1],
            ) by {
                if i + 1 == cur_out.len() - 1 {
                    assert(cur_out[i] == prev_out[i]);
                    assert(spec_trans_le(prev_out[i], prev_rest[min_idx as int]));
                } else {
                    assert(cur_out[i] == prev_out[i]);
                    assert(cur_out[i + 1] == prev_out[i + 1]);
                }
            }
        }
    }
    proof {
        assert(views_of_transitions(rest@).len() == 0);
        assert forall|t: SpecTransition| orig.contains(t) implies views_of_transitions(
            out@,
        ).contains(t) by {
            assert(!views_of_transitions(rest@).contains(t));
        }
    }
    out
}

/// Collapses runs of equal values in a weakly sorted list, leaving a strictly
/// sorted list with the same values.
pub fn dedup_sorted(input: Vec<Transition>) -> (r: Vec<Transition>)
    requires
        sorted_le(views_of_transitions(input@)),
    ensures
        strictly_sorted(views_of_transitions(r@)),
        forall|t: SpecTransition|
            views_of_transitions(r@).contains(t) <==> views_of_transitions(input@).contains(t),
{
    let ghost iv = views_of_transitions(input@);
    let n = input.len();
    let mut out: Vec<Transition> = Vec::new();
    let mut j: usize = 0;
    while j < n
        invariant
            n == input@.len(),
            iv == views_of_transitions(input@),
            sorted_le(iv),
            0 <= j <= n,
            strictly_sorted(views_of_transitions(out@)),
            forall|t: SpecTransition|
                #![trigger views_of_transitions(out@).contains(t)]
                views_of_transitions(out@).contains(t) ==> iv.take(j as int).contains(t),
            forall|t: SpecTransition|
                #![trigger iv.take(j as int).contains(t)]
                iv.take(j as int).contains(t) ==> views_of_transitions(out@).contains(t),
            out@.len() > 0 ==> j > 0 && views_of_transitions(out@).last() == iv[j - 1],
            j > 0 ==> out@.len() > 0,
        decreases n - j,
    {
        let ghost prev = views_of_transitions(out@);
        let cur = &input[j];
        proof {
            assert(cur@ == iv[j as int]);
        }
        let push_it: bool = if out.len() == 0 {
            true
        } else {
            let last_ref = &out[out.len() - 1];
            proof {
                assert(last_ref@ == prev.last());
            }
            !trans_eq(last_ref, cur)
        };
        if push_it {
            out.push(
                Transition {
                    state: cur.state.clone(),
                    input: cur.input,
                    next_state: cur.next_state.clone(),
                },
            );
        }
        proof {
            let cur_out = views_of_transitions(out@);
            iv.lemma_take_succ_push(j as int);
            if push_it {
                assert(cur_out =~= prev.push(cur@));
                if prev.len() > 0 {
                    assert(prev.last() == iv[j - 1]);
                    assert(spec_trans_le(iv[j - 1], iv[j as int]));
                    lemma_trans_trichotomy(iv[j - 1], iv[j as int]);
                    assert(spec_trans_lt(prev.last(), cur@));
                }
                assert forall|i: int| 0 <= i < cur_out.len() - 1 implies spec_trans_lt(
                    #[trigger] cur_out[i],
                    cur_out[i + 1],
                ) by {
                    if i + 1 < cur_out.len() - 1 {
                        assert(cur_out[i] == prev[i]);
                        assert(cur_out[i + 1] == prev[i + 1]);
                    } else {
                        if prev.len() > 0 {
                            assert(cur_out[i] == prev[i]);
                        }
                    }
                }
                assert forall|t: SpecTransition| iv.take(j + 1).contains(t) implies
                    cur_out.contains(t) by {
                    if t != cur@ {
                        let jj = choose|jj: int| 0 <= jj < j + 1 && #[trigger] iv.take(j + 1)[jj] == t;
                        assert(iv.take(j + 1)[jj] == iv[jj]);
                        if jj == j {
                            assert(iv[jj] == cur@);
                        }
                        assert(jj < j);
                        assert(iv.take(j as int)[jj] == t);
                        assert(iv.take(j as int).contains(t));
                        assert(prev.contains(t));
                        let oi = choose|oi: int| 0 <= oi < prev.len() && prev[oi] == t;
                        assert(cur_out[oi] == t);
                    } else {
                        assert(cur_out.last() == cur@);
                    }
                }
                assert forall|t: SpecTransition| cur_out.contains(t) implies iv.take(
                    j + 1,
                ).contains(t) by {
                    let oi = choose|oi: int| 0 <= oi < cur_out.len() && cur_out[oi] == t;
                    if oi < prev.len() {
                        assert(prev[oi] == t);
                        assert(prev.contains(t));
                        assert(iv.take(j as int).contains(t));
                        let jj = choose|jj: int| 0 <= jj < j && #[trigger] iv.take(j as int)[jj] == t;
                        assert(iv.take(j + 1)[jj] == t);
                    } else {
                        assert(t == cur@);
                        assert(iv.take(j + 1)[j as int] == cur@);
                    }
                }
            } else {
                assert(cur_out == prev);
                assert(prev.last() == cur@);
                assert forall|t: SpecTransition| iv.take(j + 1).contains(t) implies
                    cur_out.contains(t) by {
                    if t != cur@ {
                        let jj = choose|jj: int| 0 <= jj < j + 1 && #[trigger] iv.take(j + 1)[jj] == t;
                        assert(iv.take(j + 1)[jj] == iv[jj]);
                        if jj == j {
                            assert(iv[jj] == cur@);
                        }
                        assert(jj < j);
                        assert(iv.take(j as int)[jj] == t);
                        assert(iv.take(j as int).contains(t));
                    } else {
                        assert(prev[prev.len() - 1] == prev.last());
                        assert(prev.contains(prev.last()));
                    }
                }
                assert forall|t: SpecTransition| cur_out.contains(t) implies iv.take(
                    j + 1,
                ).contains(t) by {
                    assert(prev.contains(t));
                    assert(iv.take(j as int).contains(t));
                    let jj = choose|jj: int| 0 <= jj < j && #[trigger] iv.take(j as int)[jj] == t;
                    assert(iv.take(j + 1)[jj] == t);
                }
            }
        }
        j += 1;
    }
    proof {
        assert(iv.take(n as int) =~= iv);
    }
    out
}

} // verus!
