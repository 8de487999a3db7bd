use dfa::automaton::{Dfa, Transition};

fn t(state: &str, input: char, next_state: &str) -> Transition {
    Transition { state: state.to_string(), input, next_state: next_state.to_string() }
}

/// A DFA that accepts the input if all '1' characters are placed at the end
/// and there is at least one '1' character.
fn create_example_dfa() -> Dfa {
    Dfa {
        name: String::from(
            "Accept if all '1' characters are placed at the end and there is at least one '1' character.",
        ),
        start_state: "q0".to_string(),
        accept_states: vec!["q1".to_string()],
        transitions: vec![t("q0", '0', "q0"), t("q0", '1', "q1"), t("q1", '1', "q1")],
    }
}

fn create_example_dfa_that_can_be_minimized() -> Dfa {
    Dfa {
        name: String::from(""),
        start_state: "q1".to_string(),
        accept_states: vec!["q8".to_string()],
        transitions: vec![
            t("q1", 'a', "q2"),
            t("q1", 'b', "q3"),
            t("q2", 'a', "q6"),
            t("q2", 'b', "q4"),
            t("q3", 'a', "q5"),
            t("q3", 'b', "q6"),
            t("q4", 'a', "q2"),
            t("q4", 'b', "q6"),
            t("q5", 'a', "q6"),
            t("q5", 'b', "q3"),
            t("q6", 'a', "q8"),
            t("q6", 'b', "q7"),
            t("q7", 'a', "q8"),
            t("q7", 'b', "q7"),
            t("q8", 'a', "q8"),
            t("q8", 'b', "q8"),
            t("inaccessible state", 'a', "q8"),
        ],
    }
}

#[test]
fn test_check() {
    let dfa = create_example_dfa();
    assert!(
        dfa.check("000111").0,
        "Should accept if there are at least one '1' characters and they are all at the end"
    );
    assert_eq!(
        dfa.check("000111").1,
        vec!["q0", "q0", "q0", "q0", "q1", "q1", "q1"],
        "Should have traversed those states."
    );
    assert!(!dfa.check("00010").0, "Should not accept if input does not end with '1'.");
    assert!(
        !dfa.check("0101").0,
        "Should not accept if there are '1' characters which are not placed at the end."
    );
}

#[test]
fn test_get_all_input_symbols() {
    let dfa = create_example_dfa();
    let symbols = dfa.get_all_input_symbols();
    assert_eq!(symbols.len(), 2);
    assert!(symbols.contains(&'0'));
    assert!(symbols.contains(&'1'));
}

#[test]
fn test_minimize() {
    let mut dfa = create_example_dfa_that_can_be_minimized();
    // Its too verbose to test for the exact new transitions and state names of the minimized DFA.
    // Instead we test for the number of states (which should be minimal) and we test that the DFA
    // still works like before.
    // Before minimizing:
    assert_eq!(dfa.get_all_states().len(), 9);
    assert!(dfa.check("ababba").0, "should accept input");
    // After minimizing:
    dfa.minimize();
    assert_eq!(dfa.get_all_states().len(), 5);
    assert!(dfa.check("ababba").0, "should accept input");
}

#[test]
fn test_check_and_test_agree() {
    let dfa = create_example_dfa();
    for input in ["", "0", "1", "000111", "00010", "0101", "2", "111"] {
        assert_eq!(dfa.check(input).0, dfa.test(input));
    }
}

#[test]
fn test_check_rejects_unknown_symbol_immediately() {
    let dfa = create_example_dfa();
    let (accepted, trace) = dfa.check("2");
    assert!(!accepted);
    assert_eq!(trace, vec!["q0"]);
    let (accepted2, trace2) = dfa.check("012");
    assert!(!accepted2);
    assert_eq!(trace2, vec!["q0", "q0", "q1"]);
}

#[test]
fn test_check_empty_input() {
    let dfa = create_example_dfa();
    let (accepted, trace) = dfa.check("");
    assert!(!accepted);
    assert_eq!(trace, vec!["q0"]);
}

#[test]
fn test_get_transition_first_match() {
    let dfa = create_example_dfa();
    let found = dfa.get_transition("q0", &'1');
    assert_eq!(found, Some(&t("q0", '1', "q1")));
    assert_eq!(dfa.get_transition("q0", &'x'), None);
    assert_eq!(dfa.get_transition("missing", &'0'), None);
}

#[test]
fn test_pruner_removes_inaccessible_states() {
    let mut dfa = create_example_dfa_that_can_be_minimized();
    assert_eq!(dfa.get_all_states().len(), 9);
    dfa.remove_inaccessible_states();
    assert_eq!(dfa.get_all_states().len(), 8);
    assert!(dfa.check("ababba").0, "pruning must not change acceptance");
    assert!(!dfa
        .transitions
        .iter()
        .any(|tr| tr.state == "inaccessible state" || tr.next_state == "inaccessible state"));
}

#[test]
fn test_pruner_is_idempotent() {
    let mut dfa = create_example_dfa_that_can_be_minimized();
    dfa.remove_inaccessible_states();
    let once = dfa.transitions.clone();
    dfa.remove_inaccessible_states();
    assert_eq!(dfa.transitions, once);
}

#[test]
fn test_minimize_on_minimal_dfa_changes_nothing_but_order() {
    let mut dfa = create_example_dfa();
    let renaming = dfa.minimize();
    assert!(renaming.is_empty());
    assert_eq!(dfa.start_state, "q0");
    assert_eq!(dfa.accept_states, vec!["q1".to_string()]);
    assert_eq!(
        dfa.transitions,
        vec![t("q0", '0', "q0"), t("q0", '1', "q1"), t("q1", '1', "q1")]
    );
}

#[test]
fn test_minimize_is_deterministic() {
    let mut first = create_example_dfa_that_can_be_minimized();
    let mut second = create_example_dfa_that_can_be_minimized();
    let renaming_first = first.minimize();
    let renaming_second = second.minimize();
    assert_eq!(first.transitions, second.transitions);
    assert_eq!(first.start_state, second.start_state);
    let mut sorted_first = renaming_first.clone();
    let mut sorted_second = renaming_second.clone();
    sorted_first.sort();
    sorted_second.sort();
    assert_eq!(sorted_first, sorted_second);
}

#[test]
fn test_minimize_names_blocks_after_smallest_member() {
    let mut dfa = create_example_dfa_that_can_be_minimized();
    let renaming = dfa.minimize();
    // every new name is the smallest member of its block, so no renaming
    // target is larger than its source
    for (old_name, new_name) in &renaming {
        assert!(new_name <= old_name);
    }
    // the minimized automaton accepts the same sample words
    assert!(dfa.check("aaa").0);
    assert!(!dfa.check("aa").0);
    assert!(!dfa.check("ab").0);
    assert!(dfa.check("ababba").0);
}

#[test]
fn test_trap_state_stays_its_own_block() {
    let mut dfa = Dfa {
        name: String::from("trap"),
        start_state: "q0".to_string(),
        accept_states: vec!["q1".to_string()],
        transitions: vec![
            t("q0", 'a', "q1"),
            t("q0", 'b', "dead"),
            t("q1", 'a', "q1"),
            t("q1", 'b', "dead"),
            t("dead", 'a', "dead"),
            t("dead", 'b', "dead"),
        ],
    };
    let renaming = dfa.minimize();
    assert!(renaming.is_empty(), "no block has two members, so nothing is renamed");
    assert_eq!(dfa.get_all_states().len(), 3);
    assert!(dfa.transitions.contains(&t("dead", 'a', "dead")));
    assert!(dfa.check("a").0);
    assert!(!dfa.check("b").0);
}

#[test]
fn test_minimize_renames_start_and_accept_states() {
    // both states reject everything, so they merge; the block is named after
    // its lexicographically smallest member and the start state follows
    let mut dfa = Dfa {
        name: String::from("everything rejects"),
        start_state: "b".to_string(),
        accept_states: Vec::new(),
        transitions: vec![t("b", '0', "a"), t("a", '0', "b")],
    };
    let before = dfa.check("000").0;
    let renaming = dfa.minimize();
    assert_eq!(dfa.start_state, "a");
    assert_eq!(dfa.transitions, vec![t("a", '0', "a")]);
    assert!(renaming.contains(&("a".to_string(), "a".to_string())));
    assert!(renaming.contains(&("b".to_string(), "a".to_string())));
    assert_eq!(renaming.len(), 2);
    assert_eq!(dfa.check("000").0, before);
}

#[test]
fn test_minimize_output_is_sorted_and_deduplicated() {
    let mut dfa = create_example_dfa_that_can_be_minimized();
    dfa.minimize();
    for pair in dfa.transitions.windows(2) {
        assert!(pair[0] < pair[1], "transitions must be strictly ordered");
    }
}
