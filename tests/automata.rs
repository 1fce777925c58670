use automaters::{
    AutomateTrait, BTSet, DeterministicFiniteAutomaton, NonDeterministicFiniteAutomaton,
    NonDeterministicFiniteAutomatonEpsilon, State, Symbol, Transition, FSM,
};

fn s(x: &str) -> String {
    x.to_string()
}

fn det(state: &str, symbol: &str, image: &str) -> (String, String, String) {
    (s(state), s(symbol), s(image))
}

fn nondet(state: &str, symbol: &str, images: &[&str]) -> (String, String, Vec<String>) {
    (s(state), s(symbol), images.iter().map(|i| s(i)).collect())
}

fn names(v: &[&str]) -> Vec<String> {
    v.iter().map(|i| s(i)).collect()
}

fn state_set(v: &[&str]) -> BTSet<State> {
    let mut r: BTSet<State> = BTSet::new();
    for n in v {
        r.insert(State::from_str(n));
    }
    r
}

/// Over {a, b}: q_0 (start, end) and q_1, with (a, q_0) -> q_1 and (b, q_1) -> q_0.
fn first_dfa() -> DeterministicFiniteAutomaton {
    DeterministicFiniteAutomaton::from_records(
        &s("q_0"),
        &vec![det("q_0", "a", "q_1"), det("q_1", "b", "q_0")],
        &names(&["q_0"]),
    )
}

/// Over {a, b} from s: (a, s) -> {s, t, u, v}, (b, t) -> {s}, (b, u) -> {t}, (b, v) -> {u}; ends {t}.
fn first_nfa() -> NonDeterministicFiniteAutomaton {
    NonDeterministicFiniteAutomaton::from_records(
        &names(&["s"]),
        &vec![
            nondet("s", "a", &["s", "t", "u", "v"]),
            nondet("t", "b", &["s"]),
            nondet("u", "b", &["t"]),
            nondet("v", "b", &["u"]),
        ],
        &names(&["t"]),
    )
}

/// Over {0, 1, ε}: (ε, q_0) -> {q_1}, (0, q_1) -> {q_1}, (1, q_1) -> {q_2},
/// (ε, q_2) -> {q_1}, (0, q_2) -> {q_2}; ends {q_2}.
fn first_nfae() -> NonDeterministicFiniteAutomatonEpsilon {
    NonDeterministicFiniteAutomatonEpsilon::from_records(
        &names(&["q_0"]),
        &vec![
            nondet("q_0", "ε", &["q_1"]),
            nondet("q_1", "0", &["q_1"]),
            nondet("q_1", "1", &["q_2"]),
            nondet("q_2", "ε", &["q_1"]),
            nondet("q_2", "0", &["q_2"]),
        ],
        &names(&["q_2"]),
    )
}

/// An epsilon cycle q_0 -> q_1 -> q_2 -> q_0 and no end state.
fn second_nfae() -> NonDeterministicFiniteAutomatonEpsilon {
    NonDeterministicFiniteAutomatonEpsilon::from_records(
        &names(&["q_0"]),
        &vec![
            nondet("q_0", "ε", &["q_1"]),
            nondet("q_1", "ε", &["q_2"]),
            nondet("q_2", "ε", &["q_0"]),
        ],
        &names(&[]),
    )
}

/// Every word over `letters` of length at most `n`.
fn words(letters: &[&str], n: usize) -> Vec<String> {
    let mut all = vec![String::new()];
    let mut last = vec![String::new()];
    for _ in 0..n {
        let mut next = Vec::new();
        for w in &last {
            for l in letters {
                next.push(format!("{}{}", w, l));
            }
        }
        all.extend(next.iter().cloned());
        last = next;
    }
    all
}

#[test]
fn dfa_fixture_accepts() {
    let dfa = first_dfa();
    assert_eq!(dfa.accept(""), true);
    assert_eq!(dfa.accept("abab"), true);
    assert_eq!(dfa.accept("aaab"), false);
    assert_eq!(dfa.accept("ab"), true);
    assert_eq!(dfa.accept("a"), false);
    assert_eq!(dfa.accept("ba"), false);
    assert_eq!(dfa.accept("abc"), false);
}

#[test]
fn dfa_loaded_shape() {
    let dfa = first_dfa();
    assert_eq!(dfa.get_start(), &State::from_str("q_0"));
    assert_eq!(dfa.get_states(), &state_set(&["q_0", "q_1"]));
    assert_eq!(dfa.get_ends(), &state_set(&["q_0"]));
    assert_eq!(dfa.get_alphabet().len(), 2);
    assert!(dfa.get_alphabet().contains(&Symbol::from_str("a")));
    let image = dfa.apply_delta(Transition::new(Symbol::from_str("a"), State::from_str("q_0")));
    assert_eq!(image, Some(&State::from_str("q_1")));
    assert!(dfa.apply_delta(Transition::new(Symbol::from_str("b"), State::from_str("q_0"))).is_none());
}

#[test]
fn dfa_built_with_new_keeps_its_parts() {
    let dfa = first_dfa();
    let fsm = FSM::new(dfa.get_states().clone(), dfa.get_alphabet().clone(), dfa.get_ends().clone());
    let copy = DeterministicFiniteAutomaton::new(dfa.get_start().clone(), dfa.get_delta().clone(), fsm);
    assert_eq!(copy.get_states(), dfa.get_states());
    assert_eq!(copy.get_ends(), dfa.get_ends());
    assert_eq!(copy.get_alphabet(), dfa.get_alphabet());
    for w in words(&["a", "b"], 5) {
        assert_eq!(copy.accept(&w), dfa.accept(&w));
    }
}

#[test]
fn dfa_transpose_reverses_arrows() {
    let nfa = first_dfa().to_transpose();
    let mut bt: BTSet<State> = BTSet::new();
    bt.insert(State::from_str("q_1"));
    let image = nfa.apply_delta(Transition::new(Symbol::from_str("b"), State::from_str("q_0"))).unwrap();
    assert_eq!(image.difference(bt.clone()).len(), 0);
    assert_eq!(image, bt);
    let mut bt: BTSet<State> = BTSet::new();
    bt.insert(State::from_str("q_0"));
    let image = nfa.apply_delta(Transition::new(Symbol::from_str("a"), State::from_str("q_1"))).unwrap();
    assert_eq!(image.difference(bt.clone()).len(), 0);
    assert_eq!(image, bt);
    assert!(nfa.apply_delta(Transition::new(Symbol::from_str("a"), State::from_str("q_0"))).is_none());
    assert_eq!(nfa.get_starts(), &state_set(&["q_0"]));
    assert_eq!(nfa.get_ends(), &state_set(&["q_0"]));
}

#[test]
fn dfa_transpose_accepts_reversed_words() {
    let dfa = DeterministicFiniteAutomaton::from_records(
        &s("p"),
        &vec![det("p", "a", "r"), det("r", "b", "r"), det("r", "a", "p")],
        &names(&["r"]),
    );
    let t = dfa.to_transpose();
    for w in words(&["a", "b"], 5) {
        let rev: String = w.chars().rev().collect();
        assert_eq!(t.accept(&w), dfa.accept(&rev), "{}", w);
    }
    assert_eq!(t.accept("ba"), true);
    assert_eq!(t.accept("ab"), false);
}

#[test]
fn dfa_minimize_keeps_language() {
    let dfa = first_dfa();
    let min = dfa.to_minimize();
    for w in words(&["a", "b"], 6) {
        assert_eq!(min.accept(&w), dfa.accept(&w), "{}", w);
    }
    assert_eq!(min.get_states().len(), 2);
}

#[test]
fn dfa_minimize_merges_equivalent_states() {
    let dfa = DeterministicFiniteAutomaton::from_records(
        &s("a0"),
        &vec![
            det("a0", "x", "a1"),
            det("a1", "x", "a2"),
            det("a2", "x", "a1"),
            det("a0", "y", "dead"),
        ],
        &names(&["a1", "a2"]),
    );
    let min = dfa.to_minimize();
    for w in words(&["x", "y"], 6) {
        assert_eq!(min.accept(&w), dfa.accept(&w), "{}", w);
    }
    assert_eq!(min.get_states().len(), 2);
}

#[test]
fn dfa_minimize_twice_keeps_language() {
    let min = first_dfa().to_minimize();
    let again = min.to_minimize();
    for w in words(&["a", "b"], 6) {
        assert_eq!(again.accept(&w), min.accept(&w), "{}", w);
    }
    assert_eq!(again.get_states().len(), min.get_states().len());
}

#[test]
fn dfa_empty_word_needs_start_in_ends() {
    let dfa = DeterministicFiniteAutomaton::from_records(&s("p"), &vec![det("p", "a", "q")], &names(&["q"]));
    assert_eq!(dfa.accept(""), false);
    assert_eq!(dfa.accept("a"), true);
    assert_eq!(dfa.to_dfa().accept("a"), true);
}

#[test]
fn nfa_fixture_accepts() {
    let nfa = first_nfa();
    assert_eq!(nfa.accept("aabb"), true);
    assert_eq!(nfa.accept("b"), false);
    assert_eq!(nfa.accept("abbbb"), false);
    assert_eq!(nfa.accept(""), false);
    assert_eq!(nfa.accept("ab"), true);
    assert_eq!(nfa.accept("ba"), false);
    assert_eq!(nfa.accept("abb"), true);
}

#[test]
fn nfa_apply_deltas_unions_images() {
    let nfa = first_nfa();
    let from = state_set(&["t", "u", "v"]);
    let image = nfa.apply_deltas(Transition::new(Symbol::from_str("b"), from)).unwrap();
    assert_eq!(image, state_set(&["s", "t", "u"]));
    assert!(nfa.apply_deltas(Transition::new(Symbol::from_str("a"), state_set(&["t"]))).is_none());
}

#[test]
fn nfa_to_dfa_keeps_language() {
    let nfa = first_nfa();
    let dfa = nfa.to_dfa();
    for w in words(&["a", "b"], 6) {
        assert_eq!(dfa.accept(&w), nfa.accept(&w), "{}", w);
    }
    assert_eq!(dfa.get_start(), &State::from_str("q_0"));
    assert!(dfa.get_states().contains(&State::from_str("q_1")));
}

#[test]
fn nfa_to_dfa_names_states_in_discovery_order() {
    let nfa = NonDeterministicFiniteAutomaton::from_records(
        &names(&["x"]),
        &vec![nondet("x", "a", &["y"]), nondet("y", "a", &["z"])],
        &names(&["z"]),
    );
    let dfa = nfa.to_dfa();
    assert_eq!(dfa.get_states(), &state_set(&["q_0", "q_1", "q_2"]));
    assert_eq!(dfa.get_ends(), &state_set(&["q_2"]));
    let next = dfa.apply_delta(Transition::new(Symbol::from_str("a"), State::from_str("q_1")));
    assert_eq!(next, Some(&State::from_str("q_2")));
}

#[test]
fn nfa_through_trait() {
    let nfa = first_nfa();
    let as_trait: &dyn AutomateTrait<BTSet<State>> = &nfa;
    assert_eq!(as_trait.accept("aabb"), true);
    assert_eq!(as_trait.get_states().len(), 4);
    assert_eq!(as_trait.to_dfa().accept("aabb"), true);
}

#[test]
fn nfae_fixture_accepts() {
    let nfae = first_nfae();
    assert_eq!(nfae.accept("010"), true);
    assert_eq!(nfae.accept("11"), true);
    assert_eq!(nfae.accept(""), false);
    assert_eq!(nfae.accept("0"), false);
}

#[test]
fn nfae_second_fixture_rejects() {
    let nfae = second_nfae();
    assert_eq!(nfae.accept(""), false);
    assert_eq!(nfae.accept("0"), false);
    assert_eq!(nfae.accept("01"), false);
}

#[test]
fn nfae_closure_follows_epsilon_cycle() {
    let nfae = second_nfae();
    let closed = nfae.next_epsilon_clause(state_set(&["q_0"]));
    assert_eq!(closed, state_set(&["q_0", "q_1", "q_2"]));
    let first = first_nfae();
    assert_eq!(first.next_epsilon_clause(state_set(&["q_0"])), state_set(&["q_0", "q_1"]));
    assert_eq!(first.next_epsilon_clause(state_set(&[])), state_set(&[]));
}

#[test]
fn nfae_closure_is_idempotent() {
    for nfae in [first_nfae(), second_nfae()] {
        for start in [&["q_0"][..], &["q_2"][..], &["q_1", "q_2"][..]] {
            let once = nfae.next_epsilon_clause(state_set(start));
            let twice = nfae.next_epsilon_clause(once.clone());
            assert_eq!(twice, once);
        }
    }
}

#[test]
fn nfae_to_dfa_keeps_language() {
    for nfae in [first_nfae(), second_nfae()] {
        let dfa = nfae.to_dfa();
        for w in words(&["0", "1"], 6) {
            assert_eq!(dfa.accept(&w), nfae.accept(&w), "{}", w);
        }
    }
}

#[test]
fn nfae_apply_deltas_does_not_close() {
    let nfae = first_nfae();
    let image = nfae.apply_deltas(Transition::new(Symbol::from_str("1"), state_set(&["q_1"]))).unwrap();
    assert_eq!(image, state_set(&["q_2"]));
    assert!(nfae.apply_delta(Transition::new(Symbol::from_str("1"), State::from_str("q_0"))).is_none());
}

#[test]
fn fsm_from_names_keeps_lists() {
    let fsm = FSM::from_names(&names(&["q_0", "q_1"]), &names(&["b", "a"]), &names(&["q_0"]));
    assert_eq!(fsm.get_states(), &state_set(&["q_1", "q_0"]));
    assert_eq!(fsm.get_ends(), &state_set(&["q_0"]));
    assert_eq!(fsm.get_alphabet().len(), 2);
}

#[test]
fn loaders_derive_states_and_alphabet() {
    let nfa = first_nfa();
    assert_eq!(nfa.get_states(), &state_set(&["s", "t", "u", "v"]));
    assert_eq!(nfa.get_alphabet().len(), 2);
    assert_eq!(nfa.get_starts(), &state_set(&["s"]));
    let nfae = first_nfae();
    assert_eq!(nfae.get_alphabet().len(), 3);
    assert!(nfae.get_alphabet().contains(&Symbol::from_str("ε")));
}

#[test]
fn nfa_clone_keeps_language() {
    let nfa = first_nfa();
    let copy = nfa.clone();
    for w in words(&["a", "b"], 5) {
        assert_eq!(copy.accept(&w), nfa.accept(&w), "{}", w);
    }
    let nfae = first_nfae();
    let copy = nfae.clone();
    for w in words(&["0", "1"], 5) {
        assert_eq!(copy.accept(&w), nfae.accept(&w), "{}", w);
    }
}

#[test]
fn transpose_has_no_empty_image_sets() {
    let nfa = first_dfa().to_transpose();
    for entry in nfa.get_delta().entries() {
        assert!(!entry.1.is_empty());
    }
    assert_eq!(nfa.get_delta().entries().len(), 2);
}

#[test]
fn dfa_minimize_of_empty_language_has_one_state() {
    let dfa = DeterministicFiniteAutomaton::from_records(
        &s("p"),
        &vec![det("p", "a", "q"), det("q", "a", "p")],
        &names(&[]),
    );
    let min = dfa.to_minimize();
    assert_eq!(min.get_states().len(), 1);
    assert_eq!(min.get_ends().len(), 0);
    for w in words(&["a"], 4) {
        assert_eq!(min.accept(&w), false);
    }
}

#[test]
fn nfae_to_dfa_marks_end_states_by_frontier() {
    let nfae = second_nfae();
    let dfa = nfae.to_dfa();
    assert_eq!(dfa.get_states(), &state_set(&["q_0"]));
    assert_eq!(dfa.get_ends().len(), 0);
    let nfa = NonDeterministicFiniteAutomaton::from_records(&names(&["x"]), &vec![], &names(&["x"]));
    let dfa = nfa.to_dfa();
    assert_eq!(dfa.get_ends(), &state_set(&["q_0"]));
    assert_eq!(dfa.accept(""), true);
}
