use automaters::{State, Symbol, Transition};
use std::collections::HashSet;

#[test]
fn transition_creation_partial_eq_copy() {
    let mut hash_states: HashSet<State> = HashSet::new();
    let symbole: Symbol = Symbol::new(String::from("o"));
    let state_1: State = State::new(String::from("state_1"));
    let state_2: State = State::new(String::from("state_1"));
    let state_3: State = State::new(String::from("state_3"));
    hash_states.insert(state_1.clone());
    hash_states.insert(state_2.clone());
    hash_states.insert(state_3.clone());
    let transition_states: Transition<HashSet<State>> =
        Transition::new(symbole.clone(), hash_states.clone());
    assert_eq!(transition_states.get_symbol(), &symbole);
    assert_eq!(transition_states.get_content(), &hash_states);
}

#[test]
fn transitions_compare_by_symbol_and_state() {
    let t1 = Transition::new(Symbol::from_str("a"), State::from_str("q_0"));
    let t2 = Transition::new(Symbol::from_str("a"), State::from_str("q_0"));
    let t3 = Transition::new(Symbol::from_str("b"), State::from_str("q_0"));
    let t4 = Transition::new(Symbol::from_str("a"), State::from_str("q_1"));
    assert!(t1 == t2);
    assert!(t1 != t3);
    assert!(t1 != t4);
    assert_eq!(t1.clone().get_content(), &State::from_str("q_0"));
}
