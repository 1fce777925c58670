use automaters::{BTSet, State, Symbol, Table, Transition};

fn states(names: &[&str]) -> BTSet<State> {
    let mut s: BTSet<State> = BTSet::new();
    for n in names {
        s.insert(State::from_str(n));
    }
    s
}

#[test]
fn insert_reports_whether_new() {
    let mut s: BTSet<State> = BTSet::new();
    assert!(s.is_empty());
    assert!(s.insert(State::from_str("q_0")));
    assert!(!s.insert(State::from_str("q_0")));
    assert!(s.insert(State::from_str("q_1")));
    assert_eq!(s.len(), 2);
    assert!(s.contains(&State::from_str("q_1")));
    assert!(!s.contains(&State::from_str("q_2")));
    assert!(!s.is_empty());
}

#[test]
fn equality_ignores_insertion_order() {
    let a = states(&["x", "y", "z"]);
    let b = states(&["z", "x", "y", "x"]);
    let c = states(&["x", "y"]);
    assert_eq!(a, b);
    assert!(a != c);
    assert_eq!(a.clone(), a);
}

#[test]
fn difference_with_itself_is_empty() {
    let s = states(&["q_0", "q_1", "q_2"]);
    assert!(s.difference(s.clone()).is_empty());
    assert_eq!(s.difference(s.clone()).len(), 0);
}

#[test]
fn difference_with_empty_is_itself() {
    let s = states(&["q_0", "q_1"]);
    assert_eq!(s.difference(BTSet::new()), s);
}

#[test]
fn difference_is_asymmetric() {
    let a = states(&["q_0", "q_1", "q_2"]);
    let b = states(&["q_1", "q_3"]);
    assert_eq!(a.difference(b.clone()), states(&["q_0", "q_2"]));
    assert_eq!(b.difference(a), states(&["q_3"]));
}

#[test]
fn insert_all_is_union() {
    let mut a = states(&["q_0", "q_1"]);
    assert!(a.insert_all(states(&["q_1", "q_2"])));
    assert_eq!(a, states(&["q_0", "q_1", "q_2"]));
    assert_eq!(a.len(), 3);
}

#[test]
fn from_vect_drops_duplicates() {
    let empty: BTSet<Symbol> = BTSet::new();
    let s = empty.from_vect(vec![Symbol::from_str("a"), Symbol::from_str("b"), Symbol::from_str("a")]);
    assert_eq!(s.len(), 2);
    assert_eq!(s.get().len(), 2);
    assert!(s.contains(&Symbol::from_str("b")));
}

#[test]
fn intersects_finds_a_common_element() {
    assert!(states(&["a", "b"]).intersects(&states(&["b", "c"])));
    assert!(!states(&["a", "b"]).intersects(&states(&["c"])));
    assert!(!states(&[]).intersects(&states(&["c"])));
}

#[test]
fn sets_of_sets_compare_by_content() {
    let mut outer: BTSet<BTSet<State>> = BTSet::new();
    assert!(outer.insert(states(&["a", "b"])));
    assert!(!outer.insert(states(&["b", "a"])));
    assert!(outer.contains(&states(&["a", "b"])));
    assert_eq!(outer.len(), 1);
}

#[test]
fn table_keeps_the_last_value_of_a_key() {
    let mut t: Table<Transition<State>, State> = Table::new();
    let key = || Transition::new(Symbol::from_str("a"), State::from_str("q_0"));
    assert!(t.get(&key()).is_none());
    t.insert(key(), State::from_str("q_1"));
    t.insert(key(), State::from_str("q_2"));
    t.insert(Transition::new(Symbol::from_str("b"), State::from_str("q_0")), State::from_str("q_0"));
    assert_eq!(t.get(&key()), Some(&State::from_str("q_2")));
    assert!(t.contains_key(&key()));
    assert_eq!(t.entries().len(), 2);
}
