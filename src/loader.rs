use vstd::prelude::*;
use crate::btset::BTSet;
use crate::dfa::DeterministicFiniteAutomaton;
use crate::fsm::FSM;
use crate::lang::{DetDelta, Name, NonDetDelta};
use crate::nfa::NonDeterministicFiniteAutomaton;
use crate::nfae::{NonDeterministicFiniteAutomatonEpsilon, epsilon_text};
use crate::state::State;
use crate::symbol::Symbol;
use crate::table::Table;
use crate::transition::Transition;

verus! {

broadcast use {Seq::lemma_push_to_set_commute, Seq::lemma_push_map_commute, Set::flatten_insert_union_commute};

/// The texts of a list of names, as a set.
pub open spec fn name_set(v: Seq<String>) -> Set<Name> {
    v.map_values(|s: String| s@).to_set()
}

/// The views of deterministic transition records `(state, symbol, image)`.
pub open spec fn det_records(v: Seq<(String, String, String)>) -> Seq<(Name, Name, Name)> {
    v.map_values(|r: (String, String, String)| (r.0@, r.1@, r.2@))
}

/// The table of deterministic records, a later record in place of an earlier
/// one for the same state and symbol.
pub open spec fn det_table_of(recs: Seq<(Name, Name, Name)>) -> DetDelta
    decreases recs.len(),
{
    if recs.len() == 0 {
        Map::empty()
    } else {
        det_table_of(recs.drop_last()).insert((recs.last().1, recs.last().0), recs.last().2)
    }
}

/// The states and images that deterministic records mention.
pub open spec fn det_mentioned(recs: Seq<(Name, Name, Name)>) -> Set<Name> {
    recs.map_values(|r: (Name, Name, Name)| r.0).to_set().union(
        recs.map_values(|r: (Name, Name, Name)| r.2).to_set(),
    )
}

/// The symbols that records mention.
pub open spec fn det_symbols(recs: Seq<(Name, Name, Name)>) -> Set<Name> {
    recs.map_values(|r: (Name, Name, Name)| r.1).to_set()
}

/// The views of non-deterministic transition records `(state, symbol, images)`.
pub open spec fn nondet_records(v: Seq<(String, String, Vec<String>)>) -> Seq<(Name, Name, Set<Name>)> {
    v.map_values(|r: (String, String, Vec<String>)| (r.0@, r.1@, name_set(r.2@)))
}

pub open spec fn nondet_table_of(recs: Seq<(Name, Name, Set<Name>)>) -> NonDetDelta
    decreases recs.len(),
{
    if recs.len() == 0 {
        Map::empty()
    } else {
        nondet_table_of(recs.drop_last()).insert((recs.last().1, recs.last().0), recs.last().2)
    }
}

pub open spec fn nondet_mentioned(recs: Seq<(Name, Name, Set<Name>)>) -> Set<Name> {
    recs.map_values(|r: (Name, Name, Set<Name>)| r.0).to_set().union(
        recs.map_values(|r: (Name, Name, Set<Name>)| r.2).to_set().flatten(),
    )
}

pub open spec fn nondet_symbols(recs: Seq<(Name, Name, Set<Name>)>) -> Set<Name> {
    recs.map_values(|r: (Name, Name, Set<Name>)| r.1).to_set()
}

fn states_of(names: &Vec<String>) -> (r: BTSet<State>)
    ensures
        r@ == name_set(names@),
{
    let ghost v = names@.map_values(|s: String| s@);
    let mut r: BTSet<State> = BTSet::new();
    let mut i: usize = 0;
    while i < names.len()
        invariant
            i <= names.len(),
            v == names@.map_values(|s: String| s@),
            r@ == v.subrange(0, i as int).to_set(),
        decreases names.len() - i,
    {
        r.insert(State::new(names[i].clone()));
        assert(v.subrange(0, i + 1) =~= v.subrange(0, i as int).push(v[i as int]));
        i = i + 1;
    }
    assert(v.subrange(0, i as int) =~= v);
    r
}

fn symbols_of(names: &Vec<String>) -> (r: BTSet<Symbol>)
    ensures
        r@ == name_set(names@),
{
    let ghost v = names@.map_values(|s: String| s@);
    let mut r: BTSet<Symbol> = BTSet::new();
    let mut i: usize = 0;
    while i < names.len()
        invariant
            i <= names.len(),
            v == names@.map_values(|s: String| s@),
            r@ == v.subrange(0, i as int).to_set(),
        decreases names.len() - i,
    {
        r.insert(Symbol::new(names[i].clone()));
        assert(v.subrange(0, i + 1) =~= v.subrange(0, i as int).push(v[i as int]));
        i = i + 1;
    }
    assert(v.subrange(0, i as int) =~= v);
    r
}

impl FSM {
    /// The machine with the named states, symbols and end states.
    pub fn from_names(states: &Vec<String>, alphabet: &Vec<String>, ends: &Vec<String>) -> (r: FSM)
        ensures
            r.states_set() == name_set(states@),
            r.alphabet_set() == name_set(alphabet@),
            r.ends_set() == name_set(ends@),
    {
        FSM::new(states_of(states), symbols_of(alphabet), states_of(ends))
    }
}

impl DeterministicFiniteAutomaton {
    /// The automaton that a description gives: its start state, its transition
    /// records `(state, symbol, image)` and its end states. Its states are those
    /// that the description mentions, its alphabet the symbols of the records.
    pub fn from_records(start: &String, delta: &Vec<(String, String, String)>, ends: &Vec<String>) -> (r: Self)
        ensures
            r.start_name() == start@,
            r.delta_map() == det_table_of(det_records(delta@)),
            r.spec_fsm().alphabet_set() == det_symbols(det_records(delta@)),
            r.spec_fsm().ends_set() == name_set(ends@),
            r.spec_fsm().states_set() == det_mentioned(det_records(delta@)).insert(start@).union(
                name_set(ends@),
            ),
    {
        let ghost recs = det_records(delta@);
        let mut table: Table<Transition<State>, State> = Table::new();
        let mut states: BTSet<State> = BTSet::new();
        let mut alphabet: BTSet<Symbol> = BTSet::new();
        let mut i: usize = 0;
        while i < delta.len()
            invariant
                i <= delta.len(),
                recs == det_records(delta@),
                table@ == det_table_of(recs.subrange(0, i as int)),
                states@ == det_mentioned(recs.subrange(0, i as int)),
                alphabet@ == det_symbols(recs.subrange(0, i as int)),
            decreases delta.len() - i,
        {
            let record = &delta[i];
            table.insert(
                Transition::new(Symbol::new(record.1.clone()), State::new(record.0.clone())),
                State::new(record.2.clone()),
            );
            states.insert(State::new(record.0.clone()));
            states.insert(State::new(record.2.clone()));
            alphabet.insert(Symbol::new(record.1.clone()));
            let ghost prev = recs.subrange(0, i as int);
            let ghost next = recs.subrange(0, i + 1);
            assert(next.drop_last() =~= prev);
            i = i + 1;
            proof {
                let x = recs[i - 1];
                assert(next =~= prev.push(x));
                assert(states@ =~= det_mentioned(next));
                assert(alphabet@ =~= det_symbols(next));
            }
        }
        assert(recs.subrange(0, i as int) =~= recs);
        let end_states = states_of(ends);
        states.insert(State::new(start.clone()));
        states.insert_all(end_states.clone());
        DeterministicFiniteAutomaton::new(State::new(start.clone()), table, FSM::new(states, alphabet, end_states))
    }
}

/// The table, states and symbols of non-deterministic records.
fn nondet_parts(delta: &Vec<(String, String, Vec<String>)>) -> (r: (
    Table<Transition<State>, BTSet<State>>,
    BTSet<State>,
    BTSet<Symbol>,
))
    ensures
        r.0@ == nondet_table_of(nondet_records(delta@)),
        r.1@ == nondet_mentioned(nondet_records(delta@)),
        r.2@ == nondet_symbols(nondet_records(delta@)),
{
    let ghost recs = nondet_records(delta@);
    let mut table: Table<Transition<State>, BTSet<State>> = Table::new();
    let mut states: BTSet<State> = BTSet::new();
    let mut alphabet: BTSet<Symbol> = BTSet::new();
    let mut i: usize = 0;
    while i < delta.len()
        invariant
            i <= delta.len(),
            recs == nondet_records(delta@),
            table@ == nondet_table_of(recs.subrange(0, i as int)),
            states@ == nondet_mentioned(recs.subrange(0, i as int)),
            alphabet@ == nondet_symbols(recs.subrange(0, i as int)),
        decreases delta.len() - i,
    {
        let record = &delta[i];
        let images = states_of(&record.2);
        table.insert(Transition::new(Symbol::new(record.1.clone()), State::new(record.0.clone())), images);
        states.insert(State::new(record.0.clone()));
        states.insert_all(states_of(&record.2));
        alphabet.insert(Symbol::new(record.1.clone()));
        let ghost prev = recs.subrange(0, i as int);
        let ghost next = recs.subrange(0, i + 1);
        assert(next.drop_last() =~= prev);
        i = i + 1;
        proof {
            let x = recs[i - 1];
            assert(next =~= prev.push(x));
            assert(states@ =~= nondet_mentioned(next));
            assert(alphabet@ =~= nondet_symbols(next));
        }
    }
    assert(recs.subrange(0, i as int) =~= recs);
    (table, states, alphabet)
}

impl NonDeterministicFiniteAutomaton {
    /// The automaton that a description gives: its start states, its transition
    /// records `(state, symbol, images)` and its end states. Its states are those
    /// that the description mentions, its alphabet the symbols of the records.
    pub fn from_records(
        starts: &Vec<String>,
        delta: &Vec<(String, String, Vec<String>)>,
        ends: &Vec<String>,
    ) -> (r: Self)
        ensures
            r.starts_set() == name_set(starts@),
            r.delta_map() == nondet_table_of(nondet_records(delta@)),
            r.spec_fsm().alphabet_set() == nondet_symbols(nondet_records(delta@)),
            r.spec_fsm().ends_set() == name_set(ends@),
            r.spec_fsm().states_set() == name_set(starts@).union(
                nondet_mentioned(nondet_records(delta@)),
            ).union(name_set(ends@)),
    {
        let (table, states, alphabet) = nondet_parts(delta);
        let mut all = states_of(starts);
        all.insert_all(states);
        all.insert_all(states_of(ends));
        NonDeterministicFiniteAutomaton::new(states_of(starts), table, FSM::new(all, alphabet, states_of(ends)))
    }
}

impl NonDeterministicFiniteAutomatonEpsilon {
    /// The automaton that a description gives, as for the automata without
    /// epsilon-transitions; its transitions on `ε` are epsilon-transitions.
    pub fn from_records(
        starts: &Vec<String>,
        delta: &Vec<(String, String, Vec<String>)>,
        ends: &Vec<String>,
    ) -> (r: Self)
        ensures
            r.starts_set() == name_set(starts@),
            r.delta_map() == nondet_table_of(nondet_records(delta@)),
            r.epsilon_name() == epsilon_text(),
            r.spec_fsm().alphabet_set() == nondet_symbols(nondet_records(delta@)),
            r.spec_fsm().ends_set() == name_set(ends@),
            r.spec_fsm().states_set() == name_set(starts@).union(
                nondet_mentioned(nondet_records(delta@)),
            ).union(name_set(ends@)),
    {
        let (table, states, alphabet) = nondet_parts(delta);
        let mut all = states_of(starts);
        all.insert_all(states);
        all.insert_all(states_of(ends));
        NonDeterministicFiniteAutomatonEpsilon::new(states_of(starts), table, FSM::new(all, alphabet, states_of(ends)))
    }
}

} // verus!
