use vstd::prelude::*;
use crate::btset::BTSet;
use crate::dfa::DeterministicFiniteAutomaton;
use crate::fsm::FSM;
use crate::lang::{Name, word_symbols};
use crate::nfa::NonDeterministicFiniteAutomaton;
use crate::nfae::NonDeterministicFiniteAutomatonEpsilon;
use crate::state::State;
use crate::symbol::Symbol;
use crate::table::Table;
use crate::transition::Transition;

verus! {

/// What the three kinds of automata have in common; `T` is what a transition
/// leads to and what the automaton starts from: a state, or a set of states.
pub trait AutomateTrait<T: View> {
    /// The machine of the automaton.
    spec fn machine(&self) -> FSM;

    /// The start state, or the set of start states.
    spec fn start_of(&self) -> T;

    /// The transition table.
    spec fn table(&self) -> Table<Transition<State>, T>;

    /// The words that the automaton accepts.
    spec fn accepts_word(&self, w: Seq<Name>) -> bool;

    fn get_fsm(&self) -> (r: &FSM)
        ensures
            *r == self.machine(),
    ;

    fn get_start(&self) -> (r: &T)
        ensures
            *r == self.start_of(),
    ;

    fn get_starts(&self) -> (r: &T)
        ensures
            *r == self.start_of(),
    ;

    fn get_delta(&self) -> (r: &Table<Transition<State>, T>)
        ensures
            *r == self.table(),
    ;

    fn get_states(&self) -> (r: &BTSet<State>)
        ensures
            *r == self.machine().spec_states(),
    {
        self.get_fsm().get_states()
    }

    fn get_alphabet(&self) -> (r: &BTSet<Symbol>)
        ensures
            *r == self.machine().spec_alphabet(),
    {
        self.get_fsm().get_alphabet()
    }

    fn get_ends(&self) -> (r: &BTSet<State>)
        ensures
            *r == self.machine().spec_ends(),
    {
        self.get_fsm().get_ends()
    }

    fn accept(&self, word: &str) -> (r: bool)
        ensures
            r == self.accepts_word(word_symbols(word@)),
    ;

    fn to_dfa(&self) -> DeterministicFiniteAutomaton;
}

impl AutomateTrait<State> for DeterministicFiniteAutomaton {
    open spec fn machine(&self) -> FSM {
        self.spec_fsm()
    }

    open spec fn start_of(&self) -> State {
        self.spec_start()
    }

    open spec fn table(&self) -> Table<Transition<State>, State> {
        self.spec_delta()
    }

    open spec fn accepts_word(&self, w: Seq<Name>) -> bool {
        self.accepts(w)
    }

    fn get_fsm(&self) -> &FSM {
        DeterministicFiniteAutomaton::get_fsm(self)
    }

    fn get_start(&self) -> &State {
        DeterministicFiniteAutomaton::get_start(self)
    }

    fn get_starts(&self) -> &State {
        DeterministicFiniteAutomaton::get_starts(self)
    }

    fn get_delta(&self) -> &Table<Transition<State>, State> {
        DeterministicFiniteAutomaton::get_delta(self)
    }

    fn accept(&self, word: &str) -> bool {
        DeterministicFiniteAutomaton::accept(self, word)
    }

    fn to_dfa(&self) -> DeterministicFiniteAutomaton {
        DeterministicFiniteAutomaton::to_dfa(self)
    }
}

impl AutomateTrait<BTSet<State>> for NonDeterministicFiniteAutomaton {
    open spec fn machine(&self) -> FSM {
        self.spec_fsm()
    }

    open spec fn start_of(&self) -> BTSet<State> {
        self.spec_starts()
    }

    open spec fn table(&self) -> Table<Transition<State>, BTSet<State>> {
        self.spec_delta()
    }

    open spec fn accepts_word(&self, w: Seq<Name>) -> bool {
        self.accepts(w)
    }

    fn get_fsm(&self) -> &FSM {
        NonDeterministicFiniteAutomaton::get_fsm(self)
    }

    fn get_start(&self) -> &BTSet<State> {
        NonDeterministicFiniteAutomaton::get_starts(self)
    }

    fn get_starts(&self) -> &BTSet<State> {
        NonDeterministicFiniteAutomaton::get_starts(self)
    }

    fn get_delta(&self) -> &Table<Transition<State>, BTSet<State>> {
        NonDeterministicFiniteAutomaton::get_delta(self)
    }

    fn accept(&self, word: &str) -> bool {
        NonDeterministicFiniteAutomaton::accept(self, word)
    }

    fn to_dfa(&self) -> DeterministicFiniteAutomaton {
        NonDeterministicFiniteAutomaton::to_dfa(self)
    }
}

impl AutomateTrait<BTSet<State>> for NonDeterministicFiniteAutomatonEpsilon {
    open spec fn machine(&self) -> FSM {
        self.spec_fsm()
    }

    open spec fn start_of(&self) -> BTSet<State> {
        self.spec_starts()
    }

    open spec fn table(&self) -> Table<Transition<State>, BTSet<State>> {
        self.spec_delta()
    }

    open spec fn accepts_word(&self, w: Seq<Name>) -> bool {
        self.accepts(w)
    }

    fn get_fsm(&self) -> &FSM {
        NonDeterministicFiniteAutomatonEpsilon::get_fsm(self)
    }

    fn get_start(&self) -> &BTSet<State> {
        NonDeterministicFiniteAutomatonEpsilon::get_starts(self)
    }

    fn get_starts(&self) -> &BTSet<State> {
        NonDeterministicFiniteAutomatonEpsilon::get_starts(self)
    }

    fn get_delta(&self) -> &Table<Transition<State>, BTSet<State>> {
        NonDeterministicFiniteAutomatonEpsilon::get_delta(self)
    }

    fn accept(&self, word: &str) -> bool {
        NonDeterministicFiniteAutomatonEpsilon::accept(self, word)
    }

    fn to_dfa(&self) -> DeterministicFiniteAutomaton {
        NonDeterministicFiniteAutomatonEpsilon::to_dfa(self)
    }
}

} // verus!
