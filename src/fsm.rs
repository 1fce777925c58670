use vstd::prelude::*;
use crate::btset::BTSet;
use crate::lang::Name;
use crate::state::State;
use crate::symbol::Symbol;

verus! {

/// The static shape shared by every automaton: its states, its alphabet and
/// its end states.
#[derive(Debug)]
pub struct FSM {
    states: BTSet<State>,
    alphabet: BTSet<Symbol>,
    ends: BTSet<State>,
}

impl FSM {
    pub closed spec fn spec_states(&self) -> BTSet<State> {
        self.states
    }

    pub closed spec fn spec_alphabet(&self) -> BTSet<Symbol> {
        self.alphabet
    }

    pub closed spec fn spec_ends(&self) -> BTSet<State> {
        self.ends
    }

    pub open spec fn states_set(&self) -> Set<Name> {
        self.spec_states()@
    }

    pub open spec fn alphabet_set(&self) -> Set<Name> {
        self.spec_alphabet()@
    }

    pub open spec fn ends_set(&self) -> Set<Name> {
        self.spec_ends()@
    }

    pub fn new(states: BTSet<State>, alphabet: BTSet<Symbol>, ends: BTSet<State>) -> (r: Self)
        ensures
            r.spec_states() == states,
            r.spec_alphabet() == alphabet,
            r.spec_ends() == ends,
    {
        FSM { states, alphabet, ends }
    }

    pub fn get_states(&self) -> (r: &BTSet<State>)
        ensures
            *r == self.spec_states(),
    {
        &self.states
    }

    pub fn get_alphabet(&self) -> (r: &BTSet<Symbol>)
        ensures
            *r == self.spec_alphabet(),
    {
        &self.alphabet
    }

    pub fn get_ends(&self) -> (r: &BTSet<State>)
        ensures
            *r == self.spec_ends(),
    {
        &self.ends
    }
}

impl Clone for FSM {
    fn clone(&self) -> (r: Self)
        ensures
            r.states_set() == self.states_set(),
            r.alphabet_set() == self.alphabet_set(),
            r.ends_set() == self.ends_set(),
    {
        FSM { states: self.states.clone(), alphabet: self.alphabet.clone(), ends: self.ends.clone() }
    }
}

} // verus!
