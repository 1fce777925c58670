use vstd::prelude::*;
use vstd::string::StrSliceExecFns;
use crate::btset::BTSet;
use crate::dfa::DeterministicFiniteAutomaton;
use crate::fsm::FSM;
use crate::lang::{Name, NonDetDelta, eps_closure, nfa_step, nfae_accepts, nfae_run, nfae_step, word_symbols};
use crate::nfa::delta_image;
use crate::state::State;
use crate::subset::{epsilon_closure, is_determinization, subset_construction};
use crate::symbol::Symbol;
use crate::table::Table;
use crate::transition::Transition;

verus! {

/// The text of the symbol that marks epsilon-transitions.
pub open spec fn epsilon_text() -> Name {
    seq!['ε']
}

/// A non-deterministic finite automaton whose transitions on the symbol `ε`
/// are taken without reading input.
#[derive(Debug)]
pub struct NonDeterministicFiniteAutomatonEpsilon {
    starts: BTSet<State>,
    delta: Table<Transition<State>, BTSet<State>>,
    fsm: FSM,
    epsilon: Symbol,
}

impl NonDeterministicFiniteAutomatonEpsilon {
    pub closed spec fn spec_starts(&self) -> BTSet<State> {
        self.starts
    }

    pub closed spec fn spec_delta(&self) -> Table<Transition<State>, BTSet<State>> {
        self.delta
    }

    pub closed spec fn spec_fsm(&self) -> FSM {
        self.fsm
    }

    pub closed spec fn spec_epsilon(&self) -> Symbol {
        self.epsilon
    }

    pub open spec fn starts_set(&self) -> Set<Name> {
        self.spec_starts()@
    }

    pub open spec fn delta_map(&self) -> NonDetDelta {
        self.spec_delta()@
    }

    pub open spec fn epsilon_name(&self) -> Name {
        self.spec_epsilon()@
    }

    /// The states reached from `s` by epsilon-transitions.
    pub open spec fn closure(&self, s: Set<Name>) -> Set<Name> {
        eps_closure(self.delta_map(), self.epsilon_name(), s)
    }

    /// The words that the automaton accepts.
    pub open spec fn accepts(&self, w: Seq<Name>) -> bool {
        nfae_accepts(self.delta_map(), self.epsilon_name(), self.starts_set(), self.spec_fsm().ends_set(), w)
    }

    pub fn new(
        starts: BTSet<State>,
        delta: Table<Transition<State>, BTSet<State>>,
        fsm: FSM,
    ) -> (r: Self)
        ensures
            r.spec_starts() == starts,
            r.spec_delta() == delta,
            r.spec_fsm() == fsm,
            r.epsilon_name() == epsilon_text(),
    {
        proof {
            reveal_strlit("ε");
        }
        let epsilon = Symbol::from_str("ε");
        NonDeterministicFiniteAutomatonEpsilon { starts, delta, fsm, epsilon }
    }

    /// The image set of one transition, if the table has it.
    pub fn apply_delta(&self, transition: Transition<State>) -> (r: Option<BTSet<State>>)
        ensures
            match r {
                Some(s) => self.delta_map().contains_key(transition@) && s@ == self.delta_map()[transition@],
                None => !self.delta_map().contains_key(transition@),
            },
    {
        match self.delta.get(&transition) {
            Some(s) => Some(s.clone()),
            None => None,
        }
    }

    /// The states reached by the transition's symbol from some of its states,
    /// without closure, or `None` where there are none.
    pub fn apply_deltas(&self, set_transition: Transition<BTSet<State>>) -> (r: Option<BTSet<State>>)
        ensures
            ({
                let img = nfa_step(self.delta_map(), set_transition@.1, set_transition@.0);
                match r {
                    Some(s) => s@ == img && img != Set::<Name>::empty(),
                    None => img == Set::<Name>::empty(),
                }
            }),
    {
        let images = delta_image(&self.delta, set_transition.get_content(), set_transition.get_symbol());
        if images.is_empty() {
            None
        } else {
            Some(images)
        }
    }

    /// The epsilon-closure of `states`.
    pub fn next_epsilon_clause(&self, states: BTSet<State>) -> (r: BTSet<State>)
        ensures
            r@ == self.closure(states@),
    {
        epsilon_closure(&self.delta, &self.epsilon, states)
    }

    /// One symbol step from a set of states, then the epsilon-closure.
    fn apply_deltatilde(&self, t: Transition<BTSet<State>>) -> (r: BTSet<State>)
        ensures
            r@ == nfae_step(self.delta_map(), self.epsilon_name(), t@.1, t@.0),
    {
        let image = delta_image(&self.delta, t.get_content(), t.get_symbol());
        self.next_epsilon_clause(image)
    }

    /// Whether the automaton accepts `word`, read one symbol per character.
    pub fn accept(&self, word: &str) -> (r: bool)
        ensures
            r == self.accepts(word_symbols(word@)),
    {
        let ghost w = word_symbols(word@);
        let n = word.unicode_len();
        let mut currents = self.next_epsilon_clause(self.starts.clone());
        let mut i: usize = 0;
        while i < n
            invariant
                i <= n,
                n == word@.len(),
                w == word_symbols(word@),
                currents@ == nfae_run(self.delta_map(), self.epsilon_name(), self.starts_set(), w.subrange(0, i as int)),
            decreases n - i,
        {
            let symbol = Symbol::of_char(word, i);
            assert(w.subrange(0, i + 1).drop_last() =~= w.subrange(0, i as int));
            currents = self.apply_deltatilde(Transition::new(symbol, currents));
            i = i + 1;
        }
        assert(w.subrange(0, i as int) =~= w);
        currents.intersects(self.fsm.get_ends())
    }

    /// The subset construction from the closed start states, every image closed:
    /// a deterministic automaton that accepts the words over the alphabet that
    /// `self` accepts.
    pub fn to_dfa(&self) -> (r: DeterministicFiniteAutomaton)
        ensures
            is_determinization(
                self.delta_map(),
                Some(self.epsilon_name()),
                self.closure(self.starts_set()),
                self.spec_fsm(),
                r,
            ),
    {
        let seed = self.next_epsilon_clause(self.starts.clone());
        subset_construction(&self.delta, &self.fsm, seed, Some(&self.epsilon))
    }

    pub fn get_starts(&self) -> (r: &BTSet<State>)
        ensures
            *r == self.spec_starts(),
    {
        &self.starts
    }

    pub fn get_fsm(&self) -> (r: &FSM)
        ensures
            *r == self.spec_fsm(),
    {
        &self.fsm
    }

    pub fn get_delta(&self) -> (r: &Table<Transition<State>, BTSet<State>>)
        ensures
            *r == self.spec_delta(),
    {
        &self.delta
    }

    pub fn get_states(&self) -> (r: &BTSet<State>)
        ensures
            *r == self.spec_fsm().spec_states(),
    {
        self.fsm.get_states()
    }

    pub fn get_alphabet(&self) -> (r: &BTSet<Symbol>)
        ensures
            *r == self.spec_fsm().spec_alphabet(),
    {
        self.fsm.get_alphabet()
    }

    pub fn get_ends(&self) -> (r: &BTSet<State>)
        ensures
            *r == self.spec_fsm().spec_ends(),
    {
        self.fsm.get_ends()
    }
}

impl Clone for NonDeterministicFiniteAutomatonEpsilon {
    fn clone(&self) -> (r: Self)
        ensures
            r.starts_set() == self.starts_set(),
            r.delta_map() == self.delta_map(),
            r.epsilon_name() == self.epsilon_name(),
            r.spec_fsm().states_set() == self.spec_fsm().states_set(),
            r.spec_fsm().alphabet_set() == self.spec_fsm().alphabet_set(),
            r.spec_fsm().ends_set() == self.spec_fsm().ends_set(),
    {
        NonDeterministicFiniteAutomatonEpsilon {
            starts: self.starts.clone(),
            delta: self.delta.clone(),
            fsm: self.fsm.clone(),
            epsilon: self.epsilon.clone(),
        }
    }
}

} // verus!
