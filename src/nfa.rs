use vstd::prelude::*;
use vstd::string::StrSliceExecFns;
use crate::btset::BTSet;
use crate::dfa::DeterministicFiniteAutomaton;
use crate::fsm::FSM;
use crate::subset::{is_determinization, subset_construction};
use crate::lang::{Name, NonDetDelta, nfa_accepts, nfa_run, nfa_step, word_symbols};
use crate::state::State;
use crate::symbol::Symbol;
use crate::table::Table;
use crate::transition::Transition;

verus! {

broadcast use Seq::lemma_push_to_set_commute;

/// A non-deterministic finite automaton: each transition leads to a set of states.
#[derive(Debug)]
pub struct NonDeterministicFiniteAutomaton {
    starts: BTSet<State>,
    delta: Table<Transition<State>, BTSet<State>>,
    fsm: FSM,
}

/// The states that `delta` leads to from some state of `states` on `symbol`.
pub(crate) fn delta_image(
    delta: &Table<Transition<State>, BTSet<State>>,
    states: &BTSet<State>,
    symbol: &Symbol,
) -> (r: BTSet<State>)
    ensures
        r@ == nfa_step(delta@, states@, symbol@),
{
    let items = states.get();
    let ghost elems = items@.map_values(|t: State| t@);
    let mut images: BTSet<State> = BTSet::new();
    let mut k: usize = 0;
    while k < items.len()
        invariant
            k <= items.len(),
            elems == items@.map_values(|t: State| t@),
            states@ == elems.to_set(),
            images@ == nfa_step(delta@, elems.subrange(0, k as int).to_set(), symbol@),
        decreases items.len() - k,
    {
        let ghost before = images@;
        let key = Transition::new(symbol.clone(), items[k].clone());
        assert(key@ == (symbol@, elems[k as int]));
        match delta.get(&key) {
            Some(img) => {
                images.insert_all(img.clone());
            },
            None => {},
        }
        let ghost p = elems[k as int];
        assert(elems.subrange(0, k + 1) =~= elems.subrange(0, k as int).push(p));
        k = k + 1;
        proof {
            let prev = elems.subrange(0, k - 1).to_set();
            let cur = elems.subrange(0, k as int).to_set();
            assert(cur == prev.insert(p));
            assert forall|q: Name|
                images@.contains(q) <==> nfa_step(delta@, cur, symbol@).contains(q) by {
                if nfa_step(delta@, cur, symbol@).contains(q) {
                    let w = choose|w: Name| #[trigger]
                        cur.contains(w) && delta@.contains_key((symbol@, w)) && delta@[(
                            symbol@,
                            w,
                        )].contains(q);
                    if w != p {
                        assert(prev.contains(w));
                        assert(nfa_step(delta@, prev, symbol@).contains(q));
                    }
                }
                if before.contains(q) {
                    let w = choose|w: Name| #[trigger]
                        prev.contains(w) && delta@.contains_key((symbol@, w)) && delta@[(
                            symbol@,
                            w,
                        )].contains(q);
                    assert(cur.contains(w));
                }
                if images@.contains(q) && !before.contains(q) {
                    assert(cur.contains(p));
                }
            }
            assert(images@ =~= nfa_step(delta@, cur, symbol@));
        }
    }
    assert(elems.subrange(0, k as int) =~= elems);
    images
}

impl NonDeterministicFiniteAutomaton {
    pub closed spec fn spec_starts(&self) -> BTSet<State> {
        self.starts
    }

    pub closed spec fn spec_delta(&self) -> Table<Transition<State>, BTSet<State>> {
        self.delta
    }

    pub closed spec fn spec_fsm(&self) -> FSM {
        self.fsm
    }

    pub open spec fn starts_set(&self) -> Set<Name> {
        self.spec_starts()@
    }

    pub open spec fn delta_map(&self) -> NonDetDelta {
        self.spec_delta()@
    }

    /// The words that the automaton accepts.
    pub open spec fn accepts(&self, w: Seq<Name>) -> bool {
        nfa_accepts(self.delta_map(), self.starts_set(), self.spec_fsm().ends_set(), w)
    }

    pub fn new(
        starts: BTSet<State>,
        delta: Table<Transition<State>, BTSet<State>>,
        fsm: FSM,
    ) -> (r: Self)
        ensures
            r.spec_starts() == starts,
            r.spec_delta() == delta,
            r.spec_fsm() == fsm,
    {
        NonDeterministicFiniteAutomaton { starts, delta, fsm }
    }

    /// The image set of one transition, if the table has it.
    pub fn apply_delta(&self, transition: Transition<State>) -> (r: Option<BTSet<State>>)
        ensures
            match r {
                Some(s) => self.delta_map().contains_key(transition@) && s@ == self.delta_map()[transition@],
                None => !self.delta_map().contains_key(transition@),
            },
    {
        match self.delta.get(&transition) {
            Some(s) => Some(s.clone()),
            None => None,
        }
    }

    /// The states reached by the transition's symbol from some of its states, or
    /// `None` where there are none.
    pub fn apply_deltas(&self, set_transition: Transition<BTSet<State>>) -> (r: Option<BTSet<State>>)
        ensures
            ({
                let img = nfa_step(self.delta_map(), set_transition@.1, set_transition@.0);
                match r {
                    Some(s) => s@ == img && img != Set::<Name>::empty(),
                    None => img == Set::<Name>::empty(),
                }
            }),
    {
        let images = delta_image(&self.delta, set_transition.get_content(), set_transition.get_symbol());
        if images.is_empty() {
            None
        } else {
            Some(images)
        }
    }

    /// The subset construction: a deterministic automaton that accepts the words
    /// over the alphabet that `self` accepts.
    pub fn to_dfa(&self) -> (r: DeterministicFiniteAutomaton)
        ensures
            is_determinization(self.delta_map(), None, self.starts_set(), self.spec_fsm(), r),
    {
        subset_construction(&self.delta, &self.fsm, self.starts.clone(), None)
    }

    pub fn get_starts(&self) -> (r: &BTSet<State>)
        ensures
            *r == self.spec_starts(),
    {
        &self.starts
    }

    pub fn get_fsm(&self) -> (r: &FSM)
        ensures
            *r == self.spec_fsm(),
    {
        &self.fsm
    }

    pub fn get_delta(&self) -> (r: &Table<Transition<State>, BTSet<State>>)
        ensures
            *r == self.spec_delta(),
    {
        &self.delta
    }

    pub fn get_states(&self) -> (r: &BTSet<State>)
        ensures
            *r == self.spec_fsm().spec_states(),
    {
        self.fsm.get_states()
    }

    pub fn get_alphabet(&self) -> (r: &BTSet<Symbol>)
        ensures
            *r == self.spec_fsm().spec_alphabet(),
    {
        self.fsm.get_alphabet()
    }

    pub fn get_ends(&self) -> (r: &BTSet<State>)
        ensures
            *r == self.spec_fsm().spec_ends(),
    {
        self.fsm.get_ends()
    }

    /// Whether the automaton accepts `word`, read one symbol per character.
    pub fn accept(&self, word: &str) -> (r: bool)
        ensures
            r == self.accepts(word_symbols(word@)),
    {
        let ghost w = word_symbols(word@);
        let n = word.unicode_len();
        let mut currents = self.starts.clone();
        let mut i: usize = 0;
        while i < n
            invariant
                i <= n,
                n == word@.len(),
                w == word_symbols(word@),
                currents@ == nfa_run(self.delta_map(), self.starts_set(), w.subrange(0, i as int)),
            decreases n - i,
        {
            let symbol = Symbol::of_char(word, i);
            let next = delta_image(&self.delta, &currents, &symbol);
            assert(w.subrange(0, i + 1).drop_last() =~= w.subrange(0, i as int));
            if next.is_empty() {
                proof {
                    lemma_nfa_run_stays_empty(self.delta_map(), self.starts_set(), w, i as int + 1);
                    assert(w.subrange(0, w.len() as int) =~= w);
                }
                return false;
            }
            currents = next;
            i = i + 1;
        }
        assert(w.subrange(0, i as int) =~= w);
        currents.intersects(self.fsm.get_ends())
    }
}

/// Once the frontier is empty it stays empty.
proof fn lemma_nfa_run_stays_empty(delta: NonDetDelta, s: Set<Name>, w: Seq<Name>, k: int)
    requires
        0 <= k <= w.len(),
        nfa_run(delta, s, w.subrange(0, k)) == Set::<Name>::empty(),
    ensures
        nfa_run(delta, s, w) == Set::<Name>::empty(),
    decreases w.len() - k,
{
    if k < w.len() {
        let next = w.subrange(0, k + 1);
        assert(next.drop_last() =~= w.subrange(0, k));
        assert(nfa_run(delta, s, next) =~= Set::<Name>::empty());
        lemma_nfa_run_stays_empty(delta, s, w, k + 1);
    } else {
        assert(w.subrange(0, k) =~= w);
    }
}

impl Clone for NonDeterministicFiniteAutomaton {
    fn clone(&self) -> (r: Self)
        ensures
            r.starts_set() == self.starts_set(),
            r.delta_map() == self.delta_map(),
            r.spec_fsm().states_set() == self.spec_fsm().states_set(),
            r.spec_fsm().alphabet_set() == self.spec_fsm().alphabet_set(),
            r.spec_fsm().ends_set() == self.spec_fsm().ends_set(),
    {
        NonDeterministicFiniteAutomaton {
            starts: self.starts.clone(),
            delta: self.delta.clone(),
            fsm: self.fsm.clone(),
        }
    }
}

} // verus!
