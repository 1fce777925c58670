use vstd::prelude::*;
use vstd::string::StrSliceExecFns;
use crate::btset::BTSet;
use crate::fsm::FSM;
use crate::lang::{
    DetDelta, Name, dfa_accepts, dfa_run, frontier_step, images_within,
    is_transpose, lemma_frontier_step_empty, lemma_run_sets_within, lemma_subset_accepts_from,
    lemma_transpose_accepts, lemma_transpose_run, over, run_sets, word_symbols,
};
use crate::subset::{determinizes, is_determinization, lemma_determinization_facts, names_upto, reached};
use crate::nfa::NonDeterministicFiniteAutomaton;
use crate::state::State;
use crate::symbol::Symbol;
use crate::table::Table;
use crate::transition::Transition;

verus! {

/// A deterministic finite automaton: each transition leads to one state, and a
/// missing transition rejects.
#[derive(Debug)]
pub struct DeterministicFiniteAutomaton {
    start: State,
    delta: Table<Transition<State>, State>,
    fsm: FSM,
}

/// `m` accepts the words over the alphabet of `a` that `a` accepts, and has the
/// same alphabet.
pub open spec fn is_minimization(a: DeterministicFiniteAutomaton, m: DeterministicFiniteAutomaton) -> bool {
    &&& m.spec_fsm().alphabet_set() == a.spec_fsm().alphabet_set()
    &&& forall|w: Seq<Name>|
        #[trigger] m.accepts(w) == (over(w, a.spec_fsm().alphabet_set()) && a.accepts(w))
}

/// Every state of `d` is reached from its start, every state but the start
/// leads to an end state, and any two distinct states accept different words.
pub open spec fn is_minimal(d: DeterministicFiniteAutomaton) -> bool {
    let states = d.spec_fsm().states_set();
    let ends = d.spec_fsm().ends_set();
    &&& states.contains(d.start_name())
    &&& forall|k: (Name, Name)| #[trigger] d.delta_map().contains_key(k) ==> states.contains(d.delta_map()[k])
    &&& forall|q: Name|
        #[trigger] states.contains(q) ==> exists|w: Seq<Name>|
            #[trigger] dfa_run(d.delta_map(), d.start_name(), w) == Some(q)
    &&& forall|q: Name|
        #[trigger] states.contains(q) && q != d.start_name() ==> exists|w: Seq<Name>|
            #[trigger] dfa_accepts(d.delta_map(), q, ends, w)
    &&& forall|p: Name, q: Name|
        #[trigger] states.contains(p) && #[trigger] states.contains(q) && p != q ==> exists|w: Seq<Name>|
            dfa_accepts(d.delta_map(), p, ends, w) != #[trigger] dfa_accepts(d.delta_map(), q, ends, w)
}

/// Brzozowski's step: determinizing the transpose of an automaton whose states
/// are all reached gives a minimal automaton.
pub proof fn lemma_determinize_transpose_minimal(
    first: DeterministicFiniteAutomaton,
    back: NonDeterministicFiniteAutomaton,
    r: DeterministicFiniteAutomaton,
)
    requires
        is_transpose(first.delta_map(), back.delta_map()),
        back.starts_set() == first.spec_fsm().ends_set(),
        back.spec_fsm().ends_set() == set![first.start_name()],
        is_determinization(back.delta_map(), None, back.starts_set(), back.spec_fsm(), r),
        first.spec_fsm().ends_set().subset_of(first.spec_fsm().states_set()),
        forall|k: (Name, Name)|
            #[trigger] first.delta_map().contains_key(k) ==> first.spec_fsm().states_set().contains(k.1),
        forall|q: Name|
            #[trigger] first.spec_fsm().states_set().contains(q) ==> exists|v: Seq<Name>|
                over(v, back.spec_fsm().alphabet_set()) && #[trigger] dfa_run(
                    first.delta_map(),
                    first.start_name(),
                    v,
                ) == Some(q),
    ensures
        is_minimal(r),
{
    let alphabet = back.spec_fsm().alphabet_set();
    let seed = back.starts_set();
    let bends = back.spec_fsm().ends_set();
    let fstates = first.spec_fsm().states_set();
    let known = choose|known: Seq<Set<Name>>|
        #[trigger] determinizes(back.delta_map(), None, alphabet, seed, bends, known, r);
    let step = frontier_step(back.delta_map(), None);
    let names = names_upto(known.len() as int);
    let states = r.spec_fsm().states_set();
    let ends = r.spec_fsm().ends_set();
    lemma_determinization_facts(back.delta_map(), None, seed, back.spec_fsm(), r);
    lemma_frontier_step_empty(back.delta_map(), None);
    assert(images_within(back.delta_map(), fstates)) by {
        assert forall|k: (Name, Name)| #[trigger] back.delta_map().contains_key(k) implies back.delta_map()[k].subset_of(
            fstates) by {
            assert forall|p: Name| back.delta_map()[k].contains(p) implies fstates.contains(p) by {
                assert(k == (k.0, k.1));
                assert(first.delta_map().contains_key((k.0, p)));
            }
        }
    }
    assert forall|m: int| 0 <= m < known.len() implies (#[trigger] known[m]).subset_of(fstates) by {
        assert(reached(step, alphabet, seed, known[m]));
        let w = choose|w: Seq<Name>|
            over(w, alphabet) && #[trigger] run_sets(step, seed, w) == known[m] && (w.len() == 0
                || known[m] != Set::<Name>::empty());
        lemma_run_sets_within(back.delta_map(), None, seed, w, fstates);
    }
    let start1 = first.start_name();
    assert(names.contains(r.start_name()));
    assert forall|k: (Name, Name)| #[trigger] r.delta_map().contains_key(k) implies states.contains(r.delta_map()[k]) by {
        assert(names.contains(k.1));
        let i = names.index_of(k.1);
        assert(k == (k.0, names[i]));
        assert(r.delta_map().contains_key((k.0, names[i])));
        let j = choose|j: int| 0 <= j < known.len() && r.delta_map()[(k.0, names[i])] == names[j] && known[j] == step(known[i], k.0);
        assert(names.contains(names[j]));
    }
    assert forall|q: Name| #[trigger] states.contains(q) && q != r.start_name() implies exists|w: Seq<Name>|
        #[trigger] dfa_accepts(r.delta_map(), q, ends, w) by {
        assert(names.contains(q));
        let i = names.index_of(q);
        assert(i != 0);
        assert(reached(step, alphabet, seed, known[i]));
        let w = choose|w: Seq<Name>|
            over(w, alphabet) && #[trigger] run_sets(step, seed, w) == known[i] && (w.len() == 0
                || known[i] != Set::<Name>::empty());
        if w.len() == 0 {
            assert(known[i] == known[0]);
        }
        assert(known[i] != Set::<Name>::empty());
        let x = known[i].choose();
        assert(known[i].contains(x)) by {
            if !known[i].contains(x) {
                assert(known[i] =~= Set::<Name>::empty());
            }
        }
        assert(known[i].subset_of(fstates));
        let v = choose|v: Seq<Name>| over(v, alphabet) && #[trigger] dfa_run(first.delta_map(), first.start_name(), v) == Some(x);
        let u = v.reverse();
        lemma_over_reverse(v, alphabet);
        assert(u.reverse() =~= v);
        lemma_subset_accepts_from(step, alphabet, seed, bends, known, names, r.delta_map(), r.start_name(), ends, i, u);
        lemma_transpose_run(first.delta_map(), back.delta_map(), known[i], u, start1);
        assert(run_sets(step, known[i], u).contains(start1) && bends.contains(start1));
        assert(dfa_accepts(r.delta_map(), q, ends, u));
    }
    assert forall|p: Name, q: Name|
        #[trigger] states.contains(p) && #[trigger] states.contains(q) && p != q implies exists|w: Seq<Name>|
            dfa_accepts(r.delta_map(), p, ends, w) != #[trigger] dfa_accepts(r.delta_map(), q, ends, w) by {
        assert(names.contains(p));
        assert(names.contains(q));
        let i = names.index_of(p);
        let j = names.index_of(q);
        assert(known[i] != known[j]);
        if forall|x: Name| known[i].contains(x) == known[j].contains(x) {
            assert(known[i] =~= known[j]);
        }
        let x = choose|x: Name| known[i].contains(x) != known[j].contains(x);
        assert(known[i].subset_of(fstates));
        assert(known[j].subset_of(fstates));
        assert(fstates.contains(x));
        let v = choose|v: Seq<Name>| over(v, alphabet) && #[trigger] dfa_run(first.delta_map(), first.start_name(), v) == Some(x);
        let u = v.reverse();
        lemma_over_reverse(v, alphabet);
        assert(u.reverse() =~= v);
        lemma_subset_accepts_from(step, alphabet, seed, bends, known, names, r.delta_map(), r.start_name(), ends, i, u);
        lemma_subset_accepts_from(step, alphabet, seed, bends, known, names, r.delta_map(), r.start_name(), ends, j, u);
        lemma_transpose_run(first.delta_map(), back.delta_map(), known[i], u, first.start_name());
        lemma_transpose_run(first.delta_map(), back.delta_map(), known[j], u, first.start_name());
        assert(dfa_accepts(r.delta_map(), p, ends, u) == known[i].contains(x)) by {
            if known[i].contains(x) {
                assert(run_sets(step, known[i], u).contains(start1) && bends.contains(start1));
            }
        }
        assert(dfa_accepts(r.delta_map(), q, ends, u) == known[j].contains(x)) by {
            if known[j].contains(x) {
                assert(run_sets(step, known[j], u).contains(start1) && bends.contains(start1));
            }
        }
    }
}

pub proof fn lemma_over_reverse(w: Seq<Name>, alphabet: Set<Name>)
    ensures
        over(w.reverse(), alphabet) == over(w, alphabet),
{
    if over(w, alphabet) {
        assert forall|i: int| 0 <= i < w.len() implies alphabet.contains(#[trigger] w.reverse()[i]) by {
            assert(w.reverse()[i] == w[w.len() - 1 - i]);
        }
    }
    if over(w.reverse(), alphabet) {
        assert forall|i: int| 0 <= i < w.len() implies alphabet.contains(#[trigger] w[i]) by {
            assert(w.reverse()[w.len() - 1 - i] == w[i]);
        }
    }
}

impl DeterministicFiniteAutomaton {
    pub closed spec fn spec_start(&self) -> State {
        self.start
    }

    pub closed spec fn spec_delta(&self) -> Table<Transition<State>, State> {
        self.delta
    }

    pub closed spec fn spec_fsm(&self) -> FSM {
        self.fsm
    }

    pub open spec fn start_name(&self) -> Name {
        self.spec_start()@
    }

    pub open spec fn delta_map(&self) -> DetDelta {
        self.spec_delta()@
    }

    /// The words that the automaton accepts.
    pub open spec fn accepts(&self, w: Seq<Name>) -> bool {
        dfa_accepts(self.delta_map(), self.start_name(), self.spec_fsm().ends_set(), w)
    }

    pub fn new(start: State, delta: Table<Transition<State>, State>, fsm: FSM) -> (r: Self)
        ensures
            r.spec_start() == start,
            r.spec_delta() == delta,
            r.spec_fsm() == fsm,
    {
        DeterministicFiniteAutomaton { start, delta, fsm }
    }

    /// The image of one transition, if the table has it.
    pub fn apply_delta(&self, transition: Transition<State>) -> (r: Option<&State>)
        ensures
            match r {
                Some(q) => self.delta_map().contains_key(transition@) && q@ == self.delta_map()[transition@],
                None => !self.delta_map().contains_key(transition@),
            },
    {
        self.delta.get(&transition)
    }

    /// The automaton with every arrow reversed, starting from the end states and
    /// ending in the start state: it accepts the reversed words.
    pub fn to_transpose(&self) -> (r: NonDeterministicFiniteAutomaton)
        ensures
            is_transpose(self.delta_map(), r.delta_map()),
            forall|k: (Name, Name)| #[trigger] r.delta_map().contains_key(k) ==> r.delta_map()[k] != Set::<Name>::empty(),
            r.starts_set() == self.spec_fsm().ends_set(),
            r.spec_fsm().ends_set() == set![self.start_name()],
            r.spec_fsm().states_set() == self.spec_fsm().states_set(),
            r.spec_fsm().alphabet_set() == self.spec_fsm().alphabet_set(),
    {
        let entries = self.delta.entries();
        let ghost keys = entries@.map_values(|e: (Transition<State>, State)| e.0@);
        let ghost values = entries@.map_values(|e: (Transition<State>, State)| e.1@);
        let mut tdelta: Table<Transition<State>, BTSet<State>> = Table::new();
        let mut i: usize = 0;
        while i < entries.len()
            invariant
                i <= entries.len(),
                keys == entries@.map_values(|e: (Transition<State>, State)| e.0@),
                values == entries@.map_values(|e: (Transition<State>, State)| e.1@),
                forall|a: Name, p: Name, q: Name|
                    tdelta@.contains_key((a, q)) && #[trigger] tdelta@[(a, q)].contains(p) ==> exists|j: int|
                        0 <= j < i && keys[j] == (a, p) && values[j] == q,
                forall|j: int|
                    0 <= j < i ==> tdelta@.contains_key((#[trigger] keys[j].0, values[j])) && tdelta@[(
                        keys[j].0,
                        values[j],
                    )].contains(keys[j].1),
                forall|k: (Name, Name)| #[trigger] tdelta@.contains_key(k) ==> tdelta@[k] != Set::<Name>::empty(),
            decreases entries.len() - i,
        {
            let source = entries[i].0.get_content();
            let symbol = entries[i].0.get_symbol();
            let image = &entries[i].1;
            let key = Transition::new(symbol.clone(), image.clone());
            let mut sources = match tdelta.get(&key) {
                Some(s) => s.clone(),
                None => BTSet::new(),
            };
            sources.insert(source.clone());
            let ghost before = tdelta@;
            let ghost src = source@;
            assert(sources@.contains(src));
            tdelta.insert(key, sources);
            let ghost k = keys[i as int];
            let ghost v = values[i as int];
            i = i + 1;
            proof {
                assert forall|kk: (Name, Name)| #[trigger] tdelta@.contains_key(kk) implies tdelta@[kk] != Set::<Name>::empty() by {
                    if kk == (k.0, v) {
                        assert(tdelta@[kk].contains(src));
                    } else {
                        assert(before.contains_key(kk));
                    }
                }
                assert forall|a: Name, p: Name, q: Name|
                    tdelta@.contains_key((a, q)) && #[trigger] tdelta@[(a, q)].contains(p) implies exists|j: int|
                        0 <= j < i && keys[j] == (a, p) && values[j] == q by {
                    if (a, q) == (k.0, v) && p == k.1 {
                        assert(keys[i - 1] == (a, p) && values[i - 1] == q);
                    } else {
                        assert(before.contains_key((a, q)) && before[(a, q)].contains(p));
                    }
                }
                assert forall|j: int| 0 <= j < i implies tdelta@.contains_key((#[trigger] keys[j].0, values[j])) && tdelta@[(
                        keys[j].0,
                        values[j],
                    )].contains(keys[j].1) by {
                    if j < i - 1 {
                        assert(before.contains_key((keys[j].0, values[j])));
                    }
                }
            }
        }
        proof {
            let d = self.delta_map();
            assert forall|a: Name, p: Name, q: Name|
                (#[trigger] tdelta@.contains_key((a, q)) && tdelta@[(a, q)].contains(p)) <==> (
                #[trigger] d.contains_key((a, p)) && d[(a, p)] == q) by {
                if d.contains_key((a, p)) && d[(a, p)] == q {
                    assert(keys.to_set().contains((a, p)));
                    let j = keys.index_of((a, p));
                    assert(d[keys[j]] == values[j]);
                    assert(keys[j].0 == a);
                }
                if tdelta@.contains_key((a, q)) && tdelta@[(a, q)].contains(p) {
                    let j = choose|j: int| 0 <= j < entries.len() && keys[j] == (a, p) && values[j] == q;
                    assert(d[keys[j]] == values[j]);
                    assert(keys.to_set().contains(keys[j]));
                }
            }
        }
        let mut ends: BTSet<State> = BTSet::new();
        ends.insert(self.start.clone());
        assert(ends@ =~= set![self.start_name()]);
        let fsm = FSM::new(self.fsm.get_states().clone(), self.fsm.get_alphabet().clone(), ends);
        NonDeterministicFiniteAutomaton::new(self.fsm.get_ends().clone(), tdelta, fsm)
    }

    /// Brzozowski's minimization: transpose and determinize, twice.
    pub fn to_minimize(&self) -> (r: DeterministicFiniteAutomaton)
        ensures
            is_minimization(*self, r),
            is_minimal(r),
    {
        let reversed = self.to_transpose();
        let first = reversed.to_dfa();
        let back = first.to_transpose();
        let r = back.to_dfa();
        proof {
            let alphabet = self.spec_fsm().alphabet_set();
            assert forall|w: Seq<Name>|
                #[trigger] r.accepts(w) == (over(w, alphabet) && self.accepts(w)) by {
                let v = w.reverse();
                lemma_transpose_accepts(first.delta_map(), first.start_name(), first.spec_fsm().ends_set(), back.delta_map(), w);
                assert(r.accepts(w) == (over(w, alphabet) && back.accepts(w)));
                assert(first.accepts(v) == (over(v, alphabet) && reversed.accepts(v)));
                lemma_transpose_accepts(self.delta_map(), self.start_name(), self.spec_fsm().ends_set(), reversed.delta_map(), v);
                assert(v.reverse() =~= w);
                lemma_over_reverse(w, alphabet);
            }
            lemma_determinization_facts(
                reversed.delta_map(),
                None,
                reversed.starts_set(),
                reversed.spec_fsm(),
                first,
            );
            lemma_determinize_transpose_minimal(first, back, r);
        }
        r
    }

    /// A copy: the automaton is deterministic already.
    pub fn to_dfa(&self) -> (r: DeterministicFiniteAutomaton)
        ensures
            r.start_name() == self.start_name(),
            r.delta_map() == self.delta_map(),
            r.spec_fsm().states_set() == self.spec_fsm().states_set(),
            r.spec_fsm().alphabet_set() == self.spec_fsm().alphabet_set(),
            r.spec_fsm().ends_set() == self.spec_fsm().ends_set(),
    {
        self.clone()
    }

    pub fn get_start(&self) -> (r: &State)
        ensures
            *r == self.spec_start(),
    {
        &self.start
    }

    /// The start state, under the name that the non-deterministic automata use.
    pub fn get_starts(&self) -> (r: &State)
        ensures
            *r == self.spec_start(),
    {
        &self.start
    }

    pub fn get_fsm(&self) -> (r: &FSM)
        ensures
            *r == self.spec_fsm(),
    {
        &self.fsm
    }

    pub fn get_delta(&self) -> (r: &Table<Transition<State>, State>)
        ensures
            *r == self.spec_delta(),
    {
        &self.delta
    }

    pub fn get_states(&self) -> (r: &BTSet<State>)
        ensures
            *r == self.spec_fsm().spec_states(),
    {
        self.fsm.get_states()
    }

    pub fn get_alphabet(&self) -> (r: &BTSet<Symbol>)
        ensures
            *r == self.spec_fsm().spec_alphabet(),
    {
        self.fsm.get_alphabet()
    }

    pub fn get_ends(&self) -> (r: &BTSet<State>)
        ensures
            *r == self.spec_fsm().spec_ends(),
    {
        self.fsm.get_ends()
    }

    /// Whether the automaton accepts `word`, read one symbol per character.
    pub fn accept(&self, word: &str) -> (r: bool)
        ensures
            r == self.accepts(word_symbols(word@)),
    {
        let ghost w = word_symbols(word@);
        let n = word.unicode_len();
        let mut state = self.start.clone();
        let mut i: usize = 0;
        while i < n
            invariant
                i <= n,
                n == word@.len(),
                w == word_symbols(word@),
                dfa_run(self.delta_map(), self.start_name(), w.subrange(0, i as int)) == Some(state@),
            decreases n - i,
        {
            let symbol = Symbol::of_char(word, i);
            assert(w.subrange(0, i + 1).drop_last() =~= w.subrange(0, i as int));
            match self.delta.get(&Transition::new(symbol, state.clone())) {
                Some(image) => {
                    state = image.clone();
                },
                None => {
                    proof {
                        lemma_dfa_run_stays_stuck(self.delta_map(), self.start_name(), w, i as int + 1);
                    }
                    return false;
                },
            }
            i = i + 1;
        }
        assert(w.subrange(0, i as int) =~= w);
        self.fsm.get_ends().contains(&state)
    }
}

impl Clone for DeterministicFiniteAutomaton {
    fn clone(&self) -> (r: Self)
        ensures
            r.start_name() == self.start_name(),
            r.delta_map() == self.delta_map(),
            r.spec_fsm().states_set() == self.spec_fsm().states_set(),
            r.spec_fsm().alphabet_set() == self.spec_fsm().alphabet_set(),
            r.spec_fsm().ends_set() == self.spec_fsm().ends_set(),
    {
        DeterministicFiniteAutomaton {
            start: self.start.clone(),
            delta: self.delta.clone(),
            fsm: self.fsm.clone(),
        }
    }
}

/// Once a transition is missing the run stays stuck.
proof fn lemma_dfa_run_stays_stuck(delta: DetDelta, q: Name, w: Seq<Name>, k: int)
    requires
        0 <= k <= w.len(),
        dfa_run(delta, q, w.subrange(0, k)) == None::<Name>,
    ensures
        dfa_run(delta, q, w) == None::<Name>,
    decreases w.len() - k,
{
    if k < w.len() {
        assert(w.subrange(0, k + 1).drop_last() =~= w.subrange(0, k));
        lemma_dfa_run_stays_stuck(delta, q, w, k + 1);
    } else {
        assert(w.subrange(0, k) =~= w);
    }
}

} // verus!
