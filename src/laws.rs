use vstd::prelude::*;
use crate::btset::{BTSet, SetElement};
use crate::dfa::{DeterministicFiniteAutomaton, is_minimal, is_minimization};
use crate::lang::{
    Name, dfa_accepts, dfa_run, lemma_dfa_accepts_append, lemma_dfa_run_within, eps_closure, eps_iter, frontier_step, lemma_dfa_run_over, lemma_run_sets_over,
    nfa_step, over, run_sets, symbols_within,
};
use crate::nfa::NonDeterministicFiniteAutomaton;
use crate::nfae::NonDeterministicFiniteAutomatonEpsilon;
use crate::subset::is_determinization;

verus! {

/// Minimization keeps the language of an automaton whose transitions read only
/// symbols of its alphabet.
pub proof fn law_minimize_keeps_language(a: DeterministicFiniteAutomaton, m: DeterministicFiniteAutomaton)
    requires
        symbols_within(a.delta_map(), a.spec_fsm().alphabet_set()),
        is_minimization(a, m),
    ensures
        forall|w: Seq<Name>| #[trigger] m.accepts(w) == a.accepts(w),
{
    assert forall|w: Seq<Name>| #[trigger] m.accepts(w) == a.accepts(w) by {
        if a.accepts(w) {
            lemma_dfa_run_over(a.delta_map(), a.start_name(), w, a.spec_fsm().alphabet_set());
        }
    }
}

/// Minimizing a minimized automaton again keeps its language and, when both
/// results are minimal, its number of states.
pub proof fn law_minimize_twice(
    a: DeterministicFiniteAutomaton,
    m1: DeterministicFiniteAutomaton,
    m2: DeterministicFiniteAutomaton,
)
    requires
        is_minimization(a, m1),
        is_minimization(m1, m2),
    ensures
        forall|w: Seq<Name>| #[trigger] m2.accepts(w) == m1.accepts(w),
        is_minimal(m1) && is_minimal(m2) ==> m2.spec_fsm().states_set().len()
            == m1.spec_fsm().states_set().len(),
{
    assert forall|w: Seq<Name>| #[trigger] m2.accepts(w) == m1.accepts(w) by {
        if m1.accepts(w) {
            assert(over(w, a.spec_fsm().alphabet_set()));
        }
    }
    if is_minimal(m1) && is_minimal(m2) {
        law_minimal_has_fewest_states(m1, m2);
        law_minimal_has_fewest_states(m2, m1);
    }
}

/// A minimal automaton has no more states than any deterministic automaton
/// that accepts the same words, starts among its states and whose transitions
/// lead to its states.
pub proof fn law_minimal_has_fewest_states(m: DeterministicFiniteAutomaton, d: DeterministicFiniteAutomaton)
    requires
        is_minimal(m),
        forall|w: Seq<Name>| #[trigger] d.accepts(w) == m.accepts(w),
        d.spec_fsm().states_set().contains(d.start_name()),
        forall|k: (Name, Name)|
            #[trigger] d.delta_map().contains_key(k) ==> d.spec_fsm().states_set().contains(d.delta_map()[k]),
    ensures
        m.spec_fsm().states_set().len() <= d.spec_fsm().states_set().len(),
{
    let ms = m.spec_fsm().states_set();
    let ds = d.spec_fsm().states_set();
    let mends = m.spec_fsm().ends_set();
    let dends = d.spec_fsm().ends_set();
    let word = |p: Name| choose|w: Seq<Name>| #[trigger] dfa_run(m.delta_map(), m.start_name(), w) == Some(p);
    let f = |p: Name|
        match dfa_run(d.delta_map(), d.start_name(), word(p)) {
            Some(x) => x,
            None => d.start_name(),
        };
    // a state whose word leads nowhere in `d` accepts nothing, so it is the start,
    // and then `m` accepts nothing at all
    assert forall|p: Name| ms.contains(p) && dfa_run(d.delta_map(), d.start_name(), word(p)) is None implies p
        == m.start_name() && forall|w: Seq<Name>| !#[trigger] m.accepts(w) by {
        assert(exists|w: Seq<Name>| #[trigger] dfa_run(m.delta_map(), m.start_name(), w) == Some(p));
        let wp = word(p);
        assert forall|u: Seq<Name>| !#[trigger] dfa_accepts(m.delta_map(), p, mends, u) by {
            lemma_dfa_accepts_append(m.delta_map(), m.start_name(), mends, wp, u);
            lemma_dfa_accepts_append(d.delta_map(), d.start_name(), dends, wp, u);
            assert(d.accepts(wp + u) == m.accepts(wp + u));
        }
        if p != m.start_name() {
            let u = choose|u: Seq<Name>| #[trigger] dfa_accepts(m.delta_map(), p, mends, u);
        }
    }
    assert forall|p: Name| ms.contains(p) implies ds.contains(#[trigger] f(p)) by {
        lemma_dfa_run_within(d.delta_map(), d.start_name(), word(p), ds);
    }
    if exists|p: Name| ms.contains(p) && dfa_run(d.delta_map(), d.start_name(), word(p)) is None {
        let p = choose|p: Name| ms.contains(p) && dfa_run(d.delta_map(), d.start_name(), word(p)) is None;
        assert(ms =~= set![m.start_name()]) by {
            assert forall|q: Name| ms.contains(q) implies q == m.start_name() by {
                if q != m.start_name() {
                    let u = choose|u: Seq<Name>| #[trigger] dfa_accepts(m.delta_map(), q, mends, u);
                    assert(exists|w: Seq<Name>| #[trigger] dfa_run(m.delta_map(), m.start_name(), w) == Some(q));
                    lemma_dfa_accepts_append(m.delta_map(), m.start_name(), mends, word(q), u);
                    assert(m.accepts(word(q) + u));
                }
            }
        }
        assert(set![m.start_name()].len() == 1);
        vstd::set_lib::lemma_len_subset(set![d.start_name()], ds);
        assert(set![d.start_name()].len() == 1);
    } else {
        assert(vstd::relations::injective_on(f, ms)) by {
            assert forall|p: Name, q: Name| ms.contains(p) && ms.contains(q) && #[trigger] f(p) == #[trigger] f(q) implies p
                == q by {
                if p != q {
                    let u = choose|u: Seq<Name>|
                        dfa_accepts(m.delta_map(), p, mends, u) != #[trigger] dfa_accepts(m.delta_map(), q, mends, u);
                    assert(exists|w: Seq<Name>| #[trigger] dfa_run(m.delta_map(), m.start_name(), w) == Some(p));
                    assert(exists|w: Seq<Name>| #[trigger] dfa_run(m.delta_map(), m.start_name(), w) == Some(q));
                    lemma_dfa_accepts_append(m.delta_map(), m.start_name(), mends, word(p), u);
                    lemma_dfa_accepts_append(m.delta_map(), m.start_name(), mends, word(q), u);
                    lemma_dfa_accepts_append(d.delta_map(), d.start_name(), dends, word(p), u);
                    lemma_dfa_accepts_append(d.delta_map(), d.start_name(), dends, word(q), u);
                    assert(d.accepts(word(p) + u) == m.accepts(word(p) + u));
                    assert(d.accepts(word(q) + u) == m.accepts(word(q) + u));
                }
            }
        }
        vstd::set_lib::lemma_map_size(ms, ms.map(f), f);
        assert(ms.map(f).subset_of(ds)) by {
            assert forall|x: Name| ms.map(f).contains(x) implies ds.contains(x) by {
                let p = choose|p: Name| ms.contains(p) && f(p) == x;
            }
        }
        vstd::set_lib::lemma_len_subset(ms.map(f), ds);
    }
}

/// The subset construction keeps the language of an automaton whose
/// transitions read only symbols of its alphabet.
pub proof fn law_nfa_to_dfa_keeps_language(n: NonDeterministicFiniteAutomaton, d: DeterministicFiniteAutomaton)
    requires
        symbols_within(n.delta_map(), n.spec_fsm().alphabet_set()),
        is_determinization(n.delta_map(), None, n.starts_set(), n.spec_fsm(), d),
    ensures
        forall|w: Seq<Name>| #[trigger] d.accepts(w) == n.accepts(w),
{
    assert forall|w: Seq<Name>| #[trigger] d.accepts(w) == n.accepts(w) by {
        if n.accepts(w) {
            let r = run_sets(frontier_step(n.delta_map(), None), n.starts_set(), w);
            let q = choose|q: Name| #[trigger] r.contains(q) && n.spec_fsm().ends_set().contains(q);
            assert(r != Set::<Name>::empty()) by {
                assert(r.contains(q));
            }
            lemma_run_sets_over(n.delta_map(), None, n.starts_set(), w, n.spec_fsm().alphabet_set());
        }
    }
}

/// The subset construction with epsilon-closures keeps the language of an
/// automaton whose transitions read only symbols of its alphabet.
pub proof fn law_nfae_to_dfa_keeps_language(
    n: NonDeterministicFiniteAutomatonEpsilon,
    d: DeterministicFiniteAutomaton,
)
    requires
        symbols_within(n.delta_map(), n.spec_fsm().alphabet_set()),
        is_determinization(
            n.delta_map(),
            Some(n.epsilon_name()),
            n.closure(n.starts_set()),
            n.spec_fsm(),
            d,
        ),
    ensures
        forall|w: Seq<Name>| #[trigger] d.accepts(w) == n.accepts(w),
{
    assert forall|w: Seq<Name>| #[trigger] d.accepts(w) == n.accepts(w) by {
        if n.accepts(w) {
            let seed = n.closure(n.starts_set());
            let r = run_sets(frontier_step(n.delta_map(), Some(n.epsilon_name())), seed, w);
            let q = choose|q: Name| #[trigger] r.contains(q) && n.spec_fsm().ends_set().contains(q);
            assert(r != Set::<Name>::empty()) by {
                assert(r.contains(q));
            }
            lemma_run_sets_over(n.delta_map(), Some(n.epsilon_name()), seed, w, n.spec_fsm().alphabet_set());
        }
    }
}

/// Closing a closed set of states adds nothing.
pub proof fn law_closure_idempotent(n: NonDeterministicFiniteAutomatonEpsilon, s: Set<Name>)
    ensures
        n.closure(n.closure(s)) == n.closure(s),
{
    let d = n.delta_map();
    let e = n.epsilon_name();
    let c = n.closure(s);
    assert forall|q: Name| nfa_step(d, c, e).contains(q) implies c.contains(q) by {
        let p = choose|p: Name| #[trigger] c.contains(p) && d.contains_key((e, p)) && d[(e, p)].contains(q);
        let m = choose|m: nat| #[trigger] eps_iter(d, e, s, m).contains(p);
        assert(nfa_step(d, eps_iter(d, e, s, m), e).contains(q));
        assert(eps_iter(d, e, s, m + 1).contains(q));
    }
    assert forall|q: Name| eps_closure(d, e, c).contains(q) implies c.contains(q) by {
        let m = choose|m: nat| #[trigger] eps_iter(d, e, c, m).contains(q);
        lemma_closed_iter(d, e, c, m);
    }
    assert forall|q: Name| c.contains(q) implies eps_closure(d, e, c).contains(q) by {
        assert(eps_iter(d, e, c, 0).contains(q));
    }
    assert(eps_closure(d, e, c) =~= c);
}

proof fn lemma_closed_iter(d: Map<(Name, Name), Set<Name>>, e: Name, c: Set<Name>, m: nat)
    requires
        nfa_step(d, c, e).subset_of(c),
    ensures
        eps_iter(d, e, c, m) == c,
    decreases m,
{
    if m > 0 {
        lemma_closed_iter(d, e, c, (m - 1) as nat);
        assert(eps_iter(d, e, c, m) =~= c);
    }
}

/// A set less itself is empty, and a set less the empty set is itself.
pub proof fn law_difference<T: SetElement>(s: BTSet<T>)
    ensures
        s@.difference(s@) == Set::<T::V>::empty(),
        s@.difference(Set::<T::V>::empty()) == s@,
{
    assert(s@.difference(s@) =~= Set::<T::V>::empty());
    assert(s@.difference(Set::<T::V>::empty()) =~= s@);
}

} // verus!
