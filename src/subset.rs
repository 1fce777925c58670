use vstd::prelude::*;
use crate::btset::{BTSet, SetElement};
use crate::dfa::DeterministicFiniteAutomaton;
use crate::fsm::FSM;
use crate::lang::{
    Name, dfa_run, NonDetDelta, eps_closure, eps_iter, frontier_step, images_within, is_subset_construction,
    lemma_distinct_subsets_bound, lemma_eps_closure_at_fixpoint, lemma_eps_closure_within,
    lemma_frontier_step_empty, lemma_nfa_step_within, lemma_over_push, lemma_run_sets_within,
    lemma_subset_accepts, lemma_subset_run, lemma_subsets_len, nfa_step, over, pow2, run_sets,
    subsets,
};
use crate::naming::{lemma_state_name_injective, state_name, state_named};
use crate::nfa::delta_image;
use crate::state::State;
use crate::symbol::Symbol;
use crate::table::Table;
use crate::transition::Transition;

verus! {

broadcast use Seq::lemma_push_to_set_commute;

/// The view of an optional epsilon symbol.
pub open spec fn opt_name(eps: Option<&Symbol>) -> Option<Name> {
    match eps {
        Some(e) => Some(e@),
        None => None,
    }
}

/// `s` is the frontier after some word over `alphabet`, and is not empty unless
/// that word is.
pub open spec fn reached(
    step: spec_fn(Set<Name>, Name) -> Set<Name>,
    alphabet: Set<Name>,
    seed: Set<Name>,
    s: Set<Name>,
) -> bool {
    exists|w: Seq<Name>|
        over(w, alphabet) && #[trigger] run_sets(step, seed, w) == s && (w.len() == 0 || s
            != Set::<Name>::empty())
}

/// `d` is the subset construction for the frontier moves `frontier_step(delta, eps)`
/// from `seed`, whose discovered frontiers are `known`, in the order of discovery:
/// - the state `q_i` stands for `known[i]`, the start `q_0` for `seed`, and `d`
///   has no other states;
/// - the transition on `a` from `q_i` leads to the state of the image of
///   `known[i]`, and is missing exactly when `a` is not in `alphabet` or the image
///   is empty; `d` has no transition from any other state;
/// - `q_i` is an end state exactly when `known[i]` meets `ends`;
/// - the frontiers in `known` are distinct, each reached by a word over
///   `alphabet`, and every frontier so reached is among them;
/// - there are at most `2^|u|` of them, for any finite `u` that holds the seed
///   and every image set.
pub open spec fn determinizes(
    delta: NonDetDelta,
    eps: Option<Name>,
    alphabet: Set<Name>,
    seed: Set<Name>,
    ends: Set<Name>,
    known: Seq<Set<Name>>,
    d: DeterministicFiniteAutomaton,
) -> bool {
    let step = frontier_step(delta, eps);
    let names = names_upto(known.len() as int);
    &&& known.no_duplicates()
    &&& is_subset_construction(
        step,
        alphabet,
        seed,
        ends,
        known,
        names,
        d.delta_map(),
        d.start_name(),
        d.spec_fsm().ends_set(),
    )
    &&& d.spec_fsm().states_set() == names.to_set()
    &&& forall|j: int| 0 <= j < known.len() ==> #[trigger] reached(step, alphabet, seed, known[j])
    &&& forall|w: Seq<Name>|
        over(w, alphabet) && (w.len() == 0 || run_sets(step, seed, w) != Set::<Name>::empty())
            ==> known.contains(#[trigger] run_sets(step, seed, w))
    &&& forall|u: Set<Name>|
        u.finite() && seed.subset_of(u) && #[trigger] images_within(delta, u) ==> known.len()
            <= pow2(u.len())
}

/// `d` is the subset construction of `delta` over the alphabet of `fsm` from
/// `seed` (see `determinizes`), its end states are among its states, and it
/// accepts the words over the alphabet whose frontier meets the end states of
/// `fsm`.
pub open spec fn is_determinization(
    delta: NonDetDelta,
    eps: Option<Name>,
    seed: Set<Name>,
    fsm: FSM,
    d: DeterministicFiniteAutomaton,
) -> bool {
    &&& d.spec_fsm().alphabet_set() == fsm.alphabet_set()
    &&& d.start_name() == state_name(0)
    &&& exists|known: Seq<Set<Name>>|
        #[trigger] determinizes(delta, eps, fsm.alphabet_set(), seed, fsm.ends_set(), known, d)
    &&& d.spec_fsm().ends_set().subset_of(d.spec_fsm().states_set())
    &&& forall|w: Seq<Name>|
        #[trigger] d.accepts(w) == (over(w, fsm.alphabet_set()) && exists|q: Name|
            #[trigger] run_sets(frontier_step(delta, eps), seed, w).contains(q)
                && fsm.ends_set().contains(q))
}

/// Every state of a subset construction is reached by a word over the
/// alphabet, and every transition leaves a state on a symbol of the alphabet.
pub proof fn lemma_determinization_facts(
    delta: NonDetDelta,
    eps: Option<Name>,
    seed: Set<Name>,
    fsm: FSM,
    d: DeterministicFiniteAutomaton,
)
    requires
        is_determinization(delta, eps, seed, fsm, d),
    ensures
        forall|q: Name|
            #[trigger] d.spec_fsm().states_set().contains(q) ==> exists|v: Seq<Name>|
                over(v, fsm.alphabet_set()) && #[trigger] dfa_run(d.delta_map(), d.start_name(), v)
                    == Some(q),
        forall|k: (Name, Name)|
            #[trigger] d.delta_map().contains_key(k) ==> d.spec_fsm().states_set().contains(k.1)
                && fsm.alphabet_set().contains(k.0),
{
    let alphabet = fsm.alphabet_set();
    let ends = fsm.ends_set();
    let known = choose|known: Seq<Set<Name>>| #[trigger] determinizes(delta, eps, alphabet, seed, ends, known, d);
    let step = frontier_step(delta, eps);
    let names = names_upto(known.len() as int);
    let dd = d.delta_map();
    let dends = d.spec_fsm().ends_set();
    lemma_frontier_step_empty(delta, eps);
    assert forall|q: Name| #[trigger] d.spec_fsm().states_set().contains(q) implies exists|v: Seq<Name>|
        over(v, alphabet) && #[trigger] dfa_run(dd, d.start_name(), v) == Some(q) by {
        assert(names.contains(q));
        let k = names.index_of(q);
        assert(reached(step, alphabet, seed, known[k]));
        let w = choose|w: Seq<Name>|
            over(w, alphabet) && #[trigger] run_sets(step, seed, w) == known[k] && (w.len() == 0
                || known[k] != Set::<Name>::empty());
        lemma_subset_run(step, alphabet, seed, ends, known, names, dd, d.start_name(), dends, w);
        match dfa_run(dd, d.start_name(), w) {
            Some(q2) => {
                let x = choose|x: int| 0 <= x < known.len() && q2 == names[x] && known[x] == run_sets(step, seed, w);
                assert(x == k);
            },
            None => {
                assert(w.len() != 0);
            },
        }
    }
    assert forall|k: (Name, Name)| #[trigger] dd.contains_key(k) implies d.spec_fsm().states_set().contains(k.1)
        && alphabet.contains(k.0) by {
        let i = choose|i: int| 0 <= i < known.len() && k.1 == names[i];
        assert(k == (k.0, names[i]));
        assert(dd.contains_key((k.0, names[i])));
    }
}

/// A set that holds every image set of `delta`.
pub(crate) fn all_images(delta: &Table<Transition<State>, BTSet<State>>) -> (r: BTSet<State>)
    ensures
        images_within(delta@, r@),
{
    let entries = delta.entries();
    let ghost keys = entries@.map_values(|e: (Transition<State>, BTSet<State>)| e.0@);
    let ghost values = entries@.map_values(|e: (Transition<State>, BTSet<State>)| e.1@);
    let mut r: BTSet<State> = BTSet::new();
    let mut i: usize = 0;
    while i < entries.len()
        invariant
            i <= entries.len(),
            values == entries@.map_values(|e: (Transition<State>, BTSet<State>)| e.1@),
            forall|j: int| 0 <= j < i ==> (#[trigger] values[j]).subset_of(r@),
        decreases entries.len() - i,
    {
        r.insert_all(entries[i].1.clone());
        i = i + 1;
    }
    proof {
        assert forall|k: (Name, Name)| #[trigger] delta@.contains_key(k) implies delta@[k].subset_of(r@) by {
            assert(keys.to_set().contains(k));
            let j = keys.index_of(k);
            assert(delta@[keys[j]] == values[j]);
        }
    }
    r
}

/// The states reached from `states` by epsilon-transitions on `eps`: the
/// frontier grows by one step until a step adds nothing new.
pub(crate) fn epsilon_closure(
    delta: &Table<Transition<State>, BTSet<State>>,
    eps: &Symbol,
    states: BTSet<State>,
) -> (r: BTSet<State>)
    ensures
        r@ == eps_closure(delta@, eps@, states@),
{
    let mut universe = all_images(delta);
    universe.insert_all(states.clone());
    let ghost u = universe@;
    let ghost s0 = states@;
    let mut current = states;
    let ghost mut n: nat = 0;
    loop
        invariant
            current@ == eps_iter(delta@, eps@, s0, n),
            s0 == states@,
            current@.subset_of(u),
            u.finite(),
            images_within(delta@, u),
        decreases u.len() - current@.len(),
    {
        let step = delta_image(delta, &current, eps);
        let fresh = step.difference(current.clone());
        proof {
            lemma_nfa_step_within(delta@, current@, eps@, u);
            vstd::set_lib::lemma_len_subset(current@, u);
        }
        if fresh.is_empty() {
            proof {
                assert forall|v: Name| step@.contains(v) implies current@.contains(v) by {
                    assert(!fresh@.contains(v));
                }
                assert(eps_iter(delta@, eps@, s0, n + 1) == current@.union(nfa_step(delta@, current@, eps@)));
                assert(eps_iter(delta@, eps@, s0, n + 1) =~= current@);
                lemma_eps_closure_at_fixpoint(delta@, eps@, s0, n);
            }
            return current;
        }
        let ghost before = current@;
        current.insert_all(fresh);
        proof {
            n = n + 1;
            assert(current@ =~= eps_iter(delta@, eps@, s0, n));
            let v = fresh@.choose();
            assert(fresh@.contains(v)) by {
                assert(fresh@ != Set::<Name>::empty());
                if !fresh@.contains(v) {
                    assert(fresh@ =~= Set::<Name>::empty());
                }
            }
            vstd::set_lib::lemma_len_subset(before, current@.remove(v));
            vstd::set_lib::lemma_len_subset(current@, u);
        }
    }
}

/// One move of a frontier on `symbol`, followed by the epsilon-closure where
/// `eps` is given.
pub(crate) fn frontier_image(
    delta: &Table<Transition<State>, BTSet<State>>,
    states: &BTSet<State>,
    symbol: &Symbol,
    eps: Option<&Symbol>,
) -> (r: BTSet<State>)
    ensures
        r@ == frontier_step(delta@, opt_name(eps))(states@, symbol@),
{
    let image = delta_image(delta, states, symbol);
    match eps {
        Some(e) => epsilon_closure(delta, e, image),
        None => image,
    }
}

fn find_known(known: &Vec<BTSet<State>>, set: &BTSet<State>) -> (r: Option<usize>)
    ensures
        match r {
            Some(j) => j < known.len() && known@[j as int]@ == set@,
            None => forall|j: int| 0 <= j < known.len() ==> known@[j]@ != set@,
        },
{
    let mut j: usize = 0;
    while j < known.len()
        invariant
            j <= known.len(),
            forall|m: int| 0 <= m < j ==> known@[m]@ != set@,
        decreases known.len() - j,
    {
        if known[j].same(set) {
            return Some(j);
        }
        j = j + 1;
    }
    None
}

/// The states names of a subset construction that has discovered `n` frontiers.
pub open spec fn names_upto(n: int) -> Seq<Name> {
    Seq::new(n as nat, |j: int| state_name(j as nat))
}

proof fn lemma_names_distinct()
    ensures
        forall|i: nat, j: nat| i != j ==> #[trigger] state_name(i) != #[trigger] state_name(j),
{
    assert forall|i: nat, j: nat| i != j implies #[trigger] state_name(i) != #[trigger] state_name(j) by {
        if state_name(i) == state_name(j) {
            lemma_state_name_injective(i, j);
        }
    }
}

/// The subset construction: a deterministic automaton whose states stand for
/// the frontiers reachable from `seed`, named `q_0`, `q_1`, ... in the order of
/// their discovery. It accepts the words over `alphabet` whose frontier meets
/// `ends`.
#[verifier::rlimit(60)]
pub(crate) fn subset_construction(
    delta: &Table<Transition<State>, BTSet<State>>,
    fsm: &FSM,
    seed: BTSet<State>,
    eps: Option<&Symbol>,
) -> (r: DeterministicFiniteAutomaton)
    ensures
        is_determinization(delta@, opt_name(eps), seed@, *fsm, r),
{
    let alphabet = fsm.get_alphabet();
    let ends = fsm.get_ends();
    let ghost step = frontier_step(delta@, opt_name(eps));
    let mut universe = all_images(delta);
    universe.insert_all(seed.clone());
    let ghost u = universe@;
    let ghost s0 = seed@;
    let symbols = alphabet.get();
    let ghost syms = symbols@.map_values(|t: Symbol| t@);
    let mut known: Vec<BTSet<State>> = Vec::new();
    known.push(seed);
    let mut ddelta: Table<Transition<State>, State> = Table::new();
    proof {
        lemma_names_distinct();
        lemma_distinct_subsets_bound(known@.map_values(|s: BTSet<State>| s@), u);
        let e = Seq::<Name>::empty();
        assert(over(e, alphabet@) && run_sets(step, s0, e) == s0);
        assert(reached(step, alphabet@, s0, known@[0]@));
    }
    let mut i: usize = 0;
    while i < known.len()
        invariant
            syms == symbols@.map_values(|t: Symbol| t@),
            syms.no_duplicates(),
            alphabet@ == syms.to_set(),
            step == frontier_step(delta@, opt_name(eps)),
            u.finite(),
            images_within(delta@, u),
            s0.subset_of(u),
            subsets(u).finite(),
            0 < known.len() <= subsets(u).len(),
            i <= known.len(),
            known@[0]@ == s0,
            known@.map_values(|s: BTSet<State>| s@).no_duplicates(),
            forall|j: int| 0 <= j < known.len() ==> (#[trigger] known@[j])@.subset_of(u),
            forall|j: int, a: Name|
                0 <= j < i ==> (#[trigger] ddelta@.contains_key((a, state_name(j as nat))) <==> (
                alphabet@.contains(a) && step(known@[j]@, a) != Set::<Name>::empty())),
            forall|j: int, a: Name|
                0 <= j < i && #[trigger] ddelta@.contains_key((a, state_name(j as nat))) ==> exists|m: int|
                    0 <= m < known.len() && ddelta@[(a, state_name(j as nat))] == state_name(m as nat)
                        && known@[m]@ == step(known@[j]@, a),
            forall|j: nat, a: Name| i <= j ==> !(#[trigger] ddelta@.contains_key((a, state_name(j)))),
            forall|key: (Name, Name)|
                #[trigger] ddelta@.contains_key(key) ==> exists|m: nat| m < i && key.1 == #[trigger] state_name(m),
            forall|j: int| 0 <= j < known.len() ==> #[trigger] reached(step, alphabet@, s0, known@[j]@),
        decreases subsets(u).len() - i,
    {
        proof {
            assert forall|a: Name| !(#[trigger] ddelta@.contains_key((a, state_name(i as nat)))) by {
            }
            assert(syms.subrange(0, 0) =~= Seq::<Name>::empty());
        }
        let mut k: usize = 0;
        while k < symbols.len()
            invariant
                syms == symbols@.map_values(|t: Symbol| t@),
                syms.no_duplicates(),
                alphabet@ == syms.to_set(),
                step == frontier_step(delta@, opt_name(eps)),
                u.finite(),
                images_within(delta@, u),
                s0.subset_of(u),
                subsets(u).finite(),
                0 < known.len() <= subsets(u).len(),
                i < known.len(),
                k <= symbols.len(),
                known@[0]@ == s0,
                known@.map_values(|s: BTSet<State>| s@).no_duplicates(),
                forall|j: int| 0 <= j < known.len() ==> (#[trigger] known@[j])@.subset_of(u),
                forall|j: int, a: Name|
                    0 <= j < i ==> (#[trigger] ddelta@.contains_key((a, state_name(j as nat))) <==> (
                    alphabet@.contains(a) && step(known@[j]@, a) != Set::<Name>::empty())),
                forall|a: Name|
                    #[trigger] ddelta@.contains_key((a, state_name(i as nat))) <==> (syms.subrange(
                        0,
                        k as int,
                    ).contains(a) && step(known@[i as int]@, a) != Set::<Name>::empty()),
                forall|j: int, a: Name|
                    0 <= j <= i && #[trigger] ddelta@.contains_key((a, state_name(j as nat))) ==> exists|m: int|
                        0 <= m < known.len() && ddelta@[(a, state_name(j as nat))] == state_name(m as nat)
                            && known@[m]@ == step(known@[j]@, a),
                forall|j: nat, a: Name| i < j ==> !(#[trigger] ddelta@.contains_key((a, state_name(j)))),
                forall|key: (Name, Name)|
                    #[trigger] ddelta@.contains_key(key) ==> exists|m: nat| m <= i && key.1 == #[trigger] state_name(m),
                forall|j: int| 0 <= j < known.len() ==> #[trigger] reached(step, alphabet@, s0, known@[j]@),
            decreases symbols.len() - k,
        {
            let ghost a = syms[k as int];
            let ghost kb = known@;
            proof {
                lemma_names_distinct();
            }
            let image = frontier_image(delta, &known[i], &symbols[k], eps);
            assert(image@ == step(known@[i as int]@, a));
            proof {
                lemma_nfa_step_within(delta@, known@[i as int]@, a, u);
                if let Some(e) = opt_name(eps) {
                    lemma_eps_closure_within(delta@, e, nfa_step(delta@, known@[i as int]@, a), u);
                }
            }
            assert(syms.subrange(0, k + 1) =~= syms.subrange(0, k as int).push(a));
            if !image.is_empty() {
                let ghost kv_before = known@.map_values(|s: BTSet<State>| s@);
                let target = match find_known(&known, &image) {
                    Some(m) => m,
                    None => {
                        let ghost img = image@;
                        known.push(image);
                        proof {
                            let kv = known@.map_values(|s: BTSet<State>| s@);
                            assert(kv =~= kv_before.push(img));
                            assert forall|x: int, y: int| 0 <= x < y < kv.len() implies kv[x] != kv[y] by {
                                if y == kv.len() - 1 {
                                    assert(known@[x]@ == kv_before[x]);
                                }
                            }
                            assert forall|j: int| 0 <= j < kv.len() implies (#[trigger] kv[j]).subset_of(u) by {
                                assert(kv[j] == known@[j]@);
                            }
                            lemma_distinct_subsets_bound(kv, u);
                            assert(reached(step, alphabet@, s0, kb[i as int]@));
                            let wi = choose|w: Seq<Name>|
                                over(w, alphabet@) && #[trigger] run_sets(step, s0, w) == kb[i as int]@ && (w.len() == 0
                                    || kb[i as int]@ != Set::<Name>::empty());
                            let w2 = wi.push(a);
                            assert(w2.drop_last() =~= wi);
                            assert(syms.contains(a)) by {
                                assert(syms[k as int] == a);
                            }
                            lemma_over_push(w2, alphabet@);
                            assert(run_sets(step, s0, w2) == img);
                            assert(img != Set::<Name>::empty());
                            assert forall|j: int| 0 <= j < known.len() implies #[trigger] reached(step, alphabet@, s0, known@[j]@) by {
                                if j < known.len() - 1 {
                                    assert(known@[j] == kb[j]);
                                } else {
                                    assert(known@[j]@ == img);
                                    assert(over(w2, alphabet@) && run_sets(step, s0, w2) == known@[j]@);
                                }
                            }
                        }
                        known.len() - 1
                    },
                };
                let ghost before = ddelta@;
                ddelta.insert(Transition::new(symbols[k].clone(), state_named(i)), state_named(target));
                proof {
                    assert(ddelta@ == before.insert((a, state_name(i as nat)), state_name(target as nat)));
                    assert forall|key: (Name, Name)|
                        #[trigger] ddelta@.contains_key(key) implies exists|m: nat| m <= i && key.1 == #[trigger] state_name(m) by {
                        if key == (a, state_name(i as nat)) {
                            assert(key.1 == state_name(i as nat));
                        } else {
                            assert(before.contains_key(key));
                        }
                    }
                    assert forall|j: int, b: Name|
                        0 <= j <= i && #[trigger] ddelta@.contains_key((b, state_name(j as nat))) implies exists|m: int|
                            0 <= m < known.len() && ddelta@[(b, state_name(j as nat))] == state_name(m as nat)
                                && known@[m]@ == step(known@[j]@, b) by {
                        if (b, state_name(j as nat)) == (a, state_name(i as nat)) {
                            assert(j == i);
                            assert(known@[j] == kb[j]);
                            assert(0 <= target < known.len() && ddelta@[(b, state_name(j as nat))] == state_name(target as nat)
                                && known@[target as int]@ == step(known@[j]@, b));
                        } else {
                            assert(before.contains_key((b, state_name(j as nat))));
                            let m = choose|m: int|
                                0 <= m < kb.len() && before[(b, state_name(j as nat))] == state_name(m as nat)
                                    && kb[m]@ == step(kb[j]@, b);
                            assert(known@[m] == kb[m]);
                            assert(known@[j] == kb[j]);
                            assert(0 <= m < known.len() && ddelta@[(b, state_name(j as nat))] == state_name(m as nat)
                                && known@[m]@ == step(known@[j]@, b));
                        }
                    }
                }
            }
            proof {
                let sub = syms.subrange(0, k as int);
                let sub1 = syms.subrange(0, k + 1);
                assert(!sub.contains(a)) by {
                    if sub.contains(a) {
                        let x = sub.index_of(a);
                        assert(syms[x] == syms[k as int]);
                    }
                }
                assert(known@[i as int] == kb[i as int]);
                assert forall|b: Name|
                    #[trigger] ddelta@.contains_key((b, state_name(i as nat))) <==> (sub1.contains(b)
                        && step(known@[i as int]@, b) != Set::<Name>::empty()) by {
                    if b != a {
                        if sub1.contains(b) {
                            let x = sub1.index_of(b);
                            assert(sub[x] == b);
                        }
                        if sub.contains(b) {
                            let x = sub.index_of(b);
                            assert(sub1[x] == b);
                        }
                    } else {
                        assert(sub1[k as int] == a);
                    }
                }
            }
            k = k + 1;
        }
        proof {
            assert(syms.subrange(0, k as int) =~= syms);
        }
        i = i + 1;
    }
    // the states and the end states
    let mut states: BTSet<State> = BTSet::new();
    let mut dends: BTSet<State> = BTSet::new();
    let mut j: usize = 0;
    assert(names_upto(0) =~= Seq::<Name>::empty());
    while j < known.len()
        invariant
            j <= known.len(),
            forall|m: int| 0 <= m < j ==> (dends@.contains(#[trigger] state_name(m as nat)) <==> exists|q: Name|
                known@[m]@.contains(q) && ends@.contains(q)),
            forall|m: int| j <= m ==> !dends@.contains(#[trigger] state_name(m as nat)),
            states@ == names_upto(j as int).to_set(),
            dends@.subset_of(states@),
        decreases known.len() - j,
    {
        proof {
            lemma_names_distinct();
        }
        states.insert(state_named(j));
        if known[j].intersects(ends) {
            dends.insert(state_named(j));
        }
        assert(names_upto(j + 1) =~= names_upto(j as int).push(state_name(j as nat)));
        j = j + 1;
    }
    let start = state_named(0);
    let r = DeterministicFiniteAutomaton::new(start, ddelta, FSM::new(states, alphabet.clone(), dends));
    proof {
        let n = known.len() as int;
        let kv = known@.map_values(|s: BTSet<State>| s@);
        let names = names_upto(n);
        lemma_frontier_step_empty(delta@, opt_name(eps));
        assert forall|m: int, a: Name| 0 <= m < kv.len() implies (#[trigger] ddelta@.contains_key((a, names[m])) <==> (
            alphabet@.contains(a) && step(kv[m], a) != Set::<Name>::empty())) by {
            assert(names[m] == state_name(m as nat));
            assert(kv[m] == known@[m]@);
        }
        assert forall|m: int, a: Name|
            0 <= m < kv.len() && #[trigger] ddelta@.contains_key((a, names[m])) implies exists|x: int|
                0 <= x < kv.len() && ddelta@[(a, names[m])] == names[x] && kv[x] == step(kv[m], a) by {
            assert(names[m] == state_name(m as nat));
            let x = choose|x: int| 0 <= x < known.len() && ddelta@[(a, state_name(m as nat))] == state_name(x as nat)
                && known@[x]@ == step(known@[m]@, a);
            assert(names[x] == state_name(x as nat));
            assert(kv[x] == known@[x]@);
        }
        assert forall|m: int| 0 <= m < kv.len() implies (dends@.contains(#[trigger] names[m]) <==> exists|q: Name|
            kv[m].contains(q) && ends@.contains(q)) by {
            assert(names[m] == state_name(m as nat));
            assert(kv[m] == known@[m]@);
        }
        assert forall|key: (Name, Name)| #[trigger] ddelta@.contains_key(key) implies exists|m: int|
            0 <= m < kv.len() && key.1 == names[m] by {
            let m = choose|m: nat| m < i && key.1 == #[trigger] state_name(m);
            assert(names[m as int] == state_name(m));
        }
        assert(is_subset_construction(step, alphabet@, s0, ends@, kv, names, ddelta@, state_name(0), dends@));
        assert(r.spec_fsm().states_set() == names.to_set());
        assert(kv.no_duplicates());
        assert forall|m: int| 0 <= m < kv.len() implies #[trigger] reached(step, alphabet@, s0, kv[m]) by {
            assert(kv[m] == known@[m]@);
        }
        assert forall|w: Seq<Name>|
            over(w, alphabet@) && (w.len() == 0 || run_sets(step, s0, w) != Set::<Name>::empty()) implies kv.contains(
                #[trigger] run_sets(step, s0, w)) by {
            lemma_subset_run(step, alphabet@, s0, ends@, kv, names, ddelta@, state_name(0), dends@, w);
            if w.len() == 0 {
                assert(kv[0] == run_sets(step, s0, w));
            }
            match dfa_run(ddelta@, state_name(0), w) {
                Some(q) => {
                    let x = choose|x: int| 0 <= x < kv.len() && q == names[x] && kv[x] == run_sets(step, s0, w);
                },
                None => {},
            }
        }
        assert forall|v: Set<Name>| v.finite() && s0.subset_of(v) && #[trigger] images_within(delta@, v) implies kv.len()
            <= pow2(v.len()) by {
            assert forall|m: int| 0 <= m < kv.len() implies (#[trigger] kv[m]).subset_of(v) by {
                assert(reached(step, alphabet@, s0, kv[m]));
                let w = choose|w: Seq<Name>|
                    over(w, alphabet@) && #[trigger] run_sets(step, s0, w) == kv[m] && (w.len() == 0 || kv[m]
                        != Set::<Name>::empty());
                lemma_run_sets_within(delta@, opt_name(eps), s0, w, v);
            }
            lemma_distinct_subsets_bound(kv, v);
            lemma_subsets_len(v);
        }
        assert(determinizes(delta@, opt_name(eps), alphabet@, s0, ends@, kv, r));
        assert(alphabet@ == fsm.alphabet_set());
        assert(ends@ == fsm.ends_set());
        assert(determinizes(delta@, opt_name(eps), fsm.alphabet_set(), seed@, fsm.ends_set(), kv, r));
        assert(r.spec_fsm().alphabet_set() == fsm.alphabet_set());
        assert(r.start_name() == state_name(0));
        assert(r.spec_fsm().ends_set().subset_of(r.spec_fsm().states_set()));
        assert forall|w: Seq<Name>| #[trigger] r.accepts(w) == (over(w, alphabet@) && exists|q: Name|
                #[trigger] run_sets(step, s0, w).contains(q) && ends@.contains(q)) by {
            lemma_subset_accepts(step, alphabet@, s0, ends@, kv, names, ddelta@, state_name(0), dends@, w);
        }
    }
    r
}

} // verus!
