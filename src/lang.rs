use vstd::prelude::*;

verus! {

/// The view of a state (its name) or of a symbol (its text).
pub type Name = Seq<char>;

/// The view of a deterministic transition table: `(symbol, state) -> state`.
pub type DetDelta = Map<(Name, Name), Name>;

/// The view of a non-deterministic transition table: `(symbol, state) -> states`.
pub type NonDetDelta = Map<(Name, Name), Set<Name>>;

/// The symbols that a word of text is read as: one symbol per character.
pub open spec fn word_symbols(w: Seq<char>) -> Seq<Name> {
    w.map_values(|c: char| seq![c])
}

/// Every symbol of `w` belongs to `alphabet`.
pub open spec fn over(w: Seq<Name>, alphabet: Set<Name>) -> bool {
    forall|i: int| 0 <= i < w.len() ==> alphabet.contains(#[trigger] w[i])
}

/// The state that a deterministic table reaches from `q` by reading `w`, or
/// `None` where a transition is missing on the way.
pub open spec fn dfa_run(delta: DetDelta, q: Name, w: Seq<Name>) -> Option<Name>
    decreases w.len(),
{
    if w.len() == 0 {
        Some(q)
    } else {
        match dfa_run(delta, q, w.drop_last()) {
            Some(p) => if delta.contains_key((w.last(), p)) {
                Some(delta[(w.last(), p)])
            } else {
                None
            },
            None => None,
        }
    }
}

pub open spec fn dfa_accepts(delta: DetDelta, start: Name, ends: Set<Name>, w: Seq<Name>) -> bool {
    match dfa_run(delta, start, w) {
        Some(q) => ends.contains(q),
        None => false,
    }
}

/// The states reached from some state of `s` by one `a`-transition.
pub open spec fn nfa_step(delta: NonDetDelta, s: Set<Name>, a: Name) -> Set<Name> {
    Set::new(
        |q: Name|
            exists|p: Name| #[trigger]
                s.contains(p) && delta.contains_key((a, p)) && delta[(a, p)].contains(q),
    )
}

/// The frontier after reading `w` from `s`, when each symbol moves the
/// frontier by `step`.
pub open spec fn run_sets(
    step: spec_fn(Set<Name>, Name) -> Set<Name>,
    s: Set<Name>,
    w: Seq<Name>,
) -> Set<Name>
    decreases w.len(),
{
    if w.len() == 0 {
        s
    } else {
        step(run_sets(step, s, w.drop_last()), w.last())
    }
}

/// How a frontier moves on one symbol: by the table alone, or by the table and
/// then the closure under epsilon-transitions on `eps`.
pub open spec fn frontier_step(delta: NonDetDelta, eps: Option<Name>) -> spec_fn(Set<Name>, Name) -> Set<Name> {
    |t: Set<Name>, a: Name|
        match eps {
            Some(e) => nfae_step(delta, e, t, a),
            None => nfa_step(delta, t, a),
        }
}

pub open spec fn nfa_run(delta: NonDetDelta, s: Set<Name>, w: Seq<Name>) -> Set<Name> {
    run_sets(frontier_step(delta, None), s, w)
}

pub open spec fn nfa_accepts(
    delta: NonDetDelta,
    starts: Set<Name>,
    ends: Set<Name>,
    w: Seq<Name>,
) -> bool {
    exists|q: Name|
        #[trigger] run_sets(frontier_step(delta, None), starts, w).contains(q) && ends.contains(q)
}

/// The states reached from `s` by at most `n` epsilon-transitions.
pub open spec fn eps_iter(delta: NonDetDelta, eps: Name, s: Set<Name>, n: nat) -> Set<Name>
    decreases n,
{
    if n == 0 {
        s
    } else {
        let t = eps_iter(delta, eps, s, (n - 1) as nat);
        t.union(nfa_step(delta, t, eps))
    }
}

/// The states reached from `s` by any number of epsilon-transitions.
pub open spec fn eps_closure(delta: NonDetDelta, eps: Name, s: Set<Name>) -> Set<Name> {
    Set::new(|q: Name| exists|n: nat| #[trigger] eps_iter(delta, eps, s, n).contains(q))
}

/// One symbol step of an automaton with epsilon-transitions: move, then close.
pub open spec fn nfae_step(delta: NonDetDelta, eps: Name, s: Set<Name>, a: Name) -> Set<Name> {
    eps_closure(delta, eps, nfa_step(delta, s, a))
}

pub open spec fn nfae_run(delta: NonDetDelta, eps: Name, starts: Set<Name>, w: Seq<Name>) -> Set<
    Name,
> {
    run_sets(frontier_step(delta, Some(eps)), eps_closure(delta, eps, starts), w)
}

pub open spec fn nfae_accepts(
    delta: NonDetDelta,
    eps: Name,
    starts: Set<Name>,
    ends: Set<Name>,
    w: Seq<Name>,
) -> bool {
    exists|q: Name|
        #[trigger] run_sets(frontier_step(delta, Some(eps)), eps_closure(delta, eps, starts), w).contains(q)
            && ends.contains(q)
}

/// The states that some transition of `delta` leads to.
pub open spec fn images_within(delta: NonDetDelta, u: Set<Name>) -> bool {
    forall|k: (Name, Name)| #[trigger] delta.contains_key(k) ==> delta[k].subset_of(u)
}

pub proof fn lemma_eps_iter_mono(delta: NonDetDelta, eps: Name, s: Set<Name>, m: nat, n: nat)
    requires
        m <= n,
    ensures
        eps_iter(delta, eps, s, m).subset_of(eps_iter(delta, eps, s, n)),
    decreases n,
{
    if m < n {
        lemma_eps_iter_mono(delta, eps, s, m, (n - 1) as nat);
    }
}

/// Once an epsilon step adds nothing, no later one does.
pub proof fn lemma_eps_iter_fixed(delta: NonDetDelta, eps: Name, s: Set<Name>, n: nat, m: nat)
    requires
        n <= m,
        eps_iter(delta, eps, s, n + 1) == eps_iter(delta, eps, s, n),
    ensures
        eps_iter(delta, eps, s, m) == eps_iter(delta, eps, s, n),
    decreases m,
{
    if n < m {
        lemma_eps_iter_fixed(delta, eps, s, n, (m - 1) as nat);
    }
}

/// The closure is the frontier at which an epsilon step adds nothing.
pub proof fn lemma_eps_closure_at_fixpoint(delta: NonDetDelta, eps: Name, s: Set<Name>, n: nat)
    requires
        eps_iter(delta, eps, s, n + 1) == eps_iter(delta, eps, s, n),
    ensures
        eps_closure(delta, eps, s) == eps_iter(delta, eps, s, n),
{
    assert forall|q: Name| eps_closure(delta, eps, s).contains(q) implies eps_iter(delta, eps, s, n).contains(q) by {
        let m = choose|m: nat| #[trigger] eps_iter(delta, eps, s, m).contains(q);
        if m <= n {
            lemma_eps_iter_mono(delta, eps, s, m, n);
        } else {
            lemma_eps_iter_fixed(delta, eps, s, n, m);
        }
    }
    assert forall|q: Name| eps_iter(delta, eps, s, n).contains(q) implies eps_closure(delta, eps, s).contains(q) by {
    }
    assert(eps_closure(delta, eps, s) =~= eps_iter(delta, eps, s, n));
}

pub proof fn lemma_nfa_step_within(delta: NonDetDelta, s: Set<Name>, a: Name, u: Set<Name>)
    requires
        images_within(delta, u),
    ensures
        nfa_step(delta, s, a).subset_of(u),
{
    assert forall|q: Name| nfa_step(delta, s, a).contains(q) implies u.contains(q) by {
        let p = choose|p: Name| #[trigger] s.contains(p) && delta.contains_key((a, p)) && delta[(a, p)].contains(q);
    }
}

pub proof fn lemma_eps_iter_within(delta: NonDetDelta, eps: Name, s: Set<Name>, u: Set<Name>, n: nat)
    requires
        images_within(delta, u),
        s.subset_of(u),
    ensures
        eps_iter(delta, eps, s, n).subset_of(u),
    decreases n,
{
    if n > 0 {
        lemma_eps_iter_within(delta, eps, s, u, (n - 1) as nat);
        lemma_nfa_step_within(delta, eps_iter(delta, eps, s, (n - 1) as nat), eps, u);
    }
}

pub proof fn lemma_eps_closure_within(delta: NonDetDelta, eps: Name, s: Set<Name>, u: Set<Name>)
    requires
        images_within(delta, u),
        s.subset_of(u),
    ensures
        eps_closure(delta, eps, s).subset_of(u),
{
    assert forall|q: Name| eps_closure(delta, eps, s).contains(q) implies u.contains(q) by {
        let m = choose|m: nat| #[trigger] eps_iter(delta, eps, s, m).contains(q);
        lemma_eps_iter_within(delta, eps, s, u, m);
    }
}

/// Every frontier move sends the empty frontier to itself.
pub proof fn lemma_frontier_step_empty(delta: NonDetDelta, eps: Option<Name>)
    ensures
        forall|a: Name| #[trigger] frontier_step(delta, eps)(Set::<Name>::empty(), a) == Set::<Name>::empty(),
{
    assert forall|a: Name| #[trigger] frontier_step(delta, eps)(Set::<Name>::empty(), a) == Set::<Name>::empty() by {
        let e = Set::<Name>::empty();
        assert(nfa_step(delta, e, a) =~= e);
        if let Some(x) = eps {
            assert forall|q: Name| !eps_closure(delta, x, e).contains(q) by {
                if eps_closure(delta, x, e).contains(q) {
                    let m = choose|m: nat| #[trigger] eps_iter(delta, x, e, m).contains(q);
                    lemma_eps_iter_empty(delta, x, m);
                }
            }
            assert(eps_closure(delta, x, nfa_step(delta, e, a)) =~= e);
        }
    }
}

proof fn lemma_eps_iter_empty(delta: NonDetDelta, eps: Name, n: nat)
    ensures
        eps_iter(delta, eps, Set::<Name>::empty(), n) == Set::<Name>::empty(),
    decreases n,
{
    if n > 0 {
        lemma_eps_iter_empty(delta, eps, (n - 1) as nat);
        assert(nfa_step(delta, Set::<Name>::empty(), eps) =~= Set::<Name>::empty());
        assert(eps_iter(delta, eps, Set::<Name>::empty(), n) =~= Set::<Name>::empty());
    }
}

/// The sets of states drawn from `u`.
pub open spec fn subsets(u: Set<Name>) -> Set<Set<Name>> {
    Set::new(|s: Set<Name>| s.subset_of(u))
}

pub proof fn lemma_subsets_finite(u: Set<Name>)
    requires
        u.finite(),
    ensures
        subsets(u).finite(),
    decreases u.len(),
{
    if u.len() == 0 {
        assert(u =~= Set::<Name>::empty());
        assert forall|s: Set<Name>| subsets(u).contains(s) implies set![Set::<Name>::empty()].contains(s) by {
            assert(s =~= Set::<Name>::empty());
        }
        assert(subsets(u) =~= set![Set::<Name>::empty()]);
    } else {
        let x = u.choose();
        let v = u.remove(x);
        lemma_subsets_finite(v);
        let f = |s: Set<Name>| s.insert(x);
        subsets(v).lemma_map_finite(f);
        let both = subsets(v).union(subsets(v).map(f));
        assert forall|s: Set<Name>| subsets(u).contains(s) implies both.contains(s) by {
            if s.contains(x) {
                let t = s.remove(x);
                assert(subsets(v).contains(t));
                assert(f(t) =~= s);
            } else {
                assert(subsets(v).contains(s));
            }
        }
        assert forall|s: Set<Name>| both.contains(s) implies subsets(u).contains(s) by {
            if subsets(v).map(f).contains(s) {
                let t = choose|t: Set<Name>| subsets(v).contains(t) && f(t) == s;
            }
        }
        assert(subsets(u) =~= both);
    }
}

pub open spec fn pow2(n: nat) -> nat
    decreases n,
{
    if n == 0 {
        1
    } else {
        2 * pow2((n - 1) as nat)
    }
}

/// A finite set of `n` states has `2^n` subsets.
pub proof fn lemma_subsets_len(u: Set<Name>)
    requires
        u.finite(),
    ensures
        subsets(u).finite(),
        subsets(u).len() == pow2(u.len()),
    decreases u.len(),
{
    lemma_subsets_finite(u);
    if u.len() == 0 {
        assert(u =~= Set::<Name>::empty());
        assert forall|s: Set<Name>| subsets(u).contains(s) implies set![Set::<Name>::empty()].contains(s) by {
            assert(s =~= Set::<Name>::empty());
        }
        assert(subsets(u) =~= set![Set::<Name>::empty()]);
    } else {
        let x = u.choose();
        let v = u.remove(x);
        lemma_subsets_len(v);
        let f = |s: Set<Name>| s.insert(x);
        let with_x = subsets(v).map(f);
        assert(vstd::relations::injective_on(f, subsets(v))) by {
            assert forall|s: Set<Name>, t: Set<Name>|
                subsets(v).contains(s) && subsets(v).contains(t) && #[trigger] f(s) == #[trigger] f(t) implies s == t by {
                assert(s =~= f(s).remove(x));
                assert(t =~= f(t).remove(x));
            }
        }
        vstd::set_lib::lemma_map_size(subsets(v), with_x, f);
        let both = subsets(v).union(with_x);
        assert forall|s: Set<Name>| subsets(u).contains(s) implies both.contains(s) by {
            if s.contains(x) {
                let t = s.remove(x);
                assert(subsets(v).contains(t));
                assert(f(t) =~= s);
            } else {
                assert(subsets(v).contains(s));
            }
        }
        assert forall|s: Set<Name>| both.contains(s) implies subsets(u).contains(s) by {
            if with_x.contains(s) {
                let t = choose|t: Set<Name>| subsets(v).contains(t) && f(t) == s;
            }
        }
        assert(subsets(u) =~= both);
        assert(subsets(v).disjoint(with_x)) by {
            assert forall|s: Set<Name>| subsets(v).contains(s) implies !with_x.contains(s) by {
                if with_x.contains(s) {
                    let t = choose|t: Set<Name>| subsets(v).contains(t) && f(t) == s;
                    assert(s.contains(x));
                }
            }
        }
        vstd::set_lib::lemma_set_disjoint_lens(subsets(v), with_x);
    }
}

/// The frontier never leaves a set that holds the seed and every image.
pub proof fn lemma_run_sets_within(delta: NonDetDelta, eps: Option<Name>, s: Set<Name>, w: Seq<Name>, u: Set<Name>)
    requires
        images_within(delta, u),
        s.subset_of(u),
    ensures
        run_sets(frontier_step(delta, eps), s, w).subset_of(u),
    decreases w.len(),
{
    if w.len() > 0 {
        let prev = run_sets(frontier_step(delta, eps), s, w.drop_last());
        lemma_run_sets_within(delta, eps, s, w.drop_last(), u);
        lemma_nfa_step_within(delta, prev, w.last(), u);
        if let Some(e) = eps {
            lemma_eps_closure_within(delta, e, nfa_step(delta, prev, w.last()), u);
        }
    }
}

/// Distinct sets drawn from a finite `u` are no more than its subsets.
pub proof fn lemma_distinct_subsets_bound(kv: Seq<Set<Name>>, u: Set<Name>)
    requires
        u.finite(),
        kv.no_duplicates(),
        forall|j: int| 0 <= j < kv.len() ==> (#[trigger] kv[j]).subset_of(u),
    ensures
        kv.len() <= subsets(u).len(),
        subsets(u).finite(),
{
    lemma_subsets_finite(u);
    kv.unique_seq_to_set();
    assert(kv.to_set().subset_of(subsets(u)));
    vstd::set_lib::lemma_len_subset(kv.to_set(), subsets(u));
}

/// Every transition of `delta` reads a symbol of `alphabet`.
pub open spec fn symbols_within<V>(delta: Map<(Name, Name), V>, alphabet: Set<Name>) -> bool {
    forall|k: (Name, Name)| #[trigger] delta.contains_key(k) ==> alphabet.contains(k.0)
}

pub proof fn lemma_over_push(w: Seq<Name>, alphabet: Set<Name>)
    requires
        w.len() > 0,
        over(w.drop_last(), alphabet),
        alphabet.contains(w.last()),
    ensures
        over(w, alphabet),
{
    assert forall|i: int| 0 <= i < w.len() implies alphabet.contains(#[trigger] w[i]) by {
        if i < w.len() - 1 {
            assert(w[i] == w.drop_last()[i]);
        }
    }
}

/// A word that a deterministic table can read through uses only symbols of
/// its transitions.
pub proof fn lemma_dfa_run_over(delta: DetDelta, q: Name, w: Seq<Name>, alphabet: Set<Name>)
    requires
        symbols_within(delta, alphabet),
        dfa_run(delta, q, w) is Some,
    ensures
        over(w, alphabet),
    decreases w.len(),
{
    if w.len() > 0 {
        lemma_dfa_run_over(delta, q, w.drop_last(), alphabet);
        let p = dfa_run(delta, q, w.drop_last())->Some_0;
        assert(delta.contains_key((w.last(), p)));
        lemma_over_push(w, alphabet);
    }
}

/// A word after which the frontier is not empty uses only symbols of the
/// transitions.
pub proof fn lemma_run_sets_over(
    delta: NonDetDelta,
    eps: Option<Name>,
    s: Set<Name>,
    w: Seq<Name>,
    alphabet: Set<Name>,
)
    requires
        symbols_within(delta, alphabet),
        run_sets(frontier_step(delta, eps), s, w) != Set::<Name>::empty(),
    ensures
        over(w, alphabet),
    decreases w.len(),
{
    if w.len() > 0 {
        let a = w.last();
        let prev = run_sets(frontier_step(delta, eps), s, w.drop_last());
        let moved = nfa_step(delta, prev, a);
        lemma_frontier_step_empty(delta, eps);
        if moved == Set::<Name>::empty() {
            assert(moved =~= nfa_step(delta, Set::<Name>::empty(), a));
            assert(frontier_step(delta, eps)(prev, a) == frontier_step(delta, eps)(Set::<Name>::empty(), a));
            assert(false);
        }
        let q = moved.choose();
        assert(moved.contains(q)) by {
            if !moved.contains(q) {
                assert(moved =~= Set::<Name>::empty());
            }
        }
        let p = choose|p: Name| #[trigger] prev.contains(p) && delta.contains_key((a, p)) && delta[(a, p)].contains(q);
        assert(prev != Set::<Name>::empty()) by {
            assert(prev.contains(p));
        }
        lemma_run_sets_over(delta, eps, s, w.drop_last(), alphabet);
        lemma_over_push(w, alphabet);
    }
}

/// `tdelta` holds the arrows of `delta` reversed, and nothing else.
pub open spec fn is_transpose(delta: DetDelta, tdelta: NonDetDelta) -> bool {
    forall|a: Name, p: Name, q: Name|
        (#[trigger] tdelta.contains_key((a, q)) && tdelta[(a, q)].contains(p)) <==> (
        #[trigger] delta.contains_key((a, p)) && delta[(a, p)] == q)
}

/// Reading `a` then `u` from `q`.
pub proof fn lemma_dfa_run_prepend(delta: DetDelta, q: Name, a: Name, u: Seq<Name>)
    ensures
        dfa_run(delta, q, seq![a] + u) == (if delta.contains_key((a, q)) {
            dfa_run(delta, delta[(a, q)], u)
        } else {
            None
        }),
    decreases u.len(),
{
    let w = seq![a] + u;
    if u.len() == 0 {
        assert(w.drop_last() =~= Seq::<Name>::empty());
    } else {
        assert(w.drop_last() =~= seq![a] + u.drop_last());
        assert(w.last() == u.last());
        lemma_dfa_run_prepend(delta, q, a, u.drop_last());
        if delta.contains_key((a, q)) {
            assert(dfa_run(delta, q, w) == dfa_run(delta, delta[(a, q)], u));
        } else {
            assert(dfa_run(delta, q, w.drop_last()) == None::<Name>);
        }
    }
}

/// Reading `w` then `u` from `q` is reading `u` from where `w` leads.
pub proof fn lemma_dfa_accepts_append(delta: DetDelta, q: Name, ends: Set<Name>, w: Seq<Name>, u: Seq<Name>)
    ensures
        dfa_run(delta, q, w + u) == (match dfa_run(delta, q, w) {
            Some(p) => dfa_run(delta, p, u),
            None => None,
        }),
        dfa_accepts(delta, q, ends, w + u) == (match dfa_run(delta, q, w) {
            Some(p) => dfa_accepts(delta, p, ends, u),
            None => false,
        }),
    decreases u.len(),
{
    if u.len() == 0 {
        assert(w + u =~= w);
    } else {
        assert((w + u).drop_last() =~= w + u.drop_last());
        assert((w + u).last() == u.last());
        lemma_dfa_accepts_append(delta, q, ends, w, u.drop_last());
    }
}

/// A run from a state among `states`, on a table whose transitions lead into
/// `states`, stays among them.
pub proof fn lemma_dfa_run_within(delta: DetDelta, q: Name, w: Seq<Name>, states: Set<Name>)
    requires
        states.contains(q),
        forall|k: (Name, Name)| #[trigger] delta.contains_key(k) ==> states.contains(delta[k]),
    ensures
        dfa_run(delta, q, w) matches Some(p) ==> states.contains(p),
    decreases w.len(),
{
    if w.len() > 0 {
        lemma_dfa_run_within(delta, q, w.drop_last(), states);
    }
}

/// From the frontier `s`, the transposed table reaches `q` on `w` exactly when the
/// untransposed table leads from `q` into `s` on the reversed word.
pub proof fn lemma_transpose_run(delta: DetDelta, tdelta: NonDetDelta, s: Set<Name>, w: Seq<Name>, q: Name)
    requires
        is_transpose(delta, tdelta),
    ensures
        nfa_run(tdelta, s, w).contains(q) <==> (exists|e: Name| #[trigger] s.contains(e) && dfa_run(delta, q, w.reverse()) == Some(e)),
    decreases w.len(),
{
    if w.len() == 0 {
        assert(w.reverse() =~= Seq::<Name>::empty());
        if s.contains(q) {
            assert(s.contains(q) && dfa_run(delta, q, w.reverse()) == Some(q));
        }
    } else {
        let a = w.last();
        let w1 = w.drop_last();
        assert(w.reverse() =~= seq![a] + w1.reverse());
        lemma_dfa_run_prepend(delta, q, a, w1.reverse());
        let prev = nfa_run(tdelta, s, w1);
        assert(nfa_run(tdelta, s, w) == nfa_step(tdelta, prev, a));
        if nfa_run(tdelta, s, w).contains(q) {
            let p = choose|p: Name| #[trigger]
                prev.contains(p) && tdelta.contains_key((a, p)) && tdelta[(a, p)].contains(q);
            lemma_transpose_run(delta, tdelta, s, w1, p);
        }
        if exists|e: Name| #[trigger] s.contains(e) && dfa_run(delta, q, w.reverse()) == Some(e) {
            let p = delta[(a, q)];
            lemma_transpose_run(delta, tdelta, s, w1, p);
            assert(prev.contains(p) && tdelta.contains_key((a, p)) && tdelta[(a, p)].contains(q));
        }
    }
}

/// The transposed automaton accepts the reversed words.
pub proof fn lemma_transpose_accepts(
    delta: DetDelta,
    start: Name,
    ends: Set<Name>,
    tdelta: NonDetDelta,
    w: Seq<Name>,
)
    requires
        is_transpose(delta, tdelta),
    ensures
        nfa_accepts(tdelta, ends, set![start], w) == dfa_accepts(delta, start, ends, w.reverse()),
{
    lemma_transpose_run(delta, tdelta, ends, w, start);
    if dfa_accepts(delta, start, ends, w.reverse()) {
        let e = dfa_run(delta, start, w.reverse())->Some_0;
        assert(ends.contains(e) && dfa_run(delta, start, w.reverse()) == Some(e));
        assert(nfa_run(tdelta, ends, w).contains(start) && set![start].contains(start));
    }
}

/// `(ddelta, dstart, dends)` is a subset construction over `alphabet` for the
/// frontier moves `step` from `seed`: state `names[i]` stands for frontier `known[i]`.
pub open spec fn is_subset_construction(
    step: spec_fn(Set<Name>, Name) -> Set<Name>,
    alphabet: Set<Name>,
    seed: Set<Name>,
    ends: Set<Name>,
    known: Seq<Set<Name>>,
    names: Seq<Name>,
    ddelta: DetDelta,
    dstart: Name,
    dends: Set<Name>,
) -> bool {
    &&& known.len() == names.len()
    &&& known.len() > 0
    &&& known[0] == seed
    &&& dstart == names[0]
    &&& forall|i: int, a: Name|
        0 <= i < known.len() ==> (#[trigger] ddelta.contains_key((a, names[i])) <==> (
        alphabet.contains(a) && step(known[i], a) != Set::<Name>::empty()))
    &&& forall|i: int, a: Name|
        0 <= i < known.len() && #[trigger] ddelta.contains_key((a, names[i])) ==> exists|j: int|
            0 <= j < known.len() && ddelta[(a, names[i])] == names[j] && known[j] == step(
                known[i],
                a,
            )
    &&& forall|i: int|
        0 <= i < known.len() ==> (dends.contains(#[trigger] names[i]) <==> exists|q: Name|
            known[i].contains(q) && ends.contains(q))
    &&& forall|k: (Name, Name)|
        #[trigger] ddelta.contains_key(k) ==> exists|i: int| 0 <= i < known.len() && k.1 == names[i]
}

/// Reading `w` from the state `names[i0]` follows the frontier from `known[i0]`.
pub proof fn lemma_subset_run_from(
    step: spec_fn(Set<Name>, Name) -> Set<Name>,
    alphabet: Set<Name>,
    seed: Set<Name>,
    ends: Set<Name>,
    known: Seq<Set<Name>>,
    names: Seq<Name>,
    ddelta: DetDelta,
    dstart: Name,
    dends: Set<Name>,
    i0: int,
    w: Seq<Name>,
)
    requires
        is_subset_construction(step, alphabet, seed, ends, known, names, ddelta, dstart, dends),
        forall|a: Name| #[trigger] step(Set::<Name>::empty(), a) == Set::<Name>::empty(),
        0 <= i0 < known.len(),
    ensures
        match dfa_run(ddelta, names[i0], w) {
            Some(q) => over(w, alphabet) && exists|i: int|
                0 <= i < known.len() && q == names[i] && known[i] == run_sets(step, known[i0], w),
            None => !over(w, alphabet) || run_sets(step, known[i0], w) == Set::<Name>::empty(),
        },
    decreases w.len(),
{
    if w.len() == 0 {
        assert(0 <= i0 < known.len() && names[i0] == names[i0] && known[i0] == run_sets(step, known[i0], w));
    } else {
        let w1 = w.drop_last();
        let a = w.last();
        lemma_subset_run_from(step, alphabet, seed, ends, known, names, ddelta, dstart, dends, i0, w1);
        match dfa_run(ddelta, names[i0], w1) {
            Some(p) => {
                let i = choose|i: int|
                    0 <= i < known.len() && p == names[i] && known[i] == run_sets(step, known[i0], w1);
                if ddelta.contains_key((a, names[i])) {
                    lemma_over_push(w, alphabet);
                } else {
                    if over(w, alphabet) {
                        assert(alphabet.contains(w[w.len() - 1]));
                    }
                }
            },
            None => {
                if over(w, alphabet) {
                    assert(over(w1, alphabet)) by {
                        assert forall|k: int| 0 <= k < w1.len() implies alphabet.contains(
                            #[trigger] w1[k],
                        ) by {
                            assert(w1[k] == w[k]);
                        }
                    }
                }
            },
        }
    }
}

/// From the state `names[i0]`, a subset construction accepts the words over its
/// alphabet whose frontier from `known[i0]` meets `ends`.
pub proof fn lemma_subset_accepts_from(
    step: spec_fn(Set<Name>, Name) -> Set<Name>,
    alphabet: Set<Name>,
    seed: Set<Name>,
    ends: Set<Name>,
    known: Seq<Set<Name>>,
    names: Seq<Name>,
    ddelta: DetDelta,
    dstart: Name,
    dends: Set<Name>,
    i0: int,
    w: Seq<Name>,
)
    requires
        is_subset_construction(step, alphabet, seed, ends, known, names, ddelta, dstart, dends),
        forall|a: Name| #[trigger] step(Set::<Name>::empty(), a) == Set::<Name>::empty(),
        0 <= i0 < known.len(),
    ensures
        dfa_accepts(ddelta, names[i0], dends, w) == (over(w, alphabet) && exists|q: Name|
            #[trigger] run_sets(step, known[i0], w).contains(q) && ends.contains(q)),
{
    lemma_subset_run_from(step, alphabet, seed, ends, known, names, ddelta, dstart, dends, i0, w);
    let r = run_sets(step, known[i0], w);
    match dfa_run(ddelta, names[i0], w) {
        Some(q) => {
            let i = choose|i: int| 0 <= i < known.len() && q == names[i] && known[i] == r;
            assert(dends.contains(names[i]) <==> exists|x: Name| known[i].contains(x) && ends.contains(x));
        },
        None => {
            if over(w, alphabet) {
                assert(r == Set::<Name>::empty());
            }
        },
    }
}

pub proof fn lemma_subset_run(
    step: spec_fn(Set<Name>, Name) -> Set<Name>,
    alphabet: Set<Name>,
    seed: Set<Name>,
    ends: Set<Name>,
    known: Seq<Set<Name>>,
    names: Seq<Name>,
    ddelta: DetDelta,
    dstart: Name,
    dends: Set<Name>,
    w: Seq<Name>,
)
    requires
        is_subset_construction(step, alphabet, seed, ends, known, names, ddelta, dstart, dends),
        forall|a: Name| #[trigger] step(Set::<Name>::empty(), a) == Set::<Name>::empty(),
    ensures
        match dfa_run(ddelta, dstart, w) {
            Some(q) => over(w, alphabet) && exists|i: int|
                0 <= i < known.len() && q == names[i] && known[i] == run_sets(step, seed, w),
            None => !over(w, alphabet) || run_sets(step, seed, w) == Set::<Name>::empty(),
        },
    decreases w.len(),
{
    if w.len() == 0 {
        assert(0 < known.len() && dstart == names[0] && known[0] == run_sets(step, seed, w));
    } else {
        let w1 = w.drop_last();
        let a = w.last();
        lemma_subset_run(step, alphabet, seed, ends, known, names, ddelta, dstart, dends, w1);
        match dfa_run(ddelta, dstart, w1) {
            Some(p) => {
                let i = choose|i: int|
                    0 <= i < known.len() && p == names[i] && known[i] == run_sets(step, seed, w1);
                if ddelta.contains_key((a, names[i])) {
                    assert(over(w, alphabet)) by {
                        assert forall|k: int| 0 <= k < w.len() implies alphabet.contains(
                            #[trigger] w[k],
                        ) by {
                            if k < w.len() - 1 {
                                assert(w[k] == w1[k]);
                            }
                        }
                    }
                } else {
                    if over(w, alphabet) {
                        assert(alphabet.contains(w[w.len() - 1]));
                    }
                }
            },
            None => {
                if over(w, alphabet) {
                    assert(over(w1, alphabet)) by {
                        assert forall|k: int| 0 <= k < w1.len() implies alphabet.contains(
                            #[trigger] w1[k],
                        ) by {
                            assert(w1[k] == w[k]);
                        }
                    }
                }
            },
        }
    }
}

/// A subset construction accepts the words over its alphabet whose frontier
/// meets `ends`.
pub proof fn lemma_subset_accepts(
    step: spec_fn(Set<Name>, Name) -> Set<Name>,
    alphabet: Set<Name>,
    seed: Set<Name>,
    ends: Set<Name>,
    known: Seq<Set<Name>>,
    names: Seq<Name>,
    ddelta: DetDelta,
    dstart: Name,
    dends: Set<Name>,
    w: Seq<Name>,
)
    requires
        is_subset_construction(step, alphabet, seed, ends, known, names, ddelta, dstart, dends),
        forall|a: Name| #[trigger] step(Set::<Name>::empty(), a) == Set::<Name>::empty(),
    ensures
        dfa_accepts(ddelta, dstart, dends, w) == (over(w, alphabet) && exists|q: Name|
            #[trigger] run_sets(step, seed, w).contains(q) && ends.contains(q)),
{
    lemma_subset_run(step, alphabet, seed, ends, known, names, ddelta, dstart, dends, w);
    let r = run_sets(step, seed, w);
    match dfa_run(ddelta, dstart, w) {
        Some(q) => {
            let i = choose|i: int| 0 <= i < known.len() && q == names[i] && known[i] == r;
            assert(dends.contains(names[i]) <==> exists|x: Name| known[i].contains(x) && ends.contains(x));
        },
        None => {
            if over(w, alphabet) {
                assert(r == Set::<Name>::empty());
            }
        },
    }
}

} // verus!
