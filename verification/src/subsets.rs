//! The subset construction: from a nondeterministic automaton to a
//! deterministic one that accepts the same inputs.

use vstd::prelude::*;
use vstd::laws_eq::obeys_concrete_eq;
use vstd::set_lib::{lemma_int_range, lemma_len_subset, set_int_range};
use crate::dfa::{
    accepts_from, automaton_fault, lemma_next_state, lemma_transitions_fault, next_state,
    transition_fault, Dfa, Transitions,
};
use crate::lists::{common, copy_list, same_set};
use crate::nfa::{
    accepts, closed_under_epsilon, closure, edges_fault, first_outside, lemma_closure_closed,
    lemma_first_outside,
    lemma_targets_known, meets, run, step, targets, union_targets, Error, Nfa,
};

verus! {

/// Two to the power of `k`.
pub open spec fn two_to(k: nat) -> nat
    decreases k,
{
    if k == 0 {
        1
    } else {
        2 * two_to((k - 1) as nat)
    }
}

/// The number that tells which of the first `k` states of the list are in `x`.
pub open spec fn code<S>(states: Seq<S>, x: Set<S>, k: nat) -> nat
    decreases k,
{
    if k == 0 {
        0
    } else {
        code(states, x, (k - 1) as nat) + if x.contains(states[k - 1]) {
            two_to((k - 1) as nat)
        } else {
            0
        }
    }
}

/// The code of a set over `k` states is below two to the `k`.
pub proof fn lemma_code_bounded<S>(states: Seq<S>, x: Set<S>, k: nat)
    ensures
        code(states, x, k) < two_to(k),
    decreases k,
{
    if k > 0 {
        lemma_code_bounded(states, x, (k - 1) as nat);
    }
}

/// Sets with the same code hold the same of the first `k` states.
pub proof fn lemma_code_injective<S>(states: Seq<S>, x: Set<S>, y: Set<S>, k: nat)
    requires
        code(states, x, k) == code(states, y, k),
    ensures
        forall|i: int| 0 <= i < k ==> x.contains(#[trigger] states[i]) == y.contains(states[i]),
    decreases k,
{
    if k > 0 {
        lemma_code_bounded(states, x, (k - 1) as nat);
        lemma_code_bounded(states, y, (k - 1) as nat);
        lemma_code_injective(states, x, y, (k - 1) as nat);
    }
}

/// There are no more different sets of states than two to the number of
/// states.
pub proof fn lemma_distinct_subsets_bounded<S>(states: Seq<S>, subsets: Seq<Set<S>>)
    requires
        forall|i: int| 0 <= i < subsets.len() ==> (#[trigger] subsets[i]).subset_of(states.to_set()),
        forall|i: int, j: int|
            0 <= i < j < subsets.len() ==> #[trigger] subsets[i] != #[trigger] subsets[j],
    ensures
        subsets.len() <= two_to(states.len()),
{
    let n = states.len();
    let codes = Seq::new(subsets.len(), |i: int| code(states, subsets[i], n) as int);
    assert forall|i: int, j: int| 0 <= i < codes.len() && 0 <= j < codes.len() && i != j implies codes[i]
        != codes[j] by {
        if codes[i] == codes[j] {
            lemma_code_injective(states, subsets[i], subsets[j], n);
            assert forall|s: S| subsets[i].contains(s) == subsets[j].contains(s) by {
                if subsets[i].contains(s) || subsets[j].contains(s) {
                    assert(states.to_set().contains(s));
                    let k = choose|k: int| 0 <= k < states.len() && states[k] == s;
                    assert(subsets[i].contains(states[k]) == subsets[j].contains(states[k]));
                }
            }
            assert(subsets[i] =~= subsets[j]);
            if i < j {
                assert(subsets[i] != subsets[j]);
            } else {
                assert(subsets[j] != subsets[i]);
            }
        }
    }
    assert(codes.no_duplicates());
    let range = set_int_range(0, two_to(n) as int);
    lemma_int_range(0, two_to(n) as int);
    assert forall|c: int| codes.to_set().contains(c) implies range.contains(c) by {
        let i = choose|i: int| 0 <= i < codes.len() && codes[i] == c;
        lemma_code_bounded(states, subsets[i], n);
    }
    codes.unique_seq_to_set();
    lemma_len_subset(codes.to_set(), range);
}

/// The sets that the lists stand for.
pub open spec fn sets_of<S>(subsets: Seq<Vec<S>>) -> Seq<Set<S>> {
    Seq::new(subsets.len(), |i: int| subsets[i]@.to_set())
}

/// The deterministic automaton with the edges `trans` and the accepting
/// states `marked` goes the way of the nondeterministic one: its state `a`
/// stands for the set `sets[a]` of states of the other.
pub open spec fn simulates<S, A>(
    edges: Seq<((S, Option<A>), Vec<S>)>,
    initial: S,
    accepting: Set<S>,
    alphabet: Set<A>,
    sets: Seq<Set<S>>,
    trans: Seq<((usize, A), usize)>,
    marked: Set<usize>,
) -> bool {
    &&& 0 < sets.len() <= usize::MAX
    &&& sets[0] == closure(edges, set![initial])
    &&& forall|a: int, c: A|
        0 <= a < sets.len() && alphabet.contains(c) ==> match #[trigger] next_state(
            trans,
            a as usize,
            c,
            0,
        ) {
            Some(b) => b < sets.len() && sets[b as int] == step(edges, sets[a], c),
            None => step(edges, sets[a], c) == Set::<S>::empty(),
        }
    &&& forall|a: int|
        0 <= a < sets.len() ==> (marked.contains(a as usize) <==> meets(
            #[trigger] sets[a],
            accepting,
        ))
}

/// From no states the automaton gets to no states.
pub proof fn lemma_step_from_nothing<S, A>(edges: Seq<((S, Option<A>), Vec<S>)>, c: A)
    ensures
        step(edges, Set::<S>::empty(), c) == Set::<S>::empty(),
{
    let none = Set::<S>::empty();
    assert(union_targets(edges, none, Some(c)) =~= none);
    assert(closed_under_epsilon(edges, none));
    assert(none.subset_of(none));
    assert(closure(edges, none) =~= none);
}

/// Once the automaton is in no state, it stays in none.
pub proof fn lemma_run_stays_empty<S, A>(
    edges: Seq<((S, Option<A>), Vec<S>)>,
    initial: S,
    input: Seq<A>,
    k: int,
    m: int,
)
    requires
        0 <= k <= m,
        run(edges, initial, input, k) == Set::<S>::empty(),
    ensures
        run(edges, initial, input, m) == Set::<S>::empty(),
    decreases m - k,
{
    if k < m {
        lemma_run_stays_empty(edges, initial, input, k, m - 1);
        lemma_step_from_nothing(edges, input[m - 1]);
    }
}

/// An automaton that simulates another says of every input over the alphabet
/// what the other says of it.
pub proof fn lemma_simulation<S, A>(
    edges: Seq<((S, Option<A>), Vec<S>)>,
    initial: S,
    accepting: Set<S>,
    alphabet: Set<A>,
    sets: Seq<Set<S>>,
    trans: Seq<((usize, A), usize)>,
    marked: Set<usize>,
    input: Seq<A>,
    d: int,
    k: int,
)
    requires
        simulates(edges, initial, accepting, alphabet, sets, trans, marked),
        first_outside(alphabet, input, 0) is None,
        0 <= k <= input.len(),
        0 <= d < sets.len(),
        sets[d] == run(edges, initial, input, k),
    ensures
        accepts_from(alphabet, trans, marked, d as usize, input, k) == Ok::<bool, Error<usize, A>>(
            accepts(edges, initial, accepting, input),
        ),
    decreases input.len() - k,
{
    lemma_first_outside(alphabet, input, 0);
    if k < input.len() {
        let c = input[k];
        assert(alphabet.contains(c));
        match next_state(trans, d as usize, c, 0) {
            Some(b) => {
                lemma_simulation(
                    edges,
                    initial,
                    accepting,
                    alphabet,
                    sets,
                    trans,
                    marked,
                    input,
                    b as int,
                    k + 1,
                );
            },
            None => {
                assert(run(edges, initial, input, k + 1) == Set::<S>::empty());
                lemma_run_stays_empty(edges, initial, input, k + 1, input.len() as int);
            },
        }
    }
}

/// Edge `e` of `trans` leads from a state on a symbol of the alphabet to the
/// state that stands for where the other automaton gets.
pub open spec fn edge_sound<S, A>(
    edges: Seq<((S, Option<A>), Vec<S>)>,
    alphabet: Set<A>,
    sets: Seq<Set<S>>,
    trans: Seq<((usize, A), usize)>,
    e: int,
) -> bool {
    let edge = trans[e];
    &&& edge.0.0 < sets.len()
    &&& edge.1 < sets.len()
    &&& alphabet.contains(edge.0.1)
    &&& sets[edge.1 as int] == step(edges, sets[edge.0.0 as int], edge.0.1)
}

/// State `a` has an edge on the `p`-th symbol exactly where the other
/// automaton gets somewhere from its set on that symbol.
pub open spec fn covered<S, A>(
    edges: Seq<((S, Option<A>), Vec<S>)>,
    symbols: Seq<A>,
    sets: Seq<Set<S>>,
    trans: Seq<((usize, A), usize)>,
    a: int,
    p: int,
) -> bool {
    if step(edges, sets[a], symbols[p]) == Set::<S>::empty() {
        forall|e: int| 0 <= e < trans.len() ==> (#[trigger] trans[e]).0 != (a as usize, symbols[p])
    } else {
        exists|e: int| 0 <= e < trans.len() && (#[trigger] trans[e]).0 == (a as usize, symbols[p])
    }
}

/// What holds of the construction when it has dealt with the states below
/// `j` and, for state `j`, with the symbols below `ci`.
pub open spec fn construction_inv<S, A>(
    edges: Seq<((S, Option<A>), Vec<S>)>,
    states: Seq<S>,
    symbols: Seq<A>,
    subsets: Seq<Vec<S>>,
    trans: Seq<((usize, A), usize)>,
    j: int,
    ci: int,
) -> bool {
    let sets = sets_of(subsets);
    &&& forall|i: int| 0 <= i < subsets.len() ==> (#[trigger] subsets[i])@.len() > 0
    &&& forall|i: int| 0 <= i < sets.len() ==> (#[trigger] sets[i]).subset_of(states.to_set())
    &&& forall|i: int, k: int| 0 <= i < k < sets.len() ==> #[trigger] sets[i] != #[trigger] sets[k]
    &&& forall|e: int|
        0 <= e < trans.len() ==> #[trigger] edge_sound(edges, symbols.to_set(), sets, trans, e)
    &&& forall|e: int|
        0 <= e < trans.len() ==> comes_first((#[trigger] trans[e]).0.0 as int, symbols, trans[e].0.1, j, ci)
    &&& forall|a: int, p: int|
        0 <= a < sets.len() && 0 <= p < symbols.len() && (a < j || (a == j && p < ci))
            ==> #[trigger] covered(edges, symbols, sets, trans, a, p)
}

/// State `a` with symbol `c` has been dealt with before state `j` with the
/// `ci`-th symbol.
pub open spec fn comes_first<A>(a: int, symbols: Seq<A>, c: A, j: int, ci: int) -> bool {
    a < j || (a == j && exists|p: int| 0 <= p < ci && p < symbols.len() && #[trigger] symbols[p] == c)
}

/// The first list that holds the same elements as `e`.
pub fn find_set<S: Copy + PartialEq>(subsets: &Vec<Vec<S>>, e: &Vec<S>) -> (r: Option<usize>)
    requires
        obeys_concrete_eq::<S>(),
    ensures
        match r {
            Some(i) => i < subsets.len() && subsets@[i as int]@.to_set() == e@.to_set(),
            None => forall|i: int|
                0 <= i < subsets.len() ==> (#[trigger] subsets@[i])@.to_set() != e@.to_set(),
        },
{
    let mut i: usize = 0;
    while i < subsets.len()
        invariant
            i <= subsets.len(),
            obeys_concrete_eq::<S>(),
            forall|k: int| 0 <= k < i ==> (#[trigger] subsets@[k])@.to_set() != e@.to_set(),
        decreases subsets.len() - i,
    {
        if same_set(&subsets[i], e) {
            return Some(i);
        }
        i += 1;
    }
    None
}

/// Where the edges have no fault, a step from any states leads to declared
/// states only.
pub proof fn lemma_step_within_states<S, A>(
    states: Set<S>,
    alphabet: Set<A>,
    edges: Seq<((S, Option<A>), Vec<S>)>,
    d: Set<S>,
    c: A,
)
    requires
        edges_fault(states, alphabet, edges, 0) is None,
    ensures
        step(edges, d, c).subset_of(states),
{
    let moved = union_targets(edges, d, Some(c));
    assert forall|t: S| moved.contains(t) implies states.contains(t) by {
        let s = choose|s: S| d.contains(s) && #[trigger] targets(edges, s, Some(c)).contains(t);
        lemma_targets_known(states, alphabet, edges, s, Some(c), t);
    }
    assert forall|s: S, t: S|
        states.contains(s) && #[trigger] targets(edges, s, None::<A>).contains(
            t,
        ) implies states.contains(t) by {
        lemma_targets_known(states, alphabet, edges, s, None::<A>, t);
    }
    assert(closed_under_epsilon(edges, states));
    assert(moved.subset_of(states));
}

impl<S: Copy + PartialEq, A: Copy + PartialEq> Nfa<S, A> {
    /// Deals with state `j` and the `ci`-th symbol: where the automaton gets
    /// somewhere from the set of `j` on that symbol, `j` gets an edge to the
    /// state that stands for where it gets, a new state if there is none yet.
    fn add_edge(
        &self,
        subsets: &mut Vec<Vec<S>>,
        trans: &mut Transitions<usize, A>,
        j: usize,
        ci: usize,
    )
        requires
            j < old(subsets).len(),
            ci < self.alphabet.len(),
            forall|i: int| 0 <= i < old(subsets).len() ==> (#[trigger] old(subsets)@[i])@.no_duplicates(),
            construction_inv(
                self.edges@,
                self.states@,
                self.alphabet@,
                old(subsets)@,
                old(trans)@,
                j as int,
                ci as int,
            ),
        ensures
            final(subsets).len() >= old(subsets).len(),
            final(subsets)@.take(old(subsets).len() as int) == old(subsets)@,
            forall|i: int| 0 <= i < final(subsets).len() ==> (#[trigger] final(subsets)@[i])@.no_duplicates(),
            construction_inv(
                self.edges@,
                self.states@,
                self.alphabet@,
                final(subsets)@,
                final(trans)@,
                j as int,
                ci as int + 1,
            ),
    {
        proof {
            use_type_invariant(self);
        }
        let ghost edges = self.edges@;
        let ghost symbols = self.alphabet@;
        let ghost old_subsets = subsets@;
        let ghost old_trans = trans@;
        let ghost old_sets = sets_of(old_subsets);
        let c = self.alphabet[ci];
        let e = self.dfa_edge(&subsets[j], &c);
        let ghost target = step(edges, old_sets[j as int], c);
        assert(e@.to_set() == target);
        assert(subsets@.take(subsets.len() as int) =~= subsets@);
        proof {
            lemma_step_within_states(
                self.states@.to_set(),
                self.alphabet@.to_set(),
                edges,
                old_sets[j as int],
                c,
            );
            // No edge is yet for this state and symbol.
            assert forall|k: int| 0 <= k < old_trans.len() implies (#[trigger] old_trans[k]).0 != (
                j,
                c,
            ) by {
                assert(comes_first(
                    old_trans[k].0.0 as int,
                    symbols,
                    old_trans[k].0.1,
                    j as int,
                    ci as int,
                ));
            }
        }
        if e.len() > 0 {
            assert(e@.to_set().contains(e@[0]));
            let found = find_set(subsets, &e);
            let to = match found {
                Some(i) => i,
                None => {
                    subsets.push(e);
                    subsets.len() - 1
                },
            };
            trans.push(((j, c), to));
            proof {
                let sets = sets_of(subsets@);
                let last = old_trans.len() as int;
                assert(subsets@.take(old_subsets.len() as int) =~= old_subsets);
                assert forall|i: int| 0 <= i < old_sets.len() implies #[trigger] sets[i]
                    == old_sets[i] by {
                    assert(subsets@[i] == old_subsets[i]);
                }
                assert(sets[to as int] == target);
                assert(symbols.to_set().contains(c)) by {
                    assert(symbols[ci as int] == c);
                }
                assert forall|k: int| 0 <= k < trans@.len() implies #[trigger] edge_sound(
                    edges,
                    symbols.to_set(),
                    sets,
                    trans@,
                    k,
                ) by {
                    if k < last {
                        assert(trans@[k] == old_trans[k]);
                        assert(edge_sound(edges, symbols.to_set(), old_sets, old_trans, k));
                    }
                }
                assert forall|k: int| 0 <= k < trans@.len() implies comes_first(
                    (#[trigger] trans@[k]).0.0 as int,
                    symbols,
                    trans@[k].0.1,
                    j as int,
                    ci as int + 1,
                ) by {
                    if k < last {
                        assert(trans@[k] == old_trans[k]);
                        assert(comes_first(
                            old_trans[k].0.0 as int,
                            symbols,
                            old_trans[k].0.1,
                            j as int,
                            ci as int,
                        ));
                        if old_trans[k].0.0 == j {
                            let p = choose|p: int|
                                0 <= p < ci && p < symbols.len() && #[trigger] symbols[p]
                                    == old_trans[k].0.1;
                            assert(symbols[p] == trans@[k].0.1);
                        }
                    } else {
                        assert(symbols[ci as int] == c);
                    }
                }
                assert forall|a: int, p: int|
                    0 <= a < sets.len() && 0 <= p < symbols.len() && (a < j || (a == j && p < ci
                        + 1)) implies #[trigger] covered(edges, symbols, sets, trans@, a, p) by {
                    if a == j && p == ci {
                        assert(trans@[last].0 == (j, c));
                    } else {
                        assert(covered(edges, symbols, old_sets, old_trans, a, p));
                        if step(edges, sets[a], symbols[p]) == Set::<S>::empty() {
                            assert forall|k: int| 0 <= k < trans@.len() implies (#[trigger] trans@[k]).0
                                != (a as usize, symbols[p]) by {
                                if k < last {
                                    assert(trans@[k] == old_trans[k]);
                                }
                            }
                        } else {
                            let k = choose|k: int|
                                0 <= k < old_trans.len() && (#[trigger] old_trans[k]).0 == (
                                    a as usize,
                                    symbols[p],
                                );
                            assert(trans@[k] == old_trans[k]);
                        }
                    }
                }
                assert forall|i: int, k: int| 0 <= i < k < sets.len() implies #[trigger] sets[i]
                    != #[trigger] sets[k] by {
                    if k < old_sets.len() {
                        assert(old_sets[i] != old_sets[k]);
                    } else {
                        assert(old_subsets[i]@.to_set() != e@.to_set());
                    }
                }
            }
        } else {
            proof {
                assert(e@.to_set() =~= Set::<S>::empty());
                assert forall|a: int, p: int|
                    0 <= a < old_sets.len() && 0 <= p < symbols.len() && (a < j || (a == j && p
                        < ci + 1)) implies #[trigger] covered(
                    edges,
                    symbols,
                    old_sets,
                    old_trans,
                    a,
                    p,
                ) by {}
                assert forall|k: int| 0 <= k < old_trans.len() implies comes_first(
                    (#[trigger] old_trans[k]).0.0 as int,
                    symbols,
                    old_trans[k].0.1,
                    j as int,
                    ci as int + 1,
                ) by {
                    assert(comes_first(
                        old_trans[k].0.0 as int,
                        symbols,
                        old_trans[k].0.1,
                        j as int,
                        ci as int,
                    ));
                    if old_trans[k].0.0 == j {
                        let p = choose|p: int|
                            0 <= p < ci && p < symbols.len() && #[trigger] symbols[p]
                                == old_trans[k].0.1;
                        assert(symbols[p] == old_trans[k].0.1);
                    }
                }
            }
        }
    }
}

impl<S: Copy + PartialEq, A: Copy + PartialEq> Nfa<S, A> {
    /// The deterministic automaton that goes the way of this one: its states
    /// are numbers, each of which stands for a set of states of this
    /// automaton, state 0 for those that the initial state reaches by
    /// epsilon edges. It says of every input over the alphabet what this
    /// automaton says of it.
    pub fn construct_subsets(&self) -> (r: Result<Dfa<usize, A>, Error<usize, A>>)
        ensures
            r matches Ok(dfa) && dfa.alphabet() == self.alphabet() && dfa.initial() == 0
                && forall|input: Seq<A>|
                first_outside(self.alphabet(), input, 0) is None ==> #[trigger] accepts_from(
                    dfa.alphabet(),
                    dfa.edges(),
                    dfa.accepting(),
                    dfa.initial(),
                    input,
                    0,
                ) == Ok::<bool, Error<usize, A>>(
                    accepts(self.edges(), self.initial(), self.accepting(), input),
                ),
    {
        broadcast use vstd::laws_eq::group_laws_eq;

        proof {
            use_type_invariant(self);
        }
        let ghost edges = self.edges@;
        let ghost symbols = self.alphabet@;
        let mut from: Vec<S> = Vec::new();
        from.push(self.initial);
        assert(from@.to_set() =~= set![self.initial]) by {
            assert(from@[0] == self.initial);
        }
        let start = self.e_closure(&from);
        let ghost start_set = closure(edges, set![self.initial]);
        proof {
            lemma_closure_closed(edges, set![self.initial]);
            assert(start_set.contains(self.initial));
            let k = choose|k: int| 0 <= k < start@.len() && start@[k] == self.initial;
            // The closure of the initial state lies within the states.
            let states = self.states@.to_set();
            assert forall|s: S, t: S|
                states.contains(s) && #[trigger] targets(edges, s, None::<A>).contains(
                    t,
                ) implies states.contains(t) by {
                lemma_targets_known(states, self.alphabet@.to_set(), edges, s, None::<A>, t);
            }
            assert(closed_under_epsilon(edges, states));
            assert(set![self.initial].subset_of(states));
            assert(start_set.subset_of(states));
        }
        let mut subsets: Vec<Vec<S>> = Vec::new();
        subsets.push(start);
        let mut trans: Transitions<usize, A> = Vec::new();
        let mut j: usize = 0;
        assert(sets_of(subsets@)[0] == start_set);
        while j < subsets.len()
            invariant
                j <= subsets.len(),
                0 < subsets.len(),
                edges == self.edges@,
                symbols == self.alphabet@,
                start_set == closure(edges, set![self.initial]),
                subsets@[0]@.to_set() == start_set,
                forall|i: int| 0 <= i < subsets.len() ==> (#[trigger] subsets@[i])@.no_duplicates(),
                construction_inv(edges, self.states@, symbols, subsets@, trans@, j as int, 0),
            decreases two_to(self.states@.len()) - j,
        {
            proof {
                lemma_distinct_subsets_bounded(self.states@, sets_of(subsets@));
            }
            let mut ci: usize = 0;
            while ci < self.alphabet.len()
                invariant
                    ci <= self.alphabet.len(),
                    j < subsets.len(),
                    edges == self.edges@,
                    symbols == self.alphabet@,
                    subsets@[0]@.to_set() == start_set,
                    forall|i: int|
                        0 <= i < subsets.len() ==> (#[trigger] subsets@[i])@.no_duplicates(),
                    construction_inv(
                        edges,
                        self.states@,
                        symbols,
                        subsets@,
                        trans@,
                        j as int,
                        ci as int,
                    ),
                decreases self.alphabet.len() - ci,
            {
                let ghost before = subsets@;
                self.add_edge(&mut subsets, &mut trans, j, ci);
                assert(subsets@[0] == subsets@.take(before.len() as int)[0]);
                ci += 1;
            }
            proof {
                let sets = sets_of(subsets@);
                assert forall|e: int| 0 <= e < trans@.len() implies comes_first(
                    (#[trigger] trans@[e]).0.0 as int,
                    symbols,
                    trans@[e].0.1,
                    j as int + 1,
                    0,
                ) by {
                    assert(comes_first(
                        trans@[e].0.0 as int,
                        symbols,
                        trans@[e].0.1,
                        j as int,
                        symbols.len() as int,
                    ));
                }
            }
            j += 1;
        }
        let ghost sets = sets_of(subsets@);
        let mut states: Vec<usize> = Vec::new();
        let mut marked: Vec<usize> = Vec::new();
        let mut i: usize = 0;
        while i < subsets.len()
            invariant
                i <= subsets.len(),
                sets == sets_of(subsets@),
                obeys_concrete_eq::<S>(),
                self.accepting@.no_duplicates(),
                forall|k: int| 0 <= k < subsets.len() ==> (#[trigger] subsets@[k])@.no_duplicates(),
                states.len() == i,
                forall|k: int| 0 <= k < i ==> #[trigger] states@[k] == k,
                forall|k: int| 0 <= k < marked.len() ==> (#[trigger] marked@[k]) < i,
                forall|a: int|
                    0 <= a < i ==> (marked@.contains(a as usize) <==> meets(
                        #[trigger] sets[a],
                        self.accepting@.to_set(),
                    )),
            decreases subsets.len() - i,
        {
            states.push(i);
            let both = common(&subsets[i], &self.accepting);
            let ghost before = marked@;
            if both.len() > 0 {
                marked.push(i);
            }
            proof {
                assert(sets[i as int] == subsets@[i as int]@.to_set());
                if both.len() > 0 {
                    assert(both@.to_set().contains(both@[0]));
                    assert(sets[i as int].contains(both@[0]));
                    assert(meets(sets[i as int], self.accepting@.to_set()));
                    assert(marked@[before.len() as int] == i);
                }
                if meets(sets[i as int], self.accepting@.to_set()) {
                    let s = choose|s: S|
                        #[trigger] sets[i as int].contains(s) && self.accepting@.to_set().contains(
                            s,
                        );
                    assert(both@.to_set().contains(s));
                }
                assert forall|a: int| 0 <= a < i + 1 implies (marked@.contains(a as usize) <==> meets(
                    #[trigger] sets[a],
                    self.accepting@.to_set(),
                )) by {
                    if a < i {
                        if before.contains(a as usize) {
                            let k = choose|k: int| 0 <= k < before.len() && before[k] == a as usize;
                            assert(marked@[k] == a as usize);
                        }
                        if marked@.contains(a as usize) {
                            let k = choose|k: int| 0 <= k < marked@.len() && marked@[k] == a as usize;
                            assert(before[k] == a as usize);
                        }
                    } else {
                        if marked@.contains(a as usize) {
                            let k = choose|k: int| 0 <= k < marked@.len() && marked@[k] == a as usize;
                            if k < before.len() {
                                assert(before[k] < i);
                            }
                        }
                    }
                }
            }
            i += 1;
        }
        let alphabet = copy_list(&self.alphabet);
        proof {
            let state_set = states@.to_set();
            assert forall|a: usize| a < states.len() implies #[trigger] state_set.contains(a) by {
                assert(states@[a as int] == a);
            }
            lemma_transitions_fault(state_set, alphabet@.to_set(), trans@, 0);
            assert forall|e: int| 0 <= e < trans@.len() implies transition_fault(
                state_set,
                alphabet@.to_set(),
                #[trigger] trans@[e],
            ) is None by {
                assert(edge_sound(edges, symbols.to_set(), sets, trans@, e));
                assert(state_set.contains(trans@[e].0.0));
                assert(state_set.contains(trans@[e].1));
            }
            lemma_first_outside(state_set, marked@, 0);
            assert forall|k: int| 0 <= k < marked@.len() implies state_set.contains(
                #[trigger] marked@[k],
            ) by {
                assert(marked@[k] < states.len());
            }
            assert(state_set.contains(0usize));
            assert(automaton_fault(states@, alphabet@, trans@, 0usize, marked@) is None);
            // The automaton that was built simulates this one.
            assert forall|a: int, c: A|
                0 <= a < sets.len() && symbols.to_set().contains(c) implies match #[trigger] next_state(
                trans@,
                a as usize,
                c,
                0,
            ) {
                Some(b) => b < sets.len() && sets[b as int] == step(edges, sets[a], c),
                None => step(edges, sets[a], c) == Set::<S>::empty(),
            } by {
                let p = choose|p: int| 0 <= p < symbols.len() && symbols[p] == c;
                assert(covered(edges, symbols, sets, trans@, a, p));
                lemma_next_state(trans@, a as usize, c, 0);
                match next_state(trans@, a as usize, c, 0) {
                    Some(b) => {
                        let e2 = choose|e2: int|
                            0 <= e2 < trans@.len() && #[trigger] trans@[e2] == ((a as usize, c), b);
                        assert(edge_sound(edges, symbols.to_set(), sets, trans@, e2));
                    },
                    None => {},
                }
            }
            assert(simulates(
                edges,
                self.initial,
                self.accepting@.to_set(),
                symbols.to_set(),
                sets,
                trans@,
                marked@.to_set(),
            ));
            assert forall|input: Seq<A>|
                first_outside(symbols.to_set(), input, 0) is None implies #[trigger] accepts_from(
                symbols.to_set(),
                trans@,
                marked@.to_set(),
                0usize,
                input,
                0,
            ) == Ok::<bool, Error<usize, A>>(
                accepts(edges, self.initial, self.accepting@.to_set(), input),
            ) by {
                lemma_simulation(
                    edges,
                    self.initial,
                    self.accepting@.to_set(),
                    symbols.to_set(),
                    sets,
                    trans@,
                    marked@.to_set(),
                    input,
                    0,
                    0,
                );
            }
        }
        Dfa::new(states, alphabet, trans, 0, marked)
    }
}

} // verus!
