//! Nondeterministic finite automata.
//!
//! An automaton is made of a list of states, an alphabet, a list of edges, an
//! initial state and a list of accepting states. An edge leads from a state,
//! on a symbol of the alphabet or on none (an epsilon edge), to some states.
//! The lists are read as sets, and edges for the same state and symbol add up.

use vstd::prelude::*;
use vstd::laws_eq::obeys_concrete_eq;
use vstd::seq_lib::seq_to_set_is_finite;
use vstd::set_lib::lemma_len_subset;
use crate::lists::{common, distinct, insert_all, lemma_without_repeats, position, same};

verus! {

/// What is wrong with the parts of an automaton, or with its input.
#[derive(Debug, PartialEq, Eq)]
pub enum Error<S, A> {
    /// An edge leaves or reaches a state that is not among the states.
    UnknownState(S),
    /// A symbol is not in the alphabet.
    UnknownSymbol(A),
    /// An accepting state is not among the states.
    UnknownAcceptingState(S),
    /// The initial state is not among the states.
    UnknownInitialState(S),
}

impl<S: Copy, A: Copy> Clone for Error<S, A> {
    fn clone(&self) -> (r: Self)
        ensures
            r == *self,
    {
        *self
    }
}

impl<S: Copy, A: Copy> Copy for Error<S, A> {

}

/// The edges of an automaton: from a state, on a symbol or on none, to states.
pub type Edges<S, A> = Vec<((S, Option<A>), Vec<S>)>;

/// The state that the `k`-th target of the `e`-th edge names.
pub open spec fn edge_target<S, A>(edges: Seq<((S, Option<A>), Vec<S>)>, e: int, k: int) -> S {
    edges[e].1@[k]
}

/// The states that the edges lead to from `s` on `c`.
pub open spec fn targets<S, A>(edges: Seq<((S, Option<A>), Vec<S>)>, s: S, c: Option<A>) -> Set<S> {
    Set::new(
        |x: S|
            exists|e: int, k: int|
                0 <= e < edges.len() && 0 <= k < edges[e].1@.len() && edges[e].0 == (s, c)
                    && #[trigger] edge_target(edges, e, k) == x,
    )
}

/// The states that the edges lead to from some state of `x` on `c`.
pub open spec fn union_targets<S, A>(
    edges: Seq<((S, Option<A>), Vec<S>)>,
    x: Set<S>,
    c: Option<A>,
) -> Set<S> {
    Set::new(|t: S| exists|s: S| x.contains(s) && #[trigger] targets(edges, s, c).contains(t))
}

/// No epsilon edge leads out of `x`.
pub open spec fn closed_under_epsilon<S, A>(edges: Seq<((S, Option<A>), Vec<S>)>, x: Set<S>) -> bool {
    forall|s: S, t: S|
        x.contains(s) && #[trigger] targets(edges, s, None::<A>).contains(t) ==> x.contains(t)
}

/// The states that can be reached from `x0` by epsilon edges alone: the least
/// set that holds `x0` and that no epsilon edge leads out of.
pub open spec fn closure<S, A>(edges: Seq<((S, Option<A>), Vec<S>)>, x0: Set<S>) -> Set<S> {
    Set::new(
        |t: S|
            forall|x: Set<S>|
                x0.subset_of(x) && #[trigger] closed_under_epsilon(edges, x) ==> x.contains(t),
    )
}

/// The states of the automaton after it has read `c` in the states `d`.
pub open spec fn step<S, A>(edges: Seq<((S, Option<A>), Vec<S>)>, d: Set<S>, c: A) -> Set<S> {
    closure(edges, union_targets(edges, d, Some(c)))
}

/// The states of the automaton after it has read the first `k` symbols of
/// `input`, from the initial state.
pub open spec fn run<S, A>(
    edges: Seq<((S, Option<A>), Vec<S>)>,
    initial: S,
    input: Seq<A>,
    k: int,
) -> Set<S>
    decreases k,
{
    if k <= 0 {
        closure(edges, set![initial])
    } else {
        step(edges, run(edges, initial, input, k - 1), input[k - 1])
    }
}

/// `x` and `y` have a state in common.
pub open spec fn meets<S>(x: Set<S>, y: Set<S>) -> bool {
    exists|s: S| #[trigger] x.contains(s) && y.contains(s)
}

/// The automaton accepts `input`: it can end in an accepting state.
pub open spec fn accepts<S, A>(
    edges: Seq<((S, Option<A>), Vec<S>)>,
    initial: S,
    accepting: Set<S>,
    input: Seq<A>,
) -> bool {
    meets(run(edges, initial, input, input.len() as int), accepting)
}

/// The first element of `list` at or after position `k` that is not in `known`.
pub open spec fn first_outside<S>(known: Set<S>, list: Seq<S>, k: int) -> Option<S>
    decreases list.len() - k,
{
    if k < 0 || k >= list.len() {
        None
    } else if !known.contains(list[k]) {
        Some(list[k])
    } else {
        first_outside(known, list, k + 1)
    }
}

/// The fault of a single edge: its state is looked at first, then its symbol,
/// then its targets in their order.
pub open spec fn edge_fault<S, A>(
    states: Set<S>,
    alphabet: Set<A>,
    edge: ((S, Option<A>), Vec<S>),
) -> Option<Error<S, A>> {
    if !states.contains(edge.0.0) {
        Some(Error::UnknownState(edge.0.0))
    } else if edge.0.1 is Some && !alphabet.contains(edge.0.1->Some_0) {
        Some(Error::UnknownSymbol(edge.0.1->Some_0))
    } else {
        match first_outside(states, edge.1@, 0) {
            Some(s) => Some(Error::UnknownState(s)),
            None => None,
        }
    }
}

/// The fault of the first faulty edge at or after position `e`.
pub open spec fn edges_fault<S, A>(
    states: Set<S>,
    alphabet: Set<A>,
    edges: Seq<((S, Option<A>), Vec<S>)>,
    e: int,
) -> Option<Error<S, A>>
    decreases edges.len() - e,
{
    if e < 0 || e >= edges.len() {
        None
    } else if edge_fault(states, alphabet, edges[e]) is Some {
        edge_fault(states, alphabet, edges[e])
    } else {
        edges_fault(states, alphabet, edges, e + 1)
    }
}

/// The fault for which the parts are refused: the first fault of an edge, or
/// else the first accepting state that is no state, or else the initial state
/// that is no state. `None` where the parts make an automaton.
pub open spec fn automaton_fault<S, A>(
    states: Seq<S>,
    alphabet: Seq<A>,
    edges: Seq<((S, Option<A>), Vec<S>)>,
    initial: S,
    accepting: Seq<S>,
) -> Option<Error<S, A>> {
    let fault = edges_fault(states.to_set(), alphabet.to_set(), edges, 0);
    if fault is Some {
        fault
    } else {
        match first_outside(states.to_set(), accepting, 0) {
            Some(s) => Some(Error::UnknownAcceptingState(s)),
            None => if states.contains(initial) {
                None
            } else {
                Some(Error::UnknownInitialState(initial))
            },
        }
    }
}

/// A list without an element outside `known` lies within it.
pub proof fn lemma_first_outside<S>(known: Set<S>, list: Seq<S>, k: int)
    requires
        0 <= k,
    ensures
        first_outside(known, list, k) is None <==> forall|k2: int|
            k <= k2 < list.len() ==> known.contains(#[trigger] list[k2]),
    decreases list.len() - k,
{
    if k < list.len() {
        lemma_first_outside(known, list, k + 1);
    }
}

/// Edges without a fault have none in any edge.
pub proof fn lemma_edges_fault<S, A>(
    states: Set<S>,
    alphabet: Set<A>,
    edges: Seq<((S, Option<A>), Vec<S>)>,
    e: int,
)
    requires
        0 <= e,
    ensures
        edges_fault(states, alphabet, edges, e) is None <==> forall|e2: int|
            e <= e2 < edges.len() ==> edge_fault(states, alphabet, #[trigger] edges[e2]) is None,
    decreases edges.len() - e,
{
    if e < edges.len() {
        lemma_edges_fault(states, alphabet, edges, e + 1);
    }
}

/// The closure of a set holds the set, and no epsilon edge leads out of it.
pub proof fn lemma_closure_closed<S, A>(edges: Seq<((S, Option<A>), Vec<S>)>, x0: Set<S>)
    ensures
        x0.subset_of(closure(edges, x0)),
        closed_under_epsilon(edges, closure(edges, x0)),
{
    let cl = closure(edges, x0);
    assert forall|s: S, t: S|
        cl.contains(s) && #[trigger] targets(edges, s, None::<A>).contains(t) implies cl.contains(
        t,
    ) by {
        assert forall|x: Set<S>|
            x0.subset_of(x) && #[trigger] closed_under_epsilon(edges, x) implies x.contains(t) by {
            assert(x.contains(s));
        }
    }
}

/// Where the edges have no fault, they lead to declared states only.
pub proof fn lemma_targets_known<S, A>(
    states: Set<S>,
    alphabet: Set<A>,
    edges: Seq<((S, Option<A>), Vec<S>)>,
    s: S,
    c: Option<A>,
    t: S,
)
    requires
        edges_fault(states, alphabet, edges, 0) is None,
        targets(edges, s, c).contains(t),
    ensures
        states.contains(t),
{
    lemma_edges_fault(states, alphabet, edges, 0);
    let (e, k) = choose|e: int, k: int|
        0 <= e < edges.len() && 0 <= k < edges[e].1@.len() && edges[e].0 == (s, c)
            && #[trigger] edge_target(edges, e, k) == t;
    assert(edge_fault(states, alphabet, edges[e]) is None);
    lemma_first_outside(states, edges[e].1@, 0);
    assert(states.contains(edges[e].1@[k]));
}

/// The first element of `list` that is not in `known`.
pub fn find_outside<S: Copy + PartialEq>(known: &Vec<S>, list: &Vec<S>) -> (r: Option<S>)
    requires
        obeys_concrete_eq::<S>(),
    ensures
        r == first_outside(known@.to_set(), list@, 0),
{
    let mut k: usize = 0;
    while k < list.len()
        invariant
            k <= list.len(),
            obeys_concrete_eq::<S>(),
            first_outside(known@.to_set(), list@, 0) == first_outside(
                known@.to_set(),
                list@,
                k as int,
            ),
        decreases list.len() - k,
    {
        if position(known, &list[k]).is_none() {
            return Some(list[k]);
        }
        k += 1;
    }
    None
}

/// Whether the edge is one from `s` on `c`.
pub fn leaves_on<S: Copy + PartialEq, A: Copy + PartialEq>(
    key: &(S, Option<A>),
    s: &S,
    c: &Option<A>,
) -> (r: bool)
    requires
        obeys_concrete_eq::<S>(),
        obeys_concrete_eq::<A>(),
    ensures
        r == (*key == (*s, *c)),
{
    if !same(&key.0, s) {
        return false;
    }
    match (&key.1, c) {
        (Some(a), Some(b)) => same(a, b),
        (None, None) => true,
        _ => false,
    }
}

/// A nondeterministic finite automaton whose edges, initial state and
/// accepting states name declared states and symbols only.
pub struct Nfa<S: Copy + PartialEq, A: Copy + PartialEq> {
    /// The states, each once.
    pub(crate) states: Vec<S>,
    /// The alphabet, each symbol once.
    pub(crate) alphabet: Vec<A>,
    /// The edges as they were given.
    pub(crate) edges: Edges<S, A>,
    /// The initial state.
    pub(crate) initial: S,
    /// The accepting states, each once.
    pub(crate) accepting: Vec<S>,
}

impl<S: Copy + PartialEq, A: Copy + PartialEq> Nfa<S, A> {
    /// What holds of every automaton that exists.
    #[verifier::type_invariant]
    pub open(crate) spec fn inv(self) -> bool {
        &&& obeys_concrete_eq::<S>()
        &&& obeys_concrete_eq::<A>()
        &&& self.states@.no_duplicates()
        &&& self.alphabet@.no_duplicates()
        &&& self.accepting@.no_duplicates()
        &&& automaton_fault(
            self.states@,
            self.alphabet@,
            self.edges@,
            self.initial,
            self.accepting@,
        ) is None
    }

    /// The states.
    pub open(crate) spec fn states(&self) -> Set<S> {
        self.states@.to_set()
    }

    /// The alphabet.
    pub open(crate) spec fn alphabet(&self) -> Set<A> {
        self.alphabet@.to_set()
    }

    /// The edges.
    pub open(crate) spec fn edges(&self) -> Seq<((S, Option<A>), Vec<S>)> {
        self.edges@
    }

    /// The initial state.
    pub open(crate) spec fn initial(&self) -> S {
        self.initial
    }

    /// The accepting states.
    pub open(crate) spec fn accepting(&self) -> Set<S> {
        self.accepting@.to_set()
    }

    /// Makes an automaton of the parts, or says what is wrong with them.
    ///
    /// The edges are checked in their order, each from its state over its
    /// symbol to its targets; then the accepting states in their order; then
    /// the initial state. The first fault is returned.
    ///
    /// States and symbols are told apart by `==`, which therefore has to be
    /// the equality of values on both.
    pub fn new(
        states: Vec<S>,
        alphabet: Vec<A>,
        edges: Edges<S, A>,
        initial: S,
        accepting: Vec<S>,
    ) -> (r: Result<Self, Error<S, A>>)
        requires
            obeys_concrete_eq::<S>(),
            obeys_concrete_eq::<A>(),
        ensures
            match r {
                Ok(nfa) => {
                    &&& automaton_fault(states@, alphabet@, edges@, initial, accepting@) is None
                    &&& nfa.states() == states@.to_set()
                    &&& nfa.alphabet() == alphabet@.to_set()
                    &&& nfa.edges() == edges@
                    &&& nfa.initial() == initial
                    &&& nfa.accepting() == accepting@.to_set()
                },
                Err(e) => automaton_fault(states@, alphabet@, edges@, initial, accepting@) == Some(
                    e,
                ),
            },
    {
        let mut e: usize = 0;
        while e < edges.len()
            invariant
                e <= edges.len(),
                obeys_concrete_eq::<S>(),
                obeys_concrete_eq::<A>(),
                edges_fault(states@.to_set(), alphabet@.to_set(), edges@, 0) == edges_fault(
                    states@.to_set(),
                    alphabet@.to_set(),
                    edges@,
                    e as int,
                ),
            decreases edges.len() - e,
        {
            let key = &edges[e].0;
            if position(&states, &key.0).is_none() {
                return Err(Error::UnknownState(key.0));
            }
            match &key.1 {
                Some(a) => {
                    if position(&alphabet, a).is_none() {
                        return Err(Error::UnknownSymbol(*a));
                    }
                },
                None => {},
            }
            match find_outside(&states, &edges[e].1) {
                Some(s) => {
                    return Err(Error::UnknownState(s));
                },
                None => {},
            }
            e += 1;
        }
        match find_outside(&states, &accepting) {
            Some(s) => {
                return Err(Error::UnknownAcceptingState(s));
            },
            None => {},
        }
        if position(&states, &initial).is_none() {
            return Err(Error::UnknownInitialState(initial));
        }
        let states_once = distinct(&states);
        let alphabet_once = distinct(&alphabet);
        let accepting_once = distinct(&accepting);
        proof {
            lemma_without_repeats(states@);
            lemma_without_repeats(alphabet@);
            lemma_without_repeats(accepting@);
            lemma_first_outside(states@.to_set(), accepting@, 0);
            lemma_first_outside(states@.to_set(), accepting_once@, 0);
            assert forall|k: int| 0 <= k < accepting_once@.len() implies states@.to_set().contains(
                #[trigger] accepting_once@[k],
            ) by {
                assert(accepting_once@.to_set().contains(accepting_once@[k]));
                let k2 = choose|k2: int|
                    0 <= k2 < accepting@.len() && accepting@[k2] == accepting_once@[k];
                assert(states@.to_set().contains(accepting@[k2]));
            }
            assert(states@.to_set().contains(initial));
            assert(states_once@.to_set().contains(initial));
        }
        Ok(
            Nfa {
                states: states_once,
                alphabet: alphabet_once,
                edges,
                initial,
                accepting: accepting_once,
            },
        )
    }

    /// The states that the edges lead to from `s` on `c`, each once.
    pub fn edge(&self, s: &S, c: &Option<A>) -> (r: Vec<S>)
        ensures
            r@.no_duplicates(),
            r@.to_set() == targets(self.edges(), *s, *c),
    {
        proof {
            use_type_invariant(self);
        }
        let mut r: Vec<S> = Vec::new();
        let mut e: usize = 0;
        while e < self.edges.len()
            invariant
                e <= self.edges.len(),
                obeys_concrete_eq::<S>(),
                obeys_concrete_eq::<A>(),
                r@.no_duplicates(),
                r@.to_set() == targets(self.edges@.take(e as int), *s, *c),
            decreases self.edges.len() - e,
        {
            let ghost before = r@.to_set();
            let ghost shorter = self.edges@.take(e as int);
            let ghost longer = self.edges@.take(e as int + 1);
            let matches = leaves_on(&self.edges[e].0, s, c);
            if matches {
                insert_all(&mut r, &self.edges[e].1);
            }
            proof {
                let added = if matches {
                    self.edges@[e as int].1@.to_set()
                } else {
                    Set::<S>::empty()
                };
                assert(r@.to_set() =~= before.union(added));
                assert forall|x: S| targets(longer, *s, *c).contains(x) implies before.union(
                    added,
                ).contains(x) by {
                    let (e2, k2) = choose|e2: int, k2: int|
                        0 <= e2 < longer.len() && 0 <= k2 < longer[e2].1@.len() && longer[e2].0 == (
                            *s,
                            *c,
                        ) && #[trigger] edge_target(longer, e2, k2) == x;
                    if e2 < e {
                        assert(edge_target(shorter, e2, k2) == x);
                        assert(targets(shorter, *s, *c).contains(x));
                    } else {
                        assert(self.edges@[e as int].1@[k2] == x);
                    }
                }
                assert forall|x: S| before.union(added).contains(x) implies targets(
                    longer,
                    *s,
                    *c,
                ).contains(x) by {
                    if before.contains(x) {
                        let (e2, k2) = choose|e2: int, k2: int|
                            0 <= e2 < shorter.len() && 0 <= k2 < shorter[e2].1@.len()
                                && shorter[e2].0 == (*s, *c) && #[trigger] edge_target(
                                shorter,
                                e2,
                                k2,
                            ) == x;
                        assert(edge_target(longer, e2, k2) == x);
                    } else {
                        let k2 = choose|k2: int|
                            0 <= k2 < self.edges@[e as int].1@.len() && self.edges@[e as int].1@[k2]
                                == x;
                        assert(edge_target(longer, e as int, k2) == x);
                    }
                }
                assert(r@.to_set() =~= targets(longer, *s, *c));
            }
            e += 1;
        }
        assert(self.edges@.take(self.edges.len() as int) =~= self.edges@);
        r
    }

    /// The states that the edges lead to from some state of `set` on `c`,
    /// each once.
    pub fn union_edge(&self, set: &Vec<S>, c: &Option<A>) -> (r: Vec<S>)
        ensures
            r@.no_duplicates(),
            r@.to_set() == union_targets(self.edges(), set@.to_set(), *c),
    {
        proof {
            use_type_invariant(self);
        }
        let mut r: Vec<S> = Vec::new();
        let mut i: usize = 0;
        assert(r@.to_set() =~= union_targets(self.edges(), set@.take(0).to_set(), *c));
        while i < set.len()
            invariant
                i <= set.len(),
                obeys_concrete_eq::<S>(),
                r@.no_duplicates(),
                r@.to_set() == union_targets(self.edges(), set@.take(i as int).to_set(), *c),
            decreases set.len() - i,
        {
            let ghost before = r@.to_set();
            let from = self.edge(&set[i], c);
            insert_all(&mut r, &from);
            proof {
                let shorter = set@.take(i as int);
                let longer = set@.take(i as int + 1);
                assert(longer =~= shorter.push(set@[i as int]));
                crate::lists::lemma_push_to_set(shorter, set@[i as int]);
                assert forall|t: S|
                    union_targets(self.edges(), longer.to_set(), *c).contains(
                        t,
                    ) implies r@.to_set().contains(t) by {
                    let s = choose|s: S|
                        longer.to_set().contains(s) && #[trigger] targets(
                            self.edges(),
                            s,
                            *c,
                        ).contains(t);
                    if s != set@[i as int] {
                        assert(shorter.to_set().contains(s));
                        assert(union_targets(self.edges(), shorter.to_set(), *c).contains(t));
                    }
                }
                assert forall|t: S| r@.to_set().contains(t) implies union_targets(
                    self.edges(),
                    longer.to_set(),
                    *c,
                ).contains(t) by {
                    if before.contains(t) {
                        let s = choose|s: S|
                            shorter.to_set().contains(s) && #[trigger] targets(
                                self.edges(),
                                s,
                                *c,
                            ).contains(t);
                        assert(longer.to_set().contains(s));
                    } else {
                        assert(targets(self.edges(), set@[i as int], *c).contains(t));
                        assert(longer.to_set().contains(set@[i as int]));
                    }
                }
                assert(r@.to_set() =~= union_targets(self.edges(), longer.to_set(), *c));
            }
            i += 1;
        }
        assert(set@.take(set.len() as int) =~= set@);
        r
    }
}

impl<S: Copy + PartialEq, A: Copy + PartialEq> Nfa<S, A> {
    /// The states that can be reached from `set` by epsilon edges alone, each
    /// once: the states of `set` first.
    pub fn e_closure(&self, set: &Vec<S>) -> (r: Vec<S>)
        ensures
            r@.no_duplicates(),
            r@.to_set() == closure(self.edges(), set@.to_set()),
    {
        proof {
            use_type_invariant(self);
            lemma_without_repeats(set@);
        }
        let ghost x0 = set@.to_set();
        let ghost universe = x0.union(self.states@.to_set());
        let ghost cl = closure(self.edges@, x0);
        let mut t = distinct(set);
        let mut i: usize = 0;
        proof {
            seq_to_set_is_finite(set@);
            seq_to_set_is_finite(self.states@);
            lemma_closure_closed(self.edges@, x0);
        }
        while i < t.len()
            invariant
                i <= t.len(),
                x0 == set@.to_set(),
                universe == x0.union(self.states@.to_set()),
                cl == closure(self.edges@, x0),
                universe.finite(),
                obeys_concrete_eq::<S>(),
                obeys_concrete_eq::<A>(),
                edges_fault(self.states@.to_set(), self.alphabet@.to_set(), self.edges@, 0) is None,
                x0.subset_of(cl),
                closed_under_epsilon(self.edges@, cl),
                t@.no_duplicates(),
                t@.to_set().subset_of(universe),
                x0.subset_of(t@.to_set()),
                t@.to_set().subset_of(cl),
                forall|k: int, y: S|
                    0 <= k < i && #[trigger] targets(self.edges@, t@[k], None::<A>).contains(y)
                        ==> t@.to_set().contains(y),
            decreases universe.len() - i,
        {
            proof {
                t@.unique_seq_to_set();
                lemma_len_subset(t@.to_set(), universe);
            }
            let ghost before = t@;
            let from = self.edge(&t[i], &None);
            insert_all(&mut t, &from);
            proof {
                assert(before.to_set().contains(before[i as int]));
                assert forall|y: S| t@.to_set().contains(y) implies universe.contains(y)
                    && cl.contains(y) by {
                    if !before.to_set().contains(y) {
                        assert(targets(self.edges@, before[i as int], None::<A>).contains(y));
                        lemma_targets_known(
                            self.states@.to_set(),
                            self.alphabet@.to_set(),
                            self.edges@,
                            before[i as int],
                            None::<A>,
                            y,
                        );
                    }
                }
                assert forall|k: int, y: S|
                    0 <= k < i + 1 && #[trigger] targets(self.edges@, t@[k], None::<A>).contains(
                        y,
                    ) implies t@.to_set().contains(y) by {
                    assert(t@.take(before.len() as int)[k] == before[k]);
                    if k < i {
                        assert(before.to_set().contains(y));
                    }
                }
            }
            i += 1;
        }
        proof {
            assert forall|s: S, y: S|
                t@.to_set().contains(s) && #[trigger] targets(self.edges@, s, None::<A>).contains(
                    y,
                ) implies t@.to_set().contains(y) by {
                let k = choose|k: int| 0 <= k < t@.len() && t@[k] == s;
                assert(targets(self.edges@, t@[k], None::<A>).contains(y));
            }
            assert(closed_under_epsilon(self.edges@, t@.to_set()));
            assert(t@.to_set() =~= cl);
        }
        t
    }

    /// The states of the automaton after it has read `c` in the states `d`,
    /// each once.
    pub fn dfa_edge(&self, d: &Vec<S>, c: &A) -> (r: Vec<S>)
        ensures
            r@.no_duplicates(),
            r@.to_set() == step(self.edges(), d@.to_set(), *c),
    {
        let moved = self.union_edge(d, &Some(*c));
        self.e_closure(&moved)
    }

    /// Runs the automaton on `input` from its initial state and returns the
    /// accepting states among those that it ends in, each once; none where
    /// the automaton does not accept the input. An input with a symbol
    /// outside the alphabet is refused with the first such symbol.
    pub fn simulate_nfa(&self, input: &Vec<A>) -> (r: Result<Vec<S>, Error<S, A>>)
        ensures
            match first_outside(self.alphabet(), input@, 0) {
                Some(c) => r matches Err(e) && e == Error::<S, A>::UnknownSymbol(c),
                None => r matches Ok(reached) && reached@.no_duplicates() && reached@.to_set()
                    == run(self.edges(), self.initial(), input@, input@.len() as int).intersect(
                    self.accepting(),
                ),
            },
    {
        proof {
            use_type_invariant(self);
        }
        let mut start: Vec<S> = Vec::new();
        start.push(self.initial);
        assert(start@.to_set() =~= set![self.initial]) by {
            assert(start@[0] == self.initial);
        }
        let mut d = self.e_closure(&start);
        let mut k: usize = 0;
        while k < input.len()
            invariant
                k <= input.len(),
                obeys_concrete_eq::<S>(),
                obeys_concrete_eq::<A>(),
                self.accepting@.no_duplicates(),
                d@.no_duplicates(),
                d@.to_set() == run(self.edges@, self.initial, input@, k as int),
                first_outside(self.alphabet@.to_set(), input@, 0) == first_outside(
                    self.alphabet@.to_set(),
                    input@,
                    k as int,
                ),
            decreases input.len() - k,
        {
            if position(&self.alphabet, &input[k]).is_none() {
                return Err(Error::UnknownSymbol(input[k]));
            }
            d = self.dfa_edge(&d, &input[k]);
            k += 1;
        }
        Ok(common(&d, &self.accepting))
    }
}

} // verus!
