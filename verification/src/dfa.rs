//! Deterministic finite automata.
//!
//! No edge is an epsilon edge, and from a state on a symbol the automaton has
//! at most one way to go: where the list of edges names a state and symbol
//! twice, the first edge counts.

use vstd::prelude::*;
use vstd::laws_eq::obeys_concrete_eq;
use crate::lists::{position, same};
use crate::nfa::{find_outside, first_outside, Error};

verus! {

/// The edges of a deterministic automaton: from a state on a symbol to a state.
pub type Transitions<S, A> = Vec<((S, A), S)>;

/// The fault of a single edge: its state is looked at first, then its symbol,
/// then its target.
pub open spec fn transition_fault<S, A>(states: Set<S>, alphabet: Set<A>, edge: ((S, A), S)) -> Option<
    Error<S, A>,
> {
    if !states.contains(edge.0.0) {
        Some(Error::UnknownState(edge.0.0))
    } else if !alphabet.contains(edge.0.1) {
        Some(Error::UnknownSymbol(edge.0.1))
    } else if !states.contains(edge.1) {
        Some(Error::UnknownState(edge.1))
    } else {
        None
    }
}

/// The fault of the first faulty edge at or after position `e`.
pub open spec fn transitions_fault<S, A>(
    states: Set<S>,
    alphabet: Set<A>,
    edges: Seq<((S, A), S)>,
    e: int,
) -> Option<Error<S, A>>
    decreases edges.len() - e,
{
    if e < 0 || e >= edges.len() {
        None
    } else if transition_fault(states, alphabet, edges[e]) is Some {
        transition_fault(states, alphabet, edges[e])
    } else {
        transitions_fault(states, alphabet, edges, e + 1)
    }
}

/// The fault for which the parts are refused: the first fault of an edge, or
/// else the first accepting state that is no state, or else the initial state
/// that is no state. `None` where the parts make an automaton.
pub open spec fn automaton_fault<S, A>(
    states: Seq<S>,
    alphabet: Seq<A>,
    edges: Seq<((S, A), S)>,
    initial: S,
    accepting: Seq<S>,
) -> Option<Error<S, A>> {
    let fault = transitions_fault(states.to_set(), alphabet.to_set(), edges, 0);
    if fault is Some {
        fault
    } else {
        match first_outside(states.to_set(), accepting, 0) {
            Some(s) => Some(Error::UnknownAcceptingState(s)),
            None => if states.contains(initial) {
                None
            } else {
                Some(Error::UnknownInitialState(initial))
            },
        }
    }
}

/// Edges without a fault have none in any edge.
pub proof fn lemma_transitions_fault<S, A>(
    states: Set<S>,
    alphabet: Set<A>,
    edges: Seq<((S, A), S)>,
    e: int,
)
    requires
        0 <= e,
    ensures
        transitions_fault(states, alphabet, edges, e) is None <==> forall|e2: int|
            e <= e2 < edges.len() ==> transition_fault(states, alphabet, #[trigger] edges[e2]) is None,
    decreases edges.len() - e,
{
    if e < edges.len() {
        lemma_transitions_fault(states, alphabet, edges, e + 1);
    }
}

/// The next state is that of an edge from `s` on `c`, and there is none only
/// where there is no such edge.
pub proof fn lemma_next_state<S, A>(edges: Seq<((S, A), S)>, s: S, c: A, e: int)
    requires
        0 <= e,
    ensures
        match next_state(edges, s, c, e) {
            Some(next) => exists|e2: int|
                e <= e2 < edges.len() && #[trigger] edges[e2] == ((s, c), next),
            None => forall|e2: int| e <= e2 < edges.len() ==> (#[trigger] edges[e2]).0 != (s, c),
        },
    decreases edges.len() - e,
{
    if e < edges.len() {
        lemma_next_state(edges, s, c, e + 1);
        if edges[e].0 == (s, c) {
            assert(edges[e] == ((s, c), edges[e].1));
        }
    }
}

/// The state that the first edge at or after position `e` from `s` on `c`
/// leads to.
pub open spec fn next_state<S, A>(edges: Seq<((S, A), S)>, s: S, c: A, e: int) -> Option<S>
    decreases edges.len() - e,
{
    if e < 0 || e >= edges.len() {
        None
    } else if edges[e].0 == (s, c) {
        Some(edges[e].1)
    } else {
        next_state(edges, s, c, e + 1)
    }
}

/// What the automaton says of the part of `input` from position `k` on when
/// it is in state `d`: whether it ends in an accepting state. A symbol outside
/// the alphabet is refused when the automaton comes to it; a state without an
/// edge on the next symbol rejects the input there.
pub open spec fn accepts_from<S, A>(
    alphabet: Set<A>,
    edges: Seq<((S, A), S)>,
    accepting: Set<S>,
    d: S,
    input: Seq<A>,
    k: int,
) -> Result<bool, Error<S, A>>
    decreases input.len() - k,
{
    if k < 0 || k >= input.len() {
        Ok(accepting.contains(d))
    } else if !alphabet.contains(input[k]) {
        Err(Error::UnknownSymbol(input[k]))
    } else {
        match next_state(edges, d, input[k], 0) {
            Some(next) => accepts_from(alphabet, edges, accepting, next, input, k + 1),
            None => Ok(false),
        }
    }
}

/// A deterministic finite automaton whose edges, initial state and accepting
/// states name declared states and symbols only.
pub struct Dfa<S: Copy + PartialEq, A: Copy + PartialEq> {
    /// The states, each once.
    pub(crate) states: Vec<S>,
    /// The alphabet, each symbol once.
    pub(crate) alphabet: Vec<A>,
    /// The edges as they were given.
    pub(crate) edges: Transitions<S, A>,
    /// The initial state.
    pub(crate) initial: S,
    /// The accepting states, each once.
    pub(crate) accepting: Vec<S>,
}

impl<S: Copy + PartialEq, A: Copy + PartialEq> Dfa<S, A> {
    /// What holds of every automaton that exists.
    #[verifier::type_invariant]
    pub open(crate) spec fn inv(self) -> bool {
        &&& obeys_concrete_eq::<S>()
        &&& obeys_concrete_eq::<A>()
        &&& automaton_fault(
            self.states@,
            self.alphabet@,
            self.edges@,
            self.initial,
            self.accepting@,
        ) is None
    }

    /// The states.
    pub open(crate) spec fn states(&self) -> Set<S> {
        self.states@.to_set()
    }

    /// The alphabet.
    pub open(crate) spec fn alphabet(&self) -> Set<A> {
        self.alphabet@.to_set()
    }

    /// The edges.
    pub open(crate) spec fn edges(&self) -> Seq<((S, A), S)> {
        self.edges@
    }

    /// The initial state.
    pub open(crate) spec fn initial(&self) -> S {
        self.initial
    }

    /// The accepting states.
    pub open(crate) spec fn accepting(&self) -> Set<S> {
        self.accepting@.to_set()
    }

    /// Makes an automaton of the parts, or says what is wrong with them.
    ///
    /// The edges are checked in their order, each from its state over its
    /// symbol to its target; then the accepting states in their order; then
    /// the initial state. The first fault is returned.
    ///
    /// States and symbols are told apart by `==`, which therefore has to be
    /// the equality of values on both.
    pub fn new(
        states: Vec<S>,
        alphabet: Vec<A>,
        edges: Transitions<S, A>,
        initial: S,
        accepting: Vec<S>,
    ) -> (r: Result<Self, Error<S, A>>)
        requires
            obeys_concrete_eq::<S>(),
            obeys_concrete_eq::<A>(),
        ensures
            match r {
                Ok(dfa) => {
                    &&& automaton_fault(states@, alphabet@, edges@, initial, accepting@) is None
                    &&& dfa.states() == states@.to_set()
                    &&& dfa.alphabet() == alphabet@.to_set()
                    &&& dfa.edges() == edges@
                    &&& dfa.initial() == initial
                    &&& dfa.accepting() == accepting@.to_set()
                },
                Err(e) => automaton_fault(states@, alphabet@, edges@, initial, accepting@) == Some(
                    e,
                ),
            },
    {
        let mut e: usize = 0;
        while e < edges.len()
            invariant
                e <= edges.len(),
                obeys_concrete_eq::<S>(),
                obeys_concrete_eq::<A>(),
                transitions_fault(states@.to_set(), alphabet@.to_set(), edges@, 0)
                    == transitions_fault(states@.to_set(), alphabet@.to_set(), edges@, e as int),
            decreases edges.len() - e,
        {
            let key = &edges[e].0;
            if position(&states, &key.0).is_none() {
                return Err(Error::UnknownState(key.0));
            }
            if position(&alphabet, &key.1).is_none() {
                return Err(Error::UnknownSymbol(key.1));
            }
            if position(&states, &edges[e].1).is_none() {
                return Err(Error::UnknownState(edges[e].1));
            }
            e += 1;
        }
        match find_outside(&states, &accepting) {
            Some(s) => {
                return Err(Error::UnknownAcceptingState(s));
            },
            None => {},
        }
        if position(&states, &initial).is_none() {
            return Err(Error::UnknownInitialState(initial));
        }
        Ok(Dfa { states, alphabet, edges, initial, accepting })
    }

    /// The state that the automaton goes to from `s` on `c`, if it has an
    /// edge for them.
    pub fn edge(&self, s: &S, c: &A) -> (r: Option<S>)
        ensures
            r == next_state(self.edges(), *s, *c, 0),
    {
        proof {
            use_type_invariant(self);
        }
        let mut e: usize = 0;
        while e < self.edges.len()
            invariant
                e <= self.edges.len(),
                obeys_concrete_eq::<S>(),
                obeys_concrete_eq::<A>(),
                next_state(self.edges@, *s, *c, 0) == next_state(self.edges@, *s, *c, e as int),
            decreases self.edges.len() - e,
        {
            let key = &self.edges[e].0;
            if same(&key.0, s) && same(&key.1, c) {
                return Some(self.edges[e].1);
            }
            e += 1;
        }
        None
    }

    /// Runs the automaton on `input` from its initial state and says whether
    /// it accepts.
    pub fn simulate_dfa(&self, input: &Vec<A>) -> (r: Result<bool, Error<S, A>>)
        ensures
            r == accepts_from(
                self.alphabet(),
                self.edges(),
                self.accepting(),
                self.initial(),
                input@,
                0,
            ),
    {
        proof {
            use_type_invariant(self);
        }
        let mut d = self.initial;
        let mut k: usize = 0;
        while k < input.len()
            invariant
                k <= input.len(),
                obeys_concrete_eq::<S>(),
                obeys_concrete_eq::<A>(),
                accepts_from(
                    self.alphabet@.to_set(),
                    self.edges@,
                    self.accepting@.to_set(),
                    self.initial,
                    input@,
                    0,
                ) == accepts_from(
                    self.alphabet@.to_set(),
                    self.edges@,
                    self.accepting@.to_set(),
                    d,
                    input@,
                    k as int,
                ),
            decreases input.len() - k,
        {
            if position(&self.alphabet, &input[k]).is_none() {
                return Err(Error::UnknownSymbol(input[k]));
            }
            match self.edge(&d, &input[k]) {
                Some(next) => {
                    d = next;
                },
                None => {
                    return Ok(false);
                },
            }
            k += 1;
        }
        Ok(position(&self.accepting, &d).is_some())
    }
}

} // verus!
