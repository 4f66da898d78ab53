//! Symbols and context-free grammars.
//!
//! A grammar is made of a list of terminals, a list of nonterminals and a list
//! of entries, each of which gives a nonterminal some alternatives. The lists
//! are read as sets: repetitions count once, and entries for the same
//! nonterminal add up.

use vstd::prelude::*;
use vstd::laws_eq::obeys_concrete_eq;
use crate::dense::IndexedGrammar;
use crate::lists::{distinct, lemma_without_repeats, position, same, without_repeats};
use crate::encoding::{
    index_grammar, lemma_entries_fault, lemma_entry_fault, lemma_sequence_fault, represents,
};
use crate::theory::{has_alternative, symbol_declared, well_formed};

verus! {

/// A single symbol of a grammar: a terminal or a nonterminal.
#[derive(Debug, PartialEq, Eq, Hash)]
pub enum Symbol<T, N> {
    /// A terminal symbol, one that stands for a token.
    Terminal(T),
    /// A nonterminal symbol, one that productions expand.
    Nonterminal(N),
}

impl<T: Copy, N: Copy> Clone for Symbol<T, N> {
    fn clone(&self) -> (r: Self)
        ensures
            r == *self,
    {
        *self
    }
}

impl<T: Copy, N: Copy> Copy for Symbol<T, N> {

}

impl<T: Copy + PartialEq, N: Copy + PartialEq> Symbol<T, N> {
    /// Whether the symbol is the nonterminal `n`. A terminal never is.
    pub fn is_nonterminal(&self, n: &N) -> (r: bool)
        requires
            obeys_concrete_eq::<N>(),
        ensures
            r == (*self == Symbol::<T, N>::Nonterminal(*n)),
    {
        match self {
            Symbol::Nonterminal(m) => same(m, n),
            Symbol::Terminal(_) => false,
        }
    }
}

/// The terminals of a grammar.
pub type Terminals<T> = Vec<T>;

/// The nonterminals of a grammar.
pub type Nonterminals<N> = Vec<N>;

/// Alternative right-hand sides.
pub type Alternatives<T, N> = Vec<Vec<Symbol<T, N>>>;

/// The productions of a grammar: entries of a nonterminal and alternatives for it.
pub type Productions<T, N> = Vec<(N, Alternatives<T, N>)>;

/// Why a grammar is malformed.
#[derive(Debug, PartialEq, Eq)]
pub enum Error<T, N> {
    /// A production holds a terminal that is not among the terminals.
    UnknownTerminalInProduction(T),
    /// A production holds, or is for, a nonterminal that is not among the nonterminals.
    UnknownNonterminalInProduction(N),
    /// A nonterminal has no entry among the productions.
    MissingProductionsForNonterminal(N),
}

impl<T: Copy, N: Copy> Clone for Error<T, N> {
    fn clone(&self) -> (r: Self)
        ensures
            r == *self,
    {
        *self
    }
}

impl<T: Copy, N: Copy> Copy for Error<T, N> {

}

/// The mathematical content of a grammar.
#[verifier::reject_recursive_types(T)]
#[verifier::reject_recursive_types(N)]
pub struct GrammarView<T, N> {
    /// The declared terminals.
    pub terminals: Set<T>,
    /// The declared nonterminals.
    pub nonterminals: Set<N>,
    /// The alternatives of each left-hand side.
    pub productions: Map<N, Set<Seq<Symbol<T, N>>>>,
}

/// The `a`-th alternative of the `e`-th entry.
pub open spec fn entry_alternative<T, N>(
    entries: Seq<(N, Alternatives<T, N>)>,
    e: int,
    a: int,
) -> Seq<Symbol<T, N>> {
    entries[e].1@[a]@
}

/// Some entry is for `n`.
pub open spec fn keyed<T, N>(entries: Seq<(N, Alternatives<T, N>)>, n: N) -> bool {
    exists|e: int| 0 <= e < entries.len() && (#[trigger] entries[e]).0 == n
}

/// Some entry for `n` lists `w`.
pub open spec fn listed<T, N>(
    entries: Seq<(N, Alternatives<T, N>)>,
    n: N,
    w: Seq<Symbol<T, N>>,
) -> bool {
    exists|e: int, a: int|
        0 <= e < entries.len() && 0 <= a < entries[e].1@.len() && entries[e].0 == n
            && #[trigger] entry_alternative(entries, e, a) == w
}

/// The entries as a map from each nonterminal that has an entry to the set of
/// alternatives that its entries list.
pub open spec fn production_map<T, N>(entries: Seq<(N, Alternatives<T, N>)>) -> Map<
    N,
    Set<Seq<Symbol<T, N>>>,
> {
    Map::new(|n: N| keyed(entries, n), |n: N| Set::new(|w: Seq<Symbol<T, N>>| listed(entries, n, w)))
}

/// What the three lists say.
pub open spec fn grammar_view<T, N>(
    terminals: Seq<T>,
    nonterminals: Seq<N>,
    entries: Seq<(N, Alternatives<T, N>)>,
) -> GrammarView<T, N> {
    GrammarView {
        terminals: terminals.to_set(),
        nonterminals: nonterminals.to_set(),
        productions: production_map(entries),
    }
}

/// The fault of a single symbol, if it has one.
pub open spec fn symbol_fault<T, N>(ts: Set<T>, ns: Set<N>, x: Symbol<T, N>) -> Option<Error<T, N>> {
    match x {
        Symbol::Terminal(t) => if ts.contains(t) {
            None
        } else {
            Some(Error::UnknownTerminalInProduction(t))
        },
        Symbol::Nonterminal(m) => if ns.contains(m) {
            None
        } else {
            Some(Error::UnknownNonterminalInProduction(m))
        },
    }
}

/// The fault of the first faulty symbol of `w` at or after position `k`.
pub open spec fn sequence_fault<T, N>(
    ts: Set<T>,
    ns: Set<N>,
    w: Seq<Symbol<T, N>>,
    k: int,
) -> Option<Error<T, N>>
    decreases w.len() - k,
{
    if k < 0 || k >= w.len() {
        None
    } else if symbol_fault(ts, ns, w[k]) is Some {
        symbol_fault(ts, ns, w[k])
    } else {
        sequence_fault(ts, ns, w, k + 1)
    }
}

/// The first fault of the production of `w` for `lhs`: the left-hand side is
/// looked at first, then the symbols from left to right.
pub open spec fn production_fault<T, N>(
    ts: Set<T>,
    ns: Set<N>,
    lhs: N,
    w: Seq<Symbol<T, N>>,
) -> Option<Error<T, N>> {
    if !ns.contains(lhs) {
        Some(Error::UnknownNonterminalInProduction(lhs))
    } else {
        sequence_fault(ts, ns, w, 0)
    }
}

/// The first fault among the alternatives of an entry at or after position `a`.
pub open spec fn entry_fault<T, N>(
    ts: Set<T>,
    ns: Set<N>,
    lhs: N,
    alternatives: Seq<Vec<Symbol<T, N>>>,
    a: int,
) -> Option<Error<T, N>>
    decreases alternatives.len() - a,
{
    if a < 0 || a >= alternatives.len() {
        None
    } else if production_fault(ts, ns, lhs, alternatives[a]@) is Some {
        production_fault(ts, ns, lhs, alternatives[a]@)
    } else {
        entry_fault(ts, ns, lhs, alternatives, a + 1)
    }
}

/// The first fault among the entries at or after position `e`.
pub open spec fn entries_fault<T, N>(
    ts: Set<T>,
    ns: Set<N>,
    entries: Seq<(N, Alternatives<T, N>)>,
    e: int,
) -> Option<Error<T, N>>
    decreases entries.len() - e,
{
    if e < 0 || e >= entries.len() {
        None
    } else if entry_fault(ts, ns, entries[e].0, entries[e].1@, 0) is Some {
        entry_fault(ts, ns, entries[e].0, entries[e].1@, 0)
    } else {
        entries_fault(ts, ns, entries, e + 1)
    }
}

/// The first nonterminal at or after position `i` that has no entry.
pub open spec fn missing_fault<T, N>(
    nonterminals: Seq<N>,
    entries: Seq<(N, Alternatives<T, N>)>,
    i: int,
) -> Option<Error<T, N>>
    decreases nonterminals.len() - i,
{
    if i < 0 || i >= nonterminals.len() {
        None
    } else if !keyed(entries, nonterminals[i]) {
        Some(Error::MissingProductionsForNonterminal(nonterminals[i]))
    } else {
        missing_fault(nonterminals, entries, i + 1)
    }
}

/// The fault for which the three lists are refused: the first fault of a
/// production, in the order of the entries, or else the first nonterminal
/// without an entry. `None` where the lists make a grammar.
pub open spec fn grammar_fault<T, N>(
    terminals: Seq<T>,
    nonterminals: Seq<N>,
    entries: Seq<(N, Alternatives<T, N>)>,
) -> Option<Error<T, N>> {
    let fault = entries_fault(terminals.to_set(), nonterminals.to_set(), entries, 0);
    if fault is Some {
        fault
    } else {
        missing_fault(nonterminals, entries, 0)
    }
}

/// The first missing nonterminal is found where one is missing.
pub proof fn lemma_missing_fault<T, N>(
    nonterminals: Seq<N>,
    entries: Seq<(N, Alternatives<T, N>)>,
    i: int,
)
    requires
        0 <= i,
    ensures
        missing_fault(nonterminals, entries, i) is None <==> forall|i2: int|
            i <= i2 < nonterminals.len() ==> keyed(entries, #[trigger] nonterminals[i2]),
    decreases nonterminals.len() - i,
{
    if i < nonterminals.len() {
        lemma_missing_fault(nonterminals, entries, i + 1);
    }
}

/// The lists have no fault exactly when what they say is well formed: every
/// production has a declared left-hand side and declared symbols, and every
/// declared nonterminal has an entry.
pub proof fn lemma_fault_free_is_well_formed<T, N>(
    terminals: Seq<T>,
    nonterminals: Seq<N>,
    entries: Seq<(N, Alternatives<T, N>)>,
)
    ensures
        grammar_fault(terminals, nonterminals, entries) is None <==> well_formed(
            grammar_view(terminals, nonterminals, entries),
        ),
{
    let ts = terminals.to_set();
    let ns = nonterminals.to_set();
    let g = grammar_view(terminals, nonterminals, entries);
    lemma_entries_fault(ts, ns, entries, 0);
    lemma_missing_fault(nonterminals, entries, 0);
    assert forall|e: int| 0 <= e < entries.len() implies (entry_fault(
        ts,
        ns,
        (#[trigger] entries[e]).0,
        entries[e].1@,
        0,
    ) is None <==> forall|a: int|
        0 <= a < entries[e].1@.len() ==> production_fault(
            ts,
            ns,
            entries[e].0,
            #[trigger] entry_alternative(entries, e, a),
        ) is None) by {
        lemma_entry_fault(ts, ns, entries[e].0, entries[e].1@, 0);
        assert forall|a: int| 0 <= a < entries[e].1@.len() implies entry_alternative(entries, e, a)
            == (#[trigger] entries[e].1@[a])@ by {}
    }
    assert forall|e: int, a: int| 0 <= e < entries.len() && 0 <= a < entries[e].1@.len() implies (
    production_fault(ts, ns, entries[e].0, #[trigger] entry_alternative(entries, e, a)) is None
        <==> ns.contains(entries[e].0) && forall|k: int|
        0 <= k < entry_alternative(entries, e, a).len() ==> symbol_fault(
            ts,
            ns,
            #[trigger] entry_alternative(entries, e, a)[k],
        ) is None) by {
        lemma_sequence_fault(ts, ns, entry_alternative(entries, e, a), 0);
    }
    if grammar_fault(terminals, nonterminals, entries) is None {
        assert forall|n: N, w: Seq<Symbol<T, N>>| #[trigger]
            has_alternative(g, n, w) implies g.nonterminals.contains(n) by {
            let (e, a) = choose|e: int, a: int|
                0 <= e < entries.len() && 0 <= a < entries[e].1@.len() && entries[e].0 == n
                    && #[trigger] entry_alternative(entries, e, a) == w;
            assert(entry_fault(ts, ns, entries[e].0, entries[e].1@, 0) is None);
            assert(production_fault(ts, ns, entries[e].0, entry_alternative(entries, e, a)) is None);
        }
        assert forall|n: N, w: Seq<Symbol<T, N>>, k: int|
            #![trigger has_alternative(g, n, w), w[k]]
            has_alternative(g, n, w) && 0 <= k < w.len() implies symbol_declared(g, w[k]) by {
            let (e, a) = choose|e: int, a: int|
                0 <= e < entries.len() && 0 <= a < entries[e].1@.len() && entries[e].0 == n
                    && #[trigger] entry_alternative(entries, e, a) == w;
            assert(entry_fault(ts, ns, entries[e].0, entries[e].1@, 0) is None);
            assert(production_fault(ts, ns, entries[e].0, entry_alternative(entries, e, a)) is None);
            assert(symbol_fault(ts, ns, entry_alternative(entries, e, a)[k]) is None);
        }
        assert forall|n: N| #[trigger] g.nonterminals.contains(n) implies g.productions.dom().contains(
            n,
        ) by {
            let i = choose|i: int| 0 <= i < nonterminals.len() && nonterminals[i] == n;
            assert(keyed(entries, nonterminals[i]));
        }
    }
    if well_formed(g) {
        assert forall|e: int, a: int|
            0 <= e < entries.len() && 0 <= a < entries[e].1@.len() implies production_fault(
            ts,
            ns,
            entries[e].0,
            #[trigger] entry_alternative(entries, e, a),
        ) is None by {
            let w = entry_alternative(entries, e, a);
            assert(listed(entries, entries[e].0, w));
            assert(keyed(entries, entries[e].0));
            assert(has_alternative(g, entries[e].0, w));
            assert forall|k: int| 0 <= k < w.len() implies symbol_fault(ts, ns, #[trigger] w[k]) is None by {
                assert(symbol_declared(g, w[k]));
            }
        }
        assert forall|i: int| 0 <= i < nonterminals.len() implies keyed(
            entries,
            #[trigger] nonterminals[i],
        ) by {
            assert(g.nonterminals.contains(nonterminals[i]));
            assert(g.productions.dom().contains(nonterminals[i]));
        }
    }
}

/// A context-free grammar whose productions use declared symbols only and in
/// which every declared nonterminal has an entry.
pub struct ContextFreeGrammar<T: Copy + PartialEq, N: Copy + PartialEq> {
    /// The terminals, each once.
    pub(crate) terminals: Vec<T>,
    /// The nonterminals, each once.
    pub(crate) nonterminals: Vec<N>,
    /// The entries as they were given.
    pub(crate) productions: Productions<T, N>,
    /// The same grammar told in indices.
    pub(crate) dense: IndexedGrammar,
}

impl<T: Copy + PartialEq, N: Copy + PartialEq> ContextFreeGrammar<T, N> {
    /// What holds of every grammar that exists.
    #[verifier::type_invariant]
    pub open(crate) spec fn inv(self) -> bool {
        &&& obeys_concrete_eq::<T>()
        &&& obeys_concrete_eq::<N>()
        &&& well_formed(self@)
        &&& represents(self.terminals@, self.nonterminals@, &self.dense, self@)
    }

    /// The grammar as mathematics.
    pub open(crate) spec fn view(&self) -> GrammarView<T, N> {
        grammar_view(self.terminals@, self.nonterminals@, self.productions@)
    }

    /// The grammar is one that `new` could have made.
    pub open(crate) spec fn wf(&self) -> bool {
        self.inv()
    }

    /// What a grammar that `new` made is known to be.
    pub proof fn lemma_wf(&self)
        requires
            self.wf(),
        ensures
            self.inv(),
            well_formed(self@),
            self.nonterminal_order().no_duplicates(),
            self.terminal_order().no_duplicates(),
            self.nonterminal_order().to_set() == self@.nonterminals,
            self.terminal_order().to_set() == self@.terminals,
    {
    }

    /// The terminals in the order in which the grammar keeps them.
    pub open(crate) spec fn terminal_order(&self) -> Seq<T> {
        self.terminals@
    }

    /// The nonterminals in the order in which the grammar keeps them.
    pub open(crate) spec fn nonterminal_order(&self) -> Seq<N> {
        self.nonterminals@
    }

    /// The entries that the grammar was made of.
    pub open(crate) spec fn entries(&self) -> Seq<(N, Alternatives<T, N>)> {
        self.productions@
    }

    /// Checks that `n` is among the nonterminals.
    pub fn validate_nonterminal(n: &N, nonterminals: &Nonterminals<N>) -> (r: Result<
        (),
        Error<T, N>,
    >)
        requires
            obeys_concrete_eq::<N>(),
        ensures
            r == if nonterminals@.contains(*n) {
                Ok::<(), Error<T, N>>(())
            } else {
                Err::<(), Error<T, N>>(Error::UnknownNonterminalInProduction(*n))
            },
    {
        if position(nonterminals, n).is_some() {
            Ok(())
        } else {
            Err(Error::UnknownNonterminalInProduction(*n))
        }
    }

    /// Checks that `t` is among the terminals.
    pub fn validate_terminal(t: &T, terminals: &Terminals<T>) -> (r: Result<(), Error<T, N>>)
        requires
            obeys_concrete_eq::<T>(),
        ensures
            r == if terminals@.contains(*t) {
                Ok::<(), Error<T, N>>(())
            } else {
                Err::<(), Error<T, N>>(Error::UnknownTerminalInProduction(*t))
            },
    {
        if position(terminals, t).is_some() {
            Ok(())
        } else {
            Err(Error::UnknownTerminalInProduction(*t))
        }
    }

    /// Checks that `s` is among the symbols of its kind.
    pub fn validate_symbol(
        s: &Symbol<T, N>,
        terminals: &Terminals<T>,
        nonterminals: &Nonterminals<N>,
    ) -> (r: Result<(), Error<T, N>>)
        requires
            obeys_concrete_eq::<T>(),
            obeys_concrete_eq::<N>(),
        ensures
            r == match symbol_fault(terminals@.to_set(), nonterminals@.to_set(), *s) {
                None => Ok::<(), Error<T, N>>(()),
                Some(e) => Err::<(), Error<T, N>>(e),
            },
    {
        match s {
            Symbol::Terminal(t) => Self::validate_terminal(t, terminals),
            Symbol::Nonterminal(n) => Self::validate_nonterminal(n, nonterminals),
        }
    }

    /// Checks the production of `rhs` for `lhs`: the left-hand side first,
    /// then the symbols from left to right.
    pub fn validate_production(
        terminals: &Terminals<T>,
        nonterminals: &Nonterminals<N>,
        lhs: &N,
        rhs: &Vec<Symbol<T, N>>,
    ) -> (r: Result<(), Error<T, N>>)
        requires
            obeys_concrete_eq::<T>(),
            obeys_concrete_eq::<N>(),
        ensures
            r == match production_fault(terminals@.to_set(), nonterminals@.to_set(), *lhs, rhs@) {
                None => Ok::<(), Error<T, N>>(()),
                Some(e) => Err::<(), Error<T, N>>(e),
            },
    {
        let checked = Self::validate_nonterminal(lhs, nonterminals);
        if checked.is_err() {
            return checked;
        }
        let mut k: usize = 0;
        while k < rhs.len()
            invariant
                k <= rhs.len(),
                obeys_concrete_eq::<T>(),
                obeys_concrete_eq::<N>(),
                nonterminals@.contains(*lhs),
                sequence_fault(terminals@.to_set(), nonterminals@.to_set(), rhs@, 0)
                    == sequence_fault(terminals@.to_set(), nonterminals@.to_set(), rhs@, k as int),
            decreases rhs.len() - k,
        {
            let checked = Self::validate_symbol(&rhs[k], terminals, nonterminals);
            if checked.is_err() {
                return checked;
            }
            k += 1;
        }
        Ok(())
    }

    /// Whether some entry is for `n`.
    pub fn has_entry(productions: &Productions<T, N>, n: &N) -> (r: bool)
        requires
            obeys_concrete_eq::<N>(),
        ensures
            r == keyed(productions@, *n),
    {
        let mut e: usize = 0;
        while e < productions.len()
            invariant
                e <= productions.len(),
                obeys_concrete_eq::<N>(),
                forall|e2: int| 0 <= e2 < e ==> (#[trigger] productions@[e2]).0 != *n,
            decreases productions.len() - e,
        {
            if same(&productions[e].0, n) {
                return true;
            }
            e += 1;
        }
        false
    }

    /// Looks for the first fault of the three lists.
    pub fn validate(
        terminals: &Terminals<T>,
        nonterminals: &Nonterminals<N>,
        productions: &Productions<T, N>,
    ) -> (r: Result<(), Error<T, N>>)
        requires
            obeys_concrete_eq::<T>(),
            obeys_concrete_eq::<N>(),
        ensures
            r == match grammar_fault(terminals@, nonterminals@, productions@) {
                None => Ok::<(), Error<T, N>>(()),
                Some(e) => Err::<(), Error<T, N>>(e),
            },
    {
        let ghost ts = terminals@.to_set();
        let ghost ns = nonterminals@.to_set();
        let mut e: usize = 0;
        while e < productions.len()
            invariant
                e <= productions.len(),
                ts == terminals@.to_set(),
                ns == nonterminals@.to_set(),
                obeys_concrete_eq::<T>(),
                obeys_concrete_eq::<N>(),
                entries_fault(ts, ns, productions@, 0) == entries_fault(
                    ts,
                    ns,
                    productions@,
                    e as int,
                ),
            decreases productions.len() - e,
        {
            let lhs = &productions[e].0;
            let alternatives = &productions[e].1;
            let mut a: usize = 0;
            while a < alternatives.len()
                invariant
                    a <= alternatives.len(),
                    e < productions.len(),
                    *lhs == productions@[e as int].0,
                    *alternatives == productions@[e as int].1,
                    ts == terminals@.to_set(),
                    ns == nonterminals@.to_set(),
                    obeys_concrete_eq::<T>(),
                    obeys_concrete_eq::<N>(),
                    entries_fault(ts, ns, productions@, 0) == entries_fault(
                        ts,
                        ns,
                        productions@,
                        e as int,
                    ),
                    entry_fault(ts, ns, *lhs, alternatives@, 0) == entry_fault(
                        ts,
                        ns,
                        *lhs,
                        alternatives@,
                        a as int,
                    ),
                decreases alternatives.len() - a,
            {
                let checked = Self::validate_production(
                    terminals,
                    nonterminals,
                    lhs,
                    &alternatives[a],
                );
                if checked.is_err() {
                    return checked;
                }
                a += 1;
            }
            e += 1;
        }
        let mut i: usize = 0;
        while i < nonterminals.len()
            invariant
                i <= nonterminals.len(),
                obeys_concrete_eq::<N>(),
                entries_fault(terminals@.to_set(), nonterminals@.to_set(), productions@, 0) is None,
                missing_fault(nonterminals@, productions@, 0) == missing_fault(
                    nonterminals@,
                    productions@,
                    i as int,
                ),
            decreases nonterminals.len() - i,
        {
            if !Self::has_entry(productions, &nonterminals[i]) {
                return Err(Error::MissingProductionsForNonterminal(nonterminals[i]));
            }
            i += 1;
        }
        Ok(())
    }

    /// Makes a grammar of the three lists, or says what is wrong with them.
    ///
    /// The productions are checked in the order of the entries, each
    /// alternative from its left-hand side to its last symbol, and the first
    /// fault is returned; where no production has one, the first nonterminal
    /// without an entry is.
    ///
    /// Symbols are told apart by `==`, which therefore has to be the equality
    /// of values on both alphabets.
    pub fn new(
        terminals: Terminals<T>,
        nonterminals: Nonterminals<N>,
        productions: Productions<T, N>,
    ) -> (r: Result<Self, Error<T, N>>)
        requires
            obeys_concrete_eq::<T>(),
            obeys_concrete_eq::<N>(),
        ensures
            match r {
                Ok(g) => {
                    &&& grammar_fault(terminals@, nonterminals@, productions@) is None
                    &&& g.wf()
                    &&& g@ == grammar_view(terminals@, nonterminals@, productions@)
                    &&& g.terminal_order() == without_repeats(terminals@)
                    &&& g.nonterminal_order() == without_repeats(nonterminals@)
                    &&& g.entries() == productions@
                },
                Err(e) => grammar_fault(terminals@, nonterminals@, productions@) == Some(e),
            },
    {
        match Self::validate(&terminals, &nonterminals, &productions) {
            Err(e) => Err(e),
            Ok(_) => {
                let ts = distinct(&terminals);
                let ns = distinct(&nonterminals);
                proof {
                    lemma_without_repeats(terminals@);
                    lemma_without_repeats(nonterminals@);
                    lemma_fault_free_is_well_formed(terminals@, nonterminals@, productions@);
                }
                let dense = index_grammar(&ts, &ns, &productions);
                proof {
                    assert(grammar_view(ts@, ns@, productions@) == grammar_view(
                        terminals@,
                        nonterminals@,
                        productions@,
                    ));
                }
                Ok(ContextFreeGrammar { terminals: ts, nonterminals: ns, productions, dense })
            },
        }
    }

    /// The nonterminals, each once, in the order of their first mention.
    pub fn get_nonterminals(&self) -> (r: &Nonterminals<N>)
        ensures
            r@ == self.nonterminal_order(),
            r@.no_duplicates(),
            r@.to_set() == self@.nonterminals,
    {
        proof {
            use_type_invariant(self);
        }
        &self.nonterminals
    }

    /// The terminals, each once, in the order of their first mention.
    pub fn get_terminals(&self) -> (r: &Terminals<T>)
        ensures
            r@ == self.terminal_order(),
            r@.no_duplicates(),
            r@.to_set() == self@.terminals,
    {
        proof {
            use_type_invariant(self);
        }
        &self.terminals
    }

    /// The entries that the grammar was made of.
    pub fn get_productions(&self) -> (r: &Productions<T, N>)
        ensures
            r@ == self.entries(),
            production_map(r@) == self@.productions,
    {
        &self.productions
    }
}

} // verus!
