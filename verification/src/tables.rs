//! The tables that the analysis of a grammar produces.
//!
//! A table is laid out over the nonterminals and terminals of the grammar
//! that it was computed for, in the order in which the grammar keeps them.

use vstd::prelude::*;
use vstd::laws_eq::obeys_concrete_eq;
use crate::bits::{assignment, row_set, rows, shaped};
use crate::cfg::ContextFreeGrammar;
use crate::lists::position;
use crate::transfer::{pushed, pushed_set};

verus! {

/// For each nonterminal of a grammar, whether it can derive the empty string.
pub struct NullableTable<N: Copy + PartialEq> {
    /// The nonterminals, each once.
    pub(crate) nonterminals: Vec<N>,
    /// One flag for each nonterminal.
    pub(crate) flags: Vec<bool>,
}

impl<N: Copy + PartialEq> NullableTable<N> {
    /// What holds of every table that exists.
    #[verifier::type_invariant]
    pub open(crate) spec fn inv(self) -> bool {
        &&& obeys_concrete_eq::<N>()
        &&& self.nonterminals@.no_duplicates()
        &&& self.flags@.len() == self.nonterminals@.len()
    }

    /// The table is one that the analysis could have made.
    pub open(crate) spec fn wf(&self) -> bool {
        self.inv()
    }

    /// The nonterminals that the table speaks of, in its order.
    pub open(crate) spec fn keys(&self) -> Seq<N> {
        self.nonterminals@
    }

    /// The flags of the table, one for each nonterminal in its order.
    pub open(crate) spec fn bits(&self) -> Seq<bool> {
        self.flags@
    }

    /// The nonterminals that the table holds to be nullable.
    pub open(crate) spec fn view(&self) -> Set<N> {
        pushed_set(self.nonterminals@, row_set(self.flags@))
    }

    /// The table is laid out over the nonterminals of `cfg`.
    pub open spec fn fits<T: Copy + PartialEq>(&self, cfg: &ContextFreeGrammar<T, N>) -> bool {
        self.keys() == cfg.nonterminal_order()
    }

    /// Whether the table holds `n` to be nullable; `None` where it does not
    /// speak of `n`.
    pub fn get(&self, n: &N) -> (r: Option<bool>)
        ensures
            r == if self.keys().contains(*n) {
                Some(self@.contains(*n))
            } else {
                None
            },
    {
        proof {
            use_type_invariant(self);
        }
        match position(&self.nonterminals, n) {
            Some(i) => {
                let flag = self.flags[i];
                proof {
                    if self@.contains(*n) {
                        let i2 = choose|i2: int|
                            0 <= i2 < self.nonterminals@.len() && #[trigger] self.nonterminals@[i2]
                                == *n && row_set(self.flags@).contains(i2 as usize);
                        assert(i2 == i);
                    }
                    if flag {
                        assert(self.nonterminals@[i as int] == *n);
                        assert(row_set(self.flags@).contains(i));
                    }
                }
                Some(flag)
            },
            None => None,
        }
    }
}

/// `t` is a terminal at a position below `upto` whose flag is set in `row`.
pub open spec fn picked<T>(ts: Seq<T>, row: Seq<bool>, upto: int, t: T) -> bool {
    exists|j: int| 0 <= j < upto && row[j] && #[trigger] ts[j] == t
}

/// For each nonterminal of a grammar, a set of its terminals.
pub struct TerminalSets<T: Copy + PartialEq, N: Copy + PartialEq> {
    /// The nonterminals, each once.
    pub(crate) nonterminals: Vec<N>,
    /// The terminals, each once.
    pub(crate) terminals: Vec<T>,
    /// One row for each nonterminal, with one flag for each terminal.
    pub(crate) sets: Vec<Vec<bool>>,
}

/// A table of FIRST sets.
pub type FirstTable<T, N> = TerminalSets<T, N>;

/// A table of FOLLOW sets.
pub type FollowTable<T, N> = TerminalSets<T, N>;

/// A table of PREDICT sets.
pub type PredictTable<T, N> = TerminalSets<T, N>;

impl<T: Copy + PartialEq, N: Copy + PartialEq> TerminalSets<T, N> {
    /// What holds of every table that exists.
    #[verifier::type_invariant]
    pub open(crate) spec fn inv(self) -> bool {
        &&& obeys_concrete_eq::<T>()
        &&& obeys_concrete_eq::<N>()
        &&& self.nonterminals@.no_duplicates()
        &&& self.terminals@.no_duplicates()
        &&& shaped(rows(self.sets@), self.nonterminals@.len(), self.terminals@.len())
    }

    /// The nonterminals that the table speaks of, in its order.
    pub open(crate) spec fn keys(&self) -> Seq<N> {
        self.nonterminals@
    }

    /// The table is one that the analysis could have made.
    pub open(crate) spec fn wf(&self) -> bool {
        self.inv()
    }

    /// The flags of the table: one row for each nonterminal, with one flag
    /// for each terminal, both in the order of the table.
    pub open(crate) spec fn bits(&self) -> Seq<Seq<bool>> {
        rows(self.sets@)
    }

    /// The terminals that the sets are made of, in the order of the table.
    pub open(crate) spec fn columns(&self) -> Seq<T> {
        self.terminals@
    }

    /// The set that the table gives each nonterminal; the empty set where it
    /// does not speak of one.
    pub open(crate) spec fn assignment(&self) -> spec_fn(N) -> Set<T> {
        pushed(self.terminals@, self.nonterminals@, assignment(rows(self.sets@)))
    }

    /// The table as a map from its nonterminals to their sets.
    pub open(crate) spec fn view(&self) -> Map<N, Set<T>> {
        Map::new(|n: N| self.nonterminals@.contains(n), |n: N| self.assignment()(n))
    }

    /// The table is laid out over the symbols of `cfg`.
    pub open spec fn fits(&self, cfg: &ContextFreeGrammar<T, N>) -> bool {
        &&& self.keys() == cfg.nonterminal_order()
        &&& self.columns() == cfg.terminal_order()
    }

    /// How the view and the assignment go together.
    pub proof fn lemma_view(&self)
        ensures
            self@.dom() == self.keys().to_set(),
            forall|n: N|
                #[trigger] self.assignment()(n) == if self@.dom().contains(n) {
                    self@[n]
                } else {
                    Set::<T>::empty()
                },
    {
        assert(self@.dom() =~= self.keys().to_set());
        assert forall|n: N|
            #[trigger] self.assignment()(n) == if self@.dom().contains(n) {
                self@[n]
            } else {
                Set::<T>::empty()
            } by {
            if !self@.dom().contains(n) {
                assert(self.assignment()(n) =~= Set::<T>::empty());
            }
        }
    }

    /// Whether the set of `n` holds `t`.
    pub fn contains(&self, n: &N, t: &T) -> (r: bool)
        ensures
            r == self.assignment()(*n).contains(*t),
    {
        proof {
            use_type_invariant(self);
        }
        let ghost f = assignment(rows(self.sets@));
        match position(&self.nonterminals, n) {
            Some(i) => match position(&self.terminals, t) {
                Some(j) => {
                    assert(rows(self.sets@)[i as int] == self.sets@[i as int]@);
                    let flag = self.sets[i][j];
                    proof {
                        if self.assignment()(*n).contains(*t) {
                            let (i2, j2) = choose|i2: int, j2: int|
                                0 <= i2 < self.nonterminals@.len() && 0 <= j2
                                    < self.terminals@.len() && #[trigger] self.nonterminals@[i2]
                                    == *n && #[trigger] self.terminals@[j2] == *t && f(
                                    i2 as usize,
                                ).contains(j2 as usize);
                            assert(i2 == i && j2 == j);
                        }
                        if flag {
                            assert(self.nonterminals@[i as int] == *n && self.terminals@[j as int]
                                == *t);
                            assert(f(i).contains(j));
                        }
                    }
                    flag
                },
                None => false,
            },
            None => false,
        }
    }

    /// The set of `n` as a list in the order of the terminals; `None` where
    /// the table does not speak of `n`.
    pub fn get(&self, n: &N) -> (r: Option<Vec<T>>)
        ensures
            match r {
                Some(list) => self.keys().contains(*n) && list@.no_duplicates() && list@.to_set()
                    == self.assignment()(*n),
                None => !self.keys().contains(*n),
            },
    {
        proof {
            use_type_invariant(self);
        }
        let ghost f = assignment(rows(self.sets@));
        match position(&self.nonterminals, n) {
            Some(i) => {
                assert(rows(self.sets@)[i as int] == self.sets@[i as int]@);
                let row = &self.sets[i];
                let mut list: Vec<T> = Vec::new();
                let mut j: usize = 0;
                while j < self.terminals.len()
                    invariant
                        j <= self.terminals.len(),
                        row.len() == self.terminals.len(),
                        self.terminals@.no_duplicates(),
                        forall|k: int|
                            0 <= k < list.len() ==> picked(
                                self.terminals@,
                                row@,
                                j as int,
                                #[trigger] list@[k],
                            ),
                        forall|j2: int|
                            0 <= j2 < j && row@[j2] ==> list@.contains(#[trigger] self.terminals@[j2]),
                        list@.no_duplicates(),
                    decreases self.terminals.len() - j,
                {
                    if row[j] {
                        let ghost before = list@;
                        list.push(self.terminals[j]);
                        proof {
                            assert forall|k: int| 0 <= k < list.len() implies picked(
                                self.terminals@,
                                row@,
                                j as int + 1,
                                #[trigger] list@[k],
                            ) by {
                                if k < before.len() {
                                    assert(picked(self.terminals@, row@, j as int, before[k]));
                                    let j2 = choose|j2: int|
                                        0 <= j2 < j && row@[j2] && #[trigger] self.terminals@[j2]
                                            == before[k];
                                    assert(self.terminals@[j2] == list@[k]);
                                } else {
                                    assert(self.terminals@[j as int] == list@[k]);
                                }
                            }
                            assert forall|j2: int| 0 <= j2 < j + 1 && row@[j2] implies list@.contains(
                                #[trigger] self.terminals@[j2],
                            ) by {
                                if j2 < j {
                                    assert(before.contains(self.terminals@[j2]));
                                    let k = choose|k: int|
                                        0 <= k < before.len() && before[k] == self.terminals@[j2];
                                    assert(list@[k] == self.terminals@[j2]);
                                } else {
                                    assert(list@[before.len() as int] == self.terminals@[j2]);
                                }
                            }
                            assert forall|k1: int, k2: int|
                                0 <= k1 < list@.len() && 0 <= k2 < list@.len() && k1
                                    != k2 implies list@[k1] != list@[k2] by {
                                if k1 < before.len() && k2 < before.len() {
                                } else if k1 < before.len() {
                                    assert(picked(self.terminals@, row@, j as int, before[k1]));
                                    let j2 = choose|j2: int|
                                        0 <= j2 < j && row@[j2] && #[trigger] self.terminals@[j2]
                                            == before[k1];
                                } else {
                                    assert(picked(self.terminals@, row@, j as int, before[k2]));
                                    let j2 = choose|j2: int|
                                        0 <= j2 < j && row@[j2] && #[trigger] self.terminals@[j2]
                                            == before[k2];
                                }
                            }
                        }
                    }
                    j += 1;
                }
                proof {
                    assert forall|t: T| list@.to_set().contains(t) <==> self.assignment()(*n).contains(
                        t,
                    ) by {
                        if list@.contains(t) {
                            let k = choose|k: int| 0 <= k < list@.len() && list@[k] == t;
                            assert(picked(
                                self.terminals@,
                                row@,
                                self.terminals@.len() as int,
                                list@[k],
                            ));
                            let j2 = choose|j2: int|
                                0 <= j2 < self.terminals@.len() && row@[j2]
                                    && #[trigger] self.terminals@[j2] == list@[k];
                            assert(self.nonterminals@[i as int] == *n && self.terminals@[j2] == t);
                            assert(f(i).contains(j2 as usize));
                        }
                        if self.assignment()(*n).contains(t) {
                            let (i2, j2) = choose|i2: int, j2: int|
                                0 <= i2 < self.nonterminals@.len() && 0 <= j2
                                    < self.terminals@.len() && #[trigger] self.nonterminals@[i2]
                                    == *n && #[trigger] self.terminals@[j2] == t && f(
                                    i2 as usize,
                                ).contains(j2 as usize);
                            assert(i2 == i);
                            assert(row@[j2]);
                        }
                    }
                    assert(list@.to_set() =~= self.assignment()(*n));
                }
                Some(list)
            },
            None => None,
        }
    }
}

} // verus!
