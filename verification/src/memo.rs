//! The tables of a grammar told in indices, computed once and looked up
//! afterwards.

use vstd::prelude::*;
use crate::bits::{assignment, cleared, copy_row, intersects, row_set, rows, shaped, union_into};
use crate::cfg::Symbol;
use crate::dense::{
    alternatives_upto_begin_with, first_table, follow_table, nullable_flags, IndexedGrammar, Sym,
};
use crate::theory::{
    erasable_range, first_from, first_of_sequence, first_of_tail, first_upto, follow_from,
    is_nonterminal_in, lemma_first_upto_all, lemma_first_upto_empty, lemma_first_upto_step,
    lemma_first_upto_stuck, nullable, symbol_first,
};

verus! {

/// Nullability, FIRST and FOLLOW of every nonterminal of a grammar.
pub struct Memoize {
    /// For each nonterminal, whether it can derive the empty string.
    pub generates_empty: Vec<bool>,
    /// For each nonterminal, its FIRST set.
    pub first: Vec<Vec<bool>>,
    /// For each nonterminal, its FOLLOW set.
    pub follow: Vec<Vec<bool>>,
}

/// Alternatives `a` and `b` of nonterminal `i` both begin with terminal `j`.
pub open spec fn clash(
    g: &IndexedGrammar,
    nul: Set<usize>,
    f: spec_fn(usize) -> Set<usize>,
    i: int,
    a: int,
    b: int,
    j: int,
) -> bool {
    &&& 0 <= a < b < g.rules@[i]@.len()
    &&& 0 <= j < g.terminal_count
    &&& first_of_sequence(nul, f, g.alternative(i, a)).contains(j as usize)
    &&& first_of_sequence(nul, f, g.alternative(i, b)).contains(j as usize)
}

/// Two alternatives of nonterminal `i`, the later one below `upto`, begin
/// with the same terminal.
pub open spec fn clashes_upto(
    g: &IndexedGrammar,
    nul: Set<usize>,
    f: spec_fn(usize) -> Set<usize>,
    i: int,
    upto: int,
) -> bool {
    exists|a: int, b: int, j: int| b < upto && #[trigger] clash(g, nul, f, i, a, b, j)
}

/// Two alternatives of nonterminal `i` begin with the same terminal.
pub open spec fn clashes(
    g: &IndexedGrammar,
    nul: Set<usize>,
    f: spec_fn(usize) -> Set<usize>,
    i: int,
) -> bool {
    clashes_upto(g, nul, f, i, g.rules@[i]@.len() as int)
}

impl Memoize {
    /// The nullable nonterminals according to the table.
    pub open spec fn nul(&self) -> Set<usize> {
        row_set(self.generates_empty@)
    }

    /// The FIRST sets according to the table.
    pub open spec fn fi(&self) -> spec_fn(usize) -> Set<usize> {
        assignment(rows(self.first@))
    }

    /// The FOLLOW sets according to the table.
    pub open spec fn fo(&self) -> spec_fn(usize) -> Set<usize> {
        assignment(rows(self.follow@))
    }

    /// The tables are those of `g`.
    pub open spec fn wf(&self, g: &IndexedGrammar) -> bool {
        &&& g.wf()
        &&& self.generates_empty@.len() == g.rules@.len()
        &&& shaped(rows(self.first@), g.rules@.len(), g.terminal_count as nat)
        &&& shaped(rows(self.follow@), g.rules@.len(), g.terminal_count as nat)
        &&& forall|i: int|
            0 <= i < g.rules@.len() ==> #[trigger] self.generates_empty@[i] == nullable(
                g@,
                i as usize,
            )
        &&& forall|i: int, j: int|
            0 <= i < g.rules@.len() && 0 <= j < g.terminal_count ==> #[trigger] rows(
                self.first@,
            )[i][j] == first_from(g@, self.nul(), i as usize).contains(j as usize)
        &&& forall|i: int, j: int|
            0 <= i < g.rules@.len() && 0 <= j < g.terminal_count ==> #[trigger] rows(
                self.follow@,
            )[i][j] == follow_from(g@, self.nul(), self.fi(), i as usize).contains(j as usize)
    }

    /// Computes the tables of `g`: nullability first, FIRST from it, FOLLOW
    /// from both.
    pub fn new(g: &IndexedGrammar) -> (r: Self)
        requires
            g.wf(),
        ensures
            r.wf(g),
    {
        let generates_empty = nullable_flags(g);
        let first = first_table(g, &generates_empty);
        let follow = follow_table(g, &generates_empty, &first);
        Memoize { generates_empty, first, follow }
    }

    /// Whether nonterminal `n` can derive the empty string.
    pub fn nonterminal_generates_empty(&self, g: &IndexedGrammar, n: usize) -> (r: bool)
        requires
            self.wf(g),
            n < g.rules.len(),
        ensures
            r == nullable(g@, n),
    {
        self.generates_empty[n]
    }

    /// Whether the symbol `s` can derive the empty string. A terminal never can.
    pub fn symbol_generates_empty(&self, g: &IndexedGrammar, s: &Sym) -> (r: bool)
        requires
            self.wf(g),
            g.in_range(*s),
        ensures
            r == is_nonterminal_in(self.nul(), *s),
            r == match *s {
                Symbol::Nonterminal(n) => nullable(g@, n),
                Symbol::Terminal(_) => false,
            },
    {
        match s {
            Symbol::Nonterminal(n) => self.nonterminal_generates_empty(g, *n),
            Symbol::Terminal(_) => false,
        }
    }

    /// The FIRST set of nonterminal `n`.
    pub fn first_of_nonterminal(&self, g: &IndexedGrammar, n: usize) -> (r: Vec<bool>)
        requires
            self.wf(g),
            n < g.rules.len(),
        ensures
            r.len() == g.terminal_count,
            forall|j: int|
                0 <= j < g.terminal_count ==> #[trigger] r@[j] == first_from(
                    g@,
                    self.nul(),
                    n,
                ).contains(j as usize),
    {
        assert(rows(self.first@)[n as int] == self.first@[n as int]@);
        let r = copy_row(&self.first[n]);
        assert forall|j: int| 0 <= j < g.terminal_count implies #[trigger] r@[j] == first_from(
            g@,
            self.nul(),
            n,
        ).contains(j as usize) by {
            assert(r@[j] == rows(self.first@)[n as int][j]);
        }
        r
    }

    /// The FOLLOW set of nonterminal `n`.
    pub fn follow_of_nonterminal(&self, g: &IndexedGrammar, n: usize) -> (r: Vec<bool>)
        requires
            self.wf(g),
            n < g.rules.len(),
        ensures
            r.len() == g.terminal_count,
            forall|j: int|
                0 <= j < g.terminal_count ==> #[trigger] r@[j] == follow_from(
                    g@,
                    self.nul(),
                    self.fi(),
                    n,
                ).contains(j as usize),
    {
        assert(rows(self.follow@)[n as int] == self.follow@[n as int]@);
        let r = copy_row(&self.follow[n]);
        assert forall|j: int| 0 <= j < g.terminal_count implies #[trigger] r@[j] == follow_from(
            g@,
            self.nul(),
            self.fi(),
            n,
        ).contains(j as usize) by {
            assert(r@[j] == rows(self.follow@)[n as int][j]);
        }
        r
    }

    /// What the symbol `s` contributes to a FIRST set: a terminal itself, a
    /// nonterminal its FIRST set.
    pub fn first_of_symbol(&self, g: &IndexedGrammar, s: &Sym) -> (r: Vec<bool>)
        requires
            self.wf(g),
            g.in_range(*s),
        ensures
            r.len() == g.terminal_count,
            forall|j: int|
                0 <= j < g.terminal_count ==> #[trigger] r@[j] == symbol_first(self.fi(), *s).contains(
                    j as usize,
                ),
    {
        match s {
            Symbol::Nonterminal(n) => {
                assert(rows(self.first@)[*n as int] == self.first@[*n as int]@);
                copy_row(&self.first[*n])
            },
            Symbol::Terminal(t) => {
                let mut r = cleared(g.terminal_count);
                r.set(*t, true);
                r
            },
        }
    }

    /// The FIRST set of alternative `a` of nonterminal `i`: what its symbols
    /// contribute, up to and with the first that cannot derive the empty
    /// string.
    pub fn first_of_rhs(&self, g: &IndexedGrammar, i: usize, a: usize) -> (r: Vec<bool>)
        requires
            self.wf(g),
            i < g.rules.len(),
            a < g.rules[i as int].len(),
        ensures
            r.len() == g.terminal_count,
            forall|j: int|
                0 <= j < g.terminal_count ==> #[trigger] r@[j] == first_of_sequence(
                    self.nul(),
                    self.fi(),
                    g.alternative(i as int, a as int),
                ).contains(j as usize),
    {
        let w = &g.rules[i][a];
        let ghost nul = self.nul();
        let ghost f = self.fi();
        let mut set = cleared(g.terminal_count);
        let mut stop = false;
        let mut k: usize = 0;
        proof {
            lemma_first_upto_empty(nul, f, w@, 0);
        }
        while k < w.len() && !stop
            invariant
                k <= w.len(),
                w@ == g.alternative(i as int, a as int),
                nul == self.nul(),
                f == self.fi(),
                self.wf(g),
                i < g.rules.len(),
                a < g.rules[i as int].len(),
                set.len() == g.terminal_count,
                forall|j: int|
                    0 <= j < g.terminal_count ==> #[trigger] set@[j] == first_upto(
                        nul,
                        f,
                        w@,
                        0,
                        k as int,
                    ).contains(j as usize),
                !stop ==> erasable_range(nul, w@, 0, k as int),
                stop ==> first_of_tail(nul, f, w@, 0) == first_upto(nul, f, w@, 0, k as int),
            decreases w.len() - k,
        {
            proof {
                lemma_first_upto_step(nul, f, w@, 0, k as int);
            }
            assert(g.in_range(g.alternative(i as int, a as int)[k as int]));
            let from = self.first_of_symbol(g, &w[k]);
            union_into(&mut set, &from);
            if !self.symbol_generates_empty(g, &w[k]) {
                stop = true;
                proof {
                    lemma_first_upto_stuck(nul, f, w@, 0, k as int);
                }
            }
            k += 1;
        }
        proof {
            lemma_first_upto_all(nul, f, w@, 0);
        }
        set
    }

    /// Whether two alternatives of nonterminal `i` begin with the same
    /// terminal.
    pub fn alternatives_clash(&self, g: &IndexedGrammar, i: usize) -> (r: bool)
        requires
            self.wf(g),
            i < g.rules.len(),
        ensures
            r == clashes(g, self.nul(), self.fi(), i as int),
    {
        let ghost nul = self.nul();
        let ghost f = self.fi();
        let mut seen = cleared(g.terminal_count);
        let mut b: usize = 0;
        assert forall|j: int| 0 <= j < g.terminal_count implies !alternatives_upto_begin_with(
            g,
            nul,
            f,
            i as int,
            0,
            j,
        ) by {}
        while b < g.rules[i].len()
            invariant
                b <= g.rules[i as int].len(),
                nul == self.nul(),
                f == self.fi(),
                self.wf(g),
                i < g.rules.len(),
                seen.len() == g.terminal_count,
                forall|j: int|
                    0 <= j < g.terminal_count ==> #[trigger] seen@[j]
                        == alternatives_upto_begin_with(g, nul, f, i as int, b as int, j),
                !clashes_upto(g, nul, f, i as int, b as int),
            decreases g.rules[i as int].len() - b,
        {
            let row = self.first_of_rhs(g, i, b);
            if intersects(&seen, &row) {
                proof {
                    let j = choose|j: int| 0 <= j < seen.len() && seen@[j] && row@[j];
                    let a = choose|a: int|
                        0 <= a < b && first_of_sequence(
                            nul,
                            f,
                            #[trigger] g.alternative(i as int, a),
                        ).contains(j as usize);
                    assert(clash(g, nul, f, i as int, a, b as int, j));
                }
                return true;
            }
            let ghost before = seen@;
            union_into(&mut seen, &row);
            proof {
                assert forall|j: int| 0 <= j < g.terminal_count implies #[trigger] seen@[j]
                    == alternatives_upto_begin_with(g, nul, f, i as int, b as int + 1, j) by {
                    if alternatives_upto_begin_with(g, nul, f, i as int, b as int + 1, j) {
                        let a = choose|a: int|
                            0 <= a < b + 1 && first_of_sequence(
                                nul,
                                f,
                                #[trigger] g.alternative(i as int, a),
                            ).contains(j as usize);
                        if a < b {
                            assert(alternatives_upto_begin_with(g, nul, f, i as int, b as int, j));
                        }
                    }
                    if before[j] {
                        let a = choose|a: int|
                            0 <= a < b && first_of_sequence(
                                nul,
                                f,
                                #[trigger] g.alternative(i as int, a),
                            ).contains(j as usize);
                    }
                }
                if clashes_upto(g, nul, f, i as int, b as int + 1) {
                    let (a2, b2, j2) = choose|a2: int, b2: int, j2: int|
                        b2 < b + 1 && #[trigger] clash(g, nul, f, i as int, a2, b2, j2);
                    if b2 < b {
                        assert(clashes_upto(g, nul, f, i as int, b as int));
                    } else {
                        assert(alternatives_upto_begin_with(g, nul, f, i as int, b as int, j2));
                        assert(before[j2] && row@[j2]);
                    }
                }
            }
            b += 1;
        }
        false
    }
}

} // verus!
