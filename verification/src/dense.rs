//! Grammars over dense indices, and the fixed-point computations on them.
//!
//! Terminals are the numbers below `terminal_count`, nonterminals the
//! positions of `rules`. Sets of terminals are rows of flags, one flag for
//! each terminal; a table has one row for each nonterminal.

use vstd::prelude::*;
use crate::bits::{
    assignment, cleared, cleared_table, copy_row, lemma_ones_bounded, lemma_total_ones_bounded,
    lemma_total_ones_push, ones, row_set, rows, set_flag, shaped, total_ones, union_into,
};
use crate::cfg::{GrammarView, Symbol};
use crate::theory::{
    all_erasable, begins_at, closed_under_erasure, closed_under_first, closed_under_follow,
    erasable_range, first_assignment, first_from, first_of_sequence, first_of_tail, first_upto,
    follow_assignment, follow_from, has_alternative, is_nonterminal_in, lemma_erasable_monotone,
    lemma_first_closed, lemma_first_of_tail_monotone, lemma_first_upto_all,
    lemma_first_upto_empty, lemma_first_upto_step, lemma_first_upto_stuck, lemma_follow_closed,
    lemma_nullable_closed, nullable, nullable_set, occurrence_respected,
};

verus! {

/// A symbol over indices.
pub type Sym = Symbol<usize, usize>;

/// A grammar whose symbols are indices.
pub struct IndexedGrammar {
    /// How many terminals there are.
    pub terminal_count: usize,
    /// For each nonterminal, its alternatives.
    pub rules: Vec<Vec<Vec<Sym>>>,
}

impl IndexedGrammar {
    /// `x` names a terminal or a nonterminal of this grammar.
    pub open spec fn in_range(&self, x: Sym) -> bool {
        match x {
            Symbol::Terminal(j) => j < self.terminal_count,
            Symbol::Nonterminal(m) => m < self.rules@.len(),
        }
    }

    /// The `a`-th alternative of nonterminal `i`.
    pub open spec fn alternative(&self, i: int, a: int) -> Seq<Sym> {
        self.rules@[i]@[a]@
    }

    /// Every symbol of every alternative is in range.
    pub open spec fn wf(&self) -> bool {
        &&& self.rules@.len() <= usize::MAX
        &&& forall|i: int, a: int, k: int|
            0 <= i < self.rules@.len() && 0 <= a < self.rules@[i]@.len() && 0 <= k
                < self.alternative(i, a).len() ==> self.in_range(#[trigger] self.alternative(i, a)[k])
    }

    /// The alternatives of nonterminal `i` as a set.
    pub open spec fn alternatives(&self, i: int) -> Set<Seq<Sym>> {
        Set::new(
            |w: Seq<Sym>|
                exists|a: int| 0 <= a < self.rules@[i]@.len() && #[trigger] self.alternative(i, a) == w,
        )
    }

    /// The grammar as mathematics.
    pub open spec fn view(&self) -> GrammarView<usize, usize> {
        GrammarView {
            terminals: Set::new(|j: usize| j < self.terminal_count),
            nonterminals: Set::new(|i: usize| i < self.rules@.len()),
            productions: Map::new(
                |i: usize| i < self.rules@.len(),
                |i: usize| self.alternatives(i as int),
            ),
        }
    }
}

/// Whether the symbols of alternative `a` of nonterminal `i` from position
/// `lo` on are all nonterminals flagged in `flags`.
pub fn tail_erasable(g: &IndexedGrammar, i: usize, a: usize, lo: usize, flags: &Vec<bool>) -> (r:
    bool)
    requires
        g.wf(),
        i < g.rules.len(),
        a < g.rules[i as int].len(),
        flags.len() == g.rules.len(),
    ensures
        r == erasable_range(
            row_set(flags@),
            g.alternative(i as int, a as int),
            lo as int,
            g.alternative(i as int, a as int).len() as int,
        ),
{
    let w = &g.rules[i][a];
    let mut k: usize = lo;
    while k < w.len()
        invariant
            lo <= k,
            w@ == g.alternative(i as int, a as int),
            g.wf(),
            i < g.rules.len(),
            a < g.rules[i as int].len(),
            flags.len() == g.rules.len(),
            erasable_range(row_set(flags@), w@, lo as int, k as int),
        decreases w.len() - k,
    {
        assert(g.in_range(g.alternative(i as int, a as int)[k as int]));
        match w[k] {
            Symbol::Terminal(_) => {
                assert(!is_nonterminal_in(row_set(flags@), w@[k as int]));
                return false;
            },
            Symbol::Nonterminal(m) => {
                if !flags[m] {
                    assert(!is_nonterminal_in(row_set(flags@), w@[k as int]));
                    return false;
                }
            },
        }
        k += 1;
    }
    true
}

/// Whether nonterminal `i` has an alternative all of whose symbols are
/// nonterminals flagged in `flags`.
pub fn some_alternative_erasable(g: &IndexedGrammar, i: usize, flags: &Vec<bool>) -> (r: bool)
    requires
        g.wf(),
        i < g.rules.len(),
        flags.len() == g.rules.len(),
    ensures
        r == exists|a: int|
            0 <= a < g.rules[i as int].len() && all_erasable(
                row_set(flags@),
                #[trigger] g.alternative(i as int, a),
            ),
{
    let mut a: usize = 0;
    while a < g.rules[i].len()
        invariant
            a <= g.rules[i as int].len(),
            g.wf(),
            i < g.rules.len(),
            flags.len() == g.rules.len(),
            forall|b: int|
                0 <= b < a ==> !all_erasable(row_set(flags@), #[trigger] g.alternative(i as int, b)),
        decreases g.rules[i as int].len() - a,
    {
        if tail_erasable(g, i, a, 0, flags) {
            return true;
        }
        a += 1;
    }
    false
}

/// Every flagged nonterminal is nullable.
pub open spec fn flags_sound(g: &IndexedGrammar, flags: Seq<bool>) -> bool {
    forall|i: int| 0 <= i < flags.len() && #[trigger] flags[i] ==> nullable(g@, i as usize)
}

/// Rows below `upto` need no further flag: each nonterminal there with an
/// erasable alternative is flagged.
pub open spec fn flags_settled(g: &IndexedGrammar, flags: Seq<bool>, upto: int) -> bool {
    forall|i: int, a: int|
        0 <= i < upto && 0 <= a < g.rules@[i]@.len() && all_erasable(
            row_set(flags),
            #[trigger] g.alternative(i, a),
        ) ==> flags[i]
}

/// A nonterminal with an alternative that is erasable over sound flags is nullable.
proof fn lemma_erasable_alternative_nullable(g: &IndexedGrammar, flags: Seq<bool>, i: int, a: int)
    requires
        g.wf(),
        flags_sound(g, flags),
        0 <= i < g.rules@.len(),
        0 <= a < g.rules@[i]@.len(),
        all_erasable(row_set(flags), g.alternative(i, a)),
    ensures
        nullable(g@, i as usize),
{
    let w = g.alternative(i, a);
    lemma_nullable_closed(g@);
    assert(row_set(flags).subset_of(nullable_set(g@))) by {
        assert forall|m: usize| row_set(flags).contains(m) implies nullable_set(g@).contains(m) by {
            assert(flags[m as int]);
        }
    }
    lemma_erasable_monotone(row_set(flags), nullable_set(g@), w, 0, w.len() as int);
    assert(has_alternative(g@, i as usize, w));
    assert(nullable_set(g@).contains(i as usize));
}

/// Settled flags are closed under erasure.
proof fn lemma_settled_closed(g: &IndexedGrammar, flags: Seq<bool>)
    requires
        g.wf(),
        flags.len() == g.rules@.len(),
        flags_settled(g, flags, flags.len() as int),
    ensures
        closed_under_erasure(g@, row_set(flags)),
{
    assert forall|n: usize, w: Seq<Sym>| #[trigger]
        has_alternative(g@, n, w) && all_erasable(row_set(flags), w) implies row_set(
        flags,
    ).contains(n) by {
        let a = choose|a: int| 0 <= a < g.rules@[n as int]@.len() && #[trigger] g.alternative(n as int, a) == w;
        assert(flags[n as int]);
    }
}

/// One pass over all nonterminals, flagging each that has an alternative
/// erasable over the flags as they stand.
pub fn nullable_pass(g: &IndexedGrammar, flags: &mut Vec<bool>) -> (changed: bool)
    requires
        g.wf(),
        old(flags).len() == g.rules.len(),
        flags_sound(g, old(flags)@),
    ensures
        final(flags).len() == g.rules.len(),
        flags_sound(g, final(flags)@),
        ones(final(flags)@) >= ones(old(flags)@),
        changed ==> ones(final(flags)@) > ones(old(flags)@),
        !changed ==> final(flags)@ == old(flags)@ && closed_under_erasure(
            g@,
            row_set(final(flags)@),
        ),
{
    let mut changed = false;
    let mut i: usize = 0;
    while i < g.rules.len()
        invariant
            i <= g.rules.len(),
            g.wf(),
            flags.len() == g.rules.len(),
            flags_sound(g, flags@),
            ones(flags@) >= ones(old(flags)@),
            changed ==> ones(flags@) > ones(old(flags)@),
            !changed ==> flags@ == old(flags)@ && flags_settled(g, flags@, i as int),
        decreases g.rules.len() - i,
    {
        if !flags[i] {
            if some_alternative_erasable(g, i, flags) {
                proof {
                    let a = choose|a: int|
                        0 <= a < g.rules[i as int].len() && all_erasable(
                            row_set(flags@),
                            #[trigger] g.alternative(i as int, a),
                        );
                    lemma_erasable_alternative_nullable(g, flags@, i as int, a);
                }
                set_flag(flags, i);
                changed = true;
            }
        }
        i += 1;
    }
    proof {
        if !changed {
            lemma_settled_closed(g, flags@);
        }
    }
    changed
}

/// For each nonterminal, whether it can derive the empty string.
pub fn nullable_flags(g: &IndexedGrammar) -> (flags: Vec<bool>)
    requires
        g.wf(),
    ensures
        flags.len() == g.rules.len(),
        forall|i: int| 0 <= i < flags.len() ==> flags[i] == nullable(g@, i as usize),
{
    let mut flags = cleared(g.rules.len());
    let mut changed = true;
    while changed
        invariant
            g.wf(),
            flags.len() == g.rules.len(),
            flags_sound(g, flags@),
            !changed ==> closed_under_erasure(g@, row_set(flags@)),
        decreases
            g.rules.len() - ones(flags@),
            if changed { 1nat } else { 0nat },
    {
        proof {
            lemma_ones_bounded(flags@);
        }
        changed = nullable_pass(g, &mut flags);
        proof {
            lemma_ones_bounded(flags@);
        }
    }
    assert forall|i: int| 0 <= i < flags.len() implies flags[i] == nullable(g@, i as usize) by {
        if nullable(g@, i as usize) {
            assert(row_set(flags@).contains(i as usize));
        }
    }
    flags
}

/// Adds to `acc` FIRST of alternative `a` of nonterminal `i` from position
/// `lo` on, read off the nullable flags and the table as they stand, and says
/// whether `acc` changed.
pub fn calculate_first(
    g: &IndexedGrammar,
    i: usize,
    a: usize,
    lo: usize,
    flags: &Vec<bool>,
    table: &Vec<Vec<bool>>,
    acc: &mut Vec<bool>,
) -> (changed: bool)
    requires
        g.wf(),
        i < g.rules.len(),
        a < g.rules[i as int].len(),
        lo <= g.alternative(i as int, a as int).len(),
        flags.len() == g.rules.len(),
        shaped(rows(table@), g.rules.len() as nat, g.terminal_count as nat),
        old(acc).len() == g.terminal_count,
    ensures
        final(acc).len() == g.terminal_count,
        forall|j: int|
            0 <= j < g.terminal_count ==> #[trigger] final(acc)@[j] == (old(acc)@[j]
                || first_of_tail(
                row_set(flags@),
                assignment(rows(table@)),
                g.alternative(i as int, a as int),
                lo as int,
            ).contains(j as usize)),
        changed == (final(acc)@ != old(acc)@),
        ones(final(acc)@) >= ones(old(acc)@),
        changed ==> ones(final(acc)@) > ones(old(acc)@),
{
    let w = &g.rules[i][a];
    let ghost nul = row_set(flags@);
    let ghost f = assignment(rows(table@));
    let mut changed = false;
    let mut stop = false;
    let mut k: usize = lo;
    proof {
        lemma_first_upto_empty(nul, f, w@, lo as int);
    }
    while k < w.len() && !stop
        invariant
            lo <= k <= w.len(),
            w@ == g.alternative(i as int, a as int),
            nul == row_set(flags@),
            f == assignment(rows(table@)),
            g.wf(),
            i < g.rules.len(),
            a < g.rules[i as int].len(),
            flags.len() == g.rules.len(),
            shaped(rows(table@), g.rules.len() as nat, g.terminal_count as nat),
            acc.len() == g.terminal_count,
            forall|j: int|
                0 <= j < g.terminal_count ==> #[trigger] acc@[j] == (old(acc)@[j] || first_upto(
                    nul,
                    f,
                    w@,
                    lo as int,
                    k as int,
                ).contains(j as usize)),
            !stop ==> erasable_range(nul, w@, lo as int, k as int),
            stop ==> first_of_tail(nul, f, w@, lo as int) == first_upto(
                nul,
                f,
                w@,
                lo as int,
                k as int,
            ),
            !changed ==> acc@ == old(acc)@,
            ones(acc@) >= ones(old(acc)@),
            changed ==> ones(acc@) > ones(old(acc)@),
        decreases w.len() - k,
    {
        proof {
            lemma_first_upto_step(nul, f, w@, lo as int, k as int);
        }
        assert(g.in_range(g.alternative(i as int, a as int)[k as int]));
        match w[k] {
            Symbol::Terminal(j) => {
                let c = set_flag(acc, j);
                changed = changed || c;
                stop = true;
                proof {
                    lemma_first_upto_stuck(nul, f, w@, lo as int, k as int);
                }
            },
            Symbol::Nonterminal(m) => {
                assert(rows(table@)[m as int] == table@[m as int]@);
                assert(f(m) == row_set(table@[m as int]@));
                let c = union_into(acc, &table[m]);
                changed = changed || c;
                if !flags[m] {
                    stop = true;
                    proof {
                        lemma_first_upto_stuck(nul, f, w@, lo as int, k as int);
                    }
                }
            },
        }
        k += 1;
    }
    proof {
        lemma_first_upto_all(nul, f, w@, lo as int);
    }
    changed
}

/// Some alternative of nonterminal `i` has terminal `j` in its FIRST.
pub open spec fn alternatives_begin_with(
    g: &IndexedGrammar,
    nul: Set<usize>,
    f: spec_fn(usize) -> Set<usize>,
    i: int,
    j: int,
) -> bool {
    exists|a: int|
        0 <= a < g.rules@[i]@.len() && first_of_sequence(
            nul,
            f,
            #[trigger] g.alternative(i, a),
        ).contains(j as usize)
}

/// Some alternative of nonterminal `i` below `upto` has terminal `j` in its FIRST.
pub open spec fn alternatives_upto_begin_with(
    g: &IndexedGrammar,
    nul: Set<usize>,
    f: spec_fn(usize) -> Set<usize>,
    i: int,
    upto: int,
    j: int,
) -> bool {
    exists|a: int|
        0 <= a < upto && first_of_sequence(nul, f, #[trigger] g.alternative(i, a)).contains(
            j as usize,
        )
}

/// The row of nonterminal `i` after one more pass: what it held, and FIRST of
/// each of its alternatives read off `table`.
pub fn first_row(g: &IndexedGrammar, i: usize, flags: &Vec<bool>, table: &Vec<Vec<bool>>) -> (r: (
    Vec<bool>,
    bool,
))
    requires
        g.wf(),
        i < g.rules.len(),
        flags.len() == g.rules.len(),
        shaped(rows(table@), g.rules.len() as nat, g.terminal_count as nat),
    ensures
        r.0.len() == g.terminal_count,
        forall|j: int|
            0 <= j < g.terminal_count ==> #[trigger] r.0@[j] == (rows(table@)[i as int][j]
                || alternatives_begin_with(
                g,
                row_set(flags@),
                assignment(rows(table@)),
                i as int,
                j,
            )),
        ones(r.0@) >= ones(rows(table@)[i as int]),
        r.1 ==> ones(r.0@) > ones(rows(table@)[i as int]),
        !r.1 ==> r.0@ == rows(table@)[i as int],
{
    let ghost nul = row_set(flags@);
    let ghost f = assignment(rows(table@));
    assert(rows(table@)[i as int] == table@[i as int]@);
    let mut row = copy_row(&table[i]);
    let mut changed = false;
    let mut a: usize = 0;
    while a < g.rules[i].len()
        invariant
            a <= g.rules[i as int].len(),
            nul == row_set(flags@),
            f == assignment(rows(table@)),
            g.wf(),
            i < g.rules.len(),
            flags.len() == g.rules.len(),
            shaped(rows(table@), g.rules.len() as nat, g.terminal_count as nat),
            row.len() == g.terminal_count,
            forall|j: int|
                0 <= j < g.terminal_count ==> #[trigger] row@[j] == (rows(table@)[i as int][j]
                    || alternatives_upto_begin_with(g, nul, f, i as int, a as int, j)),
            ones(row@) >= ones(rows(table@)[i as int]),
            changed ==> ones(row@) > ones(rows(table@)[i as int]),
            !changed ==> row@ == rows(table@)[i as int],
        decreases g.rules[i as int].len() - a,
    {
        let ghost before = row@;
        let c = calculate_first(g, i, a, 0, flags, table, &mut row);
        changed = changed || c;
        assert forall|j: int| 0 <= j < g.terminal_count implies #[trigger] row@[j] == (rows(
            table@,
        )[i as int][j] || alternatives_upto_begin_with(g, nul, f, i as int, a as int + 1, j)) by {
            let here = first_of_sequence(nul, f, g.alternative(i as int, a as int)).contains(
                j as usize,
            );
            assert(row@[j] == (before[j] || here));
            if alternatives_upto_begin_with(g, nul, f, i as int, a as int + 1, j) {
                let b = choose|b: int|
                    0 <= b < a as int + 1 && first_of_sequence(
                        nul,
                        f,
                        #[trigger] g.alternative(i as int, b),
                    ).contains(j as usize);
                if b < a {
                    assert(alternatives_upto_begin_with(g, nul, f, i as int, a as int, j));
                }
            }
        }
        a += 1;
    }
    (row, changed)
}

/// Every terminal that `t` holds for a nonterminal is in its FIRST set.
pub open spec fn first_sound(g: &IndexedGrammar, nul: Set<usize>, t: Seq<Seq<bool>>) -> bool {
    forall|i: int, j: int|
        0 <= i < t.len() && 0 <= j < t[i].len() && #[trigger] t[i][j] ==> first_from(
            g@,
            nul,
            i as usize,
        ).contains(j as usize)
}

/// The rows of `new` below `upto` are those of `old` after one pass.
pub open spec fn first_stepped(
    g: &IndexedGrammar,
    nul: Set<usize>,
    old: Seq<Seq<bool>>,
    new: Seq<Seq<bool>>,
    upto: int,
) -> bool {
    forall|i: int, j: int|
        0 <= i < upto && 0 <= j < g.terminal_count ==> #[trigger] new[i][j] == (old[i][j]
            || alternatives_begin_with(g, nul, assignment(old), i, j))
}

/// The count of a prefix grows by the count of the next row.
proof fn lemma_total_ones_take(t: Seq<Seq<bool>>, i: int)
    requires
        0 <= i < t.len(),
    ensures
        total_ones(t.take(i + 1)) == total_ones(t.take(i)) + ones(t[i]),
{
    assert(t.take(i + 1) =~= t.take(i).push(t[i]));
    lemma_total_ones_push(t.take(i), t[i]);
}

/// One pass of the FIRST computation: every row anew from the table as it
/// stood before the pass.
pub fn first_pass(g: &IndexedGrammar, flags: &Vec<bool>, table: &Vec<Vec<bool>>) -> (r: (
    Vec<Vec<bool>>,
    bool,
))
    requires
        g.wf(),
        flags.len() == g.rules.len(),
        shaped(rows(table@), g.rules.len() as nat, g.terminal_count as nat),
    ensures
        shaped(rows(r.0@), g.rules.len() as nat, g.terminal_count as nat),
        first_stepped(g, row_set(flags@), rows(table@), rows(r.0@), g.rules.len() as int),
        total_ones(rows(r.0@)) >= total_ones(rows(table@)),
        r.1 ==> total_ones(rows(r.0@)) > total_ones(rows(table@)),
        !r.1 ==> rows(r.0@) == rows(table@),
{
    let ghost nul = row_set(flags@);
    let ghost old_t = rows(table@);
    let mut next: Vec<Vec<bool>> = Vec::new();
    let mut changed = false;
    let mut i: usize = 0;
    assert(old_t.take(0) =~= rows(next@));
    while i < g.rules.len()
        invariant
            i <= g.rules.len(),
            next.len() == i,
            nul == row_set(flags@),
            old_t == rows(table@),
            g.wf(),
            flags.len() == g.rules.len(),
            shaped(old_t, g.rules.len() as nat, g.terminal_count as nat),
            shaped(rows(next@), i as nat, g.terminal_count as nat),
            first_stepped(g, nul, old_t, rows(next@), i as int),
            total_ones(rows(next@)) >= total_ones(old_t.take(i as int)),
            changed ==> total_ones(rows(next@)) > total_ones(old_t.take(i as int)),
            !changed ==> rows(next@) == old_t.take(i as int),
        decreases g.rules.len() - i,
    {
        let ghost before = rows(next@);
        let (row, c) = first_row(g, i, flags, table);
        next.push(row);
        changed = changed || c;
        proof {
            assert(rows(next@) =~= before.push(row@));
            lemma_total_ones_push(before, row@);
            lemma_total_ones_take(old_t, i as int);
            if !changed {
                assert(rows(next@) =~= old_t.take(i as int + 1));
            }
        }
        i += 1;
    }
    assert(old_t.take(g.rules.len() as int) =~= old_t);
    (next, changed)
}

/// Whatever FIRST of an alternative holds is a terminal of the grammar.
proof fn lemma_first_in_range(
    g: &IndexedGrammar,
    nul: Set<usize>,
    t: Seq<Seq<bool>>,
    i: int,
    a: int,
    lo: int,
    j: usize,
)
    requires
        g.wf(),
        shaped(t, g.rules@.len(), g.terminal_count as nat),
        0 <= i < g.rules@.len(),
        0 <= a < g.rules@[i]@.len(),
        0 <= lo,
        first_of_tail(nul, assignment(t), g.alternative(i, a), lo).contains(j),
    ensures
        j < g.terminal_count,
{
    let w = g.alternative(i, a);
    let k = choose|k: int| #[trigger] begins_at(nul, assignment(t), w, lo, k, j);
    assert(g.in_range(g.alternative(i, a)[k]));
}

/// A pass keeps the table within the FIRST sets.
proof fn lemma_first_step_sound(
    g: &IndexedGrammar,
    nul: Set<usize>,
    old: Seq<Seq<bool>>,
    new: Seq<Seq<bool>>,
)
    requires
        g.wf(),
        shaped(old, g.rules@.len(), g.terminal_count as nat),
        shaped(new, g.rules@.len(), g.terminal_count as nat),
        first_sound(g, nul, old),
        first_stepped(g, nul, old, new, g.rules@.len() as int),
    ensures
        first_sound(g, nul, new),
{
    let lfp = first_assignment(g@, nul);
    lemma_first_closed(g@, nul);
    assert forall|m: usize| (#[trigger] assignment(old)(m)).subset_of(lfp(m)) by {
        assert forall|u: usize| assignment(old)(m).contains(u) implies #[trigger] lfp(m).contains(
                u,
            ) by {
            assert(old[m as int][u as int]);
        }
    }
    assert forall|i: int, j: int|
        0 <= i < new.len() && 0 <= j < new[i].len() && #[trigger] new[i][j] implies first_from(
        g@,
        nul,
        i as usize,
    ).contains(j as usize) by {
        if !old[i][j] {
            let a = choose|a: int|
                0 <= a < g.rules@[i]@.len() && first_of_sequence(
                    nul,
                    assignment(old),
                    #[trigger] g.alternative(i, a),
                ).contains(j as usize);
            let w = g.alternative(i, a);
            lemma_first_of_tail_monotone(nul, nul, assignment(old), lfp, w, 0);
            assert(has_alternative(g@, i as usize, w));
            assert(first_of_sequence(nul, lfp, w).subset_of(lfp(i as usize)));
        }
    }
}

/// A table that a pass leaves as it is satisfies the FIRST equations.
proof fn lemma_first_fixed_closed(g: &IndexedGrammar, nul: Set<usize>, t: Seq<Seq<bool>>)
    requires
        g.wf(),
        shaped(t, g.rules@.len(), g.terminal_count as nat),
        first_stepped(g, nul, t, t, g.rules@.len() as int),
    ensures
        closed_under_first(g@, nul, assignment(t)),
{
    let f = assignment(t);
    assert forall|n: usize, w: Seq<Sym>| #[trigger] has_alternative(g@, n, w) implies first_of_sequence(
        nul,
        f,
        w,
    ).subset_of(f(n)) by {
        let a = choose|a: int|
            0 <= a < g.rules@[n as int]@.len() && #[trigger] g.alternative(n as int, a) == w;
        assert forall|j: usize| first_of_sequence(nul, f, w).contains(j) implies f(n).contains(
            j,
        ) by {
            lemma_first_in_range(g, nul, t, n as int, a, 0, j);
            assert(alternatives_begin_with(g, nul, f, n as int, j as int));
            assert(t[n as int][j as int]);
        }
    }
}

/// The FIRST sets relative to the nullable flags: entry `j` of row `i` says
/// whether terminal `j` is in FIRST of nonterminal `i`.
pub fn first_table(g: &IndexedGrammar, flags: &Vec<bool>) -> (table: Vec<Vec<bool>>)
    requires
        g.wf(),
        flags.len() == g.rules.len(),
    ensures
        shaped(rows(table@), g.rules.len() as nat, g.terminal_count as nat),
        forall|i: int, j: int|
            0 <= i < g.rules.len() && 0 <= j < g.terminal_count ==> #[trigger] rows(table@)[i][j]
                == first_from(g@, row_set(flags@), i as usize).contains(j as usize),
{
    let ghost nul = row_set(flags@);
    let mut table = cleared_table(g.rules.len(), g.terminal_count);
    let mut changed = true;
    while changed
        invariant
            nul == row_set(flags@),
            g.wf(),
            flags.len() == g.rules.len(),
            shaped(rows(table@), g.rules.len() as nat, g.terminal_count as nat),
            first_sound(g, nul, rows(table@)),
            !changed ==> closed_under_first(g@, nul, assignment(rows(table@))),
        decreases
            g.rules.len() * g.terminal_count - total_ones(rows(table@)),
            if changed { 1nat } else { 0nat },
    {
        let (next, c) = first_pass(g, flags, &table);
        proof {
            lemma_first_step_sound(g, nul, rows(table@), rows(next@));
            if !c {
                lemma_first_fixed_closed(g, nul, rows(table@));
            }
            lemma_total_ones_bounded(
                rows(table@),
                g.rules.len() as nat,
                g.terminal_count as nat,
            );
            lemma_total_ones_bounded(rows(next@), g.rules.len() as nat, g.terminal_count as nat);
        }
        table = next;
        changed = c;
    }
    assert forall|i: int, j: int|
        0 <= i < g.rules.len() && 0 <= j < g.terminal_count implies #[trigger] rows(table@)[i][j]
        == first_from(g@, row_set(flags@), i as usize).contains(j as usize) by {
        if first_from(g@, nul, i as usize).contains(j as usize) {
            assert(assignment(rows(table@))(i as usize).contains(j as usize));
        }
    }
    table
}

/// The occurrence at position `k` of alternative `a` of nonterminal `p` is one
/// of nonterminal `n`, and gives terminal `j` to its FOLLOW: `j` begins what
/// comes after the occurrence, or that can vanish and `fo` holds `j` for `p`.
pub open spec fn occurrence_gives(
    g: &IndexedGrammar,
    nul: Set<usize>,
    fi: spec_fn(usize) -> Set<usize>,
    fo: Seq<Seq<bool>>,
    n: int,
    p: int,
    a: int,
    k: int,
    j: int,
) -> bool {
    let w = g.alternative(p, a);
    &&& 0 <= p < g.rules@.len()
    &&& 0 <= a < g.rules@[p]@.len()
    &&& 0 <= k < w.len()
    &&& w[k] == Symbol::<usize, usize>::Nonterminal(n as usize)
    &&& (first_of_tail(nul, fi, w, k + 1).contains(j as usize) || (erasable_range(
        nul,
        w,
        k + 1,
        w.len() as int,
    ) && fo[p][j]))
}

/// Position `(p, a, k)` is visited before `(ph, ah, kh)`.
pub open spec fn comes_before(p: int, a: int, k: int, ph: int, ah: int, kh: int) -> bool {
    p < ph || (p == ph && (a < ah || (a == ah && k < kh)))
}

/// Some occurrence visited before `(ph, ah, kh)` gives `j` to FOLLOW of `n`.
pub open spec fn occurrences_give_upto(
    g: &IndexedGrammar,
    nul: Set<usize>,
    fi: spec_fn(usize) -> Set<usize>,
    fo: Seq<Seq<bool>>,
    n: int,
    j: int,
    ph: int,
    ah: int,
    kh: int,
) -> bool {
    exists|p: int, a: int, k: int|
        comes_before(p, a, k, ph, ah, kh) && #[trigger] occurrence_gives(
            g,
            nul,
            fi,
            fo,
            n,
            p,
            a,
            k,
            j,
        )
}

/// Some occurrence gives `j` to FOLLOW of `n`.
pub open spec fn occurrences_give(
    g: &IndexedGrammar,
    nul: Set<usize>,
    fi: spec_fn(usize) -> Set<usize>,
    fo: Seq<Seq<bool>>,
    n: int,
    j: int,
) -> bool {
    occurrences_give_upto(g, nul, fi, fo, n, j, g.rules@.len() as int, 0, 0)
}

/// Adds to `acc` what the occurrences of nonterminal `n` in alternative `a`
/// of nonterminal `p` give to FOLLOW of `n`, read off the tables as they
/// stand, and says whether `acc` changed.
pub fn calculate_follow(
    g: &IndexedGrammar,
    n: usize,
    p: usize,
    a: usize,
    flags: &Vec<bool>,
    first: &Vec<Vec<bool>>,
    follow: &Vec<Vec<bool>>,
    acc: &mut Vec<bool>,
    Ghost(start): Ghost<Seq<bool>>,
) -> (changed: bool)
    requires
        g.wf(),
        n < g.rules.len(),
        p < g.rules.len(),
        a < g.rules[p as int].len(),
        flags.len() == g.rules.len(),
        shaped(rows(first@), g.rules.len() as nat, g.terminal_count as nat),
        shaped(rows(follow@), g.rules.len() as nat, g.terminal_count as nat),
        old(acc).len() == g.terminal_count,
        forall|j: int|
            0 <= j < g.terminal_count ==> #[trigger] old(acc)@[j] == (start[j]
                || occurrences_give_upto(
                g,
                row_set(flags@),
                assignment(rows(first@)),
                rows(follow@),
                n as int,
                j,
                p as int,
                a as int,
                0,
            )),
    ensures
        final(acc).len() == g.terminal_count,
        forall|j: int|
            0 <= j < g.terminal_count ==> #[trigger] final(acc)@[j] == (start[j]
                || occurrences_give_upto(
                g,
                row_set(flags@),
                assignment(rows(first@)),
                rows(follow@),
                n as int,
                j,
                p as int,
                a as int + 1,
                0,
            )),
        !changed ==> final(acc)@ == old(acc)@,
        ones(final(acc)@) >= ones(old(acc)@),
        changed ==> ones(final(acc)@) > ones(old(acc)@),
{
    let w = &g.rules[p][a];
    let ghost nul = row_set(flags@);
    let ghost fi = assignment(rows(first@));
    let ghost fo = rows(follow@);
    let mut changed = false;
    let mut k: usize = 0;
    while k < w.len()
        invariant
            k <= w.len(),
            w@ == g.alternative(p as int, a as int),
            nul == row_set(flags@),
            fi == assignment(rows(first@)),
            fo == rows(follow@),
            g.wf(),
            n < g.rules.len(),
            p < g.rules.len(),
            a < g.rules[p as int].len(),
            flags.len() == g.rules.len(),
            shaped(rows(first@), g.rules.len() as nat, g.terminal_count as nat),
            shaped(rows(follow@), g.rules.len() as nat, g.terminal_count as nat),
            acc.len() == g.terminal_count,
            forall|j: int|
                0 <= j < g.terminal_count ==> #[trigger] acc@[j] == (start[j]
                    || occurrences_give_upto(g, nul, fi, fo, n as int, j, p as int, a as int, k as int)),
            !changed ==> acc@ == old(acc)@,
            ones(acc@) >= ones(old(acc)@),
            changed ==> ones(acc@) > ones(old(acc)@),
        decreases w.len() - k,
    {
        let ghost before = acc@;
        let here = match w[k] {
            Symbol::Nonterminal(x) => x == n,
            Symbol::Terminal(_) => false,
        };
        if here {
            let c1 = calculate_first(g, p, a, k + 1, flags, first, acc);
            let mut c2 = false;
            if tail_erasable(g, p, a, k + 1, flags) {
                assert(rows(follow@)[p as int] == follow@[p as int]@);
                c2 = union_into(acc, &follow[p]);
            }
            changed = changed || c1 || c2;
        }
        assert forall|j: int| 0 <= j < g.terminal_count implies #[trigger] acc@[j] == (start[j]
            || occurrences_give_upto(
            g,
            nul,
            fi,
            fo,
            n as int,
            j,
            p as int,
            a as int,
            k as int + 1,
        )) by {
            let gives = occurrence_gives(g, nul, fi, fo, n as int, p as int, a as int, k as int, j);
            assert(acc@[j] == (before[j] || gives));
            if occurrences_give_upto(g, nul, fi, fo, n as int, j, p as int, a as int, k as int + 1) {
                let (p2, a2, k2) = choose|p2: int, a2: int, k2: int|
                    comes_before(p2, a2, k2, p as int, a as int, k as int + 1)
                        && #[trigger] occurrence_gives(g, nul, fi, fo, n as int, p2, a2, k2, j);
                if !(p2 == p && a2 == a && k2 == k) {
                    assert(comes_before(p2, a2, k2, p as int, a as int, k as int));
                }
            }
            if gives {
                assert(comes_before(p as int, a as int, k as int, p as int, a as int, k as int + 1));
            }
        }
        k += 1;
    }
    assert forall|j: int| 0 <= j < g.terminal_count implies #[trigger] acc@[j] == (start[j]
        || occurrences_give_upto(g, nul, fi, fo, n as int, j, p as int, a as int + 1, 0)) by {
        let full = occurrences_give_upto(
            g,
            nul,
            fi,
            fo,
            n as int,
            j,
            p as int,
            a as int,
            w.len() as int,
        );
        let next = occurrences_give_upto(g, nul, fi, fo, n as int, j, p as int, a as int + 1, 0);
        if full {
            let (p2, a2, k2) = choose|p2: int, a2: int, k2: int|
                comes_before(p2, a2, k2, p as int, a as int, w.len() as int)
                    && #[trigger] occurrence_gives(g, nul, fi, fo, n as int, p2, a2, k2, j);
            assert(comes_before(p2, a2, k2, p as int, a as int + 1, 0));
        }
        if next {
            let (p2, a2, k2) = choose|p2: int, a2: int, k2: int|
                comes_before(p2, a2, k2, p as int, a as int + 1, 0) && #[trigger] occurrence_gives(
                    g,
                    nul,
                    fi,
                    fo,
                    n as int,
                    p2,
                    a2,
                    k2,
                    j,
                );
            assert(comes_before(p2, a2, k2, p as int, a as int, w.len() as int));
        }
    }
    changed
}

/// The row of nonterminal `n` after one more pass: what it held, and what
/// every occurrence of `n` in the grammar gives, read off the tables as they
/// stand.
pub fn follow_row(
    g: &IndexedGrammar,
    n: usize,
    flags: &Vec<bool>,
    first: &Vec<Vec<bool>>,
    follow: &Vec<Vec<bool>>,
) -> (r: (Vec<bool>, bool))
    requires
        g.wf(),
        n < g.rules.len(),
        flags.len() == g.rules.len(),
        shaped(rows(first@), g.rules.len() as nat, g.terminal_count as nat),
        shaped(rows(follow@), g.rules.len() as nat, g.terminal_count as nat),
    ensures
        r.0.len() == g.terminal_count,
        forall|j: int|
            0 <= j < g.terminal_count ==> #[trigger] r.0@[j] == (rows(follow@)[n as int][j]
                || occurrences_give(
                g,
                row_set(flags@),
                assignment(rows(first@)),
                rows(follow@),
                n as int,
                j,
            )),
        ones(r.0@) >= ones(rows(follow@)[n as int]),
        r.1 ==> ones(r.0@) > ones(rows(follow@)[n as int]),
        !r.1 ==> r.0@ == rows(follow@)[n as int],
{
    let ghost nul = row_set(flags@);
    let ghost fi = assignment(rows(first@));
    let ghost fo = rows(follow@);
    let ghost start = fo[n as int];
    assert(rows(follow@)[n as int] == follow@[n as int]@);
    let mut row = copy_row(&follow[n]);
    let mut changed = false;
    let mut p: usize = 0;
    assert forall|j: int| 0 <= j < g.terminal_count implies !occurrences_give_upto(
        g,
        nul,
        fi,
        fo,
        n as int,
        j,
        0,
        0,
        0,
    ) by {
        if occurrences_give_upto(g, nul, fi, fo, n as int, j, 0, 0, 0) {
            let (p2, a2, k2) = choose|p2: int, a2: int, k2: int|
                comes_before(p2, a2, k2, 0, 0, 0) && #[trigger] occurrence_gives(
                    g,
                    nul,
                    fi,
                    fo,
                    n as int,
                    p2,
                    a2,
                    k2,
                    j,
                );
        }
    }
    while p < g.rules.len()
        invariant
            p <= g.rules.len(),
            nul == row_set(flags@),
            fi == assignment(rows(first@)),
            fo == rows(follow@),
            start == fo[n as int],
            g.wf(),
            n < g.rules.len(),
            flags.len() == g.rules.len(),
            shaped(rows(first@), g.rules.len() as nat, g.terminal_count as nat),
            shaped(rows(follow@), g.rules.len() as nat, g.terminal_count as nat),
            row.len() == g.terminal_count,
            forall|j: int|
                0 <= j < g.terminal_count ==> #[trigger] row@[j] == (start[j]
                    || occurrences_give_upto(g, nul, fi, fo, n as int, j, p as int, 0, 0)),
            ones(row@) >= ones(start),
            changed ==> ones(row@) > ones(start),
            !changed ==> row@ == start,
        decreases g.rules.len() - p,
    {
        let mut a: usize = 0;
        while a < g.rules[p].len()
            invariant
                a <= g.rules[p as int].len(),
                p < g.rules.len(),
                nul == row_set(flags@),
                fi == assignment(rows(first@)),
                fo == rows(follow@),
                start == fo[n as int],
                g.wf(),
                n < g.rules.len(),
                flags.len() == g.rules.len(),
                shaped(rows(first@), g.rules.len() as nat, g.terminal_count as nat),
                shaped(rows(follow@), g.rules.len() as nat, g.terminal_count as nat),
                row.len() == g.terminal_count,
                forall|j: int|
                    0 <= j < g.terminal_count ==> #[trigger] row@[j] == (start[j]
                        || occurrences_give_upto(
                        g,
                        nul,
                        fi,
                        fo,
                        n as int,
                        j,
                        p as int,
                        a as int,
                        0,
                    )),
                ones(row@) >= ones(start),
                changed ==> ones(row@) > ones(start),
                !changed ==> row@ == start,
            decreases g.rules[p as int].len() - a,
        {
            let c = calculate_follow(g, n, p, a, flags, first, follow, &mut row, Ghost(start));
            changed = changed || c;
            a += 1;
        }
        assert forall|j: int| 0 <= j < g.terminal_count implies #[trigger] row@[j] == (start[j]
            || occurrences_give_upto(g, nul, fi, fo, n as int, j, p as int + 1, 0, 0)) by {
            let full = occurrences_give_upto(
                g,
                nul,
                fi,
                fo,
                n as int,
                j,
                p as int,
                g.rules[p as int].len() as int,
                0,
            );
            let next = occurrences_give_upto(g, nul, fi, fo, n as int, j, p as int + 1, 0, 0);
            if full {
                let (p2, a2, k2) = choose|p2: int, a2: int, k2: int|
                    comes_before(p2, a2, k2, p as int, g.rules[p as int].len() as int, 0)
                        && #[trigger] occurrence_gives(g, nul, fi, fo, n as int, p2, a2, k2, j);
                assert(comes_before(p2, a2, k2, p as int + 1, 0, 0));
            }
            if next {
                let (p2, a2, k2) = choose|p2: int, a2: int, k2: int|
                    comes_before(p2, a2, k2, p as int + 1, 0, 0) && #[trigger] occurrence_gives(
                        g,
                        nul,
                        fi,
                        fo,
                        n as int,
                        p2,
                        a2,
                        k2,
                        j,
                    );
                assert(comes_before(p2, a2, k2, p as int, g.rules[p as int].len() as int, 0));
            }
        }
        p += 1;
    }
    (row, changed)
}

/// Every terminal that `t` holds for a nonterminal is in its FOLLOW set.
pub open spec fn follow_sound(
    g: &IndexedGrammar,
    nul: Set<usize>,
    fi: spec_fn(usize) -> Set<usize>,
    t: Seq<Seq<bool>>,
) -> bool {
    forall|n: int, j: int|
        0 <= n < t.len() && 0 <= j < t[n].len() && #[trigger] t[n][j] ==> follow_from(
            g@,
            nul,
            fi,
            n as usize,
        ).contains(j as usize)
}

/// The rows of `new` below `upto` are those of `old` after one pass.
pub open spec fn follow_stepped(
    g: &IndexedGrammar,
    nul: Set<usize>,
    fi: spec_fn(usize) -> Set<usize>,
    old: Seq<Seq<bool>>,
    new: Seq<Seq<bool>>,
    upto: int,
) -> bool {
    forall|n: int, j: int|
        0 <= n < upto && 0 <= j < g.terminal_count ==> #[trigger] new[n][j] == (old[n][j]
            || occurrences_give(g, nul, fi, old, n, j))
}

/// One pass of the FOLLOW computation: every row anew from the table as it
/// stood before the pass.
pub fn follow_pass(
    g: &IndexedGrammar,
    flags: &Vec<bool>,
    first: &Vec<Vec<bool>>,
    follow: &Vec<Vec<bool>>,
) -> (r: (Vec<Vec<bool>>, bool))
    requires
        g.wf(),
        flags.len() == g.rules.len(),
        shaped(rows(first@), g.rules.len() as nat, g.terminal_count as nat),
        shaped(rows(follow@), g.rules.len() as nat, g.terminal_count as nat),
    ensures
        shaped(rows(r.0@), g.rules.len() as nat, g.terminal_count as nat),
        follow_stepped(
            g,
            row_set(flags@),
            assignment(rows(first@)),
            rows(follow@),
            rows(r.0@),
            g.rules.len() as int,
        ),
        total_ones(rows(r.0@)) >= total_ones(rows(follow@)),
        r.1 ==> total_ones(rows(r.0@)) > total_ones(rows(follow@)),
        !r.1 ==> rows(r.0@) == rows(follow@),
{
    let ghost nul = row_set(flags@);
    let ghost fi = assignment(rows(first@));
    let ghost old_t = rows(follow@);
    let mut next: Vec<Vec<bool>> = Vec::new();
    let mut changed = false;
    let mut n: usize = 0;
    assert(old_t.take(0) =~= rows(next@));
    while n < g.rules.len()
        invariant
            n <= g.rules.len(),
            next.len() == n,
            nul == row_set(flags@),
            fi == assignment(rows(first@)),
            old_t == rows(follow@),
            g.wf(),
            flags.len() == g.rules.len(),
            shaped(rows(first@), g.rules.len() as nat, g.terminal_count as nat),
            shaped(old_t, g.rules.len() as nat, g.terminal_count as nat),
            shaped(rows(next@), n as nat, g.terminal_count as nat),
            follow_stepped(g, nul, fi, old_t, rows(next@), n as int),
            total_ones(rows(next@)) >= total_ones(old_t.take(n as int)),
            changed ==> total_ones(rows(next@)) > total_ones(old_t.take(n as int)),
            !changed ==> rows(next@) == old_t.take(n as int),
        decreases g.rules.len() - n,
    {
        let ghost before = rows(next@);
        let (row, c) = follow_row(g, n, flags, first, follow);
        next.push(row);
        changed = changed || c;
        proof {
            assert(rows(next@) =~= before.push(row@));
            lemma_total_ones_push(before, row@);
            lemma_total_ones_take(old_t, n as int);
            if !changed {
                assert(rows(next@) =~= old_t.take(n as int + 1));
            }
        }
        n += 1;
    }
    assert(old_t.take(g.rules.len() as int) =~= old_t);
    (next, changed)
}

/// A pass keeps the table within the FOLLOW sets.
proof fn lemma_follow_step_sound(
    g: &IndexedGrammar,
    nul: Set<usize>,
    fi: spec_fn(usize) -> Set<usize>,
    old: Seq<Seq<bool>>,
    new: Seq<Seq<bool>>,
)
    requires
        g.wf(),
        shaped(old, g.rules@.len(), g.terminal_count as nat),
        shaped(new, g.rules@.len(), g.terminal_count as nat),
        follow_sound(g, nul, fi, old),
        follow_stepped(g, nul, fi, old, new, g.rules@.len() as int),
    ensures
        follow_sound(g, nul, fi, new),
{
    let lfp = follow_assignment(g@, nul, fi);
    lemma_follow_closed(g@, nul, fi);
    assert forall|n: int, j: int|
        0 <= n < new.len() && 0 <= j < new[n].len() && #[trigger] new[n][j] implies follow_from(
        g@,
        nul,
        fi,
        n as usize,
    ).contains(j as usize) by {
        if !old[n][j] {
            let (p, a, k) = choose|p: int, a: int, k: int|
                comes_before(p, a, k, g.rules@.len() as int, 0, 0) && #[trigger] occurrence_gives(
                    g,
                    nul,
                    fi,
                    old,
                    n,
                    p,
                    a,
                    k,
                    j,
                );
            let w = g.alternative(p, a);
            assert(has_alternative(g@, p as usize, w));
            assert(occurrence_respected(nul, fi, lfp, p as usize, w, k));
            if !first_of_tail(nul, fi, w, k + 1).contains(j as usize) {
                assert(old[p][j]);
                assert(lfp(p as usize).contains(j as usize));
            }
        }
    }
}

/// A table that a pass leaves as it is satisfies the FOLLOW conditions.
proof fn lemma_follow_fixed_closed(
    g: &IndexedGrammar,
    nul: Set<usize>,
    first: Seq<Seq<bool>>,
    t: Seq<Seq<bool>>,
)
    requires
        g.wf(),
        shaped(first, g.rules@.len(), g.terminal_count as nat),
        shaped(t, g.rules@.len(), g.terminal_count as nat),
        follow_stepped(g, nul, assignment(first), t, t, g.rules@.len() as int),
    ensures
        closed_under_follow(g@, nul, assignment(first), assignment(t)),
{
    let fi = assignment(first);
    let fo = assignment(t);
    assert forall|p: usize, w: Seq<Sym>, i: int|
        #![trigger has_alternative(g@, p, w), w[i]]
        has_alternative(g@, p, w) && 0 <= i < w.len() implies occurrence_respected(
        nul,
        fi,
        fo,
        p,
        w,
        i,
    ) by {
        let a = choose|a: int|
            0 <= a < g.rules@[p as int]@.len() && #[trigger] g.alternative(p as int, a) == w;
        assert(g.in_range(g.alternative(p as int, a)[i]));
        match w[i] {
            Symbol::Terminal(_) => {},
            Symbol::Nonterminal(n) => {
                assert forall|j: usize|
                    first_of_tail(nul, fi, w, i + 1).contains(j) implies #[trigger] fo(n).contains(
                    j,
                ) by {
                    lemma_first_in_range(g, nul, first, p as int, a, i + 1, j);
                    assert(occurrence_gives(g, nul, fi, t, n as int, p as int, a, i, j as int));
                    assert(comes_before(p as int, a, i, g.rules@.len() as int, 0, 0));
                    assert(t[n as int][j as int]);
                }
                if erasable_range(nul, w, i + 1, w.len() as int) {
                    assert forall|j: usize| fo(p).contains(j) implies #[trigger] fo(n).contains(
                        j,
                    ) by {
                        assert(occurrence_gives(
                            g,
                            nul,
                            fi,
                            t,
                            n as int,
                            p as int,
                            a,
                            i,
                            j as int,
                        ));
                        assert(comes_before(p as int, a, i, g.rules@.len() as int, 0, 0));
                        assert(t[n as int][j as int]);
                    }
                }
            },
        }
    }
}

/// The FOLLOW sets relative to the nullable flags and a table of FIRST sets:
/// entry `j` of row `n` says whether terminal `j` is in FOLLOW of
/// nonterminal `n`.
pub fn follow_table(g: &IndexedGrammar, flags: &Vec<bool>, first: &Vec<Vec<bool>>) -> (table: Vec<
    Vec<bool>,
>)
    requires
        g.wf(),
        flags.len() == g.rules.len(),
        shaped(rows(first@), g.rules.len() as nat, g.terminal_count as nat),
    ensures
        shaped(rows(table@), g.rules.len() as nat, g.terminal_count as nat),
        forall|n: int, j: int|
            0 <= n < g.rules.len() && 0 <= j < g.terminal_count ==> #[trigger] rows(table@)[n][j]
                == follow_from(
                g@,
                row_set(flags@),
                assignment(rows(first@)),
                n as usize,
            ).contains(j as usize),
{
    let ghost nul = row_set(flags@);
    let ghost fi = assignment(rows(first@));
    let mut table = cleared_table(g.rules.len(), g.terminal_count);
    let mut changed = true;
    while changed
        invariant
            nul == row_set(flags@),
            fi == assignment(rows(first@)),
            g.wf(),
            flags.len() == g.rules.len(),
            shaped(rows(first@), g.rules.len() as nat, g.terminal_count as nat),
            shaped(rows(table@), g.rules.len() as nat, g.terminal_count as nat),
            follow_sound(g, nul, fi, rows(table@)),
            !changed ==> closed_under_follow(g@, nul, fi, assignment(rows(table@))),
        decreases
            g.rules.len() * g.terminal_count - total_ones(rows(table@)),
            if changed { 1nat } else { 0nat },
    {
        let (next, c) = follow_pass(g, flags, first, &table);
        proof {
            lemma_follow_step_sound(g, nul, fi, rows(table@), rows(next@));
            if !c {
                lemma_follow_fixed_closed(g, nul, rows(first@), rows(table@));
            }
            lemma_total_ones_bounded(
                rows(table@),
                g.rules.len() as nat,
                g.terminal_count as nat,
            );
            lemma_total_ones_bounded(rows(next@), g.rules.len() as nat, g.terminal_count as nat);
        }
        table = next;
        changed = c;
    }
    assert forall|n: int, j: int|
        0 <= n < g.rules.len() && 0 <= j < g.terminal_count implies #[trigger] rows(table@)[n][j]
        == follow_from(g@, nul, fi, n as usize).contains(j as usize) by {
        if follow_from(g@, nul, fi, n as usize).contains(j as usize) {
            assert(assignment(rows(table@))(n as usize).contains(j as usize));
        }
    }
    table
}

} // verus!
