//! What holds of the analysis of every grammar.

use vstd::prelude::*;
use crate::bits::{assignment, row_set};
use crate::cfg::{ContextFreeGrammar, GrammarView, Symbol};
use crate::tables::{NullableTable, TerminalSets};
use crate::theory::{
    begins_at, closed_under_first, closed_under_follow, first, first_from, first_of_sequence,
    first_of_tail, first_sets, follow, follow_from, has_alternative, nullable_set,
    occurrence_respected, predict, symbol_declared, well_formed,
};

verus! {

/// The assignment that gives every nonterminal all the terminals.
pub open spec fn all_terminals<T, N>(g: GrammarView<T, N>) -> spec_fn(N) -> Set<T> {
    |n: N| g.terminals
}

/// In a well-formed grammar, FIRST of a tail of an alternative holds declared
/// terminals only, where the assignment does.
pub proof fn lemma_first_of_tail_declared<T, N>(
    g: GrammarView<T, N>,
    nul: Set<N>,
    f: spec_fn(N) -> Set<T>,
    n: N,
    w: Seq<Symbol<T, N>>,
    lo: int,
)
    requires
        well_formed(g),
        has_alternative(g, n, w),
        0 <= lo,
        forall|m: N| (#[trigger] f(m)).subset_of(g.terminals),
    ensures
        first_of_tail(nul, f, w, lo).subset_of(g.terminals),
{
    assert forall|t: T| first_of_tail(nul, f, w, lo).contains(t) implies g.terminals.contains(t) by {
        let k = choose|k: int| #[trigger] begins_at(nul, f, w, lo, k, t);
        assert(symbol_declared(g, w[k]));
        match w[k] {
            Symbol::Terminal(_) => {},
            Symbol::Nonterminal(m) => {
                assert(f(m).subset_of(g.terminals));
            },
        }
    }
}

/// In a well-formed grammar, FIRST relative to any nullable set holds
/// declared terminals only.
pub proof fn lemma_first_from_declared<T, N>(g: GrammarView<T, N>, nul: Set<N>, n: N)
    requires
        well_formed(g),
    ensures
        first_from(g, nul, n).subset_of(g.terminals),
{
    let all = all_terminals(g);
    assert forall|m: N, w: Seq<Symbol<T, N>>| #[trigger]
        has_alternative(g, m, w) implies first_of_sequence(nul, all, w).subset_of(all(m)) by {
        lemma_first_of_tail_declared(g, nul, all, m, w, 0);
    }
    assert(closed_under_first(g, nul, all));
    assert forall|t: T| first_from(g, nul, n).contains(t) implies g.terminals.contains(t) by {
        assert(all(n).contains(t));
    }
}

/// In a well-formed grammar, FOLLOW relative to any nullable set and to any
/// assignment of FIRST sets of declared terminals holds declared terminals
/// only.
pub proof fn lemma_follow_from_declared<T, N>(
    g: GrammarView<T, N>,
    nul: Set<N>,
    fi: spec_fn(N) -> Set<T>,
    n: N,
)
    requires
        well_formed(g),
        forall|m: N| (#[trigger] fi(m)).subset_of(g.terminals),
    ensures
        follow_from(g, nul, fi, n).subset_of(g.terminals),
{
    let all = all_terminals(g);
    assert forall|p: N, w: Seq<Symbol<T, N>>, i: int|
        #![trigger has_alternative(g, p, w), w[i]]
        has_alternative(g, p, w) && 0 <= i < w.len() implies occurrence_respected(
        nul,
        fi,
        all,
        p,
        w,
        i,
    ) by {
        lemma_first_of_tail_declared(g, nul, fi, p, w, i + 1);
    }
    assert(closed_under_follow(g, nul, fi, all));
    assert forall|t: T| follow_from(g, nul, fi, n).contains(t) implies g.terminals.contains(t) by {
        assert(all(n).contains(t));
    }
}

/// FIRST of every nonterminal of a grammar is a set of terminals of the
/// grammar.
pub proof fn law_first_within_terminals<T: Copy + PartialEq, N: Copy + PartialEq>(
    cfg: ContextFreeGrammar<T, N>,
    n: N,
)
    requires
        cfg.wf(),
    ensures
        first(cfg@, n).subset_of(cfg@.terminals),
{
    cfg.lemma_wf();
    lemma_first_from_declared(cfg@, nullable_set(cfg@), n);
}

/// FOLLOW of every nonterminal of a grammar is a set of terminals of the
/// grammar.
pub proof fn law_follow_within_terminals<T: Copy + PartialEq, N: Copy + PartialEq>(
    cfg: ContextFreeGrammar<T, N>,
    n: N,
)
    requires
        cfg.wf(),
    ensures
        follow(cfg@, n).subset_of(cfg@.terminals),
{
    cfg.lemma_wf();
    assert forall|m: N| (#[trigger] first_sets(cfg@)(m)).subset_of(cfg@.terminals) by {
        lemma_first_from_declared(cfg@, nullable_set(cfg@), m);
    }
    lemma_follow_from_declared(cfg@, nullable_set(cfg@), first_sets(cfg@), n);
}

/// PREDICT of every nonterminal of a grammar is a set of terminals of the
/// grammar.
pub proof fn law_predict_within_terminals<T: Copy + PartialEq, N: Copy + PartialEq>(
    cfg: ContextFreeGrammar<T, N>,
    n: N,
)
    requires
        cfg.wf(),
    ensures
        predict(cfg@, n).subset_of(cfg@.terminals),
{
    law_first_within_terminals(cfg, n);
    law_follow_within_terminals(cfg, n);
}

/// Two tables of sets that are laid out alike and give every nonterminal the
/// same set are the same table, flag for flag.
pub proof fn law_sets_determine_table<T: Copy + PartialEq, N: Copy + PartialEq>(
    a: TerminalSets<T, N>,
    b: TerminalSets<T, N>,
)
    requires
        a.wf(),
        b.wf(),
        a.keys() == b.keys(),
        a.columns() == b.columns(),
        forall|n: N| #[trigger] a.assignment()(n) == b.assignment()(n),
    ensures
        a.bits() == b.bits(),
        a@ == b@,
{
    let ns = a.keys();
    let ts = a.columns();
    assert forall|i: int, j: int| 0 <= i < ns.len() && 0 <= j < ts.len() implies a.bits()[i][j]
        == b.bits()[i][j] by {
        lemma_flag(a, i, j);
        lemma_flag(b, i, j);
    }
    assert forall|i: int| 0 <= i < ns.len() implies #[trigger] a.bits()[i] == b.bits()[i] by {
        assert(a.bits()[i] =~= b.bits()[i]);
    }
    assert(a.bits() =~= b.bits());
    assert(a@ =~= b@);
}

/// A flag of a table says whether the set of its nonterminal holds its
/// terminal.
proof fn lemma_flag<T: Copy + PartialEq, N: Copy + PartialEq>(a: TerminalSets<T, N>, i: int, j: int)
    requires
        a.wf(),
        0 <= i < a.keys().len(),
        0 <= j < a.columns().len(),
    ensures
        a.bits()[i][j] == a.assignment()(a.keys()[i]).contains(a.columns()[j]),
{
    let ns = a.keys();
    let ts = a.columns();
    let f = assignment(a.bits());
    assert(a.nonterminals.len() == ns.len() && a.terminals.len() == ts.len());
    if a.bits()[i][j] {
        assert(ns[i] == ns[i] && ts[j] == ts[j]);
        assert(f(i as usize).contains(j as usize));
    }
    if a.assignment()(ns[i]).contains(ts[j]) {
        let (i2, j2) = choose|i2: int, j2: int|
            0 <= i2 < ns.len() && 0 <= j2 < ts.len() && #[trigger] ns[i2] == ns[i]
                && #[trigger] ts[j2] == ts[j] && f(i2 as usize).contains(j2 as usize);
        assert(i2 == i && j2 == j);
    }
}

/// Two tables of nullability that are laid out alike and hold the same
/// nonterminals to be nullable are the same table, flag for flag.
pub proof fn law_nullable_determines_table<N: Copy + PartialEq>(
    a: NullableTable<N>,
    b: NullableTable<N>,
)
    requires
        a.wf(),
        b.wf(),
        a.keys() == b.keys(),
        a@ == b@,
    ensures
        a.bits() == b.bits(),
{
    let ns = a.keys();
    assert forall|i: int| 0 <= i < ns.len() implies a.bits()[i] == b.bits()[i] by {
        lemma_nullable_flag(a, i);
        lemma_nullable_flag(b, i);
    }
    assert(a.bits() =~= b.bits());
}

/// A flag of a table of nullability says whether the table holds its
/// nonterminal to be nullable.
proof fn lemma_nullable_flag<N: Copy + PartialEq>(a: NullableTable<N>, i: int)
    requires
        a.wf(),
        0 <= i < a.keys().len(),
    ensures
        a.bits()[i] == a@.contains(a.keys()[i]),
{
    let ns = a.keys();
    assert(a.nonterminals.len() == ns.len());
    if a.bits()[i] {
        assert(ns[i] == ns[i] && row_set(a.bits()).contains(i as usize));
    }
    if a@.contains(ns[i]) {
        let i2 = choose|i2: int|
            0 <= i2 < ns.len() && #[trigger] ns[i2] == ns[i] && row_set(a.bits()).contains(
                i2 as usize,
            );
        assert(i2 == i);
    }
}

/// The analysis is a function of the grammar: whatever two runs of it on the
/// same grammar return as nullability, FIRST, FOLLOW and PREDICT, the tables
/// of the one run are those of the other, flag for flag.
pub proof fn law_analysis_is_deterministic<T: Copy + PartialEq, N: Copy + PartialEq>(
    cfg: ContextFreeGrammar<T, N>,
    nullable1: NullableTable<N>,
    first1: TerminalSets<T, N>,
    follow1: TerminalSets<T, N>,
    predict1: TerminalSets<T, N>,
    nullable2: NullableTable<N>,
    first2: TerminalSets<T, N>,
    follow2: TerminalSets<T, N>,
    predict2: TerminalSets<T, N>,
)
    requires
        cfg.wf(),
        crate::compute::analysis_of(&cfg, &nullable1, &first1, &follow1, &predict1),
        crate::compute::analysis_of(&cfg, &nullable2, &first2, &follow2, &predict2),
    ensures
        nullable1.bits() == nullable2.bits(),
        first1.bits() == first2.bits(),
        follow1.bits() == follow2.bits(),
        predict1.bits() == predict2.bits(),
{
    law_nullable_determines_table(nullable1, nullable2);
    law_sets_determine_table(first1, first2);
    assert(first1.assignment() =~= first2.assignment());
    law_sets_determine_table(follow1, follow2);
    assert(follow1.assignment() =~= follow2.assignment());
    law_sets_determine_table(predict1, predict2);
}

} // verus!
