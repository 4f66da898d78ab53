//! Nullability, FIRST, FOLLOW and PREDICT of a grammar, computed.
//!
//! Each table is the least fixed point that [`crate::theory`] defines. The
//! computation starts from empty sets and repeats full passes over the
//! productions until a pass changes nothing.

use vstd::prelude::*;
use crate::bits::{assignment, copy_row, row_set, rows, shaped, union_into};
use crate::cfg::ContextFreeGrammar;
use crate::dense::{first_table, follow_table, nullable_flags};
use crate::lists::copy_list;
use crate::tables::{FirstTable, FollowTable, NullableTable, PredictTable, TerminalSets};
use crate::theory::{
    first, first_assignment, first_sets, follow_assignment, follow_from, nullable_set,
    predict_assignment, predict_from, table_of,
};
use crate::transfer::{
    lemma_first_transfer, lemma_follow_transfer, lemma_nullable_transfer, pushed, pushed_set,
};

verus! {

/// The four tables are what `compute_nullable`, `compute_first`,
/// `compute_follow` and `compute_predict_sets` return for the grammar when
/// each is handed the tables that came before it.
pub open spec fn analysis_of<T: Copy + PartialEq, N: Copy + PartialEq>(
    cfg: &ContextFreeGrammar<T, N>,
    nu: &NullableTable<N>,
    fi: &FirstTable<T, N>,
    fo: &FollowTable<T, N>,
    pr: &PredictTable<T, N>,
) -> bool {
    &&& nu.wf() && fi.wf() && fo.wf() && pr.wf()
    &&& nu.fits(cfg) && fi.fits(cfg) && fo.fits(cfg) && pr.fits(cfg)
    &&& nu@ == nullable_set(cfg@)
    &&& forall|n: N| #[trigger] fi.assignment()(n) == first(cfg@, n)
    &&& forall|n: N| #[trigger] fo.assignment()(n) == follow_from(cfg@, nu@, fi.assignment(), n)
    &&& forall|n: N|
        #[trigger] pr.assignment()(n) == predict_from(nu@, fi.assignment(), fo.assignment(), n)
}

/// For each nonterminal of the grammar, whether it can derive the empty
/// string.
pub fn compute_nullable<T: Copy + PartialEq, N: Copy + PartialEq>(
    cfg: &ContextFreeGrammar<T, N>,
) -> (r: NullableTable<N>)
    ensures
        r.wf(),
        r.fits(cfg),
        r@ == nullable_set(cfg@),
{
    proof {
        use_type_invariant(cfg);
    }
    let flags = nullable_flags(&cfg.dense);
    let r = NullableTable { nonterminals: copy_list(&cfg.nonterminals), flags };
    proof {
        lemma_nullable_transfer(cfg.terminals@, cfg.nonterminals@, &cfg.dense, cfg@);
        assert(r@ =~= pushed_set(cfg.nonterminals@, nullable_set(cfg.dense@)));
    }
    r
}

/// The FIRST set of each nonterminal of the grammar.
pub fn compute_first<T: Copy + PartialEq, N: Copy + PartialEq>(cfg: &ContextFreeGrammar<T, N>) -> (r:
    FirstTable<T, N>)
    ensures
        r.wf(),
        r.fits(cfg),
        forall|n: N| #[trigger] r.assignment()(n) == first(cfg@, n),
        r@ == table_of(cfg@.nonterminals, first_sets(cfg@)),
{
    proof {
        use_type_invariant(cfg);
    }
    let flags = nullable_flags(&cfg.dense);
    let sets = first_table(&cfg.dense, &flags);
    let r = TerminalSets {
        nonterminals: copy_list(&cfg.nonterminals),
        terminals: copy_list(&cfg.terminals),
        sets,
    };
    proof {
        let ts = cfg.terminals@;
        let ns = cfg.nonterminals@;
        let nul = row_set(flags@);
        lemma_nullable_transfer(ts, ns, &cfg.dense, cfg@);
        assert(pushed_set(ns, nul) =~= nullable_set(cfg@));
        assert forall|n: N| #[trigger] r.assignment()(n) == first(cfg@, n) by {
            lemma_first_transfer(ts, ns, &cfg.dense, cfg@, nul, n);
            assert(r.assignment()(n) =~= pushed(ts, ns, first_assignment(cfg.dense@, nul))(n));
        }
        assert(r@ =~= table_of(cfg@.nonterminals, first_sets(cfg@)));
    }
    r
}

/// The FOLLOW set of each nonterminal of the grammar, relative to the given
/// tables of FIRST sets and of nullability.
pub fn compute_follow<T: Copy + PartialEq, N: Copy + PartialEq>(
    cfg: &ContextFreeGrammar<T, N>,
    fi: &FirstTable<T, N>,
    nu: &NullableTable<N>,
) -> (r: FollowTable<T, N>)
    requires
        fi.fits(cfg),
        nu.fits(cfg),
    ensures
        r.wf(),
        r.fits(cfg),
        forall|n: N| #[trigger] r.assignment()(n) == follow_from(cfg@, nu@, fi.assignment(), n),
        r@ == table_of(cfg@.nonterminals, follow_assignment(cfg@, nu@, fi.assignment())),
{
    proof {
        use_type_invariant(cfg);
        use_type_invariant(fi);
        use_type_invariant(nu);
    }
    let sets = follow_table(&cfg.dense, &nu.flags, &fi.sets);
    let r = TerminalSets {
        nonterminals: copy_list(&cfg.nonterminals),
        terminals: copy_list(&cfg.terminals),
        sets,
    };
    proof {
        let ts = cfg.terminals@;
        let ns = cfg.nonterminals@;
        let nul = row_set(nu.flags@);
        let fd = assignment(rows(fi.sets@));
        assert forall|n: N| #[trigger] r.assignment()(n) == follow_from(
            cfg@,
            nu@,
            fi.assignment(),
            n,
        ) by {
            lemma_follow_transfer(ts, ns, &cfg.dense, cfg@, nul, fd, n);
            assert(r.assignment()(n) =~= pushed(ts, ns, follow_assignment(cfg.dense@, nul, fd))(n));
        }
        assert(r@ =~= table_of(cfg@.nonterminals, follow_assignment(cfg@, nu@, fi.assignment())));
    }
    r
}

/// The PREDICT set of each nonterminal of the grammar from the given tables:
/// its FIRST set, and its FOLLOW set too where it is nullable.
pub fn compute_predict_sets<T: Copy + PartialEq, N: Copy + PartialEq>(
    cfg: &ContextFreeGrammar<T, N>,
    fi: &FirstTable<T, N>,
    fo: &FollowTable<T, N>,
    nu: &NullableTable<N>,
) -> (r: PredictTable<T, N>)
    requires
        fi.fits(cfg),
        fo.fits(cfg),
        nu.fits(cfg),
    ensures
        r.wf(),
        r.fits(cfg),
        forall|n: N|
            #[trigger] r.assignment()(n) == predict_from(nu@, fi.assignment(), fo.assignment(), n),
        r@ == table_of(
            cfg@.nonterminals,
            predict_assignment(nu@, fi.assignment(), fo.assignment()),
        ),
{
    proof {
        use_type_invariant(cfg);
        use_type_invariant(fi);
        use_type_invariant(fo);
        use_type_invariant(nu);
    }
    let ghost ts = cfg.terminals@;
    let ghost ns = cfg.nonterminals@;
    let mut sets: Vec<Vec<bool>> = Vec::new();
    let mut i: usize = 0;
    while i < cfg.nonterminals.len()
        invariant
            i <= cfg.nonterminals.len(),
            sets.len() == i,
            ts == cfg.terminals@,
            ns == cfg.nonterminals@,
            nu.flags@.len() == ns.len(),
            shaped(rows(fi.sets@), ns.len(), ts.len()),
            shaped(rows(fo.sets@), ns.len(), ts.len()),
            shaped(rows(sets@), i as nat, ts.len()),
            forall|i2: int, j: int|
                0 <= i2 < i && 0 <= j < ts.len() ==> #[trigger] rows(sets@)[i2][j] == (rows(
                    fi.sets@,
                )[i2][j] || (nu.flags@[i2] && rows(fo.sets@)[i2][j])),
        decreases cfg.nonterminals.len() - i,
    {
        assert(rows(fi.sets@)[i as int] == fi.sets@[i as int]@);
        assert(rows(fo.sets@)[i as int] == fo.sets@[i as int]@);
        let mut row = copy_row(&fi.sets[i]);
        if nu.flags[i] {
            union_into(&mut row, &fo.sets[i]);
        }
        let ghost before = rows(sets@);
        sets.push(row);
        assert(rows(sets@) =~= before.push(row@));
        i += 1;
    }
    let r = TerminalSets {
        nonterminals: copy_list(&cfg.nonterminals),
        terminals: copy_list(&cfg.terminals),
        sets,
    };
    proof {
        let fid = assignment(rows(fi.sets@));
        let fod = assignment(rows(fo.sets@));
        let pd = assignment(rows(sets@));
        assert forall|n: N|
            #[trigger] r.assignment()(n) == predict_from(nu@, fi.assignment(), fo.assignment(), n) by {
            let want = predict_from(nu@, fi.assignment(), fo.assignment(), n);
            assert forall|t: T| r.assignment()(n).contains(t) implies want.contains(t) by {
                let (i2, j2) = choose|i2: int, j2: int|
                    0 <= i2 < ns.len() && 0 <= j2 < ts.len() && #[trigger] ns[i2] == n
                        && #[trigger] ts[j2] == t && pd(i2 as usize).contains(j2 as usize);
                assert(rows(sets@)[i2][j2]);
                if rows(fi.sets@)[i2][j2] {
                    assert(fid(i2 as usize).contains(j2 as usize));
                    assert(fi.assignment()(n).contains(t));
                } else {
                    assert(fod(i2 as usize).contains(j2 as usize));
                    assert(fo.assignment()(n).contains(t));
                    assert(row_set(nu.flags@).contains(i2 as usize));
                    assert(nu@.contains(n));
                }
            }
            assert forall|t: T| want.contains(t) implies r.assignment()(n).contains(t) by {
                if fi.assignment()(n).contains(t) {
                    let (i2, j2) = choose|i2: int, j2: int|
                        0 <= i2 < ns.len() && 0 <= j2 < ts.len() && #[trigger] ns[i2] == n
                            && #[trigger] ts[j2] == t && fid(i2 as usize).contains(j2 as usize);
                    assert(rows(sets@)[i2][j2]);
                    assert(pd(i2 as usize).contains(j2 as usize));
                } else {
                    let (i2, j2) = choose|i2: int, j2: int|
                        0 <= i2 < ns.len() && 0 <= j2 < ts.len() && #[trigger] ns[i2] == n
                            && #[trigger] ts[j2] == t && fod(i2 as usize).contains(j2 as usize);
                    let i3 = choose|i3: int|
                        0 <= i3 < ns.len() && #[trigger] ns[i3] == n && row_set(nu.flags@).contains(
                            i3 as usize,
                        );
                    assert(i2 == i3);
                    assert(rows(sets@)[i2][j2]);
                    assert(pd(i2 as usize).contains(j2 as usize));
                }
            }
            assert(r.assignment()(n) =~= want);
        }
        assert(r@ =~= table_of(
            cfg@.nonterminals,
            predict_assignment(nu@, fi.assignment(), fo.assignment()),
        ));
    }
    r
}

} // verus!
