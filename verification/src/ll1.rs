//! Whether a grammar is LL(1).
//!
//! Two rules decide it. The first asks that no two alternatives of a
//! nonterminal can begin with the same terminal. The second asks of every
//! nullable nonterminal that no terminal is both in its FIRST set and in its
//! FOLLOW set.

use vstd::prelude::*;
use crate::bits::{copy_row, intersects, rows};
use crate::cfg::{ContextFreeGrammar, GrammarView, Nonterminals, Productions, Symbol, Terminals};
use crate::compute::compute_predict_sets;
use crate::lists::copy_list;
use crate::dense::IndexedGrammar;
use crate::encoding::{decode_seq, lemma_decode_injective, represents, told};
use crate::memo::{clash, clashes, Memoize};
use crate::tables::{FirstTable, FollowTable, NullableTable, PredictTable, TerminalSets};
use crate::theory::{
    first, first_assignment, first_of_sequence, first_sets, follow, follow_assignment, follow_sets,
    has_alternative, nullable, nullable_set, predict_sets, table_of,
};
use crate::transfer::{
    lemma_first_of_tail_pushed, lemma_first_transfer, lemma_follow_transfer,
    lemma_nullable_transfer, pushed, pushed_set, sequence_in_range,
};

verus! {

/// Why a grammar is not LL(1).
#[derive(Debug, PartialEq, Eq)]
pub enum Error<N> {
    /// Two alternatives of the nonterminal can begin with the same terminal.
    Rule1(N),
    /// The nonterminal is nullable, and a terminal is both in its FIRST set
    /// and in its FOLLOW set.
    Rule2(N),
}

impl<N: Copy> Clone for Error<N> {
    fn clone(&self) -> (r: Self)
        ensures
            r == *self,
    {
        *self
    }
}

impl<N: Copy> Copy for Error<N> {

}

/// FIRST of the alternative `w` in the grammar `g`.
pub open spec fn alternative_first<T, N>(g: GrammarView<T, N>, w: Seq<Symbol<T, N>>) -> Set<T> {
    first_of_sequence(nullable_set(g), first_sets(g), w)
}

/// Two different alternatives of `n` can begin with the same terminal.
pub open spec fn rule1_violated<T, N>(g: GrammarView<T, N>, n: N) -> bool {
    exists|v: Seq<Symbol<T, N>>, w: Seq<Symbol<T, N>>, t: T|
        #![trigger has_alternative(g, n, v), has_alternative(g, n, w), alternative_first(g, v).contains(t)]
        has_alternative(g, n, v) && has_alternative(g, n, w) && v != w && alternative_first(
            g,
            v,
        ).contains(t) && alternative_first(g, w).contains(t)
}

/// `n` is nullable, and a terminal is both in FIRST(n) and in FOLLOW(n).
pub open spec fn rule2_violated<T, N>(g: GrammarView<T, N>, n: N) -> bool {
    nullable(g, n) && exists|t: T| #[trigger] first(g, n).contains(t) && follow(g, n).contains(t)
}

/// The rules that `n` violates, the first rule before the second.
pub open spec fn nonterminal_violations<T, N>(g: GrammarView<T, N>, n: N) -> Seq<Error<N>> {
    let one = if rule1_violated(g, n) {
        seq![Error::Rule1(n)]
    } else {
        Seq::<Error<N>>::empty()
    };
    let two = if rule2_violated(g, n) {
        seq![Error::Rule2(n)]
    } else {
        Seq::<Error<N>>::empty()
    };
    one + two
}

/// The violations of the nonterminals in `ns`, in their order.
pub open spec fn violations<T, N>(g: GrammarView<T, N>, ns: Seq<N>) -> Seq<Error<N>>
    decreases ns.len(),
{
    if ns.len() == 0 {
        Seq::empty()
    } else {
        violations(g, ns.drop_last()) + nonterminal_violations(g, ns.last())
    }
}

/// No declared nonterminal violates a rule.
pub open spec fn is_ll1<T, N>(g: GrammarView<T, N>) -> bool {
    forall|n: N| #[trigger]
        g.nonterminals.contains(n) ==> !rule1_violated(g, n) && !rule2_violated(g, n)
}

/// There are no violations exactly when no nonterminal of the list violates
/// a rule.
pub proof fn lemma_no_violations<T, N>(g: GrammarView<T, N>, ns: Seq<N>)
    ensures
        violations(g, ns).len() == 0 <==> forall|k: int|
            0 <= k < ns.len() ==> !rule1_violated(g, #[trigger] ns[k]) && !rule2_violated(g, ns[k]),
    decreases ns.len(),
{
    if ns.len() > 0 {
        lemma_no_violations(g, ns.drop_last());
        if violations(g, ns).len() == 0 {
            assert forall|k: int| 0 <= k < ns.len() implies !rule1_violated(g, #[trigger] ns[k])
                && !rule2_violated(g, ns[k]) by {
                if k < ns.len() - 1 {
                    assert(ns.drop_last()[k] == ns[k]);
                }
            }
        } else {
            if forall|k: int|
                0 <= k < ns.len() ==> !rule1_violated(g, #[trigger] ns[k]) && !rule2_violated(
                    g,
                    ns[k],
                ) {
                assert forall|k: int| 0 <= k < ns.drop_last().len() implies !rule1_violated(
                    g,
                    #[trigger] ns.drop_last()[k],
                ) && !rule2_violated(g, ns.drop_last()[k]) by {
                    assert(ns.drop_last()[k] == ns[k]);
                }
                assert(!rule1_violated(g, ns[ns.len() - 1]));
            }
        }
    }
}

/// The tables of the grammar told in indices stand for the tables of the
/// grammar.
pub proof fn lemma_memo_agrees<T, N>(
    ts: Seq<T>,
    ns: Seq<N>,
    d: &IndexedGrammar,
    g: GrammarView<T, N>,
    memo: &Memoize,
)
    requires
        represents(ts, ns, d, g),
        memo.wf(d),
    ensures
        pushed_set(ns, memo.nul()) == nullable_set(g),
        pushed(ts, ns, memo.fi()) == first_sets(g),
        pushed(ts, ns, memo.fo()) == follow_sets(g),
{
    let nul = memo.nul();
    lemma_nullable_transfer(ts, ns, d, g);
    assert(pushed_set(ns, nul) =~= pushed_set(ns, nullable_set(d@)));
    assert forall|n: N| #[trigger] pushed(ts, ns, memo.fi())(n) == first_sets(g)(n) by {
        lemma_first_transfer(ts, ns, d, g, nul, n);
        assert(pushed(ts, ns, memo.fi())(n) =~= pushed(ts, ns, first_assignment(d@, nul))(n));
    }
    assert(pushed(ts, ns, memo.fi()) =~= first_sets(g));
    assert forall|n: N| #[trigger] pushed(ts, ns, memo.fo())(n) == follow_sets(g)(n) by {
        lemma_follow_transfer(ts, ns, d, g, nul, memo.fi(), n);
        assert(pushed(ts, ns, memo.fo())(n) =~= pushed(
            ts,
            ns,
            follow_assignment(d@, nul, memo.fi()),
        )(n));
    }
    assert(pushed(ts, ns, memo.fo()) =~= follow_sets(g));
}

/// Two alternatives of nonterminal `i` clash in the grammar told in indices
/// exactly when the nonterminal violates the first rule.
pub proof fn lemma_rule1_transfer<T, N>(
    ts: Seq<T>,
    ns: Seq<N>,
    d: &IndexedGrammar,
    g: GrammarView<T, N>,
    memo: &Memoize,
    i: int,
)
    requires
        represents(ts, ns, d, g),
        memo.wf(d),
        0 <= i < ns.len(),
    ensures
        clashes(d, memo.nul(), memo.fi(), i) == rule1_violated(g, ns[i]),
{
    let nul = memo.nul();
    let f = memo.fi();
    lemma_memo_agrees(ts, ns, d, g, memo);
    if clashes(d, nul, f, i) {
        let (a, b, j) = choose|a: int, b: int, j: int|
            b < d.rules@[i]@.len() && #[trigger] clash(d, nul, f, i, a, b, j);
        let v = d.alternative(i, a);
        let w = d.alternative(i, b);
        let va = decode_seq::<T, N>(ts, ns, v);
        let wa = decode_seq::<T, N>(ts, ns, w);
        assert(sequence_in_range(d, v)) by {
            assert forall|k: int| 0 <= k < v.len() implies d.in_range(#[trigger] v[k]) by {
                assert(d.in_range(d.alternative(i, a)[k]));
            }
        }
        assert(sequence_in_range(d, w)) by {
            assert forall|k: int| 0 <= k < w.len() implies d.in_range(#[trigger] w[k]) by {
                assert(d.in_range(d.alternative(i, b)[k]));
            }
        }
        lemma_first_of_tail_pushed::<T, N>(ts, ns, d, nul, f, v, 0);
        lemma_first_of_tail_pushed::<T, N>(ts, ns, d, nul, f, w, 0);
        assert(has_alternative(g, ns[i], va));
        assert(has_alternative(g, ns[i], wa));
        if va == wa {
            lemma_decode_injective(ts, ns, d, v, w);
            assert(false);
        }
        assert(alternative_first(g, va).contains(ts[j]));
        assert(alternative_first(g, wa).contains(ts[j]));
        assert(rule1_violated(g, ns[i]));
    }
    if rule1_violated(g, ns[i]) {
        let (va, wa, t) = choose|va: Seq<Symbol<T, N>>, wa: Seq<Symbol<T, N>>, t: T|
            #![trigger has_alternative(g, ns[i], va), has_alternative(g, ns[i], wa), alternative_first(g, va).contains(t)]
            has_alternative(g, ns[i], va) && has_alternative(g, ns[i], wa) && va != wa
                && alternative_first(g, va).contains(t) && alternative_first(g, wa).contains(t);
        assert(told(ts, ns, d, ns[i], va));
        let (i1, a) = choose|i1: int, a: int|
            0 <= i1 < ns.len() && ns[i1] == ns[i] && 0 <= a < d.rules@[i1]@.len() && decode_seq(
                ts,
                ns,
                #[trigger] d.alternative(i1, a),
            ) == va;
        assert(told(ts, ns, d, ns[i], wa));
        let (i2, b) = choose|i2: int, b: int|
            0 <= i2 < ns.len() && ns[i2] == ns[i] && 0 <= b < d.rules@[i2]@.len() && decode_seq(
                ts,
                ns,
                #[trigger] d.alternative(i2, b),
            ) == wa;
        assert(i1 == i && i2 == i);
        let v = d.alternative(i, a);
        let w = d.alternative(i, b);
        assert(sequence_in_range(d, v)) by {
            assert forall|k: int| 0 <= k < v.len() implies d.in_range(#[trigger] v[k]) by {
                assert(d.in_range(d.alternative(i, a)[k]));
            }
        }
        assert(sequence_in_range(d, w)) by {
            assert forall|k: int| 0 <= k < w.len() implies d.in_range(#[trigger] w[k]) by {
                assert(d.in_range(d.alternative(i, b)[k]));
            }
        }
        lemma_first_of_tail_pushed::<T, N>(ts, ns, d, nul, f, v, 0);
        lemma_first_of_tail_pushed::<T, N>(ts, ns, d, nul, f, w, 0);
        let j1 = choose|j1: int|
            0 <= j1 < ts.len() && #[trigger] ts[j1] == t && first_of_sequence(nul, f, v).contains(
                j1 as usize,
            );
        let j2 = choose|j2: int|
            0 <= j2 < ts.len() && #[trigger] ts[j2] == t && first_of_sequence(nul, f, w).contains(
                j2 as usize,
            );
        assert(j1 == j2);
        assert(a != b);
        if a < b {
            assert(clash(d, nul, f, i, a, b, j1));
        } else {
            assert(clash(d, nul, f, i, b, a, j1));
        }
        assert(clashes(d, nul, f, i));
    }
}

/// Nonterminal `i` is nullable with a terminal in both of its sets in the
/// grammar told in indices exactly when it violates the second rule.
pub proof fn lemma_rule2_transfer<T, N>(
    ts: Seq<T>,
    ns: Seq<N>,
    d: &IndexedGrammar,
    g: GrammarView<T, N>,
    memo: &Memoize,
    i: int,
)
    requires
        represents(ts, ns, d, g),
        memo.wf(d),
        0 <= i < ns.len(),
    ensures
        (memo.generates_empty@[i] && exists|j: int|
            0 <= j < d.terminal_count && rows(memo.first@)[i][j] && rows(memo.follow@)[i][j])
            == rule2_violated(g, ns[i]),
{
    lemma_memo_agrees(ts, ns, d, g, memo);
    let n = ns[i];
    assert(nullable(g, n) == memo.generates_empty@[i]) by {
        if nullable_set(g).contains(n) {
            let i2 = choose|i2: int|
                0 <= i2 < ns.len() && #[trigger] ns[i2] == n && memo.nul().contains(i2 as usize);
            assert(i2 == i);
        }
        if memo.generates_empty@[i] {
            assert(ns[i] == n && memo.nul().contains(i as usize));
            assert(pushed_set(ns, memo.nul()).contains(n));
        }
    }
    assert(first(g, n) == pushed(ts, ns, memo.fi())(n));
    assert(follow(g, n) == pushed(ts, ns, memo.fo())(n));
    if exists|j: int|
        0 <= j < d.terminal_count && rows(memo.first@)[i][j] && rows(memo.follow@)[i][j] {
        let j = choose|j: int|
            0 <= j < d.terminal_count && rows(memo.first@)[i][j] && rows(memo.follow@)[i][j];
        assert(ns[i] == n && ts[j] == ts[j]);
        assert(memo.fi()(i as usize).contains(j as usize));
        assert(memo.fo()(i as usize).contains(j as usize));
        assert(first(g, n).contains(ts[j]) && follow(g, n).contains(ts[j]));
    }
    if exists|t: T| #[trigger] first(g, n).contains(t) && follow(g, n).contains(t) {
        let t = choose|t: T| #[trigger] first(g, n).contains(t) && follow(g, n).contains(t);
        let (i1, j1) = choose|i1: int, j1: int|
            0 <= i1 < ns.len() && 0 <= j1 < ts.len() && #[trigger] ns[i1] == n && #[trigger] ts[j1]
                == t && memo.fi()(i1 as usize).contains(j1 as usize);
        let (i2, j2) = choose|i2: int, j2: int|
            0 <= i2 < ns.len() && 0 <= j2 < ts.len() && #[trigger] ns[i2] == n && #[trigger] ts[j2]
                == t && memo.fo()(i2 as usize).contains(j2 as usize);
        assert(i1 == i && i2 == i && j1 == j2);
        assert(rows(memo.first@)[i][j1] && rows(memo.follow@)[i][j1]);
    }
}

/// A grammar that is LL(1), with its tables.
pub struct LL1<T: Copy + PartialEq, N: Copy + PartialEq> {
    /// The grammar.
    pub(crate) cfg: ContextFreeGrammar<T, N>,
    /// Which nonterminals are nullable.
    pub(crate) nullable: NullableTable<N>,
    /// The FIRST sets.
    pub(crate) first_sets: FirstTable<T, N>,
    /// The FOLLOW sets.
    pub(crate) follow_sets: FollowTable<T, N>,
    /// The PREDICT sets.
    pub(crate) predict_sets: PredictTable<T, N>,
}

impl<T: Copy + PartialEq, N: Copy + PartialEq> LL1<T, N> {
    /// What holds of every value that exists: the tables are those of the
    /// grammar, and the grammar violates no rule.
    #[verifier::type_invariant]
    pub open(crate) spec fn inv(self) -> bool {
        &&& self.cfg.inv()
        &&& self.nullable.fits(&self.cfg)
        &&& self.first_sets.fits(&self.cfg)
        &&& self.follow_sets.fits(&self.cfg)
        &&& self.predict_sets.fits(&self.cfg)
        &&& self.nullable@ == nullable_set(self.cfg@)
        &&& self.first_sets.assignment() == first_sets(self.cfg@)
        &&& self.follow_sets.assignment() == follow_sets(self.cfg@)
        &&& self.predict_sets.assignment() == predict_sets(self.cfg@)
        &&& is_ll1(self.cfg@)
    }

    /// The grammar that was found to be LL(1).
    pub open(crate) spec fn grammar(&self) -> ContextFreeGrammar<T, N> {
        self.cfg
    }

    /// The grammar as mathematics.
    pub open spec fn view(&self) -> GrammarView<T, N> {
        self.grammar()@
    }

    /// Applies the first rule to the `i`-th nonterminal of the grammar.
    pub(crate) fn llk_rule_1(tables: &Memoize, cfg: &ContextFreeGrammar<T, N>, i: usize) -> (r: Result<
        (),
        Error<N>,
    >)
        requires
            cfg.wf(),
            tables.wf(&cfg.dense),
            i < cfg.nonterminal_order().len(),
        ensures
            r == if rule1_violated(cfg@, cfg.nonterminal_order()[i as int]) {
                Err::<(), Error<N>>(Error::Rule1(cfg.nonterminal_order()[i as int]))
            } else {
                Ok::<(), Error<N>>(())
            },
    {
        proof {
            cfg.lemma_wf();
            lemma_rule1_transfer(
                cfg.terminals@,
                cfg.nonterminals@,
                &cfg.dense,
                cfg@,
                tables,
                i as int,
            );
        }
        if tables.alternatives_clash(&cfg.dense, i) {
            Err(Error::Rule1(cfg.nonterminals[i]))
        } else {
            Ok(())
        }
    }

    /// Applies the second rule to the `i`-th nonterminal of the grammar.
    pub(crate) fn llk_rule_2(tables: &Memoize, cfg: &ContextFreeGrammar<T, N>, i: usize) -> (r: Result<
        (),
        Error<N>,
    >)
        requires
            cfg.wf(),
            tables.wf(&cfg.dense),
            i < cfg.nonterminal_order().len(),
        ensures
            r == if rule2_violated(cfg@, cfg.nonterminal_order()[i as int]) {
                Err::<(), Error<N>>(Error::Rule2(cfg.nonterminal_order()[i as int]))
            } else {
                Ok::<(), Error<N>>(())
            },
    {
        proof {
            cfg.lemma_wf();
            lemma_rule2_transfer(
                cfg.terminals@,
                cfg.nonterminals@,
                &cfg.dense,
                cfg@,
                tables,
                i as int,
            );
        }
        assert(tables.generates_empty@[i as int] == nullable(cfg.dense@, i));
        if tables.nonterminal_generates_empty(&cfg.dense, i) {
            let first = tables.first_of_nonterminal(&cfg.dense, i);
            let follow = tables.follow_of_nonterminal(&cfg.dense, i);
            let hit = intersects(&first, &follow);
            proof {
                assert forall|j: int| 0 <= j < cfg.dense.terminal_count implies first@[j] == rows(
                    tables.first@,
                )[i as int][j] && follow@[j] == rows(tables.follow@)[i as int][j] by {}
                if hit {
                    let j = choose|j: int| 0 <= j < first.len() && first@[j] && follow@[j];
                    assert(rows(tables.first@)[i as int][j] && rows(tables.follow@)[i as int][j]);
                }
                if exists|j: int|
                    0 <= j < cfg.dense.terminal_count && rows(tables.first@)[i as int][j] && rows(
                        tables.follow@,
                    )[i as int][j] {
                    let j = choose|j: int|
                        0 <= j < cfg.dense.terminal_count && rows(tables.first@)[i as int][j]
                            && rows(tables.follow@)[i as int][j];
                    assert(first@[j] && follow@[j]);
                }
            }
            if hit {
                return Err(Error::Rule2(cfg.nonterminals[i]));
            }
        }
        Ok(())
    }

    /// Decides whether the grammar is LL(1).
    ///
    /// Every nonterminal is held to both rules, in the order in which the
    /// grammar keeps its nonterminals, and every violation is reported, for
    /// each nonterminal the first rule before the second. Where there is
    /// none, the grammar comes back with its tables.
    pub fn new(cfg: ContextFreeGrammar<T, N>) -> (r: Result<Self, Vec<Error<N>>>)
        ensures
            match r {
                Ok(ll1) => {
                    &&& ll1.grammar() == cfg
                    &&& violations(cfg@, cfg.nonterminal_order()).len() == 0
                    &&& is_ll1(cfg@)
                },
                Err(found) => {
                    &&& found@ == violations(cfg@, cfg.nonterminal_order())
                    &&& found@.len() > 0
                    &&& !is_ll1(cfg@)
                },
            },
    {
        proof {
            use_type_invariant(&cfg);
        }
        let tables = Memoize::new(&cfg.dense);
        let mut found: Vec<Error<N>> = Vec::new();
        let mut i: usize = 0;
        let ghost g = cfg@;
        let ghost ns = cfg.nonterminals@;
        assert(ns.take(0) =~= Seq::<N>::empty());
        while i < cfg.nonterminals.len()
            invariant
                i <= cfg.nonterminals.len(),
                g == cfg@,
                ns == cfg.nonterminals@,
                ns == cfg.nonterminal_order(),
                cfg.wf(),
                tables.wf(&cfg.dense),
                found@ == violations(g, ns.take(i as int)),
            decreases cfg.nonterminals.len() - i,
        {
            let ghost before = found@;
            let one = Self::llk_rule_1(&tables, &cfg, i);
            match one {
                Err(e) => {
                    found.push(e);
                },
                Ok(_) => {},
            }
            let two = Self::llk_rule_2(&tables, &cfg, i);
            match two {
                Err(e) => {
                    found.push(e);
                },
                Ok(_) => {},
            }
            proof {
                assert(ns.take(i as int + 1).drop_last() =~= ns.take(i as int));
                assert(ns.take(i as int + 1).last() == ns[i as int]);
                assert(found@ =~= before + nonterminal_violations(g, ns[i as int]));
            }
            i += 1;
        }
        proof {
            assert(ns.take(ns.len() as int) =~= ns);
            lemma_no_violations(g, ns);
            if found@.len() == 0 {
                assert forall|n: N| #[trigger] g.nonterminals.contains(n) implies !rule1_violated(
                    g,
                    n,
                ) && !rule2_violated(g, n) by {
                    let k = choose|k: int| 0 <= k < ns.len() && ns[k] == n;
                    assert(!rule1_violated(g, ns[k]));
                }
            } else {
                if is_ll1(g) {
                    assert forall|k: int| 0 <= k < ns.len() implies !rule1_violated(
                        g,
                        #[trigger] ns[k],
                    ) && !rule2_violated(g, ns[k]) by {
                        assert(g.nonterminals.contains(ns[k]));
                    }
                }
            }
        }
        if found.len() > 0 {
            return Err(found);
        }
        let nullable = NullableTable {
            nonterminals: copy_list(&cfg.nonterminals),
            flags: copy_row(&tables.generates_empty),
        };
        let first_table = TerminalSets {
            nonterminals: copy_list(&cfg.nonterminals),
            terminals: copy_list(&cfg.terminals),
            sets: tables.first,
        };
        let follow_table = TerminalSets {
            nonterminals: copy_list(&cfg.nonterminals),
            terminals: copy_list(&cfg.terminals),
            sets: tables.follow,
        };
        let predict_table = compute_predict_sets(&cfg, &first_table, &follow_table, &nullable);
        proof {
            lemma_memo_agrees(cfg.terminals@, cfg.nonterminals@, &cfg.dense, g, &tables);
            assert(predict_table.assignment() =~= predict_sets::<T, N>(g));
        }
        Ok(
            LL1 {
                cfg,
                nullable,
                first_sets: first_table,
                follow_sets: follow_table,
                predict_sets: predict_table,
            },
        )
    }

    /// The grammar.
    pub fn deref(&self) -> (r: &ContextFreeGrammar<T, N>)
        ensures
            *r == self.grammar(),
            r.wf(),
            is_ll1(r@),
    {
        proof {
            use_type_invariant(self);
        }
        &self.cfg
    }

    /// Which nonterminals are nullable.
    pub fn get_nullable(&self) -> (r: &NullableTable<N>)
        ensures
            r.fits(&self.grammar()),
            r@ == nullable_set(self@),
    {
        proof {
            use_type_invariant(self);
        }
        &self.nullable
    }

    /// The FIRST set of each nonterminal.
    pub fn get_first_sets(&self) -> (r: &FirstTable<T, N>)
        ensures
            r.fits(&self.grammar()),
            r.assignment() == first_sets(self@),
            r@ == table_of(self@.nonterminals, first_sets(self@)),
    {
        proof {
            use_type_invariant(self);
            use_type_invariant(&self.cfg);
            assert(self.first_sets@ =~= table_of(self@.nonterminals, first_sets(self@)));
        }
        &self.first_sets
    }

    /// The FOLLOW set of each nonterminal.
    pub fn get_follow_sets(&self) -> (r: &FollowTable<T, N>)
        ensures
            r.fits(&self.grammar()),
            r.assignment() == follow_sets(self@),
            r@ == table_of(self@.nonterminals, follow_sets(self@)),
    {
        proof {
            use_type_invariant(self);
            use_type_invariant(&self.cfg);
            assert(self.follow_sets@ =~= table_of(self@.nonterminals, follow_sets(self@)));
        }
        &self.follow_sets
    }

    /// The PREDICT set of each nonterminal.
    pub fn get_predict_sets(&self) -> (r: &PredictTable<T, N>)
        ensures
            r.fits(&self.grammar()),
            r.assignment() == predict_sets(self@),
            r@ == table_of(self@.nonterminals, predict_sets(self@)),
    {
        proof {
            use_type_invariant(self);
            use_type_invariant(&self.cfg);
            assert(self.predict_sets@ =~= table_of(self@.nonterminals, predict_sets(self@)));
        }
        &self.predict_sets
    }

    /// The terminals of the grammar.
    pub fn get_terminals(&self) -> (r: &Terminals<T>)
        ensures
            r@ == self.grammar().terminal_order(),
            r@.to_set() == self@.terminals,
    {
        self.cfg.get_terminals()
    }

    /// The nonterminals of the grammar.
    pub fn get_nonterminals(&self) -> (r: &Nonterminals<N>)
        ensures
            r@ == self.grammar().nonterminal_order(),
            r@.to_set() == self@.nonterminals,
    {
        self.cfg.get_nonterminals()
    }

    /// The entries that the grammar was made of.
    pub fn get_productions(&self) -> (r: &Productions<T, N>)
        ensures
            r@ == self.grammar().entries(),
    {
        self.cfg.get_productions()
    }
}

} // verus!
