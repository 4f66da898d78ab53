//! What nullability, FIRST, FOLLOW and PREDICT are.
//!
//! Each notion is the least solution of a closure condition over the
//! productions of a grammar: a nonterminal is nullable when it lies in every
//! set closed under erasure, a terminal is in FIRST(n) when every assignment
//! closed under the FIRST equations puts it there, and likewise for FOLLOW.
//! No iteration order or table layout enters these definitions.

use vstd::prelude::*;
use crate::cfg::{GrammarView, Symbol};

verus! {

/// `w` is one of the alternatives of `n`.
pub open spec fn has_alternative<T, N>(g: GrammarView<T, N>, n: N, w: Seq<Symbol<T, N>>) -> bool {
    g.productions.dom().contains(n) && g.productions[n].contains(w)
}

/// `x` is a nonterminal that belongs to `s`.
pub open spec fn is_nonterminal_in<T, N>(s: Set<N>, x: Symbol<T, N>) -> bool {
    match x {
        Symbol::Nonterminal(m) => s.contains(m),
        Symbol::Terminal(_) => false,
    }
}

/// Every symbol of `w` at a position in `lo..hi` is a nonterminal of `s`.
pub open spec fn erasable_range<T, N>(s: Set<N>, w: Seq<Symbol<T, N>>, lo: int, hi: int) -> bool {
    forall|k: int| lo <= k < hi ==> is_nonterminal_in(s, #[trigger] w[k])
}

/// Every symbol of `w` is a nonterminal of `s`; the empty sequence qualifies.
pub open spec fn all_erasable<T, N>(s: Set<N>, w: Seq<Symbol<T, N>>) -> bool {
    erasable_range(s, w, 0, w.len() as int)
}

/// `s` holds every nonterminal one of whose alternatives consists of
/// nonterminals of `s` alone.
pub open spec fn closed_under_erasure<T, N>(g: GrammarView<T, N>, s: Set<N>) -> bool {
    forall|n: N, w: Seq<Symbol<T, N>>| #[trigger]
        has_alternative(g, n, w) && all_erasable(s, w) ==> s.contains(n)
}

/// `n` can derive the empty string.
pub open spec fn nullable<T, N>(g: GrammarView<T, N>, n: N) -> bool {
    forall|s: Set<N>| #[trigger] closed_under_erasure(g, s) ==> s.contains(n)
}

/// The nonterminals that can derive the empty string.
pub open spec fn nullable_set<T, N>(g: GrammarView<T, N>) -> Set<N> {
    Set::new(|n: N| nullable(g, n))
}

/// What a single symbol contributes to a FIRST set: a terminal itself, a
/// nonterminal what `f` assigns to it.
pub open spec fn symbol_first<T, N>(f: spec_fn(N) -> Set<T>, x: Symbol<T, N>) -> Set<T> {
    match x {
        Symbol::Terminal(t) => set![t],
        Symbol::Nonterminal(m) => f(m),
    }
}

/// Position `k` of `w` can begin what `w` derives from position `lo` on, and
/// contributes `t`: everything in `lo..k` is erasable.
pub open spec fn begins_at<T, N>(
    nul: Set<N>,
    f: spec_fn(N) -> Set<T>,
    w: Seq<Symbol<T, N>>,
    lo: int,
    k: int,
    t: T,
) -> bool {
    lo <= k < w.len() && erasable_range(nul, w, lo, k) && symbol_first(f, w[k]).contains(t)
}

/// FIRST of the part of `w` that starts at position `lo`, relative to the
/// nullable set `nul` and the assignment `f`.
pub open spec fn first_of_tail<T, N>(
    nul: Set<N>,
    f: spec_fn(N) -> Set<T>,
    w: Seq<Symbol<T, N>>,
    lo: int,
) -> Set<T> {
    Set::new(|t: T| exists|k: int| #[trigger] begins_at(nul, f, w, lo, k, t))
}

/// FIRST of a sequence of symbols. The empty sequence contributes nothing.
pub open spec fn first_of_sequence<T, N>(
    nul: Set<N>,
    f: spec_fn(N) -> Set<T>,
    w: Seq<Symbol<T, N>>,
) -> Set<T> {
    first_of_tail(nul, f, w, 0)
}

/// `f` assigns to every nonterminal at least the FIRST of each of its
/// alternatives.
pub open spec fn closed_under_first<T, N>(
    g: GrammarView<T, N>,
    nul: Set<N>,
    f: spec_fn(N) -> Set<T>,
) -> bool {
    forall|n: N, w: Seq<Symbol<T, N>>| #[trigger]
        has_alternative(g, n, w) ==> first_of_sequence(nul, f, w).subset_of(f(n))
}

/// FIRST(n) relative to a nullable set: what every closed assignment gives `n`.
pub open spec fn first_from<T, N>(g: GrammarView<T, N>, nul: Set<N>, n: N) -> Set<T> {
    Set::new(
        |t: T|
            forall|f: spec_fn(N) -> Set<T>| #[trigger]
                closed_under_first(g, nul, f) ==> f(n).contains(t),
    )
}

/// The assignment of FIRST sets relative to a nullable set.
pub open spec fn first_assignment<T, N>(g: GrammarView<T, N>, nul: Set<N>) -> spec_fn(N) -> Set<T> {
    |n: N| first_from(g, nul, n)
}

/// FIRST(n): the terminals that can begin a string derived from `n`.
pub open spec fn first<T, N>(g: GrammarView<T, N>, n: N) -> Set<T> {
    first_from(g, nullable_set(g), n)
}

/// The assignment of FIRST sets of a grammar.
pub open spec fn first_sets<T, N>(g: GrammarView<T, N>) -> spec_fn(N) -> Set<T> {
    first_assignment(g, nullable_set(g))
}

/// What the occurrence of a nonterminal at position `i` of the alternative
/// `w` of `p` asks of `fo`: FIRST of what follows it, and FOLLOW of `p` as
/// well where what follows can vanish.
pub open spec fn occurrence_respected<T, N>(
    nul: Set<N>,
    fi: spec_fn(N) -> Set<T>,
    fo: spec_fn(N) -> Set<T>,
    p: N,
    w: Seq<Symbol<T, N>>,
    i: int,
) -> bool {
    match w[i] {
        Symbol::Nonterminal(n) => {
            &&& first_of_tail(nul, fi, w, i + 1).subset_of(fo(n))
            &&& erasable_range(nul, w, i + 1, w.len() as int) ==> fo(p).subset_of(fo(n))
        },
        Symbol::Terminal(_) => true,
    }
}

/// `fo` respects every occurrence of a nonterminal in every alternative.
pub open spec fn closed_under_follow<T, N>(
    g: GrammarView<T, N>,
    nul: Set<N>,
    fi: spec_fn(N) -> Set<T>,
    fo: spec_fn(N) -> Set<T>,
) -> bool {
    forall|p: N, w: Seq<Symbol<T, N>>, i: int|
        #![trigger has_alternative(g, p, w), w[i]]
        has_alternative(g, p, w) && 0 <= i < w.len() ==> occurrence_respected(nul, fi, fo, p, w, i)
}

/// FOLLOW(n) relative to a nullable set and an assignment of FIRST sets.
pub open spec fn follow_from<T, N>(
    g: GrammarView<T, N>,
    nul: Set<N>,
    fi: spec_fn(N) -> Set<T>,
    n: N,
) -> Set<T> {
    Set::new(
        |t: T|
            forall|fo: spec_fn(N) -> Set<T>| #[trigger]
                closed_under_follow(g, nul, fi, fo) ==> fo(n).contains(t),
    )
}

/// The assignment of FOLLOW sets relative to a nullable set and an
/// assignment of FIRST sets.
pub open spec fn follow_assignment<T, N>(
    g: GrammarView<T, N>,
    nul: Set<N>,
    fi: spec_fn(N) -> Set<T>,
) -> spec_fn(N) -> Set<T> {
    |n: N| follow_from(g, nul, fi, n)
}

/// FOLLOW(n): the terminals that can come right after `n` in a sentential form.
pub open spec fn follow<T, N>(g: GrammarView<T, N>, n: N) -> Set<T> {
    follow_from(g, nullable_set(g), first_sets(g), n)
}

/// The assignment of FOLLOW sets of a grammar.
pub open spec fn follow_sets<T, N>(g: GrammarView<T, N>) -> spec_fn(N) -> Set<T> {
    follow_assignment(g, nullable_set(g), first_sets(g))
}

/// PREDICT(n) from given sets: FIRST(n), and FOLLOW(n) too where `n` is nullable.
pub open spec fn predict_from<T, N>(
    nul: Set<N>,
    fi: spec_fn(N) -> Set<T>,
    fo: spec_fn(N) -> Set<T>,
    n: N,
) -> Set<T> {
    if nul.contains(n) {
        fi(n).union(fo(n))
    } else {
        fi(n)
    }
}

/// The assignment of PREDICT sets from given sets.
pub open spec fn predict_assignment<T, N>(
    nul: Set<N>,
    fi: spec_fn(N) -> Set<T>,
    fo: spec_fn(N) -> Set<T>,
) -> spec_fn(N) -> Set<T> {
    |n: N| predict_from(nul, fi, fo, n)
}

/// The assignment of PREDICT sets of a grammar.
pub open spec fn predict_sets<T, N>(g: GrammarView<T, N>) -> spec_fn(N) -> Set<T> {
    predict_assignment(nullable_set(g), first_sets(g), follow_sets(g))
}

/// What `f` assigns to the nonterminals in `keys`, as a table.
pub open spec fn table_of<T, N>(keys: Set<N>, f: spec_fn(N) -> Set<T>) -> Map<N, Set<T>> {
    Map::new(|n: N| keys.contains(n), |n: N| f(n))
}

/// PREDICT(n): the lookahead terminals on which a predictive parser expands `n`.
pub open spec fn predict<T, N>(g: GrammarView<T, N>, n: N) -> Set<T> {
    predict_from(nullable_set(g), first_sets(g), follow_sets(g), n)
}

/// Every production has a declared left-hand side and declared symbols, and
/// every declared nonterminal has an entry among the productions.
pub open spec fn well_formed<T, N>(g: GrammarView<T, N>) -> bool {
    &&& forall|n: N, w: Seq<Symbol<T, N>>| #[trigger]
        has_alternative(g, n, w) ==> g.nonterminals.contains(n)
    &&& forall|n: N, w: Seq<Symbol<T, N>>, k: int|
        #![trigger has_alternative(g, n, w), w[k]]
        has_alternative(g, n, w) && 0 <= k < w.len() ==> symbol_declared(g, w[k])
    &&& forall|n: N| #[trigger] g.nonterminals.contains(n) ==> g.productions.dom().contains(n)
}

/// `x` belongs to the alphabet of its kind.
pub open spec fn symbol_declared<T, N>(g: GrammarView<T, N>, x: Symbol<T, N>) -> bool {
    match x {
        Symbol::Terminal(t) => g.terminals.contains(t),
        Symbol::Nonterminal(m) => g.nonterminals.contains(m),
    }
}

/// The part of FIRST of the tail of `w` from `lo` that positions below `hi`
/// contribute.
pub open spec fn first_upto<T, N>(
    nul: Set<N>,
    f: spec_fn(N) -> Set<T>,
    w: Seq<Symbol<T, N>>,
    lo: int,
    hi: int,
) -> Set<T> {
    Set::new(|t: T| exists|k: int| k < hi && #[trigger] begins_at(nul, f, w, lo, k, t))
}

/// Positions below `lo` contribute nothing.
pub proof fn lemma_first_upto_empty<T, N>(
    nul: Set<N>,
    f: spec_fn(N) -> Set<T>,
    w: Seq<Symbol<T, N>>,
    lo: int,
)
    ensures
        first_upto(nul, f, w, lo, lo) =~= Set::<T>::empty(),
{
}

/// All positions together contribute FIRST of the tail.
pub proof fn lemma_first_upto_all<T, N>(
    nul: Set<N>,
    f: spec_fn(N) -> Set<T>,
    w: Seq<Symbol<T, N>>,
    lo: int,
)
    ensures
        first_upto(nul, f, w, lo, w.len() as int) =~= first_of_tail(nul, f, w, lo),
{
}

/// A position that is reached contributes what its symbol contributes.
pub proof fn lemma_first_upto_step<T, N>(
    nul: Set<N>,
    f: spec_fn(N) -> Set<T>,
    w: Seq<Symbol<T, N>>,
    lo: int,
    k: int,
)
    requires
        lo <= k < w.len(),
        erasable_range(nul, w, lo, k),
    ensures
        first_upto(nul, f, w, lo, k + 1) =~= first_upto(nul, f, w, lo, k).union(
            symbol_first(f, w[k]),
        ),
{
    let left = first_upto(nul, f, w, lo, k + 1);
    let right = first_upto(nul, f, w, lo, k).union(symbol_first(f, w[k]));
    assert forall|t: T| left.contains(t) implies right.contains(t) by {
        let k2 = choose|k2: int| k2 < k + 1 && #[trigger] begins_at(nul, f, w, lo, k2, t);
        if k2 < k {
            assert(first_upto(nul, f, w, lo, k).contains(t));
        }
    }
    assert forall|t: T| right.contains(t) implies left.contains(t) by {
        if first_upto(nul, f, w, lo, k).contains(t) {
            let k2 = choose|k2: int| k2 < k && #[trigger] begins_at(nul, f, w, lo, k2, t);
            assert(begins_at(nul, f, w, lo, k2, t));
        } else {
            assert(begins_at(nul, f, w, lo, k, t));
        }
    }
}

/// Nothing beyond a symbol that cannot vanish contributes.
pub proof fn lemma_first_upto_stuck<T, N>(
    nul: Set<N>,
    f: spec_fn(N) -> Set<T>,
    w: Seq<Symbol<T, N>>,
    lo: int,
    k: int,
)
    requires
        lo <= k < w.len(),
        !is_nonterminal_in(nul, w[k]),
    ensures
        first_of_tail(nul, f, w, lo) =~= first_upto(nul, f, w, lo, k + 1),
{
    assert forall|t: T| first_of_tail(nul, f, w, lo).contains(t) implies first_upto(
        nul,
        f,
        w,
        lo,
        k + 1,
    ).contains(t) by {
        let k2 = choose|k2: int| #[trigger] begins_at(nul, f, w, lo, k2, t);
        if k2 > k {
            assert(is_nonterminal_in(nul, w[k]));
        }
    }
}

/// A sequence that is erasable over a set is erasable over a larger one.
pub proof fn lemma_erasable_monotone<T, N>(
    s1: Set<N>,
    s2: Set<N>,
    w: Seq<Symbol<T, N>>,
    lo: int,
    hi: int,
)
    requires
        s1.subset_of(s2),
        erasable_range(s1, w, lo, hi),
    ensures
        erasable_range(s2, w, lo, hi),
{
    assert forall|k: int| lo <= k < hi implies is_nonterminal_in(s2, #[trigger] w[k]) by {
        assert(is_nonterminal_in(s1, w[k]));
    }
}

/// The nullable nonterminals are closed under erasure: they are the least
/// such set.
pub proof fn lemma_nullable_closed<T, N>(g: GrammarView<T, N>)
    ensures
        closed_under_erasure(g, nullable_set(g)),
{
    let ns = nullable_set(g);
    assert forall|n: N, w: Seq<Symbol<T, N>>| #[trigger]
        has_alternative(g, n, w) && all_erasable(ns, w) implies ns.contains(n) by {
        assert forall|s: Set<N>| #[trigger] closed_under_erasure(g, s) implies s.contains(n) by {
            assert forall|k: int| 0 <= k < w.len() implies is_nonterminal_in(
                s,
                #[trigger] w[k],
            ) by {
                assert(is_nonterminal_in(ns, w[k]));
            }
            assert(all_erasable(s, w));
        }
    }
}

/// FIRST of a sequence grows with the nullable set and with the assignment.
pub proof fn lemma_first_of_tail_monotone<T, N>(
    nul1: Set<N>,
    nul2: Set<N>,
    f1: spec_fn(N) -> Set<T>,
    f2: spec_fn(N) -> Set<T>,
    w: Seq<Symbol<T, N>>,
    lo: int,
)
    requires
        nul1.subset_of(nul2),
        forall|n: N| (#[trigger] f1(n)).subset_of(f2(n)),
    ensures
        first_of_tail(nul1, f1, w, lo).subset_of(first_of_tail(nul2, f2, w, lo)),
{
    assert forall|t: T| first_of_tail(nul1, f1, w, lo).contains(t) implies first_of_tail(
        nul2,
        f2,
        w,
        lo,
    ).contains(t) by {
        let k = choose|k: int| #[trigger] begins_at(nul1, f1, w, lo, k, t);
        lemma_erasable_monotone(nul1, nul2, w, lo, k);
        match w[k] {
            Symbol::Terminal(_) => {},
            Symbol::Nonterminal(m) => {
                assert(f1(m).subset_of(f2(m)));
            },
        }
        assert(begins_at(nul2, f2, w, lo, k, t));
    }
}

/// The FIRST sets relative to `nul` are closed under the FIRST equations: they
/// are the least such assignment.
pub proof fn lemma_first_closed<T, N>(g: GrammarView<T, N>, nul: Set<N>)
    ensures
        closed_under_first(g, nul, first_assignment(g, nul)),
{
    let lfp = first_assignment(g, nul);
    assert forall|n: N, w: Seq<Symbol<T, N>>| #[trigger]
        has_alternative(g, n, w) implies first_of_sequence(nul, lfp, w).subset_of(lfp(n)) by {
        assert forall|t: T|
            first_of_sequence(nul, lfp, w).contains(t) implies #[trigger] first_from(
            g,
            nul,
            n,
        ).contains(t) by {
            assert forall|f: spec_fn(N) -> Set<T>| #[trigger]
                closed_under_first(g, nul, f) implies f(n).contains(t) by {
                assert forall|m: N| (#[trigger] lfp(m)).subset_of(f(m)) by {
                    assert forall|u: T| first_from(g, nul, m).contains(u) implies #[trigger] f(m).contains(
                        u,
                    ) by {}
                }
                lemma_first_of_tail_monotone(nul, nul, lfp, f, w, 0);
                assert(first_of_sequence(nul, f, w).contains(t));
                assert(first_of_sequence(nul, f, w).subset_of(f(n)));
            }
        }
    }
}

/// The FOLLOW sets relative to `nul` and `fi` are closed under the FOLLOW
/// conditions: they are the least such assignment.
pub proof fn lemma_follow_closed<T, N>(g: GrammarView<T, N>, nul: Set<N>, fi: spec_fn(N) -> Set<T>)
    ensures
        closed_under_follow(g, nul, fi, follow_assignment(g, nul, fi)),
{
    let lfp = follow_assignment(g, nul, fi);
    assert forall|p: N, w: Seq<Symbol<T, N>>, i: int|
        #![trigger has_alternative(g, p, w), w[i]]
        has_alternative(g, p, w) && 0 <= i < w.len() implies occurrence_respected(
        nul,
        fi,
        lfp,
        p,
        w,
        i,
    ) by {
        match w[i] {
            Symbol::Terminal(_) => {},
            Symbol::Nonterminal(n) => {
                assert forall|t: T|
                    first_of_tail(nul, fi, w, i + 1).contains(t) implies #[trigger] follow_from(
                    g,
                    nul,
                    fi,
                    n,
                ).contains(t) by {
                    assert forall|fo: spec_fn(N) -> Set<T>| #[trigger]
                        closed_under_follow(g, nul, fi, fo) implies fo(n).contains(t) by {
                        assert(occurrence_respected(nul, fi, fo, p, w, i));
                    }
                }
                if erasable_range(nul, w, i + 1, w.len() as int) {
                    assert forall|t: T|
                        follow_from(g, nul, fi, p).contains(t) implies #[trigger] follow_from(
                        g,
                        nul,
                        fi,
                        n,
                    ).contains(t) by {
                        assert forall|fo: spec_fn(N) -> Set<T>| #[trigger]
                            closed_under_follow(g, nul, fi, fo) implies fo(n).contains(t) by {
                            assert(occurrence_respected(nul, fi, fo, p, w, i));
                            assert(fo(p).contains(t));
                        }
                    }
                }
            },
        }
    }
}

} // verus!
