//! Nullability, FIRST and FOLLOW of a grammar agree with those of the same
//! grammar told in indices.

use vstd::prelude::*;
use crate::cfg::{GrammarView, Symbol};
use crate::dense::{IndexedGrammar, Sym};
use crate::encoding::{decode, decode_seq, represents, told};
use crate::theory::{
    all_erasable, begins_at, closed_under_erasure, closed_under_first, closed_under_follow,
    erasable_range, first_assignment, first_from, first_of_sequence, first_of_tail,
    follow_assignment, follow_from, has_alternative, is_nonterminal_in, lemma_first_closed,
    lemma_follow_closed, lemma_nullable_closed, nullable, nullable_set, occurrence_respected,
};

verus! {

/// The nonterminals whose indices are in `s`.
pub open spec fn pushed_set<N>(ns: Seq<N>, s: Set<usize>) -> Set<N> {
    Set::new(|n: N| exists|i: int| 0 <= i < ns.len() && #[trigger] ns[i] == n && s.contains(i as usize))
}

/// The indices of the nonterminals in `s`.
pub open spec fn pulled_set<N>(ns: Seq<N>, s: Set<N>) -> Set<usize> {
    Set::new(|i: usize| i < ns.len() && s.contains(ns[i as int]))
}

/// The assignment over symbols that an assignment over indices stands for.
pub open spec fn pushed<T, N>(ts: Seq<T>, ns: Seq<N>, fd: spec_fn(usize) -> Set<usize>) -> spec_fn(
    N,
) -> Set<T> {
    |n: N|
        Set::new(
            |t: T|
                exists|i: int, j: int|
                    0 <= i < ns.len() && 0 <= j < ts.len() && #[trigger] ns[i] == n
                        && #[trigger] ts[j] == t && fd(i as usize).contains(j as usize),
        )
}

/// The assignment over indices that an assignment over symbols gives.
pub open spec fn pulled<T, N>(ts: Seq<T>, ns: Seq<N>, fa: spec_fn(N) -> Set<T>) -> spec_fn(
    usize,
) -> Set<usize> {
    |i: usize|
        Set::new(|j: usize| i < ns.len() && j < ts.len() && fa(ns[i as int]).contains(ts[j as int]))
}

/// Every symbol of `w` is in range for `d`.
pub open spec fn sequence_in_range(d: &IndexedGrammar, w: Seq<Sym>) -> bool {
    forall|k: int| 0 <= k < w.len() ==> d.in_range(#[trigger] w[k])
}

/// An index symbol is an erasable nonterminal exactly when the symbol that it
/// stands for is.
pub proof fn lemma_symbol_erasable<T, N>(
    ts: Seq<T>,
    ns: Seq<N>,
    d: &IndexedGrammar,
    nul: Set<usize>,
    x: Sym,
)
    requires
        ns.no_duplicates(),
        d.rules@.len() == ns.len(),
        d.in_range(x),
    ensures
        is_nonterminal_in(pushed_set(ns, nul), decode::<T, N>(ts, ns, x)) == is_nonterminal_in(
            nul,
            x,
        ),
{
    match x {
        Symbol::Terminal(_) => {},
        Symbol::Nonterminal(m) => {
            if nul.contains(m) {
                assert(ns[m as int] == ns[m as int]);
            }
            if pushed_set(ns, nul).contains(ns[m as int]) {
                let i = choose|i: int|
                    0 <= i < ns.len() && #[trigger] ns[i] == ns[m as int] && nul.contains(i as usize);
                assert(i == m);
            }
        },
    }
}

/// A range of an index sequence is erasable exactly when the range of the
/// sequence that it stands for is.
pub proof fn lemma_range_erasable<T, N>(
    ts: Seq<T>,
    ns: Seq<N>,
    d: &IndexedGrammar,
    nul: Set<usize>,
    w: Seq<Sym>,
    lo: int,
    hi: int,
)
    requires
        ns.no_duplicates(),
        d.rules@.len() == ns.len(),
        sequence_in_range(d, w),
        0 <= lo,
        hi <= w.len(),
    ensures
        erasable_range(pushed_set(ns, nul), decode_seq::<T, N>(ts, ns, w), lo, hi) == erasable_range(
            nul,
            w,
            lo,
            hi,
        ),
{
    let wa = decode_seq::<T, N>(ts, ns, w);
    assert forall|k: int| lo <= k < hi implies is_nonterminal_in(pushed_set(ns, nul), #[trigger] wa[k])
        == is_nonterminal_in(nul, w[k]) by {
        lemma_symbol_erasable::<T, N>(ts, ns, d, nul, w[k]);
    }
    if erasable_range(nul, w, lo, hi) {
        assert forall|k: int| lo <= k < hi implies is_nonterminal_in(
            pushed_set(ns, nul),
            #[trigger] wa[k],
        ) by {
            assert(is_nonterminal_in(nul, w[k]));
        }
    }
    if erasable_range(pushed_set(ns, nul), wa, lo, hi) {
        assert forall|k: int| lo <= k < hi implies is_nonterminal_in(nul, #[trigger] w[k]) by {
            assert(is_nonterminal_in(pushed_set(ns, nul), wa[k]));
        }
    }
}

/// A nonterminal is nullable exactly when its index is nullable in the
/// grammar told in indices.
pub proof fn lemma_nullable_transfer<T, N>(
    ts: Seq<T>,
    ns: Seq<N>,
    d: &IndexedGrammar,
    g: GrammarView<T, N>,
)
    requires
        represents(ts, ns, d, g),
    ensures
        nullable_set(g) == pushed_set(ns, nullable_set(d@)),
{
    // Whatever is closed for the grammar is closed, pulled back, for the indices.
    assert forall|i: int| 0 <= i < ns.len() && nullable(d@, i as usize) implies nullable(
        g,
        #[trigger] ns[i],
    ) by {
        assert forall|s: Set<N>| #[trigger] closed_under_erasure(g, s) implies s.contains(ns[i]) by {
            let sd = pulled_set(ns, s);
            assert forall|m: usize, w: Seq<Sym>| #[trigger]
                has_alternative(d@, m, w) && all_erasable(sd, w) implies sd.contains(m) by {
                let a = choose|a: int|
                    0 <= a < d.rules@[m as int]@.len() && #[trigger] d.alternative(m as int, a) == w;
                let wa = decode_seq::<T, N>(ts, ns, w);
                assert(has_alternative(g, ns[m as int], wa));
                assert forall|k: int| 0 <= k < wa.len() implies is_nonterminal_in(
                    s,
                    #[trigger] wa[k],
                ) by {
                    assert(is_nonterminal_in(sd, w[k]));
                }
                assert(all_erasable(s, wa));
            }
            assert(closed_under_erasure(d@, sd));
            assert(sd.contains(i as usize));
        }
    }
    // Whatever is closed for the indices is closed, pushed forward, for the grammar.
    assert forall|n: N| nullable(g, n) implies pushed_set(ns, nullable_set(d@)).contains(n) by {
        let sd = nullable_set(d@);
        let s = pushed_set(ns, sd);
        lemma_nullable_closed(d@);
        assert forall|m: N, wa: Seq<Symbol<T, N>>| #[trigger]
            has_alternative(g, m, wa) && all_erasable(s, wa) implies s.contains(m) by {
            assert(told(ts, ns, d, m, wa));
            let (i, a) = choose|i: int, a: int|
                0 <= i < ns.len() && ns[i] == m && 0 <= a < d.rules@[i]@.len() && decode_seq(
                    ts,
                    ns,
                    #[trigger] d.alternative(i, a),
                ) == wa;
            let w = d.alternative(i, a);
            assert(sequence_in_range(d, w)) by {
                assert forall|k: int| 0 <= k < w.len() implies d.in_range(#[trigger] w[k]) by {
                    assert(d.in_range(d.alternative(i, a)[k]));
                }
            }
            lemma_range_erasable::<T, N>(ts, ns, d, sd, w, 0, w.len() as int);
            assert(has_alternative(d@, i as usize, w));
            assert(sd.contains(i as usize));
        }
        assert(closed_under_erasure(g, s));
    }
    assert forall|n: N| pushed_set(ns, nullable_set(d@)).contains(n) implies nullable(g, n) by {
        let i = choose|i: int|
            0 <= i < ns.len() && #[trigger] ns[i] == n && nullable_set(d@).contains(i as usize);
        assert(nullable(g, ns[i]));
    }
    assert(nullable_set(g) =~= pushed_set(ns, nullable_set(d@)));
}

/// The alternative of `d` at `(i, a)` is in range.
proof fn lemma_alternative_in_range(d: &IndexedGrammar, i: int, a: int)
    requires
        d.wf(),
        0 <= i < d.rules@.len(),
        0 <= a < d.rules@[i]@.len(),
    ensures
        sequence_in_range(d, d.alternative(i, a)),
{
    let w = d.alternative(i, a);
    assert forall|k: int| 0 <= k < w.len() implies d.in_range(#[trigger] w[k]) by {
        assert(d.in_range(d.alternative(i, a)[k]));
    }
}

/// FIRST of a tail of the sequence that `w` stands for holds the terminals
/// whose indices FIRST of the tail of `w` holds.
pub proof fn lemma_first_of_tail_pushed<T, N>(
    ts: Seq<T>,
    ns: Seq<N>,
    d: &IndexedGrammar,
    nul: Set<usize>,
    fd: spec_fn(usize) -> Set<usize>,
    w: Seq<Sym>,
    lo: int,
)
    requires
        ts.no_duplicates(),
        ns.no_duplicates(),
        d.terminal_count == ts.len(),
        d.rules@.len() == ns.len(),
        sequence_in_range(d, w),
        0 <= lo,
    ensures
        forall|t: T|
            first_of_tail(pushed_set(ns, nul), pushed(ts, ns, fd), decode_seq(ts, ns, w), lo).contains(
                t,
            ) ==> exists|j: int|
                0 <= j < ts.len() && #[trigger] ts[j] == t && first_of_tail(nul, fd, w, lo).contains(
                    j as usize,
                ),
        forall|j: int|
            0 <= j < ts.len() && first_of_tail(nul, fd, w, lo).contains(j as usize)
                ==> first_of_tail(
                pushed_set(ns, nul),
                pushed(ts, ns, fd),
                decode_seq(ts, ns, w),
                lo,
            ).contains(#[trigger] ts[j]),
{
    let nula = pushed_set(ns, nul);
    let fa = pushed(ts, ns, fd);
    let wa = decode_seq::<T, N>(ts, ns, w);
    assert forall|t: T| first_of_tail(nula, fa, wa, lo).contains(t) implies exists|j: int|
        0 <= j < ts.len() && #[trigger] ts[j] == t && first_of_tail(nul, fd, w, lo).contains(
            j as usize,
        ) by {
        let k = choose|k: int| #[trigger] begins_at(nula, fa, wa, lo, k, t);
        lemma_range_erasable::<T, N>(ts, ns, d, nul, w, lo, k);
        assert(d.in_range(w[k]));
        match w[k] {
            Symbol::Terminal(j) => {
                assert(ts[j as int] == t);
                assert(begins_at(nul, fd, w, lo, k, j));
            },
            Symbol::Nonterminal(m) => {
                let (i, j) = choose|i: int, j: int|
                    0 <= i < ns.len() && 0 <= j < ts.len() && #[trigger] ns[i] == ns[m as int]
                        && #[trigger] ts[j] == t && fd(i as usize).contains(j as usize);
                assert(i == m);
                assert(begins_at(nul, fd, w, lo, k, j as usize));
            },
        }
    }
    assert forall|j: int|
        0 <= j < ts.len() && first_of_tail(nul, fd, w, lo).contains(j as usize) implies first_of_tail(
        nula,
        fa,
        wa,
        lo,
    ).contains(#[trigger] ts[j]) by {
        let k = choose|k: int| #[trigger] begins_at(nul, fd, w, lo, k, j as usize);
        lemma_range_erasable::<T, N>(ts, ns, d, nul, w, lo, k);
        assert(d.in_range(w[k]));
        match w[k] {
            Symbol::Terminal(j2) => {},
            Symbol::Nonterminal(m) => {
                assert(ns[m as int] == ns[m as int] && ts[j] == ts[j]);
                assert(fa(ns[m as int]).contains(ts[j]));
            },
        }
        assert(begins_at(nula, fa, wa, lo, k, ts[j]));
    }
}

/// FIRST of a nonterminal relative to a set of nullable indices holds the
/// terminals whose indices FIRST of its index holds; a symbol that is not a
/// nonterminal of the grammar has an empty FIRST.
pub proof fn lemma_first_transfer<T, N>(
    ts: Seq<T>,
    ns: Seq<N>,
    d: &IndexedGrammar,
    g: GrammarView<T, N>,
    nul: Set<usize>,
    n: N,
)
    requires
        represents(ts, ns, d, g),
    ensures
        first_from(g, pushed_set(ns, nul), n) == pushed(ts, ns, first_assignment(d@, nul))(n),
{
    let nula = pushed_set(ns, nul);
    let lfp_d = first_assignment(d@, nul);
    let image = pushed(ts, ns, lfp_d);
    // The image of the least assignment over indices is closed.
    lemma_first_closed(d@, nul);
    assert forall|m: N, wa: Seq<Symbol<T, N>>| #[trigger]
        has_alternative(g, m, wa) implies first_of_sequence(nula, image, wa).subset_of(image(m)) by {
        assert(told(ts, ns, d, m, wa));
        let (i, a) = choose|i: int, a: int|
            0 <= i < ns.len() && ns[i] == m && 0 <= a < d.rules@[i]@.len() && decode_seq(
                ts,
                ns,
                #[trigger] d.alternative(i, a),
            ) == wa;
        let w = d.alternative(i, a);
        lemma_alternative_in_range(d, i, a);
        lemma_first_of_tail_pushed::<T, N>(ts, ns, d, nul, lfp_d, w, 0);
        assert(has_alternative(d@, i as usize, w));
        assert(first_of_sequence(nul, lfp_d, w).subset_of(lfp_d(i as usize)));
        assert forall|t: T| first_of_sequence(nula, image, wa).contains(t) implies #[trigger] image(
            m,
        ).contains(t) by {
            let j = choose|j: int|
                0 <= j < ts.len() && #[trigger] ts[j] == t && first_of_tail(nul, lfp_d, w, 0).contains(
                    j as usize,
                );
            assert(lfp_d(i as usize).contains(j as usize));
            assert(ns[i] == m && ts[j] == t);
        }
    }
    assert(closed_under_first(g, nula, image));
    // What is closed for the grammar is closed, pulled back, for the indices.
    assert forall|t: T| image(n).contains(t) implies #[trigger] first_from(g, nula, n).contains(t) by {
        let (i, j) = choose|i: int, j: int|
            0 <= i < ns.len() && 0 <= j < ts.len() && #[trigger] ns[i] == n && #[trigger] ts[j] == t
                && lfp_d(i as usize).contains(j as usize);
        assert forall|fa: spec_fn(N) -> Set<T>| #[trigger]
            closed_under_first(g, nula, fa) implies fa(n).contains(t) by {
            let fd = pulled(ts, ns, fa);
            assert forall|m: usize, w: Seq<Sym>| #[trigger]
                has_alternative(d@, m, w) implies first_of_sequence(nul, fd, w).subset_of(fd(m)) by {
                let a = choose|a: int|
                    0 <= a < d.rules@[m as int]@.len() && #[trigger] d.alternative(m as int, a) == w;
                lemma_alternative_in_range(d, m as int, a);
                let wa = decode_seq::<T, N>(ts, ns, w);
                assert(has_alternative(g, ns[m as int], wa));
                assert(first_of_sequence(nula, fa, wa).subset_of(fa(ns[m as int])));
                assert forall|j2: usize|
                    first_of_sequence(nul, fd, w).contains(j2) implies #[trigger] fd(m).contains(
                    j2,
                ) by {
                    let k = choose|k: int| #[trigger] begins_at(nul, fd, w, 0, k, j2);
                    lemma_range_erasable::<T, N>(ts, ns, d, nul, w, 0, k);
                    assert(d.in_range(w[k]));
                    match w[k] {
                        Symbol::Terminal(j3) => {},
                        Symbol::Nonterminal(m3) => {},
                    }
                    assert(begins_at(nula, fa, wa, 0, k, ts[j2 as int]));
                    assert(first_of_sequence(nula, fa, wa).contains(ts[j2 as int]));
                }
            }
            assert(closed_under_first(d@, nul, fd));
            assert(fd(i as usize).contains(j as usize));
        }
    }
    assert(first_from(g, nula, n) =~= image(n));
}

/// Whatever `fd` assigns is the index of a terminal.
pub open spec fn assigns_terminals(fd: spec_fn(usize) -> Set<usize>, count: nat) -> bool {
    forall|m: usize, j: usize| #[trigger] fd(m).contains(j) ==> j < count
}

/// FOLLOW of a nonterminal relative to a set of nullable indices and an
/// assignment of FIRST sets over indices holds the terminals whose indices
/// FOLLOW of its index holds.
pub proof fn lemma_follow_transfer<T, N>(
    ts: Seq<T>,
    ns: Seq<N>,
    d: &IndexedGrammar,
    g: GrammarView<T, N>,
    nul: Set<usize>,
    fi: spec_fn(usize) -> Set<usize>,
    n: N,
)
    requires
        represents(ts, ns, d, g),
        assigns_terminals(fi, ts.len()),
    ensures
        follow_from(g, pushed_set(ns, nul), pushed(ts, ns, fi), n) == pushed(
            ts,
            ns,
            follow_assignment(d@, nul, fi),
        )(n),
{
    let nula = pushed_set(ns, nul);
    let fia = pushed(ts, ns, fi);
    let lfp_d = follow_assignment(d@, nul, fi);
    let image = pushed(ts, ns, lfp_d);
    lemma_follow_closed(d@, nul, fi);
    // The image of the least assignment over indices is closed.
    assert forall|p: N, wa: Seq<Symbol<T, N>>, k: int|
        #![trigger has_alternative(g, p, wa), wa[k]]
        has_alternative(g, p, wa) && 0 <= k < wa.len() implies occurrence_respected(
        nula,
        fia,
        image,
        p,
        wa,
        k,
    ) by {
        assert(told(ts, ns, d, p, wa));
        let (i, a) = choose|i: int, a: int|
            0 <= i < ns.len() && ns[i] == p && 0 <= a < d.rules@[i]@.len() && decode_seq(
                ts,
                ns,
                #[trigger] d.alternative(i, a),
            ) == wa;
        let w = d.alternative(i, a);
        lemma_alternative_in_range(d, i, a);
        assert(has_alternative(d@, i as usize, w));
        assert(occurrence_respected(nul, fi, lfp_d, i as usize, w, k));
        assert(d.in_range(w[k]));
        assert(wa[k] == decode::<T, N>(ts, ns, w[k]));
        match w[k] {
            Symbol::Terminal(_) => {},
            Symbol::Nonterminal(m) => {
                lemma_first_of_tail_pushed::<T, N>(ts, ns, d, nul, fi, w, k + 1);
                assert forall|t: T|
                    first_of_tail(nula, fia, wa, k + 1).contains(t) implies #[trigger] image(
                    ns[m as int],
                ).contains(t) by {
                    let j = choose|j: int|
                        0 <= j < ts.len() && #[trigger] ts[j] == t && first_of_tail(
                            nul,
                            fi,
                            w,
                            k + 1,
                        ).contains(j as usize);
                    assert(lfp_d(m).contains(j as usize));
                    assert(ns[m as int] == ns[m as int] && ts[j] == t);
                }
                lemma_range_erasable::<T, N>(ts, ns, d, nul, w, k + 1, w.len() as int);
                if erasable_range(nula, wa, k + 1, wa.len() as int) {
                    assert forall|t: T| image(p).contains(t) implies #[trigger] image(
                        ns[m as int],
                    ).contains(t) by {
                        let (i2, j2) = choose|i2: int, j2: int|
                            0 <= i2 < ns.len() && 0 <= j2 < ts.len() && #[trigger] ns[i2] == p
                                && #[trigger] ts[j2] == t && lfp_d(i2 as usize).contains(
                                j2 as usize,
                            );
                        assert(i2 == i);
                        assert(lfp_d(m).contains(j2 as usize));
                        assert(ns[m as int] == ns[m as int] && ts[j2] == t);
                    }
                }
            },
        }
    }
    assert(closed_under_follow(g, nula, fia, image));
    // What is closed for the grammar is closed, pulled back, for the indices.
    assert forall|t: T| image(n).contains(t) implies #[trigger] follow_from(g, nula, fia, n).contains(
        t,
    ) by {
        let (i, j) = choose|i: int, j: int|
            0 <= i < ns.len() && 0 <= j < ts.len() && #[trigger] ns[i] == n && #[trigger] ts[j] == t
                && lfp_d(i as usize).contains(j as usize);
        assert forall|fa: spec_fn(N) -> Set<T>| #[trigger]
            closed_under_follow(g, nula, fia, fa) implies fa(n).contains(t) by {
            let fd = pulled(ts, ns, fa);
            assert forall|p: usize, w: Seq<Sym>, k: int|
                #![trigger has_alternative(d@, p, w), w[k]]
                has_alternative(d@, p, w) && 0 <= k < w.len() implies occurrence_respected(
                nul,
                fi,
                fd,
                p,
                w,
                k,
            ) by {
                let a = choose|a: int|
                    0 <= a < d.rules@[p as int]@.len() && #[trigger] d.alternative(p as int, a) == w;
                lemma_alternative_in_range(d, p as int, a);
                let wa = decode_seq::<T, N>(ts, ns, w);
                assert(has_alternative(g, ns[p as int], wa));
                assert(occurrence_respected(nula, fia, fa, ns[p as int], wa, k));
                assert(d.in_range(w[k]));
                assert(wa[k] == decode::<T, N>(ts, ns, w[k]));
                match w[k] {
                    Symbol::Terminal(_) => {},
                    Symbol::Nonterminal(m) => {
                        lemma_first_of_tail_pushed::<T, N>(ts, ns, d, nul, fi, w, k + 1);
                        assert forall|j2: usize|
                            first_of_tail(nul, fi, w, k + 1).contains(j2) implies #[trigger] fd(
                            m,
                        ).contains(j2) by {
                            let k2 = choose|k2: int| #[trigger] begins_at(nul, fi, w, k + 1, k2, j2);
                            assert(d.in_range(w[k2]));
                            assert(j2 < ts.len());
                            assert(first_of_tail(nula, fia, wa, k + 1).contains(ts[j2 as int]));
                        }
                        lemma_range_erasable::<T, N>(ts, ns, d, nul, w, k + 1, w.len() as int);
                        if erasable_range(nul, w, k + 1, w.len() as int) {
                            assert(fa(ns[p as int]).subset_of(fa(ns[m as int])));
                            assert forall|j2: usize| fd(p).contains(j2) implies #[trigger] fd(
                                m,
                            ).contains(j2) by {}
                        }
                    },
                }
            }
            assert(closed_under_follow(d@, nul, fi, fd));
            assert(fd(i as usize).contains(j as usize));
        }
    }
    assert(follow_from(g, nula, fia, n) =~= image(n));
}

} // verus!
