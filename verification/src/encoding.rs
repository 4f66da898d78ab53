//! How a grammar over symbols of any kind is told in indices.
//!
//! A terminal is told by its position in the list of terminals, a nonterminal
//! by its position in the list of nonterminals. Both lists are free of
//! repetitions, so a symbol has one index and an index one symbol.

use vstd::prelude::*;
use vstd::laws_eq::obeys_concrete_eq;
use crate::cfg::{
    entries_fault, entry_alternative, entry_fault, grammar_view, listed,
    production_fault, sequence_fault, symbol_fault, Alternatives, GrammarView, Symbol,
};
use crate::dense::{IndexedGrammar, Sym};
use crate::lists::position;
use crate::theory::has_alternative;

verus! {

/// The symbol that an index symbol stands for.
pub open spec fn decode<T, N>(ts: Seq<T>, ns: Seq<N>, x: Sym) -> Symbol<T, N> {
    match x {
        Symbol::Terminal(j) => Symbol::Terminal(ts[j as int]),
        Symbol::Nonterminal(m) => Symbol::Nonterminal(ns[m as int]),
    }
}

/// The sequence that a sequence of index symbols stands for.
pub open spec fn decode_seq<T, N>(ts: Seq<T>, ns: Seq<N>, w: Seq<Sym>) -> Seq<Symbol<T, N>> {
    Seq::new(w.len(), |k: int| decode(ts, ns, w[k]))
}

/// Some alternative of `d` for the index of `n` stands for `w`.
pub open spec fn told<T, N>(
    ts: Seq<T>,
    ns: Seq<N>,
    d: &IndexedGrammar,
    n: N,
    w: Seq<Symbol<T, N>>,
) -> bool {
    exists|i: int, a: int|
        0 <= i < ns.len() && ns[i] == n && 0 <= a < d.rules@[i]@.len() && decode_seq(
            ts,
            ns,
            #[trigger] d.alternative(i, a),
        ) == w
}

/// No nonterminal of `d` has the same alternative twice.
pub open spec fn alternatives_distinct(d: &IndexedGrammar) -> bool {
    forall|i: int, a: int, b: int|
        0 <= i < d.rules@.len() && 0 <= a < b < d.rules@[i]@.len() ==> #[trigger] d.alternative(i, a)
            != #[trigger] d.alternative(i, b)
}

/// Every alternative of `d` stands for an alternative of `g`.
pub open spec fn tells_only<T, N>(
    ts: Seq<T>,
    ns: Seq<N>,
    d: &IndexedGrammar,
    g: GrammarView<T, N>,
) -> bool {
    forall|i: int, a: int|
        0 <= i < ns.len() && 0 <= a < d.rules@[i]@.len() ==> has_alternative(
            g,
            ns[i],
            decode_seq(ts, ns, #[trigger] d.alternative(i, a)),
        )
}

/// `d` is the grammar `g` told in indices over the lists `ts` and `ns`.
pub open spec fn represents<T, N>(
    ts: Seq<T>,
    ns: Seq<N>,
    d: &IndexedGrammar,
    g: GrammarView<T, N>,
) -> bool {
    &&& ts.no_duplicates()
    &&& ns.no_duplicates()
    &&& g.terminals == ts.to_set()
    &&& g.nonterminals == ns.to_set()
    &&& d.wf()
    &&& d.terminal_count == ts.len()
    &&& d.rules@.len() == ns.len()
    &&& tells_only(ts, ns, d, g)
    &&& forall|n: N, w: Seq<Symbol<T, N>>| #[trigger] has_alternative(g, n, w) ==> told(ts, ns, d, n, w)
    &&& alternatives_distinct(d)
}

/// Index sequences that stand for the same sequence are the same.
pub proof fn lemma_decode_injective<T, N>(ts: Seq<T>, ns: Seq<N>, d: &IndexedGrammar, v: Seq<Sym>, w: Seq<Sym>)
    requires
        ts.no_duplicates(),
        ns.no_duplicates(),
        d.terminal_count == ts.len(),
        d.rules@.len() == ns.len(),
        forall|k: int| 0 <= k < v.len() ==> d.in_range(#[trigger] v[k]),
        forall|k: int| 0 <= k < w.len() ==> d.in_range(#[trigger] w[k]),
        decode_seq(ts, ns, v) == decode_seq(ts, ns, w),
    ensures
        v == w,
{
    assert(v.len() == decode_seq(ts, ns, v).len());
    assert(w.len() == decode_seq(ts, ns, w).len());
    assert forall|k: int| 0 <= k < v.len() implies v[k] == w[k] by {
        assert(decode_seq(ts, ns, v)[k] == decode(ts, ns, v[k]));
        assert(decode_seq(ts, ns, w)[k] == decode(ts, ns, w[k]));
        assert(d.in_range(v[k]));
        assert(d.in_range(w[k]));
    }
    assert(v =~= w);
}

/// The index symbol for `x`.
pub fn encode_symbol<T: Copy + PartialEq, N: Copy + PartialEq>(
    ts: &Vec<T>,
    ns: &Vec<N>,
    x: &Symbol<T, N>,
) -> (r: Sym)
    requires
        obeys_concrete_eq::<T>(),
        obeys_concrete_eq::<N>(),
        symbol_fault(ts@.to_set(), ns@.to_set(), *x) is None,
    ensures
        decode(ts@, ns@, r) == *x,
        match r {
            Symbol::Terminal(j) => j < ts.len(),
            Symbol::Nonterminal(m) => m < ns.len(),
        },
{
    match x {
        Symbol::Terminal(t) => match position(ts, t) {
            Some(j) => Symbol::Terminal(j),
            None => vstd::pervasive::unreached(),
        },
        Symbol::Nonterminal(n) => match position(ns, n) {
            Some(m) => Symbol::Nonterminal(m),
            None => vstd::pervasive::unreached(),
        },
    }
}

/// A sequence without a fault has none at any position.
pub proof fn lemma_sequence_fault<T, N>(ts: Set<T>, ns: Set<N>, w: Seq<Symbol<T, N>>, k: int)
    requires
        0 <= k,
    ensures
        sequence_fault(ts, ns, w, k) is None <==> forall|k2: int|
            k <= k2 < w.len() ==> symbol_fault(ts, ns, #[trigger] w[k2]) is None,
    decreases w.len() - k,
{
    if k < w.len() {
        lemma_sequence_fault(ts, ns, w, k + 1);
    }
}

/// An entry without a fault has none in any alternative.
pub proof fn lemma_entry_fault<T, N>(
    ts: Set<T>,
    ns: Set<N>,
    lhs: N,
    alternatives: Seq<Vec<Symbol<T, N>>>,
    a: int,
)
    requires
        0 <= a,
    ensures
        entry_fault(ts, ns, lhs, alternatives, a) is None <==> forall|a2: int|
            a <= a2 < alternatives.len() ==> production_fault(
                ts,
                ns,
                lhs,
                (#[trigger] alternatives[a2])@,
            ) is None,
    decreases alternatives.len() - a,
{
    if a < alternatives.len() {
        lemma_entry_fault(ts, ns, lhs, alternatives, a + 1);
    }
}

/// Entries without a fault have none in any entry.
pub proof fn lemma_entries_fault<T, N>(
    ts: Set<T>,
    ns: Set<N>,
    entries: Seq<(N, Alternatives<T, N>)>,
    e: int,
)
    requires
        0 <= e,
    ensures
        entries_fault(ts, ns, entries, e) is None <==> forall|e2: int|
            e <= e2 < entries.len() ==> entry_fault(
                ts,
                ns,
                (#[trigger] entries[e2]).0,
                entries[e2].1@,
                0,
            ) is None,
    decreases entries.len() - e,
{
    if e < entries.len() {
        lemma_entries_fault(ts, ns, entries, e + 1);
    }
}

/// The index sequence for `w`.
pub fn encode<T: Copy + PartialEq, N: Copy + PartialEq>(
    ts: &Vec<T>,
    ns: &Vec<N>,
    w: &Vec<Symbol<T, N>>,
) -> (r: Vec<Sym>)
    requires
        obeys_concrete_eq::<T>(),
        obeys_concrete_eq::<N>(),
        sequence_fault(ts@.to_set(), ns@.to_set(), w@, 0) is None,
    ensures
        decode_seq(ts@, ns@, r@) == w@,
        forall|k: int|
            0 <= k < r.len() ==> match #[trigger] r@[k] {
                Symbol::Terminal(j) => j < ts.len(),
                Symbol::Nonterminal(m) => m < ns.len(),
            },
{
    let mut r: Vec<Sym> = Vec::new();
    let mut k: usize = 0;
    proof {
        lemma_sequence_fault(ts@.to_set(), ns@.to_set(), w@, 0);
    }
    while k < w.len()
        invariant
            k <= w.len(),
            r.len() == k,
            obeys_concrete_eq::<T>(),
            obeys_concrete_eq::<N>(),
            forall|k2: int|
                0 <= k2 < w.len() ==> symbol_fault(ts@.to_set(), ns@.to_set(), #[trigger] w@[k2]) is None,
            forall|k2: int| 0 <= k2 < k ==> decode(ts@, ns@, #[trigger] r@[k2]) == w@[k2],
            forall|k2: int|
                0 <= k2 < k ==> match #[trigger] r@[k2] {
                    Symbol::Terminal(j) => j < ts.len(),
                    Symbol::Nonterminal(m) => m < ns.len(),
                },
        decreases w.len() - k,
    {
        let x = encode_symbol(ts, ns, &w[k]);
        r.push(x);
        k += 1;
    }
    assert(decode_seq(ts@, ns@, r@) =~= w@);
    r
}

/// Whether two index sequences are the same.
pub fn same_sequence(v: &Vec<Sym>, w: &Vec<Sym>) -> (r: bool)
    ensures
        r == (v@ == w@),
{
    if v.len() != w.len() {
        return false;
    }
    let mut k: usize = 0;
    while k < v.len()
        invariant
            k <= v.len(),
            v.len() == w.len(),
            forall|k2: int| 0 <= k2 < k ==> v@[k2] == w@[k2],
        decreases v.len() - k,
    {
        let equal = match (v[k], w[k]) {
            (Symbol::Terminal(x), Symbol::Terminal(y)) => x == y,
            (Symbol::Nonterminal(x), Symbol::Nonterminal(y)) => x == y,
            _ => false,
        };
        if !equal {
            return false;
        }
        k += 1;
    }
    assert(v@ =~= w@);
    true
}

/// Whether `list` holds the sequence `w`.
pub fn holds_sequence(list: &Vec<Vec<Sym>>, w: &Vec<Sym>) -> (r: bool)
    ensures
        r == exists|a: int| 0 <= a < list.len() && (#[trigger] list@[a])@ == w@,
{
    let mut a: usize = 0;
    while a < list.len()
        invariant
            a <= list.len(),
            forall|b: int| 0 <= b < a ==> (#[trigger] list@[b])@ != w@,
        decreases list.len() - a,
    {
        if same_sequence(&list[a], w) {
            return true;
        }
        a += 1;
    }
    false
}

/// Every alternative of `d` stands for a listed alternative.
pub open spec fn tells_listed<T, N>(
    ts: Seq<T>,
    ns: Seq<N>,
    d: &IndexedGrammar,
    entries: Seq<(N, Alternatives<T, N>)>,
) -> bool {
    forall|i: int, a: int|
        0 <= i < ns.len() && 0 <= a < d.rules@[i]@.len() ==> listed(
            entries,
            ns[i],
            decode_seq(ts, ns, #[trigger] d.alternative(i, a)),
        )
}

/// Every alternative listed before position `(e_hi, a_hi)` is told by `d`.
pub open spec fn told_upto<T, N>(
    ts: Seq<T>,
    ns: Seq<N>,
    d: &IndexedGrammar,
    entries: Seq<(N, Alternatives<T, N>)>,
    e_hi: int,
    a_hi: int,
) -> bool {
    forall|e: int, a: int|
        0 <= e < entries.len() && 0 <= a < entries[e].1@.len() && (e < e_hi || (e == e_hi && a
            < a_hi)) ==> told(ts, ns, d, entries[e].0, #[trigger] entry_alternative(entries, e, a))
}

/// Gives nonterminal `i` of `d` one more alternative.
pub fn add_alternative(d: &mut IndexedGrammar, i: usize, w: Vec<Sym>)
    requires
        i < old(d).rules.len(),
    ensures
        final(d).terminal_count == old(d).terminal_count,
        final(d).rules@.len() == old(d).rules@.len(),
        final(d).rules@[i as int]@ == old(d).rules@[i as int]@.push(w),
        forall|i2: int|
            0 <= i2 < old(d).rules@.len() && i2 != i ==> #[trigger] final(d).rules@[i2] == old(
                d,
            ).rules@[i2],
{
    d.rules[i].push(w);
}

/// A grammar of `n` nonterminals without alternatives, over `m` terminals.
pub fn bare_grammar(m: usize, n: usize) -> (d: IndexedGrammar)
    ensures
        d.terminal_count == m,
        d.rules@.len() == n,
        forall|i: int| 0 <= i < n ==> (#[trigger] d.rules@[i])@.len() == 0,
{
    let mut rules: Vec<Vec<Vec<Sym>>> = Vec::new();
    while rules.len() < n
        invariant
            rules.len() <= n,
            forall|i: int| 0 <= i < rules.len() ==> (#[trigger] rules@[i])@.len() == 0,
        decreases n - rules.len(),
    {
        rules.push(Vec::new());
    }
    IndexedGrammar { terminal_count: m, rules }
}

/// The grammar that the entries make, told in indices over `ts` and `ns`.
/// Alternatives that an entry repeats are told once.
pub fn index_grammar<T: Copy + PartialEq, N: Copy + PartialEq>(
    ts: &Vec<T>,
    ns: &Vec<N>,
    entries: &Vec<(N, Alternatives<T, N>)>,
) -> (d: IndexedGrammar)
    requires
        obeys_concrete_eq::<T>(),
        obeys_concrete_eq::<N>(),
        ts@.no_duplicates(),
        ns@.no_duplicates(),
        entries_fault(ts@.to_set(), ns@.to_set(), entries@, 0) is None,
    ensures
        represents(ts@, ns@, &d, grammar_view(ts@, ns@, entries@)),
{
    let mut d = bare_grammar(ts.len(), ns.len());
    let mut e: usize = 0;
    proof {
        lemma_entries_fault(ts@.to_set(), ns@.to_set(), entries@, 0);
    }
    while e < entries.len()
        invariant
            e <= entries.len(),
            obeys_concrete_eq::<T>(),
            obeys_concrete_eq::<N>(),
            ts@.no_duplicates(),
            ns@.no_duplicates(),
            forall|e2: int|
                0 <= e2 < entries.len() ==> entry_fault(
                    ts@.to_set(),
                    ns@.to_set(),
                    (#[trigger] entries@[e2]).0,
                    entries@[e2].1@,
                    0,
                ) is None,
            d.wf(),
            d.terminal_count == ts.len(),
            d.rules@.len() == ns.len(),
            tells_listed(ts@, ns@, &d, entries@),
            told_upto(ts@, ns@, &d, entries@, e as int, 0),
            alternatives_distinct(&d),
        decreases entries.len() - e,
    {
        let lhs = &entries[e].0;
        let alternatives = &entries[e].1;
        proof {
            lemma_entry_fault(ts@.to_set(), ns@.to_set(), *lhs, alternatives@, 0);
        }
        let mut a: usize = 0;
        while a < alternatives.len()
            invariant
                a <= alternatives.len(),
                e < entries.len(),
                *lhs == entries@[e as int].0,
                *alternatives == entries@[e as int].1,
                obeys_concrete_eq::<T>(),
                obeys_concrete_eq::<N>(),
                ts@.no_duplicates(),
                ns@.no_duplicates(),
                forall|a2: int|
                    0 <= a2 < alternatives.len() ==> production_fault(
                        ts@.to_set(),
                        ns@.to_set(),
                        *lhs,
                        (#[trigger] alternatives@[a2])@,
                    ) is None,
                d.wf(),
                d.terminal_count == ts.len(),
                d.rules@.len() == ns.len(),
                tells_listed(ts@, ns@, &d, entries@),
                told_upto(ts@, ns@, &d, entries@, e as int, a as int),
                alternatives_distinct(&d),
            decreases alternatives.len() - a,
        {
            assert(production_fault(ts@.to_set(), ns@.to_set(), *lhs, alternatives@[a as int]@) is None);
            let i = match position(ns, lhs) {
                Some(i) => i,
                None => vstd::pervasive::unreached(),
            };
            let w = encode(ts, ns, &alternatives[a]);
            let ghost before = d;
            let ghost abstract_w = entry_alternative(entries@, e as int, a as int);
            assert(decode_seq(ts@, ns@, w@) == abstract_w);
            if !holds_sequence(&d.rules[i], &w) {
                let ghost fresh = d.rules@[i as int]@.len() as int;
                add_alternative(&mut d, i, w);
                proof {
                    assert forall|i2: int, a2: int|
                        0 <= i2 < before.rules@.len() && 0 <= a2 < before.rules@[i2]@.len() implies d.alternative(
                        i2,
                        a2,
                    ) == before.alternative(i2, a2) by {
                        if i2 != i {
                            assert(d.rules@[i2] == before.rules@[i2]);
                        }
                    }
                    assert(d.alternative(i as int, fresh) == w@);
                    assert forall|i2: int, a2: int|
                        #![trigger d.alternative(i2, a2)]
                        0 <= i2 < d.rules@.len() && 0 <= a2 < d.rules@[i2]@.len() implies (i2 == i
                        && a2 == fresh) || (0 <= a2 < before.rules@[i2]@.len()) by {
                        if i2 != i {
                            assert(d.rules@[i2] == before.rules@[i2]);
                        }
                    }
                    assert(d.wf()) by {
                        assert forall|i2: int, a2: int, k: int|
                            0 <= i2 < d.rules@.len() && 0 <= a2 < d.rules@[i2]@.len() && 0 <= k
                                < d.alternative(i2, a2).len() implies d.in_range(
                            #[trigger] d.alternative(i2, a2)[k],
                        ) by {
                            if i2 == i && a2 == fresh {
                                assert(d.alternative(i2, a2)[k] == w@[k]);
                            } else {
                                assert(before.in_range(before.alternative(i2, a2)[k]));
                            }
                        }
                    }
                    assert(tells_listed(ts@, ns@, &d, entries@)) by {
                        assert forall|i2: int, a2: int|
                            0 <= i2 < ns@.len() && 0 <= a2 < d.rules@[i2]@.len() implies listed(
                            entries@,
                            ns@[i2],
                            decode_seq(ts@, ns@, #[trigger] d.alternative(i2, a2)),
                        ) by {
                            if i2 == i && a2 == fresh {
                                assert(entry_alternative(entries@, e as int, a as int) == abstract_w);
                            } else {
                                assert(listed(
                                    entries@,
                                    ns@[i2],
                                    decode_seq(ts@, ns@, before.alternative(i2, a2)),
                                ));
                            }
                        }
                    }
                    assert(alternatives_distinct(&d)) by {
                        assert forall|i2: int, a2: int, b2: int|
                            0 <= i2 < d.rules@.len() && 0 <= a2 < b2 < d.rules@[i2]@.len() implies #[trigger] d.alternative(
                            i2,
                            a2,
                        ) != #[trigger] d.alternative(i2, b2) by {
                            if i2 == i && b2 == fresh {
                                assert(before.rules@[i as int]@[a2]@ != w@);
                            } else {
                                assert(before.alternative(i2, a2) != before.alternative(i2, b2));
                            }
                        }
                    }
                    assert(told_upto(ts@, ns@, &d, entries@, e as int, a as int + 1)) by {
                        assert forall|e2: int, a2: int|
                            0 <= e2 < entries@.len() && 0 <= a2 < entries@[e2].1@.len() && (e2 < e
                                || (e2 == e && a2 < a + 1)) implies told(
                            ts@,
                            ns@,
                            &d,
                            entries@[e2].0,
                            #[trigger] entry_alternative(entries@, e2, a2),
                        ) by {
                            if e2 == e && a2 == a {
                                assert(decode_seq(ts@, ns@, d.alternative(i as int, fresh))
                                    == abstract_w);
                            } else {
                                assert(told(
                                    ts@,
                                    ns@,
                                    &before,
                                    entries@[e2].0,
                                    entry_alternative(entries@, e2, a2),
                                ));
                                let (i3, a3) = choose|i3: int, a3: int|
                                    0 <= i3 < ns@.len() && ns@[i3] == entries@[e2].0 && 0 <= a3
                                        < before.rules@[i3]@.len() && decode_seq(
                                        ts@,
                                        ns@,
                                        #[trigger] before.alternative(i3, a3),
                                    ) == entry_alternative(entries@, e2, a2);
                                assert(decode_seq(ts@, ns@, d.alternative(i3, a3))
                                    == entry_alternative(entries@, e2, a2));
                            }
                        }
                    }
                }
            } else {
                proof {
                    let a3 = choose|a3: int|
                        0 <= a3 < d.rules@[i as int]@.len() && (#[trigger] d.rules@[i as int]@[a3])@
                            == w@;
                    assert(decode_seq(ts@, ns@, d.alternative(i as int, a3)) == abstract_w);
                    assert(told(ts@, ns@, &d, *lhs, abstract_w));
                }
            }
            a += 1;
        }
        e += 1;
    }
    proof {
        let g = grammar_view(ts@, ns@, entries@);
        assert(tells_only(ts@, ns@, &d, g)) by {
            assert forall|i: int, a: int|
                0 <= i < ns@.len() && 0 <= a < d.rules@[i]@.len() implies has_alternative(
                g,
                ns@[i],
                decode_seq(ts@, ns@, #[trigger] d.alternative(i, a)),
            ) by {
                let w = decode_seq(ts@, ns@, d.alternative(i, a));
                assert(listed(entries@, ns@[i], w));
                let (e2, a2) = choose|e2: int, a2: int|
                    0 <= e2 < entries@.len() && 0 <= a2 < entries@[e2].1@.len() && entries@[e2].0
                        == ns@[i] && #[trigger] entry_alternative(entries@, e2, a2) == w;
                assert(entries@[e2].0 == ns@[i]);
            }
        }
        assert forall|n: N, w: Seq<Symbol<T, N>>| #[trigger] has_alternative(g, n, w) implies told(
            ts@,
            ns@,
            &d,
            n,
            w,
        ) by {
            let (e2, a2) = choose|e2: int, a2: int|
                0 <= e2 < entries@.len() && 0 <= a2 < entries@[e2].1@.len() && entries@[e2].0 == n
                    && #[trigger] entry_alternative(entries@, e2, a2) == w;
            assert(told(ts@, ns@, &d, entries@[e2].0, entry_alternative(entries@, e2, a2)));
        }
    }
    d
}

} // verus!
