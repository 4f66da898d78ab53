//! Lists read as sets: finding an element, dropping repetitions, copying.

use vstd::prelude::*;
use vstd::laws_eq::obeys_concrete_eq;

verus! {

/// Whether `a` and `b` are the same value.
pub fn same<A: Copy + PartialEq>(a: &A, b: &A) -> (r: bool)
    requires
        obeys_concrete_eq::<A>(),
    ensures
        r == (*a == *b),
{
    proof {
        reveal(obeys_concrete_eq);
    }
    *a == *b
}

/// The first position of `x` in `v`, if it occurs there.
pub fn position<A: Copy + PartialEq>(v: &Vec<A>, x: &A) -> (r: Option<usize>)
    requires
        obeys_concrete_eq::<A>(),
    ensures
        match r {
            Some(i) => i < v.len() && v@[i as int] == *x && forall|k: int|
                0 <= k < i ==> v@[k] != *x,
            None => !v@.contains(*x),
        },
{
    let mut i: usize = 0;
    while i < v.len()
        invariant
            i <= v.len(),
            obeys_concrete_eq::<A>(),
            forall|k: int| 0 <= k < i ==> v@[k] != *x,
        decreases v.len() - i,
    {
        if same(&v[i], x) {
            return Some(i);
        }
        i += 1;
    }
    None
}

/// `s` with every repetition of an element dropped.
pub open spec fn without_repeats<A>(s: Seq<A>) -> Seq<A>
    decreases s.len(),
{
    if s.len() == 0 {
        Seq::empty()
    } else {
        let front = without_repeats(s.drop_last());
        if front.contains(s.last()) {
            front
        } else {
            front.push(s.last())
        }
    }
}

/// Dropping repetitions leaves the same elements, each once.
pub proof fn lemma_without_repeats<A>(s: Seq<A>)
    ensures
        without_repeats(s).no_duplicates(),
        without_repeats(s).to_set() == s.to_set(),
        without_repeats(s).len() <= s.len(),
    decreases s.len(),
{
    if s.len() > 0 {
        let front = without_repeats(s.drop_last());
        lemma_without_repeats(s.drop_last());
        let r = without_repeats(s);
        assert forall|x: A| r.to_set().contains(x) <==> s.to_set().contains(x) by {
            if r.contains(x) {
                let i = choose|i: int| 0 <= i < r.len() && r[i] == x;
                if i < front.len() {
                    assert(front.contains(x));
                    assert(s.drop_last().to_set().contains(x));
                    let k = choose|k: int| 0 <= k < s.drop_last().len() && s.drop_last()[k] == x;
                    assert(s[k] == x);
                } else {
                    assert(x == s.last());
                }
            }
            if s.contains(x) {
                let k = choose|k: int| 0 <= k < s.len() && s[k] == x;
                if k < s.len() - 1 {
                    assert(s.drop_last()[k] == x);
                    assert(s.drop_last().to_set().contains(x));
                    assert(front.contains(x));
                    let i = choose|i: int| 0 <= i < front.len() && front[i] == x;
                    assert(r[i] == x);
                } else {
                    if front.contains(x) {
                    } else {
                        assert(r[front.len() as int] == x);
                    }
                }
            }
        }
        assert(r.to_set() =~= s.to_set());
    } else {
        assert(without_repeats(s).to_set() =~= s.to_set());
    }
}

/// The elements of `v`, each once, in the order of their first occurrence.
pub fn distinct<A: Copy + PartialEq>(v: &Vec<A>) -> (r: Vec<A>)
    requires
        obeys_concrete_eq::<A>(),
    ensures
        r@ == without_repeats(v@),
{
    let mut r: Vec<A> = Vec::new();
    let mut i: usize = 0;
    assert(v@.take(0) =~= Seq::<A>::empty());
    while i < v.len()
        invariant
            i <= v.len(),
            obeys_concrete_eq::<A>(),
            r@ == without_repeats(v@.take(i as int)),
        decreases v.len() - i,
    {
        assert(v@.take(i as int + 1).drop_last() =~= v@.take(i as int));
        if position(&r, &v[i]).is_none() {
            r.push(v[i]);
        }
        i += 1;
    }
    assert(v@.take(v.len() as int) =~= v@);
    r
}

/// A copy of `v`.
pub fn copy_list<A: Copy>(v: &Vec<A>) -> (r: Vec<A>)
    ensures
        r@ == v@,
{
    let mut r: Vec<A> = Vec::new();
    let mut i: usize = 0;
    while i < v.len()
        invariant
            i <= v.len(),
            r@ == v@.take(i as int),
        decreases v.len() - i,
    {
        r.push(v[i]);
        assert(r@ =~= v@.take(i as int + 1));
        i += 1;
    }
    assert(v@.take(v.len() as int) =~= v@);
    r
}

/// Appending an element adds it to the set of a list.
pub proof fn lemma_push_to_set<A>(s: Seq<A>, x: A)
    ensures
        s.push(x).to_set() == s.to_set().insert(x),
{
    assert forall|y: A| s.push(x).to_set().contains(y) <==> s.to_set().insert(x).contains(y) by {
        if s.push(x).contains(y) {
            let i = choose|i: int| 0 <= i < s.push(x).len() && s.push(x)[i] == y;
            if i < s.len() {
                assert(s[i] == y);
            }
        }
        if s.contains(y) {
            let i = choose|i: int| 0 <= i < s.len() && s[i] == y;
            assert(s.push(x)[i] == y);
        }
        if y == x {
            assert(s.push(x)[s.len() as int] == x);
        }
    }
    assert(s.push(x).to_set() =~= s.to_set().insert(x));
}

/// Adds to `dst` the elements of `src` that it lacks, in their order. What
/// `dst` held stays in front.
pub fn insert_all<A: Copy + PartialEq>(dst: &mut Vec<A>, src: &Vec<A>)
    requires
        obeys_concrete_eq::<A>(),
        old(dst)@.no_duplicates(),
    ensures
        final(dst)@.no_duplicates(),
        final(dst)@.to_set() == old(dst)@.to_set().union(src@.to_set()),
        final(dst)@.len() >= old(dst)@.len(),
        final(dst)@.take(old(dst)@.len() as int) == old(dst)@,
{
    let mut i: usize = 0;
    assert(src@.take(0).to_set() =~= Set::<A>::empty());
    assert(dst@.to_set().union(Set::<A>::empty()) =~= dst@.to_set());
    assert(dst@.take(dst@.len() as int) =~= dst@);
    while i < src.len()
        invariant
            i <= src.len(),
            obeys_concrete_eq::<A>(),
            dst@.no_duplicates(),
            dst@.to_set() == old(dst)@.to_set().union(src@.take(i as int).to_set()),
            dst@.len() >= old(dst)@.len(),
            dst@.take(old(dst)@.len() as int) == old(dst)@,
        decreases src.len() - i,
    {
        let ghost before = dst@;
        assert(src@.take(i as int + 1) =~= src@.take(i as int).push(src@[i as int]));
        proof {
            lemma_push_to_set(src@.take(i as int), src@[i as int]);
        }
        if position(dst, &src[i]).is_none() {
            dst.push(src[i]);
            proof {
                lemma_push_to_set(before, src@[i as int]);
                assert(dst@.take(old(dst)@.len() as int) =~= before.take(old(dst)@.len() as int));
            }
        } else {
            assert(before.to_set().contains(src@[i as int]));
        }
        assert(dst@.to_set() =~= old(dst)@.to_set().union(src@.take(i as int + 1).to_set()));
        i += 1;
    }
    assert(src@.take(src.len() as int) =~= src@);
}

/// The elements of `a` that `b` holds too, in the order of `a`.
pub fn common<A: Copy + PartialEq>(a: &Vec<A>, b: &Vec<A>) -> (r: Vec<A>)
    requires
        obeys_concrete_eq::<A>(),
        a@.no_duplicates(),
    ensures
        r@.no_duplicates(),
        r@.to_set() == a@.to_set().intersect(b@.to_set()),
{
    let mut r: Vec<A> = Vec::new();
    let mut i: usize = 0;
    assert(r@.to_set() =~= a@.take(0).to_set().intersect(b@.to_set()));
    while i < a.len()
        invariant
            i <= a.len(),
            obeys_concrete_eq::<A>(),
            a@.no_duplicates(),
            r@.no_duplicates(),
            r@.to_set() == a@.take(i as int).to_set().intersect(b@.to_set()),
        decreases a.len() - i,
    {
        let ghost before = r@;
        assert(a@.take(i as int + 1) =~= a@.take(i as int).push(a@[i as int]));
        proof {
            lemma_push_to_set(a@.take(i as int), a@[i as int]);
            if a@.take(i as int).contains(a@[i as int]) {
                let k = choose|k: int|
                    0 <= k < a@.take(i as int).len() && a@.take(i as int)[k] == a@[i as int];
                assert(a@[k] == a@[i as int]);
            }
        }
        if position(b, &a[i]).is_some() {
            r.push(a[i]);
            proof {
                lemma_push_to_set(before, a@[i as int]);
                assert(!before.to_set().contains(a@[i as int]));
            }
        }
        assert(r@.to_set() =~= a@.take(i as int + 1).to_set().intersect(b@.to_set()));
        i += 1;
    }
    assert(a@.take(a.len() as int) =~= a@);
    r
}

/// Whether every element of `a` is an element of `b`.
pub fn within<A: Copy + PartialEq>(a: &Vec<A>, b: &Vec<A>) -> (r: bool)
    requires
        obeys_concrete_eq::<A>(),
    ensures
        r == a@.to_set().subset_of(b@.to_set()),
{
    let mut i: usize = 0;
    while i < a.len()
        invariant
            i <= a.len(),
            obeys_concrete_eq::<A>(),
            forall|k: int| 0 <= k < i ==> b@.contains(#[trigger] a@[k]),
        decreases a.len() - i,
    {
        if position(b, &a[i]).is_none() {
            assert(a@.to_set().contains(a@[i as int]));
            return false;
        }
        i += 1;
    }
    assert forall|x: A| a@.to_set().contains(x) implies b@.to_set().contains(x) by {
        let k = choose|k: int| 0 <= k < a@.len() && a@[k] == x;
        assert(b@.contains(a@[k]));
    }
    true
}

/// Whether `a` and `b` hold the same elements.
pub fn same_set<A: Copy + PartialEq>(a: &Vec<A>, b: &Vec<A>) -> (r: bool)
    requires
        obeys_concrete_eq::<A>(),
    ensures
        r == (a@.to_set() == b@.to_set()),
{
    let r = within(a, b) && within(b, a);
    assert(r ==> a@.to_set() =~= b@.to_set());
    r
}

} // verus!
