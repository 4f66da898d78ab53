//! Rows of flags, read as finite sets of indices, and how many are set.

use vstd::prelude::*;

verus! {

/// The indices at which `row` holds `true`.
pub open spec fn row_set(row: Seq<bool>) -> Set<usize> {
    Set::new(|j: usize| j < row.len() && row[j as int])
}

/// How many entries of `row` are `true`.
pub open spec fn ones(row: Seq<bool>) -> nat
    decreases row.len(),
{
    if row.len() == 0 {
        0
    } else {
        ones(row.drop_last()) + if row.last() {
            1nat
        } else {
            0nat
        }
    }
}

/// No more entries are set than there are entries.
pub proof fn lemma_ones_bounded(row: Seq<bool>)
    ensures
        ones(row) <= row.len(),
    decreases row.len(),
{
    if row.len() > 0 {
        lemma_ones_bounded(row.drop_last());
    }
}

/// Setting an entry that was clear adds one to the count.
pub proof fn lemma_ones_set(row: Seq<bool>, j: int)
    requires
        0 <= j < row.len(),
        !row[j],
    ensures
        ones(row.update(j, true)) == ones(row) + 1,
    decreases row.len(),
{
    let after = row.update(j, true);
    if j == row.len() - 1 {
        assert(after.drop_last() =~= row.drop_last());
    } else {
        lemma_ones_set(row.drop_last(), j);
        assert(after.drop_last() =~= row.drop_last().update(j, true));
    }
}

/// The rows of a table as sequences.
pub open spec fn rows(table: Seq<Vec<bool>>) -> Seq<Seq<bool>> {
    Seq::new(table.len(), |i: int| table[i]@)
}

/// `t` has `n` rows of `m` entries each.
pub open spec fn shaped(t: Seq<Seq<bool>>, n: nat, m: nat) -> bool {
    &&& t.len() == n
    &&& forall|i: int| 0 <= i < n ==> (#[trigger] t[i]).len() == m
}

/// The set that each row of `t` stands for; rows that `t` lacks are empty.
pub open spec fn assignment(t: Seq<Seq<bool>>) -> spec_fn(usize) -> Set<usize> {
    |i: usize|
        if i < t.len() {
            row_set(t[i as int])
        } else {
            Set::empty()
        }
}

/// How many entries of `t` are `true`.
pub open spec fn total_ones(t: Seq<Seq<bool>>) -> nat
    decreases t.len(),
{
    if t.len() == 0 {
        0
    } else {
        total_ones(t.drop_last()) + ones(t.last())
    }
}

/// A table of `n` rows of `m` entries has at most `n * m` entries set.
pub proof fn lemma_total_ones_bounded(t: Seq<Seq<bool>>, n: nat, m: nat)
    requires
        shaped(t, n, m),
    ensures
        total_ones(t) <= n * m,
    decreases t.len(),
{
    if t.len() > 0 {
        lemma_total_ones_bounded(t.drop_last(), (n - 1) as nat, m);
        lemma_ones_bounded(t.last());
        assert((n - 1) * m + m == n * m) by (nonlinear_arith);
    } else {
        assert(0 * m == 0) by (nonlinear_arith);
    }
}

/// Appending a row adds its count.
pub proof fn lemma_total_ones_push(t: Seq<Seq<bool>>, row: Seq<bool>)
    ensures
        total_ones(t.push(row)) == total_ones(t) + ones(row),
{
    assert(t.push(row).drop_last() =~= t);
}

/// A copy of `src`.
pub fn copy_row(src: &Vec<bool>) -> (row: Vec<bool>)
    ensures
        row@ == src@,
{
    let mut row: Vec<bool> = Vec::new();
    let mut j: usize = 0;
    while j < src.len()
        invariant
            j <= src.len(),
            row@ == src@.take(j as int),
        decreases src.len() - j,
    {
        row.push(src[j]);
        assert(row@ =~= src@.take(j as int + 1));
        j += 1;
    }
    assert(src@.take(src.len() as int) =~= src@);
    row
}

/// A table of `n` rows of `m` clear flags.
pub fn cleared_table(n: usize, m: usize) -> (table: Vec<Vec<bool>>)
    ensures
        shaped(rows(table@), n as nat, m as nat),
        forall|i: int, j: int| 0 <= i < n && 0 <= j < m ==> !(#[trigger] rows(table@)[i][j]),
        total_ones(rows(table@)) == 0,
{
    let mut table: Vec<Vec<bool>> = Vec::new();
    while table.len() < n
        invariant
            table.len() <= n,
            shaped(rows(table@), table.len() as nat, m as nat),
            forall|i: int, j: int|
                0 <= i < table.len() && 0 <= j < m ==> !(#[trigger] rows(table@)[i][j]),
            total_ones(rows(table@)) == 0,
        decreases n - table.len(),
    {
        let ghost before = rows(table@);
        let row = cleared(m);
        table.push(row);
        assert(rows(table@) =~= before.push(row@));
        proof {
            lemma_total_ones_push(before, row@);
        }
    }
    table
}

/// A row of `n` clear flags.
pub fn cleared(n: usize) -> (row: Vec<bool>)
    ensures
        row.len() == n,
        forall|j: int| 0 <= j < n ==> !row[j],
        ones(row@) == 0,
{
    let mut row: Vec<bool> = Vec::new();
    while row.len() < n
        invariant
            row.len() <= n,
            forall|j: int| 0 <= j < row.len() ==> !row[j],
            ones(row@) == 0,
        decreases n - row.len(),
    {
        let ghost before = row@;
        row.push(false);
        assert(row@.drop_last() =~= before);
    }
    row
}

/// Sets entry `j` of `row` and says whether that changed the row.
pub fn set_flag(row: &mut Vec<bool>, j: usize) -> (changed: bool)
    requires
        j < old(row).len(),
    ensures
        final(row)@ == old(row)@.update(j as int, true),
        changed == !old(row)[j as int],
        ones(final(row)@) == ones(old(row)@) + if changed {
            1nat
        } else {
            0nat
        },
{
    if row[j] {
        assert(row@.update(j as int, true) =~= row@);
        false
    } else {
        proof {
            lemma_ones_set(row@, j as int);
        }
        row.set(j, true);
        true
    }
}

/// Adds to `dst` every index set in `src` and says whether that changed `dst`.
pub fn union_into(dst: &mut Vec<bool>, src: &Vec<bool>) -> (changed: bool)
    requires
        old(dst).len() == src.len(),
    ensures
        final(dst).len() == old(dst).len(),
        forall|j: int|
            0 <= j < src.len() ==> #[trigger] final(dst)@[j] == (old(dst)@[j] || src@[j]),
        changed == (final(dst)@ != old(dst)@),
        ones(final(dst)@) >= ones(old(dst)@),
        changed ==> ones(final(dst)@) > ones(old(dst)@),
{
    let mut changed = false;
    let mut j: usize = 0;
    while j < src.len()
        invariant
            j <= src.len(),
            dst.len() == src.len(),
            dst.len() == old(dst).len(),
            forall|k: int| 0 <= k < j ==> #[trigger] dst@[k] == (old(dst)@[k] || src@[k]),
            forall|k: int| j <= k < src.len() ==> #[trigger] dst@[k] == old(dst)@[k],
            changed == (dst@ != old(dst)@),
            ones(dst@) >= ones(old(dst)@),
            changed ==> ones(dst@) > ones(old(dst)@),
        decreases src.len() - j,
    {
        if src[j] {
            let ghost before = dst@;
            let c = set_flag(dst, j);
            if c {
                changed = true;
                assert(dst@[j as int] != old(dst)@[j as int]);
            } else {
                assert(dst@ =~= before);
            }
        }
        j += 1;
    }
    changed
}

/// Whether `a` and `b` have an index in common.
pub fn intersects(a: &Vec<bool>, b: &Vec<bool>) -> (r: bool)
    requires
        a.len() == b.len(),
    ensures
        r == exists|j: int| 0 <= j < a.len() && a[j] && b[j],
{
    let mut j: usize = 0;
    while j < a.len()
        invariant
            j <= a.len(),
            a.len() == b.len(),
            forall|k: int| 0 <= k < j ==> !(a[k] && b[k]),
        decreases a.len() - j,
    {
        if a[j] && b[j] {
            return true;
        }
        j += 1;
    }
    false
}

} // verus!
