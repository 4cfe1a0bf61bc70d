use vstd::prelude::*;

verus! {

/// Row-major index of cell (`x`, `y`) in a square grid of side `n`.
pub open spec fn cell_index(x: int, y: int, n: nat) -> int {
    y * n + x
}

/// Number of `true` entries of `s`.
pub open spec fn count_true(s: Seq<bool>) -> nat
    decreases s.len(),
{
    if s.len() == 0 {
        0
    } else {
        count_true(s.drop_last()) + if s.last() {
            1nat
        } else {
            0nat
        }
    }
}

/// A cell inside the grid has an index inside the flat sequence.
pub proof fn lemma_cell_index_bounds(x: int, y: int, n: nat)
    requires
        0 <= x < n,
        0 <= y < n,
    ensures
        0 <= cell_index(x, y, n) < n * n,
{
    assert(0 <= y * n && y * n + n <= n * n) by (nonlinear_arith)
        requires
            0 <= y < n,
    ;
}

/// Different cells have different indices.
pub proof fn lemma_cell_index_distinct(x1: int, y1: int, x2: int, y2: int, n: nat)
    requires
        0 <= x1 < n,
        0 <= x2 < n,
        x1 != x2 || y1 != y2,
    ensures
        cell_index(x1, y1, n) != cell_index(x2, y2, n),
{
    if y1 < y2 {
        assert(y1 * n + n <= y2 * n) by (nonlinear_arith)
            requires
                y1 < y2,
        ;
    } else if y2 < y1 {
        assert(y2 * n + n <= y1 * n) by (nonlinear_arith)
            requires
                y2 < y1,
        ;
    }
}

/// Every index of the flat sequence is the index of a cell inside the grid.
pub proof fn lemma_index_is_cell(k: int, n: nat)
    requires
        0 <= k < n * n,
    ensures
        0 <= k % (n as int) < n,
        0 <= k / (n as int) < n,
        cell_index(k % (n as int), k / (n as int), n) == k,
{
    assert(n > 0) by (nonlinear_arith)
        requires
            0 <= k < n * n,
    ;
    let d = n as int;
    assert(0 <= k % d < d && k / d >= 0 && k / d < d && (k / d) * d + k % d == k)
        by (nonlinear_arith)
        requires
            0 <= k < d * d,
            d > 0,
    ;
}

/// There are no more `true` entries than entries.
pub proof fn lemma_count_bounds(s: Seq<bool>)
    ensures
        count_true(s) <= s.len(),
    decreases s.len(),
{
    if s.len() > 0 {
        lemma_count_bounds(s.drop_last());
    }
}

/// The count is zero exactly when no entry is `true`.
pub proof fn lemma_count_zero(s: Seq<bool>)
    ensures
        count_true(s) == 0 <==> forall|i: int| 0 <= i < s.len() ==> !s[i],
    decreases s.len(),
{
    if s.len() > 0 {
        let t = s.drop_last();
        lemma_count_zero(t);
        if count_true(s) == 0 {
            assert forall|i: int| 0 <= i < s.len() implies !s[i] by {
                if i < t.len() {
                    assert(t[i] == s[i]);
                }
            }
        }
        if forall|i: int| 0 <= i < s.len() ==> !s[i] {
            assert forall|i: int| 0 <= i < t.len() implies !t[i] by {
                assert(t[i] == s[i]);
            }
            assert(!s[s.len() - 1]);
        }
    }
}

/// The count equals the length exactly when every entry is `true`.
pub proof fn lemma_count_full(s: Seq<bool>)
    ensures
        count_true(s) == s.len() <==> forall|i: int| 0 <= i < s.len() ==> s[i],
    decreases s.len(),
{
    if s.len() > 0 {
        let t = s.drop_last();
        lemma_count_full(t);
        lemma_count_bounds(t);
        if count_true(s) == s.len() {
            assert forall|i: int| 0 <= i < s.len() implies s[i] by {
                if i < t.len() {
                    assert(t[i] == s[i]);
                }
            }
        }
        if forall|i: int| 0 <= i < s.len() ==> s[i] {
            assert forall|i: int| 0 <= i < t.len() implies t[i] by {
                assert(t[i] == s[i]);
            }
            assert(s[s.len() - 1]);
        }
    }
}

/// Writing one entry changes the count by what that entry gains or loses.
pub proof fn lemma_count_update(s: Seq<bool>, i: int, v: bool)
    requires
        0 <= i < s.len(),
    ensures
        count_true(s.update(i, v)) + (if s[i] {
            1nat
        } else {
            0nat
        }) == count_true(s) + (if v {
            1nat
        } else {
            0nat
        }),
    decreases s.len(),
{
    let u = s.update(i, v);
    if i == s.len() - 1 {
        assert(u.drop_last() =~= s.drop_last());
    } else {
        assert(u.drop_last() =~= s.drop_last().update(i, v));
        lemma_count_update(s.drop_last(), i, v);
    }
}

} // verus!
