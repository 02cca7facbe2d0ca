use vstd::prelude::*;

verus! {

/// Number of indices `i` in `[0, n)` that satisfy `p`.
pub open spec fn count_when(n: int, p: spec_fn(int) -> bool) -> int
    decreases n,
{
    if n <= 0 {
        0
    } else {
        count_when(n - 1, p) + if p(n - 1) {
            1int
        } else {
            0int
        }
    }
}

pub proof fn lemma_count_when_bounds(n: int, p: spec_fn(int) -> bool)
    requires
        0 <= n,
    ensures
        0 <= count_when(n, p) <= n,
    decreases n,
{
    if n > 0 {
        lemma_count_when_bounds(n - 1, p);
    }
}

/// Predicates that agree on `[0, n)` count the same indices.
pub proof fn lemma_count_when_agree(n: int, p: spec_fn(int) -> bool, q: spec_fn(int) -> bool)
    requires
        forall|i: int| 0 <= i < n ==> #[trigger] p(i) == q(i),
    ensures
        count_when(n, p) == count_when(n, q),
    decreases n,
{
    if n > 0 {
        lemma_count_when_agree(n - 1, p, q);
    }
}

/// Changing a predicate at exactly one index shifts the count by the two indicators there.
pub proof fn lemma_count_when_update(
    n: int,
    p: spec_fn(int) -> bool,
    q: spec_fn(int) -> bool,
    j: int,
)
    requires
        0 <= j < n,
        forall|i: int| 0 <= i < n && i != j ==> #[trigger] p(i) == q(i),
    ensures
        count_when(n, q) == count_when(n, p) - (if p(j) {
            1int
        } else {
            0int
        }) + (if q(j) {
            1int
        } else {
            0int
        }),
    decreases n,
{
    if j == n - 1 {
        lemma_count_when_agree(n - 1, p, q);
    } else {
        lemma_count_when_update(n - 1, p, q, j);
    }
}

/// A predicate that holds everywhere on `[0, n)` counts every index.
pub proof fn lemma_count_when_all(n: int, p: spec_fn(int) -> bool)
    requires
        0 <= n,
        forall|i: int| 0 <= i < n ==> #[trigger] p(i),
    ensures
        count_when(n, p) == n,
    decreases n,
{
    if n > 0 {
        lemma_count_when_all(n - 1, p);
    }
}

/// A predicate that holds nowhere on `[0, n)` counts no index.
pub proof fn lemma_count_when_none(n: int, p: spec_fn(int) -> bool)
    requires
        forall|i: int| 0 <= i < n ==> !(#[trigger] p(i)),
    ensures
        count_when(n, p) == 0,
    decreases n,
{
    if n > 0 {
        lemma_count_when_none(n - 1, p);
    }
}

/// An index that satisfies the predicate puts the count at one or more.
pub proof fn lemma_count_when_ge_one(n: int, p: spec_fn(int) -> bool, j: int)
    requires
        0 <= j < n,
        p(j),
    ensures
        count_when(n, p) >= 1,
    decreases n,
{
    lemma_count_when_bounds(j, p);
    if j < n - 1 {
        lemma_count_when_ge_one(n - 1, p, j);
    }
}

/// Counts grow with the half-open range they are taken over.
pub proof fn lemma_count_when_monotone(n1: int, n2: int, p: spec_fn(int) -> bool)
    requires
        0 <= n1 <= n2,
    ensures
        count_when(n1, p) <= count_when(n2, p),
    decreases n2,
{
    if n1 < n2 {
        lemma_count_when_monotone(n1, n2 - 1, p);
    }
}

/// Disjoint predicates cannot together count more than the whole range.
pub proof fn lemma_count_when_disjoint_le(n: int, p: spec_fn(int) -> bool, q: spec_fn(int) -> bool)
    requires
        0 <= n,
        forall|i: int| 0 <= i < n ==> !(#[trigger] p(i) && q(i)),
    ensures
        count_when(n, p) + count_when(n, q) <= n,
    decreases n,
{
    if n > 0 {
        lemma_count_when_disjoint_le(n - 1, p, q);
    }
}

/// Products of nonnegative factors grow with the factors.
pub proof fn lemma_mul_bounds_upper(a: int, b: int, x: int, y: int)
    by (nonlinear_arith)
    requires
        0 <= a <= x,
        0 <= b <= y,
    ensures
        0 <= a * b <= x * y,
{
}

/// A row-major flat index stays inside a `rows * cols` grid.
pub proof fn lemma_flat_index_bounds(rows: int, cols: int, r: int, c: int)
    by (nonlinear_arith)
    requires
        0 <= r < rows,
        0 <= c < cols,
    ensures
        0 <= r * cols + c < rows * cols,
{
}

/// Every flat index inside a `rows * cols` grid decomposes into in-range
/// row-major coordinates.
pub proof fn lemma_flat_index_decompose(rows: int, cols: int, i: int)
    by (nonlinear_arith)
    requires
        1 <= cols,
        0 <= i < rows * cols,
    ensures
        0 <= i / cols < rows,
        0 <= i % cols < cols,
        (i / cols) * cols + (i % cols) == i,
{
}

/// Row-major flat indexing is injective on in-range coordinates.
pub proof fn lemma_flat_index_injective(cols: int, r1: int, c1: int, r2: int, c2: int)
    by (nonlinear_arith)
    requires
        0 <= c1 < cols,
        0 <= c2 < cols,
        0 <= r1,
        0 <= r2,
        r1 * cols + c1 == r2 * cols + c2,
    ensures
        r1 == r2 && c1 == c2,
{
}

} // verus!
