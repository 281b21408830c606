use vstd::prelude::*;

verus! {

/// The sum of `f(u, v)` over the first `m` values of `v`.
pub open spec fn row_total(f: spec_fn(int, int) -> int, u: int, m: int) -> int
    decreases m,
{
    if m <= 0 {
        0
    } else {
        row_total(f, u, m - 1) + f(u, m - 1)
    }
}

/// The sum of `f(u, v)` over the first `n` values of `u` and the first `m` values of `v`.
pub open spec fn grid_total(f: spec_fn(int, int) -> int, n: int, m: int) -> int
    decreases n,
{
    if n <= 0 {
        0
    } else {
        grid_total(f, n - 1, m) + row_total(f, n - 1, m)
    }
}

pub proof fn lemma_row_le(f: spec_fn(int, int) -> int, g: spec_fn(int, int) -> int, u: int, m: int)
    requires
        forall|v: int| 0 <= v < m ==> #[trigger] f(u, v) <= g(u, v),
    ensures
        row_total(f, u, m) <= row_total(g, u, m),
    decreases m,
{
    if m > 0 {
        lemma_row_le(f, g, u, m - 1);
    }
}

/// Where one function lies below another at every place, so do their sums.
pub proof fn lemma_grid_le(f: spec_fn(int, int) -> int, g: spec_fn(int, int) -> int, n: int, m: int)
    requires
        forall|u: int, v: int| 0 <= u < n && 0 <= v < m ==> #[trigger] f(u, v) <= g(u, v),
    ensures
        grid_total(f, n, m) <= grid_total(g, n, m),
    decreases n,
{
    if n > 0 {
        lemma_grid_le(f, g, n - 1, m);
        lemma_row_le(f, g, n - 1, m);
    }
}

pub proof fn lemma_row_same(f: spec_fn(int, int) -> int, g: spec_fn(int, int) -> int, u: int, m: int)
    requires
        forall|v: int| 0 <= v < m ==> #[trigger] f(u, v) == g(u, v),
    ensures
        row_total(f, u, m) == row_total(g, u, m),
    decreases m,
{
    if m > 0 {
        lemma_row_same(f, g, u, m - 1);
    }
}

/// Functions that agree at every place have one sum.
pub proof fn lemma_grid_same(f: spec_fn(int, int) -> int, g: spec_fn(int, int) -> int, n: int, m: int)
    requires
        forall|u: int, v: int| 0 <= u < n && 0 <= v < m ==> #[trigger] f(u, v) == g(u, v),
    ensures
        grid_total(f, n, m) == grid_total(g, n, m),
    decreases n,
{
    if n > 0 {
        lemma_grid_same(f, g, n - 1, m);
        lemma_row_same(f, g, n - 1, m);
    }
}

pub proof fn lemma_row_point(
    f: spec_fn(int, int) -> int,
    g: spec_fn(int, int) -> int,
    u: int,
    m: int,
    b: int,
    d: int,
)
    requires
        forall|v: int| 0 <= v < m && v != b ==> #[trigger] g(u, v) == f(u, v),
        0 <= b < m ==> g(u, b) == f(u, b) + d,
    ensures
        row_total(g, u, m) == row_total(f, u, m) + (if 0 <= b < m {
            d
        } else {
            0
        }),
    decreases m,
{
    if m > 0 {
        lemma_row_point(f, g, u, m - 1, b, d);
    }
}

/// A function that differs from another at one place by `d` has a sum that differs by `d`.
pub proof fn lemma_grid_point(
    f: spec_fn(int, int) -> int,
    g: spec_fn(int, int) -> int,
    n: int,
    m: int,
    a: int,
    b: int,
    d: int,
)
    requires
        0 <= b < m,
        forall|u: int, v: int|
            0 <= u < n && 0 <= v < m && !(u == a && v == b) ==> #[trigger] g(u, v) == f(u, v),
        0 <= a < n ==> g(a, b) == f(a, b) + d,
    ensures
        grid_total(g, n, m) == grid_total(f, n, m) + (if 0 <= a < n {
            d
        } else {
            0
        }),
    decreases n,
{
    if n > 0 {
        lemma_grid_point(f, g, n - 1, m, a, b, d);
        if a == n - 1 {
            lemma_row_point(f, g, n - 1, m, b, d);
        } else {
            lemma_row_same(f, g, n - 1, m);
        }
    }
}

pub proof fn lemma_row_zero(f: spec_fn(int, int) -> int, u: int, m: int)
    requires
        forall|v: int| 0 <= v < m ==> #[trigger] f(u, v) == 0,
    ensures
        row_total(f, u, m) == 0,
    decreases m,
{
    if m > 0 {
        lemma_row_zero(f, u, m - 1);
    }
}

/// A function that is zero at every place sums to zero.
pub proof fn lemma_grid_zero(f: spec_fn(int, int) -> int, n: int, m: int)
    requires
        forall|u: int, v: int| 0 <= u < n && 0 <= v < m ==> #[trigger] f(u, v) == 0,
    ensures
        grid_total(f, n, m) == 0,
    decreases n,
{
    if n > 0 {
        lemma_grid_zero(f, n - 1, m);
        lemma_row_zero(f, n - 1, m);
    }
}

/// A row that is zero but at one place sums to what stands there.
pub proof fn lemma_row_single(f: spec_fn(int, int) -> int, u: int, m: int, b: int)
    requires
        forall|v: int| 0 <= v < m && v != b ==> #[trigger] f(u, v) == 0,
    ensures
        row_total(f, u, m) == (if 0 <= b < m {
            f(u, b)
        } else {
            0
        }),
    decreases m,
{
    if m > 0 {
        lemma_row_single(f, u, m - 1, b);
    }
}

pub proof fn lemma_row_nonneg(f: spec_fn(int, int) -> int, u: int, m: int, b: int)
    requires
        forall|v: int| 0 <= v < m ==> #[trigger] f(u, v) >= 0,
    ensures
        row_total(f, u, m) >= 0,
        0 <= b < m ==> row_total(f, u, m) >= f(u, b),
    decreases m,
{
    if m > 0 {
        lemma_row_nonneg(f, u, m - 1, b);
    }
}

/// The sum of a function that is nowhere negative is at least what stands at any one place.
pub proof fn lemma_grid_nonneg(f: spec_fn(int, int) -> int, n: int, m: int, a: int, b: int)
    requires
        forall|u: int, v: int| 0 <= u < n && 0 <= v < m ==> #[trigger] f(u, v) >= 0,
    ensures
        grid_total(f, n, m) >= 0,
        0 <= a < n && 0 <= b < m ==> grid_total(f, n, m) >= f(a, b),
    decreases n,
{
    if n > 0 {
        lemma_grid_nonneg(f, n - 1, m, a, b);
        lemma_row_nonneg(f, n - 1, m, b);
    }
}

} // verus!
