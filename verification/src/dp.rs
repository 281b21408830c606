use vstd::prelude::*;
use crate::grid::{cells_of, grid_fits, grid_get, grid_set, grid_zeros, Grid};
use crate::sims::{NODE_CAP, WEIGHT_CAP};

verus! {

/// The step that pairs the last row with the last column.
pub const DIAGONAL: u64 = 0;

/// The step that leaves the last row alone.
pub const UP: u64 = 1;

/// The step that leaves the last column alone.
pub const LEFT: u64 = 2;

/// A table of `n` rows and `m` columns.
pub open spec fn has_shape(w: Seq<Seq<u64>>, n: int, m: int) -> bool {
    &&& w.len() == n
    &&& forall|i: int| 0 <= i < n ==> (#[trigger] w[i]).len() == m
}

/// A table of weights, none above `WEIGHT_CAP`.
pub open spec fn is_weights(w: Seq<Seq<u64>>, n: int, m: int) -> bool {
    &&& has_shape(w, n, m)
    &&& forall|i: int, j: int| 0 <= i < n && 0 <= j < m ==> #[trigger] w[i][j] <= WEIGHT_CAP
}

/// The best of the three ways to reach a cell and the step that gives it. `d`, `u` and `l`
/// are what the diagonal, the upper and the left neighbour offer; of equal offers the
/// diagonal wins over the upper, and the upper over the left one. With `guard`, a pair
/// without weight is never matched.
pub open spec fn dp_step(weight: int, guard: bool, d: int, u: int, l: int) -> (int, int) {
    let first = if guard && weight <= 0 {
        (0int, 1int)
    } else if d > 0 {
        (d, 0int)
    } else {
        (0int, 0int)
    };
    let second = if u > first.0 {
        (u, 1int)
    } else {
        first
    };
    if l > second.0 {
        (l, 2int)
    } else {
        second
    }
}

/// The largest weight of an alignment of the first `i` rows with the first `j` columns.
pub open spec fn dp_value(w: Seq<Seq<u64>>, guard: bool, i: int, j: int) -> int
    decreases i + j,
{
    if i <= 0 || j <= 0 {
        0
    } else {
        dp_step(
            w[i - 1][j - 1] as int,
            guard,
            dp_value(w, guard, i - 1, j - 1) + w[i - 1][j - 1],
            dp_value(w, guard, i - 1, j),
            dp_value(w, guard, i, j - 1),
        ).0
    }
}

/// The step by which the best alignment reaches cell `(i, j)`.
pub open spec fn dp_choice(w: Seq<Seq<u64>>, guard: bool, i: int, j: int) -> int {
    if i <= 0 {
        2
    } else if j <= 0 {
        1
    } else {
        dp_step(
            w[i - 1][j - 1] as int,
            guard,
            dp_value(w, guard, i - 1, j - 1) + w[i - 1][j - 1],
            dp_value(w, guard, i - 1, j),
            dp_value(w, guard, i, j - 1),
        ).1
    }
}

/// No alignment of `i` rows weighs more than `i` times the largest weight.
pub proof fn lemma_dp_bound(w: Seq<Seq<u64>>, guard: bool, n: int, m: int, i: int, j: int)
    requires
        is_weights(w, n, m),
        0 <= i <= n,
        0 <= j <= m,
    ensures
        0 <= dp_value(w, guard, i, j) <= i * WEIGHT_CAP,
        0 <= dp_choice(w, guard, i, j) <= 2,
    decreases i + j,
{
    if i > 0 && j > 0 {
        lemma_dp_bound(w, guard, n, m, i - 1, j - 1);
        lemma_dp_bound(w, guard, n, m, i - 1, j);
        lemma_dp_bound(w, guard, n, m, i, j - 1);
        assert(w[i - 1][j - 1] <= WEIGHT_CAP);
    }
}

/// Whether tables for `n` rows and `m` columns can be made.
pub open spec fn dp_fits(n: int, m: int) -> bool {
    0 <= n <= NODE_CAP && 0 <= m <= NODE_CAP && grid_fits(n + 1, m + 1)
}

/// Whether tables for `n` rows and `m` columns can be made.
pub fn check_dp_fits(n: usize, m: usize) -> (ok: bool)
    ensures
        ok == dp_fits(n as int, m as int),
{
    if n > NODE_CAP || m > NODE_CAP {
        return false;
    }
    let rows: u128 = n as u128 + 1;
    let cols: u128 = m as u128 + 1;
    assert(rows * cols * 8 <= 0x1_0000_0000 * 0x1_0000_0000 * 8) by (nonlinear_arith)
        requires
            rows <= 0x1_0000_0000,
            cols <= 0x1_0000_0000,
    ;
    let cells: u128 = rows * cols * 8;
    assert(cells == (n + 1) * (m + 1) * 8);
    assert(rows <= rows * cols * 8 && cols <= rows * cols * 8) by (nonlinear_arith)
        requires
            rows >= 1,
            cols >= 1,
    ;
    cells <= isize::MAX as u128
}

/// The table of best weights and the table of steps for the weights `w`: cell `(i, j)` of
/// each is about the first `i` rows and the first `j` columns.
pub fn fill_tables(w: &Grid, n: usize, m: usize, guard: bool) -> (r: (Grid, Grid))
    requires
        is_weights(cells_of(*w), n as int, m as int),
        dp_fits(n as int, m as int),
    ensures
        has_shape(cells_of(r.0), n + 1, m + 1),
        has_shape(cells_of(r.1), n + 1, m + 1),
        forall|i: int, j: int|
            0 <= i <= n && 0 <= j <= m ==> #[trigger] cells_of(r.0)[i][j] == dp_value(
                cells_of(*w),
                guard,
                i,
                j,
            ),
        forall|i: int, j: int|
            0 <= i <= n && 0 <= j <= m ==> #[trigger] cells_of(r.1)[i][j] == dp_choice(
                cells_of(*w),
                guard,
                i,
                j,
            ),
{
    let ghost ws = cells_of(*w);
    let mut s = grid_zeros(n + 1, m + 1);
    let mut back = grid_zeros(n + 1, m + 1);
    let mut i: usize = 0;
    while i <= n
        invariant
            i <= n + 1,
            n <= NODE_CAP,
            m <= NODE_CAP,
            n + 1 <= isize::MAX,
            m + 1 <= isize::MAX,
            ws == cells_of(*w),
            is_weights(ws, n as int, m as int),
            has_shape(cells_of(s), n + 1, m + 1),
            has_shape(cells_of(back), n + 1, m + 1),
            forall|a: int, b: int|
                0 <= a < i && 0 <= b <= m ==> #[trigger] cells_of(s)[a][b] == dp_value(
                    ws,
                    guard,
                    a,
                    b,
                ),
            forall|a: int, b: int|
                0 <= a < i && 0 <= b <= m ==> #[trigger] cells_of(back)[a][b] == dp_choice(
                    ws,
                    guard,
                    a,
                    b,
                ),
        decreases n + 1 - i,
    {
        let mut j: usize = 0;
        while j <= m
            invariant
                i <= n,
                j <= m + 1,
                n <= NODE_CAP,
                m <= NODE_CAP,
                n + 1 <= isize::MAX,
                m + 1 <= isize::MAX,
                ws == cells_of(*w),
                is_weights(ws, n as int, m as int),
                has_shape(cells_of(s), n + 1, m + 1),
                has_shape(cells_of(back), n + 1, m + 1),
                forall|a: int, b: int|
                    0 <= a <= i && 0 <= b <= m && (a < i || b < j) ==> #[trigger] cells_of(
                        s,
                    )[a][b] == dp_value(ws, guard, a, b),
                forall|a: int, b: int|
                    0 <= a <= i && 0 <= b <= m && (a < i || b < j) ==> #[trigger] cells_of(
                        back,
                    )[a][b] == dp_choice(ws, guard, a, b),
            decreases m + 1 - j,
        {
            let ghost s0 = cells_of(s);
            let ghost b0 = cells_of(back);
            if i == 0 {
                grid_set(&mut s, i, j, 0);
                grid_set(&mut back, i, j, LEFT);
            } else if j == 0 {
                grid_set(&mut s, i, j, 0);
                grid_set(&mut back, i, j, UP);
            } else {
                let weight = grid_get(w, i - 1, j - 1);
                let diag = grid_get(&s, i - 1, j - 1);
                let up = grid_get(&s, i - 1, j);
                let left = grid_get(&s, i, j - 1);
                proof {
                    lemma_dp_bound(ws, guard, n as int, m as int, i - 1, j - 1);
                    lemma_dp_bound(ws, guard, n as int, m as int, i as int, j as int);
                    assert(ws[i - 1][j - 1] <= WEIGHT_CAP);
                    assert((i - 1) * WEIGHT_CAP + WEIGHT_CAP <= NODE_CAP * WEIGHT_CAP)
                        by (nonlinear_arith)
                        requires
                            1 <= i <= NODE_CAP,
                    ;
                }
                let d = diag + weight;
                let mut best: u64 = 0;
                let mut pt: u64 = DIAGONAL;
                if guard && weight == 0 {
                    pt = UP;
                } else if d > best {
                    best = d;
                }
                if up > best {
                    best = up;
                    pt = UP;
                }
                if left > best {
                    best = left;
                    pt = LEFT;
                }
                grid_set(&mut s, i, j, best);
                grid_set(&mut back, i, j, pt);
            }
            proof {
                assert forall|a: int, b: int|
                    0 <= a <= i && 0 <= b <= m && (a < i || b < j + 1) implies #[trigger] cells_of(
                    s,
                )[a][b] == dp_value(ws, guard, a, b) by {
                    if a == i && b == j {
                    } else {
                        assert(cells_of(s)[a][b] == s0[a][b]);
                    }
                }
                assert forall|a: int, b: int|
                    0 <= a <= i && 0 <= b <= m && (a < i || b < j + 1) implies #[trigger] cells_of(
                    back,
                )[a][b] == dp_choice(ws, guard, a, b) by {
                    if a == i && b == j {
                    } else {
                        assert(cells_of(back)[a][b] == b0[a][b]);
                    }
                }
            }
            j += 1;
        }
        i += 1;
    }
    (s, back)
}

} // verus!
