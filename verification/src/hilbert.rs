//! The Hilbert curve on a `2^k x 2^k` grid: the index of a cell, the cell of
//! an index, and the proof that the two are inverse to each other.

use vstd::prelude::*;
use vstd::arithmetic::power2::{lemma_pow2_pos, lemma_pow2_unfold, pow2};
use vstd::arithmetic::div_mod::lemma_fundamental_div_mod_converse;

verus! {

/// Side length of the grid at level `k`.
pub open spec fn side(k: nat) -> int {
    pow2(k) as int
}

/// Number of cells of the grid at level `k`.
pub open spec fn cells(k: nat) -> int {
    side(k) * side(k)
}

/// One step down the curve, in a square of side `2 * s`: the quadrant that
/// `(x, y)` lies in, by its place along the curve, and the cell's position
/// inside that quadrant after the quadrant is turned into standard position.
pub open spec fn descend(s: int, x: int, y: int) -> (int, int, int) {
    let rx = x >= s;
    let ry = y >= s;
    let xl = if rx {
        x - s
    } else {
        x
    };
    let yl = if ry {
        y - s
    } else {
        y
    };
    if ry {
        (
            if rx {
                2
            } else {
                1
            },
            xl,
            yl,
        )
    } else if rx {
        (3, s - 1 - yl, s - 1 - xl)
    } else {
        (0, yl, xl)
    }
}

/// One step up the curve: the cell of the square of side `2 * s` that lies in
/// quadrant `q` at position `(px, py)` of the turned quadrant.
pub open spec fn ascend(s: int, q: int, px: int, py: int) -> (int, int) {
    if q == 0 {
        (py, px)
    } else if q == 1 {
        (px, py + s)
    } else if q == 2 {
        (px + s, py + s)
    } else {
        (2 * s - 1 - py, s - 1 - px)
    }
}

/// Position of the cell `(x, y)` along the Hilbert curve of level `k`.
pub open spec fn hilbert_index(k: nat, x: int, y: int) -> int
    decreases k,
{
    if k == 0 {
        0
    } else {
        let step = descend(side((k - 1) as nat), x, y);
        step.0 * cells((k - 1) as nat) + hilbert_index((k - 1) as nat, step.1, step.2)
    }
}

/// The cell at position `d` along the Hilbert curve of level `k`.
pub open spec fn hilbert_point(k: nat, d: int) -> (int, int)
    decreases k,
{
    if k == 0 {
        (0, 0)
    } else {
        let below = hilbert_point((k - 1) as nat, d % cells((k - 1) as nat));
        ascend(side((k - 1) as nat), d / cells((k - 1) as nat), below.0, below.1)
    }
}

/// Whether `(x, y)` is a cell of the grid at level `k`.
pub open spec fn in_grid(k: nat, x: int, y: int) -> bool {
    0 <= x < side(k) && 0 <= y < side(k)
}

/// The grid at level 0 is a single cell.
pub proof fn lemma_level_zero()
    ensures
        side(0) == 1,
        cells(0) == 1,
{
    vstd::arithmetic::power2::lemma2_to64();
    assert(pow2(0) == 1);
    assert(side(0) == 1);
}

/// A level above the first has twice the side and four times the cells of the
/// level below.
pub proof fn lemma_level(k: nat)
    requires
        k > 0,
    ensures
        side((k - 1) as nat) >= 1,
        side(k) == 2 * side((k - 1) as nat),
        cells((k - 1) as nat) >= 1,
        cells(k) == 4 * cells((k - 1) as nat),
{
    lemma_pow2_pos((k - 1) as nat);
    lemma_pow2_unfold(k);
    let s = side((k - 1) as nat);
    assert(s * s >= 1) by (nonlinear_arith)
        requires
            s >= 1,
    ;
    assert((2 * s) * (2 * s) == 4 * (s * s)) by (nonlinear_arith);
}

/// The index of a cell of the grid is below the number of cells.
pub proof fn lemma_hilbert_index_range(k: nat, x: int, y: int)
    requires
        in_grid(k, x, y),
    ensures
        0 <= hilbert_index(k, x, y) < cells(k),
    decreases k,
{
    if k == 0 {
        lemma_level_zero();
    } else {
        lemma_level(k);
        let s = side((k - 1) as nat);
        let c = cells((k - 1) as nat);
        let step = descend(s, x, y);
        lemma_hilbert_index_range((k - 1) as nat, step.1, step.2);
        assert(0 <= step.0 * c <= 3 * c) by (nonlinear_arith)
            requires
                0 <= step.0 <= 3,
                c >= 1,
        ;
    }
}

/// The cell of an index below the number of cells lies in the grid.
pub proof fn lemma_hilbert_point_range(k: nat, d: int)
    requires
        0 <= d < cells(k),
    ensures
        in_grid(k, hilbert_point(k, d).0, hilbert_point(k, d).1),
    decreases k,
{
    if k == 0 {
        lemma_level_zero();
    } else {
        lemma_level(k);
        let c = cells((k - 1) as nat);
        lemma_quotient(d, c);
        lemma_hilbert_point_range((k - 1) as nat, d % c);
    }
}

/// Dividing a number below `4 * c` by `c` leaves a quotient below 4.
proof fn lemma_quotient(d: int, c: int)
    requires
        c >= 1,
        0 <= d < 4 * c,
    ensures
        0 <= d / c <= 3,
        0 <= d % c < c,
        d == (d / c) * c + d % c,
{
    vstd::arithmetic::div_mod::lemma_fundamental_div_mod(d, c);
    vstd::arithmetic::div_mod::lemma_mod_bound(d, c);
    let q = d / c;
    assert(c * q == q * c) by (nonlinear_arith);
    assert(0 <= q <= 3) by (nonlinear_arith)
        requires
            c >= 1,
            0 <= d < 4 * c,
            d == q * c + d % c,
            0 <= d % c < c,
    ;
}

/// The cell of the index of a cell is that cell.
pub proof fn lemma_point_of_index(k: nat, x: int, y: int)
    requires
        in_grid(k, x, y),
    ensures
        hilbert_point(k, hilbert_index(k, x, y)) == (x, y),
    decreases k,
{
    if k == 0 {
        lemma_level_zero();
    } else {
        lemma_level(k);
        let s = side((k - 1) as nat);
        let c = cells((k - 1) as nat);
        let step = descend(s, x, y);
        let low = hilbert_index((k - 1) as nat, step.1, step.2);
        lemma_hilbert_index_range((k - 1) as nat, step.1, step.2);
        lemma_point_of_index((k - 1) as nat, step.1, step.2);
        lemma_fundamental_div_mod_converse(step.0 * c + low, c, step.0, low);
    }
}

/// The index of the cell of an index is that index.
pub proof fn lemma_index_of_point(k: nat, d: int)
    requires
        0 <= d < cells(k),
    ensures
        hilbert_index(k, hilbert_point(k, d).0, hilbert_point(k, d).1) == d,
    decreases k,
{
    if k == 0 {
        lemma_level_zero();
    } else {
        lemma_level(k);
        let c = cells((k - 1) as nat);
        lemma_quotient(d, c);
        lemma_hilbert_point_range((k - 1) as nat, d % c);
        lemma_index_of_point((k - 1) as nat, d % c);
        let s = side((k - 1) as nat);
        let below = hilbert_point((k - 1) as nat, d % c);
        let p = ascend(s, d / c, below.0, below.1);
        assert(descend(s, p.0, p.1) == (d / c, below.0, below.1));
        assert(hilbert_point(k, d) == p);
        assert(hilbert_index(k, p.0, p.1) == (d / c) * c + hilbert_index(
            (k - 1) as nat,
            below.0,
            below.1,
        ));
    }
}

/// The Hilbert index is a bijection from the cells of the grid at level `k`
/// onto the numbers below the cell count: every index is in range, two cells
/// with one index are the same cell, and every number in range is the index
/// of a cell.
pub proof fn lemma_hilbert_bijection(k: nat)
    ensures
        forall|x: int, y: int|
            in_grid(k, x, y) ==> 0 <= #[trigger] hilbert_index(k, x, y) < cells(k),
        forall|x1: int, y1: int, x2: int, y2: int|
            in_grid(k, x1, y1) && in_grid(k, x2, y2) && #[trigger] hilbert_index(k, x1, y1)
                == #[trigger] hilbert_index(k, x2, y2) ==> x1 == x2 && y1 == y2,
        forall|d: int|
            0 <= d < cells(k) ==> in_grid(
                k,
                (#[trigger] hilbert_point(k, d)).0,
                hilbert_point(k, d).1,
            ) && hilbert_index(k, hilbert_point(k, d).0, hilbert_point(k, d).1) == d,
{
    assert forall|x: int, y: int| in_grid(k, x, y) implies 0 <= #[trigger] hilbert_index(k, x, y)
        < cells(k) by {
        lemma_hilbert_index_range(k, x, y);
    }
    assert forall|x1: int, y1: int, x2: int, y2: int|
        in_grid(k, x1, y1) && in_grid(k, x2, y2) && #[trigger] hilbert_index(k, x1, y1)
            == #[trigger] hilbert_index(k, x2, y2) implies x1 == x2 && y1 == y2 by {
        lemma_point_of_index(k, x1, y1);
        lemma_point_of_index(k, x2, y2);
    }
    assert forall|d: int| 0 <= d < cells(k) implies in_grid(
        k,
        (#[trigger] hilbert_point(k, d)).0,
        hilbert_point(k, d).1,
    ) && hilbert_index(k, hilbert_point(k, d).0, hilbert_point(k, d).1) == d by {
        lemma_hilbert_point_range(k, d);
        lemma_index_of_point(k, d);
    }
}

} // verus!
