use vstd::arithmetic::div_mod::lemma_fundamental_div_mod_converse;
use vstd::prelude::*;

verus! {

/// The cell coordinate of a world coordinate: the quotient rounded toward
/// negative infinity, so that cells tile the negative half of the axis as
/// they tile the positive half.
pub open spec fn cell_coord(x: int, cell_size: int) -> int {
    x / cell_size
}

/// The value of the interval from `lo` to `hi` that is nearest to `x`.
pub open spec fn clamp(x: int, lo: int, hi: int) -> int {
    if x < lo {
        lo
    } else if x > hi {
        hi
    } else {
        x
    }
}

/// The lowest world coordinate of a cell and one past its highest.
pub proof fn lemma_cell_coord_bounds(x: int, cell_size: int)
    requires
        cell_size > 0,
    ensures
        cell_coord(x, cell_size) * cell_size <= x < (cell_coord(x, cell_size) + 1) * cell_size,
{
    vstd::arithmetic::div_mod::lemma_fundamental_div_mod(x, cell_size);
    vstd::arithmetic::div_mod::lemma_mod_bound(x, cell_size);
    assert((x / cell_size + 1) * cell_size == (x / cell_size) * cell_size + cell_size)
        by (nonlinear_arith);
    assert(cell_size * (x / cell_size) == (x / cell_size) * cell_size) by (nonlinear_arith);
}

/// A coordinate that is not smaller lies in a cell that is not smaller.
pub proof fn lemma_cell_coord_monotonic(x: int, y: int, cell_size: int)
    requires
        cell_size > 0,
        x <= y,
    ensures
        cell_coord(x, cell_size) <= cell_coord(y, cell_size),
{
    vstd::arithmetic::div_mod::lemma_div_is_ordered(x, y, cell_size);
}

/// The cell coordinate of an `i32` is an `i32`.
pub proof fn lemma_cell_coord_range(x: int, cell_size: int)
    requires
        cell_size > 0,
        i32::MIN <= x <= i32::MAX,
    ensures
        i32::MIN <= cell_coord(x, cell_size) <= i32::MAX,
{
    lemma_cell_coord_bounds(x, cell_size);
    let q = cell_coord(x, cell_size);
    if q > i32::MAX {
        assert(q * cell_size >= q) by (nonlinear_arith)
            requires
                q > 0,
                cell_size > 0,
        ;
    }
    if q < i32::MIN {
        assert((q + 1) * cell_size <= q + 1) by (nonlinear_arith)
            requires
                q + 1 <= 0,
                cell_size > 0,
        ;
    }
}

/// Division rounded toward negative infinity.
pub fn floor_div(x: i32, d: i32) -> (q: i32)
    requires
        d > 0,
    ensures
        q == cell_coord(x as int, d as int),
{
    let xi: i64 = x as i64;
    let di: i64 = d as i64;
    proof {
        lemma_cell_coord_range(x as int, d as int);
    }
    if xi >= 0 {
        (xi / di) as i32
    } else {
        let n: i64 = -xi - 1;
        let q: i64 = n / di;
        proof {
            let r = n as int % di as int;
            vstd::arithmetic::div_mod::lemma_fundamental_div_mod(n as int, di as int);
            vstd::arithmetic::div_mod::lemma_mod_bound(n as int, di as int);
            assert(xi as int == (-q - 1) * di + (di - 1 - r)) by (nonlinear_arith)
                requires
                    n as int == di * q + r,
                    n == -xi - 1,
            ;
            lemma_fundamental_div_mod_converse(xi as int, di as int, -q - 1, di - 1 - r);
        }
        (-q - 1) as i32
    }
}

} // verus!
