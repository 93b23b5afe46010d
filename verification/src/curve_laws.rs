//! What holds of the Hilbert curve: it stays inside its square, and the two
//! directions of the mapping undo each other.

use vstd::prelude::*;
use vstd::arithmetic::power2::{pow2, lemma_pow2_pos, lemma_pow2_unfold};
use vstd::arithmetic::div_mod::{
    lemma_breakdown,
    lemma_fundamental_div_mod_converse,
    lemma_hoist_over_denominator,
    lemma_mod_multiples_vanish,
    lemma_small_mod,
};
use crate::bits::lemma_mirrored_remainder;
use crate::curve::{curve_index, curve_point, rotated};
use crate::pos::Pos2;

verus! {

/// The number of cells of the square of the given order.
pub open spec fn cells(order: nat) -> nat {
    pow2(order) * pow2(order)
}

/// The square of order `order` has four times the cells of the one below.
pub proof fn lemma_cells_unfold(order: nat)
    requires
        order > 0,
    ensures
        pow2(order) == 2 * pow2((order - 1) as nat),
        cells(order) == 4 * cells((order - 1) as nat),
        cells((order - 1) as nat) > 0,
{
    let side = pow2((order - 1) as nat);
    lemma_pow2_unfold(order);
    lemma_pow2_pos((order - 1) as nat);
    assert((2 * side) * (2 * side) == 4 * (side * side)) by (nonlinear_arith);
    assert(side * side > 0) by (nonlinear_arith)
        requires
            side > 0,
    ;
}

/// A square of higher order has at least as many cells.
pub proof fn lemma_cells_monotonic(low: nat, high: nat)
    requires
        low <= high,
    ensures
        pow2(low) <= pow2(high),
        cells(low) <= cells(high),
{
    if low < high {
        vstd::arithmetic::power2::lemma_pow2_strictly_increases(low, high);
    }
    assert(pow2(low) * pow2(low) <= pow2(high) * pow2(high)) by (nonlinear_arith)
        requires
            pow2(low) <= pow2(high),
    ;
}

/// The curve never leaves its square.
pub proof fn lemma_point_in_square(order: nat, value: nat)
    ensures
        curve_point(order, value).x < pow2(order),
        curve_point(order, value).y < pow2(order),
    decreases order,
{
    if order == 0 {
        lemma_pow2_pos(0);
    } else {
        lemma_cells_unfold(order);
        lemma_point_in_square((order - 1) as nat, value);
    }
}

/// Every cell of the square is reached before the curve ends.
pub proof fn lemma_index_in_range(order: nat, pos: Pos2<nat>)
    requires
        pos.x < pow2(order),
        pos.y < pow2(order),
    ensures
        curve_index(order, pos) < cells(order),
    decreases order,
{
    if order == 0 {
        lemma_pow2_pos(0);
        assert(pow2(0) * pow2(0) > 0) by (nonlinear_arith)
            requires
                pow2(0) > 0,
        ;
    } else {
        lemma_cells_unfold(order);
        let side = pow2((order - 1) as nat);
        let below = (order - 1) as nat;
        if pos.y < side {
            if pos.x < side {
                lemma_index_in_range(below, Pos2 { x: pos.y, y: pos.x });
            } else {
                lemma_index_in_range(
                    below,
                    Pos2 { x: (side - 1 - pos.y) as nat, y: (2 * side - 1 - pos.x) as nat },
                );
            }
        } else {
            if pos.x < side {
                lemma_index_in_range(below, Pos2 { x: pos.x, y: (pos.y - side) as nat });
            } else {
                lemma_index_in_range(
                    below,
                    Pos2 { x: (pos.x - side) as nat, y: (pos.y - side) as nat },
                );
            }
        }
    }
}

/// Whole turns of the curve do not move the point: only `value` modulo the
/// number of cells counts.
pub proof fn lemma_point_periodic(order: nat, turns: nat, value: nat)
    ensures
        curve_point(order, turns * cells(order) + value) == curve_point(order, value),
    decreases order,
{
    if order > 0 {
        lemma_cells_unfold(order);
        let below = (order - 1) as nat;
        let block = cells(below);
        let shifted = turns * cells(order) + value;
        assert(shifted == (4 * turns) * block + value) by (nonlinear_arith)
            requires
                shifted == turns * cells(order) + value,
                cells(order) == 4 * block,
        ;
        lemma_point_periodic(below, 4 * turns, value);
        lemma_hoist_over_denominator(value as int, (4 * turns) as int, block);
        lemma_mod_multiples_vanish(turns as int, value as int / block as int, 4);
        assert((shifted / block) % 4 == (value / block) % 4);
    }
}

/// Following the curve for `value` steps and asking how many steps lead to
/// the cell reached gives `value` back, up to whole turns of the curve.
pub proof fn lemma_index_of_point_wraps(order: nat, value: nat)
    ensures
        cells(order) > 0,
        curve_index(order, curve_point(order, value)) == value % cells(order),
    decreases order,
{
    if order == 0 {
        vstd::arithmetic::power2::lemma2_to64();
        assert(cells(0) == 1);
    } else {
        lemma_cells_unfold(order);
        let below = (order - 1) as nat;
        let block = cells(below);
        lemma_point_in_square(below, value);
        lemma_index_of_point_wraps(below, value);
        lemma_breakdown(value as int, block as int, 4);
        assert(block * 4 == cells(order));
        let quadrant = (value / block) % 4;
        assert(curve_index(order, curve_point(order, value)) == quadrant * block + value % block);
        assert(block * quadrant == quadrant * block) by (nonlinear_arith);
    }
}

/// The round trip from a step count to its cell and back is the identity on
/// the steps of the curve.
pub proof fn lemma_index_of_point(order: nat, value: nat)
    requires
        value < cells(order),
    ensures
        curve_index(order, curve_point(order, value)) == value,
{
    lemma_index_of_point_wraps(order, value);
    lemma_small_mod(value, cells(order));
}

/// The round trip from a cell to its step count and back is the identity on
/// the cells of the square.
pub proof fn lemma_point_of_index(order: nat, pos: Pos2<nat>)
    requires
        pos.x < pow2(order),
        pos.y < pow2(order),
    ensures
        curve_point(order, curve_index(order, pos)) == pos,
    decreases order,
{
    if order == 0 {
        vstd::arithmetic::power2::lemma2_to64();
    } else {
        lemma_cells_unfold(order);
        let below = (order - 1) as nat;
        let side = pow2(below);
        let block = cells(below);
        let inner = if pos.y < side {
            if pos.x < side {
                Pos2 { x: pos.y, y: pos.x }
            } else {
                Pos2 { x: (side - 1 - pos.y) as nat, y: (2 * side - 1 - pos.x) as nat }
            }
        } else {
            if pos.x < side {
                Pos2 { x: pos.x, y: (pos.y - side) as nat }
            } else {
                Pos2 { x: (pos.x - side) as nat, y: (pos.y - side) as nat }
            }
        };
        let quadrant: nat = if pos.y < side {
            if pos.x < side { 0 } else { 3 }
        } else {
            if pos.x < side { 1 } else { 2 }
        };
        let rest = curve_index(below, inner);
        let index = curve_index(order, pos);
        assert(index == quadrant * block + rest);
        lemma_index_in_range(below, inner);
        lemma_point_of_index(below, inner);
        lemma_point_periodic(below, quadrant, rest);
        lemma_fundamental_div_mod_converse(index as int, block as int, quadrant as int, rest as int);
        assert((index / block) % 4 == quadrant);
        assert(curve_point(below, index) == inner);
    }
}

/// The column bit of the quadrant that comes at the given place in the order
/// in which the curve runs through the four quadrants.
pub open spec fn digit_column(digit: nat) -> nat {
    if digit == 2 || digit == 3 { 1 } else { 0 }
}

/// The row bit of the quadrant that comes at the given place in the order in
/// which the curve runs through the four quadrants.
pub open spec fn digit_row(digit: nat) -> nat {
    if digit == 1 || digit == 2 { 1 } else { 0 }
}

/// One level of the ascent from a step count to its cell.
///
/// The cell on the curve of order `order + 1` is the cell on the curve of
/// order `order`, turned by the rule of the quadrant that the next base-4
/// digit of `value` names, inside a square of side `2^order`, and then moved
/// into that quadrant.
pub proof fn lemma_ascend(order: nat, value: nat)
    ensures
        ({
            let side = pow2(order);
            let digit = (value / cells(order)) % 4;
            let check = Pos2 { x: digit_column(digit), y: digit_row(digit) };
            let turned = rotated(curve_point(order, value), check, side);
            curve_point(order + 1, value) == Pos2 {
                x: turned.x + side * check.x,
                y: turned.y + side * check.y,
            }
        }),
{
    let side = pow2(order);
    let digit = (value / cells(order)) % 4;
    let column = digit_column(digit);
    let row = digit_row(digit);
    let inner = curve_point(order, value);
    lemma_point_in_square(order, value);
    assert(pow2(((order + 1) - 1) as nat) == side);
    assert(curve_point(((order + 1) - 1) as nat, value) == inner);
    assert(side * column == (if column == 1 { side } else { 0 })) by (nonlinear_arith)
        requires
            column == 0 || column == 1,
    ;
    assert(side * row == (if row == 1 { side } else { 0 })) by (nonlinear_arith)
        requires
            row == 0 || row == 1,
    ;
    if digit == 0 {
        assert(curve_point(order + 1, value) == Pos2 { x: inner.y, y: inner.x });
    } else if digit == 1 {
        assert(curve_point(order + 1, value) == Pos2 { x: inner.x, y: inner.y + side });
    } else if digit == 2 {
        assert(curve_point(order + 1, value) == Pos2 { x: inner.x + side, y: inner.y + side });
    } else {
        assert(curve_point(order + 1, value) == Pos2 {
            x: (2 * side - 1 - inner.y) as nat,
            y: (side - 1 - inner.x) as nat,
        });
    }
}

/// The binary digit of `x` that decides on which side of a square of side
/// `2 * side` the coordinate lies.
pub open spec fn level_bit(x: nat, side: nat) -> nat {
    (x / side) % 2
}

/// The place of a quadrant, named by its column and row bit, in the order in
/// which the curve runs through the four quadrants.
pub open spec fn quadrant_digit(column: nat, row: nat) -> nat {
    if row == 0 {
        if column == 0 { 0 } else { 3 }
    } else {
        if column == 0 { 1 } else { 2 }
    }
}

/// One level of the descent from a cell to its step count.
///
/// Of a cell inside a square of side `span`, a whole number of `2^level`s,
/// only the remainders modulo `2^(level + 1)` are looked at. Their index on
/// the curve of order `level + 1` is the digit of their quadrant, in blocks
/// of `cells(level)`, plus the index on the curve of order `level` of the cell
/// turned by the quadrant's rule inside the square of side `span`.
pub proof fn lemma_descend(level: nat, span: nat, count: nat, cell: Pos2<nat>)
    requires
        span == count * pow2(level),
        cell.x < span,
        cell.y < span,
    ensures
        ({
            let side = pow2(level);
            let check = Pos2 { x: level_bit(cell.x, side), y: level_bit(cell.y, side) };
            let turned = rotated(cell, check, span);
            &&& turned.x < span
            &&& turned.y < span
            &&& curve_index(level + 1, Pos2 { x: cell.x % (2 * side), y: cell.y % (2 * side) })
                == quadrant_digit(check.x, check.y) * cells(level) + curve_index(
                level,
                Pos2 { x: turned.x % side, y: turned.y % side },
            )
        }),
{
    let side = pow2(level);
    let block = cells(level);
    lemma_cells_unfold(level + 1);
    assert(pow2(((level + 1) - 1) as nat) == side);
    let column = level_bit(cell.x, side);
    let row = level_bit(cell.y, side);
    let turned = rotated(cell, Pos2 { x: column, y: row }, span);
    let low = Pos2 { x: cell.x % (2 * side), y: cell.y % (2 * side) };
    lemma_breakdown(cell.x as int, side as int, 2);
    lemma_breakdown(cell.y as int, side as int, 2);
    assert(side * 2 == 2 * side);
    assert(low.x == side * column + cell.x % side);
    assert(low.y == side * row + cell.y % side);
    assert(side * column == (if column == 1 { side } else { 0 })) by (nonlinear_arith)
        requires
            column == 0 || column == 1,
    ;
    assert(side * row == (if row == 1 { side } else { 0 })) by (nonlinear_arith)
        requires
            row == 0 || row == 1,
    ;
    lemma_mirrored_remainder(span, count, side, cell.x);
    lemma_mirrored_remainder(span, count, side, cell.y);
    let inner = Pos2 { x: turned.x % side, y: turned.y % side };
    let digit = quadrant_digit(column, row);
    assert(digit * block == (if digit == 0 {
        0
    } else if digit == 1 {
        block
    } else if digit == 2 {
        2 * block
    } else {
        3 * block
    })) by (nonlinear_arith)
        requires
            0 <= digit <= 3,
    ;
    if row == 0 {
        assert(low.y < side);
        if column == 0 {
            assert(low.x < side);
            assert(inner == Pos2 { x: low.y, y: low.x });
            assert(curve_index(level + 1, low) == curve_index(level, inner));
        } else {
            assert(low.x >= side);
            assert(turned.x == span - 1 - cell.y);
            assert(turned.y == span - 1 - cell.x);
            assert(inner == Pos2 {
                x: (side - 1 - low.y) as nat,
                y: (2 * side - 1 - low.x) as nat,
            });
            assert(curve_index(level + 1, low) == 3 * block + curve_index(level, inner));
        }
    } else {
        assert(low.y >= side);
        assert(turned == cell);
        if column == 0 {
            assert(low.x < side);
            assert(inner == Pos2 { x: low.x, y: (low.y - side) as nat });
            assert(curve_index(level + 1, low) == block + curve_index(level, inner));
        } else {
            assert(low.x >= side);
            assert(inner == Pos2 { x: (low.x - side) as nat, y: (low.y - side) as nat });
            assert(curve_index(level + 1, low) == 2 * block + curve_index(level, inner));
        }
    }
    assert(turned.x < span && turned.y < span);
    assert(curve_index(level + 1, low) == digit * block + curve_index(level, inner));
}

} // verus!
