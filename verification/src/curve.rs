//! The Hilbert curve on a square whose side is a power of two.
//!
//! The curve of order `k` visits every cell of a square of side `2^k` once.
//! It is given here by its recursive construction: the square is cut into four
//! quadrants, each holding a turned copy of the curve of order `k - 1`, and
//! the curve runs through the lower left, upper left, upper right and lower
//! right quadrant in this order (rows counted upwards from `y == 0`).

use vstd::prelude::*;
use vstd::arithmetic::power2::{pow2, lemma_pow2_pos, lemma_pow2_unfold, lemma_pow2_adds, lemma2_to64};
use vstd::arithmetic::div_mod::{lemma_div_denominator, lemma_small_mod};
use crate::bits::{
    column_bit,
    row_bit,
    lemma_digit_bits,
    lemma_mask_tests_digit,
    lemma_quadrant_digit,
    lemma_odd_multiple,
};
use crate::curve_laws::{
    cells,
    digit_column,
    digit_row,
    lemma_ascend,
    level_bit,
    quadrant_digit,
    lemma_descend,
    lemma_cells_monotonic,
    lemma_cells_unfold,
    lemma_index_in_range,
    lemma_point_in_square,
};
use crate::error::Error;
use crate::pos::Pos2;

verus! {

/// Whether `n` is `2^k` for some `k`.
pub open spec fn power_of_two(n: nat) -> bool {
    exists|k: nat| n == pow2(k)
}

/// The rule that turns a sub-square so that consecutive quadrants of the curve
/// join up.
///
/// `check` names a quadrant by its column and row, each 0 or 1. In the upper
/// row nothing moves. In the lower row the point is mirrored on the diagonal,
/// and in the lower right quadrant it is first reflected through the centre of
/// a square of side `side`.
pub open spec fn rotated(pos: Pos2<nat>, check: Pos2<nat>, side: nat) -> Pos2<nat> {
    if check.y != 0 {
        pos
    } else if check.x == 1 {
        Pos2 { x: (side - 1 - pos.y) as nat, y: (side - 1 - pos.x) as nat }
    } else {
        Pos2 { x: pos.y, y: pos.x }
    }
}

/// The cell that the curve of the given order reaches after `value` steps.
///
/// With `side = 2^(order - 1)`, the steps are taken in blocks of `side * side`:
/// the block number, modulo 4, selects the quadrant, and the position inside
/// the quadrant is that of the curve one order lower, turned to fit. Steps
/// beyond the end of the curve wrap around.
pub open spec fn curve_point(order: nat, value: nat) -> Pos2<nat>
    decreases order,
{
    if order == 0 {
        Pos2 { x: 0, y: 0 }
    } else {
        let side = pow2((order - 1) as nat);
        let inner = curve_point((order - 1) as nat, value);
        let quadrant = (value / (side * side)) % 4;
        if quadrant == 0 {
            Pos2 { x: inner.y, y: inner.x }
        } else if quadrant == 1 {
            Pos2 { x: inner.x, y: inner.y + side }
        } else if quadrant == 2 {
            Pos2 { x: inner.x + side, y: inner.y + side }
        } else {
            Pos2 { x: (2 * side - 1 - inner.y) as nat, y: (side - 1 - inner.x) as nat }
        }
    }
}

/// The number of steps after which the curve of the given order reaches `pos`.
///
/// The quadrant that holds `pos` contributes a whole number of blocks of
/// `side * side` steps, with `side = 2^(order - 1)`; the rest is the index of
/// `pos`, turned back, on the curve one order lower.
pub open spec fn curve_index(order: nat, pos: Pos2<nat>) -> nat
    recommends
        pos.x < pow2(order),
        pos.y < pow2(order),
    decreases order,
{
    if order == 0 {
        0
    } else {
        let side = pow2((order - 1) as nat);
        let block = side * side;
        let below = (order - 1) as nat;
        if pos.y < side {
            if pos.x < side {
                curve_index(below, Pos2 { x: pos.y, y: pos.x })
            } else {
                3 * block + curve_index(
                    below,
                    Pos2 { x: (side - 1 - pos.y) as nat, y: (2 * side - 1 - pos.x) as nat },
                )
            }
        } else {
            if pos.x < side {
                block + curve_index(below, Pos2 { x: pos.x, y: (pos.y - side) as nat })
            } else {
                2 * block + curve_index(
                    below,
                    Pos2 { x: (pos.x - side) as nat, y: (pos.y - side) as nat },
                )
            }
        }
    }
}

/// The Hilbert curve of one order, as a mapping between step counts and cells.
pub struct HilbertCurve {
    order: usize,
}

impl HilbertCurve {
    #[verifier::type_invariant]
    spec fn side_fits(&self) -> bool {
        pow2(self.order as nat) <= usize::MAX
    }

    /// The order of the curve.
    pub closed spec fn spec_order(&self) -> nat {
        self.order as nat
    }

    /// The side of the square that the curve fills.
    pub open spec fn side(&self) -> nat {
        pow2(self.spec_order())
    }

    /// The curve on a square of side `size`, which has to be a power of two.
    pub fn new(size: usize) -> (made: Result<HilbertCurve, Error>)
        ensures
            match made {
                Ok(curve) => curve.side() == size,
                Err(e) => e == Error::InvalidDimensions && !power_of_two(size as nat),
            },
    {
        if size == 0 {
            proof {
                assert forall|k: nat| size != pow2(k) by {
                    lemma_pow2_pos(k);
                }
            }
            return Err(Error::InvalidDimensions);
        }
        let mut order: usize = 0;
        let mut current: usize = size;
        proof {
            lemma2_to64();
        }
        while current > 1
            invariant
                current >= 1,
                current * pow2(order as nat) == size,
                order + current <= size,
            decreases current,
        {
            if current % 2 != 0 {
                proof {
                    assert forall|k: nat| size != pow2(k) by {
                        lemma_odd_multiple(current as nat, order as nat, k);
                    }
                }
                return Err(Error::InvalidDimensions);
            }
            proof {
                lemma_pow2_unfold((order + 1) as nat);
                assert(current * pow2(order as nat) == (current / 2) * (2 * pow2(order as nat)))
                    by (nonlinear_arith)
                    requires
                        current % 2 == 0,
                ;
            }
            current = current / 2;
            order = order + 1;
        }
        Ok(HilbertCurve { order })
    }

    /// The order of the curve: the side of its square is two to this power.
    pub fn order(&self) -> (order: usize)
        ensures
            order == self.spec_order(),
    {
        self.order
    }

    /// The side of the square that the curve fills.
    pub fn size(&self) -> (side: usize)
        ensures
            side == self.side(),
    {
        proof {
            use_type_invariant(self);
            lemma2_to64();
        }
        let mut side: usize = 1;
        let mut level: usize = 0;
        while level < self.order
            invariant
                level <= self.order,
                side == pow2(level as nat),
                pow2(self.order as nat) <= usize::MAX,
            decreases self.order - level,
        {
            proof {
                lemma_pow2_unfold((level + 1) as nat);
                lemma_cells_monotonic((level + 1) as nat, self.order as nat);
            }
            side = side * 2;
            level = level + 1;
        }
        side
    }

    /// Turns `pos` as the quadrant `check` asks, in a square of side `value`.
    pub fn rotate(&self, pos: Pos2<usize>, check: Pos2<usize>, value: usize) -> (turned: Pos2<usize>)
        requires
            check.y == 0 && check.x == 1 ==> pos.x < value && pos.y < value,
        ensures
            turned@ == rotated(pos@, check@, value as nat),
    {
        if check.y != 0 {
            return pos;
        }
        let mut pos = pos;
        if check.x == 1 {
            pos.x = value - 1 - pos.x;
            pos.y = value - 1 - pos.y;
        }
        Pos2 { x: pos.y, y: pos.x }
    }

    /// The cell that the curve reaches after `value` steps.
    ///
    /// Works upwards from the smallest square: each base-4 digit of `value`,
    /// lowest first, places the part of the curve built so far into one
    /// quadrant of a square twice as wide.
    pub fn value_to_point(&self, value: usize) -> (pos: Pos2<usize>)
        ensures
            pos@ == curve_point(self.spec_order(), value as nat),
            pos.x < self.side(),
            pos.y < self.side(),
    {
        proof {
            use_type_invariant(self);
            lemma2_to64();
            lemma_point_in_square(self.order as nat, value as nat);
            assert(cells(0) == 1);
        }
        let mut pos = Pos2 { x: 0usize, y: 0usize };
        let mut rest: usize = value;
        let mut side: usize = 1;
        let mut level: usize = 0;
        while level < self.order
            invariant
                level <= self.order,
                side == pow2(level as nat),
                pow2(self.order as nat) <= usize::MAX,
                rest == value as nat / cells(level as nat),
                pos@ == curve_point(level as nat, value as nat),
            decreases self.order - level,
        {
            let rx = (rest / 2) & 1;
            let ry = (rest ^ rx) & 1;
            proof {
                let above = (level + 1) as nat;
                let digit = (value as nat / cells(level as nat)) % 4;
                lemma_digit_bits(rest);
                assert(rx == column_bit(rest) && ry == row_bit(rest));
                assert(rest as nat % 4 == digit);
                assert(rx == digit_column(digit) && ry == digit_row(digit));
                lemma_ascend(level as nat, value as nat);
                lemma_point_in_square(level as nat, value as nat);
                lemma_point_in_square(above, value as nat);
                lemma_cells_unfold(above);
                lemma_cells_monotonic(above, self.order as nat);
                lemma_div_denominator(value as int, cells(level as nat) as int, 4);
                assert(cells(level as nat) * 4 == cells(above));
                assert(side * rx == (if rx == 1 { side as int } else { 0 })) by (nonlinear_arith)
                    requires
                        rx == 0 || rx == 1,
                ;
                assert(side * ry == (if ry == 1 { side as int } else { 0 })) by (nonlinear_arith)
                    requires
                        ry == 0 || ry == 1,
                ;
            }
            pos = self.rotate(pos, Pos2 { x: rx, y: ry }, side);
            pos.x = pos.x + side * rx;
            pos.y = pos.y + side * ry;
            rest = rest / 4;
            side = side * 2;
            level = level + 1;
        }
        pos
    }

    /// The number of steps after which the curve reaches `pos`, a cell of its
    /// square.
    ///
    /// Works downwards from the whole square: the highest binary digits of
    /// the coordinates name the quadrant, which gives the highest base-4 digit
    /// of the result, and the point is turned back for the next level.
    pub fn point_to_value(&self, pos: Pos2<usize>) -> (value: usize)
        requires
            pos.x < self.side(),
            pos.y < self.side(),
            self.side() * self.side() <= usize::MAX + 1,
        ensures
            value == curve_index(self.spec_order(), pos@),
            value < self.side() * self.side(),
    {
        let n = self.size();
        let ghost order = self.order as nat;
        let mut cell = pos;
        let mut total: usize = 0;
        let mut side: usize = n;
        let mut level: usize = self.order;
        proof {
            lemma_pow2_pos(order);
            lemma_index_in_range(order, pos@);
            lemma_small_mod(pos.x as nat, n as nat);
            lemma_small_mod(pos.y as nat, n as nat);
        }
        while level > 0
            invariant
                level <= self.order,
                order == self.order,
                n == pow2(order),
                side == pow2(level as nat),
                side > 0,
                cell.x < n,
                cell.y < n,
                cells(order) <= usize::MAX + 1,
                total + curve_index(
                    level as nat,
                    Pos2 { x: cell.x as nat % side as nat, y: cell.y as nat % side as nat },
                ) == curve_index(order, pos@),
                curve_index(order, pos@) < cells(order),
            decreases level,
        {
            let ghost wide = side as nat;
            let ghost upper = level as nat;
            let ghost here = cell@;
            proof {
                lemma_cells_unfold(upper);
                lemma_cells_monotonic(upper, order);
            }
            level = level - 1;
            side = side / 2;
            let rx: usize = if cell.x & side > 0 { 1 } else { 0 };
            let ry: usize = if cell.y & side > 0 { 1 } else { 0 };
            proof {
                lemma_mask_tests_digit(cell.x, side, level as nat);
                lemma_mask_tests_digit(cell.y, side, level as nat);
                lemma_pow2_adds((order - level) as nat, level as nat);
                lemma_descend(level as nat, n as nat, pow2((order - level) as nat), here);
                lemma_quadrant_digit();
                assert(rx == level_bit(here.x, side as nat));
                assert(ry == level_bit(here.y, side as nat));
            }
            cell = self.rotate(cell, Pos2 { x: rx, y: ry }, n);
            let digit = (3 * rx) ^ ry;
            proof {
                let block = cells(level as nat);
                let rest = curve_index(
                    level as nat,
                    Pos2 { x: cell.x as nat % side as nat, y: cell.y as nat % side as nat },
                );
                assert(digit == quadrant_digit(rx as nat, ry as nat));
                assert(total + digit * block + rest == curve_index(order, pos@));
                assert(side * side == block);
                assert(4 * block <= usize::MAX + 1);
                assert(side * side * digit == digit * block) by (nonlinear_arith)
                    requires
                        side * side == block,
                ;
            }
            total = total + side * side * digit;
        }
        total
    }

} // impl HilbertCurve

} // verus!
