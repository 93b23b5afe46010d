//! What holds of the reordering of a grid along the curve: the two directions
//! are permutations of the cells, each the inverse of the other.

use vstd::prelude::*;
use vstd::arithmetic::div_mod::{
    lemma_fundamental_div_mod,
    lemma_fundamental_div_mod_converse,
};
use vstd::arithmetic::logarithm::lemma_log_pow;
use vstd::arithmetic::power2::{pow2, lemma_pow2, lemma_pow2_pos};
use crate::curve::{curve_index, curve_point, power_of_two};
use crate::curve_laws::{
    lemma_index_in_range,
    lemma_index_of_point,
    lemma_point_in_square,
    lemma_point_of_index,
};
use crate::image::{
    backward_position,
    forward_position,
    index_of,
    order_of,
    pos_of,
    scattered,
    Color,
    Grid,
};
use crate::pos::Pos2;

verus! {

/// The order of the curve on a square of side `2^k` is `k`.
pub proof fn lemma_order_of(k: nat)
    ensures
        order_of(pow2(k)) == k,
        pow2(k) > 0,
{
    lemma_pow2(k);
    lemma_pow2_pos(k);
    lemma_log_pow(2, k);
}

/// In a grid of the given width, a cell in the first `width` columns is found
/// again from its row-major index.
pub proof fn lemma_pos_of_index(width: nat, pos: Pos2<nat>)
    requires
        pos.x < width,
    ensures
        pos_of(width, index_of(width, pos)) == pos,
{
    lemma_fundamental_div_mod_converse(
        index_of(width, pos) as int,
        width as int,
        pos.y as int,
        pos.x as int,
    );
}

/// In a grid of the given width, a row-major index is found again from its
/// cell, which lies in the first `width` columns and, for an index below
/// `width * height`, in the first `height` rows.
pub proof fn lemma_index_of_pos(width: nat, height: nat, index: nat)
    requires
        width > 0,
        index < width * height,
    ensures
        index_of(width, pos_of(width, index)) == index,
        pos_of(width, index).x < width,
        pos_of(width, index).y < height,
{
    lemma_fundamental_div_mod(index as int, width as int);
    let row = index / width;
    assert(row * width == width * row) by (nonlinear_arith);
    assert(row < height) by (nonlinear_arith)
        requires
            width * row <= index,
            index < width * height,
            width > 0,
    ;
}

/// A cell of a grid has a row-major index below the number of its cells.
pub proof fn lemma_cell_in_grid(width: nat, height: nat, pos: Pos2<nat>)
    requires
        pos.x < width,
        pos.y < height,
    ensures
        index_of(width, pos) < width * height,
{
    assert(pos.y * width + pos.x < width * height) by (nonlinear_arith)
        requires
            pos.x < width,
            pos.y < height,
    ;
}

/// Both reorderings send the indices of a square whose side is a power of two
/// to indices of that square.
pub proof fn lemma_positions_in_range(side: nat, index: nat)
    requires
        power_of_two(side),
        index < side * side,
    ensures
        forward_position(side, index) < side * side,
        backward_position(side, index) < side * side,
        pos_of(side, index).x < side,
        pos_of(side, index).y < side,
        curve_point(order_of(side), index).x < side,
        curve_point(order_of(side), index).y < side,
{
    let k = choose|k: nat| side == pow2(k);
    lemma_order_of(k);
    lemma_index_of_pos(side, side, index);
    lemma_index_in_range(k, pos_of(side, index));
    lemma_point_in_square(k, index);
    let p = curve_point(k, index);
    assert(p.y * side + p.x < side * side) by (nonlinear_arith)
        requires
            p.x < side,
            p.y < side,
    ;
}

/// Moving an index forward along the curve and back again gives the index.
pub proof fn lemma_backward_of_forward(side: nat, index: nat)
    requires
        power_of_two(side),
        index < side * side,
    ensures
        backward_position(side, forward_position(side, index)) == index,
{
    let k = choose|k: nat| side == pow2(k);
    lemma_order_of(k);
    lemma_index_of_pos(side, side, index);
    lemma_point_of_index(k, pos_of(side, index));
}

/// Moving an index back from the curve and forward again gives the index.
pub proof fn lemma_forward_of_backward(side: nat, index: nat)
    requires
        power_of_two(side),
        index < side * side,
    ensures
        forward_position(side, backward_position(side, index)) == index,
{
    let k = choose|k: nat| side == pow2(k);
    lemma_order_of(k);
    lemma_point_in_square(k, index);
    lemma_pos_of_index(side, curve_point(k, index));
    lemma_index_of_point(k, index);
}

/// Writing further entries does not depend on destinations that are added
/// to the list later.
pub proof fn lemma_scattered_keeps(source: Seq<Color>, dest: Seq<usize>, next: usize, upto: nat)
    requires
        upto <= dest.len(),
    ensures
        scattered(source, dest.push(next), upto) == scattered(source, dest, upto),
    decreases upto,
{
    if upto > 0 {
        lemma_scattered_keeps(source, dest, next, (upto - 1) as nat);
    }
}

/// Where no two of the first `upto` entries go to one position, each of them
/// is found at its destination.
pub proof fn lemma_scattered_places(source: Seq<Color>, dest: Seq<usize>, upto: nat, i: int)
    requires
        upto <= dest.len(),
        upto <= source.len(),
        forall|k: int| 0 <= k < upto ==> #[trigger] dest[k] < source.len(),
        forall|a: int, b: int| 0 <= a < upto && 0 <= b < upto && dest[a] == dest[b] ==> a == b,
    ensures
        scattered(source, dest, upto).len() == source.len(),
        0 <= i < upto ==> scattered(source, dest, upto)[dest[i] as int] == source[i],
    decreases upto,
{
    if upto > 0 {
        lemma_scattered_places(source, dest, (upto - 1) as nat, i);
        lemma_scattered_places(source, dest, (upto - 1) as nat, 0);
    }
}

/// Reordering a square grid along the curve and back gives the grid again.
pub proof fn lemma_unhilbertify_hilbertified(grid: Grid)
    requires
        grid.wf(),
        grid.curve_ready(),
    ensures
        grid.hilbertified().unhilbertified() == grid,
{
    let side = grid.width;
    let back = grid.hilbertified().unhilbertified();
    assert forall|j: int| 0 <= j < grid.data.len() implies back.data[j] == grid.data[j] by {
        lemma_positions_in_range(side, j as nat);
        lemma_backward_of_forward(side, j as nat);
    }
    assert(back.data =~= grid.data);
}

/// Taking a square grid back from the curve and reordering it along the
/// curve gives the grid again.
pub proof fn lemma_hilbertify_unhilbertified(grid: Grid)
    requires
        grid.wf(),
        grid.curve_ready(),
    ensures
        grid.unhilbertified().hilbertified() == grid,
{
    let side = grid.width;
    let forth = grid.unhilbertified().hilbertified();
    assert forall|j: int| 0 <= j < grid.data.len() implies forth.data[j] == grid.data[j] by {
        lemma_positions_in_range(side, j as nat);
        lemma_forward_of_backward(side, j as nat);
    }
    assert(forth.data =~= grid.data);
}

} // verus!
