//! A grid of pixels made from a run of bytes.

use vstd::prelude::*;
use vstd::arithmetic::div_mod::{lemma_fundamental_div_mod, lemma_fundamental_div_mod_converse};
use vstd::arithmetic::logarithm::log;
use crate::curve::{curve_index, curve_point, power_of_two, HilbertCurve};
use crate::error::Error;
use crate::image_laws::{
    lemma_backward_of_forward,
    lemma_cell_in_grid,
    lemma_forward_of_backward,
    lemma_order_of,
    lemma_positions_in_range,
    lemma_scattered_keeps,
    lemma_scattered_places,
};
use crate::pos::Pos2;

verus! {

/// A colour of three channels.
#[derive(Debug, Clone, Copy, PartialEq, Eq, Structural)]
pub struct Color {
    pub r: u8,
    pub g: u8,
    pub b: u8,
}

/// What an [`Image`] holds: `data` lists the pixels row by row, `width` to a
/// row.
pub struct Grid {
    pub width: nat,
    pub height: nat,
    pub data: Seq<Color>,
}

impl Grid {
    /// The grid is a full rectangle with at least one column.
    pub open spec fn wf(self) -> bool {
        &&& self.width > 0
        &&& self.data.len() == self.width * self.height
    }

    /// The grid is a square on which a Hilbert curve can run.
    pub open spec fn curve_ready(self) -> bool {
        &&& self.width == self.height
        &&& power_of_two(self.width)
    }

    /// The grid with its pixels moved along the curve: the pixel at row-major
    /// index `i` goes to index `forward_position(width, i)`, so what ends up
    /// at index `j` came from `backward_position(width, j)`.
    pub open spec fn hilbertified(self) -> Grid {
        Grid {
            width: self.width,
            height: self.height,
            data: Seq::new(
                self.data.len(),
                |j: int| self.data[backward_position(self.width, j as nat) as int],
            ),
        }
    }

    /// The grid with its pixels moved back from the curve: the pixel at index
    /// `i` goes to index `backward_position(width, i)`, so what ends up at
    /// index `j` came from `forward_position(width, j)`.
    pub open spec fn unhilbertified(self) -> Grid {
        Grid {
            width: self.width,
            height: self.height,
            data: Seq::new(
                self.data.len(),
                |j: int| self.data[forward_position(self.width, j as nat) as int],
            ),
        }
    }
}

/// The order of the curve on a square of the given side: its logarithm to
/// base two.
pub open spec fn order_of(side: nat) -> nat {
    log(2, side as int) as nat
}

/// The row-major index of a cell in a grid of the given width.
pub open spec fn index_of(width: nat, pos: Pos2<nat>) -> nat {
    pos.y * width + pos.x
}

/// The cell with the given row-major index in a grid of the given width.
pub open spec fn pos_of(width: nat, index: nat) -> Pos2<nat>
    recommends
        width > 0,
{
    Pos2 { x: index % width, y: index / width }
}

/// The step of the curve on which the cell with row-major index `index`
/// lies, in a square of the given side.
pub open spec fn forward_position(side: nat, index: nat) -> nat {
    curve_index(order_of(side), pos_of(side, index))
}

/// The row-major index of the cell that the curve reaches after `index`
/// steps, in a square of the given side.
pub open spec fn backward_position(side: nat, index: nat) -> nat {
    index_of(side, curve_point(order_of(side), index))
}

/// What `source` becomes when, for each `i` below `upto` in turn, the entry
/// `source[i]` is written over position `dest[i]`.
pub open spec fn scattered(source: Seq<Color>, dest: Seq<usize>, upto: nat) -> Seq<Color>
    recommends
        upto <= dest.len(),
        upto <= source.len(),
    decreases upto,
{
    if upto == 0 {
        source
    } else {
        scattered(source, dest, (upto - 1) as nat).update(
            dest[upto - 1] as int,
            source[upto - 1],
        )
    }
}

/// The number of pixels that `bytes` bytes make: three bytes to a pixel, and
/// one more pixel for what is left over.
pub open spec fn pixel_count(bytes: nat) -> nat {
    if bytes % 3 == 0 {
        bytes / 3
    } else {
        bytes / 3 + 1
    }
}

/// The number of rows of `width` pixels that hold `count` pixels.
pub open spec fn rows_needed(count: nat, width: nat) -> nat
    recommends
        width > 0,
{
    if count % width == 0 {
        count / width
    } else {
        count / width + 1
    }
}

/// The pixel with the given number among those that `bytes` make. A channel
/// for which the bytes have run out is taken from `fill`.
pub open spec fn pixel_at(bytes: Seq<u8>, index: int, fill: Color) -> Color
    recommends
        0 <= index < pixel_count(bytes.len()),
{
    Color {
        r: bytes[3 * index],
        g: if 3 * index + 1 < bytes.len() { bytes[3 * index + 1] } else { fill.g },
        b: if 3 * index + 2 < bytes.len() { bytes[3 * index + 2] } else { fill.b },
    }
}

/// The grid of the given width that `bytes` make: the pixels of the bytes in
/// order, then `fill` up to the end of the last row.
pub open spec fn grid_of(bytes: Seq<u8>, width: nat, fill: Color) -> Grid
    recommends
        width > 0,
{
    let count = pixel_count(bytes.len());
    let height = rows_needed(count, width);
    Grid {
        width,
        height,
        data: Seq::new(
            width * height,
            |i: int| if i < count { pixel_at(bytes, i, fill) } else { fill },
        ),
    }
}

/// One channel of a colour: 0 is red, 1 green, 2 blue.
pub open spec fn channel(color: Color, which: int) -> u8 {
    if which == 0 {
        color.r
    } else if which == 1 {
        color.g
    } else {
        color.b
    }
}

/// The bytes of the pixels in order, three to a pixel.
pub open spec fn flattened(data: Seq<Color>) -> Seq<u8> {
    Seq::new(3 * data.len(), |i: int| channel(data[i / 3], i % 3))
}

/// Rows of `width` pixels that hold `count` pixels have room for all of them,
/// with less than one row to spare.
proof fn lemma_rows_hold(count: nat, width: nat)
    requires
        width > 0,
    ensures
        width * rows_needed(count, width) >= count,
        width * rows_needed(count, width) < count + width,
        count == 0 ==> rows_needed(count, width) == 0,
        0 < count <= width ==> rows_needed(count, width) == 1,
{
    let q = count / width;
    let r = count % width;
    lemma_fundamental_div_mod(count as int, width as int);
    assert(width * (q + 1) == width * q + width) by (nonlinear_arith);
    if 0 < count <= width {
        if count == width {
            lemma_fundamental_div_mod_converse(count as int, width as int, 1, 0);
        } else {
            lemma_fundamental_div_mod_converse(count as int, width as int, 0, count as int);
        }
    }
    if count == 0 {
        lemma_fundamental_div_mod_converse(0, width as int, 0, 0);
    }
}

/// A pixel grid: colours in row-major order on a rectangle.
pub struct Image {
    data: Vec<Color>,
    width: usize,
    height: usize,
}

impl View for Image {
    type V = Grid;

    closed spec fn view(&self) -> Grid {
        Grid { width: self.width as nat, height: self.height as nat, data: self.data@ }
    }
}

impl Image {
    #[verifier::type_invariant]
    spec fn rectangular(&self) -> bool {
        &&& self.width > 0
        &&& self.data.len() == self.width * self.height
    }

    /// Makes the grid of the given width from `values` without their first
    /// `trim_start` and last `trim_end` bytes. Three bytes make a pixel; where
    /// the last pixel is short of bytes, and where the last row is short of
    /// pixels, `c` fills in.
    pub fn parse(
        values: &[u8],
        width: usize,
        c: Color,
        trim_start: usize,
        trim_end: usize,
    ) -> (parsed: Result<Image, Error>)
        requires
            width > 0,
        ensures
            match parsed {
                Ok(image) => {
                    &&& trim_start + trim_end <= values@.len()
                    &&& image@ == grid_of(
                        values@.subrange(trim_start as int, values@.len() - trim_end),
                        width as nat,
                        c,
                    )
                    &&& image@.wf()
                },
                Err(e) => e == Error::InvalidRange && trim_start + trim_end > values@.len(),
            },
    {
        let len = values.len();
        if trim_start > len || trim_end > len - trim_start {
            return Err(Error::InvalidRange);
        }
        let kept = len - trim_start - trim_end;
        let ghost bytes = values@.subrange(trim_start as int, len - trim_end);
        let count = if kept % 3 == 0 { kept / 3 } else { kept / 3 + 1 };
        let mut data: Vec<Color> = Vec::new();
        let mut index: usize = 0;
        while index < count
            invariant
                index <= count,
                count == pixel_count(kept as nat),
                kept == len - trim_start - trim_end,
                len == values@.len(),
                bytes == values@.subrange(trim_start as int, len - trim_end),
                data@.len() == index,
                forall|k: int| 0 <= k < index ==> #[trigger] data@[k] == pixel_at(bytes, k, c),
            decreases count - index,
        {
            let base = 3 * index;
            let r = values[trim_start + base];
            let g = if kept - base > 1 { values[trim_start + base + 1] } else { c.g };
            let b = if kept - base > 2 { values[trim_start + base + 2] } else { c.b };
            data.push(Color { r, g, b });
            index = index + 1;
        }
        let height = if count % width == 0 { count / width } else { count / width + 1 };
        proof {
            lemma_rows_hold(count as nat, width as nat);
            assert(height == rows_needed(count as nat, width as nat));
            if count == 0 {
                assert(width * height == 0) by (nonlinear_arith)
                    requires
                        height == 0,
                ;
            } else if count <= width {
                assert(width * height == width) by (nonlinear_arith)
                    requires
                        height == 1,
                ;
            } else {
                assert(width * height < 2 * count);
                assert(2 * count <= kept + 1);
            }
        }
        let total = width * height;
        let ghost pixels = data@;
        data.resize(total, c);
        proof {
            let made = grid_of(bytes, width as nat, c);
            assert(data@.len() == total);
            assert forall|i: int| 0 <= i < total implies data@[i] == made.data[i] by {
                if i < count {
                    assert(data@.subrange(0, count as int)[i] == pixels[i]);
                }
            }
            assert(data@ =~= made.data);
        }
        Ok(Image { data, width, height })
    }

    /// The bytes of the pixels in order, three to a pixel.
    pub fn save(&self) -> (bytes: Vec<u8>)
        ensures
            bytes@ == flattened(self@.data),
    {
        let mut bytes: Vec<u8> = Vec::new();
        let mut index: usize = 0;
        while index < self.data.len()
            invariant
                index <= self.data.len(),
                bytes@.len() == 3 * index,
                forall|k: int|
                    0 <= k < 3 * index ==> #[trigger] bytes@[k] == channel(self.data@[k / 3], k % 3),
            decreases self.data.len() - index,
        {
            let color = self.data[index];
            bytes.push(color.r);
            bytes.push(color.g);
            bytes.push(color.b);
            index = index + 1;
        }
        assert(bytes@ =~= flattened(self@.data));
        bytes
    }

    /// The number of pixels in a row.
    pub fn width(&self) -> (width: usize)
        ensures
            width == self@.width,
            self@.wf(),
    {
        proof {
            use_type_invariant(self);
        }
        self.width
    }

    /// The number of rows.
    pub fn height(&self) -> (height: usize)
        ensures
            height == self@.height,
            self@.wf(),
    {
        proof {
            use_type_invariant(self);
        }
        self.height
    }

    /// The pixels, row by row.
    pub fn data(&self) -> (data: &Vec<Color>)
        ensures
            data@ == self@.data,
            self@.wf(),
    {
        proof {
            use_type_invariant(self);
        }
        &self.data
    }

    /// The row-major index of `pos` in a grid of the given width.
    pub fn to_index_assoc(width: usize, pos: Pos2<usize>) -> (index: usize)
        requires
            pos.y * width + pos.x <= usize::MAX,
        ensures
            index == index_of(width as nat, pos@),
    {
        assert(pos.y * width <= pos.y * width + pos.x);
        pos.y * width + pos.x
    }

    /// The cell with the given row-major index in a grid of the given width.
    pub fn index_to_pos_assoc(width: usize, index: usize) -> (pos: Pos2<usize>)
        requires
            width > 0,
        ensures
            pos@ == pos_of(width as nat, index as nat),
    {
        Pos2 { x: index % width, y: index / width }
    }

    /// The row-major index of `pos` in this grid.
    pub fn to_index(&self, pos: Pos2<usize>) -> (index: usize)
        requires
            pos.y * self@.width + pos.x <= usize::MAX,
        ensures
            index == index_of(self@.width, pos@),
    {
        Self::to_index_assoc(self.width, pos)
    }

    /// Moves every pixel to the position that `f` gives for its index.
    ///
    /// The pixels are taken from the grid as it was, in the order of their
    /// indices, and written over a copy of it: where `f` sends two pixels to
    /// one position the later one stays, and a position to which `f` sends
    /// none keeps its pixel.
    pub fn remap_positions<F: Fn(usize) -> usize>(&mut self, f: F)
        requires
            forall|i: usize| i < old(self)@.data.len() ==> f.requires((i,)),
            forall|i: usize, to: usize|
                i < old(self)@.data.len() && f.ensures((i,), to) ==> to < old(self)@.data.len(),
        ensures
            final(self)@.wf(),
            final(self)@.width == old(self)@.width,
            final(self)@.height == old(self)@.height,
            exists|dest: Seq<usize>|
                {
                    &&& dest.len() == old(self)@.data.len()
                    &&& forall|i: int|
                        0 <= i < dest.len() ==> f.ensures((i as usize,), #[trigger] dest[i])
                    &&& final(self)@.data == #[trigger] scattered(
                        old(self)@.data,
                        dest,
                        dest.len(),
                    )
                },
    {
        proof {
            use_type_invariant(&*self);
        }
        let mut output = self.data.clone();
        let count = self.data.len();
        assert(output@ =~= self.data@);
        let ghost dest: Seq<usize> = Seq::empty();
        let mut index: usize = 0;
        while index < count
            invariant
                index <= count,
                count == self.data.len(),
                output.len() == count,
                dest.len() == index,
                forall|i: usize| i < count ==> f.requires((i,)),
                forall|i: usize, to: usize| i < count && f.ensures((i,), to) ==> to < count,
                forall|i: int| 0 <= i < index ==> f.ensures((i as usize,), #[trigger] dest[i]),
                output@ == scattered(self.data@, dest, index as nat),
            decreases count - index,
        {
            let new_position = f(index);
            let value = self.data[index];
            proof {
                lemma_scattered_keeps(self.data@, dest, new_position, index as nat);
                dest = dest.push(new_position);
            }
            output.set(new_position, value);
            index = index + 1;
        }
        self.data = output;
    }

    /// Reorders the pixels along the Hilbert curve: the pixel at row-major
    /// index `i` moves to the index that is the number of steps after which
    /// the curve reaches its cell. Only a square grid whose side is a power of
    /// two can be reordered; any other is left as it is.
    pub fn hilbertify(&mut self) -> (done: Result<(), Error>)
        ensures
            final(self)@.wf(),
            match done {
                Ok(_) => {
                    &&& old(self)@.curve_ready()
                    &&& final(self)@ == old(self)@.hilbertified()
                    &&& forall|i: int|
                        0 <= i < old(self)@.data.len() ==> final(self)@.data[forward_position(
                            old(self)@.width,
                            i as nat,
                        ) as int] == #[trigger] old(self)@.data[i]
                },
                Err(e) => {
                    &&& e == Error::InvalidDimensions
                    &&& !old(self)@.curve_ready()
                    &&& final(self)@ == old(self)@
                },
            },
    {
        proof {
            use_type_invariant(&*self);
        }
        if self.width != self.height {
            return Err(Error::InvalidDimensions);
        }
        let size = self.width;
        let curve = match HilbertCurve::new(size) {
            Ok(curve) => curve,
            Err(e) => {
                return Err(e);
            },
        };
        let ghost before = self.data@;
        let ghost side = size as nat;
        proof {
            lemma_order_of(curve.spec_order());
        }
        let to_curve = |index: usize| -> (to: usize)
            requires
                index < size * size,
            ensures
                to == forward_position(side, index as nat),
                to < size * size,
            {
                proof {
                    lemma_positions_in_range(side, index as nat);
                }
                let pos = Self::index_to_pos_assoc(size, index);
                curve.point_to_value(pos)
            };
        self.remap_positions(to_curve);
        proof {
            let dest = choose|dest: Seq<usize>|
                {
                    &&& dest.len() == before.len()
                    &&& forall|i: int|
                        0 <= i < dest.len() ==> to_curve.ensures((i as usize,), #[trigger] dest[i])
                    &&& self.data@ == #[trigger] scattered(before, dest, dest.len())
                };
            assert forall|a: int, b: int|
                0 <= a < dest.len() && 0 <= b < dest.len() && dest[a] == dest[b] implies a == b by {
                lemma_backward_of_forward(side, a as nat);
                lemma_backward_of_forward(side, b as nat);
            }
            assert forall|i: int| 0 <= i < before.len() implies self.data@[forward_position(
                side,
                i as nat,
            ) as int] == #[trigger] before[i] by {
                lemma_scattered_places(before, dest, dest.len(), i);
            }
            assert forall|j: int| 0 <= j < before.len() implies self.data@[j] == before[backward_position(
                side,
                j as nat,
            ) as int] by {
                lemma_positions_in_range(side, j as nat);
                lemma_forward_of_backward(side, j as nat);
                lemma_scattered_places(before, dest, dest.len(), backward_position(side, j as nat) as int);
            }
            lemma_scattered_places(before, dest, dest.len(), 0);
            assert(self.data@.len() == before.len());
            assert(self.data@ =~= old(self)@.hilbertified().data);
        }
        Ok(())
    }

    /// Undoes the reordering along the Hilbert curve: the pixel at index `i`
    /// moves to the row-major index of the cell that the curve reaches after
    /// `i` steps. Only a square grid whose side is a power of two can be
    /// reordered; any other is left as it is.
    pub fn unhilbertify(&mut self) -> (done: Result<(), Error>)
        ensures
            final(self)@.wf(),
            match done {
                Ok(_) => {
                    &&& old(self)@.curve_ready()
                    &&& final(self)@ == old(self)@.unhilbertified()
                    &&& forall|i: int|
                        0 <= i < old(self)@.data.len() ==> final(self)@.data[backward_position(
                            old(self)@.width,
                            i as nat,
                        ) as int] == #[trigger] old(self)@.data[i]
                },
                Err(e) => {
                    &&& e == Error::InvalidDimensions
                    &&& !old(self)@.curve_ready()
                    &&& final(self)@ == old(self)@
                },
            },
    {
        proof {
            use_type_invariant(&*self);
        }
        if self.width != self.height {
            return Err(Error::InvalidDimensions);
        }
        let size = self.width;
        let curve = match HilbertCurve::new(size) {
            Ok(curve) => curve,
            Err(e) => {
                return Err(e);
            },
        };
        let ghost before = self.data@;
        let ghost side = size as nat;
        proof {
            lemma_order_of(curve.spec_order());
        }
        let from_curve = |index: usize| -> (to: usize)
            requires
                index < size * size,
            ensures
                to == backward_position(side, index as nat),
                to < size * size,
            {
                proof {
                    lemma_positions_in_range(side, index as nat);
                }
                let pos = curve.value_to_point(index);
                Self::to_index_assoc(size, pos)
            };
        self.remap_positions(from_curve);
        proof {
            let dest = choose|dest: Seq<usize>|
                {
                    &&& dest.len() == before.len()
                    &&& forall|i: int|
                        0 <= i < dest.len() ==> from_curve.ensures(
                            (i as usize,),
                            #[trigger] dest[i],
                        )
                    &&& self.data@ == #[trigger] scattered(before, dest, dest.len())
                };
            assert forall|a: int, b: int|
                0 <= a < dest.len() && 0 <= b < dest.len() && dest[a] == dest[b] implies a == b by {
                lemma_forward_of_backward(side, a as nat);
                lemma_forward_of_backward(side, b as nat);
            }
            assert forall|i: int| 0 <= i < before.len() implies self.data@[backward_position(
                side,
                i as nat,
            ) as int] == #[trigger] before[i] by {
                lemma_scattered_places(before, dest, dest.len(), i);
            }
            assert forall|j: int| 0 <= j < before.len() implies self.data@[j] == before[forward_position(
                side,
                j as nat,
            ) as int] by {
                lemma_positions_in_range(side, j as nat);
                lemma_backward_of_forward(side, j as nat);
                lemma_scattered_places(before, dest, dest.len(), forward_position(side, j as nat) as int);
            }
            lemma_scattered_places(before, dest, dest.len(), 0);
            assert(self.data@.len() == before.len());
            assert(self.data@ =~= old(self)@.unhilbertified().data);
        }
        Ok(())
    }

    /// The pixel in column `x` of row `y`, if the grid has such a cell.
    pub fn get(&self, x: usize, y: usize) -> (pixel: Option<Color>)
        ensures
            pixel == (if x < self@.width && y < self@.height {
                Some(self@.data[index_of(self@.width, Pos2 { x: x as nat, y: y as nat }) as int])
            } else {
                None
            }),
    {
        proof {
            use_type_invariant(self);
        }
        if x >= self.width || y >= self.height {
            return None;
        }
        proof {
            lemma_cell_in_grid(self.width as nat, self.height as nat, Pos2 { x: x as nat, y: y as nat });
        }
        let index = self.to_index(Pos2 { x, y });
        Some(self.data[index])
    }

    /// Puts `value` in column `x` of row `y` and says whether the grid has
    /// such a cell; if it has none, nothing changes.
    pub fn set(&mut self, x: usize, y: usize, value: Color) -> (placed: bool)
        ensures
            placed == (x < old(self)@.width && y < old(self)@.height),
            final(self)@.wf(),
            final(self)@.width == old(self)@.width,
            final(self)@.height == old(self)@.height,
            final(self)@.data == (if placed {
                old(self)@.data.update(
                    index_of(old(self)@.width, Pos2 { x: x as nat, y: y as nat }) as int,
                    value,
                )
            } else {
                old(self)@.data
            }),
    {
        proof {
            use_type_invariant(&*self);
        }
        if x >= self.width || y >= self.height {
            return false;
        }
        proof {
            lemma_cell_in_grid(self.width as nat, self.height as nat, Pos2 { x: x as nat, y: y as nat });
        }
        let index = self.to_index(Pos2 { x, y });
        self.data[index] = value;
        true
    }

} // impl Image

/// The bytes of `image` after its pixels were reordered along the Hilbert
/// curve, or the reason why they cannot be.
pub fn resave(image: Image) -> (saved: Result<Vec<u8>, Error>)
    ensures
        match saved {
            Ok(bytes) => image@.curve_ready() && bytes@ == flattened(image@.hilbertified().data),
            Err(e) => e == Error::InvalidDimensions && !image@.curve_ready(),
        },
{
    let mut image = image;
    match image.hilbertify() {
        Ok(_) => Ok(image.save()),
        Err(e) => Err(e),
    }
}

} // verus!
