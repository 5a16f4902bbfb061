//! Counting the alive neighbours of a cell in a world of packed coordinates.
use vstd::prelude::*;
use indexmap::IndexSet;
use std::hash::RandomState;
use crate::coordinates::{coord_bits, coord_bits_of};
use crate::index_set::{set_contains, set_items};

verus! {

/// The column of the packed coordinate `xy` in a world of side `image_size`.
pub open spec fn cell_x(xy: u32, image_size: u32) -> u32 {
    xy >> (coord_bits(image_size) as u32)
}

/// The row of the packed coordinate `xy` in a world of side `image_size`.
pub open spec fn cell_y(xy: u32, image_size: u32) -> u32 {
    xy & (((1u32 << (coord_bits(image_size) as u32)) - 1) as u32)
}

/// The coordinate of column `x` and row `y`: `x` above the low `bits` bits, `y` in them.
pub open spec fn pack(x: int, y: int, bits: nat) -> u32 {
    ((x as u32) << (bits as u32)) | (y as u32)
}

/// Whether the neighbour of the cell `xy` at offset number `k` (`k = 3 * (dx + 1) + (dy + 1)`
/// for `dx, dy` in `-1..=1`, the cell itself at `k = 4` excluded) is alive; the world wraps
/// around at its edges.
pub open spec fn neighbour_alive(cells: Seq<u32>, xy: u32, image_size: u32, k: int) -> bool {
    let size = image_size as int;
    let x = cell_x(xy, image_size) as int;
    let y = cell_y(xy, image_size) as int;
    let dx = k / 3 - 1;
    let dy = k % 3 - 1;
    k != 4 && cells.contains(pack((x + dx + size) % size, (y + dy + size) % size, coord_bits(image_size)))
}

/// How many of the neighbours with offset number below `k` are alive.
pub open spec fn neighbours_below(cells: Seq<u32>, xy: u32, image_size: u32, k: int) -> nat
    decreases k,
{
    if k <= 0 {
        0
    } else {
        neighbours_below(cells, xy, image_size, k - 1) + if neighbour_alive(
            cells,
            xy,
            image_size,
            k - 1,
        ) {
            1nat
        } else {
            0nat
        }
    }
}

/// The number of alive cells among the eight that surround `xy`, wrapping around the
/// edges of the world; 0 for a coordinate outside the world.
pub open spec fn neighbour_count(cells: Seq<u32>, xy: u32, image_size: u32) -> nat {
    if cell_x(xy, image_size) >= image_size || cell_y(xy, image_size) >= image_size {
        0
    } else {
        neighbours_below(cells, xy, image_size, 9)
    }
}

/// A world of side `image_size` has combined coordinates in 32 bits: its side is at most
/// `2^16`.
pub open spec fn layout_fits(image_size: u32) -> bool {
    image_size <= 0x10000
}

/// A world of alive cells that can count the alive neighbours of a cell.
pub trait Cell {
    /// The alive cells.
    spec fn alive_cells(&self) -> Seq<u32>;

    /// Returns the total number of alive neighbours for a given cell
    fn neighbours(&self, xy: u32, image_size: u32) -> (r: Option<usize>)
        requires
            layout_fits(image_size),
        ensures
            r == Some(neighbour_count(self.alive_cells(), xy, image_size) as usize),
            neighbour_count(self.alive_cells(), xy, image_size) <= 8,
    ;
}

impl Cell for IndexSet<u32, RandomState> {
    open spec fn alive_cells(&self) -> Seq<u32> {
        set_items(*self)
    }

    fn neighbours(&self, xy: u32, image_size: u32) -> (r: Option<usize>) {
        let mut live_neighbours: usize = 0;
        let bits = coord_bits_of(image_size);
        let x = xy >> bits;
        assert(1u32 << bits >= 1) by (bit_vector)
            requires
                bits < 32,
        ;
        let y = xy & ((1u32 << bits) - 1);
        // Skip if coordinates are out of bounds
        if x >= image_size || y >= image_size {
            return Some(0);
        }
        let i32_image = image_size as i32;
        let ghost cells = set_items(*self);
        // Check each neighbor only if it would be within bounds
        let mut dx: i32 = -1;
        while dx <= 1
            invariant
                -1 <= dx <= 2,
                x == cell_x(xy, image_size),
                y == cell_y(xy, image_size),
                x < image_size,
                y < image_size,
                x + image_size < i32::MAX,
                y + image_size < i32::MAX,
                i32_image == image_size,
                bits == coord_bits(image_size),
                bits < 32,
                image_size <= 0x10000,
                cells == set_items(*self),
                live_neighbours == neighbours_below(cells, xy, image_size, 3 * (dx + 1)),
                live_neighbours <= 3 * (dx + 1) - (if dx >= 1 { 1int } else { 0int }),
            decreases 2 - dx,
        {
            let mut dy: i32 = -1;
            while dy <= 1
                invariant
                    -1 <= dx <= 1,
                    -1 <= dy <= 2,
                    x == cell_x(xy, image_size),
                    y == cell_y(xy, image_size),
                    x < image_size,
                    y < image_size,
                    x + image_size < i32::MAX,
                    y + image_size < i32::MAX,
                    i32_image == image_size,
                    bits == coord_bits(image_size),
                    bits < 32,
                    image_size <= 0x10000,
                    cells == set_items(*self),
                    live_neighbours == neighbours_below(cells, xy, image_size, 3 * (dx + 1) + dy + 1),
                    live_neighbours <= 3 * (dx + 1) + dy + 1 - (if 3 * (dx + 1) + dy + 1 > 4 {
                        1int
                    } else {
                        0int
                    }),
                decreases 2 - dy,
            {
                let ghost k = 3 * (dx + 1) + dy + 1;
                assert(k / 3 - 1 == dx && k % 3 - 1 == dy);
                // Skip the cell itself
                if dx == 0 && dy == 0 {
                    dy += 1;
                    continue;
                }
                // Calculate potential neighbor coordinates
                let new_x = (x as i32 + dx + i32_image) % i32_image;
                let new_y = (y as i32 + dy + i32_image) % i32_image;
                // Check bounds
                if new_x >= 0 && new_x < image_size as i32 && new_y >= 0 && new_y < image_size as i32 {
                    // Combine coordinates back into single value
                    let neighbor = ((new_x as u32) << bits) | (new_y as u32);
                    if set_contains(self, neighbor) {
                        live_neighbours += 1;
                    }
                }
                dy += 1;
            }
            dx += 1;
        }
        Some(live_neighbours)
    }
}

/// 1 when the cell at column `x mod size`, row `y mod size` is among `cells`, else 0.
pub open spec fn alive_on_torus(cells: Seq<u32>, x: int, y: int, size: int, bits: nat) -> nat {
    if cells.contains(pack(x % size, y % size, bits)) {
        1
    } else {
        0
    }
}

/// The neighbours of a cell are counted on the torus: for the cell at column `x`, row `y`
/// of a world of side `size`, the count is the number of alive cells among the eight at
/// columns `x - 1`, `x`, `x + 1` and rows `y - 1`, `y`, `y + 1`, each taken modulo `size`
/// (so column `x - 1` of column 0 is column `size - 1`), the cell itself left out. A
/// coordinate outside the world has no neighbours.
pub proof fn lemma_neighbour_count_torus(cells: Seq<u32>, xy: u32, image_size: u32)
    ensures
        ({
            let n = image_size as int;
            let b = coord_bits(image_size);
            let x = cell_x(xy, image_size) as int;
            let y = cell_y(xy, image_size) as int;
            &&& (x < n && y < n) ==> neighbour_count(cells, xy, image_size) == alive_on_torus(
                cells,
                x - 1,
                y - 1,
                n,
                b,
            ) + alive_on_torus(cells, x - 1, y, n, b) + alive_on_torus(cells, x - 1, y + 1, n, b)
                + alive_on_torus(cells, x, y - 1, n, b) + alive_on_torus(cells, x, y + 1, n, b)
                + alive_on_torus(cells, x + 1, y - 1, n, b) + alive_on_torus(cells, x + 1, y, n, b)
                + alive_on_torus(cells, x + 1, y + 1, n, b)
            &&& !(x < n && y < n) ==> neighbour_count(cells, xy, image_size) == 0
        }),
{
    let n = image_size as int;
    let x = cell_x(xy, image_size) as int;
    let y = cell_y(xy, image_size) as int;
    if x < n && y < n {
        reveal_with_fuel(neighbours_below, 10);
        vstd::arithmetic::div_mod::lemma_mod_add_multiples_vanish(x - 1, n);
        vstd::arithmetic::div_mod::lemma_mod_add_multiples_vanish(x, n);
        vstd::arithmetic::div_mod::lemma_mod_add_multiples_vanish(x + 1, n);
        vstd::arithmetic::div_mod::lemma_mod_add_multiples_vanish(y - 1, n);
        vstd::arithmetic::div_mod::lemma_mod_add_multiples_vanish(y, n);
        vstd::arithmetic::div_mod::lemma_mod_add_multiples_vanish(y + 1, n);
    }
}

} // verus!
