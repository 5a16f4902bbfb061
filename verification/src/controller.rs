//! The controller's distributor: turns the image input into a world of packed
//! coordinates, and a world back into image output and alive cells.
use vstd::prelude::*;
use indexmap::IndexSet;
use std::hash::RandomState;
use crate::cell::pack;
use crate::coordinates::{
    bit32, coord_len_and_offset, coordinate_length, lemma_coord_bits_pow2, limit_for, mask_of,
    Coordinates,
};
use crate::errors::DecodeError;
use crate::gol::{
    calculate_alive_cells as alive_cells_of_grid, alive_in_rows, image_cells, image_rows, world_shape,
    CellCoord, CellValue, Key, Params,
};
use crate::index_set::{
    lemma_concat_contains, lemma_insert_all_contains, lemma_push_contains,
    insert_all, set_contains, set_insert, set_items, set_new, set_to_vec,
};
use crate::payload::lemma_insert_all_push;

verus! {

/// The controller's distributor; it holds no state of its own.
pub struct Distributor {}

impl Coordinates for Distributor {
    fn calc_coord_len_and_offset(image_size: u32) -> (r: (u32, u32)) {
        coord_len_and_offset(image_size)
    }

    fn generate_mask(coordinate_length: u32) -> (r: u32) {
        mask_of(coordinate_length)
    }

    fn limit(coordinate_length: u32) -> (r: usize) {
        limit_for(coordinate_length)
    }
}

/// The coordinates of the alive cells among the first `w * ye` image values, read row by
/// row (`w` values a row), each packed as `(x << bits) | y`.
pub open spec fn input_coords(cells: Seq<CellValue>, w: int, bits: nat, ye: int) -> Seq<u32>
    decreases ye,
{
    if ye <= 0 {
        Seq::empty()
    } else {
        input_coords(cells, w, bits, ye - 1) + input_row(cells, w, bits, ye - 1, w)
    }
}

/// The coordinates of the alive cells among the first `xe` values of input row `y`.
pub open spec fn input_row(cells: Seq<CellValue>, w: int, bits: nat, y: int, xe: int) -> Seq<u32>
    decreases xe,
{
    if xe <= 0 {
        Seq::empty()
    } else {
        let prev = input_row(cells, w, bits, y, xe - 1);
        if cells[y * w + xe - 1] == CellValue::Alive {
            prev.push(pack(xe - 1, y, bits))
        } else {
            prev
        }
    }
}

/// The image values for the columns `0..xe` of a world of packed coordinates, column by
/// column, `h` values a column.
pub open spec fn output_columns(items: Seq<u32>, h: int, bits: nat, xe: int) -> Seq<CellValue>
    decreases xe,
{
    if xe <= 0 {
        Seq::empty()
    } else {
        output_columns(items, h, bits, xe - 1) + Seq::new(
            h as nat,
            |y: int|
                if items.contains(pack(xe - 1, y, bits)) {
                    CellValue::Alive
                } else {
                    CellValue::Dead
                },
        )
    }
}

/// The alive coordinates of the rows `0..ye`, row by row, left to right within a row.
pub open spec fn alive_coords_in_rows(items: Seq<u32>, w: int, bits: nat, ye: int) -> Seq<u32>
    decreases ye,
{
    if ye <= 0 {
        Seq::empty()
    } else {
        alive_coords_in_rows(items, w, bits, ye - 1) + alive_coords_in_row(items, bits, ye - 1, w)
    }
}

/// The alive coordinates among the first `xe` cells of row `y`.
pub open spec fn alive_coords_in_row(items: Seq<u32>, bits: nat, y: int, xe: int) -> Seq<u32>
    decreases xe,
{
    if xe <= 0 {
        Seq::empty()
    } else {
        let prev = alive_coords_in_row(items, bits, y, xe - 1);
        if items.contains(pack(xe - 1, y, bits)) {
            prev.push(pack(xe - 1, y, bits))
        } else {
            prev
        }
    }
}

/// The column of a packed coordinate.
pub open spec fn unpack_x(xy: u32, bits: nat) -> u32 {
    xy >> (bits as u32)
}

/// The row of a packed coordinate.
pub open spec fn unpack_y(xy: u32, bits: nat) -> u32 {
    xy & (((1u32 << (bits as u32)) - 1) as u32)
}

/// What the distributor does about a key pressed while the game is paused.
#[derive(Clone, Copy, Debug, PartialEq, Eq, Structural)]
pub enum PausedAction {
    /// Report the executing state and leave the pause.
    Resume,
    /// Leave the pause and quit.
    Quit,
    /// Write the current world to the image output.
    Screenshot,
    /// Nothing.
    Ignore,
}

impl Distributor {
    /// Creates an indexed set of alive coordinates by combining the x and y value into a single value
    ///
    /// e.g. for a 512x512 world:
    /// - `0000 0000 0000 00xx xxxx xxxy yyyy yyyy`
    ///
    /// where there are 14 offset bits, 9 x bits and 9 y bits
    ///
    /// `cells` holds the image input, row by row; it is read only for a square image.
    pub fn initialise_world(params: &Params, cells: &[CellValue], coordinate_length: u32) -> (r: Result<
        IndexSet<u32, RandomState>,
        DecodeError,
    >)
        requires
            params.image_height == params.image_width ==> {
                &&& cells.len() >= (params.image_height as u32) * (params.image_width as u32)
                &&& coordinate_length / 2 < 32
            },
        ensures
            params.image_height != params.image_width ==> (r matches Err(DecodeError::Other(m)) && m@
                == "Image is not square! Height and width values do not match"@),
            params.image_height == params.image_width ==> (r matches Ok(world) && set_items(world)
                == insert_all(
                Seq::empty(),
                input_coords(
                    cells@,
                    (params.image_width as u32) as int,
                    (coordinate_length / 2) as nat,
                    (params.image_height as u32) as int,
                ),
            )),
    {
        if params.image_height != params.image_width {
            return Err(DecodeError::Other(String::from_str(
                "Image is not square! Height and width values do not match",
            )));
        }
        let mut world = set_new();
        // gets coordinate length based of image size
        let indiv_coord_len = coordinate_length / 2;
        let height = params.image_height as u32;
        let width = params.image_width as u32;
        let ghost bits = indiv_coord_len as nat;
        let ghost w = width as int;
        let mut idx: usize = 0;
        let mut y: u32 = 0;
        while y < height
            invariant
                indiv_coord_len < 32,
                bits == indiv_coord_len,
                w == width,
                cells.len() >= height * width,
                y <= height,
                idx == y * width,
                set_items(world) == insert_all(Seq::empty(), input_coords(cells@, w, bits, y as int)),
            decreases height - y,
        {
            let ghost before = input_coords(cells@, w, bits, y as int);
            let mut x: u32 = 0;
            assert(input_row(cells@, w, bits, y as int, 0) =~= Seq::<u32>::empty());
            assert(before + input_row(cells@, w, bits, y as int, 0) =~= before);
            proof {
                assert((y + 1) * width == y * width + width) by (nonlinear_arith);
                assert((y + 1) * width <= height * width) by (nonlinear_arith)
                    requires
                        y < height,
                ;
            }
            while x < width
                invariant
                    indiv_coord_len < 32,
                    bits == indiv_coord_len,
                    w == width,
                    cells.len() >= height * width,
                    y < height,
                    x <= width,
                    idx == y * width + x,
                    (y + 1) * width <= height * width,
                    (y + 1) * width == y * width + width,
                    before == input_coords(cells@, w, bits, y as int),
                    set_items(world) == insert_all(
                        Seq::empty(),
                        before + input_row(cells@, w, bits, y as int, x as int),
                    ),
                decreases width - x,
            {
                let cell = cells[idx];
                let ghost prev = before + input_row(cells@, w, bits, y as int, x as int);
                match cell {
                    CellValue::Alive => {
                        let xy = x << indiv_coord_len | y;
                        set_insert(&mut world, xy);
                        proof {
                            lemma_insert_all_push(Seq::empty(), prev, xy);
                            assert(before + input_row(cells@, w, bits, y as int, x + 1) =~= prev.push(xy));
                        }
                    },
                    CellValue::Dead => {
                        assert(before + input_row(cells@, w, bits, y as int, x + 1) =~= prev);
                    },
                }
                idx += 1;
                x += 1;
            }
            y += 1;
        }
        Ok(world)
    }

    /// The image values for a world of packed coordinates, column by column: `Alive` where
    /// the world holds `(x << (coordinate_length / 2)) | y`, `Dead` elsewhere.
    pub fn image_cells_from_set(alive_cells: &IndexSet<u32, RandomState>, params: &Params, coordinate_length: u32) -> (r: Vec<CellValue>)
        requires
            coordinate_length / 2 < 32,
        ensures
            r@ == output_columns(
                set_items(*alive_cells),
                (params.image_height as u32) as int,
                (coordinate_length / 2) as nat,
                (params.image_width as u32) as int,
            ),
    {
        let indiv_coord_len = coordinate_length / 2;
        let width = params.image_width as u32;
        let height = params.image_height as u32;
        let ghost items = set_items(*alive_cells);
        let ghost bits = indiv_coord_len as nat;
        let mut out: Vec<CellValue> = Vec::new();
        let mut x: u32 = 0;
        while x < width
            invariant
                indiv_coord_len < 32,
                bits == indiv_coord_len,
                items == set_items(*alive_cells),
                x <= width,
                out@ == output_columns(items, height as int, bits, x as int),
            decreases width - x,
        {
            let ghost before = out@;
            let mut y: u32 = 0;
            while y < height
                invariant
                    indiv_coord_len < 32,
                    bits == indiv_coord_len,
                    items == set_items(*alive_cells),
                    x < width,
                    y <= height,
                    before == output_columns(items, height as int, bits, x as int),
                    out@ == before + Seq::new(
                        y as nat,
                        |c: int|
                            if items.contains(pack(x as int, c, bits)) {
                                CellValue::Alive
                            } else {
                                CellValue::Dead
                            },
                    ),
                decreases height - y,
            {
                // checks to see if the set of alive cells contains that coordinate
                if set_contains(alive_cells, x << indiv_coord_len | y) {
                    out.push(CellValue::Alive);
                } else {
                    out.push(CellValue::Dead);
                }
                assert(out@ =~= before + Seq::new(
                    (y + 1) as nat,
                    |c: int|
                        if items.contains(pack(x as int, c, bits)) {
                            CellValue::Alive
                        } else {
                            CellValue::Dead
                        },
                ));
                y += 1;
            }
            x += 1;
        }
        out
    }

    /// The alive cells of a world of packed coordinates, in the world's order, each
    /// unpacked into its column and row.
    pub fn alive_cell_coords(world: &IndexSet<u32, RandomState>, coordinate_length: u32) -> (r: Vec<CellCoord>)
        requires
            coordinate_length / 2 < 32,
        ensures
            r@.len() == set_items(*world).len(),
            forall|i: int|
                0 <= i < r@.len() ==> #[trigger] r@[i] == (CellCoord {
                    x: unpack_x(set_items(*world)[i], (coordinate_length / 2) as nat) as usize,
                    y: unpack_y(set_items(*world)[i], (coordinate_length / 2) as nat) as usize,
                }),
    {
        let indiv_coord_len = coordinate_length / 2;
        assert(1u32 << indiv_coord_len >= 1) by (bit_vector)
            requires
                indiv_coord_len < 32,
        ;
        let mask: u32 = (1u32 << indiv_coord_len) - 1;
        let items = set_to_vec(world);
        let mut out: Vec<CellCoord> = Vec::new();
        let mut i: usize = 0;
        while i < items.len()
            invariant
                indiv_coord_len == coordinate_length / 2,
                indiv_coord_len < 32,
                mask == ((1u32 << indiv_coord_len) - 1) as u32,
                items@ == set_items(*world),
                i <= items.len(),
                out@.len() == i,
                forall|k: int|
                    0 <= k < i ==> #[trigger] out@[k] == (CellCoord {
                        x: unpack_x(items@[k], indiv_coord_len as nat) as usize,
                        y: unpack_y(items@[k], indiv_coord_len as nat) as usize,
                    }),
            decreases items.len() - i,
        {
            let xy = items[i];
            let x = (xy >> indiv_coord_len) as usize;
            let y = (xy & mask) as usize;
            out.push(CellCoord { x, y });
            i += 1;
        }
        out
    }

    /// The alive cells among the cells of the image, row by row, as packed coordinates.
    pub fn calculate_alive_cells_in_set(world: &IndexSet<u32, RandomState>, coordinate_length: u32, params: &Params) -> (r: IndexSet<u32, RandomState>)
        requires
            coordinate_length / 2 < 32,
        ensures
            set_items(r) == insert_all(
                Seq::empty(),
                alive_coords_in_rows(
                    set_items(*world),
                    (params.image_width as u32) as int,
                    (coordinate_length / 2) as nat,
                    (params.image_height as u32) as int,
                ),
            ),
    {
        let mut alive_cells = set_new();
        let indiv_coord_len = coordinate_length / 2;
        let width = params.image_width as u32;
        let height = params.image_height as u32;
        let ghost items = set_items(*world);
        let ghost bits = indiv_coord_len as nat;
        let mut y: u32 = 0;
        while y < height
            invariant
                indiv_coord_len < 32,
                bits == indiv_coord_len,
                items == set_items(*world),
                y <= height,
                set_items(alive_cells) == insert_all(
                    Seq::empty(),
                    alive_coords_in_rows(items, width as int, bits, y as int),
                ),
            decreases height - y,
        {
            let ghost before = alive_coords_in_rows(items, width as int, bits, y as int);
            assert(before + alive_coords_in_row(items, bits, y as int, 0) =~= before);
            let mut x: u32 = 0;
            while x < width
                invariant
                    indiv_coord_len < 32,
                    bits == indiv_coord_len,
                    items == set_items(*world),
                    y < height,
                    x <= width,
                    before == alive_coords_in_rows(items, width as int, bits, y as int),
                    set_items(alive_cells) == insert_all(
                        Seq::empty(),
                        before + alive_coords_in_row(items, bits, y as int, x as int),
                    ),
                decreases width - x,
            {
                let coord = x << indiv_coord_len | y;
                let ghost prev = before + alive_coords_in_row(items, bits, y as int, x as int);
                if set_contains(world, coord) {
                    set_insert(&mut alive_cells, coord);
                    proof {
                        lemma_insert_all_push(Seq::empty(), prev, coord);
                        assert(before + alive_coords_in_row(items, bits, y as int, x + 1) =~= prev.push(coord));
                    }
                } else {
                    assert(before + alive_coords_in_row(items, bits, y as int, x + 1) =~= prev);
                }
                x += 1;
            }
            y += 1;
        }
        alive_cells
    }

    /// The alive cells of a world of rows of bytes, row by row.
    pub fn calculate_alive_cells(world: &Vec<Vec<u8>>, params: &Params) -> (r: Vec<CellCoord>)
        requires
            world_shape(world@, params.image_width as int, params.image_height as int),
        ensures
            r@ == alive_in_rows(world@, params.image_width as int, params.image_height as int),
    {
        alive_cells_of_grid(world, params)
    }

    /// The cell values that the image output receives for a world of rows of bytes.
    pub fn image_cells(world: &Vec<Vec<u8>>, params: &Params) -> (r: Vec<CellValue>)
        requires
            world_shape(world@, params.image_width as int, params.image_height as int),
        ensures
            r@ == image_rows(world@, params.image_width as int, params.image_height as int),
    {
        image_cells(world, params)
    }

    /// What to do about a key pressed while paused: `p` resumes, `q` quits, `s` writes the
    /// world to the image output, other keys do nothing.
    pub fn paused_key_action(key: Key) -> (r: PausedAction)
        ensures
            key == Key::P ==> r == PausedAction::Resume,
            key == Key::Q ==> r == PausedAction::Quit,
            key == Key::S ==> r == PausedAction::Screenshot,
            key == Key::Other ==> r == PausedAction::Ignore,
    {
        match key {
            Key::P => PausedAction::Resume,
            Key::Q => PausedAction::Quit,
            Key::S => PausedAction::Screenshot,
            Key::Other => PausedAction::Ignore,
        }
    }
}

/// Unpacking a packed coordinate gives back its column and row when both fit in `bits`
/// bits.
pub proof fn lemma_pack_unpack(x: u32, y: u32, bits: nat)
    requires
        bits <= 16,
        x < (1u32 << (bits as u32)),
        y < (1u32 << (bits as u32)),
    ensures
        unpack_x(pack(x as int, y as int, bits), bits) == x,
        unpack_y(pack(x as int, y as int, bits), bits) == y,
{
    let b = bits as u32;
    assert(((x << b) | y) >> b == x && ((x << b) | y) & ((1u32 << b) - 1) as u32 == y) by (bit_vector)
        requires
            b <= 16,
            x < (1u32 << b),
            y < (1u32 << b),
    ;
}

/// An image read row by row and written back column by column: the value at position
/// `x * side + y` is the image's value for column `x`, row `y`.
pub open spec fn transposed(cells: Seq<CellValue>, side: int) -> Seq<CellValue> {
    Seq::new((side * side) as nat, |i: int| cells[(i % side) * side + i / side])
}

proof fn lemma_input_row_contains(cells: Seq<CellValue>, w: int, bits: nat, y: int, xe: int, v: u32)
    ensures
        input_row(cells, w, bits, y, xe).contains(v) <==> exists|x: int|
            0 <= x < xe && cells[y * w + x] == CellValue::Alive && v == #[trigger] pack(x, y, bits),
    decreases xe,
{
    if xe > 0 {
        let prev = input_row(cells, w, bits, y, xe - 1);
        lemma_input_row_contains(cells, w, bits, y, xe - 1, v);
        lemma_push_contains(prev, pack(xe - 1, y, bits), v);
        if exists|x: int|
            0 <= x < xe && cells[y * w + x] == CellValue::Alive && v == #[trigger] pack(x, y, bits) {
            let x = choose|x: int|
                0 <= x < xe && cells[y * w + x] == CellValue::Alive && v == #[trigger] pack(x, y, bits);
            if x < xe - 1 {
                assert(0 <= x < xe - 1 && cells[y * w + x] == CellValue::Alive && v == pack(x, y, bits));
            }
        }
    }
}

proof fn lemma_input_coords_contains(cells: Seq<CellValue>, w: int, bits: nat, ye: int, v: u32)
    ensures
        input_coords(cells, w, bits, ye).contains(v) <==> exists|x: int, y: int|
            0 <= x < w && 0 <= y < ye && cells[y * w + x] == CellValue::Alive && v == #[trigger] pack(
                x,
                y,
                bits,
            ),
    decreases ye,
{
    if ye > 0 {
        let prev = input_coords(cells, w, bits, ye - 1);
        let row = input_row(cells, w, bits, ye - 1, w);
        lemma_input_coords_contains(cells, w, bits, ye - 1, v);
        lemma_input_row_contains(cells, w, bits, ye - 1, w, v);
        lemma_concat_contains(prev, row, v);
        if exists|x: int, y: int|
            0 <= x < w && 0 <= y < ye && cells[y * w + x] == CellValue::Alive && v == #[trigger] pack(
                x,
                y,
                bits,
            ) {
            let (x, y) = choose|x: int, y: int|
                0 <= x < w && 0 <= y < ye && cells[y * w + x] == CellValue::Alive && v
                    == #[trigger] pack(x, y, bits);
            if y < ye - 1 {
                assert(0 <= x < w && 0 <= y < ye - 1 && cells[y * w + x] == CellValue::Alive && v
                    == pack(x, y, bits));
            } else {
                assert(0 <= x < w && cells[(ye - 1) * w + x] == CellValue::Alive && v == pack(
                    x,
                    ye - 1,
                    bits,
                ));
            }
        }
        if row.contains(v) {
            let x = choose|x: int|
                0 <= x < w && cells[(ye - 1) * w + x] == CellValue::Alive && v == #[trigger] pack(
                    x,
                    ye - 1,
                    bits,
                );
            assert(0 <= x < w && 0 <= ye - 1 < ye && cells[(ye - 1) * w + x] == CellValue::Alive
                && v == pack(x, ye - 1, bits));
        }
    }
}

proof fn lemma_output_columns(items: Seq<u32>, h: int, bits: nat, xe: int)
    requires
        h >= 0,
        xe >= 0,
    ensures
        output_columns(items, h, bits, xe).len() == xe * h,
        forall|x: int, y: int|
            0 <= x < xe && 0 <= y < h ==> #[trigger] output_columns(items, h, bits, xe)[x * h + y]
                == if items.contains(pack(x, y, bits)) {
                CellValue::Alive
            } else {
                CellValue::Dead
            },
    decreases xe,
{
    if xe > 0 {
        lemma_output_columns(items, h, bits, xe - 1);
        let prev = output_columns(items, h, bits, xe - 1);
        assert((xe - 1) * h + h == xe * h) by (nonlinear_arith);
        assert forall|x: int, y: int| 0 <= x < xe && 0 <= y < h implies #[trigger] output_columns(
            items,
            h,
            bits,
            xe,
        )[x * h + y] == if items.contains(pack(x, y, bits)) {
            CellValue::Alive
        } else {
            CellValue::Dead
        } by {
            if x < xe - 1 {
                assert(x * h + y < (xe - 1) * h) by (nonlinear_arith)
                    requires
                        0 <= x < xe - 1,
                        0 <= y < h,
                ;
                assert(x * h + y >= 0) by (nonlinear_arith)
                    requires
                        0 <= x,
                        0 <= y,
                        h >= 0,
                ;
                assert(prev[x * h + y] == output_columns(items, h, bits, xe - 1)[x * h + y]);
            } else {
                assert(x * h + y == (xe - 1) * h + y);
            }
        }
    }
}

/// Writing back the world that `initialise_world` read from a square image whose side is a
/// power of two gives the image transposed: the image is read row by row and written
/// column by column, so the value for column `x`, row `y` comes out at position
/// `x * side + y`.
pub proof fn lemma_image_round_trip(cells: Seq<CellValue>, b: u32)
    requires
        b <= 16,
        cells.len() == (1u32 << b) * (1u32 << b),
    ensures
        output_columns(
            insert_all(
                Seq::empty(),
                input_coords(
                    cells,
                    (1u32 << b) as int,
                    (coordinate_length(1u32 << b) / 2) as nat,
                    (1u32 << b) as int,
                ),
            ),
            (1u32 << b) as int,
            (coordinate_length(1u32 << b) / 2) as nat,
            (1u32 << b) as int,
        ) == transposed(cells, (1u32 << b) as int),
{
    let n = (1u32 << b) as int;
    lemma_coord_bits_pow2(b);
    let bits = (coordinate_length(1u32 << b) / 2) as nat;
    assert(bits == b);
    let nu = 1u32 << b;
    assert(1 <= nu <= 0x10000) by (bit_vector)
        requires
            nu == 1u32 << b,
            b <= 16,
    ;
    let coords = input_coords(cells, n, bits, n);
    let world = insert_all(Seq::empty(), coords);
    let out = output_columns(world, n, bits, n);
    lemma_output_columns(world, n, bits, n);
    let t = transposed(cells, n);
    assert forall|i: int| 0 <= i < n * n implies out[i] == t[i] by {
        let x = i / n;
        let y = i % n;
        vstd::arithmetic::div_mod::lemma_fundamental_div_mod(i, n);
        vstd::arithmetic::div_mod::lemma_mod_pos_bound(i, n);
        assert(0 <= x < n) by (nonlinear_arith)
            requires
                i == n * x + y,
                0 <= y < n,
                0 <= i < n * n,
                n >= 1,
        ;
        assert(i == x * n + y) by (nonlinear_arith)
            requires
                i == n * (i / n) + i % n,
                x == i / n,
                y == i % n,
        ;
        assert(out[x * n + y] == out[i]);
        let v = pack(x, y, bits);
        lemma_insert_all_contains(Seq::empty(), coords, v);
        lemma_input_coords_contains(cells, n, bits, n, v);
        assert(0 <= y * n + x < n * n) by (nonlinear_arith)
            requires
                0 <= x < n,
                0 <= y < n,
        ;
        if world.contains(v) {
            let (x2, y2) = choose|x2: int, y2: int|
                0 <= x2 < n && 0 <= y2 < n && cells[y2 * n + x2] == CellValue::Alive && v
                    == #[trigger] pack(x2, y2, bits);
            lemma_pack_unpack(x2 as u32, y2 as u32, bits);
            lemma_pack_unpack(x as u32, y as u32, bits);
            assert(x2 == x && y2 == y);
        } else {
            if cells[y * n + x] == CellValue::Alive {
                assert(coords.contains(v));
            }
        }
    }
    assert(out =~= t);
}

} // verus!
