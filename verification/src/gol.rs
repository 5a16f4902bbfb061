//! The Game of Life on a world of rows of bytes (255 alive, 0 dead), computed by splitting
//! the rows among workers.
use vstd::prelude::*;

verus! {

/// The parameters of a run on a world of rows of bytes.
#[derive(Clone, Copy, Debug)]
pub struct Params {
    pub threads: usize,
    pub image_width: usize,
    pub image_height: usize,
    pub turns: usize,
}

/// The position of a cell: its column `x` and its row `y`.
#[derive(Clone, Copy, Debug, PartialEq, Eq, Structural)]
pub struct CellCoord {
    pub x: usize,
    pub y: usize,
}

/// The state of a cell as the image input and output carry it.
#[derive(Clone, Copy, Debug, PartialEq, Eq, Structural)]
pub enum CellValue {
    Alive,
    Dead,
}

/// The world has at least `h` rows of at least `w` cells.
pub open spec fn world_shape(world: Seq<Vec<u8>>, w: int, h: int) -> bool {
    &&& world.len() >= h
    &&& forall|y: int| 0 <= y < h ==> #[trigger] world[y]@.len() >= w
}

/// The cell at column `x`, row `y` of the world.
pub open spec fn cell_at(world: Seq<Vec<u8>>, x: int, y: int) -> u8 {
    world[y]@[x]
}

/// Whether the neighbour of `(i, j)` at offset number `k` (`k = 3 * xo + yo` for offsets
/// `xo, yo` in `0..3` standing for `-1..=1`, the cell itself at `k = 4` excluded) is alive;
/// the world wraps around at its edges.
pub open spec fn grid_neighbour_alive(world: Seq<Vec<u8>>, i: int, j: int, w: int, h: int, k: int) -> bool {
    let xo = k / 3;
    let yo = k % 3;
    k != 4 && cell_at(world, (i + xo + w - 1) % w, (j + yo + h - 1) % h) == 255
}

/// How many of the neighbours of `(i, j)` with offset number below `k` are alive.
pub open spec fn grid_neighbours_below(world: Seq<Vec<u8>>, i: int, j: int, w: int, h: int, k: int) -> nat
    decreases k,
{
    if k <= 0 {
        0
    } else {
        grid_neighbours_below(world, i, j, w, h, k - 1) + if grid_neighbour_alive(
            world,
            i,
            j,
            w,
            h,
            k - 1,
        ) {
            1nat
        } else {
            0nat
        }
    }
}

/// The value of cell `(i, j)` in the next state: Conway's rule on its eight neighbours.
pub open spec fn next_value(world: Seq<Vec<u8>>, i: int, j: int, w: int, h: int) -> u8 {
    let n = grid_neighbours_below(world, i, j, w, h, 9);
    if cell_at(world, i, j) == 255 {
        if n < 2 || n > 3 {
            0
        } else {
            255
        }
    } else {
        if n == 3 {
            255
        } else {
            0
        }
    }
}

/// Row `j` of the next state: `h` cells, the first `w` of them computed, the rest 0.
pub open spec fn next_row(world: Seq<Vec<u8>>, j: int, w: int, h: int) -> Seq<u8> {
    Seq::new(h as nat, |i: int| if i < w { next_value(world, i, j, w, h) } else { 0u8 })
}

/// The cells of the rows `y1..=y2` whose value changes in the next state, column by
/// column over the columns `0..xe`, top to bottom within a column.
pub open spec fn flipped_cells(world: Seq<Vec<u8>>, w: int, h: int, y1: int, y2: int, xe: int) -> Seq<CellCoord>
    decreases xe,
{
    if xe <= 0 {
        Seq::empty()
    } else {
        flipped_cells(world, w, h, y1, y2, xe - 1) + flipped_in_column(world, w, h, xe - 1, y1, y2 + 1)
    }
}

/// The cells of column `x` in the rows `y1..ye` whose value changes in the next state.
pub open spec fn flipped_in_column(world: Seq<Vec<u8>>, w: int, h: int, x: int, y1: int, ye: int) -> Seq<CellCoord>
    decreases ye - y1,
{
    if ye <= y1 {
        Seq::empty()
    } else {
        let prev = flipped_in_column(world, w, h, x, y1, ye - 1);
        let y = ye - 1;
        if cell_at(world, x, y) != next_value(world, x, y, w, h) {
            prev.push(CellCoord { x: x as usize, y: y as usize })
        } else {
            prev
        }
    }
}

/// What a worker needs of its world and rows.
pub open spec fn worker_ok(params: Params, y1: int, y2: int, world: Seq<Vec<u8>>) -> bool {
    let w = params.image_width as int;
    let h = params.image_height as int;
    &&& w <= h
    &&& 0 <= y1 <= y2 < h
    &&& world_shape(world, w, h)
    &&& w + w + 2 <= usize::MAX
    &&& h + h + 2 <= usize::MAX
}

fn count_neighbours(world: &Vec<Vec<u8>>, i: usize, j: usize, w: usize, h: usize) -> (r: usize)
    requires
        i < w <= h,
        j < h,
        world_shape(world@, w as int, h as int),
        w + w + 2 <= usize::MAX,
        h + h + 2 <= usize::MAX,
    ensures
        r == grid_neighbours_below(world@, i as int, j as int, w as int, h as int, 9),
{
    let mut alive_neighbors: usize = 0;
    // check the 8 neighbors of the cell
    let mut x: usize = 0;
    while x <= 2
        invariant
            i < w <= h,
            j < h,
            world_shape(world@, w as int, h as int),
            w + w + 2 <= usize::MAX,
            h + h + 2 <= usize::MAX,
            x <= 3,
            alive_neighbors == grid_neighbours_below(world@, i as int, j as int, w as int, h as int, 3 * x),
            alive_neighbors <= 3 * x,
        decreases 3 - x,
    {
        let mut y: usize = 0;
        while y <= 2
            invariant
                i < w <= h,
                j < h,
                world_shape(world@, w as int, h as int),
                w + w + 2 <= usize::MAX,
                h + h + 2 <= usize::MAX,
                x <= 2,
                y <= 3,
                alive_neighbors == grid_neighbours_below(
                    world@,
                    i as int,
                    j as int,
                    w as int,
                    h as int,
                    3 * x + y,
                ),
                alive_neighbors <= 3 * x + y,
            decreases 3 - y,
        {
            let ghost k = 3 * x + y;
            assert(k / 3 == x && k % 3 == y);
            if x == 1 && y == 1 {
                y += 1;
                continue;
            }
            // check if the neighbor is alive
            let x_neighbour = ((i + x + w) - 1) % w;
            let y_neighbour = ((j + y + h) - 1) % h;
            assert(world@[y_neighbour as int]@.len() >= w);
            if world[y_neighbour][x_neighbour] == 255 {
                alive_neighbors += 1;
            }
            y += 1;
        }
        x += 1;
    }
    alive_neighbors
}

/// Computes the next state of the rows `y1..=y2`, and the cells of those rows whose value
/// changes, column by column.
pub fn worker(params: &Params, y1: usize, y2: usize, world: &Vec<Vec<u8>>) -> (r: (
    Vec<Vec<u8>>,
    Vec<CellCoord>,
))
    requires
        worker_ok(*params, y1 as int, y2 as int, world@),
    ensures
        r.0@.len() == y2 - y1 + 1,
        forall|k: int|
            0 <= k < r.0@.len() ==> #[trigger] r.0@[k]@ == next_row(
                world@,
                y1 + k,
                params.image_width as int,
                params.image_height as int,
            ),
        r.1@ == flipped_cells(
            world@,
            params.image_width as int,
            params.image_height as int,
            y1 as int,
            y2 as int,
            params.image_width as int,
        ),
{
    let w = params.image_width;
    let h = params.image_height;
    let ghost wi = w as int;
    let ghost hi = h as int;
    // go through each row and calculate whether each cell should be alive or dead
    let mut slice_world: Vec<Vec<u8>> = Vec::new();
    let mut j = y1;
    while j <= y2
        invariant
            worker_ok(*params, y1 as int, y2 as int, world@),
            w == params.image_width,
            h == params.image_height,
            wi == w,
            hi == h,
            y1 <= j <= y2 + 1,
            slice_world@.len() == j - y1,
            forall|k: int|
                0 <= k < slice_world@.len() ==> #[trigger] slice_world@[k]@ == next_row(
                    world@,
                    y1 + k,
                    wi,
                    hi,
                ),
        decreases y2 + 1 - j,
    {
        let mut row: Vec<u8> = vec![0; h];
        let mut i: usize = 0;
        while i < w
            invariant
                worker_ok(*params, y1 as int, y2 as int, world@),
                w == params.image_width,
                h == params.image_height,
                wi == w,
                hi == h,
                y1 <= j <= y2,
                i <= w,
                row@.len() == h,
                forall|c: int|
                    0 <= c < h ==> #[trigger] row@[c] == if c < i {
                        next_value(world@, c, j as int, wi, hi)
                    } else {
                        0u8
                    },
            decreases w - i,
        {
            let alive_neighbors = count_neighbours(world, i, j, w, h);
            assert(world@[j as int]@.len() >= w);
            let value: u8 = if world[j][i] == 255 {
                if alive_neighbors < 2 || alive_neighbors > 3 {
                    0
                } else {
                    255
                }
            } else {
                if alive_neighbors == 3 {
                    255
                } else {
                    0
                }
            };
            assert(value == next_value(world@, i as int, j as int, wi, hi));
            let ghost old_row = row@;
            row.set(i, value);
            assert(row@ == old_row.update(i as int, value));
            i += 1;
        }
        assert(row@ =~= next_row(world@, j as int, wi, hi));
        slice_world.push(row);
        j += 1;
    }
    // the cells that change, in the order in which the columns are swept
    let mut flipped: Vec<CellCoord> = Vec::new();
    let mut i: usize = 0;
    while i < w
        invariant
            worker_ok(*params, y1 as int, y2 as int, world@),
            w == params.image_width,
            h == params.image_height,
            wi == w,
            hi == h,
            i <= w,
            slice_world@.len() == y2 - y1 + 1,
            forall|k: int|
                0 <= k < slice_world@.len() ==> #[trigger] slice_world@[k]@ == next_row(
                    world@,
                    y1 + k,
                    wi,
                    hi,
                ),
            flipped@ == flipped_cells(world@, wi, hi, y1 as int, y2 as int, i as int),
        decreases w - i,
    {
        let mut j = y1;
        let ghost before = flipped@;
        while j <= y2
            invariant
                worker_ok(*params, y1 as int, y2 as int, world@),
                w == params.image_width,
                h == params.image_height,
                wi == w,
                hi == h,
                i < w,
                y1 <= j <= y2 + 1,
                slice_world@.len() == y2 - y1 + 1,
                forall|k: int|
                    0 <= k < slice_world@.len() ==> #[trigger] slice_world@[k]@ == next_row(
                        world@,
                        y1 + k,
                        wi,
                        hi,
                    ),
                before == flipped_cells(world@, wi, hi, y1 as int, y2 as int, i as int),
                flipped@ == before + flipped_in_column(world@, wi, hi, i as int, y1 as int, j as int),
            decreases y2 + 1 - j,
        {
            assert(world@[j as int]@.len() >= w);
            let ghost k = j - y1;
            assert(slice_world@[k]@ == next_row(world@, y1 + k, wi, hi));
            assert(y1 + k == j);
            assert(slice_world@[k]@.len() == h);
            assert(slice_world@[k]@[i as int] == next_value(world@, i as int, j as int, wi, hi));
            let ghost col = flipped_in_column(world@, wi, hi, i as int, y1 as int, j as int);
            let ghost col1 = flipped_in_column(world@, wi, hi, i as int, y1 as int, j + 1);
            if world[j][i] != slice_world[j - y1][i] {
                flipped.push(CellCoord { x: i, y: j });
                assert(col1 == col.push(CellCoord { x: i as usize, y: j as usize }));
                assert(flipped@ =~= before + col1);
            } else {
                assert(col1 == col);
            }
            j += 1;
        }
        i += 1;
    }
    (slice_world, flipped)
}

/// The first row of slice `i` when each of `threads` slices gets `h / threads` rows.
pub open spec fn slice_start(i: int, h: int, threads: int) -> int {
    i * (h / threads)
}

/// The last row of slice `i`; the last slice also takes the `h % threads` rows left over.
pub open spec fn slice_end(i: int, h: int, threads: int) -> int {
    (i + 1) * (h / threads) - 1 + if i + 1 == threads {
        h % threads
    } else {
        0
    }
}

/// The slices of the rows split among `threads` workers cover the rows `0..h` one after the
/// other: slice 0 starts at row 0, each slice starts right after the one before it ends,
/// no slice is empty, and the last slice ends at row `h - 1`.
pub proof fn lemma_slices_partition(h: int, threads: int, i: int)
    requires
        1 <= threads <= h,
        0 <= i < threads,
    ensures
        slice_start(0, h, threads) == 0,
        0 <= slice_start(i, h, threads) <= slice_end(i, h, threads) < h,
        i + 1 < threads ==> slice_end(i, h, threads) + 1 == slice_start(i + 1, h, threads),
        i + 1 == threads ==> slice_end(i, h, threads) == h - 1,
{
    let v = h / threads;
    let r = h % threads;
    vstd::arithmetic::div_mod::lemma_fundamental_div_mod(h, threads);
    assert(v >= 1) by {
        vstd::arithmetic::div_mod::lemma_div_is_ordered(threads, h, threads);
        vstd::arithmetic::div_mod::lemma_div_by_self(threads);
    }
    assert(0 * v == 0);
    assert((i + 1) * v == i * v + v) by (nonlinear_arith);
    assert(i * v >= 0) by (nonlinear_arith)
        requires
            i >= 0,
            v >= 1,
    ;
    assert((i + 1) * v <= threads * v) by (nonlinear_arith)
        requires
            i + 1 <= threads,
            v >= 1,
    ;
    assert(threads * v == v * threads) by (nonlinear_arith);
}

/// The cells whose value changes in the next state when the rows are split among
/// `threads` workers: those of the first `n` workers' slices, in slice order.
pub open spec fn threaded_flips(world: Seq<Vec<u8>>, w: int, h: int, threads: int, n: int) -> Seq<CellCoord>
    decreases n,
{
    if n <= 0 {
        Seq::empty()
    } else {
        threaded_flips(world, w, h, threads, n - 1) + flipped_cells(
            world,
            w,
            h,
            slice_start(n - 1, h, threads),
            slice_end(n - 1, h, threads),
            w,
        )
    }
}

/// What the distributor needs of its world to compute the next state.
pub open spec fn world_ok(params: Params, world: Seq<Vec<u8>>) -> bool {
    let w = params.image_width as int;
    let h = params.image_height as int;
    &&& 1 <= params.threads <= h
    &&& w <= h
    &&& world_shape(world, w, h)
    &&& w + w + 2 <= usize::MAX
    &&& h + h + 2 <= usize::MAX
}

/// Computes the next state of the world by splitting its rows among `params.threads`
/// workers, and the cells whose value changes, slice by slice. The next state does not
/// depend on the number of workers: every row is the row that Conway's rule gives.
pub fn calculate_next_state(params: &Params, world: &Vec<Vec<u8>>) -> (r: (
    Vec<Vec<u8>>,
    Vec<CellCoord>,
))
    requires
        world_ok(*params, world@),
    ensures
        r.0@.len() == params.image_height,
        forall|j: int|
            0 <= j < params.image_height ==> #[trigger] r.0@[j]@ == next_row(
                world@,
                j,
                params.image_width as int,
                params.image_height as int,
            ),
        r.1@ == threaded_flips(
            world@,
            params.image_width as int,
            params.image_height as int,
            params.threads as int,
            params.threads as int,
        ),
{
    let h = params.image_height;
    let threads = params.threads;
    let ghost wi = params.image_width as int;
    let ghost hi = h as int;
    let mut new_world: Vec<Vec<u8>> = Vec::with_capacity(h);
    let mut flipped: Vec<CellCoord> = Vec::new();
    // Divides up world between threads
    let v_diff = h / threads;
    // Handles remainder e.g. if num of threads is odd
    let remainder = h % threads;
    let mut i: usize = 0;
    while i < threads
        invariant
            world_ok(*params, world@),
            h == params.image_height,
            threads == params.threads,
            wi == params.image_width,
            hi == h,
            v_diff == h / threads,
            remainder == h % threads,
            i <= threads,
            new_world@.len() == if i < threads { slice_start(i as int, hi, threads as int) } else { hi },
            forall|j: int|
                0 <= j < new_world@.len() ==> #[trigger] new_world@[j]@ == next_row(world@, j, wi, hi),
            flipped@ == threaded_flips(world@, wi, hi, threads as int, i as int),
        decreases threads - i,
    {
        proof {
            lemma_slices_partition(hi, threads as int, i as int);
        }
        // Calculate y bounds for thread
        let y1 = i * v_diff;
        let mut y2 = ((i + 1) * v_diff) - 1;
        if i + 1 == threads {
            y2 += remainder;
        }
        assert(y1 == slice_start(i as int, hi, threads as int));
        assert(y2 == slice_end(i as int, hi, threads as int));
        let (mut new_slice, mut slice_flips) = worker(params, y1, y2, world);
        let ghost old_len = new_world@.len();
        let ghost old_world = new_world@;
        let ghost slice_view = new_slice@;
        new_world.append(&mut new_slice);
        flipped.append(&mut slice_flips);
        proof {
            assert forall|j: int| 0 <= j < new_world@.len() implies #[trigger] new_world@[j]@ == next_row(world@, j, wi, hi) by {
                if j >= old_len {
                    assert(new_world@[j] == slice_view[j - old_len]);
                    assert(slice_view[j - old_len]@ == next_row(world@, y1 + (j - old_len), wi, hi));
                } else {
                    assert(new_world@[j] == old_world[j]);
                }
            }
            if i + 1 < threads {
                lemma_slices_partition(hi, threads as int, (i + 1) as int);
            }
        }
        i += 1;
    }
    (new_world, flipped)
}

/// The alive cells of the rows `0..ye`, row by row, left to right within a row.
pub open spec fn alive_in_rows(world: Seq<Vec<u8>>, w: int, ye: int) -> Seq<CellCoord>
    decreases ye,
{
    if ye <= 0 {
        Seq::empty()
    } else {
        alive_in_rows(world, w, ye - 1) + alive_in_row(world, ye - 1, w)
    }
}

/// The alive cells of row `y` among its first `xe` cells, left to right.
pub open spec fn alive_in_row(world: Seq<Vec<u8>>, y: int, xe: int) -> Seq<CellCoord>
    decreases xe,
{
    if xe <= 0 {
        Seq::empty()
    } else {
        let prev = alive_in_row(world, y, xe - 1);
        if cell_at(world, xe - 1, y) == 255 {
            prev.push(CellCoord { x: (xe - 1) as usize, y: y as usize })
        } else {
            prev
        }
    }
}

/// The alive cells of the world, row by row.
pub fn calculate_alive_cells(world: &Vec<Vec<u8>>, params: &Params) -> (r: Vec<CellCoord>)
    requires
        world_shape(world@, params.image_width as int, params.image_height as int),
    ensures
        r@ == alive_in_rows(world@, params.image_width as int, params.image_height as int),
{
    let mut alive_cells: Vec<CellCoord> = Vec::new();
    let mut y: usize = 0;
    while y < params.image_height
        invariant
            world_shape(world@, params.image_width as int, params.image_height as int),
            y <= params.image_height,
            alive_cells@ == alive_in_rows(world@, params.image_width as int, y as int),
        decreases params.image_height - y,
    {
        let mut x: usize = 0;
        let ghost before = alive_cells@;
        while x < params.image_width
            invariant
                world_shape(world@, params.image_width as int, params.image_height as int),
                y < params.image_height,
                x <= params.image_width,
                before == alive_in_rows(world@, params.image_width as int, y as int),
                alive_cells@ == before + alive_in_row(world@, y as int, x as int),
            decreases params.image_width - x,
        {
            assert(world@[y as int]@.len() >= params.image_width);
            if world[y][x] == 255 {
                alive_cells.push(CellCoord { x, y });
                assert(alive_cells@ =~= before + alive_in_row(world@, y as int, x + 1));
            }
            x += 1;
        }
        y += 1;
    }
    alive_cells
}

/// The value that the image output carries for a cell byte.
pub open spec fn cell_value_of(b: u8) -> CellValue {
    if b == 255 {
        CellValue::Alive
    } else {
        CellValue::Dead
    }
}

/// The cell values of the rows `0..ye`, row by row, left to right within a row.
pub open spec fn image_rows(world: Seq<Vec<u8>>, w: int, ye: int) -> Seq<CellValue>
    decreases ye,
{
    if ye <= 0 {
        Seq::empty()
    } else {
        image_rows(world, w, ye - 1) + Seq::new(w as nat, |x: int| cell_value_of(cell_at(world, x, ye - 1)))
    }
}

/// The cell values that the image output receives for the world, row by row.
pub fn image_cells(world: &Vec<Vec<u8>>, params: &Params) -> (r: Vec<CellValue>)
    requires
        world_shape(world@, params.image_width as int, params.image_height as int),
    ensures
        r@ == image_rows(world@, params.image_width as int, params.image_height as int),
{
    let mut cells: Vec<CellValue> = Vec::new();
    let mut y: usize = 0;
    while y < params.image_height
        invariant
            world_shape(world@, params.image_width as int, params.image_height as int),
            y <= params.image_height,
            cells@ == image_rows(world@, params.image_width as int, y as int),
        decreases params.image_height - y,
    {
        let mut x: usize = 0;
        let ghost before = cells@;
        while x < params.image_width
            invariant
                world_shape(world@, params.image_width as int, params.image_height as int),
                y < params.image_height,
                x <= params.image_width,
                before == image_rows(world@, params.image_width as int, y as int),
                cells@ == before + Seq::new(x as nat, |c: int| cell_value_of(cell_at(world@, c, y as int))),
            decreases params.image_width - x,
        {
            assert(world@[y as int]@.len() >= params.image_width);
            if world[y][x] == 255 {
                cells.push(CellValue::Alive);
            } else {
                cells.push(CellValue::Dead);
            }
            assert(cells@ =~= before + Seq::new((x + 1) as nat, |c: int| cell_value_of(cell_at(world@, c, y as int))));
            x += 1;
        }
        y += 1;
    }
    cells
}

/// A key pressed while the game runs.
#[derive(Clone, Copy, Debug, PartialEq, Eq, Structural)]
pub enum Key {
    P,
    Q,
    S,
    Other,
}

/// What the distributor does about a key pressed while the game runs.
#[derive(Clone, Copy, Debug, PartialEq, Eq, Structural)]
pub enum KeyAction {
    /// Stop after this turn and report the quitting state.
    Quit,
    /// Report the number of alive cells.
    ReportAliveCount,
    /// Nothing.
    Ignore,
}

/// `q` quits, `p` reports the number of alive cells, other keys do nothing.
pub fn running_key_action(key: Key) -> (r: KeyAction)
    ensures
        key == Key::Q ==> r == KeyAction::Quit,
        key == Key::P ==> r == KeyAction::ReportAliveCount,
        key != Key::Q && key != Key::P ==> r == KeyAction::Ignore,
{
    match key {
        Key::Q => KeyAction::Quit,
        Key::P => KeyAction::ReportAliveCount,
        _ => KeyAction::Ignore,
    }
}

/// Whether the distributor waits for another event: turns remain, and no key asked it to
/// quit.
pub fn keeps_running(turn: u32, turns: usize, quit: bool) -> (r: bool)
    ensures
        r == (turn < #[verifier::truncate] (turns as u32) && !quit),
{
    turn < turns as u32 && !quit
}

/// What the distributor does when the next world arrives after `turn` completed turns: the
/// count goes up by one, and the following turn is computed when turns remain.
pub fn frame_arrived(turn: u32, turns: usize) -> (r: (u32, bool))
    requires
        turn < u32::MAX,
    ensures
        r.0 == turn + 1,
        r.1 == (turn + 1 < #[verifier::truncate] (turns as u32)),
{
    let next = turn + 1;
    (next, next < turns as u32)
}

/// 1 when the cell at column `x`, row `y` of the world is alive (255), else 0.
pub open spec fn alive_at(world: Seq<Vec<u8>>, x: int, y: int) -> nat {
    if cell_at(world, x, y) == 255 {
        1
    } else {
        0
    }
}

/// The number of alive cells among the eight around `(i, j)` on the torus of `w` columns
/// and `h` rows: columns `i - 1`, `i`, `i + 1` and rows `j - 1`, `j`, `j + 1`, each taken
/// modulo the side, the cell itself left out.
pub open spec fn alive_around(world: Seq<Vec<u8>>, i: int, j: int, w: int, h: int) -> nat {
    alive_at(world, (i - 1) % w, (j - 1) % h) + alive_at(world, (i - 1) % w, j % h) + alive_at(
        world,
        (i - 1) % w,
        (j + 1) % h,
    ) + alive_at(world, i % w, (j - 1) % h) + alive_at(world, i % w, (j + 1) % h) + alive_at(
        world,
        (i + 1) % w,
        (j - 1) % h,
    ) + alive_at(world, (i + 1) % w, j % h) + alive_at(world, (i + 1) % w, (j + 1) % h)
}

/// The next state is Conway's rule on the torus: a cell of the next state is alive (255)
/// exactly when it is alive now with two or three alive cells around it, or dead now with
/// exactly three; every other cell is dead (0). A dead cell with six alive neighbours, for
/// one, stays dead.
pub proof fn lemma_next_row_is_conway(world: Seq<Vec<u8>>, w: int, h: int, i: int, j: int)
    requires
        1 <= w <= h,
        0 <= i < w,
        0 <= j < h,
    ensures
        next_row(world, j, w, h)[i] == 255 <==> ({
            let n = alive_around(world, i, j, w, h);
            ||| cell_at(world, i, j) == 255 && (n == 2 || n == 3)
            ||| cell_at(world, i, j) != 255 && n == 3
        }),
        next_row(world, j, w, h)[i] == 0 || next_row(world, j, w, h)[i] == 255,
{
    reveal_with_fuel(grid_neighbours_below, 10);
    vstd::arithmetic::div_mod::lemma_mod_add_multiples_vanish(i - 1, w);
    vstd::arithmetic::div_mod::lemma_mod_add_multiples_vanish(i, w);
    vstd::arithmetic::div_mod::lemma_mod_add_multiples_vanish(i + 1, w);
    vstd::arithmetic::div_mod::lemma_mod_add_multiples_vanish(j - 1, h);
    vstd::arithmetic::div_mod::lemma_mod_add_multiples_vanish(j, h);
    vstd::arithmetic::div_mod::lemma_mod_add_multiples_vanish(j + 1, h);
    vstd::arithmetic::div_mod::lemma_small_mod(i as nat, w as nat);
    vstd::arithmetic::div_mod::lemma_small_mod(j as nat, h as nat);
    assert(grid_neighbours_below(world, i, j, w, h, 9) == alive_around(world, i, j, w, h));
}

} // verus!
