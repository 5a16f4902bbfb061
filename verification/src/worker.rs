//! The worker: computes the next state of a slice of rows of the world.
use vstd::prelude::*;
use indexmap::IndexSet;
use std::hash::RandomState;
use crate::cell::{layout_fits, neighbour_count, pack, Cell};
use crate::coordinates::{
    coord_bits, coord_len_and_offset, coordinate_length, limit_for, mask_of, Coordinates,
};
use crate::errors::RpcError;
use crate::function_call::FunctionCall;
use crate::index_set::{
    lemma_insert_all_contains,
    insert_all, insert_item, lemma_push_contains, presized, set_contains, set_insert, set_items,
    set_len,
};
use crate::payload::lemma_insert_all_push;
use crate::stubs::{ProcessSliceArgs, ProcessSliceGOLResponse};

verus! {

/// Conway's rule: an alive cell stays alive with two or three alive neighbours, a dead
/// cell comes alive with exactly three.
pub open spec fn survives(alive: bool, n: nat) -> bool {
    if alive {
        n == 2 || n == 3
    } else {
        n == 3
    }
}

/// The coordinates `pack(x, y, cl)` of column `x` for the rows `y1..=y2`, in row order.
pub open spec fn slice_column(x: int, y1: int, y2: int, cl: nat) -> Seq<u32> {
    if y1 <= y2 {
        Seq::new((y2 - y1 + 1) as nat, |j: int| pack(x, y1 + j, cl))
    } else {
        Seq::empty()
    }
}

/// The coordinates that the worker visits for the columns `0..xe`, column by column.
pub open spec fn slice_candidates(y1: int, y2: int, cl: nat, xe: int) -> Seq<u32>
    decreases xe,
{
    if xe <= 0 {
        Seq::empty()
    } else {
        slice_candidates(y1, y2, cl, xe - 1) + slice_column(xe - 1, y1, y2, cl)
    }
}

/// The coordinates among `cands` that are alive in the next state of the world `cells`.
pub open spec fn births(cells: Seq<u32>, cands: Seq<u32>, image_size: u32) -> Seq<u32>
    decreases cands.len(),
{
    if cands.len() == 0 {
        Seq::empty()
    } else {
        let b = births(cells, cands.drop_last(), image_size);
        let c = cands.last();
        if survives(cells.contains(c), neighbour_count(cells, c, image_size)) {
            b.push(c)
        } else {
            b
        }
    }
}

/// The alive cells that a worker computes for the rows `y1..=y2` of the world `cells` of
/// side `image_size`: every combined coordinate `(x << (coordinate_length / 2)) | y` with `x`
/// in `0..image_size` and `y` in `y1..=y2` that is alive in the next state, column by
/// column.
pub open spec fn slice_births(cells: Seq<u32>, image_size: u32, y1: int, y2: int) -> Seq<u32> {
    insert_all(
        Seq::empty(),
        births(
            cells,
            slice_candidates(y1, y2, coord_bits(image_size), image_size as int),
            image_size,
        ),
    )
}

/// The alive cells that `process_slice` computes for a request.
pub open spec fn slice_result(request: ProcessSliceArgs) -> Seq<u32> {
    slice_births(
        set_items(request.alive_cells),
        request.image_size,
        request.y1 as int,
        request.y2 as int,
    )
}

/// `xy` is the coordinate that a worker visits for some column `0..xe` and some row
/// `y1..=y2`.
pub open spec fn in_columns_and_rows(xy: u32, cl: nat, xe: int, y1: int, y2: int) -> bool {
    exists|x: int, y: int| 0 <= x < xe && y1 <= y <= y2 && xy == #[trigger] pack(x, y, cl)
}

/// `xy` is the coordinate that a worker visits for some cell of the world of side
/// `image_size`, and it is alive in the next state of the world `cells`.
pub open spec fn alive_next(cells: Seq<u32>, image_size: u32, xy: u32) -> bool {
    &&& in_columns_and_rows(xy, coord_bits(image_size), image_size as int, 0, image_size - 1)
    &&& survives(cells.contains(xy), neighbour_count(cells, xy, image_size))
}

/// A coordinate is among the births of `cands` exactly when it is a candidate that is alive
/// in the next state.
pub proof fn lemma_births_contains(cells: Seq<u32>, cands: Seq<u32>, image_size: u32, v: u32)
    ensures
        births(cells, cands, image_size).contains(v) <==> (cands.contains(v) && survives(
            cells.contains(v),
            neighbour_count(cells, v, image_size),
        )),
    decreases cands.len(),
{
    if cands.len() > 0 {
        let init = cands.drop_last();
        let c = cands.last();
        lemma_births_contains(cells, init, image_size, v);
        lemma_push_contains(births(cells, init, image_size), c, v);
        assert(cands =~= init.push(c));
        lemma_push_contains(init, c, v);
    }
}

/// A worker answers with Conway's rule: a coordinate is in its answer for the rows
/// `y1..=y2` of the world `cells` of side `image_size` exactly when it is the coordinate of
/// a column of the world and one of those rows, and it is alive with two or three alive
/// neighbours, or dead with exactly three. A dead cell with six alive neighbours, for one,
/// is not in the answer.
pub proof fn lemma_slice_is_conway(cells: Seq<u32>, image_size: u32, y1: int, y2: int, xy: u32)
    ensures
        slice_births(cells, image_size, y1, y2).contains(xy) <==> ({
            let n = neighbour_count(cells, xy, image_size);
            &&& in_columns_and_rows(xy, coord_bits(image_size), image_size as int, y1, y2)
            &&& (cells.contains(xy) && (n == 2 || n == 3)) || (!cells.contains(xy) && n == 3)
        }),
{
    let cands = slice_candidates(y1, y2, coord_bits(image_size), image_size as int);
    lemma_insert_all_contains(Seq::empty(), births(cells, cands, image_size), xy);
    lemma_births_contains(cells, cands, image_size, xy);
    lemma_candidates_contains(y1, y2, coord_bits(image_size), image_size as int, xy);
}

/// A coordinate is among the candidates of the columns `0..xe` exactly when it is the
/// coordinate of one of those columns and one of the rows `y1..=y2`.
pub proof fn lemma_candidates_contains(y1: int, y2: int, cl: nat, xe: int, v: u32)
    ensures
        slice_candidates(y1, y2, cl, xe).contains(v) <==> in_columns_and_rows(v, cl, xe, y1, y2),
    decreases xe,
{
    if xe > 0 {
        let pre = slice_candidates(y1, y2, cl, xe - 1);
        let col = slice_column(xe - 1, y1, y2, cl);
        lemma_candidates_contains(y1, y2, cl, xe - 1, v);
        let all = pre + col;
        if all.contains(v) {
            let i = choose|i: int| 0 <= i < all.len() && all[i] == v;
            if i < pre.len() {
                assert(pre[i] == v);
            } else {
                let j = i - pre.len();
                assert(col[j] == v);
                assert(v == pack(xe - 1, y1 + j, cl));
            }
        }
        if in_columns_and_rows(v, cl, xe, y1, y2) {
            let (x, y) = choose|x: int, y: int|
                0 <= x < xe && y1 <= y <= y2 && v == #[trigger] pack(x, y, cl);
            if x < xe - 1 {
                assert(in_columns_and_rows(v, cl, xe - 1, y1, y2));
                let i = choose|i: int| 0 <= i < pre.len() && pre[i] == v;
                assert(all[i] == v);
            } else {
                assert(col[y - y1] == v);
                assert(all[pre.len() + (y - y1)] == v);
            }
        }
    } else {
        assert(!in_columns_and_rows(v, cl, xe, y1, y2));
    }
}

/// What `process_slice` needs: a world whose combined coordinates fit in 32 bits.
pub open spec fn slice_request_ok(request: ProcessSliceArgs) -> bool {
    layout_fits(request.image_size)
}

/// A worker; it holds no state of its own.
pub struct Worker {}

impl Worker {
    pub fn new() -> (r: Self)
        ensures
            r == (Worker {}),
    {
        Self {}
    }

    /// Computes which cells of the rows `y1..=y2` are alive in the next state of the world.
    pub fn process_slice(&self, request: ProcessSliceArgs) -> (r: Result<
        ProcessSliceGOLResponse,
        RpcError,
    >)
        requires
            slice_request_ok(request),
        ensures
            r matches Ok(resp) && set_items(resp.alive_cells) == slice_result(request),
    {
        let alive_cells = &request.alive_cells;
        let mut new_slice = presized(set_len(alive_cells));
        let (coordinate_length, _) = Worker::calc_coord_len_and_offset(request.image_size);
        // x and y each take half of the combined coordinate
        let bits = coordinate_length / 2;
        let ghost cells = set_items(*alive_cells);
        let ghost cl = bits as nat;
        let ghost y1 = request.y1 as int;
        let ghost y2 = request.y2 as int;
        let size = request.image_size;
        // for every x and y in image size and within slice boun
        let mut x: u32 = 0;
        while x < size
            invariant
                x <= size,
                size == request.image_size,
                slice_request_ok(request),
                cl == bits,
                cl == coord_bits(size),
                bits <= 16,
                cells == set_items(request.alive_cells),
                alive_cells == &request.alive_cells,
                y1 == request.y1,
                y2 == request.y2,
                set_items(new_slice) == insert_all(
                    Seq::empty(),
                    births(cells, slice_candidates(y1, y2, cl, x as int), size),
                ),
            decreases size - x,
        {
            let mut y: u32 = request.y1 as u32;
            let ghost before = slice_candidates(y1, y2, cl, x as int);
            let ghost column = slice_column(x as int, y1, y2, cl);
            proof {
                assert(column.take(0) =~= Seq::<u32>::empty());
                assert(before + column.take(0) =~= before);
            }
            while y <= request.y2 as u32
                invariant
                    x < size,
                    size == request.image_size,
                    slice_request_ok(request),
                    cl == bits,
                    bits <= 16,
                    cells == set_items(request.alive_cells),
                    alive_cells == &request.alive_cells,
                    y1 == request.y1,
                    y2 == request.y2,
                    y1 <= y,
                    y1 <= y2 ==> y <= y2 + 1,
                    y1 > y2 ==> y == y1,
                    before == slice_candidates(y1, y2, cl, x as int),
                    column == slice_column(x as int, y1, y2, cl),
                    set_items(new_slice) == insert_all(
                        Seq::empty(),
                        births(cells, before + column.take(y - y1), size),
                    ),
                decreases y2 + 1 - y,
            {
                let xy = x << bits | y;
                let is_alive = set_contains(alive_cells, xy);
                assert(column[y - y1] == xy);
                let num_neighbours = match alive_cells.neighbours(xy, request.image_size) {
                    Some(num) => num,
                    None => return Err(RpcError::Other(String::from_str("Error fetching neightbours"))),
                };
                let ghost prev = before + column.take(y - y1);
                let ghost next = before + column.take(y - y1 + 1);
                assert(next =~= prev.push(xy));
                assert(next.drop_last() =~= prev);
                if is_alive {
                    if num_neighbours == 2 || num_neighbours == 3 {
                        set_insert(&mut new_slice, xy);
                        proof {
                            lemma_insert_all_push(Seq::empty(), births(cells, prev, size), xy);
                        }
                    }
                } else if num_neighbours == 3 {
                    set_insert(&mut new_slice, xy);
                    proof {
                        lemma_insert_all_push(Seq::empty(), births(cells, prev, size), xy);
                    }
                }
                y += 1;
            }
            proof {
                assert(column.take(y - y1) =~= column);
            }
            x += 1;
        }
        Ok(ProcessSliceGOLResponse { alive_cells: new_slice })
    }

    /// Runs the remote call `id` on a slice request; only `SUBSCRIBE` has a handler.
    pub fn handle_rpc_call(&self, id: u8, request: ProcessSliceArgs) -> (r: Result<
        ProcessSliceGOLResponse,
        RpcError,
    >)
        requires
            id == FunctionCall::SUBSCRIBE ==> slice_request_ok(request),
        ensures
            id == FunctionCall::SUBSCRIBE ==> (r matches Ok(resp) && set_items(resp.alive_cells)
                == slice_result(request)),
            id != FunctionCall::SUBSCRIBE ==> r matches Err(RpcError::HandlerNotFound),
    {
        if id == FunctionCall::SUBSCRIBE {
            self.process_slice(request)
        } else {
            Err(RpcError::HandlerNotFound)
        }
    }
}

impl Coordinates for Worker {
    fn calc_coord_len_and_offset(image_size: u32) -> (r: (u32, u32)) {
        coord_len_and_offset(image_size)
    }

    fn generate_mask(coordinate_length: u32) -> (r: u32) {
        mask_of(coordinate_length)
    }

    fn limit(coordinate_length: u32) -> (r: usize) {
        limit_for(coordinate_length)
    }
}

} // verus!
