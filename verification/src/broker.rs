//! The broker's decisions: how it splits a world among workers, gathers their answers,
//! and answers the controller.
use vstd::prelude::*;
use indexmap::IndexSet;
use std::hash::RandomState;
use crate::errors::RpcError;
use crate::function_call::FunctionCall;
use crate::gol::{lemma_slices_partition, slice_end, slice_start};
use crate::cell::neighbour_count;
use crate::coordinates::coord_bits;
use crate::index_set::{
    insert_all, lemma_insert_all_contains, lemma_insert_all_no_duplicates, set_append, set_items,
    set_len, set_new,
};
use crate::cell::pack;
use crate::worker::{
    alive_next, births, in_columns_and_rows, lemma_births_contains, lemma_candidates_contains,
    slice_births, slice_candidates, survives,
};
use crate::stubs::GOLResponse;

verus! {

/// The world and progress of the run that the broker is executing.
pub struct BrokerState {
    pub world: IndexSet<u32, RandomState>,
    pub turn: u32,
    pub pause: bool,
    pub quit: bool,
}

/// The rows `y1..=y2` that one worker computes in a turn.
#[derive(Clone, Copy, Debug, PartialEq, Eq, Structural)]
pub struct SliceJob {
    pub y1: u16,
    pub y2: u16,
}

/// The remote calls that the broker handles.
#[derive(Clone, Copy, Debug, PartialEq, Eq, Structural)]
pub enum BrokerRoute {
    Subscribe,
    ProcessGol,
}

/// The items after inserting every set of `sets`, in order.
pub open spec fn merge_all(items: Seq<u32>, sets: Seq<Seq<u32>>) -> Seq<u32>
    decreases sets.len(),
{
    if sets.len() == 0 {
        items
    } else {
        insert_all(merge_all(items, sets.drop_last()), sets.last())
    }
}

impl BrokerState {
    pub fn new() -> (r: Self)
        ensures
            set_items(r.world) == Seq::<u32>::empty(),
            r.turn == 0,
            r.pause == false,
            r.quit == false,
    {
        BrokerState { world: set_new(), turn: 0, pause: false, quit: false }
    }

    pub fn reset(&mut self)
        ensures
            set_items(final(self).world) == Seq::<u32>::empty(),
            final(self).turn == 0,
            final(self).pause == false,
            final(self).quit == false,
    {
        self.world = set_new();
        self.turn = 0;
        self.pause = false;
        self.quit = false;
    }

    /// Takes the alive cells of a request as the world to run.
    pub fn begin(&mut self, alive_cells: IndexSet<u32, RandomState>)
        ensures
            set_items(final(self).world) == set_items(alive_cells),
            final(self).turn == old(self).turn,
            final(self).pause == old(self).pause,
            final(self).quit == old(self).quit,
    {
        self.world = alive_cells;
    }

    /// Ends turn number `turn` (counted from 0): the new world is the workers' answers
    /// merged in the order of their slices, and `turn` is added to the turn count.
    pub fn complete_turn(&mut self, turn: u32, results: Vec<IndexSet<u32, RandomState>>)
        requires
            old(self).turn + turn <= u32::MAX,
        ensures
            set_items(final(self).world) == merge_all(
                Seq::empty(),
                results@.map_values(|s: IndexSet<u32, RandomState>| set_items(s)),
            ),
            final(self).turn == old(self).turn + turn,
            final(self).pause == old(self).pause,
            final(self).quit == old(self).quit,
    {
        let mut new_world = set_new();
        let mut results = results;
        let ghost all = results@.map_values(|s: IndexSet<u32, RandomState>| set_items(s));
        let n = results.len();
        let mut i: usize = 0;
        assert(all.subrange(0, 0) =~= Seq::<Seq<u32>>::empty());
        while i < n
            invariant
                results@.len() == n - i,
                i <= n,
                all.len() == n,
                forall|k: int| 0 <= k < n - i ==> #[trigger] set_items(results@[k]) == all[i + k],
                set_items(new_world) == merge_all(Seq::empty(), all.subrange(0, i as int)),
            decreases n - i,
        {
            let ghost before = results@;
            let mut res = results.remove(0);
            assert(set_items(res) == all[i as int]);
            assert forall|k: int| 0 <= k < n - (i + 1) implies #[trigger] set_items(results@[k])
                == all[(i + 1) + k] by {
                assert(results@[k] == before[k + 1]);
            }
            set_append(&mut new_world, &mut res);
            assert(all.subrange(0, i + 1).drop_last() =~= all.subrange(0, i as int));
            i += 1;
        }
        assert(all.subrange(0, n as int) =~= all);
        self.turn = self.turn + turn;
        self.world = new_world;
    }

    /// Answers the controller with the final world and turn, and resets the state.
    pub fn finish(&mut self) -> (r: GOLResponse)
        ensures
            set_items(r.world) == set_items(old(self).world),
            r.alive_count == #[verifier::truncate] (set_items(old(self).world).len() as u32),
            r.current_turn == old(self).turn,
            r.paused == false,
            set_items(final(self).world) == Seq::<u32>::empty(),
            final(self).turn == 0,
            final(self).pause == false,
            final(self).quit == false,
    {
        let alive_count = #[verifier::truncate] (set_len(&self.world) as u32);
        let mut world = set_new();
        std::mem::swap(&mut world, &mut self.world);
        let response = GOLResponse {
            alive_count,
            current_turn: self.turn,
            paused: false,
            world,
        };
        self.reset();
        response
    }
}

/// The rows that each of `threads` workers computes in a turn on a world of side
/// `image_size`: `image_size / threads` rows each, the last worker also taking the rows
/// left over, each bound cut to 16 bits.
pub fn slice_jobs(image_size: u32, threads: u32) -> (r: Vec<SliceJob>)
    requires
        1 <= threads <= image_size,
    ensures
        r@.len() == threads,
        forall|i: int|
            0 <= i < threads ==> #[trigger] r@[i] == (SliceJob {
                y1: slice_start(i, image_size as int, threads as int) as u16,
                y2: slice_end(i, image_size as int, threads as int) as u16,
            }),
{
    let v_diff = image_size / threads;
    let remainder = image_size % threads;
    let mut jobs: Vec<SliceJob> = Vec::new();
    let mut i: u32 = 0;
    while i < threads
        invariant
            1 <= threads <= image_size,
            v_diff == image_size / threads,
            remainder == image_size % threads,
            i <= threads,
            jobs@.len() == i,
            forall|k: int|
                0 <= k < i ==> #[trigger] jobs@[k] == (SliceJob {
                    y1: slice_start(k, image_size as int, threads as int) as u16,
                    y2: slice_end(k, image_size as int, threads as int) as u16,
                }),
        decreases threads - i,
    {
        proof {
            lemma_slices_partition(image_size as int, threads as int, i as int);
        }
        let y1 = i * v_diff;
        let mut y2 = ((i + 1) * v_diff) - 1;
        if i + 1 == threads {
            y2 += remainder;
        }
        jobs.push(SliceJob { y1: y1 as u16, y2: y2 as u16 });
        i += 1;
    }
    jobs
}

/// The handler of the remote call `id`: `SUBSCRIBE` and `PROCESS_GOL` have one.
pub fn broker_route(id: u8) -> (r: Result<BrokerRoute, RpcError>)
    ensures
        id == FunctionCall::SUBSCRIBE ==> r == Ok::<BrokerRoute, RpcError>(BrokerRoute::Subscribe),
        id == FunctionCall::PROCESS_GOL ==> r == Ok::<BrokerRoute, RpcError>(BrokerRoute::ProcessGol),
        id != FunctionCall::SUBSCRIBE && id != FunctionCall::PROCESS_GOL ==> r matches Err(
            RpcError::HandlerNotFound,
        ),
{
    if id == FunctionCall::SUBSCRIBE {
        Ok(BrokerRoute::Subscribe)
    } else if id == FunctionCall::PROCESS_GOL {
        Ok(BrokerRoute::ProcessGol)
    } else {
        Err(RpcError::HandlerNotFound)
    }
}

/// A coordinate is in the merge of `sets` exactly when it was among `items` or is in one of
/// the sets.
pub proof fn lemma_merge_all_contains(items: Seq<u32>, sets: Seq<Seq<u32>>, v: u32)
    ensures
        merge_all(items, sets).contains(v) <==> (items.contains(v) || exists|k: int|
            0 <= k < sets.len() && #[trigger] sets[k].contains(v)),
    decreases sets.len(),
{
    if sets.len() > 0 {
        let init = sets.drop_last();
        lemma_merge_all_contains(items, init, v);
        lemma_insert_all_contains(merge_all(items, init), sets.last(), v);
        if exists|k: int| 0 <= k < sets.len() && #[trigger] sets[k].contains(v) {
            let k = choose|k: int| 0 <= k < sets.len() && #[trigger] sets[k].contains(v);
            if k < init.len() {
                assert(init[k] == sets[k]);
            }
        }
        if exists|k: int| 0 <= k < init.len() && #[trigger] init[k].contains(v) {
            let k = choose|k: int| 0 <= k < init.len() && #[trigger] init[k].contains(v);
            assert(sets[k] == init[k]);
        }
        if sets.last().contains(v) {
            assert(sets[sets.len() - 1].contains(v));
        }
    }
}

/// Every row of a world of side `h` lies in one of the slices of the first `m + 1` workers
/// when it is no later than the last row of worker `m`.
proof fn lemma_row_in_some_slice(h: int, threads: int, m: int, y: int)
    requires
        1 <= threads <= h,
        0 <= m < threads,
        0 <= y <= slice_end(m, h, threads),
    ensures
        exists|k: int|
            0 <= k <= m && slice_start(k, h, threads) <= y <= #[trigger] slice_end(k, h, threads),
    decreases m,
{
    lemma_slices_partition(h, threads, m);
    if m > 0 {
        lemma_slices_partition(h, threads, m - 1);
        if y <= slice_end(m - 1, h, threads) {
            lemma_row_in_some_slice(h, threads, m - 1, y);
            let k = choose|k: int|
                0 <= k <= m - 1 && slice_start(k, h, threads) <= y <= #[trigger] slice_end(
                    k,
                    h,
                    threads,
                );
            assert(0 <= k <= m && slice_start(k, h, threads) <= y <= slice_end(k, h, threads));
        } else {
            assert(slice_start(m, h, threads) <= y <= slice_end(m, h, threads));
        }
    } else {
        assert(slice_start(0, h, threads) <= y <= slice_end(0, h, threads));
    }
}

/// The answer that worker `k` of `threads` gives for its slice of the rows of the world
/// `cells` of side `image_size`: the slice's bounds are those that `slice_jobs` sends.
pub open spec fn slice_answer(cells: Seq<u32>, image_size: u32, threads: u32, k: int) -> Seq<u32> {
    slice_births(
        cells,
        image_size,
        (slice_start(k, image_size as int, threads as int) as u16) as int,
        (slice_end(k, image_size as int, threads as int) as u16) as int,
    )
}

/// A turn split among workers computes the whole world: when the answers that
/// `complete_turn` merges are the workers' answers for the slices that `slice_jobs` makes,
/// every slice's answer among them, in whatever order they arrived, the merged world holds
/// exactly the coordinates that the workers visit for the cells of the world and that are
/// alive in the next state, each once. How many workers share the turn makes no difference.
pub proof fn lemma_split_turn(cells: Seq<u32>, image_size: u32, threads: u32, answers: Seq<Seq<u32>>)
    requires
        1 <= threads <= image_size,
        image_size < 0x10000,
        forall|j: int|
            #![trigger answers[j]]
            0 <= j < answers.len() ==> exists|k: int|
                0 <= k < threads && answers[j] == #[trigger] slice_answer(cells, image_size, threads, k),
        forall|k: int|
            #![trigger slice_answer(cells, image_size, threads, k)]
            0 <= k < threads ==> exists|j: int|
                0 <= j < answers.len() && #[trigger] answers[j] == slice_answer(
                    cells,
                    image_size,
                    threads,
                    k,
                ),
    ensures
        forall|xy: u32|
            #[trigger] merge_all(Seq::empty(), answers).contains(xy) <==> alive_next(
                cells,
                image_size,
                xy,
            ),
        merge_all(Seq::empty(), answers).no_duplicates(),
{
    assert forall|xy: u32| #[trigger]
        merge_all(Seq::empty(), answers).contains(xy) <==> alive_next(cells, image_size, xy) by {
        lemma_merge_all_contains(Seq::empty(), answers, xy);
        if merge_all(Seq::empty(), answers).contains(xy) {
            let j = choose|j: int| 0 <= j < answers.len() && #[trigger] answers[j].contains(xy);
            let k = choose|k: int|
                0 <= k < threads && answers[j] == #[trigger] slice_answer(cells, image_size, threads, k);
            lemma_slice_answer_contains(cells, image_size, threads, k, xy);
        }
        if alive_next(cells, image_size, xy) {
            let k = lemma_slice_of_alive(cells, image_size, threads, xy);
            let j = choose|j: int|
                0 <= j < answers.len() && #[trigger] answers[j] == slice_answer(
                    cells,
                    image_size,
                    threads,
                    k,
                );
            assert(answers[j].contains(xy));
        }
    }
    lemma_merge_no_duplicates(answers);
}

/// A coordinate is in the answer for slice `k` exactly when the worker visits it for a
/// column of the world and a row of the slice and it is alive in the next state; such a
/// coordinate is alive in the next state of the whole world.
proof fn lemma_slice_answer_contains(cells: Seq<u32>, image_size: u32, threads: u32, k: int, xy: u32)
    requires
        1 <= threads <= image_size,
        image_size < 0x10000,
        0 <= k < threads,
    ensures
        slice_answer(cells, image_size, threads, k).contains(xy) ==> alive_next(cells, image_size, xy),
{
    let n = image_size as int;
    let t = threads as int;
    let cl = coord_bits(image_size);
    lemma_slices_partition(n, t, k);
    let cands = slice_candidates(slice_start(k, n, t), slice_end(k, n, t), cl, n);
    lemma_insert_all_contains(Seq::empty(), births(cells, cands, image_size), xy);
    lemma_births_contains(cells, cands, image_size, xy);
    lemma_candidates_contains(slice_start(k, n, t), slice_end(k, n, t), cl, n, xy);
    if slice_answer(cells, image_size, threads, k).contains(xy) {
        let (x, y) = choose|x: int, y: int|
            0 <= x < n && slice_start(k, n, t) <= y <= slice_end(k, n, t) && xy == #[trigger] pack(
                x,
                y,
                cl,
            );
        assert(0 <= x < n && 0 <= y <= n - 1 && xy == pack(x, y, cl));
    }
}

/// A coordinate alive in the next state of the world is in the answer for some slice.
proof fn lemma_slice_of_alive(cells: Seq<u32>, image_size: u32, threads: u32, xy: u32) -> (k: int)
    requires
        1 <= threads <= image_size,
        image_size < 0x10000,
        alive_next(cells, image_size, xy),
    ensures
        0 <= k < threads,
        slice_answer(cells, image_size, threads, k).contains(xy),
{
    let n = image_size as int;
    let t = threads as int;
    let cl = coord_bits(image_size);
    let (x, y) = choose|x: int, y: int| 0 <= x < n && 0 <= y <= n - 1 && xy == #[trigger] pack(x, y, cl);
    lemma_slices_partition(n, t, t - 1);
    lemma_row_in_some_slice(n, t, t - 1, y);
    let k = choose|k: int| 0 <= k <= t - 1 && slice_start(k, n, t) <= y <= #[trigger] slice_end(k, n, t);
    lemma_slices_partition(n, t, k);
    let cands = slice_candidates(slice_start(k, n, t), slice_end(k, n, t), cl, n);
    assert(in_columns_and_rows(xy, cl, n, slice_start(k, n, t), slice_end(k, n, t)));
    lemma_candidates_contains(slice_start(k, n, t), slice_end(k, n, t), cl, n, xy);
    lemma_births_contains(cells, cands, image_size, xy);
    lemma_insert_all_contains(Seq::empty(), births(cells, cands, image_size), xy);
    k
}

proof fn lemma_merge_no_duplicates(sets: Seq<Seq<u32>>)
    ensures
        merge_all(Seq::empty(), sets).no_duplicates(),
    decreases sets.len(),
{
    if sets.len() > 0 {
        lemma_merge_no_duplicates(sets.drop_last());
        lemma_insert_all_no_duplicates(merge_all(Seq::empty(), sets.drop_last()), sets.last());
    }
}

} // verus!
