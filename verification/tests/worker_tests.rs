use distributed_gol::cell::Cell;
use distributed_gol::coordinates::Coordinates;
use distributed_gol::errors::RpcError;
use distributed_gol::function_call::FunctionCall;
use distributed_gol::stubs::ProcessSliceArgs;
use distributed_gol::worker::Worker;
use indexmap::IndexSet;

fn set_of(items: &[u32]) -> IndexSet<u32> {
    let mut s = IndexSet::new();
    for i in items {
        s.insert(*i);
    }
    s
}

fn items(s: &IndexSet<u32>) -> Vec<u32> {
    s.iter().copied().collect()
}

fn slice(cells: &[u32], image_size: u32, y1: u16, y2: u16) -> ProcessSliceArgs {
    ProcessSliceArgs { image_size, threads: 1, y1, y2, alive_cells: set_of(cells) }
}

#[test]
fn neighbours_wrap_around_the_edges() {
    // a column of three cells at x = 0, rows 0..=2, on a 4x4 world (2 bits per axis)
    let world = set_of(&[0, 1, 2]);
    assert_eq!(world.neighbours(1, 4), Some(2));
    assert_eq!(world.neighbours(5, 4), Some(3));
    assert_eq!(world.neighbours(3, 4), Some(2));
    assert_eq!(world.neighbours(13, 4), Some(3));
}

#[test]
fn neighbours_of_a_cell_outside_the_world_are_none() {
    let world = set_of(&[0, 1, 2]);
    assert_eq!(world.neighbours(16, 4), Some(0));
}

#[test]
fn neighbours_on_a_side_that_is_not_a_power_of_two() {
    // on a 3x3 world each axis takes 2 bits: (1, 1) is 5
    let world = set_of(&[0, 1, 2]);
    assert_eq!(world.neighbours(5, 3), Some(3));
    assert_eq!(world.neighbours(1, 3), Some(2));
    assert_eq!(world.neighbours(3, 3), Some(0));
}

#[test]
fn neighbours_of_an_empty_world() {
    let world: IndexSet<u32> = IndexSet::new();
    assert_eq!(world.neighbours(5, 4), Some(0));
}

#[test]
fn blinker_turns_horizontal() {
    // a column of three cells at x = 0, rows 1..=3, on a 4x4 world (2 bits per axis)
    let worker = Worker::new();
    let r = worker.process_slice(slice(&[1, 2, 3], 4, 0, 3)).unwrap();
    // row 2, columns 0, 1 and 3, column by column
    assert_eq!(items(&r.alive_cells), vec![2, (1 << 2) | 2, (3 << 2) | 2]);
}

#[test]
fn slice_only_visits_its_rows() {
    let worker = Worker::new();
    let r = worker.process_slice(slice(&[0, 1, 2], 4, 1, 2)).unwrap();
    assert_eq!(items(&r.alive_cells), vec![1, 5, 13]);
    let r = worker.process_slice(slice(&[0, 1, 2], 4, 2, 3)).unwrap();
    assert!(r.alive_cells.is_empty());
}

#[test]
fn cells_are_born_beyond_the_first_column() {
    let worker = Worker::new();
    let r = worker.process_slice(slice(&[0, 1, 2], 4, 0, 3)).unwrap();
    // (0, 1) survives; (1, 1) and (3, 1) are born
    assert_eq!(items(&r.alive_cells), vec![1, 5, 13]);
}

#[test]
fn side_that_is_not_a_power_of_two() {
    // on a 3x3 world each axis takes 2 bits; a full column fills the world
    let worker = Worker::new();
    let r = worker.process_slice(slice(&[4, 5, 6], 3, 0, 2)).unwrap();
    assert_eq!(items(&r.alive_cells), vec![0, 1, 2, 4, 5, 6, 8, 9, 10]);
}

#[test]
fn empty_slice_of_rows() {
    let worker = Worker::new();
    let r = worker.process_slice(slice(&[0, 1, 2], 4, 3, 2)).unwrap();
    assert!(r.alive_cells.is_empty());
}

#[test]
fn worker_handles_subscribe_as_a_slice() {
    let worker = Worker::new();
    let r = worker.handle_rpc_call(FunctionCall::SUBSCRIBE, slice(&[1, 2, 3], 4, 0, 3)).unwrap();
    assert_eq!(items(&r.alive_cells), vec![2, 6, 14]);
}

#[test]
fn worker_has_no_other_handler() {
    let worker = Worker::new();
    let r = worker.handle_rpc_call(FunctionCall::PROCESS_SLICE, slice(&[1, 2, 3], 4, 0, 3));
    assert!(matches!(r, Err(RpcError::HandlerNotFound)));
}

#[test]
fn worker_coordinates() {
    assert_eq!(Worker::calc_coord_len_and_offset(4), (4, 28));
    assert_eq!(Worker::generate_mask(4), 0xF000_0000);
    assert_eq!(Worker::limit(4), 8);
}
