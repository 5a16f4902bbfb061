use distributed_gol::broker::{broker_route, slice_jobs, BrokerRoute, BrokerState, SliceJob};
use distributed_gol::errors::RpcError;
use distributed_gol::function_call::FunctionCall;
use distributed_gol::stubs::ProcessSliceArgs;
use distributed_gol::worker::Worker;
use indexmap::IndexSet;

fn set_of(items: &[u32]) -> IndexSet<u32> {
    let mut s = IndexSet::new();
    for i in items {
        s.insert(*i);
    }
    s
}

fn items(s: &IndexSet<u32>) -> Vec<u32> {
    s.iter().copied().collect()
}

fn job(y1: u16, y2: u16) -> SliceJob {
    SliceJob { y1, y2 }
}

#[test]
fn rows_split_evenly_with_the_rest_to_the_last_worker() {
    assert_eq!(slice_jobs(16, 3), vec![job(0, 4), job(5, 9), job(10, 15)]);
    assert_eq!(slice_jobs(16, 4), vec![job(0, 3), job(4, 7), job(8, 11), job(12, 15)]);
}

#[test]
fn one_worker_takes_every_row() {
    assert_eq!(slice_jobs(10, 1), vec![job(0, 9)]);
}

#[test]
fn as_many_workers_as_rows() {
    assert_eq!(slice_jobs(3, 3), vec![job(0, 0), job(1, 1), job(2, 2)]);
}

#[test]
fn slices_cover_every_row_once() {
    for size in 1u32..40 {
        for threads in 1..=size {
            let jobs = slice_jobs(size, threads);
            assert_eq!(jobs.len() as u32, threads);
            let mut next: u32 = 0;
            for j in &jobs {
                assert_eq!(j.y1 as u32, next);
                assert!(j.y2 as u32 + 1 >= next);
                next = j.y2 as u32 + 1;
            }
            assert_eq!(next, size);
        }
    }
}

#[test]
fn broker_routes_its_calls() {
    assert_eq!(broker_route(FunctionCall::SUBSCRIBE).unwrap(), BrokerRoute::Subscribe);
    assert_eq!(broker_route(FunctionCall::PROCESS_GOL).unwrap(), BrokerRoute::ProcessGol);
    assert!(matches!(broker_route(FunctionCall::PROCESS_SLICE), Err(RpcError::HandlerNotFound)));
    assert!(matches!(broker_route(FunctionCall::QUIT), Err(RpcError::HandlerNotFound)));
}

#[test]
fn new_state_is_empty() {
    let state = BrokerState::new();
    assert!(state.world.is_empty());
    assert_eq!(state.turn, 0);
    assert!(!state.pause);
    assert!(!state.quit);
}

#[test]
fn answers_are_merged_in_slice_order() {
    let mut state = BrokerState::new();
    state.begin(set_of(&[9]));
    assert_eq!(items(&state.world), vec![9]);
    state.complete_turn(0, vec![set_of(&[3, 1]), set_of(&[1, 2]), set_of(&[])]);
    assert_eq!(items(&state.world), vec![3, 1, 2]);
    assert_eq!(state.turn, 0);
}

#[test]
fn turn_count_adds_each_turn_index() {
    let mut state = BrokerState::new();
    state.begin(set_of(&[1]));
    for turn in 0..4u32 {
        state.complete_turn(turn, vec![set_of(&[1])]);
    }
    assert_eq!(state.turn, 6);
}

#[test]
fn finishing_answers_and_resets() {
    let mut state = BrokerState::new();
    state.begin(set_of(&[5, 6]));
    state.complete_turn(2, vec![set_of(&[7]), set_of(&[8, 7])]);
    state.pause = true;
    let response = state.finish();
    assert_eq!(items(&response.world), vec![7, 8]);
    assert_eq!(response.alive_count, 2);
    assert_eq!(response.current_turn, 2);
    assert!(!response.paused);
    assert!(state.world.is_empty());
    assert_eq!(state.turn, 0);
    assert!(!state.pause);
    assert!(!state.quit);
}

#[test]
fn reset_clears_everything() {
    let mut state = BrokerState::new();
    state.begin(set_of(&[5]));
    state.quit = true;
    state.turn = 4;
    state.reset();
    assert!(state.world.is_empty());
    assert_eq!(state.turn, 0);
    assert!(!state.quit);
}

#[test]
fn splitting_a_turn_among_workers_gives_the_same_world() {
    let cells = [3u32, 4, 5, 20, 21, 36];
    let worker = Worker::new();
    for threads in 1..=4u32 {
        let mut answers = Vec::new();
        for j in slice_jobs(16, threads).iter().rev() {
            let args = ProcessSliceArgs {
                image_size: 16,
                threads: threads as u8,
                y1: j.y1,
                y2: j.y2,
                alive_cells: set_of(&cells),
            };
            answers.push(worker.process_slice(args).unwrap().alive_cells);
        }
        let mut state = BrokerState::new();
        state.begin(set_of(&cells));
        state.complete_turn(0, answers);
        let mut got = items(&state.world);
        got.sort();
        assert_eq!(got, vec![3, 5, 36, 37, 244]);
    }
}
