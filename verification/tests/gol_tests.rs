use distributed_gol::gol::{
    calculate_alive_cells, calculate_next_state, frame_arrived, image_cells, keeps_running,
    running_key_action, worker, CellCoord, CellValue, Key, KeyAction, Params,
};

fn params(threads: usize, size: usize) -> Params {
    Params { threads, image_width: size, image_height: size, turns: 1 }
}

fn world_with(size: usize, alive: &[(usize, usize)]) -> Vec<Vec<u8>> {
    let mut w = vec![vec![0u8; size]; size];
    for (x, y) in alive {
        w[*y][*x] = 255;
    }
    w
}

fn c(x: usize, y: usize) -> CellCoord {
    CellCoord { x, y }
}

#[test]
fn blinker_turns_vertical() {
    let world = world_with(5, &[(1, 2), (2, 2), (3, 2)]);
    let (next, flips) = calculate_next_state(&params(1, 5), &world);
    assert_eq!(next, world_with(5, &[(2, 1), (2, 2), (2, 3)]));
    assert_eq!(flips, vec![c(1, 2), c(2, 1), c(2, 3), c(3, 2)]);
}

#[test]
fn next_state_does_not_depend_on_the_number_of_workers() {
    let world = world_with(5, &[(1, 2), (2, 2), (3, 2)]);
    let (one, _) = calculate_next_state(&params(1, 5), &world);
    for threads in 2..=5 {
        let (many, _) = calculate_next_state(&params(threads, 5), &world);
        assert_eq!(many, one);
    }
}

#[test]
fn flips_are_reported_slice_by_slice() {
    let world = world_with(5, &[(1, 2), (2, 2), (3, 2)]);
    let (_, flips) = calculate_next_state(&params(2, 5), &world);
    assert_eq!(flips, vec![c(2, 1), c(1, 2), c(2, 3), c(3, 2)]);
}

#[test]
fn glider_moves_one_step() {
    let world = world_with(6, &[(1, 0), (2, 1), (0, 2), (1, 2), (2, 2)]);
    let (next, _) = calculate_next_state(&params(4, 6), &world);
    assert_eq!(next, world_with(6, &[(0, 1), (2, 1), (1, 2), (2, 2), (1, 3)]));
}

#[test]
fn block_across_the_corners_is_still() {
    let world = world_with(4, &[(0, 0), (3, 0), (0, 3), (3, 3)]);
    let (next, _) = calculate_next_state(&params(2, 4), &world);
    assert_eq!(next, world);
}

#[test]
fn block_is_still() {
    let world = world_with(4, &[(1, 1), (2, 1), (1, 2), (2, 2)]);
    let (next, flips) = calculate_next_state(&params(3, 4), &world);
    assert_eq!(next, world);
    assert!(flips.is_empty());
}

#[test]
fn worker_computes_only_its_rows() {
    let world = world_with(5, &[(1, 2), (2, 2), (3, 2)]);
    let (rows, flips) = worker(&params(1, 5), 1, 2, &world);
    assert_eq!(rows, vec![vec![0, 0, 255, 0, 0], vec![0, 0, 255, 0, 0]]);
    assert_eq!(flips, vec![c(1, 2), c(2, 1), c(3, 2)]);
}

#[test]
fn rows_are_as_long_as_the_world_is_high() {
    let p = Params { threads: 1, image_width: 2, image_height: 3, turns: 1 };
    let world = vec![vec![255u8, 255], vec![255, 0], vec![0, 0]];
    let (next, flips) = calculate_next_state(&p, &world);
    assert_eq!(next, vec![vec![255, 0, 0], vec![255, 0, 0], vec![0, 0, 0]]);
    assert_eq!(flips, vec![c(1, 0)]);
}

#[test]
fn alive_cells_row_by_row() {
    let world = world_with(4, &[(3, 0), (1, 2), (0, 2)]);
    assert_eq!(calculate_alive_cells(&world, &params(1, 4)), vec![c(3, 0), c(0, 2), c(1, 2)]);
}

#[test]
fn image_output_row_by_row() {
    let world = world_with(2, &[(1, 0)]);
    assert_eq!(
        image_cells(&world, &params(1, 2)),
        vec![CellValue::Dead, CellValue::Alive, CellValue::Dead, CellValue::Dead]
    );
}

#[test]
fn keys_while_running() {
    assert_eq!(running_key_action(Key::Q), KeyAction::Quit);
    assert_eq!(running_key_action(Key::P), KeyAction::ReportAliveCount);
    assert_eq!(running_key_action(Key::S), KeyAction::Ignore);
    assert_eq!(running_key_action(Key::Other), KeyAction::Ignore);
}

#[test]
fn turn_loop_runs_until_the_turns_are_done_or_a_quit() {
    assert!(keeps_running(0, 3, false));
    assert!(keeps_running(2, 3, false));
    assert!(!keeps_running(3, 3, false));
    assert!(!keeps_running(0, 3, true));
    assert!(!keeps_running(0, 0, false));
    assert_eq!(frame_arrived(0, 3), (1, true));
    assert_eq!(frame_arrived(1, 3), (2, true));
    assert_eq!(frame_arrived(2, 3), (3, false));
}
