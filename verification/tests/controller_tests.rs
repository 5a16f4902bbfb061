use distributed_gol::controller::{Distributor, PausedAction};
use distributed_gol::coordinates::Coordinates;
use distributed_gol::errors::DecodeError;
use distributed_gol::gol::{CellCoord, CellValue, Key, Params};
use indexmap::IndexSet;

fn params(w: usize, h: usize) -> Params {
    Params { threads: 1, image_width: w, image_height: h, turns: 0 }
}

fn set_of(items: &[u32]) -> IndexSet<u32> {
    let mut s = IndexSet::new();
    for i in items {
        s.insert(*i);
    }
    s
}

fn items(s: &IndexSet<u32>) -> Vec<u32> {
    s.iter().copied().collect()
}

fn image(size: usize, alive: &[(usize, usize)]) -> Vec<CellValue> {
    let mut v = vec![CellValue::Dead; size * size];
    for (x, y) in alive {
        v[y * size + x] = CellValue::Alive;
    }
    v
}

#[test]
fn square_image_becomes_packed_coordinates_row_by_row() {
    let cells = image(4, &[(2, 3), (1, 0)]);
    let (cl, _) = Distributor::calc_coord_len_and_offset(4);
    assert_eq!(cl, 4);
    let world = Distributor::initialise_world(&params(4, 4), &cells, cl).unwrap();
    assert_eq!(items(&world), vec![1 << 2, (2 << 2) | 3]);
}

#[test]
fn image_that_is_not_square_is_refused() {
    let cells = vec![CellValue::Dead; 20];
    match Distributor::initialise_world(&params(4, 5), &cells, 4) {
        Err(DecodeError::Other(msg)) => {
            assert_eq!(msg, "Image is not square! Height and width values do not match");
        }
        _ => panic!("expected an error"),
    }
}

#[test]
fn packed_world_back_to_image_values_column_by_column() {
    let world = set_of(&[4, 11]);
    let out = Distributor::image_cells_from_set(&world, &params(4, 4), 4);
    let a = CellValue::Alive;
    let d = CellValue::Dead;
    assert_eq!(out, vec![d, d, d, d, a, d, d, d, d, d, d, a, d, d, d, d]);
}

#[test]
fn packed_world_unpacks_into_columns_and_rows() {
    let world = set_of(&[11, 4]);
    assert_eq!(
        Distributor::alive_cell_coords(&world, 4),
        vec![CellCoord { x: 2, y: 3 }, CellCoord { x: 1, y: 0 }]
    );
}

#[test]
fn image_round_trips_through_the_packed_world() {
    let cells = image(8, &[(7, 0), (0, 7), (3, 4)]);
    let (cl, _) = Distributor::calc_coord_len_and_offset(8);
    let world = Distributor::initialise_world(&params(8, 8), &cells, cl).unwrap();
    assert_eq!(
        Distributor::alive_cell_coords(&world, cl),
        vec![CellCoord { x: 7, y: 0 }, CellCoord { x: 3, y: 4 }, CellCoord { x: 0, y: 7 }]
    );
}

#[test]
fn alive_cells_of_a_packed_world_in_row_order() {
    let world = set_of(&[11, 4, 60]);
    let alive = Distributor::calculate_alive_cells_in_set(&world, 4, &params(4, 4));
    assert_eq!(items(&alive), vec![4, 11]);
}

#[test]
fn alive_cells_of_a_grid() {
    let world = vec![vec![0u8, 255], vec![255, 0]];
    assert_eq!(
        Distributor::calculate_alive_cells(&world, &params(2, 2)),
        vec![CellCoord { x: 1, y: 0 }, CellCoord { x: 0, y: 1 }]
    );
    assert_eq!(
        Distributor::image_cells(&world, &params(2, 2)),
        vec![CellValue::Dead, CellValue::Alive, CellValue::Alive, CellValue::Dead]
    );
}

#[test]
fn keys_while_paused() {
    assert_eq!(Distributor::paused_key_action(Key::P), PausedAction::Resume);
    assert_eq!(Distributor::paused_key_action(Key::Q), PausedAction::Quit);
    assert_eq!(Distributor::paused_key_action(Key::S), PausedAction::Screenshot);
    assert_eq!(Distributor::paused_key_action(Key::Other), PausedAction::Ignore);
}

#[test]
fn image_written_back_comes_out_transposed() {
    let cells = image(4, &[(1, 0), (3, 2)]);
    let (cl, _) = Distributor::calc_coord_len_and_offset(4);
    let world = Distributor::initialise_world(&params(4, 4), &cells, cl).unwrap();
    let out = Distributor::image_cells_from_set(&world, &params(4, 4), cl);
    let mut expected = vec![CellValue::Dead; 16];
    expected[1 * 4 + 0] = CellValue::Alive;
    expected[3 * 4 + 2] = CellValue::Alive;
    assert_eq!(out, expected);
    for x in 0..4 {
        for y in 0..4 {
            assert_eq!(out[x * 4 + y], cells[y * 4 + x]);
        }
    }
}
