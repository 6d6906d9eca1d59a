//! The cell field: construction, bounds-checked access, adjacency with
//! corner-cutting prevention, and coordinate mapping.

use flowfield::cell::{CellState, Direction};
use flowfield::coords::{cell_to_world, world_to_cell, CELL_SIZE};
use flowfield::dist::Distance;
use flowfield::field::{CellField, FieldError};
use flowfield::layer::Layer;

#[test]
fn new_field_is_empty_and_unsolved() {
    let f = CellField::new(4, 3);
    assert_eq!(f.num_cols(), 4);
    assert_eq!(f.num_rows(), 3);
    for c in 0..4i64 {
        for r in 0..3i64 {
            let cell = f.get_cell((c, r)).unwrap();
            assert_eq!(cell.coord, (c, r));
            assert_eq!(cell.state, CellState::Empty);
            assert_eq!(cell.distance, Distance::Infinite);
            assert_eq!(cell.direction, Direction::Undefined);
            assert!(cell.is_passable());
        }
    }
}

#[test]
fn get_cell_rejects_out_of_bounds() {
    let f = CellField::new(4, 3);
    assert_eq!(f.get_cell((4, 0)).unwrap_err(), FieldError::OutOfBounds);
    assert_eq!(f.get_cell((0, 3)).unwrap_err(), FieldError::OutOfBounds);
    assert_eq!(f.get_cell((-1, 0)).unwrap_err(), FieldError::OutOfBounds);
    assert_eq!(f.get_cell((0, -1)).unwrap_err(), FieldError::OutOfBounds);
}

#[test]
fn set_state_replaces_state_only() {
    let mut f = CellField::new(4, 3);
    assert!(f.set_state((1, 2), CellState::Iron).is_ok());
    let cell = f.get_cell((1, 2)).unwrap();
    assert_eq!(cell.state, CellState::Iron);
    assert!(!cell.is_passable());
    assert_eq!(cell.distance, Distance::Infinite);
    assert_eq!(f.get_cell((1, 1)).unwrap().state, CellState::Empty);
    assert_eq!(f.set_state((9, 0), CellState::Iron).unwrap_err(), FieldError::OutOfBounds);
}

#[test]
fn passability_by_state() {
    let mut f = CellField::new(6, 1);
    let states = [
        CellState::Empty,
        CellState::Water,
        CellState::Iron,
        CellState::Rock,
        CellState::Building,
        CellState::Mine,
    ];
    for (i, s) in states.iter().enumerate() {
        f.set_state((i as i64, 0), *s).unwrap();
    }
    let passable: Vec<bool> =
        (0..6i64).map(|c| f.get_cell((c, 0)).unwrap().is_passable()).collect();
    assert_eq!(passable, vec![true, false, false, false, false, true]);
}

#[test]
fn neighbors8_center_in_stable_order() {
    let f = CellField::new(3, 3);
    let n = f.neighbors8((1, 1)).unwrap();
    assert_eq!(
        n,
        vec![(1, 2), (2, 1), (1, 0), (0, 1), (0, 2), (0, 0), (2, 2), (2, 0)]
    );
}

#[test]
fn neighbors8_corner_clipped() {
    let f = CellField::new(3, 3);
    let n = f.neighbors8((0, 0)).unwrap();
    assert_eq!(n, vec![(0, 1), (1, 0), (1, 1)]);
    assert_eq!(f.neighbors8((3, 0)).unwrap_err(), FieldError::OutOfBounds);
}

#[test]
fn reachable_excludes_obstacles_and_blocked_corners() {
    let mut f = CellField::new(3, 3);
    f.set_state((1, 0), CellState::Iron).unwrap();
    f.set_state((0, 1), CellState::Iron).unwrap();
    // both orthogonal cells around the diagonal are obstacles: the diagonal
    // step from the corner is not taken
    assert_eq!(f.get_reachable_adjacent_cells((0, 0)).unwrap(), vec![]);
    // freeing one of the two corners re-opens the diagonal
    f.set_state((0, 1), CellState::Empty).unwrap();
    assert_eq!(f.get_reachable_adjacent_cells((0, 0)).unwrap(), vec![(0, 1), (1, 1)]);
}

#[test]
fn adjacent_obstacles_lists_impassable_neighbors() {
    let mut f = CellField::new(3, 3);
    f.set_state((1, 0), CellState::Iron).unwrap();
    f.set_state((0, 1), CellState::Water).unwrap();
    assert_eq!(f.get_adjacent_obstacles((0, 0)).unwrap(), vec![(0, 1), (1, 0)]);
    assert_eq!(f.get_adjacent_obstacles((2, 2)).unwrap(), vec![]);
}

#[test]
fn world_mapping_round_trips_cell_centers() {
    assert_eq!(CELL_SIZE, 40);
    assert_eq!(cell_to_world((3, -2)), (120, -80));
    assert_eq!(world_to_cell((120, -80)), (3, -2));
    // halves round away from zero
    assert_eq!(world_to_cell((60, 60)), (2, 2));
    assert_eq!(world_to_cell((59, -59)), (1, -1));
    assert_eq!(world_to_cell((19, -19)), (0, 0));
    assert_eq!(world_to_cell((20, -20)), (1, -1));
}

#[test]
fn field_world_lookup_checks_bounds() {
    let f = CellField::new(3, 3);
    assert_eq!(f.world_to_cell((50, 85)), Some((1, 2)));
    assert_eq!(f.world_to_cell((130, 0)), None);
    assert_eq!(f.world_to_cell((-30, 0)), None);
}

#[test]
fn cell_center_scales_by_cell_size() {
    let f = CellField::new(3, 3);
    let cell = f.get_cell((2, 1)).unwrap();
    assert_eq!(cell.center(), (80, 40));
}

#[test]
fn layers_order_front_to_back() {
    let layers = Layer::iter();
    assert_eq!(
        layers,
        vec![Layer::Debug, Layer::SelectArea, Layer::Units, Layer::GameMap]
    );
    let zs: Vec<u64> = layers.iter().map(|l| l.z_value()).collect();
    assert_eq!(zs, vec![100, 99, 98, 97]);
}
