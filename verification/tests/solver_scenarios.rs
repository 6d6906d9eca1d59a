//! Distance and direction solves on small hand-built grids.

use flowfield::cell::{CellState, Direction};
use flowfield::dist::{Dist, Distance};
use flowfield::field::{CellField, FieldError};
use flowfield::solver::solve_distance_field;
use flowfield::direction::solve_direction_field;

fn fin(ortho: u32, diag: u32) -> Distance {
    Distance::Finite(Dist { ortho, diag })
}

fn dist_value(d: &Distance) -> f64 {
    match d {
        Distance::Infinite => f64::INFINITY,
        Distance::Finite(v) => v.ortho as f64 + v.diag as f64 * 2.0f64.sqrt(),
    }
}

fn solved_5x5(irons: &[(i64, i64)], dest: (i64, i64)) -> CellField {
    let mut f = CellField::new(5, 5);
    for p in irons {
        f.set_state(*p, CellState::Iron).unwrap();
    }
    solve_distance_field(&mut f, dest).unwrap();
    solve_direction_field(&mut f, dest).unwrap();
    f
}

#[test]
fn open_grid_distances() {
    // all empty, destination at the center
    let f = solved_5x5(&[], (2, 2));
    assert_eq!(f.get_cell((2, 2)).unwrap().distance, fin(0, 0));
    assert_eq!(f.get_cell((0, 0)).unwrap().distance, fin(0, 2));
    assert_eq!(f.get_cell((2, 0)).unwrap().distance, fin(2, 0));
    assert!((dist_value(&f.get_cell((0, 0)).unwrap().distance) - 2.0 * 2.0f64.sqrt()).abs()
        < 1e-12);
    assert!((dist_value(&f.get_cell((2, 0)).unwrap().distance) - 2.0).abs() < 1e-12);
    // a mixed route: one orthogonal and two diagonal steps
    assert_eq!(f.get_cell((0, 4)).unwrap().distance, fin(0, 2));
    assert_eq!(f.get_cell((4, 1)).unwrap().distance, fin(1, 1));
}

#[test]
fn corner_cutting_forces_a_detour() {
    // two obstacles diagonally walling the destination off from (1,1):
    // the direct diagonal step would cost sqrt(2), the detour costs
    // 3*sqrt(2)
    let f = solved_5x5(&[(2, 1), (1, 2)], (2, 2));
    let d = f.get_cell((1, 1)).unwrap().distance;
    assert_eq!(d, fin(0, 3));
    assert!((dist_value(&d) - 3.0 * 2.0f64.sqrt()).abs() < 1e-12);
    assert!(dist_value(&d) > 2.0f64.sqrt() + 1e-9);
}

#[test]
fn enclosed_cell_stays_infinite() {
    // a full ring of obstacles around the corner cell
    let f = solved_5x5(&[(1, 0), (0, 1), (1, 1)], (3, 3));
    assert_eq!(f.get_cell((0, 0)).unwrap().distance, Distance::Infinite);
    assert_eq!(f.get_cell((0, 0)).unwrap().direction, Direction::Undefined);
    // the obstacles themselves keep their untouched default
    assert_eq!(f.get_cell((1, 1)).unwrap().distance, Distance::Infinite);
    // everything outside the ring is reachable
    assert_eq!(f.get_cell((2, 0)).unwrap().distance, fin(2, 1));
}

#[test]
fn destination_distance_is_zero() {
    let f = solved_5x5(&[(2, 1)], (2, 2));
    assert_eq!(f.get_cell((2, 2)).unwrap().distance, fin(0, 0));
    let g = solved_5x5(&[], (0, 0));
    assert_eq!(g.get_cell((0, 0)).unwrap().distance, fin(0, 0));
}

#[test]
fn directions_step_toward_nearest_candidate() {
    let f = solved_5x5(&[], (2, 2));
    // straight below the destination: step up
    assert_eq!(f.get_cell((2, 0)).unwrap().direction, Direction::Step { dc: 0, dr: 1 });
    // the far corner: step diagonally inward
    assert_eq!(f.get_cell((0, 0)).unwrap().direction, Direction::Step { dc: 1, dr: 1 });
    assert_eq!(f.get_cell((4, 4)).unwrap().direction, Direction::Step { dc: -1, dr: -1 });
    // the destination itself is undefined
    assert_eq!(f.get_cell((2, 2)).unwrap().direction, Direction::Undefined);
}

#[test]
fn direction_tie_breaks_by_enumeration_order() {
    // with the cell straight above the destination blocked, (2,0) sees two
    // equally near diagonal candidates, (1,1) and (3,1); the stable
    // enumeration order picks (1,1) first
    let f = solved_5x5(&[(2, 1)], (2, 2));
    assert_eq!(f.get_cell((1, 1)).unwrap().distance, fin(0, 1));
    assert_eq!(f.get_cell((3, 1)).unwrap().distance, fin(0, 1));
    assert_eq!(f.get_cell((2, 0)).unwrap().direction, Direction::Step { dc: -1, dr: 1 });
}

#[test]
fn every_defined_direction_is_unit_length() {
    let f = solved_5x5(&[(2, 1), (1, 2), (3, 3)], (2, 2));
    for c in 0..5i64 {
        for r in 0..5i64 {
            match f.get_cell((c, r)).unwrap().direction {
                Direction::Undefined => (),
                Direction::Step { dc, dr } => {
                    let (x, y) = (dc as f64, dr as f64);
                    let len = (x * x + y * y).sqrt();
                    let unit = ((x / len).powi(2) + (y / len).powi(2)).sqrt();
                    assert!((unit - 1.0).abs() < 1e-12);
                    assert!(dc != 0 || dr != 0);
                    assert!(dc.abs() <= 1 && dr.abs() <= 1);
                },
            }
        }
    }
}

#[test]
fn solving_twice_is_idempotent() {
    let irons = [(2, 1), (1, 2), (4, 0)];
    let mut f = CellField::new(5, 5);
    for p in irons.iter() {
        f.set_state(*p, CellState::Iron).unwrap();
    }
    solve_distance_field(&mut f, (2, 2)).unwrap();
    solve_direction_field(&mut f, (2, 2)).unwrap();
    let first: Vec<(Distance, Direction)> = (0..5i64)
        .flat_map(|c| {
            (0..5i64)
                .map(|r| {
                    let cell = f.get_cell((c, r)).unwrap();
                    (cell.distance, cell.direction)
                })
                .collect::<Vec<_>>()
        })
        .collect();
    solve_distance_field(&mut f, (2, 2)).unwrap();
    solve_direction_field(&mut f, (2, 2)).unwrap();
    let second: Vec<(Distance, Direction)> = (0..5i64)
        .flat_map(|c| {
            (0..5i64)
                .map(|r| {
                    let cell = f.get_cell((c, r)).unwrap();
                    (cell.distance, cell.direction)
                })
                .collect::<Vec<_>>()
        })
        .collect();
    assert_eq!(first, second);
}

#[test]
fn distances_match_a_hand_checked_grid() {
    // 4x4, a wall down the middle with a gap at the top
    let mut f = CellField::new(4, 4);
    for r in 0..3i64 {
        f.set_state((2, r), CellState::Iron).unwrap();
    }
    solve_distance_field(&mut f, (3, 0)).unwrap();
    // right of the wall
    assert_eq!(f.get_cell((3, 0)).unwrap().distance, fin(0, 0));
    assert_eq!(f.get_cell((3, 1)).unwrap().distance, fin(1, 0));
    assert_eq!(f.get_cell((3, 2)).unwrap().distance, fin(2, 0));
    assert_eq!(f.get_cell((3, 3)).unwrap().distance, fin(3, 0));
    // the gap row: (2,3) is passable
    assert_eq!(f.get_cell((2, 3)).unwrap().distance, fin(2, 1));
    // left of the wall, routing around the gap below it
    assert_eq!(f.get_cell((1, 3)).unwrap().distance, fin(3, 1));
    assert_eq!(f.get_cell((1, 2)).unwrap().distance, fin(2, 2));
    assert_eq!(f.get_cell((0, 0)).unwrap().distance, fin(3, 3));
}

#[test]
fn solver_rejects_bad_destinations() {
    let mut f = CellField::new(5, 5);
    f.set_state((1, 1), CellState::Rock).unwrap();
    assert_eq!(solve_distance_field(&mut f, (9, 0)).unwrap_err(), FieldError::OutOfBounds);
    assert_eq!(
        solve_distance_field(&mut f, (1, 1)).unwrap_err(),
        FieldError::InvalidDestination
    );
    // nothing was computed
    assert_eq!(f.get_cell((0, 0)).unwrap().distance, Distance::Infinite);
    assert_eq!(solve_direction_field(&mut f, (5, 5)).unwrap_err(), FieldError::OutOfBounds);
}
