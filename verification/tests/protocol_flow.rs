//! The update protocol: requests, the dirty/solve cycle, and error
//! recovery.

use flowfield::cell::{CellState, Direction};
use flowfield::dist::{Dist, Distance};
use flowfield::field::FieldError;
use flowfield::protocol::{Request, UpdateCellEvent, UpdateProtocol, UpdateState};

fn fin(ortho: u32, diag: u32) -> Distance {
    Distance::Finite(Dist { ortho, diag })
}

#[test]
fn fresh_protocol_is_idle_with_no_destination() {
    let p = UpdateProtocol::new(5, 5);
    assert_eq!(p.destination(), None);
    assert_eq!(p.state(), UpdateState::Idle);
    assert_eq!(p.field_ref().num_cols(), 5);
}

#[test]
fn destination_request_solves_on_next_step() {
    let mut p = UpdateProtocol::new(5, 5);
    assert!(p.set_destination((2, 2)).is_ok());
    assert_eq!(p.state(), UpdateState::Dirty);
    assert!(p.solve().is_ok());
    assert_eq!(p.state(), UpdateState::Idle);
    assert_eq!(p.field_ref().get_cell((2, 2)).unwrap().distance, fin(0, 0));
    assert_eq!(p.field_ref().get_cell((0, 0)).unwrap().distance, fin(0, 2));
    assert_eq!(
        p.field_ref().get_cell((2, 0)).unwrap().direction,
        Direction::Step { dc: 0, dr: 1 }
    );
}

#[test]
fn invalid_destination_keeps_previous_solution() {
    let mut p = UpdateProtocol::new(5, 5);
    p.set_destination((2, 2)).unwrap();
    p.solve().unwrap();
    p.update_cell(UpdateCellEvent { coord: (4, 4), new_state: CellState::Iron }).unwrap();
    // targeting the obstacle is rejected, and nothing else changed
    assert_eq!(p.set_destination((4, 4)).unwrap_err(), FieldError::InvalidDestination);
    assert_eq!(p.destination(), Some((2, 2)));
    assert_eq!(p.field_ref().get_cell((0, 0)).unwrap().distance, fin(0, 2));
    assert_eq!(p.field_ref().get_cell((2, 2)).unwrap().distance, fin(0, 0));
}

#[test]
fn requests_are_bounds_checked() {
    let mut p = UpdateProtocol::new(5, 5);
    assert_eq!(p.set_destination((5, 0)).unwrap_err(), FieldError::OutOfBounds);
    assert_eq!(p.set_destination((0, -1)).unwrap_err(), FieldError::OutOfBounds);
    assert_eq!(
        p.update_cell(UpdateCellEvent { coord: (0, 5), new_state: CellState::Iron })
            .unwrap_err(),
        FieldError::OutOfBounds
    );
    assert_eq!(p.state(), UpdateState::Idle);
}

#[test]
fn obstacle_edit_marks_dirty_and_resolves() {
    let mut p = UpdateProtocol::new(5, 5);
    p.set_destination((2, 2)).unwrap();
    p.solve().unwrap();
    assert_eq!(p.field_ref().get_cell((1, 1)).unwrap().distance, fin(0, 1));
    // wall the diagonal off and re-solve: the detour shows up
    p.update_cell(UpdateCellEvent { coord: (2, 1), new_state: CellState::Iron }).unwrap();
    p.update_cell(UpdateCellEvent { coord: (1, 2), new_state: CellState::Iron }).unwrap();
    assert_eq!(p.state(), UpdateState::Dirty);
    p.solve().unwrap();
    assert_eq!(p.field_ref().get_cell((1, 1)).unwrap().distance, fin(0, 3));
}

#[test]
fn solve_without_destination_is_a_no_op() {
    let mut p = UpdateProtocol::new(4, 4);
    p.update_cell(UpdateCellEvent { coord: (1, 1), new_state: CellState::Water }).unwrap();
    assert!(p.solve().is_ok());
    assert_eq!(p.state(), UpdateState::Idle);
    for c in 0..4i64 {
        for r in 0..4i64 {
            assert_eq!(p.field_ref().get_cell((c, r)).unwrap().distance, Distance::Infinite);
        }
    }
}

#[test]
fn solve_fails_when_destination_became_impassable() {
    let mut p = UpdateProtocol::new(5, 5);
    p.set_destination((2, 2)).unwrap();
    p.solve().unwrap();
    p.update_cell(UpdateCellEvent { coord: (2, 2), new_state: CellState::Building }).unwrap();
    assert_eq!(p.solve().unwrap_err(), FieldError::InvalidDestination);
    assert_eq!(p.state(), UpdateState::Dirty);
    // the previously solved distances are intact
    assert_eq!(p.field_ref().get_cell((0, 0)).unwrap().distance, fin(0, 2));
}

#[test]
fn step_drains_queued_requests_in_order() {
    let mut p = UpdateProtocol::new(5, 5);
    p.push_request(Request::Cell(UpdateCellEvent { coord: (2, 1), new_state: CellState::Iron }));
    p.push_request(Request::Destination((2, 2)));
    p.push_request(Request::Destination((2, 1)));  // now impassable: rejected
    p.push_request(Request::Cell(UpdateCellEvent { coord: (7, 7), new_state: CellState::Iron }));
    let (outcomes, solved) = p.step();
    assert_eq!(
        outcomes,
        vec![
            Ok(()),
            Ok(()),
            Err(FieldError::InvalidDestination),
            Err(FieldError::OutOfBounds),
        ]
    );
    assert!(solved.is_ok());
    assert_eq!(p.destination(), Some((2, 2)));
    assert_eq!(p.state(), UpdateState::Idle);
    assert_eq!(p.field_ref().get_cell((2, 2)).unwrap().distance, fin(0, 0));
    assert_eq!(p.field_ref().get_cell((2, 1)).unwrap().state, CellState::Iron);
}

#[test]
fn mine_cells_are_passable_destinations() {
    let mut p = UpdateProtocol::new(3, 3);
    p.update_cell(UpdateCellEvent { coord: (1, 1), new_state: CellState::Mine }).unwrap();
    assert!(p.set_destination((1, 1)).is_ok());
    assert!(p.solve().is_ok());
    assert_eq!(p.field_ref().get_cell((1, 1)).unwrap().distance, fin(0, 0));
    assert_eq!(p.field_ref().get_cell((0, 0)).unwrap().distance, fin(0, 1));
}
