use gridpath::cell::Cell;
use gridpath::control::{ControlState, Session, TickInput};

fn idle_input() -> TickInput {
    TickInput {
        pointer: None,
        primary_pressed: false,
        primary_released: false,
        secondary_pressed: false,
        secondary_released: false,
        mark_start_held: false,
        mark_end_held: false,
    }
}

fn cell(row: usize, col: usize) -> Cell {
    Cell::new(row, col)
}

#[test]
fn session_starts_idle_and_empty() {
    let s = Session::new(20, 20);
    assert_eq!(s.control_state(), ControlState::Grid);
    assert_eq!(s.grid().start(), None);
    assert_eq!(s.grid().end(), None);
    assert!(s.grid().path().is_empty());
    assert_eq!(s.grid().search_effort(), 0);
}

#[test]
fn marking_start_twice_recomputes_once() {
    let mut s = Session::new(5, 5);
    let mut input = idle_input();
    input.mark_start_held = true;
    input.pointer = Some(cell(2, 3));
    assert!(s.tick(input), "the first report of a new start cell recomputes");
    assert_eq!(s.grid().start(), Some(cell(2, 3)));
    assert!(!s.tick(input), "the same pointer cell must not recompute again");
    assert!(!s.tick(input));
    assert_eq!(s.grid().start(), Some(cell(2, 3)));
}

#[test]
fn marking_endpoints_computes_path() {
    let mut s = Session::new(5, 5);
    let mut input = idle_input();
    input.mark_start_held = true;
    input.pointer = Some(cell(0, 0));
    assert!(s.tick(input));
    let mut input = idle_input();
    input.mark_end_held = true;
    input.pointer = Some(cell(0, 3));
    assert!(s.tick(input));
    assert_eq!(s.grid().path(), &vec![cell(0, 1), cell(0, 2), cell(0, 3)]);
}

#[test]
fn absent_pointer_mutates_nothing() {
    let mut s = Session::new(5, 5);
    let mut mark = idle_input();
    mark.mark_start_held = true;
    mark.pointer = Some(cell(1, 1));
    assert!(s.tick(mark));
    let mut held_outside = idle_input();
    held_outside.mark_start_held = true;
    held_outside.pointer = None;
    assert!(!s.tick(held_outside), "a pointer outside the viewport mutates nothing");
    assert_eq!(s.grid().start(), Some(cell(1, 1)));
}

#[test]
fn secondary_button_pans_and_returns() {
    let mut s = Session::new(5, 5);
    let mut press = idle_input();
    press.secondary_pressed = true;
    assert!(!s.tick(press));
    assert_eq!(s.control_state(), ControlState::Panning);
    let mut mark = idle_input();
    mark.mark_start_held = true;
    mark.pointer = Some(cell(0, 0));
    assert!(!s.tick(mark), "marking keys are ignored while panning");
    assert_eq!(s.grid().start(), None);
    let mut release = idle_input();
    release.secondary_released = true;
    assert!(!s.tick(release));
    assert_eq!(s.control_state(), ControlState::Grid);
}

#[test]
fn drawing_captures_paint_value_and_recomputes() {
    let mut s = Session::new(5, 5);
    let mut mark = idle_input();
    mark.mark_start_held = true;
    mark.pointer = Some(cell(0, 0));
    s.tick(mark);
    let mut mark = idle_input();
    mark.mark_end_held = true;
    mark.pointer = Some(cell(0, 2));
    s.tick(mark);
    assert_eq!(s.grid().path().len(), 2);

    let mut press = idle_input();
    press.primary_pressed = true;
    press.pointer = Some(cell(0, 1));
    assert!(!s.tick(press), "capturing the paint value does not recompute");
    assert_eq!(s.control_state(), ControlState::Drawing(true));

    let mut over = idle_input();
    over.pointer = Some(cell(0, 1));
    assert!(s.tick(over), "painting a changed cell recomputes");
    assert!(s.grid().wall_at(cell(0, 1)));
    assert_eq!(s.grid().path().len(), 4, "the route must go around the new wall");
    assert!(!s.tick(over), "an already-correct cell does not recompute");

    let mut release = idle_input();
    release.primary_released = true;
    assert!(!s.tick(release));
    assert_eq!(s.control_state(), ControlState::Grid);

    let mut press = idle_input();
    press.primary_pressed = true;
    press.pointer = Some(cell(0, 1));
    s.tick(press);
    assert_eq!(
        s.control_state(),
        ControlState::Drawing(false),
        "the paint value is the negation of the wall under the pointer"
    );
}

#[test]
fn button_press_takes_precedence_over_marking() {
    let mut s = Session::new(5, 5);
    let mut input = idle_input();
    input.secondary_pressed = true;
    input.mark_start_held = true;
    input.pointer = Some(cell(2, 2));
    assert!(!s.tick(input), "at most one transition per tick");
    assert_eq!(s.control_state(), ControlState::Panning);
    assert_eq!(s.grid().start(), None);
}
