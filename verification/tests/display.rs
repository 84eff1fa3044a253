use puccinia::grid::{Cell, Grid};
use puccinia::view::{
    help_entries, slider_chance, slider_percent, EventResult, ResizableGrid, ViewEvent, RESEED_DENOMINATOR,
    RESEED_NUMERATOR, SLIDER_SIZE,
};

fn running(width: usize, height: usize) -> ResizableGrid {
    let mut view = ResizableGrid::default();
    view.resize(width, height);
    view.reset(0, 1);
    view.set_paused(false);
    view
}

#[test]
fn a_new_display_is_empty_and_paused() {
    let view = ResizableGrid::default();
    assert!(view.is_paused());
    assert_eq!(&Grid::from_columns(vec![]), view.grid());
    assert_eq!(Vec::<Vec<String>>::new(), view.as_rows());
}

#[test]
fn rows_show_stars_and_dots() {
    let mut view = running(2, 3);
    view.on_event(ViewEvent::Mouse { pressed: true, x: 1, y: 2 });
    view.on_event(ViewEvent::Mouse { pressed: true, x: 0, y: 0 });
    assert_eq!(
        vec![
            vec!["*".to_string(), ".".to_string(), ".".to_string()],
            vec![".".to_string(), ".".to_string(), "*".to_string()],
        ],
        view.as_rows()
    );
}

#[test]
fn the_space_bar_pauses_and_resumes() {
    let mut view = ResizableGrid::default();
    assert_eq!(EventResult::Consumed, view.on_event(ViewEvent::Char(' ')));
    assert!(!view.is_paused());
    assert_eq!(EventResult::Consumed, view.on_event(ViewEvent::Char(' ')));
    assert!(view.is_paused());
}

#[test]
fn r_asks_for_the_reset_dialog_and_other_keys_are_ignored() {
    let mut view = running(3, 3);
    let before = view.grid().clone();
    assert_eq!(EventResult::OpenReset, view.on_event(ViewEvent::Char('r')));
    assert_eq!(EventResult::Ignored, view.on_event(ViewEvent::Char('x')));
    assert_eq!(EventResult::Ignored, view.on_event(ViewEvent::Char('q')));
    assert_eq!(EventResult::Ignored, view.on_event(ViewEvent::Other));
    assert_eq!(&before, view.grid());
    assert!(!view.is_paused());
}

#[test]
fn a_refresh_advances_a_running_board_only() {
    let mut view = running(3, 3);
    for y in 0..3 {
        view.press(1, y);
    }
    let upright = view.grid().clone();
    assert_eq!(EventResult::Consumed, view.on_event(ViewEvent::Refresh));
    assert_eq!(&upright.tick(), view.grid());
    view.set_paused(true);
    assert_eq!(EventResult::Consumed, view.on_event(ViewEvent::Refresh));
    assert_eq!(&upright.tick(), view.grid());
}

#[test]
fn a_press_flips_the_cell_and_a_second_flips_it_back() {
    let mut view = running(8, 8);
    assert_eq!(EventResult::Consumed, view.on_event(ViewEvent::Mouse { pressed: true, x: 3, y: 5 }));
    assert!(view.grid().is_alive(3, 5));
    assert_eq!(EventResult::Consumed, view.on_event(ViewEvent::Mouse { pressed: true, x: 3, y: 5 }));
    assert_eq!(&Grid::empty(8, 8), view.grid());
}

#[test]
fn what_else_the_mouse_does_is_taken_and_changes_nothing() {
    let mut view = running(4, 4);
    assert_eq!(EventResult::Consumed, view.on_event(ViewEvent::Mouse { pressed: false, x: 1, y: 1 }));
    assert_eq!(&Grid::empty(4, 4), view.grid());
}

#[test]
fn a_press_off_the_board_is_no_error() {
    let mut view = running(2, 2);
    assert_eq!(EventResult::Consumed, view.on_event(ViewEvent::Mouse { pressed: true, x: 2, y: 0 }));
    assert_eq!(EventResult::Consumed, view.on_event(ViewEvent::Mouse { pressed: true, x: 0, y: 9 }));
    assert!(!view.press(usize::MAX, 0));
    assert_eq!(&Grid::empty(2, 2), view.grid());
}

#[test]
fn layout_for_the_same_size_ticks_and_for_another_reseeds() {
    let mut view = running(3, 3);
    for y in 0..3 {
        view.press(1, y);
    }
    let upright = view.grid().clone();
    assert!(!view.layout(3, 3));
    assert_eq!(&upright.tick(), view.grid());
    view.set_paused(true);
    assert!(!view.layout(3, 3));
    assert_eq!(&upright.tick(), view.grid());
    assert!(view.layout(5, 4));
    assert_eq!((5, 4), view.grid().size());
    assert!(view.is_paused());
}

#[test]
fn reset_keeps_the_size() {
    let mut view = running(4, 6);
    view.reset(1, 1);
    assert_eq!(&Grid::from_columns(vec![vec![Cell::Alive; 6]; 4]), view.grid());
    view.reset(0, 5);
    assert_eq!(&Grid::empty(4, 6), view.grid());
    view.reset(1, 2);
    assert_eq!((4, 6), view.grid().size());
}

#[test]
fn the_slider_counts_in_steps_of_five_percent() {
    assert_eq!(20, SLIDER_SIZE);
    assert_eq!(0, slider_percent(0));
    assert_eq!(5, slider_percent(1));
    assert_eq!(50, slider_percent(10));
    assert_eq!(95, slider_percent(19));
    assert_eq!(100, slider_percent(20));
    assert_eq!((0, 20), slider_chance(0));
    assert_eq!((7, 20), slider_chance(7));
    assert_eq!((20, 20), slider_chance(20));
    assert_eq!((1, 10), (RESEED_NUMERATOR, RESEED_DENOMINATOR));
}

#[test]
fn the_help_lists_the_keys() {
    assert_eq!(
        vec![
            ("h", "Display this help menu"),
            ("r", "Reset the simulation"),
            ("q", "quit"),
            ("space", "Pause the simulation"),
            ("mouse click", "Toggle a cell"),
        ],
        help_entries()
    );
}

#[test]
fn reset_with_the_slider_at_zero_gives_a_dead_board_that_runs() {
    let mut view = running(5, 4);
    view.press(2, 2);
    view.set_paused(true);
    let (numerator, denominator) = slider_chance(0);
    view.reset(numerator, denominator);
    view.set_paused(false);
    assert_eq!(&Grid::empty(5, 4), view.grid());
    assert!(!view.is_paused());
    let (numerator, denominator) = slider_chance(SLIDER_SIZE);
    view.reset(numerator, denominator);
    assert_eq!(&Grid::from_columns(vec![vec![Cell::Alive; 4]; 5]), view.grid());
}
