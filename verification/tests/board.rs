use puccinia::grid::{Cell, Grid};

fn make_grid(chars: &str) -> Grid {
    Grid::from_columns(
        String::from(chars)
            .lines()
            .map(|r| {
                r.split_whitespace()
                    .map(|c| if c == "*" { Cell::Alive } else { Cell::Dead })
                    .collect()
            })
            .collect(),
    )
}

#[test]
fn grid() {
    let expected = Grid::from_columns(vec![
        vec![Cell::Alive, Cell::Dead, Cell::Alive],
        vec![Cell::Dead, Cell::Dead, Cell::Dead],
        vec![Cell::Alive, Cell::Alive, Cell::Dead],
    ]);

    assert_eq!(
        expected,
        make_grid(
            "* . *
                 . . .
                 * * . "
        )
    );
}

#[test]
fn test_count_neighbours() {
    assert_eq!(
        8,
        make_grid(
            "* * *
                 * . *
                 * * *"
        )
        .neighbours(1, 1)
    );

    assert_eq!(
        0,
        make_grid(
            ". . *
                 . . *
                 * * *"
        )
        .neighbours(0, 0)
    );

    assert_eq!(
        2,
        make_grid(
            ". . *
                 . . *
                 * * *"
        )
        .neighbours(2, 2)
    );

    assert_eq!(
        3,
        make_grid(
            "* * *
                 . . *
                 * * *"
        )
        .neighbours(0, 1)
    )
}

#[test]
fn too_many_neighbours() {
    assert_eq!(
        make_grid(
            "* . *
                 . . .
                 * . *"
        ),
        make_grid(
            "* * *
                 * * *
                 * * *"
        )
        .tick()
    );
}

#[test]
fn lonely() {
    assert_eq!(
        make_grid(
            ". . .
                 . . .
                 . . ."
        ),
        make_grid(
            "* * .
                 . . .
                 . . ."
        )
        .tick()
    );

    assert_eq!(
        make_grid(
            ". . .
                 . . .
                 . . ."
        ),
        make_grid(
            ". . .
                 . * .
                 . . ."
        )
        .tick()
    );
}

#[test]
fn new_life() {
    assert_eq!(
        make_grid(
            "* * .
                 * * .
                 . . ."
        ),
        make_grid(
            "* * .
                 * . .
                 . . ."
        )
        .tick()
    );
}

#[test]
fn empty() {
    assert_eq!(
        make_grid(
            ". . . .
                 . . . .
                 . . . ."
        ),
        Grid::empty(3, 4)
    )
}

#[test]
fn random() {
    let grid = Grid::random(4, 5, 1, 2);
    assert_eq!(4, grid.columns().len());
    for row in grid.columns() {
        assert_eq!(5, row.len())
    }
}

#[test]
fn random_with_no_chance_is_empty() {
    assert_eq!(Grid::empty(6, 7), Grid::random(6, 7, 0, 10));
}

#[test]
fn random_with_full_chance_is_full() {
    let grid = Grid::random(3, 2, 10, 10);
    assert_eq!(
        Grid::from_columns(vec![vec![Cell::Alive; 2], vec![Cell::Alive; 2], vec![Cell::Alive; 2]]),
        grid
    );
}

#[test]
fn random_of_no_size_has_no_columns() {
    assert_eq!(0, Grid::random(0, 9, 1, 2).columns().len());
    assert_eq!((0, 0), Grid::random(0, 9, 1, 2).size());
    assert_eq!((4, 0), Grid::random(4, 0, 1, 2).size());
}

#[test]
fn size_is_columns_then_cells() {
    assert_eq!((3, 4), Grid::empty(3, 4).size());
    assert_eq!((0, 0), Grid::from_columns(vec![]).size());
}

#[test]
fn is_alive_is_false_off_the_board() {
    let board = make_grid(
        "* .
         . *",
    );
    assert!(board.is_alive(0, 0));
    assert!(!board.is_alive(0, 1));
    assert!(board.is_alive(1, 1));
    assert!(!board.is_alive(-1, 0));
    assert!(!board.is_alive(0, -1));
    assert!(!board.is_alive(2, 0));
    assert!(!board.is_alive(0, 2));
    assert!(!board.is_alive(isize::MAX, isize::MAX));
}

#[test]
fn neighbours_at_the_far_corner_of_the_plane() {
    let board = Grid::random(3, 3, 1, 1);
    assert_eq!(0, board.neighbours(usize::MAX, usize::MAX));
    assert_eq!(1, board.neighbours(3, 3));
    assert_eq!(3, board.neighbours(0, 0));
    assert_eq!(5, board.neighbours(1, 0));
}

#[test]
fn blinker_turns_and_turns_back() {
    let upright = make_grid(
        ". . .
         * * *
         . . .",
    );
    let flat = make_grid(
        ". * .
         . * .
         . * .",
    );
    assert_eq!(flat, upright.tick());
    assert_eq!(upright, upright.tick().tick());
}

#[test]
fn two_neighbours_keep_a_cell_and_wake_none() {
    let board = make_grid(
        "* * *
         . . .",
    );
    let next = board.tick();
    assert!(next.is_alive(0, 1));
    assert!(!next.is_alive(0, 0));
    assert!(next.is_alive(1, 1));
    assert_eq!((2, 3), next.size());
}

#[test]
fn tick_keeps_the_shape_of_a_ragged_board() {
    let board = Grid::from_columns(vec![vec![Cell::Alive], vec![Cell::Alive, Cell::Alive, Cell::Alive], vec![]]);
    let next = board.tick();
    assert_eq!(
        Grid::from_columns(vec![vec![Cell::Alive], vec![Cell::Alive, Cell::Alive, Cell::Dead], vec![]]),
        next
    );
}

#[test]
fn toggle_flips_one_cell_and_back() {
    let mut board = Grid::empty(8, 8);
    assert!(board.toggle(3, 5));
    assert!(board.is_alive(3, 5));
    let mut expected = vec![vec![Cell::Dead; 8]; 8];
    expected[3][5] = Cell::Alive;
    assert_eq!(Grid::from_columns(expected), board);
    assert!(board.toggle(3, 5));
    assert_eq!(Grid::empty(8, 8), board);
}

#[test]
fn toggle_off_the_board_changes_nothing() {
    let mut board = Grid::empty(2, 3);
    assert!(!board.toggle(2, 0));
    assert!(!board.toggle(0, 3));
    assert!(!board.toggle(usize::MAX, usize::MAX));
    assert_eq!(Grid::empty(2, 3), board);
}

#[test]
fn cell_toggles_and_defaults_to_dead() {
    assert_eq!(Cell::Dead, Cell::default());
    assert_eq!(Cell::Alive, Cell::Dead.toggle());
    assert_eq!(Cell::Dead, Cell::Alive.toggle());
    assert_eq!(Cell::Alive, Cell::from_draw(true));
    assert_eq!(Cell::Dead, Cell::from_draw(false));
}

#[test]
fn with_toggled_copies_and_leaves_the_board_alone() {
    let board = Grid::empty(4, 3);
    let (next, hit) = board.with_toggled(3, 2);
    assert!(hit);
    assert!(next.is_alive(3, 2));
    assert_eq!(Grid::empty(4, 3), board);
    let (back, hit) = next.with_toggled(3, 2);
    assert!(hit);
    assert_eq!(board, back);
    let (same, hit) = next.with_toggled(4, 0);
    assert!(!hit);
    assert_eq!(next, same);
    let (same, hit) = next.with_toggled(0, 3);
    assert!(!hit);
    assert_eq!(next, same);
}
