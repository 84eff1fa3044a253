//! The display state that a viewer drives: a board and a pause flag.

use crate::grid::{
    columns_view, extent, has_shape, is_rectangular, lemma_shape_is_rectangular,
    lemma_step_keeps_rectangular, lemma_toggled_keeps_rectangular, step, toggled, uniform, Cell, Grid,
};
use vstd::prelude::*;

verus! {

/// The number of steps of the slider that sets how full a new board is.
pub const SLIDER_SIZE: usize = 20;

/// A board seeded for a new size has each cell alive with a chance of
/// `RESEED_NUMERATOR` in `RESEED_DENOMINATOR`.
pub const RESEED_NUMERATOR: u32 = 1;

/// See `RESEED_NUMERATOR`.
pub const RESEED_DENOMINATOR: u32 = 10;

/// What a viewer can tell the display.
#[derive(Debug, Copy, Clone, PartialEq, Eq, Structural)]
pub enum ViewEvent {
    /// The periodic refresh.
    Refresh,
    /// A key.
    Char(char),
    /// The mouse on the cell `(x, y)`: a button pressed, or anything else
    /// that a mouse does.
    Mouse { pressed: bool, x: usize, y: usize },
    /// Anything else.
    Other,
}

/// What the display answers to an event.
#[derive(Debug, Copy, Clone, PartialEq, Eq, Structural)]
pub enum EventResult {
    /// The event is none of the display's.
    Ignored,
    /// The display has acted on the event.
    Consumed,
    /// The display has taken the event, and asks for the dialog that sets up
    /// a new board.
    OpenReset,
}

/// How a cell is drawn: `*` alive, `.` dead.
pub open spec fn symbol(cell: Cell) -> Seq<char> {
    match cell {
        Cell::Alive => seq!['*'],
        Cell::Dead => seq!['.'],
    }
}

/// What the slider's label shows for a value: the value as a percentage of
/// the slider's size.
pub open spec fn percent_of(value: nat) -> nat {
    value * 100 / (SLIDER_SIZE as nat)
}

/// What an event does to the board.
pub open spec fn cells_after(cells: Seq<Seq<Cell>>, paused: bool, event: ViewEvent) -> Seq<Seq<Cell>> {
    match event {
        ViewEvent::Refresh => if paused {
            cells
        } else {
            step(cells)
        },
        ViewEvent::Mouse { pressed, x, y } => if pressed {
            toggled(cells, x as int, y as int)
        } else {
            cells
        },
        _ => cells,
    }
}

/// What an event does to the pause flag: the space bar flips it.
pub open spec fn paused_after(paused: bool, event: ViewEvent) -> bool {
    if event == ViewEvent::Char(' ') {
        !paused
    } else {
        paused
    }
}

/// What the display answers to an event.
pub open spec fn result_of(event: ViewEvent) -> EventResult {
    match event {
        ViewEvent::Refresh => EventResult::Consumed,
        ViewEvent::Mouse { .. } => EventResult::Consumed,
        ViewEvent::Char(key) => if key == ' ' {
            EventResult::Consumed
        } else if key == 'r' {
            EventResult::OpenReset
        } else {
            EventResult::Ignored
        },
        ViewEvent::Other => EventResult::Ignored,
    }
}

/// A board that follows the size of its window, and can be paused. The
/// board is rectangular at all times.
pub struct ResizableGrid {
    grid: Grid,
    pause: bool,
}

impl Default for ResizableGrid {
    fn default() -> (view: Self)
        ensures
            view.cells() == Seq::<Seq<Cell>>::empty(),
            view.paused(),
            view.rectangular(),
    {
        let grid = Grid::from_columns(Vec::new());
        assert(grid@ =~= Seq::<Seq<Cell>>::empty());
        ResizableGrid { grid, pause: true }
    }
}

impl ResizableGrid {
    #[verifier::type_invariant]
    pub(crate) closed spec fn board_is_rectangular(&self) -> bool {
        is_rectangular(self.grid@)
    }

    /// What the type's invariant says, in the words of the contracts.
    pub(crate) proof fn lemma_always_rectangular(&self)
        requires
            self.board_is_rectangular(),
        ensures
            self.rectangular(),
    {
    }

    /// Whether every column of the board is as long as the first. This holds
    /// of every display: each way to make one or to change one ensures it.
    pub open spec fn rectangular(&self) -> bool {
        is_rectangular(self.cells())
    }

    /// The cells of the board.
    pub closed spec fn cells(&self) -> Seq<Seq<Cell>> {
        self.grid@
    }

    /// Whether the board stands still.
    pub closed spec fn paused(&self) -> bool {
        self.pause
    }

    /// The board.
    pub fn grid(&self) -> (grid: &Grid)
        ensures
            grid@ == self.cells(),
            self.rectangular(),
    {
        proof {
            use_type_invariant(self);
        }
        &self.grid
    }

    /// Whether the board stands still.
    pub fn is_paused(&self) -> (paused: bool)
        ensures
            paused == self.paused(),
    {
        self.pause
    }

    /// Stops the board or lets it run.
    pub fn set_paused(&mut self, paused: bool)
        ensures
            final(self).paused() == paused,
            final(self).cells() == old(self).cells(),
            final(self).rectangular(),
    {
        proof {
            use_type_invariant(&*self);
        }
        self.pause = paused;
    }

    /// The board as text, column by column: `*` for a live cell, `.` for a
    /// dead one.
    pub fn as_rows(&self) -> (rows: Vec<Vec<String>>)
        ensures
            rows.len() == self.cells().len(),
            forall|x: int| 0 <= x < rows.len() ==> (#[trigger] rows[x]).len() == self.cells()[x].len(),
            forall|x: int, y: int|
                0 <= x < rows.len() && 0 <= y < rows[x].len() ==> (#[trigger] rows[x][y])@ == symbol(
                    self.cells()[x][y],
                ),
    {
        let columns = self.grid.columns();
        let mut rows: Vec<Vec<String>> = Vec::new();
        let mut x: usize = 0;
        while x < columns.len()
            invariant
                columns_view(columns@) == self.cells(),
                x <= columns.len(),
                rows.len() == x,
                forall|i: int| 0 <= i < x ==> (#[trigger] rows[i]).len() == columns[i].len(),
                forall|i: int, j: int|
                    0 <= i < x && 0 <= j < rows[i].len() ==> (#[trigger] rows[i][j])@ == symbol(
                        columns[i][j],
                    ),
            decreases columns.len() - x,
        {
            let column = &columns[x];
            let mut row: Vec<String> = Vec::new();
            let mut y: usize = 0;
            while y < column.len()
                invariant
                    y <= column.len(),
                    row.len() == y,
                    forall|j: int| 0 <= j < y ==> (#[trigger] row[j])@ == symbol(column[j]),
                decreases column.len() - y,
            {
                proof {
                    reveal_strlit("*");
                    reveal_strlit(".");
                }
                let text = match column[y] {
                    Cell::Alive => "*".to_owned(),
                    Cell::Dead => ".".to_owned(),
                };
                assert(text@ =~= symbol(column[y as int]));
                row.push(text);
                y += 1;
            }
            rows.push(row);
            x += 1;
        }
        proof {
            assert forall|i: int| 0 <= i < rows.len() implies (#[trigger] rows[i]).len()
                == self.cells()[i].len() by {
                assert(self.cells()[i] == columns[i]@);
            }
            assert forall|i: int, j: int| 0 <= i < rows.len() && 0 <= j < rows[i].len() implies (
            #[trigger] rows[i][j])@ == symbol(self.cells()[i][j]) by {
                assert(self.cells()[i] == columns[i]@);
            }
        }
        rows
    }

    /// Seeds a new board of the size of the present one, each cell alive
    /// with a chance of `numerator` in `denominator`: no cell with a chance
    /// of zero, every cell with a chance of one.
    pub fn reset(&mut self, numerator: u32, denominator: u32)
        requires
            0 < denominator,
            numerator <= denominator,
        ensures
            has_shape(final(self).cells(), extent(old(self).cells()).0, extent(old(self).cells()).1),
            numerator == 0 ==> final(self).cells() == uniform(
                extent(old(self).cells()).0,
                extent(old(self).cells()).1,
                Cell::Dead,
            ),
            numerator == denominator ==> final(self).cells() == uniform(
                extent(old(self).cells()).0,
                extent(old(self).cells()).1,
                Cell::Alive,
            ),
            final(self).paused() == old(self).paused(),
            final(self).rectangular(),
    {
        let (x, y) = self.grid.size();
        let grid = Grid::random(x, y, numerator, denominator);
        proof {
            lemma_shape_is_rectangular(grid@, x as nat, y as nat);
        }
        self.grid = grid;
    }

    /// Seeds a new board of the given size, one cell in ten alive on average.
    pub fn resize(&mut self, width: usize, height: usize)
        ensures
            has_shape(final(self).cells(), width as nat, height as nat),
            final(self).paused() == old(self).paused(),
            final(self).rectangular(),
    {
        let grid = Grid::random(width, height, RESEED_NUMERATOR, RESEED_DENOMINATOR);
        proof {
            lemma_shape_is_rectangular(grid@, width as nat, height as nat);
        }
        self.grid = grid;
    }

    /// Lays the board out for a window. Where the window has the board's
    /// size, the board advances by one generation unless it is paused, and
    /// `false` comes back; else a new board of the window's size is seeded,
    /// and `true` comes back. Either way the board has the window's size
    /// afterwards.
    pub fn layout(&mut self, width: usize, height: usize) -> (reseeded: bool)
        ensures
            reseeded == (extent(old(self).cells()) != (width as nat, height as nat)),
            final(self).paused() == old(self).paused(),
            !reseeded ==> final(self).cells() == cells_after(
                old(self).cells(),
                old(self).paused(),
                ViewEvent::Refresh,
            ),
            has_shape(final(self).cells(), width as nat, height as nat),
            final(self).rectangular(),
    {
        proof {
            use_type_invariant(&*self);
            lemma_step_keeps_rectangular(self.grid@);
        }
        let (x, y) = self.grid.size();
        if x == width && y == height {
            if !self.pause {
                self.grid = self.grid.tick();
            }
            false
        } else {
            self.resize(width, height);
            true
        }
    }

    /// Flips the cell at `(x, y)`; does nothing off the board. Returns
    /// whether a cell was flipped.
    pub fn press(&mut self, x: usize, y: usize) -> (hit: bool)
        ensures
            final(self).cells() == toggled(old(self).cells(), x as int, y as int),
            final(self).paused() == old(self).paused(),
            hit == (x < old(self).cells().len() && y < old(self).cells()[x as int].len()),
            final(self).rectangular(),
    {
        proof {
            use_type_invariant(&*self);
            lemma_toggled_keeps_rectangular(self.grid@, x as int, y as int);
        }
        let (grid, hit) = self.grid.with_toggled(x, y);
        self.grid = grid;
        hit
    }

    /// Acts on an event. A refresh advances the board by one generation
    /// unless it is paused; the space bar pauses and resumes; `r` asks for
    /// the reset dialog; a mouse press flips the cell under it, and does
    /// nothing off the board; whatever else the mouse does is taken and
    /// changes nothing; any other event is ignored.
    pub fn on_event(&mut self, event: ViewEvent) -> (result: EventResult)
        ensures
            final(self).cells() == cells_after(old(self).cells(), old(self).paused(), event),
            final(self).paused() == paused_after(old(self).paused(), event),
            result == result_of(event),
            final(self).rectangular(),
    {
        proof {
            use_type_invariant(&*self);
            lemma_step_keeps_rectangular(self.grid@);
        }
        match event {
            ViewEvent::Refresh => {
                if !self.pause {
                    self.grid = self.grid.tick();
                }
                EventResult::Consumed
            },
            ViewEvent::Char(key) => {
                if key == ' ' {
                    self.pause = !self.pause;
                    EventResult::Consumed
                } else if key == 'r' {
                    EventResult::OpenReset
                } else {
                    EventResult::Ignored
                }
            },
            ViewEvent::Mouse { pressed, x, y } => {
                if pressed {
                    self.press(x, y);
                }
                EventResult::Consumed
            },
            ViewEvent::Other => EventResult::Ignored,
        }
    }
}

/// The keys of the game and what they do, as the help shows them.
pub open spec fn help_text() -> Seq<(Seq<char>, Seq<char>)> {
    seq![
        ("h"@, "Display this help menu"@),
        ("r"@, "Reset the simulation"@),
        ("q"@, "quit"@),
        ("space"@, "Pause the simulation"@),
        ("mouse click"@, "Toggle a cell"@),
    ]
}

/// The keys of the game and what they do, as the help shows them.
pub fn help_entries() -> (entries: Vec<(&'static str, &'static str)>)
    ensures
        entries@.len() == help_text().len(),
        forall|i: int|
            0 <= i < entries@.len() ==> (#[trigger] entries@[i]).0@ == help_text()[i].0 && entries@[i].1@
                == help_text()[i].1,
{
    let mut entries: Vec<(&'static str, &'static str)> = Vec::new();
    entries.push(("h", "Display this help menu"));
    entries.push(("r", "Reset the simulation"));
    entries.push(("q", "quit"));
    entries.push(("space", "Pause the simulation"));
    entries.push(("mouse click", "Toggle a cell"));
    entries
}

/// What the slider's label shows for a value: the value as a percentage of
/// the slider's size.
pub fn slider_percent(value: usize) -> (percent: usize)
    requires
        value * 100 <= usize::MAX,
    ensures
        percent == percent_of(value as nat),
{
    value * 100 / SLIDER_SIZE
}

/// The chance that a slider value stands for: the value in the slider's size.
pub fn slider_chance(value: usize) -> (chance: (u32, u32))
    requires
        value <= SLIDER_SIZE,
    ensures
        chance.0 == value,
        chance.1 == SLIDER_SIZE,
{
    (value as u32, SLIDER_SIZE as u32)
}

/// Pressing the mouse twice on the same cell leaves the board as it was.
pub proof fn lemma_double_press_restores(cells: Seq<Seq<Cell>>, paused: bool, x: usize, y: usize)
    ensures
        cells_after(
            cells_after(cells, paused, ViewEvent::Mouse { pressed: true, x, y }),
            paused,
            ViewEvent::Mouse { pressed: true, x, y },
        ) == cells,
{
    crate::grid::lemma_toggle_twice(cells, x as int, y as int);
}

} // verus!
