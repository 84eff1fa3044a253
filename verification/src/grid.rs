//! The board: a grid of cells and the rule that advances it.

use crate::entropy::{draw, seeded};
use vstd::prelude::*;

verus! {

/// One position of the board.
#[derive(Debug, Copy, Clone, PartialEq, Eq, Structural)]
pub enum Cell {
    Alive,
    Dead,
}

impl Default for Cell {
    fn default() -> (cell: Cell)
        ensures
            cell == Cell::Dead,
    {
        Cell::Dead
    }
}

impl Cell {
    /// The other state.
    pub open spec fn flipped(self) -> Cell {
        match self {
            Cell::Alive => Cell::Dead,
            Cell::Dead => Cell::Alive,
        }
    }

    /// The cell that a draw gives: alive for `true`.
    pub open spec fn of_draw(hit: bool) -> Cell {
        if hit {
            Cell::Alive
        } else {
            Cell::Dead
        }
    }

    /// The cell that a draw gives: alive for `true`.
    pub fn from_draw(hit: bool) -> (cell: Cell)
        ensures
            cell == Cell::of_draw(hit),
    {
        if hit {
            Cell::Alive
        } else {
            Cell::Dead
        }
    }

    /// Alive becomes dead and dead becomes alive.
    pub fn toggle(self) -> (cell: Cell)
        ensures
            cell == self.flipped(),
    {
        match self {
            Cell::Alive => Cell::Dead,
            Cell::Dead => Cell::Alive,
        }
    }
}

/// The cells of a list of columns, as a sequence of sequences.
pub open spec fn columns_view(columns: Seq<Vec<Cell>>) -> Seq<Seq<Cell>> {
    Seq::new(columns.len(), |x: int| columns[x]@)
}

/// Whether position `(x, y)` lies on the board and holds a live cell.
/// Every position off the board counts as dead.
pub open spec fn alive_at(cells: Seq<Seq<Cell>>, x: int, y: int) -> bool {
    0 <= x < cells.len() && 0 <= y < cells[x].len() && cells[x][y] == Cell::Alive
}

/// One for a live position, zero for a dead one.
pub open spec fn population(cells: Seq<Seq<Cell>>, x: int, y: int) -> nat {
    if alive_at(cells, x, y) {
        1
    } else {
        0
    }
}

/// The number of live cells among the eight positions around `(x, y)`.
pub open spec fn neighbour_count(cells: Seq<Seq<Cell>>, x: int, y: int) -> nat {
    population(cells, x - 1, y - 1) + population(cells, x - 1, y) + population(cells, x - 1, y + 1)
        + population(cells, x, y - 1) + population(cells, x, y + 1)
        + population(cells, x + 1, y - 1) + population(cells, x + 1, y) + population(cells, x + 1, y + 1)
}

/// The rule of the game: a cell is alive in the next generation exactly when
/// it has three live neighbours, or is alive now and has two.
pub open spec fn next_cell(cell: Cell, neighbours: nat) -> Cell {
    if neighbours == 3 || (cell == Cell::Alive && neighbours == 2) {
        Cell::Alive
    } else {
        Cell::Dead
    }
}

/// The next generation of a whole board.
pub open spec fn step(cells: Seq<Seq<Cell>>) -> Seq<Seq<Cell>> {
    Seq::new(
        cells.len(),
        |x: int| Seq::new(cells[x].len(), |y: int| next_cell(cells[x][y], neighbour_count(cells, x, y))),
    )
}

/// A board of `x_size` columns of `y_size` cells, every one of them `cell`.
pub open spec fn uniform(x_size: nat, y_size: nat, cell: Cell) -> Seq<Seq<Cell>> {
    Seq::new(x_size, |x: int| Seq::new(y_size, |y: int| cell))
}

/// Whether the board has `x_size` columns of `y_size` cells each.
pub open spec fn has_shape(cells: Seq<Seq<Cell>>, x_size: nat, y_size: nat) -> bool {
    &&& cells.len() == x_size
    &&& forall|x: int| 0 <= x < cells.len() ==> (#[trigger] cells[x]).len() == y_size
}

/// The board with the cell at `(x, y)` flipped; the board itself where
/// `(x, y)` lies off it.
pub open spec fn toggled(cells: Seq<Seq<Cell>>, x: int, y: int) -> Seq<Seq<Cell>> {
    if 0 <= x < cells.len() && 0 <= y < cells[x].len() {
        cells.update(x, cells[x].update(y, cells[x][y].flipped()))
    } else {
        cells
    }
}

/// The extent of a board: the number of columns, and the length of the first
/// column (zero where there is none).
pub open spec fn extent(cells: Seq<Seq<Cell>>) -> (nat, nat) {
    (cells.len(), if cells.len() > 0 { cells[0].len() } else { 0 })
}

/// Whether every column of the board is as long as the first.
pub open spec fn is_rectangular(cells: Seq<Seq<Cell>>) -> bool {
    has_shape(cells, extent(cells).0, extent(cells).1)
}

/// A board of the game of life. The first index is `x`, the second `y`.
#[derive(Debug, Clone, PartialEq)]
pub struct Grid {
    grid: Vec<Vec<Cell>>,
}

impl View for Grid {
    type V = Seq<Seq<Cell>>;

    closed spec fn view(&self) -> Seq<Seq<Cell>> {
        columns_view(self.grid@)
    }
}

impl Grid {
    /// A board made of the given columns.
    pub fn from_columns(columns: Vec<Vec<Cell>>) -> (grid: Grid)
        ensures
            grid@ == columns_view(columns@),
    {
        Grid { grid: columns }
    }

    /// The columns of the board.
    pub fn columns(&self) -> (columns: &Vec<Vec<Cell>>)
        ensures
            columns_view(columns@) == self@,
    {
        &self.grid
    }

    /// Create a new, empty grid
    pub fn empty(x_size: usize, y_size: usize) -> (grid: Grid)
        ensures
            grid@ == uniform(x_size as nat, y_size as nat, Cell::Dead),
    {
        let mut columns: Vec<Vec<Cell>> = Vec::new();
        let mut x: usize = 0;
        while x < x_size
            invariant
                x <= x_size,
                columns.len() == x,
                forall|i: int|
                    0 <= i < x ==> (#[trigger] columns[i])@ == Seq::new(y_size as nat, |y: int| Cell::Dead),
            decreases x_size - x,
        {
            let mut column: Vec<Cell> = Vec::new();
            let mut y: usize = 0;
            while y < y_size
                invariant
                    y <= y_size,
                    column.len() == y,
                    forall|j: int| 0 <= j < y ==> #[trigger] column[j] == Cell::Dead,
                decreases y_size - y,
            {
                column.push(Cell::Dead);
                y += 1;
            }
            assert(column@ =~= Seq::new(y_size as nat, |y: int| Cell::Dead));
            columns.push(column);
            x += 1;
        }
        let grid = Grid { grid: columns };
        assert(grid@ =~= uniform(x_size as nat, y_size as nat, Cell::Dead));
        grid
    }

    /// Create a new grid, each cell alive with a chance of `numerator` in
    /// `denominator`, drawn for each cell by itself. Whatever is drawn, the
    /// grid has the size asked for; a chance of zero gives the empty grid and
    /// a chance of one a full one.
    pub fn random(x_size: usize, y_size: usize, numerator: u32, denominator: u32) -> (grid: Grid)
        requires
            0 < denominator,
            numerator <= denominator,
        ensures
            has_shape(grid@, x_size as nat, y_size as nat),
            numerator == 0 ==> grid@ == uniform(x_size as nat, y_size as nat, Cell::Dead),
            numerator == denominator ==> grid@ == uniform(x_size as nat, y_size as nat, Cell::Alive),
    {
        let mut rng = seeded();
        let mut columns: Vec<Vec<Cell>> = Vec::new();
        let mut x: usize = 0;
        while x < x_size
            invariant
                0 < denominator,
                numerator <= denominator,
                x <= x_size,
                columns.len() == x,
                forall|i: int| 0 <= i < x ==> (#[trigger] columns[i]).len() == y_size,
                numerator == 0 ==> forall|i: int, j: int|
                    0 <= i < x && 0 <= j < y_size ==> (#[trigger] columns[i][j]) == Cell::Dead,
                numerator == denominator ==> forall|i: int, j: int|
                    0 <= i < x && 0 <= j < y_size ==> (#[trigger] columns[i][j]) == Cell::Alive,
            decreases x_size - x,
        {
            let mut column: Vec<Cell> = Vec::new();
            let mut y: usize = 0;
            while y < y_size
                invariant
                    0 < denominator,
                    numerator <= denominator,
                    y <= y_size,
                    column.len() == y,
                    numerator == 0 ==> forall|j: int| 0 <= j < y ==> #[trigger] column[j] == Cell::Dead,
                    numerator == denominator ==> forall|j: int|
                        0 <= j < y ==> #[trigger] column[j] == Cell::Alive,
                decreases y_size - y,
            {
                let hit = draw(&mut rng, numerator, denominator);
                column.push(Cell::from_draw(hit));
                y += 1;
            }
            columns.push(column);
            x += 1;
        }
        let grid = Grid { grid: columns };
        proof {
            if numerator == 0 {
                assert forall|i: int| 0 <= i < x_size implies #[trigger] grid@[i] == uniform(
                    x_size as nat,
                    y_size as nat,
                    Cell::Dead,
                )[i] by {
                    assert(grid@[i] =~= Seq::new(y_size as nat, |y: int| Cell::Dead)) by {
                        assert forall|j: int| 0 <= j < y_size implies grid@[i][j] == Cell::Dead by {
                            assert(columns[i][j] == Cell::Dead);
                        }
                    }
                }
                assert(grid@ =~= uniform(x_size as nat, y_size as nat, Cell::Dead));
            }
            if numerator == denominator {
                assert forall|i: int| 0 <= i < x_size implies #[trigger] grid@[i] == uniform(
                    x_size as nat,
                    y_size as nat,
                    Cell::Alive,
                )[i] by {
                    assert(grid@[i] =~= Seq::new(y_size as nat, |y: int| Cell::Alive)) by {
                        assert forall|j: int| 0 <= j < y_size implies grid@[i][j] == Cell::Alive by {
                            assert(columns[i][j] == Cell::Alive);
                        }
                    }
                }
                assert(grid@ =~= uniform(x_size as nat, y_size as nat, Cell::Alive));
            }
        }
        grid
    }

    /// The number of columns and the length of the first of them.
    pub fn size(&self) -> (size: (usize, usize))
        ensures
            (size.0 as nat, size.1 as nat) == extent(self@),
    {
        if self.grid.len() > 0 {
            (self.grid.len(), self.grid[0].len())
        } else {
            (0, 0)
        }
    }

    /// Whether the cell at `(x, y)` is alive; `false` off the board.
    pub fn is_alive(&self, x: isize, y: isize) -> (alive: bool)
        ensures
            alive == alive_at(self@, x as int, y as int),
    {
        if x < 0 || y < 0 {
            return false;
        }
        self.is_alive_at(x as usize, y as usize)
    }

    fn is_alive_at(&self, x: usize, y: usize) -> (alive: bool)
        ensures
            alive == alive_at(self@, x as int, y as int),
    {
        if x < self.grid.len() {
            let column = &self.grid[x];
            if y < column.len() {
                return column[y] == Cell::Alive;
            }
        }
        false
    }

    /// The coordinate next to `at` in direction `delta`, where it is a `usize`.
    fn shifted(at: usize, delta: i8) -> (to: Option<usize>)
        requires
            -1 <= delta <= 1,
        ensures
            to is Some <==> 0 <= at + delta <= usize::MAX,
            to is Some ==> to->0 == at + delta,
    {
        if delta == 0 {
            Some(at)
        } else if delta < 0 {
            if at > 0 {
                Some(at - 1)
            } else {
                None
            }
        } else if at < usize::MAX {
            Some(at + 1)
        } else {
            None
        }
    }

    fn count_at(&self, x: usize, y: usize, dx: i8, dy: i8) -> (n: usize)
        requires
            -1 <= dx <= 1,
            -1 <= dy <= 1,
        ensures
            n == population(self@, x + dx, y + dy),
            n <= 1,
    {
        match (Self::shifted(x, dx), Self::shifted(y, dy)) {
            (Some(cx), Some(cy)) => if self.is_alive_at(cx, cy) {
                1
            } else {
                0
            },
            _ => {
                proof {
                    let cells = self@;
                    assert(cells.len() == self.grid.len());
                    if 0 <= x + dx < cells.len() {
                        assert(cells[x + dx].len() == self.grid[x + dx].len());
                    }
                }
                0
            },
        }
    }

    /// The number of live cells around `(x, y)`.
    pub fn neighbours(&self, x: usize, y: usize) -> (sum: usize)
        ensures
            sum == neighbour_count(self@, x as int, y as int),
    {
        let mut sum: usize = 0;
        sum += self.count_at(x, y, -1, -1);
        sum += self.count_at(x, y, -1, 0);
        sum += self.count_at(x, y, -1, 1);
        sum += self.count_at(x, y, 0, -1);
        sum += self.count_at(x, y, 0, 1);
        sum += self.count_at(x, y, 1, -1);
        sum += self.count_at(x, y, 1, 0);
        sum += self.count_at(x, y, 1, 1);
        sum
    }

    /// One game of life iteration
    pub fn tick(&self) -> (next: Grid)
        ensures
            next@ == step(self@),
    {
        let mut columns: Vec<Vec<Cell>> = Vec::new();
        let mut x: usize = 0;
        while x < self.grid.len()
            invariant
                x <= self.grid.len(),
                columns.len() == x,
                forall|i: int| 0 <= i < x ==> (#[trigger] columns[i])@ == step(self@)[i],
            decreases self.grid.len() - x,
        {
            let column = &self.grid[x];
            let mut next_column: Vec<Cell> = Vec::new();
            let mut y: usize = 0;
            while y < column.len()
                invariant
                    x < self.grid.len(),
                    column == self.grid[x as int],
                    y <= column.len(),
                    next_column.len() == y,
                    forall|j: int|
                        0 <= j < y ==> #[trigger] next_column[j] == next_cell(
                            column[j],
                            neighbour_count(self@, x as int, j),
                        ),
                decreases column.len() - y,
            {
                let neighbours = self.neighbours(x, y);
                let cell = column[y];
                let next = match cell {
                    Cell::Alive => if neighbours >= 4 || neighbours <= 1 {
                        Cell::Dead
                    } else {
                        Cell::Alive
                    },
                    Cell::Dead => if neighbours == 3 {
                        Cell::Alive
                    } else {
                        Cell::Dead
                    },
                };
                next_column.push(next);
                y += 1;
            }
            assert(next_column@ =~= step(self@)[x as int]);
            columns.push(next_column);
            x += 1;
        }
        let next = Grid { grid: columns };
        assert(next@ =~= step(self@));
        next
    }

    /// A copy of the board with the cell at `(x, y)` flipped, and whether a
    /// cell was flipped: a position off the board gives a plain copy.
    pub fn with_toggled(&self, x: usize, y: usize) -> (out: (Grid, bool))
        ensures
            out.0@ == toggled(self@, x as int, y as int),
            out.1 == (x < self@.len() && y < self@[x as int].len()),
    {
        let hit = x < self.grid.len() && y < self.grid[x].len();
        let mut columns: Vec<Vec<Cell>> = Vec::new();
        let mut i: usize = 0;
        while i < self.grid.len()
            invariant
                i <= self.grid.len(),
                hit == (x < self.grid.len() && y < self.grid[x as int].len()),
                columns.len() == i,
                forall|k: int| 0 <= k < i ==> (#[trigger] columns[k])@ == toggled(self@, x as int, y as int)[k],
            decreases self.grid.len() - i,
        {
            let column = &self.grid[i];
            let mut copy: Vec<Cell> = Vec::new();
            let mut j: usize = 0;
            while j < column.len()
                invariant
                    i < self.grid.len(),
                    column == self.grid[i as int],
                    hit == (x < self.grid.len() && y < self.grid[x as int].len()),
                    j <= column.len(),
                    copy.len() == j,
                    forall|k: int|
                        0 <= k < j ==> #[trigger] copy[k] == (if hit && i == x && k == y {
                            column[k].flipped()
                        } else {
                            column[k]
                        }),
                decreases column.len() - j,
            {
                let cell = column[j];
                if hit && i == x && j == y {
                    copy.push(cell.toggle());
                } else {
                    copy.push(cell);
                }
                j += 1;
            }
            assert(copy@ =~= toggled(self@, x as int, y as int)[i as int]);
            columns.push(copy);
            i += 1;
        }
        let next = Grid { grid: columns };
        assert(next@ =~= toggled(self@, x as int, y as int));
        (next, hit)
    }

    /// Flip the cell at `(x, y)`. A position off the board is left alone.
    /// Returns whether a cell was flipped.
    pub fn toggle(&mut self, x: usize, y: usize) -> (hit: bool)
        ensures
            final(self)@ == toggled(old(self)@, x as int, y as int),
            hit == (x < old(self)@.len() && y < old(self)@[x as int].len()),
    {
        if x < self.grid.len() {
            if y < self.grid[x].len() {
                let mut column: Vec<Cell> = Vec::new();
                let mut j: usize = 0;
                while j < self.grid[x].len()
                    invariant
                        x < self.grid.len(),
                        y < self.grid[x as int].len(),
                        j <= self.grid[x as int].len(),
                        column.len() == j,
                        forall|k: int|
                            0 <= k < j ==> #[trigger] column[k] == self.grid[x as int]@.update(
                                y as int,
                                self.grid[x as int][y as int].flipped(),
                            )[k],
                    decreases self.grid[x as int].len() - j,
                {
                    let cell = self.grid[x][j];
                    if j == y {
                        column.push(cell.toggle());
                    } else {
                        column.push(cell);
                    }
                    j += 1;
                }
                assert(column@ =~= self.grid[x as int]@.update(
                    y as int,
                    self.grid[x as int][y as int].flipped(),
                ));
                self.grid.set(x, column);
                assert(self@ =~= toggled(old(self)@, x as int, y as int));
                return true;
            }
        }
        false
    }
}

/// A board of a given shape is rectangular.
pub proof fn lemma_shape_is_rectangular(cells: Seq<Seq<Cell>>, x_size: nat, y_size: nat)
    requires
        has_shape(cells, x_size, y_size),
    ensures
        is_rectangular(cells),
        x_size > 0 ==> extent(cells) == (x_size, y_size),
        x_size == 0 ==> extent(cells) == (0nat, 0nat),
{
}

/// A step of a rectangular board is rectangular, and of the same extent.
pub proof fn lemma_step_keeps_rectangular(cells: Seq<Seq<Cell>>)
    requires
        is_rectangular(cells),
    ensures
        is_rectangular(step(cells)),
        extent(step(cells)) == extent(cells),
{
}

/// A rectangular board with one cell flipped is rectangular, and of the same
/// extent.
pub proof fn lemma_toggled_keeps_rectangular(cells: Seq<Seq<Cell>>, x: int, y: int)
    requires
        is_rectangular(cells),
    ensures
        is_rectangular(toggled(cells, x, y)),
        extent(toggled(cells, x, y)) == extent(cells),
{
    if 0 <= x < cells.len() && 0 <= y < cells[x].len() {
        let next = toggled(cells, x, y);
        assert forall|i: int| 0 <= i < next.len() implies (#[trigger] next[i]).len() == cells[i].len() by {}
    }
}

/// Flipping the same cell twice gives the board back, wherever the position lies.
pub proof fn lemma_toggle_twice(cells: Seq<Seq<Cell>>, x: int, y: int)
    ensures
        toggled(toggled(cells, x, y), x, y) == cells,
{
    if 0 <= x < cells.len() && 0 <= y < cells[x].len() {
        let once = toggled(cells, x, y);
        assert(once[x] =~= cells[x].update(y, cells[x][y].flipped()));
        assert(once[x].update(y, once[x][y].flipped()) =~= cells[x]);
        assert(toggled(once, x, y) =~= cells);
    }
}

/// A step keeps the length of every column.
pub proof fn lemma_step_keeps_shape(cells: Seq<Seq<Cell>>, x_size: nat, y_size: nat)
    requires
        has_shape(cells, x_size, y_size),
    ensures
        has_shape(step(cells), x_size, y_size),
{
}

/// A board without a live cell stays without one.
pub proof fn lemma_step_of_dead_board(x_size: nat, y_size: nat)
    ensures
        step(uniform(x_size, y_size, Cell::Dead)) == uniform(x_size, y_size, Cell::Dead),
{
    let dead = uniform(x_size, y_size, Cell::Dead);
    assert forall|x: int| 0 <= x < x_size implies #[trigger] step(dead)[x] == dead[x] by {
        assert(step(dead)[x] =~= dead[x]);
    }
    assert(step(dead) =~= dead);
}

} // verus!
