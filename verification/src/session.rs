//! The session of one connection: a state machine that owns the display and
//! is driven by the events of its queue and by a periodic tick.

use crate::grid::{has_shape, is_rectangular, step, toggled, Cell};
use crate::input::{MouseKind, SessionEvent};
use crate::view::{ResizableGrid, ViewEvent};
use vstd::prelude::*;

verus! {

/// Where a session stands.
#[derive(Debug, Copy, Clone, PartialEq, Eq, Structural)]
pub enum Lifecycle {
    /// Made, not started.
    Created,
    /// Started; the size of the peer's window is not known yet.
    Negotiating,
    /// Running: the display has the size of the peer's window.
    Active,
    /// Over.
    Terminated,
}

/// What drives a session.
#[derive(Debug, Copy, Clone, PartialEq, Eq, Structural)]
pub enum SessionInput {
    /// An event from the connection.
    Event(SessionEvent),
    /// The periodic refresh.
    Tick,
    /// The queue's sending end is gone.
    Closed,
    /// Drawing failed for good.
    RenderFailed,
}

/// What the caller has to do after an input.
#[derive(Debug, Copy, Clone, PartialEq, Eq, Structural)]
pub enum Effect {
    /// Nothing.
    Nothing,
    /// Draw the display again.
    Redraw,
    /// The display was seeded anew for a new size: draw it.
    Reseeded,
    /// Show the help.
    OpenHelp,
    /// Show the dialog that sets up a new board.
    OpenReset,
    /// The session is over: close the connection.
    Quit,
}

/// A session as the contracts see it. A width or height of zero is one that
/// is not known.
pub struct State {
    pub lifecycle: Lifecycle,
    pub width: nat,
    pub height: nat,
    pub paused: bool,
    pub cells: Seq<Seq<Cell>>,
}

/// A side of the window after a report: the reported one, or the one known
/// before where the report leaves it open.
pub open spec fn merged(known: nat, reported: u16) -> nat {
    if reported > 0 {
        reported as nat
    } else {
        known
    }
}

/// Whether the input ends a session whatever it is doing.
pub open spec fn fatal(input: SessionInput) -> bool {
    input == SessionInput::Closed || input == SessionInput::RenderFailed
}

/// The width after an input.
pub open spec fn width_after(state: State, input: SessionInput) -> nat {
    match input {
        SessionInput::Event(SessionEvent::Resize { width, height }) => if state.lifecycle
            == Lifecycle::Negotiating || state.lifecycle == Lifecycle::Active {
            merged(state.width, width)
        } else {
            state.width
        },
        _ => state.width,
    }
}

/// The height after an input.
pub open spec fn height_after(state: State, input: SessionInput) -> nat {
    match input {
        SessionInput::Event(SessionEvent::Resize { width, height }) => if state.lifecycle
            == Lifecycle::Negotiating || state.lifecycle == Lifecycle::Active {
            merged(state.height, height)
        } else {
            state.height
        },
        _ => state.height,
    }
}

/// Whether the input has the display seeded anew: a report that makes both
/// sides known while negotiating, or one that changes a side while active.
pub open spec fn reseeds(state: State, input: SessionInput) -> bool {
    let width = width_after(state, input);
    let height = height_after(state, input);
    input is Event && input->Event_0 is Resize && match state.lifecycle {
        Lifecycle::Negotiating => width > 0 && height > 0,
        Lifecycle::Active => width != state.width || height != state.height,
        _ => false,
    }
}

/// Where the session stands after an input.
pub open spec fn lifecycle_after(state: State, input: SessionInput) -> Lifecycle {
    match state.lifecycle {
        Lifecycle::Terminated => Lifecycle::Terminated,
        Lifecycle::Created => if fatal(input) {
            Lifecycle::Terminated
        } else {
            Lifecycle::Created
        },
        Lifecycle::Negotiating => if fatal(input) {
            Lifecycle::Terminated
        } else if reseeds(state, input) {
            Lifecycle::Active
        } else {
            Lifecycle::Negotiating
        },
        Lifecycle::Active => if fatal(input) || input == SessionInput::Event(SessionEvent::Char('q')) {
            Lifecycle::Terminated
        } else {
            Lifecycle::Active
        },
    }
}

/// Whether the pause flag stands after an input: the space bar flips it
/// while the session is active.
pub open spec fn paused_after(state: State, input: SessionInput) -> bool {
    if state.lifecycle == Lifecycle::Active && input == SessionInput::Event(SessionEvent::Char(' ')) {
        !state.paused
    } else {
        state.paused
    }
}

/// Whether the input is a mouse press, and on which cell.
pub open spec fn pressed_cell(input: SessionInput) -> Option<(int, int)> {
    match input {
        SessionInput::Event(SessionEvent::Mouse { kind: MouseKind::Press(_), x, y }) => Some(
            (x as int, y as int),
        ),
        _ => None,
    }
}

/// The board after an input that does not have it seeded anew: a tick
/// advances it while the session is active and not paused, a mouse press
/// flips the cell under it while the session is active, and nothing else
/// touches it.
pub open spec fn cells_after(state: State, input: SessionInput) -> Seq<Seq<Cell>> {
    if state.lifecycle != Lifecycle::Active {
        state.cells
    } else if input == SessionInput::Tick && !state.paused {
        step(state.cells)
    } else if let Some((x, y)) = pressed_cell(input) {
        toggled(state.cells, x, y)
    } else {
        state.cells
    }
}

/// What the caller has to do after an input.
pub open spec fn effect_of(state: State, input: SessionInput) -> Effect {
    match state.lifecycle {
        Lifecycle::Terminated => Effect::Nothing,
        Lifecycle::Created => if fatal(input) {
            Effect::Quit
        } else {
            Effect::Nothing
        },
        Lifecycle::Negotiating => if fatal(input) {
            Effect::Quit
        } else if reseeds(state, input) {
            Effect::Reseeded
        } else {
            Effect::Nothing
        },
        Lifecycle::Active => if fatal(input) {
            Effect::Quit
        } else {
            match input {
                SessionInput::Tick => if state.paused {
                    Effect::Nothing
                } else {
                    Effect::Redraw
                },
                SessionInput::Event(SessionEvent::Resize { .. }) => if reseeds(state, input) {
                    Effect::Reseeded
                } else {
                    Effect::Nothing
                },
                SessionInput::Event(SessionEvent::Char(key)) => if key == 'q' {
                    Effect::Quit
                } else if key == 'h' {
                    Effect::OpenHelp
                } else if key == 'r' {
                    Effect::OpenReset
                } else if key == ' ' {
                    Effect::Redraw
                } else {
                    Effect::Nothing
                },
                SessionInput::Event(SessionEvent::Mouse { kind, x, y }) => if kind is Press
                    && toggled(state.cells, x as int, y as int) != state.cells {
                    Effect::Redraw
                } else {
                    Effect::Nothing
                },
                _ => Effect::Nothing,
            }
        },
    }
}

/// One interactive session.
pub struct Session {
    lifecycle: Lifecycle,
    display: ResizableGrid,
    width: usize,
    height: usize,
}

impl View for Session {
    type V = State;

    closed spec fn view(&self) -> State {
        State {
            lifecycle: self.lifecycle,
            width: self.width as nat,
            height: self.height as nat,
            paused: self.display.paused(),
            cells: self.display.cells(),
        }
    }
}

impl Session {
    /// A session that has not started: no board, paused, no size known.
    pub fn new() -> (session: Session)
        ensures
            session@ == (State {
                lifecycle: Lifecycle::Created,
                width: 0,
                height: 0,
                paused: true,
                cells: Seq::empty(),
            }),
            is_rectangular(session@.cells),
    {
        Session { lifecycle: Lifecycle::Created, display: ResizableGrid::default(), width: 0, height: 0 }
    }

    /// Starts a session that was made, with what is known of the window's
    /// size (zero for a side that is not known). With both sides known the
    /// session is active at once, on a board seeded for that size; else it
    /// waits for the peer's report. A session that was started before is
    /// left as it is.
    pub fn start(&mut self, width: usize, height: usize)
        ensures
            old(self)@.lifecycle != Lifecycle::Created ==> final(self)@ == old(self)@,
            old(self)@.lifecycle == Lifecycle::Created ==> {
                &&& final(self)@.width == width
                &&& final(self)@.height == height
                &&& final(self)@.paused == old(self)@.paused
                &&& if width > 0 && height > 0 {
                    &&& final(self)@.lifecycle == Lifecycle::Active
                    &&& has_shape(final(self)@.cells, width as nat, height as nat)
                } else {
                    &&& final(self)@.lifecycle == Lifecycle::Negotiating
                    &&& final(self)@.cells == old(self)@.cells
                }
            },
            is_rectangular(final(self)@.cells),
    {
        proof {
            use_type_invariant(&self.display);
            self.display.lemma_always_rectangular();
        }
        if self.lifecycle == Lifecycle::Created {
            self.width = width;
            self.height = height;
            if width > 0 && height > 0 {
                self.display.resize(width, height);
                self.lifecycle = Lifecycle::Active;
            } else {
                self.lifecycle = Lifecycle::Negotiating;
            }
        }
    }

    /// Where the session stands.
    pub fn lifecycle(&self) -> (lifecycle: Lifecycle)
        ensures
            lifecycle == self@.lifecycle,
    {
        self.lifecycle
    }

    /// The size of the window as far as it is known: width, then height.
    pub fn size(&self) -> (size: (usize, usize))
        ensures
            size.0 == self@.width,
            size.1 == self@.height,
    {
        (self.width, self.height)
    }

    /// The display.
    pub fn display(&self) -> (display: &ResizableGrid)
        ensures
            display.cells() == self@.cells,
            display.paused() == self@.paused,
            display.rectangular(),
    {
        proof {
            use_type_invariant(&self.display);
            self.display.lemma_always_rectangular();
        }
        &self.display
    }

    /// Stops the board or lets it run, as the dialogs do when they close.
    pub fn set_paused(&mut self, paused: bool)
        ensures
            final(self)@ == (State { paused, ..old(self)@ }),
            is_rectangular(final(self)@.cells),
    {
        self.display.set_paused(paused);
    }

    /// Seeds a new board of the present size, each cell alive with a chance of
    /// `numerator` in `denominator`, and lets it run.
    pub fn reset(&mut self, numerator: u32, denominator: u32)
        requires
            0 < denominator,
            numerator <= denominator,
        ensures
            final(self)@.lifecycle == old(self)@.lifecycle,
            final(self)@.width == old(self)@.width,
            final(self)@.height == old(self)@.height,
            !final(self)@.paused,
            has_shape(
                final(self)@.cells,
                crate::grid::extent(old(self)@.cells).0,
                crate::grid::extent(old(self)@.cells).1,
            ),
            numerator == 0 ==> final(self)@.cells == crate::grid::uniform(
                crate::grid::extent(old(self)@.cells).0,
                crate::grid::extent(old(self)@.cells).1,
                Cell::Dead,
            ),
            numerator == denominator ==> final(self)@.cells == crate::grid::uniform(
                crate::grid::extent(old(self)@.cells).0,
                crate::grid::extent(old(self)@.cells).1,
                Cell::Alive,
            ),
            is_rectangular(final(self)@.cells),
    {
        self.display.reset(numerator, denominator);
        self.display.set_paused(false);
    }

    /// Takes one input and says what the caller has to do. A session that
    /// is over takes nothing. The loss of the queue and a failure to draw end
    /// any session. While negotiating, only the report of the window's size
    /// counts: once both sides are known the session is active on a board
    /// seeded for that size. While active, a tick advances the board unless
    /// it is paused; a report of another size has the board seeded anew, one
    /// of the same size does nothing; `q` ends the session, `h` asks for the
    /// help, `r` for the reset dialog, the space bar pauses and resumes; a
    /// mouse press flips the cell under it, and does nothing off the board.
    pub fn handle(&mut self, input: SessionInput) -> (effect: Effect)
        ensures
            effect == effect_of(old(self)@, input),
            final(self)@.lifecycle == lifecycle_after(old(self)@, input),
            final(self)@.width == width_after(old(self)@, input),
            final(self)@.height == height_after(old(self)@, input),
            final(self)@.paused == paused_after(old(self)@, input),
            reseeds(old(self)@, input) ==> has_shape(
                final(self)@.cells,
                final(self)@.width,
                final(self)@.height,
            ),
            !reseeds(old(self)@, input) ==> final(self)@.cells == cells_after(old(self)@, input),
            is_rectangular(final(self)@.cells),
    {
        proof {
            use_type_invariant(&self.display);
            self.display.lemma_always_rectangular();
        }
        match self.lifecycle {
            Lifecycle::Terminated => Effect::Nothing,
            Lifecycle::Created => {
                if Self::is_fatal(input) {
                    self.lifecycle = Lifecycle::Terminated;
                    Effect::Quit
                } else {
                    Effect::Nothing
                }
            },
            Lifecycle::Negotiating => {
                if Self::is_fatal(input) {
                    self.lifecycle = Lifecycle::Terminated;
                    return Effect::Quit;
                }
                if let SessionInput::Event(SessionEvent::Resize { width, height }) = input {
                    self.note_size(width, height);
                    if self.width > 0 && self.height > 0 {
                        self.display.resize(self.width, self.height);
                        self.lifecycle = Lifecycle::Active;
                        return Effect::Reseeded;
                    }
                }
                Effect::Nothing
            },
            Lifecycle::Active => {
                if Self::is_fatal(input) {
                    self.lifecycle = Lifecycle::Terminated;
                    return Effect::Quit;
                }
                match input {
                    SessionInput::Tick => {
                        if self.display.is_paused() {
                            Effect::Nothing
                        } else {
                            self.display.on_event(ViewEvent::Refresh);
                            Effect::Redraw
                        }
                    },
                    SessionInput::Event(SessionEvent::Resize { width, height }) => {
                        let (old_width, old_height) = (self.width, self.height);
                        self.note_size(width, height);
                        if self.width != old_width || self.height != old_height {
                            self.display.resize(self.width, self.height);
                            Effect::Reseeded
                        } else {
                            Effect::Nothing
                        }
                    },
                    SessionInput::Event(SessionEvent::Char(key)) => {
                        if key == 'q' {
                            self.lifecycle = Lifecycle::Terminated;
                            Effect::Quit
                        } else if key == 'h' {
                            Effect::OpenHelp
                        } else if key == 'r' {
                            Effect::OpenReset
                        } else if key == ' ' {
                            self.display.on_event(ViewEvent::Char(' '));
                            Effect::Redraw
                        } else {
                            Effect::Nothing
                        }
                    },
                    SessionInput::Event(SessionEvent::Mouse { kind, x, y }) => {
                        match kind {
                            MouseKind::Press(_) => {
                                let ghost before = self.display.cells();
                                let hit = self.display.press(x as usize, y as usize);
                                proof {
                                    lemma_press_shows(before, x as int, y as int);
                                }
                                if hit {
                                    Effect::Redraw
                                } else {
                                    Effect::Nothing
                                }
                            },
                            _ => Effect::Nothing,
                        }
                    },
                    _ => Effect::Nothing,
                }
            },
        }
    }

    fn is_fatal(input: SessionInput) -> (yes: bool)
        ensures
            yes == fatal(input),
    {
        match input {
            SessionInput::Closed => true,
            SessionInput::RenderFailed => true,
            _ => false,
        }
    }

    fn note_size(&mut self, width: u16, height: u16)
        ensures
            final(self).width == merged(old(self).width as nat, width),
            final(self).height == merged(old(self).height as nat, height),
            final(self).lifecycle == old(self).lifecycle,
            final(self).display == old(self).display,
    {
        if width > 0 {
            self.width = width as usize;
        }
        if height > 0 {
            self.height = height as usize;
        }
    }
}

/// A press on the board changes it; a press off the board does not.
pub proof fn lemma_press_shows(cells: Seq<Seq<Cell>>, x: int, y: int)
    ensures
        (toggled(cells, x, y) != cells) == (0 <= x < cells.len() && 0 <= y < cells[x].len()),
{
    if 0 <= x < cells.len() && 0 <= y < cells[x].len() {
        assert(toggled(cells, x, y)[x][y] != cells[x][y]);
    }
}

/// A report of the size that an active session already has changes nothing:
/// the board is not seeded again, and nothing is to be drawn.
pub proof fn lemma_same_size_is_idle(state: State, width: u16, height: u16)
    requires
        state.lifecycle == Lifecycle::Active,
        merged(state.width, width) == state.width,
        merged(state.height, height) == state.height,
    ensures
        ({
            let input = SessionInput::Event(SessionEvent::Resize { width, height });
            &&& !reseeds(state, input)
            &&& effect_of(state, input) == Effect::Nothing
            &&& cells_after(state, input) == state.cells
            &&& lifecycle_after(state, input) == Lifecycle::Active
            &&& width_after(state, input) == state.width
            &&& height_after(state, input) == state.height
        }),
{
}

/// Two presses on the same cell of an active session leave the board as it
/// was.
pub proof fn lemma_double_press_restores(state: State, kind: MouseKind, x: u16, y: u16)
    requires
        state.lifecycle == Lifecycle::Active,
        kind is Press,
    ensures
        ({
            let input = SessionInput::Event(SessionEvent::Mouse { kind, x, y });
            let once = State { cells: cells_after(state, input), ..state };
            cells_after(once, input) == state.cells
        }),
{
    crate::grid::lemma_toggle_twice(state.cells, x as int, y as int);
}

/// A session that is over stays over, whatever comes.
pub proof fn lemma_terminated_is_final(state: State, input: SessionInput)
    requires
        state.lifecycle == Lifecycle::Terminated,
    ensures
        lifecycle_after(state, input) == Lifecycle::Terminated,
        effect_of(state, input) == Effect::Nothing,
        !reseeds(state, input),
        cells_after(state, input) == state.cells,
{
}

} // verus!
