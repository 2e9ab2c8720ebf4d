//! Settings of the window that shows a game.
use vstd::prelude::*;

verus! {

/// The window's size and title, and the side of one cell in pixels.
pub struct Options {
    pub window_width: u32,
    pub window_height: u32,
    pub window_title: &'static str,
    pub cell_size: u32,
}

impl Options {
    /// The board that fills the window: how many whole cells fit across and
    /// down.
    pub fn board_size(&self) -> (r: (usize, usize))
        requires
            self.cell_size > 0,
        ensures
            r.0 == self.window_width / self.cell_size,
            r.1 == self.window_height / self.cell_size,
    {
        ((self.window_width / self.cell_size) as usize, (self.window_height / self.cell_size) as usize)
    }
}

} // verus!
