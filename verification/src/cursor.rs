//! The cursor: a position within the buffer, in character units.

use vstd::prelude::*;

use crate::config::{Config, Configurable};

verus! {

/// A cursor position. `x` is the column — a zero-based character index within
/// the addressed row, never a byte offset — and `y` is the zero-based row.
/// `x` may equal the row's character count: that addresses the position just
/// past the last character, a valid insertion point.
pub struct Cursor {
    /// Column, counted in characters.
    pub x: usize,
    /// Row.
    pub y: usize,
    /// The settings snapshot the cursor was last given; unused by the engine.
    pub config: Config,
}

impl Default for Cursor {
    /// A cursor at the top-left corner, holding the stock settings.
    fn default() -> (c: Self)
        ensures
            c.x == 0,
            c.y == 0,
            c.config.font_path@ == "./fonts/ttf/JetBrainsMono-Regular.ttf"@,
            c.config.font_size == 16,
            c.config.line_height == 24,
            c.config.tab_size == 8,
    {
        Cursor { x: 0, y: 0, config: Config::default() }
    }
}

impl Configurable for Cursor {
    /// Stores a copy of `config` as the held snapshot, field for field,
    /// leaving the position untouched.
    fn config(&mut self, config: &Config)
        ensures
            final(self).config == *config,
            final(self).x == old(self).x,
            final(self).y == old(self).y,
    {
        self.config = Config {
            font_path: config.font_path.clone(),
            font_size: config.font_size,
            line_height: config.line_height,
            tab_size: config.tab_size,
        };
    }
}

} // verus!
