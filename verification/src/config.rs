//! Editing-relevant settings.
//!
//! The engine itself reads only `tab_size`, and only when a buffer is built;
//! the remaining fields are carried for the surrounding program (fonts, line
//! height) and never observed by the core.

use vstd::prelude::*;

verus! {

/// A read-only snapshot of the editor settings.
#[derive(Clone)]
pub struct Config {
    /// Where the display font lives; unused by the engine.
    pub font_path: String,
    /// Point size of the display font; unused by the engine.
    pub font_size: u16,
    /// Height of one rendered row in pixels; unused by the engine.
    pub line_height: i32,
    /// How many space characters replace one literal tab at load time.
    pub tab_size: u16,
}

impl Default for Config {
    /// The stock settings.
    fn default() -> (c: Self)
        ensures
            c.font_path@ == "./fonts/ttf/JetBrainsMono-Regular.ttf"@,
            c.font_size == 16,
            c.line_height == 24,
            c.tab_size == 8,
    {
        Config {
            font_path: "./fonts/ttf/JetBrainsMono-Regular.ttf".to_string(),
            font_size: 16,
            line_height: 24,
            tab_size: 8,
        }
    }
}

/// Implemented by everything that takes a settings snapshot.
pub trait Configurable {
    /// Replace the held snapshot with `config`.
    fn config(&mut self, config: &Config);
}

} // verus!
