//! Themes.

use vstd::prelude::*;
use crate::scene::Color;

verus! {

/// Background and foreground colors.
#[derive(Clone, Debug)]
pub struct Theme {
    pub bg: Color,
    pub fg: Color,
}

impl Default for Theme {
    fn default() -> (r: Theme)
        ensures
            r.bg == Color::white(),
            r.fg == Color::black(),
    {
        Theme { bg: Color::white(), fg: Color::black() }
    }
}

} // verus!
