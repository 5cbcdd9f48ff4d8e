//! Presentation-independent configuration values.

use vstd::prelude::*;

verus! {

/// Colour scheme selector. The palettes themselves are rendering
/// concerns and live with the presentation layer.
#[derive(Debug, Clone, Copy, PartialEq, Eq, Structural)]
pub enum Theme {
    Dark,
    Light,
}

} // verus!
