use vstd::prelude::*;

verus! {

/// Why an input cannot be meshed.
#[derive(Clone, Copy, Debug, PartialEq, Eq, Structural)]
pub enum InputError {
    /// A dimension is below two, so the grid holds no full cell.
    TooSmall { width: usize, height: usize },
    /// Row `row` is the first whose length differs from that of row 0.
    Ragged { row: usize },
    /// An image of `width` by `height` pixels was given `pixels` colours.
    PixelCount { width: usize, height: usize, pixels: usize },
}

} // verus!
