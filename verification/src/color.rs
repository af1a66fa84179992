//! The colour mode of a document.
use vstd::prelude::*;

verus! {

#[derive(Clone, Copy, PartialEq, Eq, Structural, Debug)]
pub enum ColorMode {
    Rgb,
    Cmyk,
}

impl Default for ColorMode {
    fn default() -> (r: ColorMode)
        ensures
            r == ColorMode::Rgb,
    {
        ColorMode::Rgb
    }
}

} // verus!
