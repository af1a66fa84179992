//! The kinds of paints, effects, strokes and constraints a layer's style names.
use vstd::prelude::*;

verus! {

/// How a frame's child follows the frame on resize: pinned to the start (left,
/// top), the end, both, the centre, or scaled.
#[derive(Clone, Copy, PartialEq, Eq, Structural, Debug)]
pub enum Constraint {
    Min,
    Max,
    Stretch,
    Center,
    Scale,
}

impl Default for Constraint {
    fn default() -> (r: Constraint)
        ensures
            r == Constraint::Min,
    {
        Constraint::Min
    }
}

#[derive(Clone, Copy, PartialEq, Eq, Structural, Debug)]
pub struct Constraints {
    pub horizontal: Constraint,
    pub vertical: Constraint,
}

impl Default for Constraints {
    fn default() -> (r: Constraints)
        ensures
            r == (Constraints { horizontal: Constraint::Min, vertical: Constraint::Min }),
    {
        Constraints { horizontal: Constraint::Min, vertical: Constraint::Min }
    }
}

#[derive(Clone, Copy, PartialEq, Eq, Structural, Debug)]
pub enum FillKind {
    Solid,
    Linear,
    Radial,
}

impl Default for FillKind {
    fn default() -> (r: FillKind)
        ensures
            r == FillKind::Solid,
    {
        FillKind::Solid
    }
}

#[derive(Clone, Copy, PartialEq, Eq, Structural, Debug)]
pub enum EffectKind {
    DropShadow,
    Blur,
}

impl Default for EffectKind {
    fn default() -> (r: EffectKind)
        ensures
            r == EffectKind::DropShadow,
    {
        EffectKind::DropShadow
    }
}

#[derive(Clone, Copy, PartialEq, Eq, Structural, Debug)]
pub enum Align {
    Inside,
    Center,
    Outside,
}

#[derive(Clone, Copy, PartialEq, Eq, Structural, Debug)]
pub enum Join {
    Miter,
    Round,
    Bevel,
}

#[derive(Clone, Copy, PartialEq, Eq, Structural, Debug)]
pub enum Cap {
    /// No cap: the stroke ends at the end of the path.
    Butt,
    Round,
    Square,
}

/// In the order of the display list's blend numbers.
#[derive(Clone, Copy, PartialEq, Eq, Structural, Debug)]
pub enum Blend {
    Normal,
    Multiply,
    Screen,
    Overlay,
    Darken,
    Lighten,
    ColorDodge,
    ColorBurn,
    HardLight,
    SoftLight,
    Difference,
    Exclusion,
    Hue,
    Saturation,
    Color,
    Luminosity,
}

} // verus!
