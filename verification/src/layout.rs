//! The settings of Figma auto layout: direction, alignment and sizing.
use vstd::prelude::*;

verus! {

#[derive(Clone, Copy, PartialEq, Eq, Structural, Debug)]
/// `Off` is no auto layout.
pub enum Direction {
    Off,
    Horizontal,
    Vertical,
}

impl Default for Direction {
    fn default() -> (r: Direction)
        ensures
            r == Direction::Off,
    {
        Direction::Off
    }
}

#[derive(Clone, Copy, PartialEq, Eq, Structural, Debug)]
pub enum MainAlign {
    Start,
    Center,
    End,
    SpaceBetween,
}

impl Default for MainAlign {
    fn default() -> (r: MainAlign)
        ensures
            r == MainAlign::Start,
    {
        MainAlign::Start
    }
}

#[derive(Clone, Copy, PartialEq, Eq, Structural, Debug)]
pub enum Align3 {
    Start,
    Center,
    End,
}

impl Default for Align3 {
    fn default() -> (r: Align3)
        ensures
            r == Align3::Start,
    {
        Align3::Start
    }
}

/// Hug only applies to auto layout frames and text, fill only inside auto layout
/// frames. On text, hugging both sides is Figma's auto width, hugging the height
/// auto height.
#[derive(Clone, Copy, PartialEq, Eq, Structural, Debug)]
pub enum Size {
    Fixed,
    Hug,
    Fill,
}

impl Default for Size {
    fn default() -> (r: Size)
        ensures
            r == Size::Fixed,
    {
        Size::Fixed
    }
}

#[derive(Clone, Copy, PartialEq, Eq, Structural, Debug)]
pub struct Sizing {
    pub horizontal: Size,
    pub vertical: Size,
}

impl Default for Sizing {
    fn default() -> (r: Sizing)
        ensures
            r == (Sizing { horizontal: Size::Fixed, vertical: Size::Fixed }),
    {
        Sizing { horizontal: Size::Fixed, vertical: Size::Fixed }
    }
}

impl Sizing {
    /// The sizing along the horizontal axis, or else the vertical one.
    pub fn size(&self, horizontal: bool) -> (r: Size)
        ensures
            r == if horizontal {
                self.horizontal
            } else {
                self.vertical
            },
    {
        if horizontal {
            self.horizontal
        } else {
            self.vertical
        }
    }
}

} // verus!
