use vstd::prelude::*;

verus! {

/// The resolution that a page is laid out in: a virtual one of its own, or
/// the display's.
#[derive(Clone, Copy, Debug, PartialEq, Eq, Structural)]
pub enum VirtualResolution {
    Virtual(u32, u32),
    Display,
}

#[derive(Clone, Copy, Debug, PartialEq, Eq, Structural)]
pub enum TextJustificationHorizontal {
    Left,
    Right,
    Center,
}

#[derive(Clone, Copy, Debug, PartialEq, Eq, Structural)]
pub enum TextJustificationVertical {
    Up,
    Down,
    Center,
}

#[derive(Clone, Copy, Debug, PartialEq, Eq, Structural)]
pub struct TextJustification(pub TextJustificationHorizontal, pub TextJustificationVertical);

impl TextJustification {
    pub fn center() -> (r: TextJustification)
        ensures
            r == TextJustification(TextJustificationHorizontal::Center, TextJustificationVertical::Center),
    {
        TextJustification(TextJustificationHorizontal::Center, TextJustificationVertical::Center)
    }
}

} // verus!
