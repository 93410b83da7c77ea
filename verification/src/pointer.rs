//! Which quarter of the window a click landed in.
use vstd::prelude::*;

verus! {

/// A quarter of the window, numbered 1–4 anticlockwise from the top left.
#[derive(Clone, Copy, Debug, PartialEq, Eq, Structural)]
pub enum ClickArea {
    /// 1: previous sibling folder (↑).
    TopLeft,
    /// 2: previous image (←).
    BottomLeft,
    /// 3: next image (→).
    BottomRight,
    /// 4: next sibling folder (↓).
    TopRight,
}

impl ClickArea {
    /// The quarter on the given sides of the window's centre lines: `left`
    /// when the click is left of the vertical one, `top` when it is above the
    /// horizontal one. A click on a centre line belongs to the right or bottom.
    pub fn from_sides(left: bool, top: bool) -> (area: ClickArea)
        ensures
            area == (if left {
                if top {
                    ClickArea::TopLeft
                } else {
                    ClickArea::BottomLeft
                }
            } else {
                if top {
                    ClickArea::TopRight
                } else {
                    ClickArea::BottomRight
                }
            }),
    {
        match (left, top) {
            (true, true) => ClickArea::TopLeft,
            (true, false) => ClickArea::BottomLeft,
            (false, false) => ClickArea::BottomRight,
            (false, true) => ClickArea::TopRight,
        }
    }
}

} // verus!
