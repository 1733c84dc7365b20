//! Rectangles, colours and the states a control can be in.

use crate::ieee::Single;
use vstd::prelude::*;

verus! {

/// A rectangle in points.
#[derive(Clone, Copy, Debug, PartialEq)]
pub struct Rect {
    pub x: Single,
    pub y: Single,
    pub w: Single,
    pub h: Single,
}

impl Rect {
    /// Whether the point lies in the rectangle, its edges counted in.
    #[verifier::opaque]
    pub open spec fn spec_contains(&self, px: Single, py: Single) -> bool {
        self.x.le(px) && px.le(self.x.plus(self.w)) && self.y.le(py) && py.le(self.y.plus(self.h))
    }

    /// Whether the point lies in the rectangle, its edges counted in.
    #[verifier::when_used_as_spec(spec_contains)]
    pub fn contains(&self, px: Single, py: Single) -> (r: bool)
        ensures
            r == self.spec_contains(px, py),
    {
        proof {
            reveal(Rect::spec_contains);
        }
        self.x.le(px) && px.le(self.x.plus(self.w)) && self.y.le(py) && py.le(self.y.plus(self.h))
    }
}

/// A colour with its alpha.
#[derive(Clone, Copy, Debug, PartialEq)]
pub struct Color {
    pub r: Single,
    pub g: Single,
    pub b: Single,
    pub a: Single,
}

/// What a button says about itself beyond hover.
#[derive(Clone, Copy, Debug, PartialEq, Eq, Structural)]
pub enum BtnState {
    Normal,
    /// The action is unavailable right now.
    Disabled,
    /// A persistent setting, on or off.
    Toggle(bool),
}

/// Which side of a control its tooltip hangs on.
#[derive(Clone, Copy, Debug, PartialEq, Eq, Structural)]
pub enum TooltipSide {
    Above,
    Below,
}

} // verus!
