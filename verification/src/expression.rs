//! The content of a palette cell.
use vstd::prelude::*;
use crate::address::Address;
use crate::color::Color;

verus! {

/// The content of a cell, which generates the cell's color: nothing yet, a
/// fixed (zeroth-order) color, the color of another cell (first order), or a
/// blend of the colors of two other cells (second order).
#[derive(Debug, Clone, Copy, PartialEq, Eq)]
pub enum Expression {
    /// An empty cell: no color.
    Empty,
    /// A fixed color.
    Color(Color),
    /// The color of the cell at the address: a watcher.
    Watch(Address),
    /// A step of a linear ramp between the colors of two cells: the blend
    /// that lies `step / (count + 1)` of the way from `from` to `to`.
    Ramp { from: Address, to: Address, step: usize, count: usize },
}

impl Expression {
    /// The fixed color of the expression, if it is one; a watcher's color is
    /// found through the cells it refers to.
    pub open spec fn spec_color(self) -> Option<Color> {
        match self {
            Expression::Color(c) => Some(c),
            _ => None,
        }
    }

    /// The number of colors the expression depends on.
    pub open spec fn spec_order(self) -> nat {
        match self {
            Expression::Watch(_) => 1,
            Expression::Ramp { .. } => 2,
            _ => 0,
        }
    }

    /// Returns the fixed color of the expression, or `None` if it is not one.
    pub fn color(&self) -> (r: Option<Color>)
        ensures
            r == self.spec_color(),
    {
        match self {
            Expression::Color(c) => Some(*c),
            _ => None,
        }
    }

    /// Returns the number of colors the expression depends on.
    pub fn order(&self) -> (r: u8)
        ensures
            r == self.spec_order(),
    {
        match self {
            Expression::Watch(_) => 1,
            Expression::Ramp { .. } => 2,
            _ => 0,
        }
    }
}

impl Default for Expression {
    fn default() -> (r: Expression)
        ensures
            r == Expression::Empty,
    {
        Expression::Empty
    }
}

} // verus!
