//! `Cell`: a location in a palette that resolves to a single color.
use vstd::prelude::*;
use crate::color::Color;
use crate::expression::Expression;

verus! {

/// A wrapper around an `Expression`.
#[derive(Debug, Clone, Copy)]
pub struct Cell {
    /// The `Expression` being wrapped.
    expr: Expression,
}

impl Cell {
    /// The expression held by the cell.
    pub closed spec fn expression(self) -> Expression {
        self.expr
    }

    /// Creates a new `Cell` wrapping the given `Expression`.
    pub fn new(element: Expression) -> (r: Self)
        ensures
            r.expression() == element,
    {
        Cell { expr: element }
    }

    /// Returns the `Color` of the internal `Expression`, or `None` if it has
    /// none.
    pub fn color(&self) -> (r: Option<Color>)
        ensures
            r == self.expression().spec_color(),
    {
        self.expr.color()
    }

    /// Returns the internal `Expression`.
    pub fn get(&self) -> (r: Expression)
        ensures
            r == self.expression(),
    {
        self.expr
    }

    /// Replaces the internal `Expression`, returning the old one.
    pub fn replace(&mut self, element: Expression) -> (r: Expression)
        ensures
            r == old(self).expression(),
            final(self).expression() == element,
    {
        let old_expr = self.expr;
        self.expr = element;
        old_expr
    }
}

} // verus!
