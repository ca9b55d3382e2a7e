//! The errors of fallible palette operations.
use vstd::prelude::*;
use crate::address::Address;

verus! {

/// Errors produced by palette addressing and cell operations.
#[derive(Debug, Clone, Copy, PartialEq, Eq)]
pub enum Error {
    /// A relative reference component would leave the component's range.
    InvalidReferenceComponent,
    /// A reference component does not resolve to a single index.
    UnresolvedReferenceComponent,
    /// A cell was to be created at an address that already holds one.
    AddressInUse(Address),
    /// An operation requiring a cell was given an empty address.
    EmptyAddress(Address),
    /// No free address is left in the palette.
    MaxCellLimitExceeded,
    /// The address lies outside the palette's bounds.
    InvalidAddress(Address),
    /// A color was to be set, without overwriting, on a cell whose color is
    /// derived from other cells.
    CannotSetDerivedColor,
}

} // verus!
