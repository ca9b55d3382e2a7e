//! Palette formats: the behaviors and restrictions a palette follows.
use vstd::prelude::*;
use crate::address::Reference;
use crate::Palette;
use crate::data::{Data, DataModel};
use crate::operation::PaletteOperation;
use crate::result::Error;

pub mod zpl;
pub mod default;

verus! {

/// A palette format.
#[derive(Debug, Clone, Copy)]
pub enum Format {
    /// The default palette format; provides no special behaviors or
    /// restrictions.
    Default,
    /// The ZPL palette format. Lines are 15 columns wide, and there are 16
    /// lines per page, for 211 pages. The names of lines and pages are
    /// auto-generated.
    Zpl,
}

impl Format {
    /// The data after the format initialized it.
    pub open spec fn spec_initialize(self, d: DataModel) -> DataModel {
        match self {
            Format::Zpl => zpl::initialized(d),
            Format::Default => d,
        }
    }

    /// The data after the format prepared a new page group.
    pub open spec fn spec_prepare_new_page(self, d: DataModel, group: Reference) -> DataModel {
        match self {
            Format::Zpl => zpl::page_prepared(d, group),
            Format::Default => d,
        }
    }

    /// The data after the format prepared a new line group.
    pub open spec fn spec_prepare_new_line(self, d: DataModel, group: Reference) -> DataModel {
        match self {
            Format::Zpl => zpl::line_prepared(d, group),
            Format::Default => d,
        }
    }

    /// Called when a new palette is created. Initializes the palette data.
    pub fn initialize(self, data: &mut Data)
        ensures
            final(data)@ == self.spec_initialize(old(data)@),
    {
        match self {
            Format::Zpl => zpl::initialize(data),
            Format::Default => (),
        }
    }

    /// Called when a new page is created.
    pub fn prepare_new_page(self, data: &mut Data, group: &Reference)
        requires
            self is Zpl ==> group.page is Index,
        ensures
            final(data)@ == self.spec_prepare_new_page(old(data)@, *group),
    {
        match self {
            Format::Zpl => zpl::prepare_new_page(data, group),
            Format::Default => (),
        }
    }

    /// Called when a new line is created.
    pub fn prepare_new_line(self, data: &mut Data, group: &Reference)
        requires
            self is Zpl ==> group.page is Index && group.line is Index,
        ensures
            final(data)@ == self.spec_prepare_new_line(old(data)@, *group),
    {
        match self {
            Format::Zpl => zpl::prepare_new_line(data, group),
            Format::Default => (),
        }
    }

    /// Applies the given operation to the palette.
    pub fn apply_operation<O: PaletteOperation>(self, palette: &mut Palette, operation: O) -> (r:
        Result<(), Error>)
        requires
            operation.applicable(old(palette).data()),
            operation.restorable(old(palette).data()),
        ensures
            Palette::applied(*old(palette), operation, *final(palette), r),
    {
        default::apply_operation(palette, operation)
    }

    /// Reverses the most recently applied operation.
    pub fn undo(self, palette: &mut Palette) -> (r: Result<(), Error>)
        requires
            old(palette).history() is Some,
        ensures
            r is Ok,
            Palette::undone(*old(palette), *final(palette)),
    {
        default::undo(palette)
    }

    /// Reverses the most recently applied undo operation.
    pub fn redo(self, palette: &mut Palette) -> (r: Result<(), Error>)
        requires
            old(palette).history() is Some,
        ensures
            r is Ok,
            Palette::redone(*old(palette), *final(palette)),
    {
        default::redo(palette)
    }
}

} // verus!
