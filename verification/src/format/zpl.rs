//! The ZPL palette format.
use vstd::prelude::*;
use crate::address::{Reference, ReferenceComponent, Page, Line, Column, spec_all};
use crate::data::{Data, DataModel};
use crate::format::Format;
use crate::text::{decimal, with_number};

verus! {

/// The number of pages of a ZPL palette.
pub const ZPL_PAGE_LIMIT: Page = 211u16;
/// The number of lines of a ZPL page.
pub const ZPL_DEFAULT_LINE_LIMIT: Line = 16u8;
/// The number of columns of a ZPL line.
pub const ZPL_DEFAULT_COLUMN_LIMIT: Column = 15u8;
/// The last page of the main section.
pub const MAIN_PAGE_LIMIT: Page = 0u16;
/// The last page of the level section.
pub const LEVEL_PAGE_LIMIT: Page = 512u16;
/// The last page of the sprite section.
pub const SPRITE_PAGE_LIMIT: Page = 515u16;

/// The index of a reference component, or 0 if it has none.
pub open spec fn index_or_zero<T, O>(c: ReferenceComponent<T, O>, zero: T) -> T {
    match c {
        ReferenceComponent::Index(i) => i,
        _ => zero,
    }
}

/// The label of a page.
pub open spec fn page_label(page: Page) -> Seq<char> {
    if page <= MAIN_PAGE_LIMIT {
        "Level 0"@
    } else if page <= LEVEL_PAGE_LIMIT {
        "Level "@ + decimal(page as nat)
    } else {
        "Sprite Page "@ + decimal(page as nat)
    }
}

/// The color set depth marker of a level line.
pub open spec fn level_suffix(line: Line) -> Seq<char> {
    if line == 0 || line == 4 || line == 7 || line == 10 {
        " (2)"@
    } else if line == 1 || line == 5 || line == 8 || line == 11 {
        " (3)"@
    } else if line == 2 || line == 6 || line == 9 || line == 12 {
        " (4)"@
    } else {
        " (9)"@
    }
}

/// The label of a line.
pub open spec fn line_label(page: Page, line: Line) -> Seq<char> {
    if page <= MAIN_PAGE_LIMIT {
        "Main CSET "@ + decimal(line as nat)
    } else if page <= LEVEL_PAGE_LIMIT {
        "CSET "@ + decimal(line as nat) + level_suffix(line)
    } else {
        "Sprite CSET "@ + decimal((page - LEVEL_PAGE_LIMIT + line) as nat)
    }
}

/// The data after a ZPL initialization.
pub open spec fn initialized(d: DataModel) -> DataModel {
    DataModel {
        maximum_page_count: ZPL_PAGE_LIMIT,
        default_line_count: ZPL_DEFAULT_LINE_LIMIT,
        default_column_count: ZPL_DEFAULT_COLUMN_LIMIT,
        page_hook: Format::Zpl,
        line_hook: Format::Zpl,
        ..d.with_label(spec_all()@, "ZplPalette 1.0.0"@)
    }
}

/// The data after a ZPL page group was prepared.
pub open spec fn page_prepared(d: DataModel, group: Reference) -> DataModel {
    let page = index_or_zero(group.page, 0u16);
    if page <= MAIN_PAGE_LIMIT {
        d.with_name(group@, "Main"@).with_label(group@, "Level 0"@).with_line_count(group@, 14)
    } else {
        d.with_label(group@, page_label(page))
    }
}

/// The data after a ZPL line group was prepared.
pub open spec fn line_prepared(d: DataModel, group: Reference) -> DataModel {
    d.with_label(
        group@,
        line_label(index_or_zero(group.page, 0u16), index_or_zero(group.line, 0u8)),
    )
}

/// Returns the label of a level line.
fn get_level_label(line: Line) -> (r: String)
    ensures
        r@ == "CSET "@ + decimal(line as nat) + level_suffix(line),
{
    let mut s = with_number("CSET ", line as u64);
    if line == 0 || line == 4 || line == 7 || line == 10 {
        s.append(" (2)");
    } else if line == 1 || line == 5 || line == 8 || line == 11 {
        s.append(" (3)");
    } else if line == 2 || line == 6 || line == 9 || line == 12 {
        s.append(" (4)");
    } else {
        s.append(" (9)");
    }
    s
}

/// Initializes palette data for the ZPL format.
pub fn initialize(data: &mut Data)
    ensures
        final(data)@ == initialized(old(data)@),
{
    data.set_label(Reference::all(), "ZplPalette 1.0.0");
    data.maximum_page_count = ZPL_PAGE_LIMIT;
    data.default_line_count = ZPL_DEFAULT_LINE_LIMIT;
    data.default_column_count = ZPL_DEFAULT_COLUMN_LIMIT;
    data.prepare_new_page = Format::Zpl;
    data.prepare_new_line = Format::Zpl;
}

/// Names and labels a new page group; the main page gets 14 lines.
pub fn prepare_new_page(data: &mut Data, group: &Reference)
    requires
        group.page is Index,
    ensures
        final(data)@ == page_prepared(old(data)@, *group),
{
    let page = match group.page() {
        Ok(p) => p,
        Err(_) => 0,
    };
    if page <= MAIN_PAGE_LIMIT {
        data.set_name(group.duplicate(), "Main");
        data.set_label(group.duplicate(), "Level 0");
        data.set_line_count(group.duplicate(), 14);
    } else if page <= LEVEL_PAGE_LIMIT {
        let label = with_number("Level ", page as u64);
        data.set_label(group.duplicate(), label.as_str());
    } else {
        let label = with_number("Sprite Page ", page as u64);
        data.set_label(group.duplicate(), label.as_str());
    }
}

/// Labels a new line group.
pub fn prepare_new_line(data: &mut Data, group: &Reference)
    requires
        group.page is Index,
        group.line is Index,
    ensures
        final(data)@ == line_prepared(old(data)@, *group),
{
    let page = match group.page() {
        Ok(p) => p,
        Err(_) => 0,
    };
    let line = match group.line() {
        Ok(l) => l,
        Err(_) => 0,
    };
    if page <= MAIN_PAGE_LIMIT {
        let label = with_number("Main CSET ", line as u64);
        data.set_label(group.duplicate(), label.as_str());
    } else if page <= LEVEL_PAGE_LIMIT {
        let label = get_level_label(line);
        data.set_label(group.duplicate(), label.as_str());
    } else {
        let label = with_number("Sprite CSET ", page as u64 - LEVEL_PAGE_LIMIT as u64 + line as u64);
        data.set_label(group.duplicate(), label.as_str());
    }
}

} // verus!
