//! Scenarios for palette data: cells, metadata, free addresses and targets.
use rampeditor::address::{Address, Reference};
use rampeditor::cell::Cell;
use rampeditor::color::Color;
use rampeditor::data::Data;
use rampeditor::expression::Expression;
use rampeditor::format::Format;
use rampeditor::result::Error;

fn colored(data: &mut Data, address: Address) {
    data.cells.insert(address, Cell::new(Expression::Color(Color::new(1, 2, 3))));
}

#[test]
fn data_create_and_remove_cells() {
    let mut data = Data::default();
    assert!(data.is_empty());
    let a = Address::new(1, 1, 1);
    let cell = data.create_cell(a).ok().unwrap();
    assert_eq!(cell.get(), Expression::Empty);
    assert_eq!(data.len(), 1);
    assert!(!data.is_empty());
    // A cell already there is returned as it is.
    assert_eq!(data.create_cell(a).ok().map(|c| c.get()), Some(Expression::Empty));
    assert_eq!(data.len(), 1);
    assert_eq!(data.get_cell(a).map(|c| c.get()), Some(Expression::Empty));
    assert_eq!(data.remove_cell(a), Ok(Expression::Empty));
    assert_eq!(data.remove_cell(a), Err(Error::EmptyAddress(a)));
    assert!(data.get_cell(a).is_none());
    assert_eq!(data.len(), 0);
}

#[test]
fn data_create_cell_returns_the_cell_there() {
    let mut data = Data::default();
    let a = Address::new(0, 1, 2);
    colored(&mut data, a);
    let cell = data.create_cell(a).ok().unwrap();
    assert_eq!(cell.get(), Expression::Color(Color::new(1, 2, 3)));
    assert_eq!(data.len(), 1);
}

#[test]
fn data_create_cell_out_of_bounds() {
    let mut data = Data::default();
    data.maximum_page_count = 2;
    let far = Address::new(5, 0, 0);
    assert_eq!(data.create_cell(far).err(), Some(Error::InvalidAddress(far)));
    // The default line count is 255, so line 255 lies outside every page.
    let low = Address::new(0, 255, 0);
    assert_eq!(data.create_cell(low).err(), Some(Error::InvalidAddress(low)));
    assert!(data.is_empty());
}

#[test]
fn data_labels_and_names() {
    let mut data = Data::default();
    assert_eq!(data.get_label(Reference::all()), None);
    data.set_label(Reference::all(), "My Palette");
    assert_eq!(data.get_label(Reference::all()), Some("My Palette"));
    assert_eq!(data.get_name(Reference::all()), None);
    data.set_name(Reference::all(), "My Palette");
    assert_eq!(data.get_name(Reference::all()), Some("My Palette"));
    assert_eq!(data.get_label(Reference::all()), Some("My Palette"));
}

#[test]
fn data_line_and_column_counts() {
    let mut data = Data::default();
    let a = Address::new(0, 3, 0);
    data.set_line_count(Reference::page_of(&a), 2);
    assert_eq!(data.create_cell(a).err(), Some(Error::InvalidAddress(a)));
    let b = Address::new(1, 0, 7);
    data.set_column_count(Reference::line_of(&b), 7);
    assert_eq!(data.create_cell(b).err(), Some(Error::InvalidAddress(b)));
    assert!(data.create_cell(Address::new(1, 0, 6)).is_ok());
}

#[test]
fn data_first_free_address_after() {
    let mut data = Data::default();
    let origin = Address::new(0, 0, 0);
    assert_eq!(data.first_free_address_after(origin), Ok(origin));
    colored(&mut data, origin);
    colored(&mut data, Address::new(0, 0, 1));
    assert_eq!(data.first_free_address_after(origin), Ok(Address::new(0, 0, 2)));
    // An empty cell is free.
    data.create_cell(Address::new(0, 0, 2)).ok().unwrap();
    assert_eq!(data.first_free_address_after(origin), Ok(Address::new(0, 0, 2)));
}

#[test]
fn data_first_free_address_wraps() {
    let mut data = Data::default();
    data.maximum_page_count = 1;
    data.default_line_count = 1;
    data.default_column_count = 2;
    colored(&mut data, Address::new(0, 0, 1));
    assert_eq!(data.first_free_address_after(Address::new(0, 0, 1)), Ok(Address::new(0, 0, 0)));
    colored(&mut data, Address::new(0, 0, 0));
    assert_eq!(
        data.first_free_address_after(Address::new(0, 0, 1)),
        Err(Error::MaxCellLimitExceeded)
    );
    assert_eq!(
        data.first_free_address_after(Address::new(0, 0, 2)),
        Err(Error::InvalidAddress(Address::new(0, 0, 2)))
    );
}

#[test]
fn data_first_free_address_next_line_and_page() {
    let mut data = Data::default();
    data.default_line_count = 2;
    data.default_column_count = 2;
    colored(&mut data, Address::new(0, 0, 1));
    assert_eq!(data.first_free_address_after(Address::new(0, 0, 1)), Ok(Address::new(0, 1, 0)));
    colored(&mut data, Address::new(0, 1, 0));
    colored(&mut data, Address::new(0, 1, 1));
    assert_eq!(data.first_free_address_after(Address::new(0, 1, 0)), Ok(Address::new(1, 0, 0)));
}

#[test]
fn data_find_free_targets() {
    let mut data = Data::default();
    let origin = Address::new(0, 0, 0);
    let found = data.find_targets(3, origin, false, None).ok().unwrap();
    assert_eq!(found, vec![origin, Address::new(0, 0, 1), Address::new(0, 0, 2)]);
    colored(&mut data, Address::new(0, 0, 1));
    let found = data.find_targets(3, origin, false, None).ok().unwrap();
    assert_eq!(found, vec![origin, Address::new(0, 0, 2), Address::new(0, 0, 3)]);
    let found = data.find_targets(3, origin, false, Some(vec![origin])).ok().unwrap();
    assert_eq!(
        found,
        vec![Address::new(0, 0, 2), Address::new(0, 0, 3), Address::new(0, 0, 4)]
    );
}

#[test]
fn data_find_free_targets_in_cyclic_order() {
    let mut data = Data::default();
    data.maximum_page_count = 1;
    data.default_line_count = 1;
    data.default_column_count = 5;
    colored(&mut data, Address::new(0, 0, 1));
    colored(&mut data, Address::new(0, 0, 3));
    // From column 2 on: column 2, then past the colored column 3 to column 4,
    // then around to column 0.
    let start = Address::new(0, 0, 2);
    let found = data.find_targets(3, start, false, None).ok().unwrap();
    assert_eq!(found, vec![Address::new(0, 0, 0), start, Address::new(0, 0, 4)]);
    let found = data.find_targets(2, start, false, Some(vec![Address::new(0, 0, 4)])).ok().unwrap();
    assert_eq!(found, vec![Address::new(0, 0, 0), start]);
}

#[test]
fn data_find_free_targets_on_a_shrinking_page() {
    let mut data = Data::default();
    data.maximum_page_count = 1;
    data.default_line_count = 16;
    data.default_column_count = 1;
    data.prepare_new_page = Format::Zpl;
    data.prepare_new_line = Format::Zpl;
    // Preparing the main page leaves it 14 lines, so the search after line 13
    // wraps to line 0.
    let start = Address::new(0, 13, 0);
    let found = data.find_targets(2, start, false, None).ok().unwrap();
    assert_eq!(found, vec![Address::new(0, 0, 0), start]);
}

#[test]
fn data_find_overwrite_targets() {
    let mut data = Data::default();
    colored(&mut data, Address::new(0, 0, 1));
    let origin = Address::new(0, 0, 0);
    let found = data.find_targets(3, origin, true, None).ok().unwrap();
    assert_eq!(found, vec![origin, Address::new(0, 0, 1), Address::new(0, 0, 2)]);
    let found = data.find_targets(2, origin, true, Some(vec![Address::new(0, 0, 1)])).ok().unwrap();
    assert_eq!(found, vec![origin, Address::new(0, 0, 2)]);
}

#[test]
fn data_find_targets_wraps_and_runs_out() {
    let mut data = Data::default();
    data.maximum_page_count = 1;
    data.default_line_count = 1;
    data.default_column_count = 3;
    let last = Address::new(0, 0, 2);
    let found = data.find_targets(2, last, true, None).ok().unwrap();
    assert_eq!(found, vec![Address::new(0, 0, 0), last]);
    assert_eq!(data.find_targets(4, last, true, None), Err(Error::MaxCellLimitExceeded));
    colored(&mut data, Address::new(0, 0, 0));
    colored(&mut data, Address::new(0, 0, 1));
    colored(&mut data, last);
    assert_eq!(data.find_targets(1, last, false, None), Err(Error::MaxCellLimitExceeded));
    let outside = Address::new(1, 0, 0);
    assert_eq!(data.find_targets(1, outside, true, None), Err(Error::InvalidAddress(outside)));
}

#[test]
fn data_find_more_targets_than_the_palette_has() {
    let mut data = Data::default();
    data.maximum_page_count = 1;
    data.default_line_count = 1;
    data.default_column_count = 1;
    let origin = Address::new(0, 0, 0);
    assert_eq!(data.find_targets(2, origin, true, None), Err(Error::MaxCellLimitExceeded));
    assert_eq!(data.find_targets(2, origin, false, None), Err(Error::MaxCellLimitExceeded));
    // Every address excluded: no target can be found, in either mode.
    assert_eq!(data.find_targets(1, origin, true, Some(vec![origin])), Err(Error::MaxCellLimitExceeded));
    assert_eq!(data.find_targets(1, origin, false, Some(vec![origin])), Err(Error::MaxCellLimitExceeded));
    assert_eq!(data.find_targets(1, origin, false, None), Ok(vec![origin]));
}

#[test]
fn data_find_no_targets() {
    let mut data = Data::default();
    let origin = Address::new(0, 0, 0);
    assert_eq!(data.find_targets(0, origin, true, None), Ok(vec![]));
    assert_eq!(data.find_targets(0, origin, false, None), Ok(vec![]));
}

#[test]
fn zpl_initialize() {
    let mut data = Data::default();
    Format::Zpl.initialize(&mut data);
    assert_eq!(data.maximum_page_count, 211);
    assert_eq!(data.default_line_count, 16);
    assert_eq!(data.default_column_count, 15);
    assert_eq!(data.get_label(Reference::all()), Some("ZplPalette 1.0.0"));
}

#[test]
fn zpl_main_page() {
    let mut data = Data::default();
    Format::Zpl.initialize(&mut data);
    let a = Address::new(0, 3, 0);
    assert!(data.create_cell(a).is_ok());
    assert_eq!(data.get_name(Reference::page_of(&a)), Some("Main"));
    assert_eq!(data.get_label(Reference::page_of(&a)), Some("Level 0"));
    assert_eq!(data.get_label(Reference::line_of(&a)), Some("Main CSET 3"));
    // The main page has 14 lines.
    let b = Address::new(0, 14, 0);
    assert_eq!(data.create_cell(b).err(), Some(Error::InvalidAddress(b)));
}

#[test]
fn zpl_level_and_sprite_pages() {
    let mut data = Data::default();
    Format::Zpl.initialize(&mut data);
    let a = Address::new(5, 4, 0);
    assert!(data.create_cell(a).is_ok());
    assert_eq!(data.get_label(Reference::page_of(&a)), Some("Level 5"));
    assert_eq!(data.get_name(Reference::page_of(&a)), None);
    assert_eq!(data.get_label(Reference::line_of(&a)), Some("CSET 4 (2)"));
    let b = Address::new(5, 13, 0);
    assert!(data.create_cell(b).is_ok());
    assert_eq!(data.get_label(Reference::line_of(&b)), Some("CSET 13 (9)"));
    let c = Address::new(513, 3, 14);
    // Sprite pages lie beyond the 211 pages of a ZPL palette; their labels
    // are still those the format gives.
    Format::Zpl.prepare_new_page(&mut data, &Reference::page_of(&c));
    Format::Zpl.prepare_new_line(&mut data, &Reference::line_of(&c));
    assert_eq!(data.get_label(Reference::page_of(&c)), Some("Sprite Page 513"));
    assert_eq!(data.get_label(Reference::line_of(&c)), Some("Sprite CSET 4"));
    assert_eq!(data.create_cell(c).err(), Some(Error::InvalidAddress(c)));
    let d = Address::new(211, 0, 0);
    assert_eq!(data.create_cell(d).err(), Some(Error::InvalidAddress(d)));
    let e = Address::new(5, 0, 15);
    assert_eq!(data.create_cell(e).err(), Some(Error::InvalidAddress(e)));
}

#[test]
fn zpl_level_labels() {
    let mut data = Data::default();
    Format::Zpl.initialize(&mut data);
    let expected = [
        "CSET 0 (2)", "CSET 1 (3)", "CSET 2 (4)", "CSET 3 (9)", "CSET 4 (2)", "CSET 5 (3)",
        "CSET 6 (4)", "CSET 7 (2)", "CSET 8 (3)", "CSET 9 (4)", "CSET 10 (2)", "CSET 11 (3)",
        "CSET 12 (4)", "CSET 13 (9)", "CSET 14 (9)", "CSET 15 (9)",
    ];
    for (line, label) in expected.iter().enumerate() {
        let a = Address::new(100, line as u8, 0);
        assert!(data.create_cell(a).is_ok());
        assert_eq!(data.get_label(Reference::line_of(&a)), Some(*label));
    }
}

#[test]
fn data_text() {
    let mut data = Data::default();
    data.set_name(Reference::all(), "Pal");
    data.set_label(Reference::all(), "Lab");
    let c = Cell::new(Expression::Color(Color::new(1, 2, 255)));
    data.cells.insert(Address::new(0, 0, 1), c);
    data.cells.insert(Address::new(0, 1, 0), c);
    data.cells.insert(Address::new(2, 0, 0), c);
    data.create_cell(Address::new(2, 0, 3)).ok().unwrap();
    let expected = "\"Pal\" (Lab) [Lines: 0] [Columns: 0] [65535 pages] [4 expressions] [default wrap 255:255]\n\
Page 0/*/*\n\
\tAddress   Color\n\
\t00:00:01  ##0102FF\n\
\tAddress   Color\n\
\t00:01:00  ##0102FF\n\
Page 2/*/* -  [Lines: 255] [Columns: 0]\n\
\t [Lines: 0] [Columns: 255]\n\
\tAddress   Color\n\
\t02:00:00  ##0102FF\n\
\t02:00:03  ##000000\n";
    assert_eq!(data.to_text(), expected);
}
