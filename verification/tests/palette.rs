//! Scenarios for palettes: applying, undoing and redoing operations.
use rampeditor::address::{Address, Reference};
use rampeditor::format::Format;
use rampeditor::expression::Expression;
use rampeditor::operation::{
    DeleteCell, InsertCell, InsertColor, InsertWatcher, OperationInfo, PaletteOperation, Undo,
};
use rampeditor::color::Color;
use rampeditor::result::Error;
use rampeditor::Palette;

#[test]
fn palette_insert_undo_redo() {
    let mut pal = Palette::new("test", Format::Default, true);
    assert!(pal.is_empty());
    assert!(pal.history_is_empty());
    pal.apply(InsertCell::new()).unwrap();
    assert_eq!(pal.len(), 1);
    assert_eq!(pal.history_len(), (1, 0));
    assert_eq!(pal.color(Address::new(0, 0, 0)), None);
    pal.undo().unwrap();
    assert_eq!(pal.len(), 0);
    assert_eq!(pal.history_len(), (0, 1));
    pal.redo().unwrap();
    assert_eq!(pal.len(), 1);
    assert_eq!(pal.history_len(), (1, 0));
    assert!(!pal.history_is_empty());
}

#[test]
fn palette_undo_and_redo_without_entries() {
    let mut pal = Palette::new("test", Format::Default, true);
    pal.undo().unwrap();
    pal.redo().unwrap();
    assert_eq!(pal.history_len(), (0, 0));
    assert!(pal.is_empty());
}

#[test]
fn palette_insert_located_and_delete() {
    let mut pal = Palette::new("test", Format::Default, true);
    let a = Address::new(5, 5, 5);
    pal.apply(InsertCell::new().located_at(a)).unwrap();
    assert_eq!(pal.len(), 1);
    pal.apply(DeleteCell::new(a)).unwrap();
    assert_eq!(pal.len(), 0);
    assert_eq!(pal.history_len(), (2, 0));
    assert_eq!(pal.apply(DeleteCell::new(a)), Err(Error::EmptyAddress(a)));
    assert_eq!(pal.history_len(), (2, 0));
    // Undoing the deletion brings the cell back.
    pal.undo().unwrap();
    assert_eq!(pal.len(), 1);
    assert_eq!(pal.history_len(), (1, 1));
    // A new operation clears the redos.
    pal.apply(InsertCell::new().located_at(Address::new(0, 0, 1))).unwrap();
    assert_eq!(pal.history_len(), (2, 0));
    assert_eq!(pal.len(), 2);
}

#[test]
fn palette_insert_reuses_empty_cell() {
    // An empty cell holds no color, so it is free for the next insertion.
    let mut pal = Palette::new("test", Format::Default, true);
    pal.apply(InsertCell::new()).unwrap();
    pal.apply(InsertCell::new()).unwrap();
    assert_eq!(pal.len(), 1);
    assert_eq!(pal.history_len(), (2, 0));
    pal.undo().unwrap();
    assert_eq!(pal.len(), 1);
    pal.undo().unwrap();
    assert_eq!(pal.len(), 0);
}

#[test]
fn palette_insert_out_of_bounds() {
    let mut pal = Palette::new("zpl", Format::Zpl, true);
    let a = Address::new(0, 15, 0);
    assert_eq!(
        pal.apply(InsertCell::new().located_at(a)),
        Err(Error::InvalidAddress(a))
    );
    assert!(pal.is_empty());
    assert_eq!(pal.history_len(), (0, 0));
    let c = Address::new(0, 13, 15);
    assert_eq!(pal.apply(InsertCell::new().located_at(c)), Err(Error::InvalidAddress(c)));
    pal.apply(InsertCell::new().located_at(Address::new(0, 13, 14))).unwrap();
    assert_eq!(pal.len(), 1);
}

#[test]
fn palette_overwrite_insert() {
    let mut pal = Palette::new("test", Format::Default, true);
    let a = Address::new(0, 0, 0);
    pal.apply(InsertCell::new().located_at(a)).unwrap();
    pal.apply(InsertCell::new().located_at(a).overwrite(true)).unwrap();
    assert_eq!(pal.len(), 1);
    pal.undo().unwrap();
    assert_eq!(pal.len(), 1);
    pal.undo().unwrap();
    assert_eq!(pal.len(), 0);
}

#[test]
fn palette_without_history() {
    let mut pal = Palette::new("test", Format::Default, false);
    pal.apply(InsertCell::new()).unwrap();
    assert_eq!(pal.len(), 1);
    assert_eq!(pal.history_len(), (0, 0));
    assert!(!pal.history_is_empty());
    let pal = Palette::default();
    assert!(pal.is_empty());
    assert!(!pal.history_is_empty());
}

#[test]
fn operation_infos() {
    let insert = InsertCell::new().located_at(Address::new(1, 2, 3)).overwrite(true);
    let info = insert.info();
    assert_eq!(info.name, "Insert Cell");
    assert_eq!(info.details, Some(format!("{:?}", insert)));
    assert!(info.details.unwrap().contains("overwrite: true"));
    let delete = DeleteCell::new(Address::new(4, 5, 6));
    let info = delete.info();
    assert_eq!(info.name, "Remove Cell");
    assert_eq!(info.details, Some(format!("{:?}", delete)));
}

#[test]
fn palette_zpl_labels_on_insert() {
    let mut pal = Palette::new("zpl", Format::Zpl, false);
    pal.apply(InsertCell::new().located_at(Address::new(3, 1, 0))).unwrap();
    let data = pal.get_data();
    assert_eq!(data.get_name(Reference::all()), Some("zpl"));
    assert_eq!(data.get_label(Reference::all()), Some("ZplPalette 1.0.0"));
    assert_eq!(data.get_label(Reference::page_of(&Address::new(3, 1, 0))), Some("Level 3"));
    assert_eq!(data.get_label(Reference::line_of(&Address::new(3, 1, 0))), Some("CSET 1 (3)"));
    assert!(matches!(pal.get_format(), Format::Zpl));
}

#[test]
fn history_entries_name_the_operation() {
    let mut data = rampeditor::data::Data::default();
    let mut insert = InsertCell::new();
    let entry = insert.apply(&mut data).ok().unwrap();
    assert_eq!(entry.info.name, "Insert Cell");
    let mut undo = entry.undo;
    assert_eq!(undo.info().name, "Insert Cell");
    // Undoing makes a redo entry that names the undone operation.
    let redo = undo.apply(&mut data).ok().unwrap();
    assert_eq!(redo.info.name, "Insert Cell");
    assert_eq!(redo.info.details, Some(format!("{:?}", insert)));
    assert_eq!(redo.undo.info().name, "Insert Cell");
    assert!(data.is_empty());
}

#[test]
fn palette_insert_color() {
    let mut pal = Palette::new("Example", Format::Default, true);
    pal.apply(InsertColor::new(Color::new(12, 50, 78))).unwrap();
    assert_eq!(pal.color(Address::new(0, 0, 0)), Some(Color::new(12, 50, 78)));
    pal.apply(InsertColor::new(Color::new(1, 2, 3))).unwrap();
    assert_eq!(pal.color(Address::new(0, 0, 1)), Some(Color::new(1, 2, 3)));
    // Overwriting replaces the color at the location.
    pal.apply(InsertColor::new(Color::new(9, 9, 9)).located_at(Address::new(0, 0, 0)).overwrite(true)).unwrap();
    assert_eq!(pal.color(Address::new(0, 0, 0)), Some(Color::new(9, 9, 9)));
    assert_eq!(pal.len(), 2);
    pal.undo().unwrap();
    assert_eq!(pal.color(Address::new(0, 0, 0)), Some(Color::new(12, 50, 78)));
    let info = InsertColor::new(Color::new(4, 5, 6)).info();
    assert_eq!(info.name, "Insert Color");
}

#[test]
fn palette_insert_watcher() {
    let mut pal = Palette::new("Example", Format::Default, true);
    let a = Address::new(0, 0, 0);
    let b = Address::new(0, 0, 1);
    pal.apply(InsertColor::new(Color::new(12, 50, 78))).unwrap();
    pal.apply(InsertWatcher::new(a)).unwrap();
    assert_eq!(pal.color(b), Some(Color::new(12, 50, 78)));
    assert_eq!(pal.color(a), pal.color(b));
    // Changing the watched color changes the watcher's.
    pal.apply(InsertColor::new(Color::new(1, 2, 3)).located_at(a).overwrite(true)).unwrap();
    assert_eq!(pal.color(b), Some(Color::new(1, 2, 3)));
    // Undoing the watcher removes it.
    pal.undo().unwrap();
    pal.undo().unwrap();
    assert_eq!(pal.color(b), None);
    assert_eq!(pal.len(), 1);
    assert_eq!(InsertWatcher::new(a).info().name, "Insert Watcher");
}

#[test]
fn palette_watcher_sources() {
    let mut pal = Palette::new("Example", Format::Default, true);
    let missing = Address::new(3, 0, 0);
    assert_eq!(pal.apply(InsertWatcher::new(missing)), Err(Error::InvalidAddress(missing)));
    assert!(pal.is_empty());
    pal.apply(InsertWatcher::new(missing).make_sources(true)).unwrap();
    assert_eq!(pal.len(), 2);
    assert_eq!(pal.color(Address::new(0, 0, 0)), None);
    // The watcher has no color, but a color cannot be set on it without
    // overwriting.
    let set = InsertColor::new(Color::new(1, 1, 1)).located_at(Address::new(0, 0, 0));
    assert_eq!(pal.apply(set), Err(Error::CannotSetDerivedColor));
    pal.apply(set.overwrite(true)).unwrap();
    assert_eq!(pal.color(Address::new(0, 0, 0)), Some(Color::new(1, 1, 1)));
    pal.undo().unwrap();
    pal.undo().unwrap();
    assert!(pal.is_empty());
}

#[test]
fn palette_watcher_loop_has_no_color() {
    let mut pal = Palette::new("Example", Format::Default, false);
    let a = Address::new(0, 0, 0);
    let b = Address::new(0, 0, 1);
    pal.apply(InsertColor::new(Color::new(5, 5, 5))).unwrap();
    pal.apply(InsertWatcher::new(a)).unwrap();
    assert_eq!(pal.color(b), Some(Color::new(5, 5, 5)));
    // Make `a` watch `b`, which watches `a`.
    pal.apply(InsertWatcher::new(b).located_at(a).overwrite(true)).unwrap();
    assert_eq!(pal.color(a), None);
    assert_eq!(pal.color(b), None);
}

#[test]
fn palette_apply_built_undo_at_unprepared_address() {
    // An undo built by hand may restore an expression at an address whose
    // page and line were never prepared: the address is prepared first.
    let mut pal = Palette::new("test", Format::Default, true);
    let a = Address::new(7, 3, 2);
    let mut undo = Undo::new_for(OperationInfo { name: "Restore", details: None });
    undo.record(a, Some(Expression::Color(Color::new(4, 5, 6))));
    pal.apply(undo).unwrap();
    assert_eq!(pal.color(a), Some(Color::new(4, 5, 6)));
    assert_eq!(pal.len(), 1);
    assert_eq!(pal.history_len(), (1, 0));
    // Undoing removes the restored cell again.
    pal.undo().unwrap();
    assert_eq!(pal.len(), 0);
}

#[test]
fn operation_details_are_debug_texts() {
    let color = InsertColor::new(Color::new(1, 22, 255))
        .located_at(Address::new(300, 4, 5))
        .overwrite(true);
    assert_eq!(color.info().details, Some(format!("{:?}", color)));
    let color = InsertColor::new(Color::new(0, 0, 0));
    assert_eq!(color.info().details, Some(format!("{:?}", color)));
    let watcher = InsertWatcher::new(Address::new(9, 8, 7))
        .located_at(Address::new(0, 1, 2))
        .make_sources(true);
    assert_eq!(watcher.info().details, Some(format!("{:?}", watcher)));
    let cell = InsertCell::new().located_at(Address::new(65535, 255, 255));
    assert_eq!(cell.info().details, Some(format!("{:?}", cell)));
}
