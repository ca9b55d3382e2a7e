//! Scenarios for ramps: runs of cells blending between two colors.
use rampeditor::address::Address;
use rampeditor::color::Color;
use rampeditor::expression::Expression;
use rampeditor::format::Format;
use rampeditor::operation::{InsertColor, InsertRamp, PaletteOperation};
use rampeditor::result::Error;
use rampeditor::Palette;

fn expression_at(pal: &Palette, a: Address) -> Option<Expression> {
    pal.get_data().get_cell(a).map(|c| c.get())
}

#[test]
fn insert_ramp_between_two_colors() {
    let mut pal = Palette::new("Example", Format::Default, true);
    pal.apply(InsertColor::new(Color::new(0, 0, 0))).unwrap();
    pal.apply(InsertColor::new(Color::new(150, 100, 50))).unwrap();
    let from = Address::new(0, 0, 0);
    let to = Address::new(0, 0, 1);
    pal.apply(InsertRamp::new(from, to, 5)).unwrap();
    assert_eq!(pal.len(), 7);
    for i in 0..5usize {
        let a = Address::new(0, 0, 2 + i as u8);
        assert_eq!(
            expression_at(&pal, a),
            Some(Expression::Ramp { from: from, to: to, step: i + 1, count: 5 })
        );
        // The blend is not a fixed color.
        assert_eq!(pal.color(a), None);
    }
    // The ramp cells generate colors, so the next color goes after them.
    pal.apply(InsertColor::new(Color::new(1, 2, 3))).unwrap();
    assert_eq!(pal.color(Address::new(0, 0, 7)), Some(Color::new(1, 2, 3)));
    assert_eq!(pal.len(), 8);
    // Undoing the color and the ramp leaves the two sources.
    pal.undo().unwrap();
    pal.undo().unwrap();
    assert_eq!(pal.len(), 2);
    assert_eq!(expression_at(&pal, Address::new(0, 0, 2)), None);
    pal.redo().unwrap();
    assert_eq!(pal.len(), 7);
}

#[test]
fn insert_ramp_missing_source() {
    let mut pal = Palette::new("test", Format::Default, true);
    let from = Address::new(0, 0, 0);
    let to = Address::new(0, 0, 1);
    pal.apply(InsertColor::new(Color::new(9, 9, 9)).located_at(to)).unwrap();
    assert_eq!(
        pal.apply(InsertRamp::new(from, to, 2)),
        Err(Error::InvalidAddress(from))
    );
    assert_eq!(pal.len(), 1);
    assert_eq!(pal.history_len(), (1, 0));
    // With sources made, the missing source is created empty.
    pal.apply(InsertRamp::new(from, to, 2).make_sources(true)).unwrap();
    assert_eq!(pal.len(), 4);
    assert_eq!(expression_at(&pal, from), Some(Expression::Empty));
    // The sources are skipped: the ramp starts after them.
    assert_eq!(
        expression_at(&pal, Address::new(0, 0, 2)),
        Some(Expression::Ramp { from: from, to: to, step: 1, count: 2 })
    );
    pal.undo().unwrap();
    assert_eq!(pal.len(), 1);
    assert_eq!(expression_at(&pal, from), None);
}

#[test]
fn insert_ramp_located_and_overwriting() {
    let mut pal = Palette::new("test", Format::Default, true);
    let from = Address::new(1, 0, 0);
    let to = Address::new(1, 0, 1);
    pal.apply(InsertColor::new(Color::new(0, 0, 0)).located_at(from)).unwrap();
    pal.apply(InsertColor::new(Color::new(255, 255, 255)).located_at(to)).unwrap();
    let start = Address::new(0, 0, 0);
    pal.apply(InsertColor::new(Color::new(7, 7, 7)).located_at(start)).unwrap();
    // Without overwriting, the colored cell at the start is skipped.
    pal.apply(InsertRamp::new(from, to, 2).located_at(start)).unwrap();
    assert_eq!(pal.color(start), Some(Color::new(7, 7, 7)));
    assert_eq!(
        expression_at(&pal, Address::new(0, 0, 1)),
        Some(Expression::Ramp { from: from, to: to, step: 1, count: 2 })
    );
    assert_eq!(
        expression_at(&pal, Address::new(0, 0, 2)),
        Some(Expression::Ramp { from: from, to: to, step: 2, count: 2 })
    );
    pal.undo().unwrap();
    // Overwriting, the ramp starts at the start.
    pal.apply(InsertRamp::new(from, to, 1).located_at(start).overwrite(true)).unwrap();
    assert_eq!(
        expression_at(&pal, start),
        Some(Expression::Ramp { from: from, to: to, step: 1, count: 1 })
    );
    pal.undo().unwrap();
    assert_eq!(pal.color(start), Some(Color::new(7, 7, 7)));
    assert_eq!(pal.len(), 3);
}

#[test]
fn ramp_with_empty_source_is_free() {
    let mut pal = Palette::new("test", Format::Default, true);
    let x = Address::new(1, 0, 0);
    let y = Address::new(1, 0, 1);
    pal.apply(InsertColor::new(Color::new(10, 20, 30)).located_at(x)).unwrap();
    pal.apply(InsertColor::new(Color::new(40, 50, 60)).located_at(y)).unwrap();
    let a = Address::new(0, 0, 0);
    let b = Address::new(0, 0, 1);
    let r = Address::new(0, 0, 2);
    pal.apply(InsertRamp::new(a, b, 1).make_sources(true)).unwrap();
    assert_eq!(pal.len(), 5);
    assert_eq!(
        expression_at(&pal, r),
        Some(Expression::Ramp { from: a, to: b, step: 1, count: 1 })
    );
    pal.apply(InsertColor::new(Color::new(1, 1, 1)).located_at(a)).unwrap();
    // One source is still empty: the ramp cell generates no color and is
    // free for another ramp.
    pal.apply(InsertRamp::new(x, y, 1).located_at(r)).unwrap();
    assert_eq!(
        expression_at(&pal, r),
        Some(Expression::Ramp { from: x, to: y, step: 1, count: 1 })
    );
    // A ramp cell whose sources hold colors generates one: the next ramp goes
    // after it.
    pal.apply(InsertColor::new(Color::new(2, 2, 2)).located_at(b)).unwrap();
    pal.apply(InsertRamp::new(a, b, 1).located_at(r)).unwrap();
    assert_eq!(
        expression_at(&pal, Address::new(0, 0, 3)),
        Some(Expression::Ramp { from: a, to: b, step: 1, count: 1 })
    );
}

#[test]
fn insert_ramp_info() {
    let op = InsertRamp::new(Address::new(0, 0, 0), Address::new(0, 0, 1), 3).overwrite(true);
    let info = op.info();
    assert_eq!(info.name, "Insert Ramp");
    assert_eq!(info.details, Some(format!("{:?}", op)));
    assert!(info.details.unwrap().contains("count: 3"));
}

#[test]
fn insert_ramp_details_are_debug_text() {
    let op = InsertRamp::new(Address::new(12, 0, 3), Address::new(0, 200, 1), 1000)
        .located_at(Address::new(1, 1, 1))
        .make_sources(true);
    assert_eq!(op.info().details, Some(format!("{:?}", op)));
}
