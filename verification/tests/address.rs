//! Scenarios for addresses, references and selections.
use rampeditor::address::{
    Address, DirectReferenceComponent, Reference, ReferenceComponent, Selection,
};
use rampeditor::interval::Interval;
use rampeditor::result::Error;

#[test]
fn address_wrapping_step_examples() {
    let a = Address::new(0, 9, 9);
    let b = a.wrapping_step(1, 10, 10, 10);
    assert_eq!(b, Address::new(1, 0, 0));
    let c = Address::new(0, 0, 0).wrapping_step(200, 5, 5, 5);
    assert_eq!(c, Address::new(3, 0, 0));
}

#[test]
fn address_wrapping_step_wraps_pages() {
    let a = Address::new(2, 4, 4);
    assert_eq!(a.wrapping_step(1, 3, 5, 5), Address::new(0, 0, 0));
    assert_eq!(a.wrapping_step(0, 3, 5, 5), a);
    assert_eq!(Address::new(0, 0, 3).wrapping_step(7, 2, 2, 4), Address::new(1, 0, 2));
}

#[test]
fn address_order() {
    assert!(Address::new(0, 1, 0) < Address::new(1, 0, 0));
    assert!(Address::new(1, 0, 5) < Address::new(1, 1, 0));
    assert!(Address::new(1, 1, 0) < Address::new(1, 1, 1));
    assert_eq!(Address::default(), Address::new(0, 0, 0));
}

#[test]
fn reference_components() {
    let a = Address::new(3, 4, 5);
    let all = Reference::all();
    assert_eq!(all.page(), Err(Error::UnresolvedReferenceComponent));
    let page = Reference::page_of(&a);
    assert_eq!(page.page(), Ok(3));
    assert_eq!(page.line(), Err(Error::UnresolvedReferenceComponent));
    let line = Reference::line_of(&a);
    assert_eq!(line.page(), Ok(3));
    assert_eq!(line.line(), Ok(4));
    assert_eq!(line.column(), Err(Error::UnresolvedReferenceComponent));
    assert!(page.same_as(&Reference::page_of(&Address::new(3, 0, 0))));
    assert!(!page.same_as(&line));
}

#[test]
fn reference_resolve_index_indirection() {
    let mut c: ReferenceComponent<u8, i16> = ReferenceComponent::Index(4);
    assert_eq!(c.resolve_index_indirection(10), Ok(()));
    assert_eq!(c, ReferenceComponent::Index(4));
    let mut any: ReferenceComponent<u8, i16> =
        ReferenceComponent::Indirect(DirectReferenceComponent::Any, 3);
    assert_eq!(any.resolve_index_indirection(250), Ok(()));
    assert_eq!(any, ReferenceComponent::Index(253));
    let mut below: ReferenceComponent<u8, i16> =
        ReferenceComponent::Indirect(DirectReferenceComponent::Index(2), -5);
    assert_eq!(below.resolve_index_indirection(0), Err(Error::InvalidReferenceComponent));
    assert_eq!(below, ReferenceComponent::Indirect(DirectReferenceComponent::Index(2), -5));
    let mut above: ReferenceComponent<u16, i32> =
        ReferenceComponent::Indirect(DirectReferenceComponent::Any, 3);
    assert_eq!(above.resolve_index_indirection(65534), Err(Error::InvalidReferenceComponent));
    let mut back: ReferenceComponent<u16, i32> =
        ReferenceComponent::Indirect(DirectReferenceComponent::Index(9), -9);
    assert_eq!(back.resolve_index_indirection(1), Ok(()));
    assert_eq!(back, ReferenceComponent::Index(0));
}

#[test]
fn selection_union_and_contains() {
    let mut s = Selection::new(vec![Interval::closed(Address::new(0, 0, 0), Address::new(0, 0, 5))]);
    assert!(s.contains(&Address::new(0, 0, 3)));
    assert!(!s.contains(&Address::new(0, 1, 0)));
    s.union(Interval::closed(Address::new(1, 0, 0), Address::new(1, 2, 0)));
    assert!(s.contains(&Address::new(1, 1, 200)));
    assert!(!s.contains(&Address::new(1, 2, 1)));
    let empty = Selection::new(vec![Interval::open(Address::new(0, 0, 0), Address::new(0, 0, 0))]);
    assert!(!empty.contains(&Address::new(0, 0, 0)));
}

#[test]
fn reference_conversions() {
    let a = Address::new(7, 8, 9);
    let r = Reference::from(a);
    assert_eq!(r.page(), Ok(7));
    assert_eq!(r.line(), Ok(8));
    assert_eq!(r.column(), Ok(9));
    assert!(Reference::default().same_as(&Reference::all()));
    let c: ReferenceComponent<u8, i16> = ReferenceComponent::from(DirectReferenceComponent::Index(3));
    assert_eq!(c, ReferenceComponent::Index(3));
    let d = DirectReferenceComponent::from_component(ReferenceComponent::<u8, i16>::Named("x".to_string()));
    assert_eq!(d, DirectReferenceComponent::Named("x".to_string()));
}

#[test]
fn address_into_selection() {
    let a = Address::new(1, 2, 3);
    let s = a.into_selection();
    assert!(s.contains(&a));
    assert!(!s.contains(&Address::new(1, 2, 4)));
    assert!(!s.contains(&Address::new(1, 2, 2)));
}

#[test]
fn address_wrapping_step_wraps_the_whole_page_count() {
    // One step from page 65535 reaches page 65536, which is page 1 of 3.
    let a = Address::new(65535, 0, 0);
    assert_eq!(a.wrapping_step(1, 3, 1, 1), Address::new(1, 0, 0));
}

#[test]
fn address_wrapping_step_moves_linearly() {
    // The linear index of the stepped address is the index plus the step,
    // modulo the number of addresses.
    let (pages, lines, columns) = (3u16, 4u8, 5u8);
    let size = pages as usize * lines as usize * columns as usize;
    let index = |a: Address| {
        a.page as usize * lines as usize * columns as usize
            + a.line as usize * columns as usize
            + a.column as usize
    };
    let a = Address::new(2, 1, 3);
    for n in [0usize, 1, 7, 41, 59, 60, 61, 1000] {
        let b = a.wrapping_step(n, pages, lines, columns);
        assert_eq!(index(b), (index(a) + n) % size);
    }
}
