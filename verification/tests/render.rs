//! Scenarios for the text renderings of addresses, references and colors.
use rampeditor::address::{
    Address, DirectReferenceComponent, Reference, ReferenceComponent,
};
use rampeditor::color::{Cmyk, Color, Rgb};

#[test]
fn address_texts() {
    let a = Address::new(300, 10, 255);
    assert_eq!(a.to_text(), "300:10:255");
    assert_eq!(a.to_hex_text(true), "12C:0A:FF");
    assert_eq!(a.to_hex_text(false), "12c:0a:ff");
    assert_eq!(Address::new(0, 0, 0).to_text(), "0:0:0");
    assert_eq!(Address::new(0, 0, 0).to_hex_text(true), "00:00:00");
}

#[test]
fn color_texts() {
    let c = Rgb::new(171, 205, 9);
    assert_eq!(c.to_hex_text(true), "#ABCD09");
    assert_eq!(c.to_hex_text(false), "#abcd09");
    assert_eq!(Color::new(171, 205, 9).to_hex_text(true), "##ABCD09");
    let k = Cmyk { c: 1, m: 2, y: 254, k: 16 };
    assert_eq!(k.to_hex_text(true), "#0102FE10");
    assert_eq!(k.to_hex_text(false), "#0102fe10");
}

#[test]
fn reference_texts() {
    let r = Reference {
        page: ReferenceComponent::Index(3),
        line: ReferenceComponent::Indirect(DirectReferenceComponent::Named("top".to_string()), -2),
        column: ReferenceComponent::All,
    };
    assert_eq!(r.to_text(), "3/top-2/*");
    let r = Reference {
        page: ReferenceComponent::Indirect(DirectReferenceComponent::Any, 70000),
        line: ReferenceComponent::Any,
        column: ReferenceComponent::Indirect(DirectReferenceComponent::Index(4), 0),
    };
    assert_eq!(r.to_text(), "_+70000/_/4+0");
    let r = Reference {
        page: ReferenceComponent::Named("p".to_string()),
        line: ReferenceComponent::Index(7),
        column: ReferenceComponent::Indirect(DirectReferenceComponent::Index(9), -1),
    };
    assert_eq!(r.to_text(), "p/7/9-1");
}
