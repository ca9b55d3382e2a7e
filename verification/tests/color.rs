//! Scenarios for the RGB and CMYK color encodings.
use rampeditor::color::{Cmyk, Color, Rgb};

#[test]
fn rgb_components_and_hex() {
    let mut c = Rgb::new(0x12, 0x34, 0x56);
    assert_eq!((c.red(), c.green(), c.blue()), (0x12, 0x34, 0x56));
    assert_eq!(c.octets(), [0x12, 0x34, 0x56]);
    assert_eq!(c.hex(), 0x123456);
    c.set_red(0xFF);
    c.set_green(0);
    c.set_blue(0x80);
    assert_eq!(c.hex(), 0xFF0080);
    assert_eq!(Rgb::from(0xFF0080u32), c);
    assert_eq!(Rgb::from(0xAB123456u32), Rgb::new(0x12, 0x34, 0x56));
    assert_eq!(Rgb::from([1u8, 2, 3]), Rgb::new(1, 2, 3));
    assert_eq!(Rgb::default(), Rgb::new(0, 0, 0));
}

#[test]
fn cmyk_components_and_hex() {
    let mut c = Cmyk::new(1, 2, 3, 4);
    assert_eq!((c.cyan(), c.magenta(), c.yellow(), c.key()), (1, 2, 3, 4));
    assert_eq!(c.octets(), [1, 2, 3, 4]);
    assert_eq!(c.hex(), 0x01020304);
    c.set_cyan(0xAA);
    c.set_magenta(0xBB);
    c.set_yellow(0xCC);
    c.set_key(0xDD);
    assert_eq!(c.hex(), 0xAABBCCDD);
    assert_eq!(Cmyk::from(0xAABBCCDDu32), c);
    assert_eq!(Cmyk::from([9u8, 8, 7, 6]), Cmyk::new(9, 8, 7, 6));
}

#[test]
fn color_rgb_accessors() {
    let mut c = Color::new(10, 20, 30);
    assert_eq!((c.red(), c.green(), c.blue()), (10, 20, 30));
    assert_eq!(c.rgb_octets(), [10, 20, 30]);
    assert_eq!(c.rgb_hex(), 0x0A141E);
    c.set_red(0);
    c.set_green(0xFF);
    c.set_blue(1);
    assert_eq!(c.rgb_hex(), 0x00FF01);
    assert_eq!(Color::from(Rgb::new(1, 2, 3)), Color::new(1, 2, 3));
    assert_eq!(Color::default(), Color::new(0, 0, 0));
}
