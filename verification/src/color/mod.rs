//! The color spaces that the palette is compatible with.
use vstd::prelude::*;
use vstd::std_specs::convert::FromSpecImpl;

pub mod cmyk;
pub mod rgb;

pub use self::cmyk::Cmyk;
pub use self::rgb::Rgb;

verus! {

////////////////////////////////////////////////////////////////////////////////
// Color
////////////////////////////////////////////////////////////////////////////////
/// An RGB encoded color with extension methods.
#[derive(Debug, PartialOrd, PartialEq, Eq, Hash, Ord, Clone, Copy, Structural)]
pub struct Color {
    /// The base RGB format of the color.
    pub rgb: Rgb,
}

impl Color {
    /// Creates a new Color from RGB components.
    pub fn new(red: u8, green: u8, blue: u8) -> (res: Self)
        ensures
            res == (Color { rgb: Rgb { r: red, g: green, b: blue } }),
    {
        Color { rgb: Rgb { r: red, g: green, b: blue } }
    }

    /// Returns the red component.
    pub fn red(&self) -> (res: u8)
        ensures
            res == self.rgb.r,
    {
        self.rgb.r
    }

    /// Returns the green component.
    pub fn green(&self) -> (res: u8)
        ensures
            res == self.rgb.g,
    {
        self.rgb.g
    }

    /// Returns the blue component.
    pub fn blue(&self) -> (res: u8)
        ensures
            res == self.rgb.b,
    {
        self.rgb.b
    }

    /// Sets the red component.
    pub fn set_red(&mut self, value: u8)
        ensures
            final(self).rgb == (Rgb { r: value, ..old(self).rgb }),
    {
        self.rgb.r = value;
    }

    /// Sets the green component.
    pub fn set_green(&mut self, value: u8)
        ensures
            final(self).rgb == (Rgb { g: value, ..old(self).rgb }),
    {
        self.rgb.g = value;
    }

    /// Sets the blue component.
    pub fn set_blue(&mut self, value: u8)
        ensures
            final(self).rgb == (Rgb { b: value, ..old(self).rgb }),
    {
        self.rgb.b = value;
    }

    /// Returns an array containing the [R, G, B] component octets.
    pub fn rgb_octets(&self) -> (res: [u8; 3])
        ensures
            res@ == seq![self.rgb.r, self.rgb.g, self.rgb.b],
    {
        self.rgb.octets()
    }

    /// Returns the RGB hex code.
    pub fn rgb_hex(&self) -> (res: u32)
        ensures
            res == rgb::spec_rgb_hex(self.rgb),
    {
        self.rgb.hex()
    }
}

impl Default for Color {
    fn default() -> (res: Color)
        ensures
            res == (Color { rgb: Rgb { r: 0, g: 0, b: 0 } }),
    {
        Color { rgb: Rgb::default() }
    }
}

impl From<Rgb> for Color {
    fn from(rgb: Rgb) -> (res: Color) {
        Color { rgb: rgb }
    }
}

impl FromSpecImpl<Rgb> for Color {
    open spec fn obeys_from_spec() -> bool {
        true
    }

    open spec fn from_spec(rgb: Rgb) -> Color {
        Color { rgb }
    }
}

} // verus!
