//! A 24-bit RGB color space.
use vstd::prelude::*;
use vstd::std_specs::convert::FromSpecImpl;

verus! {

////////////////////////////////////////////////////////////////////////////////
// Rgb
////////////////////////////////////////////////////////////////////////////////
/// The encoded RGB color.
#[derive(Debug, PartialOrd, PartialEq, Eq, Hash, Ord, Clone, Copy, Structural)]
pub struct Rgb {
    /// The red component.
    pub r: u8,
    /// The green component.
    pub g: u8,
    /// The blue component.
    pub b: u8,
}

/// The RGB hex code of a color: red, green and blue octets from the most
/// significant down.
pub open spec fn spec_rgb_hex(c: Rgb) -> u32 {
    (c.r * 65536 + c.g * 256 + c.b) as u32
}

/// The color of an RGB hex code; bits above the low 24 are ignored.
pub open spec fn spec_rgb_from_hex(hex: u32) -> Rgb {
    Rgb {
        r: ((hex / 65536) % 256) as u8,
        g: ((hex / 256) % 256) as u8,
        b: (hex % 256) as u8,
    }
}

impl Rgb {
    /// Creates a new Rgb color.
    pub fn new(red: u8, green: u8, blue: u8) -> (res: Self)
        ensures
            res == (Rgb { r: red, g: green, b: blue }),
    {
        Rgb { r: red, g: green, b: blue }
    }

    /// Returns the red component.
    pub fn red(&self) -> (res: u8)
        ensures
            res == self.r,
    {
        self.r
    }

    /// Returns the green component.
    pub fn green(&self) -> (res: u8)
        ensures
            res == self.g,
    {
        self.g
    }

    /// Returns the blue component.
    pub fn blue(&self) -> (res: u8)
        ensures
            res == self.b,
    {
        self.b
    }

    /// Sets the red component.
    pub fn set_red(&mut self, value: u8)
        ensures
            *final(self) == (Rgb { r: value, ..*old(self) }),
    {
        self.r = value;
    }

    /// Sets the green component.
    pub fn set_green(&mut self, value: u8)
        ensures
            *final(self) == (Rgb { g: value, ..*old(self) }),
    {
        self.g = value;
    }

    /// Sets the blue component.
    pub fn set_blue(&mut self, value: u8)
        ensures
            *final(self) == (Rgb { b: value, ..*old(self) }),
    {
        self.b = value;
    }

    /// Returns an array containing the [R, G, B] component octets.
    pub fn octets(&self) -> (res: [u8; 3])
        ensures
            res@ == seq![self.r, self.g, self.b],
    {
        [self.r, self.g, self.b]
    }

    /// Returns the RGB hex code.
    pub fn hex(&self) -> (res: u32)
        ensures
            res == spec_rgb_hex(*self),
    {
        let (r, g, b) = (self.r, self.g, self.b);
        let res = (r as u32) << 16 | (g as u32) << 8 | (b as u32);
        proof {
            assert(res == (r as u32) * 65536 + (g as u32) * 256 + (b as u32)) by (bit_vector)
                requires
                    res == (r as u32) << 16 | (g as u32) << 8 | (b as u32),
            ;
        }
        res
    }
}

impl Default for Rgb {
    fn default() -> (res: Rgb)
        ensures
            res == (Rgb { r: 0, g: 0, b: 0 }),
    {
        Rgb { r: 0, g: 0, b: 0 }
    }
}

////////////////////////////////////////////////////////////////////////////////
// Rgb conversions
////////////////////////////////////////////////////////////////////////////////
impl From<u32> for Rgb {
    fn from(hex: u32) -> (res: Rgb) {
        let res = Rgb {
            r: ((hex & 0xFF0000) >> 16) as u8,
            g: ((hex & 0x00FF00) >> 8) as u8,
            b: (hex & 0x0000FF) as u8,
        };
        proof {
            assert(((hex & 0xFF0000) >> 16) as u8 == ((hex / 65536) % 256) as u8) by (bit_vector);
            assert(((hex & 0x00FF00) >> 8) as u8 == ((hex / 256) % 256) as u8) by (bit_vector);
            assert((hex & 0x0000FF) as u8 == (hex % 256) as u8) by (bit_vector);
        }
        res
    }
}

impl FromSpecImpl<u32> for Rgb {
    open spec fn obeys_from_spec() -> bool {
        true
    }

    open spec fn from_spec(hex: u32) -> Rgb {
        spec_rgb_from_hex(hex)
    }
}

impl From<[u8; 3]> for Rgb {
    fn from(octets: [u8; 3]) -> (res: Rgb) {
        Rgb { r: octets[0], g: octets[1], b: octets[2] }
    }
}

impl FromSpecImpl<[u8; 3]> for Rgb {
    open spec fn obeys_from_spec() -> bool {
        true
    }

    open spec fn from_spec(octets: [u8; 3]) -> Rgb {
        Rgb { r: octets@[0], g: octets@[1], b: octets@[2] }
    }
}

/// Reading back the hex code of a color gives the color.
pub proof fn lemma_rgb_hex_round_trip(c: Rgb)
    ensures
        spec_rgb_from_hex(spec_rgb_hex(c)) == c,
{
    let (r, g, b) = (c.r, c.g, c.b);
    let h = spec_rgb_hex(c);
    assert(h == r * 65536 + g * 256 + b);
    assert(((h / 65536) % 256) as u8 == r) by (nonlinear_arith)
        requires
            h == r * 65536 + g * 256 + b,
            0 <= r < 256,
            0 <= g < 256,
            0 <= b < 256,
    ;
    assert(((h / 256) % 256) as u8 == g) by (nonlinear_arith)
        requires
            h == r * 65536 + g * 256 + b,
            0 <= r < 256,
            0 <= g < 256,
            0 <= b < 256,
    ;
    assert((h % 256) as u8 == b) by (nonlinear_arith)
        requires
            h == r * 65536 + g * 256 + b,
            0 <= r < 256,
            0 <= g < 256,
            0 <= b < 256,
    ;
}

} // verus!
