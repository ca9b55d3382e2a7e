//! A 32-bit CMYK color space.
use vstd::prelude::*;
use vstd::std_specs::convert::FromSpecImpl;

verus! {

////////////////////////////////////////////////////////////////////////////////
// Cmyk
////////////////////////////////////////////////////////////////////////////////
/// The encoded CMYK color.
#[derive(Debug, PartialOrd, PartialEq, Eq, Hash, Ord, Clone, Copy, Structural)]
pub struct Cmyk {
    /// The cyan component.
    pub c: u8,
    /// The magenta component.
    pub m: u8,
    /// The yellow component.
    pub y: u8,
    /// The key (black) component.
    pub k: u8,
}

/// The CMYK hex code of a color: cyan, magenta, yellow and key octets from
/// the most significant down.
pub open spec fn spec_cmyk_hex(c: Cmyk) -> u32 {
    (c.c * 16777216 + c.m * 65536 + c.y * 256 + c.k) as u32
}

/// The color of a CMYK hex code.
pub open spec fn spec_cmyk_from_hex(hex: u32) -> Cmyk {
    Cmyk {
        c: ((hex / 16777216) % 256) as u8,
        m: ((hex / 65536) % 256) as u8,
        y: ((hex / 256) % 256) as u8,
        k: (hex % 256) as u8,
    }
}

impl Cmyk {
    /// Creates a new Cmyk color.
    pub fn new(cyan: u8, magenta: u8, yellow: u8, key: u8) -> (res: Self)
        ensures
            res == (Cmyk { c: cyan, m: magenta, y: yellow, k: key }),
    {
        Cmyk { c: cyan, m: magenta, y: yellow, k: key }
    }

    /// Returns the cyan component.
    pub fn cyan(&self) -> (res: u8)
        ensures
            res == self.c,
    {
        self.c
    }

    /// Returns the magenta component.
    pub fn magenta(&self) -> (res: u8)
        ensures
            res == self.m,
    {
        self.m
    }

    /// Returns the yellow component.
    pub fn yellow(&self) -> (res: u8)
        ensures
            res == self.y,
    {
        self.y
    }

    /// Returns the key component.
    pub fn key(&self) -> (res: u8)
        ensures
            res == self.k,
    {
        self.k
    }

    /// Sets the cyan component.
    pub fn set_cyan(&mut self, value: u8)
        ensures
            *final(self) == (Cmyk { c: value, ..*old(self) }),
    {
        self.c = value;
    }

    /// Sets the magenta component.
    pub fn set_magenta(&mut self, value: u8)
        ensures
            *final(self) == (Cmyk { m: value, ..*old(self) }),
    {
        self.m = value;
    }

    /// Sets the yellow component.
    pub fn set_yellow(&mut self, value: u8)
        ensures
            *final(self) == (Cmyk { y: value, ..*old(self) }),
    {
        self.y = value;
    }

    /// Sets the key component.
    pub fn set_key(&mut self, value: u8)
        ensures
            *final(self) == (Cmyk { k: value, ..*old(self) }),
    {
        self.k = value;
    }

    /// Returns an array containing the [C, M, Y, K] component octets.
    pub fn octets(&self) -> (res: [u8; 4])
        ensures
            res@ == seq![self.c, self.m, self.y, self.k],
    {
        [self.c, self.m, self.y, self.k]
    }

    /// Returns the CMYK hex code.
    pub fn hex(&self) -> (res: u32)
        ensures
            res == spec_cmyk_hex(*self),
    {
        let (c, m, y, k) = (self.c, self.m, self.y, self.k);
        let res = (c as u32) << 24 | (m as u32) << 16 | (y as u32) << 8 | (k as u32);
        proof {
            assert(res == (c as u32) * 16777216 + (m as u32) * 65536 + (y as u32) * 256 + (
            k as u32)) by (bit_vector)
                requires
                    res == (c as u32) << 24 | (m as u32) << 16 | (y as u32) << 8 | (k as u32),
            ;
        }
        res
    }
}

impl Default for Cmyk {
    fn default() -> (res: Cmyk)
        ensures
            res == (Cmyk { c: 0, m: 0, y: 0, k: 0 }),
    {
        Cmyk { c: 0, m: 0, y: 0, k: 0 }
    }
}

////////////////////////////////////////////////////////////////////////////////
// Cmyk conversions
////////////////////////////////////////////////////////////////////////////////
impl From<u32> for Cmyk {
    fn from(hex: u32) -> (res: Cmyk) {
        let res = Cmyk {
            c: ((hex & 0xFF000000) >> 24) as u8,
            m: ((hex & 0x00FF0000) >> 16) as u8,
            y: ((hex & 0x0000FF00) >> 8) as u8,
            k: (hex & 0x000000FF) as u8,
        };
        proof {
            assert(((hex & 0xFF000000) >> 24) as u8 == ((hex / 16777216) % 256) as u8)
                by (bit_vector);
            assert(((hex & 0x00FF0000) >> 16) as u8 == ((hex / 65536) % 256) as u8) by (bit_vector);
            assert(((hex & 0x0000FF00) >> 8) as u8 == ((hex / 256) % 256) as u8) by (bit_vector);
            assert((hex & 0x000000FF) as u8 == (hex % 256) as u8) by (bit_vector);
        }
        res
    }
}

impl FromSpecImpl<u32> for Cmyk {
    open spec fn obeys_from_spec() -> bool {
        true
    }

    open spec fn from_spec(hex: u32) -> Cmyk {
        spec_cmyk_from_hex(hex)
    }
}

impl From<[u8; 4]> for Cmyk {
    fn from(octets: [u8; 4]) -> (res: Cmyk) {
        Cmyk { c: octets[0], m: octets[1], y: octets[2], k: octets[3] }
    }
}

impl FromSpecImpl<[u8; 4]> for Cmyk {
    open spec fn obeys_from_spec() -> bool {
        true
    }

    open spec fn from_spec(octets: [u8; 4]) -> Cmyk {
        Cmyk { c: octets@[0], m: octets@[1], y: octets@[2], k: octets@[3] }
    }
}

/// Reading back the hex code of a color gives the color.
pub proof fn lemma_cmyk_hex_round_trip(x: Cmyk)
    ensures
        spec_cmyk_from_hex(spec_cmyk_hex(x)) == x,
{
    let (c, m, y, k) = (x.c as int, x.m as int, x.y as int, x.k as int);
    let h = spec_cmyk_hex(x) as int;
    assert(h == c * 16777216 + m * 65536 + y * 256 + k);
    assert((h / 16777216) % 256 == c && (h / 65536) % 256 == m && (h / 256) % 256 == y && h
        % 256 == k) by (nonlinear_arith)
        requires
            h == c * 16777216 + m * 65536 + y * 256 + k,
            0 <= c < 256,
            0 <= m < 256,
            0 <= y < 256,
            0 <= k < 256,
    ;
}

} // verus!
