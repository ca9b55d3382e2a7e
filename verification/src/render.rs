//! Text renderings of addresses, references and colors.
use vstd::prelude::*;
use crate::address::{
    Address, ComponentView, DirectComponentView, DirectReferenceComponent, Reference,
    ReferenceComponent, ReferenceView,
};
use crate::color::{Cmyk, Color, Rgb};
use crate::text::{decimal, hex2, push_decimal, push_hex2, push_signed_decimal, signed_decimal};

verus! {

/// `page:line:column` in decimal.
pub open spec fn address_text(a: Address) -> Seq<char> {
    decimal(a.page as nat) + seq![':'] + decimal(a.line as nat) + seq![':'] + decimal(a.column as nat)
}

/// `page:line:column` in hexadecimal, two digits at least each.
pub open spec fn address_hex_text(a: Address, upper: bool) -> Seq<char> {
    hex2(a.page as nat, upper) + seq![':'] + hex2(a.line as nat, upper) + seq![':'] + hex2(
        a.column as nat,
        upper,
    )
}

/// `#` and the hexadecimal red, green and blue components, two digits each.
pub open spec fn rgb_hex_text(c: Rgb, upper: bool) -> Seq<char> {
    seq!['#'] + hex2(c.r as nat, upper) + hex2(c.g as nat, upper) + hex2(c.b as nat, upper)
}

/// `#` and the hexadecimal cyan, magenta, yellow and key components, two
/// digits each.
pub open spec fn cmyk_hex_text(c: Cmyk, upper: bool) -> Seq<char> {
    seq!['#'] + hex2(c.c as nat, upper) + hex2(c.m as nat, upper) + hex2(c.y as nat, upper) + hex2(
        c.k as nat,
        upper,
    )
}

/// `#` and the hexadecimal text of the color's RGB components.
pub open spec fn color_hex_text(c: Color, upper: bool) -> Seq<char> {
    seq!['#'] + rgb_hex_text(c.rgb, upper)
}

/// A direct reference component: `_` for any, the index in decimal, or the
/// name.
pub open spec fn direct_text<T>(c: DirectComponentView<T>, index: spec_fn(T) -> nat) -> Seq<char> {
    match c {
        DirectComponentView::Any => seq!['_'],
        DirectComponentView::Index(i) => decimal(index(i)),
        DirectComponentView::Named(n) => n,
    }
}

/// A reference component: `_` for any, the index in decimal, the name, a
/// direct component followed by its signed offset, or `*` for all.
pub open spec fn component_text<T, O>(
    c: ComponentView<T, O>,
    index: spec_fn(T) -> nat,
    offset: spec_fn(O) -> int,
) -> Seq<char> {
    match c {
        ComponentView::Any => seq!['_'],
        ComponentView::Index(i) => decimal(index(i)),
        ComponentView::Named(n) => n,
        ComponentView::Indirect(d, o) => direct_text(d, index) + if offset(o) < 0 {
            signed_decimal(offset(o))
        } else {
            seq!['+'] + decimal(offset(o) as nat)
        },
        ComponentView::All => seq!['*'],
    }
}

/// `page/line/column` of a reference.
pub open spec fn reference_text(r: ReferenceView) -> Seq<char> {
    component_text(r.page, |i: u16| i as nat, |o: i32| o as int) + seq!['/'] + component_text(
        r.line,
        |i: u8| i as nat,
        |o: i16| o as int,
    ) + seq!['/'] + component_text(r.column, |i: u8| i as nat, |o: i16| o as int)
}

impl Address {
    /// Returns `page:line:column` in decimal.
    pub fn to_text(&self) -> (r: String)
        ensures
            r@ == address_text(*self),
    {
        let mut out = String::new();
        push_decimal(&mut out, self.page as u64);
        out.append(":");
        push_decimal(&mut out, self.line as u64);
        out.append(":");
        push_decimal(&mut out, self.column as u64);
        proof {
            reveal_strlit(":");
            assert(out@ =~= address_text(*self));
        }
        out
    }

    /// Returns `page:line:column` in hexadecimal, two digits at least each,
    /// in upper or lower case.
    pub fn to_hex_text(&self, upper: bool) -> (r: String)
        ensures
            r@ == address_hex_text(*self, upper),
    {
        let mut out = String::new();
        push_hex2(&mut out, self.page as u64, upper);
        out.append(":");
        push_hex2(&mut out, self.line as u64, upper);
        out.append(":");
        push_hex2(&mut out, self.column as u64, upper);
        proof {
            reveal_strlit(":");
            assert(out@ =~= address_hex_text(*self, upper));
        }
        out
    }
}

impl Rgb {
    /// Returns `#` and the hexadecimal red, green and blue components, two
    /// digits each, in upper or lower case.
    pub fn to_hex_text(&self, upper: bool) -> (r: String)
        ensures
            r@ == rgb_hex_text(*self, upper),
    {
        let mut out = String::new();
        out.append("#");
        push_hex2(&mut out, self.r as u64, upper);
        push_hex2(&mut out, self.g as u64, upper);
        push_hex2(&mut out, self.b as u64, upper);
        proof {
            reveal_strlit("#");
            assert(out@ =~= rgb_hex_text(*self, upper));
        }
        out
    }
}

impl Cmyk {
    /// Returns `#` and the hexadecimal cyan, magenta, yellow and key
    /// components, two digits each, in upper or lower case.
    pub fn to_hex_text(&self, upper: bool) -> (r: String)
        ensures
            r@ == cmyk_hex_text(*self, upper),
    {
        let mut out = String::new();
        out.append("#");
        push_hex2(&mut out, self.c as u64, upper);
        push_hex2(&mut out, self.m as u64, upper);
        push_hex2(&mut out, self.y as u64, upper);
        push_hex2(&mut out, self.k as u64, upper);
        proof {
            reveal_strlit("#");
            assert(out@ =~= cmyk_hex_text(*self, upper));
        }
        out
    }
}

impl Color {
    /// Returns `#` and the hexadecimal text of the RGB components, in upper
    /// or lower case.
    pub fn to_hex_text(&self, upper: bool) -> (r: String)
        ensures
            r@ == color_hex_text(*self, upper),
    {
        let mut out = String::new();
        out.append("#");
        let t = self.rgb.to_hex_text(upper);
        out.append(t.as_str());
        proof {
            reveal_strlit("#");
            assert(out@ =~= color_hex_text(*self, upper));
        }
        out
    }
}

/// Appends the text of a direct page component to `out`.
fn push_direct_page(out: &mut String, c: &DirectReferenceComponent<u16>)
    ensures
        final(out)@ == old(out)@ + direct_text(c@, |i: u16| i as nat),
{
    match c {
        DirectReferenceComponent::Any => {
            proof {
                reveal_strlit("_");
            }
            out.append("_");
        },
        DirectReferenceComponent::Index(i) => {
            push_decimal(out, *i as u64);
        },
        DirectReferenceComponent::Named(n) => {
            out.append(n.as_str());
        },
    }
}

/// Appends the text of a direct line or column component to `out`.
fn push_direct_small(out: &mut String, c: &DirectReferenceComponent<u8>)
    ensures
        final(out)@ == old(out)@ + direct_text(c@, |i: u8| i as nat),
{
    match c {
        DirectReferenceComponent::Any => {
            proof {
                reveal_strlit("_");
            }
            out.append("_");
        },
        DirectReferenceComponent::Index(i) => {
            push_decimal(out, *i as u64);
        },
        DirectReferenceComponent::Named(n) => {
            out.append(n.as_str());
        },
    }
}

/// Appends `+` and the offset, or the negative offset with its sign, to
/// `out`.
fn push_offset(out: &mut String, o: i64)
    requires
        o > i64::MIN,
    ensures
        final(out)@ == old(out)@ + if o < 0 {
            signed_decimal(o as int)
        } else {
            seq!['+'] + decimal(o as nat)
        },
{
    if o < 0 {
        push_signed_decimal(out, o);
    } else {
        proof {
            reveal_strlit("+");
        }
        out.append("+");
        push_decimal(out, o as u64);
        proof {
            assert(old(out)@ + seq!['+'] + decimal(o as nat) =~= old(out)@ + (seq!['+'] + decimal(
                o as nat,
            )));
        }
    }
}

/// Appends the text of a page component to `out`.
fn push_page_component(out: &mut String, c: &ReferenceComponent<u16, i32>)
    ensures
        final(out)@ == old(out)@ + component_text(c@, |i: u16| i as nat, |o: i32| o as int),
{
    match c {
        ReferenceComponent::Any => {
            proof {
                reveal_strlit("_");
            }
            out.append("_");
        },
        ReferenceComponent::Index(i) => {
            push_decimal(out, *i as u64);
        },
        ReferenceComponent::Named(n) => {
            out.append(n.as_str());
        },
        ReferenceComponent::Indirect(d, o) => {
            let ghost before = out@;
            push_direct_page(out, d);
            push_offset(out, *o as i64);
            proof {
                assert(out@ =~= before + component_text(c@, |i: u16| i as nat, |o: i32| o as int));
            }
        },
        ReferenceComponent::All => {
            proof {
                reveal_strlit("*");
            }
            out.append("*");
        },
    }
}

/// Appends the text of a line or column component to `out`.
fn push_small_component(out: &mut String, c: &ReferenceComponent<u8, i16>)
    ensures
        final(out)@ == old(out)@ + component_text(c@, |i: u8| i as nat, |o: i16| o as int),
{
    match c {
        ReferenceComponent::Any => {
            proof {
                reveal_strlit("_");
            }
            out.append("_");
        },
        ReferenceComponent::Index(i) => {
            push_decimal(out, *i as u64);
        },
        ReferenceComponent::Named(n) => {
            out.append(n.as_str());
        },
        ReferenceComponent::Indirect(d, o) => {
            let ghost before = out@;
            push_direct_small(out, d);
            push_offset(out, *o as i64);
            proof {
                assert(out@ =~= before + component_text(c@, |i: u8| i as nat, |o: i16| o as int));
            }
        },
        ReferenceComponent::All => {
            proof {
                reveal_strlit("*");
            }
            out.append("*");
        },
    }
}

impl Reference {
    /// Returns `page/line/column` of the reference, each component as `_`
    /// for any, its index, its name, a direct component followed by its
    /// signed offset, or `*` for all.
    pub fn to_text(&self) -> (r: String)
        ensures
            r@ == reference_text(self@),
    {
        let mut out = String::new();
        push_page_component(&mut out, &self.page);
        out.append("/");
        push_small_component(&mut out, &self.line);
        out.append("/");
        push_small_component(&mut out, &self.column);
        proof {
            reveal_strlit("/");
            assert(out@ =~= reference_text(self@));
        }
        out
    }
}

/// The `Debug` text of a `bool`.
pub open spec fn bool_debug(b: bool) -> Seq<char> {
    if b {
        "true"@
    } else {
        "false"@
    }
}

/// The `Debug` text of an address: its fields in decimal.
pub open spec fn address_debug(a: Address) -> Seq<char> {
    "Address { page: "@ + decimal(a.page as nat) + ", line: "@ + decimal(a.line as nat)
        + ", column: "@ + decimal(a.column as nat) + " }"@
}

/// The `Debug` text of an optional address.
pub open spec fn opt_address_debug(o: Option<Address>) -> Seq<char> {
    match o {
        None => "None"@,
        Some(a) => "Some("@ + address_debug(a) + ")"@,
    }
}

/// The `Debug` text of a color: its RGB components in decimal.
pub open spec fn color_debug(c: Color) -> Seq<char> {
    "Color { rgb: Rgb { r: "@ + decimal(c.rgb.r as nat) + ", g: "@ + decimal(c.rgb.g as nat)
        + ", b: "@ + decimal(c.rgb.b as nat) + " } }"@
}

/// Appends the `Debug` text of a `bool` to `out`.
pub(crate) fn push_bool_debug(out: &mut String, b: bool)
    ensures
        final(out)@ == old(out)@ + bool_debug(b),
{
    if b {
        out.append("true");
    } else {
        out.append("false");
    }
}

/// Appends the `Debug` text of an address to `out`.
pub(crate) fn push_address_debug(out: &mut String, a: Address)
    ensures
        final(out)@ == old(out)@ + address_debug(a),
{
    out.append("Address { page: ");
    push_decimal(out, a.page as u64);
    out.append(", line: ");
    push_decimal(out, a.line as u64);
    out.append(", column: ");
    push_decimal(out, a.column as u64);
    out.append(" }");
    proof {
        assert(final(out)@ =~= old(out)@ + address_debug(a));
    }
}

/// Appends the `Debug` text of an optional address to `out`.
pub(crate) fn push_opt_address_debug(out: &mut String, o: Option<Address>)
    ensures
        final(out)@ == old(out)@ + opt_address_debug(o),
{
    match o {
        None => {
            out.append("None");
        },
        Some(a) => {
            out.append("Some(");
            push_address_debug(out, a);
            out.append(")");
            proof {
                assert(final(out)@ =~= old(out)@ + opt_address_debug(o));
            }
        },
    }
}

/// Appends the `Debug` text of a color to `out`.
pub(crate) fn push_color_debug(out: &mut String, c: Color)
    ensures
        final(out)@ == old(out)@ + color_debug(c),
{
    out.append("Color { rgb: Rgb { r: ");
    push_decimal(out, c.rgb.r as u64);
    out.append(", g: ");
    push_decimal(out, c.rgb.g as u64);
    out.append(", b: ");
    push_decimal(out, c.rgb.b as u64);
    out.append(" } }");
    proof {
        assert(final(out)@ =~= old(out)@ + color_debug(c));
    }
}

} // verus!
