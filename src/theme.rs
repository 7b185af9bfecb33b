//! Colours of the user interface written as hex strings.
use vstd::prelude::*;

use bevy::color::Color;
use vstd::string::StringSliceAdditionalSpecFns;

verus! {

#[verifier::external_type_specification]
#[verifier::external_body]
pub struct ExColor(Color);

/// Relies on `bevy::color::Color::srgba_u8`: the sRGB colour with the given 8-bit channels.
#[verifier::external_body]
fn srgba_u8(red: u8, green: u8, blue: u8, alpha: u8) -> (r: Color) {
    Color::srgba_u8(red, green, blue, alpha)
}

/// The value of an ASCII hex digit, either case.
pub open spec fn hex_value(v: u8) -> Option<u8> {
    if 48 <= v <= 57 {
        Some((v - 48) as u8)
    } else if 65 <= v <= 70 {
        Some((v - 55) as u8)
    } else if 97 <= v <= 102 {
        Some((v - 87) as u8)
    } else {
        None
    }
}

/// The byte written by two hex digits, high digit first.
pub open spec fn pair_value(hi: u8, lo: u8) -> Option<u8> {
    match (hex_value(hi), hex_value(lo)) {
        (Some(h), Some(l)) => Some((h * 16 + l) as u8),
        _ => None,
    }
}

/// The digits of a colour string: the string without a leading `#`.
pub open spec fn hex_digits(b: Seq<u8>) -> Seq<u8> {
    if b.len() > 0 && b[0] == 35 {
        b.drop_first()
    } else {
        b
    }
}

/// The channels `(red, green, blue, alpha)` written by the digits `d` as `RGB`, `RRGGBB` or
/// `RRGGBBAA`; the short forms are opaque.
pub open spec fn hex_channels(d: Seq<u8>) -> Option<(u8, u8, u8, u8)> {
    if d.len() == 3 {
        match (pair_value(d[0], d[0]), pair_value(d[1], d[1]), pair_value(d[2], d[2])) {
            (Some(r), Some(g), Some(b)) => Some((r, g, b, 255u8)),
            _ => None,
        }
    } else if d.len() == 6 {
        match (pair_value(d[0], d[1]), pair_value(d[2], d[3]), pair_value(d[4], d[5])) {
            (Some(r), Some(g), Some(b)) => Some((r, g, b, 255u8)),
            _ => None,
        }
    } else if d.len() == 8 {
        match (
            pair_value(d[0], d[1]),
            pair_value(d[2], d[3]),
            pair_value(d[4], d[5]),
            pair_value(d[6], d[7]),
        ) {
            (Some(r), Some(g), Some(b), Some(a)) => Some((r, g, b, a)),
            _ => None,
        }
    } else {
        None
    }
}

fn hex_digit(v: u8) -> (r: Option<u8>)
    ensures
        r == hex_value(v),
{
    if v >= 48 && v <= 57 {
        Some(v - 48)
    } else if v >= 65 && v <= 70 {
        Some(v - 55)
    } else if v >= 97 && v <= 102 {
        Some(v - 87)
    } else {
        None
    }
}

fn hex_pair(hi: u8, lo: u8) -> (r: Option<u8>)
    ensures
        r == pair_value(hi, lo),
{
    match (hex_digit(hi), hex_digit(lo)) {
        (Some(h), Some(l)) => Some(h * 16 + l),
        _ => None,
    }
}

/// The channels `(red, green, blue, alpha)` of a colour written `#RGB`, `#RRGGBB` or
/// `#RRGGBBAA`, the `#` optional and the digits of either case; `None` for anything else.
pub fn hex_rgba(hex: &str) -> (r: Option<(u8, u8, u8, u8)>)
    ensures
        r == hex_channels(hex_digits(hex.spec_bytes())),
{
    let bytes = hex.as_bytes();
    let skip: usize = if bytes.len() > 0 && bytes[0] == 35 {
        1
    } else {
        0
    };
    let n = bytes.len() - skip;
    let ghost d = hex_digits(bytes@);
    assert(forall|i: int| 0 <= i < n ==> d[i] == bytes@[i + skip]);
    if n == 3 {
        match (
            hex_pair(bytes[skip], bytes[skip]),
            hex_pair(bytes[skip + 1], bytes[skip + 1]),
            hex_pair(bytes[skip + 2], bytes[skip + 2]),
        ) {
            (Some(r), Some(g), Some(b)) => Some((r, g, b, 255)),
            _ => None,
        }
    } else if n == 6 {
        match (
            hex_pair(bytes[skip], bytes[skip + 1]),
            hex_pair(bytes[skip + 2], bytes[skip + 3]),
            hex_pair(bytes[skip + 4], bytes[skip + 5]),
        ) {
            (Some(r), Some(g), Some(b)) => Some((r, g, b, 255)),
            _ => None,
        }
    } else if n == 8 {
        match (
            hex_pair(bytes[skip], bytes[skip + 1]),
            hex_pair(bytes[skip + 2], bytes[skip + 3]),
            hex_pair(bytes[skip + 4], bytes[skip + 5]),
            hex_pair(bytes[skip + 6], bytes[skip + 7]),
        ) {
            (Some(r), Some(g), Some(b), Some(a)) => Some((r, g, b, a)),
            _ => None,
        }
    } else {
        None
    }
}

/// The sRGB colour written `#RGB`, `#RRGGBB` or `#RRGGBBAA`, the `#` optional; `None` for
/// anything else.
pub fn try_srgb_hex(hex: &str) -> (r: Option<Color>)
    ensures
        r is Some <==> hex_channels(hex_digits(hex.spec_bytes())) is Some,
{
    match hex_rgba(hex) {
        Some((r, g, b, a)) => Some(srgba_u8(r, g, b, a)),
        None => None,
    }
}

/// The sRGB colour written by a valid colour string.
pub fn srgb_hex(hex: &str) -> (r: Color)
    requires
        hex_channels(hex_digits(hex.spec_bytes())) is Some,
{
    match try_srgb_hex(hex) {
        Some(c) => c,
        None => {
            proof {
                assert(false);
            }
            srgba_u8(0, 0, 0, 0)
        },
    }
}

} // verus!
