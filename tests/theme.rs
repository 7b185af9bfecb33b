use bevy::color::Color;
use ducky_core::theme::{hex_rgba, srgb_hex, try_srgb_hex};

#[test]
fn short_long_and_alpha_forms_parse() {
    assert_eq!(hex_rgba("#F00"), Some((255, 0, 0, 255)));
    assert_eq!(hex_rgba("00FF00"), Some((0, 255, 0, 255)));
    assert_eq!(hex_rgba("#0000FFFF"), Some((0, 0, 255, 255)));
    assert_eq!(hex_rgba("#1a2B3c80"), Some((0x1a, 0x2b, 0x3c, 0x80)));
    assert_eq!(hex_rgba("abc"), Some((0xaa, 0xbb, 0xcc, 255)));
}

#[test]
fn malformed_strings_are_rejected() {
    assert_eq!(hex_rgba(""), None);
    assert_eq!(hex_rgba("#"), None);
    assert_eq!(hex_rgba("#GG0000"), None);
    assert_eq!(hex_rgba("12345"), None);
    assert_eq!(hex_rgba("##F00"), None);
    assert!(try_srgb_hex("#12").is_none());
}

#[test]
fn colours_are_srgb() {
    assert_eq!(try_srgb_hex("#F00"), Some(Color::srgb_u8(255, 0, 0)));
    assert_eq!(srgb_hex("#00FF0080"), Color::srgba_u8(0, 255, 0, 128));
    assert_ne!(srgb_hex("#000"), srgb_hex("#FFF"));
}
