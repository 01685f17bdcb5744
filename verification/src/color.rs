//! Colors, and the notations that style values use for them.

use vstd::prelude::*;
use crate::text::{chars_of, is_literal};

verus! {

/// A color: red, green, blue and opacity.
#[derive(Clone, Copy, Debug, PartialEq, Eq, Structural)]
pub struct Color {
    pub r: u8,
    pub g: u8,
    pub b: u8,
    pub a: u8,
}

/// An opaque color.
pub open spec fn rgb(r: u8, g: u8, b: u8) -> Color {
    Color { r, g, b, a: 255 }
}

/// The value of a hexadecimal digit.
pub open spec fn hex_value(c: char) -> Option<nat> {
    if '0' <= c <= '9' {
        Some((c as u32 - '0' as u32) as nat)
    } else if 'a' <= c <= 'f' {
        Some((c as u32 - 'a' as u32 + 10) as nat)
    } else if 'A' <= c <= 'F' {
        Some((c as u32 - 'A' as u32 + 10) as nat)
    } else {
        None
    }
}

/// The byte that two hexadecimal digits stand for.
pub open spec fn hex_byte(high: char, low: char) -> Option<u8> {
    match (hex_value(high), hex_value(low)) {
        (Some(h), Some(l)) => Some((h * 16 + l) as u8),
        _ => None,
    }
}

/// The color that `#` and six hexadecimal digits stand for.
pub open spec fn hex_color(s: Seq<char>) -> Option<Color> {
    if s.len() == 7 && s[0] == '#' {
        match (hex_byte(s[1], s[2]), hex_byte(s[3], s[4]), hex_byte(s[5], s[6])) {
            (Some(r), Some(g), Some(b)) => Some(rgb(r, g, b)),
            _ => None,
        }
    } else {
        None
    }
}

/// The color that a name stands for.
pub open spec fn named_color(s: Seq<char>) -> Option<Color> {
    if s == "black"@ {
        Some(rgb(0, 0, 0))
    } else if s == "white"@ {
        Some(rgb(255, 255, 255))
    } else if s == "red"@ {
        Some(rgb(255, 0, 0))
    } else if s == "green"@ {
        Some(rgb(0, 128, 0))
    } else if s == "blue"@ {
        Some(rgb(0, 0, 255))
    } else if s == "gray"@ {
        Some(rgb(128, 128, 128))
    } else if s == "yellow"@ {
        Some(rgb(255, 255, 0))
    } else if s == "orange"@ {
        Some(rgb(255, 165, 0))
    } else if s == "lightblue"@ {
        Some(rgb(173, 216, 230))
    } else if s == "transparent"@ {
        Some(Color { r: 0, g: 0, b: 0, a: 0 })
    } else {
        None
    }
}

/// The color that the style value `s` stands for: `#` and six hexadecimal
/// digits, or one of a few names.
pub open spec fn color_value(s: Seq<char>) -> Option<Color> {
    if s.len() > 0 && s[0] == '#' {
        hex_color(s)
    } else {
        named_color(s)
    }
}

fn hex_digit(c: char) -> (r: Option<u8>)
    ensures
        match r {
            Some(v) => hex_value(c) == Some(v as nat) && v < 16,
            None => hex_value(c) is None,
        },
{
    if '0' <= c && c <= '9' {
        Some((c as u32 - '0' as u32) as u8)
    } else if 'a' <= c && c <= 'f' {
        Some((c as u32 - 'a' as u32 + 10) as u8)
    } else if 'A' <= c && c <= 'F' {
        Some((c as u32 - 'A' as u32 + 10) as u8)
    } else {
        None
    }
}

fn read_hex_byte(high: char, low: char) -> (r: Option<u8>)
    ensures
        r == hex_byte(high, low),
{
    match (hex_digit(high), hex_digit(low)) {
        (Some(h), Some(l)) => Some(h * 16 + l),
        _ => None,
    }
}

fn opaque(r: u8, g: u8, b: u8) -> (c: Color)
    ensures
        c == rgb(r, g, b),
{
    Color { r, g, b, a: 255 }
}

/// Reads a color from a style value.
pub fn parse_color(s: &String) -> (r: Option<Color>)
    ensures
        r == color_value(s@),
{
    let chars = chars_of(s.as_str());
    if chars.len() > 0 && chars[0] == '#' {
        if chars.len() != 7 {
            return None;
        }
        match (
            read_hex_byte(chars[1], chars[2]),
            read_hex_byte(chars[3], chars[4]),
            read_hex_byte(chars[5], chars[6]),
        ) {
            (Some(r), Some(g), Some(b)) => Some(opaque(r, g, b)),
            _ => None,
        }
    } else if is_literal(s, "black") {
        Some(opaque(0, 0, 0))
    } else if is_literal(s, "white") {
        Some(opaque(255, 255, 255))
    } else if is_literal(s, "red") {
        Some(opaque(255, 0, 0))
    } else if is_literal(s, "green") {
        Some(opaque(0, 128, 0))
    } else if is_literal(s, "blue") {
        Some(opaque(0, 0, 255))
    } else if is_literal(s, "gray") {
        Some(opaque(128, 128, 128))
    } else if is_literal(s, "yellow") {
        Some(opaque(255, 255, 0))
    } else if is_literal(s, "orange") {
        Some(opaque(255, 165, 0))
    } else if is_literal(s, "lightblue") {
        Some(opaque(173, 216, 230))
    } else if is_literal(s, "transparent") {
        Some(Color { r: 0, g: 0, b: 0, a: 0 })
    } else {
        None
    }
}

} // verus!
