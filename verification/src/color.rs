//! Colors.
use vstd::prelude::*;

verus! {

/// A color with its opacity, eight bits a channel.
#[derive(Clone, Copy, Debug, PartialEq, Eq, Structural)]
pub struct Color {
    pub red: u8,
    pub green: u8,
    pub blue: u8,
    pub alpha: u8,
}

impl Color {
    /// A color from its four channels.
    pub fn new(red: u8, green: u8, blue: u8, alpha: u8) -> (c: Color)
        ensures
            c == (Color { red, green, blue, alpha }),
    {
        Color { red, green, blue, alpha }
    }
}

/// The value of a hexadecimal digit, of either case.
pub open spec fn hex_digit(b: u8) -> Option<int> {
    if 0x30 <= b <= 0x39 {
        Some(b - 0x30)
    } else if 0x61 <= b <= 0x66 {
        Some(b - 0x61 + 10)
    } else if 0x41 <= b <= 0x46 {
        Some(b - 0x41 + 10)
    } else {
        None
    }
}

/// The value of the two hexadecimal digits at `i` and behind it.
pub open spec fn hex_pair(s: Seq<u8>, i: int) -> Option<int> {
    match (hex_digit(s[i]), hex_digit(s[i + 1])) {
        (Some(high), Some(low)) => Some(16 * high + low),
        _ => None,
    }
}

/// The color that `s` writes: `#` and two hexadecimal digits for each of
/// red, green and blue, and two more for the opacity or none for an opaque
/// color.
pub open spec fn color_from_hex(s: Seq<u8>) -> Option<Color> {
    if (s.len() == 7 || s.len() == 9) && s[0] == 0x23 {
        match (hex_pair(s, 1), hex_pair(s, 3), hex_pair(s, 5)) {
            (Some(red), Some(green), Some(blue)) => if s.len() == 7 {
                Some(Color { red: red as u8, green: green as u8, blue: blue as u8, alpha: 255 })
            } else {
                match hex_pair(s, 7) {
                    Some(alpha) => Some(
                        Color {
                            red: red as u8,
                            green: green as u8,
                            blue: blue as u8,
                            alpha: alpha as u8,
                        },
                    ),
                    None => None,
                }
            },
            _ => None,
        }
    } else {
        None
    }
}

fn digit(b: u8) -> (r: Option<u8>)
    ensures
        match r {
            Some(d) => hex_digit(b) == Some(d as int) && d < 16,
            None => hex_digit(b) is None,
        },
{
    if 0x30 <= b && b <= 0x39 {
        Some(b - 0x30)
    } else if 0x61 <= b && b <= 0x66 {
        Some(b - 0x61 + 10)
    } else if 0x41 <= b && b <= 0x46 {
        Some(b - 0x41 + 10)
    } else {
        None
    }
}

fn pair(s: &[u8], i: usize) -> (r: Option<u8>)
    requires
        i + 1 < s@.len(),
    ensures
        match r {
            Some(v) => hex_pair(s@, i as int) == Some(v as int),
            None => hex_pair(s@, i as int) is None,
        },
{
    match (digit(s[i]), digit(s[i + 1])) {
        (Some(high), Some(low)) => Some(16 * high + low),
        _ => None,
    }
}

impl Color {
    /// Reads a color written as `#rrggbb` or `#rrggbbaa`. Anything else is
    /// no color.
    pub fn from_hex(s: &[u8]) -> (r: Option<Color>)
        ensures
            r == color_from_hex(s@),
    {
        if (s.len() != 7 && s.len() != 9) || s[0] != 0x23 {
            return None;
        }
        let red = pair(s, 1);
        let green = pair(s, 3);
        let blue = pair(s, 5);
        match (red, green, blue) {
            (Some(red), Some(green), Some(blue)) => {
                if s.len() == 7 {
                    Some(Color { red, green, blue, alpha: 255 })
                } else {
                    match pair(s, 7) {
                        Some(alpha) => Some(Color { red, green, blue, alpha }),
                        None => None,
                    }
                }
            },
            _ => None,
        }
    }
}

/// The background and the foreground of a label. Neighbouring labels with
/// the same pair are drawn as one shape.
#[derive(Clone, Copy, Debug, PartialEq, Eq, Structural)]
pub struct ColorPair {
    pub bg: Color,
    pub fg: Color,
}

} // verus!
