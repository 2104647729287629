//! Fill colors and their `#rrggbb` text form.
use vstd::prelude::*;
use crate::error::ParseError;
use crate::text::{chars_of, string_from_chars};

verus! {

#[derive(Clone, Copy, Debug, PartialEq, Eq, Structural, Default)]
pub struct Color {
    pub r: u8,
    pub g: u8,
    pub b: u8,
}

pub open spec fn is_hex(c: char) -> bool {
    ('0' <= c && c <= '9') || ('a' <= c && c <= 'f') || ('A' <= c && c <= 'F')
}

pub open spec fn hex_val(c: char) -> nat {
    if '0' <= c && c <= '9' {
        (c as u32 - 48) as nat
    } else if 'a' <= c && c <= 'f' {
        (c as u32 - 87) as nat
    } else {
        (c as u32 - 55) as nat
    }
}

/// The lowercase hex digit of `d < 16`.
pub open spec fn hex_char(d: nat) -> char {
    if d < 10 {
        ((d + 48) as u8) as char
    } else {
        ((d + 87) as u8) as char
    }
}

pub open spec fn byte_of(hi: char, lo: char) -> u8 {
    (hex_val(hi) * 16 + hex_val(lo)) as u8
}

/// The color that `s` denotes: `#` and three pairs of hex digits, either case.
pub open spec fn color_of(s: Seq<char>) -> Option<Color> {
    if s.len() == 7 && s[0] == '#' && (forall|i: int| 1 <= i < 7 ==> is_hex(#[trigger] s[i])) {
        Some(Color { r: byte_of(s[1], s[2]), g: byte_of(s[3], s[4]), b: byte_of(s[5], s[6]) })
    } else {
        None
    }
}

pub open spec fn color_text(c: Color) -> Seq<char> {
    seq![
        '#',
        hex_char(c.r as nat / 16),
        hex_char(c.r as nat % 16),
        hex_char(c.g as nat / 16),
        hex_char(c.g as nat % 16),
        hex_char(c.b as nat / 16),
        hex_char(c.b as nat % 16),
    ]
}

fn hex_digit_val(c: char) -> (r: Option<u8>)
    ensures
        r == (if is_hex(c) {
            Some(hex_val(c) as u8)
        } else {
            None
        }),
        r matches Some(v) ==> v < 16,
{
    if '0' <= c && c <= '9' {
        Some((c as u32 - 48) as u8)
    } else if 'a' <= c && c <= 'f' {
        Some((c as u32 - 87) as u8)
    } else if 'A' <= c && c <= 'F' {
        Some((c as u32 - 55) as u8)
    } else {
        None
    }
}

fn hex_pair(hi: char, lo: char) -> (r: Option<u8>)
    ensures
        r == (if is_hex(hi) && is_hex(lo) {
            Some(byte_of(hi, lo))
        } else {
            None
        }),
{
    match (hex_digit_val(hi), hex_digit_val(lo)) {
        (Some(h), Some(l)) => Some(h * 16 + l),
        _ => None,
    }
}

fn hex_char_of(d: u8) -> (c: char)
    requires
        d < 16,
    ensures
        c == hex_char(d as nat),
{
    if d < 10 {
        (d + 48) as char
    } else {
        (d + 87) as char
    }
}

/// Reads a fill color; any other text is a `ColorFormatError`.
pub fn str_to_color(hex: &str) -> (r: Result<Color, ParseError>)
    ensures
        match r {
            Ok(c) => color_of(hex@) == Some(c),
            Err(e) => color_of(hex@) is None && e == ParseError::ColorFormatError,
        },
{
    let s = chars_of(hex);
    if s.len() != 7 || s[0] != '#' {
        return Err(ParseError::ColorFormatError);
    }
    let r = hex_pair(s[1], s[2]);
    let g = hex_pair(s[3], s[4]);
    let b = hex_pair(s[5], s[6]);
    match (r, g, b) {
        (Some(r), Some(g), Some(b)) => {
            assert(forall|i: int| 1 <= i < 7 ==> is_hex(#[trigger] s@[i])) by {
                assert forall|i: int| 1 <= i < 7 implies is_hex(#[trigger] s@[i]) by {
                    if i == 1 || i == 2 {
                    } else if i == 3 || i == 4 {
                    } else {
                    }
                }
            }
            Ok(Color { r, g, b })
        },
        _ => Err(ParseError::ColorFormatError),
    }
}

impl Color {
    /// Reads a fill color, as [`str_to_color`].
    pub fn try_from_str(hex: &str) -> (r: Result<Color, ParseError>)
        ensures
            match r {
                Ok(c) => color_of(hex@) == Some(c),
                Err(e) => color_of(hex@) is None && e == ParseError::ColorFormatError,
            },
    {
        str_to_color(hex)
    }

    pub fn push_text(&self, out: &mut Vec<char>)
        ensures
            final(out)@ == old(out)@ + color_text(*self),
    {
        out.push('#');
        out.push(hex_char_of(self.r / 16));
        out.push(hex_char_of(self.r % 16));
        out.push(hex_char_of(self.g / 16));
        out.push(hex_char_of(self.g % 16));
        out.push(hex_char_of(self.b / 16));
        out.push(hex_char_of(self.b % 16));
        assert(final(out)@ =~= old(out)@ + color_text(*self));
    }

    /// The `#rrggbb` form, in lowercase.
    pub fn to_string(&self) -> (s: String)
        ensures
            s@ == color_text(*self),
    {
        let mut v: Vec<char> = Vec::new();
        self.push_text(&mut v);
        assert(v@ =~= color_text(*self));
        string_from_chars(&v)
    }
}

/// The text of a color reads back as that color.
pub proof fn lemma_color_round_trip(c: Color)
    ensures
        color_of(color_text(c)) == Some(c),
{
    let t = color_text(c);
    assert forall|i: int| 1 <= i < 7 implies is_hex(#[trigger] t[i]) by {}
    assert(byte_of(t[1], t[2]) == c.r);
    assert(byte_of(t[3], t[4]) == c.g);
    assert(byte_of(t[5], t[6]) == c.b);
}

} // verus!
