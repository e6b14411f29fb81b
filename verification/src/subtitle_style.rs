//! Subtitle color styles and the conversion of `[AA]RRGGBB` hex colors
//! into the `AABBGGRR` channel order that ASS style lines use.

use vstd::prelude::*;
use vstd::string::StrSliceExecFns;
use vstd::string::StringExecFns;

verus! {

/// User-facing style: each color is an `[AA]RRGGBB` hex string.
pub struct SubtitleStyle {
    pub primary_color: String,
    pub secondary_color: String,
    pub long_text_secondary_color: String,
}

pub ghost struct SubtitleStyleV {
    pub primary_color: Seq<char>,
    pub secondary_color: Seq<char>,
    pub long_text_secondary_color: Seq<char>,
}

impl View for SubtitleStyle {
    type V = SubtitleStyleV;

    open spec fn view(&self) -> SubtitleStyleV {
        SubtitleStyleV {
            primary_color: self.primary_color@,
            secondary_color: self.secondary_color@,
            long_text_secondary_color: self.long_text_secondary_color@,
        }
    }
}

/// The same style with each color re-encoded as `AABBGGRR`.
pub struct AssSubtitleStyle {
    pub primary_color: String,
    pub secondary_color: String,
    pub long_text_secondary_color: String,
}

pub ghost struct AssSubtitleStyleV {
    pub primary_color: Seq<char>,
    pub secondary_color: Seq<char>,
    pub long_text_secondary_color: Seq<char>,
}

impl View for AssSubtitleStyle {
    type V = AssSubtitleStyleV;

    open spec fn view(&self) -> AssSubtitleStyleV {
        AssSubtitleStyleV {
            primary_color: self.primary_color@,
            secondary_color: self.secondary_color@,
            long_text_secondary_color: self.long_text_secondary_color@,
        }
    }
}

pub open spec fn is_hex_digit(c: char) -> bool {
    (48 <= c as int <= 57) || (65 <= c as int <= 70) || (97 <= c as int <= 102)
}

/// The numeric value of the hex digit `c`.
pub open spec fn hex_val(c: char) -> int {
    if 48 <= c as int <= 57 {
        c as int - 48
    } else if 97 <= c as int <= 102 {
        c as int - 87
    } else {
        c as int - 55
    }
}

/// The upper-case hex digit character for `d` in `0..16`.
pub open spec fn nibble_char(d: int) -> char {
    if d < 10 {
        crate::text::digit_char(d)
    } else if d == 10 {
        'A'
    } else if d == 11 {
        'B'
    } else if d == 12 {
        'C'
    } else if d == 13 {
        'D'
    } else if d == 14 {
        'E'
    } else {
        'F'
    }
}

/// The upper-case form of the hex digit `c`.
pub open spec fn hex_upper(c: char) -> char {
    nibble_char(hex_val(c))
}

/// A well-formed color literal: 6 or 8 hex digits.
pub open spec fn valid_color(s: Seq<char>) -> bool {
    (s.len() == 6 || s.len() == 8) && forall|i: int| 0 <= i < s.len() ==> is_hex_digit(
        #[trigger] s[i],
    )
}

pub open spec fn valid_style(s: SubtitleStyleV) -> bool {
    valid_color(s.primary_color) && valid_color(s.secondary_color) && valid_color(
        s.long_text_secondary_color,
    )
}

/// The `AABBGGRR` reordering of an `[AA]RRGGBB` color, upper-cased;
/// a missing alpha component defaults to `00`.
pub open spec fn ass_color(s: Seq<char>) -> Seq<char> {
    let o = if s.len() == 6 {
        0int
    } else {
        2int
    };
    let aa = if s.len() == 6 {
        seq!['0', '0']
    } else {
        seq![hex_upper(s[0]), hex_upper(s[1])]
    };
    aa + seq![
        hex_upper(s[o + 4]),
        hex_upper(s[o + 5]),
        hex_upper(s[o + 2]),
        hex_upper(s[o + 3]),
        hex_upper(s[o]),
        hex_upper(s[o + 1]),
    ]
}

pub open spec fn ass_style_of(s: SubtitleStyleV) -> AssSubtitleStyleV {
    AssSubtitleStyleV {
        primary_color: ass_color(s.primary_color),
        secondary_color: ass_color(s.secondary_color),
        long_text_secondary_color: ass_color(s.long_text_secondary_color),
    }
}

/// Whether `color` is a well-formed color literal: 6 or 8 hex digits.
#[verifier::loop_isolation(false)]
pub fn is_valid_color(color: &str) -> (b: bool)
    ensures
        b == valid_color(color@),
{
    let n = color.unicode_len();
    if n != 6 && n != 8 {
        return false;
    }
    let mut i: usize = 0;
    while i < n
        invariant
            0 <= i <= n,
            n == color@.len(),
            forall|q: int| 0 <= q < i ==> is_hex_digit(#[trigger] color@[q]),
        decreases n - i,
    {
        let u = color.get_char(i) as u32;
        if !((u >= 48 && u <= 57) || (u >= 65 && u <= 70) || (u >= 97 && u <= 102)) {
            return false;
        }
        i = i + 1;
    }
    true
}

/// Whether all three colors of a style are well-formed.
pub fn is_valid_style(style: &SubtitleStyle) -> (b: bool)
    ensures
        b == valid_style(style@),
{
    is_valid_color(style.primary_color.as_str()) && is_valid_color(style.secondary_color.as_str())
        && is_valid_color(style.long_text_secondary_color.as_str())
}

/// A one-character string slice holding the upper-case hex digit `d`.
fn nibble_str(d: u64) -> (r: &'static str)
    requires
        d < 16,
    ensures
        r@ =~= seq![nibble_char(d as int)],
{
    if d < 10 {
        crate::text::digit_str(d)
    } else if d == 10 {
        let r = "A";
        proof {
            reveal_strlit("A");
        }
        r
    } else if d == 11 {
        let r = "B";
        proof {
            reveal_strlit("B");
        }
        r
    } else if d == 12 {
        let r = "C";
        proof {
            reveal_strlit("C");
        }
        r
    } else if d == 13 {
        let r = "D";
        proof {
            reveal_strlit("D");
        }
        r
    } else if d == 14 {
        let r = "E";
        proof {
            reveal_strlit("E");
        }
        r
    } else {
        let r = "F";
        proof {
            reveal_strlit("F");
        }
        r
    }
}

/// Appends the upper-cased form of the hex digit `c`.
fn append_upper_hex(r: &mut String, c: char)
    requires
        is_hex_digit(c),
    ensures
        final(r)@ == old(r)@ + seq![hex_upper(c)],
{
    let u = c as u32;
    let v: u64 = if u >= 97 {
        (u - 87) as u64
    } else if u >= 65 {
        (u - 55) as u64
    } else {
        (u - 48) as u64
    };
    r.append(nibble_str(v));
    proof {
        assert(r@ =~= old(r)@ + seq![hex_upper(c)]);
    }
}

/// Reorders an `[AA]RRGGBB` hex color into the ASS `AABBGGRR` order,
/// upper-casing it; a 6-digit color gets the implicit alpha `00`.
pub fn convert_color_to_ass_standard(color: &str) -> (r: String)
    requires
        valid_color(color@),
    ensures
        r@ == ass_color(color@),
{
    let n = color.unicode_len();
    let mut r = String::new();
    if n == 8 {
        append_upper_hex(&mut r, color.get_char(0));
        append_upper_hex(&mut r, color.get_char(1));
    } else {
        r.append("00");
        proof {
            reveal_strlit("00");
            assert(r@ =~= seq!['0', '0']);
        }
    }
    let o: usize = if n == 8 {
        2
    } else {
        0
    };
    append_upper_hex(&mut r, color.get_char(o + 4));
    append_upper_hex(&mut r, color.get_char(o + 5));
    append_upper_hex(&mut r, color.get_char(o + 2));
    append_upper_hex(&mut r, color.get_char(o + 3));
    append_upper_hex(&mut r, color.get_char(o));
    append_upper_hex(&mut r, color.get_char(o + 1));
    proof {
        assert(r@ =~= ass_color(color@));
    }
    r
}

impl AssSubtitleStyle {
    /// Derives the ASS-encoded style from the user-facing one by converting
    /// each color to the `AABBGGRR` order.
    pub fn new(style: &SubtitleStyle) -> (r: Self)
        requires
            valid_style(style@),
        ensures
            r@ == ass_style_of(style@),
    {
        Self {
            primary_color: convert_color_to_ass_standard(style.primary_color.as_str()),
            secondary_color: convert_color_to_ass_standard(style.secondary_color.as_str()),
            long_text_secondary_color: convert_color_to_ass_standard(
                style.long_text_secondary_color.as_str(),
            ),
        }
    }
}

} // verus!
