//! Colors: what a configuration file spells, and the pixels they become.

use vstd::prelude::*;
use vstd::string::*;

use crate::geometry::min;

verus! {

/// The value of a channel at full strength. A channel is a whole number of parts of it, small
/// enough that both a byte over 255 and a hundredth are exact.
pub const CHANNEL_ONE: i32 = 25_500;

/// The parts of a channel in one step of a byte.
pub const CHANNEL_STEP: i32 = 100;

/// A straight color, not premultiplied by its alpha, with each channel in parts of `CHANNEL_ONE`.
#[derive(Clone, Copy, Debug, PartialEq, Eq, Structural)]
pub struct Color {
    pub r: i32,
    pub g: i32,
    pub b: i32,
    pub a: i32,
}

/// The value of a hexadecimal digit, in either case.
pub open spec fn hex_value(c: char) -> Option<int> {
    if '0' <= c <= '9' {
        Some(c as int - '0' as int)
    } else if 'a' <= c <= 'f' {
        Some(c as int - 'a' as int + 10)
    } else if 'A' <= c <= 'F' {
        Some(c as int - 'A' as int + 10)
    } else {
        None
    }
}

/// The byte that the two digits of `text` at `at` spell, or `None` where one is no digit.
pub open spec fn hex_byte(text: Seq<char>, at: int) -> Option<int> {
    match (hex_value(text[at]), hex_value(text[at + 1])) {
        (Some(high), Some(low)) => Some(16 * high + low),
        _ => None,
    }
}

/// The channel that the byte `byte` stands for.
pub open spec fn channel_of(byte: int) -> int {
    byte * CHANNEL_STEP
}

/// The color that `text` spells: a `#` and six or eight hexadecimal digits, the red, the green,
/// the blue and, with eight, the alpha. A color of six digits is opaque, and no other text spells
/// one.
pub open spec fn spelled(text: Seq<char>) -> Option<Color> {
    if text.len() != 7 && text.len() != 9 {
        None
    } else if text[0] != '#' {
        None
    } else {
        let alpha = if text.len() == 7 {
            Some(255)
        } else {
            hex_byte(text, 7)
        };
        match (hex_byte(text, 1), hex_byte(text, 3), hex_byte(text, 5), alpha) {
            (Some(r), Some(g), Some(b), Some(a)) => Some(
                Color {
                    r: channel_of(r) as i32,
                    g: channel_of(g) as i32,
                    b: channel_of(b) as i32,
                    a: channel_of(a) as i32,
                },
            ),
            _ => None,
        }
    }
}

/// `parts / unit` rounded to the nearest byte, the upper one where two are as near, and held to
/// what a byte can be.
pub open spec fn nearest_byte(parts: int, unit: int) -> u8 {
    if parts <= 0 {
        0
    } else {
        min((2 * parts + unit) / (2 * unit), 255) as u8
    }
}

/// The byte of the channel `value` in a pixel whose alpha is `alpha`.
pub open spec fn premultiplied(value: i32, alpha: i32) -> u8 {
    nearest_byte(value * alpha, CHANNEL_ONE * CHANNEL_STEP)
}

/// The pixel of `color`: blue, green and red premultiplied by alpha, then alpha, in the order in
/// which memory holds them.
pub open spec fn pixel_of(color: Color) -> [u8; 4] {
    [
        premultiplied(color.b, color.a),
        premultiplied(color.g, color.a),
        premultiplied(color.r, color.a),
        nearest_byte(color.a as int, CHANNEL_STEP as int),
    ]
}

fn hex_digit(c: char) -> (value: Option<i32>)
    ensures
        match (value, hex_value(c)) {
            (Some(v), Some(expected)) => v == expected && 0 <= v <= 15,
            (None, None) => true,
            _ => false,
        },
{
    if '0' <= c && c <= '9' {
        Some(c as i32 - '0' as i32)
    } else if 'a' <= c && c <= 'f' {
        Some(c as i32 - 'a' as i32 + 10)
    } else if 'A' <= c && c <= 'F' {
        Some(c as i32 - 'A' as i32 + 10)
    } else {
        None
    }
}

fn channel_at(text: &str, at: usize) -> (channel: Option<i32>)
    requires
        at < 8,
        at + 1 < text@.len(),
    ensures
        match (channel, hex_byte(text@, at as int)) {
            (Some(c), Some(byte)) => c == channel_of(byte) && 0 <= byte <= 255,
            (None, None) => true,
            _ => false,
        },
{
    match (hex_digit(text.get_char(at)), hex_digit(text.get_char(at + 1))) {
        (Some(high), Some(low)) => Some((16 * high + low) * CHANNEL_STEP),
        _ => None,
    }
}

fn byte_of(parts: i64, unit: i64) -> (byte: u8)
    requires
        0 < unit <= 0x1000_0000,
        parts <= 0x4000_0000_0000_0000,
    ensures
        byte == nearest_byte(parts as int, unit as int),
{
    if parts <= 0 {
        0
    } else {
        let doubled: u64 = 2 * parts as u64 + unit as u64;
        let nearest: u64 = doubled / (2 * unit as u64);
        if nearest > 255 {
            255
        } else {
            nearest as u8
        }
    }
}

impl Color {
    pub fn new(r: i32, g: i32, b: i32, a: i32) -> (color: Color)
        ensures
            color == (Color { r, g, b, a }),
    {
        Color { r, g, b, a }
    }

    /// The color that `s` spells, as `#rrggbb` (opaque) or `#rrggbbaa`, in either case of
    /// hexadecimal digits; `None` for anything else.
    pub fn parse(s: &str) -> (color: Option<Color>)
        ensures
            color == spelled(s@),
    {
        let length: usize = s.unicode_len();
        if length != 7 && length != 9 {
            return None;
        }
        if s.get_char(0) != '#' {
            return None;
        }
        let alpha = if length == 7 {
            Some(CHANNEL_ONE)
        } else {
            channel_at(s, 7)
        };
        match (channel_at(s, 1), channel_at(s, 3), channel_at(s, 5), alpha) {
            (Some(r), Some(g), Some(b), Some(a)) => Some(Color::new(r, g, b, a)),
            _ => None,
        }
    }

    /// The color as one pixel of 32 bits, in the order in which memory holds them: blue, green,
    /// red, alpha, the first three premultiplied by the last. A channel out of range saturates.
    pub fn to_argb8888(self) -> (pixel: [u8; 4])
        ensures
            pixel == pixel_of(self),
    {
        [
            Self::channel_byte(self.b, self.a),
            Self::channel_byte(self.g, self.a),
            Self::channel_byte(self.r, self.a),
            byte_of(self.a as i64, CHANNEL_STEP as i64),
        ]
    }

    fn channel_byte(value: i32, alpha: i32) -> (byte: u8)
        ensures
            byte == premultiplied(value, alpha),
    {
        assert(-0x4000_0000_0000_0000 <= value * alpha <= 0x4000_0000_0000_0000) by (nonlinear_arith)
            requires
                -0x8000_0000 <= value <= 0x7fff_ffff,
                -0x8000_0000 <= alpha <= 0x7fff_ffff,
        ;
        assert(CHANNEL_ONE * CHANNEL_STEP == 2_550_000) by (nonlinear_arith);
        byte_of(value as i64 * alpha as i64, 2_550_000)
    }
}

/// `c` in lower case, where it is an upper case ASCII letter.
pub open spec fn lower(c: char) -> char {
    if 'A' <= c <= 'Z' {
        (c as int - 'A' as int + 'a' as int) as char
    } else {
        c
    }
}

/// `c` in upper case, where it is a lower case ASCII letter.
pub open spec fn upper(c: char) -> char {
    if 'a' <= c <= 'z' {
        (c as int - 'a' as int + 'A' as int) as char
    } else {
        c
    }
}

/// Two texts that differ only in the case of their ASCII letters spell the same color, or neither
/// spells one.
pub proof fn the_case_of_digits_does_not_matter(one: Seq<char>, other: Seq<char>)
    requires
        one.len() == other.len(),
        forall|i: int| 0 <= i < one.len() ==> lower(#[trigger] one[i]) == lower(other[i]),
    ensures
        spelled(one) == spelled(other),
{
    assert forall|i: int| 0 <= i < one.len() implies hex_value(#[trigger] one[i]) == hex_value(
        other[i],
    ) && (one[i] == '#' <==> other[i] == '#') by {
        assert(lower(one[i]) == lower(other[i]));
    }
    if one.len() == 7 || one.len() == 9 {
        assert(one[0] == '#' <==> other[0] == '#');
        assert forall|i: int| 0 <= i < one.len() - 1 implies #[trigger] hex_byte(one, i) == hex_byte(
            other,
            i,
        ) by {
            assert(hex_value(one[i]) == hex_value(other[i]));
            assert(hex_value(one[i + 1]) == hex_value(other[i + 1]));
        }
    }
}

/// Any text spells the color that it spells in ASCII upper case and in ASCII lower case.
pub proof fn either_case_spells_the_same(text: Seq<char>)
    ensures
        spelled(text.map_values(|c: char| upper(c))) == spelled(text),
        spelled(text.map_values(|c: char| lower(c))) == spelled(text),
{
    the_case_of_digits_does_not_matter(text.map_values(|c: char| upper(c)), text);
    the_case_of_digits_does_not_matter(text.map_values(|c: char| lower(c)), text);
}

/// Six digits mean what they mean with `ff` behind them: a color without an alpha is opaque.
pub proof fn six_digits_are_opaque(text: Seq<char>)
    requires
        text.len() == 7,
    ensures
        spelled(text + seq!['f', 'f']) == spelled(text),
{
    let full = text + seq!['f', 'f'];
    assert(full[7] == 'f' && full[8] == 'f');
    assert(full[0] == text[0]);
    assert(hex_byte(full, 1) == hex_byte(text, 1));
    assert(hex_byte(full, 3) == hex_byte(text, 3));
    assert(hex_byte(full, 5) == hex_byte(text, 5));
    assert(hex_byte(full, 7) == Some(255int));
}

/// Every channel of a color that is spelled out is in range.
pub proof fn a_spelled_color_is_in_range(text: Seq<char>)
    requires
        spelled(text) is Some,
    ensures
        0 <= (spelled(text)->0).r <= CHANNEL_ONE,
        0 <= (spelled(text)->0).g <= CHANNEL_ONE,
        0 <= (spelled(text)->0).b <= CHANNEL_ONE,
        0 <= (spelled(text)->0).a <= CHANNEL_ONE,
{
}

/// A channel of a color that is spelled out becomes, in an opaque pixel, the very byte that was
/// spelled, whether the alpha was left out or spelled as 255; and the alpha always becomes its own
/// byte, which no channel's byte is above.
pub proof fn an_opaque_color_gives_back_its_bytes(text: Seq<char>)
    requires
        spelled(text) is Some,
    ensures
        ({
            let pixel = pixel_of(spelled(text)->0);
            let alpha = if text.len() == 7 {
                255
            } else {
                hex_byte(text, 7)->0
            };
            &&& pixel[3] == alpha
            &&& alpha == 255 ==> {
                &&& pixel[0] == hex_byte(text, 5)->0
                &&& pixel[1] == hex_byte(text, 3)->0
                &&& pixel[2] == hex_byte(text, 1)->0
            }
            &&& pixel[0] <= pixel[3]
            &&& pixel[1] <= pixel[3]
            &&& pixel[2] <= pixel[3]
        }),
{
    let color = spelled(text)->0;
    a_spelled_color_is_in_range(text);
    an_opaque_color_is_not_changed_by_premultiplication(color.r);
    an_opaque_color_is_not_changed_by_premultiplication(color.g);
    an_opaque_color_is_not_changed_by_premultiplication(color.b);
    no_channel_outshines_the_alpha(color.r, color.a);
    no_channel_outshines_the_alpha(color.g, color.a);
    no_channel_outshines_the_alpha(color.b, color.a);
}

/// Premultiplying an opaque color changes nothing: each channel becomes the byte nearest to it.
pub proof fn an_opaque_color_is_not_changed_by_premultiplication(value: i32)
    ensures
        premultiplied(value, CHANNEL_ONE) == nearest_byte(value as int, CHANNEL_STEP as int),
{
    assert(CHANNEL_ONE * CHANNEL_STEP == 2_550_000) by (nonlinear_arith);
    let coarse = (2 * value + 100) / 200;
    let fine = (2 * (value * 25_500) + 2_550_000) / 5_100_000;
    assert(coarse == fine);
}

/// A fully transparent color becomes a pixel of zeroes.
pub proof fn a_transparent_color_is_all_zeroes(color: Color)
    requires
        color.a == 0,
    ensures
        pixel_of(color)@ == seq![0u8, 0u8, 0u8, 0u8],
{
    assert(color.r * 0 == 0 && color.g * 0 == 0 && color.b * 0 == 0);
}

/// No channel of the pixel of a color in range is brighter than its alpha, which is what a
/// premultiplied pixel has to keep.
pub proof fn no_channel_outshines_the_alpha(value: i32, alpha: i32)
    requires
        0 <= value <= CHANNEL_ONE,
        0 <= alpha <= CHANNEL_ONE,
    ensures
        premultiplied(value, alpha) <= nearest_byte(alpha as int, CHANNEL_STEP as int),
{
    assert(CHANNEL_ONE * CHANNEL_STEP == 2_550_000) by (nonlinear_arith);
    assert(0 <= value * alpha <= 25_500 * alpha) by (nonlinear_arith)
        requires
            0 <= value <= 25_500,
            0 <= alpha,
    ;
    let coarse = (2 * alpha + 100) / 200;
    let fine = (2 * (value * alpha) + 2_550_000) / 5_100_000;
    assert(fine <= coarse);
}

/// A byte is the nearest to the parts it stands for, the upper one where two are as near, and holds
/// to 0 and 255 at either end.
pub proof fn a_byte_is_the_nearest_to_its_parts(parts: int, unit: int)
    requires
        unit > 0,
    ensures
        ({
            let byte = nearest_byte(parts, unit);
            &&& parts <= 0 ==> byte == 0
            &&& 0 < byte ==> (2 * byte - 1) * unit <= 2 * parts
            &&& byte < 255 ==> 2 * parts < (2 * byte + 1) * unit
        }),
{
    if parts > 0 {
        let n = 2 * parts + unit;
        let d = 2 * unit;
        let q = n / d;
        vstd::arithmetic::div_mod::lemma_fundamental_div_mod(n, d);
        vstd::arithmetic::div_mod::lemma_div_pos_is_pos(n, d);
        let r = n % d;
        assert(0 <= r < d);
        let byte = nearest_byte(parts, unit) as int;
        assert(byte == min(q, 255));
        assert(d * q <= n < d * (q + 1)) by (nonlinear_arith)
            requires
                n == d * q + r,
                0 <= r < d,
        ;
        assert((2 * byte - 1) * unit <= 2 * parts) by (nonlinear_arith)
            requires
                byte <= q,
                d == 2 * unit,
                d * q <= n,
                n == 2 * parts + unit,
                unit > 0,
        ;
        if byte < 255 {
            assert(2 * parts < (2 * byte + 1) * unit) by (nonlinear_arith)
                requires
                    byte == q,
                    d == 2 * unit,
                    n < d * (q + 1),
                    n == 2 * parts + unit,
            ;
        }
    } else {
        assert(2 * parts < 1 * unit);
    }
}

/// A pixel in memory is the blue, the green and the red of its color, each multiplied by the
/// alpha, and then the alpha, as the nearest bytes, where a step of a byte is 100 parts of a channel and
/// 25500 parts are full strength.
pub proof fn a_pixel_is_blue_green_red_and_alpha(color: Color)
    ensures
        pixel_of(color)[0] == nearest_byte(color.b * color.a, 2_550_000),
        pixel_of(color)[1] == nearest_byte(color.g * color.a, 2_550_000),
        pixel_of(color)[2] == nearest_byte(color.r * color.a, 2_550_000),
        pixel_of(color)[3] == nearest_byte(color.a as int, 100),
{
    assert(CHANNEL_ONE * CHANNEL_STEP == 2_550_000) by (nonlinear_arith);
}

/// A text spells a color exactly where it is a `#` with six or eight hexadecimal digits behind it;
/// two digits each are the red, the green, the blue and the alpha, sixteens first, in that order.
pub proof fn a_color_is_spelled_digit_by_digit(text: Seq<char>)
    ensures
        spelled(text) is Some <==> {
            &&& text.len() == 7 || text.len() == 9
            &&& text[0] == '#'
            &&& forall|i: int|
                1 <= i < text.len() ==> {
                    ||| '0' <= #[trigger] text[i] <= '9'
                    ||| 'a' <= text[i] <= 'f'
                    ||| 'A' <= text[i] <= 'F'
                }
        },
        spelled(text) is Some ==> {
            let color = spelled(text)->0;
            &&& color.r == 100 * (16 * hex_value(text[1])->0 + hex_value(text[2])->0)
            &&& color.g == 100 * (16 * hex_value(text[3])->0 + hex_value(text[4])->0)
            &&& color.b == 100 * (16 * hex_value(text[5])->0 + hex_value(text[6])->0)
            &&& text.len() == 9 ==> color.a == 100 * (16 * hex_value(text[7])->0 + hex_value(
                text[8],
            )->0)
            &&& text.len() == 7 ==> color.a == 100 * 255
        },
{
    if text.len() == 7 || text.len() == 9 {
        assert(forall|i: int|
            0 <= i < text.len() ==> (hex_value(#[trigger] text[i]) is Some <==> {
                ||| '0' <= text[i] <= '9'
                ||| 'a' <= text[i] <= 'f'
                ||| 'A' <= text[i] <= 'F'
            }));
        if text[0] == '#' && spelled(text) is None {
            assert(hex_value(text[1]) is None || hex_value(text[2]) is None || hex_value(text[3])
                is None || hex_value(text[4]) is None || hex_value(text[5]) is None || hex_value(
                text[6],
            ) is None || text.len() == 9 && (hex_value(text[7]) is None || hex_value(text[8])
                is None));
        }
    }
}

/// Hexadecimal digits count up from zero, in either case.
pub proof fn hexadecimal_digits_count_up(c: char)
    ensures
        '0' <= c <= '9' ==> hex_value(c) == Some(c as int - 48),
        'a' <= c <= 'f' ==> hex_value(c) == Some(c as int - 97 + 10),
        'A' <= c <= 'F' ==> hex_value(c) == Some(c as int - 65 + 10),
{
}

} // verus!
