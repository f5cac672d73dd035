//! Hex color strings and their RGBA byte values.
//!
//! A color is written `#RRGGBB` or `#RRGGBBAA`, the single leading `#`
//! optional; a missing alpha component defaults to fully opaque.

use vstd::prelude::*;

verus! {

use vstd::string::StringSliceAdditionalSpecFns;

/// Value of an ASCII hex digit byte, or -1 when the byte is no hex digit.
pub open spec fn hex_digit_val(b: u8) -> int {
    if 0x30 <= b <= 0x39 {  // '0' ..= '9'
        b - 0x30
    } else if 0x61 <= b <= 0x66 {  // 'a' ..= 'f'
        b - 0x61 + 10
    } else if 0x41 <= b <= 0x46 {  // 'A' ..= 'F'
        b - 0x41 + 10
    } else {
        -1
    }
}

/// The byte value written by the two hex digits `hi`, `lo`.
pub open spec fn hex_pair_val(hi: u8, lo: u8) -> int {
    hex_digit_val(hi) * 16 + hex_digit_val(lo)
}

pub open spec fn is_hex_digit(b: u8) -> bool {
    hex_digit_val(b) >= 0
}

/// The input with one leading `#` byte removed, when there is one.
pub open spec fn strip_hash(s: Seq<u8>) -> Seq<u8> {
    if s.len() > 0 && s[0] == 0x23 {  // '#'
        s.drop_first()
    } else {
        s
    }
}

/// The RGBA bytes a hex color string denotes, or `None` when it is malformed:
/// after the optional single `#` the string must hold exactly six or eight
/// hex digits.
pub open spec fn spec_hex_to_rgba(s: Seq<u8>) -> Option<Seq<u8>> {
    let t = strip_hash(s);
    if t.len() == 6 && (forall|i: int| 0 <= i < 6 ==> is_hex_digit(#[trigger] t[i])) {
        Some(
            seq![
                hex_pair_val(t[0], t[1]) as u8,
                hex_pair_val(t[2], t[3]) as u8,
                hex_pair_val(t[4], t[5]) as u8,
                255u8,
            ],
        )
    } else if t.len() == 8 && (forall|i: int| 0 <= i < 8 ==> is_hex_digit(#[trigger] t[i])) {
        Some(
            seq![
                hex_pair_val(t[0], t[1]) as u8,
                hex_pair_val(t[2], t[3]) as u8,
                hex_pair_val(t[4], t[5]) as u8,
                hex_pair_val(t[6], t[7]) as u8,
            ],
        )
    } else {
        None
    }
}

/// The lowercase hex digit character for a value below sixteen.
pub open spec fn hex_char(n: int) -> char {
    if n == 0 {
        '0'
    } else if n == 1 {
        '1'
    } else if n == 2 {
        '2'
    } else if n == 3 {
        '3'
    } else if n == 4 {
        '4'
    } else if n == 5 {
        '5'
    } else if n == 6 {
        '6'
    } else if n == 7 {
        '7'
    } else if n == 8 {
        '8'
    } else if n == 9 {
        '9'
    } else if n == 10 {
        'a'
    } else if n == 11 {
        'b'
    } else if n == 12 {
        'c'
    } else if n == 13 {
        'd'
    } else if n == 14 {
        'e'
    } else {
        'f'
    }
}

/// The `#rrggbb` rendering of a color's RGB components, lowercase, alpha
/// dropped.
pub open spec fn spec_rgba_to_hex(c: Seq<u8>) -> Seq<char> {
    seq![
        '#',
        hex_char(c[0] as int / 16),
        hex_char(c[0] as int % 16),
        hex_char(c[1] as int / 16),
        hex_char(c[1] as int % 16),
        hex_char(c[2] as int / 16),
        hex_char(c[2] as int % 16),
    ]
}

/// Value of one hex digit byte; `None` exactly on non-digits.
fn hex_val(b: u8) -> (r: Option<u8>)
    ensures
        r is Some <==> is_hex_digit(b),
        r matches Some(v) ==> v as int == hex_digit_val(b),
{
    if 0x30 <= b && b <= 0x39 {
        Some(b - 0x30)
    } else if 0x61 <= b && b <= 0x66 {
        Some(b - 0x61 + 10)
    } else if 0x41 <= b && b <= 0x46 {
        Some(b - 0x41 + 10)
    } else {
        None
    }
}

/// Value of the byte written by the two hex digits at `i`, `i + 1` of `s`.
fn hex_pair(s: &[u8], i: usize) -> (r: Option<u8>)
    requires
        i + 2 <= s@.len(),
    ensures
        r is Some <==> is_hex_digit(s@[i as int]) && is_hex_digit(s@[i + 1]),
        r matches Some(v) ==> v as int == hex_pair_val(s@[i as int], s@[i + 1]),
{
    let hi = hex_val(s[i])?;
    let lo = hex_val(s[i + 1])?;
    Some(hi * 16 + lo)
}

/// Parses a hex color string to its RGBA bytes.
///
/// Succeeds exactly on the strings [`spec_hex_to_rgba`] accepts, and then
/// returns exactly the bytes it denotes.
pub fn hex_to_rgba(hex: &str) -> (r: Result<[u8; 4], String>)
    ensures
        r is Ok <==> spec_hex_to_rgba(hex.spec_bytes()) is Some,
        r matches Ok(c) ==> spec_hex_to_rgba(hex.spec_bytes()) == Some(c@),
{
    let s = hex.as_bytes();
    let start: usize = if s.len() > 0 && s[0] == 0x23 {
        1
    } else {
        0
    };
    proof {
        assert(strip_hash(s@) =~= s@.skip(start as int));
    }
    let len = s.len() - start;
    if len != 6 && len != 8 {
        return Err("Invalid hex color format".to_owned());
    }
    let ghost t = s@.skip(start as int);
    let r = match hex_pair(s, start) {
        Some(v) => v,
        None => {
            return Err("Invalid hex color".to_owned());
        },
    };
    let g = match hex_pair(s, start + 2) {
        Some(v) => v,
        None => {
            return Err("Invalid hex color".to_owned());
        },
    };
    let b = match hex_pair(s, start + 4) {
        Some(v) => v,
        None => {
            return Err("Invalid hex color".to_owned());
        },
    };
    let a = if len == 8 {
        match hex_pair(s, start + 6) {
            Some(v) => v,
            None => {
                return Err("Invalid hex color".to_owned());
            },
        }
    } else {
        255
    };
    Ok([r, g, b, a])
}

/// The one-character string for a hex digit value.
fn hex_char_str(n: u8) -> (r: &'static str)
    requires
        n < 16,
    ensures
        r@ =~= seq![hex_char(n as int)],
        r@[0] <= '\u{7f}',
{
    proof {
        reveal_strlit("0");
        reveal_strlit("1");
        reveal_strlit("2");
        reveal_strlit("3");
        reveal_strlit("4");
        reveal_strlit("5");
        reveal_strlit("6");
        reveal_strlit("7");
        reveal_strlit("8");
        reveal_strlit("9");
        reveal_strlit("a");
        reveal_strlit("b");
        reveal_strlit("c");
        reveal_strlit("d");
        reveal_strlit("e");
        reveal_strlit("f");
    }
    match n {
        0 => "0",
        1 => "1",
        2 => "2",
        3 => "3",
        4 => "4",
        5 => "5",
        6 => "6",
        7 => "7",
        8 => "8",
        9 => "9",
        10 => "a",
        11 => "b",
        12 => "c",
        13 => "d",
        14 => "e",
        _ => "f",
    }
}

/// Renders a color as `#rrggbb`, lowercase, dropping the alpha component.
pub fn rgba_to_hex(rgba: [u8; 4]) -> (r: String)
    ensures
        r@ =~= spec_rgba_to_hex(rgba@),
{
    proof {
        reveal_strlit("#");
    }
    let mut out = String::new();
    out.append("#");
    out.append(hex_char_str(rgba[0] / 16));
    out.append(hex_char_str(rgba[0] % 16));
    out.append(hex_char_str(rgba[1] / 16));
    out.append(hex_char_str(rgba[1] % 16));
    out.append(hex_char_str(rgba[2] / 16));
    out.append(hex_char_str(rgba[2] % 16));
    out
}

/// Parsing inverts rendering: for any RGB components, rendering the opaque
/// color `[r, g, b, 255]` with [`rgba_to_hex`] and parsing the result with
/// [`hex_to_rgba`] yields `[r, g, b, 255]` again.
pub proof fn lemma_hex_rgba_round_trip(r: u8, g: u8, b: u8)
    ensures
        spec_hex_to_rgba(vstd::utf8::encode_utf8(spec_rgba_to_hex(seq![r, g, b, 255u8])))
            == Some(seq![r, g, b, 255u8]),
{
    let chars = spec_rgba_to_hex(seq![r, g, b, 255u8]);
    assert(vstd::utf8::is_ascii_chars(chars)) by {
        assert forall|i: int| 0 <= i < chars.len() implies '\0' <= #[trigger] chars[i]
            <= '\u{7f}' by {
            lemma_hex_char_ascii(chars[i]);
        }
    }
    vstd::utf8::is_ascii_chars_encode_utf8(chars);
    let bytes = vstd::utf8::encode_utf8(chars);
    assert(bytes[0] == '#' as u8);
    assert(strip_hash(bytes) =~= bytes.drop_first());
    let t = strip_hash(bytes);
    assert(t.len() == 6);
    lemma_hex_digit_round_trip(r);
    lemma_hex_digit_round_trip(g);
    lemma_hex_digit_round_trip(b);
    assert(spec_hex_to_rgba(bytes) == Some(seq![r, g, b, 255u8])) by {
        assert(hex_pair_val(t[0], t[1]) == r);
        assert(hex_pair_val(t[2], t[3]) == g);
        assert(hex_pair_val(t[4], t[5]) == b);
        assert(spec_hex_to_rgba(bytes) matches Some(c) && c =~= seq![r, g, b, 255u8]);
    }
}

/// Every character [`hex_char`] can produce is printable ASCII.
proof fn lemma_hex_char_ascii(c: char)
    ensures
        (exists|n: int| c == hex_char(n)) ==> '\0' <= c <= '\u{7f}',
{
}

/// The two hex digit characters of a byte parse back to that byte.
proof fn lemma_hex_digit_round_trip(v: u8)
    ensures
        hex_pair_val(hex_char(v as int / 16) as u8, hex_char(v as int % 16) as u8) == v as int,
{
    lemma_hex_char_val(v as int / 16);
    lemma_hex_char_val(v as int % 16);
}

/// [`hex_digit_val`] inverts [`hex_char`] on digit values.
proof fn lemma_hex_char_val(n: int)
    requires
        0 <= n < 16,
    ensures
        hex_digit_val(hex_char(n) as u8) == n,
{
}

} // verus!
