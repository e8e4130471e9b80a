use vstd::prelude::*;

verus! {

/// Glyph that writes nybble `n` as the last symbol of a section:
/// the ordinary hexadecimal digits `'0'..'9'` and `'a'..'f'`.
pub open spec fn spec_low_glyph(n: u8) -> u8
    recommends
        n < 16,
{
    if n < 10 {
        (0x30 + n) as u8  // '0'..'9'
    } else {
        (0x57 + n) as u8  // 'a'..'f'
    }
}

/// Glyph that writes nybble `n` as an interior symbol of a section:
/// sixteen letters disjoint from the hexadecimal digits, in ascending
/// ASCII order, skipping vowels and easily confused letters.
pub open spec fn spec_high_glyph(n: u8) -> u8
    recommends
        n < 16,
{
    if n == 0 {
        0x67  // 'g'
    } else if n == 1 {
        0x68  // 'h'
    } else if n == 2 {
        0x6a  // 'j'
    } else if n == 3 {
        0x6b  // 'k'
    } else if n == 4 {
        0x6d  // 'm'
    } else if n == 5 {
        0x6e  // 'n'
    } else if n == 6 {
        0x70  // 'p'
    } else if n == 7 {
        0x71  // 'q'
    } else if n == 8 {
        0x72  // 'r'
    } else if n == 9 {
        0x73  // 's'
    } else if n == 10 {
        0x74  // 't'
    } else if n == 11 {
        0x76  // 'v'
    } else if n == 12 {
        0x77  // 'w'
    } else if n == 13 {
        0x78  // 'x'
    } else if n == 14 {
        0x79  // 'y'
    } else {
        0x7a  // 'z'
    }
}

/// The nybble encoded by input byte `b`, or `None` when `b` is not a glyph.
/// A low-alphabet glyph for nybble `v` yields `v`; a high-alphabet glyph
/// yields `v + 16`.  Letters decode case-insensitively, and the low glyphs
/// for zero and one additionally accept the letters that resemble them.
pub open spec fn spec_nybble_value(b: u8) -> Option<u8> {
    if b == 0x30 || b == 0x6f || b == 0x4f {
        Some(0x00u8)  // '0' 'o' 'O'
    } else if b == 0x31 || b == 0x69 || b == 0x6c || b == 0x49 || b == 0x4c {
        Some(0x01u8)  // '1' 'i' 'l' 'I' 'L'
    } else if b == 0x32 {
        Some(0x02u8)  // '2'
    } else if b == 0x33 {
        Some(0x03u8)  // '3'
    } else if b == 0x34 {
        Some(0x04u8)  // '4'
    } else if b == 0x35 {
        Some(0x05u8)  // '5'
    } else if b == 0x36 {
        Some(0x06u8)  // '6'
    } else if b == 0x37 {
        Some(0x07u8)  // '7'
    } else if b == 0x38 {
        Some(0x08u8)  // '8'
    } else if b == 0x39 {
        Some(0x09u8)  // '9'
    } else if b == 0x61 || b == 0x41 {
        Some(0x0au8)  // 'a' 'A'
    } else if b == 0x62 || b == 0x42 {
        Some(0x0bu8)  // 'b' 'B'
    } else if b == 0x63 || b == 0x43 {
        Some(0x0cu8)  // 'c' 'C'
    } else if b == 0x64 || b == 0x44 {
        Some(0x0du8)  // 'd' 'D'
    } else if b == 0x65 || b == 0x45 {
        Some(0x0eu8)  // 'e' 'E'
    } else if b == 0x66 || b == 0x46 {
        Some(0x0fu8)  // 'f' 'F'
    } else if b == 0x67 || b == 0x47 {
        Some(0x10u8)  // 'g' 'G'
    } else if b == 0x68 || b == 0x48 {
        Some(0x11u8)  // 'h' 'H'
    } else if b == 0x6a || b == 0x4a {
        Some(0x12u8)  // 'j' 'J'
    } else if b == 0x6b || b == 0x4b {
        Some(0x13u8)  // 'k' 'K'
    } else if b == 0x6d || b == 0x4d {
        Some(0x14u8)  // 'm' 'M'
    } else if b == 0x6e || b == 0x4e {
        Some(0x15u8)  // 'n' 'N'
    } else if b == 0x70 || b == 0x50 {
        Some(0x16u8)  // 'p' 'P'
    } else if b == 0x71 || b == 0x51 {
        Some(0x17u8)  // 'q' 'Q'
    } else if b == 0x72 || b == 0x52 {
        Some(0x18u8)  // 'r' 'R'
    } else if b == 0x73 || b == 0x53 {
        Some(0x19u8)  // 's' 'S'
    } else if b == 0x74 || b == 0x54 {
        Some(0x1au8)  // 't' 'T'
    } else if b == 0x76 || b == 0x56 {
        Some(0x1bu8)  // 'v' 'V'
    } else if b == 0x77 || b == 0x57 {
        Some(0x1cu8)  // 'w' 'W'
    } else if b == 0x78 || b == 0x58 {
        Some(0x1du8)  // 'x' 'X'
    } else if b == 0x79 || b == 0x59 {
        Some(0x1eu8)  // 'y' 'Y'
    } else if b == 0x7a || b == 0x5a {
        Some(0x1fu8)  // 'z' 'Z'
    } else {
        None
    }
}

/// Returns the nybble value in `[0, 15]` for the given byte symbol.
/// If the symbol belongs to the high alphabet, 16 is added to the value.
/// If the byte is not a valid symbol, `None` is returned.
pub fn nybble_value(value: u8) -> (r: Option<u8>)
    ensures
        r == spec_nybble_value(value),
{
    match value {
        0x30 | 0x6f | 0x4f => Some(0x00u8),
        0x31 | 0x69 | 0x6c | 0x49 | 0x4c => Some(0x01u8),
        0x32 => Some(0x02u8),
        0x33 => Some(0x03u8),
        0x34 => Some(0x04u8),
        0x35 => Some(0x05u8),
        0x36 => Some(0x06u8),
        0x37 => Some(0x07u8),
        0x38 => Some(0x08u8),
        0x39 => Some(0x09u8),
        0x61 | 0x41 => Some(0x0au8),
        0x62 | 0x42 => Some(0x0bu8),
        0x63 | 0x43 => Some(0x0cu8),
        0x64 | 0x44 => Some(0x0du8),
        0x65 | 0x45 => Some(0x0eu8),
        0x66 | 0x46 => Some(0x0fu8),
        0x67 | 0x47 => Some(0x10u8),
        0x68 | 0x48 => Some(0x11u8),
        0x6a | 0x4a => Some(0x12u8),
        0x6b | 0x4b => Some(0x13u8),
        0x6d | 0x4d => Some(0x14u8),
        0x6e | 0x4e => Some(0x15u8),
        0x70 | 0x50 => Some(0x16u8),
        0x71 | 0x51 => Some(0x17u8),
        0x72 | 0x52 => Some(0x18u8),
        0x73 | 0x53 => Some(0x19u8),
        0x74 | 0x54 => Some(0x1au8),
        0x76 | 0x56 => Some(0x1bu8),
        0x77 | 0x57 => Some(0x1cu8),
        0x78 | 0x58 => Some(0x1du8),
        0x79 | 0x59 => Some(0x1eu8),
        0x7a | 0x5a => Some(0x1fu8),
        _ => None,
    }
}

/// Writes nybble `n` with the low alphabet.
pub fn lower_symbol(n: u8) -> (r: u8)
    requires
        n < 16,
    ensures
        r == spec_low_glyph(n),
{
    if n < 10 {
        0x30 + n
    } else {
        0x57 + n
    }
}

/// Writes nybble `n` with the high alphabet.
pub fn higher_symbol(n: u8) -> (r: u8)
    requires
        n < 16,
    ensures
        r == spec_high_glyph(n),
{
    match n {
        0 => 0x67,
        1 => 0x68,
        2 => 0x6a,
        3 => 0x6b,
        4 => 0x6d,
        5 => 0x6e,
        6 => 0x70,
        7 => 0x71,
        8 => 0x72,
        9 => 0x73,
        10 => 0x74,
        11 => 0x76,
        12 => 0x77,
        13 => 0x78,
        14 => 0x79,
        _ => 0x7a,
    }
}

/// Decoding a low glyph recovers the nybble it was written from.
pub proof fn lemma_low_glyph_value(n: u8)
    requires
        n < 16,
    ensures
        spec_nybble_value(spec_low_glyph(n)) == Some(n),
{
}

/// Decoding a high glyph recovers the nybble it was written from, tagged
/// with the high-alphabet offset of 16.
pub proof fn lemma_high_glyph_value(n: u8)
    requires
        n < 16,
    ensures
        spec_nybble_value(spec_high_glyph(n)) == Some((n + 16) as u8),
{
}

/// Each alphabet lists its glyphs in ascending ASCII order.
pub proof fn lemma_glyph_order(a: u8, b: u8)
    requires
        a < b < 16,
    ensures
        spec_low_glyph(a) < spec_low_glyph(b),
        spec_high_glyph(a) < spec_high_glyph(b),
{
}

/// Every low glyph precedes every high glyph in ASCII, and all glyphs are
/// printable ASCII bytes.
pub proof fn lemma_glyph_ranges(a: u8, b: u8)
    requires
        a < 16,
        b < 16,
    ensures
        spec_low_glyph(a) < spec_high_glyph(b),
        0x30 <= spec_low_glyph(a) < 0x80,
        0x67 <= spec_high_glyph(b) < 0x80,
{
}

} // verus!
