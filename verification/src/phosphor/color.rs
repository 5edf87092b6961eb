//! The CSS hex notation of colours, read into sRGB bytes.
//!
//! The notation is `RRGGBB` or `RRGGBBAA`, after any number of leading `#`:
//! six or eight hex digits of either case, two per channel. Anything else is
//! malformed. Turning the bytes into linear-light channels is floating-point
//! work done by the colour type.

use vstd::prelude::*;

verus! {

/// What a hex colour string denotes.
#[derive(Debug, Clone, Copy, PartialEq, Eq, Structural)]
pub enum HexColor {
    /// Six digits: red, green, blue; opaque.
    Rgb(u8, u8, u8),
    /// Eight digits: red, green, blue, alpha.
    Rgba(u8, u8, u8, u8),
    /// Not six or eight hex digits after the hashes.
    Malformed,
}

/// The value of a hex digit byte.
pub open spec fn hex_digit_value(b: u8) -> Option<u8> {
    if 0x30 <= b && b <= 0x39 {
        Some((b - 0x30) as u8)
    } else if 0x61 <= b && b <= 0x66 {
        Some((b - 0x61 + 10) as u8)
    } else if 0x41 <= b && b <= 0x46 {
        Some((b - 0x41 + 10) as u8)
    } else {
        None
    }
}

/// The value of a two-byte field of two hex digits, high digit first.
pub open spec fn hex_field_value(a: u8, b: u8) -> Option<u8> {
    match (hex_digit_value(a), hex_digit_value(b)) {
        (Some(x), Some(y)) => Some((16 * x + y) as u8),
        _ => None,
    }
}

/// The bytes after the leading `#` characters.
pub open spec fn without_hashes(b: Seq<u8>) -> Seq<u8>
    decreases b.len(),
{
    if b.len() > 0 && b[0] == 0x23 {
        without_hashes(b.drop_first())
    } else {
        b
    }
}

/// What the bytes of a hex colour string denote.
pub open spec fn hex_color_of(bytes: Seq<u8>) -> HexColor {
    let t = without_hashes(bytes);
    if t.len() == 6 {
        match (hex_field_value(t[0], t[1]), hex_field_value(t[2], t[3]), hex_field_value(t[4], t[5])) {
            (Some(r), Some(g), Some(b)) => HexColor::Rgb(r, g, b),
            _ => HexColor::Malformed,
        }
    } else if t.len() == 8 {
        match (
            hex_field_value(t[0], t[1]),
            hex_field_value(t[2], t[3]),
            hex_field_value(t[4], t[5]),
            hex_field_value(t[6], t[7]),
        ) {
            (Some(r), Some(g), Some(b), Some(a)) => HexColor::Rgba(r, g, b, a),
            _ => HexColor::Malformed,
        }
    } else {
        HexColor::Malformed
    }
}

/// Each channel of a colour is its pair of hex digits read high digit
/// first: sixteen times the first digit's value plus the second's. The
/// alpha pair of an eight-digit colour is read like the red, green and blue
/// pairs. Six or eight hex digits after the hashes give a colour; anything
/// else is malformed.
pub proof fn law_channels_read_high_digit_first(bytes: Seq<u8>)
    ensures
        ({
            let t = without_hashes(bytes);
            let digits = forall|k: int| 0 <= k < t.len() ==> #[trigger] hex_digit_value(t[k]) is Some;
            &&& (t.len() == 6 && digits) ==> hex_color_of(bytes) == HexColor::Rgb(
                (16 * hex_digit_value(t[0])->0 + hex_digit_value(t[1])->0) as u8,
                (16 * hex_digit_value(t[2])->0 + hex_digit_value(t[3])->0) as u8,
                (16 * hex_digit_value(t[4])->0 + hex_digit_value(t[5])->0) as u8,
            )
            &&& (t.len() == 8 && digits) ==> hex_color_of(bytes) == HexColor::Rgba(
                (16 * hex_digit_value(t[0])->0 + hex_digit_value(t[1])->0) as u8,
                (16 * hex_digit_value(t[2])->0 + hex_digit_value(t[3])->0) as u8,
                (16 * hex_digit_value(t[4])->0 + hex_digit_value(t[5])->0) as u8,
                (16 * hex_digit_value(t[6])->0 + hex_digit_value(t[7])->0) as u8,
            )
            &&& !((t.len() == 6 || t.len() == 8) && digits) ==> hex_color_of(bytes) == HexColor::Malformed
        }),
{
    let t = without_hashes(bytes);
    if (t.len() == 6 || t.len() == 8) && !(forall|k: int| 0 <= k < t.len() ==> #[trigger] hex_digit_value(t[k]) is Some) {
        let k = choose|k: int| 0 <= k < t.len() && !(hex_digit_value(t[k]) is Some);
        assert(hex_digit_value(t[k]) is None);
    }
    if (t.len() == 6 || t.len() == 8) && (forall|k: int| 0 <= k < t.len() ==> #[trigger] hex_digit_value(t[k]) is Some) {
        assert(hex_digit_value(t[0]) is Some && hex_digit_value(t[1]) is Some);
        assert(hex_digit_value(t[2]) is Some && hex_digit_value(t[3]) is Some);
        assert(hex_digit_value(t[4]) is Some && hex_digit_value(t[5]) is Some);
        if t.len() == 8 {
            assert(hex_digit_value(t[6]) is Some && hex_digit_value(t[7]) is Some);
        }
    }
}

/// The alpha of an eight-digit colour is what the same two digits give as
/// the red of a six-digit colour: the alpha pair is read like the others.
pub proof fn law_alpha_reads_like_red(bytes: Seq<u8>)
    requires
        hex_color_of(bytes) is Rgba,
    ensures
        ({
            let t = without_hashes(bytes);
            hex_color_of(seq![t[6], t[7], 0x30u8, 0x30u8, 0x30u8, 0x30u8]) == HexColor::Rgb(
                hex_color_of(bytes)->Rgba_3,
                0,
                0,
            )
        }),
{
    let t = without_hashes(bytes);
    law_channels_read_high_digit_first(bytes);
    let u = seq![t[6], t[7], 0x30u8, 0x30u8, 0x30u8, 0x30u8];
    if t.len() != 8 || !(forall|k: int| 0 <= k < t.len() ==> #[trigger] hex_digit_value(t[k]) is Some) {
        if t.len() == 6 && (forall|k: int| 0 <= k < t.len() ==> #[trigger] hex_digit_value(t[k]) is Some) {
            assert(hex_color_of(bytes) is Rgb);
        }
    }
    assert(hex_digit_value(t[6]) is Some && hex_digit_value(t[7]) is Some);
    assert(u[0] != 0x23);
    assert(without_hashes(u) == u);
    law_channels_read_high_digit_first(u);
    assert(forall|k: int| 0 <= k < u.len() ==> #[trigger] hex_digit_value(u[k]) is Some);
}

fn hex_digit(b: u8) -> (r: Option<u8>)
    ensures
        r == hex_digit_value(b),
{
    if 0x30 <= b && b <= 0x39 {
        Some(b - 0x30)
    } else if 0x61 <= b && b <= 0x66 {
        Some(b - 0x61 + 10)
    } else if 0x41 <= b && b <= 0x46 {
        Some(b - 0x41 + 10)
    } else {
        None
    }
}

fn hex_field(a: u8, b: u8) -> (r: Option<u8>)
    ensures
        r == hex_field_value(a, b),
{
    match (hex_digit(a), hex_digit(b)) {
        (Some(x), Some(y)) => Some(16 * x + y),
        _ => None,
    }
}

proof fn lemma_without_hashes_skip(b: Seq<u8>, k: int)
    requires
        0 <= k <= b.len(),
        forall|i: int| 0 <= i < k ==> b[i] == 0x23,
    ensures
        without_hashes(b) == without_hashes(b.skip(k)),
    decreases k,
{
    if k > 0 {
        assert(b.drop_first() =~= b.skip(1));
        lemma_without_hashes_skip(b.drop_first(), k - 1);
        assert(b.drop_first().skip(k - 1) =~= b.skip(k));
    } else {
        assert(b.skip(0) =~= b);
    }
}

/// Reads the bytes of a hex colour string.
pub fn parse_hex_color(bytes: &[u8]) -> (r: HexColor)
    ensures
        r == hex_color_of(bytes@),
        ({
            let t = without_hashes(bytes@);
            let digits = forall|k: int| 0 <= k < t.len() ==> #[trigger] hex_digit_value(t[k]) is Some;
            &&& (t.len() == 6 && digits) ==> r == HexColor::Rgb(
                (16 * hex_digit_value(t[0])->0 + hex_digit_value(t[1])->0) as u8,
                (16 * hex_digit_value(t[2])->0 + hex_digit_value(t[3])->0) as u8,
                (16 * hex_digit_value(t[4])->0 + hex_digit_value(t[5])->0) as u8,
            )
            &&& (t.len() == 8 && digits) ==> r == HexColor::Rgba(
                (16 * hex_digit_value(t[0])->0 + hex_digit_value(t[1])->0) as u8,
                (16 * hex_digit_value(t[2])->0 + hex_digit_value(t[3])->0) as u8,
                (16 * hex_digit_value(t[4])->0 + hex_digit_value(t[5])->0) as u8,
                (16 * hex_digit_value(t[6])->0 + hex_digit_value(t[7])->0) as u8,
            )
            &&& !((t.len() == 6 || t.len() == 8) && digits) ==> r == HexColor::Malformed
        }),
{
    proof {
        law_channels_read_high_digit_first(bytes@);
    }
    let ghost bs = bytes@;
    let mut start: usize = 0;
    while start < bytes.len() && bytes[start] == 0x23
        invariant
            bs == bytes@,
            start <= bytes@.len(),
            forall|i: int| 0 <= i < start ==> bs[i] == 0x23,
        decreases bytes@.len() - start,
    {
        start = start + 1;
    }
    proof {
        lemma_without_hashes_skip(bs, start as int);
        let t = bs.skip(start as int);
        if t.len() > 0 {
            assert(t[0] == bs[start as int]);
        }
        assert(without_hashes(t) == t);
    }
    let n = bytes.len() - start;
    if n != 6 && n != 8 {
        return HexColor::Malformed;
    }
    let r = hex_field(bytes[start], bytes[start + 1]);
    let g = hex_field(bytes[start + 2], bytes[start + 3]);
    let b = hex_field(bytes[start + 4], bytes[start + 5]);
    if n == 6 {
        match (r, g, b) {
            (Some(r), Some(g), Some(b)) => HexColor::Rgb(r, g, b),
            _ => HexColor::Malformed,
        }
    } else {
        let a = hex_field(bytes[start + 6], bytes[start + 7]);
        match (r, g, b, a) {
            (Some(r), Some(g), Some(b), Some(a)) => HexColor::Rgba(r, g, b, a),
            _ => HexColor::Malformed,
        }
    }
}

} // verus!
