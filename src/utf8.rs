//! Classification of UTF-8 bytes and counting of the scalars and UTF-16 code
//! units that a byte slice encodes.
use vstd::prelude::*;
use crate::model::{
    lead_bytes_complete,
    lead_complete_at,
    lemma_units_of_extend,
    units_of,
    width_of,
};
use crate::types::Units;
use crate::window::count_leads_in_window;

verus! {

/// Window strategies for counting scalars.
#[derive(Clone, Copy, PartialEq, Eq, Debug, Structural)]
pub enum Vectorization {
    /// Windows of 16 bytes.
    Intel128,
    /// Windows of 32 bytes.
    Intel256,
    /// Windows of 16 bytes, counted the portable way.
    Portable128,
}

/// True iff the two high bits of `byte` are `10`.
pub fn is_continuation_byte(byte: u8) -> (r: bool)
    ensures
        r == vstd::utf8::is_continuation_byte(byte),
{
    0x80 <= byte && byte < 0xc0
}

/// The encoded width that a lead byte announces: 1 below `0xC0`, 2 up to
/// `0xDF`, 3 up to `0xEF`, 4 above.
pub fn get_character_width(starting_byte: u8) -> (r: usize)
    ensures
        r == width_of(starting_byte),
        1 <= r <= 4,
{
    if starting_byte < 0b1100_0000 {
        1
    } else if starting_byte < 0b1110_0000 {
        2
    } else if starting_byte < 0b1111_0000 {
        3
    } else {
        4
    }
}

/// The number of scalars that start in `bytes` (its non-continuation bytes).
pub fn count_utf8_characters_scalar(bytes: &[u8]) -> (r: usize)
    ensures
        r == units_of(bytes@, Units::Scalars),
{
    let r = count_leads_in_window(bytes, 0, bytes.len());
    assert(bytes@.subrange(0, bytes@.len() as int) =~= bytes@);
    r
}

/// The number of scalars that start in a 16-byte window.
pub fn count_utf8_characters_v128(v: &[u8; 16]) -> (r: usize)
    ensures
        r == units_of(v@, Units::Scalars),
{
    count_utf8_characters_scalar(v.as_slice())
}

/// The number of scalars that start in a 16-byte window.
pub fn count_utf8_characters_v128_portable(v: &[u8; 16]) -> (r: usize)
    ensures
        r == units_of(v@, Units::Scalars),
{
    count_utf8_characters_scalar(v.as_slice())
}

/// The number of scalars that start in a 32-byte window.
pub fn count_utf8_characters_v256(v: &[u8; 32]) -> (r: usize)
    ensures
        r == units_of(v@, Units::Scalars),
{
    count_utf8_characters_scalar(v.as_slice())
}

/// The number of scalars that start in `bytes`: whole windows first (none
/// without a strategy), then the tail one byte at a time.
pub fn count_utf8_characters(bytes: &[u8], vectorization: Option<Vectorization>) -> (r: usize)
    ensures
        r == units_of(bytes@, Units::Scalars),
{
    let width: usize = match vectorization {
        Some(Vectorization::Intel128) => 16,
        Some(Vectorization::Intel256) => 32,
        Some(Vectorization::Portable128) => 16,
        None => 0,
    };
    let mut i: usize = 0;
    let mut count: usize = 0;
    assert(bytes@.subrange(0, 0).len() == 0);
    if width > 0 {
        while width <= bytes.len() - i
            invariant
                width > 0,
                i <= bytes@.len(),
                count == units_of(bytes@.subrange(0, i as int), Units::Scalars),
                count <= i,
            decreases bytes@.len() - i,
        {
            let c = count_leads_in_window(bytes, i, width);
            proof {
                lemma_units_of_concat(bytes@, 0, i as int, i + width, Units::Scalars);
            }
            count = count + c;
            i = i + width;
        }
    }
    if i < bytes.len() {
        let tail = count_leads_in_window(bytes, i, bytes.len() - i);
        proof {
            lemma_units_of_concat(bytes@, 0, i as int, bytes@.len() as int, Units::Scalars);
        }
        count = count + tail;
        i = bytes.len();
    }
    assert(bytes@.subrange(0, bytes@.len() as int) =~= bytes@);
    count
}

/// The number of UTF-16 code units needed for the scalars that `bytes`
/// encodes: one per lead byte, two for a four-byte lead.
pub fn count_utf16_from_utf8(bytes: &[u8]) -> (r: usize)
    requires
        lead_bytes_complete(bytes@),
    ensures
        r == units_of(bytes@, Units::Utf16),
        r <= bytes@.len(),
{
    let mut count: usize = 0;
    let mut i: usize = 0;
    let n = bytes.len();
    assert(bytes@.subrange(0, 0).len() == 0);
    while i < n
        invariant
            n == bytes@.len(),
            i <= n,
            lead_bytes_complete(bytes@),
            count == units_of(bytes@.subrange(0, i as int), Units::Utf16),
            count <= i || (i >= 1 && bytes@[i - 1] >= 0xf0 && !vstd::utf8::is_continuation_byte(
                bytes@[i - 1],
            ) && count <= i + 1),
        decreases n - i,
    {
        proof {
            lemma_units_of_extend(bytes@, 0, i as int, Units::Utf16);
            assert(lead_complete_at(bytes@, i as int));
            if i >= 1 {
                assert(lead_complete_at(bytes@, i - 1));
            }
        }
        let x = bytes[i];
        if !(0x80 <= x && x <= 0xbf) {
            if x >= 0xf0 {
                count = count + 2;
            } else {
                count = count + 1;
            }
        }
        i = i + 1;
    }
    assert(bytes@.subrange(0, n as int) =~= bytes@);
    if n >= 1 && count > n {
        assert(lead_complete_at(bytes@, n - 1));
    }
    count
}

/// Characters over adjacent slices add up.
pub proof fn lemma_units_of_concat(bytes: Seq<u8>, a: int, b: int, c: int, units: Units)
    requires
        0 <= a <= b <= c <= bytes.len(),
    ensures
        units_of(bytes.subrange(a, c), units) == units_of(bytes.subrange(a, b), units) + units_of(
            bytes.subrange(b, c),
            units,
        ),
    decreases c - b,
{
    if c > b {
        lemma_units_of_concat(bytes, a, b, c - 1, units);
        lemma_units_of_extend(bytes, a, c - 1, units);
        lemma_units_of_extend(bytes, b, c - 1, units);
    } else {
        assert(bytes.subrange(b, c).len() == 0);
    }
}

} // verus!
