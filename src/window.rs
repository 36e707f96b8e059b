//! The two primitives that a vectorized scan is built from: testing a window
//! of bytes against a pair of byte values, and counting the lead bytes in it.
use vstd::prelude::*;
use crate::model::{byte_units, units_of, lemma_units_of_extend};
use crate::types::Units;

verus! {

/// Whether some byte of `bytes[start..start + width]` equals `a` or `b`.
pub fn window_matches_any(bytes: &[u8], start: usize, width: usize, a: u8, b: u8) -> (r: bool)
    requires
        start + width <= bytes@.len(),
    ensures
        r <==> exists|k: int| start <= k < start + width && (bytes@[k] == a || bytes@[k] == b),
{
    let _len = bytes.len();
    let mut i: usize = start;
    let end = start + width;
    while i < end
        invariant
            start <= i <= end,
            end == start + width,
            end <= bytes@.len(),
            forall|k: int| start <= k < i ==> bytes@[k] != a && bytes@[k] != b,
        decreases end - i,
    {
        let x = bytes[i];
        if x == a || x == b {
            assert(start <= i < start + width && (bytes@[i as int] == a || bytes@[i as int] == b));
            return true;
        }
        i = i + 1;
    }
    false
}

/// The number of bytes of `bytes[start..start + width]` that are not UTF-8
/// continuation bytes, that is, the number of scalars that start there.
pub fn count_leads_in_window(bytes: &[u8], start: usize, width: usize) -> (r: usize)
    requires
        start + width <= bytes@.len(),
    ensures
        r == units_of(bytes@.subrange(start as int, start + width), Units::Scalars),
        r <= width,
{
    let mut count: usize = 0;
    let _len = bytes.len();
    let mut i: usize = start;
    let end = start + width;
    assert(bytes@.subrange(start as int, start as int).len() == 0);
    while i < end
        invariant
            start <= i <= end,
            end == start + width,
            end <= bytes@.len(),
            count == units_of(bytes@.subrange(start as int, i as int), Units::Scalars),
            count <= i - start,
        decreases end - i,
    {
        proof {
            lemma_units_of_extend(bytes@, start as int, i as int, Units::Scalars);
        }
        let x = bytes[i];
        if !(0x80 <= x && x <= 0xbf) {
            count = count + 1;
        }
        i = i + 1;
    }
    count
}

} // verus!
