//! The scanner as a mathematical state machine.
//!
//! Two readings of the same machine are given: one that consumes the input a
//! byte at a time (`scan_from`), and one that consumes it a Unicode scalar at a
//! time (`scan_chars`). Every executable parser is specified against them.
use vstd::prelude::*;
use vstd::utf8::{
    encode_scalar,
    encode_utf8,
    is_continuation_byte,
    leading_byte_width_1,
    leading_byte_width_2,
    leading_byte_width_3,
    leading_byte_width_4,
    last_continuation_byte,
    second_last_continuation_byte,
    third_last_continuation_byte,
    char_is_scalar,
    char_u32_cast,
};
use crate::types::{PosModel, RangeModel, Units};

verus! {

/// What a symbol of the input means to the state machine.
pub enum Symbol {
    Open,
    Close,
    Newline,
    Other,
}

/// The state of a scan: the current position, the pending range start, and
/// the ranges closed so far.
pub struct ScanModel {
    pub line: nat,
    pub character: nat,
    pub offset: nat,
    pub pending: Option<PosModel>,
    pub ranges: Seq<RangeModel>,
}

pub open spec fn position_of(m: ScanModel) -> PosModel {
    PosModel { line: m.line, character: m.character, offset: m.offset }
}

/// The state before anything has been read.
pub open spec fn start_model() -> ScanModel {
    ScanModel { line: 0, character: 0, offset: 0, pending: None, ranges: seq![] }
}

/// One transition: consume a symbol worth `units` characters and `width` bytes.
pub open spec fn transition(m: ScanModel, sym: Symbol, units: nat, width: nat) -> ScanModel {
    let after = PosModel { line: m.line, character: m.character + units, offset: m.offset + width };
    if sym == Symbol::Close && m.pending is Some {
        ScanModel {
            line: m.line,
            character: after.character,
            offset: after.offset,
            pending: None,
            ranges: m.ranges.push(RangeModel { start: m.pending->0, end: after }),
        }
    } else if sym == Symbol::Open && m.pending is None {
        ScanModel {
            line: m.line,
            character: after.character,
            offset: after.offset,
            pending: Some(position_of(m)),
            ranges: m.ranges,
        }
    } else if sym == Symbol::Newline {
        ScanModel {
            line: m.line + 1,
            character: 0,
            offset: after.offset,
            pending: m.pending,
            ranges: m.ranges,
        }
    } else {
        ScanModel {
            line: m.line,
            character: after.character,
            offset: after.offset,
            pending: m.pending,
            ranges: m.ranges,
        }
    }
}

// ---------------------------------------------------------------------------
// Byte-level reading
// ---------------------------------------------------------------------------

/// The byte of `[`.
pub const OPEN_BRACKET: u8 = 0x5b;

/// The byte of `]`.
pub const CLOSE_BRACKET: u8 = 0x5d;

/// The byte of a line feed.
pub const NEWLINE: u8 = 0x0a;

pub open spec fn classify_byte(b: u8) -> Symbol {
    if b == OPEN_BRACKET {
        Symbol::Open
    } else if b == CLOSE_BRACKET {
        Symbol::Close
    } else if b == NEWLINE {
        Symbol::Newline
    } else {
        Symbol::Other
    }
}

/// The encoded width announced by a lead byte (1 for anything below `0xC0`).
pub open spec fn width_of(b: u8) -> nat {
    if b < 0xc0 {
        1
    } else if b < 0xe0 {
        2
    } else if b < 0xf0 {
        3
    } else {
        4
    }
}

/// The characters that a byte contributes: a lead byte carries the count of
/// its whole scalar, a continuation byte carries none.
pub open spec fn byte_units(b: u8, units: Units) -> nat {
    if is_continuation_byte(b) {
        0
    } else if units == Units::Utf16 && b >= 0xf0 {
        2
    } else {
        1
    }
}

pub open spec fn byte_step(m: ScanModel, b: u8, units: Units) -> ScanModel {
    transition(m, classify_byte(b), byte_units(b, units), 1)
}

/// The state after the first `n` bytes, starting from `init`.
pub open spec fn scan_from(init: ScanModel, bytes: Seq<u8>, n: nat, units: Units) -> ScanModel
    decreases n,
{
    if n == 0 {
        init
    } else {
        byte_step(scan_from(init, bytes, (n - 1) as nat, units), bytes[n - 1], units)
    }
}

/// Total characters carried by a byte sequence.
pub open spec fn units_of(bytes: Seq<u8>, units: Units) -> nat
    decreases bytes.len(),
{
    if bytes.len() == 0 {
        0
    } else {
        units_of(bytes.drop_last(), units) + byte_units(bytes.last(), units)
    }
}

/// The lead byte at `i`, if it is one, is followed by as many continuation
/// bytes as its width announces.
pub open spec fn lead_complete_at(bytes: Seq<u8>, i: int) -> bool {
    is_continuation_byte(bytes[i]) || {
        &&& i + width_of(bytes[i]) <= bytes.len()
        &&& forall|k: int| i < k < i + width_of(bytes[i]) ==> is_continuation_byte(#[trigger] bytes[k])
    }
}

/// Every lead byte is followed by its continuation bytes (true of valid UTF-8).
pub open spec fn lead_bytes_complete(bytes: Seq<u8>) -> bool {
    forall|i: int| 0 <= i < bytes.len() ==> #[trigger] lead_complete_at(bytes, i)
}

/// No byte in `[from, to)` is a newline.
pub open spec fn no_newline_in(bytes: Seq<u8>, from: int, to: int) -> bool {
    forall|k: int| from <= k < to ==> #[trigger] bytes[k] != 0x0a
}

/// No byte in `[from, to)` changes the state machine's mode or line, given
/// whether a range start is pending.
pub open spec fn window_is_quiet(bytes: Seq<u8>, from: int, to: int, pending: bool) -> bool {
    forall|k: int|
        from <= k < to ==> {
            &&& #[trigger] bytes[k] != 0x0a
            &&& (pending ==> bytes[k] != 0x5d)
            &&& (!pending ==> bytes[k] != 0x5b)
        }
}

/// How far one step of the byte scanner moves from a byte: over a whole
/// scalar from its lead byte, or over a single stray continuation byte.
pub open spec fn stride(b: u8) -> nat {
    if is_continuation_byte(b) {
        1
    } else {
        width_of(b)
    }
}

/// Where a walk that starts at `i` and moves by [`stride`] first reaches or
/// passes `max` (or the end of the input).
pub open spec fn stride_end(bytes: Seq<u8>, i: nat, max: nat) -> nat
    decreases max + 4 - i,
{
    if i >= max || i >= bytes.len() {
        i
    } else {
        stride_end(bytes, i + stride(bytes[i as int]), max)
    }
}

// ---------------------------------------------------------------------------
// Scalar-level reading
// ---------------------------------------------------------------------------

pub open spec fn classify_char(c: char) -> Symbol {
    if c == '[' {
        Symbol::Open
    } else if c == ']' {
        Symbol::Close
    } else if c == '\n' {
        Symbol::Newline
    } else {
        Symbol::Other
    }
}

/// Bytes in the UTF-8 encoding of `c`.
pub open spec fn utf8_len(c: char) -> nat {
    if (c as u32) < 0x80 {
        1
    } else if (c as u32) < 0x800 {
        2
    } else if (c as u32) < 0x10000 {
        3
    } else {
        4
    }
}

/// Code units in the UTF-16 encoding of `c`.
pub open spec fn utf16_len(c: char) -> nat {
    if (c as u32) < 0x10000 {
        1
    } else {
        2
    }
}

pub open spec fn char_units(c: char, units: Units) -> nat {
    match units {
        Units::Scalars => 1,
        Units::Utf16 => utf16_len(c),
    }
}

pub open spec fn char_step(m: ScanModel, c: char, units: Units) -> ScanModel {
    transition(m, classify_char(c), char_units(c, units), utf8_len(c))
}

/// The state after reading the scalars `cs` from the start.
pub open spec fn scan_chars(cs: Seq<char>, units: Units) -> ScanModel
    decreases cs.len(),
{
    if cs.len() == 0 {
        start_model()
    } else {
        char_step(scan_chars(cs.drop_last(), units), cs.last(), units)
    }
}

/// The ranges that scanning `cs` reports, in the order of their closing `]`.
pub open spec fn ranges_of(cs: Seq<char>, units: Units) -> Seq<RangeModel> {
    scan_chars(cs, units).ranges
}

// ---------------------------------------------------------------------------
// Lemmas on the byte-level reading
// ---------------------------------------------------------------------------

pub proof fn lemma_scan_offset(init: ScanModel, bytes: Seq<u8>, n: nat, units: Units)
    ensures
        scan_from(init, bytes, n, units).offset == init.offset + n,
    decreases n,
{
    if n > 0 {
        lemma_scan_offset(init, bytes, (n - 1) as nat, units);
    }
}

/// The state after `n` bytes depends on those bytes only.
pub proof fn lemma_scan_prefix_agree(init: ScanModel, a: Seq<u8>, b: Seq<u8>, n: nat, units: Units)
    requires
        n <= a.len(),
        n <= b.len(),
        forall|i: int| 0 <= i < n ==> a[i] == b[i],
    ensures
        scan_from(init, a, n, units) == scan_from(init, b, n, units),
    decreases n,
{
    if n > 0 {
        lemma_scan_prefix_agree(init, a, b, (n - 1) as nat, units);
    }
}

/// Continuation bytes only move the offset.
pub proof fn lemma_scan_continuations(
    init: ScanModel,
    bytes: Seq<u8>,
    from: nat,
    to: nat,
    units: Units,
)
    requires
        from <= to <= bytes.len(),
        forall|k: int| from <= k < to ==> is_continuation_byte(#[trigger] bytes[k]),
    ensures
        ({
            let m = scan_from(init, bytes, from, units);
            scan_from(init, bytes, to, units) == ScanModel { offset: (m.offset + (to - from)) as nat, ..m }
        }),
    decreases to - from,
{
    if to > from {
        lemma_scan_continuations(init, bytes, from, (to - 1) as nat, units);
    }
}

pub proof fn lemma_units_of_extend(bytes: Seq<u8>, from: int, to: int, units: Units)
    requires
        0 <= from <= to < bytes.len(),
    ensures
        units_of(bytes.subrange(from, to + 1), units) == units_of(bytes.subrange(from, to), units)
            + byte_units(bytes[to], units),
{
    assert(bytes.subrange(from, to + 1).drop_last() =~= bytes.subrange(from, to));
}

/// Between two offsets with no newline, characters accumulate and the line stays.
pub proof fn lemma_scan_accumulates(
    init: ScanModel,
    bytes: Seq<u8>,
    from: nat,
    to: nat,
    units: Units,
)
    requires
        from <= to <= bytes.len(),
        no_newline_in(bytes, from as int, to as int),
    ensures
        scan_from(init, bytes, to, units).character == scan_from(init, bytes, from, units).character
            + units_of(bytes.subrange(from as int, to as int), units),
        scan_from(init, bytes, to, units).line == scan_from(init, bytes, from, units).line,
    decreases to - from,
{
    if to > from {
        let t1 = (to - 1) as nat;
        lemma_scan_accumulates(init, bytes, from, t1, units);
        lemma_units_of_extend(bytes, from as int, t1 as int, units);
    } else {
        assert(bytes.subrange(from as int, to as int).len() == 0);
    }
}

/// A window with no byte that the current mode reacts to only advances the
/// counters.
pub proof fn lemma_scan_quiet_window(
    init: ScanModel,
    bytes: Seq<u8>,
    from: nat,
    to: nat,
    units: Units,
)
    requires
        from <= to <= bytes.len(),
        window_is_quiet(bytes, from as int, to as int, scan_from(init, bytes, from, units).pending is Some),
    ensures
        ({
            let m = scan_from(init, bytes, from, units);
            scan_from(init, bytes, to, units) == ScanModel {
                character: m.character + units_of(bytes.subrange(from as int, to as int), units),
                offset: (m.offset + (to - from)) as nat,
                ..m
            }
        }),
    decreases to - from,
{
    if to > from {
        let t1 = (to - 1) as nat;
        assert(window_is_quiet(bytes, from as int, t1 as int, scan_from(init, bytes, from, units).pending is Some));
        lemma_scan_quiet_window(init, bytes, from, t1, units);
        lemma_units_of_extend(bytes, from as int, t1 as int, units);
    } else {
        assert(bytes.subrange(from as int, to as int).len() == 0);
    }
}

/// Reading further only appends ranges: those found after `a` bytes are a
/// prefix of those found after `b >= a` bytes.
pub proof fn lemma_scan_ranges_grow(init: ScanModel, bytes: Seq<u8>, a: nat, b: nat, units: Units)
    requires
        a <= b,
    ensures
        scan_from(init, bytes, a, units).ranges.len() <= scan_from(init, bytes, b, units).ranges.len(),
        scan_from(init, bytes, b, units).ranges.subrange(
            0,
            scan_from(init, bytes, a, units).ranges.len() as int,
        ) == scan_from(init, bytes, a, units).ranges,
    decreases b - a,
{
    let ra = scan_from(init, bytes, a, units).ranges;
    if b == a {
        assert(ra.subrange(0, ra.len() as int) =~= ra);
    } else {
        let p = (b - 1) as nat;
        lemma_scan_ranges_grow(init, bytes, a, p, units);
        let rp = scan_from(init, bytes, p, units).ranges;
        let rb = scan_from(init, bytes, b, units).ranges;
        if rb != rp {
            assert(rb.subrange(0, ra.len() as int) =~= rp.subrange(0, ra.len() as int));
        }
    }
}

pub proof fn lemma_scan_line_bound(init: ScanModel, bytes: Seq<u8>, n: nat, units: Units)
    ensures
        scan_from(init, bytes, n, units).line <= init.line + n,
        scan_from(init, bytes, n, units).ranges.len() <= init.ranges.len() + n,
    decreases n,
{
    if n > 0 {
        lemma_scan_line_bound(init, bytes, (n - 1) as nat, units);
    }
}

/// Characters never outrun bytes, except just after the lead byte of a
/// four-byte scalar counted in UTF-16 code units.
pub proof fn lemma_scan_character_bound(init: ScanModel, bytes: Seq<u8>, n: nat, units: Units)
    requires
        init.character == 0,
        n <= bytes.len(),
        lead_bytes_complete(bytes),
    ensures
        scan_from(init, bytes, n, units).character <= n + 1,
        units == Units::Scalars ==> scan_from(init, bytes, n, units).character <= n,
        scan_from(init, bytes, n, units).character <= n || (n >= 1 && bytes[n - 1] >= 0xf0
            && !is_continuation_byte(bytes[n - 1])),
    decreases n,
{
    if n > 0 {
        let p = (n - 1) as nat;
        lemma_scan_character_bound(init, bytes, p, units);
        if p >= 1 && bytes[p - 1] >= 0xf0 && !is_continuation_byte(bytes[p - 1])
            && scan_from(init, bytes, p, units).character > p {
            assert(lead_complete_at(bytes, p - 1));
            assert(is_continuation_byte(bytes[p as int]));
        }
    }
}

/// At a place that is the end of the input or holds a lead byte, the count of
/// characters is at most the count of bytes.
pub proof fn lemma_scan_character_at_boundary(init: ScanModel, bytes: Seq<u8>, n: nat, units: Units)
    requires
        init.character == 0,
        n <= bytes.len(),
        lead_bytes_complete(bytes),
        n == bytes.len() || !is_continuation_byte(bytes[n as int]) || (n >= 1 && bytes[n - 1]
            < 0x80),
    ensures
        scan_from(init, bytes, n, units).character <= n,
{
    lemma_scan_character_bound(init, bytes, n, units);
    if scan_from(init, bytes, n, units).character > n {
        assert(lead_complete_at(bytes, n - 1));
    }
}

/// A sub-slice that ends before a lead byte (or the end, or just after an
/// ASCII byte) keeps every lead byte complete.
pub proof fn lemma_complete_subrange(bytes: Seq<u8>, from: int, to: int)
    requires
        lead_bytes_complete(bytes),
        0 <= from <= to <= bytes.len(),
        to == bytes.len() || !is_continuation_byte(bytes[to]) || (to > from && bytes[to - 1] < 0x80),
    ensures
        lead_bytes_complete(bytes.subrange(from, to)),
{
    let s = bytes.subrange(from, to);
    assert forall|i: int| 0 <= i < s.len() implies #[trigger] lead_complete_at(s, i) by {
        let p = from + i;
        assert(lead_complete_at(bytes, p));
        if !is_continuation_byte(s[i]) {
            let w = width_of(bytes[p]);
            if p + w > to {
                if to < bytes.len() && !is_continuation_byte(bytes[to]) {
                    assert(is_continuation_byte(bytes[to]));
                } else if to == bytes.len() {
                } else {
                    if to - 1 > p {
                        assert(is_continuation_byte(bytes[to - 1]));
                    }
                }
            }
            assert forall|k: int| i < k < i + width_of(s[i]) implies is_continuation_byte(#[trigger] s[k]) by {
                assert(is_continuation_byte(bytes[from + k]));
            }
        }
    }
}

/// A walk that has not yet reached `max` moves forward and stays in the input.
pub proof fn lemma_stride_end_progress(bytes: Seq<u8>, i: nat, max: nat)
    requires
        i < max <= bytes.len(),
    ensures
        i < stride_end(bytes, i, max),
{
    lemma_stride_end_ge(bytes, i + stride(bytes[i as int]), max);
}

pub proof fn lemma_stride_end_ge(bytes: Seq<u8>, i: nat, max: nat)
    ensures
        i <= stride_end(bytes, i, max),
    decreases max + 4 - i,
{
    if !(i >= max || i >= bytes.len()) {
        lemma_stride_end_ge(bytes, i + stride(bytes[i as int]), max);
    }
}

/// A walk from any place up to the end of complete input stops exactly at the end.
pub proof fn lemma_stride_end_at_len(bytes: Seq<u8>, i: nat)
    requires
        i <= bytes.len(),
        lead_bytes_complete(bytes),
    ensures
        stride_end(bytes, i, bytes.len()) == bytes.len(),
    decreases bytes.len() - i,
{
    if i < bytes.len() {
        assert(lead_complete_at(bytes, i as int));
        lemma_stride_end_at_len(bytes, i + stride(bytes[i as int]));
    }
}

// ---------------------------------------------------------------------------
// Lemmas relating scalars and their UTF-8 bytes
// ---------------------------------------------------------------------------

pub proof fn lemma_encode_utf8_append(a: Seq<char>, b: Seq<char>)
    ensures
        encode_utf8(a + b) == encode_utf8(a) + encode_utf8(b),
    decreases a.len(),
{
    if a.len() == 0 {
        assert(a + b =~= b);
        assert(encode_utf8(a) + encode_utf8(b) =~= encode_utf8(b));
    } else {
        assert((a + b).drop_first() =~= a.drop_first() + b);
        lemma_encode_utf8_append(a.drop_first(), b);
        assert(encode_utf8(a + b) =~= encode_scalar(a[0] as u32) + encode_utf8(a.drop_first() + b));
    }
}

pub proof fn lemma_encode_utf8_last(cs: Seq<char>)
    requires
        cs.len() > 0,
    ensures
        encode_utf8(cs) == encode_utf8(cs.drop_last()) + encode_scalar(cs.last() as u32),
{
    let c = cs.last();
    assert(cs =~= cs.drop_last() + seq![c]);
    lemma_encode_utf8_append(cs.drop_last(), seq![c]);
    assert(seq![c].drop_first() =~= Seq::<char>::empty());
    assert(encode_utf8(seq![c]) =~= encode_scalar(c as u32) + encode_utf8(Seq::<char>::empty()));
    assert(encode_utf8(seq![c]) =~= encode_scalar(c as u32));
}

proof fn lemma_char_eq_by_value(c: char, d: char)
    requires
        c as u32 == d as u32,
    ensures
        c == d,
{
    char_u32_cast(c, c as u32);
    char_u32_cast(d, d as u32);
}

/// The shape of the UTF-8 encoding of one scalar.
pub proof fn lemma_encode_scalar_shape(c: char, units: Units)
    ensures
        ({
            let e = encode_scalar(c as u32);
            &&& e.len() == utf8_len(c)
            &&& !is_continuation_byte(e[0])
            &&& width_of(e[0]) == e.len()
            &&& byte_units(e[0], units) == char_units(c, units)
            &&& classify_byte(e[0]) == classify_char(c)
            &&& forall|k: int| 1 <= k < e.len() ==> is_continuation_byte(#[trigger] e[k])
        }),
{
    char_is_scalar(c);
    let v = c as u32;
    let e = encode_scalar(v);
    if v < 0x80 {
        let b0 = leading_byte_width_1(v);
        assert(b0 as u32 == v) by (bit_vector)
            requires
                b0 == ((v & 0x7f) as u8),
                v < 0x80,
        ;
        if b0 == 0x5b {
            lemma_char_eq_by_value(c, '[');
        } else if b0 == 0x5d {
            lemma_char_eq_by_value(c, ']');
        } else if b0 == 0x0a {
            lemma_char_eq_by_value(c, '\n');
        }
    } else if v < 0x800 {
        let b0 = leading_byte_width_2(v);
        let b1 = last_continuation_byte(v);
        assert(0xc0 <= b0 <= 0xdf) by (bit_vector)
            requires
                b0 == (0xc0u8 | (((v >> 6u32) & 0x1fu32) as u8)),
        ;
        assert(0x80 <= b1 <= 0xbf) by (bit_vector)
            requires
                b1 == (0x80u8 | ((v & 0x3fu32) as u8)),
        ;
        assert(e[1] == b1);
    } else if v < 0x10000 {
        let b0 = leading_byte_width_3(v);
        let b1 = second_last_continuation_byte(v);
        let b2 = last_continuation_byte(v);
        assert(0xe0 <= b0 <= 0xef) by (bit_vector)
            requires
                b0 == (0xe0u8 | (((v >> 12u32) & 0x0fu32) as u8)),
        ;
        assert(0x80 <= b1 <= 0xbf) by (bit_vector)
            requires
                b1 == (0x80u8 | (((v >> 6u32) & 0x3fu32) as u8)),
        ;
        assert(0x80 <= b2 <= 0xbf) by (bit_vector)
            requires
                b2 == (0x80u8 | ((v & 0x3fu32) as u8)),
        ;
        assert(e[1] == b1 && e[2] == b2);
    } else {
        let b0 = leading_byte_width_4(v);
        let b1 = third_last_continuation_byte(v);
        let b2 = second_last_continuation_byte(v);
        let b3 = last_continuation_byte(v);
        assert(0xf0 <= b0 <= 0xf7) by (bit_vector)
            requires
                b0 == (0xf0u8 | (((v >> 18u32) & 0x7u32) as u8)),
        ;
        assert(0x80 <= b1 <= 0xbf) by (bit_vector)
            requires
                b1 == (0x80u8 | (((v >> 12u32) & 0x3fu32) as u8)),
        ;
        assert(0x80 <= b2 <= 0xbf) by (bit_vector)
            requires
                b2 == (0x80u8 | (((v >> 6u32) & 0x3fu32) as u8)),
        ;
        assert(0x80 <= b3 <= 0xbf) by (bit_vector)
            requires
                b3 == (0x80u8 | ((v & 0x3fu32) as u8)),
        ;
        assert(e[1] == b1 && e[2] == b2 && e[3] == b3);
    }
}

/// UTF-8 produced by encoding scalars has every lead byte complete.
pub proof fn lemma_encode_utf8_complete(cs: Seq<char>)
    ensures
        lead_bytes_complete(encode_utf8(cs)),
    decreases cs.len(),
{
    if cs.len() > 0 {
        let prev = cs.drop_last();
        let c = cs.last();
        lemma_encode_utf8_complete(prev);
        lemma_encode_utf8_last(cs);
        lemma_encode_scalar_shape(c, Units::Scalars);
        let a = encode_utf8(prev);
        let e = encode_scalar(c as u32);
        let all = encode_utf8(cs);
        assert forall|i: int| 0 <= i < all.len() implies #[trigger] lead_complete_at(all, i) by {
            if i < a.len() {
                assert(lead_complete_at(a, i));
                if !is_continuation_byte(all[i]) {
                    assert forall|k: int| i < k < i + width_of(all[i]) implies is_continuation_byte(#[trigger] all[k]) by {
                        assert(is_continuation_byte(a[k]));
                    }
                }
            } else {
                let j = i - a.len();
                if j == 0 {
                    assert forall|k: int| i < k < i + width_of(all[i]) implies is_continuation_byte(#[trigger] all[k]) by {
                        assert(is_continuation_byte(e[k - a.len()]));
                    }
                } else {
                    assert(is_continuation_byte(e[j]));
                }
            }
        }
    }
}

pub proof fn lemma_encode_utf8_len(cs: Seq<char>)
    ensures
        encode_utf8(cs).len() >= cs.len(),
    decreases cs.len(),
{
    if cs.len() > 0 {
        lemma_encode_utf8_len(cs.drop_last());
        lemma_encode_utf8_last(cs);
        lemma_encode_scalar_shape(cs.last(), Units::Scalars);
    }
}

/// Reading the UTF-8 bytes of `cs` one byte at a time reaches the same state
/// as reading `cs` one scalar at a time.
pub proof fn lemma_bytes_match_chars(cs: Seq<char>, units: Units)
    ensures
        scan_from(start_model(), encode_utf8(cs), encode_utf8(cs).len(), units) == scan_chars(cs, units),
    decreases cs.len(),
{
    if cs.len() > 0 {
        let prev = cs.drop_last();
        let c = cs.last();
        lemma_bytes_match_chars(prev, units);
        lemma_encode_utf8_last(cs);
        lemma_encode_scalar_shape(c, units);
        let a = encode_utf8(prev);
        let e = encode_scalar(c as u32);
        let all = encode_utf8(cs);
        let n = a.len();
        lemma_scan_prefix_agree(start_model(), all, a, n, units);
        let m = scan_from(start_model(), all, n, units);
        assert(all[n as int] == e[0]);
        lemma_scan_offset(start_model(), all, n, units);
        assert forall|k: int| n + 1 <= k < all.len() implies is_continuation_byte(#[trigger] all[k]) by {
            assert(is_continuation_byte(e[k - n]));
        }
        lemma_scan_continuations(start_model(), all, n + 1, all.len(), units);
    }
}

/// The scalar-level reading keeps its offset equal to the encoded length, and
/// its line and character below it.
pub proof fn lemma_scan_chars_bounds(cs: Seq<char>, units: Units)
    ensures
        scan_chars(cs, units).offset == encode_utf8(cs).len(),
        scan_chars(cs, units).line <= scan_chars(cs, units).offset,
        scan_chars(cs, units).character <= scan_chars(cs, units).offset,
        scan_chars(cs, units).ranges.len() <= scan_chars(cs, units).offset,
    decreases cs.len(),
{
    if cs.len() > 0 {
        lemma_scan_chars_bounds(cs.drop_last(), units);
        lemma_encode_utf8_last(cs);
        lemma_encode_scalar_shape(cs.last(), units);
    }
}

} // verus!
