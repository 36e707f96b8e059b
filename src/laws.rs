//! Properties of the scan that hold for every input.
use vstd::prelude::*;
use vstd::utf8::{encode_scalar, encode_utf8};
use crate::model::{
    byte_step,
    char_units,
    classify_byte,
    classify_char,
    lemma_bytes_match_chars,
    lemma_encode_scalar_shape,
    lemma_encode_utf8_append,
    lemma_encode_utf8_last,
    lemma_scan_accumulates,
    lemma_scan_chars_bounds,
    lemma_scan_prefix_agree,
    no_newline_in,
    position_of,
    ranges_of,
    scan_chars,
    scan_from,
    start_model,
    ScanModel,
    Symbol,
};
use crate::types::{PosModel, RangeModel, Units};
use crate::utf16_buf_parser::{line_char, line_char_range, line_char_ranges, scan_line, scan_lines};

verus! {

// ---------------------------------------------------------------------------
// Positions of a scalar sequence
// ---------------------------------------------------------------------------

/// The number of line feeds in `cs`.
pub open spec fn newline_count(cs: Seq<char>) -> nat
    decreases cs.len(),
{
    if cs.len() == 0 {
        0
    } else {
        newline_count(cs.drop_last()) + if cs.last() == '\n' {
            1nat
        } else {
            0nat
        }
    }
}

/// The scalars after the last line feed of `cs` (all of `cs` if it has none).
pub open spec fn line_tail(cs: Seq<char>) -> Seq<char>
    decreases cs.len(),
{
    if cs.len() == 0 {
        cs
    } else if cs.last() == '\n' {
        Seq::empty()
    } else {
        line_tail(cs.drop_last()).push(cs.last())
    }
}

/// The characters in `cs`, counted in `units`.
pub open spec fn chars_units(cs: Seq<char>, units: Units) -> nat
    decreases cs.len(),
{
    if cs.len() == 0 {
        0
    } else {
        chars_units(cs.drop_last(), units) + char_units(cs.last(), units)
    }
}

/// The position just after `cs`: its line is the number of line feeds, its
/// character the count of the scalars after the last of them, its offset the
/// length of the UTF-8 encoding.
pub open spec fn end_position(cs: Seq<char>, units: Units) -> PosModel {
    PosModel {
        line: newline_count(cs),
        character: chars_units(line_tail(cs), units),
        offset: encode_utf8(cs).len(),
    }
}

/// Reading one byte at a time reaches the same state, and so the same ranges,
/// as reading one Unicode scalar at a time; every parser's strategy (by scalar,
/// by byte, by window of any width) is proved against this common result.
pub proof fn law_byte_scan_matches_scalar_scan(text: Seq<char>, units: Units)
    ensures
        scan_from(start_model(), encode_utf8(text), encode_utf8(text).len(), units) == scan_chars(text, units),
        scan_from(start_model(), encode_utf8(text), encode_utf8(text).len(), units).ranges == ranges_of(text, units),
{
    lemma_bytes_match_chars(text, units);
}

/// Scanning the same text twice gives the same ranges.
pub proof fn law_scan_is_deterministic(first: Seq<char>, second: Seq<char>, units: Units)
    requires
        first == second,
    ensures
        ranges_of(first, units) == ranges_of(second, units),
        scan_chars(first, units) == scan_chars(second, units),
{
}

/// After a scan, the line is the number of line feeds read, and the character
/// counter holds the scalars (or UTF-16 code units) read since the last of
/// them.
pub proof fn law_scan_ends_at_end_position(text: Seq<char>, units: Units)
    ensures
        position_of(scan_chars(text, units)) == end_position(text, units),
        units == Units::Scalars ==> scan_chars(text, units).character == line_tail(text).len(),
    decreases text.len(),
{
    lemma_scan_chars_bounds(text, units);
    lemma_chars_units_scalars(line_tail(text));
    if text.len() > 0 {
        let prev = text.drop_last();
        let c = text.last();
        law_scan_ends_at_end_position(prev, units);
        if c != '\n' {
            assert(line_tail(text).drop_last() =~= line_tail(prev));
        }
    }
}

proof fn lemma_chars_units_scalars(cs: Seq<char>)
    ensures
        chars_units(cs, Units::Scalars) == cs.len(),
    decreases cs.len(),
{
    if cs.len() > 0 {
        lemma_chars_units_scalars(cs.drop_last());
    }
}

/// A text without `]`, or without `[`, has no ranges.
pub proof fn law_unmatched_brackets_give_no_range(text: Seq<char>, units: Units)
    requires
        (forall|i: int| 0 <= i < text.len() ==> text[i] != ']') || (forall|i: int|
            0 <= i < text.len() ==> text[i] != '['),
    ensures
        ranges_of(text, units).len() == 0,
    decreases text.len(),
{
    if text.len() > 0 {
        let prev = text.drop_last();
        assert(forall|i: int| 0 <= i < prev.len() ==> prev[i] == text[i]);
        law_unmatched_brackets_give_no_range(prev, units);
        lemma_no_open_no_pending(prev, units);
    }
}

proof fn lemma_no_open_no_pending(text: Seq<char>, units: Units)
    ensures
        (forall|i: int| 0 <= i < text.len() ==> text[i] != '[') ==> scan_chars(text, units).pending is None,
    decreases text.len(),
{
    if text.len() > 0 {
        let prev = text.drop_last();
        assert(forall|i: int| 0 <= i < prev.len() ==> prev[i] == text[i]);
        lemma_no_open_no_pending(prev, units);
    }
}

/// While a start is pending, scalars other than `]` keep it and add no range.
proof fn lemma_pending_kept(prefix: Seq<char>, rest: Seq<char>, units: Units)
    requires
        scan_chars(prefix, units).pending is Some,
        forall|i: int| 0 <= i < rest.len() ==> rest[i] != ']',
    ensures
        scan_chars(prefix + rest, units).pending == scan_chars(prefix, units).pending,
        scan_chars(prefix + rest, units).ranges == scan_chars(prefix, units).ranges,
    decreases rest.len(),
{
    if rest.len() == 0 {
        assert(prefix + rest =~= prefix);
    } else {
        lemma_pending_kept(prefix, rest.drop_last(), units);
        assert((prefix + rest).drop_last() =~= prefix + rest.drop_last());
        assert((prefix + rest).last() == rest.last());
    }
}

/// A range opened after `before` and closed after `inside` (which may hold
/// line feeds and further `[`, but no `]`) starts at the end of `before` and
/// ends just after the `]`, whatever lines lie between.
pub proof fn law_range_spans_lines(before: Seq<char>, inside: Seq<char>, units: Units)
    requires
        scan_chars(before, units).pending is None,
        forall|i: int| 0 <= i < inside.len() ==> inside[i] != ']',
    ensures
        ({
            let whole = before.push('[') + inside.push(']');
            &&& ranges_of(whole, units) == ranges_of(before, units).push(
                RangeModel { start: end_position(before, units), end: end_position(whole, units) },
            )
            &&& scan_chars(whole, units).pending is None
        }),
{
    let opened = before.push('[');
    let whole = opened + inside.push(']');
    assert(opened.drop_last() =~= before);
    law_scan_ends_at_end_position(before, units);
    lemma_pending_kept(opened, inside, units);
    assert(whole.drop_last() =~= opened + inside);
    assert(whole.last() == ']');
    law_scan_ends_at_end_position(whole, units);
}

/// `p` is where the text before some `[` of `cs` ends.
pub open spec fn opened_at(cs: Seq<char>, p: PosModel, units: Units) -> bool {
    exists|i: int| 0 <= i < cs.len() && cs[i] == '[' && p == end_position(cs.subrange(0, i), units)
}

/// `r` starts where the text before some `[` of `cs` ends, and ends where the
/// text through a later `]` ends.
pub open spec fn spans_brackets(cs: Seq<char>, r: RangeModel, units: Units) -> bool {
    exists|i: int, j: int|
        0 <= i < j <= cs.len() && cs[i] == '[' && cs[j - 1] == ']' && r.start == end_position(
            cs.subrange(0, i),
            units,
        ) && r.end == end_position(cs.subrange(0, j), units)
}

proof fn lemma_ranges_at_brackets(cs: Seq<char>, units: Units)
    ensures
        forall|k: int|
            0 <= k < scan_chars(cs, units).ranges.len() ==> spans_brackets(
                cs,
                #[trigger] scan_chars(cs, units).ranges[k],
                units,
            ),
        scan_chars(cs, units).pending is Some ==> opened_at(cs, scan_chars(cs, units).pending->0, units),
    decreases cs.len(),
{
    if cs.len() > 0 {
        let prev = cs.drop_last();
        let c = cs.last();
        lemma_ranges_at_brackets(prev, units);
        law_scan_ends_at_end_position(prev, units);
        law_scan_ends_at_end_position(cs, units);
        let mp = scan_chars(prev, units);
        let m = scan_chars(cs, units);
        assert forall|k: int| 0 <= k < m.ranges.len() implies spans_brackets(cs, #[trigger] m.ranges[k], units) by {
            if k < mp.ranges.len() {
                assert(m.ranges[k] == mp.ranges[k]);
                assert(spans_brackets(prev, mp.ranges[k], units));
                let (i, j) = choose|i: int, j: int|
                    0 <= i < j <= prev.len() && prev[i] == '[' && prev[j - 1] == ']'
                        && mp.ranges[k].start == end_position(prev.subrange(0, i), units)
                        && mp.ranges[k].end == end_position(prev.subrange(0, j), units);
                assert(cs.subrange(0, i) =~= prev.subrange(0, i));
                assert(cs.subrange(0, j) =~= prev.subrange(0, j));
                assert(cs[i] == prev[i] && cs[j - 1] == prev[j - 1]);
            } else {
                let p = mp.pending->0;
                let i = choose|i: int| 0 <= i < prev.len() && prev[i] == '[' && p == end_position(prev.subrange(0, i), units);
                assert(cs.subrange(0, i) =~= prev.subrange(0, i));
                assert(cs.subrange(0, cs.len() as int) =~= cs);
                assert(cs[i] == prev[i]);
                assert(spans_brackets(cs, m.ranges[k], units) == spans_brackets(cs, RangeModel { start: p, end: end_position(cs, units) }, units));
            }
        }
        if m.pending is Some {
            if mp.pending is Some {
                let p = mp.pending->0;
                let i = choose|i: int| 0 <= i < prev.len() && prev[i] == '[' && p == end_position(prev.subrange(0, i), units);
                assert(cs.subrange(0, i) =~= prev.subrange(0, i));
                assert(cs[i] == prev[i]);
            } else {
                assert(cs.subrange(0, prev.len() as int) =~= prev);
                assert(cs[prev.len() as int] == c);
            }
        }
    }
}

/// Every range starts where the text before its `[` ends and ends where the
/// text through its `]` ends: its line is the count of line feeds before that
/// place, and its character the count of scalars (or UTF-16 code units) since
/// the last of them, whatever line feeds the range itself holds.
pub proof fn law_ranges_sit_at_their_brackets(text: Seq<char>, units: Units)
    ensures
        forall|k: int|
            0 <= k < ranges_of(text, units).len() ==> spans_brackets(
                text,
                #[trigger] ranges_of(text, units)[k],
                units,
            ),
{
    lemma_ranges_at_brackets(text, units);
}

// ---------------------------------------------------------------------------
// Streaming by lines
// ---------------------------------------------------------------------------

/// The text made of the given lines.
pub open spec fn join_lines(lines: Seq<Seq<char>>) -> Seq<char>
    decreases lines.len(),
{
    if lines.len() == 0 {
        Seq::empty()
    } else {
        join_lines(lines.drop_last()) + lines.last()
    }
}

/// Each line as UTF-8.
pub open spec fn encode_lines(lines: Seq<Seq<char>>) -> Seq<Seq<u8>> {
    lines.map_values(|l: Seq<char>| encode_utf8(l))
}

/// A line feed can only be the last scalar of a line.
pub open spec fn is_line(l: Seq<char>) -> bool {
    forall|i: int| 0 <= i < l.len() - 1 ==> l[i] != '\n'
}

pub open spec fn ends_with_newline(l: Seq<char>) -> bool {
    l.len() > 0 && l.last() == '\n'
}

/// A text cut into lines: every line but the last ends in its line feed.
pub open spec fn is_line_split(lines: Seq<Seq<char>>) -> bool {
    &&& forall|k: int| 0 <= k < lines.len() ==> is_line(#[trigger] lines[k])
    &&& forall|k: int| 0 <= k < lines.len() - 1 ==> ends_with_newline(#[trigger] lines[k])
}

/// Two states that agree in everything but byte offsets.
pub open spec fn same_lines_and_characters(a: ScanModel, b: ScanModel) -> bool {
    &&& a.line == b.line
    &&& a.character == b.character
    &&& a.pending is Some <==> b.pending is Some
    &&& a.pending is Some ==> line_char(a.pending->0) == line_char(b.pending->0)
    &&& line_char_ranges(a.ranges) == line_char_ranges(b.ranges)
}

proof fn lemma_line_char_ranges_push(rs: Seq<RangeModel>, r: RangeModel)
    ensures
        line_char_ranges(rs.push(r)) == line_char_ranges(rs).push(line_char_range(r)),
{
    assert(line_char_ranges(rs.push(r)) =~= line_char_ranges(rs).push(line_char_range(r)));
}

proof fn lemma_same_after_step(a: ScanModel, b: ScanModel, byte: u8, units: Units)
    requires
        same_lines_and_characters(a, b),
    ensures
        same_lines_and_characters(byte_step(a, byte, units), byte_step(b, byte, units)),
{
    if classify_byte(byte) == Symbol::Close && a.pending is Some {
        let ea = position_of(byte_step(a, byte, units));
        let eb = position_of(byte_step(b, byte, units));
        lemma_line_char_ranges_push(a.ranges, RangeModel { start: a.pending->0, end: ea });
        lemma_line_char_ranges_push(b.ranges, RangeModel { start: b.pending->0, end: eb });
    }
}

proof fn lemma_same_after_scan(a: ScanModel, b: ScanModel, bytes: Seq<u8>, n: nat, units: Units)
    requires
        same_lines_and_characters(a, b),
    ensures
        same_lines_and_characters(scan_from(a, bytes, n, units), scan_from(b, bytes, n, units)),
    decreases n,
{
    if n > 0 {
        lemma_same_after_scan(a, b, bytes, (n - 1) as nat, units);
        lemma_same_after_step(
            scan_from(a, bytes, (n - 1) as nat, units),
            scan_from(b, bytes, (n - 1) as nat, units),
            bytes[n - 1],
            units,
        );
    }
}

/// Reading `first + second` is reading `first`, then `second`.
proof fn lemma_scan_concat(init: ScanModel, first: Seq<u8>, second: Seq<u8>, k: nat, units: Units)
    requires
        k <= second.len(),
    ensures
        scan_from(init, first + second, first.len() + k, units) == scan_from(
            scan_from(init, first, first.len(), units),
            second,
            k,
            units,
        ),
    decreases k,
{
    if k == 0 {
        lemma_scan_prefix_agree(init, first + second, first, first.len(), units);
    } else {
        lemma_scan_concat(init, first, second, (k - 1) as nat, units);
        assert((first + second)[first.len() + k - 1] == second[k - 1]);
    }
}

/// The UTF-8 of scalars without a line feed holds no line feed byte.
proof fn lemma_encode_no_newline(cs: Seq<char>)
    requires
        forall|i: int| 0 <= i < cs.len() ==> cs[i] != '\n',
    ensures
        no_newline_in(encode_utf8(cs), 0, encode_utf8(cs).len() as int),
    decreases cs.len(),
{
    if cs.len() > 0 {
        let prev = cs.drop_last();
        lemma_encode_no_newline(prev);
        lemma_encode_utf8_last(cs);
        lemma_encode_scalar_shape(cs.last(), Units::Scalars);
        let a = encode_utf8(prev);
        let e = encode_scalar(cs.last() as u32);
        let all = encode_utf8(cs);
        assert forall|k: int| 0 <= k < all.len() implies #[trigger] all[k] != 0x0a by {
            if k < a.len() {
                assert(all[k] == a[k]);
            } else {
                assert(all[k] == e[k - a.len()]);
                if k == a.len() {
                    assert(classify_char(cs.last()) != Symbol::Newline);
                }
            }
        }
    }
}

/// Reading a line that ends in its only line feed moves to the next line and
/// leaves the character counter at zero.
proof fn lemma_full_line(init: ScanModel, l: Seq<char>)
    requires
        is_line(l),
        ends_with_newline(l),
    ensures
        scan_from(init, encode_utf8(l), encode_utf8(l).len(), Units::Utf16).line == init.line + 1,
        scan_from(init, encode_utf8(l), encode_utf8(l).len(), Units::Utf16).character == 0,
{
    let prev = l.drop_last();
    lemma_encode_utf8_last(l);
    lemma_encode_scalar_shape(l.last(), Units::Utf16);
    lemma_encode_no_newline(prev);
    let a = encode_utf8(prev);
    let all = encode_utf8(l);
    assert(no_newline_in(all, 0, a.len() as int)) by {
        assert forall|k: int| 0 <= k < a.len() implies #[trigger] all[k] != 0x0a by {
            assert(all[k] == a[k]);
        }
    }
    lemma_scan_accumulates(init, all, 0, a.len(), Units::Utf16);
    assert(all.len() == a.len() + 1);
    assert(all[a.len() as int] == 0x0a);
}

proof fn lemma_join_last(lines: Seq<Seq<char>>)
    requires
        lines.len() > 0,
    ensures
        encode_utf8(join_lines(lines)) == encode_utf8(join_lines(lines.drop_last())) + encode_utf8(lines.last()),
        encode_lines(lines).drop_last() == encode_lines(lines.drop_last()),
        encode_lines(lines).last() == encode_utf8(lines.last()),
{
    lemma_encode_utf8_append(join_lines(lines.drop_last()), lines.last());
    assert(encode_lines(lines).drop_last() =~= encode_lines(lines.drop_last()));
}

/// The whole-text state after lines that all end in their line feed.
pub open spec fn whole_state(lines: Seq<Seq<char>>) -> ScanModel {
    let bytes = encode_utf8(join_lines(lines));
    scan_from(start_model(), bytes, bytes.len(), Units::Utf16)
}

proof fn lemma_full_lines(lines: Seq<Seq<char>>)
    requires
        forall|k: int| 0 <= k < lines.len() ==> is_line(#[trigger] lines[k]) && ends_with_newline(lines[k]),
    ensures
        same_lines_and_characters(scan_lines(encode_lines(lines)), whole_state(lines)),
        scan_lines(encode_lines(lines)).character == 0,
        scan_lines(encode_lines(lines)).offset == 0,
    decreases lines.len(),
{
    if lines.len() > 0 {
        let prev = lines.drop_last();
        let l = lines.last();
        assert(forall|k: int| 0 <= k < prev.len() ==> #[trigger] prev[k] == lines[k]);
        lemma_full_lines(prev);
        lemma_join_last(lines);
        let s_prev = scan_lines(encode_lines(prev));
        let w_prev = whole_state(prev);
        let first = encode_utf8(join_lines(prev));
        let second = encode_utf8(l);
        lemma_scan_concat(start_model(), first, second, second.len(), Units::Utf16);
        let begin = ScanModel { character: 0, offset: 0, ..s_prev };
        assert(begin == s_prev);
        lemma_same_after_scan(begin, w_prev, second, second.len(), Units::Utf16);
        assert(is_line(lines[lines.len() - 1]) && ends_with_newline(lines[lines.len() - 1]));
        lemma_full_line(begin, l);
    }
}

/// Feeding a text line by line gives the same ranges, by line and character,
/// as scanning the whole text with positions in UTF-16 code units.
pub proof fn law_stream_matches_whole_text(lines: Seq<Seq<char>>)
    requires
        is_line_split(lines),
    ensures
        line_char_ranges(scan_lines(encode_lines(lines)).ranges) == line_char_ranges(
            ranges_of(join_lines(lines), Units::Utf16),
        ),
{
    lemma_bytes_match_chars(join_lines(lines), Units::Utf16);
    if lines.len() > 0 {
        let prev = lines.drop_last();
        let l = lines.last();
        assert forall|k: int| 0 <= k < prev.len() implies is_line(#[trigger] prev[k]) && ends_with_newline(prev[k]) by {
            assert(prev[k] == lines[k]);
        }
        lemma_full_lines(prev);
        lemma_join_last(lines);
        let s_prev = scan_lines(encode_lines(prev));
        let w_prev = whole_state(prev);
        let first = encode_utf8(join_lines(prev));
        let second = encode_utf8(l);
        lemma_scan_concat(start_model(), first, second, second.len(), Units::Utf16);
        let begin = ScanModel { character: 0, offset: 0, ..s_prev };
        assert(begin == s_prev);
        lemma_same_after_scan(begin, w_prev, second, second.len(), Units::Utf16);
    }
}

} // verus!
