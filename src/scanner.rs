//! The one scan routine that every parser instantiates: a byte scanner, a
//! window scanner over any window width, and a scalar-by-scalar scanner, for
//! either way of counting characters.
use vstd::prelude::*;
use vstd::string::StringSliceAdditionalSpecFns;
use vstd::utf8::encode_utf8;
use crate::model::{
    lead_bytes_complete,
    lead_complete_at,
    lemma_bytes_match_chars,
    lemma_complete_subrange,
    lemma_encode_utf8_append,
    lemma_encode_utf8_complete,
    lemma_encode_utf8_len,
    lemma_scan_accumulates,
    lemma_scan_character_at_boundary,
    lemma_scan_character_bound,
    lemma_scan_chars_bounds,
    lemma_scan_continuations,
    lemma_scan_line_bound,
    lemma_scan_offset,
    lemma_scan_quiet_window,
    lemma_stride_end_at_len,
    lemma_stride_end_progress,
    no_newline_in,
    position_of,
    scan_chars,
    scan_from,
    start_model,
    stride,
    stride_end,
    utf16_len,
    utf8_len,
    ScanModel,
    CLOSE_BRACKET,
    NEWLINE,
    OPEN_BRACKET,
};
use crate::types::{pending_view, ranges_view, PosModel, Position, Range, RangeModel, Units};
use crate::utf8::{count_utf16_from_utf8, get_character_width};
use crate::window::{count_leads_in_window, window_matches_any};

verus! {

/// Bytes in the UTF-8 encoding of `c`.
pub fn char_len_utf8(c: char) -> (r: usize)
    ensures
        r == utf8_len(c),
{
    let v = c as u32;
    if v < 0x80 {
        1
    } else if v < 0x800 {
        2
    } else if v < 0x10000 {
        3
    } else {
        4
    }
}

/// Code units in the UTF-16 encoding of `c`.
pub fn char_len_utf16(c: char) -> (r: usize)
    ensures
        r == utf16_len(c),
{
    if (c as u32) < 0x10000 {
        1
    } else {
        2
    }
}

/// The state of one scan: counters, the pending range start and the ranges
/// found so far.
///
/// When characters are counted in scalars, `character` is always current.
/// When they are counted in UTF-16 code units, `character` is the count at
/// `synced`, and is brought up to date only where a position is recorded.
pub struct Scanner {
    units: Units,
    line: usize,
    character: usize,
    offset: usize,
    synced: usize,
    range_start: Option<Position>,
    ranges: Vec<Range>,
    init: Ghost<ScanModel>,
}

impl Scanner {
    pub closed spec fn units(&self) -> Units {
        self.units
    }

    /// The byte offset reached.
    pub closed spec fn offset(&self) -> nat {
        self.offset as nat
    }

    /// The state the scan started from.
    pub closed spec fn init(&self) -> ScanModel {
        self.init@
    }

    pub closed spec fn line(&self) -> nat {
        self.line as nat
    }

    pub closed spec fn pending(&self) -> Option<PosModel> {
        pending_view(self.range_start)
    }

    /// The ranges found so far.
    pub closed spec fn found(&self) -> Seq<Range> {
        self.ranges@
    }

    /// The current position, when characters are counted in scalars.
    pub closed spec fn position(&self) -> PosModel {
        PosModel { line: self.line as nat, character: self.character as nat, offset: self.offset as nat }
    }

    /// The scanner holds the state reached by reading the first `offset()`
    /// bytes of `bytes` from `init()`.
    pub closed spec fn tracks(&self, bytes: Seq<u8>) -> bool {
        let m = scan_from(self.init@, bytes, self.offset as nat, self.units);
        &&& self.init@.offset == 0
        &&& self.init@.character == 0
        &&& self.init@.line + bytes.len() <= usize::MAX
        &&& lead_bytes_complete(bytes)
        &&& self.offset <= bytes.len()
        &&& self.line == m.line
        &&& pending_view(self.range_start) == m.pending
        &&& ranges_view(self.ranges@) == m.ranges
        &&& (self.units == Units::Scalars ==> self.character == m.character)
        &&& (self.units == Units::Utf16 ==> {
            &&& self.synced <= self.offset
            &&& self.character == scan_from(self.init@, bytes, self.synced as nat, self.units).character
            &&& no_newline_in(bytes, self.synced as int, self.offset as int)
        })
    }

    /// A scanner at the start of its input.
    pub fn new(units: Units) -> (r: Scanner)
        ensures
            r.units() == units,
            r.offset() == 0,
            r.init() == start_model(),
            forall|bytes: Seq<u8>|
                lead_bytes_complete(bytes) && bytes.len() <= usize::MAX ==> #[trigger] r.tracks(bytes),
    {
        let r = Scanner {
            units,
            line: 0,
            character: 0,
            offset: 0,
            synced: 0,
            range_start: None,
            ranges: Vec::new(),
            init: Ghost(start_model()),
        };
        proof {
            assert(ranges_view(r.ranges@) =~= Seq::<RangeModel>::empty());
        }
        r
    }

    /// Starts a new stretch of input on line `line`: the character and byte
    /// counters go back to zero, while the pending start and the ranges found
    /// carry over.
    pub fn begin_line(&mut self, line: usize)
        ensures
            final(self).units() == old(self).units(),
            final(self).offset() == 0,
            final(self).line() == line,
            final(self).pending() == old(self).pending(),
            final(self).found() == old(self).found(),
            final(self).init() == (ScanModel {
                line: line as nat,
                character: 0,
                offset: 0,
                pending: old(self).pending(),
                ranges: ranges_view(old(self).found()),
            }),
            forall|bytes: Seq<u8>|
                lead_bytes_complete(bytes) && line + bytes.len() <= usize::MAX
                    ==> #[trigger] final(self).tracks(bytes),
    {
        self.line = line;
        self.character = 0;
        self.offset = 0;
        self.synced = 0;
        self.init = Ghost(
            ScanModel {
                line: line as nat,
                character: 0,
                offset: 0,
                pending: pending_view(self.range_start),
                ranges: ranges_view(self.ranges@),
            },
        );
    }

    /// The current position (its character is current when counting scalars).
    pub fn current_position(&self) -> (r: Position)
        ensures
            r@ == self.position(),
    {
        Position { line: self.line, character: self.character, offset: self.offset }
    }

    /// The current line number.
    pub fn line_number(&self) -> (r: usize)
        ensures
            r == self.line(),
    {
        self.line
    }

    /// The ranges found so far.
    pub fn ranges(&self) -> (r: &[Range])
        ensures
            r@ == self.found(),
    {
        self.ranges.as_slice()
    }

    /// What a tracking scanner shows of its state: the ranges, pending start
    /// and line of the model, and, when counting scalars, its position.
    pub proof fn lemma_tracks_state(&self, bytes: Seq<u8>)
        requires
            self.tracks(bytes),
        ensures
            lead_bytes_complete(bytes),
            self.offset() <= bytes.len(),
            ranges_view(self.found()) == scan_from(self.init(), bytes, self.offset(), self.units()).ranges,
            self.pending() == scan_from(self.init(), bytes, self.offset(), self.units()).pending,
            self.line() == scan_from(self.init(), bytes, self.offset(), self.units()).line,
            self.units() == Units::Scalars ==> self.position() == position_of(
                scan_from(self.init(), bytes, self.offset(), self.units()),
            ),
    {
        lemma_scan_offset(self.init@, bytes, self.offset as nat, self.units);
    }

    /// What a tracking scanner knows of its counters.
    proof fn lemma_tracks_facts(&self, bytes: Seq<u8>)
        requires
            self.tracks(bytes),
        ensures
            scan_from(self.init@, bytes, self.offset as nat, self.units).offset == self.offset,
            self.line <= self.init@.line + self.offset,
            self.offset < bytes.len() && self.units == Units::Scalars ==> self.character
                <= self.offset,
    {
        lemma_scan_offset(self.init@, bytes, self.offset as nat, self.units);
        lemma_scan_line_bound(self.init@, bytes, self.offset as nat, self.units);
        lemma_scan_character_bound(self.init@, bytes, self.offset as nat, self.units);
    }

    /// Reads one scalar (or one stray continuation byte) at `offset`.
    fn scan_one(&mut self, bytes: &[u8])
        requires
            old(self).tracks(bytes@),
            old(self).offset < bytes@.len(),
        ensures
            final(self).tracks(bytes@),
            final(self).units == old(self).units,
            final(self).init == old(self).init,
            final(self).offset == old(self).offset + stride(bytes@[old(self).offset as int]),
    {
        let ghost init = self.init@;
        let ghost units = self.units;
        let ghost bs = bytes@;
        let o = self.offset;
        let byte = bytes[o];
        proof {
            self.lemma_tracks_facts(bs);
            assert(lead_complete_at(bs, o as int));
            lemma_scan_character_bound(init, bs, o as nat, units);
        }
        if 0x80 <= byte && byte < 0xc0 {
            self.offset = o + 1;
            return;
        }
        let width = get_character_width(byte);
        let previous = Position { line: self.line, character: self.character, offset: o };
        proof {
            lemma_scan_continuations(init, bs, (o + 1) as nat, (o + width) as nat, units);
        }
        if self.units == Units::Scalars {
            self.character = self.character + 1;
        }
        self.offset = o + width;
        if width == 1 {
            if byte == NEWLINE {
                self.line = self.line + 1;
                self.character = 0;
                self.synced = o + 1;
            } else if byte == OPEN_BRACKET && self.range_start.is_none() {
                let mut start = previous;
                if self.units == Units::Utf16 {
                    proof {
                        lemma_complete_subrange(bs, self.synced as int, o as int);
                        lemma_scan_accumulates(init, bs, self.synced as nat, o as nat, units);
                        lemma_scan_character_at_boundary(init, bs, o as nat, units);
                    }
                    let count = count_utf16_from_utf8(&bytes[self.synced..o]);
                    self.character = self.character + count;
                    self.synced = o;
                    start = Position { line: self.line, character: self.character, offset: o };
                }
                self.range_start = Some(start);
            } else if byte == CLOSE_BRACKET && self.range_start.is_some() {
                if self.units == Units::Utf16 {
                    proof {
                        lemma_complete_subrange(bs, self.synced as int, o + 1);
                        lemma_scan_accumulates(init, bs, self.synced as nat, (o + 1) as nat, units);
                        lemma_scan_character_at_boundary(init, bs, (o + 1) as nat, units);
                    }
                    let count = count_utf16_from_utf8(&bytes[self.synced..o + 1]);
                    self.character = self.character + count;
                    self.synced = o + 1;
                }
                let start = self.range_start.unwrap();
                let end = Position { line: self.line, character: self.character, offset: o + 1 };
                proof {
                    assert(ranges_view(self.ranges@.push(Range { start, end })) =~= ranges_view(
                        self.ranges@,
                    ).push(Range { start, end }@));
                }
                self.ranges.push(Range { start, end });
                self.range_start = None;
            }
        }
    }

    /// Reads whole scalars from `offset` until `limit` more bytes have been
    /// covered or the input ends.
    pub fn scan_bytes_limited(&mut self, bytes: &[u8], limit: usize)
        requires
            old(self).tracks(bytes@),
        ensures
            final(self).tracks(bytes@),
            final(self).units() == old(self).units(),
            final(self).init() == old(self).init(),
            final(self).offset() == stride_end(
                bytes@,
                old(self).offset(),
                if limit >= bytes@.len() - old(self).offset() {
                    bytes@.len() as nat
                } else {
                    (old(self).offset() + limit) as nat
                },
            ),
    {
        let n = bytes.len();
        let max = if limit >= n - self.offset {
            n
        } else {
            self.offset + limit
        };
        let ghost target = stride_end(bytes@, self.offset as nat, max as nat);
        while self.offset < max
            invariant
                self.tracks(bytes@),
                self.units == old(self).units,
                self.init == old(self).init,
                n == bytes@.len(),
                max <= n,
                stride_end(bytes@, self.offset as nat, max as nat) == target,
            decreases n - self.offset,
        {
            self.scan_one(bytes);
        }
    }

    /// Reads everything from `offset` to the end, one window of `width` bytes
    /// at a time: a window that holds a byte the current mode reacts to is
    /// handed to the byte scanner, any other is skipped in one step.
    pub fn scan_windows(&mut self, bytes: &[u8], width: usize)
        requires
            old(self).tracks(bytes@),
            width > 0,
        ensures
            final(self).tracks(bytes@),
            final(self).units() == old(self).units(),
            final(self).init() == old(self).init(),
            final(self).offset() == bytes@.len(),
    {
        let n = bytes.len();
        while width <= n - self.offset
            invariant
                self.tracks(bytes@),
                self.units == old(self).units,
                self.init == old(self).init,
                n == bytes@.len(),
                width > 0,
            decreases n - self.offset,
        {
            let o = self.offset;
            let hit = match self.range_start {
                Some(_) => window_matches_any(bytes, o, width, CLOSE_BRACKET, NEWLINE),
                None => window_matches_any(bytes, o, width, OPEN_BRACKET, NEWLINE),
            };
            if hit {
                proof {
                    lemma_stride_end_progress(bytes@, o as nat, (o + width) as nat);
                }
                self.scan_bytes_limited(bytes, width);
            } else {
                let ghost init = self.init@;
                let ghost units = self.units;
                proof {
                    lemma_scan_quiet_window(init, bytes@, o as nat, (o + width) as nat, units);
                    lemma_scan_character_bound(init, bytes@, (o + width) as nat, units);
                    lemma_scan_offset(init, bytes@, o as nat, units);
                }
                if self.units == Units::Scalars {
                    let count = count_leads_in_window(bytes, o, width);
                    self.character = self.character + count;
                }
                self.offset = o + width;
            }
        }
        proof {
            lemma_stride_end_at_len(bytes@, self.offset as nat);
        }
        self.scan_bytes_limited(bytes, n);
    }

    /// Reads all of `text` one scalar at a time, from the start.
    pub fn scan_chars(&mut self, text: &str)
        requires
            old(self).tracks(text.spec_bytes()),
            old(self).offset() == 0,
            old(self).init() == start_model(),
        ensures
            final(self).tracks(text.spec_bytes()),
            final(self).units() == old(self).units(),
            final(self).init() == old(self).init(),
            final(self).offset() == text.spec_bytes().len(),
    {
        let ghost units = self.units;
        let ghost all = text@;
        self.synced = 0;
        proof {
            lemma_encode_utf8_len(all);
            assert(all.subrange(0, 0) =~= Seq::<char>::empty());
            assert(ranges_view(self.ranges@) =~= Seq::<RangeModel>::empty());
        }
        for c in it: text.chars()
            invariant
                it.seq() == all,
                all == text@,
                self.units == units,
                self.init@ == start_model(),
                encode_utf8(all).len() <= usize::MAX,
                ({
                    let m = scan_chars(all.subrange(0, it.index() as int), units);
                    &&& self.line == m.line
                    &&& self.character == m.character
                    &&& self.offset == m.offset
                    &&& self.synced == self.offset
                    &&& pending_view(self.range_start) == m.pending
                    &&& ranges_view(self.ranges@) == m.ranges
                }),
        {
            let ghost k = it.index();
            let ghost prefix = all.subrange(0, k as int);
            let ghost next = all.subrange(0, k + 1);
            proof {
                assert(next.drop_last() =~= prefix);
                assert(next.last() == c);
                lemma_scan_chars_bounds(prefix, units);
                lemma_scan_chars_bounds(next, units);
                lemma_encode_utf8_append(next, all.subrange(k + 1, all.len() as int));
                assert(next + all.subrange(k + 1, all.len() as int) =~= all);
            }
            let previous = Position { line: self.line, character: self.character, offset: self.offset };
            let units_here = match self.units {
                Units::Scalars => 1,
                Units::Utf16 => char_len_utf16(c),
            };
            self.character = self.character + units_here;
            self.offset = self.offset + char_len_utf8(c);
            self.synced = self.offset;
            if c == ']' && self.range_start.is_some() {
                let start = self.range_start.unwrap();
                let end = Position { line: self.line, character: self.character, offset: self.offset };
                proof {
                    assert(ranges_view(self.ranges@.push(Range { start, end })) =~= ranges_view(
                        self.ranges@,
                    ).push(Range { start, end }@));
                }
                self.ranges.push(Range { start, end });
                self.range_start = None;
            } else if c == '[' && self.range_start.is_none() {
                self.range_start = Some(previous);
            } else if c == '\n' {
                self.line = self.line + 1;
                self.character = 0;
            }
        }
        proof {
            assert(all.subrange(0, all.len() as int) =~= all);
            lemma_scan_chars_bounds(all, units);
            lemma_bytes_match_chars(all, units);
            lemma_encode_utf8_complete(all);
        }
    }
}

} // verus!
