//! A parser fed one line at a time, with positions counted in UTF-16 code
//! units. Offsets are relative to the line; lines and characters are those of
//! the whole text.
use vstd::prelude::*;
use vstd::string::StringSliceAdditionalSpecFns;
use crate::model::{lemma_encode_utf8_complete, scan_from, start_model, ScanModel};
use crate::scanner::Scanner;
use crate::types::{ranges_view, PosModel, Position, Range, RangeModel, Units};

verus! {

/// A line and a character, without a byte offset.
#[derive(Clone, Copy, PartialEq, Eq, Debug, Structural)]
pub struct LspPosition {
    pub line: usize,
    pub character: usize,
}

/// A range given by line and character only.
#[derive(Clone, Copy, PartialEq, Eq, Debug, Structural)]
pub struct LspRange {
    pub start: LspPosition,
    pub end: LspPosition,
}

/// A position without its byte offset.
pub open spec fn line_char(p: PosModel) -> (nat, nat) {
    (p.line, p.character)
}

/// A range without its byte offsets.
pub open spec fn line_char_range(r: RangeModel) -> ((nat, nat), (nat, nat)) {
    (line_char(r.start), line_char(r.end))
}

/// Ranges without their byte offsets.
pub open spec fn line_char_ranges(rs: Seq<RangeModel>) -> Seq<((nat, nat), (nat, nat))> {
    rs.map_values(|r: RangeModel| line_char_range(r))
}

impl View for LspPosition {
    type V = (nat, nat);

    open spec fn view(&self) -> (nat, nat) {
        (self.line as nat, self.character as nat)
    }
}

impl View for LspRange {
    type V = ((nat, nat), (nat, nat));

    open spec fn view(&self) -> ((nat, nat), (nat, nat)) {
        (self.start@, self.end@)
    }
}

impl LspPosition {
    /// Whether `pos` has this line and character (its offset aside).
    pub fn eq_position(&self, pos: Position) -> (r: bool)
        ensures
            r == (self@ == line_char(pos@)),
    {
        self.line == pos.line && self.character == pos.character
    }
}

impl LspRange {
    /// Whether `range` has these lines and characters (its offsets aside).
    pub fn eq_range(&self, range: Range) -> (r: bool)
        ensures
            r == (self@ == line_char_range(range@)),
    {
        self.start.eq_position(range.start) && self.end.eq_position(range.end)
    }
}

/// The stream state after one more line: the line is scanned from character
/// and offset zero, and the next line follows it.
pub open spec fn scan_line(m: ScanModel, bytes: Seq<u8>) -> ScanModel {
    let r = scan_from(ScanModel { character: 0, offset: 0, ..m }, bytes, bytes.len(), Units::Utf16);
    ScanModel { line: m.line + 1, character: 0, offset: 0, pending: r.pending, ranges: r.ranges }
}

/// The stream state after the given lines, each given as its bytes.
pub open spec fn scan_lines(lines: Seq<Seq<u8>>) -> ScanModel
    decreases lines.len(),
{
    if lines.len() == 0 {
        start_model()
    } else {
        scan_line(scan_lines(lines.drop_last()), lines.last())
    }
}

/// Finds `[...]` ranges in text that arrives line by line.
pub struct Utf16BufParser {
    scanner: Scanner,
}

impl Utf16BufParser {
    /// The state between lines: next line number, pending start and ranges.
    pub closed spec fn stream(&self) -> ScanModel {
        ScanModel {
            line: self.scanner.line(),
            character: 0,
            offset: 0,
            pending: self.scanner.pending(),
            ranges: ranges_view(self.scanner.found()),
        }
    }

    pub closed spec fn wf(&self) -> bool {
        self.scanner.units() == Units::Utf16
    }

    /// A parser before the first line.
    pub fn new() -> (r: Self)
        ensures
            r.wf(),
            r.stream() == start_model(),
    {
        let r = Utf16BufParser { scanner: Scanner::new(Units::Utf16) };
        proof {
            r.scanner.lemma_tracks_state(Seq::<u8>::empty());
            assert(ranges_view(r.scanner.found()) =~= Seq::<RangeModel>::empty());
        }
        r
    }

    /// Scans one line (normally ending in its line feed) and moves to the
    /// next line.
    pub fn parse_line(&mut self, line: &str)
        requires
            old(self).wf(),
            old(self).stream().line + line.spec_bytes().len() < usize::MAX,
        ensures
            final(self).wf(),
            final(self).stream() == scan_line(old(self).stream(), line.spec_bytes()),
    {
        let bytes = line.as_bytes();
        let current = self.scanner.line_number();
        self.scanner.begin_line(current);
        proof {
            lemma_encode_utf8_complete(line@);
        }
        self.scanner.scan_windows(bytes, 16);
        proof {
            self.scanner.lemma_tracks_state(bytes@);
        }
        self.scanner.begin_line(current + 1);
    }

    /// The ranges found so far, by line and character.
    pub fn ranges(&self) -> (r: Vec<LspRange>)
        ensures
            r@.len() == self.stream().ranges.len(),
            forall|i: int| 0 <= i < r@.len() ==> #[trigger] r@[i]@ == line_char_range(self.stream().ranges[i]),
    {
        let found = self.scanner.ranges();
        let mut out: Vec<LspRange> = Vec::new();
        let mut i: usize = 0;
        while i < found.len()
            invariant
                found@ == self.scanner.found(),
                i <= found@.len(),
                out@.len() == i,
                forall|j: int| 0 <= j < i ==> #[trigger] out@[j]@ == line_char_range(found@[j]@),
            decreases found@.len() - i,
        {
            let range = found[i];
            out.push(
                LspRange {
                    start: LspPosition { line: range.start.line, character: range.start.character },
                    end: LspPosition { line: range.end.line, character: range.end.character },
                },
            );
            i = i + 1;
        }
        out
    }
}

} // verus!
