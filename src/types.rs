use vstd::prelude::*;

verus! {

/// A place in the input: zero-based line, character index within that line
/// (Unicode scalars or UTF-16 code units, depending on the parser), and the
/// byte offset into the UTF-8 buffer.
#[derive(Clone, Copy, PartialEq, Eq, Debug, Default, Structural)]
pub struct Position {
    pub line: usize,
    pub character: usize,
    pub offset: usize,
}

/// A bracketed span: `start` is the place just before `[`, `end` the place just
/// after the matching `]`.
#[derive(Clone, Copy, PartialEq, Eq, Debug, Structural)]
pub struct Range {
    pub start: Position,
    pub end: Position,
}

/// How the `character` coordinate is counted.
#[derive(Clone, Copy, PartialEq, Eq, Debug, Structural)]
pub enum Units {
    /// One per Unicode scalar.
    Scalars,
    /// One per UTF-16 code unit (two for scalars above U+FFFF).
    Utf16,
}

/// Mathematical value of a [`Position`].
pub struct PosModel {
    pub line: nat,
    pub character: nat,
    pub offset: nat,
}

/// Mathematical value of a [`Range`].
pub struct RangeModel {
    pub start: PosModel,
    pub end: PosModel,
}

impl View for Position {
    type V = PosModel;

    open spec fn view(&self) -> PosModel {
        PosModel { line: self.line as nat, character: self.character as nat, offset: self.offset as nat }
    }
}

impl View for Range {
    type V = RangeModel;

    open spec fn view(&self) -> RangeModel {
        RangeModel { start: self.start@, end: self.end@ }
    }
}

/// The values of a sequence of ranges.
pub open spec fn ranges_view(rs: Seq<Range>) -> Seq<RangeModel> {
    rs.map_values(|r: Range| r@)
}

/// The value of an optional position.
pub open spec fn pending_view(p: Option<Position>) -> Option<PosModel> {
    match p {
        Some(pos) => Some(pos@),
        None => None,
    }
}

} // verus!
