//! A parser that counts characters in UTF-16 code units, the unit that
//! text-editor protocols use.
use vstd::prelude::*;
use vstd::string::StringSliceAdditionalSpecFns;
use vstd::utf8::encode_utf8;
use crate::model::{
    lemma_bytes_match_chars,
    lemma_encode_utf8_complete,
    lemma_scan_offset,
    lemma_scan_ranges_grow,
    lemma_stride_end_ge,
    lemma_stride_end_at_len,
    ranges_of,
    scan_from,
    start_model,
    stride_end,
    ScanModel,
};
use crate::scanner::Scanner;
use crate::types::{ranges_view, PosModel, Range, RangeModel, Units};

verus! {

/// Finds `[...]` ranges in a text, with positions counted in UTF-16 code units.
pub struct Utf16Parser<'a> {
    input: &'a str,
    scanner: Scanner,
}

impl<'a> Utf16Parser<'a> {
    /// The text being parsed.
    pub closed spec fn text(&self) -> Seq<char> {
        self.input@
    }

    /// How far the parser has read, in bytes.
    pub closed spec fn offset(&self) -> nat {
        self.scanner.offset()
    }

    /// The ranges found so far.
    pub closed spec fn found(&self) -> Seq<RangeModel> {
        ranges_view(self.scanner.found())
    }

    /// The start of the range still open, if any.
    pub closed spec fn pending(&self) -> Option<PosModel> {
        self.scanner.pending()
    }

    /// The parser holds the state reached by reading its text up to `offset()`.
    pub closed spec fn wf(&self) -> bool {
        &&& self.scanner.tracks(self.input.spec_bytes())
        &&& self.scanner.units() == Units::Utf16
        &&& self.scanner.init() == start_model()
    }

    /// The state of the scan at the parser's offset.
    pub open spec fn state(&self) -> ScanModel {
        scan_from(start_model(), encode_utf8(self.text()), self.offset(), Units::Utf16)
    }

    /// A well-formed parser shows the state of the scan at its offset: its
    /// ranges, its pending start.
    pub proof fn lemma_wf_state(&self)
        requires
            self.wf(),
        ensures
            self.offset() <= encode_utf8(self.text()).len(),
            self.state().offset == self.offset(),
            self.found() == self.state().ranges,
            self.pending() == self.state().pending,
    {
        self.scanner.lemma_tracks_state(self.input.spec_bytes());
        lemma_scan_offset(start_model(), self.input.spec_bytes(), self.scanner.offset(), Units::Utf16);
    }

    /// A parser at the start of `input`.
    pub fn new(input: &'a str) -> (r: Utf16Parser<'a>)
        ensures
            r.wf(),
            r.text() == input@,
            r.offset() == 0,
            r.found() == Seq::<RangeModel>::empty(),
            r.pending() == None::<PosModel>,
    {
        let scanner = Scanner::new(Units::Utf16);
        // The byte length of a `str` fits in `usize`.
        let _len = input.as_bytes().len();
        proof {
            lemma_encode_utf8_complete(input@);
        }
        let r = Utf16Parser { input, scanner };
        proof {
            r.lemma_wf_state();
        }
        r
    }

    proof fn lemma_done(&self)
        requires
            self.wf(),
            self.offset() == encode_utf8(self.text()).len(),
        ensures
            self.found() == ranges_of(self.text(), Units::Utf16),
    {
        self.scanner.lemma_tracks_state(self.input.spec_bytes());
        lemma_bytes_match_chars(self.input@, Units::Utf16);
    }

    /// Reads the whole text one scalar at a time; the parser must not have
    /// read anything yet.
    pub fn parse_chars(&mut self) -> (r: &[Range])
        requires
            old(self).wf(),
            old(self).offset() == 0,
        ensures
            final(self).wf(),
            final(self).text() == old(self).text(),
            final(self).offset() == encode_utf8(final(self).text()).len(),
            ranges_view(r@) == final(self).found(),
            ranges_view(r@) == ranges_of(final(self).text(), Units::Utf16),
    {
        self.scanner.scan_chars(self.input);
        proof {
            self.lemma_done();
        }
        self.scanner.ranges()
    }

    /// Reads the rest of the text one byte (or one whole scalar) at a time.
    pub fn parse_bytes(&mut self) -> (r: &[Range])
        requires
            old(self).wf(),
        ensures
            final(self).wf(),
            final(self).text() == old(self).text(),
            final(self).offset() == encode_utf8(final(self).text()).len(),
            ranges_view(r@) == final(self).found(),
            ranges_view(r@) == ranges_of(final(self).text(), Units::Utf16),
    {
        let n = self.input.as_bytes().len();
        proof {
            self.scanner.lemma_tracks_state(self.input.spec_bytes());
            lemma_stride_end_at_len(self.input.spec_bytes(), self.scanner.offset());
        }
        self.scanner.scan_bytes_limited(self.input.as_bytes(), n);
        proof {
            self.lemma_done();
        }
        self.scanner.ranges()
    }

    /// Reads whole scalars until at least `limit` more bytes have been read or
    /// the text ends.
    pub fn parse_bytes_limited(&mut self, limit: usize)
        requires
            old(self).wf(),
        ensures
            final(self).wf(),
            final(self).text() == old(self).text(),
            final(self).offset() == stride_end(
                encode_utf8(old(self).text()),
                old(self).offset(),
                if limit >= encode_utf8(old(self).text()).len() - old(self).offset() {
                    encode_utf8(old(self).text()).len()
                } else {
                    (old(self).offset() + limit) as nat
                },
            ),
            final(self).found() == final(self).state().ranges,
            final(self).pending() == final(self).state().pending,
            old(self).offset() <= final(self).offset(),
            old(self).found().len() <= final(self).found().len(),
            final(self).found().subrange(0, old(self).found().len() as int) == old(self).found(),
    {
        let ghost before = *self;
        proof {
            before.lemma_wf_state();
        }
        self.scanner.scan_bytes_limited(self.input.as_bytes(), limit);
        proof {
            self.lemma_wf_state();
            lemma_stride_end_ge(self.input.spec_bytes(), before.offset(), if limit >= self.input.spec_bytes().len() - before.offset() {
                self.input.spec_bytes().len() as nat
            } else {
                (before.offset() + limit) as nat
            });
            lemma_scan_ranges_grow(start_model(), self.input.spec_bytes(), before.offset(), self.offset(), Units::Utf16);
        }
    }

    fn parse_windows(&mut self, width: usize) -> (r: &[Range])
        requires
            old(self).wf(),
            width > 0,
        ensures
            final(self).wf(),
            final(self).text() == old(self).text(),
            final(self).offset() == encode_utf8(final(self).text()).len(),
            ranges_view(r@) == final(self).found(),
            ranges_view(r@) == ranges_of(final(self).text(), Units::Utf16),
    {
        self.scanner.scan_windows(self.input.as_bytes(), width);
        proof {
            self.lemma_done();
        }
        self.scanner.ranges()
    }

    /// Reads the rest of the text in windows of 16 bytes.
    pub fn parse_v128(&mut self) -> (r: &[Range])
        requires
            old(self).wf(),
        ensures
            final(self).wf(),
            final(self).text() == old(self).text(),
            final(self).offset() == encode_utf8(final(self).text()).len(),
            ranges_view(r@) == final(self).found(),
            ranges_view(r@) == ranges_of(final(self).text(), Units::Utf16),
    {
        self.parse_windows(16)
    }

    /// Reads the rest of the text in windows of 32 bytes.
    pub fn parse_v256(&mut self) -> (r: &[Range])
        requires
            old(self).wf(),
        ensures
            final(self).wf(),
            final(self).text() == old(self).text(),
            final(self).offset() == encode_utf8(final(self).text()).len(),
            ranges_view(r@) == final(self).found(),
            ranges_view(r@) == ranges_of(final(self).text(), Units::Utf16),
    {
        self.parse_windows(32)
    }

    /// Reads the rest of the text in portable windows of 16 bytes.
    pub fn parse_v128_portable(&mut self) -> (r: &[Range])
        requires
            old(self).wf(),
        ensures
            final(self).wf(),
            final(self).text() == old(self).text(),
            final(self).offset() == encode_utf8(final(self).text()).len(),
            ranges_view(r@) == final(self).found(),
            ranges_view(r@) == ranges_of(final(self).text(), Units::Utf16),
    {
        self.parse_windows(16)
    }
}

} // verus!
