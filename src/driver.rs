//! Choosing a parser by name, and scanning raw bytes after checking that
//! they are UTF-8.
use vstd::prelude::*;
use vstd::string::StringSliceAdditionalSpecFns;
use vstd::utf8::{decode_utf8, encode_utf8_decode_utf8, valid_utf8};
use crate::model::ranges_of;
use crate::parsers_char::CharParser;
use crate::parsers_utf16::Utf16Parser;
use crate::types::Units;

verus! {

/// The scan strategies.
#[derive(Clone, Copy, PartialEq, Eq, Debug, Structural)]
pub enum ParserName {
    Chars,
    Bytes,
    Vector128,
    Vector256,
    Vector128Portable,
}

/// How positions count characters.
#[derive(Clone, Copy, PartialEq, Eq, Debug, Structural)]
pub enum OutputName {
    /// In Unicode scalars.
    Utf32,
    /// In UTF-16 code units.
    Utf16,
}

/// Why a buffer could not be scanned.
#[derive(Clone, Copy, PartialEq, Eq, Debug, Structural)]
pub enum ScanError {
    /// The buffer is not valid UTF-8.
    InvalidEncoding,
}

pub open spec fn units_for(output: OutputName) -> Units {
    match output {
        OutputName::Utf32 => Units::Scalars,
        OutputName::Utf16 => Units::Utf16,
    }
}

#[verifier::external_type_specification]
#[verifier::external_body]
pub struct ExUtf8Error(simdutf8::basic::Utf8Error);

/// Relies on simdutf8::basic::from_utf8: `Ok` exactly when the bytes are valid
/// UTF-8, holding a `str` over those same bytes.
#[verifier::external_body]
fn validate_utf8(input: &[u8]) -> (r: Result<&str, simdutf8::basic::Utf8Error>)
    ensures
        r is Ok <==> valid_utf8(input@),
        r matches Ok(s) ==> s.spec_bytes() == input@,
{
    simdutf8::basic::from_utf8(input)
}

/// The number of ranges in `input`, found by the chosen strategy, counting
/// characters in Unicode scalars.
pub fn parse_utf32(input: &str, parser_name: ParserName) -> (r: usize)
    ensures
        r == ranges_of(input@, Units::Scalars).len(),
{
    let mut parser = CharParser::new(input);
    let found = match parser_name {
        ParserName::Chars => parser.parse_chars(),
        ParserName::Bytes => parser.parse_bytes(),
        ParserName::Vector128 => parser.parse_v128(),
        ParserName::Vector256 => parser.parse_v256(),
        ParserName::Vector128Portable => parser.parse_v128_portable(),
    };
    found.len()
}

/// The number of ranges in `input`, found by the chosen strategy, counting
/// characters in UTF-16 code units.
pub fn parse_utf16(input: &str, parser_name: ParserName) -> (r: usize)
    ensures
        r == ranges_of(input@, Units::Utf16).len(),
{
    let mut parser = Utf16Parser::new(input);
    let found = match parser_name {
        ParserName::Chars => parser.parse_chars(),
        ParserName::Bytes => parser.parse_bytes(),
        ParserName::Vector128 => parser.parse_v128(),
        ParserName::Vector256 => parser.parse_v256(),
        ParserName::Vector128Portable => parser.parse_v128_portable(),
    };
    found.len()
}

/// Checks that `input` is UTF-8, then counts its ranges with the chosen
/// strategy and way of counting characters.
pub fn count_ranges(input: &[u8], parser_name: ParserName, output_name: OutputName) -> (r: Result<usize, ScanError>)
    ensures
        r is Err <==> !valid_utf8(input@),
        r matches Err(e) ==> e == ScanError::InvalidEncoding,
        r matches Ok(n) ==> n == ranges_of(decode_utf8(input@), units_for(output_name)).len(),
{
    match validate_utf8(input) {
        Ok(text) => {
            proof {
                encode_utf8_decode_utf8(text@);
            }
            match output_name {
                OutputName::Utf32 => Ok(parse_utf32(text, parser_name)),
                OutputName::Utf16 => Ok(parse_utf16(text, parser_name)),
            }
        },
        Err(_) => Err(ScanError::InvalidEncoding),
    }
}

} // verus!
