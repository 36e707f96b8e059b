use parsing_sandbox::driver::{count_ranges, parse_utf16, parse_utf32, OutputName, ParserName, ScanError};
use parsing_sandbox::parsers::Parser;
use parsing_sandbox::parsers_char::CharParser;
use parsing_sandbox::parsers_utf16::Utf16Parser;
use parsing_sandbox::types::{Position, Range};
use parsing_sandbox::utf16_buf_parser::{LspPosition, LspRange, Utf16BufParser};

fn pos(line: usize, character: usize, offset: usize) -> Position {
    Position { line, character, offset }
}

fn all_scalar_scans(text: &str) -> Vec<Vec<Range>> {
    vec![
        CharParser::new(text).parse_chars().to_vec(),
        CharParser::new(text).parse_bytes().to_vec(),
        CharParser::new(text).parse_v128().to_vec(),
        CharParser::new(text).parse_v256().to_vec(),
        CharParser::new(text).parse_v128_portable().to_vec(),
        Parser::new(text).parse_chars().to_vec(),
        Parser::new(text).parse_bytes().to_vec(),
        Parser::new(text).parse_v128().to_vec(),
        Parser::new(text).parse_v256().to_vec(),
    ]
}

fn all_utf16_scans(text: &str) -> Vec<Vec<Range>> {
    vec![
        Utf16Parser::new(text).parse_chars().to_vec(),
        Utf16Parser::new(text).parse_bytes().to_vec(),
        Utf16Parser::new(text).parse_v128().to_vec(),
        Utf16Parser::new(text).parse_v256().to_vec(),
        Utf16Parser::new(text).parse_v128_portable().to_vec(),
    ]
}

#[test]
fn short_input_is_handled_by_the_tail() {
    let expected = vec![Range { start: pos(0, 0, 0), end: pos(0, 3, 3) }];
    assert_eq!(CharParser::new("[x]").parse_v128().to_vec(), expected);
    assert_eq!(CharParser::new("[x]").parse_chars().to_vec(), expected);
    for ranges in all_scalar_scans("[x]") {
        assert_eq!(ranges, expected);
    }
}

#[test]
fn cyrillic_example_counts_scalars_and_bytes() {
    let expected = vec![Range { start: pos(0, 4, 7), end: pos(0, 9, 15) }];
    for ranges in all_scalar_scans("йцу [фыв] ячс") {
        assert_eq!(ranges, expected);
    }
    for ranges in all_utf16_scans("йцу [фыв] ячс") {
        assert_eq!(ranges, expected);
    }
}

#[test]
fn range_spanning_lines_is_closed() {
    let text = "ab [c\nd\nef] g";
    let expected = vec![Range { start: pos(0, 3, 3), end: pos(2, 3, 11) }];
    for ranges in all_scalar_scans(text) {
        assert_eq!(ranges, expected);
    }
    for ranges in all_utf16_scans(text) {
        assert_eq!(ranges, expected);
    }
}

#[test]
fn character_resets_on_each_line() {
    let text = "[a]\n  [b]\n\n[c] [d]";
    let expected = vec![
        Range { start: pos(0, 0, 0), end: pos(0, 3, 3) },
        Range { start: pos(1, 2, 6), end: pos(1, 5, 9) },
        Range { start: pos(3, 0, 11), end: pos(3, 3, 14) },
        Range { start: pos(3, 4, 15), end: pos(3, 7, 18) },
    ];
    for ranges in all_scalar_scans(text) {
        assert_eq!(ranges, expected);
    }
}

#[test]
fn unmatched_brackets_give_nothing() {
    for text in ["[abc", "abc]", "", "]]][", "no brackets at all, but longer than one window of bytes"] {
        for ranges in all_scalar_scans(text) {
            assert!(ranges.is_empty());
        }
        for ranges in all_utf16_scans(text) {
            assert!(ranges.is_empty());
        }
    }
}

#[test]
fn second_open_bracket_is_ignored() {
    let expected = vec![Range { start: pos(0, 0, 0), end: pos(0, 5, 5) }];
    for ranges in all_scalar_scans("[a[b]]") {
        assert_eq!(ranges, expected);
    }
}

#[test]
fn utf16_counts_surrogate_pairs() {
    let text = "😀 [a😀] b";
    let scalars = vec![Range { start: pos(0, 2, 5), end: pos(0, 6, 12) }];
    let units = vec![Range { start: pos(0, 3, 5), end: pos(0, 8, 12) }];
    for ranges in all_scalar_scans(text) {
        assert_eq!(ranges, scalars);
    }
    for ranges in all_utf16_scans(text) {
        assert_eq!(ranges, units);
    }
}

#[test]
fn brackets_at_window_edges() {
    // '[' as the first byte of the second 16-byte window, ']' as the last byte of a 32-byte window.
    let mut text = String::from("0123456789abcdef[");
    text.push_str("ghijklmnopqrst]");
    assert_eq!(text.len(), 32);
    let expected = vec![Range { start: pos(0, 16, 16), end: pos(0, 32, 32) }];
    for ranges in all_scalar_scans(&text) {
        assert_eq!(ranges, expected);
    }
    for ranges in all_utf16_scans(&text) {
        assert_eq!(ranges, expected);
    }
}

#[test]
fn multibyte_scalars_across_window_edges() {
    // Three-byte scalars put lead bytes at every offset modulo 16 and 32.
    let text = "€€€€€[€€€€€€€€]€€€€€€€€€€€€€[€]€€€€€€€€€€€€€€€€\n€€€€€€€€[€€€\n€€]€";
    let reference = CharParser::new(text).parse_chars().to_vec();
    assert_eq!(reference.len(), 3);
    assert_eq!(reference[0], Range { start: pos(0, 5, 15), end: pos(0, 15, 41) });
    for ranges in all_scalar_scans(text) {
        assert_eq!(ranges, reference);
    }
    let utf16 = Utf16Parser::new(text).parse_chars().to_vec();
    assert_eq!(utf16, reference);
    for ranges in all_utf16_scans(text) {
        assert_eq!(ranges, utf16);
    }
}

#[test]
fn limited_scan_then_rest_matches_whole_scan() {
    let text = "йцу [фыв] ячс [😀]";
    let whole = CharParser::new(text).parse_bytes().to_vec();
    for limit in 0..text.len() + 2 {
        let mut parser = CharParser::new(text);
        parser.parse_bytes_limited(limit);
        assert_eq!(parser.parse_bytes().to_vec(), whole);
        let mut parser = Parser::new(text);
        parser.parse_bytes_limited(limit);
        parser.parse_bytes_limited(1);
        assert_eq!(parser.parse_v128().to_vec(), whole);
        let mut parser = Utf16Parser::new(text);
        parser.parse_bytes_limited(limit);
        assert_eq!(parser.parse_bytes().to_vec(), Utf16Parser::new(text).parse_chars().to_vec());
    }
}

#[test]
fn scanning_twice_gives_the_same_ranges() {
    let text = "a [b] c [d\ne] 😀 [f]";
    assert_eq!(all_scalar_scans(text), all_scalar_scans(text));
    assert_eq!(all_utf16_scans(text), all_utf16_scans(text));
}

#[test]
fn streamed_lines_match_the_whole_text() {
    let text = "a [b] c [d\n😀 e] [f\n\nй] g\n[h]";
    let whole = Utf16Parser::new(text).parse_chars().to_vec();
    let mut stream = Utf16BufParser::new();
    for line in text.split_inclusive('\n') {
        stream.parse_line(line);
    }
    let lsp = stream.ranges();
    assert_eq!(lsp.len(), whole.len());
    assert_eq!(lsp.len(), 4);
    for i in 0..whole.len() {
        assert!(lsp[i].eq_range(whole[i]));
    }
    assert_eq!(
        lsp[1],
        LspRange {
            start: LspPosition { line: 0, character: 8 },
            end: LspPosition { line: 1, character: 5 }
        }
    );
}

#[test]
fn lsp_comparison_ignores_offsets() {
    let lsp = LspRange { start: LspPosition { line: 1, character: 2 }, end: LspPosition { line: 3, character: 4 } };
    assert!(lsp.eq_range(Range { start: pos(1, 2, 100), end: pos(3, 4, 200) }));
    assert!(!lsp.eq_range(Range { start: pos(1, 2, 100), end: pos(3, 5, 200) }));
    assert!(!lsp.start.eq_position(pos(2, 2, 0)));
    assert!(lsp.end.eq_position(pos(3, 4, 0)));
}

#[test]
fn counting_by_name() {
    let text = "[a] 😀 [b\nc] ]";
    for name in [
        ParserName::Chars,
        ParserName::Bytes,
        ParserName::Vector128,
        ParserName::Vector256,
        ParserName::Vector128Portable,
    ] {
        assert_eq!(parse_utf32(text, name), 2);
        assert_eq!(parse_utf16(text, name), 2);
        assert_eq!(count_ranges(text.as_bytes(), name, OutputName::Utf32), Ok(2));
        assert_eq!(count_ranges(text.as_bytes(), name, OutputName::Utf16), Ok(2));
    }
}

#[test]
fn invalid_utf8_is_refused() {
    let bytes = [b'[', 0xff, b']'];
    assert_eq!(count_ranges(&bytes, ParserName::Bytes, OutputName::Utf32), Err(ScanError::InvalidEncoding));
    let truncated = [b'[', 0xe2, 0x82, b']'];
    assert_eq!(count_ranges(&truncated, ParserName::Chars, OutputName::Utf16), Err(ScanError::InvalidEncoding));
    assert_eq!(count_ranges(b"", ParserName::Chars, OutputName::Utf16), Ok(0));
}

#[test]
fn final_position_counts_the_last_line() {
    let text = "ab\ncd😀e";
    let mut parser = Parser::new(text);
    parser.parse_bytes();
    assert_eq!(parser.current_position(), pos(1, 4, 10));
    let mut parser = CharParser::new(text);
    parser.parse_chars();
    assert_eq!(parser.current_position(), pos(1, 4, 10));
    let mut parser = CharParser::new(text);
    parser.parse_v128();
    assert_eq!(parser.current_position(), pos(1, 4, 10));
    let mut parser = CharParser::new("[\n\n");
    parser.parse_v256();
    assert_eq!(parser.current_position(), pos(2, 0, 3));
}

#[test]
fn new_parser_starts_at_zero_with_no_ranges() {
    let parser = Parser::new("a [b]");
    assert_eq!(parser.current_position(), pos(0, 0, 0));
    let parser = CharParser::new("a [b]");
    assert_eq!(parser.current_position(), pos(0, 0, 0));
}

#[test]
fn limited_scan_with_nothing_left_changes_nothing() {
    let mut parser = Parser::new("й [b]");
    let all = parser.parse_bytes().to_vec();
    let end = parser.current_position();
    parser.parse_bytes_limited(5);
    assert_eq!(parser.current_position(), end);
    assert_eq!(parser.parse_bytes().to_vec(), all);
    let mut parser = CharParser::new("й [b]");
    parser.parse_bytes_limited(0);
    assert_eq!(parser.current_position(), pos(0, 0, 0));
    parser.parse_bytes_limited(1);
    assert_eq!(parser.current_position(), pos(0, 1, 2));
}

#[test]
fn gibberish_has_one_empty_range() {
    let gibberish = "АaaAa0AAAaА0aАAАaAaАAAAaaaAA0aa]aaaaaaАaaA0AAa]00AaA]]aaА0aA]АaА]АaA00]a0А]]0a0АА]0AaaАa0]aaАA0AА0A0AAAAaАAАААAAaА]]a0]aaA]0A0aAaAaAaaaaА0a0A]]A0a0a]aА0AaAAaa]]AaA0AААAa]]AAaА0AA]0АaAa0AAАААaA]]AAaАA0A0А00a0aaAААA0a0AАaA]aАa0A]0a0AАaAa0aА]0АAAa]А]AА]]AaA0AaA0000aaАa]AaAaA]aAAAА]aAA[]AAaaAaa0Aaaaa]E]";
    let ranges = CharParser::new(gibberish).parse_v128().to_vec();
    assert_eq!(ranges.len(), 1);
    assert_eq!(ranges[0].end.offset, ranges[0].start.offset + 2);
    assert_eq!(ranges[0].end.character, ranges[0].start.character + 2);
}
