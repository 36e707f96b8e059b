use parsing_sandbox::parsers::Parser;
use parsing_sandbox::parsers_char::CharParser;
use parsing_sandbox::parsers_utf16::Utf16Parser;
use parsing_sandbox::types::{Position, Range};
use parsing_sandbox::utf16_buf_parser::Utf16BufParser;

const SHORT_ASCII_INPUT: &str = "foo [bar] baz";
const SHORT_UNICODE_INPUT: &str = "йцу [фыв] ячс";

const LONG_ASCII_INPUT: &str =
  "qwerty qwerty qwetry qwerty qwerty qwetry [asd asd asd] zxcvb zxcvb zxcvb zxcvb zxcvb zxcvb";
const LONG_UNICODE_INPUT: &str =
  "йцуке йцуке йцуке йцуке йцуке йцуке [фыв фыв фыв] ячсми ячсми ячсми ячсми ячсми ячсми";

const SHORT_MULTILINE_INPUT: &str = "
# Starfinder

## Кампании

- [Мышеловка](20220820_mousetrap-campaign-starfinder.md)

## Персонажи

- [Кнопка](20220813_knopka-character-starfinder.md)
  - [Ведро (стелс-дрон Кнопки)](20220817_knopka-stealth-drone.md)

## Правила

- [Состояния](20220918_conditions-starfinder.md)
- [Бой](20220918_combat-starfinder.md)
- [Космический бой](20220827_space-fight-starfinder.md)
  - Действия экипажа
    - [Бортинженер](20220827_engineer-role-starfinder.md)
    - [Офицер по науке](20220827_science-officer-role-starfinder.md)
";

const LONG_MULTILINE_INPUT: &str = "
# Grune, Dick, and Ceriel J. H. Jacobs. _Parsing Techniques: A Practical Guide_. 1990.

**Определение**: _Парсинг_ --- процесс структурирования линейного предствления в соответствии с некоторой грамматикой [@grune_parsingtechniques_en_1990, 1].


## Грамматики как средства генерации предложений

Два типа символов [@grune_parsingtechniques_en_1990, 13]:

- **Определение**: _Терминальный символ_ --- символ, буквально присутствующий в предложениях языка (например, `42`)
- **Определение**: _Нетерминальный символ_ --- символ, заменяющий собой некоторые части предложений (например, `сложение`)

**Определение**: _Начальный символ_ --- нетерминальный символ, с которого начинается генерация предложений (например, `выражение`)

**Определение**: _Грамматика с фразовой структурой_ --- набор $(V_N, V_T, R, S)$ такой, что:

1. $V_N$ и $V_T$ --- конечные множества символов;
2. $V_N \\cap V_T = \\empty$;
3. $R$ --- множество пар $(P, Q)$ таких, что
   i. $P \\in (V_N \\cup V_T)^+$;
   ii. $Q \\in (V_N \\cup V_T)^*$;
4. $S \\in V_N$ [@grune_parsingtechniques_en_1990, 14].

**Определение**: _Иерархия Хомского_ --- классификация формальных грамматик по количеству ограничений [@grune_parsingtechniques_en_1990, 19].

**Определение**: _Тип 0_ --- класс неограниченных грамматик с фазовой структурой (см. выше).

**Определение**: _Тип 1 (монотонные)_ --- класс грамматик, у которых не правил, левая часть которых состояла бы из большего числа символов, чем правая ($\\forall (P, Q) \\in R, 1 \\leq P \\leq Q$).

**Определение**: _Тип 1 (контекстно-зависимые, context-sensitive, CS)_ --- класс грамматик, все правила которых являются контекстно-зависимыми, то есть в них только один нетерминальный символ из левой части заменяется непустым наборов символов в правой части, а другие остаются в том же составе и порядке ($(P, Q) = (\\alpha A \\beta, \\alpha \\gamma \\beta), A \\in V = V_N \\cup V_T, \\alpha, \\beta \\in V^*, \\gamma \\in V^+$).

**Определение**: _Тип 2 (контекстно-независимые, context-free, CF)_ --- класс контекстно-зависимых грамматик с пустым контекстом ($\\forall (P, Q) \\in R, (P, Q) = (A, \\gamma), A \\in V, \\gamma \\in V^+$) [@grune_parsingtechniques_en_1990, 23].

**Определение**: Нетерминальный символ, язык которого содержит $\\epsilon$, называется _обнуляемым (nullable)_.xxxx
";


#[test]
fn parsers_parse_small_ascii_test() {
    let ranges1 = Parser::new(SHORT_ASCII_INPUT).parse_chars().to_vec();
    let ranges2 = Parser::new(SHORT_ASCII_INPUT).parse_bytes().to_vec();
    let ranges3 = Parser::new(SHORT_ASCII_INPUT).parse_v128().to_vec();
    let ranges4 = Parser::new(SHORT_ASCII_INPUT).parse_v256().to_vec();
    for ranges in vec![ranges1, ranges2, ranges3, ranges4] {
        assert_eq!(ranges.len(), 1);
        assert_eq!(
            ranges[0],
            Range {
                start: Position { line: 0, character: 4, offset: 4 },
                end: Position { line: 0, character: 9, offset: 9 }
            }
        )
    }
}

#[test]
fn parsers_parse_small_unicode_test() {
    let ranges1 = Parser::new(SHORT_UNICODE_INPUT).parse_chars().to_vec();
    let ranges2 = Parser::new(SHORT_UNICODE_INPUT).parse_bytes().to_vec();
    let ranges3 = Parser::new(SHORT_UNICODE_INPUT).parse_v128().to_vec();
    let ranges4 = Parser::new(SHORT_UNICODE_INPUT).parse_v256().to_vec();
    for ranges in vec![ranges1, ranges2, ranges3, ranges4] {
        assert_eq!(ranges.len(), 1);
        assert_eq!(
            ranges[0],
            Range {
                start: Position { line: 0, character: 4, offset: 7 },
                end: Position { line: 0, character: 9, offset: 15 }
            }
        )
    }
}

#[test]
fn parsers_medium_ascii_test() {
    let ranges1 = Parser::new(LONG_ASCII_INPUT).parse_chars().to_vec();
    let ranges2 = Parser::new(LONG_ASCII_INPUT).parse_bytes().to_vec();
    let ranges3 = Parser::new(LONG_ASCII_INPUT).parse_v128().to_vec();
    let ranges4 = Parser::new(LONG_ASCII_INPUT).parse_v256().to_vec();
    for ranges in vec![ranges1, ranges2, ranges3, ranges4] {
        assert_eq!(ranges.len(), 1);
        assert_eq!(
            ranges[0],
            Range {
                start: Position { line: 0, character: 42, offset: 42 },
                end: Position { line: 0, character: 55, offset: 55 }
            }
        )
    }
}

#[test]
fn parsers_medium_unicode_test() {
    let ranges1 = Parser::new(LONG_UNICODE_INPUT).parse_chars().to_vec();
    let ranges2 = Parser::new(LONG_UNICODE_INPUT).parse_bytes().to_vec();
    let ranges3 = Parser::new(LONG_UNICODE_INPUT).parse_v128().to_vec();
    let ranges4 = Parser::new(LONG_UNICODE_INPUT).parse_v256().to_vec();
    for ranges in vec![ranges1, ranges2, ranges3, ranges4] {
        assert_eq!(ranges.len(), 1);
        assert_eq!(
            ranges[0],
            Range {
                start: Position { line: 0, character: 36, offset: 66 },
                end: Position { line: 0, character: 49, offset: 88 }
            }
        )
    }
}

#[test]
fn parsers_short_multiline_test() {
    let ranges1 = Parser::new(SHORT_MULTILINE_INPUT).parse_chars().to_vec();
    let ranges2 = Parser::new(SHORT_MULTILINE_INPUT).parse_bytes().to_vec();
    let ranges3 = Parser::new(SHORT_MULTILINE_INPUT).parse_v128().to_vec();
    let ranges4 = Parser::new(SHORT_MULTILINE_INPUT).parse_v256().to_vec();
    assert_eq!(ranges1.len(), ranges2.len());
    assert_eq!(ranges2.len(), ranges3.len());
    assert_eq!(ranges3.len(), ranges4.len());
    for i in 0..ranges1.len() {
        assert_eq!(ranges1[i], ranges2[i]);
        assert_eq!(ranges2[i], ranges3[i]);
        assert_eq!(ranges3[i], ranges4[i]);
    }
}

#[test]
fn parsers_long_multiline_test() {
    let ranges1 = Parser::new(LONG_MULTILINE_INPUT).parse_chars().to_vec();
    let ranges2 = Parser::new(LONG_MULTILINE_INPUT).parse_bytes().to_vec();
    let ranges3 = Parser::new(LONG_MULTILINE_INPUT).parse_v128().to_vec();
    let ranges4 = Parser::new(LONG_MULTILINE_INPUT).parse_v256().to_vec();
    assert_eq!(ranges1.len(), ranges2.len());
    assert_eq!(ranges2.len(), ranges3.len());
    assert_eq!(ranges3.len(), ranges4.len());
    for i in 0..ranges1.len() {
        assert_eq!(ranges1[i], ranges2[i]);
        assert_eq!(ranges2[i], ranges3[i]);
        assert_eq!(ranges3[i], ranges4[i]);
    }
}

#[test]
fn parsers_char_parse_small_ascii_test() {
    let ranges1 = CharParser::new(SHORT_ASCII_INPUT).parse_chars().to_vec();
    let ranges2 = CharParser::new(SHORT_ASCII_INPUT).parse_bytes().to_vec();
    let ranges3 = CharParser::new(SHORT_ASCII_INPUT).parse_v128().to_vec();
    let ranges4 = CharParser::new(SHORT_ASCII_INPUT).parse_v256().to_vec();
    let ranges5 = CharParser::new(SHORT_ASCII_INPUT).parse_v128_portable().to_vec();
    for ranges in vec![ranges1, ranges2, ranges3, ranges4, ranges5] {
        assert_eq!(ranges.len(), 1);
        assert_eq!(
            ranges[0],
            Range {
                start: Position { line: 0, character: 4, offset: 4 },
                end: Position { line: 0, character: 9, offset: 9 }
            }
        )
    }
}

#[test]
fn parsers_char_parse_small_unicode_test() {
    let ranges1 = CharParser::new(SHORT_UNICODE_INPUT).parse_chars().to_vec();
    let ranges2 = CharParser::new(SHORT_UNICODE_INPUT).parse_bytes().to_vec();
    let ranges3 = CharParser::new(SHORT_UNICODE_INPUT).parse_v128().to_vec();
    let ranges4 = CharParser::new(SHORT_UNICODE_INPUT).parse_v256().to_vec();
    let ranges5 = CharParser::new(SHORT_UNICODE_INPUT).parse_v128_portable().to_vec();
    for ranges in vec![ranges1, ranges2, ranges3, ranges4, ranges5] {
        assert_eq!(ranges.len(), 1);
        assert_eq!(
            ranges[0],
            Range {
                start: Position { line: 0, character: 4, offset: 7 },
                end: Position { line: 0, character: 9, offset: 15 }
            }
        )
    }
}

#[test]
fn parsers_char_medium_ascii_test() {
    let ranges1 = CharParser::new(LONG_ASCII_INPUT).parse_chars().to_vec();
    let ranges2 = CharParser::new(LONG_ASCII_INPUT).parse_bytes().to_vec();
    let ranges3 = CharParser::new(LONG_ASCII_INPUT).parse_v128().to_vec();
    let ranges4 = CharParser::new(LONG_ASCII_INPUT).parse_v256().to_vec();
    let ranges5 = CharParser::new(LONG_ASCII_INPUT).parse_v128_portable().to_vec();
    for ranges in vec![ranges1, ranges2, ranges3, ranges4, ranges5] {
        assert_eq!(ranges.len(), 1);
        assert_eq!(
            ranges[0],
            Range {
                start: Position { line: 0, character: 42, offset: 42 },
                end: Position { line: 0, character: 55, offset: 55 }
            }
        )
    }
}

#[test]
fn parsers_char_medium_unicode_test() {
    let ranges1 = CharParser::new(LONG_UNICODE_INPUT).parse_chars().to_vec();
    let ranges2 = CharParser::new(LONG_UNICODE_INPUT).parse_bytes().to_vec();
    let ranges3 = CharParser::new(LONG_UNICODE_INPUT).parse_v128().to_vec();
    let ranges4 = CharParser::new(LONG_UNICODE_INPUT).parse_v256().to_vec();
    let ranges5 = CharParser::new(LONG_UNICODE_INPUT).parse_v128_portable().to_vec();
    for ranges in vec![ranges1, ranges2, ranges3, ranges4, ranges5] {
        assert_eq!(ranges.len(), 1);
        assert_eq!(
            ranges[0],
            Range {
                start: Position { line: 0, character: 36, offset: 66 },
                end: Position { line: 0, character: 49, offset: 88 }
            }
        )
    }
}

#[test]
fn parsers_char_short_multiline_test() {
    let ranges1 = CharParser::new(SHORT_MULTILINE_INPUT).parse_chars().to_vec();
    let ranges2 = CharParser::new(SHORT_MULTILINE_INPUT).parse_bytes().to_vec();
    let ranges3 = CharParser::new(SHORT_MULTILINE_INPUT).parse_v128().to_vec();
    let ranges4 = CharParser::new(SHORT_MULTILINE_INPUT).parse_v256().to_vec();
    let ranges5 = CharParser::new(SHORT_MULTILINE_INPUT).parse_v128_portable().to_vec();
    assert_eq!(ranges1.len(), ranges2.len());
    assert_eq!(ranges2.len(), ranges3.len());
    assert_eq!(ranges3.len(), ranges4.len());
    assert_eq!(ranges4.len(), ranges5.len());
    for i in 0..ranges1.len() {
        assert_eq!(ranges1[i], ranges2[i]);
        assert_eq!(ranges2[i], ranges3[i]);
        assert_eq!(ranges3[i], ranges4[i]);
        assert_eq!(ranges4[i], ranges5[i]);
    }
}

#[test]
fn parsers_char_long_multiline_test() {
    let ranges1 = CharParser::new(LONG_MULTILINE_INPUT).parse_chars().to_vec();
    let ranges2 = CharParser::new(LONG_MULTILINE_INPUT).parse_bytes().to_vec();
    let ranges3 = CharParser::new(LONG_MULTILINE_INPUT).parse_v128().to_vec();
    let ranges4 = CharParser::new(LONG_MULTILINE_INPUT).parse_v256().to_vec();
    let ranges5 = CharParser::new(LONG_MULTILINE_INPUT).parse_v128_portable().to_vec();
    assert_eq!(ranges1.len(), ranges2.len());
    assert_eq!(ranges2.len(), ranges3.len());
    assert_eq!(ranges3.len(), ranges4.len());
    assert_eq!(ranges4.len(), ranges5.len());
    for i in 0..ranges1.len() {
        assert_eq!(ranges1[i], ranges2[i]);
        assert_eq!(ranges2[i], ranges3[i]);
        assert_eq!(ranges3[i], ranges4[i]);
        assert_eq!(ranges4[i], ranges5[i]);
    }
}

#[test]
fn parsers_utf16_parse_small_ascii_test() {
    let ranges1 = Utf16Parser::new(SHORT_ASCII_INPUT).parse_chars().to_vec();
    let ranges2 = Utf16Parser::new(SHORT_ASCII_INPUT).parse_bytes().to_vec();
    let ranges3 = Utf16Parser::new(SHORT_ASCII_INPUT).parse_v128_portable().to_vec();
    for ranges in vec![ranges1, ranges2, ranges3] {
        assert_eq!(ranges.len(), 1);
        assert_eq!(
            ranges[0],
            Range {
                start: Position { line: 0, character: 4, offset: 4 },
                end: Position { line: 0, character: 9, offset: 9 }
            }
        )
    }
}

#[test]
fn parsers_utf16_parse_small_unicode_test() {
    let ranges1 = Utf16Parser::new(SHORT_UNICODE_INPUT).parse_chars().to_vec();
    let ranges2 = Utf16Parser::new(SHORT_UNICODE_INPUT).parse_bytes().to_vec();
    let ranges3 = Utf16Parser::new(SHORT_UNICODE_INPUT).parse_v128_portable().to_vec();
    for ranges in vec![ranges1, ranges2, ranges3] {
        assert_eq!(ranges.len(), 1);
        assert_eq!(
            ranges[0],
            Range {
                start: Position { line: 0, character: 4, offset: 7 },
                end: Position { line: 0, character: 9, offset: 15 }
            }
        )
    }
}

#[test]
fn parsers_utf16_medium_ascii_test() {
    let ranges1 = Utf16Parser::new(LONG_ASCII_INPUT).parse_chars().to_vec();
    let ranges2 = Utf16Parser::new(LONG_ASCII_INPUT).parse_bytes().to_vec();
    let ranges3 = Utf16Parser::new(LONG_ASCII_INPUT).parse_v128_portable().to_vec();
    for ranges in vec![ranges1, ranges2, ranges3] {
        assert_eq!(ranges.len(), 1);
        assert_eq!(
            ranges[0],
            Range {
                start: Position { line: 0, character: 42, offset: 42 },
                end: Position { line: 0, character: 55, offset: 55 }
            }
        )
    }
}

#[test]
fn parsers_utf16_medium_unicode_test() {
    let ranges1 = Utf16Parser::new(LONG_UNICODE_INPUT).parse_chars().to_vec();
    let ranges2 = Utf16Parser::new(LONG_UNICODE_INPUT).parse_bytes().to_vec();
    let ranges3 = Utf16Parser::new(LONG_UNICODE_INPUT).parse_v128_portable().to_vec();
    for ranges in vec![ranges1, ranges2, ranges3] {
        assert_eq!(ranges.len(), 1);
        assert_eq!(
            ranges[0],
            Range {
                start: Position { line: 0, character: 36, offset: 66 },
                end: Position { line: 0, character: 49, offset: 88 }
            }
        )
    }
}

#[test]
fn parsers_utf16_short_multiline_test() {
    let ranges1 = Utf16Parser::new(SHORT_MULTILINE_INPUT).parse_chars().to_vec();
    let ranges2 = Utf16Parser::new(SHORT_MULTILINE_INPUT).parse_bytes().to_vec();
    let ranges3 = Utf16Parser::new(SHORT_MULTILINE_INPUT).parse_v128_portable().to_vec();
    assert_eq!(ranges1.len(), ranges2.len());
    assert_eq!(ranges2.len(), ranges3.len());
    for i in 0..ranges1.len() {
        assert_eq!(ranges1[i], ranges2[i]);
        assert_eq!(ranges2[i], ranges3[i]);
    }
}

#[test]
fn parsers_utf16_long_multiline_test() {
    let ranges1 = Utf16Parser::new(LONG_MULTILINE_INPUT).parse_chars().to_vec();
    let ranges2 = Utf16Parser::new(LONG_MULTILINE_INPUT).parse_bytes().to_vec();
    let ranges3 = Utf16Parser::new(LONG_MULTILINE_INPUT).parse_v128_portable().to_vec();
    assert_eq!(ranges1.len(), ranges2.len());
    assert_eq!(ranges2.len(), ranges3.len());
    for i in 0..ranges1.len() {
        assert_eq!(ranges1[i], ranges2[i]);
        assert_eq!(ranges2[i], ranges3[i]);
    }
}

#[test]
fn parse_gibberish_test() {
    let gibberish = "АaaAa0AAAaА0aАAАaAaАAAAaaaAA0aa]aaaaaaАaaA0AAa]00AaA]]aaА0aA]АaА]АaA00]a0А]]0a0АА]0AaaАa0]aaАA0AА0A0AAAAaАAАААAAaА]]a0]aaA]0A0aAaAaAaaaaА0a0A]]A0a0a]aА0AaAAaa]]AaA0AААAa]]AAaА0AA]0АaAa0AAАААaA]]AAaАA0A0А00a0aaAААA0a0AАaA]aАa0A]0a0AАaAa0aА]0АAAa]А]AА]]AaA0AaA0000aaАa]AaAaA]aAAAА]aAA[]AAaaAaa0Aaaaa]E]";

    let ranges1 = CharParser::new(gibberish).parse_chars().to_vec();
    let ranges2 = CharParser::new(gibberish).parse_bytes().to_vec();
    let ranges3 = CharParser::new(gibberish).parse_v128().to_vec();
    let ranges4 = CharParser::new(gibberish).parse_v256().to_vec();
    let ranges5 = CharParser::new(gibberish).parse_v128_portable().to_vec();

    assert_eq!(ranges1.len(), ranges2.len());
    assert_eq!(ranges2.len(), ranges3.len());
    assert_eq!(ranges3.len(), ranges4.len());
    assert_eq!(ranges4.len(), ranges5.len());

    for i in 0..ranges1.len() {
        assert_eq!(ranges1[i], ranges2[i], "ranges1[i] == ranges2[i]");
        assert_eq!(ranges2[i], ranges3[i], "ranges2[i] == ranges3[i]");
        assert_eq!(ranges3[i], ranges4[i], "ranges3[i] == ranges4[i]");
        assert_eq!(ranges3[i], ranges5[i], "ranges4[i] == ranges5[i]");
    }
}

#[test]
fn utf16_buf_parser_short_multiline_test() {
    let ranges1 = Utf16Parser::new(SHORT_MULTILINE_INPUT).parse_chars().to_vec();

    let ranges2 = {
        let mut parser = Utf16BufParser::new();
        for line in SHORT_MULTILINE_INPUT.split_inclusive('\n') {
            parser.parse_line(line);
        }
        parser.ranges()
    };

    assert_eq!(ranges1.len(), ranges2.len());

    for i in 0..ranges1.len() {
        assert!(ranges2[i].eq_range(ranges1[i]));
    }
}
