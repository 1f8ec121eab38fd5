use big_s::S;
use cucumber_sort::gherkin::lexer::{self, Line, LineType};
use cucumber_sort::gherkin::Keyword;
use cucumber_sort::text::char_is_whitespace;

#[test]
fn empty_line() {
    let have = Line::new(S(""), 12).unwrap();
    assert_eq!(have.indent_text(), "");
    assert_eq!(have.line_type, LineType::Text);
    assert_eq!(have.title(), "");
}

#[test]
fn whitespace_only() {
    let have = Line::new(S("    "), 12).unwrap();
    assert_eq!(have.indent_text(), "    ");
    assert_eq!(have.line_type, LineType::Text);
    assert_eq!(have.title(), "");
}

#[test]
fn no_spaces_and_text() {
    let have = Line::new(S("Feature: test"), 12).unwrap();
    assert_eq!(have.indent_text(), "");
    assert_eq!(have.line_type, LineType::Text);
    assert_eq!(have.title(), "Feature: test");
}

#[test]
fn two_spaces_and_text() {
    let have = Line::new(S("  text"), 12).unwrap();
    assert_eq!(have.indent_text(), "  ");
    assert_eq!(have.line_type, LineType::Text);
    assert_eq!(have.title(), "text");
}

#[test]
fn two_tabs_and_text() {
    let have = Line::new(S("\t\ttext"), 12).unwrap();
    assert_eq!(have.indent_text(), "\t\t");
    assert_eq!(have.line_type, LineType::Text);
    assert_eq!(have.title(), "text");
}

#[test]
fn four_spaces_docstring() {
    let have = Line::new(S("    \"\"\""), 12).unwrap();
    assert_eq!(have.indent_text(), "    ");
    assert_eq!(have.line_type, LineType::DocStringStartStop);
    assert_eq!(have.title(), "\"\"\"");
}

#[test]
fn four_spaces_and_step() {
    let have = Line::new(S("    Given step 1"), 12).unwrap();
    assert_eq!(have.indent_text(), "    ");
    assert_eq!(
        have.line_type,
        LineType::StepStart {
            keyword: Keyword::Given
        }
    );
    assert_eq!(have.title(), "step 1");
}

#[test]
fn line_keeps_number_and_text() {
    let have = Line::new(S("  When  it rains"), 7).unwrap();
    let want = Line {
        number: 7,
        text: S("  When  it rains"),
        indent: 2,
        title_start: 8,
        line_type: LineType::StepStart {
            keyword: Keyword::When,
        },
    };
    assert_eq!(want, have);
}

#[test]
fn keyword_in_any_case() {
    assert_eq!(Keyword::parse("given"), Some(Keyword::Given));
    assert_eq!(Keyword::parse("GIVEN"), Some(Keyword::Given));
    assert_eq!(Keyword::parse("wHeN"), Some(Keyword::When));
    assert_eq!(Keyword::parse("Then"), Some(Keyword::Then));
    assert_eq!(Keyword::parse("AND"), Some(Keyword::And));
}

#[test]
fn keyword_unknown_words() {
    assert_eq!(Keyword::parse(""), None);
    assert_eq!(Keyword::parse("But"), None);
    assert_eq!(Keyword::parse("Givens"), None);
    assert_eq!(Keyword::parse("Give"), None);
    assert_eq!(Keyword::parse("Feature:"), None);
    // the letters before and after the ASCII letters do not count as letters
    assert_eq!(Keyword::parse("GIVE\u{4e}"), Some(Keyword::Given));
    assert_eq!(Keyword::parse("\u{27}iven"), None);
    assert_eq!(Keyword::parse("g\u{49}ven"), Some(Keyword::Given));
    assert_eq!(Keyword::parse("g\u{29}ven"), None);
}

#[test]
fn keyword_as_str() {
    assert_eq!(Keyword::Given.as_str(), "Given");
    assert_eq!(Keyword::When.as_str(), "When");
    assert_eq!(Keyword::Then.as_str(), "Then");
    assert_eq!(Keyword::And.as_str(), "And");
}

#[test]
fn keyword_without_whitespace_after_it_is_text() {
    let have = Line::new(S("  Given"), 0).unwrap();
    assert_eq!(have.line_type, LineType::Text);
    assert_eq!(have.indent, 2);
    assert_eq!(have.title_start, 2);
}

#[test]
fn keyword_with_empty_title() {
    let have = Line::new(S("  Given "), 0).unwrap();
    assert_eq!(
        have.line_type,
        LineType::StepStart {
            keyword: Keyword::Given
        }
    );
    assert_eq!(have.title_start, 8);
    assert_eq!(have.title(), "");
}

#[test]
fn unknown_first_word_is_text() {
    let have = Line::new(S("    But step 1"), 0).unwrap();
    assert_eq!(have.line_type, LineType::Text);
    assert_eq!(have.title(), "But step 1");
}

#[test]
fn docstring_with_text_after_it_is_text() {
    let have = Line::new(S("  \"\"\"json"), 0).unwrap();
    assert_eq!(have.line_type, LineType::Text);
    let have = Line::new(S("  \"\"\" "), 0).unwrap();
    assert_eq!(have.line_type, LineType::Text);
    let have = Line::new(S("\"\""), 0).unwrap();
    assert_eq!(have.line_type, LineType::Text);
}

#[test]
fn positions_count_characters() {
    // a no-break space, two bytes long, before the keyword
    let have = Line::new(S("\u{a0}Given \u{e9}t\u{e9}"), 0).unwrap();
    assert_eq!(have.indent, 1);
    assert_eq!(have.title_start, 7);
    assert_eq!(have.indent_text(), "\u{a0}");
    assert_eq!(have.title(), "\u{e9}t\u{e9}");
}

#[test]
fn whitespace_is_what_std_calls_whitespace() {
    let mut code: u32 = 0;
    while code <= 0x10FFFF {
        if let Some(c) = char::from_u32(code) {
            assert_eq!(char_is_whitespace(c), c.is_whitespace(), "U+{:04X}", code);
        }
        code += 1;
    }
}

#[test]
fn text_line_has_title_at_indent() {
    let have = lexer::text_line(3, S("  abc"), 2).unwrap();
    let want = Line {
        number: 3,
        text: S("  abc"),
        indent: 2,
        title_start: 2,
        line_type: LineType::Text,
    };
    assert_eq!(want, have);
}

#[test]
fn file_numbers_lines_from_zero() {
    let have = lexer::file("Feature: x\r\n\n  Given a\n  \"\"\"").unwrap();
    let want = vec![
        Line {
            number: 0,
            text: S("Feature: x"),
            indent: 0,
            title_start: 0,
            line_type: LineType::Text,
        },
        Line {
            number: 1,
            text: S(""),
            indent: 0,
            title_start: 0,
            line_type: LineType::Text,
        },
        Line {
            number: 2,
            text: S("  Given a"),
            indent: 2,
            title_start: 8,
            line_type: LineType::StepStart {
                keyword: Keyword::Given,
            },
        },
        Line {
            number: 3,
            text: S("  \"\"\""),
            indent: 2,
            title_start: 2,
            line_type: LineType::DocStringStartStop,
        },
    ];
    assert_eq!(want, have);
}

#[test]
fn file_of_empty_text_has_no_lines() {
    assert_eq!(lexer::file("").unwrap(), vec![]);
    assert_eq!(lexer::file("\n").unwrap().len(), 1);
}
