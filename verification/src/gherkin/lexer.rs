//! The lexer: what each line of a feature file is, taken by itself.

use crate::errors::UserError;
use crate::text::{char_is_whitespace, is_whitespace, lines, split_lines, to_chars};
use vstd::prelude::*;
use vstd::string::StrSliceExecFns;

verus! {

/// The word that a step begins with.
#[derive(Clone, Copy, Debug, PartialEq, Eq, Structural)]
pub enum Keyword {
    Given,
    When,
    Then,
    And,
}

/// What a line is.
#[derive(Clone, Copy, Debug, PartialEq, Eq, Structural)]
pub enum LineType {
    /// the start of a step: a keyword, whitespace, and the step's title
    StepStart { keyword: Keyword },
    /// the line that opens or closes a docstring
    DocStringStartStop,
    /// any other line
    Text,
}

/// One line of a feature file, with what the lexer found out about it.
/// `indent` and `title_start` count characters.
#[derive(Clone, Debug, PartialEq, Eq)]
pub struct Line {
    /// the line's position in the file, from 0
    pub number: usize,
    /// the line as it stands in the file
    pub text: String,
    /// how many whitespace characters the line begins with
    pub indent: usize,
    /// where the title of a step begins; for other lines, equal to `indent`
    pub title_start: usize,
    pub line_type: LineType,
}

/// A `Line`, with its text as a sequence of characters.
pub ghost struct LineView {
    pub number: usize,
    pub text: Seq<char>,
    pub indent: usize,
    pub title_start: usize,
    pub line_type: LineType,
}

impl DeepView for Line {
    type V = LineView;

    open spec fn deep_view(&self) -> LineView {
        LineView {
            number: self.number,
            text: self.text@,
            indent: self.indent,
            title_start: self.title_start,
            line_type: self.line_type,
        }
    }
}

impl LineView {
    /// The two positions lie within the text.
    pub open spec fn wf(self) -> bool {
        self.indent <= self.text.len() && self.title_start <= self.text.len()
    }

    /// The whitespace that the line begins with.
    pub open spec fn indent_text(self) -> Seq<char> {
        self.text.take(self.indent as int)
    }

    /// The line from `title_start` on.
    pub open spec fn title(self) -> Seq<char> {
        self.text.skip(self.title_start as int)
    }
}

/// The line that opens and closes a docstring, without its indentation.
pub open spec fn docstring_delimiter() -> Seq<char> {
    seq!['"', '"', '"']
}

/// The first position at or after `from` that holds no whitespace, or the
/// length of `s` if there is none.
pub open spec fn skip_whitespace(s: Seq<char>, from: int) -> int
    decreases s.len() - from,
{
    if 0 <= from < s.len() && is_whitespace(s[from]) {
        skip_whitespace(s, from + 1)
    } else {
        from
    }
}

/// The first position at or after `from` that holds whitespace, or the
/// length of `s` if there is none.
pub open spec fn skip_word(s: Seq<char>, from: int) -> int
    decreases s.len() - from,
{
    if 0 <= from < s.len() && !is_whitespace(s[from]) {
        skip_word(s, from + 1)
    } else {
        from
    }
}

/// `c`, or the lower-case letter for it if `c` is an upper-case ASCII letter.
pub open spec fn to_ascii_lowercase(c: char) -> char {
    if 'A' <= c <= 'Z' {
        ((c as u8) + 32) as char
    } else {
        c
    }
}

/// Whether `word` is `lower` apart from the case of its ASCII letters.
pub open spec fn is_word(word: Seq<char>, lower: Seq<char>) -> bool {
    word.map_values(|c: char| to_ascii_lowercase(c)) == lower
}

/// The keyword that `word` spells, in any mix of upper and lower case.
pub open spec fn keyword_of(word: Seq<char>) -> Option<Keyword> {
    if is_word(word, "given"@) {
        Some(Keyword::Given)
    } else if is_word(word, "when"@) {
        Some(Keyword::When)
    } else if is_word(word, "then"@) {
        Some(Keyword::Then)
    } else if is_word(word, "and"@) {
        Some(Keyword::And)
    } else {
        None
    }
}

/// What the lexer makes of the line `text`, which is line `number` of its
/// file.
///
/// A line that holds only whitespace is text. A line that holds, after its
/// indentation, exactly the docstring delimiter, is a delimiter. A line
/// whose first word is a keyword, followed by whitespace, starts a step: its
/// title begins at the first character after that whitespace. Every other
/// line is text.
pub open spec fn lex_line(text: Seq<char>, number: usize) -> LineView {
    let indent = skip_whitespace(text, 0);
    let word_end = skip_word(text, indent);
    let keyword = keyword_of(text.subrange(indent, word_end));
    if text.skip(indent) == docstring_delimiter() {
        LineView {
            number,
            text,
            indent: indent as usize,
            title_start: indent as usize,
            line_type: LineType::DocStringStartStop,
        }
    } else if word_end < text.len() && keyword is Some {
        LineView {
            number,
            text,
            indent: indent as usize,
            title_start: skip_whitespace(text, word_end) as usize,
            line_type: LineType::StepStart { keyword: keyword->0 },
        }
    } else {
        LineView {
            number,
            text,
            indent: indent as usize,
            title_start: indent as usize,
            line_type: LineType::Text,
        }
    }
}

/// The lines of a text, each as the lexer sees it.
pub open spec fn lex(text: Seq<char>) -> Seq<LineView> {
    let lines = split_lines(text);
    Seq::new(lines.len(), |i: int| lex_line(lines[i], i as usize))
}

/// `skip_whitespace` stops within the text, after whitespace only, and at
/// a character that is none.
pub proof fn lemma_skip_whitespace(s: Seq<char>, from: int)
    requires
        0 <= from <= s.len(),
    ensures
        from <= skip_whitespace(s, from) <= s.len(),
        forall|i: int| from <= i < skip_whitespace(s, from) ==> is_whitespace(s[i]),
        skip_whitespace(s, from) < s.len() ==> !is_whitespace(s[skip_whitespace(s, from)]),
    decreases s.len() - from,
{
    if from < s.len() && is_whitespace(s[from]) {
        lemma_skip_whitespace(s, from + 1);
    }
}

/// `skip_word` stops within the text, after characters that are no
/// whitespace, and at whitespace.
pub proof fn lemma_skip_word(s: Seq<char>, from: int)
    requires
        0 <= from <= s.len(),
    ensures
        from <= skip_word(s, from) <= s.len(),
        forall|i: int| from <= i < skip_word(s, from) ==> !is_whitespace(s[i]),
        skip_word(s, from) < s.len() ==> is_whitespace(s[skip_word(s, from)]),
    decreases s.len() - from,
{
    if from < s.len() && !is_whitespace(s[from]) {
        lemma_skip_word(s, from + 1);
    }
}

/// The positions that the lexer finds lie within the line.
pub proof fn lemma_lexed_line_is_wf(text: Seq<char>, number: usize)
    requires
        text.len() <= usize::MAX,
    ensures
        lex_line(text, number).wf(),
        lex_line(text, number).indent <= lex_line(text, number).title_start,
{
    lemma_skip_whitespace(text, 0);
    let indent = skip_whitespace(text, 0);
    lemma_skip_word(text, indent);
    let word_end = skip_word(text, indent);
    lemma_skip_whitespace(text, word_end);
}

/// The first position at or after `from` that holds no whitespace.
fn first_non_whitespace(chars: &Vec<char>, from: usize) -> (end: usize)
    requires
        from <= chars.len(),
    ensures
        end == skip_whitespace(chars@, from as int),
        from <= end <= chars.len(),
{
    let mut i: usize = from;
    while i < chars.len() && char_is_whitespace(chars[i])
        invariant
            from <= i <= chars.len(),
            skip_whitespace(chars@, from as int) == skip_whitespace(chars@, i as int),
        decreases chars.len() - i,
    {
        i += 1;
    }
    i
}

/// The first position at or after `from` that holds whitespace.
fn first_whitespace(chars: &Vec<char>, from: usize) -> (end: usize)
    requires
        from <= chars.len(),
    ensures
        end == skip_word(chars@, from as int),
        from <= end <= chars.len(),
{
    let mut i: usize = from;
    while i < chars.len() && !char_is_whitespace(chars[i])
        invariant
            from <= i <= chars.len(),
            skip_word(chars@, from as int) == skip_word(chars@, i as int),
        decreases chars.len() - i,
    {
        i += 1;
    }
    i
}

/// The lower-case form of an ASCII letter; any other character unchanged.
fn ascii_lowercase(c: char) -> (lower: char)
    ensures
        lower == to_ascii_lowercase(c),
{
    if 'A' <= c && c <= 'Z' {
        ((c as u8) + 32) as char
    } else {
        c
    }
}

/// Whether `chars[from..to]` is `lower` apart from the case of its letters.
fn spells(chars: &Vec<char>, from: usize, to: usize, lower: &str) -> (b: bool)
    requires
        from <= to <= chars.len(),
    ensures
        b == is_word(chars@.subrange(from as int, to as int), lower@),
{
    let want = to_chars(lower);
    let ghost word = chars@.subrange(from as int, to as int);
    let ghost folded = word.map_values(|c: char| to_ascii_lowercase(c));
    if want.len() != to - from {
        assert(folded.len() != lower@.len());
        return false;
    }
    let mut i: usize = 0;
    while i < want.len()
        invariant
            from <= to <= chars.len(),
            want.len() == to - from,
            want@ == lower@,
            i <= want.len(),
            word == chars@.subrange(from as int, to as int),
            folded == word.map_values(|c: char| to_ascii_lowercase(c)),
            forall|j: int| 0 <= j < i ==> folded[j] == want[j],
        decreases want.len() - i,
    {
        if ascii_lowercase(chars[from + i]) != want[i] {
            assert(folded[i as int] != lower@[i as int]);
            return false;
        }
        i += 1;
    }
    assert(folded =~= lower@);
    true
}

/// The keyword that `chars[from..to]` spells.
fn keyword_at(chars: &Vec<char>, from: usize, to: usize) -> (keyword: Option<Keyword>)
    requires
        from <= to <= chars.len(),
    ensures
        keyword == keyword_of(chars@.subrange(from as int, to as int)),
{
    if spells(chars, from, to, "given") {
        Some(Keyword::Given)
    } else if spells(chars, from, to, "when") {
        Some(Keyword::When)
    } else if spells(chars, from, to, "then") {
        Some(Keyword::Then)
    } else if spells(chars, from, to, "and") {
        Some(Keyword::And)
    } else {
        None
    }
}

/// Whether `chars[from..]` is the docstring delimiter.
fn is_delimiter(chars: &Vec<char>, from: usize) -> (b: bool)
    requires
        from <= chars.len(),
    ensures
        b == (chars@.skip(from as int) == docstring_delimiter()),
{
    if chars.len() - from != 3 {
        assert(chars@.skip(from as int).len() != docstring_delimiter().len());
        return false;
    }
    let b = chars[from] == '"' && chars[from + 1] == '"' && chars[from + 2] == '"';
    proof {
        let rest = chars@.skip(from as int);
        if b {
            assert(rest =~= docstring_delimiter());
        } else {
            assert(rest[0] != '"' || rest[1] != '"' || rest[2] != '"');
        }
    }
    b
}

impl Keyword {
    /// The keyword that `text` spells, in any mix of upper and lower case.
    pub fn parse(text: &str) -> (keyword: Option<Keyword>)
        ensures
            keyword == keyword_of(text@),
    {
        let chars = to_chars(text);
        assert(chars@.subrange(0, chars@.len() as int) =~= text@);
        keyword_at(&chars, 0, chars.len())
    }

    /// The keyword as feature files spell it.
    pub open spec fn text(self) -> Seq<char> {
        match self {
            Keyword::Given => "Given"@,
            Keyword::When => "When"@,
            Keyword::Then => "Then"@,
            Keyword::And => "And"@,
        }
    }

    /// The keyword as feature files spell it.
    pub fn as_str(&self) -> (text: &'static str)
        ensures
            text@ == self.text(),
    {
        match self {
            Keyword::Given => "Given",
            Keyword::When => "When",
            Keyword::Then => "Then",
            Keyword::And => "And",
        }
    }
}

impl Line {
    /// Lexes one line of a feature file.
    pub fn new(text: String, number: usize) -> (result: Result<Line, UserError>)
        ensures
            result matches Ok(line) && line.deep_view() == lex_line(text@, number)
                && line.deep_view().wf(),
    {
        let chars = to_chars(text.as_str());
        proof {
            lemma_lexed_line_is_wf(text@, number);
        }
        let indent = first_non_whitespace(&chars, 0);
        if is_delimiter(&chars, indent) {
            return Ok(
                Line {
                    number,
                    text,
                    indent,
                    title_start: indent,
                    line_type: LineType::DocStringStartStop,
                },
            );
        }
        let word_end = first_whitespace(&chars, indent);
        if word_end == chars.len() {
            return text_line(number, text, indent);
        }
        match keyword_at(&chars, indent, word_end) {
            Some(keyword) => {
                let title_start = first_non_whitespace(&chars, word_end);
                Ok(
                    Line {
                        number,
                        text,
                        indent,
                        title_start,
                        line_type: LineType::StepStart { keyword },
                    },
                )
            },
            None => text_line(number, text, indent),
        }
    }

    /// The whitespace that the line begins with.
    pub fn indent_text(&self) -> (indent: &str)
        requires
            self.indent <= self.text@.len(),
        ensures
            indent@ == self.deep_view().indent_text(),
    {
        self.text.as_str().substring_char(0, self.indent)
    }

    /// The title of the step that the line starts: what follows the keyword
    /// and the whitespace after it. For other lines, the line without its
    /// indentation.
    pub fn title(&self) -> (title: &str)
        requires
            self.title_start <= self.text@.len(),
        ensures
            title@ == self.deep_view().title(),
    {
        let len = self.text.as_str().unicode_len();
        self.text.as_str().substring_char(self.title_start, len)
    }
}

/// A line that is neither the start of a step nor a docstring delimiter.
pub fn text_line(number: usize, text: String, indent: usize) -> (result: Result<Line, UserError>)
    ensures
        result matches Ok(line) && line.deep_view() == (LineView {
            number,
            text: text@,
            indent,
            title_start: indent,
            line_type: LineType::Text,
        }),
{
    Ok(Line { number, text, indent, title_start: indent, line_type: LineType::Text })
}

/// Lexes a feature file: one `Line` for each line of `text`.
pub fn file(text: &str) -> (result: Result<Vec<Line>, UserError>)
    ensures
        result matches Ok(lexed) && lexed.deep_view() == lex(text@) && forall|i: int|
            0 <= i < lexed.len() ==> (#[trigger] lexed[i]).deep_view().wf(),
{
    let texts = lines(text);
    let ghost all = texts.deep_view();
    let mut lexed: Vec<Line> = Vec::new();
    for line_text in it: texts
        invariant
            it.seq().len() == all.len(),
            forall|j: int| 0 <= j < all.len() ==> it.seq()[j]@ == all[j],
            lexed.len() == it.index(),
            forall|j: int|
                0 <= j < lexed.len() ==> (#[trigger] lexed[j]).deep_view() == lex_line(
                    all[j],
                    j as usize,
                ) && lexed[j].deep_view().wf(),
    {
        match Line::new(line_text, lexed.len()) {
            Ok(line) => lexed.push(line),
            Err(error) => return Err(error),
        }
    }
    assert(lexed.deep_view() =~= lex(text@));
    Ok(lexed)
}

} // verus!
