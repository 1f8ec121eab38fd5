use big_s::S;
use cucumber_sort::errors::{Finding, Issue, UserError};
use cucumber_sort::gherkin::lexer::{self, Line, LineType};
use cucumber_sort::gherkin::parser::{self, Lines};
use cucumber_sort::gherkin::{self, Block, Document, Keyword, Step};

fn document(text: &str) -> Document {
  gherkin::file(text).unwrap()
}

#[test]
fn docstring_belongs_to_its_step() {
  let text = "Feature: x\n  Scenario: y\n    Given a file:\n      \"\"\"\n      Given step 1\n      And then some\n      \"\"\"\n    When step 2\n";
  let have = document(text);
  let want = Document {
    blocks: vec![
      Block::Static(vec![S("Feature: x"), S("  Scenario: y")]),
      Block::Sortable(vec![
        Step {
          line_no: 2,
          indent: S("    "),
          keyword: Keyword::Given,
          title: S("a file:"),
          additional_lines: vec![
            S("      \"\"\""),
            S("      Given step 1"),
            S("      And then some"),
            S("      \"\"\""),
          ],
        },
        Step {
          line_no: 7,
          indent: S("    "),
          keyword: Keyword::When,
          title: S("step 2"),
          additional_lines: vec![],
        },
      ]),
    ],
  };
  assert_eq!(want, have);
}

#[test]
fn docstring_moves_with_its_step() {
  let text = "  Scenario: y\n    Given a file:\n      \"\"\"\n      Given step 1\n      When text\n      \"\"\"\n    And step 2\n";
  let mut sorter = gherkin::Sorter::parse("step 2\na file:").unwrap();
  let (sorted, issues) = sorter.sort_file(document(text), "x.feature");
  assert_eq!(issues, vec![]);
  assert_eq!(
    sorted.lines().to_string(),
    "  Scenario: y\n    Given step 2\n    And a file:\n      \"\"\"\n      Given step 1\n      When text\n      \"\"\"\n"
  );
}

#[test]
fn docstring_closes_at_the_indentation_that_opened_it() {
  let text = "Given a file:\n  \"\"\"\n  Given file:\n    \"\"\"\n    text\n    \"\"\"\n  When inner\n  \"\"\"\nWhen step 2\n";
  let have = document(text);
  let want = Document {
    blocks: vec![Block::Sortable(vec![
      Step {
        line_no: 0,
        indent: S(""),
        keyword: Keyword::Given,
        title: S("a file:"),
        additional_lines: vec![
          S("  \"\"\""),
          S("  Given file:"),
          S("    \"\"\""),
          S("    text"),
          S("    \"\"\""),
          S("  When inner"),
          S("  \"\"\""),
        ],
      },
      Step {
        line_no: 8,
        indent: S(""),
        keyword: Keyword::When,
        title: S("step 2"),
        additional_lines: vec![],
      },
    ])],
  };
  assert_eq!(want, have);
}

#[test]
fn docstring_that_is_not_closed_reaches_to_the_end() {
  let have = document("Given a\n\"\"\"\nWhen b\n\ntext");
  let want = Document {
    blocks: vec![Block::Sortable(vec![Step {
      line_no: 0,
      indent: S(""),
      keyword: Keyword::Given,
      title: S("a"),
      additional_lines: vec![S("\"\"\""), S("When b"), S(""), S("text")],
    }])],
  };
  assert_eq!(want, have);
}

#[test]
fn docstring_without_a_step() {
  assert_eq!(
    gherkin::file("\"\"\"\ntext\n\"\"\"\n"),
    Err(UserError::MisplacedDocString { line: 0 })
  );
  assert_eq!(
    gherkin::file("Feature: x\n\n  \"\"\"\n  text\n  \"\"\"\n  Given a\n  \"\"\"\n"),
    Err(UserError::MisplacedDocString { line: 2 })
  );
  // after a step is closed by a line of text a docstring has no step
  assert_eq!(
    gherkin::file("Given a\n| table |\n\"\"\"\n"),
    Err(UserError::MisplacedDocString { line: 2 })
  );
}

#[test]
fn parser_reports_the_number_that_the_line_carries() {
  let lines = vec![Line {
    number: 41,
    text: S("\"\"\""),
    indent: 0,
    title_start: 0,
    line_type: LineType::DocStringStartStop,
  }];
  assert_eq!(
    parser::file(lines),
    Err(UserError::MisplacedDocString { line: 41 })
  );
}

#[test]
fn document_that_starts_with_a_step() {
  let have = document("Given a\nThen b\n");
  let want = Document {
    blocks: vec![Block::Sortable(vec![
      Step {
        line_no: 0,
        indent: S(""),
        keyword: Keyword::Given,
        title: S("a"),
        additional_lines: vec![],
      },
      Step {
        line_no: 1,
        indent: S(""),
        keyword: Keyword::Then,
        title: S("b"),
        additional_lines: vec![],
      },
    ])],
  };
  assert_eq!(want, have);
}

#[test]
fn empty_document() {
  assert_eq!(document(""), Document { blocks: vec![] });
  assert_eq!(parser::file(vec![]), Ok(Document { blocks: vec![] }));
  assert_eq!(Document { blocks: vec![] }.lines(), Lines(vec![]));
}

#[test]
fn blocks_take_turns() {
  let have = document("a\nGiven b\nAnd c\nd\ne\nWhen f\n");
  let kinds: Vec<bool> = have
    .blocks
    .iter()
    .map(|block| matches!(block, Block::Sortable(_)))
    .collect();
  assert_eq!(kinds, vec![false, true, false, true]);
  for block in &have.blocks {
    match block {
      Block::Sortable(steps) => assert!(!steps.is_empty()),
      Block::Static(lines) => assert!(!lines.is_empty()),
    }
  }
}

#[test]
fn steps_are_written_with_one_space() {
  let have = document("  given   a\n\tAND\tb \n").lines();
  assert_eq!(have, Lines(vec![S("  Given a"), S("\tAnd b ")]));
}

#[test]
fn lines_of_a_document() {
  let give = Document {
    blocks: vec![
      Block::Static(vec![S("one"), S("")]),
      Block::Sortable(vec![
        Step {
          line_no: 9,
          indent: S("  "),
          keyword: Keyword::Then,
          title: S("a"),
          additional_lines: vec![S("x"), S("y")],
        },
        Step {
          line_no: 3,
          indent: S(""),
          keyword: Keyword::And,
          title: S(""),
          additional_lines: vec![],
        },
      ]),
      Block::Sortable(vec![]),
      Block::Static(vec![]),
      Block::Static(vec![S("two")]),
    ],
  };
  let copy = give.duplicate();
  assert_eq!(copy, give);
  assert_eq!(
    give.lines(),
    Lines(vec![S("one"), S(""), S("  Then a"), S("x"), S("y"), S("And "), S("two")])
  );
}

#[test]
fn lines_from_strings() {
  let have = Lines::from(vec![S("a"), S("b")]);
  assert_eq!(have, Lines(vec![S("a"), S("b")]));
  assert_eq!(have.to_string(), "a\nb\n");
  assert_eq!(Lines::from(vec![]).to_string(), "");
}

#[test]
fn mismatching_lines() {
  let have = Lines::from(vec![S("a"), S("b"), S("c"), S("d")]);
  let want = Lines::from(vec![S("a"), S("c"), S("b"), S("d")]);
  assert_eq!(
    have.find_mismatching(&want, "x.feature"),
    vec![
      Finding {
        file: S("x.feature"),
        line: 1,
        problem: Issue::UnsortedLine {
          have: S("b"),
          want: S("c"),
        },
      },
      Finding {
        file: S("x.feature"),
        line: 2,
        problem: Issue::UnsortedLine {
          have: S("c"),
          want: S("b"),
        },
      },
    ]
  );
  assert_eq!(have.find_mismatching(&have, "x.feature"), vec![]);
}

#[test]
fn mismatching_lines_of_different_length() {
  let long = Lines::from(vec![S("a"), S("b"), S("c")]);
  let short = Lines::from(vec![S("a"), S("x")]);
  let want = vec![Finding {
    file: S("f"),
    line: 1,
    problem: Issue::UnsortedLine {
      have: S("b"),
      want: S("x"),
    },
  }];
  assert_eq!(long.find_mismatching(&short, "f"), want);
  let want = vec![Finding {
    file: S("f"),
    line: 1,
    problem: Issue::UnsortedLine {
      have: S("x"),
      want: S("b"),
    },
  }];
  assert_eq!(short.find_mismatching(&long, "f"), want);
  assert_eq!(long.find_mismatching(&Lines::from(vec![]), "f"), vec![]);
}

#[test]
fn default_step() {
  assert_eq!(
    Step::default(),
    Step {
      line_no: 0,
      indent: S(""),
      keyword: Keyword::Given,
      title: S(""),
      additional_lines: vec![],
    }
  );
}

#[test]
fn parsed_text_written_out_is_the_text() {
  let text = "Feature: x\n\n  Scenario: y\n    Given a\n      \"\"\"\n      given  b\n      \"\"\"\n    And c\n      | d |\n\n  Scenario: z\n    When e \n";
  assert_eq!(document(text).lines().to_string(), text);
  let lexed: Vec<String> = lexer::file(text)
    .unwrap()
    .into_iter()
    .map(|line| line.text)
    .collect();
  assert_eq!(Lines(lexed), document(text).lines());
}

#[test]
fn parsed_text_written_out_is_not_always_the_text() {
  // a keyword in lower case
  assert_eq!(document("given a\n").lines().to_string(), "Given a\n");
  // two spaces after the keyword
  assert_eq!(document("Given  a\n").lines().to_string(), "Given a\n");
  // no line feed at the end
  assert_eq!(document("Given a").lines().to_string(), "Given a\n");
  // a carriage return before the line feed
  assert_eq!(document("Given a\r\n").lines().to_string(), "Given a\n");
}
