use big_s::S;
use cucumber_sort::errors::{Finding, Issue};
use cucumber_sort::gherkin::sorter::{deoptimize_keywords, optimize_keywords};
use cucumber_sort::gherkin::{self, Block, Document, Keyword, Sorter, Step};

fn step(line_no: usize, keyword: Keyword, title: &'static str) -> Step {
  Step {
    line_no,
    indent: S("    "),
    keyword,
    title: S(title),
    additional_lines: vec![],
  }
}

fn keywords(steps: &Vec<Step>) -> Vec<Keyword> {
  steps.iter().map(|step| step.keyword).collect()
}

fn titles(steps: &Vec<Step>) -> Vec<&str> {
  steps.iter().map(|step| step.title.as_str()).collect()
}

#[test]
fn reordering() {
  let mut sorter = Sorter::parse("step 1\nstep 2\nstep 3").unwrap();
  let give = vec![
    step(0, Keyword::Given, "step 3"),
    step(1, Keyword::And, "step 2"),
    step(2, Keyword::And, "step 1"),
  ];
  let (have, findings) = sorter.sort_steps(give, "test.feature");
  let want = vec![
    step(2, Keyword::Given, "step 1"),
    step(1, Keyword::And, "step 2"),
    step(0, Keyword::And, "step 3"),
  ];
  assert_eq!(want, have);
  assert_eq!(findings, vec![]);
}

#[test]
fn unknown_step_is_left_out_and_reported() {
  let mut sorter = Sorter::parse("step 1\nstep 2").unwrap();
  let give = vec![
    step(4, Keyword::Given, "step 2"),
    step(5, Keyword::And, "step 3"),
    step(6, Keyword::And, "step 1"),
  ];
  let (have, findings) = sorter.sort_steps(give, "test.feature");
  let want = vec![
    step(6, Keyword::Given, "step 1"),
    step(4, Keyword::And, "step 2"),
  ];
  assert_eq!(want, have);
  assert_eq!(
    findings,
    vec![Finding {
      file: S("test.feature"),
      line: 5,
      problem: Issue::UndefinedStep(S("step 3")),
    }]
  );
}

#[test]
fn quoted_block_is_one_unit() {
  let text = "Feature: test\n  Scenario: docstring\n    Given step 2\n      \"\"\"\n      When step 1\n      And step 3\n      \"\"\"\n    And step 1\n";
  let document = gherkin::file(text).unwrap();
  let want = Document {
    blocks: vec![
      Block::Static(vec![S("Feature: test"), S("  Scenario: docstring")]),
      Block::Sortable(vec![
        Step {
          line_no: 2,
          indent: S("    "),
          keyword: Keyword::Given,
          title: S("step 2"),
          additional_lines: vec![
            S("      \"\"\""),
            S("      When step 1"),
            S("      And step 3"),
            S("      \"\"\""),
          ],
        },
        Step {
          line_no: 7,
          indent: S("    "),
          keyword: Keyword::And,
          title: S("step 1"),
          additional_lines: vec![],
        },
      ]),
    ],
  };
  assert_eq!(want, document);
  let mut sorter = Sorter::parse("^step 1$\n^step 2$\n^step 3$").unwrap();
  let (sorted, findings) = sorter.sort_file(document, "test.feature");
  assert_eq!(findings, vec![]);
  let want = Document {
    blocks: vec![
      Block::Static(vec![S("Feature: test"), S("  Scenario: docstring")]),
      Block::Sortable(vec![
        Step {
          line_no: 7,
          indent: S("    "),
          keyword: Keyword::Given,
          title: S("step 1"),
          additional_lines: vec![],
        },
        Step {
          line_no: 2,
          indent: S("    "),
          keyword: Keyword::And,
          title: S("step 2"),
          additional_lines: vec![
            S("      \"\"\""),
            S("      When step 1"),
            S("      And step 3"),
            S("      \"\"\""),
          ],
        },
      ]),
    ],
  };
  assert_eq!(want, sorted);
  let used: Vec<bool> = sorter.entries.iter().map(|entry| entry.used).collect();
  assert_eq!(used, vec![true, true, false]);
}

#[test]
fn sorting_what_is_sorted_changes_nothing() {
  let mut sorter = Sorter::parse("step 1\nstep 2\nstep 3").unwrap();
  let give = vec![
    step(0, Keyword::Given, "step 1"),
    step(1, Keyword::And, "step 1"),
    step(2, Keyword::When, "step 2"),
    step(3, Keyword::Then, "step 3"),
    step(4, Keyword::And, "step 3"),
  ];
  let (have, findings) = sorter.sort_steps(give.clone(), "test.feature");
  assert_eq!(give, have);
  assert_eq!(findings, vec![]);
  // sorting once more changes nothing either
  let (again, findings) = sorter.sort_steps(have.clone(), "test.feature");
  assert_eq!(have, again);
  assert_eq!(findings, vec![]);
}

#[test]
fn sorting_twice_is_sorting_once() {
  let mut sorter = Sorter::parse("c\nb\na").unwrap();
  let give = vec![
    step(0, Keyword::Given, "a"),
    step(1, Keyword::And, "b"),
    step(2, Keyword::When, "x"),
    step(3, Keyword::Then, "c"),
    step(4, Keyword::And, "a"),
  ];
  let (once, findings) = sorter.sort_steps(give, "test.feature");
  assert_eq!(findings.len(), 1);
  let (twice, findings) = sorter.sort_steps(once.clone(), "test.feature");
  assert_eq!(once, twice);
  assert_eq!(findings, vec![]);
}

#[test]
fn sorting_what_is_in_order_may_change_keywords() {
  // in the order of the rules, but with a keyword that could be `And`
  let mut sorter = Sorter::parse("a\nb").unwrap();
  let give = vec![step(0, Keyword::Given, "a"), step(1, Keyword::Given, "b")];
  let (have, findings) = sorter.sort_steps(give, "test.feature");
  assert_eq!(
    have,
    vec![step(0, Keyword::Given, "a"), step(1, Keyword::And, "b")]
  );
  assert_eq!(findings, vec![]);
}

#[test]
fn steps_of_one_rule_keep_their_order() {
  let mut sorter = Sorter::parse("^b \\d$\n^a \\d$").unwrap();
  let give = vec![
    step(0, Keyword::Given, "a 1"),
    step(1, Keyword::And, "b 1"),
    step(2, Keyword::And, "a 2"),
    step(3, Keyword::And, "b 2"),
    step(4, Keyword::And, "a 3"),
    step(5, Keyword::And, "b 3"),
  ];
  let (have, findings) = sorter.sort_steps(give, "test.feature");
  assert_eq!(titles(&have), vec!["b 1", "b 2", "b 3", "a 1", "a 2", "a 3"]);
  let lines: Vec<usize> = have.iter().map(|step| step.line_no).collect();
  assert_eq!(lines, vec![1, 3, 5, 0, 2, 4]);
  assert_eq!(findings, vec![]);
}

#[test]
fn steps_are_sorted_by_the_keyword_they_stand_for() {
  let mut sorter = Sorter::parse("c\nb\na").unwrap();
  let give = vec![
    step(0, Keyword::Given, "a"),
    step(1, Keyword::And, "b"),
    step(2, Keyword::When, "c"),
  ];
  let (have, _) = sorter.sort_steps(give, "test.feature");
  assert_eq!(titles(&have), vec!["c", "b", "a"]);
  assert_eq!(
    keywords(&have),
    vec![Keyword::When, Keyword::Given, Keyword::And]
  );
}

#[test]
fn keywords_written_out_and_back() {
  let give = vec![
    step(0, Keyword::Given, "a"),
    step(1, Keyword::And, "b"),
    step(2, Keyword::When, "c"),
    step(3, Keyword::Given, "d"),
    step(4, Keyword::And, "e"),
    step(5, Keyword::And, "f"),
    step(6, Keyword::Then, "g"),
  ];
  let plain = deoptimize_keywords(give.clone());
  assert_eq!(
    keywords(&plain),
    vec![
      Keyword::Given,
      Keyword::Given,
      Keyword::When,
      Keyword::Given,
      Keyword::Given,
      Keyword::Given,
      Keyword::Then
    ]
  );
  assert_eq!(optimize_keywords(plain), give);
}

#[test]
fn keywords_of_a_block_that_starts_with_and() {
  let give = vec![
    step(0, Keyword::And, "a"),
    step(1, Keyword::And, "b"),
    step(2, Keyword::When, "c"),
    step(3, Keyword::And, "d"),
  ];
  let plain = deoptimize_keywords(give.clone());
  assert_eq!(
    keywords(&plain),
    vec![Keyword::And, Keyword::And, Keyword::When, Keyword::When]
  );
  assert_eq!(optimize_keywords(plain), give);
}

#[test]
fn keywords_that_are_not_brief_do_not_come_back() {
  let give = vec![step(0, Keyword::Given, "a"), step(1, Keyword::Given, "b")];
  let back = optimize_keywords(deoptimize_keywords(give));
  assert_eq!(keywords(&back), vec![Keyword::Given, Keyword::And]);
}

#[test]
fn optimize_compares_with_the_keyword_that_the_step_before_stands_for() {
  let give = vec![
    step(0, Keyword::Given, "a"),
    step(1, Keyword::And, "b"),
    step(2, Keyword::Given, "c"),
    step(3, Keyword::When, "d"),
  ];
  let have = optimize_keywords(give);
  assert_eq!(
    keywords(&have),
    vec![Keyword::Given, Keyword::And, Keyword::And, Keyword::When]
  );
}

#[test]
fn keywords_of_no_steps() {
  assert_eq!(deoptimize_keywords(vec![]), vec![]);
  assert_eq!(optimize_keywords(vec![]), vec![]);
}

#[test]
fn unused_rule_is_reported_once_after_many_files() {
  let mut sorter = Sorter::parse("step 1\nnever\nstep 2").unwrap();
  let files = vec![
    ("one.feature", "Feature: one\n  Given step 1\n  And step 2\n"),
    ("two.feature", "Feature: two\n  Given step 2\n"),
    ("three.feature", "Feature: three\n  no steps\n"),
    ("four.feature", "Given step 2\nAnd step 1\n\nGiven step 1\n"),
  ];
  for (name, text) in files {
    let document = gherkin::file(text).unwrap();
    let (_, findings) = sorter.sort_file(document, name);
    assert_eq!(findings, vec![]);
  }
  assert_eq!(
    sorter.unused_regexes(),
    vec![Finding {
      file: S(".cucumber-sort-order"),
      line: 1,
      problem: Issue::UnusedRegex(S("never")),
    }]
  );
}

#[test]
fn unused_rule_without_any_file() {
  let sorter = Sorter::parse("a\nb").unwrap();
  let have = sorter.unused_regexes();
  assert_eq!(have.len(), 2);
  assert_eq!(have[0].line, 0);
  assert_eq!(have[1].line, 1);
}
