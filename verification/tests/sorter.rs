use big_s::S;
use cucumber_sort::errors::{Finding, Issue};
use cucumber_sort::gherkin::sorter;
use cucumber_sort::gherkin::{Block, Keyword, Sorter, Step};

#[test]
fn deoptimize_and_optimize_keywords() {
  let steps = vec![
    Step {
      keyword: Keyword::Given,
      title: S("step 1"),
      ..Step::default()
    },
    Step {
      keyword: Keyword::And,
      title: S("step 2"),
      ..Step::default()
    },
    Step {
      keyword: Keyword::And,
      title: S("step 3"),
      ..Step::default()
    },
    Step {
      keyword: Keyword::When,
      title: S("step 4"),
      ..Step::default()
    },
    Step {
      keyword: Keyword::And,
      title: S("step 5"),
      ..Step::default()
    },
    Step {
      keyword: Keyword::Then,
      title: S("step 6"),
      ..Step::default()
    },
    Step {
      keyword: Keyword::And,
      title: S("step 7"),
      ..Step::default()
    },
  ];
  let want_deoptimized = vec![
    Step {
      keyword: Keyword::Given,
      title: S("step 1"),
      ..Step::default()
    },
    Step {
      keyword: Keyword::Given,
      title: S("step 2"),
      ..Step::default()
    },
    Step {
      keyword: Keyword::Given,
      title: S("step 3"),
      ..Step::default()
    },
    Step {
      keyword: Keyword::When,
      title: S("step 4"),
      ..Step::default()
    },
    Step {
      keyword: Keyword::When,
      title: S("step 5"),
      ..Step::default()
    },
    Step {
      keyword: Keyword::Then,
      title: S("step 6"),
      ..Step::default()
    },
    Step {
      keyword: Keyword::Then,
      title: S("step 7"),
      ..Step::default()
    },
  ];
  let have_deoptimized = sorter::deoptimize_keywords(steps.clone());
  assert_eq!(want_deoptimized, have_deoptimized);
  let have_optimized = sorter::optimize_keywords(have_deoptimized);
  assert_eq!(have_optimized, steps);
}

#[test]
fn with_unknown_step() {
  let give = "step 1\n\n# UNKNOWN STEPS\nstep 2\nstep 3";
  let have = Sorter::parse(give).unwrap();
  let have_entries: Vec<&str> = have
    .entries
    .iter()
    .map(|entry| entry.regex.as_str())
    .collect();
  let want_entries = vec!["step 1"];
  assert_eq!(want_entries, have_entries);
}

#[test]
fn sorter_already_ordered() {
  let mut sorter = Sorter::parse("step 1\nstep 2\nstep 3").unwrap();
  let give_steps = vec![
    Step {
      line_no: 0,
      indent: S(""),
      keyword: Keyword::Given,
      title: S("step 1"),
      additional_lines: vec![],
    },
    Step {
      line_no: 1,
      indent: S(""),
      keyword: Keyword::When,
      title: S("step 2"),
      additional_lines: vec![],
    },
    Step {
      line_no: 2,
      indent: S(""),
      keyword: Keyword::Then,
      title: S("step 3"),
      additional_lines: vec![],
    },
  ];
  let want_steps = give_steps.clone();
  let (have_steps, issues) = sorter.sort_steps(give_steps, "test.feature");
  assert_eq!(want_steps, have_steps);
  assert!(issues.is_empty());
}

#[test]
fn sorter_unordered() {
  let mut sorter = Sorter::parse("step 1\nstep 2\nstep 3").unwrap();
  let give_block = Block::Sortable(vec![
    Step {
      title: S("step 3"),
      keyword: Keyword::Given,
      additional_lines: vec![],
      line_no: 0,
      indent: S(""),
    },
    Step {
      title: S("step 2"),
      keyword: Keyword::And,
      additional_lines: vec![],
      line_no: 1,
      indent: S(""),
    },
    Step {
      title: S("step 1"),
      keyword: Keyword::And,
      additional_lines: vec![],
      line_no: 2,
      indent: S(""),
    },
  ]);
  let want_block = Block::Sortable(vec![
    Step {
      title: S("step 1"),
      keyword: Keyword::Given,
      additional_lines: vec![],
      line_no: 2,
      indent: S(""),
    },
    Step {
      title: S("step 2"),
      keyword: Keyword::And,
      additional_lines: vec![],
      line_no: 1,
      indent: S(""),
    },
    Step {
      title: S("step 3"),
      keyword: Keyword::And,
      additional_lines: vec![],
      line_no: 0,
      indent: S(""),
    },
  ]);
  let (have_block, issues) = sorter.sort_block(give_block, "test.feature");
  assert_eq!(want_block, have_block);
  assert!(issues.is_empty());
}

#[test]
fn sorter_unknown_step() {
  let mut sorter = Sorter::parse("step 1\nstep 2").unwrap();
  let give_block = Block::Sortable(vec![
    Step {
      title: S("step 2"),
      keyword: Keyword::Given,
      additional_lines: vec![],
      line_no: 0,
      indent: S(""),
    },
    Step {
      title: S("step 3"),
      keyword: Keyword::Given,
      additional_lines: vec![],
      line_no: 1,
      indent: S(""),
    },
    Step {
      title: S("step 1"),
      keyword: Keyword::Given,
      additional_lines: vec![],
      line_no: 2,
      indent: S(""),
    },
  ]);
  let want_block = Block::Sortable(vec![
    Step {
      title: S("step 1"),
      keyword: Keyword::Given,
      additional_lines: vec![],
      line_no: 2,
      indent: S(""),
    },
    Step {
      title: S("step 2"),
      keyword: Keyword::And,
      additional_lines: vec![],
      line_no: 0,
      indent: S(""),
    },
  ]);
  let (have_block, issues) = sorter.sort_block(give_block, "test.feature");
  assert_eq!(want_block, have_block);
  let want_issues = vec![Finding {
    file: "test.feature".into(),
    line: 1,
    problem: Issue::UndefinedStep(S("step 3")),
  }];
  assert_eq!(want_issues, issues);
}
