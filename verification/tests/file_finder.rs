use cucumber_sort::errors::UserError;
use cucumber_sort::file_finder::FileFinder;

#[test]
fn file_finder_is_ignored_file() {
  let config = r#"
features/unordered*.feature
features/weird*.feature
"#;
  let ignorer = FileFinder::parse(config, "config file name").unwrap();
  assert!(ignorer.is_ignored("features/unordered1.feature"));
  assert!(ignorer.is_ignored("features/unordered2.feature"));
  assert!(ignorer.is_ignored("features/weird1.feature"));
  assert!(ignorer.is_ignored("features/weird2.feature"));
  assert!(!ignorer.is_ignored("features/ordered.feature"));
}

#[test]
fn file_finder_correct() {
  let config = r#"
        feature/one*.feature
        feature/two*.feature
      "#;
  FileFinder::parse(config, "somefile").unwrap();
}

#[test]
fn invalid_glob() {
  let config = r#"
feature/valid.feature
file[name
"#;
  let Err(UserError::IgnoreFileInvalidGlob { file, line, reason }) =
    FileFinder::parse(config, "somefile")
  else {
    panic!()
  };
  assert_eq!(file, "somefile");
  assert_eq!(line, 2);
  assert_eq!(
    reason,
    "Invalid glob pattern 'file[name': Pattern syntax error near position 4: invalid range pattern"
  );
}

#[test]
fn feature_finder_is_ignored_file() {
  let config = r#"
features/unordered*.feature
features/weird*.feature
"#;
  let ignorer = FileFinder::parse(config, ".cucumbersortignore").unwrap();
  assert!(ignorer.is_ignored("features/unordered1.feature"));
  assert!(ignorer.is_ignored("features/unordered2.feature"));
  assert!(ignorer.is_ignored("features/weird1.feature"));
  assert!(ignorer.is_ignored("features/weird2.feature"));
  assert!(!ignorer.is_ignored("features/ordered.feature"));
}

#[test]
fn feature_finder_correct() {
  let config = r#"
        feature/unordered*.feature
        feature/weird*.feature
      "#;
  FileFinder::parse(config, "somefile").unwrap();
}

#[test]
fn feature_finder_incorrect() {
  let config = r#"
feature/valid.feature
file[name
"#;
  let Err(UserError::IgnoreFileInvalidGlob { file, line, reason }) =
    FileFinder::parse(config, "somefile")
  else {
    panic!()
  };
  assert_eq!(file, "somefile");
  assert_eq!(line, 2);
  assert_eq!(
    reason,
    "Invalid glob pattern 'file[name': Pattern syntax error near position 4: invalid range pattern"
  );
}

#[test]
fn ignore_files_is_ignored_file() {
  let config = r#"
features/unordered*.feature
features/weird*.feature
"#;
  let ignorer = FileFinder::parse(config, ".cucumbersortignore").unwrap();
  assert!(ignorer.is_ignored("features/unordered1.feature"));
  assert!(ignorer.is_ignored("features/unordered2.feature"));
  assert!(ignorer.is_ignored("features/weird1.feature"));
  assert!(ignorer.is_ignored("features/weird2.feature"));
  assert!(!ignorer.is_ignored("features/ordered.feature"));
}

#[test]
fn ignore_files_correct() {
  let config = r#"
        feature/unordered*.feature
        feature/weird*.feature
      "#;
  FileFinder::parse(config, "somefile").unwrap();
}

#[test]
fn ignore_files_incorrect() {
  let config = r#"
feature/valid.feature
file[name
"#;
  let Err(UserError::IgnoreFileInvalidGlob { file, line, reason }) =
    FileFinder::parse(config, "somefile")
  else {
    panic!()
  };
  assert_eq!(file, "somefile");
  assert_eq!(line, 2);
  assert_eq!(
    reason,
    "Invalid glob pattern 'file[name': Pattern syntax error near position 4: invalid range pattern"
  );
}

#[test]
fn globs_are_the_lines_that_are_no_comments() {
  let config = "# ignored\n\nfeatures/a*.feature\n#features/b.feature\nfeatures/c.feature";
  let finder = FileFinder::parse(config, "somefile").unwrap();
  assert_eq!(
    finder.globs,
    vec![
      String::from("features/a*.feature"),
      String::from("features/c.feature")
    ]
  );
  assert!(finder.is_ignored("features/abc.feature"));
  assert!(finder.is_ignored("features/c.feature"));
  assert!(!finder.is_ignored("features/b.feature"));
}

#[test]
fn no_globs_ignore_nothing() {
  let finder = FileFinder::parse("", "somefile").unwrap();
  assert_eq!(finder.globs, Vec::<String>::new());
  assert!(!finder.is_ignored("features/a.feature"));
  assert!(!finder.is_ignored(""));
}

#[test]
fn first_invalid_glob_is_reported() {
  let config = "a[\nb[";
  let Err(UserError::IgnoreFileInvalidGlob { file, line, reason }) =
    FileFinder::parse(config, "ignore")
  else {
    panic!()
  };
  assert_eq!(file, "ignore");
  assert_eq!(line, 0);
  assert_eq!(
    reason,
    "Invalid glob pattern 'a[': Pattern syntax error near position 1: invalid range pattern"
  );
}

#[test]
fn globs_that_do_not_compile_match_nothing() {
  let finder = FileFinder {
    globs: vec![String::from("a["), String::from("b*")],
  };
  assert!(!finder.is_ignored("a["));
  assert!(finder.is_ignored("bcd"));
}
