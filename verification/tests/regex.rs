#[test]
fn make_regex() {
  let tests = vec![
    // no captures
    ("a foo walks into a bar", "^a foo walks into a bar$"),
    // one capture
    (
      "file \"foo.feature\" contains a bar",
      "^file .* contains a bar$",
    ),
    // multiple captures
    (
      "file \"foo.feature\" contains \"bar\"",
      "^file .* contains .*$",
    ),
  ];
  for (give, want) in tests {
    let have = cucumber_sort::regex::make_regex(give);
    assert_eq!(want, have);
  }
}

#[test]
fn make_regex_of_empty_title() {
  assert_eq!(cucumber_sort::regex::make_regex(""), "^$");
}

#[test]
fn make_regex_of_open_quote() {
  // a quote that is not closed reaches to the end of the title
  assert_eq!(cucumber_sort::regex::make_regex("file \"foo"), "^file .*$");
  assert_eq!(cucumber_sort::regex::make_regex("\""), "^.*$");
}

#[test]
fn make_regex_of_empty_quotes() {
  assert_eq!(cucumber_sort::regex::make_regex("a \"\" b"), "^a .* b$");
  assert_eq!(cucumber_sort::regex::make_regex("\"a\"\"b\""), "^.*.*$");
}

#[test]
fn make_regex_keeps_other_characters() {
  assert_eq!(cucumber_sort::regex::make_regex("a (b) \u{e9}*"), "^a (b) \u{e9}*$");
}
