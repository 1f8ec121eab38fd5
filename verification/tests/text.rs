use cucumber_sort::text::{compare_texts, from_chars, join, lines, push_decimal, separate, to_chars, trim};

fn strings(texts: Vec<&str>) -> Vec<String> {
  texts.into_iter().map(String::from).collect()
}

#[test]
fn lines_of_a_text() {
  assert_eq!(lines(""), strings(vec![]));
  assert_eq!(lines("a"), strings(vec!["a"]));
  assert_eq!(lines("a\n"), strings(vec!["a"]));
  assert_eq!(lines("a\nb"), strings(vec!["a", "b"]));
  assert_eq!(lines("a\n\nb\n"), strings(vec!["a", "", "b"]));
  assert_eq!(lines("\n"), strings(vec![""]));
  assert_eq!(lines("\n\n"), strings(vec!["", ""]));
}

#[test]
fn lines_with_carriage_returns() {
  assert_eq!(lines("a\r\nb\r\n"), strings(vec!["a", "b"]));
  assert_eq!(lines("a\r\r\nb"), strings(vec!["a\r", "b"]));
  assert_eq!(lines("a\rb\n"), strings(vec!["a\rb"]));
  assert_eq!(lines("a\r"), strings(vec!["a\r"]));
  assert_eq!(lines("\r\n"), strings(vec![""]));
  assert_eq!(lines("\r"), strings(vec!["\r"]));
}

#[test]
fn lines_are_what_std_calls_lines() {
  let texts = vec![
    "",
    "\n",
    "a\nb",
    "a\r\nb\r\n",
    "a\r\r\n\rb\r",
    "\r\n\r\n",
    "Feature: x\n\n  Scenario: y\n    Given z\n",
    "\u{e9}\u{85}\n\u{2028}x",
  ];
  for text in texts {
    let want: Vec<String> = text.lines().map(String::from).collect();
    assert_eq!(lines(text), want, "{:?}", text);
  }
}

#[test]
fn join_ends_each_line() {
  assert_eq!(join(&strings(vec![])), "");
  assert_eq!(join(&strings(vec!["a"])), "a\n");
  assert_eq!(join(&strings(vec!["a", "", "b"])), "a\n\nb\n");
}

#[test]
fn join_undoes_lines() {
  let text = "Feature: x\n\n  Scenario: y\n    Given z\n";
  assert_eq!(join(&lines(text)), text);
  // not so where the text does not end with a line feed
  assert_eq!(join(&lines("a\nb")), "a\nb\n");
  // nor where a carriage return stands before a line feed
  assert_eq!(join(&lines("a\r\nb\n")), "a\nb\n");
}

#[test]
fn separate_stands_between_lines() {
  assert_eq!(separate(&strings(vec![])), "");
  assert_eq!(separate(&strings(vec!["a"])), "a");
  assert_eq!(separate(&strings(vec!["a", "", "b"])), "a\n\nb");
  assert_eq!(separate(&strings(vec!["", ""])), "\n");
}

#[test]
fn characters_to_and_fro() {
  let chars = to_chars("a\u{e9}\u{1f600}b");
  assert_eq!(chars, vec!['a', '\u{e9}', '\u{1f600}', 'b']);
  assert_eq!(from_chars(&chars, 1, 3), "\u{e9}\u{1f600}");
  assert_eq!(from_chars(&chars, 2, 2), "");
  assert_eq!(from_chars(&chars, 0, 4), "a\u{e9}\u{1f600}b");
  assert_eq!(to_chars(""), vec![]);
}

#[test]
fn trim_takes_whitespace_from_both_ends() {
  assert_eq!(trim(""), "");
  assert_eq!(trim("   "), "");
  assert_eq!(trim("a"), "a");
  assert_eq!(trim("  a b  "), "a b");
  assert_eq!(trim("\t\u{a0}a\u{3000}\n"), "a");
  for text in vec!["", " ", " a", "a ", " a  b ", "\u{2003}x\u{85}", "\u{200b}x\u{200b}"] {
    assert_eq!(trim(text), text.trim(), "{:?}", text);
  }
}

#[test]
fn decimal_digits() {
  for (n, want) in vec![
    (0u128, "0"),
    (7, "7"),
    (10, "10"),
    (99, "99"),
    (100, "100"),
    (1234567890, "1234567890"),
    (u128::MAX, "340282366920938463463374607431768211455"),
  ] {
    let mut have = String::from("n=");
    push_decimal(&mut have, n);
    assert_eq!(have, format!("n={}", want));
  }
}

#[test]
fn texts_compare_as_strings_do() {
  let texts = vec![
    "", "a", "b", "ab", "aa", "a\u{e9}", "a\u{1f600}", "\u{e9}", "B", "^step 1$", "^step 10$",
    "^step .*$",
  ];
  for a in &texts {
    for b in &texts {
      let want = match a.cmp(b) {
        std::cmp::Ordering::Less => -1,
        std::cmp::Ordering::Equal => 0,
        std::cmp::Ordering::Greater => 1,
      };
      assert_eq!(compare_texts(a, b), want, "{:?} {:?}", a, b);
    }
  }
  assert_eq!(compare_texts("a", "b"), -1);
  assert_eq!(compare_texts("b", "a"), 1);
  assert_eq!(compare_texts("a", "ab"), -1);
  assert_eq!(compare_texts("ab", "ab"), 0);
}
