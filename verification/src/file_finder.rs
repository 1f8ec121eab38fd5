//! Which feature files the tool leaves alone: the ignore file.

use crate::errors::{UserError, UserErrorView};
use crate::text::{lines, split_lines};
use glob::Pattern;
use vstd::prelude::*;
use vstd::string::{StrSliceExecFns, StringExecFns};

verus! {

/// The name of the ignore file.
pub const IGNORE_FILE_NAME: &'static str = ".cucumber-sort-ignore";

/// The message of the error with which `Pattern::new` refuses the glob
/// `pattern`; `None` where it accepts `pattern`. `Pattern` takes for a
/// path separator what the platform does for which the library is built.
pub uninterp spec fn glob_error(pattern: Seq<char>) -> Option<Seq<char>>;

/// What `Pattern::matches` answers for `path` and the glob that
/// `Pattern::new` makes of `pattern`: whether the glob matches `path`.
/// `None` where `Pattern::new` refuses `pattern`. `Pattern` takes for a
/// path separator what the platform does for which the library is built.
pub uninterp spec fn glob_match(pattern: Seq<char>, path: Seq<char>) -> Option<bool>;

/// Whether `pattern` is a glob that matches `path`.
pub open spec fn glob_matches(pattern: Seq<char>, path: Seq<char>) -> bool {
    glob_match(pattern, path) == Some(true)
}

/// Compiles `pattern` with `Pattern::new` and gives the error's message,
/// as its `Display` writes it, where there is one.
#[verifier::external_body]
fn glob_syntax_error(pattern: &str) -> (error: Option<String>)
    ensures
        error.deep_view() == glob_error(pattern@),
{
    match Pattern::new(pattern) {
        Ok(_) => None,
        Err(error) => Some(error.to_string()),
    }
}

/// Compiles `pattern` with `Pattern::new` and asks `Pattern::matches`
/// whether it matches `path`; `None` where `pattern` does not compile.
#[verifier::external_body]
fn match_path(pattern: &str, path: &str) -> (found: Option<bool>)
    ensures
        found == glob_match(pattern@, path@),
{
    match Pattern::new(pattern) {
        Ok(glob) => Some(glob.matches(path)),
        Err(_) => None,
    }
}

/// Whether `pattern` is a glob that matches `path`.
fn matches_path(pattern: &str, path: &str) -> (matches: bool)
    ensures
        matches == glob_matches(pattern@, path@),
{
    match match_path(pattern, path) {
        Some(found) => found,
        None => false,
    }
}

/// The globs of the ignore file: a feature file that one of them matches
/// is left alone.
#[derive(Debug, PartialEq, Eq)]
pub struct FileFinder {
    pub globs: Vec<String>,
}

impl DeepView for FileFinder {
    type V = Seq<Seq<char>>;

    open spec fn deep_view(&self) -> Seq<Seq<char>> {
        self.globs.deep_view()
    }
}

/// Whether a line of the ignore file holds a glob: it is not empty and no
/// comment.
pub open spec fn is_glob(line: Seq<char>) -> bool {
    line.len() > 0 && line[0] != '#'
}

/// The error that line `line` of the ignore file `source`, which reads
/// `pattern`, is no glob.
pub open spec fn invalid_glob(
    source: Seq<char>,
    line: usize,
    pattern: Seq<char>,
    message: Seq<char>,
) -> UserErrorView {
    UserErrorView::IgnoreFileInvalidGlob {
        file: source,
        line,
        reason: "Invalid glob pattern '"@ + pattern + "': "@ + message,
    }
}

/// The globs on the first `n` lines of an ignore file, or the error for
/// the first of these lines that holds what is no glob.
pub open spec fn globs_in(lines: Seq<Seq<char>>, source: Seq<char>, n: nat) -> Result<
    Seq<Seq<char>>,
    UserErrorView,
>
    decreases n,
{
    if n == 0 {
        Ok(Seq::empty())
    } else {
        match globs_in(lines, source, (n - 1) as nat) {
            Err(error) => Err(error),
            Ok(globs) => {
                let line = lines[n - 1];
                if !is_glob(line) {
                    Ok(globs)
                } else {
                    match glob_error(line) {
                        Some(message) => Err(
                            invalid_glob(source, (n - 1) as usize, line, message),
                        ),
                        None => Ok(globs.push(line)),
                    }
                }
            },
        }
    }
}

/// The globs that an ignore file holds: one for each line that is neither
/// empty nor a comment.
pub open spec fn parsed_globs(config: Seq<char>, source: Seq<char>) -> Result<
    Seq<Seq<char>>,
    UserErrorView,
> {
    globs_in(split_lines(config), source, split_lines(config).len())
}

/// One of the globs matches `file`.
pub open spec fn ignores(globs: Seq<Seq<char>>, file: Seq<char>) -> bool {
    exists|i: int| 0 <= i < globs.len() && glob_matches(#[trigger] globs[i], file)
}

/// Once a line is refused, the lines after it change nothing.
proof fn lemma_globs_error_stays(lines: Seq<Seq<char>>, source: Seq<char>, n: nat, m: nat)
    requires
        n <= m,
        globs_in(lines, source, n) is Err,
    ensures
        globs_in(lines, source, m) == globs_in(lines, source, n),
    decreases m,
{
    if n < m {
        lemma_globs_error_stays(lines, source, n, (m - 1) as nat);
    }
}

impl FileFinder {
    /// Reads the globs from the text of an ignore file, which `source`
    /// names. Fails on the first line that is no glob.
    pub fn parse(config: &str, source: &str) -> (result: Result<FileFinder, UserError>)
        ensures
            match result {
                Ok(finder) => parsed_globs(config@, source@) == Ok::<
                    Seq<Seq<char>>,
                    UserErrorView,
                >(finder.deep_view()),
                Err(error) => parsed_globs(config@, source@) == Err::<
                    Seq<Seq<char>>,
                    UserErrorView,
                >(error.deep_view()),
            },
    {
        let texts = lines(config);
        let ghost all = texts.deep_view();
        let mut globs: Vec<String> = Vec::new();
        let mut i: usize = 0;
        assert(globs.deep_view() =~= Seq::<Seq<char>>::empty());
        while i < texts.len()
            invariant
                i <= texts.len(),
                all == texts.deep_view(),
                all == split_lines(config@),
                globs_in(all, source@, i as nat) == Ok::<Seq<Seq<char>>, UserErrorView>(
                    globs.deep_view(),
                ),
            decreases texts.len() - i,
        {
            assert(all[i as int] == texts[i as int]@);
            let line = texts[i].as_str();
            if !line.is_empty() && line.get_char(0) != '#' {
                match glob_syntax_error(line) {
                    Some(message) => {
                        proof {
                            assert(globs_in(all, source@, (i + 1) as nat) is Err);
                            lemma_globs_error_stays(all, source@, (i + 1) as nat, all.len());
                        }
                        let mut reason = String::from_str("Invalid glob pattern '");
                        reason.append(line);
                        reason.append("': ");
                        reason.append(message.as_str());
                        return Err(
                            UserError::IgnoreFileInvalidGlob {
                                file: String::from_str(source),
                                line: i,
                                reason,
                            },
                        );
                    },
                    None => {
                        let ghost before = globs.deep_view();
                        globs.push(String::from_str(line));
                        assert(globs.deep_view() =~= before.push(all[i as int]));
                    },
                }
            }
            i += 1;
        }
        Ok(FileFinder { globs })
    }

    /// Whether one of the globs matches the path `file`.
    pub fn is_ignored(&self, file: &str) -> (ignored: bool)
        ensures
            ignored == ignores(self.deep_view(), file@),
    {
        let mut i: usize = 0;
        while i < self.globs.len()
            invariant
                i <= self.globs.len(),
                forall|j: int|
                    0 <= j < i ==> !glob_matches(#[trigger] self.deep_view()[j], file@),
            decreases self.globs.len() - i,
        {
            if matches_path(self.globs[i].as_str(), file) {
                assert(glob_matches(self.deep_view()[i as int], file@));
                return true;
            }
            i += 1;
        }
        false
    }
}

} // verus!
