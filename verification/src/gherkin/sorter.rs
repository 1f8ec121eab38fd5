//! The sorter: puts the steps of each block into the order of the rules.

use crate::errors::{Finding, FindingView, Issue, IssueView, UserError, UserErrorView};
use crate::gherkin::lexer::Keyword;
use crate::gherkin::parser::{Block, BlockView, Document, Step, StepView};
use crate::regex::{make_regex, regex_for};
use crate::text::{
    compare_texts, lines, precedes, separate, separated, split_lines, strictly_increasing,
};
use big_s::S;
use regex::Regex;
use vstd::prelude::*;
use vstd::string::{StrSliceExecFns, StringExecFns};

verus! {

/// The name of the rule file.
pub const FILE_NAME: &'static str = ".cucumber-sort-order";

/// The line of the rule file after which no rule stands: below it the tool
/// records the steps that no rule matched.
pub const MARKER: &'static str = "# UNKNOWN STEPS";

/// What `Regex::is_match` answers for `text` and the regular expression
/// that `Regex::new` compiles from `pattern`: whether the expression
/// matches somewhere in `text`. `None` where `Regex::new` refuses
/// `pattern`.
pub uninterp spec fn regex_match(pattern: Seq<char>, text: Seq<char>) -> Option<bool>;

/// The regular expression that matches the whole of a text where
/// `pattern` matches: `pattern` as a group between the anchors for the
/// start and the end of the text.
pub open spec fn anchored(pattern: Seq<char>) -> Seq<char> {
    "^(?:"@ + pattern + ")$"@
}

/// Whether the rule `pattern` matches the title `text`: `pattern`, as a
/// regular expression, matches the whole of `text`.
pub open spec fn regex_is_match(pattern: Seq<char>, text: Seq<char>) -> bool {
    regex_match(anchored(pattern), text) == Some(true)
}

/// The message of the error with which `Regex::new` refuses `pattern`;
/// `None` where it compiles `pattern`.
pub uninterp spec fn regex_error(pattern: Seq<char>) -> Option<Seq<char>>;

/// `S` makes a `String` of a string literal.
pub assume_specification[ big_s::S ](s: &'static str) -> (string: String)
    ensures
        string@ == s@,
;

/// Compiles `pattern` with `Regex::new` and asks `Regex::is_match` whether
/// the expression matches somewhere in `title`; `None` where `pattern`
/// does not compile.
#[verifier::external_body]
fn match_title(pattern: &str, title: &str) -> (found: Option<bool>)
    ensures
        found == regex_match(pattern@, title@),
{
    match Regex::new(pattern) {
        Ok(regex) => Some(regex.is_match(title)),
        Err(_) => None,
    }
}

/// The regular expression that matches the whole of a text where
/// `pattern` matches.
fn anchor(pattern: &str) -> (whole: String)
    ensures
        whole@ == anchored(pattern@),
{
    let mut whole = String::from_str("^(?:");
    whole.append(pattern);
    whole.append(")$");
    whole
}

/// Whether the rule `pattern` matches the whole of `title`.
fn matches_title(pattern: &str, title: &str) -> (matches: bool)
    ensures
        matches == regex_is_match(pattern@, title@),
{
    match match_title(anchor(pattern).as_str(), title) {
        Some(found) => found,
        None => false,
    }
}

/// Compiles `pattern` with `Regex::new` and gives the error's message, as
/// its `Display` writes it, where there is one.
#[verifier::external_body]
fn syntax_error(pattern: &str) -> (error: Option<String>)
    ensures
        error.deep_view() == regex_error(pattern@),
{
    match Regex::new(pattern) {
        Ok(_) => None,
        Err(error) => Some(error.to_string()),
    }
}

/// The keyword that step `i` stands for: its own, or for an `And` that
/// of the nearest step before it that has another; `And` where there is
/// none.
pub open spec fn effective_keyword(steps: Seq<StepView>, i: int) -> Keyword
    decreases i + 1,
{
    if i < 0 || i >= steps.len() {
        Keyword::And
    } else if steps[i].keyword != Keyword::And {
        steps[i].keyword
    } else {
        effective_keyword(steps, i - 1)
    }
}

/// `step` with another keyword.
pub open spec fn with_keyword(step: StepView, keyword: Keyword) -> StepView {
    StepView { keyword, ..step }
}

/// The steps with each `And` replaced by the keyword that it stands for.
pub open spec fn deoptimized(steps: Seq<StepView>) -> Seq<StepView> {
    Seq::new(steps.len(), |i: int| with_keyword(steps[i], effective_keyword(steps, i)))
}

/// The steps with `And` in place of each keyword that repeats the keyword
/// which the step before stands for.
pub open spec fn optimized(steps: Seq<StepView>) -> Seq<StepView> {
    Seq::new(
        steps.len(),
        |i: int|
            with_keyword(
                steps[i],
                if steps[i].keyword == effective_keyword(steps, i - 1) {
                    Keyword::And
                } else {
                    steps[i].keyword
                },
            ),
    )
}

/// Replaces each `And` by the keyword that it stands for.
pub fn deoptimize_keywords(steps: Vec<Step>) -> (result: Vec<Step>)
    ensures
        result.deep_view() == deoptimized(steps.deep_view()),
{
    let ghost before = steps.deep_view();
    let mut result = steps;
    let mut previous_keyword = Keyword::And;
    let mut i: usize = 0;
    while i < result.len()
        invariant
            i <= result.len(),
            result.len() == before.len(),
            previous_keyword == effective_keyword(before, i - 1),
            forall|j: int| 0 <= j < i ==> result[j].deep_view() == deoptimized(before)[j],
            forall|j: int| i <= j < result.len() ==> result[j].deep_view() == before[j],
        decreases result.len() - i,
    {
        if result[i].keyword == Keyword::And {
            result[i].keyword = previous_keyword;
        } else {
            previous_keyword = result[i].keyword;
        }
        i += 1;
    }
    assert(result.deep_view() =~= deoptimized(before));
    result
}

/// Writes `And` for each keyword that repeats the keyword which the step
/// before stands for.
pub fn optimize_keywords(steps: Vec<Step>) -> (result: Vec<Step>)
    ensures
        result.deep_view() == optimized(steps.deep_view()),
{
    let ghost before = steps.deep_view();
    let mut result = steps;
    let mut previous_keyword = Keyword::And;
    let mut i: usize = 0;
    while i < result.len()
        invariant
            i <= result.len(),
            result.len() == before.len(),
            previous_keyword == effective_keyword(before, i - 1),
            forall|j: int| 0 <= j < i ==> result[j].deep_view() == optimized(before)[j],
            forall|j: int| i <= j < result.len() ==> result[j].deep_view() == before[j],
        decreases result.len() - i,
    {
        if result[i].keyword == previous_keyword {
            result[i].keyword = Keyword::And;
        } else if result[i].keyword != Keyword::And {
            previous_keyword = result[i].keyword;
        }
        i += 1;
    }
    assert(result.deep_view() =~= optimized(before));
    result
}

/// A rule: a regular expression for the titles of steps, the line of the
/// rule file on which it stands, and whether it has matched a step.
#[derive(Debug, PartialEq, Eq)]
pub struct Entry {
    /// the regular expression, as the rule file holds it
    pub regex: String,
    /// whether a step was sorted by this rule since the rules were loaded
    pub used: bool,
    /// the line of the rule file, from 0
    pub line_no: usize,
}

/// An `Entry`, with its expression as a sequence of characters.
pub ghost struct EntryView {
    pub regex: Seq<char>,
    pub used: bool,
    pub line_no: usize,
}

impl DeepView for Entry {
    type V = EntryView;

    open spec fn deep_view(&self) -> EntryView {
        EntryView { regex: self.regex@, used: self.used, line_no: self.line_no }
    }
}

/// The rules in the order in which steps are to stand.
#[derive(Debug, PartialEq, Eq)]
pub struct Sorter {
    pub entries: Vec<Entry>,
}

impl DeepView for Sorter {
    type V = Seq<EntryView>;

    open spec fn deep_view(&self) -> Seq<EntryView> {
        self.entries.deep_view()
    }
}

/// The regular expressions of the rules, in their order.
pub open spec fn patterns(entries: Seq<EntryView>) -> Seq<Seq<char>> {
    entries.map_values(|entry: EntryView| entry.regex)
}

/// None of the first `n` patterns matches `title`.
pub open spec fn matches_none(patterns: Seq<Seq<char>>, n: int, title: Seq<char>) -> bool {
    forall|k: int|
        0 <= k < n && k < patterns.len() ==> !regex_is_match(#[trigger] patterns[k], title)
}

/// Rule `r` is the first whose pattern matches `title`: a step with this
/// title is sorted by rule `r`.
pub open spec fn claims(patterns: Seq<Seq<char>>, r: int, title: Seq<char>) -> bool {
    &&& 0 <= r < patterns.len()
    &&& regex_is_match(patterns[r], title)
    &&& matches_none(patterns, r, title)
}

/// The steps that rule `r` sorts, in the order in which they stand.
pub open spec fn claimed_by(steps: Seq<StepView>, patterns: Seq<Seq<char>>, r: int) -> Seq<
    StepView,
> {
    steps.filter(|step: StepView| claims(patterns, r, step.title))
}

/// The steps that the first `n` rules sort: those of the first rule, then
/// those of the second, and so on, the steps of one rule in the order in
/// which they stand in `steps`.
#[verifier::opaque]
pub open spec fn arranged(steps: Seq<StepView>, patterns: Seq<Seq<char>>, n: nat) -> Seq<StepView>
    decreases n,
{
    if n == 0 {
        Seq::empty()
    } else {
        arranged(steps, patterns, (n - 1) as nat) + claimed_by(steps, patterns, n - 1)
    }
}

/// The steps that no rule sorts, in the order in which they stand.
pub open spec fn unclaimed(steps: Seq<StepView>, patterns: Seq<Seq<char>>) -> Seq<StepView> {
    steps.filter(|step: StepView| matches_none(patterns, patterns.len() as int, step.title))
}

/// The finding that no rule matches `step`, a step of `file`.
pub open spec fn undefined_step(file: Seq<char>, step: StepView) -> FindingView {
    FindingView { file, line: step.line_no, problem: IssueView::UndefinedStep(step.title) }
}

/// The findings for the steps that no rule sorts.
pub open spec fn undefined_steps(steps: Seq<StepView>, patterns: Seq<Seq<char>>, file: Seq<char>)
    -> Seq<FindingView> {
    unclaimed(steps, patterns).map_values(|step: StepView| undefined_step(file, step))
}

/// The sorted block: the steps that the rules sort, in the order of the
/// rules, with `And` wherever a keyword repeats. Each step is placed by
/// the keyword that it stands for. Steps that no rule matches are left
/// out.
pub open spec fn sorted_steps(steps: Seq<StepView>, patterns: Seq<Seq<char>>) -> Seq<StepView> {
    optimized(arranged(deoptimized(steps), patterns, patterns.len()))
}

/// Whether rule `r` sorts one of `steps`.
pub open spec fn sorts_any(patterns: Seq<Seq<char>>, r: int, steps: Seq<StepView>) -> bool {
    exists|i: int| 0 <= i < steps.len() && claims(patterns, r, (#[trigger] steps[i]).title)
}

/// The rules after a block was sorted: a rule is used if it was before, or
/// if it sorts a step of the block.
pub open spec fn marked(entries: Seq<EntryView>, steps: Seq<StepView>) -> Seq<EntryView> {
    Seq::new(
        entries.len(),
        |r: int|
            EntryView {
                used: entries[r].used || sorts_any(patterns(entries), r, steps),
                ..entries[r]
            },
    )
}

/// Steps of which some were taken away; each keeps its position.
#[derive(Debug, PartialEq, Eq)]
pub struct DeletableSteps(pub Vec<Option<Step>>);

impl DeepView for DeletableSteps {
    type V = Seq<Option<StepView>>;

    open spec fn deep_view(&self) -> Seq<Option<StepView>> {
        self.0.deep_view()
    }
}

/// Whether `slot` holds a step whose title `pattern` matches.
pub open spec fn is_hit(slot: Option<StepView>, pattern: Seq<char>) -> bool {
    slot matches Some(step) && regex_is_match(pattern, step.title)
}

/// The steps of `pool` whose titles `pattern` matches, in their order.
pub open spec fn extracted(pool: Seq<Option<StepView>>, pattern: Seq<char>) -> Seq<StepView> {
    pool.filter_map(
        |slot: Option<StepView>|
            if is_hit(slot, pattern) {
                slot
            } else {
                None
            },
    )
}

/// `pool` without the steps whose titles `pattern` matches.
pub open spec fn remaining(pool: Seq<Option<StepView>>, pattern: Seq<char>) -> Seq<
    Option<StepView>,
> {
    pool.map_values(
        |slot: Option<StepView>|
            if is_hit(slot, pattern) {
                None
            } else {
                slot
            },
    )
}

/// The steps that `pool` holds, in their order.
pub open spec fn present(pool: Seq<Option<StepView>>) -> Seq<StepView> {
    pool.filter_map(|slot: Option<StepView>| slot)
}

impl DeletableSteps {
    /// All of `value`, nothing taken away.
    pub fn from(value: Vec<Step>) -> (pool: DeletableSteps)
        ensures
            pool.deep_view() == value.deep_view().map_values(|step: StepView| Some(step)),
    {
        let ghost all = value.deep_view();
        let mut slots: Vec<Option<Step>> = Vec::new();
        for step in it: value
            invariant
                it.seq().len() == all.len(),
                forall|j: int| 0 <= j < all.len() ==> it.seq()[j].deep_view() == all[j],
                slots.len() == it.index(),
                forall|j: int| 0 <= j < slots.len() ==> slots[j].deep_view() == Some(all[j]),
        {
            slots.push(Some(step));
        }
        let pool = DeletableSteps(slots);
        assert(pool.deep_view() =~= all.map_values(|step: StepView| Some(step)));
        pool
    }

    /// Takes away the steps whose titles the rule `regex` matches, and
    /// gives them in their order.
    pub fn extract(&mut self, regex: &str) -> (result: Vec<Step>)
        ensures
            final(self).deep_view() == remaining(old(self).deep_view(), regex@),
            result.deep_view() == extracted(old(self).deep_view(), regex@),
    {
        let ghost before = self.deep_view();
        let mut result: Vec<Step> = Vec::new();
        let mut i: usize = 0;
        assert(before.take(0) =~= Seq::<Option<StepView>>::empty());
        assert(result.deep_view() =~= extracted(before.take(0), regex@));
        while i < self.0.len()
            invariant
                i <= self.0.len(),
                self.0.len() == before.len(),
                forall|j: int| 0 <= j < i ==> self.0[j].deep_view() == remaining(before, regex@)[j],
                forall|j: int| i <= j < self.0.len() ==> self.0[j].deep_view() == before[j],
                result.deep_view() == extracted(before.take(i as int), regex@),
            decreases self.0.len() - i,
        {
            let ghost found = result.deep_view();
            let hit = match &self.0[i] {
                Some(step) => matches_title(regex, step.title.as_str()),
                None => false,
            };
            assert(hit == is_hit(before[i as int], regex@));
            if hit {
                let step = self.0[i].take().unwrap();
                result.push(step);
                assert(result.deep_view() =~= found + seq![before[i as int]->0]);
            }
            proof {
                let done = before.take(i + 1);
                assert(done.drop_last() =~= before.take(i as int));
                assert(done.last() == before[i as int]);
            }
            i += 1;
        }
        assert(before.take(i as int) =~= before);
        assert(self.deep_view() =~= remaining(before, regex@));
        result
    }

    /// The steps that are left, in their order.
    pub fn elements(self) -> (result: Vec<Step>)
        ensures
            result.deep_view() == present(self.deep_view()),
    {
        let ghost all = self.deep_view();
        let mut result: Vec<Step> = Vec::new();
        assert(all.take(0) =~= Seq::<Option<StepView>>::empty());
        assert(result.deep_view() =~= present(all.take(0)));
        for slot in it: self.0
            invariant
                it.seq().len() == all.len(),
                forall|j: int| 0 <= j < all.len() ==> it.seq()[j].deep_view() == all[j],
                result.deep_view() == present(all.take(it.index() as int)),
        {
            let ghost n = it.index() as int;
            let ghost found = result.deep_view();
            match slot {
                Some(step) => {
                    result.push(step);
                    assert(result.deep_view() =~= found + seq![all[n]->0]);
                },
                None => {},
            }
            proof {
                let done = all.take(n + 1);
                assert(done.drop_last() =~= all.take(n));
                assert(done.last() == all[n]);
            }
        }
        assert(all.take(all.len() as int) =~= all);
        result
    }
}

/// The steps that are left once the first `r` rules have taken theirs.
spec fn pool_after(steps: Seq<StepView>, patterns: Seq<Seq<char>>, r: int) -> Seq<
    Option<StepView>,
> {
    steps.map_values(
        |step: StepView|
            if matches_none(patterns, r, step.title) {
                Some(step)
            } else {
                None
            },
    )
}

/// What rule `r` takes from the steps that the rules before it left is
/// what it sorts.
proof fn lemma_extracted_is_claimed(steps: Seq<StepView>, patterns: Seq<Seq<char>>, r: int)
    requires
        0 <= r < patterns.len(),
    ensures
        extracted(pool_after(steps, patterns, r), patterns[r]) == claimed_by(steps, patterns, r),
    decreases steps.len(),
{
    reveal(Seq::filter);
    if steps.len() > 0 {
        let rest = steps.drop_last();
        lemma_extracted_is_claimed(rest, patterns, r);
        assert(pool_after(steps, patterns, r).drop_last() =~= pool_after(rest, patterns, r));
    }
}

/// What rule `r` leaves is what the first `r + 1` rules leave.
proof fn lemma_remaining_is_next(steps: Seq<StepView>, patterns: Seq<Seq<char>>, r: int)
    requires
        0 <= r < patterns.len(),
    ensures
        remaining(pool_after(steps, patterns, r), patterns[r]) == pool_after(
            steps,
            patterns,
            r + 1,
        ),
{
    assert(remaining(pool_after(steps, patterns, r), patterns[r]) =~= pool_after(
        steps,
        patterns,
        r + 1,
    ));
}

/// What all the rules leave are the steps that no rule sorts.
proof fn lemma_present_is_unclaimed(steps: Seq<StepView>, patterns: Seq<Seq<char>>)
    ensures
        present(pool_after(steps, patterns, patterns.len() as int)) == unclaimed(steps, patterns),
    decreases steps.len(),
{
    reveal(Seq::filter);
    if steps.len() > 0 {
        let rest = steps.drop_last();
        lemma_present_is_unclaimed(rest, patterns);
        assert(pool_after(steps, patterns, patterns.len() as int).drop_last() =~= pool_after(
            rest,
            patterns,
            patterns.len() as int,
        ));
    }
}

/// A rule sorts one of the steps exactly if the steps that it sorts are
/// not empty.
pub proof fn lemma_sorts_any(steps: Seq<StepView>, patterns: Seq<Seq<char>>, r: int)
    ensures
        sorts_any(patterns, r, steps) <==> claimed_by(steps, patterns, r).len() > 0,
    decreases steps.len(),
{
    reveal(Seq::filter);
    if steps.len() > 0 {
        let rest = steps.drop_last();
        lemma_sorts_any(rest, patterns, r);
        if sorts_any(patterns, r, steps) {
            let i = choose|i: int|
                0 <= i < steps.len() && claims(patterns, r, (#[trigger] steps[i]).title);
            if i < rest.len() {
                assert(rest[i] == steps[i]);
            }
        }
        if sorts_any(patterns, r, rest) {
            let i = choose|i: int|
                0 <= i < rest.len() && claims(patterns, r, (#[trigger] rest[i]).title);
            assert(steps[i] == rest[i]);
        }
        if claims(patterns, r, steps.last().title) {
            assert(steps[steps.len() - 1] == steps.last());
        }
    }
}

/// Steps with the same titles at the same lines give the same findings.
proof fn lemma_undefined_steps_by_title(
    a: Seq<StepView>,
    b: Seq<StepView>,
    patterns: Seq<Seq<char>>,
    file: Seq<char>,
)
    requires
        a.len() == b.len(),
        forall|i: int|
            0 <= i < a.len() ==> a[i].title == b[i].title && a[i].line_no == b[i].line_no,
    ensures
        undefined_steps(a, patterns, file) == undefined_steps(b, patterns, file),
    decreases a.len(),
{
    reveal(Seq::filter);
    if a.len() > 0 {
        lemma_undefined_steps_by_title(a.drop_last(), b.drop_last(), patterns, file);
        let fa = unclaimed(a.drop_last(), patterns);
        let fb = unclaimed(b.drop_last(), patterns);
        let to_finding = |step: StepView| undefined_step(file, step);
        assert(a.last().title == b.last().title);
        if matches_none(patterns, patterns.len() as int, a.last().title) {
            assert(fa.push(a.last()).map_values(to_finding) =~= fa.map_values(to_finding).push(
                undefined_step(file, a.last()),
            ));
            assert(fb.push(b.last()).map_values(to_finding) =~= fb.map_values(to_finding).push(
                undefined_step(file, b.last()),
            ));
        }
    } else {
        assert(undefined_steps(a, patterns, file) =~= undefined_steps(b, patterns, file));
    }
}

/// Which rule sorts a step does not depend on the step's keyword.
proof fn lemma_sorts_any_by_title(
    a: Seq<StepView>,
    b: Seq<StepView>,
    patterns: Seq<Seq<char>>,
    r: int,
)
    requires
        a.len() == b.len(),
        forall|i: int| 0 <= i < a.len() ==> a[i].title == b[i].title,
    ensures
        sorts_any(patterns, r, a) == sorts_any(patterns, r, b),
{
    if sorts_any(patterns, r, a) {
        let i = choose|i: int| 0 <= i < a.len() && claims(patterns, r, (#[trigger] a[i]).title);
        assert(claims(patterns, r, b[i].title));
    }
    if sorts_any(patterns, r, b) {
        let i = choose|i: int| 0 <= i < b.len() && claims(patterns, r, (#[trigger] b[i]).title);
        assert(claims(patterns, r, a[i].title));
    }
}

impl Sorter {
    /// Sorts the steps of one block by the rules, and marks the rules that
    /// sort a step as used.
    ///
    /// A step goes to the first rule that matches the whole of its title.
    /// The steps of the first rule come first, then those of the second,
    /// and so on; the steps of one rule keep their order. The steps that
    /// no rule matches are not part of the result: each gives a finding,
    /// and the findings stand in the order of the steps.
    pub fn sort_steps(&mut self, unordered_steps: Vec<Step>, filename: &str) -> (result: (
        Vec<Step>,
        Vec<Finding>,
    ))
        ensures
            result.0.deep_view() == sorted_steps(
                unordered_steps.deep_view(),
                patterns(old(self).deep_view()),
            ),
            result.1.deep_view() == undefined_steps(
                unordered_steps.deep_view(),
                patterns(old(self).deep_view()),
                filename@,
            ),
            final(self).deep_view() == marked(old(self).deep_view(), unordered_steps.deep_view()),
    {
        let ghost entries = self.deep_view();
        let ghost rules = patterns(entries);
        let ghost given = unordered_steps.deep_view();
        let plain_steps = deoptimize_keywords(unordered_steps);
        let ghost steps = plain_steps.deep_view();
        let mut sorted: Vec<Step> = Vec::new();
        let mut pool = DeletableSteps::from(plain_steps);
        let mut r: usize = 0;
        assert(pool.deep_view() =~= pool_after(steps, rules, 0));
        assert(sorted.deep_view() =~= arranged(steps, rules, 0)) by {
            reveal(arranged);
        }
        while r < self.entries.len()
            invariant
                r <= self.entries.len(),
                self.entries.len() == entries.len(),
                rules == patterns(entries),
                forall|k: int|
                    0 <= k < entries.len() ==> (#[trigger] self.entries@[k]).regex@
                        == entries[k].regex && self.entries@[k].line_no == entries[k].line_no,
                forall|k: int|
                    0 <= k < r ==> (#[trigger] self.entries@[k]).used == (entries[k].used
                        || sorts_any(rules, k, steps)),
                forall|k: int|
                    r <= k < entries.len() ==> (#[trigger] self.entries@[k]).used
                        == entries[k].used,
                pool.deep_view() == pool_after(steps, rules, r as int),
                sorted.deep_view() == arranged(steps, rules, r as nat),
            decreases self.entries.len() - r,
        {
            let ghost before = sorted.deep_view();
            assert(rules[r as int] == self.entries[r as int].regex@);
            let mut found = pool.extract(self.entries[r].regex.as_str());
            proof {
                lemma_extracted_is_claimed(steps, rules, r as int);
                lemma_remaining_is_next(steps, rules, r as int);
                lemma_sorts_any(steps, rules, r as int);
            }
            let ghost taken = found.deep_view();
            assert(taken.len() == found.len());
            assert(sorts_any(rules, r as int, steps) == (found.len() > 0));
            let ghost prior = self.entries@;
            if found.len() > 0 {
                self.entries[r].used = true;
            }
            assert(forall|k: int|
                0 <= k < prior.len() && k != r ==> #[trigger] self.entries@[k] == prior[k]);
            sorted.append(&mut found);
            assert(sorted.deep_view() =~= arranged(steps, rules, (r + 1) as nat)) by {
                reveal(arranged);
            }
            r += 1;
        }
        let left = pool.elements();
        let ghost left_steps = left.deep_view();
        proof {
            lemma_present_is_unclaimed(steps, rules);
            lemma_undefined_steps_by_title(steps, given, rules, filename@);
            assert forall|k: int| 0 <= k < entries.len() implies sorts_any(rules, k, steps)
                == sorts_any(rules, k, given) by {
                lemma_sorts_any_by_title(steps, given, rules, k);
            }
            assert(self.deep_view() =~= marked(entries, given));
        }
        let mut issues: Vec<Finding> = Vec::new();
        for step in it: left
            invariant
                it.seq().len() == left_steps.len(),
                forall|j: int|
                    0 <= j < left_steps.len() ==> it.seq()[j].deep_view() == left_steps[j],
                issues.len() == it.index(),
                forall|j: int|
                    0 <= j < issues.len() ==> issues[j].deep_view() == undefined_step(
                        filename@,
                        left_steps[j],
                    ),
        {
            issues.push(
                Finding {
                    file: String::from_str(filename),
                    line: step.line_no,
                    problem: Issue::UndefinedStep(step.title),
                },
            );
        }
        assert(issues.deep_view() =~= undefined_steps(steps, rules, filename@));
        (optimize_keywords(sorted), issues)
    }
}

/// A block after sorting: text as it was, steps sorted.
pub open spec fn sorted_block(block: BlockView, patterns: Seq<Seq<char>>) -> BlockView {
    match block {
        BlockView::Sortable(steps) => BlockView::Sortable(sorted_steps(steps, patterns)),
        BlockView::Static(lines) => BlockView::Static(lines),
    }
}

/// The findings for a block: those of its steps; none for text.
pub open spec fn block_findings(block: BlockView, patterns: Seq<Seq<char>>, file: Seq<char>)
    -> Seq<FindingView> {
    match block {
        BlockView::Sortable(steps) => undefined_steps(steps, patterns, file),
        BlockView::Static(lines) => Seq::empty(),
    }
}

/// The rules after a block was sorted.
pub open spec fn marked_by_block(entries: Seq<EntryView>, block: BlockView) -> Seq<EntryView> {
    match block {
        BlockView::Sortable(steps) => marked(entries, steps),
        BlockView::Static(lines) => entries,
    }
}

/// A document after sorting: each block sorted by itself.
pub open spec fn sorted_document(blocks: Seq<BlockView>, patterns: Seq<Seq<char>>) -> Seq<
    BlockView,
> {
    blocks.map_values(|block: BlockView| sorted_block(block, patterns))
}

/// The findings for a document: those of its blocks, one block after the
/// other.
pub open spec fn document_findings(
    blocks: Seq<BlockView>,
    patterns: Seq<Seq<char>>,
    file: Seq<char>,
) -> Seq<FindingView>
    decreases blocks.len(),
{
    if blocks.len() == 0 {
        Seq::empty()
    } else {
        document_findings(blocks.drop_last(), patterns, file) + block_findings(
            blocks.last(),
            patterns,
            file,
        )
    }
}

/// The rules after a document was sorted: a rule is used if it was before,
/// or if it sorts a step of the document.
pub open spec fn marked_by_document(entries: Seq<EntryView>, blocks: Seq<BlockView>) -> Seq<
    EntryView,
>
    decreases blocks.len(),
{
    if blocks.len() == 0 {
        entries
    } else {
        marked_by_block(marked_by_document(entries, blocks.drop_last()), blocks.last())
    }
}

/// The finding that the rule `entry` matched no step.
pub open spec fn unused_regex(entry: EntryView) -> FindingView {
    FindingView {
        file: FILE_NAME@,
        line: entry.line_no,
        problem: IssueView::UnusedRegex(entry.regex),
    }
}

/// A finding for each rule that is not used, in the order of the rules.
pub open spec fn unused_findings(entries: Seq<EntryView>) -> Seq<FindingView> {
    entries.filter(|entry: EntryView| !entry.used).map_values(
        |entry: EntryView| unused_regex(entry),
    )
}

/// Whether a line of the rule file holds a rule: it is not empty and no
/// comment. A rule is a regular expression for whole titles: it has to
/// compile between anchors, and it matches a title where it matches the
/// whole of it.
pub open spec fn is_rule(line: Seq<char>) -> bool {
    line.len() > 0 && line[0] != '#'
}

/// How many lines stand before the marker; all of them where there is no
/// marker.
pub open spec fn rules_end(lines: Seq<Seq<char>>) -> nat
    decreases lines.len(),
{
    if lines.len() == 0 || lines[0] == MARKER@ {
        0
    } else {
        1 + rules_end(lines.drop_first())
    }
}

/// The rule on line `line_no`, not yet used.
pub open spec fn new_entry(regex: Seq<char>, line_no: usize) -> EntryView {
    EntryView { regex, used: false, line_no }
}

/// The error that line `line` of the rule file is no regular expression.
pub open spec fn invalid_regex(line: usize, message: Seq<char>) -> UserErrorView {
    UserErrorView::ConfigFileInvalidRegex { file: FILE_NAME@, line, message }
}

/// The rules on the first `n` lines of a rule file, or the error for the
/// first of these lines that holds a rule which is no regular expression.
pub open spec fn rules_in(lines: Seq<Seq<char>>, n: nat) -> Result<Seq<EntryView>, UserErrorView>
    decreases n,
{
    if n == 0 {
        Ok(Seq::empty())
    } else {
        match rules_in(lines, (n - 1) as nat) {
            Err(error) => Err(error),
            Ok(rules) => {
                let line = lines[n - 1];
                if !is_rule(line) {
                    Ok(rules)
                } else {
                    match regex_error(anchored(line)) {
                        Some(message) => Err(invalid_regex((n - 1) as usize, message)),
                        None => Ok(rules.push(new_entry(line, (n - 1) as usize))),
                    }
                }
            },
        }
    }
}

/// The rules that a rule file holds: one for each line before the marker
/// that is neither empty nor a comment, none of them used.
pub open spec fn parsed_rules(text: Seq<char>) -> Result<Seq<EntryView>, UserErrorView> {
    let lines = split_lines(text);
    rules_in(lines, rules_end(lines))
}

/// The rules stand on lines of their own, in the order of the lines.
pub open spec fn lines_increase(entries: Seq<EntryView>) -> bool {
    forall|i: int, j: int|
        0 <= i < j < entries.len() ==> (#[trigger] entries[i]).line_no < (
        #[trigger] entries[j]).line_no
}

/// None of the rules is used.
pub open spec fn none_used(entries: Seq<EntryView>) -> bool {
    forall|r: int| 0 <= r < entries.len() ==> !(#[trigger] entries[r]).used
}

/// The rules read from a rule file are not used, and stand in the order
/// of their lines.
pub proof fn lemma_rules_in_are_new(lines: Seq<Seq<char>>, n: nat)
    requires
        n <= lines.len() <= usize::MAX,
    ensures
        rules_in(lines, n) matches Ok(entries) ==> none_used(entries) && lines_increase(entries)
            && forall|r: int| 0 <= r < entries.len() ==> (#[trigger] entries[r]).line_no < n,
    decreases n,
{
    if n > 0 {
        lemma_rules_in_are_new(lines, (n - 1) as nat);
        if let Ok(before) = rules_in(lines, (n - 1) as nat) {
            if let Ok(entries) = rules_in(lines, n) {
                assert forall|r: int| 0 <= r < entries.len() implies !(#[trigger] entries[r]).used
                    && entries[r].line_no < n by {
                    if r < before.len() {
                        assert(entries[r] == before[r]);
                    }
                }
                assert forall|i: int, j: int| 0 <= i < j < entries.len() implies (
                #[trigger] entries[i]).line_no < (#[trigger] entries[j]).line_no by {
                    assert(entries[i] == before[i]);
                    if j < before.len() {
                        assert(entries[j] == before[j]);
                    }
                }
            }
        }
    }
}

/// The marker stands at the first line that holds it.
proof fn lemma_rules_end(lines: Seq<Seq<char>>, n: int)
    requires
        0 <= n <= lines.len(),
        forall|j: int| 0 <= j < n ==> lines[j] != MARKER@,
        n < lines.len() ==> lines[n] == MARKER@,
    ensures
        rules_end(lines) == n,
    decreases lines.len(),
{
    if n > 0 {
        let rest = lines.drop_first();
        assert forall|j: int| 0 <= j < n - 1 implies rest[j] != MARKER@ by {
            assert(rest[j] == lines[j + 1]);
        }
        lemma_rules_end(rest, n - 1);
    }
}

/// Once a line is refused, the lines after it change nothing.
proof fn lemma_rules_error_stays(lines: Seq<Seq<char>>, n: nat, m: nat)
    requires
        n <= m,
        rules_in(lines, n) is Err,
    ensures
        rules_in(lines, m) == rules_in(lines, n),
    decreases m,
{
    if n < m {
        lemma_rules_error_stays(lines, n, (m - 1) as nat);
    }
}

/// Sorting a block leaves the rules' expressions as they are.
pub proof fn lemma_marked_keeps_patterns(entries: Seq<EntryView>, block: BlockView)
    ensures
        patterns(marked_by_block(entries, block)) == patterns(entries),
{
    assert(patterns(marked_by_block(entries, block)) =~= patterns(entries));
}

impl Sorter {
    /// Reads the rules from the text of a rule file.
    ///
    /// Each line before the marker that is neither empty nor a comment is
    /// a rule. Fails on the first rule that is no regular expression.
    pub fn parse(text: &str) -> (result: Result<Sorter, UserError>)
        ensures
            match result {
                Ok(sorter) => parsed_rules(text@) == Ok::<Seq<EntryView>, UserErrorView>(
                    sorter.deep_view(),
                ) && none_used(sorter.deep_view()) && lines_increase(sorter.deep_view()),
                Err(error) => parsed_rules(text@) == Err::<Seq<EntryView>, UserErrorView>(
                    error.deep_view(),
                ),
            },
    {
        let texts = lines(text);
        let ghost all = texts.deep_view();
        let marker = String::from_str(MARKER);
        let mut entries: Vec<Entry> = Vec::new();
        let mut i: usize = 0;
        assert(entries.deep_view() =~= Seq::<EntryView>::empty());
        while i < texts.len()
            invariant_except_break
                i <= texts.len(),
            invariant
                all == texts.deep_view(),
                all == split_lines(text@),
                marker@ == MARKER@,
                forall|j: int| 0 <= j < i ==> all[j] != MARKER@,
                rules_in(all, i as nat) == Ok::<Seq<EntryView>, UserErrorView>(entries.deep_view()),
            ensures
                i <= texts.len(),
                i < texts.len() ==> all[i as int] == MARKER@,
            decreases texts.len() - i,
        {
            assert(all[i as int] == texts[i as int]@);
            if texts[i] == marker {
                break ;
            }
            let is_rule = !texts[i].as_str().is_empty() && texts[i].as_str().get_char(0) != '#';
            if is_rule {
                match syntax_error(anchor(texts[i].as_str()).as_str()) {
                    Some(message) => {
                        proof {
                            assert(rules_in(all, (i + 1) as nat) is Err);
                            lemma_rules_end_after(all, i as int);
                            lemma_rules_error_stays(all, (i + 1) as nat, rules_end(all));
                        }
                        return Err(
                            UserError::ConfigFileInvalidRegex {
                                file: String::from_str(FILE_NAME),
                                line: i,
                                message,
                            },
                        );
                    },
                    None => {
                        let ghost before = entries.deep_view();
                        let entry = Entry { regex: texts[i].clone(), used: false, line_no: i };
                        entries.push(entry);
                        assert(entries.deep_view() =~= before.push(new_entry(all[i as int], i)));
                    },
                }
            }
            i += 1;
        }
        proof {
            lemma_rules_end(all, i as int);
            lemma_rules_in_are_new(all, i as nat);
        }
        Ok(Sorter { entries })
    }

    /// Sorts the steps of every block of a document, and marks the rules
    /// that sort a step as used. Gives the sorted document and a finding
    /// for each step that no rule matches.
    pub fn sort_file(&mut self, file: Document, filename: &str) -> (result: (
        Document,
        Vec<Finding>,
    ))
        ensures
            result.0.deep_view() == sorted_document(
                file.deep_view(),
                patterns(old(self).deep_view()),
            ),
            result.1.deep_view() == document_findings(
                file.deep_view(),
                patterns(old(self).deep_view()),
                filename@,
            ),
            final(self).deep_view() == marked_by_document(old(self).deep_view(), file.deep_view()),
    {
        let ghost entries = self.deep_view();
        let ghost rules = patterns(entries);
        let ghost all = file.deep_view();
        let mut doc_issues: Vec<Finding> = Vec::new();
        let mut new_blocks: Vec<Block> = Vec::new();
        assert(all.take(0) =~= Seq::<BlockView>::empty());
        assert(doc_issues.deep_view() =~= document_findings(all.take(0), rules, filename@));
        for file_block in it: file.blocks
            invariant
                it.seq().len() == all.len(),
                forall|j: int| 0 <= j < all.len() ==> it.seq()[j].deep_view() == all[j],
                rules == patterns(entries),
                patterns(self.deep_view()) == rules,
                self.deep_view() == marked_by_document(entries, all.take(it.index() as int)),
                new_blocks.len() == it.index(),
                forall|j: int|
                    0 <= j < new_blocks.len() ==> new_blocks[j].deep_view() == sorted_block(
                        all[j],
                        rules,
                    ),
                doc_issues.deep_view() == document_findings(
                    all.take(it.index() as int),
                    rules,
                    filename@,
                ),
        {
            let ghost n = it.index() as int;
            let ghost found = doc_issues.deep_view();
            let ghost marks = self.deep_view();
            let (sorted_block, mut block_issues) = self.sort_block(file_block, filename);
            let ghost added = block_issues.deep_view();
            new_blocks.push(sorted_block);
            doc_issues.append(&mut block_issues);
            proof {
                let done = all.take(n + 1);
                assert(done.drop_last() =~= all.take(n));
                assert(done.last() == all[n]);
                assert(doc_issues.deep_view() =~= found + added);
                lemma_marked_keeps_patterns(marks, all[n]);
            }
        }
        assert(all.take(all.len() as int) =~= all);
        let document = Document { blocks: new_blocks };
        assert(document.deep_view() =~= sorted_document(all, rules));
        (document, doc_issues)
    }

    /// A finding for each rule that has sorted no step since the rules
    /// were loaded, in the order of the rules.
    pub fn unused_regexes(&self) -> (result: Vec<Finding>)
        ensures
            result.deep_view() == unused_findings(self.deep_view()),
    {
        let ghost entries = self.deep_view();
        let mut result: Vec<Finding> = Vec::new();
        let mut i: usize = 0;
        assert(entries.take(0) =~= Seq::<EntryView>::empty());
        assert(result.deep_view() =~= unused_findings(entries.take(0))) by {
            reveal(Seq::filter);
        }
        while i < self.entries.len()
            invariant
                i <= self.entries.len(),
                entries == self.deep_view(),
                result.deep_view() == unused_findings(entries.take(i as int)),
            decreases self.entries.len() - i,
        {
            let ghost found = result.deep_view();
            let entry = &self.entries[i];
            if !entry.used {
                result.push(
                    Finding {
                        file: String::from_str(FILE_NAME),
                        line: entry.line_no,
                        problem: Issue::UnusedRegex(entry.regex.clone()),
                    },
                );
                assert(result.deep_view() =~= found.push(unused_regex(entries[i as int])));
            }
            proof {
                reveal(Seq::filter);
                let done = entries.take(i + 1);
                assert(done.drop_last() =~= entries.take(i as int));
                assert(done.last() == entries[i as int]);
                let unused = entries.take(i as int).filter(|entry: EntryView| !entry.used);
                if !entries[i as int].used {
                    assert(unused.push(entries[i as int]).map_values(
                        |entry: EntryView| unused_regex(entry),
                    ) =~= found.push(unused_regex(entries[i as int])));
                }
            }
            i += 1;
        }
        assert(entries.take(i as int) =~= entries);
        result
    }

    /// Sorts one block: text stays as it is, steps are sorted.
    pub fn sort_block(&mut self, block: Block, filename: &str) -> (result: (Block, Vec<Finding>))
        ensures
            result.0.deep_view() == sorted_block(
                block.deep_view(),
                patterns(old(self).deep_view()),
            ),
            result.1.deep_view() == block_findings(
                block.deep_view(),
                patterns(old(self).deep_view()),
                filename@,
            ),
            final(self).deep_view() == marked_by_block(old(self).deep_view(), block.deep_view()),
    {
        match block {
            Block::Sortable(block_steps) => {
                let (sorted_steps, issues) = self.sort_steps(block_steps, filename);
                (Block::Sortable(sorted_steps), issues)
            },
            Block::Static(lines) => {
                let issues: Vec<Finding> = Vec::new();
                assert(issues.deep_view() =~= Seq::<FindingView>::empty());
                (Block::Static(lines), issues)
            },
        }
    }
}

/// Where a line before the marker is refused, the marker stands after it.
proof fn lemma_rules_end_after(lines: Seq<Seq<char>>, n: int)
    requires
        0 <= n < lines.len(),
        forall|j: int| 0 <= j <= n ==> lines[j] != MARKER@,
    ensures
        rules_end(lines) > n,
    decreases lines.len(),
{
    if n > 0 {
        let rest = lines.drop_first();
        assert forall|j: int| 0 <= j <= n - 1 implies rest[j] != MARKER@ by {
            assert(rest[j] == lines[j + 1]);
        }
        lemma_rules_end_after(rest, n - 1);
    }
}

/// The regular expression for the step of a finding that no rule matches
/// it; `None` for other findings.
pub open spec fn regex_for_finding(finding: FindingView) -> Option<Seq<char>> {
    match finding.problem {
        IssueView::UndefinedStep(title) => Some(regex_for(title)),
        _ => None,
    }
}

/// The regular expressions for the steps that no rule matches, in the
/// order of the findings.
pub open spec fn undefined_regexes(findings: Seq<FindingView>) -> Seq<Seq<char>> {
    findings.filter_map(|finding: FindingView| regex_for_finding(finding))
}

/// The lines of a rule file before the marker, with an empty line after
/// them unless the last of them is empty.
pub open spec fn kept_lines(old_content: Seq<char>) -> Seq<Seq<char>> {
    let lines = split_lines(old_content);
    let kept = lines.take(rules_end(lines) as int);
    if kept.len() > 0 && kept.last().len() > 0 {
        kept.push(Seq::empty())
    } else {
        kept
    }
}

/// The text of a rule file that records `regexes`: the lines before the
/// marker, the marker, and the expressions, one on each line.
pub open spec fn recorded(old_content: Seq<char>, regexes: Seq<Seq<char>>) -> Seq<char> {
    separated(kept_lines(old_content).push(MARKER@) + regexes)
}

/// A sequence with one more element holds that element and what it held.
proof fn lemma_insert_to_set(texts: Seq<Seq<char>>, at: int, text: Seq<char>)
    requires
        0 <= at <= texts.len(),
    ensures
        texts.insert(at, text).to_set() == texts.to_set().insert(text),
{
    let longer = texts.insert(at, text);
    assert forall|t: Seq<char>| longer.to_set().contains(t) <==> texts.to_set().insert(
        text,
    ).contains(t) by {
        if longer.contains(t) {
            let k = choose|k: int| 0 <= k < longer.len() && longer[k] == t;
            if k < at {
                assert(texts[k] == t);
            } else if k > at {
                assert(texts[k - 1] == t);
            }
        }
        if texts.contains(t) {
            let k = choose|k: int| 0 <= k < texts.len() && texts[k] == t;
            if k < at {
                assert(longer[k] == t);
            } else {
                assert(longer[k + 1] == t);
            }
        }
        assert(longer[at] == text);
    }
    assert(longer.to_set() =~= texts.to_set().insert(text));
}

/// The regular expressions to record for the steps that no rule matches:
/// one for each such step, no expression twice, in the order of strings.
pub fn missing_regexes(missings: &Vec<Finding>) -> (regexes: Vec<String>)
    ensures
        strictly_increasing(regexes.deep_view()),
        regexes.deep_view().to_set() == undefined_regexes(missings.deep_view()).to_set(),
{
    let ghost findings = missings.deep_view();
    let mut regexes: Vec<String> = Vec::new();
    let mut i: usize = 0;
    assert(findings.take(0) =~= Seq::<FindingView>::empty());
    assert(regexes.deep_view() =~= undefined_regexes(findings.take(0)));
    while i < missings.len()
        invariant
            i <= missings.len(),
            findings == missings.deep_view(),
            strictly_increasing(regexes.deep_view()),
            regexes.deep_view().to_set() == undefined_regexes(findings.take(i as int)).to_set(),
        decreases missings.len() - i,
    {
        let ghost done = findings.take(i + 1);
        let ghost before = undefined_regexes(findings.take(i as int));
        proof {
            assert(done.drop_last() =~= findings.take(i as int));
            assert(done.last() == findings[i as int]);
            assert(findings[i as int] == missings[i as int].deep_view());
        }
        match &missings[i].problem {
            Issue::UndefinedStep(title) => {
                let regex = make_regex(title.as_str());
                let ghost have = regexes.deep_view();
                assert(undefined_regexes(done) == before + seq![regex@]);
                assert((before + seq![regex@]).to_set() == before.to_set().insert(regex@)) by {
                    assert(before + seq![regex@] =~= before.insert(before.len() as int, regex@));
                    lemma_insert_to_set(before, before.len() as int, regex@);
                }
                let mut j: usize = regexes.len();
                while j > 0 && compare_texts(regexes[j - 1].as_str(), regex.as_str()) == 1
                    invariant
                        j <= regexes.len(),
                        have == regexes.deep_view(),
                        forall|k: int| j <= k < have.len() ==> precedes(regex@, #[trigger] have[k]),
                    decreases j,
                {
                    assert(have[j - 1] == regexes[j - 1]@);
                    j -= 1;
                }
                let known = j > 0 && compare_texts(regexes[j - 1].as_str(), regex.as_str()) == 0;
                if known {
                    assert(have[j - 1] == regexes[j - 1]@);
                    assert(have.contains(regex@));
                    assert(have.to_set().insert(regex@) =~= have.to_set());
                } else {
                    regexes.insert(j, regex);
                    proof {
                        let now = regexes.deep_view();
                        assert(now =~= have.insert(j as int, regex@));
                        lemma_insert_to_set(have, j as int, regex@);
                        assert forall|k: int| 0 <= k < now.len() - 1 implies precedes(
                            #[trigger] now[k],
                            now[k + 1],
                        ) by {
                            if k + 1 < j {
                                assert(now[k] == have[k] && now[k + 1] == have[k + 1]);
                            } else if k + 1 == j {
                                assert(now[k] == have[j - 1]);
                            } else if k == j {
                                assert(now[k + 1] == have[j as int]);
                            } else {
                                assert(now[k] == have[k - 1] && now[k + 1] == have[k]);
                            }
                        }
                    }
                }
            },
            _ => {
                assert(undefined_regexes(done) == before);
            },
        }
        i += 1;
    }
    assert(findings.take(i as int) =~= findings);
    regexes
}

impl Sorter {
    /// The text of the rule file with `regexes` recorded below the
    /// marker, where `old_content` is its text so far: what stands above
    /// the marker stays, what stands below it is replaced.
    pub fn store_missing(&self, regexes: Vec<String>, old_content: &str) -> (new_content: String)
        ensures
            new_content@ == recorded(old_content@, regexes.deep_view()),
    {
        let texts = lines(old_content);
        let ghost all = texts.deep_view();
        let marker = String::from_str(MARKER);
        let mut content: Vec<String> = Vec::new();
        let mut i: usize = 0;
        assert(content.deep_view() =~= all.take(0));
        while i < texts.len()
            invariant_except_break
                i <= texts.len(),
            invariant
                all == texts.deep_view(),
                marker@ == MARKER@,
                forall|j: int| 0 <= j < i ==> all[j] != MARKER@,
                content.deep_view() == all.take(i as int),
            ensures
                i <= texts.len(),
                i < texts.len() ==> all[i as int] == MARKER@,
            decreases texts.len() - i,
        {
            assert(all[i as int] == texts[i as int]@);
            if texts[i] == marker {
                break ;
            }
            let ghost before = content.deep_view();
            content.push(texts[i].clone());
            assert(content.deep_view() =~= before.push(all[i as int]));
            assert(all.take(i + 1) =~= all.take(i as int).push(all[i as int]));
            i += 1;
        }
        proof {
            lemma_rules_end(all, i as int);
        }
        let ghost kept = content.deep_view();
        if content.len() > 0 && !content[content.len() - 1].as_str().is_empty() {
            content.push(S(""));
            proof {
                reveal_strlit("");
                assert(""@ =~= Seq::<char>::empty());
            }
            assert(content.deep_view() =~= kept.push(Seq::empty()));
        }
        let ghost spaced = content.deep_view();
        content.push(marker);
        assert(content.deep_view() =~= spaced.push(MARKER@));
        let mut rest = regexes;
        content.append(&mut rest);
        assert(content.deep_view() =~= spaced.push(MARKER@) + regexes.deep_view());
        separate(&content)
    }
}

} // verus!
