//! What holds of the parser and the sorter for all inputs.

use crate::errors::FindingView;
use crate::gherkin::lexer::{lex, Keyword, LineType, LineView};
use crate::gherkin::parser::{
    advance, block_lines, document_lines, finish, parse, run, starts_step, step_at, step_header,
    step_lines, steps_lines, with_line, BlockView, Open, ParserState, StepView,
};
use crate::gherkin::sorter::{
    arranged, block_findings, claimed_by, claims, deoptimized, document_findings,
    effective_keyword, lemma_sorts_any, lines_increase, marked, marked_by_block,
    marked_by_document, optimized, patterns, regex_is_match, sorted_block, sorted_document,
    sorted_steps, sorts_any, unclaimed, undefined_steps, unused_findings, unused_regex,
    with_keyword, EntryView,
};
use crate::text::{is_plain_text, join_lines, lemma_join_split, split_lines};
use vstd::prelude::*;

verus! {

/// The texts of lines.
pub open spec fn texts(lines: Seq<LineView>) -> Seq<Seq<char>> {
    lines.map_values(|line: LineView| line.text)
}

/// A line that starts a step reads as the step is written: indentation,
/// the keyword with a capital, one space, the title.
pub open spec fn is_plainly_written(line: LineView) -> bool {
    match line.line_type {
        LineType::StepStart { keyword } => step_header(step_at(line, keyword)) == line.text,
        _ => true,
    }
}

/// The lines of a document with one more block.
pub proof fn lemma_document_lines_push(blocks: Seq<BlockView>, block: BlockView)
    ensures
        document_lines(blocks.push(block)) == document_lines(blocks) + block_lines(block),
{
    assert(blocks.push(block).drop_last() =~= blocks);
}

/// The lines of steps with one more step.
pub proof fn lemma_steps_lines_push(steps: Seq<StepView>, step: StepView)
    ensures
        steps_lines(steps.push(step)) == steps_lines(steps) + step_lines(step),
{
    assert(steps.push(step).drop_last() =~= steps);
}

/// What the parser holds after `n` lines, written as lines, are these
/// lines.
proof fn lemma_run_holds_all_lines(lines: Seq<LineView>, n: nat)
    requires
        n <= lines.len(),
        run(lines, n) is Ok,
        forall|i: int| starts_step(lines, i) ==> is_plainly_written(#[trigger] lines[i]),
    ensures
        document_lines(finish(run(lines, n)->Ok_0)) == texts(lines.take(n as int)),
    decreases n,
{
    if n == 0 {
        assert(texts(lines.take(0)) =~= Seq::<Seq<char>>::empty());
    } else {
        let before = run(lines, (n - 1) as nat)->Ok_0;
        let line = lines[n - 1];
        let after = run(lines, n)->Ok_0;
        lemma_run_holds_all_lines(lines, (n - 1) as nat);
        assert(advance(before, line) == Some(after));
        let read = texts(lines.take(n - 1));
        assert(texts(lines.take(n as int)) =~= read.push(line.text));
        if line.line_type is StepStart && !(before.open matches Open::Steps {
            docstring: Some(_),
            ..
        }) {
            assert(starts_step(lines, n - 1));
            assert(is_plainly_written(line));
        }
        lemma_advance_adds_line(before, line);
    }
}

/// One line more in the parser is one line more in what it holds.
proof fn lemma_advance_adds_line(before: ParserState, line: LineView)
    requires
        advance(before, line) is Some,
        line.line_type is StepStart && !(before.open matches Open::Steps {
            docstring: Some(_),
            ..
        }) ==> is_plainly_written(line),
    ensures
        document_lines(finish(advance(before, line)->0)) == document_lines(finish(before)).push(
            line.text,
        ),
{
    let after = advance(before, line)->0;
    let blocks = before.blocks;
    let held = document_lines(blocks);
    match before.open {
        Open::Nothing => match line.line_type {
            LineType::StepStart { keyword } => {
                let step = step_at(line, keyword);
                lemma_steps_lines_push(Seq::empty(), step);
                lemma_document_lines_push(blocks, BlockView::Sortable(seq![step]));
                assert(Seq::<StepView>::empty().push(step) =~= seq![step]);
                assert(steps_lines(seq![step]) =~= seq![line.text]);
                assert(held + seq![line.text] =~= held.push(line.text));
            },
            LineType::DocStringStartStop => {},
            LineType::Text => {
                lemma_document_lines_push(blocks, BlockView::Static(seq![line.text]));
                assert(held + seq![line.text] =~= held.push(line.text));
            },
        },
        Open::Text(lines) => match line.line_type {
            LineType::StepStart { keyword } => {
                let step = step_at(line, keyword);
                let closed = blocks.push(BlockView::Static(lines));
                lemma_steps_lines_push(Seq::empty(), step);
                lemma_document_lines_push(closed, BlockView::Sortable(seq![step]));
                assert(Seq::<StepView>::empty().push(step) =~= seq![step]);
                assert(steps_lines(seq![step]) =~= seq![line.text]);
                assert(document_lines(closed) + seq![line.text] =~= document_lines(closed).push(
                    line.text,
                ));
            },
            LineType::DocStringStartStop => {},
            LineType::Text => {
                lemma_document_lines_push(blocks, BlockView::Static(lines));
                lemma_document_lines_push(blocks, BlockView::Static(lines.push(line.text)));
                assert(held + lines.push(line.text) =~= (held + lines).push(line.text));
            },
        },
        Open::Steps { steps, step, docstring: Some(opened_at) } => {
            let longer = with_line(step, line.text);
            lemma_steps_lines_push(steps, step);
            lemma_steps_lines_push(steps, longer);
            lemma_document_lines_push(blocks, BlockView::Sortable(steps.push(step)));
            lemma_document_lines_push(blocks, BlockView::Sortable(steps.push(longer)));
            assert(step_lines(longer) =~= step_lines(step).push(line.text));
            assert(held + (steps_lines(steps) + step_lines(step).push(line.text)) =~= (held + (
            steps_lines(steps) + step_lines(step))).push(line.text));
        },
        Open::Steps { steps, step, docstring: None } => match line.line_type {
            LineType::StepStart { keyword } => {
                let next = step_at(line, keyword);
                let done = steps.push(step);
                lemma_steps_lines_push(done, next);
                lemma_document_lines_push(blocks, BlockView::Sortable(done));
                lemma_document_lines_push(blocks, BlockView::Sortable(done.push(next)));
                assert(step_lines(next) =~= seq![line.text]);
                assert(held + (steps_lines(done) + seq![line.text]) =~= (held + steps_lines(
                    done,
                )).push(line.text));
            },
            LineType::DocStringStartStop => {
                let longer = with_line(step, line.text);
                lemma_steps_lines_push(steps, step);
                lemma_steps_lines_push(steps, longer);
                lemma_document_lines_push(blocks, BlockView::Sortable(steps.push(step)));
                lemma_document_lines_push(blocks, BlockView::Sortable(steps.push(longer)));
                assert(step_lines(longer) =~= step_lines(step).push(line.text));
                assert(held + (steps_lines(steps) + step_lines(step).push(line.text)) =~= (held
                    + (steps_lines(steps) + step_lines(step))).push(line.text));
            },
            LineType::Text => {
                let closed = blocks.push(BlockView::Sortable(steps.push(step)));
                lemma_document_lines_push(closed, BlockView::Static(seq![line.text]));
                assert(document_lines(closed) + seq![line.text] =~= document_lines(closed).push(
                    line.text,
                ));
            },
        },
    }
}

/// Partition: the blocks of a parsed document hold all the lines that
/// were parsed, in their order and as they were, if each line from which
/// the parser makes a step reads as a step is written.
pub proof fn parsed_document_holds_all_lines(lines: Seq<LineView>)
    requires
        parse(lines) is Ok,
        forall|i: int| starts_step(lines, i) ==> is_plainly_written(#[trigger] lines[i]),
    ensures
        document_lines(parse(lines)->Ok_0) == texts(lines),
{
    lemma_run_holds_all_lines(lines, lines.len());
    assert(lines.take(lines.len() as int) =~= lines);
}

/// A block holds something.
pub open spec fn is_filled(block: BlockView) -> bool {
    match block {
        BlockView::Sortable(steps) => steps.len() > 0,
        BlockView::Static(lines) => lines.len() > 0,
    }
}

/// No block is empty, and blocks of steps and blocks of text take turns:
/// no two blocks of steps stand side by side, nor two of text.
pub open spec fn is_well_grouped(blocks: Seq<BlockView>) -> bool {
    &&& forall|b: int| 0 <= b < blocks.len() ==> is_filled(#[trigger] blocks[b])
    &&& forall|b: int|
        0 <= b < blocks.len() - 1 ==> ((#[trigger] blocks[b]) is Sortable) != (blocks[b
            + 1] is Sortable)
}

/// Blocks stay well grouped with another last block of the same kind.
proof fn lemma_well_grouped_other_last(blocks: Seq<BlockView>, old_last: BlockView, last: BlockView)
    requires
        is_well_grouped(blocks.push(old_last)),
        is_filled(last),
        (old_last is Sortable) == (last is Sortable),
    ensures
        is_well_grouped(blocks.push(last)),
{
    let before = blocks.push(old_last);
    let after = blocks.push(last);
    assert forall|b: int| 0 <= b < after.len() implies is_filled(#[trigger] after[b]) by {
        if b < blocks.len() {
            assert(after[b] == before[b]);
        }
    }
    assert forall|b: int| 0 <= b < after.len() - 1 implies ((#[trigger] after[b]) is Sortable) != (
    after[b + 1] is Sortable) by {
        assert(after[b] == before[b]);
        assert((after[b + 1] is Sortable) == (before[b + 1] is Sortable));
    }
}

/// Blocks stay well grouped with one more block of the other kind.
proof fn lemma_well_grouped_one_more(blocks: Seq<BlockView>, last: BlockView)
    requires
        is_well_grouped(blocks),
        is_filled(last),
        blocks.len() > 0 ==> (blocks.last() is Sortable) != (last is Sortable),
    ensures
        is_well_grouped(blocks.push(last)),
{
    let after = blocks.push(last);
    assert forall|b: int| 0 <= b < after.len() implies is_filled(#[trigger] after[b]) by {
        if b < blocks.len() {
            assert(after[b] == blocks[b]);
        }
    }
    assert forall|b: int| 0 <= b < after.len() - 1 implies ((#[trigger] after[b]) is Sortable) != (
    after[b + 1] is Sortable) by {
        assert(after[b] == blocks[b]);
        if b + 1 < blocks.len() {
            assert(after[b + 1] == blocks[b + 1]);
        }
    }
}

/// What the parser holds is well grouped after every line.
proof fn lemma_run_is_well_grouped(lines: Seq<LineView>, n: nat)
    requires
        n <= lines.len(),
        run(lines, n) is Ok,
    ensures
        is_well_grouped(finish(run(lines, n)->Ok_0)),
        run(lines, n)->Ok_0.open is Nothing ==> run(lines, n)->Ok_0.blocks.len() == 0,
    decreases n,
{
    if n > 0 {
        let before = run(lines, (n - 1) as nat)->Ok_0;
        let line = lines[n - 1];
        lemma_run_is_well_grouped(lines, (n - 1) as nat);
        assert(advance(before, line) is Some);
        let blocks = before.blocks;
        match before.open {
            Open::Nothing => match line.line_type {
                LineType::StepStart { keyword } => {
                    let step = step_at(line, keyword);
                    assert(Seq::<StepView>::empty().push(step).len() == 1);
                    lemma_well_grouped_one_more(
                        blocks,
                        BlockView::Sortable(Seq::empty().push(step)),
                    );
                },
                LineType::DocStringStartStop => {},
                LineType::Text => {
                    lemma_well_grouped_one_more(blocks, BlockView::Static(seq![line.text]));
                },
            },
            Open::Text(text) => match line.line_type {
                LineType::StepStart { keyword } => {
                    let step = step_at(line, keyword);
                    lemma_well_grouped_one_more(
                        blocks.push(BlockView::Static(text)),
                        BlockView::Sortable(Seq::empty().push(step)),
                    );
                },
                LineType::DocStringStartStop => {},
                LineType::Text => {
                    lemma_well_grouped_other_last(
                        blocks,
                        BlockView::Static(text),
                        BlockView::Static(text.push(line.text)),
                    );
                },
            },
            Open::Steps { steps, step, docstring: Some(opened_at) } => {
                lemma_well_grouped_other_last(
                    blocks,
                    BlockView::Sortable(steps.push(step)),
                    BlockView::Sortable(steps.push(with_line(step, line.text))),
                );
            },
            Open::Steps { steps, step, docstring: None } => match line.line_type {
                LineType::StepStart { keyword } => {
                    lemma_well_grouped_other_last(
                        blocks,
                        BlockView::Sortable(steps.push(step)),
                        BlockView::Sortable(steps.push(step).push(step_at(line, keyword))),
                    );
                },
                LineType::DocStringStartStop => {
                    lemma_well_grouped_other_last(
                        blocks,
                        BlockView::Sortable(steps.push(step)),
                        BlockView::Sortable(steps.push(with_line(step, line.text))),
                    );
                },
                LineType::Text => {
                    lemma_well_grouped_one_more(
                        blocks.push(BlockView::Sortable(steps.push(step))),
                        BlockView::Static(seq![line.text]),
                    );
                },
            },
        }
    }
}

/// Grouping: in a parsed document no block is empty, and blocks of steps
/// and blocks of text take turns, so that no two blocks of steps stand
/// side by side.
pub proof fn parsed_document_is_well_grouped(lines: Seq<LineView>)
    requires
        parse(lines) is Ok,
    ensures
        is_well_grouped(parse(lines)->Ok_0),
{
    lemma_run_is_well_grouped(lines, lines.len());
}

/// Partition, from text to text: the blocks of a parsed feature file,
/// written out, are the text of the file, if the text ends with a line
/// feed, no line feed follows a carriage return, and each line from which
/// the parser makes a step reads as a step is written.
pub proof fn parsed_text_is_kept(text: Seq<char>)
    requires
        is_plain_text(text),
        parse(lex(text)) is Ok,
        forall|i: int| starts_step(lex(text), i) ==> is_plainly_written(#[trigger] lex(text)[i]),
    ensures
        join_lines(document_lines(parse(lex(text))->Ok_0)) == text,
{
    parsed_document_holds_all_lines(lex(text));
    assert(texts(lex(text)) =~= split_lines(text));
    lemma_join_split(text);
}

/// The keywords of `steps` are written as briefly as can be: no step
/// repeats the keyword that the step before it stands for.
pub open spec fn is_compressed(steps: Seq<StepView>) -> bool {
    forall|i: int|
        0 <= i < steps.len() && (#[trigger] steps[i]).keyword != Keyword::And ==> steps[i].keyword
            != effective_keyword(steps, i - 1)
}

/// Writing the keywords out changes none of the keywords that the steps
/// stand for.
pub proof fn lemma_deoptimized_keeps_effective_keywords(steps: Seq<StepView>, i: int)
    requires
        i < steps.len(),
    ensures
        effective_keyword(deoptimized(steps), i) == effective_keyword(steps, i),
    decreases i + 1,
{
    if i >= 0 {
        lemma_deoptimized_keeps_effective_keywords(steps, i - 1);
    }
}

/// Keyword round trip: writing `And` wherever it can stand undoes writing
/// the keywords out, exactly for the steps whose keywords are written as
/// briefly as can be.
pub proof fn optimize_undoes_deoptimize(steps: Seq<StepView>)
    ensures
        is_compressed(steps) <==> optimized(deoptimized(steps)) == steps,
{
    let plain = deoptimized(steps);
    let back = optimized(plain);
    assert forall|i: int| 0 <= i < steps.len() implies (#[trigger] back[i] == steps[i]) == (
    steps[i].keyword != Keyword::And ==> steps[i].keyword != effective_keyword(steps, i - 1)) by {
        lemma_deoptimized_keeps_effective_keywords(steps, i - 1);
    }
    if is_compressed(steps) {
        assert(back =~= steps);
    }
    if back == steps {
        assert forall|i: int|
            0 <= i < steps.len() && (#[trigger] steps[i]).keyword
                != Keyword::And implies steps[i].keyword != effective_keyword(steps, i - 1) by {
            assert(back[i] == steps[i]);
        }
    }
}

/// At most one rule sorts a step.
pub proof fn lemma_one_rule_claims(patterns: Seq<Seq<char>>, r1: int, r2: int, title: Seq<char>)
    requires
        claims(patterns, r1, title),
        claims(patterns, r2, title),
    ensures
        r1 == r2,
{
    if r1 < r2 {
        assert(!regex_is_match(patterns[r1], title));
    }
    if r2 < r1 {
        assert(!regex_is_match(patterns[r2], title));
    }
}

/// Among the steps that rule `k` sorts, rule `k` sorts all and no other
/// rule sorts any.
proof fn lemma_claimed_twice(steps: Seq<StepView>, patterns: Seq<Seq<char>>, r: int, k: int)
    ensures
        claimed_by(claimed_by(steps, patterns, k), patterns, r) == if r == k {
            claimed_by(steps, patterns, k)
        } else {
            Seq::empty()
        },
    decreases steps.len(),
{
    reveal(Seq::filter);
    if steps.len() > 0 {
        let rest = steps.drop_last();
        lemma_claimed_twice(rest, patterns, r, k);
        let title = steps.last().title;
        if claims(patterns, k, title) {
            let chosen = claimed_by(rest, patterns, k).push(steps.last());
            assert(chosen.drop_last() =~= claimed_by(rest, patterns, k));
            if claims(patterns, r, title) {
                lemma_one_rule_claims(patterns, r, k, title);
            }
        }
    }
}

/// Stability: the steps that a rule sorts stand in the sorted block in
/// the order in which they stood before. Of what the first `n` rules
/// sort, rule `r` sorts what it sorts of all the steps if it is one of
/// them, and nothing if it is not.
pub proof fn sorting_keeps_order_within_rule(
    steps: Seq<StepView>,
    patterns: Seq<Seq<char>>,
    n: nat,
    r: int,
)
    ensures
        claimed_by(arranged(steps, patterns, n), patterns, r) == if 0 <= r < n {
            claimed_by(steps, patterns, r)
        } else {
            Seq::empty()
        },
    decreases n,
{
    let by_r = |step: StepView| claims(patterns, r, step.title);
    reveal(arranged);
    if n == 0 {
        reveal(Seq::filter);
    } else {
        let before = arranged(steps, patterns, (n - 1) as nat);
        let added = claimed_by(steps, patterns, n - 1);
        sorting_keeps_order_within_rule(steps, patterns, (n - 1) as nat, r);
        lemma_claimed_twice(steps, patterns, r, n - 1);
        Seq::filter_distributes_over_add(before, added, by_r);
        if 0 <= r < n - 1 {
            assert(claimed_by(steps, patterns, r) + Seq::<StepView>::empty() =~= claimed_by(
                steps,
                patterns,
                r,
            ));
        } else {
            assert(Seq::<StepView>::empty() + claimed_by(added, patterns, r) =~= claimed_by(
                added,
                patterns,
                r,
            ));
        }
    }
}

/// The steps without their keywords: each with `And` in place of its own.
pub open spec fn without_keywords(steps: Seq<StepView>) -> Seq<StepView> {
    steps.map_values(|step: StepView| with_keyword(step, Keyword::And))
}

/// Which steps a rule sorts does not depend on their keywords.
proof fn lemma_claimed_without_keywords(
    a: Seq<StepView>,
    b: Seq<StepView>,
    patterns: Seq<Seq<char>>,
    r: int,
)
    requires
        without_keywords(a) == without_keywords(b),
    ensures
        without_keywords(claimed_by(a, patterns, r)) == without_keywords(
            claimed_by(b, patterns, r),
        ),
    decreases a.len(),
{
    reveal(Seq::filter);
    assert(a.len() == without_keywords(a).len());
    assert(b.len() == without_keywords(b).len());
    if a.len() > 0 {
        let a_rest = a.drop_last();
        let b_rest = b.drop_last();
        assert(without_keywords(a_rest) =~= without_keywords(a).drop_last());
        assert(without_keywords(b_rest) =~= without_keywords(b).drop_last());
        lemma_claimed_without_keywords(a_rest, b_rest, patterns, r);
        assert(without_keywords(a).last() == with_keyword(a.last(), Keyword::And));
        assert(without_keywords(b).last() == with_keyword(b.last(), Keyword::And));
        assert(a.last().title == b.last().title);
        if claims(patterns, r, a.last().title) {
            let ca = claimed_by(a_rest, patterns, r);
            let cb = claimed_by(b_rest, patterns, r);
            assert(without_keywords(ca.push(a.last())) =~= without_keywords(ca).push(
                with_keyword(a.last(), Keyword::And),
            ));
            assert(without_keywords(cb.push(b.last())) =~= without_keywords(cb).push(
                with_keyword(b.last(), Keyword::And),
            ));
        }
    } else {
        assert(without_keywords(claimed_by(a, patterns, r)) =~= without_keywords(
            claimed_by(b, patterns, r),
        ));
    }
}

/// Stability of the whole sort: apart from their keywords, the steps
/// that a rule sorts stand in the sorted block as they stood in the
/// block, in the same order.
pub proof fn sorted_steps_keep_order_within_rule(
    steps: Seq<StepView>,
    patterns: Seq<Seq<char>>,
    r: int,
)
    requires
        0 <= r < patterns.len(),
    ensures
        without_keywords(claimed_by(sorted_steps(steps, patterns), patterns, r))
            == without_keywords(claimed_by(steps, patterns, r)),
{
    let plain = deoptimized(steps);
    let ordered = arranged(plain, patterns, patterns.len());
    assert(without_keywords(optimized(ordered)) =~= without_keywords(ordered));
    assert(without_keywords(plain) =~= without_keywords(steps));
    lemma_claimed_without_keywords(optimized(ordered), ordered, patterns, r);
    sorting_keeps_order_within_rule(plain, patterns, patterns.len(), r);
    lemma_claimed_without_keywords(plain, steps, patterns, r);
}

/// The steps stand as the rules want them: a rule sorts each, and no step
/// stands before a step whose rule comes earlier.
#[verifier::opaque]
pub open spec fn in_rule_order(steps: Seq<StepView>, patterns: Seq<Seq<char>>) -> bool {
    &&& forall|i: int|
        0 <= i < steps.len() ==> exists|r: int| claims(patterns, r, (#[trigger] steps[i]).title)
    &&& forall|i: int, j: int, ri: int, rj: int|
        0 <= i < j < steps.len() && #[trigger] claims(patterns, ri, steps[i].title)
            && #[trigger] claims(patterns, rj, steps[j].title) ==> ri <= rj
}

/// No rule sorts a step where there are none.
proof fn lemma_arranged_nothing(patterns: Seq<Seq<char>>, n: nat)
    ensures
        arranged(Seq::<StepView>::empty(), patterns, n) == Seq::<StepView>::empty(),
    decreases n,
{
    reveal(Seq::filter);
    reveal(arranged);
    if n > 0 {
        lemma_arranged_nothing(patterns, (n - 1) as nat);
        assert(Seq::<StepView>::empty() + Seq::<StepView>::empty() =~= Seq::<StepView>::empty());
    }
}

/// A last step whose rule is `rule`, after steps whose rules come no
/// later, stays last: it stands behind what the rules up to `rule` sort
/// of the steps before it, and the later rules add nothing.
proof fn lemma_arranged_with_last(
    steps: Seq<StepView>,
    patterns: Seq<Seq<char>>,
    rule: int,
    n: nat,
)
    requires
        steps.len() > 0,
        claims(patterns, rule, steps.last().title),
        forall|r: int| rule < r ==> claimed_by(steps.drop_last(), patterns, r).len() == 0,
    ensures
        n <= rule ==> arranged(steps, patterns, n) == arranged(steps.drop_last(), patterns, n),
        n > rule ==> arranged(steps, patterns, n) == arranged(steps.drop_last(), patterns, n).push(
            steps.last(),
        ),
    decreases n,
{
    reveal(Seq::filter);
    reveal(arranged);
    if n > 0 {
        let rest = steps.drop_last();
        lemma_arranged_with_last(steps, patterns, rule, (n - 1) as nat);
        let before = arranged(rest, patterns, (n - 1) as nat);
        let added = claimed_by(rest, patterns, n - 1);
        if claims(patterns, n - 1, steps.last().title) {
            lemma_one_rule_claims(patterns, n - 1, rule, steps.last().title);
        }
        if n - 1 == rule {
            assert(before + added.push(steps.last()) =~= (before + added).push(steps.last()));
        } else if n - 1 > rule {
            assert(added =~= Seq::<StepView>::empty());
            assert(before.push(steps.last()) + added =~= (before + added).push(steps.last()));
        }
    }
}

/// The rule that sorts step `i` of steps that stand as the rules want
/// them.
proof fn lemma_rule_of_step(steps: Seq<StepView>, patterns: Seq<Seq<char>>, i: int) -> (rule: int)
    requires
        0 <= i < steps.len(),
        in_rule_order(steps, patterns),
    ensures
        claims(patterns, rule, steps[i].title),
{
    reveal(in_rule_order);
    choose|r: int| claims(patterns, r, steps[i].title)
}

/// Steps that stand as the rules want them still do without the last.
proof fn lemma_in_rule_order_without_last(steps: Seq<StepView>, patterns: Seq<Seq<char>>)
    requires
        steps.len() > 0,
        in_rule_order(steps, patterns),
    ensures
        in_rule_order(steps.drop_last(), patterns),
{
    reveal(in_rule_order);
    let rest = steps.drop_last();
    assert forall|i: int| 0 <= i < rest.len() implies exists|r: int|
        claims(patterns, r, (#[trigger] rest[i]).title) by {
        assert(rest[i] == steps[i]);
    }
    assert forall|i: int, j: int, ri: int, rj: int|
        0 <= i < j < rest.len() && #[trigger] claims(patterns, ri, rest[i].title)
            && #[trigger] claims(patterns, rj, rest[j].title) implies ri <= rj by {
        assert(rest[i] == steps[i] && rest[j] == steps[j]);
    }
}

/// Of steps that stand as the rules want them, the rules after that of
/// the last step sort none.
proof fn lemma_later_rules_sort_nothing(
    steps: Seq<StepView>,
    patterns: Seq<Seq<char>>,
    rule: int,
    r: int,
)
    requires
        steps.len() > 0,
        in_rule_order(steps, patterns),
        claims(patterns, rule, steps.last().title),
        rule < r,
    ensures
        claimed_by(steps.drop_last(), patterns, r).len() == 0,
{
    reveal(in_rule_order);
    let rest = steps.drop_last();
    let last = steps.len() - 1;
    lemma_sorts_any(rest, patterns, r);
    if sorts_any(patterns, r, rest) {
        let i = choose|i: int|
            0 <= i < rest.len() && claims(patterns, r, (#[trigger] rest[i]).title);
        assert(rest[i] == steps[i]);
        assert(claims(patterns, r, steps[i].title));
        assert(claims(patterns, rule, steps[last].title));
        assert(r <= rule);
    }
}

/// Arranging steps that stand as the rules want them leaves the last
/// step last.
proof fn lemma_arranged_keeps_last(steps: Seq<StepView>, patterns: Seq<Seq<char>>)
    requires
        steps.len() > 0,
        in_rule_order(steps, patterns),
    ensures
        arranged(steps, patterns, patterns.len()) == arranged(
            steps.drop_last(),
            patterns,
            patterns.len(),
        ).push(steps.last()),
{
    let rest = steps.drop_last();
    let rule = lemma_rule_of_step(steps, patterns, steps.len() - 1);
    assert forall|r: int| rule < r implies claimed_by(rest, patterns, r).len() == 0 by {
        lemma_later_rules_sort_nothing(steps, patterns, rule, r);
    }
    lemma_arranged_with_last(steps, patterns, rule, patterns.len());
}

/// Steps that stand as the rules want them are arranged as they stand.
proof fn lemma_arranged_in_order(steps: Seq<StepView>, patterns: Seq<Seq<char>>)
    requires
        in_rule_order(steps, patterns),
    ensures
        arranged(steps, patterns, patterns.len()) == steps,
    decreases steps.len(),
{
    if steps.len() == 0 {
        lemma_arranged_nothing(patterns, patterns.len());
        assert(steps =~= Seq::<StepView>::empty());
    } else {
        lemma_in_rule_order_without_last(steps, patterns);
        lemma_arranged_in_order(steps.drop_last(), patterns);
        lemma_arranged_keeps_last(steps, patterns);
    }
}

/// Whether steps stand as the rules want them does not depend on their
/// keywords.
proof fn lemma_in_rule_order_by_title(
    a: Seq<StepView>,
    b: Seq<StepView>,
    patterns: Seq<Seq<char>>,
)
    requires
        in_rule_order(a, patterns),
        a.len() == b.len(),
        forall|i: int| 0 <= i < a.len() ==> a[i].title == b[i].title,
    ensures
        in_rule_order(b, patterns),
{
    reveal(in_rule_order);
    assert forall|i: int| 0 <= i < b.len() implies exists|r: int|
        claims(patterns, r, (#[trigger] b[i]).title) by {
        let r = choose|r: int| claims(patterns, r, a[i].title);
        assert(claims(patterns, r, b[i].title));
    }
    assert forall|i: int, j: int, ri: int, rj: int|
        0 <= i < j < b.len() && #[trigger] claims(patterns, ri, b[i].title)
            && #[trigger] claims(patterns, rj, b[j].title) implies ri <= rj by {
        assert(claims(patterns, ri, a[i].title) && claims(patterns, rj, a[j].title));
    }
}

/// Idempotence: sorting changes nothing in a block whose steps stand as
/// the rules want them, with keywords written as briefly as can be, and
/// finds nothing.
pub proof fn sorting_sorted_steps_changes_nothing(
    steps: Seq<StepView>,
    patterns: Seq<Seq<char>>,
    file: Seq<char>,
)
    requires
        in_rule_order(steps, patterns),
        is_compressed(steps),
    ensures
        sorted_steps(steps, patterns) == steps,
        undefined_steps(steps, patterns, file) == Seq::<FindingView>::empty(),
{
    let plain = deoptimized(steps);
    lemma_in_rule_order_by_title(steps, plain, patterns);
    lemma_arranged_in_order(plain, patterns);
    optimize_undoes_deoptimize(steps);
    assert forall|i: int| 0 <= i < steps.len() implies exists|r: int|
        claims(patterns, r, (#[trigger] steps[i]).title) by {
        let r = lemma_rule_of_step(steps, patterns, i);
    }
    lemma_nothing_unclaimed(steps, patterns);
    assert(undefined_steps(steps, patterns, file) =~= Seq::<FindingView>::empty());
}

/// Where a rule sorts each step, no step is left.
proof fn lemma_nothing_unclaimed(steps: Seq<StepView>, patterns: Seq<Seq<char>>)
    requires
        forall|i: int|
            0 <= i < steps.len() ==> exists|r: int|
                claims(patterns, r, (#[trigger] steps[i]).title),
    ensures
        unclaimed(steps, patterns).len() == 0,
    decreases steps.len(),
{
    reveal(Seq::filter);
    if steps.len() > 0 {
        let rest = steps.drop_last();
        assert forall|i: int| 0 <= i < rest.len() implies exists|r: int|
            claims(patterns, r, (#[trigger] rest[i]).title) by {
            assert(rest[i] == steps[i]);
        }
        lemma_nothing_unclaimed(rest, patterns);
        let last = steps.len() - 1;
        let r = choose|r: int| claims(patterns, r, steps[last].title);
        assert(regex_is_match(patterns[r], steps.last().title));
    }
}

/// Writing `And` wherever it can stand changes none of the keywords that
/// the steps stand for.
pub proof fn lemma_optimized_keeps_effective_keywords(steps: Seq<StepView>, i: int)
    requires
        i < steps.len(),
    ensures
        effective_keyword(optimized(steps), i) == effective_keyword(steps, i),
    decreases i + 1,
{
    if i >= 0 {
        lemma_optimized_keeps_effective_keywords(steps, i - 1);
    }
}

/// Keywords that were written with `And` wherever it can stand are written
/// as briefly as can be.
pub proof fn lemma_optimized_is_compressed(steps: Seq<StepView>)
    ensures
        is_compressed(optimized(steps)),
{
    let brief = optimized(steps);
    assert forall|i: int|
        0 <= i < brief.len() && (#[trigger] brief[i]).keyword
            != Keyword::And implies brief[i].keyword != effective_keyword(brief, i - 1) by {
        lemma_optimized_keeps_effective_keywords(steps, i - 1);
    }
}

/// One of the first `n` rules sorts each of the steps, and no step stands
/// before a step whose rule comes earlier.
spec fn in_order_below(steps: Seq<StepView>, patterns: Seq<Seq<char>>, n: int) -> bool {
    &&& forall|i: int|
        0 <= i < steps.len() ==> exists|r: int|
            0 <= r < n && claims(patterns, r, (#[trigger] steps[i]).title)
    &&& forall|i: int, j: int, ri: int, rj: int|
        0 <= i < j < steps.len() && #[trigger] claims(patterns, ri, steps[i].title)
            && #[trigger] claims(patterns, rj, steps[j].title) ==> ri <= rj
}

/// Rule `r` sorts each of the steps that it sorts.
proof fn lemma_claimed_are_claimed(steps: Seq<StepView>, patterns: Seq<Seq<char>>, r: int, i: int)
    requires
        0 <= i < claimed_by(steps, patterns, r).len(),
    ensures
        claims(patterns, r, claimed_by(steps, patterns, r)[i].title),
    decreases steps.len(),
{
    reveal(Seq::filter);
    if steps.len() > 0 {
        let rest = claimed_by(steps.drop_last(), patterns, r);
        if i < rest.len() {
            lemma_claimed_are_claimed(steps.drop_last(), patterns, r, i);
        }
    }
}

/// What the first `n` rules sort stands as the rules want it.
proof fn lemma_arranged_is_in_order(steps: Seq<StepView>, patterns: Seq<Seq<char>>, n: nat)
    requires
        n <= patterns.len(),
    ensures
        in_order_below(arranged(steps, patterns, n), patterns, n as int),
    decreases n,
{
    reveal(arranged);
    if n > 0 {
        let before = arranged(steps, patterns, (n - 1) as nat);
        let added = claimed_by(steps, patterns, n - 1);
        let all = arranged(steps, patterns, n);
        lemma_arranged_is_in_order(steps, patterns, (n - 1) as nat);
        assert(all == before + added);
        assert forall|i: int| 0 <= i < all.len() implies exists|r: int|
            0 <= r < n && claims(patterns, r, (#[trigger] all[i]).title) by {
            if i < before.len() {
                assert(all[i] == before[i]);
                let r = choose|r: int| 0 <= r < n - 1 && claims(patterns, r, before[i].title);
                assert(0 <= r < n && claims(patterns, r, all[i].title));
            } else {
                assert(all[i] == added[i - before.len()]);
                lemma_claimed_are_claimed(steps, patterns, n - 1, i - before.len());
                assert(0 <= n - 1 < n && claims(patterns, n - 1, all[i].title));
            }
        }
        assert forall|i: int, j: int, ri: int, rj: int|
            0 <= i < j < all.len() && #[trigger] claims(patterns, ri, all[i].title)
                && #[trigger] claims(patterns, rj, all[j].title) implies ri <= rj by {
            if j < before.len() {
                assert(all[i] == before[i] && all[j] == before[j]);
            } else {
                assert(all[j] == added[j - before.len()]);
                lemma_claimed_are_claimed(steps, patterns, n - 1, j - before.len());
                lemma_one_rule_claims(patterns, rj, n - 1, all[j].title);
                if i < before.len() {
                    assert(all[i] == before[i]);
                    let r = choose|r: int| 0 <= r < n - 1 && claims(patterns, r, before[i].title);
                    lemma_one_rule_claims(patterns, ri, r, all[i].title);
                } else {
                    assert(all[i] == added[i - before.len()]);
                    lemma_claimed_are_claimed(steps, patterns, n - 1, i - before.len());
                    lemma_one_rule_claims(patterns, ri, n - 1, all[i].title);
                }
            }
        }
    }
}

/// A sorted block stands as the rules want it, with keywords written as
/// briefly as can be.
pub proof fn sorted_steps_are_in_rule_order(steps: Seq<StepView>, patterns: Seq<Seq<char>>)
    ensures
        in_rule_order(sorted_steps(steps, patterns), patterns),
        is_compressed(sorted_steps(steps, patterns)),
{
    let ordered = arranged(deoptimized(steps), patterns, patterns.len());
    lemma_arranged_is_in_order(deoptimized(steps), patterns, patterns.len());
    assert(in_rule_order(ordered, patterns)) by {
        reveal(in_rule_order);
    }
    lemma_in_rule_order_by_title(ordered, optimized(ordered), patterns);
    lemma_optimized_is_compressed(ordered);
}

/// Idempotence, for every block: sorting what was sorted changes nothing,
/// and finds nothing.
pub proof fn sorting_twice_is_sorting_once(
    steps: Seq<StepView>,
    patterns: Seq<Seq<char>>,
    file: Seq<char>,
)
    ensures
        sorted_steps(sorted_steps(steps, patterns), patterns) == sorted_steps(steps, patterns),
        undefined_steps(sorted_steps(steps, patterns), patterns, file) == Seq::<
            FindingView,
        >::empty(),
{
    sorted_steps_are_in_rule_order(steps, patterns);
    sorting_sorted_steps_changes_nothing(sorted_steps(steps, patterns), patterns, file);
}

/// Every block of steps stands as the rules want it, with keywords
/// written as briefly as can be.
pub open spec fn is_sorted_document(blocks: Seq<BlockView>, patterns: Seq<Seq<char>>) -> bool {
    forall|b: int|
        0 <= b < blocks.len() ==> ((#[trigger] blocks[b]) matches BlockView::Sortable(steps)
            ==> in_rule_order(steps, patterns) && is_compressed(steps))
}

/// Idempotence, for a whole document: sorting changes nothing in a
/// document whose blocks of steps stand as the rules want them, and finds
/// nothing.
pub proof fn sorting_sorted_document_changes_nothing(
    blocks: Seq<BlockView>,
    patterns: Seq<Seq<char>>,
    file: Seq<char>,
)
    requires
        is_sorted_document(blocks, patterns),
    ensures
        sorted_document(blocks, patterns) == blocks,
        document_findings(blocks, patterns, file) == Seq::<FindingView>::empty(),
    decreases blocks.len(),
{
    assert forall|b: int| 0 <= b < blocks.len() implies sorted_block(
        #[trigger] blocks[b],
        patterns,
    ) == blocks[b] && block_findings(blocks[b], patterns, file) == Seq::<FindingView>::empty() by {
        match blocks[b] {
            BlockView::Sortable(steps) => {
                sorting_sorted_steps_changes_nothing(steps, patterns, file);
            },
            BlockView::Static(lines) => {},
        }
    }
    assert(sorted_document(blocks, patterns) =~= blocks);
    if blocks.len() > 0 {
        let rest = blocks.drop_last();
        assert forall|b: int| 0 <= b < rest.len() implies ((
        #[trigger] rest[b]) matches BlockView::Sortable(steps) ==> in_rule_order(steps, patterns)
            && is_compressed(steps)) by {
            assert(rest[b] == blocks[b]);
        }
        sorting_sorted_document_changes_nothing(rest, patterns, file);
        assert(blocks.last() == blocks[blocks.len() - 1]);
        assert(Seq::<FindingView>::empty() + Seq::<FindingView>::empty() =~= Seq::<
            FindingView,
        >::empty());
    }
}

/// The rules after a run: one document after the other was sorted.
pub open spec fn marked_by_run(entries: Seq<EntryView>, documents: Seq<Seq<BlockView>>) -> Seq<
    EntryView,
>
    decreases documents.len(),
{
    if documents.len() == 0 {
        entries
    } else {
        marked_by_document(marked_by_run(entries, documents.drop_last()), documents.last())
    }
}

/// The steps of a block; none for a block of text.
pub open spec fn steps_of(block: BlockView) -> Seq<StepView> {
    match block {
        BlockView::Sortable(steps) => steps,
        BlockView::Static(lines) => Seq::empty(),
    }
}

/// `pattern` matches the title of no step of `blocks`.
pub open spec fn matches_no_title(pattern: Seq<char>, blocks: Seq<BlockView>) -> bool {
    forall|b: int, i: int|
        0 <= b < blocks.len() && 0 <= i < steps_of(blocks[b]).len() ==> !regex_is_match(
            pattern,
            (#[trigger] steps_of(blocks[b])[i]).title,
        )
}

/// The rules `after` are the rules `before`, some of them now used.
pub open spec fn same_rules(before: Seq<EntryView>, after: Seq<EntryView>) -> bool {
    &&& after.len() == before.len()
    &&& forall|r: int|
        0 <= r < before.len() ==> (#[trigger] after[r]).regex == before[r].regex
            && after[r].line_no == before[r].line_no && (before[r].used ==> after[r].used)
}

/// Sorting a block leaves a rule unused whose pattern matches none of its
/// titles, and changes no rule but in that it is used.
proof fn lemma_block_leaves_unmatched_rule(entries: Seq<EntryView>, block: BlockView, r: int)
    requires
        0 <= r < entries.len(),
        forall|i: int|
            0 <= i < steps_of(block).len() ==> !regex_is_match(
                entries[r].regex,
                (#[trigger] steps_of(block)[i]).title,
            ),
    ensures
        same_rules(entries, marked_by_block(entries, block)),
        marked_by_block(entries, block)[r].used == entries[r].used,
{
    match block {
        BlockView::Sortable(steps) => {
            if sorts_any(patterns(entries), r, steps) {
                let i = choose|i: int|
                    0 <= i < steps.len() && claims(
                        patterns(entries),
                        r,
                        (#[trigger] steps[i]).title,
                    );
                assert(steps_of(block)[i] == steps[i]);
                assert(patterns(entries)[r] == entries[r].regex);
                assert(false);
            }
            assert(marked(entries, steps)[r].used == entries[r].used);
        },
        BlockView::Static(lines) => {},
    }
}

/// Sorting a document leaves a rule unused whose pattern matches none of
/// its titles, and changes no rule but in that it is used.
proof fn lemma_document_leaves_unmatched_rule(
    entries: Seq<EntryView>,
    blocks: Seq<BlockView>,
    r: int,
)
    requires
        0 <= r < entries.len(),
        matches_no_title(entries[r].regex, blocks),
    ensures
        same_rules(entries, marked_by_document(entries, blocks)),
        marked_by_document(entries, blocks)[r].used == entries[r].used,
    decreases blocks.len(),
{
    if blocks.len() > 0 {
        let rest = blocks.drop_last();
        assert forall|b: int, i: int|
            0 <= b < rest.len() && 0 <= i < steps_of(rest[b]).len() implies !regex_is_match(
            entries[r].regex,
            (#[trigger] steps_of(rest[b])[i]).title,
        ) by {
            assert(rest[b] == blocks[b]);
        }
        lemma_document_leaves_unmatched_rule(entries, rest, r);
        let before = marked_by_document(entries, rest);
        let last = blocks[blocks.len() - 1];
        assert(last == blocks.last());
        lemma_block_leaves_unmatched_rule(before, last, r);
    }
}

/// A run leaves a rule unused whose pattern matches none of its titles,
/// and changes no rule but in that it is used.
proof fn lemma_run_leaves_unmatched_rule(
    entries: Seq<EntryView>,
    documents: Seq<Seq<BlockView>>,
    r: int,
)
    requires
        0 <= r < entries.len(),
        forall|d: int|
            0 <= d < documents.len() ==> matches_no_title(
                entries[r].regex,
                #[trigger] documents[d],
            ),
    ensures
        same_rules(entries, marked_by_run(entries, documents)),
        marked_by_run(entries, documents)[r].used == entries[r].used,
    decreases documents.len(),
{
    if documents.len() > 0 {
        let rest = documents.drop_last();
        assert forall|d: int| 0 <= d < rest.len() implies matches_no_title(
            entries[r].regex,
            #[trigger] rest[d],
        ) by {
            assert(rest[d] == documents[d]);
        }
        lemma_run_leaves_unmatched_rule(entries, rest, r);
        let before = marked_by_run(entries, rest);
        assert(documents.last() == documents[documents.len() - 1]);
        lemma_document_leaves_unmatched_rule(before, documents.last(), r);
    }
}

/// The findings about line `line` of the rule file among those for the
/// rules that are not used.
pub open spec fn reports_for(entries: Seq<EntryView>, line: usize) -> Seq<FindingView> {
    unused_findings(entries).filter(|finding: FindingView| finding.line == line)
}

/// What one more rule adds to the findings about a line.
proof fn lemma_reports_with_last(entries: Seq<EntryView>, line: usize)
    requires
        entries.len() > 0,
    ensures
        reports_for(entries, line) == if !entries.last().used && entries.last().line_no == line {
            reports_for(entries.drop_last(), line).push(unused_regex(entries.last()))
        } else {
            reports_for(entries.drop_last(), line)
        },
{
    reveal(Seq::filter);
    let rest = entries.drop_last();
    let last = entries.last();
    let unused = |entry: EntryView| !entry.used;
    let report = |entry: EntryView| unused_regex(entry);
    if !last.used {
        assert(rest.filter(unused).push(last).map_values(report) =~= rest.filter(
            unused,
        ).map_values(report).push(unused_regex(last)));
        assert(unused_findings(rest).push(unused_regex(last)).drop_last() =~= unused_findings(
            rest,
        ));
    }
}

/// There is no finding about a line on which no rule stands.
proof fn lemma_no_report_without_rule(entries: Seq<EntryView>, line: usize)
    requires
        forall|i: int| 0 <= i < entries.len() ==> (#[trigger] entries[i]).line_no != line,
    ensures
        reports_for(entries, line) == Seq::<FindingView>::empty(),
    decreases entries.len(),
{
    if entries.len() > 0 {
        let rest = entries.drop_last();
        assert forall|i: int| 0 <= i < rest.len() implies (#[trigger] rest[i]).line_no != line by {
            assert(rest[i] == entries[i]);
        }
        lemma_no_report_without_rule(rest, line);
        lemma_reports_with_last(entries, line);
        assert(entries.last() == entries[entries.len() - 1]);
    } else {
        reveal(Seq::filter);
        assert(unused_findings(entries) =~= Seq::<FindingView>::empty());
    }
}

/// There is one finding about the line of a rule that is not used: that
/// the rule is not used.
proof fn lemma_unused_rule_reported_once(entries: Seq<EntryView>, r: int)
    requires
        0 <= r < entries.len(),
        lines_increase(entries),
        !entries[r].used,
    ensures
        reports_for(entries, entries[r].line_no) == seq![unused_regex(entries[r])],
    decreases entries.len(),
{
    let rest = entries.drop_last();
    let line = entries[r].line_no;
    lemma_reports_with_last(entries, line);
    assert(entries.last() == entries[entries.len() - 1]);
    if r == entries.len() - 1 {
        assert forall|i: int| 0 <= i < rest.len() implies (#[trigger] rest[i]).line_no != line by {
            assert(rest[i] == entries[i]);
        }
        lemma_no_report_without_rule(rest, line);
        assert(Seq::<FindingView>::empty().push(unused_regex(entries[r])) =~= seq![
            unused_regex(entries[r]),
        ]);
    } else {
        assert forall|i: int, j: int| 0 <= i < j < rest.len() implies (#[trigger] rest[i]).line_no
            < (#[trigger] rest[j]).line_no by {
            assert(rest[i] == entries[i] && rest[j] == entries[j]);
        }
        assert(rest[r] == entries[r]);
        lemma_unused_rule_reported_once(rest, r);
    }
}

/// Unused-rule detection: after a run, however many documents it sorted,
/// a rule that was not used before and whose pattern matches the title of
/// no step of the run is reported once: of the findings about rules that
/// are not used, one is about the rule's line, and it is the finding that
/// this rule is not used.
pub proof fn unmatched_rule_is_reported_once(
    entries: Seq<EntryView>,
    documents: Seq<Seq<BlockView>>,
    r: int,
)
    requires
        0 <= r < entries.len(),
        lines_increase(entries),
        !entries[r].used,
        forall|d: int|
            0 <= d < documents.len() ==> matches_no_title(
                entries[r].regex,
                #[trigger] documents[d],
            ),
    ensures
        reports_for(marked_by_run(entries, documents), entries[r].line_no) == seq![
            unused_regex(entries[r]),
        ],
{
    let after = marked_by_run(entries, documents);
    lemma_run_leaves_unmatched_rule(entries, documents, r);
    assert forall|i: int, j: int| 0 <= i < j < after.len() implies (#[trigger] after[i]).line_no < (
    #[trigger] after[j]).line_no by {
        assert(after[i].line_no == entries[i].line_no && after[j].line_no == entries[j].line_no);
    }
    lemma_unused_rule_reported_once(after, r);
    assert(after[r] == entries[r]);
}

} // verus!
