//! The parser: groups the lines of a feature file into blocks of text and
//! blocks of steps, and writes a document back as lines.

use crate::errors::{Finding, FindingView, Issue, IssueView, UserError, UserErrorView};
use crate::gherkin::lexer::{Keyword, Line, LineType, LineView};
use crate::text::{join, join_lines, push_char};
use vstd::prelude::*;
use vstd::std_specs::convert::FromSpecImpl;
use vstd::string::StringExecFns;

verus! {

/// A step: its first line, taken apart, and the lines that belong to it.
#[derive(Clone, Debug, PartialEq, Eq)]
pub struct Step {
    /// the line of the file at which the step starts, from 0
    pub line_no: usize,
    /// the whitespace before the keyword
    pub indent: String,
    pub keyword: Keyword,
    /// the step's first line without indentation, keyword and the whitespace
    /// after the keyword
    pub title: String,
    /// the lines of the docstring that follows the step, delimiters included
    pub additional_lines: Vec<String>,
}

/// A `Step`, with texts as sequences of characters.
pub ghost struct StepView {
    pub line_no: usize,
    pub indent: Seq<char>,
    pub keyword: Keyword,
    pub title: Seq<char>,
    pub additional_lines: Seq<Seq<char>>,
}

impl DeepView for Step {
    type V = StepView;

    open spec fn deep_view(&self) -> StepView {
        StepView {
            line_no: self.line_no,
            indent: self.indent@,
            keyword: self.keyword,
            title: self.title@,
            additional_lines: self.additional_lines.deep_view(),
        }
    }
}

impl Default for Step {
    /// A step without indentation, title or further lines, with the
    /// keyword `Given`, at line 0.
    fn default() -> (step: Step)
        ensures
            step.deep_view() == (StepView {
                line_no: 0,
                indent: Seq::empty(),
                keyword: Keyword::Given,
                title: Seq::empty(),
                additional_lines: Seq::empty(),
            }),
    {
        let step = Step {
            line_no: 0,
            indent: String::new(),
            keyword: Keyword::Given,
            title: String::new(),
            additional_lines: Vec::new(),
        };
        assert(step.additional_lines.deep_view() =~= Seq::<Seq<char>>::empty());
        step
    }
}

/// A run of lines of a feature file.
#[derive(Clone, Debug, PartialEq, Eq)]
pub enum Block {
    /// steps, which can be sorted
    Sortable(Vec<Step>),
    /// lines that stay as they are
    Static(Vec<String>),
}

/// A `Block`, with texts as sequences of characters.
pub ghost enum BlockView {
    Sortable(Seq<StepView>),
    Static(Seq<Seq<char>>),
}

impl DeepView for Block {
    type V = BlockView;

    open spec fn deep_view(&self) -> BlockView {
        match self {
            Block::Sortable(steps) => BlockView::Sortable(steps.deep_view()),
            Block::Static(lines) => BlockView::Static(lines.deep_view()),
        }
    }
}

/// A feature file as a sequence of blocks.
#[derive(Clone, Debug, PartialEq, Eq)]
pub struct Document {
    pub blocks: Vec<Block>,
}

impl DeepView for Document {
    type V = Seq<BlockView>;

    open spec fn deep_view(&self) -> Seq<BlockView> {
        self.blocks.deep_view()
    }
}

/// What the parser is filling while it reads.
pub ghost enum Open {
    /// nothing: no line was read yet
    Nothing,
    /// a block of text, with its lines so far
    Text(Seq<Seq<char>>),
    /// a block of steps: the steps that are complete, the step that is
    /// being read, and, inside a docstring, the indentation of the
    /// delimiter that opened it
    Steps { steps: Seq<StepView>, step: StepView, docstring: Option<usize> },
}

/// The parser between two lines: the blocks that are complete, and the one
/// that is open.
pub ghost struct ParserState {
    pub blocks: Seq<BlockView>,
    pub open: Open,
}

/// The step that begins at `line`.
pub open spec fn step_at(line: LineView, keyword: Keyword) -> StepView {
    StepView {
        line_no: line.number,
        indent: line.indent_text(),
        keyword,
        title: line.title(),
        additional_lines: Seq::empty(),
    }
}

/// `step` with one more line after it.
pub open spec fn with_line(step: StepView, text: Seq<char>) -> StepView {
    StepView { additional_lines: step.additional_lines.push(text), ..step }
}

/// The parser's state after `line`, or `None` where `line` cannot stand:
/// a docstring delimiter needs an open step.
///
/// Outside a docstring, the start of a step closes the step before it, or
/// the block of text before it, and a line of text closes the block of
/// steps. A delimiter joins the open step and opens a docstring. Inside a
/// docstring every line joins the open step, and a delimiter with the
/// indentation of the one that opened the docstring closes it.
pub open spec fn advance(state: ParserState, line: LineView) -> Option<ParserState> {
    match state.open {
        Open::Nothing => match line.line_type {
            LineType::StepStart { keyword } => Some(
                ParserState {
                    blocks: state.blocks,
                    open: Open::Steps {
                        steps: Seq::empty(),
                        step: step_at(line, keyword),
                        docstring: None,
                    },
                },
            ),
            LineType::DocStringStartStop => None,
            LineType::Text => Some(
                ParserState { blocks: state.blocks, open: Open::Text(seq![line.text]) },
            ),
        },
        Open::Text(lines) => match line.line_type {
            LineType::StepStart { keyword } => Some(
                ParserState {
                    blocks: state.blocks.push(BlockView::Static(lines)),
                    open: Open::Steps {
                        steps: Seq::empty(),
                        step: step_at(line, keyword),
                        docstring: None,
                    },
                },
            ),
            LineType::DocStringStartStop => None,
            LineType::Text => Some(
                ParserState { blocks: state.blocks, open: Open::Text(lines.push(line.text)) },
            ),
        },
        Open::Steps { steps, step, docstring: Some(opened_at) } => Some(
            ParserState {
                blocks: state.blocks,
                open: Open::Steps {
                    steps,
                    step: with_line(step, line.text),
                    docstring: if line.line_type is DocStringStartStop && line.indent
                        == opened_at {
                        None
                    } else {
                        Some(opened_at)
                    },
                },
            },
        ),
        Open::Steps { steps, step, docstring: None } => match line.line_type {
            LineType::StepStart { keyword } => Some(
                ParserState {
                    blocks: state.blocks,
                    open: Open::Steps {
                        steps: steps.push(step),
                        step: step_at(line, keyword),
                        docstring: None,
                    },
                },
            ),
            LineType::DocStringStartStop => Some(
                ParserState {
                    blocks: state.blocks,
                    open: Open::Steps {
                        steps,
                        step: with_line(step, line.text),
                        docstring: Some(line.indent),
                    },
                },
            ),
            LineType::Text => Some(
                ParserState {
                    blocks: state.blocks.push(BlockView::Sortable(steps.push(step))),
                    open: Open::Text(seq![line.text]),
                },
            ),
        },
    }
}

/// The parser's state after the first `n` of `lines`, or the position of
/// the first line that cannot stand.
pub open spec fn run(lines: Seq<LineView>, n: nat) -> Result<ParserState, int>
    decreases n,
{
    if n == 0 {
        Ok(ParserState { blocks: Seq::empty(), open: Open::Nothing })
    } else {
        match run(lines, (n - 1) as nat) {
            Ok(state) => match advance(state, lines[n - 1]) {
                Some(next) => Ok(next),
                None => Err(n - 1),
            },
            Err(at) => Err(at),
        }
    }
}

/// The blocks at the end of the input: those that are complete, and the
/// open one.
pub open spec fn finish(state: ParserState) -> Seq<BlockView> {
    match state.open {
        Open::Nothing => state.blocks,
        Open::Text(lines) => state.blocks.push(BlockView::Static(lines)),
        Open::Steps { steps, step, docstring } => state.blocks.push(
            BlockView::Sortable(steps.push(step)),
        ),
    }
}

/// The document that `lines` make up, or the number of the first line
/// that cannot stand where it does.
pub open spec fn parse(lines: Seq<LineView>) -> Result<Seq<BlockView>, usize> {
    match run(lines, lines.len()) {
        Ok(state) => Ok(finish(state)),
        Err(at) => Err(lines[at].number),
    }
}

/// Whether line `i` of `lines` is one from which the parser makes a step:
/// the start of a step outside a docstring.
pub open spec fn starts_step(lines: Seq<LineView>, i: int) -> bool {
    &&& 0 <= i < lines.len()
    &&& lines[i].line_type is StepStart
    &&& run(lines, i as nat) matches Ok(state)
    &&& !(state.open matches Open::Steps { docstring: Some(_), .. })
}

/// The lines of a feature file.
#[derive(Debug, PartialEq, Eq)]
pub struct Lines(pub Vec<String>);

impl DeepView for Lines {
    type V = Seq<Seq<char>>;

    open spec fn deep_view(&self) -> Seq<Seq<char>> {
        self.0.deep_view()
    }
}

/// The first line of a step as it is written: indentation, keyword, one
/// space, title.
pub open spec fn step_header(step: StepView) -> Seq<char> {
    step.indent + step.keyword.text() + seq![' '] + step.title
}

/// The lines of a step: its first line, then the lines that belong to it.
pub open spec fn step_lines(step: StepView) -> Seq<Seq<char>> {
    seq![step_header(step)] + step.additional_lines
}

/// The lines of a sequence of steps.
pub open spec fn steps_lines(steps: Seq<StepView>) -> Seq<Seq<char>>
    decreases steps.len(),
{
    if steps.len() == 0 {
        Seq::empty()
    } else {
        steps_lines(steps.drop_last()) + step_lines(steps.last())
    }
}

/// The lines of a block.
pub open spec fn block_lines(block: BlockView) -> Seq<Seq<char>> {
    match block {
        BlockView::Sortable(steps) => steps_lines(steps),
        BlockView::Static(lines) => lines,
    }
}

/// The lines of a document: those of its blocks, one block after the other.
pub open spec fn document_lines(blocks: Seq<BlockView>) -> Seq<Seq<char>>
    decreases blocks.len(),
{
    if blocks.len() == 0 {
        Seq::empty()
    } else {
        document_lines(blocks.drop_last()) + block_lines(blocks.last())
    }
}

/// The finding that line `line` of `file` reads `have` where the sorted
/// file reads `want`.
pub open spec fn unsorted_line(file: Seq<char>, line: usize, have: Seq<char>, want: Seq<char>)
    -> FindingView {
    FindingView { file, line, problem: IssueView::UnsortedLine { have, want } }
}

/// The findings for the first `n` lines of `have` and `want`: one for
/// each position at which the two differ, in the order of the lines.
pub open spec fn mismatches(have: Seq<Seq<char>>, want: Seq<Seq<char>>, file: Seq<char>, n: nat)
    -> Seq<FindingView>
    decreases n,
{
    if n == 0 {
        Seq::empty()
    } else {
        let before = mismatches(have, want, file, (n - 1) as nat);
        if have[n - 1] != want[n - 1] {
            before.push(unsorted_line(file, (n - 1) as usize, have[n - 1], want[n - 1]))
        } else {
            before
        }
    }
}

/// The smaller of two numbers.
pub open spec fn min(a: nat, b: nat) -> nat {
    if a <= b {
        a
    } else {
        b
    }
}

/// Adds `lines` at the end of `result`.
fn append_lines(result: &mut Vec<String>, lines: Vec<String>)
    ensures
        final(result).deep_view() == old(result).deep_view() + lines.deep_view(),
{
    let mut rest = lines;
    result.append(&mut rest);
    assert(result.deep_view() =~= old(result).deep_view() + lines.deep_view());
}

/// The first line of a step as it is written.
fn write_header(step: &Step) -> (header: String)
    ensures
        header@ == step_header(step.deep_view()),
{
    let mut header = step.indent.clone();
    header.append(step.keyword.as_str());
    push_char(&mut header, ' ');
    header.append(step.title.as_str());
    header
}

/// Adds the lines of `steps` at the end of `result`.
fn append_steps(result: &mut Vec<String>, steps: Vec<Step>)
    ensures
        final(result).deep_view() == old(result).deep_view() + steps_lines(steps.deep_view()),
{
    let ghost all = steps.deep_view();
    assert(all.take(0) =~= Seq::<StepView>::empty());
    assert(result.deep_view() =~= old(result).deep_view() + steps_lines(all.take(0)));
    for step in it: steps
        invariant
            it.seq().len() == all.len(),
            forall|j: int| 0 <= j < all.len() ==> it.seq()[j].deep_view() == all[j],
            result.deep_view() == old(result).deep_view() + steps_lines(
                all.take(it.index() as int),
            ),
    {
        let ghost n = it.index() as int;
        let ghost before = result.deep_view();
        let header = write_header(&step);
        result.push(header);
        assert(result.deep_view() =~= before.push(header@));
        append_lines(result, step.additional_lines);
        proof {
            let done = all.take(n + 1);
            assert(done.drop_last() =~= all.take(n));
            assert(done.last() == all[n]);
            assert(result.deep_view() =~= old(result).deep_view() + steps_lines(done));
        }
    }
    assert(all.take(all.len() as int) =~= all);
}

/// A copy of a list of lines.
fn copy_lines(lines: &Vec<String>) -> (copy: Vec<String>)
    ensures
        copy.deep_view() == lines.deep_view(),
{
    let mut copy: Vec<String> = Vec::new();
    let mut i: usize = 0;
    while i < lines.len()
        invariant
            i <= lines.len(),
            copy.len() == i,
            forall|j: int| 0 <= j < i ==> copy[j]@ == lines[j]@,
        decreases lines.len() - i,
    {
        copy.push(lines[i].clone());
        i += 1;
    }
    assert(copy.deep_view() =~= lines.deep_view());
    copy
}

impl Step {
    /// A copy of the step.
    pub fn duplicate(&self) -> (copy: Step)
        ensures
            copy.deep_view() == self.deep_view(),
    {
        Step {
            line_no: self.line_no,
            indent: self.indent.clone(),
            keyword: self.keyword,
            title: self.title.clone(),
            additional_lines: copy_lines(&self.additional_lines),
        }
    }
}

impl Block {
    /// A copy of the block.
    pub fn duplicate(&self) -> (copy: Block)
        ensures
            copy.deep_view() == self.deep_view(),
    {
        match self {
            Block::Sortable(steps) => {
                let mut copy: Vec<Step> = Vec::new();
                let mut i: usize = 0;
                while i < steps.len()
                    invariant
                        i <= steps.len(),
                        copy.len() == i,
                        forall|j: int| 0 <= j < i ==> copy[j].deep_view() == steps[j].deep_view(),
                    decreases steps.len() - i,
                {
                    copy.push(steps[i].duplicate());
                    i += 1;
                }
                assert(copy.deep_view() =~= steps.deep_view());
                Block::Sortable(copy)
            },
            Block::Static(lines) => Block::Static(copy_lines(lines)),
        }
    }
}

impl Document {
    /// A copy of the document.
    pub fn duplicate(&self) -> (copy: Document)
        ensures
            copy.deep_view() == self.deep_view(),
    {
        let mut blocks: Vec<Block> = Vec::new();
        let mut i: usize = 0;
        while i < self.blocks.len()
            invariant
                i <= self.blocks.len(),
                blocks.len() == i,
                forall|j: int|
                    0 <= j < i ==> blocks[j].deep_view() == self.blocks[j].deep_view(),
            decreases self.blocks.len() - i,
        {
            blocks.push(self.blocks[i].duplicate());
            i += 1;
        }
        assert(blocks.deep_view() =~= self.blocks.deep_view());
        Document { blocks }
    }

    /// The document as lines: text as it is, each step as its first line,
    /// written with one space after the keyword, and the lines that belong
    /// to it.
    pub fn lines(self) -> (lines: Lines)
        ensures
            lines.deep_view() == document_lines(self.deep_view()),
    {
        let ghost all = self.deep_view();
        let mut result: Vec<String> = Vec::new();
        assert(all.take(0) =~= Seq::<BlockView>::empty());
        assert(result.deep_view() =~= document_lines(all.take(0)));
        for block in it: self.blocks
            invariant
                it.seq().len() == all.len(),
                forall|j: int| 0 <= j < all.len() ==> it.seq()[j].deep_view() == all[j],
                result.deep_view() == document_lines(all.take(it.index() as int)),
        {
            let ghost n = it.index() as int;
            match block {
                Block::Sortable(steps) => append_steps(&mut result, steps),
                Block::Static(lines) => append_lines(&mut result, lines),
            }
            proof {
                let done = all.take(n + 1);
                assert(done.drop_last() =~= all.take(n));
                assert(done.last() == all[n]);
            }
        }
        assert(all.take(all.len() as int) =~= all);
        Lines(result)
    }
}

impl Lines {
    /// Compares the lines of a file with those of the sorted file,
    /// position by position, as far as both reach: a finding for each line
    /// of `self` that differs from the line of `other` at its position.
    pub fn find_mismatching(&self, other: &Lines, filepath: &str) -> (findings: Vec<Finding>)
        ensures
            findings.deep_view() == mismatches(
                self.deep_view(),
                other.deep_view(),
                filepath@,
                min(self.deep_view().len(), other.deep_view().len()),
            ),
    {
        let mut findings: Vec<Finding> = Vec::new();
        let count = if self.0.len() <= other.0.len() {
            self.0.len()
        } else {
            other.0.len()
        };
        assert(findings.deep_view() =~= Seq::<FindingView>::empty());
        let mut i: usize = 0;
        while i < count
            invariant
                i <= count,
                count <= self.0.len(),
                count <= other.0.len(),
                findings.deep_view() == mismatches(
                    self.deep_view(),
                    other.deep_view(),
                    filepath@,
                    i as nat,
                ),
            decreases count - i,
        {
            let ghost before = findings.deep_view();
            if self.0[i] != other.0[i] {
                let finding = Finding {
                    file: String::from_str(filepath),
                    line: i,
                    problem: Issue::UnsortedLine {
                        have: self.0[i].clone(),
                        want: other.0[i].clone(),
                    },
                };
                findings.push(finding);
                assert(findings.deep_view() =~= before.push(finding.deep_view()));
            }
            i += 1;
        }
        findings
    }

    /// The lines as one text, each followed by a line feed.
    pub fn to_string(&self) -> (text: String)
        ensures
            text@ == join_lines(self.deep_view()),
    {
        join(&self.0)
    }
}

impl From<Vec<String>> for Lines {
    fn from(value: Vec<String>) -> (lines: Lines) {
        Lines(value)
    }
}

impl FromSpecImpl<Vec<String>> for Lines {
    open spec fn obeys_from_spec() -> bool {
        true
    }

    open spec fn from_spec(value: Vec<String>) -> Lines {
        Lines(value)
    }
}

/// What the parser is filling while it reads.
enum OpenBlock {
    Nothing,
    Text(Vec<String>),
    Steps { steps: Vec<Step>, step: Step, docstring: Option<usize> },
}

impl DeepView for OpenBlock {
    type V = Open;

    closed spec fn deep_view(&self) -> Open {
        match self {
            OpenBlock::Nothing => Open::Nothing,
            OpenBlock::Text(lines) => Open::Text(lines.deep_view()),
            OpenBlock::Steps { steps, step, docstring } => Open::Steps {
                steps: steps.deep_view(),
                step: step.deep_view(),
                docstring: *docstring,
            },
        }
    }
}

/// The step that begins at `line`.
fn start_step(line: &Line, keyword: Keyword) -> (step: Step)
    requires
        line.deep_view().wf(),
    ensures
        step.deep_view() == step_at(line.deep_view(), keyword),
{
    let step = Step {
        line_no: line.number,
        indent: String::from_str(line.indent_text()),
        keyword,
        title: String::from_str(line.title()),
        additional_lines: Vec::new(),
    };
    assert(step.additional_lines.deep_view() =~= Seq::<Seq<char>>::empty());
    step
}

/// Adds a line to a step.
fn add_line(step: Step, text: String) -> (longer: Step)
    ensures
        longer.deep_view() == with_line(step.deep_view(), text@),
{
    let mut longer = step;
    longer.additional_lines.push(text);
    assert(longer.additional_lines.deep_view() =~= step.additional_lines.deep_view().push(text@));
    longer
}

/// A list with one more element; the view of the result is the view of
/// `list` with that of `item` pushed.
fn with_step(list: Vec<Step>, item: Step) -> (longer: Vec<Step>)
    ensures
        longer.deep_view() == list.deep_view().push(item.deep_view()),
{
    let mut longer = list;
    longer.push(item);
    assert(longer.deep_view() =~= list.deep_view().push(item.deep_view()));
    longer
}

/// A list that holds one line.
fn one_line(text: String) -> (list: Vec<String>)
    ensures
        list.deep_view() == seq![text@],
{
    let mut list: Vec<String> = Vec::new();
    list.push(text);
    assert(list.deep_view() =~= seq![text@]);
    list
}

/// A list of steps that holds none.
fn no_steps() -> (list: Vec<Step>)
    ensures
        list.deep_view() == Seq::<StepView>::empty(),
{
    let list: Vec<Step> = Vec::new();
    assert(list.deep_view() =~= Seq::<StepView>::empty());
    list
}

/// A list of lines with one more line.
fn with_text(list: Vec<String>, item: String) -> (longer: Vec<String>)
    ensures
        longer.deep_view() == list.deep_view().push(item@),
{
    let mut longer = list;
    longer.push(item);
    assert(longer.deep_view() =~= list.deep_view().push(item@));
    longer
}

/// Adds a block to the blocks that are complete.
fn close_block(blocks: &mut Vec<Block>, block: Block)
    ensures
        final(blocks).deep_view() == old(blocks).deep_view().push(block.deep_view()),
{
    blocks.push(block);
    assert(blocks.deep_view() =~= old(blocks).deep_view().push(block.deep_view()));
}

/// One transition of the parser: takes `line` in state (`blocks`, `open`)
/// and gives the block that is open after it.
fn read_line(blocks: &mut Vec<Block>, open: OpenBlock, line: Line) -> (result: Result<
    OpenBlock,
    UserError,
>)
    requires
        line.line_type is StepStart && !(open.deep_view() matches Open::Steps {
            docstring: Some(_),
            ..
        }) ==> line.deep_view().wf(),
    ensures
        match result {
            Ok(next) => advance(
                ParserState { blocks: old(blocks).deep_view(), open: open.deep_view() },
                line.deep_view(),
            ) == Some(ParserState { blocks: final(blocks).deep_view(), open: next.deep_view() }),
            Err(error) => {
                &&& advance(
                    ParserState { blocks: old(blocks).deep_view(), open: open.deep_view() },
                    line.deep_view(),
                ) is None
                &&& error.deep_view() == (UserErrorView::MisplacedDocString { line: line.number })
                &&& final(blocks).deep_view() == old(blocks).deep_view()
            },
        },
{
    match open {
        OpenBlock::Nothing => match line.line_type {
            LineType::StepStart { keyword } => {
                let step = start_step(&line, keyword);
                Ok(OpenBlock::Steps { steps: no_steps(), step, docstring: None })
            },
            LineType::DocStringStartStop => Err(
                UserError::MisplacedDocString { line: line.number },
            ),
            LineType::Text => Ok(OpenBlock::Text(one_line(line.text))),
        },
        OpenBlock::Text(lines) => match line.line_type {
            LineType::StepStart { keyword } => {
                let step = start_step(&line, keyword);
                close_block(blocks, Block::Static(lines));
                Ok(OpenBlock::Steps { steps: no_steps(), step, docstring: None })
            },
            LineType::DocStringStartStop => Err(
                UserError::MisplacedDocString { line: line.number },
            ),
            LineType::Text => Ok(OpenBlock::Text(with_text(lines, line.text))),
        },
        OpenBlock::Steps { steps, step, docstring: Some(opened_at) } => {
            let closes = match line.line_type {
                LineType::DocStringStartStop => line.indent == opened_at,
                _ => false,
            };
            let docstring = if closes {
                None
            } else {
                Some(opened_at)
            };
            Ok(OpenBlock::Steps { steps, step: add_line(step, line.text), docstring })
        },
        OpenBlock::Steps { steps, step, docstring: None } => match line.line_type {
            LineType::StepStart { keyword } => {
                let next = start_step(&line, keyword);
                Ok(OpenBlock::Steps { steps: with_step(steps, step), step: next, docstring: None })
            },
            LineType::DocStringStartStop => {
                let opened_at = line.indent;
                Ok(
                    OpenBlock::Steps {
                        steps,
                        step: add_line(step, line.text),
                        docstring: Some(opened_at),
                    },
                )
            },
            LineType::Text => {
                close_block(blocks, Block::Sortable(with_step(steps, step)));
                Ok(OpenBlock::Text(one_line(line.text)))
            },
        },
    }
}

/// Parses the lines of a feature file into a document.
///
/// Fails on the first docstring delimiter that stands where no step is
/// open, with the number of that line.
pub fn file(lines: Vec<Line>) -> (result: Result<Document, UserError>)
    requires
        forall|i: int| starts_step(lines.deep_view(), i) ==> (#[trigger] lines[i]).deep_view().wf(),
    ensures
        match result {
            Ok(document) => parse(lines.deep_view()) == Ok::<Seq<BlockView>, usize>(
                document.deep_view(),
            ),
            Err(error) => parse(lines.deep_view()) matches Err(line) && error.deep_view() == (
            UserErrorView::MisplacedDocString { line }),
        },
{
    let ghost all = lines.deep_view();
    let mut blocks: Vec<Block> = Vec::new();
    let mut open = OpenBlock::Nothing;
    assert(blocks.deep_view() =~= Seq::<BlockView>::empty());
    for line in it: lines
        invariant
            it.seq().len() == all.len(),
            forall|j: int| 0 <= j < all.len() ==> it.seq()[j].deep_view() == all[j],
            forall|i: int| starts_step(all, i) ==> all[i].wf(),
            run(all, it.index() as nat) == Ok::<ParserState, int>(
                ParserState { blocks: blocks.deep_view(), open: open.deep_view() },
            ),
    {
        let ghost n = it.index() as int;
        let ghost number = line.number;
        assert(line.deep_view() == all[n]);
        assert(line.line_type is StepStart && !(open.deep_view() matches Open::Steps {
            docstring: Some(_),
            ..
        }) ==> starts_step(all, n));
        match read_line(&mut blocks, open, line) {
            Ok(next) => {
                open = next;
            },
            Err(error) => {
                proof {
                    assert(run(all, (n + 1) as nat) == Err::<ParserState, int>(n));
                    lemma_failure_stays(all, (n + 1) as nat, all.len());
                    assert(parse(all) == Err::<Seq<BlockView>, usize>(number));
                    assert(all == lines.deep_view());
                }
                return Err(error);
            },
        }
    }
    match open {
        OpenBlock::Nothing => {},
        OpenBlock::Text(lines) => close_block(&mut blocks, Block::Static(lines)),
        OpenBlock::Steps { steps, step, docstring } => close_block(
            &mut blocks,
            Block::Sortable(with_step(steps, step)),
        ),
    }
    Ok(Document { blocks })
}

/// Once a line cannot stand, the lines after it change nothing.
pub proof fn lemma_failure_stays(lines: Seq<LineView>, n: nat, m: nat)
    requires
        n <= m,
        run(lines, n) is Err,
    ensures
        run(lines, m) == run(lines, n),
    decreases m,
{
    if n < m {
        lemma_failure_stays(lines, n, (m - 1) as nat);
    }
}

} // verus!
