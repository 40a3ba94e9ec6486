//! Folding the event stream into one group of lines per file.

use crate::event::{line_event, parse_line, ByteRange, EventView, ParseError, SearchEvent};
use vstd::prelude::*;
use vstd::slice::slice_subrange;

verus! {

/// A line of a file that the search tool reported.
#[derive(Debug, Clone, PartialEq, Eq)]
pub enum Line {
    Matched { line_number: u64, absolute_offset: isize, text: Vec<u8>, submatches: Vec<ByteRange> },
    Context { line_number: u64, text: Vec<u8> },
}

/// A `Line` as a mathematical value.
pub enum LineView {
    Matched { line_number: u64, absolute_offset: isize, text: Seq<u8>, submatches: Seq<ByteRange> },
    Context { line_number: u64, text: Seq<u8> },
}

impl LineView {
    pub open spec fn line_number(self) -> u64 {
        match self {
            LineView::Matched { line_number, .. } => line_number,
            LineView::Context { line_number, .. } => line_number,
        }
    }

    pub open spec fn text(self) -> Seq<u8> {
        match self {
            LineView::Matched { text, .. } => text,
            LineView::Context { text, .. } => text,
        }
    }
}

impl View for Line {
    type V = LineView;

    open spec fn view(&self) -> LineView {
        match *self {
            Line::Matched { line_number, absolute_offset, text, submatches } => LineView::Matched {
                line_number,
                absolute_offset,
                text: text@,
                submatches: submatches@,
            },
            Line::Context { line_number, text } => LineView::Context { line_number, text: text@ },
        }
    }
}

impl Line {
    /// The number of the line in its file.
    pub fn line_number(&self) -> (n: u64)
        ensures
            n == self@.line_number(),
    {
        match self {
            Line::Matched { line_number, .. } => *line_number,
            Line::Context { line_number, .. } => *line_number,
        }
    }

    /// The bytes of the line.
    pub fn text(&self) -> (t: &Vec<u8>)
        ensures
            t@ == self@.text(),
    {
        match self {
            Line::Matched { text, .. } => text,
            Line::Context { text, .. } => text,
        }
    }
}

/// The lines as mathematical values.
pub open spec fn lines_view(lines: Seq<Line>) -> Seq<LineView> {
    lines.map_values(|l: Line| l@)
}

/// The reported lines of one file, in the order in which they came.
#[derive(Debug, Clone, PartialEq, Eq)]
pub struct FileGroup {
    pub path: Vec<u8>,
    pub lines: Vec<Line>,
}

/// A `FileGroup` as a mathematical value.
pub struct GroupView {
    pub path: Seq<u8>,
    pub lines: Seq<LineView>,
}

impl View for FileGroup {
    type V = GroupView;

    open spec fn view(&self) -> GroupView {
        GroupView { path: self.path@, lines: lines_view(self.lines@) }
    }
}

/// The groups as mathematical values.
pub open spec fn groups_view(groups: Seq<FileGroup>) -> Seq<GroupView> {
    groups.map_values(|g: FileGroup| g@)
}

/// The events as mathematical values.
pub open spec fn events_view(events: Seq<SearchEvent>) -> Seq<EventView> {
    events.map_values(|e: SearchEvent| e@)
}

/// A breach of the order in which events may come, or of what they may hold.
#[derive(Debug, Clone, Copy, PartialEq, Eq, Structural)]
pub enum ProtocolError {
    /// A begin while a group is open.
    NestedBegin,
    /// A match or a context line while no group is open.
    OutsideGroup,
    /// An end while no group is open.
    UnexpectedEnd,
    /// An end whose path is not that of the open group.
    MismatchedEnd,
    /// The stream ended while a group was open.
    Unterminated,
    /// Two submatches of one line overlap, or come out of order.
    OverlappingSubmatches,
    /// A submatch reaches beyond its line.
    RangeOutsideLine,
}

/// Why a stream of lines gives no groups.
#[derive(Debug, Clone, Copy, PartialEq, Eq, Structural)]
pub enum StreamError {
    Parse(ParseError),
    Protocol(ProtocolError),
}

/// The aggregator between two events: no group open, or one.
#[derive(Debug, Clone, PartialEq, Eq)]
pub enum AggregatorState {
    Idle,
    InFile { path: Vec<u8>, lines: Vec<Line> },
}

/// An `AggregatorState` as a mathematical value.
pub enum StateView {
    Idle,
    InFile { path: Seq<u8>, lines: Seq<LineView> },
}

impl View for AggregatorState {
    type V = StateView;

    open spec fn view(&self) -> StateView {
        match *self {
            AggregatorState::Idle => StateView::Idle,
            AggregatorState::InFile { path, lines } => StateView::InFile {
                path: path@,
                lines: lines_view(lines@),
            },
        }
    }
}

/// What one event leads to: the next state, and the group that the event sealed.
#[derive(Debug, Clone, PartialEq, Eq)]
pub struct Step {
    pub state: AggregatorState,
    pub emitted: Option<FileGroup>,
}

/// A `Step` as a mathematical value.
pub struct StepView {
    pub state: StateView,
    pub emitted: Option<GroupView>,
}

impl View for Step {
    type V = StepView;

    open spec fn view(&self) -> StepView {
        StepView {
            state: self.state@,
            emitted: match self.emitted {
                Some(g) => Some(g@),
                None => None,
            },
        }
    }
}

/// The line that a match or context event adds to the open group.
pub open spec fn line_of(event: EventView) -> Option<LineView> {
    match event {
        EventView::Match { line_number, absolute_offset, line_text, submatches, .. } => Some(
            LineView::Matched { line_number, absolute_offset, text: line_text, submatches },
        ),
        EventView::Context { line_number, line_text } => Some(
            LineView::Context { line_number, text: line_text },
        ),
        _ => None,
    }
}

/// The aggregator's transition.
pub open spec fn step_of(state: StateView, event: EventView) -> Result<StepView, ProtocolError> {
    match event {
        EventView::Summary => Ok(StepView { state, emitted: None }),
        EventView::Begin { path } => match state {
            StateView::Idle => Ok(
                StepView { state: StateView::InFile { path, lines: Seq::empty() }, emitted: None },
            ),
            StateView::InFile { .. } => Err(ProtocolError::NestedBegin),
        },
        EventView::End { path } => match state {
            StateView::Idle => Err(ProtocolError::UnexpectedEnd),
            StateView::InFile { path: open, lines } => if open == path {
                Ok(StepView { state: StateView::Idle, emitted: Some(GroupView { path, lines }) })
            } else {
                Err(ProtocolError::MismatchedEnd)
            },
        },
        _ => match state {
            StateView::Idle => Err(ProtocolError::OutsideGroup),
            StateView::InFile { path, lines } => Ok(
                StepView {
                    state: StateView::InFile { path, lines: lines.push(line_of(event)->0) },
                    emitted: None,
                },
            ),
        },
    }
}

/// The outcome of a step as a mathematical value.
pub open spec fn step_view(r: Result<Step, ProtocolError>) -> Result<StepView, ProtocolError> {
    match r {
        Ok(s) => Ok(s@),
        Err(e) => Err(e),
    }
}

/// Whether two byte vectors hold the same bytes.
pub fn same_bytes(a: &Vec<u8>, b: &Vec<u8>) -> (same: bool)
    ensures
        same == (a@ == b@),
{
    if a.len() != b.len() {
        return false;
    }
    let mut i: usize = 0;
    while i < a.len()
        invariant
            i <= a.len(),
            a.len() == b.len(),
            forall|j: int| 0 <= j < i ==> a[j] == b[j],
        decreases a.len() - i,
    {
        if a[i] != b[i] {
            return false;
        }
        i += 1;
    }
    assert(a@ =~= b@);
    true
}

/// Takes one event in the given state: a begin opens a group, a match or a
/// context line joins the open group, an end with the open group's path seals
/// it, a summary changes nothing. Every other combination is an error.
pub fn step(state: AggregatorState, event: SearchEvent) -> (r: Result<Step, ProtocolError>)
    ensures
        step_view(r) == step_of(state@, event@),
{
    match event {
        SearchEvent::Summary => Ok(Step { state, emitted: None }),
        SearchEvent::Begin { path } => match state {
            AggregatorState::Idle => {
                let lines: Vec<Line> = Vec::new();
                assert(lines_view(lines@) =~= Seq::<LineView>::empty());
                Ok(Step { state: AggregatorState::InFile { path, lines }, emitted: None })
            },
            AggregatorState::InFile { .. } => Err(ProtocolError::NestedBegin),
        },
        SearchEvent::End { path } => match state {
            AggregatorState::Idle => Err(ProtocolError::UnexpectedEnd),
            AggregatorState::InFile { path: open, lines } => {
                if same_bytes(&open, &path) {
                    Ok(
                        Step {
                            state: AggregatorState::Idle,
                            emitted: Some(FileGroup { path, lines }),
                        },
                    )
                } else {
                    Err(ProtocolError::MismatchedEnd)
                }
            },
        },
        SearchEvent::Match { line_number, absolute_offset, line_text, submatches, .. } => {
            match state {
                AggregatorState::Idle => Err(ProtocolError::OutsideGroup),
                AggregatorState::InFile { path, lines } => {
                    let mut lines = lines;
                    let ghost before = lines_view(lines@);
                    let line = Line::Matched {
                        line_number,
                        absolute_offset,
                        text: line_text,
                        submatches,
                    };
                    lines.push(line);
                    assert(lines_view(lines@) =~= before.push(line@));
                    Ok(Step { state: AggregatorState::InFile { path, lines }, emitted: None })
                },
            }
        },
        SearchEvent::Context { line_number, line_text } => match state {
            AggregatorState::Idle => Err(ProtocolError::OutsideGroup),
            AggregatorState::InFile { path, lines } => {
                let mut lines = lines;
                let ghost before = lines_view(lines@);
                let line = Line::Context { line_number, text: line_text };
                lines.push(line);
                assert(lines_view(lines@) =~= before.push(line@));
                Ok(Step { state: AggregatorState::InFile { path, lines }, emitted: None })
            },
        },
    }
}

/// The aggregator in the middle of a stream: its state, and the groups
/// sealed so far.
pub struct Progress {
    pub state: StateView,
    pub groups: Seq<GroupView>,
}

/// The aggregator before the first event.
pub open spec fn initial() -> Progress {
    Progress { state: StateView::Idle, groups: Seq::empty() }
}

/// One event further.
pub open spec fn advance(p: Progress, event: EventView) -> Result<Progress, ProtocolError> {
    match step_of(p.state, event) {
        Err(e) => Err(e),
        Ok(s) => Ok(
            Progress {
                state: s.state,
                groups: match s.emitted {
                    Some(g) => p.groups.push(g),
                    None => p.groups,
                },
            },
        ),
    }
}

/// All of `events` further, or the error of the first event that cannot be taken.
pub open spec fn run(start: Progress, events: Seq<EventView>) -> Result<Progress, ProtocolError>
    decreases events.len(),
{
    if events.len() == 0 {
        Ok(start)
    } else {
        match run(start, events.drop_last()) {
            Err(e) => Err(e),
            Ok(p) => advance(p, events.last()),
        }
    }
}

/// The groups at the end of the stream, which must not leave a group open.
pub open spec fn finished(p: Progress) -> Result<Seq<GroupView>, ProtocolError> {
    match p.state {
        StateView::Idle => Ok(p.groups),
        StateView::InFile { .. } => Err(ProtocolError::Unterminated),
    }
}

/// The groups of a whole stream of events.
pub open spec fn aggregated(events: Seq<EventView>) -> Result<Seq<GroupView>, ProtocolError> {
    match run(initial(), events) {
        Err(e) => Err(e),
        Ok(p) => finished(p),
    }
}

/// One line of output further.
pub open spec fn feed_line(p: Progress, line: Seq<u8>) -> Result<Progress, StreamError> {
    match line_event(line) {
        Err(e) => Err(StreamError::Parse(e)),
        Ok(event) => match advance(p, event) {
            Err(e) => Err(StreamError::Protocol(e)),
            Ok(next) => Ok(next),
        },
    }
}

/// All of `lines` further, or the error of the first line that cannot be taken.
pub open spec fn feed_lines(start: Progress, lines: Seq<Seq<u8>>) -> Result<Progress, StreamError>
    decreases lines.len(),
{
    if lines.len() == 0 {
        Ok(start)
    } else {
        match feed_lines(start, lines.drop_last()) {
            Err(e) => Err(e),
            Ok(p) => feed_line(p, lines.last()),
        }
    }
}

/// The groups of a whole stream of lines.
pub open spec fn collected(lines: Seq<Seq<u8>>) -> Result<Seq<GroupView>, StreamError> {
    match feed_lines(initial(), lines) {
        Err(e) => Err(e),
        Ok(p) => match finished(p) {
            Err(e) => Err(StreamError::Protocol(e)),
            Ok(groups) => Ok(groups),
        },
    }
}

/// The aggregator together with the groups that it has sealed: feeds on a
/// stream line by line, so that the whole output need not be held at once.
#[derive(Debug, Clone, PartialEq, Eq)]
pub struct Collector {
    pub state: AggregatorState,
    pub groups: Vec<FileGroup>,
}

impl View for Collector {
    type V = Progress;

    open spec fn view(&self) -> Progress {
        Progress { state: self.state@, groups: groups_view(self.groups@) }
    }
}

/// The outcome of taking an event as a mathematical value.
pub open spec fn accepted_view(r: Result<Collector, ProtocolError>) -> Result<
    Progress,
    ProtocolError,
> {
    match r {
        Ok(c) => Ok(c@),
        Err(e) => Err(e),
    }
}

/// The outcome of taking a line as a mathematical value.
pub open spec fn fed_view(r: Result<Collector, StreamError>) -> Result<Progress, StreamError> {
    match r {
        Ok(c) => Ok(c@),
        Err(e) => Err(e),
    }
}

/// The groups of a finished stream as a mathematical value.
pub open spec fn finished_view(r: Result<Vec<FileGroup>, ProtocolError>) -> Result<
    Seq<GroupView>,
    ProtocolError,
> {
    match r {
        Ok(groups) => Ok(groups_view(groups@)),
        Err(e) => Err(e),
    }
}

/// The groups of a stream of lines as a mathematical value.
pub open spec fn collected_view(r: Result<Vec<FileGroup>, StreamError>) -> Result<
    Seq<GroupView>,
    StreamError,
> {
    match r {
        Ok(groups) => Ok(groups_view(groups@)),
        Err(e) => Err(e),
    }
}

impl Collector {
    /// The collector before the first event.
    pub fn new() -> (c: Collector)
        ensures
            c@ == initial(),
    {
        let groups: Vec<FileGroup> = Vec::new();
        assert(groups_view(groups@) =~= Seq::<GroupView>::empty());
        Collector { state: AggregatorState::Idle, groups }
    }

    /// Takes one event.
    pub fn accept(self, event: SearchEvent) -> (r: Result<Collector, ProtocolError>)
        ensures
            accepted_view(r) == advance(self@, event@),
    {
        let Collector { state, groups } = self;
        match step(state, event) {
            Err(e) => Err(e),
            Ok(Step { state, emitted }) => {
                let mut groups = groups;
                match emitted {
                    Some(group) => {
                        let ghost before = groups_view(groups@);
                        groups.push(group);
                        assert(groups_view(groups@) =~= before.push(group@));
                    },
                    None => {},
                }
                Ok(Collector { state, groups })
            },
        }
    }

    /// Decodes one line of output and takes its event.
    pub fn feed(self, line: &[u8]) -> (r: Result<Collector, StreamError>)
        ensures
            fed_view(r) == feed_line(self@, line@),
    {
        match parse_line(line) {
            Err(e) => Err(StreamError::Parse(e)),
            Ok(event) => match self.accept(event) {
                Err(e) => Err(StreamError::Protocol(e)),
                Ok(next) => Ok(next),
            },
        }
    }

    /// Ends the stream: the sealed groups, unless a group is still open.
    pub fn finish(self) -> (r: Result<Vec<FileGroup>, ProtocolError>)
        ensures
            finished_view(r) == finished(self@),
    {
        match self.state {
            AggregatorState::Idle => Ok(self.groups),
            AggregatorState::InFile { .. } => Err(ProtocolError::Unterminated),
        }
    }
}

/// A run over `a + b` is the run over `a`, then the run over `b` from
/// where `a` ended.
pub proof fn lemma_run_concat(start: Progress, a: Seq<EventView>, b: Seq<EventView>)
    ensures
        run(start, a + b) == match run(start, a) {
            Err(e) => Err(e),
            Ok(p) => run(p, b),
        },
    decreases b.len(),
{
    if b.len() == 0 {
        assert(a + b =~= a);
    } else {
        assert((a + b).drop_last() =~= a + b.drop_last());
        assert((a + b).last() == b.last());
        lemma_run_concat(start, a, b.drop_last());
    }
}

/// Feeding `a + b` is feeding `a`, then feeding `b` from where `a` ended.
pub proof fn lemma_feed_concat(start: Progress, a: Seq<Seq<u8>>, b: Seq<Seq<u8>>)
    ensures
        feed_lines(start, a + b) == match feed_lines(start, a) {
            Err(e) => Err(e),
            Ok(p) => feed_lines(p, b),
        },
    decreases b.len(),
{
    if b.len() == 0 {
        assert(a + b =~= a);
    } else {
        assert((a + b).drop_last() =~= a + b.drop_last());
        assert((a + b).last() == b.last());
        lemma_feed_concat(start, a, b.drop_last());
    }
}

/// Folds a whole stream of events into its groups.
pub fn aggregate(events: Vec<SearchEvent>) -> (r: Result<Vec<FileGroup>, ProtocolError>)
    ensures
        finished_view(r) == aggregated(events_view(events@)),
{
    let ghost all = events_view(events@);
    let mut collector = Collector::new();
    for event in it: events
        invariant
            all == events_view(it.seq()),
            run(initial(), all.take(it.index())) == Ok::<Progress, ProtocolError>(collector@),
    {
        proof {
            let k = it.index();
            assert(all.take(k + 1).drop_last() =~= all.take(k));
            assert(all.take(k + 1).last() == event@);
            assert(all =~= all.take(k + 1) + all.skip(k + 1));
            lemma_run_concat(initial(), all.take(k + 1), all.skip(k + 1));
        }
        match collector.accept(event) {
            Err(e) => {
                return Err(e);
            },
            Ok(next) => {
                collector = next;
            },
        }
    }
    assert(all.take(all.len() as int) =~= all);
    collector.finish()
}

/// The lines of `bytes` from `start` on, where the bytes from `start` up to
/// `at` hold no line feed. A line ends before a line feed or at the end of
/// the bytes; after a last line feed no empty line follows.
pub open spec fn split_from(bytes: Seq<u8>, start: int, at: int) -> Seq<Seq<u8>>
    decreases bytes.len() - at,
{
    if start < 0 || at < start {
        Seq::empty()
    } else if at >= bytes.len() {
        if start < bytes.len() {
            seq![bytes.subrange(start, bytes.len() as int)]
        } else {
            Seq::empty()
        }
    } else if bytes[at] == 10u8 {
        seq![bytes.subrange(start, at)] + split_from(bytes, at + 1, at + 1)
    } else {
        split_from(bytes, start, at + 1)
    }
}

/// The lines of the output, without their line feeds.
pub open spec fn lines_of(bytes: Seq<u8>) -> Seq<Seq<u8>> {
    split_from(bytes, 0, 0)
}

/// The groups of the search tool's whole output.
pub open spec fn output_groups(bytes: Seq<u8>) -> Result<Seq<GroupView>, StreamError> {
    collected(lines_of(bytes))
}

/// Decodes the search tool's whole output, line by line, into its groups.
/// The first line that is no event, or whose event cannot be taken, or a
/// group left open at the end, is the error.
pub fn decode_output(output: &[u8]) -> (r: Result<Vec<FileGroup>, StreamError>)
    ensures
        collected_view(r) == output_groups(output@),
{
    let ghost bytes = output@;
    let ghost mut done: Seq<Seq<u8>> = Seq::empty();
    let mut collector = Collector::new();
    let mut start: usize = 0;
    let mut at: usize = 0;
    assert(done + split_from(bytes, 0, 0) =~= lines_of(bytes));
    while at < output.len()
        invariant
            bytes == output@,
            start <= at <= output.len(),
            lines_of(bytes) == done + split_from(bytes, start as int, at as int),
            feed_lines(initial(), done) == Ok::<Progress, StreamError>(collector@),
        decreases output.len() - at,
    {
        if output[at] == 10u8 {
            let line = slice_subrange(output, start, at);
            let ghost rest = split_from(bytes, at + 1, at + 1);
            proof {
                assert(done.push(line@).drop_last() =~= done);
                assert(done + (seq![line@] + rest) =~= done.push(line@) + rest);
                lemma_feed_concat(initial(), done.push(line@), rest);
            }
            match collector.feed(line) {
                Err(e) => {
                    return Err(e);
                },
                Ok(next) => {
                    collector = next;
                },
            }
            proof {
                done = done.push(line@);
            }
            start = at + 1;
        }
        at += 1;
    }
    if start < output.len() {
        let line = slice_subrange(output, start, output.len());
        proof {
            assert(done.push(line@).drop_last() =~= done);
            assert(done + seq![line@] =~= done.push(line@));
        }
        match collector.feed(line) {
            Err(e) => {
                return Err(e);
            },
            Ok(next) => {
                collector = next;
            },
        }
    } else {
        assert(done + Seq::<Seq<u8>>::empty() =~= done);
    }
    match collector.finish() {
        Err(e) => Err(StreamError::Protocol(e)),
        Ok(groups) => Ok(groups),
    }
}

/// Whether the event may come between a begin and its end.
pub open spec fn inside_group(event: EventView) -> bool {
    event is Match || event is Context || event is Summary
}

/// The lines that the match and context events among `body` add, in order.
pub open spec fn payload_lines(body: Seq<EventView>) -> Seq<LineView>
    decreases body.len(),
{
    if body.len() == 0 {
        Seq::empty()
    } else {
        match line_of(body.last()) {
            Some(line) => payload_lines(body.drop_last()).push(line),
            None => payload_lines(body.drop_last()),
        }
    }
}

/// The number of end events.
pub open spec fn count_ends(events: Seq<EventView>) -> nat
    decreases events.len(),
{
    if events.len() == 0 {
        0
    } else if events.last() is End {
        count_ends(events.drop_last()) + 1
    } else {
        count_ends(events.drop_last())
    }
}

/// The number of begin events.
pub open spec fn count_begins(events: Seq<EventView>) -> nat
    decreases events.len(),
{
    if events.len() == 0 {
        0
    } else if events.last() is Begin {
        count_begins(events.drop_last()) + 1
    } else {
        count_begins(events.drop_last())
    }
}

/// The events without the summaries.
pub open spec fn without_summaries(events: Seq<EventView>) -> Seq<EventView>
    decreases events.len(),
{
    if events.len() == 0 {
        Seq::empty()
    } else if events.last() is Summary {
        without_summaries(events.drop_last())
    } else {
        without_summaries(events.drop_last()).push(events.last())
    }
}

/// Inside an open group, match, context and summary events only add their
/// lines to it.
pub proof fn lemma_run_inside(p: Progress, body: Seq<EventView>)
    requires
        p.state is InFile,
        forall|i: int| 0 <= i < body.len() ==> inside_group(#[trigger] body[i]),
    ensures
        run(p, body) == Ok::<Progress, ProtocolError>(
            Progress {
                state: StateView::InFile {
                    path: p.state->path,
                    lines: p.state->lines + payload_lines(body),
                },
                groups: p.groups,
            },
        ),
    decreases body.len(),
{
    if body.len() == 0 {
        assert(p.state->lines + payload_lines(body) =~= p.state->lines);
    } else {
        let front = body.drop_last();
        assert forall|i: int| 0 <= i < front.len() implies inside_group(#[trigger] front[i]) by {
            assert(front[i] == body[i]);
        }
        lemma_run_inside(p, front);
        assert(inside_group(body[body.len() - 1]));
        match line_of(body.last()) {
            Some(line) => {
                assert((p.state->lines + payload_lines(front)).push(line) =~= p.state->lines
                    + payload_lines(front).push(line));
            },
            None => {},
        }
    }
}

/// Each begin with its end gives exactly one group: it holds the lines of
/// the match and context events between the two, in their order, and it
/// follows the groups sealed before. The stream goes on after the end as it
/// would after the groups alone.
pub proof fn law_one_group_per_pair(
    before: Seq<EventView>,
    path: Seq<u8>,
    body: Seq<EventView>,
    after: Seq<EventView>,
)
    requires
        run(initial(), before) matches Ok(p) && p.state is Idle,
        forall|i: int| 0 <= i < body.len() ==> inside_group(#[trigger] body[i]),
    ensures
        run(
            initial(),
            before + seq![EventView::Begin { path }] + body + seq![EventView::End { path }] + after,
        ) == run(
            Progress {
                state: StateView::Idle,
                groups: run(initial(), before)->Ok_0.groups.push(
                    GroupView { path, lines: payload_lines(body) },
                ),
            },
            after,
        ),
{
    let p = run(initial(), before)->Ok_0;
    let begin = seq![EventView::Begin { path }];
    let end = seq![EventView::End { path }];
    let opened = Progress {
        state: StateView::InFile { path, lines: Seq::empty() },
        groups: p.groups,
    };
    assert(run(p, begin) == Ok::<Progress, ProtocolError>(opened)) by {
        assert(begin.drop_last() =~= Seq::<EventView>::empty());
        reveal_with_fuel(run, 2);
    }
    lemma_run_concat(initial(), before, begin);
    lemma_run_inside(opened, body);
    lemma_run_concat(initial(), before + begin, body);
    let filled = Progress {
        state: StateView::InFile { path, lines: Seq::empty() + payload_lines(body) },
        groups: p.groups,
    };
    assert(Seq::<LineView>::empty() + payload_lines(body) =~= payload_lines(body));
    assert(run(filled, end) == Ok::<Progress, ProtocolError>(
        Progress {
            state: StateView::Idle,
            groups: p.groups.push(GroupView { path, lines: payload_lines(body) }),
        },
    )) by {
        assert(end.drop_last() =~= Seq::<EventView>::empty());
        reveal_with_fuel(run, 2);
    }
    lemma_run_concat(initial(), before + begin + body, end);
    lemma_run_concat(initial(), before + begin + body + end, after);
}

/// The lines of a group come in the order of their events: where the line
/// numbers of the events between a begin and its end ascend, so do those of
/// the group's lines.
pub proof fn law_lines_keep_order(body: Seq<EventView>)
    requires
        forall|a: int, b: int|
            0 <= a < b < body.len() && line_of(#[trigger] body[a]) is Some && line_of(
                #[trigger] body[b],
            ) is Some ==> line_of(body[a])->0.line_number() < line_of(body[b])->0.line_number(),
    ensures
        forall|a: int, b: int|
            0 <= a < b < payload_lines(body).len() ==> (#[trigger] payload_lines(
                body,
            )[a]).line_number() < (#[trigger] payload_lines(body)[b]).line_number(),
        forall|a: int|
            0 <= a < payload_lines(body).len() ==> exists|w: int|
                0 <= w < body.len() && line_of(#[trigger] body[w]) == Some(
                    #[trigger] payload_lines(body)[a],
                ),
    decreases body.len(),
{
    if body.len() > 0 {
        let front = body.drop_last();
        assert forall|a: int, b: int|
            0 <= a < b < front.len() && line_of(#[trigger] front[a]) is Some && line_of(
                #[trigger] front[b],
            ) is Some implies line_of(front[a])->0.line_number() < line_of(
            front[b],
        )->0.line_number() by {
            assert(front[a] == body[a] && front[b] == body[b]);
        }
        law_lines_keep_order(front);
        let lines = payload_lines(body);
        assert forall|a: int| 0 <= a < lines.len() implies exists|w: int|
            0 <= w < body.len() && line_of(#[trigger] body[w]) == Some(#[trigger] lines[a]) by {
            if a < payload_lines(front).len() {
                let w = choose|w: int|
                    0 <= w < front.len() && line_of(#[trigger] front[w]) == Some(
                        payload_lines(front)[a],
                    );
                assert(body[w] == front[w]);
                assert(lines[a] == payload_lines(front)[a]);
            } else {
                assert(line_of(body[body.len() - 1]) == Some(lines[a]));
            }
        }
        assert forall|a: int, b: int| 0 <= a < b < lines.len() implies (
        #[trigger] lines[a]).line_number() < (#[trigger] lines[b]).line_number() by {
            if b >= payload_lines(front).len() {
                let w = choose|w: int|
                    0 <= w < front.len() && line_of(#[trigger] front[w]) == Some(
                        payload_lines(front)[a],
                    );
                assert(body[w] == front[w]);
                assert(lines[a] == payload_lines(front)[a]);
                assert(line_of(body[body.len() - 1]) == Some(lines[b]));
            } else {
                assert(lines[a] == payload_lines(front)[a]);
                assert(lines[b] == payload_lines(front)[b]);
            }
        }
    }
}

/// A stream that the aggregator takes seals one group for each end, and has
/// as many begins as ends, but for the begin of a group still open.
pub proof fn law_groups_counted(events: Seq<EventView>)
    requires
        run(initial(), events) is Ok,
    ensures
        run(initial(), events)->Ok_0.groups.len() == count_ends(events),
        count_begins(events) == count_ends(events) + (if run(initial(), events)->Ok_0.state
            is InFile {
            1nat
        } else {
            0nat
        }),
    decreases events.len(),
{
    if events.len() > 0 {
        law_groups_counted(events.drop_last());
    }
}

/// A stream that ends while a group is open gives an error, not groups.
pub proof fn law_open_group_fails(events: Seq<EventView>)
    requires
        run(initial(), events) matches Ok(p) && p.state is InFile,
    ensures
        aggregated(events) == Err::<Seq<GroupView>, ProtocolError>(ProtocolError::Unterminated),
{
}

/// Summaries leave no trace: the stream without them gives the same state
/// and the same groups, line for line.
pub proof fn law_summaries_ignored(start: Progress, events: Seq<EventView>)
    ensures
        run(start, events) == run(start, without_summaries(events)),
    decreases events.len(),
{
    if events.len() > 0 {
        law_summaries_ignored(start, events.drop_last());
        if !(events.last() is Summary) {
            let kept = without_summaries(events.drop_last());
            assert(kept.push(events.last()).drop_last() =~= kept);
        }
    }
}

} // verus!
