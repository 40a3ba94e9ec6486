//! The replace engine: substitution over the submatches of a line, the
//! operator's decisions, and the session that collects them line by line.

use crate::event::ByteRange;
use crate::group::{groups_view, FileGroup, GroupView, Line, LineView, ProtocolError};
use crate::json::same_text;
use crate::render::{
    joined, line_fault, ranges_fault, segments, segments_of, segments_view, Segment, SegmentView,
};
use vstd::prelude::*;

verus! {

/// The segments with the text of each emphasised one replaced.
pub open spec fn replaced(segments: Seq<SegmentView>, replacement: Seq<u8>) -> Seq<SegmentView> {
    segments.map_values(
        |s: SegmentView|
            if s.emphasized {
                SegmentView { text: replacement, emphasized: true }
            } else {
                s
            },
    )
}

/// The line with the replacement in place of each submatch.
pub open spec fn substituted(text: Seq<u8>, ranges: Seq<ByteRange>, replacement: Seq<u8>) -> Seq<u8> {
    joined(replaced(segments_of(text, ranges), replacement))
}

/// Appends `bytes` to `out`.
pub fn append_bytes(out: &mut Vec<u8>, bytes: &Vec<u8>)
    ensures
        final(out)@ == old(out)@ + bytes@,
{
    let mut i: usize = 0;
    assert(out@ =~= old(out)@ + bytes@.take(0));
    while i < bytes.len()
        invariant
            i <= bytes.len(),
            out@ == old(out)@ + bytes@.take(i as int),
        decreases bytes.len() - i,
    {
        out.push(bytes[i]);
        assert(out@ =~= old(out)@ + bytes@.take(i + 1));
        i += 1;
    }
    assert(bytes@.take(i as int) =~= bytes@);
}

/// Puts the replacement in place of each submatch of the line. The
/// submatches must lie within the line, in ascending order and without
/// overlap: the first that does not is the error.
pub fn apply_replacement(text: &Vec<u8>, ranges: &Vec<ByteRange>, replacement: &Vec<u8>) -> (r:
    Result<Vec<u8>, ProtocolError>)
    ensures
        match r {
            Ok(edited) => ranges_fault(ranges@, text@.len()) is None && edited@ == substituted(
                text@,
                ranges@,
                replacement@,
            ),
            Err(e) => ranges_fault(ranges@, text@.len()) == Some(e),
        },
{
    let pieces = match segments(text, ranges) {
        Ok(pieces) => pieces,
        Err(e) => {
            return Err(e);
        },
    };
    let ghost all = replaced(segments_view(pieces@), replacement@);
    let mut edited: Vec<u8> = Vec::new();
    let mut i: usize = 0;
    while i < pieces.len()
        invariant
            i <= pieces.len(),
            all == replaced(segments_view(pieces@), replacement@),
            edited@ == joined(all.take(i as int)),
        decreases pieces.len() - i,
    {
        proof {
            assert(all.take(i + 1).drop_last() =~= all.take(i as int));
        }
        if pieces[i].emphasized {
            append_bytes(&mut edited, replacement);
        } else {
            append_bytes(&mut edited, &pieces[i].text);
        }
        i += 1;
    }
    assert(all.take(i as int) =~= all);
    Ok(edited)
}

/// What was decided for one matched line. Where the operator skipped the
/// line there is no replacement text.
#[derive(Debug, Clone, PartialEq, Eq)]
pub struct EditDecision {
    pub line_number: u64,
    pub original_text: Vec<u8>,
    pub replacement_text: Option<Vec<u8>>,
    pub applied: bool,
}

/// An `EditDecision` as a mathematical value.
pub struct DecisionView {
    pub line_number: u64,
    pub original_text: Seq<u8>,
    pub replacement_text: Option<Seq<u8>>,
    pub applied: bool,
}

impl View for EditDecision {
    type V = DecisionView;

    open spec fn view(&self) -> DecisionView {
        DecisionView {
            line_number: self.line_number,
            original_text: self.original_text@,
            replacement_text: match self.replacement_text {
                Some(t) => Some(t@),
                None => None,
            },
            applied: self.applied,
        }
    }
}

/// The decisions as mathematical values.
pub open spec fn decisions_view(decisions: Seq<EditDecision>) -> Seq<DecisionView> {
    decisions.map_values(|d: EditDecision| d@)
}

/// The operator's answer for one matched line.
#[derive(Debug, Clone, Copy, PartialEq, Eq, Structural)]
pub enum Response {
    Accept,
    Skip,
    Abort,
}

/// The answer that the operator's word stands for: `y` or `yes` accepts,
/// `n` or `no` skips, `q` or `quit` aborts; any other word is no answer.
pub open spec fn answer_of(word: Seq<char>) -> Option<Response> {
    if word == "y"@ || word == "yes"@ {
        Some(Response::Accept)
    } else if word == "n"@ || word == "no"@ {
        Some(Response::Skip)
    } else if word == "q"@ || word == "quit"@ {
        Some(Response::Abort)
    } else {
        None
    }
}

/// Reads the operator's word as an answer.
pub fn read_answer(word: &str) -> (answer: Option<Response>)
    ensures
        answer == answer_of(word@),
{
    if same_text(word, "y") || same_text(word, "yes") {
        Some(Response::Accept)
    } else if same_text(word, "n") || same_text(word, "no") {
        Some(Response::Skip)
    } else if same_text(word, "q") || same_text(word, "quit") {
        Some(Response::Abort)
    } else {
        None
    }
}

/// The decision to replace the submatches of a matched line.
pub open spec fn accepted(line: LineView, replacement: Seq<u8>) -> DecisionView {
    DecisionView {
        line_number: line.line_number(),
        original_text: line.text(),
        replacement_text: Some(substituted(line.text(), line->submatches, replacement)),
        applied: true,
    }
}

/// The decision to leave a matched line as it is.
pub open spec fn skipped(line: LineView) -> DecisionView {
    DecisionView {
        line_number: line.line_number(),
        original_text: line.text(),
        replacement_text: None,
        applied: false,
    }
}

/// What the driver of a session has to do next.
#[derive(Debug, Clone, Copy, PartialEq, Eq, Structural)]
pub enum Action {
    /// Show the context line at this index, then call `displayed`.
    Display { index: usize },
    /// Show the matched line at this index, ask the operator, then call `respond`.
    Solicit { index: usize },
    /// Nothing: every line was dealt with, or the operator aborted.
    Finished,
}

/// The replay of one group: how far it has come, what was decided, and
/// whether the operator has aborted.
#[derive(Debug, Clone, PartialEq, Eq)]
pub struct Session {
    pub cursor: usize,
    pub decisions: Vec<EditDecision>,
    pub aborted: bool,
}

/// A `Session` as a mathematical value.
pub struct SessionView {
    pub cursor: nat,
    pub decisions: Seq<DecisionView>,
    pub aborted: bool,
}

impl View for Session {
    type V = SessionView;

    open spec fn view(&self) -> SessionView {
        SessionView {
            cursor: self.cursor as nat,
            decisions: decisions_view(self.decisions@),
            aborted: self.aborted,
        }
    }
}

/// The session before the first line.
pub open spec fn fresh() -> SessionView {
    SessionView { cursor: 0, decisions: Seq::empty(), aborted: false }
}

/// What is to be done next in this session.
pub open spec fn action_of(lines: Seq<LineView>, s: SessionView) -> Action {
    if s.aborted || s.cursor >= lines.len() {
        Action::Finished
    } else if lines[s.cursor as int] is Matched {
        Action::Solicit { index: s.cursor as usize }
    } else {
        Action::Display { index: s.cursor as usize }
    }
}

/// The session after its context line was shown; unchanged where no
/// context line was due.
pub open spec fn after_display(lines: Seq<LineView>, s: SessionView) -> SessionView {
    if action_of(lines, s) is Display {
        SessionView { cursor: s.cursor + 1, ..s }
    } else {
        s
    }
}

/// The session after the operator's answer for its matched line; unchanged
/// where no answer was due.
pub open spec fn after_response(
    lines: Seq<LineView>,
    replacement: Seq<u8>,
    s: SessionView,
    response: Response,
) -> Result<SessionView, ProtocolError> {
    if action_of(lines, s) is Solicit {
        let line = lines[s.cursor as int];
        match response {
            Response::Accept => match line_fault(line) {
                Some(e) => Err(e),
                None => Ok(
                    SessionView {
                        cursor: s.cursor + 1,
                        decisions: s.decisions.push(accepted(line, replacement)),
                        aborted: false,
                    },
                ),
            },
            Response::Skip => Ok(
                SessionView {
                    cursor: s.cursor + 1,
                    decisions: s.decisions.push(skipped(line)),
                    aborted: false,
                },
            ),
            Response::Abort => Ok(SessionView { aborted: true, ..s }),
        }
    } else {
        Ok(s)
    }
}

/// The lines and answers that a session can still take.
pub open spec fn remaining(lines: Seq<LineView>, s: SessionView) -> nat {
    if s.aborted || s.cursor >= lines.len() {
        0
    } else {
        (lines.len() - s.cursor + 1) as nat
    }
}

/// The session after the given answers, one for each matched line in turn.
/// It stops where the lines end, where the operator aborts, or at a matched
/// line for which no answer is left.
pub open spec fn scripted(
    lines: Seq<LineView>,
    replacement: Seq<u8>,
    s: SessionView,
    responses: Seq<Response>,
) -> Result<SessionView, ProtocolError>
    decreases remaining(lines, s),
{
    match action_of(lines, s) {
        Action::Finished => Ok(s),
        Action::Display { .. } => scripted(lines, replacement, after_display(lines, s), responses),
        Action::Solicit { .. } => if responses.len() == 0 {
            Ok(s)
        } else {
            match after_response(lines, replacement, s, responses[0]) {
                Err(e) => Err(e),
                Ok(next) => scripted(lines, replacement, next, responses.drop_first()),
            }
        },
    }
}

/// The outcome of a step of the session as a mathematical value.
pub open spec fn session_view(r: Result<Session, ProtocolError>) -> Result<
    SessionView,
    ProtocolError,
> {
    match r {
        Ok(s) => Ok(s@),
        Err(e) => Err(e),
    }
}

impl Session {
    /// The session before the first line.
    pub fn new() -> (s: Session)
        ensures
            s@ == fresh(),
    {
        let decisions: Vec<EditDecision> = Vec::new();
        assert(decisions_view(decisions@) =~= Seq::<DecisionView>::empty());
        Session { cursor: 0, decisions, aborted: false }
    }

    /// What the driver has to do next.
    pub fn action(&self, group: &FileGroup) -> (a: Action)
        ensures
            a == action_of(group@.lines, self@),
    {
        if self.aborted || self.cursor >= group.lines.len() {
            Action::Finished
        } else {
            match &group.lines[self.cursor] {
                Line::Matched { .. } => Action::Solicit { index: self.cursor },
                Line::Context { .. } => Action::Display { index: self.cursor },
            }
        }
    }

    /// Moves past the context line that was shown.
    pub fn displayed(self, group: &FileGroup) -> (next: Session)
        ensures
            next@ == after_display(group@.lines, self@),
    {
        let total = group.lines.len();
        match self.action(group) {
            Action::Display { .. } => Session {
                cursor: {
                    assert(self.cursor < total);
                    self.cursor + 1
                },
                decisions: self.decisions,
                aborted: self.aborted,
            },
            _ => self,
        }
    }

    /// Takes the operator's answer for the matched line that is due: accept
    /// records the line with its submatches replaced, skip records it
    /// unchanged, abort ends the session and keeps what was decided. The
    /// error is that of a submatch at fault in an accepted line.
    pub fn respond(self, group: &FileGroup, replacement: &Vec<u8>, response: Response) -> (r:
        Result<Session, ProtocolError>)
        ensures
            session_view(r) == after_response(group@.lines, replacement@, self@, response),
    {
        let index = match self.action(group) {
            Action::Solicit { index } => index,
            _ => {
                return Ok(self);
            },
        };
        let total = group.lines.len();
        assert(self.cursor < total);
        let Session { cursor, decisions, aborted } = self;
        let mut decisions = decisions;
        let ghost before = decisions_view(decisions@);
        match &group.lines[index] {
            Line::Matched { line_number, text, submatches, .. } => {
                let decision = match response {
                    Response::Abort => {
                        return Ok(Session { cursor, decisions, aborted: true });
                    },
                    Response::Skip => EditDecision {
                        line_number: *line_number,
                        original_text: text.clone(),
                        replacement_text: None,
                        applied: false,
                    },
                    Response::Accept => match apply_replacement(text, submatches, replacement) {
                        Err(e) => {
                            return Err(e);
                        },
                        Ok(edited) => EditDecision {
                            line_number: *line_number,
                            original_text: text.clone(),
                            replacement_text: Some(edited),
                            applied: true,
                        },
                    },
                };
                decisions.push(decision);
                assert(decisions_view(decisions@) =~= before.push(decision@));
                Ok(Session { cursor: cursor + 1, decisions, aborted: false })
            },
            Line::Context { .. } => Ok(Session { cursor, decisions, aborted }),
        }
    }
}

/// Replays a group with the given answers, one for each matched line in
/// turn, as far as they reach.
pub fn replay(group: &FileGroup, replacement: &Vec<u8>, responses: &Vec<Response>) -> (r: Result<
    Session,
    ProtocolError,
>)
    ensures
        session_view(r) == scripted(group@.lines, replacement@, fresh(), responses@),
{
    let ghost lines = group@.lines;
    let mut session = Session::new();
    let mut used: usize = 0;
    assert(responses@.skip(0) =~= responses@);
    loop
        invariant
            used <= responses.len(),
            lines == group@.lines,
            scripted(lines, replacement@, fresh(), responses@) == scripted(
                lines,
                replacement@,
                session@,
                responses@.skip(used as int),
            ),
        decreases remaining(lines, session@),
    {
        match session.action(group) {
            Action::Finished => {
                return Ok(session);
            },
            Action::Display { .. } => {
                session = session.displayed(group);
            },
            Action::Solicit { .. } => {
                if used >= responses.len() {
                    return Ok(session);
                }
                proof {
                    assert(responses@.skip(used as int)[0] == responses[used as int]);
                    assert(responses@.skip(used as int).drop_first() =~= responses@.skip(used + 1));
                }
                match session.respond(group, replacement, responses[used]) {
                    Err(e) => {
                        return Err(e);
                    },
                    Ok(next) => {
                        session = next;
                    },
                }
                used += 1;
            },
        }
    }
}

/// The decisions of a run without an operator: every matched line is
/// replaced, in order; the error is that of the first matched line with a
/// submatch at fault.
pub open spec fn batch_of(lines: Seq<LineView>, replacement: Seq<u8>) -> Result<
    Seq<DecisionView>,
    ProtocolError,
>
    decreases lines.len(),
{
    if lines.len() == 0 {
        Ok(Seq::empty())
    } else {
        match batch_of(lines.drop_last(), replacement) {
            Err(e) => Err(e),
            Ok(front) => if lines.last() is Matched {
                match line_fault(lines.last()) {
                    Some(e) => Err(e),
                    None => Ok(front.push(accepted(lines.last(), replacement))),
                }
            } else {
                Ok(front)
            },
        }
    }
}

/// An error among the first lines is the error of them all.
pub proof fn lemma_batch_error_sticks(lines: Seq<LineView>, replacement: Seq<u8>, k: int)
    requires
        0 <= k <= lines.len(),
        batch_of(lines.take(k), replacement) is Err,
    ensures
        batch_of(lines, replacement) == batch_of(lines.take(k), replacement),
    decreases lines.len() - k,
{
    if k < lines.len() {
        assert(lines.take(k + 1).drop_last() =~= lines.take(k));
        lemma_batch_error_sticks(lines, replacement, k + 1);
    } else {
        assert(lines.take(k) =~= lines);
    }
}

/// The decisions as a mathematical value, or the error.
pub open spec fn batch_view(r: Result<Vec<EditDecision>, ProtocolError>) -> Result<
    Seq<DecisionView>,
    ProtocolError,
> {
    match r {
        Ok(decisions) => Ok(decisions_view(decisions@)),
        Err(e) => Err(e),
    }
}

/// Decides a group without an operator: every matched line is replaced.
pub fn batch_decisions(group: &FileGroup, replacement: &Vec<u8>) -> (r: Result<
    Vec<EditDecision>,
    ProtocolError,
>)
    ensures
        batch_view(r) == batch_of(group@.lines, replacement@),
{
    let ghost lines = group@.lines;
    let mut decisions: Vec<EditDecision> = Vec::new();
    let mut i: usize = 0;
    assert(decisions_view(decisions@) =~= Seq::<DecisionView>::empty());
    while i < group.lines.len()
        invariant
            i <= group.lines.len(),
            lines == group@.lines,
            batch_of(lines.take(i as int), replacement@) == Ok::<Seq<DecisionView>, ProtocolError>(
                decisions_view(decisions@),
            ),
        decreases group.lines.len() - i,
    {
        proof {
            assert(lines.take(i + 1).drop_last() =~= lines.take(i as int));
            assert(lines.take(i + 1).last() == group.lines[i as int]@);
        }
        match &group.lines[i] {
            Line::Matched { line_number, text, submatches, .. } => {
                match apply_replacement(text, submatches, replacement) {
                    Err(e) => {
                        proof {
                            lemma_batch_error_sticks(lines, replacement@, i + 1);
                        }
                        return Err(e);
                    },
                    Ok(edited) => {
                        let ghost before = decisions_view(decisions@);
                        let decision = EditDecision {
                            line_number: *line_number,
                            original_text: text.clone(),
                            replacement_text: Some(edited),
                            applied: true,
                        };
                        decisions.push(decision);
                        assert(decisions_view(decisions@) =~= before.push(decision@));
                    },
                }
            },
            Line::Context { .. } => {},
        }
        i += 1;
    }
    assert(lines.take(i as int) =~= lines);
    Ok(decisions)
}

/// From a session that has replaced every matched line so far, answers of
/// accept for all that is left give the decisions of the run without an
/// operator.
pub proof fn lemma_accepting_is_batch(
    lines: Seq<LineView>,
    replacement: Seq<u8>,
    s: SessionView,
    responses: Seq<Response>,
)
    requires
        !s.aborted,
        s.cursor <= lines.len(),
        batch_of(lines.take(s.cursor as int), replacement) == Ok::<
            Seq<DecisionView>,
            ProtocolError,
        >(s.decisions),
        responses.len() >= lines.len() - s.cursor,
        forall|i: int| 0 <= i < responses.len() ==> responses[i] == Response::Accept,
    ensures
        match scripted(lines, replacement, s, responses) {
            Ok(end) => batch_of(lines, replacement) == Ok::<Seq<DecisionView>, ProtocolError>(
                end.decisions,
            ),
            Err(e) => batch_of(lines, replacement) == Err::<Seq<DecisionView>, ProtocolError>(e),
        },
    decreases lines.len() - s.cursor,
{
    if s.cursor >= lines.len() {
        assert(lines.take(s.cursor as int) =~= lines);
    } else {
        let k = s.cursor as int;
        assert(lines.take(k + 1).drop_last() =~= lines.take(k));
        assert(lines.take(k + 1).last() == lines[k]);
        if lines[k] is Matched {
            assert(responses[0] == Response::Accept);
            match after_response(lines, replacement, s, responses[0]) {
                Err(e) => {
                    lemma_batch_error_sticks(lines, replacement, k + 1);
                },
                Ok(next) => {
                    assert forall|i: int| 0 <= i < responses.drop_first().len() implies responses.drop_first()[i]
                        == Response::Accept by {
                        assert(responses.drop_first()[i] == responses[i + 1]);
                    }
                    lemma_accepting_is_batch(lines, replacement, next, responses.drop_first());
                },
            }
        } else {
            lemma_accepting_is_batch(lines, replacement, after_display(lines, s), responses);
        }
    }
}

/// The run without an operator decides what an operator would who accepts
/// every matched line.
pub proof fn law_batch_accepts_all(
    lines: Seq<LineView>,
    replacement: Seq<u8>,
    responses: Seq<Response>,
)
    requires
        responses.len() >= lines.len(),
        forall|i: int| 0 <= i < responses.len() ==> responses[i] == Response::Accept,
    ensures
        match scripted(lines, replacement, fresh(), responses) {
            Ok(end) => batch_of(lines, replacement) == Ok::<Seq<DecisionView>, ProtocolError>(
                end.decisions,
            ),
            Err(e) => batch_of(lines, replacement) == Err::<Seq<DecisionView>, ProtocolError>(e),
        },
{
    assert(lines.take(0) =~= Seq::<LineView>::empty());
    lemma_accepting_is_batch(lines, replacement, fresh(), responses);
}

/// An abort keeps what was decided and ends the session: whatever answers
/// follow it, no further line is decided.
pub proof fn law_abort_keeps_decisions(
    lines: Seq<LineView>,
    replacement: Seq<u8>,
    s: SessionView,
    later: Seq<Response>,
)
    requires
        action_of(lines, s) is Solicit,
    ensures
        scripted(lines, replacement, s, seq![Response::Abort] + later) == Ok::<
            SessionView,
            ProtocolError,
        >(SessionView { aborted: true, ..s }),
{
    let responses = seq![Response::Abort] + later;
    assert(responses[0] == Response::Abort);
    reveal_with_fuel(scripted, 2);
}

/// The decisions of each group as mathematical values.
pub open spec fn decided_view(decided: Seq<Vec<EditDecision>>) -> Seq<Seq<DecisionView>> {
    decided.map_values(|d: Vec<EditDecision>| decisions_view(d@))
}

/// The decisions of a whole run, one list for each group in the groups'
/// order, and whether the operator has aborted.
#[derive(Debug, Clone, PartialEq, Eq)]
pub struct Run {
    pub decided: Vec<Vec<EditDecision>>,
    pub aborted: bool,
}

/// A `Run` as a mathematical value.
pub struct RunView {
    pub decided: Seq<Seq<DecisionView>>,
    pub aborted: bool,
}

impl View for Run {
    type V = RunView;

    open spec fn view(&self) -> RunView {
        RunView { decided: decided_view(self.decided@), aborted: self.aborted }
    }
}

/// The run after the session of its next group. Once the operator has
/// aborted, a group has no decisions, whatever its session holds.
pub open spec fn absorbed(run: RunView, session: SessionView) -> RunView {
    if run.aborted {
        RunView { decided: run.decided.push(Seq::empty()), aborted: true }
    } else {
        RunView { decided: run.decided.push(session.decisions), aborted: session.aborted }
    }
}

impl Run {
    /// The run before its first group.
    pub fn new() -> (run: Run)
        ensures
            run@ == (RunView { decided: Seq::empty(), aborted: false }),
    {
        let decided: Vec<Vec<EditDecision>> = Vec::new();
        assert(decided_view(decided@) =~= Seq::<Seq<DecisionView>>::empty());
        Run { decided, aborted: false }
    }

    /// Whether the next group is to be replayed: not after an abort.
    pub fn is_open(&self) -> (open: bool)
        ensures
            open == !self@.aborted,
    {
        !self.aborted
    }

    /// Takes the session of the next group into the run.
    pub fn absorb(self, session: Session) -> (run: Run)
        ensures
            run@ == absorbed(self@, session@),
    {
        let Run { decided, aborted } = self;
        let mut decided = decided;
        let ghost before = decided_view(decided@);
        if aborted {
            let none: Vec<EditDecision> = Vec::new();
            assert(decisions_view(none@) =~= Seq::<DecisionView>::empty());
            decided.push(none);
            assert(decided_view(decided@) =~= before.push(Seq::empty()));
            Run { decided, aborted: true }
        } else {
            let Session { decisions, aborted: stopped, .. } = session;
            decided.push(decisions);
            assert(decided_view(decided@) =~= before.push(decisions_view(decisions@)));
            Run { decided, aborted: stopped }
        }
    }
}

/// The decisions of a run without an operator over all the groups, or the
/// error of the first group that has one.
pub open spec fn batch_run_of(groups: Seq<GroupView>, replacement: Seq<u8>) -> Result<
    Seq<Seq<DecisionView>>,
    ProtocolError,
>
    decreases groups.len(),
{
    if groups.len() == 0 {
        Ok(Seq::empty())
    } else {
        match batch_run_of(groups.drop_last(), replacement) {
            Err(e) => Err(e),
            Ok(front) => match batch_of(groups.last().lines, replacement) {
                Err(e) => Err(e),
                Ok(decisions) => Ok(front.push(decisions)),
            },
        }
    }
}

/// An error among the first groups is the error of them all.
pub proof fn lemma_batch_run_error_sticks(groups: Seq<GroupView>, replacement: Seq<u8>, k: int)
    requires
        0 <= k <= groups.len(),
        batch_run_of(groups.take(k), replacement) is Err,
    ensures
        batch_run_of(groups, replacement) == batch_run_of(groups.take(k), replacement),
    decreases groups.len() - k,
{
    if k < groups.len() {
        assert(groups.take(k + 1).drop_last() =~= groups.take(k));
        lemma_batch_run_error_sticks(groups, replacement, k + 1);
    } else {
        assert(groups.take(k) =~= groups);
    }
}

/// Decides all the groups without an operator.
pub fn batch_run(groups: &Vec<FileGroup>, replacement: &Vec<u8>) -> (r: Result<
    Vec<Vec<EditDecision>>,
    ProtocolError,
>)
    ensures
        match r {
            Ok(decided) => batch_run_of(groups_view(groups@), replacement@) == Ok::<
                Seq<Seq<DecisionView>>,
                ProtocolError,
            >(decided_view(decided@)),
            Err(e) => batch_run_of(groups_view(groups@), replacement@) == Err::<
                Seq<Seq<DecisionView>>,
                ProtocolError,
            >(e),
        },
{
    let ghost all = groups_view(groups@);
    let mut decided: Vec<Vec<EditDecision>> = Vec::new();
    let mut k: usize = 0;
    assert(decided_view(decided@) =~= Seq::<Seq<DecisionView>>::empty());
    while k < groups.len()
        invariant
            k <= groups.len(),
            all == groups_view(groups@),
            batch_run_of(all.take(k as int), replacement@) == Ok::<
                Seq<Seq<DecisionView>>,
                ProtocolError,
            >(decided_view(decided@)),
        decreases groups.len() - k,
    {
        proof {
            assert(all.take(k + 1).drop_last() =~= all.take(k as int));
            assert(all.take(k + 1).last() == groups[k as int]@);
        }
        match batch_decisions(&groups[k], replacement) {
            Err(e) => {
                proof {
                    lemma_batch_run_error_sticks(all, replacement@, k + 1);
                }
                return Err(e);
            },
            Ok(decisions) => {
                let ghost before = decided_view(decided@);
                decided.push(decisions);
                assert(decided_view(decided@) =~= before.push(decisions_view(decisions@)));
            },
        }
        k += 1;
    }
    assert(all.take(k as int) =~= all);
    Ok(decided)
}

} // verus!
