//! The unified-diff renderer: from a group and the decisions on its lines to
//! hunks, and from hunks to the text of a diff.

use crate::group::{groups_view, same_bytes, FileGroup, GroupView, Line, LineView};
use crate::render::{decimal, decimal_digits};
use crate::replace::{append_bytes, decided_view, decisions_view, DecisionView, EditDecision};
use vstd::prelude::*;

verus! {

/// A run of lines of a file: the number of its first line, and how many lines.
#[derive(Debug, Clone, Copy, PartialEq, Eq, Structural)]
pub struct LineRange {
    pub start: u64,
    pub count: usize,
}

/// A line of a hunk, with its number in the file.
#[derive(Debug, Clone, PartialEq, Eq)]
pub struct DiffLine {
    pub line_number: u64,
    pub text: Vec<u8>,
}

/// A `DiffLine` as a mathematical value.
pub struct DiffLineView {
    pub line_number: u64,
    pub text: Seq<u8>,
}

impl View for DiffLine {
    type V = DiffLineView;

    open spec fn view(&self) -> DiffLineView {
        DiffLineView { line_number: self.line_number, text: self.text@ }
    }
}

/// The lines of a hunk as mathematical values.
pub open spec fn diff_lines_view(lines: Seq<DiffLine>) -> Seq<DiffLineView> {
    lines.map_values(|l: DiffLine| l@)
}

/// One run of changed lines of a file with the unchanged lines around it.
/// A replacement stands on the line that it replaces, so the old and the new
/// range are the same, and the added lines pair off with the removed ones.
#[derive(Debug, Clone, PartialEq, Eq)]
pub struct DiffHunk {
    pub file_path: Vec<u8>,
    pub old_range: LineRange,
    pub new_range: LineRange,
    pub context_before: Vec<DiffLine>,
    pub removed_lines: Vec<DiffLine>,
    pub added_lines: Vec<DiffLine>,
    pub context_after: Vec<DiffLine>,
}

/// A `DiffHunk` as a mathematical value.
pub struct HunkView {
    pub file_path: Seq<u8>,
    pub old_range: LineRange,
    pub new_range: LineRange,
    pub context_before: Seq<DiffLineView>,
    pub removed_lines: Seq<DiffLineView>,
    pub added_lines: Seq<DiffLineView>,
    pub context_after: Seq<DiffLineView>,
}

impl View for DiffHunk {
    type V = HunkView;

    open spec fn view(&self) -> HunkView {
        HunkView {
            file_path: self.file_path@,
            old_range: self.old_range,
            new_range: self.new_range,
            context_before: diff_lines_view(self.context_before@),
            removed_lines: diff_lines_view(self.removed_lines@),
            added_lines: diff_lines_view(self.added_lines@),
            context_after: diff_lines_view(self.context_after@),
        }
    }
}

/// The hunks as mathematical values.
pub open spec fn hunks_view(hunks: Seq<DiffHunk>) -> Seq<HunkView> {
    hunks.map_values(|h: DiffHunk| h@)
}

/// The replacement text of the first decision at or after `from` that was
/// applied to the line numbered `n`.
pub open spec fn replacement_from(decisions: Seq<DecisionView>, n: u64, from: int) -> Option<
    Seq<u8>,
>
    decreases decisions.len() - from,
{
    if from < 0 || from >= decisions.len() {
        None
    } else if decisions[from].line_number == n && decisions[from].applied
        && decisions[from].replacement_text is Some {
        decisions[from].replacement_text
    } else {
        replacement_from(decisions, n, from + 1)
    }
}

/// The replacement text that the decisions hold for the line numbered `n`.
pub open spec fn replacement_for(decisions: Seq<DecisionView>, n: u64) -> Option<Seq<u8>> {
    replacement_from(decisions, n, 0)
}

/// The text of the line after the decisions: its replacement where one was
/// applied, else the line's own text.
pub open spec fn edited_text(line: LineView, decisions: Seq<DecisionView>) -> Seq<u8> {
    match replacement_for(decisions, line.line_number()) {
        Some(text) => text,
        None => line.text(),
    }
}

/// The texts of the lines after the decisions.
pub open spec fn edited(lines: Seq<LineView>, decisions: Seq<DecisionView>) -> Seq<Seq<u8>> {
    Seq::new(lines.len(), |i: int| edited_text(lines[i], decisions))
}

/// Whether the decisions give the line another text than it has.
pub open spec fn changed(line: LineView, decisions: Seq<DecisionView>) -> bool {
    edited_text(line, decisions) != line.text()
}

/// Whether the line at `i` is, by its number, the line after the one at `i - 1`.
pub open spec fn follows(lines: Seq<LineView>, i: int) -> bool {
    0 < i < lines.len() && lines[i].line_number() == lines[i - 1].line_number() + 1
}

/// Where the run of changed lines ends that reaches up to `j`: the first
/// index from `j` on whose line is unchanged or does not follow the line
/// before it, or the number of lines.
pub open spec fn run_end(lines: Seq<LineView>, decisions: Seq<DecisionView>, j: int) -> int
    decreases lines.len() - j,
{
    if 0 <= j < lines.len() && changed(lines[j], decisions) && follows(lines, j) {
        run_end(lines, decisions, j + 1)
    } else {
        j
    }
}

/// Where the context after a run that ends at `j` ends, given that it reaches
/// up to `e`: it takes at most `context` unchanged lines, each following the
/// line before it.
pub open spec fn context_end(
    lines: Seq<LineView>,
    decisions: Seq<DecisionView>,
    context: nat,
    j: int,
    e: int,
) -> int
    decreases lines.len() - e,
{
    if 0 <= e < lines.len() && e - j < context && !changed(lines[e], decisions) && follows(
        lines,
        e,
    ) {
        context_end(lines, decisions, context, j, e + 1)
    } else {
        e
    }
}

/// Where the context before a run that starts at `i` starts, given that it
/// reaches back to `b`: it takes at most `context` lines, each followed by
/// the next, and none before `floor`.
pub open spec fn context_start(lines: Seq<LineView>, context: nat, floor: int, i: int, b: int) -> int
    decreases b,
{
    if b > floor && b > 0 && i - b < context && follows(lines, b) {
        context_start(lines, context, floor, i, b - 1)
    } else {
        b
    }
}

/// The lines with their numbers and texts.
pub open spec fn numbered(lines: Seq<LineView>) -> Seq<DiffLineView> {
    lines.map_values(|l: LineView| DiffLineView { line_number: l.line_number(), text: l.text() })
}

/// The lines with their numbers and their texts after the decisions.
pub open spec fn renewed(lines: Seq<LineView>, decisions: Seq<DecisionView>) -> Seq<DiffLineView> {
    lines.map_values(
        |l: LineView| DiffLineView { line_number: l.line_number(), text: edited_text(l, decisions) },
    )
}

/// The hunk of the run `[i, j)` with the context `[b, i)` before it and
/// `[j, e)` after it.
pub open spec fn hunk_at(
    lines: Seq<LineView>,
    decisions: Seq<DecisionView>,
    path: Seq<u8>,
    b: int,
    i: int,
    j: int,
    e: int,
) -> HunkView {
    let range = LineRange { start: lines[b].line_number(), count: (e - b) as usize };
    HunkView {
        file_path: path,
        old_range: range,
        new_range: range,
        context_before: numbered(lines.subrange(b, i)),
        removed_lines: numbered(lines.subrange(i, j)),
        added_lines: renewed(lines.subrange(i, j), decisions),
        context_after: numbered(lines.subrange(j, e)),
    }
}

/// A run and the context after it end no earlier than they start.
pub proof fn lemma_ends_bounded(
    lines: Seq<LineView>,
    decisions: Seq<DecisionView>,
    context: nat,
    j: int,
    e: int,
)
    requires
        0 <= j <= e <= lines.len(),
    ensures
        j <= run_end(lines, decisions, j) <= lines.len(),
        e <= context_end(lines, decisions, context, j, e) <= lines.len(),
        context_end(lines, decisions, context, j, e) - j <= context || context_end(
            lines,
            decisions,
            context,
            j,
            e,
        ) == e,
    decreases lines.len() - j, lines.len() - e,
{
    if j < lines.len() && changed(lines[j], decisions) && follows(lines, j) {
        lemma_ends_bounded(lines, decisions, context, j + 1, lines.len() as int);
    }
    if e < lines.len() && e - j < context && !changed(lines[e], decisions) && follows(lines, e) {
        lemma_ends_bounded(lines, decisions, context, j, e + 1);
    }
}

/// The context before a run starts no later than the run, and not before `floor`.
pub proof fn lemma_start_bounded(lines: Seq<LineView>, context: nat, floor: int, i: int, b: int)
    requires
        0 <= floor <= b <= i,
    ensures
        floor <= context_start(lines, context, floor, i, b) <= b,
        i - context_start(lines, context, floor, i, b) <= context || context_start(
            lines,
            context,
            floor,
            i,
            b,
        ) == b,
    decreases b,
{
    if b > floor && b > 0 && i - b < context && follows(lines, b) {
        lemma_start_bounded(lines, context, floor, i, b - 1);
    }
}

/// The hunks of the lines from `at` on, where the lines from `floor` up to
/// `at` are unchanged and belong to no hunk yet. Each run of changed lines
/// that follow one another gives one hunk.
pub open spec fn hunks_from(
    lines: Seq<LineView>,
    decisions: Seq<DecisionView>,
    path: Seq<u8>,
    context: nat,
    floor: int,
    at: int,
) -> Seq<HunkView>
    decreases lines.len() - at,
{
    if floor < 0 || at < floor || at >= lines.len() {
        Seq::empty()
    } else if !changed(lines[at], decisions) {
        hunks_from(lines, decisions, path, context, floor, at + 1)
    } else {
        let b = context_start(lines, context, floor, at, at);
        let j = run_end(lines, decisions, at + 1);
        let e = context_end(lines, decisions, context, j, j);
        proof {
            lemma_ends_bounded(lines, decisions, context, at + 1, lines.len() as int);
            lemma_ends_bounded(lines, decisions, context, j, j);
        }
        seq![hunk_at(lines, decisions, path, b, at, j, e)] + hunks_from(
            lines,
            decisions,
            path,
            context,
            e,
            e,
        )
    }
}

/// The hunks of a group under the decisions, with up to `context` unchanged
/// lines around each run of changed lines.
pub open spec fn hunks_of(
    lines: Seq<LineView>,
    decisions: Seq<DecisionView>,
    path: Seq<u8>,
    context: nat,
) -> Seq<HunkView> {
    hunks_from(lines, decisions, path, context, 0, 0)
}

/// Finds the replacement that the decisions hold for a line number.
pub fn find_replacement<'a>(decisions: &'a Vec<EditDecision>, line_number: u64) -> (found: Option<
    &'a Vec<u8>,
>)
    ensures
        match found {
            Some(text) => replacement_for(decisions_view(decisions@), line_number) == Some(text@),
            None => replacement_for(decisions_view(decisions@), line_number) is None,
        },
{
    let mut k: usize = 0;
    while k < decisions.len()
        invariant
            k <= decisions.len(),
            replacement_for(decisions_view(decisions@), line_number) == replacement_from(
                decisions_view(decisions@),
                line_number,
                k as int,
            ),
        decreases decisions.len() - k,
    {
        let decision = &decisions[k];
        assert(decisions_view(decisions@)[k as int] == decision@);
        if decision.line_number == line_number && decision.applied {
            match &decision.replacement_text {
                Some(text) => {
                    return Some(text);
                },
                None => {},
            }
        }
        k += 1;
    }
    None
}

/// Whether the decisions give the line another text than it has.
pub fn is_changed(line: &Line, decisions: &Vec<EditDecision>) -> (b: bool)
    ensures
        b == changed(line@, decisions_view(decisions@)),
{
    match find_replacement(decisions, line.line_number()) {
        Some(text) => !same_bytes(text, line.text()),
        None => false,
    }
}

/// Whether the line at `i` is, by its number, the line after the one before it.
pub fn is_following(group: &FileGroup, i: usize) -> (b: bool)
    ensures
        b == follows(group@.lines, i as int),
{
    if i == 0 || i >= group.lines.len() {
        return false;
    }
    let before = group.lines[i - 1].line_number();
    let here = group.lines[i].line_number();
    before < u64::MAX && here == before + 1
}

/// Copies the lines `[from, to)` with their numbers, each with its own text
/// or, where `renew` is set, with its text after the decisions.
pub(crate) fn copy_lines(
    group: &FileGroup,
    decisions: &Vec<EditDecision>,
    from: usize,
    to: usize,
    renew: bool,
) -> (copied: Vec<DiffLine>)
    requires
        from <= to <= group.lines.len(),
    ensures
        diff_lines_view(copied@) == if renew {
            renewed(group@.lines.subrange(from as int, to as int), decisions_view(decisions@))
        } else {
            numbered(group@.lines.subrange(from as int, to as int))
        },
{
    let ghost lines = group@.lines;
    let ghost all = if renew {
        renewed(lines.subrange(from as int, to as int), decisions_view(decisions@))
    } else {
        numbered(lines.subrange(from as int, to as int))
    };
    let mut copied: Vec<DiffLine> = Vec::new();
    let mut k: usize = from;
    assert(diff_lines_view(copied@) =~= all.take(0));
    while k < to
        invariant
            from <= k <= to <= group.lines.len(),
            lines == group@.lines,
            all == if renew {
                renewed(lines.subrange(from as int, to as int), decisions_view(decisions@))
            } else {
                numbered(lines.subrange(from as int, to as int))
            },
            diff_lines_view(copied@) == all.take(k - from),
        decreases to - k,
    {
        let line = &group.lines[k];
        let ghost before = diff_lines_view(copied@);
        assert(lines.subrange(from as int, to as int)[k - from] == line@);
        let text = if renew {
            match find_replacement(decisions, line.line_number()) {
                Some(text) => text.clone(),
                None => line.text().clone(),
            }
        } else {
            line.text().clone()
        };
        let entry = DiffLine { line_number: line.line_number(), text };
        copied.push(entry);
        assert(diff_lines_view(copied@) =~= before.push(entry@));
        assert(all.take(k + 1 - from) =~= all.take(k - from).push(entry@));
        k += 1;
    }
    assert(all.take(to - from) =~= all);
    copied
}

/// Builds the hunks of a group under the decisions on its lines: one for
/// each run of changed lines that follow one another, with up to `context`
/// unchanged lines before and after it that no earlier hunk holds.
pub fn diff_hunks(group: &FileGroup, decisions: &Vec<EditDecision>, context: usize) -> (hunks: Vec<
    DiffHunk,
>)
    ensures
        hunks_view(hunks@) == hunks_of(
            group@.lines,
            decisions_view(decisions@),
            group@.path,
            context as nat,
        ),
{
    let ghost lines = group@.lines;
    let ghost decided = decisions_view(decisions@);
    let ghost path = group@.path;
    let total = group.lines.len();
    let mut hunks: Vec<DiffHunk> = Vec::new();
    let mut floor: usize = 0;
    let mut at: usize = 0;
    assert(hunks_view(hunks@) + hunks_from(lines, decided, path, context as nat, 0, 0) =~= hunks_of(
        lines,
        decided,
        path,
        context as nat,
    ));
    while at < total
        invariant
            floor <= at <= total,
            total == group.lines.len(),
            lines == group@.lines,
            decided == decisions_view(decisions@),
            path == group@.path,
            hunks_of(lines, decided, path, context as nat) == hunks_view(hunks@) + hunks_from(
                lines,
                decided,
                path,
                context as nat,
                floor as int,
                at as int,
            ),
        decreases total - at,
    {
        assert(lines[at as int] == group.lines[at as int]@);
        if !is_changed(&group.lines[at], decisions) {
            at += 1;
        } else {
            let mut b: usize = at;
            while b > floor && at - b < context && is_following(group, b)
                invariant
                    floor <= b <= at < total,
                    lines == group@.lines,
                    context_start(lines, context as nat, floor as int, at as int, at as int)
                        == context_start(lines, context as nat, floor as int, at as int, b as int),
                decreases b,
            {
                b -= 1;
            }
            let mut j: usize = at + 1;
            while j < total && is_changed(&group.lines[j], decisions) && is_following(group, j)
                invariant
                    at < j <= total,
                    total == group.lines.len(),
                    lines == group@.lines,
                    decided == decisions_view(decisions@),
                    run_end(lines, decided, at + 1) == run_end(lines, decided, j as int),
                decreases total - j,
            {
                assert(lines[j as int] == group.lines[j as int]@);
                j += 1;
            }
            assert(j < total ==> lines[j as int] == group.lines[j as int]@);
            let mut e: usize = j;
            while e < total && e - j < context && !is_changed(&group.lines[e], decisions)
                && is_following(group, e)
                invariant
                    j <= e <= total,
                    total == group.lines.len(),
                    lines == group@.lines,
                    decided == decisions_view(decisions@),
                    context_end(lines, decided, context as nat, j as int, j as int) == context_end(
                        lines,
                        decided,
                        context as nat,
                        j as int,
                        e as int,
                    ),
                decreases total - e,
            {
                assert(lines[e as int] == group.lines[e as int]@);
                e += 1;
            }
            assert(e < total ==> lines[e as int] == group.lines[e as int]@);
            let range = LineRange { start: group.lines[b].line_number(), count: e - b };
            let hunk = DiffHunk {
                file_path: group.path.clone(),
                old_range: range,
                new_range: range,
                context_before: copy_lines(group, decisions, b, at, false),
                removed_lines: copy_lines(group, decisions, at, j, false),
                added_lines: copy_lines(group, decisions, at, j, true),
                context_after: copy_lines(group, decisions, j, e, false),
            };
            let ghost before = hunks_view(hunks@);
            let ghost rest = hunks_from(lines, decided, path, context as nat, e as int, e as int);
            hunks.push(hunk);
            proof {
                assert(lines[b as int] == group.lines[b as int]@);
                assert(hunk@ == hunk_at(
                    lines,
                    decided,
                    path,
                    b as int,
                    at as int,
                    j as int,
                    e as int,
                ));
                assert(hunks_view(hunks@) =~= before.push(hunk@));
                assert(before + (seq![hunk@] + rest) =~= before.push(hunk@) + rest);
            }
            floor = e;
            at = e;
        }
    }
    assert(hunks_view(hunks@) + Seq::<HunkView>::empty() =~= hunks_view(hunks@));
    hunks
}

/// The added text that pairs off with the first removed line numbered `n`
/// at or after `from` in the hunk.
pub open spec fn added_in(hunk: HunkView, n: u64, from: int) -> Option<Seq<u8>>
    decreases hunk.removed_lines.len() - from,
{
    if from < 0 || from >= hunk.removed_lines.len() || from >= hunk.added_lines.len() {
        None
    } else if hunk.removed_lines[from].line_number == n {
        Some(hunk.added_lines[from].text)
    } else {
        added_in(hunk, n, from + 1)
    }
}

/// The text that the hunks put in place of the line numbered `n`: that of
/// the first hunk that removes such a line.
pub open spec fn added_for(hunks: Seq<HunkView>, n: u64) -> Option<Seq<u8>>
    decreases hunks.len(),
{
    if hunks.len() == 0 {
        None
    } else if added_in(hunks[0], n, 0) is Some {
        added_in(hunks[0], n, 0)
    } else {
        added_for(hunks.drop_first(), n)
    }
}

/// The text of the line after the hunks are applied.
pub open spec fn patched_text(line: LineView, hunks: Seq<HunkView>) -> Seq<u8> {
    match added_for(hunks, line.line_number()) {
        Some(text) => text,
        None => line.text(),
    }
}

/// The texts of the lines after the hunks are applied: each removed line
/// gives way to the added line that pairs off with it.
pub open spec fn patched(lines: Seq<LineView>, hunks: Seq<HunkView>) -> Seq<Seq<u8>> {
    Seq::new(lines.len(), |i: int| patched_text(lines[i], hunks))
}

/// Each added line of the hunk holds the replacement that the decisions
/// give for the removed line that it pairs off with.
pub open spec fn hunk_sound(hunk: HunkView, decisions: Seq<DecisionView>) -> bool {
    &&& hunk.added_lines.len() == hunk.removed_lines.len()
    &&& forall|k: int|
        0 <= k < hunk.removed_lines.len() ==> replacement_for(
            decisions,
            (#[trigger] hunk.removed_lines[k]).line_number,
        ) == Some(hunk.added_lines[k].text)
}

/// Every line of a run is changed and follows the line before it.
pub proof fn lemma_run_changed(lines: Seq<LineView>, decisions: Seq<DecisionView>, j: int)
    requires
        0 <= j <= lines.len(),
    ensures
        forall|k: int|
            j <= k < run_end(lines, decisions, j) ==> changed(#[trigger] lines[k], decisions)
                && follows(lines, k),
    decreases lines.len() - j,
{
    if j < lines.len() && changed(lines[j], decisions) && follows(lines, j) {
        lemma_run_changed(lines, decisions, j + 1);
    }
}

/// Every line of the context after a run is unchanged and follows the line
/// before it.
pub proof fn lemma_context_unchanged(
    lines: Seq<LineView>,
    decisions: Seq<DecisionView>,
    context: nat,
    j: int,
    e: int,
)
    requires
        0 <= j <= e <= lines.len(),
    ensures
        forall|k: int|
            e <= k < context_end(lines, decisions, context, j, e) ==> !changed(
                #[trigger] lines[k],
                decisions,
            ) && follows(lines, k),
    decreases lines.len() - e,
{
    if e < lines.len() && e - j < context && !changed(lines[e], decisions) && follows(lines, e) {
        lemma_context_unchanged(lines, decisions, context, j, e + 1);
    }
}

/// Every line of the context before a run follows the line before it, but
/// for the first.
pub proof fn lemma_context_chained(lines: Seq<LineView>, context: nat, floor: int, i: int, b: int)
    requires
        0 <= floor <= b <= i,
    ensures
        forall|k: int|
            context_start(lines, context, floor, i, b) < k <= b ==> #[trigger] follows(lines, k),
    decreases b,
{
    if b > floor && b > 0 && i - b < context && follows(lines, b) {
        lemma_context_chained(lines, context, floor, i, b - 1);
    }
}

/// The hunk of a run of changed lines is sound.
pub proof fn lemma_hunk_at_sound(
    lines: Seq<LineView>,
    decisions: Seq<DecisionView>,
    path: Seq<u8>,
    b: int,
    i: int,
    j: int,
    e: int,
)
    requires
        0 <= i <= j <= lines.len(),
        forall|k: int| i <= k < j ==> changed(#[trigger] lines[k], decisions),
    ensures
        hunk_sound(hunk_at(lines, decisions, path, b, i, j, e), decisions),
{
    let hunk = hunk_at(lines, decisions, path, b, i, j, e);
    assert forall|k: int| 0 <= k < hunk.removed_lines.len() implies replacement_for(
        decisions,
        (#[trigger] hunk.removed_lines[k]).line_number,
    ) == Some(hunk.added_lines[k].text) by {
        assert(lines.subrange(i, j)[k] == lines[i + k]);
        assert(changed(lines[i + k], decisions));
    }
}

/// Every hunk of a group is sound.
pub proof fn lemma_hunks_sound(
    lines: Seq<LineView>,
    decisions: Seq<DecisionView>,
    path: Seq<u8>,
    context: nat,
    floor: int,
    at: int,
)
    ensures
        forall|m: int|
            0 <= m < hunks_from(lines, decisions, path, context, floor, at).len() ==> hunk_sound(
                #[trigger] hunks_from(lines, decisions, path, context, floor, at)[m],
                decisions,
            ),
    decreases lines.len() - at,
{
    let all = hunks_from(lines, decisions, path, context, floor, at);
    if floor < 0 || at < floor || at >= lines.len() {
        assert(all.len() == 0);
    } else if !changed(lines[at], decisions) {
        lemma_hunks_sound(lines, decisions, path, context, floor, at + 1);
        assert(all == hunks_from(lines, decisions, path, context, floor, at + 1));
    } else {
        let b = context_start(lines, context, floor, at, at);
        let j = run_end(lines, decisions, at + 1);
        let e = context_end(lines, decisions, context, j, j);
        lemma_ends_bounded(lines, decisions, context, at + 1, lines.len() as int);
        lemma_ends_bounded(lines, decisions, context, j, j);
        lemma_run_changed(lines, decisions, at + 1);
        lemma_hunk_at_sound(lines, decisions, path, b, at, j, e);
        lemma_hunks_sound(lines, decisions, path, context, e, e);
        let hunk = hunk_at(lines, decisions, path, b, at, j, e);
        let rest = hunks_from(lines, decisions, path, context, e, e);
        assert(all =~= seq![hunk] + rest);
        assert forall|m: int| 0 <= m < all.len() implies hunk_sound(#[trigger] all[m], decisions) by {
            if m > 0 {
                assert(all[m] == rest[m - 1]);
            }
        }
    }
}

/// A hunk that removes a line numbered `n` adds a text for it.
pub proof fn lemma_added_in_found(hunk: HunkView, n: u64, from: int, k: int)
    requires
        hunk.added_lines.len() == hunk.removed_lines.len(),
        0 <= from <= k < hunk.removed_lines.len(),
        hunk.removed_lines[k].line_number == n,
    ensures
        added_in(hunk, n, from) is Some,
    decreases k - from,
{
    if hunk.removed_lines[from].line_number != n {
        lemma_added_in_found(hunk, n, from + 1, k);
    }
}

/// What a sound hunk adds for a line number is the replacement that the
/// decisions give for it.
pub proof fn lemma_added_in_sound(hunk: HunkView, decisions: Seq<DecisionView>, n: u64, from: int)
    requires
        hunk_sound(hunk, decisions),
        0 <= from,
    ensures
        added_in(hunk, n, from) is Some ==> added_in(hunk, n, from) == replacement_for(decisions, n),
    decreases hunk.removed_lines.len() - from,
{
    if from < hunk.removed_lines.len() && from < hunk.added_lines.len() {
        if hunk.removed_lines[from].line_number != n {
            lemma_added_in_sound(hunk, decisions, n, from + 1);
        }
    }
}

/// What sound hunks put in place of a line is the replacement that the
/// decisions give for it.
pub proof fn lemma_added_for_sound(hunks: Seq<HunkView>, decisions: Seq<DecisionView>, n: u64)
    requires
        forall|m: int| 0 <= m < hunks.len() ==> hunk_sound(#[trigger] hunks[m], decisions),
    ensures
        added_for(hunks, n) is Some ==> added_for(hunks, n) == replacement_for(decisions, n),
    decreases hunks.len(),
{
    if hunks.len() > 0 {
        lemma_added_in_sound(hunks[0], decisions, n, 0);
        assert forall|m: int| 0 <= m < hunks.drop_first().len() implies hunk_sound(
            #[trigger] hunks.drop_first()[m],
            decisions,
        ) by {
            assert(hunks.drop_first()[m] == hunks[m + 1]);
        }
        lemma_added_for_sound(hunks.drop_first(), decisions, n);
    }
}

/// The hunks put a text in place of every changed line.
pub proof fn lemma_hunks_complete(
    lines: Seq<LineView>,
    decisions: Seq<DecisionView>,
    path: Seq<u8>,
    context: nat,
    floor: int,
    at: int,
)
    requires
        0 <= floor <= at,
    ensures
        forall|idx: int|
            at <= idx < lines.len() && changed(#[trigger] lines[idx], decisions) ==> added_for(
                hunks_from(lines, decisions, path, context, floor, at),
                lines[idx].line_number(),
            ) is Some,
    decreases lines.len() - at,
{
    if at >= lines.len() {
    } else if !changed(lines[at], decisions) {
        lemma_hunks_complete(lines, decisions, path, context, floor, at + 1);
    } else {
        let b = context_start(lines, context, floor, at, at);
        let j = run_end(lines, decisions, at + 1);
        let e = context_end(lines, decisions, context, j, j);
        lemma_ends_bounded(lines, decisions, context, at + 1, lines.len() as int);
        lemma_ends_bounded(lines, decisions, context, j, j);
        lemma_run_changed(lines, decisions, at + 1);
        lemma_context_unchanged(lines, decisions, context, j, j);
        lemma_hunks_complete(lines, decisions, path, context, e, e);
        let hunk = hunk_at(lines, decisions, path, b, at, j, e);
        let rest = hunks_from(lines, decisions, path, context, e, e);
        let all = hunks_from(lines, decisions, path, context, floor, at);
        assert(all =~= seq![hunk] + rest);
        assert(all.drop_first() =~= rest);
        assert(all[0] == hunk);
        assert forall|idx: int|
            at <= idx < lines.len() && changed(#[trigger] lines[idx], decisions) implies added_for(
            all,
            lines[idx].line_number(),
        ) is Some by {
            if idx < j {
                assert(lines.subrange(at, j)[idx - at] == lines[idx]);
                lemma_added_in_found(hunk, lines[idx].line_number(), 0, idx - at);
            } else {
                assert(idx >= e);
            }
        }
    }
}

/// Applying the hunks of a group to its lines gives, line for line, the
/// texts that the decisions stand for.
pub proof fn law_hunks_round_trip(
    lines: Seq<LineView>,
    decisions: Seq<DecisionView>,
    path: Seq<u8>,
    context: nat,
)
    ensures
        patched(lines, hunks_of(lines, decisions, path, context)) == edited(lines, decisions),
{
    let hunks = hunks_of(lines, decisions, path, context);
    lemma_hunks_sound(lines, decisions, path, context, 0, 0);
    lemma_hunks_complete(lines, decisions, path, context, 0, 0);
    assert forall|i: int| 0 <= i < lines.len() implies patched_text(lines[i], hunks) == edited_text(
        lines[i],
        decisions,
    ) by {
        lemma_added_for_sound(hunks, decisions, lines[i].line_number());
        if added_for(hunks, lines[i].line_number()) is None {
            assert(!changed(lines[i], decisions));
        }
    }
    assert(patched(lines, hunks) =~= edited(lines, decisions));
}

/// The texts as mathematical values.
pub open spec fn texts_view(texts: Seq<Vec<u8>>) -> Seq<Seq<u8>> {
    texts.map_values(|t: Vec<u8>| t@)
}

/// Looks up the text that a hunk puts in place of the line numbered `n`.
pub fn find_added_in<'a>(hunk: &'a DiffHunk, n: u64) -> (found: Option<&'a Vec<u8>>)
    ensures
        match found {
            Some(text) => added_in(hunk@, n, 0) == Some(text@),
            None => added_in(hunk@, n, 0) is None,
        },
{
    let mut k: usize = 0;
    while k < hunk.removed_lines.len() && k < hunk.added_lines.len()
        invariant
            added_in(hunk@, n, 0) == added_in(hunk@, n, k as int),
        decreases hunk.removed_lines.len() - k,
    {
        assert(hunk@.removed_lines[k as int] == hunk.removed_lines[k as int]@);
        assert(hunk@.added_lines[k as int] == hunk.added_lines[k as int]@);
        if hunk.removed_lines[k].line_number == n {
            return Some(&hunk.added_lines[k].text);
        }
        k += 1;
    }
    None
}

/// Looks up the text that the hunks put in place of the line numbered `n`.
pub fn find_added<'a>(hunks: &'a Vec<DiffHunk>, n: u64) -> (found: Option<&'a Vec<u8>>)
    ensures
        match found {
            Some(text) => added_for(hunks_view(hunks@), n) == Some(text@),
            None => added_for(hunks_view(hunks@), n) is None,
        },
{
    let ghost all = hunks_view(hunks@);
    let mut m: usize = 0;
    assert(all.skip(0) =~= all);
    while m < hunks.len()
        invariant
            m <= hunks.len(),
            all == hunks_view(hunks@),
            added_for(all, n) == added_for(all.skip(m as int), n),
        decreases hunks.len() - m,
    {
        proof {
            assert(all.skip(m as int)[0] == hunks[m as int]@);
            assert(all.skip(m as int).drop_first() =~= all.skip(m + 1));
        }
        match find_added_in(&hunks[m], n) {
            Some(text) => {
                return Some(text);
            },
            None => {},
        }
        m += 1;
    }
    None
}

/// Applies hunks to the lines of a group: each line that a hunk removes
/// gives way to the added line that pairs off with it.
pub fn patch_lines(group: &FileGroup, hunks: &Vec<DiffHunk>) -> (texts: Vec<Vec<u8>>)
    ensures
        texts_view(texts@) == patched(group@.lines, hunks_view(hunks@)),
{
    let ghost wanted = patched(group@.lines, hunks_view(hunks@));
    let mut texts: Vec<Vec<u8>> = Vec::new();
    let mut i: usize = 0;
    assert(texts_view(texts@) =~= wanted.take(0));
    while i < group.lines.len()
        invariant
            i <= group.lines.len(),
            wanted == patched(group@.lines, hunks_view(hunks@)),
            texts_view(texts@) == wanted.take(i as int),
        decreases group.lines.len() - i,
    {
        let line = &group.lines[i];
        assert(group@.lines[i as int] == line@);
        let text = match find_added(hunks, line.line_number()) {
            Some(text) => text.clone(),
            None => line.text().clone(),
        };
        let ghost before = texts_view(texts@);
        texts.push(text);
        assert(texts_view(texts@) =~= before.push(text@));
        assert(wanted.take(i + 1) =~= wanted.take(i as int).push(text@));
        i += 1;
    }
    assert(wanted.take(i as int) =~= wanted);
    texts
}

/// The texts of the lines of a group after the decisions.
pub fn edit_lines(group: &FileGroup, decisions: &Vec<EditDecision>) -> (texts: Vec<Vec<u8>>)
    ensures
        texts_view(texts@) == edited(group@.lines, decisions_view(decisions@)),
{
    let ghost wanted = edited(group@.lines, decisions_view(decisions@));
    let mut texts: Vec<Vec<u8>> = Vec::new();
    let mut i: usize = 0;
    assert(texts_view(texts@) =~= wanted.take(0));
    while i < group.lines.len()
        invariant
            i <= group.lines.len(),
            wanted == edited(group@.lines, decisions_view(decisions@)),
            texts_view(texts@) == wanted.take(i as int),
        decreases group.lines.len() - i,
    {
        let line = &group.lines[i];
        assert(group@.lines[i as int] == line@);
        let text = match find_replacement(decisions, line.line_number()) {
            Some(text) => text.clone(),
            None => line.text().clone(),
        };
        let ghost before = texts_view(texts@);
        texts.push(text);
        assert(texts_view(texts@) =~= before.push(text@));
        assert(wanted.take(i + 1) =~= wanted.take(i as int).push(text@));
        i += 1;
    }
    assert(wanted.take(i as int) =~= wanted);
    texts
}

/// The lines of a whole file after the decisions, where the line at index
/// `k` has the number `k + 1`.
pub open spec fn file_edited(lines: Seq<Seq<u8>>, decisions: Seq<DecisionView>) -> Seq<Seq<u8>> {
    Seq::new(
        lines.len(),
        |k: int|
            if k + 1 <= u64::MAX {
                match replacement_for(decisions, (k + 1) as u64) {
                    Some(text) => text,
                    None => lines[k],
                }
            } else {
                lines[k]
            },
    )
}

/// Applies the decisions to the lines of a whole file, numbered from 1.
pub fn apply_decisions(lines: &Vec<Vec<u8>>, decisions: &Vec<EditDecision>) -> (texts: Vec<Vec<u8>>)
    ensures
        texts_view(texts@) == file_edited(texts_view(lines@), decisions_view(decisions@)),
{
    let ghost wanted = file_edited(texts_view(lines@), decisions_view(decisions@));
    let mut texts: Vec<Vec<u8>> = Vec::new();
    let mut k: usize = 0;
    assert(texts_view(texts@) =~= wanted.take(0));
    while k < lines.len()
        invariant
            k <= lines.len(),
            wanted == file_edited(texts_view(lines@), decisions_view(decisions@)),
            texts_view(texts@) == wanted.take(k as int),
        decreases lines.len() - k,
    {
        assert(texts_view(lines@)[k as int] == lines[k as int]@);
        let replacement = if (k as u64) < u64::MAX {
            find_replacement(decisions, k as u64 + 1)
        } else {
            None
        };
        let text = match replacement {
            Some(text) => text.clone(),
            None => lines[k].clone(),
        };
        let ghost before = texts_view(texts@);
        texts.push(text);
        assert(texts_view(texts@) =~= before.push(text@));
        assert(wanted.take(k + 1) =~= wanted.take(k as int).push(text@));
        k += 1;
    }
    assert(wanted.take(k as int) =~= wanted);
    texts
}

/// One line of a diff: the mark, the text, and a line feed where the text
/// does not end in one.
pub open spec fn marked_line(mark: u8, text: Seq<u8>) -> Seq<u8> {
    if text.len() > 0 && text.last() == 10u8 {
        seq![mark] + text
    } else {
        seq![mark] + text + seq![10u8]
    }
}

/// The lines, each with the mark before it.
pub open spec fn marked_lines(mark: u8, lines: Seq<DiffLineView>) -> Seq<u8>
    decreases lines.len(),
{
    if lines.len() == 0 {
        Seq::empty()
    } else {
        marked_lines(mark, lines.drop_last()) + marked_line(mark, lines.last().text)
    }
}

/// A range as `start,count` in decimal.
pub open spec fn range_text(range: LineRange) -> Seq<u8> {
    decimal(range.start as nat) + seq![44u8] + decimal(range.count as nat)
}

/// The line that opens a hunk: `@@ -start,count +start,count @@`.
pub open spec fn hunk_header(hunk: HunkView) -> Seq<u8> {
    seq![64u8, 64u8, 32u8, 45u8] + range_text(hunk.old_range) + seq![32u8, 43u8] + range_text(
        hunk.new_range,
    ) + seq![32u8, 64u8, 64u8, 10u8]
}

/// A hunk in unified format: its header, the context before the run with a
/// space before each line, the removed lines with `-`, the added lines with
/// `+`, and the context after the run.
pub open spec fn hunk_text(hunk: HunkView) -> Seq<u8> {
    hunk_header(hunk) + marked_lines(32u8, hunk.context_before) + marked_lines(
        45u8,
        hunk.removed_lines,
    ) + marked_lines(43u8, hunk.added_lines) + marked_lines(32u8, hunk.context_after)
}

/// The hunks in unified format, one after the other.
pub open spec fn hunks_text(hunks: Seq<HunkView>) -> Seq<u8>
    decreases hunks.len(),
{
    if hunks.len() == 0 {
        Seq::empty()
    } else {
        hunks_text(hunks.drop_last()) + hunk_text(hunks.last())
    }
}

/// The two lines that open the diff of a file: `--- path` and `+++ path`.
pub open spec fn file_header(path: Seq<u8>) -> Seq<u8> {
    seq![45u8, 45u8, 45u8, 32u8] + path + seq![10u8, 43u8, 43u8, 43u8, 32u8] + path + seq![10u8]
}

/// The diff of one file: nothing where there is no hunk, else the file's
/// header and its hunks.
pub open spec fn diff_text(path: Seq<u8>, hunks: Seq<HunkView>) -> Seq<u8> {
    if hunks.len() == 0 {
        Seq::empty()
    } else {
        file_header(path) + hunks_text(hunks)
    }
}

/// Appends the lines, each with the mark before it.
pub fn write_marked(out: &mut Vec<u8>, mark: u8, lines: &Vec<DiffLine>)
    ensures
        final(out)@ == old(out)@ + marked_lines(mark, diff_lines_view(lines@)),
{
    let ghost all = diff_lines_view(lines@);
    let mut k: usize = 0;
    assert(out@ =~= old(out)@ + marked_lines(mark, all.take(0)));
    while k < lines.len()
        invariant
            k <= lines.len(),
            all == diff_lines_view(lines@),
            out@ == old(out)@ + marked_lines(mark, all.take(k as int)),
        decreases lines.len() - k,
    {
        let ghost before = out@;
        let text = &lines[k].text;
        proof {
            assert(all.take(k + 1).drop_last() =~= all.take(k as int));
            assert(all.take(k + 1).last().text == text@);
        }
        out.push(mark);
        append_bytes(out, text);
        if text.len() == 0 || text[text.len() - 1] != 10u8 {
            out.push(10u8);
        }
        assert(out@ =~= before + marked_line(mark, text@));
        assert(old(out)@ + marked_lines(mark, all.take(k as int)) + marked_line(mark, text@)
            =~= old(out)@ + (marked_lines(mark, all.take(k as int)) + marked_line(mark, text@)));
        k += 1;
    }
    assert(all.take(k as int) =~= all);
}

/// Appends a range as `start,count`.
pub fn write_range(out: &mut Vec<u8>, range: LineRange)
    ensures
        final(out)@ == old(out)@ + range_text(range),
{
    let start = decimal_digits(range.start);
    let count = decimal_digits(range.count as u64);
    append_bytes(out, &start);
    out.push(44u8);
    append_bytes(out, &count);
    assert(out@ =~= old(out)@ + range_text(range));
}

/// Appends a hunk in unified format.
pub fn write_hunk(out: &mut Vec<u8>, hunk: &DiffHunk)
    ensures
        final(out)@ == old(out)@ + hunk_text(hunk@),
{
    out.push(64u8);
    out.push(64u8);
    out.push(32u8);
    out.push(45u8);
    write_range(out, hunk.old_range);
    out.push(32u8);
    out.push(43u8);
    write_range(out, hunk.new_range);
    out.push(32u8);
    out.push(64u8);
    out.push(64u8);
    out.push(10u8);
    assert(out@ =~= old(out)@ + hunk_header(hunk@));
    write_marked(out, 32u8, &hunk.context_before);
    write_marked(out, 45u8, &hunk.removed_lines);
    write_marked(out, 43u8, &hunk.added_lines);
    write_marked(out, 32u8, &hunk.context_after);
    assert(out@ =~= old(out)@ + hunk_text(hunk@));
}

/// Writes the diff of one file in unified format: the file's header and its
/// hunks in their order, or nothing where there is no hunk.
pub fn render_diff(path: &Vec<u8>, hunks: &Vec<DiffHunk>) -> (text: Vec<u8>)
    ensures
        text@ == diff_text(path@, hunks_view(hunks@)),
{
    let ghost all = hunks_view(hunks@);
    let mut text: Vec<u8> = Vec::new();
    if hunks.len() == 0 {
        return text;
    }
    text.push(45u8);
    text.push(45u8);
    text.push(45u8);
    text.push(32u8);
    append_bytes(&mut text, path);
    text.push(10u8);
    text.push(43u8);
    text.push(43u8);
    text.push(43u8);
    text.push(32u8);
    append_bytes(&mut text, path);
    text.push(10u8);
    assert(text@ =~= file_header(path@) + hunks_text(all.take(0)));
    let mut m: usize = 0;
    while m < hunks.len()
        invariant
            m <= hunks.len(),
            all == hunks_view(hunks@),
            text@ == file_header(path@) + hunks_text(all.take(m as int)),
        decreases hunks.len() - m,
    {
        proof {
            assert(all.take(m + 1).drop_last() =~= all.take(m as int));
            assert(all.take(m + 1).last() == hunks[m as int]@);
        }
        let ghost before = text@;
        write_hunk(&mut text, &hunks[m]);
        assert(file_header(path@) + hunks_text(all.take(m as int)) + hunk_text(hunks[m as int]@)
            =~= file_header(path@) + (hunks_text(all.take(m as int)) + hunk_text(
            hunks[m as int]@,
        )));
        m += 1;
    }
    assert(all.take(m as int) =~= all);
    text
}

/// The indices that bound a hunk among the lines: the context before it is
/// `[b, i)`, its run `[i, j)`, the context after it `[j, e)`.
pub struct Span {
    pub b: int,
    pub i: int,
    pub j: int,
    pub e: int,
}

/// The spans of the hunks of the lines from `at` on.
pub open spec fn spans_from(
    lines: Seq<LineView>,
    decisions: Seq<DecisionView>,
    context: nat,
    floor: int,
    at: int,
) -> Seq<Span>
    decreases lines.len() - at,
{
    if floor < 0 || at < floor || at >= lines.len() {
        Seq::empty()
    } else if !changed(lines[at], decisions) {
        spans_from(lines, decisions, context, floor, at + 1)
    } else {
        let b = context_start(lines, context, floor, at, at);
        let j = run_end(lines, decisions, at + 1);
        let e = context_end(lines, decisions, context, j, j);
        proof {
            lemma_ends_bounded(lines, decisions, context, at + 1, lines.len() as int);
            lemma_ends_bounded(lines, decisions, context, j, j);
        }
        seq![Span { b, i: at, j, e }] + spans_from(lines, decisions, context, e, e)
    }
}

/// Each hunk is the hunk of its span.
pub proof fn lemma_hunks_are_spans(
    lines: Seq<LineView>,
    decisions: Seq<DecisionView>,
    path: Seq<u8>,
    context: nat,
    floor: int,
    at: int,
)
    ensures
        hunks_from(lines, decisions, path, context, floor, at).len() == spans_from(
            lines,
            decisions,
            context,
            floor,
            at,
        ).len(),
        forall|m: int|
            0 <= m < spans_from(lines, decisions, context, floor, at).len() ==> (
            #[trigger] hunks_from(lines, decisions, path, context, floor, at)[m]) == hunk_at(
                lines,
                decisions,
                path,
                spans_from(lines, decisions, context, floor, at)[m].b,
                spans_from(lines, decisions, context, floor, at)[m].i,
                spans_from(lines, decisions, context, floor, at)[m].j,
                spans_from(lines, decisions, context, floor, at)[m].e,
            ),
    decreases lines.len() - at,
{
    let hunks = hunks_from(lines, decisions, path, context, floor, at);
    let spans = spans_from(lines, decisions, context, floor, at);
    if floor < 0 || at < floor || at >= lines.len() {
        assert(hunks.len() == 0 && spans.len() == 0);
    } else if !changed(lines[at], decisions) {
        lemma_hunks_are_spans(lines, decisions, path, context, floor, at + 1);
        assert(hunks == hunks_from(lines, decisions, path, context, floor, at + 1));
        assert(spans == spans_from(lines, decisions, context, floor, at + 1));
    } else {
        let b = context_start(lines, context, floor, at, at);
        let j = run_end(lines, decisions, at + 1);
        let e = context_end(lines, decisions, context, j, j);
        lemma_ends_bounded(lines, decisions, context, at + 1, lines.len() as int);
        lemma_ends_bounded(lines, decisions, context, j, j);
        lemma_hunks_are_spans(lines, decisions, path, context, e, e);
        let rest_hunks = hunks_from(lines, decisions, path, context, e, e);
        let rest_spans = spans_from(lines, decisions, context, e, e);
        assert(hunks =~= seq![hunk_at(lines, decisions, path, b, at, j, e)] + rest_hunks);
        assert(spans =~= seq![Span { b, i: at, j, e }] + rest_spans);
        assert forall|m: int| 0 <= m < spans.len() implies (#[trigger] hunks[m]) == hunk_at(
            lines,
            decisions,
            path,
            spans[m].b,
            spans[m].i,
            spans[m].j,
            spans[m].e,
        ) by {
            if m > 0 {
                assert(hunks[m] == rest_hunks[m - 1]);
                assert(spans[m] == rest_spans[m - 1]);
            }
        }
    }
}

/// The span lies among the lines from `floor` on: its run is not empty and
/// changed throughout, its contexts are unchanged and no longer than
/// `context`, and each of its lines but the first follows the line before it.
pub open spec fn span_fits(
    lines: Seq<LineView>,
    decisions: Seq<DecisionView>,
    context: nat,
    floor: int,
    s: Span,
) -> bool {
    &&& floor <= s.b <= s.i < s.j <= s.e <= lines.len()
    &&& s.i - s.b <= context
    &&& s.e - s.j <= context
    &&& forall|k: int| s.b < k < s.e ==> #[trigger] follows(lines, k)
    &&& forall|k: int| s.i <= k < s.j ==> changed(#[trigger] lines[k], decisions)
    &&& forall|k: int| s.j <= k < s.e ==> !changed(#[trigger] lines[k], decisions)
}

/// Every span fits, and each starts where the one before it has ended, or later.
pub proof fn lemma_spans_fit(
    lines: Seq<LineView>,
    decisions: Seq<DecisionView>,
    context: nat,
    floor: int,
    at: int,
)
    requires
        0 <= floor <= at,
    ensures
        forall|m: int|
            0 <= m < spans_from(lines, decisions, context, floor, at).len() ==> span_fits(
                lines,
                decisions,
                context,
                floor,
                #[trigger] spans_from(lines, decisions, context, floor, at)[m],
            ),
        forall|m: int|
            0 <= m && m + 1 < spans_from(lines, decisions, context, floor, at).len() ==> (
            #[trigger] spans_from(lines, decisions, context, floor, at)[m]).e <= spans_from(
                lines,
                decisions,
                context,
                floor,
                at,
            )[m + 1].b,
    decreases lines.len() - at,
{
    let spans = spans_from(lines, decisions, context, floor, at);
    if at >= lines.len() {
        assert(spans.len() == 0);
    } else if !changed(lines[at], decisions) {
        lemma_spans_fit(lines, decisions, context, floor, at + 1);
        assert(spans == spans_from(lines, decisions, context, floor, at + 1));
    } else {
        let b = context_start(lines, context, floor, at, at);
        let j = run_end(lines, decisions, at + 1);
        let e = context_end(lines, decisions, context, j, j);
        lemma_ends_bounded(lines, decisions, context, at + 1, lines.len() as int);
        lemma_ends_bounded(lines, decisions, context, j, j);
        lemma_start_bounded(lines, context, floor, at, at);
        lemma_context_chained(lines, context, floor, at, at);
        lemma_run_changed(lines, decisions, at + 1);
        lemma_context_unchanged(lines, decisions, context, j, j);
        lemma_spans_fit(lines, decisions, context, e, e);
        let first = Span { b, i: at, j, e };
        let rest = spans_from(lines, decisions, context, e, e);
        assert(spans =~= seq![first] + rest);
        assert(span_fits(lines, decisions, context, floor, first));
        assert forall|m: int| 0 <= m < spans.len() implies span_fits(
            lines,
            decisions,
            context,
            floor,
            #[trigger] spans[m],
        ) by {
            if m > 0 {
                assert(spans[m] == rest[m - 1]);
                assert(span_fits(lines, decisions, context, e, rest[m - 1]));
            }
        }
        assert forall|m: int| 0 <= m && m + 1 < spans.len() implies (#[trigger] spans[m]).e
            <= spans[m + 1].b by {
            assert(spans[m + 1] == rest[m]);
            assert(span_fits(lines, decisions, context, e, rest[m]));
            if m > 0 {
                assert(spans[m] == rest[m - 1]);
            }
        }
    }
}

/// Lines that follow one another are numbered one after the other.
pub proof fn lemma_chain_numbers(lines: Seq<LineView>, b: int, k: int)
    requires
        0 <= b <= k < lines.len(),
        forall|x: int| b < x <= k ==> #[trigger] follows(lines, x),
    ensures
        lines[k].line_number() == lines[b].line_number() + (k - b),
    decreases k - b,
{
    if b < k {
        assert(follows(lines, k));
        lemma_chain_numbers(lines, b, k - 1);
    }
}

/// The lines of a hunk in the order of the file: the context before the
/// run, the removed lines, the context after the run.
pub open spec fn old_side(hunk: HunkView) -> Seq<DiffLineView> {
    hunk.context_before + hunk.removed_lines + hunk.context_after
}

/// What holds of every hunk of a file with the given path: it removes at
/// least one line and adds one line for each, under the same number and with
/// another text; it has no more than `context` lines of context on either
/// side; its ranges count its lines, and its lines are numbered one after the
/// other from the start of its range.
pub open spec fn hunk_well_formed(hunk: HunkView, path: Seq<u8>, context: nat) -> bool {
    &&& hunk.file_path == path
    &&& hunk.removed_lines.len() >= 1
    &&& hunk.added_lines.len() == hunk.removed_lines.len()
    &&& hunk.context_before.len() <= context
    &&& hunk.context_after.len() <= context
    &&& hunk.old_range.count == old_side(hunk).len()
    &&& hunk.new_range == hunk.old_range
    &&& forall|k: int|
        0 <= k < old_side(hunk).len() ==> (#[trigger] old_side(hunk)[k]).line_number
            == hunk.old_range.start + k
    &&& forall|k: int|
        0 <= k < hunk.removed_lines.len() ==> (#[trigger] hunk.added_lines[k]).line_number
            == hunk.removed_lines[k].line_number && hunk.added_lines[k].text
            != hunk.removed_lines[k].text
}

/// The hunk of a span that fits is well formed.
pub proof fn lemma_span_hunk_well_formed(
    lines: Seq<LineView>,
    decisions: Seq<DecisionView>,
    path: Seq<u8>,
    context: nat,
    floor: int,
    s: Span,
)
    requires
        0 <= floor,
        lines.len() <= usize::MAX,
        span_fits(lines, decisions, context, floor, s),
    ensures
        hunk_well_formed(hunk_at(lines, decisions, path, s.b, s.i, s.j, s.e), path, context),
{
    let hunk = hunk_at(lines, decisions, path, s.b, s.i, s.j, s.e);
    assert(old_side(hunk).len() == s.e - s.b);
    assert forall|k: int| 0 <= k < old_side(hunk).len() implies (#[trigger] old_side(
        hunk,
    )[k]).line_number == hunk.old_range.start + k by {
        assert forall|x: int| s.b < x <= s.b + k implies #[trigger] follows(lines, x) by {}
        lemma_chain_numbers(lines, s.b, s.b + k);
        if k < s.i - s.b {
            assert(old_side(hunk)[k] == numbered(lines.subrange(s.b, s.i))[k]);
            assert(lines.subrange(s.b, s.i)[k] == lines[s.b + k]);
        } else if k < s.j - s.b {
            assert(old_side(hunk)[k] == numbered(lines.subrange(s.i, s.j))[k - (s.i - s.b)]);
            assert(lines.subrange(s.i, s.j)[k - (s.i - s.b)] == lines[s.b + k]);
        } else {
            assert(old_side(hunk)[k] == numbered(lines.subrange(s.j, s.e))[k - (s.j - s.b)]);
            assert(lines.subrange(s.j, s.e)[k - (s.j - s.b)] == lines[s.b + k]);
        }
    }
    assert forall|k: int| 0 <= k < hunk.removed_lines.len() implies (
    #[trigger] hunk.added_lines[k]).line_number == hunk.removed_lines[k].line_number
        && hunk.added_lines[k].text != hunk.removed_lines[k].text by {
        assert(lines.subrange(s.i, s.j)[k] == lines[s.i + k]);
        assert(changed(lines[s.i + k], decisions));
    }
}

/// Every hunk of a group is well formed.
pub proof fn law_hunks_well_formed(
    lines: Seq<LineView>,
    decisions: Seq<DecisionView>,
    path: Seq<u8>,
    context: nat,
)
    requires
        lines.len() <= usize::MAX,
    ensures
        forall|m: int|
            0 <= m < hunks_of(lines, decisions, path, context).len() ==> hunk_well_formed(
                #[trigger] hunks_of(lines, decisions, path, context)[m],
                path,
                context,
            ),
{
    let hunks = hunks_of(lines, decisions, path, context);
    let spans = spans_from(lines, decisions, context, 0, 0);
    lemma_hunks_are_spans(lines, decisions, path, context, 0, 0);
    lemma_spans_fit(lines, decisions, context, 0, 0);
    assert forall|m: int| 0 <= m < hunks.len() implies hunk_well_formed(
        #[trigger] hunks[m],
        path,
        context,
    ) by {
        lemma_span_hunk_well_formed(lines, decisions, path, context, 0, spans[m]);
    }
}

/// The lines are numbered in strictly ascending order.
pub open spec fn ascending(lines: Seq<LineView>) -> bool {
    forall|a: int, b: int|
        0 <= a < b < lines.len() ==> (#[trigger] lines[a]).line_number() < (
        #[trigger] lines[b]).line_number()
}

/// The hunks of a group with ascending line numbers come in ascending
/// order, each ending before the next begins.
pub proof fn law_hunks_ascend(
    lines: Seq<LineView>,
    decisions: Seq<DecisionView>,
    path: Seq<u8>,
    context: nat,
)
    requires
        lines.len() <= usize::MAX,
        ascending(lines),
    ensures
        forall|m: int|
            0 <= m && m + 1 < hunks_of(lines, decisions, path, context).len() ==> (
            #[trigger] hunks_of(lines, decisions, path, context)[m]).old_range.start + hunks_of(
                lines,
                decisions,
                path,
                context,
            )[m].old_range.count <= hunks_of(lines, decisions, path, context)[m
                + 1].old_range.start,
{
    let hunks = hunks_of(lines, decisions, path, context);
    let spans = spans_from(lines, decisions, context, 0, 0);
    lemma_hunks_are_spans(lines, decisions, path, context, 0, 0);
    lemma_spans_fit(lines, decisions, context, 0, 0);
    assert forall|m: int| 0 <= m && m + 1 < hunks.len() implies (
    #[trigger] hunks[m]).old_range.start + hunks[m].old_range.count <= hunks[m
        + 1].old_range.start by {
        let s = spans[m];
        let t = spans[m + 1];
        assert(span_fits(lines, decisions, context, 0, s));
        assert(span_fits(lines, decisions, context, 0, t));
        assert(s.e <= t.b);
        assert forall|x: int| s.b < x <= s.e - 1 implies #[trigger] follows(lines, x) by {}
        lemma_chain_numbers(lines, s.b, s.e - 1);
        if s.e - 1 < t.b {
            assert(lines[s.e - 1].line_number() < lines[t.b].line_number());
        }
    }
}

/// The default number of context lines around a run, as many as the search
/// tool is asked for.
pub const DEFAULT_CONTEXT: usize = 3;

/// Writes the unified diff of a group under the decisions on its lines.
pub fn file_diff(group: &FileGroup, decisions: &Vec<EditDecision>, context: usize) -> (text: Vec<u8>)
    ensures
        text@ == diff_text(
            group@.path,
            hunks_of(group@.lines, decisions_view(decisions@), group@.path, context as nat),
        ),
{
    let hunks = diff_hunks(group, decisions, context);
    render_diff(&group.path, &hunks)
}

/// The decisions of the group at `index`: none where the list is shorter.
pub open spec fn decisions_at(decided: Seq<Seq<DecisionView>>, index: int) -> Seq<DecisionView> {
    if 0 <= index < decided.len() {
        decided[index]
    } else {
        Seq::empty()
    }
}

/// The diff of the group at `index` under its decisions.
pub open spec fn group_diff_text(
    groups: Seq<GroupView>,
    decided: Seq<Seq<DecisionView>>,
    context: nat,
    index: int,
) -> Seq<u8> {
    diff_text(
        groups[index].path,
        hunks_of(
            groups[index].lines,
            decisions_at(decided, index),
            groups[index].path,
            context,
        ),
    )
}

/// The diff of the first `count` groups: the diffs of the files, in the
/// order of the groups.
pub open spec fn run_diff_text(
    groups: Seq<GroupView>,
    decided: Seq<Seq<DecisionView>>,
    context: nat,
    count: int,
) -> Seq<u8>
    decreases count,
{
    if count <= 0 {
        Seq::empty()
    } else {
        run_diff_text(groups, decided, context, count - 1) + group_diff_text(
            groups,
            decided,
            context,
            count - 1,
        )
    }
}

/// Writes the unified diff of a whole run: the diff of each group under the
/// decisions at its index, in the order of the groups.
pub fn run_diff(groups: &Vec<FileGroup>, decided: &Vec<Vec<EditDecision>>, context: usize) -> (text:
    Vec<u8>)
    ensures
        text@ == run_diff_text(
            groups_view(groups@),
            decided_view(decided@),
            context as nat,
            groups@.len() as int,
        ),
{
    let none: Vec<EditDecision> = Vec::new();
    assert(decisions_view(none@) =~= Seq::<DecisionView>::empty());
    let mut text: Vec<u8> = Vec::new();
    let mut k: usize = 0;
    while k < groups.len()
        invariant
            k <= groups.len(),
            decisions_view(none@) == Seq::<DecisionView>::empty(),
            text@ == run_diff_text(
                groups_view(groups@),
                decided_view(decided@),
                context as nat,
                k as int,
            ),
        decreases groups.len() - k,
    {
        let decisions = if k < decided.len() {
            &decided[k]
        } else {
            &none
        };
        assert(decisions_view(decisions@) == decisions_at(decided_view(decided@), k as int));
        assert(groups_view(groups@)[k as int] == groups[k as int]@);
        let part = file_diff(&groups[k], decisions, context);
        append_bytes(&mut text, &part);
        k += 1;
    }
    text
}

} // verus!
