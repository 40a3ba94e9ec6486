//! What the operator sees of a line: the line-number gutter and the line's
//! text in plain and emphasised pieces.

use crate::event::ByteRange;
use crate::group::{FileGroup, Line, LineView, ProtocolError};
use vstd::prelude::*;

verus! {

/// The number of decimal digits of `n`.
pub open spec fn digit_count(n: nat) -> nat
    decreases n,
{
    if n < 10 {
        1
    } else {
        1 + digit_count(n / 10)
    }
}

/// The decimal digits of `n` in ASCII, most significant first.
pub open spec fn decimal(n: nat) -> Seq<u8>
    decreases n,
{
    if n < 10 {
        seq![(48 + n) as u8]
    } else {
        decimal(n / 10).push((48 + n % 10) as u8)
    }
}

/// The greatest digit count among the lines' numbers, 0 where there is no line.
pub open spec fn widest(lines: Seq<LineView>) -> nat
    decreases lines.len(),
{
    if lines.len() == 0 {
        0
    } else {
        let front = widest(lines.drop_last());
        let last = digit_count(lines.last().line_number() as nat);
        if front >= last {
            front
        } else {
            last
        }
    }
}

/// `count` spaces.
pub open spec fn padding(count: int) -> Seq<u8> {
    Seq::new(
        if count > 0 {
            count as nat
        } else {
            0
        },
        |i: int| 32u8,
    )
}

/// The number, right-aligned in a field of `width` bytes; a number with more
/// digits than that is written out in full.
pub open spec fn gutter_of(n: nat, width: nat) -> Seq<u8> {
    padding(width - digit_count(n)) + decimal(n)
}

/// A number has as many decimal digits as its digit count says, and a `u64`
/// has at most twenty.
pub proof fn lemma_decimal_len(n: nat)
    ensures
        decimal(n).len() == digit_count(n),
        digit_count(n) >= 1,
        n <= u64::MAX ==> digit_count(n) <= 20,
    decreases n,
{
    if n >= 10 {
        lemma_decimal_len(n / 10);
    }
    if n <= u64::MAX {
        reveal_with_fuel(digit_count, 21);
    }
}

/// Counts the decimal digits of a number.
pub fn count_digits(n: u64) -> (count: usize)
    ensures
        count == digit_count(n as nat),
        1 <= count <= 20,
{
    proof {
        lemma_decimal_len(n as nat);
    }
    let mut rest = n;
    let mut count: usize = 1;
    while rest >= 10
        invariant
            1 <= count,
            count - 1 + digit_count(rest as nat) == digit_count(n as nat),
            digit_count(n as nat) <= 20,
        decreases rest,
    {
        proof {
            lemma_decimal_len((rest / 10) as nat);
        }
        rest = rest / 10;
        count += 1;
    }
    count
}

/// Writes a number in decimal.
pub fn decimal_digits(n: u64) -> (digits: Vec<u8>)
    ensures
        digits@ == decimal(n as nat),
    decreases n,
{
    if n < 10 {
        let mut digits: Vec<u8> = Vec::new();
        digits.push(48 + n as u8);
        assert(digits@ =~= seq![(48 + n) as u8]);
        digits
    } else {
        let mut digits = decimal_digits(n / 10);
        digits.push(48 + (n % 10) as u8);
        digits
    }
}

/// The width of the gutter of a group: the greatest digit count among its
/// line numbers.
pub fn gutter_width(group: &FileGroup) -> (width: usize)
    ensures
        width == widest(group@.lines),
{
    let ghost lines = group@.lines;
    let mut width: usize = 0;
    let mut i: usize = 0;
    while i < group.lines.len()
        invariant
            i <= group.lines.len(),
            lines == group@.lines,
            width == widest(lines.take(i as int)),
        decreases group.lines.len() - i,
    {
        proof {
            assert(lines.take(i + 1).drop_last() =~= lines.take(i as int));
            assert(lines.take(i + 1).last() == group.lines[i as int]@);
        }
        let count = count_digits(group.lines[i].line_number());
        if count > width {
            width = count;
        }
        i += 1;
    }
    assert(lines.take(i as int) =~= lines);
    width
}

/// No line number of the group has more digits than the gutter is wide, and
/// in a group with lines one of them fills it.
pub proof fn law_gutter_fits_every_number(lines: Seq<LineView>)
    ensures
        forall|i: int|
            0 <= i < lines.len() ==> digit_count((#[trigger] lines[i]).line_number() as nat)
                <= widest(lines),
        lines.len() > 0 ==> exists|i: int|
            0 <= i < lines.len() && digit_count((#[trigger] lines[i]).line_number() as nat)
                == widest(lines),
    decreases lines.len(),
{
    if lines.len() > 0 {
        let front = lines.drop_last();
        law_gutter_fits_every_number(front);
        assert forall|i: int| 0 <= i < lines.len() implies digit_count(
            (#[trigger] lines[i]).line_number() as nat,
        ) <= widest(lines) by {
            if i < front.len() {
                assert(front[i] == lines[i]);
            }
        }
        if front.len() > 0 && widest(front) >= digit_count(lines.last().line_number() as nat) {
            let w = choose|w: int|
                0 <= w < front.len() && digit_count((#[trigger] front[w]).line_number() as nat)
                    == widest(front);
            assert(front[w] == lines[w]);
        } else {
            assert(digit_count(lines[lines.len() - 1].line_number() as nat) == widest(lines)) by {
                lemma_decimal_len(lines.last().line_number() as nat);
            }
        }
    }
}

/// Writes the gutter of a line: its number in decimal, with spaces before it
/// up to `width` bytes.
pub fn gutter(line_number: u64, width: usize) -> (bytes: Vec<u8>)
    ensures
        bytes@ == gutter_of(line_number as nat, width as nat),
        bytes@.len() == if width >= digit_count(line_number as nat) {
            width as nat
        } else {
            digit_count(line_number as nat)
        },
{
    proof {
        lemma_decimal_len(line_number as nat);
    }
    let count = count_digits(line_number);
    let mut bytes: Vec<u8> = Vec::new();
    let mut i: usize = count;
    while i < width
        invariant
            i == count || i <= width,
            count <= i,
            bytes@ == padding(i - count),
        decreases width - i,
    {
        bytes.push(32u8);
        assert(bytes@ =~= padding(i + 1 - count));
        i += 1;
    }
    assert(padding(i - count) =~= padding(width - count));
    let mut digits = decimal_digits(line_number);
    bytes.append(&mut digits);
    bytes
}

/// What is wrong with the range at `i` of a line of `limit` bytes: it
/// reaches beyond the line or ends before it starts, or it starts before the
/// range in front of it has ended.
pub open spec fn fault_at(ranges: Seq<ByteRange>, limit: nat, i: int) -> Option<ProtocolError> {
    if ranges[i].start > ranges[i].end || ranges[i].end > limit {
        Some(ProtocolError::RangeOutsideLine)
    } else if i > 0 && ranges[i].start < ranges[i - 1].end {
        Some(ProtocolError::OverlappingSubmatches)
    } else {
        None
    }
}

/// The fault of the first faulty range at or after `from`.
pub open spec fn first_fault(ranges: Seq<ByteRange>, limit: nat, from: int) -> Option<ProtocolError>
    decreases ranges.len() - from,
{
    if from < 0 || from >= ranges.len() {
        None
    } else if fault_at(ranges, limit, from) is Some {
        fault_at(ranges, limit, from)
    } else {
        first_fault(ranges, limit, from + 1)
    }
}

/// The fault of the first faulty range.
pub open spec fn ranges_fault(ranges: Seq<ByteRange>, limit: nat) -> Option<ProtocolError> {
    first_fault(ranges, limit, 0)
}

/// The ranges lie within the line, one after the other, none overlapping the next.
pub open spec fn ranges_fit(ranges: Seq<ByteRange>, limit: nat) -> bool {
    forall|i: int| 0 <= i < ranges.len() ==> #[trigger] fault_at(ranges, limit, i) is None
}

/// There is no first fault exactly when no range is faulty.
pub proof fn lemma_no_fault_iff_fit(ranges: Seq<ByteRange>, limit: nat, from: int)
    requires
        0 <= from,
    ensures
        first_fault(ranges, limit, from) is None <==> forall|i: int|
            from <= i < ranges.len() ==> #[trigger] fault_at(ranges, limit, i) is None,
    decreases ranges.len() - from,
{
    if from < ranges.len() {
        lemma_no_fault_iff_fit(ranges, limit, from + 1);
    }
}

/// Checks that the ranges lie within a line of `limit` bytes, in ascending
/// order and without overlap.
pub fn check_ranges(ranges: &Vec<ByteRange>, limit: usize) -> (r: Result<(), ProtocolError>)
    ensures
        match r {
            Ok(_) => ranges_fault(ranges@, limit as nat) is None,
            Err(e) => ranges_fault(ranges@, limit as nat) == Some(e),
        },
        r is Ok <==> ranges_fit(ranges@, limit as nat),
{
    proof {
        lemma_no_fault_iff_fit(ranges@, limit as nat, 0);
    }
    let mut i: usize = 0;
    while i < ranges.len()
        invariant
            i <= ranges.len(),
            ranges_fault(ranges@, limit as nat) == first_fault(ranges@, limit as nat, i as int),
        decreases ranges.len() - i,
    {
        let range = ranges[i];
        if range.start > range.end || range.end > limit {
            return Err(ProtocolError::RangeOutsideLine);
        }
        if i > 0 && range.start < ranges[i - 1].end {
            return Err(ProtocolError::OverlappingSubmatches);
        }
        i += 1;
    }
    Ok(())
}

/// A piece of a line's text, to be shown plain or with emphasis.
#[derive(Debug, Clone, PartialEq, Eq)]
pub struct Segment {
    pub text: Vec<u8>,
    pub emphasized: bool,
}

/// A `Segment` as a mathematical value.
pub struct SegmentView {
    pub text: Seq<u8>,
    pub emphasized: bool,
}

impl View for Segment {
    type V = SegmentView;

    open spec fn view(&self) -> SegmentView {
        SegmentView { text: self.text@, emphasized: self.emphasized }
    }
}

/// The segments as mathematical values.
pub open spec fn segments_view(segments: Seq<Segment>) -> Seq<SegmentView> {
    segments.map_values(|s: Segment| s@)
}

/// The text as one plain segment; no segment for no text.
pub open spec fn plain(text: Seq<u8>) -> Seq<SegmentView> {
    if text.len() == 0 {
        Seq::empty()
    } else {
        seq![SegmentView { text, emphasized: false }]
    }
}

/// The submatch as one emphasised segment.
pub open spec fn emphasis(text: Seq<u8>, range: ByteRange) -> SegmentView {
    SegmentView { text: text.subrange(range.start as int, range.end as int), emphasized: true }
}

/// The segments of the text from byte `pos` on, with the submatches from the
/// `k`-th on still to come: each submatch is one emphasised segment, and the
/// text between two of them, where there is any, one plain segment.
pub open spec fn segments_from(text: Seq<u8>, ranges: Seq<ByteRange>, k: int, pos: int) -> Seq<
    SegmentView,
>
    decreases ranges.len() - k,
{
    if k < 0 || k >= ranges.len() {
        plain(text.subrange(pos, text.len() as int))
    } else {
        plain(text.subrange(pos, ranges[k].start as int)) + seq![emphasis(text, ranges[k])]
            + segments_from(text, ranges, k + 1, ranges[k].end as int)
    }
}

/// The segments of a whole line.
pub open spec fn segments_of(text: Seq<u8>, ranges: Seq<ByteRange>) -> Seq<SegmentView> {
    segments_from(text, ranges, 0, 0)
}

/// The texts of the segments, one after the other.
pub open spec fn joined(segments: Seq<SegmentView>) -> Seq<u8>
    decreases segments.len(),
{
    if segments.len() == 0 {
        Seq::empty()
    } else {
        joined(segments.drop_last()) + segments.last().text
    }
}

/// The texts of the emphasised segments, in order.
pub open spec fn emphasized_texts(segments: Seq<SegmentView>) -> Seq<Seq<u8>>
    decreases segments.len(),
{
    if segments.len() == 0 {
        Seq::empty()
    } else if segments.last().emphasized {
        emphasized_texts(segments.drop_last()).push(segments.last().text)
    } else {
        emphasized_texts(segments.drop_last())
    }
}

/// The texts that the ranges from the `k`-th on cut out of the line.
pub open spec fn range_texts(text: Seq<u8>, ranges: Seq<ByteRange>, k: int) -> Seq<Seq<u8>> {
    Seq::new(
        if 0 <= k <= ranges.len() {
            (ranges.len() - k) as nat
        } else {
            0
        },
        |i: int| text.subrange(ranges[k + i].start as int, ranges[k + i].end as int),
    )
}

/// Joining and picking the emphasised texts go segment list by segment list.
pub proof fn lemma_joined_concat(a: Seq<SegmentView>, b: Seq<SegmentView>)
    ensures
        joined(a + b) == joined(a) + joined(b),
        emphasized_texts(a + b) == emphasized_texts(a) + emphasized_texts(b),
    decreases b.len(),
{
    if b.len() == 0 {
        assert(a + b =~= a);
        assert(joined(a) + joined(b) =~= joined(a));
        assert(emphasized_texts(a) + emphasized_texts(b) =~= emphasized_texts(a));
    } else {
        assert((a + b).drop_last() =~= a + b.drop_last());
        assert((a + b).last() == b.last());
        lemma_joined_concat(a, b.drop_last());
        assert(joined(a) + (joined(b.drop_last()) + b.last().text) =~= (joined(a) + joined(
            b.drop_last(),
        )) + b.last().text);
        if b.last().emphasized {
            assert(emphasized_texts(a) + emphasized_texts(b.drop_last()).push(b.last().text)
                =~= (emphasized_texts(a) + emphasized_texts(b.drop_last())).push(b.last().text));
        }
    }
}

/// The segments from the `k`-th submatch on hold the rest of the line, byte
/// for byte, and their emphasised texts are the submatches, one each.
pub proof fn lemma_segments_cover(text: Seq<u8>, ranges: Seq<ByteRange>, k: int, pos: int)
    requires
        ranges_fit(ranges, text.len()),
        0 <= k <= ranges.len(),
        0 <= pos <= text.len(),
        k < ranges.len() ==> pos <= ranges[k].start,
        k > 0 ==> ranges[k - 1].end <= pos,
    ensures
        joined(segments_from(text, ranges, k, pos)) == text.subrange(pos, text.len() as int),
        emphasized_texts(segments_from(text, ranges, k, pos)) == range_texts(text, ranges, k),
    decreases ranges.len() - k,
{
    reveal_with_fuel(joined, 2);
    reveal_with_fuel(emphasized_texts, 2);
    if k >= ranges.len() {
        let tail = text.subrange(pos, text.len() as int);
        if tail.len() > 0 {
            assert(plain(tail).drop_last() =~= Seq::<SegmentView>::empty());
            assert(joined(plain(tail)) =~= tail);
        }
        assert(emphasized_texts(plain(tail)) =~= range_texts(text, ranges, k));
    } else {
        assert(fault_at(ranges, text.len(), k) is None);
        if k + 1 < ranges.len() {
            assert(fault_at(ranges, text.len(), k + 1) is None);
        }
        let range = ranges[k];
        let gap = text.subrange(pos, range.start as int);
        let marked = seq![emphasis(text, range)];
        let rest = segments_from(text, ranges, k + 1, range.end as int);
        lemma_segments_cover(text, ranges, k + 1, range.end as int);
        lemma_joined_concat(plain(gap), marked);
        lemma_joined_concat(plain(gap) + marked, rest);
        assert(marked.drop_last() =~= Seq::<SegmentView>::empty());
        assert(joined(marked) =~= text.subrange(range.start as int, range.end as int));
        assert(emphasized_texts(marked) =~= seq![
            text.subrange(range.start as int, range.end as int),
        ]);
        if gap.len() > 0 {
            assert(plain(gap).drop_last() =~= Seq::<SegmentView>::empty());
            assert(joined(plain(gap)) =~= gap);
        }
        assert(joined(plain(gap)) =~= gap);
        assert(emphasized_texts(plain(gap)) =~= Seq::<Seq<u8>>::empty());
        assert(gap + text.subrange(range.start as int, range.end as int) + text.subrange(
            range.end as int,
            text.len() as int,
        ) =~= text.subrange(pos, text.len() as int));
        assert(Seq::<Seq<u8>>::empty() + seq![
            text.subrange(range.start as int, range.end as int),
        ] + range_texts(text, ranges, k + 1) =~= range_texts(text, ranges, k));
    }
}

/// The segments of a line hold the line's text, byte for byte, and each
/// submatch is one emphasised segment of its own, never split.
pub proof fn law_segments_keep_line(text: Seq<u8>, ranges: Seq<ByteRange>)
    requires
        ranges_fit(ranges, text.len()),
    ensures
        joined(segments_of(text, ranges)) == text,
        emphasized_texts(segments_of(text, ranges)) == range_texts(text, ranges, 0),
        range_texts(text, ranges, 0).len() == ranges.len(),
{
    if ranges.len() > 0 {
        assert(fault_at(ranges, text.len(), 0) is None);
    }
    lemma_segments_cover(text, ranges, 0, 0);
    assert(text.subrange(0, text.len() as int) =~= text);
}

/// The bytes `[from, to)` of `source`.
pub(crate) fn copy_range(source: &Vec<u8>, from: usize, to: usize) -> (bytes: Vec<u8>)
    requires
        from <= to <= source.len(),
    ensures
        bytes@ == source@.subrange(from as int, to as int),
{
    let mut bytes: Vec<u8> = Vec::new();
    let mut i: usize = from;
    while i < to
        invariant
            from <= i <= to <= source.len(),
            bytes@ == source@.subrange(from as int, i as int),
        decreases to - i,
    {
        bytes.push(source[i]);
        assert(bytes@ =~= source@.subrange(from as int, i + 1));
        i += 1;
    }
    bytes
}

/// Cuts a line's text into its segments, unless a submatch is at fault.
pub fn segments(text: &Vec<u8>, ranges: &Vec<ByteRange>) -> (r: Result<Vec<Segment>, ProtocolError>)
    ensures
        match r {
            Ok(pieces) => ranges_fault(ranges@, text@.len()) is None && segments_view(pieces@)
                == segments_of(text@, ranges@),
            Err(e) => ranges_fault(ranges@, text@.len()) == Some(e),
        },
{
    match check_ranges(ranges, text.len()) {
        Err(e) => {
            return Err(e);
        },
        Ok(_) => {},
    }
    let mut pieces: Vec<Segment> = Vec::new();
    let mut pos: usize = 0;
    let mut k: usize = 0;
    assert(segments_view(pieces@) + segments_from(text@, ranges@, 0, 0) =~= segments_of(
        text@,
        ranges@,
    ));
    while k < ranges.len()
        invariant
            k <= ranges.len(),
            pos <= text.len(),
            ranges_fit(ranges@, text@.len()),
            k < ranges.len() ==> pos <= ranges[k as int].start,
            segments_of(text@, ranges@) == segments_view(pieces@) + segments_from(
                text@,
                ranges@,
                k as int,
                pos as int,
            ),
        decreases ranges.len() - k,
    {
        let range = ranges[k];
        let ghost before = segments_view(pieces@);
        let ghost rest = segments_from(text@, ranges@, k + 1, range.end as int);
        proof {
            assert(fault_at(ranges@, text@.len(), k as int) is None);
            if k + 1 < ranges.len() {
                assert(fault_at(ranges@, text@.len(), k + 1) is None);
            }
        }
        if pos < range.start {
            let gap = Segment { text: copy_range(text, pos, range.start), emphasized: false };
            pieces.push(gap);
            assert(segments_view(pieces@) =~= before + plain(
                text@.subrange(pos as int, range.start as int),
            ));
        } else {
            assert(before =~= before + plain(text@.subrange(pos as int, range.start as int)));
        }
        let ghost middle = segments_view(pieces@);
        let marked = Segment { text: copy_range(text, range.start, range.end), emphasized: true };
        pieces.push(marked);
        proof {
            assert(segments_view(pieces@) =~= middle + seq![emphasis(text@, range)]);
            assert(before + (plain(text@.subrange(pos as int, range.start as int)) + seq![
                emphasis(text@, range),
            ] + rest) =~= segments_view(pieces@) + rest);
        }
        pos = range.end;
        k += 1;
    }
    let ghost before = segments_view(pieces@);
    if pos < text.len() {
        let tail = Segment { text: copy_range(text, pos, text.len()), emphasized: false };
        pieces.push(tail);
        assert(segments_view(pieces@) =~= before + plain(
            text@.subrange(pos as int, text@.len() as int),
        ));
    } else {
        assert(before =~= before + plain(text@.subrange(pos as int, text@.len() as int)));
    }
    Ok(pieces)
}

/// A line as the operator sees it.
#[derive(Debug, Clone, PartialEq, Eq)]
pub struct RenderedLine {
    pub gutter: Vec<u8>,
    pub segments: Vec<Segment>,
}

/// The segments of a line of either kind: a context line has no emphasis.
pub open spec fn line_segments(line: LineView) -> Seq<SegmentView> {
    match line {
        LineView::Matched { text, submatches, .. } => segments_of(text, submatches),
        LineView::Context { text, .. } => plain(text),
    }
}

/// The fault among the submatches of a line; a context line has none.
pub open spec fn line_fault(line: LineView) -> Option<ProtocolError> {
    match line {
        LineView::Matched { text, submatches, .. } => ranges_fault(submatches, text.len()),
        LineView::Context { .. } => None,
    }
}

/// Renders a line for a gutter of the given width, unless one of its
/// submatches is at fault.
pub fn render_line(line: &Line, width: usize) -> (r: Result<RenderedLine, ProtocolError>)
    ensures
        match r {
            Ok(shown) => line_fault(line@) is None && shown.gutter@ == gutter_of(
                line@.line_number() as nat,
                width as nat,
            ) && segments_view(shown.segments@) == line_segments(line@),
            Err(e) => line_fault(line@) == Some(e),
        },
{
    match line {
        Line::Matched { line_number, text, submatches, .. } => {
            match segments(text, submatches) {
                Err(e) => Err(e),
                Ok(pieces) => Ok(
                    RenderedLine { gutter: gutter(*line_number, width), segments: pieces },
                ),
            }
        },
        Line::Context { line_number, text } => {
            let mut pieces: Vec<Segment> = Vec::new();
            if text.len() > 0 {
                pieces.push(Segment { text: copy_range(text, 0, text.len()), emphasized: false });
                assert(text@.subrange(0, text@.len() as int) =~= text@);
            }
            assert(segments_view(pieces@) =~= plain(text@));
            Ok(RenderedLine { gutter: gutter(*line_number, width), segments: pieces })
        },
    }
}

} // verus!
