//! Edits in place: the content of a file with the decisions applied to its lines.

use crate::diff::{apply_decisions, file_edited, replacement_for, texts_view};
use crate::replace::{append_bytes, decisions_view, DecisionView, EditDecision};
use vstd::prelude::*;
use vstd::slice::{slice_subrange, slice_to_vec};

verus! {

/// The lines of the content from `start` on, each with its line feed, where
/// the bytes from `start` up to `at` hold no line feed.
pub open spec fn content_lines_from(bytes: Seq<u8>, start: int, at: int) -> Seq<Seq<u8>>
    decreases bytes.len() - at,
{
    if start < 0 || at < start {
        Seq::empty()
    } else if at >= bytes.len() {
        if start < bytes.len() {
            seq![bytes.subrange(start, bytes.len() as int)]
        } else {
            Seq::empty()
        }
    } else if bytes[at] == 10u8 {
        seq![bytes.subrange(start, at + 1)] + content_lines_from(bytes, at + 1, at + 1)
    } else {
        content_lines_from(bytes, start, at + 1)
    }
}

/// The lines of the content of a file, each with its line feed; the last
/// line need not have one.
pub open spec fn content_lines(bytes: Seq<u8>) -> Seq<Seq<u8>> {
    content_lines_from(bytes, 0, 0)
}

/// The lines, one after the other.
pub open spec fn concat(lines: Seq<Seq<u8>>) -> Seq<u8>
    decreases lines.len(),
{
    if lines.len() == 0 {
        Seq::empty()
    } else {
        concat(lines.drop_last()) + lines.last()
    }
}

/// The content of a file after the decisions on its lines.
pub open spec fn content_edited(bytes: Seq<u8>, decisions: Seq<DecisionView>) -> Seq<u8> {
    concat(file_edited(content_lines(bytes), decisions))
}

/// Concatenation goes list by list.
pub proof fn lemma_concat_append(a: Seq<Seq<u8>>, b: Seq<Seq<u8>>)
    ensures
        concat(a + b) == concat(a) + concat(b),
    decreases b.len(),
{
    if b.len() == 0 {
        assert(a + b =~= a);
        assert(concat(a) + concat(b) =~= concat(a));
    } else {
        assert((a + b).drop_last() =~= a + b.drop_last());
        assert((a + b).last() == b.last());
        lemma_concat_append(a, b.drop_last());
        assert(concat(a) + (concat(b.drop_last()) + b.last()) =~= (concat(a) + concat(
            b.drop_last(),
        )) + b.last());
    }
}

/// The lines from `start` on hold the content from `start` on, byte for byte.
pub proof fn lemma_lines_hold_content(bytes: Seq<u8>, start: int, at: int)
    requires
        0 <= start <= at <= bytes.len(),
    ensures
        concat(content_lines_from(bytes, start, at)) == bytes.subrange(start, bytes.len() as int),
    decreases bytes.len() - at,
{
    reveal_with_fuel(concat, 2);
    if at >= bytes.len() {
        if start < bytes.len() {
            let only = seq![bytes.subrange(start, bytes.len() as int)];
            assert(only.drop_last() =~= Seq::<Seq<u8>>::empty());
            assert(concat(only) =~= bytes.subrange(start, bytes.len() as int));
        } else {
            assert(bytes.subrange(start, bytes.len() as int) =~= Seq::<u8>::empty());
        }
    } else if bytes[at] == 10u8 {
        let first = seq![bytes.subrange(start, at + 1)];
        lemma_lines_hold_content(bytes, at + 1, at + 1);
        lemma_concat_append(first, content_lines_from(bytes, at + 1, at + 1));
        assert(first.drop_last() =~= Seq::<Seq<u8>>::empty());
        assert(concat(first) =~= bytes.subrange(start, at + 1));
        assert(bytes.subrange(start, at + 1) + bytes.subrange(at + 1, bytes.len() as int)
            =~= bytes.subrange(start, bytes.len() as int));
    } else {
        lemma_lines_hold_content(bytes, start, at + 1);
    }
}

/// Splitting a content into lines loses nothing: the lines, one after the
/// other, are the content.
pub proof fn law_lines_hold_content(bytes: Seq<u8>)
    ensures
        concat(content_lines(bytes)) == bytes,
{
    lemma_lines_hold_content(bytes, 0, 0);
    assert(bytes.subrange(0, bytes.len() as int) =~= bytes);
}

/// Without an applied decision the content stays as it is.
pub proof fn law_no_decision_no_edit(bytes: Seq<u8>, decisions: Seq<DecisionView>)
    requires
        forall|n: u64| replacement_for(decisions, n) is None,
    ensures
        content_edited(bytes, decisions) == bytes,
{
    law_lines_hold_content(bytes);
    assert(file_edited(content_lines(bytes), decisions) =~= content_lines(bytes));
}

/// Splits the content of a file into its lines, each with its line feed.
pub fn split_content(content: &[u8]) -> (lines: Vec<Vec<u8>>)
    ensures
        texts_view(lines@) == content_lines(content@),
{
    let ghost bytes = content@;
    let mut lines: Vec<Vec<u8>> = Vec::new();
    let mut start: usize = 0;
    let mut at: usize = 0;
    assert(texts_view(lines@) + content_lines_from(bytes, 0, 0) =~= content_lines(bytes));
    while at < content.len()
        invariant
            bytes == content@,
            start <= at <= content.len(),
            content_lines(bytes) == texts_view(lines@) + content_lines_from(
                bytes,
                start as int,
                at as int,
            ),
        decreases content.len() - at,
    {
        if content[at] == 10u8 {
            let line = slice_to_vec(slice_subrange(content, start, at + 1));
            let ghost before = texts_view(lines@);
            let ghost rest = content_lines_from(bytes, at + 1, at + 1);
            lines.push(line);
            proof {
                assert(texts_view(lines@) =~= before.push(line@));
                assert(before + (seq![line@] + rest) =~= before.push(line@) + rest);
            }
            start = at + 1;
        }
        at += 1;
    }
    let ghost before = texts_view(lines@);
    if start < content.len() {
        let line = slice_to_vec(slice_subrange(content, start, content.len()));
        lines.push(line);
        assert(texts_view(lines@) =~= before + seq![line@]);
    } else {
        assert(before + Seq::<Seq<u8>>::empty() =~= before);
    }
    lines
}

/// Writes the lines one after the other.
pub fn join_lines(lines: &Vec<Vec<u8>>) -> (content: Vec<u8>)
    ensures
        content@ == concat(texts_view(lines@)),
{
    let ghost all = texts_view(lines@);
    let mut content: Vec<u8> = Vec::new();
    let mut k: usize = 0;
    assert(content@ =~= concat(all.take(0)));
    while k < lines.len()
        invariant
            k <= lines.len(),
            all == texts_view(lines@),
            content@ == concat(all.take(k as int)),
        decreases lines.len() - k,
    {
        proof {
            assert(all.take(k + 1).drop_last() =~= all.take(k as int));
            assert(all.take(k + 1).last() == lines[k as int]@);
        }
        append_bytes(&mut content, &lines[k]);
        k += 1;
    }
    assert(all.take(k as int) =~= all);
    content
}

/// The content of a file with the decisions applied: each line for whose
/// number a replacement was applied gives way to it, every other byte stays.
pub fn edit_content(content: &[u8], decisions: &Vec<EditDecision>) -> (edited: Vec<u8>)
    ensures
        edited@ == content_edited(content@, decisions_view(decisions@)),
{
    let lines = split_content(content);
    let edited = apply_decisions(&lines, decisions);
    join_lines(&edited)
}

} // verus!
