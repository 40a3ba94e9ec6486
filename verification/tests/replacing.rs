use rg_replace::event::ByteRange;
use rg_replace::group::{FileGroup, Line, ProtocolError};
use rg_replace::replace::{
    append_bytes, apply_replacement, batch_decisions, batch_run, read_answer, replay, Action,
    EditDecision, Response, Run, Session,
};

fn range(start: usize, end: usize) -> ByteRange {
    ByteRange { start, end }
}

fn matched(n: u64, text: &str, ranges: Vec<ByteRange>) -> Line {
    Line::Matched {
        line_number: n,
        absolute_offset: 0,
        text: text.as_bytes().to_vec(),
        submatches: ranges,
    }
}

fn context(n: u64, text: &str) -> Line {
    Line::Context { line_number: n, text: text.as_bytes().to_vec() }
}

fn replaced(n: u64, old: &str, new: &str) -> EditDecision {
    EditDecision {
        line_number: n,
        original_text: old.as_bytes().to_vec(),
        replacement_text: Some(new.as_bytes().to_vec()),
        applied: true,
    }
}

fn left(n: u64, old: &str) -> EditDecision {
    EditDecision {
        line_number: n,
        original_text: old.as_bytes().to_vec(),
        replacement_text: None,
        applied: false,
    }
}

fn sample() -> FileGroup {
    FileGroup {
        path: b"a.txt".to_vec(),
        lines: vec![
            context(1, "one\n"),
            matched(2, "foo two foo\n", vec![range(0, 3), range(8, 11)]),
            context(3, "three\n"),
            matched(4, "four foo\n", vec![range(5, 8)]),
            matched(5, "foo five\n", vec![range(0, 3)]),
        ],
    }
}

#[test]
fn submatch_gives_way_to_the_replacement() {
    assert_eq!(
        Ok(b"fooXbaz".to_vec()),
        apply_replacement(&b"fooBARbaz".to_vec(), &vec![range(3, 6)], &b"X".to_vec())
    );
}

#[test]
fn every_submatch_of_a_line_is_replaced() {
    assert_eq!(
        Ok(b"a--b--c".to_vec()),
        apply_replacement(&b"a.b.c".to_vec(), &vec![range(1, 2), range(3, 4)], &b"--".to_vec())
    );
    assert_eq!(
        Ok(b"longer and longer".to_vec()),
        apply_replacement(&b"x and x".to_vec(), &vec![range(0, 1), range(6, 7)], &b"longer".to_vec())
    );
    assert_eq!(
        Ok(b"bc".to_vec()),
        apply_replacement(&b"abca".to_vec(), &vec![range(0, 1), range(3, 4)], &vec![])
    );
}

#[test]
fn line_without_submatches_stays() {
    assert_eq!(
        Ok(b"same".to_vec()),
        apply_replacement(&b"same".to_vec(), &vec![], &b"X".to_vec())
    );
}

#[test]
fn empty_submatch_inserts_the_replacement() {
    assert_eq!(
        Ok(b"abXc".to_vec()),
        apply_replacement(&b"abc".to_vec(), &vec![range(2, 2)], &b"X".to_vec())
    );
}

#[test]
fn overlapping_submatches_are_an_error() {
    assert_eq!(
        Err(ProtocolError::OverlappingSubmatches),
        apply_replacement(&b"fooBARbaz".to_vec(), &vec![range(0, 4), range(3, 6)], &b"X".to_vec())
    );
    assert_eq!(
        Err(ProtocolError::RangeOutsideLine),
        apply_replacement(&b"foo".to_vec(), &vec![range(1, 7)], &b"X".to_vec())
    );
}

#[test]
fn bytes_are_appended() {
    let mut out = b"ab".to_vec();
    append_bytes(&mut out, &b"cd".to_vec());
    assert_eq!(b"abcd".to_vec(), out);
    append_bytes(&mut out, &vec![]);
    assert_eq!(b"abcd".to_vec(), out);
}

#[test]
fn batch_replaces_every_matched_line() {
    let decisions = batch_decisions(&sample(), &b"bar".to_vec());
    assert_eq!(
        Ok(vec![
            replaced(2, "foo two foo\n", "bar two bar\n"),
            replaced(4, "four foo\n", "four bar\n"),
            replaced(5, "foo five\n", "bar five\n"),
        ]),
        decisions
    );
}

#[test]
fn batch_fails_on_a_faulty_line() {
    let mut group = sample();
    group.lines.push(matched(6, "abc", vec![range(0, 2), range(1, 3)]));
    assert_eq!(
        Err(ProtocolError::OverlappingSubmatches),
        batch_decisions(&group, &b"bar".to_vec())
    );
}

#[test]
fn batch_of_a_group_without_matches_is_empty() {
    let group = FileGroup { path: vec![], lines: vec![context(1, "a"), context(2, "b")] };
    assert_eq!(Ok(vec![]), batch_decisions(&group, &b"x".to_vec()));
}

#[test]
fn accepting_everything_is_the_batch() {
    let group = sample();
    let replacement = b"bar".to_vec();
    let session = replay(
        &group,
        &replacement,
        &vec![Response::Accept, Response::Accept, Response::Accept, Response::Accept],
    )
    .unwrap();
    assert_eq!(batch_decisions(&group, &replacement).unwrap(), session.decisions);
    assert_eq!(5, session.cursor);
    assert!(!session.aborted);
}

#[test]
fn skip_records_the_line_without_a_replacement() {
    let session = replay(
        &sample(),
        &b"bar".to_vec(),
        &vec![Response::Skip, Response::Accept, Response::Skip],
    )
    .unwrap();
    assert_eq!(
        vec![
            left(2, "foo two foo\n"),
            replaced(4, "four foo\n", "four bar\n"),
            left(5, "foo five\n"),
        ],
        session.decisions
    );
}

#[test]
fn abort_keeps_what_was_decided() {
    let session = replay(
        &sample(),
        &b"bar".to_vec(),
        &vec![Response::Accept, Response::Abort, Response::Accept],
    )
    .unwrap();
    assert_eq!(vec![replaced(2, "foo two foo\n", "bar two bar\n")], session.decisions);
    assert!(session.aborted);
    assert_eq!(3, session.cursor);
    assert_eq!(Action::Finished, session.action(&sample()));
}

#[test]
fn replay_stops_where_the_answers_end() {
    let session = replay(&sample(), &b"bar".to_vec(), &vec![Response::Accept]).unwrap();
    assert_eq!(1, session.decisions.len());
    assert_eq!(Action::Solicit { index: 3 }, session.action(&sample()));
    assert!(!session.aborted);
}

#[test]
fn session_is_driven_step_by_step() {
    let group = sample();
    let replacement = b"bar".to_vec();
    let session = Session::new();
    assert_eq!(Action::Display { index: 0 }, session.action(&group));
    let session = session.displayed(&group);
    assert_eq!(Action::Solicit { index: 1 }, session.action(&group));
    let unchanged = session.clone().displayed(&group);
    assert_eq!(session, unchanged);
    let session = session.respond(&group, &replacement, Response::Accept).unwrap();
    assert_eq!(2, session.cursor);
    assert_eq!(vec![replaced(2, "foo two foo\n", "bar two bar\n")], session.decisions);
    assert_eq!(Action::Display { index: 2 }, session.action(&group));
    let ignored = session.clone().respond(&group, &replacement, Response::Skip).unwrap();
    assert_eq!(session, ignored);
    let session = session.displayed(&group);
    let session = session.respond(&group, &replacement, Response::Skip).unwrap();
    let session = session.respond(&group, &replacement, Response::Accept).unwrap();
    assert_eq!(Action::Finished, session.action(&group));
    assert_eq!(3, session.decisions.len());
    let done = session.clone().respond(&group, &replacement, Response::Accept).unwrap();
    assert_eq!(session, done);
}

#[test]
fn accepting_a_faulty_line_fails_and_skipping_it_does_not() {
    let group = FileGroup {
        path: vec![],
        lines: vec![matched(1, "abc", vec![range(2, 1)])],
    };
    let replacement = b"x".to_vec();
    assert_eq!(
        Err(ProtocolError::RangeOutsideLine),
        Session::new().respond(&group, &replacement, Response::Accept)
    );
    let skipped = Session::new().respond(&group, &replacement, Response::Skip).unwrap();
    assert_eq!(vec![left(1, "abc")], skipped.decisions);
}

#[test]
fn run_collects_the_sessions_of_its_groups() {
    let group = sample();
    let replacement = b"bar".to_vec();
    let run = Run::new();
    assert!(run.is_open());
    assert!(run.decided.is_empty());
    let first = replay(&group, &replacement, &vec![Response::Accept, Response::Skip, Response::Skip]).unwrap();
    let run = run.absorb(first.clone());
    assert!(run.is_open());
    assert_eq!(vec![first.decisions.clone()], run.decided);
    let second = replay(&group, &replacement, &vec![Response::Accept, Response::Abort]).unwrap();
    let run = run.absorb(second.clone());
    assert!(!run.is_open());
    assert_eq!(vec![first.decisions.clone(), second.decisions.clone()], run.decided);
    let run = run.absorb(first.clone());
    assert!(!run.is_open());
    assert_eq!(vec![first.decisions, second.decisions, vec![]], run.decided);
}

#[test]
fn batch_run_decides_every_group() {
    let small = FileGroup { path: b"b.txt".to_vec(), lines: vec![matched(1, "foo", vec![range(0, 3)])] };
    let plain = FileGroup { path: b"c.txt".to_vec(), lines: vec![context(1, "foo")] };
    let decided = batch_run(&vec![sample(), small, plain], &b"bar".to_vec()).unwrap();
    assert_eq!(3, decided.len());
    assert_eq!(batch_decisions(&sample(), &b"bar".to_vec()).unwrap(), decided[0]);
    assert_eq!(vec![replaced(1, "foo", "bar")], decided[1]);
    assert_eq!(Vec::<EditDecision>::new(), decided[2]);
    assert_eq!(Ok(vec![]), batch_run(&vec![], &b"bar".to_vec()));
}

#[test]
fn batch_run_fails_with_its_first_faulty_group() {
    let outside = FileGroup { path: vec![], lines: vec![matched(1, "ab", vec![range(0, 3)])] };
    let crossed = FileGroup { path: vec![], lines: vec![matched(1, "abc", vec![range(0, 2), range(1, 3)])] };
    assert_eq!(
        Err(ProtocolError::RangeOutsideLine),
        batch_run(&vec![sample(), outside, crossed], &b"x".to_vec())
    );
}

#[test]
fn words_are_read_as_answers() {
    assert_eq!(Some(Response::Accept), read_answer("y"));
    assert_eq!(Some(Response::Accept), read_answer("yes"));
    assert_eq!(Some(Response::Skip), read_answer("n"));
    assert_eq!(Some(Response::Skip), read_answer("no"));
    assert_eq!(Some(Response::Abort), read_answer("q"));
    assert_eq!(Some(Response::Abort), read_answer("quit"));
    assert_eq!(None, read_answer(""));
    assert_eq!(None, read_answer("Y"));
    assert_eq!(None, read_answer("maybe"));
}
