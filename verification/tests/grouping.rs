use rg_replace::event::{ByteRange, ParseError, SearchEvent};
use rg_replace::group::{
    aggregate, decode_output, same_bytes, step, AggregatorState, Collector, FileGroup, Line,
    ProtocolError, Step, StreamError,
};

fn begin(path: &str) -> SearchEvent {
    SearchEvent::Begin { path: path.as_bytes().to_vec() }
}

fn end(path: &str) -> SearchEvent {
    SearchEvent::End { path: path.as_bytes().to_vec() }
}

fn found(n: u64, text: &str, start: usize, end: usize) -> SearchEvent {
    SearchEvent::Match {
        path: None,
        line_number: n,
        absolute_offset: 0,
        line_text: text.as_bytes().to_vec(),
        submatches: vec![ByteRange { start, end }],
    }
}

fn around(n: u64, text: &str) -> SearchEvent {
    SearchEvent::Context { line_number: n, line_text: text.as_bytes().to_vec() }
}

#[test]
fn one_group_for_each_begin_and_end() {
    let groups = aggregate(vec![
        begin("a.txt"),
        around(1, "one"),
        found(2, "two", 0, 3),
        SearchEvent::Summary,
        around(3, "three"),
        end("a.txt"),
        begin("b.txt"),
        end("b.txt"),
        SearchEvent::Summary,
    ]);
    assert_eq!(
        Ok(vec![
            FileGroup {
                path: b"a.txt".to_vec(),
                lines: vec![
                    Line::Context { line_number: 1, text: b"one".to_vec() },
                    Line::Matched {
                        line_number: 2,
                        absolute_offset: 0,
                        text: b"two".to_vec(),
                        submatches: vec![ByteRange { start: 0, end: 3 }],
                    },
                    Line::Context { line_number: 3, text: b"three".to_vec() },
                ],
            },
            FileGroup { path: b"b.txt".to_vec(), lines: vec![] },
        ]),
        groups
    );
}

#[test]
fn no_events_give_no_groups() {
    assert_eq!(Ok(vec![]), aggregate(vec![]));
    assert_eq!(Ok(vec![]), aggregate(vec![SearchEvent::Summary]));
}

#[test]
fn stream_that_ends_in_an_open_group_fails() {
    let events = vec![
        begin("a.txt"),
        found(1, "x", 0, 1),
        end("a.txt"),
        begin("a.txt"),
        around(2, "y"),
    ];
    assert_eq!(Err(ProtocolError::Unterminated), aggregate(events));
}

#[test]
fn begin_inside_a_group_fails() {
    assert_eq!(
        Err(ProtocolError::NestedBegin),
        aggregate(vec![begin("a"), begin("b"), end("b"), end("a")])
    );
}

#[test]
fn lines_outside_a_group_fail() {
    assert_eq!(Err(ProtocolError::OutsideGroup), aggregate(vec![found(1, "x", 0, 1)]));
    assert_eq!(
        Err(ProtocolError::OutsideGroup),
        aggregate(vec![begin("a"), end("a"), around(1, "x")])
    );
}

#[test]
fn end_must_match_the_open_group() {
    assert_eq!(Err(ProtocolError::UnexpectedEnd), aggregate(vec![end("a")]));
    assert_eq!(Err(ProtocolError::MismatchedEnd), aggregate(vec![begin("a"), end("b")]));
}

#[test]
fn the_first_error_wins() {
    assert_eq!(
        Err(ProtocolError::OutsideGroup),
        aggregate(vec![around(1, "x"), begin("a"), begin("b")])
    );
}

#[test]
fn step_follows_the_state_machine() {
    let opened = step(AggregatorState::Idle, begin("a"));
    assert_eq!(
        Ok(Step {
            state: AggregatorState::InFile { path: b"a".to_vec(), lines: vec![] },
            emitted: None,
        }),
        opened
    );
    let state = opened.unwrap().state;
    let filled = step(state, around(4, "ctx")).unwrap();
    assert_eq!(None, filled.emitted);
    let same = step(filled.state.clone(), SearchEvent::Summary).unwrap();
    assert_eq!(filled.state, same.state);
    let sealed = step(same.state, end("a")).unwrap();
    assert_eq!(AggregatorState::Idle, sealed.state);
    assert_eq!(
        Some(FileGroup {
            path: b"a".to_vec(),
            lines: vec![Line::Context { line_number: 4, text: b"ctx".to_vec() }],
        }),
        sealed.emitted
    );
    assert_eq!(
        Ok(Step { state: AggregatorState::Idle, emitted: None }),
        step(AggregatorState::Idle, SearchEvent::Summary)
    );
}

#[test]
fn collector_takes_a_stream_line_by_line() {
    let collector = Collector::new();
    let collector = collector
        .feed(br#"{"type":"begin","data":{"path":{"text":"a.txt"}}}"#)
        .unwrap();
    let collector = collector
        .feed(br#"{"type":"context","data":{"lines":{"text":"x\n"},"line_number":9}}"#)
        .unwrap();
    assert_eq!(Err(ProtocolError::Unterminated), collector.clone().finish());
    let collector = collector
        .feed(br#"{"type":"end","data":{"path":{"text":"a.txt"}}}"#)
        .unwrap();
    assert_eq!(
        Ok(vec![FileGroup {
            path: b"a.txt".to_vec(),
            lines: vec![Line::Context { line_number: 9, text: b"x\n".to_vec() }],
        }]),
        collector.finish()
    );
}

#[test]
fn collector_reports_what_is_wrong_with_a_line() {
    assert_eq!(
        Err(StreamError::Parse(ParseError::InvalidSyntax)),
        Collector::new().feed(b"not json")
    );
    assert_eq!(
        Err(StreamError::Protocol(ProtocolError::UnexpectedEnd)),
        Collector::new().feed(br#"{"type":"end","data":{"path":{"text":"a.txt"}}}"#)
    );
}

#[test]
fn whole_output_is_split_at_line_feeds() {
    let output = concat_lines(&[
        r#"{"type":"begin","data":{"path":{"text":"a.txt"}}}"#,
        r#"{"type":"match","data":{"path":{"text":"a.txt"},"lines":{"text":"fooBARbaz\n"},"line_number":1,"absolute_offset":0,"submatches":[{"match":{"text":"BAR"},"start":3,"end":6}]}}"#,
        r#"{"type":"end","data":{"path":{"text":"a.txt"},"binary_offset":null}}"#,
        r#"{"type":"summary","data":{}}"#,
    ]);
    let expected = vec![FileGroup {
        path: b"a.txt".to_vec(),
        lines: vec![Line::Matched {
            line_number: 1,
            absolute_offset: 0,
            text: b"fooBARbaz\n".to_vec(),
            submatches: vec![ByteRange { start: 3, end: 6 }],
        }],
    }];
    assert_eq!(Ok(expected.clone()), decode_output(output.as_bytes()));
    let without_last_feed = &output.as_bytes()[..output.len() - 1];
    assert_eq!(Ok(expected), decode_output(without_last_feed));
}

fn concat_lines(lines: &[&str]) -> String {
    let mut out = String::new();
    for line in lines {
        out.push_str(line);
        out.push('\n');
    }
    out
}

#[test]
fn empty_output_gives_no_groups() {
    assert_eq!(Ok(vec![]), decode_output(b""));
}

#[test]
fn an_empty_line_in_the_output_is_no_event() {
    let output = b"{\"type\":\"summary\"}\n\n{\"type\":\"summary\"}\n";
    assert_eq!(Err(StreamError::Parse(ParseError::InvalidSyntax)), decode_output(output));
}

#[test]
fn output_with_an_open_group_fails() {
    let output = concat_lines(&[
        r#"{"type":"begin","data":{"path":{"text":"a.txt"}}}"#,
        r#"{"type":"match","data":{"lines":{"text":"x"},"line_number":1,"absolute_offset":0,"submatches":[]}}"#,
        r#"{"type":"end","data":{"path":{"text":"a.txt"}}}"#,
        r#"{"type":"begin","data":{"path":{"text":"a.txt"}}}"#,
        r#"{"type":"context","data":{"lines":{"text":"y"},"line_number":2}}"#,
    ]);
    assert_eq!(
        Err(StreamError::Protocol(ProtocolError::Unterminated)),
        decode_output(output.as_bytes())
    );
}

#[test]
fn output_that_is_no_utf8_fails() {
    assert_eq!(
        Err(StreamError::Parse(ParseError::InvalidEncoding)),
        decode_output(&[0x7b, 0x80, 0x7d, 0x0a])
    );
}

#[test]
fn line_gives_its_number_and_text() {
    let matched = Line::Matched {
        line_number: 41,
        absolute_offset: 7,
        text: b"abc".to_vec(),
        submatches: vec![],
    };
    let context = Line::Context { line_number: 42, text: b"def".to_vec() };
    assert_eq!(41, matched.line_number());
    assert_eq!(42, context.line_number());
    assert_eq!(&b"abc".to_vec(), matched.text());
    assert_eq!(&b"def".to_vec(), context.text());
}

#[test]
fn bytes_are_compared_one_by_one() {
    assert!(same_bytes(&b"abc".to_vec(), &b"abc".to_vec()));
    assert!(!same_bytes(&b"abc".to_vec(), &b"abd".to_vec()));
    assert!(!same_bytes(&b"abc".to_vec(), &b"ab".to_vec()));
    assert!(same_bytes(&vec![], &vec![]));
}
