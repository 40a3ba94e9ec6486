use rg_replace::event::ByteRange;
use rg_replace::group::{FileGroup, Line, ProtocolError};
use rg_replace::render::{
    check_ranges, count_digits, decimal_digits, gutter, gutter_width, render_line, segments,
    RenderedLine, Segment,
};

fn piece(text: &str, emphasized: bool) -> Segment {
    Segment { text: text.as_bytes().to_vec(), emphasized }
}

fn range(start: usize, end: usize) -> ByteRange {
    ByteRange { start, end }
}

#[test]
fn digits_are_counted() {
    assert_eq!(1, count_digits(0));
    assert_eq!(1, count_digits(9));
    assert_eq!(2, count_digits(10));
    assert_eq!(3, count_digits(999));
    assert_eq!(4, count_digits(1000));
    assert_eq!(20, count_digits(u64::MAX));
}

#[test]
fn numbers_are_written_in_decimal() {
    assert_eq!(b"0".to_vec(), decimal_digits(0));
    assert_eq!(b"7".to_vec(), decimal_digits(7));
    assert_eq!(b"1203".to_vec(), decimal_digits(1203));
    assert_eq!(b"18446744073709551615".to_vec(), decimal_digits(u64::MAX));
}

#[test]
fn gutter_is_as_wide_as_the_longest_number() {
    let group = FileGroup {
        path: b"a".to_vec(),
        lines: vec![
            Line::Context { line_number: 8, text: vec![] },
            Line::Context { line_number: 123, text: vec![] },
            Line::Matched { line_number: 10, absolute_offset: 0, text: vec![], submatches: vec![] },
        ],
    };
    assert_eq!(3, gutter_width(&group));
    assert_eq!(0, gutter_width(&FileGroup { path: vec![], lines: vec![] }));
}

#[test]
fn gutter_aligns_to_the_right() {
    assert_eq!(b"  7".to_vec(), gutter(7, 3));
    assert_eq!(b"123".to_vec(), gutter(123, 3));
    assert_eq!(b"1234".to_vec(), gutter(1234, 2));
    assert_eq!(b"5".to_vec(), gutter(5, 0));
}

#[test]
fn submatch_becomes_one_emphasised_segment() {
    assert_eq!(
        Ok(vec![piece("foo", false), piece("BAR", true), piece("baz", false)]),
        segments(&b"fooBARbaz".to_vec(), &vec![range(3, 6)])
    );
}

#[test]
fn segments_at_the_edges_have_no_empty_neighbours() {
    assert_eq!(
        Ok(vec![piece("foo", true), piece("BARbaz", false)]),
        segments(&b"fooBARbaz".to_vec(), &vec![range(0, 3)])
    );
    assert_eq!(
        Ok(vec![piece("fooBAR", false), piece("baz", true)]),
        segments(&b"fooBARbaz".to_vec(), &vec![range(6, 9)])
    );
    assert_eq!(
        Ok(vec![piece("foo", true), piece("BAR", true), piece("baz", false)]),
        segments(&b"fooBARbaz".to_vec(), &vec![range(0, 3), range(3, 6)])
    );
    assert_eq!(Ok(vec![piece("abc", false)]), segments(&b"abc".to_vec(), &vec![]));
    assert_eq!(Ok(vec![]), segments(&vec![], &vec![]));
}

#[test]
fn empty_submatch_is_kept() {
    assert_eq!(
        Ok(vec![piece("ab", false), piece("", true), piece("c", false)]),
        segments(&b"abc".to_vec(), &vec![range(2, 2)])
    );
}

#[test]
fn faulty_submatches_are_refused() {
    let text = b"fooBARbaz".to_vec();
    assert_eq!(
        Err(ProtocolError::OverlappingSubmatches),
        segments(&text, &vec![range(3, 6), range(5, 7)])
    );
    assert_eq!(
        Err(ProtocolError::OverlappingSubmatches),
        segments(&text, &vec![range(5, 6), range(1, 2)])
    );
    assert_eq!(Err(ProtocolError::RangeOutsideLine), segments(&text, &vec![range(4, 2)]));
    assert_eq!(Err(ProtocolError::RangeOutsideLine), segments(&text, &vec![range(0, 10)]));
    assert_eq!(
        Err(ProtocolError::RangeOutsideLine),
        segments(&text, &vec![range(0, 20), range(1, 2)])
    );
}

#[test]
fn ranges_are_checked_in_order() {
    assert_eq!(Ok(()), check_ranges(&vec![range(0, 1), range(1, 4), range(6, 9)], 9));
    assert_eq!(Ok(()), check_ranges(&vec![], 0));
    assert_eq!(
        Err(ProtocolError::OverlappingSubmatches),
        check_ranges(&vec![range(0, 2), range(1, 4)], 9)
    );
    assert_eq!(Err(ProtocolError::RangeOutsideLine), check_ranges(&vec![range(0, 2)], 1));
}

#[test]
fn matched_line_is_rendered_with_gutter_and_emphasis() {
    let line = Line::Matched {
        line_number: 12,
        absolute_offset: 0,
        text: b"fooBARbaz".to_vec(),
        submatches: vec![range(3, 6)],
    };
    assert_eq!(
        Ok(RenderedLine {
            gutter: b" 12".to_vec(),
            segments: vec![piece("foo", false), piece("BAR", true), piece("baz", false)],
        }),
        render_line(&line, 3)
    );
}

#[test]
fn context_line_is_rendered_plain() {
    let line = Line::Context { line_number: 3, text: b"plain".to_vec() };
    assert_eq!(
        Ok(RenderedLine { gutter: b"   3".to_vec(), segments: vec![piece("plain", false)] }),
        render_line(&line, 4)
    );
    let empty = Line::Context { line_number: 3, text: vec![] };
    assert_eq!(
        Ok(RenderedLine { gutter: b"3".to_vec(), segments: vec![] }),
        render_line(&empty, 1)
    );
}

#[test]
fn matched_line_with_a_faulty_submatch_is_not_rendered() {
    let line = Line::Matched {
        line_number: 1,
        absolute_offset: 0,
        text: b"abc".to_vec(),
        submatches: vec![range(0, 2), range(1, 3)],
    };
    assert_eq!(Err(ProtocolError::OverlappingSubmatches), render_line(&line, 1));
}
