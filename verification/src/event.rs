//! The events of the search tool's output stream and their decoding.

use crate::json::{
    base64_decoding, decode_base64, field, get_field, get_number, get_signed, get_text,
    json_reading, number_field, read_json, same_text, signed_field, text_field, text_of_utf8,
    Json, JsonView,
};
use vstd::prelude::*;
use vstd::string::*;
use vstd::utf8::*;

verus! {

/// The bytes `[start, end)` of a line.
#[derive(Debug, Clone, Copy, PartialEq, Eq, Structural)]
pub struct ByteRange {
    pub start: usize,
    pub end: usize,
}

/// One record of the search tool's output.
#[derive(Debug, Clone, PartialEq, Eq)]
pub enum SearchEvent {
    Begin { path: Vec<u8> },
    Match {
        path: Option<Vec<u8>>,
        line_number: u64,
        absolute_offset: isize,
        line_text: Vec<u8>,
        submatches: Vec<ByteRange>,
    },
    Context { line_number: u64, line_text: Vec<u8> },
    End { path: Vec<u8> },
    Summary,
}

/// A `SearchEvent` as a mathematical value.
#[allow(inconsistent_fields)]
pub enum EventView {
    Begin { path: Seq<u8> },
    Match {
        path: Option<Seq<u8>>,
        line_number: u64,
        absolute_offset: isize,
        line_text: Seq<u8>,
        submatches: Seq<ByteRange>,
    },
    Context { line_number: u64, line_text: Seq<u8> },
    End { path: Seq<u8> },
    Summary,
}

impl View for SearchEvent {
    type V = EventView;

    open spec fn view(&self) -> EventView {
        match *self {
            SearchEvent::Begin { path } => EventView::Begin { path: path@ },
            SearchEvent::Match { path, line_number, absolute_offset, line_text, submatches } => {
                EventView::Match {
                    path: match path {
                        Some(p) => Some(p@),
                        None => None,
                    },
                    line_number,
                    absolute_offset,
                    line_text: line_text@,
                    submatches: submatches@,
                }
            },
            SearchEvent::Context { line_number, line_text } => EventView::Context {
                line_number,
                line_text: line_text@,
            },
            SearchEvent::End { path } => EventView::End { path: path@ },
            SearchEvent::Summary => EventView::Summary,
        }
    }
}

/// A field of a record.
#[derive(Debug, Clone, Copy, PartialEq, Eq, Structural)]
pub enum Field {
    Type,
    Data,
    Path,
    Lines,
    LineNumber,
    AbsoluteOffset,
    Submatches,
}

/// Why a line of the output is no event.
#[derive(Debug, Clone, Copy, PartialEq, Eq, Structural)]
pub enum ParseError {
    /// The line is not UTF-8.
    InvalidEncoding,
    /// The line is not a JSON document.
    InvalidSyntax,
    /// The record's type is none of begin, match, context, end and summary.
    UnknownType,
    /// The field is absent, or does not have the shape that it must have.
    MissingField(Field),
    /// A submatch does not lie within its line.
    InvalidRange,
}

/// The bytes that a `{"text": ..}` or `{"bytes": ..}` object stands for: the
/// UTF-8 encoding of the text, or what the base64 text decodes to.
pub open spec fn data_bytes(value: JsonView) -> Option<Seq<u8>> {
    match text_field(value, "text"@) {
        Some(text) => Some(encode_utf8(text)),
        None => match text_field(value, "bytes"@) {
            Some(coded) => base64_decoding(coded),
            None => None,
        },
    }
}

/// The bytes of the data object under `key`.
pub open spec fn data_field(value: JsonView, key: Seq<char>) -> Option<Seq<u8>> {
    match field(value, key) {
        Some(data) => data_bytes(data),
        None => None,
    }
}

/// The offset under `key`: a whole number that an `isize` holds.
pub open spec fn offset_field(value: JsonView, key: Seq<char>) -> Option<isize> {
    match signed_field(value, key) {
        Some(n) => if isize::MIN <= n <= isize::MAX {
            Some(n as isize)
        } else {
            None
        },
        None => None,
    }
}

/// The range that one entry of `submatches` gives for a line of `limit` bytes.
pub open spec fn range_of(item: JsonView, limit: nat) -> Result<ByteRange, ParseError> {
    match (number_field(item, "start"@), number_field(item, "end"@)) {
        (Some(start), Some(end)) => if start <= end && end <= limit {
            Ok(ByteRange { start: start as usize, end: end as usize })
        } else {
            Err(ParseError::InvalidRange)
        },
        _ => Err(ParseError::MissingField(Field::Submatches)),
    }
}

/// `front` before the ranges of `rest`, or the error of `rest`.
pub open spec fn after(front: Seq<ByteRange>, rest: Result<Seq<ByteRange>, ParseError>) -> Result<
    Seq<ByteRange>,
    ParseError,
> {
    match rest {
        Ok(ranges) => Ok(front + ranges),
        Err(e) => Err(e),
    }
}

/// The ranges of the entries from `from` on, or the error of the first entry
/// that gives none.
pub open spec fn ranges_from(items: Seq<JsonView>, limit: nat, from: int) -> Result<
    Seq<ByteRange>,
    ParseError,
>
    decreases items.len() - from,
{
    if from < 0 || from >= items.len() {
        Ok(Seq::empty())
    } else {
        match range_of(items[from], limit) {
            Ok(range) => after(seq![range], ranges_from(items, limit, from + 1)),
            Err(e) => Err(e),
        }
    }
}

/// The ranges under `submatches`.
pub open spec fn submatches_of(data: JsonView, limit: nat) -> Result<Seq<ByteRange>, ParseError> {
    match field(data, "submatches"@) {
        Some(JsonView::Array(items)) => ranges_from(items, limit, 0),
        _ => Err(ParseError::MissingField(Field::Submatches)),
    }
}

/// The path of a match record, which may be absent or null.
pub open spec fn optional_path(data: JsonView) -> Result<Option<Seq<u8>>, ParseError> {
    match field(data, "path"@) {
        None => Ok(None),
        Some(JsonView::Null) => Ok(None),
        Some(value) => match data_bytes(value) {
            Some(path) => Ok(Some(path)),
            None => Err(ParseError::MissingField(Field::Path)),
        },
    }
}

/// The event of a begin record with this payload.
pub open spec fn begin_of(data: JsonView) -> Result<EventView, ParseError> {
    match data_field(data, "path"@) {
        Some(path) => Ok(EventView::Begin { path }),
        None => Err(ParseError::MissingField(Field::Path)),
    }
}

/// The event of an end record with this payload.
pub open spec fn end_of(data: JsonView) -> Result<EventView, ParseError> {
    match data_field(data, "path"@) {
        Some(path) => Ok(EventView::End { path }),
        None => Err(ParseError::MissingField(Field::Path)),
    }
}

/// The event of a context record with this payload.
pub open spec fn context_of(data: JsonView) -> Result<EventView, ParseError> {
    match data_field(data, "lines"@) {
        None => Err(ParseError::MissingField(Field::Lines)),
        Some(line_text) => match number_field(data, "line_number"@) {
            None => Err(ParseError::MissingField(Field::LineNumber)),
            Some(line_number) => Ok(EventView::Context { line_number, line_text }),
        },
    }
}

/// The event of a match record with this payload.
pub open spec fn match_of(data: JsonView) -> Result<EventView, ParseError> {
    match optional_path(data) {
        Err(e) => Err(e),
        Ok(path) => match data_field(data, "lines"@) {
            None => Err(ParseError::MissingField(Field::Lines)),
            Some(line_text) => match number_field(data, "line_number"@) {
                None => Err(ParseError::MissingField(Field::LineNumber)),
                Some(line_number) => match offset_field(data, "absolute_offset"@) {
                    None => Err(ParseError::MissingField(Field::AbsoluteOffset)),
                    Some(absolute_offset) => match submatches_of(data, line_text.len()) {
                        Err(e) => Err(e),
                        Ok(submatches) => Ok(
                            EventView::Match {
                                path,
                                line_number,
                                absolute_offset,
                                line_text,
                                submatches,
                            },
                        ),
                    },
                },
            },
        },
    }
}

/// The event that a record with this type and payload stands for.
pub open spec fn payload_event(tag: Seq<char>, data: JsonView) -> Result<EventView, ParseError> {
    if tag == "begin"@ {
        begin_of(data)
    } else if tag == "match"@ {
        match_of(data)
    } else if tag == "context"@ {
        context_of(data)
    } else if tag == "end"@ {
        end_of(data)
    } else {
        Err(ParseError::UnknownType)
    }
}

/// The event that a document stands for. A summary needs no payload; every
/// other record needs its type, its payload and the payload's fields.
pub open spec fn event_of(record: JsonView) -> Result<EventView, ParseError> {
    match text_field(record, "type"@) {
        None => Err(ParseError::MissingField(Field::Type)),
        Some(tag) => if tag == "summary"@ {
            Ok(EventView::Summary)
        } else if tag != "begin"@ && tag != "match"@ && tag != "context"@ && tag != "end"@ {
            Err(ParseError::UnknownType)
        } else {
            match field(record, "data"@) {
                None => Err(ParseError::MissingField(Field::Data)),
                Some(data) => payload_event(tag, data),
            }
        },
    }
}

/// The event that a line of text stands for.
pub open spec fn text_event(text: Seq<char>) -> Result<EventView, ParseError> {
    match json_reading(text) {
        None => Err(ParseError::InvalidSyntax),
        Some(record) => event_of(record),
    }
}

/// The event that a line of bytes stands for.
pub open spec fn line_event(line: Seq<u8>) -> Result<EventView, ParseError> {
    if valid_utf8(line) {
        text_event(decode_utf8(line))
    } else {
        Err(ParseError::InvalidEncoding)
    }
}

/// Every range read from the entries of `submatches` lies within the line.
pub proof fn lemma_ranges_within(items: Seq<JsonView>, limit: nat, from: int)
    requires
        limit <= usize::MAX,
        0 <= from,
    ensures
        ranges_from(items, limit, from) matches Ok(ranges) ==> forall|i: int|
            0 <= i < ranges.len() ==> (#[trigger] ranges[i]).start <= ranges[i].end <= limit,
    decreases items.len() - from,
{
    if from < items.len() {
        lemma_ranges_within(items, limit, from + 1);
        match (range_of(items[from], limit), ranges_from(items, limit, from + 1)) {
            (Ok(range), Ok(rest)) => {
                let ranges = seq![range] + rest;
                assert forall|i: int| 0 <= i < ranges.len() implies (#[trigger] ranges[i]).start
                    <= ranges[i].end <= limit by {
                    if i > 0 {
                        assert(ranges[i] == rest[i - 1]);
                    }
                }
            },
            _ => {},
        }
    }
}

/// A match event that a document stands for has every submatch within its
/// line: no range ends before it starts or reaches beyond the line's text.
pub proof fn law_decoded_ranges_within(record: JsonView)
    ensures
        event_of(record) matches Ok(EventView::Match { line_text, submatches, .. })
            ==> line_text.len() <= usize::MAX ==> forall|i: int|
            0 <= i < submatches.len() ==> (#[trigger] submatches[i]).start <= submatches[i].end
                <= line_text.len(),
{
    match event_of(record) {
        Ok(EventView::Match { line_text, submatches, .. }) => {
            if line_text.len() <= usize::MAX {
                let data = field(record, "data"@)->0;
                match field(data, "submatches"@) {
                    Some(JsonView::Array(items)) => {
                        lemma_ranges_within(items, line_text.len(), 0);
                    },
                    _ => {},
                }
            }
        },
        _ => {},
    }
}

/// A decoding result as a mathematical value.
pub open spec fn decoded_view(r: Result<SearchEvent, ParseError>) -> Result<EventView, ParseError> {
    match r {
        Ok(event) => Ok(event@),
        Err(e) => Err(e),
    }
}

/// Reads the bytes of a `{"text": ..}` or `{"bytes": ..}` object.
pub fn read_data(value: &Json) -> (bytes: Option<Vec<u8>>)
    ensures
        match bytes {
            Some(b) => data_bytes(value@) == Some(b@),
            None => data_bytes(value@) is None,
        },
{
    match get_text(value, "text") {
        Some(text) => Some(text.as_str().as_bytes_vec()),
        None => match get_text(value, "bytes") {
            Some(coded) => decode_base64(coded.as_str()),
            None => None,
        },
    }
}

/// Reads the bytes of the data object under `key`.
pub fn read_data_field(value: &Json, key: &str) -> (bytes: Option<Vec<u8>>)
    ensures
        match bytes {
            Some(b) => data_field(value@, key@) == Some(b@),
            None => data_field(value@, key@) is None,
        },
{
    match get_field(value, key) {
        Some(data) => read_data(data),
        None => None,
    }
}

/// Reads the offset under `key`.
pub fn read_offset(value: &Json, key: &str) -> (found: Option<isize>)
    ensures
        found == offset_field(value@, key@),
{
    match get_signed(value, key) {
        Some(n) => {
            if n >= isize::MIN as i64 && n <= isize::MAX as i64 {
                Some(n as isize)
            } else {
                None
            }
        },
        None => None,
    }
}

/// Reads one entry of `submatches` for a line of `limit` bytes.
pub fn read_range(item: &Json, limit: usize) -> (r: Result<ByteRange, ParseError>)
    ensures
        r == range_of(item@, limit as nat),
{
    match (get_number(item, "start"), get_number(item, "end")) {
        (Some(start), Some(end)) => {
            if start <= end && end <= limit as u64 {
                Ok(ByteRange { start: start as usize, end: end as usize })
            } else {
                Err(ParseError::InvalidRange)
            }
        },
        _ => Err(ParseError::MissingField(Field::Submatches)),
    }
}

/// Reads the ranges under `submatches` for a line of `limit` bytes.
pub fn read_submatches(data: &Json, limit: usize) -> (r: Result<Vec<ByteRange>, ParseError>)
    ensures
        match r {
            Ok(ranges) => submatches_of(data@, limit as nat) == Ok::<Seq<ByteRange>, ParseError>(
                ranges@,
            ),
            Err(e) => submatches_of(data@, limit as nat) == Err::<Seq<ByteRange>, ParseError>(e),
        },
{
    match get_field(data, "submatches") {
        Some(Json::Array(items)) => {
            let ghost entries = field(data@, "submatches"@)->0->Array_0;
            let mut ranges: Vec<ByteRange> = Vec::new();
            let mut i: usize = 0;
            assert(after(ranges@, ranges_from(entries, limit as nat, 0)) == ranges_from(
                entries,
                limit as nat,
                0,
            )) by {
                match ranges_from(entries, limit as nat, 0) {
                    Ok(all) => assert(ranges@ + all =~= all),
                    Err(_) => {},
                }
            }
            while i < items.len()
                invariant
                    i <= items.len(),
                    entries.len() == items.len(),
                    forall|k: int| 0 <= k < items.len() ==> #[trigger] entries[k] == items[k]@,
                    submatches_of(data@, limit as nat) == after(
                        ranges@,
                        ranges_from(entries, limit as nat, i as int),
                    ),
                decreases items.len() - i,
            {
                let ghost front = ranges@;
                match read_range(&items[i], limit) {
                    Ok(range) => {
                        ranges.push(range);
                        proof {
                            match ranges_from(entries, limit as nat, i + 1) {
                                Ok(rest) => assert(front + (seq![range] + rest) =~= front.push(
                                    range,
                                ) + rest),
                                Err(_) => {},
                            }
                        }
                    },
                    Err(e) => {
                        return Err(e);
                    },
                }
                i += 1;
            }
            assert(ranges@ + Seq::<ByteRange>::empty() =~= ranges@);
            Ok(ranges)
        },
        _ => Err(ParseError::MissingField(Field::Submatches)),
    }
}

/// Reads the path of a match record.
pub fn read_optional_path(data: &Json) -> (r: Result<Option<Vec<u8>>, ParseError>)
    ensures
        match r {
            Ok(Some(p)) => optional_path(data@) == Ok::<Option<Seq<u8>>, ParseError>(Some(p@)),
            Ok(None) => optional_path(data@) == Ok::<Option<Seq<u8>>, ParseError>(None),
            Err(e) => optional_path(data@) == Err::<Option<Seq<u8>>, ParseError>(e),
        },
{
    match get_field(data, "path") {
        None => Ok(None),
        Some(Json::Null) => Ok(None),
        Some(value) => match read_data(value) {
            Some(path) => Ok(Some(path)),
            None => Err(ParseError::MissingField(Field::Path)),
        },
    }
}

/// Decodes the payload of a match record.
pub fn decode_match(data: &Json) -> (r: Result<SearchEvent, ParseError>)
    ensures
        decoded_view(r) == match_of(data@),
{
    let path = match read_optional_path(data) {
        Ok(path) => path,
        Err(e) => {
            return Err(e);
        },
    };
    let line_text = match read_data_field(data, "lines") {
        Some(text) => text,
        None => {
            return Err(ParseError::MissingField(Field::Lines));
        },
    };
    let line_number = match get_number(data, "line_number") {
        Some(n) => n,
        None => {
            return Err(ParseError::MissingField(Field::LineNumber));
        },
    };
    let absolute_offset = match read_offset(data, "absolute_offset") {
        Some(n) => n,
        None => {
            return Err(ParseError::MissingField(Field::AbsoluteOffset));
        },
    };
    let submatches = match read_submatches(data, line_text.len()) {
        Ok(ranges) => ranges,
        Err(e) => {
            return Err(e);
        },
    };
    Ok(SearchEvent::Match { path, line_number, absolute_offset, line_text, submatches })
}

/// Decodes the payload of a context record.
pub fn decode_context(data: &Json) -> (r: Result<SearchEvent, ParseError>)
    ensures
        decoded_view(r) == context_of(data@),
{
    match read_data_field(data, "lines") {
        None => Err(ParseError::MissingField(Field::Lines)),
        Some(line_text) => match get_number(data, "line_number") {
            None => Err(ParseError::MissingField(Field::LineNumber)),
            Some(line_number) => Ok(SearchEvent::Context { line_number, line_text }),
        },
    }
}

/// Decodes a document into the event that it stands for.
pub fn decode_event(record: &Json) -> (r: Result<SearchEvent, ParseError>)
    ensures
        decoded_view(r) == event_of(record@),
{
    let tag = match get_text(record, "type") {
        Some(tag) => tag,
        None => {
            return Err(ParseError::MissingField(Field::Type));
        },
    };
    if same_text(tag.as_str(), "summary") {
        return Ok(SearchEvent::Summary);
    }
    let is_begin = same_text(tag.as_str(), "begin");
    let is_match = same_text(tag.as_str(), "match");
    let is_context = same_text(tag.as_str(), "context");
    let is_end = same_text(tag.as_str(), "end");
    if !is_begin && !is_match && !is_context && !is_end {
        return Err(ParseError::UnknownType);
    }
    let data = match get_field(record, "data") {
        Some(data) => data,
        None => {
            return Err(ParseError::MissingField(Field::Data));
        },
    };
    if is_begin {
        match read_data_field(data, "path") {
            Some(path) => Ok(SearchEvent::Begin { path }),
            None => Err(ParseError::MissingField(Field::Path)),
        }
    } else if is_match {
        decode_match(data)
    } else if is_context {
        decode_context(data)
    } else {
        match read_data_field(data, "path") {
            Some(path) => Ok(SearchEvent::End { path }),
            None => Err(ParseError::MissingField(Field::Path)),
        }
    }
}

/// Decodes one line of text into its event.
pub fn parse_event(line: &str) -> (r: Result<SearchEvent, ParseError>)
    ensures
        decoded_view(r) == text_event(line@),
{
    match read_json(line) {
        None => Err(ParseError::InvalidSyntax),
        Some(record) => decode_event(&record),
    }
}

/// Decodes one line of bytes into its event.
pub fn parse_line(line: &[u8]) -> (r: Result<SearchEvent, ParseError>)
    ensures
        decoded_view(r) == line_event(line@),
{
    match text_of_utf8(line) {
        None => Err(ParseError::InvalidEncoding),
        Some(text) => {
            proof {
                encode_utf8_decode_utf8(text@);
            }
            parse_event(text)
        },
    }
}

} // verus!
