//! Records that hold one JSON text each.
//!
//! A buffer is split into records as elsewhere; each record that is not
//! blank is read as JSON, and keeps the value or the fact that it is none.

use crate::scorer::{is_split, lemma_split_bounds, lemma_split_unique, split_records};
use vstd::prelude::*;

verus! {

/// `serde_json::Value`: a JSON value, which this module stores and hands on
/// without looking inside.
#[verifier::external_type_specification]
#[verifier::external_body]
pub struct ExValue(serde_json::Value);

/// The kinds of JSON values.
#[derive(Debug, Clone, Copy, PartialEq, Eq, Hash, Structural)]
pub enum JsonType {
    Null,
    Bool,
    Number,
    String,
    Array,
    Object,
}

impl JsonType {
    /// The name of the kind in lower case.
    pub open spec fn spec_name(self) -> Seq<char> {
        match self {
            JsonType::Null => "null"@,
            JsonType::Bool => "bool"@,
            JsonType::Number => "number"@,
            JsonType::String => "string"@,
            JsonType::Array => "array"@,
            JsonType::Object => "object"@,
        }
    }

    /// The name of the kind in lower case.
    pub fn name(&self) -> (s: &'static str)
        ensures
            s@ == self.spec_name(),
    {
        match self {
            JsonType::Null => "null",
            JsonType::Bool => "bool",
            JsonType::Number => "number",
            JsonType::String => "string",
            JsonType::Array => "array",
            JsonType::Object => "object",
        }
    }
}

/// The kind of the value that a text holds when it is read as JSON, or none
/// where the text is not one JSON value.
pub uninterp spec fn json_kind(text: Seq<u8>) -> Option<JsonType>;

/// Reads `text` with `serde_json::from_slice`: the value, if the whole text
/// is one JSON value, together with its kind. What comes back depends on the
/// bytes alone, so the kind is `json_kind` of them.
#[verifier::external_body]
fn read_json(text: &[u8]) -> (r: (Option<serde_json::Value>, Option<JsonType>))
    ensures
        r.1 == json_kind(text@),
        r.0 is Some <==> r.1 is Some,
{
    match serde_json::from_slice::<serde_json::Value>(text) {
        Ok(v) => {
            let kind = match &v {
                serde_json::Value::Null => JsonType::Null,
                serde_json::Value::Bool(_) => JsonType::Bool,
                serde_json::Value::Number(_) => JsonType::Number,
                serde_json::Value::String(_) => JsonType::String,
                serde_json::Value::Array(_) => JsonType::Array,
                serde_json::Value::Object(_) => JsonType::Object,
            };
            (Some(v), Some(kind))
        },
        Err(_) => (None, None),
    }
}

/// ASCII white space: space, tab, line feed, form feed, carriage return.
pub open spec fn is_space(b: u8) -> bool {
    b == 32 || b == 9 || b == 10 || b == 12 || b == 13
}

/// `s` without the white space at its start.
pub open spec fn trim_start(s: Seq<u8>) -> Seq<u8>
    decreases s.len(),
{
    if s.len() > 0 && is_space(s[0]) {
        trim_start(s.subrange(1, s.len() as int))
    } else {
        s
    }
}

/// `s` without the white space at its end.
pub open spec fn trim_end(s: Seq<u8>) -> Seq<u8>
    decreases s.len(),
{
    if s.len() > 0 && is_space(s.last()) {
        trim_end(s.drop_last())
    } else {
        s
    }
}

/// `s` without the white space at its start and at its end.
pub open spec fn trimmed(s: Seq<u8>) -> Seq<u8> {
    trim_end(trim_start(s))
}

/// Whether `b` is ASCII white space.
fn space(b: u8) -> (r: bool)
    ensures
        r == is_space(b),
{
    b == 32 || b == 9 || b == 10 || b == 12 || b == 13
}

/// Strip ASCII white space from both ends.
pub fn trim_ascii(s: &[u8]) -> (out: &[u8])
    ensures
        out@ == trimmed(s@),
{
    let n: usize = s.len();
    let mut start: usize = 0;
    proof {
        assert(s@.subrange(0, n as int) =~= s@);
    }
    while start < n && space(s[start])
        invariant
            n == s@.len(),
            start <= n,
            trim_start(s@) == trim_start(s@.subrange(start as int, n as int)),
        decreases n - start,
    {
        proof {
            let part = s@.subrange(start as int, n as int);
            assert(part[0] == s@[start as int]);
            assert(part.subrange(1, part.len() as int) =~= s@.subrange(start + 1, n as int));
        }
        start += 1;
    }
    let ghost front = s@.subrange(start as int, n as int);
    proof {
        if start < n {
            assert(front[0] == s@[start as int]);
        }
        assert(trim_start(front) == front);
    }
    let mut end: usize = n;
    while end > start && space(s[end - 1])
        invariant
            n == s@.len(),
            start <= end <= n,
            trim_end(front) == trim_end(s@.subrange(start as int, end as int)),
            front == s@.subrange(start as int, n as int),
        decreases end,
    {
        proof {
            let part = s@.subrange(start as int, end as int);
            assert(part.last() == s@[end - 1]);
            assert(part.drop_last() =~= s@.subrange(start as int, end - 1));
        }
        end -= 1;
    }
    proof {
        let part = s@.subrange(start as int, end as int);
        if end > start {
            assert(part.last() == s@[end - 1]);
        }
        assert(trim_end(part) == part);
    }
    vstd::slice::slice_subrange(s, start, end)
}

/// One record of a buffer read as JSON.
#[derive(Debug)]
pub struct JsonRecord {
    pub offset: usize,
    pub length: usize,
    pub value: Option<serde_json::Value>,
    pub parse_error: bool,
}

impl JsonRecord {
    /// The bytes of `data` that this record spans.
    pub open spec fn span(self, data: Seq<u8>) -> Seq<u8> {
        data.subrange(self.offset as int, self.offset + self.length)
    }

    /// The record at `offset` with what reading its text gave: a value, or
    /// none where the text is not JSON.
    pub fn new(offset: usize, length: usize, value: Option<serde_json::Value>) -> (rec: JsonRecord)
        ensures
            rec.offset == offset,
            rec.length == length,
            rec.value == value,
            rec.parse_error == (value is None),
    {
        let parse_error: bool = value.is_none();
        JsonRecord { offset, length, value, parse_error }
    }

    /// Return the byte content of this record.
    pub fn content<'a>(&self, data: &'a [u8]) -> (out: &'a [u8])
        requires
            self.offset + self.length <= data@.len(),
        ensures
            out@ == self.span(data@),
    {
        let n: usize = data.len();
        assert(self.offset + self.length <= n);
        let end: usize = self.offset + self.length;
        vstd::slice::slice_subrange(data, self.offset, end)
    }
}

/// The line of a record: its bytes without the delimiter that closes it.
pub open spec fn line_of(data: Seq<u8>, delimiter: u8, span: (usize, usize)) -> Seq<u8> {
    let end = span.0 + span.1;
    if span.1 > 0 && data[end - 1] == delimiter {
        data.subrange(span.0 as int, end - 1)
    } else {
        data.subrange(span.0 as int, end)
    }
}

/// The text of a record: its line without white space at either end.
pub open spec fn text_of(data: Seq<u8>, delimiter: u8, span: (usize, usize)) -> Seq<u8> {
    trimmed(line_of(data, delimiter, span))
}

/// For each span whose text is not empty, in order: its offset, its length,
/// and whether its text fails to be JSON.
pub open spec fn json_rows(data: Seq<u8>, delimiter: u8, spans: Seq<(usize, usize)>) -> Seq<
    (usize, usize, bool),
>
    decreases spans.len(),
{
    if spans.len() == 0 {
        Seq::empty()
    } else {
        let head = json_rows(data, delimiter, spans.drop_last());
        let text = text_of(data, delimiter, spans.last());
        if text.len() == 0 {
            head
        } else {
            head.push((spans.last().0, spans.last().1, json_kind(text) is None))
        }
    }
}

/// The offset, the length and the error flag of each record.
pub open spec fn rows_of(records: Seq<JsonRecord>) -> Seq<(usize, usize, bool)> {
    Seq::new(records.len(), |i: int| (records[i].offset, records[i].length, records[i].parse_error))
}

/// Read each record of `data` that is not blank as JSON.
///
/// The records are those that `delimiter` closes, and one more for the
/// bytes after the last delimiter. A record whose line is empty or white
/// space is left out; the others keep their value, or an error flag where
/// the text is not JSON.
pub fn parse_json_records(data: &[u8], delimiter: u8) -> (records: Vec<JsonRecord>)
    ensures
        forall|spans: Seq<(usize, usize)>| #[trigger]
            is_split(data@, delimiter, spans) ==> rows_of(records@) == json_rows(
                data@,
                delimiter,
                spans,
            ),
        forall|i: int|
            0 <= i < records@.len() ==> ((#[trigger] records@[i]).value is Some
                <==> !records@[i].parse_error),
{
    let n: usize = data.len();
    let spans = split_records(data, delimiter);
    let mut records: Vec<JsonRecord> = Vec::new();
    let mut r: usize = 0;
    while r < spans.len()
        invariant
            n == data@.len(),
            is_split(data@, delimiter, spans@),
            r <= spans@.len(),
            rows_of(records@) == json_rows(data@, delimiter, spans@.subrange(0, r as int)),
            forall|i: int|
                0 <= i < records@.len() ==> ((#[trigger] records@[i]).value is Some
                    <==> !records@[i].parse_error),
        decreases spans@.len() - r,
    {
        let offset: usize = spans[r].0;
        let length: usize = spans[r].1;
        proof {
            lemma_split_bounds(data@, delimiter, spans@, r as int);
            let part = spans@.subrange(0, r + 1);
            assert(part.drop_last() =~= spans@.subrange(0, r as int));
            assert(part.last() == spans@[r as int]);
        }
        let end: usize = offset + length;
        let line_end: usize = if data[end - 1] == delimiter {
            end - 1
        } else {
            end
        };
        let line: &[u8] = vstd::slice::slice_subrange(data, offset, line_end);
        let text: &[u8] = trim_ascii(line);
        let ghost before = rows_of(records@);
        if text.len() > 0 {
            let read = read_json(text);
            let rec = JsonRecord::new(offset, length, read.0);
            records.push(rec);
            proof {
                assert(rows_of(records@) =~= before.push((offset, length, read.1 is None)));
            }
        } else {
            proof {
                assert(rows_of(records@) =~= before);
            }
        }
        r += 1;
    }
    proof {
        assert(spans@.subrange(0, r as int) =~= spans@);
        assert forall|other: Seq<(usize, usize)>| #[trigger]
            is_split(data@, delimiter, other) implies rows_of(records@) == json_rows(
            data@,
            delimiter,
            other,
        ) by {
            lemma_split_unique(data@, delimiter, spans@, other);
        }
    }
    records
}

/// The index of the first line feed at or after `from`, or the length.
pub open spec fn line_end(data: Seq<u8>, from: int) -> int
    decreases data.len() - from,
{
    if from >= data.len() {
        data.len() as int
    } else if data[from] == 10 {
        from
    } else {
        line_end(data, from + 1)
    }
}

/// The text is not empty and is a JSON object.
pub open spec fn holds_object(text: Seq<u8>) -> bool {
    text.len() > 0 && json_kind(text) == Some(JsonType::Object)
}

/// Whether the kind that reading a text of `len` bytes gave is that of an
/// object.
pub fn is_object_text(len: usize, kind: Option<JsonType>) -> (r: bool)
    ensures
        r == (len > 0 && kind == Some(JsonType::Object)),
{
    if len == 0 {
        return false;
    }
    match kind {
        Some(JsonType::Object) => true,
        _ => false,
    }
}

/// Whether the first line of `data` is a JSON object.
pub fn looks_like_json(data: &[u8]) -> (r: bool)
    ensures
        r == holds_object(trimmed(data@.subrange(0, line_end(data@, 0)))),
{
    let n: usize = data.len();
    let mut end: usize = 0;
    while end < n && data[end] != 10
        invariant
            n == data@.len(),
            end <= n,
            line_end(data@, 0) == line_end(data@, end as int),
        decreases n - end,
    {
        end += 1;
    }
    let line: &[u8] = vstd::slice::slice_subrange(data, 0, end);
    let text: &[u8] = trim_ascii(line);
    if text.len() == 0 {
        return false;
    }
    let read = read_json(text);
    is_object_text(text.len(), read.1)
}

} // verus!
