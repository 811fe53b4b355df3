//! Line scanning: where a line ends, and whether it declares a key.

use vstd::prelude::*;
use vstd::utf8::{decode_utf8, valid_utf8};

verus! {

/// `\n`
pub const LF: u8 = 0x0a;

/// `\r`
pub const CR: u8 = 0x0d;

/// `=`
pub const EQUALS: u8 = 0x3d;

/// `#`
pub const HASH: u8 = 0x23;

/// Byte offsets of one declaration inside the buffer.
#[derive(Clone, Copy, Debug, PartialEq, Eq, Structural)]
pub struct Span {
    /// First byte of the line, a leading `#` included.
    pub line_start: usize,
    /// First byte after the `=`.
    pub value_start: usize,
    /// End of the value: the line's end, trailing `\r` and `\n` excluded.
    pub value_end: usize,
}

/// One line, classified.
#[derive(Debug)]
pub enum Line {
    /// A line holding an `=`: its key (leading `#` and white space removed)
    /// and where it stands.
    Declaration { key: Vec<u8>, span: Span },
    /// Any other line: kept as it is, never indexed.
    Inert,
}

/// Offset just past the line that starts at `start`: after its `\n`, or the
/// end of the buffer.
pub open spec fn line_end(b: Seq<u8>, start: int) -> int
    decreases b.len() - start,
{
    if start >= b.len() {
        b.len() as int
    } else if b[start] == LF {
        start + 1
    } else {
        line_end(b, start + 1)
    }
}

/// `end` moved back over any trailing `\r` and `\n` bytes, not below `start`.
pub open spec fn trim_end(b: Seq<u8>, start: int, end: int) -> int
    decreases end - start,
{
    if end > start && (b[end - 1] == LF || b[end - 1] == CR) {
        trim_end(b, start, end - 1)
    } else {
        end
    }
}

/// Offset of the first `=` in `b[start..end]`, or `end` when there is none.
pub open spec fn first_equals(b: Seq<u8>, start: int, end: int) -> int
    decreases end - start,
{
    if start >= end {
        end
    } else if b[start] == EQUALS {
        start
    } else {
        first_equals(b, start + 1, end)
    }
}

/// Length in bytes of the UTF-8 encoded white-space character (Unicode
/// property White_Space) that starts at `i` and ends by `end`; 0 when none does.
pub open spec fn space_len(b: Seq<u8>, i: int, end: int) -> int {
    if i < end && (0x09 <= b[i] <= 0x0d || b[i] == 0x20) {
        1
    } else if end - i > 1 && b[i] == 0xc2 && (b[i + 1] == 0x85 || b[i + 1] == 0xa0) {
        2
    } else if end - i > 2 && ((b[i] == 0xe1 && b[i + 1] == 0x9a && b[i + 2] == 0x80) || (b[i]
        == 0xe2 && b[i + 1] == 0x80 && (0x80 <= b[i + 2] <= 0x8a || b[i + 2] == 0xa8 || b[i + 2]
        == 0xa9 || b[i + 2] == 0xaf)) || (b[i] == 0xe2 && b[i + 1] == 0x81 && b[i + 2] == 0x9f)
        || (b[i] == 0xe3 && b[i + 1] == 0x80 && b[i + 2] == 0x80)) {
        3
    } else {
        0
    }
}

/// `i` moved forward over every leading `#` and white-space character before `end`.
pub open spec fn key_start(b: Seq<u8>, i: int, end: int) -> int
    decreases end - i,
{
    if i < end && b[i] == HASH {
        key_start(b, i + 1, end)
    } else if i < end && space_len(b, i, end) > 0 {
        key_start(b, i + space_len(b, i, end), end)
    } else {
        i
    }
}

/// What the line starting at `start` declares: its key and its span, or
/// nothing when it holds no `=` or is not valid UTF-8.
pub open spec fn declaration(b: Seq<u8>, start: int) -> Option<(Seq<u8>, Span)> {
    let content_end = trim_end(b, start, line_end(b, start));
    let eq = first_equals(b, start, content_end);
    if eq < content_end && valid_utf8(b.subrange(start, content_end)) {
        Some(
            (
                b.subrange(key_start(b, start, eq), eq),
                Span {
                    line_start: start as usize,
                    value_start: (eq + 1) as usize,
                    value_end: content_end as usize,
                },
            ),
        )
    } else {
        None
    }
}

/// A line holds at least one byte, and only its last byte may be `\n`.
pub proof fn lemma_line_end_bounds(b: Seq<u8>, start: int)
    requires
        0 <= start < b.len(),
    ensures
        start < line_end(b, start) <= b.len(),
        forall|j: int| start <= j < line_end(b, start) - 1 ==> b[j] != LF,
        line_end(b, start) < b.len() ==> b[line_end(b, start) - 1] == LF,
    decreases b.len() - start,
{
    if b[start] != LF {
        if start + 1 < b.len() {
            lemma_line_end_bounds(b, start + 1);
        } else {
            assert(line_end(b, start + 1) == b.len());
        }
    }
}

/// Trimming stays between the bounds.
pub proof fn lemma_trim_end_bounds(b: Seq<u8>, start: int, end: int)
    requires
        start <= end,
    ensures
        start <= trim_end(b, start, end) <= end,
    decreases end - start,
{
    if end > start && (b[end - 1] == LF || b[end - 1] == CR) {
        lemma_trim_end_bounds(b, start, end - 1);
    }
}

/// The first `=` lies in range and is an `=`.
pub proof fn lemma_first_equals_bounds(b: Seq<u8>, start: int, end: int)
    requires
        start <= end,
    ensures
        start <= first_equals(b, start, end) <= end,
        first_equals(b, start, end) < end ==> b[first_equals(b, start, end)] == EQUALS,
    decreases end - start,
{
    if start < end && b[start] != EQUALS {
        lemma_first_equals_bounds(b, start + 1, end);
    }
}

/// The key starts in range.
pub proof fn lemma_key_start_bounds(b: Seq<u8>, i: int, end: int)
    requires
        i <= end,
    ensures
        i <= key_start(b, i, end) <= end,
    decreases end - i,
{
    if i < end && b[i] == HASH {
        lemma_key_start_bounds(b, i + 1, end);
    } else if i < end && space_len(b, i, end) > 0 {
        lemma_key_start_bounds(b, i + space_len(b, i, end), end);
    }
}


/// Relies on `String::from_utf8`: it succeeds exactly on valid UTF-8, and
/// the string then holds the decoded characters.
#[verifier::external_body]
pub(crate) fn utf8_string(bytes: Vec<u8>) -> (r: Option<String>)
    ensures
        r is Some <==> valid_utf8(bytes@),
        r matches Some(s) ==> s@ == decode_utf8(bytes@),
{
    String::from_utf8(bytes).ok()
}

/// The bytes `b[start..end]` as a new vector.
pub fn copy_range(b: &Vec<u8>, start: usize, end: usize) -> (r: Vec<u8>)
    requires
        start <= end <= b.len(),
    ensures
        r@ == b@.subrange(start as int, end as int),
{
    let mut r: Vec<u8> = Vec::new();
    let mut i: usize = start;
    while i < end
        invariant
            start <= i <= end <= b.len(),
            r@ == b@.subrange(start as int, i as int),
        decreases end - i,
    {
        r.push(b[i]);
        i = i + 1;
    }
    r
}

/// The offset where the next line starts.
fn line_end_at(b: &Vec<u8>, start: usize) -> (r: usize)
    requires
        start < b.len(),
    ensures
        r == line_end(b@, start as int),
{
    let mut i: usize = start;
    while i < b.len() && b[i] != LF
        invariant
            start <= i <= b.len(),
            line_end(b@, start as int) == line_end(b@, i as int),
        decreases b.len() - i,
    {
        i = i + 1;
    }
    if i < b.len() {
        i + 1
    } else {
        i
    }
}

/// `end` moved back over trailing `\r` and `\n`.
fn trim_end_at(b: &Vec<u8>, start: usize, end: usize) -> (r: usize)
    requires
        start <= end <= b.len(),
    ensures
        r == trim_end(b@, start as int, end as int),
{
    let mut e: usize = end;
    while e > start && (b[e - 1] == LF || b[e - 1] == CR)
        invariant
            start <= e <= end <= b.len(),
            trim_end(b@, start as int, end as int) == trim_end(b@, start as int, e as int),
        decreases e,
    {
        e = e - 1;
    }
    e
}

/// Offset of the first `=`, or `end`.
fn first_equals_at(b: &Vec<u8>, start: usize, end: usize) -> (r: usize)
    requires
        start <= end <= b.len(),
    ensures
        r == first_equals(b@, start as int, end as int),
{
    let mut i: usize = start;
    while i < end && b[i] != EQUALS
        invariant
            start <= i <= end <= b.len(),
            first_equals(b@, start as int, end as int) == first_equals(b@, i as int, end as int),
        decreases end - i,
    {
        i = i + 1;
    }
    i
}

/// Length of the white-space character at `i`, or 0.
fn space_len_at(b: &Vec<u8>, i: usize, end: usize) -> (r: usize)
    requires
        i <= end <= b.len(),
    ensures
        r == space_len(b@, i as int, end as int),
{
    if i < end && ((0x09 <= b[i] && b[i] <= 0x0d) || b[i] == 0x20) {
        1
    } else if end - i > 1 && b[i] == 0xc2 && (b[i + 1] == 0x85 || b[i + 1] == 0xa0) {
        2
    } else if end - i > 2 && ((b[i] == 0xe1 && b[i + 1] == 0x9a && b[i + 2] == 0x80) || (b[i]
        == 0xe2 && b[i + 1] == 0x80 && ((0x80 <= b[i + 2] && b[i + 2] <= 0x8a) || b[i + 2] == 0xa8
        || b[i + 2] == 0xa9 || b[i + 2] == 0xaf)) || (b[i] == 0xe2 && b[i + 1] == 0x81 && b[i + 2]
        == 0x9f) || (b[i] == 0xe3 && b[i + 1] == 0x80 && b[i + 2] == 0x80)) {
        3
    } else {
        0
    }
}

/// `start` moved over leading `#` and white space.
fn key_start_at(b: &Vec<u8>, start: usize, end: usize) -> (r: usize)
    requires
        start <= end <= b.len(),
    ensures
        r == key_start(b@, start as int, end as int),
{
    let mut i: usize = start;
    loop
        invariant
            start <= i <= end <= b.len(),
            key_start(b@, start as int, end as int) == key_start(b@, i as int, end as int),
        decreases end - i,
    {
        if i < end && b[i] == HASH {
            i = i + 1;
        } else {
            let w = space_len_at(b, i, end);
            if i < end && w > 0 {
                i = i + w;
            } else {
                return i;
            }
        }
    }
}

/// Classifies the line that starts at `start` and returns it with the offset
/// where the next line starts.
pub fn read_line(b: &Vec<u8>, start: usize) -> (r: (Line, usize))
    requires
        start < b.len(),
    ensures
        r.1 == line_end(b@, start as int),
        start < r.1 <= b.len(),
        match r.0 {
            Line::Declaration { key, span } => {
                &&& declaration(b@, start as int) == Some((key@, span))
                &&& span.line_start == start < span.value_start
                &&& span.value_start <= span.value_end <= r.1
                &&& (span.value_end < r.1 || r.1 == b.len())
                &&& b@[span.value_start - 1] == EQUALS
            },
            Line::Inert => declaration(b@, start as int) is None,
        },
{
    let end = line_end_at(b, start);
    proof {
        lemma_line_end_bounds(b@, start as int);
    }
    let content_end = trim_end_at(b, start, end);
    proof {
        lemma_trim_end_bounds(b@, start as int, end as int);
        if end < b.len() {
            lemma_trim_end_bounds(b@, start as int, end - 1);
        }
    }
    let eq = first_equals_at(b, start, content_end);
    proof {
        lemma_first_equals_bounds(b@, start as int, content_end as int);
    }
    if eq < content_end {
        let content = copy_range(b, start, content_end);
        if utf8_string(content).is_some() {
            let ks = key_start_at(b, start, eq);
            proof {
                lemma_key_start_bounds(b@, start as int, eq as int);
            }
            let key = copy_range(b, ks, eq);
            let span = Span { line_start: start, value_start: eq + 1, value_end: content_end };
            return (Line::Declaration { key, span }, end);
        }
    }
    (Line::Inert, end)
}

} // verus!
