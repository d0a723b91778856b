//! The incremental parser: from the start of a buffer to one value, to a
//! request for more bytes, or to the reason why no frame can start so.

use vstd::prelude::*;
use vstd::slice::{slice_subrange, slice_to_vec};
use crate::decimal::{parse_int, parse_int_spec};
use crate::error::ParseError;
use crate::value::{
    crlf_at, lemma_views_push, Value, ValueView, views, ARRAY_TAG, BULK_STRING_TAG, CR, ERROR_TAG,
    INTEGER_TAG, LF, MAX_DEPTH, SIMPLE_STRING_TAG,
};

verus! {

/// What parsing a buffer gives.
#[derive(Debug, PartialEq, Eq)]
pub enum ParseResult {
    /// A whole value, and the number of bytes that it took.
    Parsed(Value, usize),
    /// The buffer ends before the frame does.
    Incomplete,
    /// The bytes cannot start a frame.
    Malformed(ParseError),
}

/// The model of a [`ParseResult`]; `Parsed` holds the position just behind
/// the frame.
pub enum ParseView {
    Parsed(ValueView, int),
    Incomplete,
    Malformed(ParseError),
}

/// What parsing the elements of an array gives.
pub enum ItemsView {
    Parsed(Seq<ValueView>, int),
    Incomplete,
    Malformed(ParseError),
}

impl View for ParseResult {
    type V = ParseView;

    open spec fn view(&self) -> ParseView {
        match self {
            ParseResult::Parsed(v, n) => ParseView::Parsed(v@, *n as int),
            ParseResult::Incomplete => ParseView::Incomplete,
            ParseResult::Malformed(e) => ParseView::Malformed(*e),
        }
    }
}

/// The position of the first line terminator that starts at `from` or later.
pub open spec fn line_end(buf: Seq<u8>, from: int) -> Option<int>
    decreases buf.len() - from,
{
    if from < 0 || from + 1 >= buf.len() {
        None
    } else if buf[from] == CR && buf[from + 1] == LF {
        Some(from)
    } else {
        line_end(buf, from + 1)
    }
}

/// The line that starts at `from`, without its terminator, and the position
/// behind the terminator.
pub open spec fn read_line(buf: Seq<u8>, from: int) -> Option<(Seq<u8>, int)> {
    match line_end(buf, from) {
        Some(e) => Some((buf.subrange(from, e), e + 2)),
        None => None,
    }
}

/// A simple string whose tag stands at `pos`.
pub open spec fn simple_string_at(buf: Seq<u8>, pos: int) -> ParseView {
    match read_line(buf, pos + 1) {
        Some((text, next)) => ParseView::Parsed(ValueView::SimpleString(text), next),
        None => ParseView::Incomplete,
    }
}

/// An error whose tag stands at `pos`.
pub open spec fn error_at(buf: Seq<u8>, pos: int) -> ParseView {
    match read_line(buf, pos + 1) {
        Some((text, next)) => ParseView::Parsed(ValueView::Error(text), next),
        None => ParseView::Incomplete,
    }
}

/// An integer whose tag stands at `pos`.
pub open spec fn integer_at(buf: Seq<u8>, pos: int) -> ParseView {
    match read_line(buf, pos + 1) {
        Some((text, next)) => match parse_int_spec(text) {
            Some(n) => ParseView::Parsed(ValueView::Integer(n), next),
            None => ParseView::Malformed(ParseError::InvalidNumber),
        },
        None => ParseView::Incomplete,
    }
}

/// A bulk string whose tag stands at `pos`: the length line, then exactly
/// that many bytes and a line terminator. The length -1 stands for the null
/// bulk string.
pub open spec fn bulk_string_at(buf: Seq<u8>, pos: int) -> ParseView {
    match read_line(buf, pos + 1) {
        Some((text, next)) => match parse_int_spec(text) {
            Some(n) => if n == -1 {
                ParseView::Parsed(ValueView::NullBulkString, next)
            } else if n < 0 {
                ParseView::Malformed(ParseError::InvalidLength)
            } else if buf.len() - next < n + 2 {
                ParseView::Incomplete
            } else if crlf_at(buf, next + n) {
                ParseView::Parsed(ValueView::BulkString(buf.subrange(next, next + n)), next + n + 2)
            } else {
                ParseView::Malformed(ParseError::MissingTerminator)
            },
            None => ParseView::Malformed(ParseError::InvalidNumber),
        },
        None => ParseView::Incomplete,
    }
}

/// The first `count` values that follow one another from `pos` on.
pub open spec fn items_at(buf: Seq<u8>, pos: int, count: nat, depth: nat) -> ItemsView
    decreases depth, 2nat, count,
{
    if count == 0 {
        ItemsView::Parsed(Seq::empty(), pos)
    } else {
        match items_at(buf, pos, (count - 1) as nat, depth) {
            ItemsView::Parsed(init, mid) => match parse_at(buf, mid, depth) {
                ParseView::Parsed(v, end) => ItemsView::Parsed(init.push(v), end),
                ParseView::Incomplete => ItemsView::Incomplete,
                ParseView::Malformed(e) => ItemsView::Malformed(e),
            },
            ItemsView::Incomplete => ItemsView::Incomplete,
            ItemsView::Malformed(e) => ItemsView::Malformed(e),
        }
    }
}

/// An array whose tag stands at `pos`: the count line, then that many
/// values. The count -1 stands for the null array. `depth` is how deep arrays
/// may still nest, this one included.
pub open spec fn array_at(buf: Seq<u8>, pos: int, depth: nat) -> ParseView
    decreases depth, 0nat, 0nat,
{
    match read_line(buf, pos + 1) {
        Some((text, next)) => match parse_int_spec(text) {
            Some(n) => if n == -1 {
                ParseView::Parsed(ValueView::NullArray, next)
            } else if n < 0 {
                ParseView::Malformed(ParseError::InvalidLength)
            } else if depth == 0 {
                ParseView::Malformed(ParseError::NestingTooDeep)
            } else {
                match items_at(buf, next, n as nat, (depth - 1) as nat) {
                    ItemsView::Parsed(items, end) => ParseView::Parsed(ValueView::Array(items), end),
                    ItemsView::Incomplete => ParseView::Incomplete,
                    ItemsView::Malformed(e) => ParseView::Malformed(e),
                }
            },
            None => ParseView::Malformed(ParseError::InvalidNumber),
        },
        None => ParseView::Incomplete,
    }
}

/// The value whose frame starts at `pos`, by its type tag.
pub open spec fn parse_at(buf: Seq<u8>, pos: int, depth: nat) -> ParseView
    decreases depth, 1nat, 0nat,
{
    if pos < 0 || pos >= buf.len() {
        ParseView::Incomplete
    } else if buf[pos] == SIMPLE_STRING_TAG {
        simple_string_at(buf, pos)
    } else if buf[pos] == ERROR_TAG {
        error_at(buf, pos)
    } else if buf[pos] == INTEGER_TAG {
        integer_at(buf, pos)
    } else if buf[pos] == BULK_STRING_TAG {
        bulk_string_at(buf, pos)
    } else if buf[pos] == ARRAY_TAG {
        array_at(buf, pos, depth)
    } else {
        ParseView::Malformed(ParseError::UnknownTypeTag)
    }
}

/// What parsing a whole buffer from its start gives.
pub open spec fn parse_spec(buf: Seq<u8>) -> ParseView {
    parse_at(buf, 0, MAX_DEPTH as nat)
}

/// Where `line_end` finds a terminator, one is there, and none before it.
pub proof fn lemma_line_end_some(buf: Seq<u8>, from: int)
    ensures
        match line_end(buf, from) {
            Some(e) => 0 <= from <= e && crlf_at(buf, e) && forall|j: int|
                from <= j < e ==> !#[trigger] crlf_at(buf, j),
            None => forall|j: int| 0 <= from <= j ==> !#[trigger] crlf_at(buf, j),
        },
    decreases buf.len() - from,
{
    if from < 0 || from + 1 >= buf.len() {
    } else if buf[from] == CR && buf[from + 1] == LF {
    } else {
        lemma_line_end_some(buf, from + 1);
    }
}

/// The first terminator at or after `from` is what `line_end` finds.
pub proof fn lemma_line_end_first(buf: Seq<u8>, from: int, e: int)
    requires
        0 <= from <= e,
        crlf_at(buf, e),
        forall|j: int| from <= j < e ==> !#[trigger] crlf_at(buf, j),
    ensures
        line_end(buf, from) == Some(e),
    decreases e - from,
{
    if from < e {
        assert(!crlf_at(buf, from));
        lemma_line_end_first(buf, from + 1, e);
    }
}

/// Without a terminator at or after `from`, `line_end` finds none.
pub proof fn lemma_line_end_none(buf: Seq<u8>, from: int)
    requires
        0 <= from,
        forall|j: int| from <= j ==> !#[trigger] crlf_at(buf, j),
    ensures
        line_end(buf, from) is None,
    decreases buf.len() - from,
{
    if from + 1 < buf.len() {
        assert(!crlf_at(buf, from));
        lemma_line_end_none(buf, from + 1);
    }
}

/// Once the first values fail to parse, so does every longer run of them.
pub proof fn lemma_items_failure_stays(buf: Seq<u8>, pos: int, k: nat, count: nat, depth: nat)
    requires
        k <= count,
        !(items_at(buf, pos, k, depth) is Parsed),
    ensures
        items_at(buf, pos, count, depth) == items_at(buf, pos, k, depth),
    decreases count,
{
    if k < count {
        lemma_items_failure_stays(buf, pos, k, (count - 1) as nat, depth);
    }
}

/// Finds the first line terminator that starts at `from` or later.
pub fn find_crlf(buf: &[u8], from: usize) -> (r: Option<usize>)
    requires
        from <= buf.len(),
    ensures
        match r {
            Some(e) => line_end(buf@, from as int) == Some(e as int) && from <= e && e + 2
                <= buf.len(),
            None => line_end(buf@, from as int) is None,
        },
{
    let len: usize = buf.len();
    let mut i: usize = from;
    while len - i > 1
        invariant
            from <= i <= len,
            len == buf@.len(),
            line_end(buf@, from as int) == line_end(buf@, i as int),
        decreases len - i,
    {
        if buf[i] == CR && buf[i + 1] == LF {
            return Some(i);
        }
        i = i + 1;
    }
    None
}

/// Splits the first line off a buffer: the line without its terminator, and
/// the number of bytes up to and including the terminator.
pub fn read_until_crlf(buffer: &[u8]) -> (r: Option<(&[u8], usize)>)
    ensures
        match r {
            Some((text, next)) => read_line(buffer@, 0) == Some((text@, next as int)) && next
                <= buffer.len(),
            None => read_line(buffer@, 0) is None,
        },
{
    match find_crlf(buffer, 0) {
        Some(e) => Some((slice_subrange(buffer, 0, e), e + 2)),
        None => None,
    }
}

/// Reads the line behind the tag at `pos`: where the line starts, and where
/// the next frame part starts.
fn read_line_at(buf: &[u8], pos: usize) -> (r: Option<(&[u8], usize)>)
    requires
        pos < buf.len(),
    ensures
        match r {
            Some((text, next)) => read_line(buf@, pos + 1) == Some((text@, next as int)) && pos
                + 2 < next <= buf.len(),
            None => read_line(buf@, pos + 1) is None,
        },
{
    match find_crlf(buf, pos + 1) {
        Some(e) => Some((slice_subrange(buf, pos + 1, e), e + 2)),
        None => None,
    }
}

/// Parses the simple string whose tag stands at `pos`.
pub fn parse_simple_string(buf: &[u8], pos: usize) -> (r: ParseResult)
    requires
        pos < buf.len(),
    ensures
        r@ == simple_string_at(buf@, pos as int),
        r matches ParseResult::Parsed(_, end) ==> pos < end <= buf.len(),
{
    match read_line_at(buf, pos) {
        Some((text, next)) => ParseResult::Parsed(Value::SimpleString(slice_to_vec(text)), next),
        None => ParseResult::Incomplete,
    }
}

/// Parses the error whose tag stands at `pos`.
pub fn parse_error_string(buf: &[u8], pos: usize) -> (r: ParseResult)
    requires
        pos < buf.len(),
    ensures
        r@ == error_at(buf@, pos as int),
        r matches ParseResult::Parsed(_, end) ==> pos < end <= buf.len(),
{
    match read_line_at(buf, pos) {
        Some((text, next)) => ParseResult::Parsed(Value::Error(slice_to_vec(text)), next),
        None => ParseResult::Incomplete,
    }
}

/// Parses the integer whose tag stands at `pos`.
pub fn parse_integer(buf: &[u8], pos: usize) -> (r: ParseResult)
    requires
        pos < buf.len(),
    ensures
        r@ == integer_at(buf@, pos as int),
        r matches ParseResult::Parsed(_, end) ==> pos < end <= buf.len(),
{
    match read_line_at(buf, pos) {
        Some((text, next)) => match parse_int(text) {
            Ok(n) => ParseResult::Parsed(Value::Integer(n), next),
            Err(e) => ParseResult::Malformed(e),
        },
        None => ParseResult::Incomplete,
    }
}

/// Parses the bulk string whose tag stands at `pos`.
pub fn parse_bulk_string(buf: &[u8], pos: usize) -> (r: ParseResult)
    requires
        pos < buf.len(),
    ensures
        r@ == bulk_string_at(buf@, pos as int),
        r matches ParseResult::Parsed(_, end) ==> pos < end <= buf.len(),
{
    match read_line_at(buf, pos) {
        Some((text, next)) => match parse_int(text) {
            Ok(n) => {
                if n == -1 {
                    ParseResult::Parsed(Value::NullBulkString, next)
                } else if n < 0 {
                    ParseResult::Malformed(ParseError::InvalidLength)
                } else if ((buf.len() - next) as u64) < (n as u64) + 2 {
                    ParseResult::Incomplete
                } else {
                    let end_of_payload: usize = next + n as usize;
                    if buf[end_of_payload] == CR && buf[end_of_payload + 1] == LF {
                        let payload = slice_to_vec(slice_subrange(buf, next, end_of_payload));
                        ParseResult::Parsed(Value::BulkString(payload), end_of_payload + 2)
                    } else {
                        ParseResult::Malformed(ParseError::MissingTerminator)
                    }
                }
            },
            Err(e) => ParseResult::Malformed(e),
        },
        None => ParseResult::Incomplete,
    }
}

/// Parses the array whose tag stands at `pos`, with arrays nested at most
/// `depth` deep, this one included.
#[verifier::loop_isolation(false)]
pub fn parse_array(buf: &[u8], pos: usize, depth: usize) -> (r: ParseResult)
    requires
        pos < buf.len(),
    ensures
        r@ == array_at(buf@, pos as int, depth as nat),
        r matches ParseResult::Parsed(_, end) ==> pos < end <= buf.len(),
    decreases depth, 0nat,
{
    match read_line_at(buf, pos) {
        Some((text, next)) => match parse_int(text) {
            Ok(n) => {
                if n == -1 {
                    ParseResult::Parsed(Value::NullArray, next)
                } else if n < 0 {
                    ParseResult::Malformed(ParseError::InvalidLength)
                } else if depth == 0 {
                    ParseResult::Malformed(ParseError::NestingTooDeep)
                } else {
                    let mut items: Vec<Value> = Vec::new();
                    let mut bytes_consumed: usize = next;
                    let mut k: i64 = 0;
                    while k < n
                        invariant
                            0 <= k <= n,
                            depth > 0,
                            next <= bytes_consumed <= buf.len(),
                            items_at(buf@, next as int, k as nat, (depth - 1) as nat)
                                == ItemsView::Parsed(views(items@), bytes_consumed as int),
                        decreases n - k,
                    {
                        match parse_message_at(buf, bytes_consumed, depth - 1) {
                            ParseResult::Parsed(item, end) => {
                                proof {
                                    lemma_views_push(items@, item);
                                }
                                items.push(item);
                                bytes_consumed = end;
                            },
                            ParseResult::Incomplete => {
                                proof {
                                    lemma_items_failure_stays(
                                        buf@,
                                        next as int,
                                        (k + 1) as nat,
                                        n as nat,
                                        (depth - 1) as nat,
                                    );
                                }
                                return ParseResult::Incomplete;
                            },
                            ParseResult::Malformed(e) => {
                                proof {
                                    lemma_items_failure_stays(
                                        buf@,
                                        next as int,
                                        (k + 1) as nat,
                                        n as nat,
                                        (depth - 1) as nat,
                                    );
                                }
                                return ParseResult::Malformed(e);
                            },
                        }
                        k = k + 1;
                    }
                    ParseResult::Parsed(Value::Array(items), bytes_consumed)
                }
            },
            Err(e) => ParseResult::Malformed(e),
        },
        None => ParseResult::Incomplete,
    }
}

/// Parses the value whose frame starts at `pos`, with arrays nested at most
/// `depth` deep.
pub fn parse_message_at(buf: &[u8], pos: usize, depth: usize) -> (r: ParseResult)
    requires
        pos <= buf.len(),
    ensures
        r@ == parse_at(buf@, pos as int, depth as nat),
        r matches ParseResult::Parsed(_, end) ==> pos < end <= buf.len(),
    decreases depth, 1nat,
{
    if pos >= buf.len() {
        return ParseResult::Incomplete;
    }
    let tag: u8 = buf[pos];
    if tag == SIMPLE_STRING_TAG {
        parse_simple_string(buf, pos)
    } else if tag == ERROR_TAG {
        parse_error_string(buf, pos)
    } else if tag == INTEGER_TAG {
        parse_integer(buf, pos)
    } else if tag == BULK_STRING_TAG {
        parse_bulk_string(buf, pos)
    } else if tag == ARRAY_TAG {
        parse_array(buf, pos, depth)
    } else {
        ParseResult::Malformed(ParseError::UnknownTypeTag)
    }
}

/// Parses one value from the start of `buffer`. `Parsed` gives the value and
/// the number of bytes that its frame takes; the bytes behind it are not
/// looked at.
pub fn parse_message(buffer: &[u8]) -> (r: ParseResult)
    ensures
        r@ == parse_spec(buffer@),
        r matches ParseResult::Parsed(_, end) ==> 0 < end <= buffer.len(),
{
    parse_message_at(buffer, 0, MAX_DEPTH)
}

} // verus!
