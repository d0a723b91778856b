//! What holds between the serializer and the parser: a frame parses back to
//! its value, a cut frame asks for more bytes, and frames that follow one
//! another are parsed one by one.

use vstd::prelude::*;
use crate::command::reply_to;
use crate::connection::{step, ActionView, ConnectionView, EventView, State};
use crate::decimal::{decimal, lemma_parse_int_decimal, parse_int_spec};
use crate::encode::{crlf, encode, encode_all, line};
use crate::parse::{
    items_at, lemma_line_end_first, lemma_line_end_none, lemma_line_end_some, line_end, parse_at,
    parse_spec, read_line, ItemsView, ParseView,
};
use crate::value::{
    crlf_at, crlf_free, ValueView, ARRAY_TAG, BULK_STRING_TAG, CR, ERROR_TAG, INTEGER_TAG, LF,
    MAX_DEPTH, SIMPLE_STRING_TAG,
};

verus! {

/// Whether `s` stands in `buf` from `pos` on, whole.
pub open spec fn holds_at(buf: Seq<u8>, pos: int, s: Seq<u8>) -> bool {
    &&& 0 <= pos
    &&& pos + s.len() <= buf.len()
    &&& forall|i: int| 0 <= i < s.len() ==> buf[pos + i] == #[trigger] s[i]
}

/// Whether `buf` ends inside a copy of `s` that starts at `pos`.
pub open spec fn cut_at(buf: Seq<u8>, pos: int, s: Seq<u8>) -> bool {
    &&& 0 <= pos <= buf.len()
    &&& buf.len() < pos + s.len()
    &&& forall|i: int| 0 <= i < buf.len() - pos ==> buf[pos + i] == #[trigger] s[i]
}

proof fn lemma_holds_split(buf: Seq<u8>, pos: int, a: Seq<u8>, b: Seq<u8>)
    requires
        holds_at(buf, pos, a + b),
    ensures
        holds_at(buf, pos, a),
        holds_at(buf, pos + a.len(), b),
{
    let s = a + b;
    assert forall|i: int| 0 <= i < a.len() implies buf[pos + i] == #[trigger] a[i] by {
        assert(s[i] == a[i]);
    }
    assert forall|i: int| 0 <= i < b.len() implies buf[pos + a.len() + i] == #[trigger] b[i] by {
        assert(s[a.len() + i] == b[i]);
    }
}

proof fn lemma_cut_split(buf: Seq<u8>, pos: int, a: Seq<u8>, b: Seq<u8>)
    requires
        cut_at(buf, pos, a + b),
    ensures
        buf.len() < pos + a.len() ==> cut_at(buf, pos, a),
        buf.len() >= pos + a.len() ==> holds_at(buf, pos, a) && cut_at(buf, pos + a.len(), b),
{
    let s = a + b;
    if buf.len() < pos + a.len() {
        assert forall|i: int| 0 <= i < buf.len() - pos implies buf[pos + i] == #[trigger] a[i] by {
            assert(s[i] == a[i]);
        }
    } else {
        assert forall|i: int| 0 <= i < a.len() implies buf[pos + i] == #[trigger] a[i] by {
            assert(s[i] == a[i]);
        }
        assert forall|i: int| 0 <= i < buf.len() - (pos + a.len()) implies buf[pos + a.len() + i]
            == #[trigger] b[i] by {
            assert(s[a.len() + i] == b[i]);
        }
    }
}

/// A whole line in the buffer is read back as its text.
proof fn lemma_line_found(buf: Seq<u8>, pos: int, tag: u8, text: Seq<u8>)
    requires
        holds_at(buf, pos, line(tag, text)),
        crlf_free(text),
    ensures
        buf[pos] == tag,
        read_line(buf, pos + 1) == Some((text, pos + line(tag, text).len())),
        line(tag, text).len() == text.len() + 3,
{
    let l = line(tag, text);
    let e = pos + 1 + text.len();
    assert(l[0] == tag);
    assert(l[1 + text.len() as int] == CR);
    assert(l[2 + text.len() as int] == LF);
    assert(buf[pos + (1 + text.len())] == CR);
    assert(buf[pos + (2 + text.len())] == LF);
    assert(crlf_at(buf, e));
    assert forall|j: int| pos + 1 <= j < e implies !#[trigger] crlf_at(buf, j) by {
        let k = j - pos;
        assert(l[k] == text[k - 1]);
        assert(buf[pos + k] == l[k]);
        if j + 1 < e {
            assert(l[k + 1] == text[k]);
            assert(buf[pos + (k + 1)] == l[k + 1]);
            assert(!crlf_at(text, k - 1));
        } else {
            assert(buf[j + 1] == CR);
        }
    }
    lemma_line_end_first(buf, pos + 1, e);
    assert forall|i: int| 0 <= i < text.len() implies buf.subrange(pos + 1, e)[i] == text[i] by {
        assert(l[1 + i] == text[i]);
        assert(buf[pos + (1 + i)] == l[1 + i]);
    }
    assert(buf.subrange(pos + 1, e) =~= text);
}

/// A line that the end of the buffer cuts is not read.
proof fn lemma_line_cut(buf: Seq<u8>, pos: int, tag: u8, text: Seq<u8>)
    requires
        cut_at(buf, pos, line(tag, text)),
        crlf_free(text),
    ensures
        pos < buf.len() ==> buf[pos] == tag,
        read_line(buf, pos + 1) is None,
{
    let l = line(tag, text);
    if pos < buf.len() {
        assert(l[0] == tag);
        assert(buf[pos + 0] == l[0]);
    }
    assert forall|j: int| pos + 1 <= j implies !#[trigger] crlf_at(buf, j) by {
        if j + 1 < buf.len() {
            let k = j - pos;
            assert(buf[pos + k] == l[k]);
            assert(buf[pos + (k + 1)] == l[k + 1]);
            if k + 1 <= text.len() {
                assert(l[k] == text[k - 1]);
                assert(l[k + 1] == text[k]);
                assert(!crlf_at(text, k - 1));
            } else {
                assert(l[k + 1] == CR);
            }
        }
    }
    lemma_line_end_none(buf, pos + 1);
}

/// The decimal text of a number holds no line terminator and reads back.
proof fn lemma_decimal_line(n: i64)
    ensures
        crlf_free(decimal(n as int)),
        parse_int_spec(decimal(n as int)) == Some(n),
{
    lemma_parse_int_decimal(n);
    assert forall|i: int| !#[trigger] crlf_at(decimal(n as int), i) by {}
}

/// Encoded values that stand in the buffer one after the other are parsed
/// back, one by one.
pub proof fn lemma_items_encoded(
    buf: Seq<u8>,
    pos: int,
    items: Seq<ValueView>,
    k: nat,
    depth: nat,
)
    requires
        k <= items.len(),
        holds_at(buf, pos, encode_all(items.take(k as int))),
        forall|i: int| 0 <= i < k ==> (#[trigger] items[i]).representable(depth),
    ensures
        items_at(buf, pos, k, depth) == ItemsView::Parsed(
            items.take(k as int),
            pos + encode_all(items.take(k as int)).len(),
        ),
    decreases items, k,
{
    let now = items.take(k as int);
    if k == 0 {
        assert(now =~= Seq::<ValueView>::empty());
    } else {
        let init = items.take(k - 1);
        let last = items[k - 1];
        assert(now.drop_last() =~= init);
        assert(now.last() == last);
        assert(encode_all(now) == encode_all(init) + encode(last));
        lemma_holds_split(buf, pos, encode_all(init), encode(last));
        lemma_items_encoded(buf, pos, items, (k - 1) as nat, depth);
        lemma_parse_encoded(buf, pos + encode_all(init).len(), last, depth);
        assert(init.push(last) =~= now);
    }
}

/// An encoded value that stands in the buffer at `pos` is parsed back from
/// there, and the parser stops just behind it.
pub proof fn lemma_parse_encoded(buf: Seq<u8>, pos: int, v: ValueView, depth: nat)
    requires
        v.representable(depth),
        holds_at(buf, pos, encode(v)),
    ensures
        parse_at(buf, pos, depth) == ParseView::Parsed(v, pos + encode(v).len()),
    decreases v, 0nat,
{
    match v {
        ValueView::SimpleString(s) => {
            lemma_line_found(buf, pos, SIMPLE_STRING_TAG, s);
        },
        ValueView::Error(s) => {
            lemma_line_found(buf, pos, ERROR_TAG, s);
        },
        ValueView::Integer(n) => {
            lemma_decimal_line(n);
            lemma_line_found(buf, pos, INTEGER_TAG, decimal(n as int));
        },
        ValueView::BulkString(b) => {
            let n = b.len() as i64;
            let head = line(BULK_STRING_TAG, decimal(n as int));
            lemma_decimal_line(n);
            lemma_holds_split(buf, pos, head + b, crlf());
            lemma_holds_split(buf, pos, head, b);
            lemma_line_found(buf, pos, BULK_STRING_TAG, decimal(n as int));
            let next = pos + head.len();
            assert(crlf()[0] == CR && crlf()[1] == LF);
            assert(buf[next + n + 0] == CR);
            assert(buf[next + n + 1] == LF);
            assert(crlf_at(buf, next + n));
            assert(buf.subrange(next, next + n) =~= b);
        },
        ValueView::Array(items) => {
            let n = items.len() as i64;
            let head = line(ARRAY_TAG, decimal(n as int));
            lemma_decimal_line(n);
            lemma_holds_split(buf, pos, head, encode_all(items));
            lemma_line_found(buf, pos, ARRAY_TAG, decimal(n as int));
            assert(items.take(items.len() as int) =~= items);
            lemma_items_encoded(buf, pos + head.len(), items, items.len(), (depth - 1) as nat);
        },
        ValueView::NullBulkString => {
            lemma_decimal_line(-1i64);
            lemma_line_found(buf, pos, BULK_STRING_TAG, decimal(-1));
        },
        ValueView::NullArray => {
            lemma_decimal_line(-1i64);
            lemma_line_found(buf, pos, ARRAY_TAG, decimal(-1));
        },
    }
}

/// Where the buffer ends inside a run of encoded values, parsing them asks
/// for more bytes.
pub proof fn lemma_items_cut(buf: Seq<u8>, pos: int, items: Seq<ValueView>, k: nat, depth: nat)
    requires
        k <= items.len(),
        cut_at(buf, pos, encode_all(items.take(k as int))),
        forall|i: int| 0 <= i < k ==> (#[trigger] items[i]).representable(depth),
    ensures
        items_at(buf, pos, k, depth) == ItemsView::Incomplete,
    decreases items, k,
{
    let now = items.take(k as int);
    if k == 0 {
        assert(now =~= Seq::<ValueView>::empty());
    } else {
        let init = items.take(k - 1);
        let last = items[k - 1];
        assert(now.drop_last() =~= init);
        assert(now.last() == last);
        assert(encode_all(now) == encode_all(init) + encode(last));
        lemma_cut_split(buf, pos, encode_all(init), encode(last));
        if buf.len() < pos + encode_all(init).len() {
            lemma_items_cut(buf, pos, items, (k - 1) as nat, depth);
        } else {
            lemma_items_encoded(buf, pos, items, (k - 1) as nat, depth);
            lemma_parse_cut(buf, pos + encode_all(init).len(), last, depth);
        }
    }
}

/// Where the buffer ends inside an encoded value that starts at `pos`,
/// parsing from there asks for more bytes.
pub proof fn lemma_parse_cut(buf: Seq<u8>, pos: int, v: ValueView, depth: nat)
    requires
        v.representable(depth),
        cut_at(buf, pos, encode(v)),
    ensures
        parse_at(buf, pos, depth) == ParseView::Incomplete,
    decreases v, 0nat,
{
    if pos < buf.len() {
        match v {
            ValueView::SimpleString(s) => {
                lemma_line_cut(buf, pos, SIMPLE_STRING_TAG, s);
            },
            ValueView::Error(s) => {
                lemma_line_cut(buf, pos, ERROR_TAG, s);
            },
            ValueView::Integer(n) => {
                lemma_decimal_line(n);
                lemma_line_cut(buf, pos, INTEGER_TAG, decimal(n as int));
            },
            ValueView::BulkString(b) => {
                let n = b.len() as i64;
                let head = line(BULK_STRING_TAG, decimal(n as int));
                lemma_decimal_line(n);
                assert(encode(v) =~= head + (b + crlf()));
                lemma_cut_split(buf, pos, head, b + crlf());
                if buf.len() < pos + head.len() {
                    lemma_line_cut(buf, pos, BULK_STRING_TAG, decimal(n as int));
                } else {
                    lemma_line_found(buf, pos, BULK_STRING_TAG, decimal(n as int));
                }
            },
            ValueView::Array(items) => {
                let n = items.len() as i64;
                let head = line(ARRAY_TAG, decimal(n as int));
                lemma_decimal_line(n);
                lemma_cut_split(buf, pos, head, encode_all(items));
                if buf.len() < pos + head.len() {
                    lemma_line_cut(buf, pos, ARRAY_TAG, decimal(n as int));
                } else {
                    lemma_line_found(buf, pos, ARRAY_TAG, decimal(n as int));
                    assert(items.take(items.len() as int) =~= items);
                    lemma_items_cut(buf, pos + head.len(), items, items.len(), (depth - 1) as nat);
                }
            },
            ValueView::NullBulkString => {
                lemma_decimal_line(-1i64);
                lemma_line_cut(buf, pos, BULK_STRING_TAG, decimal(-1));
            },
            ValueView::NullArray => {
                lemma_decimal_line(-1i64);
                lemma_line_cut(buf, pos, ARRAY_TAG, decimal(-1));
            },
        }
    }
}

/// A line that is read lies in the buffer, holds no line terminator, and
/// the position behind it is behind its terminator.
proof fn lemma_line_read(buf: Seq<u8>, from: int)
    requires
        0 <= from,
    ensures
        match read_line(buf, from) {
            Some((text, next)) => from + 2 <= next <= buf.len() && crlf_free(text) && text.len()
                == next - 2 - from,
            None => true,
        },
{
    lemma_line_end_some(buf, from);
    match line_end(buf, from) {
        Some(e) => {
            let text = buf.subrange(from, e);
            assert forall|i: int| !#[trigger] crlf_at(text, i) by {
                if crlf_at(text, i) {
                    assert(crlf_at(buf, from + i));
                }
            }
        },
        None => {},
    }
}

/// Values that are parsed one after the other lie in the buffer, are as
/// many as were asked for, and each can travel on the wire.
pub proof fn lemma_items_sound(buf: Seq<u8>, pos: int, count: nat, depth: nat)
    requires
        0 <= pos <= buf.len(),
    ensures
        match items_at(buf, pos, count, depth) {
            ItemsView::Parsed(items, end) => pos <= end <= buf.len() && items.len() == count
                && forall|i: int|
                0 <= i < items.len() ==> (#[trigger] items[i]).representable(depth),
            _ => true,
        },
    decreases depth, 2nat, count,
{
    if count > 0 {
        lemma_items_sound(buf, pos, (count - 1) as nat, depth);
        match items_at(buf, pos, (count - 1) as nat, depth) {
            ItemsView::Parsed(init, mid) => {
                parsed_is_sound(buf, mid, depth);
            },
            _ => {},
        }
    }
}

/// What the parser gives as a value took at least one byte, lies within the
/// buffer, and can travel on the wire: its texts hold no line terminator, its
/// lengths fit the length prefix, and its arrays nest no deeper than asked.
pub proof fn parsed_is_sound(buf: Seq<u8>, pos: int, depth: nat)
    ensures
        match parse_at(buf, pos, depth) {
            ParseView::Parsed(v, end) => 0 <= pos < end <= buf.len() && v.representable(depth),
            _ => true,
        },
    decreases depth, 1nat, 0nat,
{
    if 0 <= pos < buf.len() {
        lemma_line_read(buf, pos + 1);
        if buf[pos] == ARRAY_TAG && depth > 0 {
            match read_line(buf, pos + 1) {
                Some((text, next)) => match parse_int_spec(text) {
                    Some(n) => {
                        if n >= 0 {
                            lemma_items_sound(buf, next, n as nat, (depth - 1) as nat);
                        }
                    },
                    None => {},
                },
                None => {},
            }
        }
    }
}

/// Whether two buffers hold the same bytes before `end`.
pub open spec fn same_before(buf: Seq<u8>, other: Seq<u8>, end: int) -> bool {
    &&& end <= buf.len()
    &&& end <= other.len()
    &&& forall|i: int| 0 <= i < end ==> #[trigger] buf[i] == other[i]
}

/// A line that is read in one buffer is read in every buffer that holds the
/// same bytes up to the end of its terminator.
proof fn lemma_line_same(buf: Seq<u8>, other: Seq<u8>, from: int, end: int)
    requires
        0 <= from,
        same_before(buf, other, end),
        read_line(buf, from) is Some,
        read_line(buf, from)->Some_0.1 <= end,
    ensures
        read_line(other, from) == read_line(buf, from),
{
    lemma_line_end_some(buf, from);
    let e = line_end(buf, from)->Some_0;
    assert(buf[e] == other[e] && buf[e + 1] == other[e + 1]);
    assert forall|j: int| from <= j < e implies !#[trigger] crlf_at(other, j) by {
        assert(!crlf_at(buf, j));
        assert(buf[j] == other[j] && buf[j + 1] == other[j + 1]);
    }
    lemma_line_end_first(other, from, e);
    assert(buf.subrange(from, e) =~= other.subrange(from, e));
}

/// Values that are parsed one after the other are parsed alike in every
/// buffer that holds the same bytes up to the end of the last.
pub proof fn lemma_items_ignore_rest(
    buf: Seq<u8>,
    other: Seq<u8>,
    pos: int,
    count: nat,
    depth: nat,
)
    requires
        0 <= pos <= buf.len(),
        items_at(buf, pos, count, depth) is Parsed,
        same_before(buf, other, items_at(buf, pos, count, depth)->Parsed_1),
    ensures
        items_at(other, pos, count, depth) == items_at(buf, pos, count, depth),
    decreases depth, 2nat, count,
{
    if count > 0 {
        let before = items_at(buf, pos, (count - 1) as nat, depth);
        let mid = before->Parsed_1;
        lemma_items_sound(buf, pos, (count - 1) as nat, depth);
        parsed_is_sound(buf, mid, depth);
        lemma_items_ignore_rest(buf, other, pos, (count - 1) as nat, depth);
        parse_ignores_rest(buf, other, mid, depth);
    }
}

/// The parser looks at the bytes of the frame only: what it gives as a value
/// from one buffer, it gives from every buffer that holds the same bytes up
/// to the end of the frame.
pub proof fn parse_ignores_rest(buf: Seq<u8>, other: Seq<u8>, pos: int, depth: nat)
    requires
        parse_at(buf, pos, depth) is Parsed,
        same_before(buf, other, parse_at(buf, pos, depth)->Parsed_1),
    ensures
        parse_at(other, pos, depth) == parse_at(buf, pos, depth),
    decreases depth, 1nat, 0nat,
{
    let end = parse_at(buf, pos, depth)->Parsed_1;
    parsed_is_sound(buf, pos, depth);
    lemma_line_read(buf, pos + 1);
    assert(buf[pos] == other[pos]);
    let (text, next) = read_line(buf, pos + 1)->Some_0;
    if buf[pos] == BULK_STRING_TAG {
        let n = parse_int_spec(text)->Some_0;
        lemma_line_same(buf, other, pos + 1, end);
        if n >= 0 {
            assert(buf[next + n] == other[next + n]);
            assert(buf[next + n + 1] == other[next + n + 1]);
            assert(buf.subrange(next, next + n) =~= other.subrange(next, next + n));
        }
    } else if buf[pos] == ARRAY_TAG {
        let n = parse_int_spec(text)->Some_0;
        if n >= 0 {
            lemma_items_sound(buf, next, n as nat, (depth - 1) as nat);
            lemma_line_same(buf, other, pos + 1, end);
            lemma_items_ignore_rest(buf, other, next, n as nat, (depth - 1) as nat);
        } else {
            lemma_line_same(buf, other, pos + 1, end);
        }
    } else {
        lemma_line_same(buf, other, pos + 1, end);
    }
}

/// A frame is parsed back to its value whatever follows it in the buffer,
/// and the parser takes exactly the frame's bytes.
pub proof fn frame_then_rest(v: ValueView, rest: Seq<u8>)
    requires
        v.representable(MAX_DEPTH as nat),
    ensures
        parse_spec(encode(v) + rest) == ParseView::Parsed(v, encode(v).len() as int),
{
    lemma_parse_encoded(encode(v) + rest, 0, v, MAX_DEPTH as nat);
}

/// Round trip: parsing the encoding of a value gives the value back and
/// takes the whole encoding.
pub proof fn round_trip(v: ValueView)
    requires
        v.representable(MAX_DEPTH as nat),
    ensures
        parse_spec(encode(v)) == ParseView::Parsed(v, encode(v).len() as int),
{
    lemma_parse_encoded(encode(v), 0, v, MAX_DEPTH as nat);
}

/// Partial buffers: every strict prefix of a value's encoding asks for more
/// bytes; none is taken for malformed.
pub proof fn prefix_is_incomplete(v: ValueView, n: int)
    requires
        v.representable(MAX_DEPTH as nat),
        0 <= n < encode(v).len(),
    ensures
        parse_spec(encode(v).take(n)) == ParseView::Incomplete,
{
    lemma_parse_cut(encode(v).take(n), 0, v, MAX_DEPTH as nat);
}

/// Binary safety: a bulk string is parsed back exactly, whatever bytes it
/// holds.
pub proof fn bulk_string_round_trip(b: Seq<u8>)
    requires
        b.len() <= i64::MAX,
    ensures
        parse_spec(encode(ValueView::BulkString(b))) == ParseView::Parsed(
            ValueView::BulkString(b),
            encode(ValueView::BulkString(b)).len() as int,
        ),
{
    round_trip(ValueView::BulkString(b));
}

/// Pipelining: of two frames in one buffer the first is parsed and takes its
/// own bytes only; parsing what is left gives the second.
pub proof fn pipelined_frames(a: ValueView, b: ValueView)
    requires
        a.representable(MAX_DEPTH as nat),
        b.representable(MAX_DEPTH as nat),
    ensures
        parse_spec(encode(a) + encode(b)) == ParseView::Parsed(a, encode(a).len() as int),
        parse_spec((encode(a) + encode(b)).skip(encode(a).len() as int)) == ParseView::Parsed(
            b,
            encode(b).len() as int,
        ),
        parse_at(encode(a) + encode(b), encode(a).len() as int, MAX_DEPTH as nat)
            == ParseView::Parsed(b, (encode(a).len() + encode(b).len()) as int),
{
    let both = encode(a) + encode(b);
    frame_then_rest(a, encode(b));
    assert(both.skip(encode(a).len() as int) =~= encode(b));
    round_trip(b);
    lemma_holds_split(both, 0, encode(a), encode(b));
    lemma_parse_encoded(both, encode(a).len() as int, b, MAX_DEPTH as nat);
}

/// A connection that has read only the start of a request keeps what it has
/// and asks for more; it does not close.
pub proof fn partial_request_waits(v: ValueView, n: int)
    requires
        v.representable(MAX_DEPTH as nat),
        0 < n < encode(v).len(),
        n <= isize::MAX,
    ensures
        step(
            ConnectionView { state: State::AwaitingData, pending: Seq::empty() },
            EventView::Read(encode(v).take(n)),
        ) == (
            ConnectionView { state: State::AwaitingData, pending: encode(v).take(n) },
            ActionView::Read,
        ),
{
    prefix_is_incomplete(v, n);
    assert(Seq::<u8>::empty() + encode(v).take(n) =~= encode(v).take(n));
}

/// A connection that has read two requests at once answers the first and
/// keeps the second; once the first reply is written it answers the second
/// and keeps nothing.
pub proof fn requests_answered_in_turn(a: ValueView, b: ValueView)
    requires
        a.representable(MAX_DEPTH as nat),
        b.representable(MAX_DEPTH as nat),
        encode(a).len() + encode(b).len() <= isize::MAX,
    ensures
        step(
            ConnectionView { state: State::AwaitingData, pending: Seq::empty() },
            EventView::Read(encode(a) + encode(b)),
        ) == (
            ConnectionView { state: State::Writing, pending: encode(b) },
            ActionView::Write(encode(reply_to(a))),
        ),
        step(ConnectionView { state: State::Writing, pending: encode(b) }, EventView::Written) == (
            ConnectionView { state: State::Writing, pending: Seq::empty() },
            ActionView::Write(encode(reply_to(b))),
        ),
{
    let both = encode(a) + encode(b);
    pipelined_frames(a, b);
    parsed_is_sound(both, 0, MAX_DEPTH as nat);
    assert(Seq::<u8>::empty() + both =~= both);
    assert(both.skip(encode(a).len() as int) =~= encode(b));
    round_trip(b);
    assert(encode(b).skip(encode(b).len() as int) =~= Seq::<u8>::empty());
}

} // verus!
