//! The value model: every kind of value that can travel on the wire.

use vstd::prelude::*;
use vstd::slice::slice_to_vec;

verus! {

/// Carriage return, the first byte of a line terminator.
pub const CR: u8 = 13;

/// Line feed, the second byte of a line terminator.
pub const LF: u8 = 10;

/// `+`, the type tag of a simple string.
pub const SIMPLE_STRING_TAG: u8 = 43;

/// `-`, the type tag of an error.
pub const ERROR_TAG: u8 = 45;

/// `:`, the type tag of an integer.
pub const INTEGER_TAG: u8 = 58;

/// `$`, the type tag of a bulk string.
pub const BULK_STRING_TAG: u8 = 36;

/// `*`, the type tag of an array.
pub const ARRAY_TAG: u8 = 42;

/// Deepest nesting of arrays that the parser follows.
pub const MAX_DEPTH: usize = 32;

/// A protocol value.
#[derive(Debug, PartialEq, Eq)]
pub enum Value {
    /// Short status text; it must not contain a line terminator.
    SimpleString(Vec<u8>),
    /// Short error text; it must not contain a line terminator.
    Error(Vec<u8>),
    /// A signed 64-bit number.
    Integer(i64),
    /// A byte string of explicit length; any byte may occur in it.
    BulkString(Vec<u8>),
    /// Nested values, in order.
    Array(Vec<Value>),
    /// The absent bulk string, distinct from the empty one.
    NullBulkString,
    /// The absent array, distinct from the empty one.
    NullArray,
}

/// The mathematical model of a [`Value`].
pub enum ValueView {
    SimpleString(Seq<u8>),
    Error(Seq<u8>),
    Integer(i64),
    BulkString(Seq<u8>),
    Array(Seq<ValueView>),
    NullBulkString,
    NullArray,
}

/// The models of a sequence of values, item by item.
pub open spec fn views(items: Seq<Value>) -> Seq<ValueView>
    decreases items,
{
    if items.len() == 0 {
        Seq::empty()
    } else {
        views(items.drop_last()).push(items.last().view())
    }
}

impl View for Value {
    type V = ValueView;

    open spec fn view(&self) -> ValueView
        decreases self,
    {
        match self {
            Value::SimpleString(s) => ValueView::SimpleString(s@),
            Value::Error(s) => ValueView::Error(s@),
            Value::Integer(n) => ValueView::Integer(*n),
            Value::BulkString(b) => ValueView::BulkString(b@),
            Value::Array(items) => ValueView::Array(views(items@)),
            Value::NullBulkString => ValueView::NullBulkString,
            Value::NullArray => ValueView::NullArray,
        }
    }
}

impl Value {
    /// A copy of the value, nested values included.
    #[verifier::loop_isolation(false)]
    pub fn duplicate(&self) -> (r: Value)
        ensures
            r@ == self@,
        decreases self,
    {
        match self {
            Value::SimpleString(s) => Value::SimpleString(slice_to_vec(s.as_slice())),
            Value::Error(s) => Value::Error(slice_to_vec(s.as_slice())),
            Value::Integer(n) => Value::Integer(*n),
            Value::BulkString(b) => Value::BulkString(slice_to_vec(b.as_slice())),
            Value::Array(items) => {
                let mut copies: Vec<Value> = Vec::new();
                let mut i: usize = 0;
                while i < items.len()
                    invariant
                        i <= items.len(),
                        views(copies@) == views(items@.take(i as int)),
                    decreases items.len() - i,
                {
                    proof {
                        assert(decreases_to!(items => items[i as int]));
                    }
                    let copy = items[i].duplicate();
                    proof {
                        lemma_views_push(copies@, copy);
                        lemma_views_push(items@.take(i as int), items@[i as int]);
                        assert(items@.take(i as int).push(items@[i as int]) =~= items@.take(i + 1));
                    }
                    copies.push(copy);
                    i = i + 1;
                }
                proof {
                    assert(items@.take(i as int) =~= items@);
                }
                Value::Array(copies)
            },
            Value::NullBulkString => Value::NullBulkString,
            Value::NullArray => Value::NullArray,
        }
    }
}

impl Clone for Value {
    fn clone(&self) -> (r: Value)
        ensures
            r@ == self@,
    {
        self.duplicate()
    }
}

/// `views` keeps the length and maps each item to its model.
pub proof fn lemma_views(items: Seq<Value>)
    ensures
        views(items).len() == items.len(),
        forall|i: int| 0 <= i < items.len() ==> #[trigger] views(items)[i] == items[i]@,
    decreases items.len(),
{
    reveal_with_fuel(views, 2);
    if items.len() > 0 {
        lemma_views(items.drop_last());
    }
}

/// Adding one value at the end adds its model at the end.
pub proof fn lemma_views_push(items: Seq<Value>, v: Value)
    ensures
        views(items.push(v)) == views(items).push(v@),
{
    assert(items.push(v).drop_last() =~= items);
}

/// Whether a line terminator (carriage return, line feed) starts at `i`.
pub open spec fn crlf_at(s: Seq<u8>, i: int) -> bool {
    0 <= i && i + 1 < s.len() && s[i] == CR && s[i + 1] == LF
}

/// Whether `s` holds no line terminator.
pub open spec fn crlf_free(s: Seq<u8>) -> bool {
    forall|i: int| !#[trigger] crlf_at(s, i)
}

impl ValueView {
    /// Whether the value can travel on the wire and come back with arrays
    /// nested at most `depth` deep: status and error texts hold no line
    /// terminator, and every length fits the signed 64-bit length prefix.
    pub open spec fn representable(self, depth: nat) -> bool
        decreases self,
    {
        match self {
            ValueView::SimpleString(s) => crlf_free(s),
            ValueView::Error(s) => crlf_free(s),
            ValueView::Integer(_) => true,
            ValueView::BulkString(b) => b.len() <= i64::MAX,
            ValueView::Array(items) => depth > 0 && items.len() <= i64::MAX && forall|i: int|
                0 <= i < items.len() ==> (#[trigger] items[i]).representable((depth - 1) as nat),
            ValueView::NullBulkString => true,
            ValueView::NullArray => true,
        }
    }
}

} // verus!
