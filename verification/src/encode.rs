//! The byte encoding of values, and the serializer that produces it.

use vstd::prelude::*;
use crate::decimal::{decimal, digits, push_decimal, push_digits};
use crate::value::{
    lemma_views, Value, ValueView, views, ARRAY_TAG, BULK_STRING_TAG, CR, ERROR_TAG, INTEGER_TAG, LF,
    SIMPLE_STRING_TAG,
};

verus! {

/// The line terminator: carriage return, line feed.
pub open spec fn crlf() -> Seq<u8> {
    seq![CR, LF]
}

/// A type tag, a text and the line terminator.
pub open spec fn line(tag: u8, text: Seq<u8>) -> Seq<u8> {
    seq![tag] + text + crlf()
}

/// The bytes that stand for a value on the wire.
pub open spec fn encode(v: ValueView) -> Seq<u8>
    decreases v,
{
    match v {
        ValueView::SimpleString(s) => line(SIMPLE_STRING_TAG, s),
        ValueView::Error(s) => line(ERROR_TAG, s),
        ValueView::Integer(n) => line(INTEGER_TAG, decimal(n as int)),
        ValueView::BulkString(b) => line(BULK_STRING_TAG, decimal(b.len() as int)) + b + crlf(),
        ValueView::Array(items) => line(ARRAY_TAG, decimal(items.len() as int)) + encode_all(items),
        ValueView::NullBulkString => line(BULK_STRING_TAG, decimal(-1)),
        ValueView::NullArray => line(ARRAY_TAG, decimal(-1)),
    }
}

/// The encodings of several values, one after the other.
pub open spec fn encode_all(items: Seq<ValueView>) -> Seq<u8>
    decreases items,
{
    if items.len() == 0 {
        Seq::empty()
    } else {
        encode_all(items.drop_last()) + encode(items.last())
    }
}

/// Appends `src` to `out`.
pub fn push_bytes(out: &mut Vec<u8>, src: &[u8])
    ensures
        final(out)@ == old(out)@ + src@,
{
    let mut i: usize = 0;
    while i < src.len()
        invariant
            i <= src.len(),
            out@ == old(out)@ + src@.take(i as int),
        decreases src.len() - i,
    {
        out.push(src[i]);
        i = i + 1;
        proof {
            assert(out@ =~= old(out)@ + src@.take(i as int));
        }
    }
    proof {
        assert(src@.take(i as int) =~= src@);
    }
}

/// Appends a tag, a text and the line terminator to `out`.
pub fn push_line(out: &mut Vec<u8>, tag: u8, text: &[u8])
    ensures
        final(out)@ == old(out)@ + line(tag, text@),
{
    out.push(tag);
    push_bytes(out, text);
    out.push(CR);
    out.push(LF);
    proof {
        assert(out@ =~= old(out)@ + line(tag, text@));
    }
}

/// Appends a tag, a length or count in decimal, and the line terminator.
pub fn push_length_line(out: &mut Vec<u8>, tag: u8, n: usize)
    ensures
        final(out)@ == old(out)@ + line(tag, decimal(n as int)),
{
    out.push(tag);
    push_digits(out, n as u64);
    out.push(CR);
    out.push(LF);
    proof {
        assert(decimal(n as int) == digits(n as nat));
        assert(out@ =~= old(out)@ + line(tag, decimal(n as int)));
    }
}

impl Value {
    /// Appends the encoding of the value to `out`.
    pub fn write_to(&self, out: &mut Vec<u8>)
        ensures
            final(out)@ == old(out)@ + encode(self@),
        decreases self,
    {
        match self {
            Value::SimpleString(s) => push_line(out, SIMPLE_STRING_TAG, s.as_slice()),
            Value::Error(s) => push_line(out, ERROR_TAG, s.as_slice()),
            Value::Integer(n) => {
                out.push(INTEGER_TAG);
                push_decimal(out, *n);
                out.push(CR);
                out.push(LF);
                proof {
                    assert(out@ =~= old(out)@ + encode(self@));
                }
            },
            Value::BulkString(b) => {
                push_length_line(out, BULK_STRING_TAG, b.len());
                push_bytes(out, b.as_slice());
                out.push(CR);
                out.push(LF);
                proof {
                    assert(out@ =~= old(out)@ + encode(self@));
                }
            },
            Value::Array(items) => {
                push_length_line(out, ARRAY_TAG, items.len());
                let ghost head = out@;
                let ghost models = views(items@);
                proof {
                    lemma_views(items@);
                    assert(models.take(0) =~= Seq::<ValueView>::empty());
                    assert(out@ =~= head + encode_all(models.take(0)));
                }
                let mut i: usize = 0;
                while i < items.len()
                    invariant
                        i <= items.len(),
                        models == views(items@),
                        models.len() == items.len(),
                        forall|j: int| 0 <= j < items.len() ==> #[trigger] models[j] == items[j]@,
                        out@ == head + encode_all(models.take(i as int)),
                        forall|j: int| 0 <= j < items.len() ==> decreases_to!(self => items[j]),
                    decreases items.len() - i,
                {
                    items[i].write_to(out);
                    proof {
                        let longer = models.take(i + 1);
                        assert(longer.drop_last() =~= models.take(i as int));
                        assert(longer.last() == items[i as int]@);
                        assert(out@ =~= head + encode_all(longer));
                    }
                    i = i + 1;
                }
                proof {
                    assert(models.take(i as int) =~= models);
                    assert(out@ =~= old(out)@ + encode(self@));
                }
            },
            Value::NullBulkString => {
                out.push(BULK_STRING_TAG);
                push_decimal(out, -1);
                out.push(CR);
                out.push(LF);
                proof {
                    assert(out@ =~= old(out)@ + encode(self@));
                }
            },
            Value::NullArray => {
                out.push(ARRAY_TAG);
                push_decimal(out, -1);
                out.push(CR);
                out.push(LF);
                proof {
                    assert(out@ =~= old(out)@ + encode(self@));
                }
            },
        }
    }

    /// The bytes that stand for the value on the wire.
    pub fn serialize(self) -> (out: Vec<u8>)
        ensures
            out@ == encode(self@),
    {
        let mut out: Vec<u8> = Vec::new();
        self.write_to(&mut out);
        proof {
            assert(out@ =~= encode(self@));
        }
        out
    }
}

} // verus!
