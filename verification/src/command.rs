//! Requests and their replies: the shape of a request, and the built-in
//! commands.

use vstd::prelude::*;
use vstd::slice::slice_to_vec;
use vstd::string::StringSliceAdditionalSpecFns;
use crate::error::RequestError;
use crate::value::{lemma_views, Value, ValueView, views};

verus! {

/// The text `PONG`.
pub open spec fn pong_text() -> Seq<u8> {
    "PONG".spec_bytes()
}

/// The name of the liveness command, in upper case.
pub open spec fn ping_name() -> Seq<u8> {
    "PING".spec_bytes()
}

/// The name of the echo command, in upper case.
pub open spec fn echo_name() -> Seq<u8> {
    "ECHO".spec_bytes()
}

/// The text `ERR unknown command`.
pub open spec fn unknown_command_text() -> Seq<u8> {
    "ERR unknown command".spec_bytes()
}

/// The text `ERR wrong number of arguments`.
pub open spec fn wrong_arguments_text() -> Seq<u8> {
    "ERR wrong number of arguments".spec_bytes()
}

/// The text `ERR invalid request`.
pub open spec fn invalid_request_text() -> Seq<u8> {
    "ERR invalid request".spec_bytes()
}

/// A lower-case ASCII letter (`a` is 97, `z` is 122) moved to upper case, 32
/// below; any other byte as it is.
pub open spec fn upper(b: u8) -> u8 {
    if 97 <= b <= 122 {
        (b - 32) as u8
    } else {
        b
    }
}

/// Whether two byte strings are the same but for the case of ASCII letters.
pub open spec fn same_ignoring_case(a: Seq<u8>, b: Seq<u8>) -> bool {
    a.len() == b.len() && forall|i: int| 0 <= i < a.len() ==> upper(#[trigger] a[i]) == upper(b[i])
}

/// The reply to a command: `PING` without arguments is answered with
/// `PONG`, `ECHO` with one bulk string is answered with that bulk string,
/// either with other arguments is an error, and so is any other name.
/// Names are compared without regard to case.
pub open spec fn dispatch_spec(name: Seq<u8>, args: Seq<ValueView>) -> ValueView {
    if same_ignoring_case(name, ping_name()) {
        if args.len() == 0 {
            ValueView::SimpleString(pong_text())
        } else {
            ValueView::Error(wrong_arguments_text())
        }
    } else if same_ignoring_case(name, echo_name()) {
        if args.len() == 1 && args[0] is BulkString {
            args[0]
        } else {
            ValueView::Error(wrong_arguments_text())
        }
    } else {
        ValueView::Error(unknown_command_text())
    }
}

/// The command that a request holds: its name and its arguments. A request
/// is a non-empty array whose first element is a bulk string.
pub open spec fn command_of(v: ValueView) -> Result<(Seq<u8>, Seq<ValueView>), RequestError> {
    match v {
        ValueView::Array(items) => if items.len() == 0 {
            Err(RequestError::EmptyArray)
        } else {
            match items[0] {
                ValueView::BulkString(name) => Ok((name, items.skip(1))),
                _ => Err(RequestError::NotABulkString),
            }
        },
        _ => Err(RequestError::NotAnArray),
    }
}

/// The reply to a value that a client sent: the command's reply where the
/// value is a request, an error otherwise.
pub open spec fn reply_to(v: ValueView) -> ValueView {
    match command_of(v) {
        Ok((name, args)) => dispatch_spec(name, args),
        Err(_) => ValueView::Error(invalid_request_text()),
    }
}

/// Compares two byte strings without regard to the case of ASCII letters.
pub fn eq_ignore_case(a: &[u8], b: &[u8]) -> (r: bool)
    ensures
        r == same_ignoring_case(a@, b@),
{
    if a.len() != b.len() {
        return false;
    }
    let mut i: usize = 0;
    while i < a.len()
        invariant
            i <= a.len(),
            a.len() == b.len(),
            forall|j: int| 0 <= j < i ==> upper(#[trigger] a@[j]) == upper(b@[j]),
        decreases a.len() - i,
    {
        let x: u8 = a[i];
        let y: u8 = b[i];
        let ux: u8 = if 97 <= x && x <= 122 { x - 32 } else { x };
        let uy: u8 = if 97 <= y && y <= 122 { y - 32 } else { y };
        if ux != uy {
            assert(upper(a@[i as int]) != upper(b@[i as int]));
            return false;
        }
        i = i + 1;
    }
    true
}

/// The bytes of a bulk string; any other value is refused.
pub fn unpack_bulk_string(value: Value) -> (r: Result<Vec<u8>, RequestError>)
    ensures
        match value@ {
            ValueView::BulkString(b) => r is Ok && r->Ok_0@ == b,
            _ => r == Err::<Vec<u8>, RequestError>(RequestError::NotABulkString),
        },
{
    match value {
        Value::BulkString(s) => Ok(s),
        _ => Err(RequestError::NotABulkString),
    }
}

/// Takes a request apart into the command's name and its arguments.
pub fn extract_command(value: Value) -> (r: Result<(Vec<u8>, Vec<Value>), RequestError>)
    ensures
        match command_of(value@) {
            Ok((name, args)) => r is Ok && r->Ok_0.0@ == name && views(r->Ok_0.1@) == args,
            Err(e) => r == Err::<(Vec<u8>, Vec<Value>), RequestError>(e),
        },
{
    match value {
        Value::Array(a) => {
            if a.len() == 0 {
                return Err(RequestError::EmptyArray);
            }
            let mut rest = a;
            let ghost all = rest@;
            let first = rest.remove(0);
            proof {
                lemma_views(all);
                lemma_views(rest@);
                assert(views(rest@) =~= views(all).skip(1));
            }
            match unpack_bulk_string(first) {
                Ok(name) => Ok((name, rest)),
                Err(e) => Err(e),
            }
        },
        _ => Err(RequestError::NotAnArray),
    }
}

fn pong() -> (r: Vec<u8>)
    ensures
        r@ == pong_text(),
{
    slice_to_vec("PONG".as_bytes())
}

fn unknown_command() -> (r: Vec<u8>)
    ensures
        r@ == unknown_command_text(),
{
    slice_to_vec("ERR unknown command".as_bytes())
}

fn wrong_arguments() -> (r: Vec<u8>)
    ensures
        r@ == wrong_arguments_text(),
{
    slice_to_vec("ERR wrong number of arguments".as_bytes())
}

fn invalid_request() -> (r: Vec<u8>)
    ensures
        r@ == invalid_request_text(),
{
    slice_to_vec("ERR invalid request".as_bytes())
}

/// Answers a command.
pub fn dispatch(command_name: &[u8], args: Vec<Value>) -> (r: Value)
    ensures
        r@ == dispatch_spec(command_name@, views(args@)),
{
    proof {
        lemma_views(args@);
    }
    if eq_ignore_case(command_name, ping().as_slice()) {
        if args.len() == 0 {
            Value::SimpleString(pong())
        } else {
            Value::Error(wrong_arguments())
        }
    } else if eq_ignore_case(command_name, echo().as_slice()) {
        if args.len() == 1 {
            let mut args = args;
            let arg = args.pop().unwrap();
            match arg {
                Value::BulkString(b) => Value::BulkString(b),
                _ => Value::Error(wrong_arguments()),
            }
        } else {
            Value::Error(wrong_arguments())
        }
    } else {
        Value::Error(unknown_command())
    }
}

fn ping() -> (r: Vec<u8>)
    ensures
        r@ == ping_name(),
{
    slice_to_vec("PING".as_bytes())
}

fn echo() -> (r: Vec<u8>)
    ensures
        r@ == echo_name(),
{
    slice_to_vec("ECHO".as_bytes())
}

/// Answers a value that a client sent. A value that is no request is
/// answered with an error, as a command with wrong arguments is.
pub fn handle_request(value: Value) -> (r: Value)
    ensures
        r@ == reply_to(value@),
{
    match extract_command(value) {
        Ok((name, args)) => dispatch(name.as_slice(), args),
        Err(_) => Value::Error(invalid_request()),
    }
}

} // verus!
