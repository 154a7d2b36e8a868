//! The RESP data model: frame type prefixes, outbound commands, decoded
//! reply values, and the error taxonomy shared by encoder, decoder and
//! client layer.

use vstd::prelude::*;

verus! {

/// Carriage return, the first byte of the CRLF line terminator.
pub const CR: u8 = 0x0d;

/// Line feed, the second byte of the CRLF line terminator.
pub const LF: u8 = 0x0a;

/// The five RESP frame types, named after their one-byte prefixes.
#[derive(Clone, Copy, PartialEq, Eq, Structural, Debug)]
pub enum RespPrefix {
    SimpleString,
    Error,
    Integer,
    BulkString,
    Array,
}

impl RespPrefix {
    /// The byte that begins a frame of this type.
    pub open spec fn spec_byte(self) -> u8 {
        match self {
            RespPrefix::SimpleString => 0x2b,
            RespPrefix::Error => 0x2d,
            RespPrefix::Integer => 0x3a,
            RespPrefix::BulkString => 0x24,
            RespPrefix::Array => 0x2a,
        }
    }

    /// The character form of the prefix byte.
    pub open spec fn spec_char(self) -> char {
        match self {
            RespPrefix::SimpleString => '+',
            RespPrefix::Error => '-',
            RespPrefix::Integer => ':',
            RespPrefix::BulkString => '$',
            RespPrefix::Array => '*',
        }
    }

    /// The prefix denoted by `b`, if `b` is one of the five type bytes.
    pub open spec fn spec_of_byte(b: u8) -> Option<RespPrefix> {
        if b == 0x2b {
            Some(RespPrefix::SimpleString)
        } else if b == 0x2d {
            Some(RespPrefix::Error)
        } else if b == 0x3a {
            Some(RespPrefix::Integer)
        } else if b == 0x24 {
            Some(RespPrefix::BulkString)
        } else if b == 0x2a {
            Some(RespPrefix::Array)
        } else {
            None
        }
    }

    pub fn byte_repr(&self) -> (r: u8)
        ensures
            r == self.spec_byte(),
    {
        match self {
            RespPrefix::SimpleString => 0x2b,
            RespPrefix::Error => 0x2d,
            RespPrefix::Integer => 0x3a,
            RespPrefix::BulkString => 0x24,
            RespPrefix::Array => 0x2a,
        }
    }

    pub fn char_repr(&self) -> (r: char)
        ensures
            r == self.spec_char(),
    {
        match self {
            RespPrefix::SimpleString => '+',
            RespPrefix::Error => '-',
            RespPrefix::Integer => ':',
            RespPrefix::BulkString => '$',
            RespPrefix::Array => '*',
        }
    }

    /// The prefix denoted by `b`, or `Error::InvalidPrefix` for any byte
    /// that does not begin a RESP frame.
    pub fn try_from_byte(b: u8) -> (r: Result<RespPrefix, Error>)
        ensures
            match RespPrefix::spec_of_byte(b) {
                Some(p) => r == Ok::<RespPrefix, Error>(p),
                None => r == Err::<RespPrefix, Error>(Error::InvalidPrefix),
            },
    {
        match b {
            0x2b => Ok(RespPrefix::SimpleString),
            0x2d => Ok(RespPrefix::Error),
            0x3a => Ok(RespPrefix::Integer),
            0x24 => Ok(RespPrefix::BulkString),
            0x2a => Ok(RespPrefix::Array),
            _ => Err(Error::InvalidPrefix),
        }
    }
}

/// An outbound request: a command name with its arguments. `SetCmd`
/// carries a key and a value for the SET command; `Get` carries the key
/// of a GET command.
pub enum Command {
    Ping,
    SetCmd(String, String),
    Get(String),
}

/// Everything that can go wrong in a protocol exchange.
///
/// `UnexpectedEof` is transport-level: the stream ended inside a frame.
/// `InvalidPrefix`, `BadSimpleString`, `BadInteger`, `BadBulkString`,
/// `BadArray` and `DepthExceeded` are framing errors: the stream holds
/// bytes that are not a well-formed frame. `ServerError` is a well-formed
/// reply whose content reports a failure, and `UnknownError` a well-formed
/// reply of an unexpected shape.
#[derive(Debug, PartialEq, Eq)]
pub enum Error {
    UnexpectedEof,
    InvalidPrefix,
    BadSimpleString,
    BadInteger,
    BadBulkString,
    BadArray,
    DepthExceeded,
    ServerError(Vec<u8>),
    UnknownError,
}

/// A decoded RESP reply value. Bulk strings and arrays are nullable:
/// `BulkString(None)` and `Array(None)` are the RESP null forms, distinct
/// from the empty bulk string and the empty array.
#[derive(Debug, PartialEq)]
pub enum RedisData {
    /// Single-line text, free of CR and LF.
    SimpleString(Vec<u8>),
    /// Like `SimpleString`, but the server reports a failure.
    Error(Vec<u8>),
    /// A signed 64-bit integer reply.
    Integer(i64),
    /// Binary-safe data of a declared length, or the null bulk string.
    BulkString(Option<Vec<u8>>),
    /// A sequence of replies of any variant, or the null array.
    Array(Option<Vec<RedisData>>),
}

/// The mathematical shape of a reply value, used by all contracts.
pub enum SpecValue {
    Simple(Seq<u8>),
    Error(Seq<u8>),
    Int(int),
    Bulk(Option<Seq<u8>>),
    Arr(Option<Seq<SpecValue>>),
}

/// The mathematical value denoted by one reply value.
pub open spec fn view_of(d: RedisData) -> SpecValue
    decreases d,
{
    match d {
        RedisData::SimpleString(s) => SpecValue::Simple(s@),
        RedisData::Error(s) => SpecValue::Error(s@),
        RedisData::Integer(i) => SpecValue::Int(i as int),
        RedisData::BulkString(o) => SpecValue::Bulk(
            match o {
                Some(v) => Some(v@),
                None => None,
            },
        ),
        RedisData::Array(o) => SpecValue::Arr(
            match o {
                Some(items) => Some(views_of(items@)),
                None => None,
            },
        ),
    }
}

/// The values denoted by a sequence of reply values, in order.
pub open spec fn views_of(items: Seq<RedisData>) -> Seq<SpecValue>
    decreases items,
{
    if items.len() == 0 {
        Seq::empty()
    } else {
        seq![view_of(items[0])] + views_of(items.drop_first())
    }
}

impl View for RedisData {
    type V = SpecValue;

    open spec fn view(&self) -> SpecValue {
        view_of(*self)
    }
}

/// `views_of` maps each element to its view, preserving length and order.
pub proof fn lemma_views_of(items: Seq<RedisData>)
    ensures
        views_of(items).len() == items.len(),
        forall|i: int| 0 <= i < items.len() ==> views_of(items)[i] == items[i]@,
    decreases items.len(),
{
    if items.len() > 0 {
        lemma_views_of(items.drop_first());
        assert forall|i: int| 0 <= i < items.len() implies views_of(items)[i] == items[i]@ by {
            if i > 0 {
                assert(items.drop_first()[i - 1] == items[i]);
                assert(views_of(items)[i] == views_of(items.drop_first())[i - 1]);
            }
        }
    }
}

/// Appending one more element appends its view.
pub proof fn lemma_views_of_push(items: Seq<RedisData>, x: RedisData)
    ensures
        views_of(items.push(x)) == views_of(items).push(x@),
{
    lemma_views_of(items);
    lemma_views_of(items.push(x));
    assert forall|i: int| 0 <= i < items.len() + 1 implies views_of(items.push(x))[i] == views_of(
        items,
    ).push(x@)[i] by {
        if i < items.len() {
            assert(items.push(x)[i] == items[i]);
        } else {
            assert(items.push(x)[i] == x);
        }
    }
    assert(views_of(items.push(x)) =~= views_of(items).push(x@));
}

} // verus!
