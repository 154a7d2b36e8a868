//! The protocol-layer checks of the thin client: reply buffers and
//! decoded reply values held against what each command expects. The
//! transport itself (sockets, reads and writes) lives outside the
//! library and hands plain bytes in and out.

use vstd::prelude::*;
use vstd::string::StringSliceAdditionalSpecFns;
use crate::resp::{Error, RedisData, SpecValue};

verus! {

/// The reply text of a successful PING.
pub open spec fn pong_text() -> Seq<u8> {
    seq![0x50u8, 0x4fu8, 0x4eu8, 0x47u8]
}

/// The reply text of a successful SET.
pub open spec fn ok_text() -> Seq<u8> {
    seq![0x4fu8, 0x4bu8]
}

/// Compares two byte vectors for equality.
pub fn vec_eq(a: &Vec<u8>, b: &Vec<u8>) -> (r: bool)
    ensures
        r == (a@ == b@),
{
    if a.len() != b.len() {
        return false;
    }
    let mut i: usize = 0;
    while i < a.len()
        invariant
            i <= a@.len() == b@.len(),
            forall|j: int| 0 <= j < i ==> a@[j] == b@[j],
        decreases a@.len() - i,
    {
        if a[i] != b[i] {
            return false;
        }
        i = i + 1;
    }
    proof {
        assert(a@ =~= b@);
    }
    true
}

/// Checks the head of a raw reply buffer against the expected frame
/// prefix byte. A `-` head is a server-reported error and carries the
/// rest of the buffer as its message; an empty buffer or any other
/// unexpected head is an unknown reply.
pub fn check_error(actual: &[u8], expected: u8) -> (r: Result<(), Error>)
    ensures
        ({
            if actual@.len() == 0 {
                r == Err::<(), Error>(Error::UnknownError)
            } else if actual@[0] == 0x2d {
                r matches Err(Error::ServerError(m)) && m@ == actual@.skip(1)
            } else if actual@[0] == expected {
                r == Ok::<(), Error>(())
            } else {
                r == Err::<(), Error>(Error::UnknownError)
            }
        }),
{
    if actual.len() == 0 {
        return Err(Error::UnknownError);
    }
    let head = actual[0];
    if head == 0x2d {
        let mut msg: Vec<u8> = Vec::new();
        let mut i: usize = 1;
        while i < actual.len()
            invariant
                1 <= i <= actual@.len(),
                msg@ == actual@.subrange(1, i as int),
            decreases actual@.len() - i,
        {
            let b = actual[i];
            msg.push(b);
            proof {
                assert(actual@.subrange(1, i + 1) =~= actual@.subrange(1, i as int).push(b));
            }
            i = i + 1;
        }
        proof {
            assert(actual@.subrange(1, actual@.len() as int) =~= actual@.skip(1));
        }
        Err(Error::ServerError(msg))
    } else if head == expected {
        Ok(())
    } else {
        Err(Error::UnknownError)
    }
}

/// Interprets the reply to PING: the simple string `PONG` is success;
/// an error reply is surfaced as a server error; any other well-formed
/// reply is unexpected.
pub fn check_ping_reply(reply: RedisData) -> (r: Result<(), Error>)
    ensures
        ({
            match reply@ {
                SpecValue::Simple(t) => {
                    if t == pong_text() {
                        r == Ok::<(), Error>(())
                    } else {
                        r == Err::<(), Error>(Error::UnknownError)
                    }
                },
                SpecValue::Error(m) => r matches Err(Error::ServerError(v)) && v@ == m,
                _ => r == Err::<(), Error>(Error::UnknownError),
            }
        }),
{
    match reply {
        RedisData::SimpleString(t) => {
            let pong: Vec<u8> = vec![0x50, 0x4f, 0x4e, 0x47];
            if vec_eq(&t, &pong) {
                Ok(())
            } else {
                Err(Error::UnknownError)
            }
        },
        RedisData::Error(m) => Err(Error::ServerError(m)),
        _ => Err(Error::UnknownError),
    }
}

/// Interprets the reply to SET: the simple string `OK` is success.
pub fn check_set_reply(reply: RedisData) -> (r: Result<(), Error>)
    ensures
        ({
            match reply@ {
                SpecValue::Simple(t) => {
                    if t == ok_text() {
                        r == Ok::<(), Error>(())
                    } else {
                        r == Err::<(), Error>(Error::UnknownError)
                    }
                },
                SpecValue::Error(m) => r matches Err(Error::ServerError(v)) && v@ == m,
                _ => r == Err::<(), Error>(Error::UnknownError),
            }
        }),
{
    match reply {
        RedisData::SimpleString(t) => {
            let ok: Vec<u8> = vec![0x4f, 0x4b];
            if vec_eq(&t, &ok) {
                Ok(())
            } else {
                Err(Error::UnknownError)
            }
        },
        RedisData::Error(m) => Err(Error::ServerError(m)),
        _ => Err(Error::UnknownError),
    }
}

/// Interprets the reply to GET: a bulk string is the stored value,
/// where the null bulk string means the key does not exist; an error
/// reply is surfaced; anything else is unexpected.
pub fn check_get_reply(reply: RedisData) -> (r: Result<Option<Vec<u8>>, Error>)
    ensures
        ({
            match reply@ {
                SpecValue::Bulk(o) => {
                    match o {
                        Some(bs) => r matches Ok(Some(v)) && v@ == bs,
                        None => r matches Ok(None),
                    }
                },
                SpecValue::Error(m) => r matches Err(Error::ServerError(v)) && v@ == m,
                _ => r == Err::<Option<Vec<u8>>, Error>(Error::UnknownError),
            }
        }),
{
    match reply {
        RedisData::BulkString(o) => Ok(o),
        RedisData::Error(m) => Err(Error::ServerError(m)),
        _ => Err(Error::UnknownError),
    }
}

/// A key under which a value is stored: raw bytes, as RESP transmits
/// keys in bulk strings.
pub struct RedisKey {
    value: Vec<u8>,
}

impl View for RedisKey {
    type V = Seq<u8>;

    closed spec fn view(&self) -> Seq<u8> {
        self.value@
    }
}

impl RedisKey {
    /// A key from raw bytes.
    pub fn from_bytes(value: Vec<u8>) -> (r: RedisKey)
        ensures
            r@ == value@,
    {
        RedisKey { value }
    }

    /// A key from text, taking its UTF-8 bytes.
    pub fn from_text(s: &str) -> (r: RedisKey)
        ensures
            r@ == s.spec_bytes(),
    {
        RedisKey { value: vstd::slice::slice_to_vec(s.as_bytes()) }
    }

    /// The bytes of the key.
    pub fn bytes(&self) -> (r: &Vec<u8>)
        ensures
            r@ == self@,
    {
        &self.value
    }
}

} // verus!
