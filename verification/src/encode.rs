//! The RESP encoder: serializes a command name and its binary arguments
//! into an array-of-bulk-strings request frame, byte for byte.

use vstd::prelude::*;
use vstd::utf8::encode_utf8;
use crate::decimal::{dec_bytes, push_decimal};
use crate::resp::Command;

verus! {

/// The CRLF line terminator.
pub open spec fn crlf() -> Seq<u8> {
    seq![0x0du8, 0x0au8]
}

/// A bulk string frame: `$`, the payload length in decimal, CRLF, the
/// raw payload bytes, CRLF.
pub open spec fn bulk_bytes(payload: Seq<u8>) -> Seq<u8> {
    seq![0x24u8] + dec_bytes(payload.len()) + crlf() + payload + crlf()
}

/// An array header: `*`, the element count in decimal, CRLF.
pub open spec fn array_header(count: nat) -> Seq<u8> {
    seq![0x2au8] + dec_bytes(count) + crlf()
}

/// The arguments of a request, each encoded as a bulk string, in order.
pub open spec fn encode_parts(args: Seq<Seq<u8>>) -> Seq<u8>
    decreases args.len(),
{
    if args.len() == 0 {
        Seq::empty()
    } else {
        bulk_bytes(args[0]) + encode_parts(args.drop_first())
    }
}

/// A whole request frame: an array whose element count is one more than
/// the argument count, holding the command name and then every argument,
/// each as a bulk string.
pub open spec fn encode_request(name: Seq<u8>, args: Seq<Seq<u8>>) -> Seq<u8> {
    array_header(1 + args.len()) + bulk_bytes(name) + encode_parts(args)
}

/// The wire name of a command.
pub open spec fn command_name(c: Command) -> Seq<u8> {
    match c {
        Command::Ping => seq![0x50u8, 0x49u8, 0x4eu8, 0x47u8],
        Command::SetCmd(_, _) => seq![0x53u8, 0x45u8, 0x54u8],
        Command::Get(_) => seq![0x47u8, 0x45u8, 0x54u8],
    }
}

/// The arguments of a command, as the byte sequences sent on the wire.
pub open spec fn command_args(c: Command) -> Seq<Seq<u8>> {
    match c {
        Command::Ping => Seq::empty(),
        Command::SetCmd(k, v) => seq![encode_utf8(k@), encode_utf8(v@)],
        Command::Get(k) => seq![encode_utf8(k@)],
    }
}

/// The exact bytes of the request frame for `c`.
pub open spec fn encode_command(c: Command) -> Seq<u8> {
    encode_request(command_name(c), command_args(c))
}

/// Encoding the arguments one more at a time appends one more bulk string.
pub proof fn lemma_encode_parts_push(args: Seq<Seq<u8>>, x: Seq<u8>)
    ensures
        encode_parts(args.push(x)) == encode_parts(args) + bulk_bytes(x),
    decreases args.len(),
{
    if args.len() == 0 {
        assert(args.push(x).drop_first() =~= Seq::<Seq<u8>>::empty());
        assert(args.push(x)[0] == x);
        assert(encode_parts(Seq::<Seq<u8>>::empty()) == Seq::<u8>::empty());
        assert(encode_parts(args.push(x)) =~= encode_parts(args) + bulk_bytes(x));
    } else {
        assert(args.push(x).drop_first() =~= args.drop_first().push(x));
        lemma_encode_parts_push(args.drop_first(), x);
        assert(encode_parts(args.push(x)) =~= encode_parts(args) + bulk_bytes(x));
    }
}

/// The encoding of a one-argument list is one bulk string.
pub proof fn lemma_encode_parts_one(a: Seq<u8>)
    ensures
        encode_parts(seq![a]) == bulk_bytes(a),
{
    assert(seq![a].drop_first() =~= Seq::<Seq<u8>>::empty());
    assert(encode_parts(Seq::<Seq<u8>>::empty()) == Seq::<u8>::empty());
    assert(encode_parts(seq![a]) =~= bulk_bytes(a));
}

/// The encoding of a two-argument list is two bulk strings in order.
pub proof fn lemma_encode_parts_two(a: Seq<u8>, b: Seq<u8>)
    ensures
        encode_parts(seq![a, b]) == bulk_bytes(a) + bulk_bytes(b),
{
    assert(seq![a, b].drop_first() =~= seq![b]);
    lemma_encode_parts_one(b);
    assert(encode_parts(seq![a, b]) =~= bulk_bytes(a) + bulk_bytes(b));
}

/// Appends the bytes of `binary_data` to `writer`.
fn push_bytes(writer: &mut Vec<u8>, binary_data: &[u8])
    ensures
        final(writer)@ == old(writer)@ + binary_data@,
{
    let mut i: usize = 0;
    while i < binary_data.len()
        invariant
            i <= binary_data@.len(),
            writer@ == old(writer)@ + binary_data@.take(i as int),
        decreases binary_data@.len() - i,
    {
        let b = binary_data[i];
        writer.push(b);
        proof {
            assert(binary_data@.take(i + 1) =~= binary_data@.take(i as int).push(b));
            assert(writer@ =~= old(writer)@ + binary_data@.take(i + 1));
        }
        i = i + 1;
    }
    proof {
        assert(binary_data@.take(binary_data@.len() as int) =~= binary_data@);
    }
}

/// Appends a bulk string frame holding `binary_data` to `writer`. The
/// data is treated as opaque bytes: only its length is inspected.
pub fn resp_bulk_string(writer: &mut Vec<u8>, binary_data: &[u8])
    ensures
        final(writer)@ == old(writer)@ + bulk_bytes(binary_data@),
{
    writer.push(0x24);
    push_decimal(writer, binary_data.len() as u64);
    writer.push(0x0d);
    writer.push(0x0a);
    push_bytes(writer, binary_data);
    writer.push(0x0d);
    writer.push(0x0a);
    proof {
        assert(writer@ =~= old(writer)@ + bulk_bytes(binary_data@));
    }
}

/// Appends an array header announcing `count` elements to `writer`.
pub fn resp_array(writer: &mut Vec<u8>, count: u32)
    ensures
        final(writer)@ == old(writer)@ + array_header(count as nat),
{
    writer.push(0x2a);
    push_decimal(writer, count as u64);
    writer.push(0x0d);
    writer.push(0x0a);
    proof {
        assert(writer@ =~= old(writer)@ + array_header(count as nat));
    }
}

/// Serializes `command` into `writer` as one RESP request frame.
pub fn send(writer: &mut Vec<u8>, command: Command)
    ensures
        final(writer)@ == old(writer)@ + encode_command(command),
{
    match command {
        Command::Ping => {
            resp_array(writer, 1);
            let name: Vec<u8> = vec![0x50, 0x49, 0x4e, 0x47];
            resp_bulk_string(writer, name.as_slice());
            proof {
                assert(command_args(command) =~= Seq::<Seq<u8>>::empty());
                assert(writer@ =~= old(writer)@ + encode_command(command));
            }
        },
        Command::SetCmd(key, value) => {
            resp_array(writer, 3);
            let name: Vec<u8> = vec![0x53, 0x45, 0x54];
            resp_bulk_string(writer, name.as_slice());
            resp_bulk_string(writer, key.as_str().as_bytes());
            resp_bulk_string(writer, value.as_str().as_bytes());
            proof {
                lemma_encode_parts_two(encode_utf8(key@), encode_utf8(value@));
                assert(writer@ =~= old(writer)@ + encode_command(command));
            }
        },
        Command::Get(key) => {
            resp_array(writer, 2);
            let name: Vec<u8> = vec![0x47, 0x45, 0x54];
            resp_bulk_string(writer, name.as_slice());
            resp_bulk_string(writer, key.as_str().as_bytes());
            proof {
                lemma_encode_parts_one(encode_utf8(key@));
                assert(writer@ =~= old(writer)@ + encode_command(command));
            }
        },
    }
}

/// Encodes one whole request frame for `name` with `args`: the general
/// form of the encoder, total over arbitrary binary arguments.
pub fn encode(name: &[u8], args: &Vec<Vec<u8>>) -> (out: Vec<u8>)
    requires
        args.len() < usize::MAX,
    ensures
        out@ == encode_request(name@, args.deep_view()),
{
    let mut out: Vec<u8> = Vec::new();
    out.push(0x2a);
    push_decimal(&mut out, 1 + args.len() as u64);
    out.push(0x0d);
    out.push(0x0a);
    resp_bulk_string(&mut out, name);
    proof {
        assert(args.deep_view().take(0) =~= Seq::<Seq<u8>>::empty());
        assert(out@ =~= array_header((1 + args@.len()) as nat) + bulk_bytes(name@)
            + encode_parts(args.deep_view().take(0)));
    }
    let mut i: usize = 0;
    while i < args.len()
        invariant
            i <= args@.len() < usize::MAX,
            out@ == array_header((1 + args@.len()) as nat) + bulk_bytes(name@) + encode_parts(
                args.deep_view().take(i as int),
            ),
        decreases args@.len() - i,
    {
        resp_bulk_string(&mut out, args[i].as_slice());
        proof {
            let dv = args.deep_view();
            assert(dv.take(i + 1) =~= dv.take(i as int).push(dv[i as int]));
            lemma_encode_parts_push(dv.take(i as int), dv[i as int]);
            assert(dv[i as int] == args@[i as int]@);
            assert(out@ =~= array_header((1 + args@.len()) as nat) + bulk_bytes(name@)
                + encode_parts(dv.take(i + 1)));
        }
        i = i + 1;
    }
    proof {
        assert(args.deep_view().take(args@.len() as int) =~= args.deep_view());
    }
    out
}

} // verus!
