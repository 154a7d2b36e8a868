//! Round-trip laws: what the decoder yields on exactly the bytes the
//! encoder produced, stated for whole request frames and for single
//! bulk strings, with any continuation of the stream behind them.

use vstd::prelude::*;
use crate::decimal::{dec_bytes, int_payload_ok, int_payload_val, is_digit, lemma_dec_bytes_val};
use crate::encode::{bulk_bytes, crlf, encode_command, encode_parts, encode_request, command_args,
    command_name};
use crate::decode::{ScanLine, SpecParse, SpecParseList, parse_elements, parse_value, scan_line,
    lemma_scan_line_shift};
use crate::resp::{Command, SpecValue};

verus! {

/// Each argument as the bulk-string value the decoder yields for it.
pub open spec fn bulk_values(args: Seq<Seq<u8>>) -> Seq<SpecValue>
    decreases args.len(),
{
    if args.len() == 0 {
        Seq::empty()
    } else {
        seq![SpecValue::Bulk(Some(args[0]))] + bulk_values(args.drop_first())
    }
}

/// The value a request frame decodes to: an array holding the command
/// name and then every argument, each as a bulk string.
pub open spec fn request_value(name: Seq<u8>, args: Seq<Seq<u8>>) -> SpecValue {
    SpecValue::Arr(Some(bulk_values(seq![name] + args)))
}

/// A line whose payload holds neither CR nor LF scans to its own
/// length, whatever follows the terminator.
pub proof fn lemma_scan_clean_line(p: Seq<u8>, rest: Seq<u8>)
    requires
        forall|i: int| 0 <= i < p.len() ==> p[i] != 0x0d && p[i] != 0x0a,
    ensures
        scan_line(p + seq![0x0du8, 0x0au8] + rest) == ScanLine::Done(p.len() as int),
{
    let s = p + seq![0x0du8, 0x0au8] + rest;
    assert forall|j: int| 0 <= j < p.len() implies s[j] != 0x0d && s[j] != 0x0a by {
        assert(s[j] == p[j]);
    }
    lemma_scan_line_shift(s, p.len() as int);
    assert(s.skip(p.len() as int)[0] == s[p.len() as int]);
    assert(s[p.len() as int] == 0x0d);
    assert(s.skip(p.len() as int)[1] == s[p.len() as int + 1]);
    assert(s[p.len() as int + 1] == 0x0a);
    assert(scan_line(s.skip(p.len() as int)) == ScanLine::Done(0));
}

/// Decimal digit strings hold neither CR nor LF.
pub proof fn lemma_dec_bytes_clean(n: nat)
    ensures
        forall|i: int| 0 <= i < dec_bytes(n).len() ==> dec_bytes(n)[i] != 0x0d && dec_bytes(n)[i]
            != 0x0a && dec_bytes(n)[i] != 0x2d,
{
    lemma_dec_bytes_val(n);
    assert forall|i: int| 0 <= i < dec_bytes(n).len() implies dec_bytes(n)[i] != 0x0d && dec_bytes(
        n,
    )[i] != 0x0a && dec_bytes(n)[i] != 0x2d by {
        assert(is_digit(dec_bytes(n)[i]));
    }
}

/// A bulk string frame, followed by anything at all, decodes to exactly
/// its payload, consuming exactly the frame: the decoder is binary-safe
/// and does not look past the frame's final CRLF.
pub proof fn lemma_parse_bulk(p: Seq<u8>, rest: Seq<u8>, depth: nat)
    requires
        p.len() <= 0x7fff_ffff_ffff_ffff,
    ensures
        parse_value(bulk_bytes(p) + rest, depth) == SpecParse::Found(
            SpecValue::Bulk(Some(p)),
            bulk_bytes(p).len() as int,
        ),
{
    let d = dec_bytes(p.len());
    let k = d.len() as int;
    let s = bulk_bytes(p) + rest;
    lemma_dec_bytes_val(p.len());
    lemma_dec_bytes_clean(p.len());
    assert(s[0] == 0x24);
    assert(s.drop_first() =~= d + seq![0x0du8, 0x0au8] + (p + crlf() + rest));
    lemma_scan_clean_line(d, p + crlf() + rest);
    assert(scan_line(s.drop_first()) == ScanLine::Done(k));
    let hdr = s.subrange(1, 1 + k);
    assert(hdr =~= d);
    assert(hdr.len() > 0 && hdr[0] != 0x2d);
    assert(int_payload_ok(hdr));
    assert(int_payload_val(hdr) == p.len());
    let l = p.len() as int;
    let body = 3 + k;
    assert(s.len() == body + l + 2 + rest.len());
    assert(s[body + l] == 0x0d);
    assert(s[body + l + 1] == 0x0a);
    assert(s.subrange(body, body + l) =~= p);
    assert(bulk_bytes(p).len() == body + l + 2);
}

/// Round trip of one bulk string standing alone: for any length and
/// any payload bytes, embedded CR and LF included, encoding and then
/// decoding yields the payload back exactly.
pub proof fn lemma_bulk_round_trip(p: Seq<u8>, depth: nat)
    requires
        p.len() <= 0x7fff_ffff_ffff_ffff,
    ensures
        parse_value(bulk_bytes(p), depth) == SpecParse::Found(
            SpecValue::Bulk(Some(p)),
            bulk_bytes(p).len() as int,
        ),
{
    lemma_parse_bulk(p, Seq::empty(), depth);
    assert(bulk_bytes(p) + Seq::<u8>::empty() =~= bulk_bytes(p));
}

/// A list of bulk-string frames decodes element by element to the list
/// of payloads, consuming all of its bytes.
pub proof fn lemma_parse_parts(items: Seq<Seq<u8>>, depth: nat)
    requires
        forall|i: int| 0 <= i < items.len() ==> #[trigger] items[i].len()
            <= 0x7fff_ffff_ffff_ffff,
    ensures
        parse_elements(encode_parts(items), items.len(), depth) == SpecParseList::Found(
            bulk_values(items),
            encode_parts(items).len() as int,
        ),
    decreases items.len(),
{
    if items.len() == 0 {
        assert(parse_elements(encode_parts(items), 0, depth) == SpecParseList::Found(
            Seq::<SpecValue>::empty(),
            0,
        ));
    } else {
        let first = items[0];
        let tail = items.drop_first();
        let s = encode_parts(items);
        assert(s == bulk_bytes(first) + encode_parts(tail));
        lemma_parse_bulk(first, encode_parts(tail), depth);
        let n = bulk_bytes(first).len() as int;
        assert(n >= 6) by {
            lemma_dec_bytes_val(first.len());
        }
        assert(s.skip(n) =~= encode_parts(tail));
        assert forall|i: int| 0 <= i < tail.len() implies #[trigger] tail[i].len()
            <= 0x7fff_ffff_ffff_ffff by {
            assert(tail[i] == items[i + 1]);
        }
        lemma_parse_parts(tail, depth);
        assert(seq![SpecValue::Bulk(Some(first))] + bulk_values(tail) == bulk_values(items));
        assert(s.len() == n + encode_parts(tail).len());
    }
}

/// Round trip of a whole request frame: encoding a command name with
/// its arguments and then decoding those bytes yields the array of bulk
/// strings that was encoded, consuming the whole frame.
pub proof fn lemma_request_round_trip(name: Seq<u8>, args: Seq<Seq<u8>>, depth: nat)
    requires
        depth >= 1,
        name.len() <= 0x7fff_ffff_ffff_ffff,
        1 + args.len() <= 0x7fff_ffff_ffff_ffff,
        forall|i: int| 0 <= i < args.len() ==> #[trigger] args[i].len() <= 0x7fff_ffff_ffff_ffff,
    ensures
        parse_value(encode_request(name, args), depth) == SpecParse::Found(
            request_value(name, args),
            encode_request(name, args).len() as int,
        ),
{
    let c = 1 + args.len();
    let d = dec_bytes(c);
    let k = d.len() as int;
    let s = encode_request(name, args);
    let items = seq![name] + args;
    lemma_dec_bytes_val(c);
    lemma_dec_bytes_clean(c);
    assert(s[0] == 0x2a);
    assert(s.drop_first() =~= d + seq![0x0du8, 0x0au8] + (bulk_bytes(name) + encode_parts(args)));
    lemma_scan_clean_line(d, bulk_bytes(name) + encode_parts(args));
    assert(scan_line(s.drop_first()) == ScanLine::Done(k));
    let hdr = s.subrange(1, 1 + k);
    assert(hdr =~= d);
    assert(hdr.len() > 0 && hdr[0] != 0x2d);
    assert(int_payload_ok(hdr));
    assert(int_payload_val(hdr) == c);
    assert(3 + k <= s.len());
    assert(items.drop_first() =~= args);
    assert(encode_parts(items) =~= bulk_bytes(name) + encode_parts(args));
    assert(s.skip(3 + k) =~= encode_parts(items));
    assert forall|i: int| 0 <= i < items.len() implies #[trigger] items[i].len()
        <= 0x7fff_ffff_ffff_ffff by {
        if i > 0 {
            assert(items[i] == args[i - 1]);
        }
    }
    lemma_parse_parts(items, (depth - 1) as nat);
    assert(s.len() == 3 + k + encode_parts(items).len());
}

/// Round trip of a `Command`: what `send` writes decodes back to the
/// array of bulk strings holding the command's wire name and arguments.
pub proof fn lemma_command_round_trip(c: Command, depth: nat)
    requires
        depth >= 1,
        forall|i: int| 0 <= i < command_args(c).len() ==> #[trigger] command_args(c)[i].len()
            <= 0x7fff_ffff_ffff_ffff,
    ensures
        parse_value(encode_command(c), depth) == SpecParse::Found(
            request_value(command_name(c), command_args(c)),
            encode_command(c).len() as int,
        ),
{
    lemma_dec_bytes_val(command_name(c).len());
    lemma_request_round_trip(command_name(c), command_args(c), depth);
}

} // verus!
