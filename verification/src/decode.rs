//! The RESP decoder: a mathematical parser over byte sequences, the
//! verified incremental parser that implements it, and the `Decoder`
//! that resumes across arbitrarily fragmented reads.

use vstd::prelude::*;
use crate::decimal::{int_payload_ok, int_payload_val, parse_int};
use crate::resp::{Error, RedisData, SpecValue, views_of};

verus! {

/// How many levels of array nesting the decoder accepts before it
/// reports a framing error instead of recursing further.
pub const MAX_DEPTH: u32 = 64;

/// The outcome of looking for the CRLF terminator of a header line.
pub enum ScanLine {
    /// A complete line whose payload is the given number of bytes,
    /// followed by CRLF.
    Done(int),
    /// No terminator yet: the line may still be completed by more bytes.
    Partial,
    /// A stray CR or LF: the line is not single-line and never will be.
    Broken,
}

/// Scans `s` for a CRLF terminator. The payload of the line must hold
/// neither CR nor LF; the first of either byte decides the outcome.
pub open spec fn scan_line(s: Seq<u8>) -> ScanLine
    decreases s.len(),
{
    if s.len() == 0 {
        ScanLine::Partial
    } else if s[0] == 0x0d {
        if s.len() == 1 {
            ScanLine::Partial
        } else if s[1] == 0x0a {
            ScanLine::Done(0)
        } else {
            ScanLine::Broken
        }
    } else if s[0] == 0x0a {
        ScanLine::Broken
    } else {
        match scan_line(s.drop_first()) {
            ScanLine::Done(k) => ScanLine::Done(k + 1),
            r => r,
        }
    }
}

/// The outcome of parsing one value from the front of the stream.
pub enum SpecParse {
    /// A complete value occupying exactly the given number of bytes.
    Found(SpecValue, int),
    /// The stream so far is a proper prefix of a frame.
    Incomplete,
    /// The stream cannot be a frame, whatever bytes follow.
    Bad(Error),
}

/// The outcome of parsing a fixed number of consecutive values.
pub enum SpecParseList {
    /// All values, and the total number of bytes they occupy.
    Found(Seq<SpecValue>, int),
    Incomplete,
    Bad(Error),
}

/// Parses one RESP value from the front of `s`, descending through at
/// most `depth` levels of array nesting.
///
/// The guard on the header length before the recursive call keeps the
/// recursion well-founded; `lemma_scan_line_done` shows it always holds.
pub open spec fn parse_value(s: Seq<u8>, depth: nat) -> SpecParse
    decreases s.len(), 0int, 0int,
{
    if s.len() == 0 {
        SpecParse::Incomplete
    } else if s[0] == 0x2b || s[0] == 0x2d {
        // simple string '+' or error '-': one line of text
        match scan_line(s.drop_first()) {
            ScanLine::Partial => SpecParse::Incomplete,
            ScanLine::Broken => SpecParse::Bad(Error::BadSimpleString),
            ScanLine::Done(k) => {
                let text = s.subrange(1, 1 + k);
                if s[0] == 0x2b {
                    SpecParse::Found(SpecValue::Simple(text), 3 + k)
                } else {
                    SpecParse::Found(SpecValue::Error(text), 3 + k)
                }
            },
        }
    } else if s[0] == 0x3a {
        // integer ':': one line holding a signed 64-bit decimal
        match scan_line(s.drop_first()) {
            ScanLine::Partial => SpecParse::Incomplete,
            ScanLine::Broken => SpecParse::Bad(Error::BadInteger),
            ScanLine::Done(k) => {
                let p = s.subrange(1, 1 + k);
                if int_payload_ok(p) {
                    SpecParse::Found(SpecValue::Int(int_payload_val(p)), 3 + k)
                } else {
                    SpecParse::Bad(Error::BadInteger)
                }
            },
        }
    } else if s[0] == 0x24 {
        // bulk string '$': a length line, then that many raw bytes, then CRLF
        match scan_line(s.drop_first()) {
            ScanLine::Partial => SpecParse::Incomplete,
            ScanLine::Broken => SpecParse::Bad(Error::BadBulkString),
            ScanLine::Done(k) => {
                let p = s.subrange(1, 1 + k);
                if !int_payload_ok(p) {
                    SpecParse::Bad(Error::BadBulkString)
                } else {
                    let l = int_payload_val(p);
                    if l == -1 {
                        SpecParse::Found(SpecValue::Bulk(None), 3 + k)
                    } else if l < 0 {
                        SpecParse::Bad(Error::BadBulkString)
                    } else {
                        let body = 3 + k;
                        if s.len() < body + l + 2 {
                            SpecParse::Incomplete
                        } else if s[body + l] == 0x0d && s[body + l + 1] == 0x0a {
                            SpecParse::Found(
                                SpecValue::Bulk(Some(s.subrange(body, body + l))),
                                body + l + 2,
                            )
                        } else {
                            SpecParse::Bad(Error::BadBulkString)
                        }
                    }
                }
            },
        }
    } else if s[0] == 0x2a {
        // array '*': a count line, then that many values in sequence
        match scan_line(s.drop_first()) {
            ScanLine::Partial => SpecParse::Incomplete,
            ScanLine::Broken => SpecParse::Bad(Error::BadArray),
            ScanLine::Done(k) => {
                let p = s.subrange(1, 1 + k);
                if !int_payload_ok(p) {
                    SpecParse::Bad(Error::BadArray)
                } else {
                    let c = int_payload_val(p);
                    if c == -1 {
                        SpecParse::Found(SpecValue::Arr(None), 3 + k)
                    } else if c < 0 {
                        SpecParse::Bad(Error::BadArray)
                    } else if depth == 0 {
                        SpecParse::Bad(Error::DepthExceeded)
                    } else if 0 <= k && 3 + k <= s.len() {
                        match parse_elements(s.skip(3 + k), c as nat, (depth - 1) as nat) {
                            SpecParseList::Found(vs, m) => SpecParse::Found(
                                SpecValue::Arr(Some(vs)),
                                3 + k + m,
                            ),
                            SpecParseList::Incomplete => SpecParse::Incomplete,
                            SpecParseList::Bad(e) => SpecParse::Bad(e),
                        }
                    } else {
                        SpecParse::Bad(Error::UnknownError)
                    }
                }
            },
        }
    } else {
        SpecParse::Bad(Error::InvalidPrefix)
    }
}

/// Parses exactly `count` consecutive values from the front of `s`.
///
/// The guard on the consumed count keeps the recursion well-founded;
/// `lemma_parse_value_consumed` shows it always holds.
pub open spec fn parse_elements(s: Seq<u8>, count: nat, depth: nat) -> SpecParseList
    decreases s.len(), 1int, count,
{
    if count == 0 {
        SpecParseList::Found(Seq::empty(), 0)
    } else {
        match parse_value(s, depth) {
            SpecParse::Incomplete => SpecParseList::Incomplete,
            SpecParse::Bad(e) => SpecParseList::Bad(e),
            SpecParse::Found(v, n) => {
                if 1 <= n <= s.len() {
                    match parse_elements(s.skip(n), (count - 1) as nat, depth) {
                        SpecParseList::Found(vs, m) => SpecParseList::Found(seq![v] + vs, n + m),
                        r => r,
                    }
                } else {
                    SpecParseList::Bad(Error::UnknownError)
                }
            },
        }
    }
}

/// A completed line scan lies within the scanned bytes: the payload is
/// clean of CR and LF and the terminator follows it immediately.
pub proof fn lemma_scan_line_done(s: Seq<u8>)
    ensures
        scan_line(s) matches ScanLine::Done(k) ==> {
            &&& 0 <= k
            &&& k + 2 <= s.len()
            &&& s[k] == 0x0d
            &&& s[k + 1] == 0x0a
            &&& forall|i: int| 0 <= i < k ==> s[i] != 0x0d && s[i] != 0x0a
        },
    decreases s.len(),
{
    if s.len() == 0 {
    } else if s[0] == 0x0d {
    } else if s[0] == 0x0a {
    } else {
        lemma_scan_line_done(s.drop_first());
        if let ScanLine::Done(k0) = scan_line(s.drop_first()) {
            assert forall|i: int| 0 <= i < k0 + 1 implies s[i] != 0x0d && s[i] != 0x0a by {
                if i > 0 {
                    assert(s.drop_first()[i - 1] == s[i]);
                }
            }
            assert(s[k0 + 1] == s.drop_first()[k0]);
            assert(s[k0 + 2] == s.drop_first()[k0 + 1]);
        }
    }
}

/// Scanning is unmoved by a clean prefix: if the first `i` bytes hold
/// neither CR nor LF, the scan of `s` is the scan of `s.skip(i)` with
/// its payload length shifted by `i`.
pub proof fn lemma_scan_line_shift(s: Seq<u8>, i: int)
    requires
        0 <= i <= s.len(),
        forall|j: int| 0 <= j < i ==> s[j] != 0x0d && s[j] != 0x0a,
    ensures
        scan_line(s) == (match scan_line(s.skip(i)) {
            ScanLine::Done(k) => ScanLine::Done(k + i),
            r => r,
        }),
    decreases i,
{
    if i == 0 {
        assert(s.skip(0) =~= s);
    } else {
        assert(s.drop_first().skip(i - 1) =~= s.skip(i));
        assert forall|j: int| 0 <= j < i - 1 implies s.drop_first()[j] != 0x0d && s.drop_first()[j]
            != 0x0a by {
            assert(s.drop_first()[j] == s[j + 1]);
        }
        lemma_scan_line_shift(s.drop_first(), i - 1);
    }
}

/// A found value occupies at least one byte and no more than the input;
/// a found element list occupies no more than the input and yields
/// exactly `count` values.
pub proof fn lemma_parse_value_consumed(s: Seq<u8>, depth: nat)
    ensures
        parse_value(s, depth) matches SpecParse::Found(v, n) ==> 1 <= n <= s.len(),
    decreases s.len(), 0int, 0int,
{
    if s.len() == 0 {
    } else if s[0] == 0x2b || s[0] == 0x2d || s[0] == 0x3a || s[0] == 0x24 || s[0] == 0x2a {
        lemma_scan_line_done(s.drop_first());
        if let ScanLine::Done(k) = scan_line(s.drop_first()) {
            assert(k + 2 <= s.len() - 1);
            if s[0] == 0x2a {
                let p = s.subrange(1, 1 + k);
                if int_payload_ok(p) && int_payload_val(p) >= 0 && depth > 0 {
                    let c = int_payload_val(p);
                    lemma_parse_elements_consumed(s.skip(3 + k), c as nat, (depth - 1) as nat);
                }
            }
        }
    }
}

/// Companion of `lemma_parse_value_consumed` for element lists.
pub proof fn lemma_parse_elements_consumed(s: Seq<u8>, count: nat, depth: nat)
    ensures
        parse_elements(s, count, depth) matches SpecParseList::Found(vs, m) ==> {
            &&& 0 <= m <= s.len()
            &&& vs.len() == count
        },
    decreases s.len(), 1int, count,
{
    if count == 0 {
    } else {
        lemma_parse_value_consumed(s, depth);
        if let SpecParse::Found(v, n) = parse_value(s, depth) {
            lemma_parse_elements_consumed(s.skip(n), (count - 1) as nat, depth);
        }
    }
}

/// A completed line scan is unmoved by extra bytes after the terminator.
pub proof fn lemma_scan_line_extend(s: Seq<u8>, t: Seq<u8>)
    ensures
        scan_line(s) matches ScanLine::Done(k) ==> scan_line(s + t) == ScanLine::Done(k),
{
    lemma_scan_line_done(s);
    if let ScanLine::Done(k) = scan_line(s) {
        let p = s.take(k);
        assert forall|i: int| 0 <= i < p.len() implies p[i] != 0x0d && p[i] != 0x0a by {
            assert(p[i] == s[i]);
        }
        assert(s + t =~= p + seq![0x0du8, 0x0au8] + (s.skip(k + 2) + t));
        crate::roundtrip::lemma_scan_clean_line(p, s.skip(k + 2) + t);
    }
}

/// The decoder never examines bytes beyond the frame it returns: a
/// complete value parses to the same value, occupying the same bytes,
/// whatever later bytes of the stream stand behind it. This is what
/// lets one byte source carry frame after frame, arriving in fragments
/// of any size.
pub proof fn lemma_parse_value_extend(s: Seq<u8>, t: Seq<u8>, depth: nat)
    ensures
        parse_value(s, depth) matches SpecParse::Found(v, n) ==> parse_value(s + t, depth)
            == SpecParse::Found(v, n),
    decreases s.len(), 0int, 0int,
{
    let st = s + t;
    if let SpecParse::Found(v, n) = parse_value(s, depth) {
        assert(st[0] == s[0]);
        lemma_scan_line_done(s.drop_first());
        assert(st.drop_first() =~= s.drop_first() + t);
        lemma_scan_line_extend(s.drop_first(), t);
        if let ScanLine::Done(k) = scan_line(s.drop_first()) {
            assert(st.subrange(1, 1 + k) =~= s.subrange(1, 1 + k));
            if s[0] == 0x24 {
                let p = s.subrange(1, 1 + k);
                if int_payload_ok(p) && int_payload_val(p) >= 0 {
                    let l = int_payload_val(p);
                    let body = 3 + k;
                    assert(s.len() >= body + l + 2);
                    assert(st[body + l] == s[body + l]);
                    assert(st[body + l + 1] == s[body + l + 1]);
                    assert(st.subrange(body, body + l) =~= s.subrange(body, body + l));
                }
            }
            if s[0] == 0x2a {
                let p = s.subrange(1, 1 + k);
                if int_payload_ok(p) && int_payload_val(p) >= 0 && depth > 0 {
                    let c = int_payload_val(p);
                    assert(st.skip(3 + k) =~= s.skip(3 + k) + t);
                    lemma_parse_elements_extend(s.skip(3 + k), t, c as nat, (depth - 1) as nat);
                }
            }
        }
    }
}

/// Companion of `lemma_parse_value_extend` for element lists.
pub proof fn lemma_parse_elements_extend(s: Seq<u8>, t: Seq<u8>, count: nat, depth: nat)
    ensures
        parse_elements(s, count, depth) matches SpecParseList::Found(vs, m) ==> parse_elements(
            s + t,
            count,
            depth,
        ) == SpecParseList::Found(vs, m),
    decreases s.len(), 1int, count,
{
    if count > 0 {
        if let SpecParseList::Found(vs, m) = parse_elements(s, count, depth) {
            lemma_parse_value_extend(s, t, depth);
            lemma_parse_value_consumed(s, depth);
            if let SpecParse::Found(v, n) = parse_value(s, depth) {
                assert((s + t).skip(n) =~= s.skip(n) + t);
                lemma_parse_elements_extend(s.skip(n), t, (count - 1) as nat, depth);
            }
        }
    }
}

/// A broken line stays broken: the stray CR or LF that spoiled it does
/// not go away when more bytes arrive.
pub proof fn lemma_scan_line_broken_extend(s: Seq<u8>, t: Seq<u8>)
    ensures
        scan_line(s) == ScanLine::Broken ==> scan_line(s + t) == ScanLine::Broken,
    decreases s.len(),
{
    if scan_line(s) == ScanLine::Broken {
        let st = s + t;
        assert(st[0] == s[0]);
        if s[0] == 0x0d {
            assert(st[1] == s[1]);
        } else if s[0] != 0x0a {
            assert(st.drop_first() =~= s.drop_first() + t);
            lemma_scan_line_broken_extend(s.drop_first(), t);
        }
    }
}

/// A framing error is final: once the buffered bytes cannot be a
/// frame, no bytes that arrive later make them one. The same error is
/// reported whatever follows, so the stream can only be abandoned.
pub proof fn lemma_parse_value_bad_stable(s: Seq<u8>, t: Seq<u8>, depth: nat)
    ensures
        parse_value(s, depth) matches SpecParse::Bad(e) ==> parse_value(s + t, depth)
            == SpecParse::Bad(e),
    decreases s.len(), 0int, 0int,
{
    let st = s + t;
    if let SpecParse::Bad(e) = parse_value(s, depth) {
        assert(st[0] == s[0]);
        if s[0] == 0x2b || s[0] == 0x2d || s[0] == 0x3a || s[0] == 0x24 || s[0] == 0x2a {
            assert(st.drop_first() =~= s.drop_first() + t);
            lemma_scan_line_done(s.drop_first());
            lemma_scan_line_extend(s.drop_first(), t);
            lemma_scan_line_broken_extend(s.drop_first(), t);
            if let ScanLine::Done(k) = scan_line(s.drop_first()) {
                assert(st.subrange(1, 1 + k) =~= s.subrange(1, 1 + k));
                if s[0] == 0x24 {
                    let p = s.subrange(1, 1 + k);
                    if int_payload_ok(p) && int_payload_val(p) >= 0 {
                        let l = int_payload_val(p);
                        let body = 3 + k;
                        if s.len() >= body + l + 2 {
                            assert(st[body + l] == s[body + l]);
                            assert(st[body + l + 1] == s[body + l + 1]);
                        }
                    }
                }
                if s[0] == 0x2a {
                    let p = s.subrange(1, 1 + k);
                    if int_payload_ok(p) && int_payload_val(p) >= 0 && depth > 0 {
                        let c = int_payload_val(p);
                        assert(st.skip(3 + k) =~= s.skip(3 + k) + t);
                        lemma_parse_elements_bad_stable(
                            s.skip(3 + k),
                            t,
                            c as nat,
                            (depth - 1) as nat,
                        );
                    }
                }
            }
        }
    }
}

/// Companion of `lemma_parse_value_bad_stable` for element lists.
pub proof fn lemma_parse_elements_bad_stable(s: Seq<u8>, t: Seq<u8>, count: nat, depth: nat)
    ensures
        parse_elements(s, count, depth) matches SpecParseList::Bad(e) ==> parse_elements(
            s + t,
            count,
            depth,
        ) == SpecParseList::Bad(e),
    decreases s.len(), 1int, count,
{
    if count > 0 {
        if let SpecParseList::Bad(e) = parse_elements(s, count, depth) {
            lemma_parse_value_bad_stable(s, t, depth);
            lemma_parse_value_consumed(s, depth);
            if let SpecParse::Found(v, n) = parse_value(s, depth) {
                lemma_parse_value_extend(s, t, depth);
                assert((s + t).skip(n) =~= s.skip(n) + t);
                lemma_parse_elements_bad_stable(s.skip(n), t, (count - 1) as nat, depth);
            }
        }
    }
}

/// Combines an already-parsed prefix of an element list, occupying
/// `used` bytes, with the parse of the remaining elements.
pub open spec fn list_glue(prefix: Seq<SpecValue>, used: int, rest: SpecParseList) -> SpecParseList {
    match rest {
        SpecParseList::Found(vs, m) => SpecParseList::Found(prefix + vs, used + m),
        SpecParseList::Incomplete => SpecParseList::Incomplete,
        SpecParseList::Bad(e) => SpecParseList::Bad(e),
    }
}

/// Wraps the parse of an array's elements, after a header of `hdr`
/// bytes, into the parse of the whole array.
pub open spec fn arr_glue(hdr: int, rest: SpecParseList) -> SpecParse {
    match rest {
        SpecParseList::Found(vs, m) => SpecParse::Found(SpecValue::Arr(Some(vs)), hdr + m),
        SpecParseList::Incomplete => SpecParse::Incomplete,
        SpecParseList::Bad(e) => SpecParse::Bad(e),
    }
}

/// Parsing a non-empty element list factors into its first element and
/// the remaining ones.
pub proof fn lemma_parse_elements_step(s: Seq<u8>, count: nat, depth: nat)
    requires
        count > 0,
    ensures
        parse_elements(s, count, depth) == (match parse_value(s, depth) {
            SpecParse::Incomplete => SpecParseList::Incomplete,
            SpecParse::Bad(e) => SpecParseList::Bad(e),
            SpecParse::Found(v, n) => {
                if 1 <= n <= s.len() {
                    list_glue(seq![v], n, parse_elements(s.skip(n), (count - 1) as nat, depth))
                } else {
                    SpecParseList::Bad(Error::UnknownError)
                }
            },
        }),
{
    if let SpecParse::Found(v, n) = parse_value(s, depth) {
        if 1 <= n <= s.len() {
            let rest = parse_elements(s.skip(n), (count - 1) as nat, depth);
            match rest {
                SpecParseList::Found(vs, m) => {},
                SpecParseList::Incomplete => {},
                SpecParseList::Bad(e) => {},
            }
        }
    }
}

/// Gluing one more element onto a parsed prefix extends the prefix.
pub proof fn lemma_list_glue_assoc(
    prefix: Seq<SpecValue>,
    used: int,
    v: SpecValue,
    n: int,
    rest: SpecParseList,
)
    ensures
        list_glue(prefix, used, list_glue(seq![v], n, rest)) == list_glue(
            prefix.push(v),
            used + n,
            rest,
        ),
{
    match rest {
        SpecParseList::Found(vs, m) => {
            assert(prefix + (seq![v] + vs) =~= prefix.push(v) + vs);
        },
        SpecParseList::Incomplete => {},
        SpecParseList::Bad(e) => {},
    }
}

/// The outcome of the executable line scan: the payload length of a
/// complete line, or the two non-final outcomes.
enum LineEnd {
    Len(usize),
    Partial,
    Broken,
}

/// Finds the CRLF terminator of the header line starting at `pos`,
/// mirroring `scan_line` on `buf[pos..]`.
fn find_line_end(buf: &Vec<u8>, pos: usize) -> (r: LineEnd)
    requires
        pos <= buf.len(),
    ensures
        ({
            let s = buf@.skip(pos as int);
            match scan_line(s) {
                ScanLine::Done(k) => r matches LineEnd::Len(kk) && kk == k,
                ScanLine::Partial => r matches LineEnd::Partial,
                ScanLine::Broken => r matches LineEnd::Broken,
            }
        }),
{
    let ghost s = buf@.skip(pos as int);
    let mut i: usize = pos;
    while i < buf.len()
        invariant
            pos <= i <= buf.len(),
            s == buf@.skip(pos as int),
            forall|j: int| 0 <= j < i - pos ==> s[j] != 0x0d && s[j] != 0x0a,
        decreases buf.len() - i,
    {
        let b = buf[i];
        proof {
            assert(s[i - pos] == b);
            lemma_scan_line_shift(s, i - pos);
        }
        if b == 0x0d {
            if i + 1 < buf.len() {
                let b2 = buf[i + 1];
                proof {
                    assert(s.skip(i - pos)[0] == b);
                    assert(s.skip(i - pos)[1] == s[i - pos + 1]);
                    assert(s[i - pos + 1] == b2);
                }
                if b2 == 0x0a {
                    return LineEnd::Len(i - pos);
                } else {
                    return LineEnd::Broken;
                }
            } else {
                proof {
                    assert(s.skip(i - pos).len() == 1);
                    assert(s.skip(i - pos)[0] == b);
                }
                return LineEnd::Partial;
            }
        } else if b == 0x0a {
            proof {
                assert(s.skip(i - pos)[0] == b);
            }
            return LineEnd::Broken;
        }
        i = i + 1;
    }
    proof {
        lemma_scan_line_shift(s, i - pos);
        assert(s.skip(i - pos).len() == 0);
    }
    LineEnd::Partial
}

/// Copies `buf[start..end]` into a fresh vector.
fn copy_range(buf: &Vec<u8>, start: usize, end: usize) -> (out: Vec<u8>)
    requires
        start <= end <= buf.len(),
    ensures
        out@ == buf@.subrange(start as int, end as int),
{
    let mut out: Vec<u8> = Vec::new();
    let mut i: usize = start;
    while i < end
        invariant
            start <= i <= end <= buf.len(),
            out@ == buf@.subrange(start as int, i as int),
        decreases end - i,
    {
        let b = buf[i];
        out.push(b);
        proof {
            assert(buf@.subrange(start as int, i + 1) =~= buf@.subrange(start as int, i as int)
                .push(b));
        }
        i = i + 1;
    }
    out
}

/// Parses one value from `buf[pos..]`, exactly as `parse_value` reads
/// it: on success the returned index is the first byte after the frame,
/// and not one byte beyond it is examined.
#[verifier::rlimit(60)]
pub fn parse_at(buf: &Vec<u8>, pos: usize, depth: u32) -> (r: Result<
    Option<(RedisData, usize)>,
    Error,
>)
    requires
        pos <= buf.len(),
    ensures
        ({
            let s = buf@.skip(pos as int);
            match parse_value(s, depth as nat) {
                SpecParse::Found(v, n) => r matches Ok(Some((val, end))) && val@ == v && end == pos
                    + n,
                SpecParse::Incomplete => r matches Ok(None),
                SpecParse::Bad(e) => r matches Err(e2) && e2 == e,
            }
        }),
    decreases buf.len() - pos,
{
    let ghost s = buf@.skip(pos as int);
    if pos == buf.len() {
        assert(s.len() == 0);
        return Ok(None);
    }
    let b = buf[pos];
    proof {
        assert(s[0] == b);
        assert(buf@.skip(pos + 1) =~= s.drop_first());
        lemma_scan_line_done(s.drop_first());
    }
    if b == 0x2b || b == 0x2d {
        match find_line_end(buf, pos + 1) {
            LineEnd::Partial => Ok(None),
            LineEnd::Broken => Err(Error::BadSimpleString),
            LineEnd::Len(k) => {
                proof {
                    assert(buf@.subrange(pos + 1, pos + 1 + k) =~= s.subrange(1, 1 + k));
                }
                let payload = copy_range(buf, pos + 1, pos + 1 + k);
                let end = pos + 1 + k + 2;
                if b == 0x2b {
                    Ok(Some((RedisData::SimpleString(payload), end)))
                } else {
                    Ok(Some((RedisData::Error(payload), end)))
                }
            },
        }
    } else if b == 0x3a {
        match find_line_end(buf, pos + 1) {
            LineEnd::Partial => Ok(None),
            LineEnd::Broken => Err(Error::BadInteger),
            LineEnd::Len(k) => {
                proof {
                    assert(buf@.subrange(pos + 1, pos + 1 + k) =~= s.subrange(1, 1 + k));
                }
                match parse_int(buf, pos + 1, pos + 1 + k) {
                    Some(v) => Ok(Some((RedisData::Integer(v), pos + 1 + k + 2))),
                    None => Err(Error::BadInteger),
                }
            },
        }
    } else if b == 0x24 {
        match find_line_end(buf, pos + 1) {
            LineEnd::Partial => Ok(None),
            LineEnd::Broken => Err(Error::BadBulkString),
            LineEnd::Len(k) => {
                proof {
                    assert(buf@.subrange(pos + 1, pos + 1 + k) =~= s.subrange(1, 1 + k));
                }
                match parse_int(buf, pos + 1, pos + 1 + k) {
                    None => Err(Error::BadBulkString),
                    Some(l) => {
                        if l == -1 {
                            Ok(Some((RedisData::BulkString(None), pos + 1 + k + 2)))
                        } else if l < 0 {
                            Err(Error::BadBulkString)
                        } else {
                            let body = pos + 3 + k;
                            let rem: u64 = (buf.len() - body) as u64;
                            if rem < 2 || rem - 2 < l as u64 {
                                assert(s.len() < 3 + k + l + 2);
                                Ok(None)
                            } else {
                                let l_us = l as usize;
                                proof {
                                    assert(s[3 + k + l] == buf@[body + l_us as int]);
                                    assert(s[3 + k + l + 1] == buf@[body + l_us + 1]);
                                }
                                let cr = buf[body + l_us];
                                let lf = buf[body + l_us + 1];
                                if cr == 0x0d && lf == 0x0a {
                                    proof {
                                        assert(buf@.subrange(body as int, body + l_us as int)
                                            =~= s.subrange(3 + k, 3 + k + l));
                                    }
                                    let payload = copy_range(buf, body, body + l_us);
                                    Ok(Some((RedisData::BulkString(Some(payload)), body + l_us + 2)))
                                } else {
                                    Err(Error::BadBulkString)
                                }
                            }
                        }
                    },
                }
            },
        }
    } else if b == 0x2a {
        match find_line_end(buf, pos + 1) {
            LineEnd::Partial => Ok(None),
            LineEnd::Broken => Err(Error::BadArray),
            LineEnd::Len(k) => {
                proof {
                    assert(buf@.subrange(pos + 1, pos + 1 + k) =~= s.subrange(1, 1 + k));
                }
                match parse_int(buf, pos + 1, pos + 1 + k) {
                    None => Err(Error::BadArray),
                    Some(c) => {
                        if c == -1 {
                            Ok(Some((RedisData::Array(None), pos + 1 + k + 2)))
                        } else if c < 0 {
                            Err(Error::BadArray)
                        } else if depth == 0 {
                            Err(Error::DepthExceeded)
                        } else {
                            let hdr_end = pos + 3 + k;
                            let ghost dd = (depth - 1) as nat;
                            let ghost cnat = c as nat;
                            let ghost s_elems = buf@.skip(hdr_end as int);
                            proof {
                                assert(s.skip(3 + k) =~= s_elems);
                                assert(parse_value(s, depth as nat) == arr_glue(
                                    3 + k,
                                    parse_elements(s_elems, cnat, dd),
                                ));
                            }
                            let c_u: u64 = c as u64;
                            let mut items: Vec<RedisData> = Vec::new();
                            let mut cur: usize = hdr_end;
                            let mut j: u64 = 0;
                            while j < c_u
                                invariant
                                    pos < hdr_end <= cur <= buf.len(),
                                    j <= c_u,
                                    c_u == cnat,
                                    items@.len() == j,
                                    s_elems == buf@.skip(hdr_end as int),
                                    s == buf@.skip(pos as int),
                                    depth >= 1,
                                    dd == (depth - 1) as nat,
                                    parse_value(s, depth as nat) == arr_glue(
                                        hdr_end - pos,
                                        parse_elements(s_elems, cnat, dd),
                                    ),
                                    parse_elements(s_elems, cnat, dd) == list_glue(
                                        views_of(items@),
                                        cur - hdr_end,
                                        parse_elements(
                                            buf@.skip(cur as int),
                                            (c_u - j) as nat,
                                            dd,
                                        ),
                                    ),
                                decreases c_u - j,
                            {
                                let ghost s_mid = buf@.skip(cur as int);
                                proof {
                                    lemma_parse_elements_step(s_mid, (c_u - j) as nat, dd);
                                    lemma_parse_value_consumed(s_mid, dd);
                                }
                                match parse_at(buf, cur, depth - 1) {
                                    Err(e) => {
                                        return Err(e);
                                    },
                                    Ok(None) => {
                                        return Ok(None);
                                    },
                                    Ok(Some((val, end2))) => {
                                        proof {
                                            let n = end2 - cur;
                                            lemma_list_glue_assoc(
                                                views_of(items@),
                                                cur - hdr_end,
                                                val@,
                                                n,
                                                parse_elements(
                                                    buf@.skip(end2 as int),
                                                    (c_u - j - 1) as nat,
                                                    dd,
                                                ),
                                            );
                                            crate::resp::lemma_views_of_push(items@, val);
                                            assert(s_mid.skip(n) =~= buf@.skip(end2 as int));
                                        }
                                        items.push(val);
                                        cur = end2;
                                        j = j + 1;
                                    },
                                }
                            }
                            proof {
                                assert(parse_elements(buf@.skip(cur as int), 0, dd)
                                    == SpecParseList::Found(Seq::<SpecValue>::empty(), 0));
                                assert(views_of(items@) + Seq::<SpecValue>::empty() =~= views_of(
                                    items@,
                                ));
                                assert(parse_elements(s_elems, cnat, dd) == SpecParseList::Found(
                                    views_of(items@),
                                    cur - hdr_end,
                                ));
                            }
                            Ok(Some((RedisData::Array(Some(items)), cur)))
                        }
                    },
                }
            },
        }
    } else {
        Err(Error::InvalidPrefix)
    }
}

/// An incremental decoder: bytes read from the transport are fed in as
/// they arrive, in fragments of any size, and each complete frame is
/// handed out exactly once. Bytes beyond the current frame stay unread
/// for the next call.
pub struct Decoder {
    buf: Vec<u8>,
    pos: usize,
}

impl Decoder {
    /// The consumed prefix never exceeds what was fed. Established by
    /// `new` and preserved by every method.
    pub closed spec fn wf(self) -> bool {
        self.pos <= self.buf.len()
    }

    /// The bytes fed but not yet consumed by a decoded frame.
    pub closed spec fn unread(self) -> Seq<u8> {
        self.buf@.skip(self.pos as int)
    }

    /// A fresh decoder with nothing buffered.
    pub fn new() -> (r: Decoder)
        ensures
            r.wf(),
            r.unread() == Seq::<u8>::empty(),
    {
        let r = Decoder { buf: Vec::new(), pos: 0 };
        proof {
            assert(r.unread() =~= Seq::<u8>::empty());
        }
        r
    }

    /// Appends one fragment read from the transport.
    pub fn feed(&mut self, chunk: &[u8])
        requires
            old(self).wf(),
        ensures
            final(self).wf(),
            final(self).unread() == old(self).unread() + chunk@,
    {
        let mut i: usize = 0;
        while i < chunk.len()
            invariant
                i <= chunk@.len(),
                self.pos == old(self).pos,
                self.buf@ == old(self).buf@ + chunk@.take(i as int),
                self.pos <= self.buf.len(),
            decreases chunk@.len() - i,
        {
            let b = chunk[i];
            self.buf.push(b);
            proof {
                assert(chunk@.take(i + 1) =~= chunk@.take(i as int).push(b));
                assert(self.buf@ =~= old(self).buf@ + chunk@.take(i + 1));
            }
            i = i + 1;
        }
        proof {
            assert(chunk@.take(chunk@.len() as int) =~= chunk@);
            assert(self.buf@.skip(self.pos as int) =~= old(self).buf@.skip(old(self).pos as int)
                + chunk@);
        }
    }

    /// Attempts to decode one complete value from the unread bytes.
    ///
    /// Returns `Ok(Some(value))` when a whole frame is buffered,
    /// consuming exactly that frame; `Ok(None)` when the buffered bytes
    /// are a proper prefix of a frame and more input is needed; and a
    /// framing error when the buffered bytes can never be a frame. On
    /// `Ok(None)` and on errors nothing is consumed.
    pub fn decode(&mut self) -> (r: Result<Option<RedisData>, Error>)
        requires
            old(self).wf(),
        ensures
            final(self).wf(),
            ({
                let before = old(self).unread();
                let after = final(self).unread();
                match parse_value(before, MAX_DEPTH as nat) {
                    SpecParse::Found(v, n) => r matches Ok(Some(val)) && val@ == v && after
                        == before.skip(n),
                    SpecParse::Incomplete => r matches Ok(None) && after == before,
                    SpecParse::Bad(e) => r matches Err(e2) && e2 == e && after == before,
                }
            }),
    {
        proof {
            lemma_parse_value_consumed(self.unread(), MAX_DEPTH as nat);
        }
        match parse_at(&self.buf, self.pos, MAX_DEPTH) {
            Ok(Some((val, end))) => {
                let ghost before = self.unread();
                let ghost n = end - self.pos;
                self.pos = end;
                proof {
                    assert(self.buf@.skip(end as int) =~= before.skip(n));
                }
                Ok(Some(val))
            },
            Ok(None) => Ok(None),
            Err(e) => Err(e),
        }
    }
}

} // verus!
