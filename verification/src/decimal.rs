//! Decimal headers of RESP frames: the ASCII digit strings that carry
//! bulk-string lengths, array counts and integer replies, together with
//! their numeric meaning.

use vstd::prelude::*;

verus! {

/// `b` is an ASCII decimal digit.
pub open spec fn is_digit(b: u8) -> bool {
    0x30 <= b <= 0x39
}

/// Every byte of `s` is an ASCII decimal digit.
pub open spec fn all_digits(s: Seq<u8>) -> bool {
    forall|i: int| 0 <= i < s.len() ==> is_digit(#[trigger] s[i])
}

/// The number denoted by a string of ASCII digits, most significant first.
pub open spec fn digits_val(s: Seq<u8>) -> nat
    decreases s.len(),
{
    if s.len() == 0 {
        0
    } else {
        10 * digits_val(s.drop_last()) + (s.last() - 0x30) as nat
    }
}

/// The shortest decimal representation of `n`: ASCII digits with no sign
/// and no leading zeros (a single `0` for zero itself).
pub open spec fn dec_bytes(n: nat) -> Seq<u8>
    decreases n,
{
    if n < 10 {
        seq![(0x30 + n) as u8]
    } else {
        dec_bytes(n / 10).push((0x30 + n % 10) as u8)
    }
}

/// `dec_bytes` produces a non-empty digit string that denotes its input.
pub proof fn lemma_dec_bytes_val(n: nat)
    ensures
        dec_bytes(n).len() >= 1,
        all_digits(dec_bytes(n)),
        digits_val(dec_bytes(n)) == n,
    decreases n,
{
    if n < 10 {
        let s = dec_bytes(n);
        assert(s == seq![(0x30 + n) as u8]);
        assert(s.drop_last() =~= Seq::<u8>::empty());
        assert(digits_val(Seq::<u8>::empty()) == 0);
        assert(s.last() == (0x30 + n) as u8);
    } else {
        lemma_dec_bytes_val(n / 10);
        let s = dec_bytes(n);
        assert(s.drop_last() =~= dec_bytes(n / 10));
        assert forall|i: int| 0 <= i < s.len() implies is_digit(#[trigger] s[i]) by {
            if i < s.len() - 1 {
                assert(s[i] == dec_bytes(n / 10)[i]);
            }
        }
        assert(digits_val(s) == 10 * (n / 10) + n % 10);
    }
}

/// A digit string denotes at least as much as any of its prefixes.
pub proof fn lemma_digits_val_prefix_le(s: Seq<u8>, i: int)
    requires
        0 <= i <= s.len(),
    ensures
        digits_val(s.take(i)) <= digits_val(s),
    decreases s.len(),
{
    if i == s.len() {
        assert(s.take(i) =~= s);
    } else {
        assert(s.take(i) =~= s.drop_last().take(i));
        lemma_digits_val_prefix_le(s.drop_last(), i);
    }
}

/// The payload of an integer header line: an optional leading minus sign,
/// then at least one ASCII digit, denoting a value that fits in an `i64`.
pub open spec fn int_payload_ok(s: Seq<u8>) -> bool {
    if s.len() == 0 {
        false
    } else if s[0] == 0x2d {
        s.len() >= 2 && all_digits(s.skip(1)) && digits_val(s.skip(1)) <= 0x8000_0000_0000_0000
    } else {
        all_digits(s) && digits_val(s) <= 0x7fff_ffff_ffff_ffff
    }
}

/// The signed value denoted by an integer header payload.
pub open spec fn int_payload_val(s: Seq<u8>) -> int {
    if s.len() > 0 && s[0] == 0x2d {
        -(digits_val(s.skip(1)) as int)
    } else {
        digits_val(s) as int
    }
}

/// Parses `buf[start..end]` as a signed decimal integer. Returns `None`
/// exactly when the bytes are not an optional minus sign followed by one
/// or more digits, or when the denoted value does not fit in an `i64`.
pub fn parse_int(buf: &Vec<u8>, start: usize, end: usize) -> (r: Option<i64>)
    requires
        start <= end <= buf.len(),
    ensures
        ({
            let p = buf@.subrange(start as int, end as int);
            match r {
                Some(v) => int_payload_ok(p) && v as int == int_payload_val(p),
                None => !int_payload_ok(p),
            }
        }),
{
    let ghost p = buf@.subrange(start as int, end as int);
    if start == end {
        return None;
    }
    let neg = buf[start] == 0x2d;
    let dstart: usize = if neg {
        start + 1
    } else {
        start
    };
    if dstart == end {
        return None;
    }
    let ghost d_seq = buf@.subrange(dstart as int, end as int);
    proof {
        if neg {
            assert(p.skip(1) =~= d_seq);
        } else {
            assert(p =~= d_seq);
        }
    }
    let cap: u64 = if neg {
        9223372036854775808
    } else {
        9223372036854775807
    };
    let mut acc: u64 = 0;
    let mut i: usize = dstart;
    while i < end
        invariant
            dstart <= i <= end <= buf.len(),
            start <= dstart < end,
            d_seq == buf@.subrange(dstart as int, end as int),
            p == buf@.subrange(start as int, end as int),
            neg ==> dstart == start + 1 && p[0] == 0x2d && p.skip(1) == d_seq,
            !neg ==> dstart == start && p[0] != 0x2d && p == d_seq,
            cap == (if neg {
                0x8000_0000_0000_0000u64
            } else {
                0x7fff_ffff_ffff_ffffu64
            }),
            all_digits(d_seq.take(i - dstart)),
            acc == digits_val(d_seq.take(i - dstart)),
            acc <= cap,
        decreases end - i,
    {
        let b = buf[i];
        proof {
            assert(d_seq[i - dstart] == b);
        }
        if b < 0x30 || b > 0x39 {
            proof {
                assert(!is_digit(d_seq[i - dstart]));
                if neg {
                    assert(p.skip(1) == d_seq);
                    assert(!all_digits(p.skip(1)));
                } else {
                    assert(p == d_seq);
                    assert(!all_digits(p));
                }
            }
            return None;
        }
        let d: u64 = (b - 0x30) as u64;
        let wide: u128 = acc as u128 * 10 + d as u128;
        proof {
            assert(d_seq.take(i - dstart + 1).drop_last() =~= d_seq.take(i - dstart));
            assert(d_seq.take(i - dstart + 1).last() == d_seq[i - dstart]);
            assert(digits_val(d_seq.take(i - dstart + 1)) == wide);
        }
        if wide > cap as u128 {
            proof {
                lemma_digits_val_prefix_le(d_seq, i - dstart + 1);
                assert(digits_val(d_seq) > cap);
                if neg {
                    assert(p.skip(1) == d_seq);
                } else {
                    assert(p == d_seq);
                }
            }
            return None;
        }
        acc = wide as u64;
        i = i + 1;
    }
    proof {
        assert(d_seq.take(end - dstart) =~= d_seq);
    }
    if neg {
        if acc == 9223372036854775808 {
            Some(i64::MIN)
        } else {
            Some(-(acc as i64))
        }
    } else {
        Some(acc as i64)
    }
}

/// Appends the decimal representation of `n` to `out`.
pub fn push_decimal(out: &mut Vec<u8>, n: u64)
    ensures
        final(out)@ == old(out)@ + dec_bytes(n as nat),
    decreases n,
{
    if n < 10 {
        out.push(0x30 + n as u8);
        assert(out@ =~= old(out)@ + dec_bytes(n as nat));
    } else {
        push_decimal(out, n / 10);
        out.push(0x30 + (n % 10) as u8);
        assert(out@ =~= old(out)@ + dec_bytes(n as nat));
    }
}

/// Appends the decimal representation of `num` to `writer`.
pub fn write_number(writer: &mut Vec<u8>, num: u32)
    ensures
        final(writer)@ == old(writer)@ + dec_bytes(num as nat),
{
    push_decimal(writer, num as u64);
}

} // verus!
