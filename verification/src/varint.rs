//! QUIC variable-length integers.
//!
//! The two high bits of the first byte give the length (1, 2, 4 or 8 bytes);
//! the remaining bits are the value, most significant byte first.

use vstd::prelude::*;

use crate::bytes;
use crate::error::Error;

verus! {

/// The largest value that a variable-length integer can carry.
pub const MAX_VARINT: u64 = 0x3fff_ffff_ffff_ffff;

/// How many bytes the shortest encoding of `v` takes.
pub open spec fn varint_size(v: int) -> nat {
    if v < 0x40 {
        1
    } else if v < 0x4000 {
        2
    } else if v < 0x4000_0000 {
        4
    } else {
        8
    }
}

/// The length bits of an encoding of `n` bytes, in place above the value.
pub open spec fn varint_tag(n: nat) -> nat {
    if n == 1 {
        0
    } else if n == 2 {
        0x4000
    } else if n == 4 {
        0x8000_0000
    } else {
        0xc000_0000_0000_0000
    }
}

/// The shortest encoding of `v`.
pub open spec fn varint_bytes(v: int) -> Seq<u8> {
    bytes::be_bytes((v + varint_tag(varint_size(v))) as nat, varint_size(v))
}

/// The length of the encoding that begins with `first`.
pub open spec fn varint_len_of(first: u8) -> nat {
    if first < 0x40 {
        1
    } else if first < 0x80 {
        2
    } else if first < 0xc0 {
        4
    } else {
        8
    }
}

/// The value at the front of `s` and the number of bytes it takes.
pub open spec fn varint_decoded(s: Seq<u8>) -> Option<(int, nat)> {
    if s.len() == 0 {
        None
    } else {
        let n = varint_len_of(s[0]);
        if s.len() < n {
            None
        } else {
            Some((bytes::be_value(s.take(n as int)) - varint_tag(n), n))
        }
    }
}

pub proof fn lemma_varint_len(v: int)
    ensures
        varint_bytes(v).len() == varint_size(v),
        1 <= varint_size(v) <= 8,
{
    bytes::lemma_be_bytes_len((v + varint_tag(varint_size(v))) as nat, varint_size(v));
}

/// A tag above the top digit changes that digit alone.
proof fn lemma_tagged_digits(v: nat, tag: nat, top: nat)
    requires
        tag <= 0xc0,
        v < 0x40 * top,
        top == 0x100_0000 || top == 0x100_0000_0000_0000,
    ensures
        (v + tag * top) / top % 256 == tag + v / top,
        top > 0x1_0000_0000_0000 ==> (v + tag * top) / 0x1_0000_0000_0000 % 256 == v / 0x1_0000_0000_0000 % 256,
        top > 0x100_0000_0000 ==> (v + tag * top) / 0x100_0000_0000 % 256 == v / 0x100_0000_0000 % 256,
        top > 0x1_0000_0000 ==> (v + tag * top) / 0x1_0000_0000 % 256 == v / 0x1_0000_0000 % 256,
        top > 0x100_0000 ==> (v + tag * top) / 0x100_0000 % 256 == v / 0x100_0000 % 256,
        (v + tag * top) / 0x1_0000 % 256 == v / 0x1_0000 % 256,
        (v + tag * top) / 256 % 256 == v / 256 % 256,
        (v + tag * top) % 256 == v % 256,
{
    if top == 0x100_0000 {
        lemma_shifted_digit(v, tag, 1, 0x1_0000);
        lemma_shifted_digit(v, tag, 0x100, 256);
        lemma_shifted_digit(v, tag, 0x1_0000, 1);
        lemma_top_digit(v, tag, 0x100_0000);
    } else {
        lemma_shifted_digit(v, tag, 1, 0x1_0000_0000_0000);
        lemma_shifted_digit(v, tag, 0x100, 0x100_0000_0000);
        lemma_shifted_digit(v, tag, 0x1_0000, 0x1_0000_0000);
        lemma_shifted_digit(v, tag, 0x100_0000, 0x100_0000);
        lemma_shifted_digit(v, tag, 0x1_0000_0000, 0x1_0000);
        lemma_shifted_digit(v, tag, 0x100_0000_0000, 256);
        lemma_shifted_digit(v, tag, 0x1_0000_0000_0000, 1);
        lemma_top_digit(v, tag, 0x100_0000_0000_0000);
    }
}

proof fn lemma_top_digit(v: nat, tag: nat, top: nat)
    requires
        tag <= 0xc0,
        top > 0,
        v < 0x40 * top,
    ensures
        (v + tag * top) / top % 256 == tag + v / top,
{
    vstd::arithmetic::div_mod::lemma_hoist_over_denominator(v as int, tag as int, top);
    assert(v / top < 0x40) by (nonlinear_arith)
        requires
            v < 0x40 * top,
            top > 0,
    ;
}

proof fn lemma_shifted_digit(v: nat, tag: nat, unit: nat, rest: nat)
    requires
        unit > 0,
    ensures
        (v + tag * (unit * 256 * rest)) / unit % 256 == v / unit % 256,
{
    let k = tag * (256 * rest);
    assert(tag * (unit * 256 * rest) == k * unit) by (nonlinear_arith)
        requires
            k == tag * (256 * rest),
    ;
    vstd::arithmetic::div_mod::lemma_hoist_over_denominator(v as int, k as int, unit);
    assert(k == 256 * (tag * rest)) by (nonlinear_arith)
        requires
            k == tag * (256 * rest),
    ;
    vstd::arithmetic::div_mod::lemma_mod_multiples_vanish((tag * rest) as int, (v / unit) as int, 256);
}

/// The bytes of each encoding, written out: the two high bits of the first byte
/// tell how many there are, the others are the value, most significant first.
pub proof fn law_varint_form(v: int)
    requires
        0 <= v <= MAX_VARINT,
    ensures
        MAX_VARINT == 0x3fff_ffff_ffff_ffff,
        v < 0x40 ==> varint_bytes(v) == seq![v as u8],
        0x40 <= v < 0x4000 ==> varint_bytes(v) == seq![(0x40 + v / 256) as u8, (v % 256) as u8],
        0x4000 <= v < 0x4000_0000 ==> varint_bytes(v) == seq![
            (0x80 + v / 0x100_0000) as u8,
            (v / 0x1_0000 % 256) as u8,
            (v / 256 % 256) as u8,
            (v % 256) as u8,
        ],
        0x4000_0000 <= v ==> varint_bytes(v) == seq![
            (0xc0 + v / 0x100_0000_0000_0000) as u8,
            (v / 0x1_0000_0000_0000 % 256) as u8,
            (v / 0x100_0000_0000 % 256) as u8,
            (v / 0x1_0000_0000 % 256) as u8,
            (v / 0x100_0000 % 256) as u8,
            (v / 0x1_0000 % 256) as u8,
            (v / 256 % 256) as u8,
            (v % 256) as u8,
        ],
{
    let w = (v + varint_tag(varint_size(v))) as nat;
    bytes::lemma_be8(w);
    if v < 0x40 {
        assert(w % 256 == v);
    } else if v < 0x4000 {
        assert(w / 256 % 256 == 0x40 + v / 256);
        assert(w % 256 == v % 256);
    } else if v < 0x4000_0000 {
        lemma_tagged_digits(v as nat, 0x80, 0x100_0000);
    } else {
        lemma_tagged_digits(v as nat, 0xc0, 0x100_0000_0000_0000);
    }
}

/// Decoding gives back the encoded value, and stops right behind it, whatever
/// follows.
pub proof fn law_varint_roundtrip(v: int, rest: Seq<u8>)
    requires
        0 <= v <= MAX_VARINT,
    ensures
        varint_decoded(varint_bytes(v) + rest) == Some((v, varint_size(v))),
{
    let n = varint_size(v);
    let w = (v + varint_tag(n)) as nat;
    let s = varint_bytes(v) + rest;
    lemma_varint_len(v);
    bytes::lemma_be8(w);
    reveal_with_fuel(bytes::pow256, 9);
    bytes::lemma_be_roundtrip(w, n);
    assert(s.take(n as int) =~= varint_bytes(v));
    assert(s[0] == varint_bytes(v)[0]);
}

/// How many bytes the shortest encoding of `v` takes.
pub fn varint_len(v: u64) -> (n: usize)
    ensures
        n == varint_size(v as int),
{
    if v < 0x40 {
        1
    } else if v < 0x4000 {
        2
    } else if v < 0x4000_0000 {
        4
    } else {
        8
    }
}

/// Writes the shortest encoding of `v` at the front of `out` and returns its
/// length. When `v` is too large or `out` too short, `out` stays as it was.
pub fn encode_varint(v: u64, out: &mut [u8]) -> (r: Result<usize, Error>)
    ensures
        v > MAX_VARINT ==> r == Err::<usize, Error>(Error::InvalidVarint) && final(out)@ == old(
            out,
        )@,
        v <= MAX_VARINT && varint_size(v as int) > old(out)@.len() ==> r == Err::<usize, Error>(
            Error::BufferTooSmall { needed: varint_size(v as int) as usize },
        ) && final(out)@ == old(out)@,
        v <= MAX_VARINT && varint_size(v as int) <= old(out)@.len() ==> r == Ok::<usize, Error>(
            varint_size(v as int) as usize,
        ) && final(out)@ == varint_bytes(v as int) + old(out)@.skip(varint_size(v as int) as int),
{
    if v > MAX_VARINT {
        return Err(Error::InvalidVarint);
    }
    let n = varint_len(v);
    if out.len() < n {
        return Err(Error::BufferTooSmall { needed: n });
    }
    let ghost base = out@;
    proof {
        law_varint_form(v as int);
    }
    if n == 1 {
        out[0] = v as u8;
        assert(out@ =~= varint_bytes(v as int) + base.skip(1));
    } else if n == 2 {
        out[0] = (0x40 + v / 256) as u8;
        out[1] = (v % 256) as u8;
        assert(out@ =~= varint_bytes(v as int) + base.skip(2));
    } else if n == 4 {
        out[0] = (0x80 + v / 0x100_0000) as u8;
        out[1] = (v / 0x1_0000 % 256) as u8;
        out[2] = (v / 256 % 256) as u8;
        out[3] = (v % 256) as u8;
        assert(out@ =~= varint_bytes(v as int) + base.skip(4));
    } else {
        out[0] = (0xc0 + v / 0x100_0000_0000_0000) as u8;
        out[1] = (v / 0x1_0000_0000_0000 % 256) as u8;
        out[2] = (v / 0x100_0000_0000 % 256) as u8;
        out[3] = (v / 0x1_0000_0000 % 256) as u8;
        out[4] = (v / 0x100_0000 % 256) as u8;
        out[5] = (v / 0x1_0000 % 256) as u8;
        out[6] = (v / 256 % 256) as u8;
        out[7] = (v % 256) as u8;
        assert(out@ =~= varint_bytes(v as int) + base.skip(8));
    }
    Ok(n)
}

/// Writes the shortest encoding of `v` at `out[pos..]` and returns the position
/// behind it.
pub fn put_varint(out: &mut [u8], pos: usize, v: u64) -> (end: usize)
    requires
        v <= MAX_VARINT,
        pos + varint_size(v as int) <= old(out)@.len(),
    ensures
        final(out)@.len() == old(out)@.len(),
        end == pos + varint_size(v as int),
        final(out)@.take(end as int) == old(out)@.take(pos as int) + varint_bytes(v as int),
        final(out)@.skip(end as int) == old(out)@.skip(end as int),
{
    let ghost base = out@;
    proof {
        lemma_varint_len(v as int);
    }
    let total = out.len();
    let n = varint_len(v);
    let (front, back) = out.split_at_mut(pos);
    let r = encode_varint(v, back);
    proof {
        let b = varint_bytes(v as int);
        assert(out@ =~= base.take(pos as int) + (b + base.skip(pos as int).skip(n as int)));
        assert(out@.take(pos + n) =~= base.take(pos as int) + b);
        assert(out@.skip(pos + n) =~= base.skip(pos + n));
    }
    pos + n
}

/// The first digit decides the magnitude of a number.
proof fn lemma_first_digit(s: Seq<u8>)
    requires
        s.len() > 0,
    ensures
        s[0] * bytes::pow256((s.len() - 1) as nat) <= bytes::be_value(s) < (s[0] + 1)
            * bytes::pow256((s.len() - 1) as nat),
    decreases s.len(),
{
    reveal_with_fuel(bytes::be_value, 2);
    let d = s[0] as int;
    let q = bytes::pow256((s.len() - 1) as nat) as int;
    if s.len() == 1 {
        assert(s.drop_last() =~= Seq::<u8>::empty());
        assert(d * q == d && (d + 1) * q == d + 1) by (nonlinear_arith)
            requires
                q == 1,
        ;
    } else {
        let init = s.drop_last();
        lemma_first_digit(init);
        let p = bytes::pow256((init.len() - 1) as nat) as int;
        assert(q == 256 * p);
        assert(d * q == 256 * (d * p)) by (nonlinear_arith)
            requires
                q == 256 * p,
        ;
        assert((d + 1) * q == 256 * ((d + 1) * p)) by (nonlinear_arith)
            requires
                q == 256 * p,
        ;
    }
}

/// What is decoded is within range and at least one byte long.
pub proof fn lemma_decoded_range(s: Seq<u8>)
    ensures
        varint_decoded(s) matches Some((v, n)) ==> 1 <= n <= s.len() && 0 <= v <= MAX_VARINT,
{
    if s.len() > 0 && s.len() >= varint_len_of(s[0]) {
        let n = varint_len_of(s[0]);
        let t = s.take(n as int);
        let d = t[0] as int;
        let q = bytes::pow256((n - 1) as nat) as int;
        lemma_first_digit(t);
        reveal_with_fuel(bytes::pow256, 9);
        if n == 1 {
            lemma_leading_digit(d, q, 0, 0x40);
        } else if n == 2 {
            lemma_leading_digit(d, q, 0x40, 0x80);
        } else if n == 4 {
            lemma_leading_digit(d, q, 0x80, 0xc0);
        } else {
            lemma_leading_digit(d, q, 0xc0, 0x100);
        }
    }
}

/// A leading digit from `low` to below `high` at the place of value `q`.
proof fn lemma_leading_digit(d: int, q: int, low: int, high: int)
    requires
        low <= d < high,
        q > 0,
    ensures
        low * q <= d * q,
        (d + 1) * q <= high * q,
{
    assert(low * q <= d * q && (d + 1) * q <= high * q) by (nonlinear_arith)
        requires
            low <= d < high,
            q > 0,
    ;
}

/// Reads the variable-length integer at the front of `data`; returns the value
/// and the number of bytes it takes.
pub fn decode_varint(data: &[u8]) -> (r: Result<(u64, usize), Error>)
    ensures
        match varint_decoded(data@) {
            Some((v, n)) => r matches Ok((rv, rn)) && rv == v && rn == n,
            None => r == Err::<(u64, usize), Error>(Error::InvalidVarint),
        },
{
    if data.len() == 0 {
        return Err(Error::InvalidVarint);
    }
    let first = data[0];
    let n: usize = if first < 0x40 {
        1
    } else if first < 0x80 {
        2
    } else if first < 0xc0 {
        4
    } else {
        8
    };
    if data.len() < n {
        return Err(Error::InvalidVarint);
    }
    let tag: u8 = if n == 1 {
        0
    } else if n == 2 {
        0x40
    } else if n == 4 {
        0x80
    } else {
        0xc0
    };
    let mut v: u64 = (first - tag) as u64;
    let mut i: usize = 1;
    proof {
        reveal_with_fuel(bytes::pow256, 9);
        assert(data@.take(1).drop_last() =~= Seq::empty());
        reveal_with_fuel(bytes::be_value, 2);
        assert(tag * bytes::pow256(0) == tag);
    }
    while i < n
        invariant
            1 <= i <= n <= 8,
            n <= data@.len(),
            first < tag + 0x40 || n == 1,
            tag <= first,
            first == data@[0],
            n == varint_len_of(first),
            tag == (if n == 1 {
                0u8
            } else if n == 2 {
                0x40u8
            } else if n == 4 {
                0x80u8
            } else {
                0xc0u8
            }),
            v + tag * bytes::pow256((i - 1) as nat) == bytes::be_value(data@.take(i as int)),
            v < 0x40 * bytes::pow256((i - 1) as nat),
        decreases n - i,
    {
        proof {
            reveal_with_fuel(bytes::pow256, 9);
            assert(data@.take(i + 1).drop_last() =~= data@.take(i as int));
            let p = bytes::pow256((i - 1) as nat);
            assert(bytes::pow256(i as nat) == 256 * p);
            assert(tag * (256 * p) == 256 * (tag * p)) by (nonlinear_arith);
        }
        v = v * 256 + data[i] as u64;
        i = i + 1;
    }
    proof {
        reveal_with_fuel(bytes::pow256, 9);
        assert(bytes::pow256(0) == 1);
        assert(bytes::pow256(1) == 0x100);
        assert(bytes::pow256(3) == 0x100_0000);
        assert(bytes::pow256(7) == 0x100_0000_0000_0000);
        let p = bytes::pow256((n - 1) as nat);
        assert(tag * p == varint_tag(n as nat)) by (nonlinear_arith)
            requires
                n == 1 && tag == 0 && varint_tag(n as nat) == 0 || n == 2 && tag == 0x40 && p == 0x100
                    && varint_tag(n as nat) == 0x4000 || n == 4 && tag == 0x80 && p == 0x100_0000
                    && varint_tag(n as nat) == 0x8000_0000 || n == 8 && tag == 0xc0 && p
                    == 0x100_0000_0000_0000 && varint_tag(n as nat) == 0xc000_0000_0000_0000,
        ;
    }
    Ok((v, n))
}

} // verus!
