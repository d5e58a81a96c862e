//! QPACK field sections (RFC 9204) without a dynamic table.
//!
//! The encoder refers to no table and compresses no string: a prefix of two zero
//! bytes, then for each field a literal name and a literal value. The decoder
//! takes every section that refers to no dynamic table: entries of the static
//! table, names from it, literal names, and strings with or without Huffman
//! coding.

use vstd::prelude::*;
use vstd::string::StringSliceAdditionalSpecFns;

use crate::bytes;
use crate::error::Error;
use crate::h3::huffman;
use crate::h3::static_table;

verus! {

/// The names and values of header fields.
pub open spec fn fields_of(list: Seq<(&[u8], &[u8])>) -> Seq<(Seq<u8>, Seq<u8>)> {
    Seq::new(list.len(), |i: int| (list[i].0@, list[i].1@))
}

/// The names and values of owned header fields.
pub open spec fn owned_fields(list: Seq<(Vec<u8>, Vec<u8>)>) -> Seq<(Seq<u8>, Seq<u8>)> {
    Seq::new(list.len(), |i: int| (list[i].0@, list[i].1@))
}

/// The continuation bytes of a prefixed integer, least significant first.
pub open spec fn continuation(v: nat) -> Seq<u8>
    decreases v,
{
    if v < 128 {
        seq![v as u8]
    } else {
        seq![(128 + v % 128) as u8] + continuation(v / 128)
    }
}

/// An integer with a prefix whose largest value is `limit`, below the bits of
/// `tag`.
pub open spec fn prefixed(tag: u8, limit: nat, v: nat) -> Seq<u8> {
    if v < limit {
        seq![(tag + v) as u8]
    } else {
        seq![(tag + limit) as u8] + continuation((v - limit) as nat)
    }
}

/// A literal field line with a literal name: three bits of prefix for the
/// length of the name, seven for that of the value.
pub open spec fn field_line(name: Seq<u8>, value: Seq<u8>) -> Seq<u8> {
    prefixed(0x20, 7, name.len()) + name + (prefixed(0, 127, value.len()) + value)
}

/// The field lines of some fields.
pub open spec fn field_lines(fields: Seq<(Seq<u8>, Seq<u8>)>) -> Seq<u8>
    decreases fields.len(),
{
    if fields.len() == 0 {
        Seq::empty()
    } else {
        field_lines(fields.drop_last()) + field_line(fields.last().0, fields.last().1)
    }
}

/// The encoded field section: no required inserts, base zero, then the lines.
pub open spec fn section(fields: Seq<(Seq<u8>, Seq<u8>)>) -> Seq<u8> {
    seq![0u8, 0u8] + field_lines(fields)
}

/// Appends continuation bytes.
fn push_continuation(out: &mut Vec<u8>, v: usize)
    ensures
        final(out)@ == old(out)@ + continuation(v as nat),
{
    let mut left: usize = v;
    let ghost base = out@;
    while left >= 128
        invariant
            base + continuation(v as nat) == out@ + continuation(left as nat),
        decreases left,
    {
        let ghost before = out@;
        let ghost l0 = left as nat;
        out.push((128 + left % 128) as u8);
        left = left / 128;
        assert(before + (seq![(128 + l0 % 128) as u8] + continuation(l0 / 128)) =~= out@
            + continuation(left as nat));
    }
    out.push(left as u8);
}

/// Appends a prefixed integer.
fn push_prefixed(out: &mut Vec<u8>, tag: u8, limit: u8, v: usize)
    requires
        tag + limit <= 255,
    ensures
        final(out)@ == old(out)@ + prefixed(tag, limit as nat, v as nat),
{
    if v < limit as usize {
        out.push(tag + v as u8);
    } else {
        let ghost base = out@;
        out.push(tag + limit);
        push_continuation(out, v - limit as usize);
        assert(out@ =~= base + prefixed(tag, limit as nat, v as nat));
    }
}

/// The encoded field section of `fields`.
pub fn encode_section(fields: &[(&[u8], &[u8])]) -> (out: Vec<u8>)
    ensures
        out@ == section(fields_of(fields@)),
{
    let mut out: Vec<u8> = Vec::new();
    out.push(0u8);
    out.push(0u8);
    let ghost all = fields_of(fields@);
    assert(field_lines(all.take(0)) =~= Seq::<u8>::empty());
    let mut i: usize = 0;
    while i < fields.len()
        invariant
            i <= fields@.len(),
            all == fields_of(fields@),
            out@ =~= seq![0u8, 0u8] + field_lines(all.take(i as int)),
        decreases fields@.len() - i,
    {
        let (name, value) = fields[i];
        let ghost before = out@;
        push_prefixed(&mut out, 0x20, 7, name.len());
        bytes::append(&mut out, name);
        push_prefixed(&mut out, 0, 127, value.len());
        bytes::append(&mut out, value);
        proof {
            assert(out@ =~= before + field_line(name@, value@));
            assert(all.take(i + 1).drop_last() =~= all.take(i as int));
            assert(all.take(i + 1).last() == (name@, value@));
        }
        i = i + 1;
    }
    assert(all.take(i as int) =~= all);
    out
}

/// The value of the continuation bytes at `pos`, and the position behind them.
pub open spec fn continued(block: Seq<u8>, pos: int) -> Option<(nat, int)>
    decreases block.len() - pos,
{
    if pos < 0 || pos >= block.len() {
        None
    } else if block[pos] < 128 {
        Some((block[pos] as nat, pos + 1))
    } else {
        match continued(block, pos + 1) {
            Some((v, end)) => Some(((block[pos] - 128 + 128 * v) as nat, end)),
            None => None,
        }
    }
}

/// The prefixed integer at `pos` whose prefix holds `low`, and the position
/// behind it.
pub open spec fn unprefixed(block: Seq<u8>, pos: int, low: nat, limit: nat) -> Option<(nat, int)> {
    if low < limit {
        Some((low, pos + 1))
    } else {
        match continued(block, pos + 1) {
            Some((v, end)) => Some((limit + v, end)),
            None => None,
        }
    }
}

/// The string of the length at `pos`, and the position behind it.
pub open spec fn string_at(block: Seq<u8>, pos: int, low: nat, limit: nat) -> Option<
    (Seq<u8>, int),
> {
    match unprefixed(block, pos, low, limit) {
        Some((len, start)) => if start + len <= block.len() {
            Some((block.subrange(start, start + len), start + len))
        } else {
            None
        },
        None => None,
    }
}

/// The string of the length at `pos`, Huffman-coded or not, and the position
/// behind it.
pub open spec fn text_at(
    block: Seq<u8>,
    pos: int,
    low: nat,
    limit: nat,
    coded: bool,
) -> Option<(Seq<u8>, int)> {
    match string_at(block, pos, low, limit) {
        Some((s, end)) => if coded {
            match huffman::huffman_decoded(s) {
                Some(text) => Some((text, end)),
                None => None,
            }
        } else {
            Some((s, end))
        },
        None => None,
    }
}

/// The value at `pos`: a bit for Huffman coding, then a length in seven bits.
pub open spec fn value_at(block: Seq<u8>, pos: int) -> Option<(Seq<u8>, int)> {
    if pos >= block.len() {
        None
    } else {
        text_at(block, pos, (block[pos] % 128) as nat, 127, block[pos] >= 128)
    }
}

/// The name at `pos` of a field line that brings its own value, and the position
/// behind it: from the static table (bits `01`, the bit that forbids indexing,
/// the bit for the static table, four bits of index), or literal (bits `001`, the
/// bit that forbids indexing, the bit for Huffman coding, three bits of length).
pub open spec fn name_at(block: Seq<u8>, pos: int) -> Option<(Seq<u8>, int)> {
    let b = block[pos];
    if 64 <= b < 128 {
        if b / 16 % 2 == 1 {
            match unprefixed(block, pos, (b % 16) as nat, 15) {
                Some((index, end)) => match static_table::static_field(index) {
                    Some((name, _)) => Some((name, end)),
                    None => None,
                },
                None => None,
            }
        } else {
            None
        }
    } else if 32 <= b < 64 {
        text_at(block, pos, (b % 8) as nat, 7, b / 8 % 2 == 1)
    } else {
        None
    }
}

/// The field line at `pos`, and the position behind it: an entry of the static
/// table (bits `11`, six bits of index), or a name and a value. Lines that refer
/// to a dynamic table are not taken.
pub open spec fn line_at(block: Seq<u8>, pos: int) -> Option<((Seq<u8>, Seq<u8>), int)> {
    if pos >= block.len() {
        None
    } else if block[pos] >= 192 {
        match unprefixed(block, pos, (block[pos] % 64) as nat, 63) {
            Some((index, end)) => match static_table::static_field(index) {
                Some(field) => Some((field, end)),
                None => None,
            },
            None => None,
        }
    } else {
        match name_at(block, pos) {
            Some((name, p)) => match value_at(block, p) {
                Some((value, end)) => Some(((name, value), end)),
                None => None,
            },
            None => None,
        }
    }
}

/// Positions only grow.
pub proof fn lemma_continued(block: Seq<u8>, pos: int)
    requires
        0 <= pos,
    ensures
        continued(block, pos) matches Some((_, end)) ==> pos < end <= block.len(),
    decreases block.len() - pos,
{
    if pos < block.len() && block[pos] >= 128 {
        lemma_continued(block, pos + 1);
    }
}

/// Positions only grow.
pub proof fn lemma_string_at(block: Seq<u8>, pos: int, low: nat, limit: nat)
    requires
        0 <= pos < block.len(),
    ensures
        string_at(block, pos, low, limit) matches Some((_, end)) ==> pos < end <= block.len(),
{
    lemma_continued(block, pos + 1);
}

/// Positions only grow.
pub proof fn lemma_line_at(block: Seq<u8>, pos: int)
    requires
        0 <= pos,
    ensures
        line_at(block, pos) matches Some((_, end)) ==> pos < end <= block.len(),
{
    if pos < block.len() {
        lemma_continued(block, pos + 1);
        match name_at(block, pos) {
            Some((_, p)) => {
                assert(pos < p);
                if p < block.len() {
                    lemma_string_at(block, p, (block[p] % 128) as nat, 127);
                }
            },
            None => {},
        }
    }
}

/// The fields from `pos` to the end of the block.
pub open spec fn lines_from(block: Seq<u8>, pos: int) -> Option<Seq<(Seq<u8>, Seq<u8>)>>
    decreases block.len() - pos,
    via lines_from_decreases
{
    if pos < 0 || pos > block.len() {
        None
    } else if pos == block.len() {
        Some(Seq::empty())
    } else {
        match line_at(block, pos) {
            Some((field, end)) => match lines_from(block, end) {
                Some(rest) => Some(seq![field] + rest),
                None => None,
            },
            None => None,
        }
    }
}

#[via_fn]
proof fn lines_from_decreases(block: Seq<u8>, pos: int) {
    if 0 <= pos {
        lemma_line_at(block, pos);
    }
}

/// The fields of an encoded section. Its prefix must not ask for a dynamic table;
/// the base, which only a dynamic table needs, may be any that is not negative.
pub open spec fn decoded(block: Seq<u8>) -> Option<Seq<(Seq<u8>, Seq<u8>)>> {
    if block.len() < 2 || block[0] != 0 || block[1] >= 128 {
        None
    } else {
        match unprefixed(block, 1, block[1] as nat, 127) {
            Some((_, start)) => lines_from(block, start),
            None => None,
        }
    }
}

/// A value grows with each byte in front of it.
proof fn lemma_continued_grows(block: Seq<u8>, pos: int, at: int)
    requires
        0 <= pos <= at,
        continued(block, at) is Some,
        forall|j: int| pos <= j < at ==> #[trigger] block[j] >= 128,
    ensures
        continued(block, pos) is Some,
        (continued(block, pos)->0).0 >= (continued(block, at)->0).0,
    decreases at - pos,
{
    if pos < at {
        assert(block[pos] >= 128);
        lemma_continued_grows(block, pos + 1, at);
        assert(at < block.len());
    }
}

/// No value where no byte ends it.
proof fn lemma_unended(block: Seq<u8>, pos: int)
    requires
        0 <= pos,
        forall|j: int| pos <= j < block.len() ==> #[trigger] block[j] >= 128,
    ensures
        continued(block, pos) is None,
    decreases block.len() - pos,
{
    if pos < block.len() {
        lemma_unended(block, pos + 1);
    }
}

/// Reads continuation bytes; `None` too for a value that no length can have.
fn read_continuation(block: &[u8], pos: usize) -> (r: Option<(usize, usize)>)
    ensures
        match continued(block@, pos as int) {
            Some((v, end)) => if v <= usize::MAX {
                r == Some((v as usize, end as usize)) && pos < end <= block@.len()
            } else {
                r is None
            },
            None => r is None,
        },
{
    let total = block.len();
    let mut last: usize = pos;
    while last < total && block[last] >= 128
        invariant
            total == block@.len(),
            pos <= last,
            forall|j: int| pos <= j < last && j < total ==> #[trigger] block@[j] >= 128,
        decreases total - last,
    {
        last = last + 1;
    }
    if last >= total {
        proof {
            lemma_unended(block@, pos as int);
        }
        return None;
    }
    let mut v: usize = block[last] as usize;
    let mut i: usize = last;
    while i > pos
        invariant
            pos <= i <= last < total,
            total == block@.len(),
            forall|j: int| pos <= j < last ==> #[trigger] block@[j] >= 128,
            continued(block@, i as int) == Some((v as nat, last + 1)),
        decreases i,
    {
        i = i - 1;
        let digit = (block[i] - 128) as usize;
        proof {
            assert(block@[i as int] >= 128);
            lemma_continued_grows(block@, pos as int, i as int);
        }
        if v > (usize::MAX - digit) / 128 {
            return None;
        }
        v = 128 * v + digit;
    }
    Some((v, last + 1))
}

/// Reads a prefixed integer; `None` too for a value that no length can have.
fn read_prefixed(block: &[u8], pos: usize, low: u8, limit: u8) -> (r: Option<(usize, usize)>)
    requires
        pos < block@.len(),
    ensures
        match unprefixed(block@, pos as int, low as nat, limit as nat) {
            Some((v, end)) => if v <= usize::MAX {
                r == Some((v as usize, end as usize)) && pos < end <= block@.len()
            } else {
                r is None
            },
            None => r is None,
        },
{
    let total = block.len();
    assert(total == block@.len());
    if low < limit {
        return Some((low as usize, pos + 1));
    }
    match read_continuation(block, pos + 1) {
        Some((v, end)) => if v > usize::MAX - limit as usize {
            None
        } else {
            Some((v + limit as usize, end))
        },
        None => None,
    }
}

/// Reads the string whose length stands at `pos`.
fn read_text(block: &[u8], pos: usize, low: u8, limit: u8, coded: bool) -> (r: Option<
    (Vec<u8>, usize),
>)
    requires
        pos < block@.len(),
    ensures
        match text_at(block@, pos as int, low as nat, limit as nat, coded) {
            Some((s, end)) => r matches Some((v, e)) && v@ == s && e == end && pos < end
                <= block@.len(),
            None => r is None,
        },
{
    let total = block.len();
    proof {
        lemma_continued(block@, pos + 1);
    }
    let (len, start) = match read_prefixed(block, pos, low, limit) {
        Some(x) => x,
        None => {
            return None;
        },
    };
    if len > total - start {
        return None;
    }
    let raw = &block[start..start + len];
    if coded {
        match huffman::huffman_decode(raw) {
            Some(text) => Some((text, start + len)),
            None => None,
        }
    } else {
        Some((bytes::to_vec(raw), start + len))
    }
}

/// Reads the static entry whose index stands at `pos`.
fn read_entry(block: &[u8], pos: usize, low: u8, limit: u8) -> (r: Option<
    ((&'static str, &'static str), usize),
>)
    requires
        pos < block@.len(),
    ensures
        match unprefixed(block@, pos as int, low as nat, limit as nat) {
            Some((index, end)) => match static_table::static_field(index) {
                Some((name, value)) => r matches Some((entry, e)) && entry.0.spec_bytes() == name
                    && entry.1.spec_bytes() == value && e == end && pos < end <= block@.len(),
                None => r is None,
            },
            None => r is None,
        },
{
    let total = block.len();
    assert(total == block@.len());
    match read_prefixed(block, pos, low, limit) {
        Some((index, end)) => match static_table::lookup(index) {
            Some(entry) => Some((entry, end)),
            None => None,
        },
        None => None,
    }
}

/// Reads the name of a field line that brings its own value.
fn read_name(block: &[u8], pos: usize) -> (r: Option<(Vec<u8>, usize)>)
    requires
        pos < block@.len(),
    ensures
        match name_at(block@, pos as int) {
            Some((s, end)) => r matches Some((v, e)) && v@ == s && e == end && pos < end
                <= block@.len(),
            None => r is None,
        },
{
    let b = block[pos];
    if 64 <= b && b < 128 {
        if b / 16 % 2 == 1 {
            match read_entry(block, pos, b % 16, 15) {
                Some((entry, end)) => Some((bytes::to_vec(entry.0.as_bytes()), end)),
                None => None,
            }
        } else {
            None
        }
    } else if 32 <= b && b < 64 {
        read_text(block, pos, b % 8, 7, b / 8 % 2 == 1)
    } else {
        None
    }
}

/// Reads a field line.
fn read_line(block: &[u8], pos: usize) -> (r: Option<((Vec<u8>, Vec<u8>), usize)>)
    requires
        pos < block@.len(),
    ensures
        match line_at(block@, pos as int) {
            Some((field, end)) => r matches Some((f, e)) && (f.0@, f.1@) == field && e == end
                && pos < end <= block@.len(),
            None => r is None,
        },
{
    let b = block[pos];
    if b >= 192 {
        return match read_entry(block, pos, b % 64, 63) {
            Some((entry, end)) => Some(
                ((bytes::to_vec(entry.0.as_bytes()), bytes::to_vec(entry.1.as_bytes())), end),
            ),
            None => None,
        };
    }
    let (name, p) = match read_name(block, pos) {
        Some(x) => x,
        None => {
            return None;
        },
    };
    if p >= block.len() {
        return None;
    }
    match read_text(block, p, block[p] % 128, 127, block[p] >= 128) {
        Some((value, end)) => Some(((name, value), end)),
        None => None,
    }
}

/// Decodes a field section. [`Error::InvalidState`] for one that cannot be read
/// or asks for a dynamic table.
pub fn decode_section(block: &[u8]) -> (r: Result<Vec<(Vec<u8>, Vec<u8>)>, Error>)
    ensures
        match decoded(block@) {
            Some(fields) => r matches Ok(list) && owned_fields(list@) == fields,
            None => r matches Err(e) && e == Error::InvalidState,
        },
{
    let total = block.len();
    if total < 2 || block[0] != 0 || block[1] >= 128 {
        return Err(Error::InvalidState);
    }
    let start = match base_end(block) {
        Some(start) => start,
        None => {
            return Err(Error::InvalidState);
        },
    };
    let mut list: Vec<(Vec<u8>, Vec<u8>)> = Vec::new();
    let mut pos: usize = start;
    assert(lines_from(block@, start as int) is Some ==> owned_fields(list@) + lines_from(
        block@,
        start as int,
    )->0 =~= lines_from(block@, start as int)->0);
    while pos < total
        invariant
            total == block@.len(),
            2 <= pos <= total,
            decoded(block@) == (match lines_from(block@, pos as int) {
                Some(rest) => Some(owned_fields(list@) + rest),
                None => None,
            }),
        decreases total - pos,
    {
        let ghost before = owned_fields(list@);
        let (field, end) = match read_line(block, pos) {
            Some(x) => x,
            None => {
                return Err(Error::InvalidState);
            },
        };
        let ghost f = (field.0@, field.1@);
        list.push(field);
        proof {
            assert(owned_fields(list@) =~= before.push(f));
            match lines_from(block@, end as int) {
                Some(rest) => {
                    assert(before + (seq![f] + rest) =~= owned_fields(list@) + rest);
                },
                None => {},
            }
        }
        pos = end;
    }
    assert(owned_fields(list@) + Seq::<(Seq<u8>, Seq<u8>)>::empty() =~= owned_fields(list@));
    Ok(list)
}

/// The position behind the base, whose value has no bearing here.
fn base_end(block: &[u8]) -> (r: Option<usize>)
    requires
        block@.len() >= 2,
    ensures
        match unprefixed(block@, 1, block@[1] as nat, 127) {
            Some((_, end)) => r == Some(end as usize) && 2 <= end <= block@.len(),
            None => r is None,
        },
{
    if block[1] < 127 {
        return Some(2);
    }
    let total = block.len();
    let mut last: usize = 2;
    while last < total && block[last] >= 128
        invariant
            total == block@.len(),
            2 <= last <= total,
            forall|j: int| 2 <= j < last ==> #[trigger] block@[j] >= 128,
        decreases total - last,
    {
        last = last + 1;
    }
    if last >= total {
        proof {
            lemma_unended(block@, 2);
        }
        return None;
    }
    proof {
        lemma_ended(block@, 2, last as int);
    }
    Some(last + 1)
}

/// A value ends with its first byte below 128.
proof fn lemma_ended(block: Seq<u8>, pos: int, last: int)
    requires
        0 <= pos <= last < block.len(),
        block[last] < 128,
        forall|j: int| pos <= j < last ==> #[trigger] block[j] >= 128,
    ensures
        continued(block, pos) matches Some((_, end)) && end == last + 1,
    decreases last - pos,
{
    if pos < last {
        assert(block[pos] >= 128);
        lemma_ended(block, pos + 1, last);
    }
}

} // verus!
