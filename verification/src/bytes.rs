//! Byte-sequence helpers: copying into the middle of a slice, moving bytes
//! inside a slice, big-endian integers.

use vstd::prelude::*;
use vstd::string::StringSliceAdditionalSpecFns;

verus! {

/// `base` with the bytes from `at` on overwritten by `s`.
pub open spec fn splice(base: Seq<u8>, at: int, s: Seq<u8>) -> Seq<u8> {
    base.take(at) + s + base.skip(at + s.len())
}

/// `n` zero bytes.
pub open spec fn zeros(n: nat) -> Seq<u8> {
    Seq::new(n, |i: int| 0u8)
}

/// The low `n` bytes of `v`, most significant first.
pub open spec fn be_bytes(v: nat, n: nat) -> Seq<u8>
    decreases n,
{
    if n == 0 {
        Seq::empty()
    } else {
        be_bytes(v / 256, (n - 1) as nat).push((v % 256) as u8)
    }
}

/// The number that `s` spells, most significant byte first.
pub open spec fn be_value(s: Seq<u8>) -> nat
    decreases s.len(),
{
    if s.len() == 0 {
        0
    } else {
        be_value(s.drop_last()) * 256 + s.last() as nat
    }
}

/// `256` to the power of `n`.
pub open spec fn pow256(n: nat) -> nat
    decreases n,
{
    if n == 0 {
        1
    } else {
        256 * pow256((n - 1) as nat)
    }
}

pub proof fn lemma_be_bytes_len(v: nat, n: nat)
    ensures
        be_bytes(v, n).len() == n,
    decreases n,
{
    if n > 0 {
        lemma_be_bytes_len(v / 256, (n - 1) as nat);
    }
}

/// Reading big-endian bytes back gives the number that was written, as long as
/// it fits into the bytes.
pub proof fn lemma_be_roundtrip(v: nat, n: nat)
    requires
        v < pow256(n),
    ensures
        be_value(be_bytes(v, n)) == v,
    decreases n,
{
    if n > 0 {
        let m = (n - 1) as nat;
        assert(v / 256 < pow256(m)) by (nonlinear_arith)
            requires
                v < 256 * pow256(m),
        ;
        lemma_be_roundtrip(v / 256, m);
        lemma_be_bytes_len(v / 256, m);
        let s = be_bytes(v, n);
        assert(s.drop_last() =~= be_bytes(v / 256, m));
    }
}

/// The big-endian bytes of small widths, written out.
pub proof fn lemma_be8(v: nat)
    ensures
        be_bytes(v, 1) =~= seq![(v % 256) as u8],
        be_bytes(v, 2) =~= seq![(v / 256 % 256) as u8, (v % 256) as u8],
        be_bytes(v, 4) =~= seq![
            (v / 0x100_0000 % 256) as u8,
            (v / 0x1_0000 % 256) as u8,
            (v / 256 % 256) as u8,
            (v % 256) as u8,
        ],
        be_bytes(v, 8) =~= seq![
            (v / 0x100_0000_0000_0000 % 256) as u8,
            (v / 0x1_0000_0000_0000 % 256) as u8,
            (v / 0x100_0000_0000 % 256) as u8,
            (v / 0x1_0000_0000 % 256) as u8,
            (v / 0x100_0000 % 256) as u8,
            (v / 0x1_0000 % 256) as u8,
            (v / 256 % 256) as u8,
            (v % 256) as u8,
        ],
{
    reveal_with_fuel(be_bytes, 9);
    assert(v / 256 / 256 == v / 0x1_0000);
    assert(v / 0x1_0000 / 256 == v / 0x100_0000);
    assert(v / 0x100_0000 / 256 == v / 0x1_0000_0000);
    assert(v / 0x1_0000_0000 / 256 == v / 0x100_0000_0000);
    assert(v / 0x100_0000_0000 / 256 == v / 0x1_0000_0000_0000);
    assert(v / 0x1_0000_0000_0000 / 256 == v / 0x100_0000_0000_0000);
}

/// The eight bytes of `n`, most significant first.
pub fn be8(n: u64) -> (r: [u8; 8])
    ensures
        r@ == be_bytes(n as nat, 8),
{
    proof {
        lemma_be8(n as nat);
    }
    let r = [
        (n / 0x100_0000_0000_0000 % 256) as u8,
        (n / 0x1_0000_0000_0000 % 256) as u8,
        (n / 0x100_0000_0000 % 256) as u8,
        (n / 0x1_0000_0000 % 256) as u8,
        (n / 0x100_0000 % 256) as u8,
        (n / 0x1_0000 % 256) as u8,
        (n / 256 % 256) as u8,
        (n % 256) as u8,
    ];
    assert(r@ =~= be_bytes(n as nat, 8));
    r
}

/// Overwrites `out[off..off + src.len()]` with `src`.
pub fn copy_at(out: &mut [u8], off: usize, src: &[u8])
    requires
        off + src@.len() <= old(out)@.len(),
    ensures
        final(out)@ == splice(old(out)@, off as int, src@),
{
    let ghost base = out@;
    let total = out.len();
    let mut i: usize = 0;
    while i < src.len()
        invariant
            i <= src@.len(),
            off + src@.len() <= total,
            total == base.len(),
            out@.len() == base.len(),
            out@ =~= splice(base, off as int, src@.take(i as int)),
        decreases src@.len() - i,
    {
        out[off + i] = src[i];
        i = i + 1;
    }
    assert(src@.take(i as int) =~= src@);
}

/// Sequences that agree from `p` on agree from any later position on.
pub proof fn lemma_skip_eq(a: Seq<u8>, b: Seq<u8>, p: int, q: int)
    requires
        0 <= p <= q <= a.len(),
        a.len() == b.len(),
        a.skip(p) == b.skip(p),
    ensures
        a.skip(q) == b.skip(q),
{
    assert(a.skip(q) =~= a.skip(p).skip(q - p));
    assert(b.skip(q) =~= b.skip(p).skip(q - p));
}

/// Writes `src` at `out[pos..]` and returns the position behind it.
pub fn put_slice(out: &mut [u8], pos: usize, src: &[u8]) -> (end: usize)
    requires
        pos + src@.len() <= old(out)@.len(),
    ensures
        final(out)@.len() == old(out)@.len(),
        end == pos + src@.len(),
        final(out)@.take(end as int) == old(out)@.take(pos as int) + src@,
        final(out)@.skip(end as int) == old(out)@.skip(end as int),
{
    let total = out.len();
    copy_at(out, pos, src);
    proof {
        assert(out@.take(pos + src@.len()) =~= old(out)@.take(pos as int) + src@);
        assert(out@.skip(pos + src@.len()) =~= old(out)@.skip(pos + src@.len()));
    }
    pos + src.len()
}

/// Writes one byte at `out[pos]` and returns the position behind it.
pub fn put_byte(out: &mut [u8], pos: usize, byte: u8) -> (end: usize)
    requires
        pos < old(out)@.len(),
    ensures
        final(out)@.len() == old(out)@.len(),
        end == pos + 1,
        final(out)@.take(end as int) == old(out)@.take(pos as int) + seq![byte],
        final(out)@.skip(end as int) == old(out)@.skip(end as int),
{
    let total = out.len();
    out[pos] = byte;
    proof {
        assert(out@.take(pos + 1) =~= old(out)@.take(pos as int) + seq![byte]);
        assert(out@.skip(pos + 1) =~= old(out)@.skip(pos + 1));
    }
    pos + 1
}

/// Overwrites `out[from..to]` with zeros.
pub fn fill_zero(out: &mut [u8], from: usize, to: usize)
    requires
        from <= to <= old(out)@.len(),
    ensures
        final(out)@ == splice(old(out)@, from as int, zeros((to - from) as nat)),
{
    let ghost base = out@;
    let mut i: usize = from;
    while i < to
        invariant
            from <= i <= to <= base.len(),
            out@.len() == base.len(),
            out@ =~= splice(base, from as int, zeros((i - from) as nat)),
        decreases to - i,
    {
        out[i] = 0;
        i = i + 1;
    }
}

/// Moves `out[start..end]` to `out[dst..]`, with the result that a copy through
/// a separate buffer would give.
pub fn copy_within(out: &mut [u8], start: usize, end: usize, dst: usize)
    requires
        start <= end <= old(out)@.len(),
        dst + (end - start) <= old(out)@.len(),
    ensures
        final(out)@ == splice(old(out)@, dst as int, old(out)@.subrange(start as int, end as int)),
{
    let ghost base = out@;
    let ghost src = base.subrange(start as int, end as int);
    let n = end - start;
    if dst <= start {
        let mut i: usize = 0;
        while i < n
            invariant
                i <= n,
                n == end - start,
                start <= end <= base.len(),
                dst <= start,
                src == base.subrange(start as int, end as int),
                out@.len() == base.len(),
                out@ =~= splice(base, dst as int, src.take(i as int)),
            decreases n - i,
        {
            out[dst + i] = out[start + i];
            i = i + 1;
        }
        assert(src.take(n as int) =~= src);
    } else {
        let mut i: usize = n;
        while i > 0
            invariant
                i <= n,
                n == end - start,
                start <= end <= base.len(),
                start < dst,
                dst + n <= base.len(),
                src == base.subrange(start as int, end as int),
                out@.len() == base.len(),
                out@ =~= splice(base, dst + i, src.skip(i as int)),
            decreases i,
        {
            i = i - 1;
            out[dst + i] = out[start + i];
        }
        assert(src.skip(0) =~= src);
    }
}

/// Whether two byte slices hold the same bytes.
pub fn bytes_eq(a: &[u8], b: &[u8]) -> (r: bool)
    ensures
        r == (a@ == b@),
{
    if a.len() != b.len() {
        return false;
    }
    let mut i: usize = 0;
    while i < a.len()
        invariant
            i <= a@.len(),
            a@.len() == b@.len(),
            a@.take(i as int) == b@.take(i as int),
        decreases a@.len() - i,
    {
        if a[i] != b[i] {
            assert(a@[i as int] != b@[i as int]);
            return false;
        }
        assert(a@.take(i + 1) =~= a@.take(i as int).push(a@[i as int]));
        assert(b@.take(i + 1) =~= b@.take(i as int).push(b@[i as int]));
        i = i + 1;
    }
    assert(a@.take(i as int) =~= a@);
    assert(b@.take(i as int) =~= b@);
    true
}

/// A copy of a slice in a vector of its own.
pub fn to_vec(s: &[u8]) -> (v: Vec<u8>)
    ensures
        v@ == s@,
{
    let mut v: Vec<u8> = Vec::new();
    let mut i: usize = 0;
    while i < s.len()
        invariant
            i <= s@.len(),
            v@ =~= s@.take(i as int),
        decreases s@.len() - i,
    {
        v.push(s[i]);
        i = i + 1;
    }
    assert(s@.take(i as int) =~= s@);
    v
}

/// Appends `data` to `out`.
pub fn append(out: &mut Vec<u8>, data: &[u8])
    ensures
        final(out)@ == old(out)@ + data@,
{
    let ghost base = out@;
    let mut i: usize = 0;
    while i < data.len()
        invariant
            i <= data@.len(),
            out@ =~= base + data@.take(i as int),
        decreases data@.len() - i,
    {
        out.push(data[i]);
        i = i + 1;
    }
    assert(data@.take(i as int) =~= data@);
}

/// Pieces put together.
pub open spec fn joined(parts: Seq<Seq<u8>>) -> Seq<u8>
    decreases parts.len(),
{
    if parts.len() == 0 {
        Seq::empty()
    } else {
        parts[0] + joined(parts.drop_first())
    }
}

/// The bytes of an ASCII string are the numbers of its characters.
pub proof fn lemma_ascii(s: &str, b: Seq<u8>)
    requires
        s@.len() == b.len(),
        forall|i: int| 0 <= i < b.len() ==> (#[trigger] s@[i]) as int == b[i] && b[i] < 128,
    ensures
        s.spec_bytes() == b,
{
    assert(vstd::string::is_ascii(s)) by {
        assert forall|i: int| 0 <= i < s@.len() implies '\0' <= #[trigger] s@[i] <= '\u{7f}' by {
            assert(s@[i] as int == b[i]);
        }
    }
    vstd::string::is_ascii_spec_bytes(s);
    assert forall|i: int| 0 <= i < b.len() implies s.spec_bytes()[i] == #[trigger] b[i] by {
        assert(s@[i] as int == b[i]);
    }
    assert(s.spec_bytes() =~= b);
}

} // verus!
