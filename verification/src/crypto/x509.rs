//! Minimal ASN.1/DER helpers for on-device X.509 certificate generation.
//!
//! Only the small subset needed to emit a `subjectAltName` extension is
//! implemented; nothing here parses untrusted input.

use vstd::prelude::*;
use vstd::string::StringSliceAdditionalSpecFns;

use crate::bytes;
use crate::error::Error;

verus! {

/// An IP address, as its bytes.
#[derive(Debug, Clone, Copy, PartialEq, Eq)]
pub enum IpAddr {
    V4([u8; 4]),
    V6([u8; 16]),
}

impl View for IpAddr {
    type V = Seq<u8>;

    open spec fn view(&self) -> Seq<u8> {
        match self {
            IpAddr::V4(octets) => octets@,
            IpAddr::V6(octets) => octets@,
        }
    }
}

impl IpAddr {
    /// The bytes of the address.
    pub fn octets(&self) -> (r: &[u8])
        ensures
            r@ == self@,
            r@.len() <= 16,
    {
        match self {
            IpAddr::V4(octets) => octets.as_slice(),
            IpAddr::V6(octets) => octets.as_slice(),
        }
    }
}

/// A DER length field; lengths above `0xffff` do not occur.
pub open spec fn der_len(len: nat) -> Seq<u8> {
    if len < 0x80 {
        seq![len as u8]
    } else if len < 0x100 {
        seq![0x81u8, len as u8]
    } else {
        seq![0x82u8, (len / 256 % 256) as u8, (len % 256) as u8]
    }
}

/// Tag and length of a DER element.
pub open spec fn der_header(tag: u8, len: nat) -> Seq<u8> {
    seq![tag] + der_len(len)
}

/// A DER element: tag, length, content.
pub open spec fn der(tag: u8, content: Seq<u8>) -> Seq<u8> {
    der_header(tag, content.len()) + content
}

/// Number of bytes needed to encode `len` as a DER definite-length field.
pub fn asn1_len_size(len: usize) -> (n: usize)
    ensures
        n == der_len(len as nat).len(),
        1 <= n <= 3,
{
    if len < 0x80 {
        1
    } else if len < 0x100 {
        2
    } else {
        3
    }
}

/// Write a DER definite-length field for `len`. Returns bytes written.
///
/// Supports lengths up to 0xFFFF, which is far beyond any certificate field we
/// emit on-device.
pub fn write_asn1_len(len: usize, out: &mut [u8]) -> (r: Result<usize, Error>)
    ensures
        final(out)@.len() == old(out)@.len(),
        ({
            let b = der_len(len as nat);
            if b.len() <= old(out)@.len() {
                r == Ok::<usize, Error>(b.len() as usize) && final(out)@ == b + old(out)@.skip(
                    b.len() as int,
                )
            } else {
                r == Err::<usize, Error>(Error::BufferTooSmall { needed: b.len() as usize })
                    && final(out)@ == old(out)@
            }
        }),
{
    let ghost base = out@;
    let n = asn1_len_size(len);
    if out.len() < n {
        return Err(Error::BufferTooSmall { needed: n });
    }
    if n == 1 {
        out[0] = len as u8;
        assert(out@ =~= der_len(len as nat) + base.skip(1));
    } else if n == 2 {
        out[0] = 0x81;
        out[1] = len as u8;
        assert(out@ =~= der_len(len as nat) + base.skip(2));
    } else {
        out[0] = 0x82;
        out[1] = (len / 256 % 256) as u8;
        out[2] = (len % 256) as u8;
        assert(out@ =~= der_len(len as nat) + base.skip(3));
    }
    Ok(n)
}

/// Writes tag and length of a DER element at `out[pos..]` and returns the
/// position behind them.
pub(crate) fn put_der_header(out: &mut [u8], pos: usize, tag: u8, len: usize) -> (end: usize)
    requires
        pos + der_header(tag, len as nat).len() <= old(out)@.len(),
    ensures
        final(out)@.len() == old(out)@.len(),
        end == pos + der_header(tag, len as nat).len(),
        final(out)@.take(end as int) == old(out)@.take(pos as int) + der_header(tag, len as nat),
        final(out)@.skip(end as int) == old(out)@.skip(end as int),
{
    let ghost base = out@;
    let total = out.len();
    let p1 = bytes::put_byte(out, pos, tag);
    let ghost s1 = out@;
    let n = asn1_len_size(len);
    {
        let (_, tail) = out.split_at_mut(p1);
        let _ = write_asn1_len(len, tail);
    }
    proof {
        let b = der_len(len as nat);
        assert(out@ =~= s1.take(p1 as int) + b + s1.skip(p1 + n));
        assert(out@.take(p1 + n) =~= base.take(pos as int) + der_header(tag, len as nat));
        assert(out@.skip(p1 + n) =~= s1.skip(p1 + n));
        bytes::lemma_skip_eq(base, s1, p1 as int, p1 + n);
    }
    p1 + n
}

/// How many bytes of names the extension carries at most.
pub const NAMES_CAP: usize = 256;

/// How many bytes of names there are with one more of `len` bytes behind `done`.
pub open spec fn names_len_with(done: nat, len: nat) -> nat {
    done + 1 + der_len(len).len() + len
}

/// The names behind `done`, one after the other: one of more than 255 bytes is
/// refused, and so are more names than there is room for.
pub open spec fn with_names(done: Seq<u8>, tag: u8, names: Seq<Seq<u8>>) -> Result<Seq<u8>, Error>
    decreases names.len(),
{
    if names.len() == 0 {
        Ok(done)
    } else if names[0].len() > 0xff {
        Err(Error::Tls)
    } else if names_len_with(done.len(), names[0].len()) > NAMES_CAP {
        Err(
            Error::BufferTooSmall {
                needed: names_len_with(done.len(), names[0].len()) as usize,
            },
        )
    } else {
        with_names(done + der(tag, names[0]), tag, names.drop_first())
    }
}

/// The `GeneralName` entries: DNS names (`[2]`), then IP addresses (`[7]`).
pub open spec fn general_names(dns: Seq<Seq<u8>>, ips: Seq<Seq<u8>>) -> Result<Seq<u8>, Error> {
    match with_names(Seq::empty(), 0x82, dns) {
        Ok(n) => with_names(n, 0x87, ips),
        Err(e) => Err(e),
    }
}

/// The object identifier of `subjectAltName` (2.5.29.17), encoded.
pub open spec fn san_oid() -> Seq<u8> {
    seq![0x06u8, 0x03, 0x55, 0x1d, 0x11]
}

/// The extensions field that carries the names, innermost part last.
pub open spec fn san_field(names: Seq<u8>) -> Seq<u8> {
    der(0xa3, der(0x30, der(0x30, san_oid() + der(0x04, der(0x30, names)))))
}

/// The extensions field of a certificate: nothing without names.
pub open spec fn san_extensions(dns: Seq<Seq<u8>>, ips: Seq<Seq<u8>>) -> Result<Seq<u8>, Error> {
    if dns.len() == 0 && ips.len() == 0 {
        Ok(Seq::empty())
    } else {
        match general_names(dns, ips) {
            Ok(names) => Ok(san_field(names)),
            Err(e) => Err(e),
        }
    }
}

/// The bytes of DNS names.
pub open spec fn dns_bytes(dns: Seq<&str>) -> Seq<Seq<u8>> {
    Seq::new(dns.len(), |i: int| dns[i].spec_bytes())
}

/// The bytes of IP addresses.
pub open spec fn ip_bytes(ips: Seq<IpAddr>) -> Seq<Seq<u8>> {
    Seq::new(ips.len(), |i: int| ips[i]@)
}

/// Append one `GeneralName` (`tag` + length + `name`) to `names` at `*n`.
pub fn put_general_name(names: &mut [u8], n: &mut usize, tag: u8, name: &[u8]) -> (r: Result<(), Error>)
    requires
        *old(n) + 300 <= usize::MAX,
    ensures
        final(names)@.len() == old(names)@.len(),
        ({
            let needed = names_len_with(*old(n) as nat, name@.len());
            if name@.len() > 0xff {
                r == Err::<(), Error>(Error::Tls) && *final(n) == *old(n) && final(names)@ == old(
                    names)@
            } else if needed > old(names)@.len() {
                r == Err::<(), Error>(Error::BufferTooSmall { needed: needed as usize })
                    && *final(n) == *old(n) && final(names)@ == old(names)@
            } else {
                r == Ok::<(), Error>(()) && *final(n) == needed && final(names)@.take(needed as int)
                    == old(names)@.take(*old(n) as int) + der(tag, name@) && final(names)@.skip(
                    needed as int,
                ) == old(names)@.skip(needed as int)
            }
        }),
{
    if name.len() > 0xff {
        return Err(Error::Tls);
    }
    let needed = *n + 1 + asn1_len_size(name.len()) + name.len();
    if needed > names.len() {
        return Err(Error::BufferTooSmall { needed });
    }
    let ghost base = names@;
    let p1 = put_der_header(names, *n, tag, name.len());
    let ghost s1 = names@;
    let p2 = bytes::put_slice(names, p1, name);
    proof {
        assert(names@.take(p2 as int) =~= base.take(*old(n) as int) + der(tag, name@));
        bytes::lemma_skip_eq(base, s1, p1 as int, p2 as int);
    }
    *n = p2;
    Ok(())
}

/// Appends DNS names.
fn put_dns_names(names: &mut [u8], n: &mut usize, dns_names: &[&str]) -> (r: Result<(), Error>)
    requires
        old(names)@.len() == NAMES_CAP,
        *old(n) <= NAMES_CAP,
    ensures
        final(names)@.len() == NAMES_CAP,
        *final(n) <= NAMES_CAP,
        match with_names(old(names)@.take(*old(n) as int), 0x82, dns_bytes(dns_names@)) {
            Ok(b) => r == Ok::<(), Error>(()) && final(names)@.take(*final(n) as int) == b,
            Err(e) => r == Err::<(), Error>(e),
        },
{
    let ghost all = dns_bytes(dns_names@);
    let ghost want = with_names(names@.take(*n as int), 0x82, all);
    let mut i: usize = 0;
    assert(all.skip(0) =~= all);
    while i < dns_names.len()
        invariant
            i <= dns_names@.len(),
            all == dns_bytes(dns_names@),
            names@.len() == NAMES_CAP,
            *n <= NAMES_CAP,
            want == with_names(names@.take(*n as int), 0x82, all.skip(i as int)),
            want == with_names(old(names)@.take(*old(n) as int), 0x82, all),
        decreases dns_names@.len() - i,
    {
        let ghost rest = all.skip(i as int);
        assert(rest[0] == dns_names@[i as int].spec_bytes());
        assert(rest.drop_first() =~= all.skip(i + 1));
        match put_general_name(names, n, 0x82, dns_names[i].as_bytes()) {
            Ok(()) => {},
            Err(e) => {
                return Err(e);
            },
        }
        i = i + 1;
    }
    assert(all.skip(i as int).len() == 0);
    Ok(())
}

/// Appends IP addresses.
fn put_ip_addrs(names: &mut [u8], n: &mut usize, ip_addrs: &[IpAddr]) -> (r: Result<(), Error>)
    requires
        old(names)@.len() == NAMES_CAP,
        *old(n) <= NAMES_CAP,
    ensures
        final(names)@.len() == NAMES_CAP,
        *final(n) <= NAMES_CAP,
        match with_names(old(names)@.take(*old(n) as int), 0x87, ip_bytes(ip_addrs@)) {
            Ok(b) => r == Ok::<(), Error>(()) && final(names)@.take(*final(n) as int) == b,
            Err(e) => r == Err::<(), Error>(e),
        },
{
    let ghost all = ip_bytes(ip_addrs@);
    let ghost want = with_names(names@.take(*n as int), 0x87, all);
    let mut i: usize = 0;
    assert(all.skip(0) =~= all);
    while i < ip_addrs.len()
        invariant
            i <= ip_addrs@.len(),
            all == ip_bytes(ip_addrs@),
            names@.len() == NAMES_CAP,
            *n <= NAMES_CAP,
            want == with_names(names@.take(*n as int), 0x87, all.skip(i as int)),
            want == with_names(old(names)@.take(*old(n) as int), 0x87, all),
        decreases ip_addrs@.len() - i,
    {
        let ghost rest = all.skip(i as int);
        assert(rest[0] == ip_addrs@[i as int]@);
        assert(rest.drop_first() =~= all.skip(i + 1));
        match put_general_name(names, n, 0x87, ip_addrs[i].octets()) {
            Ok(()) => {},
            Err(e) => {
                return Err(e);
            },
        }
        i = i + 1;
    }
    assert(all.skip(i as int).len() == 0);
    Ok(())
}

/// The names never exceed their room.
pub proof fn lemma_names_len(done: Seq<u8>, tag: u8, names: Seq<Seq<u8>>)
    requires
        done.len() <= NAMES_CAP,
    ensures
        with_names(done, tag, names) matches Ok(b) ==> b.len() <= NAMES_CAP,
    decreases names.len(),
{
    if names.len() > 0 && names[0].len() <= 0xff && names_len_with(done.len(), names[0].len())
        <= NAMES_CAP {
        lemma_names_len(done + der(tag, names[0]), tag, names.drop_first());
    }
}

/// The extensions field is at most 281 bytes long.
pub proof fn lemma_san_len(dns: Seq<Seq<u8>>, ips: Seq<Seq<u8>>)
    ensures
        san_extensions(dns, ips) matches Ok(b) ==> b.len() <= 281,
{
    lemma_names_len(Seq::empty(), 0x82, dns);
    match with_names(Seq::empty(), 0x82, dns) {
        Ok(n) => {
            lemma_names_len(n, 0x87, ips);
        },
        Err(_) => {},
    }
}

/// Where the parts of the extensions field end up when they are written one
/// after the other.
proof fn lemma_nested(
    h1: Seq<u8>,
    h2: Seq<u8>,
    h3: Seq<u8>,
    oid: Seq<u8>,
    h4: Seq<u8>,
    h5: Seq<u8>,
    names: Seq<u8>,
)
    ensures
        h1 + h2 + h3 + oid + h4 + h5 + names == h1 + (h2 + (h3 + (oid + (h4 + (h5 + names))))),
{
    assert(h1 + h2 + h3 + oid + h4 + h5 + names =~= h1 + (h2 + (h3 + (oid + (h4 + (h5 + names))))));
}

/// How long the extensions field is for `names_len` bytes of names.
fn san_field_len(names_len: usize) -> (total: usize)
    requires
        names_len <= NAMES_CAP,
    ensures
        forall|names: Seq<u8>|
            names.len() == names_len ==> (#[trigger] san_field(names)).len() == total,
        total <= 281,
{
    let gn_seq_len = 1 + asn1_len_size(names_len) + names_len;
    let octet_len = 1 + asn1_len_size(gn_seq_len) + gn_seq_len;
    let ext_content_len = 5 + octet_len;
    let ext_seq_len = 1 + asn1_len_size(ext_content_len) + ext_content_len;
    let exts_seq_len = 1 + asn1_len_size(ext_seq_len) + ext_seq_len;
    1 + asn1_len_size(exts_seq_len) + exts_seq_len
}

/// Writes the extensions field for `names` to the front of `out`.
fn put_san_field(names: &[u8], out: &mut [u8]) -> (end: usize)
    requires
        names@.len() <= NAMES_CAP,
        san_field(names@).len() <= old(out)@.len(),
    ensures
        final(out)@.len() == old(out)@.len(),
        end == san_field(names@).len(),
        final(out)@ == san_field(names@) + old(out)@.skip(end as int),
{
    let ghost base = out@;
    let ghost nb = names@;
    let oid: [u8; 5] = [0x06u8, 0x03, 0x55, 0x1d, 0x11];
    assert(oid@ =~= san_oid());
    let l5 = names.len();
    let l4 = 1 + asn1_len_size(l5) + l5;
    let l3 = 5 + 1 + asn1_len_size(l4) + l4;
    let l2 = 1 + asn1_len_size(l3) + l3;
    let l1 = 1 + asn1_len_size(l2) + l2;
    let ghost h1 = der_header(0xa3, l1 as nat);
    let ghost h2 = der_header(0x30, l2 as nat);
    let ghost h3 = der_header(0x30, l3 as nat);
    let ghost h4 = der_header(0x04, l4 as nat);
    let ghost h5 = der_header(0x30, l5 as nat);
    assert(san_field(nb) == h1 + (h2 + (h3 + (san_oid() + (h4 + (h5 + nb))))));
    let p1 = put_der_header(out, 0, 0xa3, l1);
    let ghost s1 = out@;
    let p2 = put_der_header(out, p1, 0x30, l2);
    let ghost s2 = out@;
    let p3 = put_der_header(out, p2, 0x30, l3);
    let ghost s3 = out@;
    let p4 = bytes::put_slice(out, p3, oid.as_slice());
    let ghost s4 = out@;
    let p5 = put_der_header(out, p4, 0x04, l4);
    let ghost s5 = out@;
    let p6 = put_der_header(out, p5, 0x30, l5);
    let ghost s6 = out@;
    let p7 = bytes::put_slice(out, p6, names);
    proof {
        assert(s1.take(p1 as int) =~= h1);
        lemma_nested(h1, h2, h3, san_oid(), h4, h5, nb);
        bytes::lemma_skip_eq(base, s1, p1 as int, p7 as int);
        bytes::lemma_skip_eq(s1, s2, p2 as int, p7 as int);
        bytes::lemma_skip_eq(s2, s3, p3 as int, p7 as int);
        bytes::lemma_skip_eq(s3, s4, p4 as int, p7 as int);
        bytes::lemma_skip_eq(s4, s5, p5 as int, p7 as int);
        bytes::lemma_skip_eq(s5, s6, p6 as int, p7 as int);
        assert(out@ =~= out@.take(p7 as int) + out@.skip(p7 as int));
    }
    p7
}

/// Encode the TBSCertificate `extensions` field carrying a single
/// `subjectAltName` extension:
///
/// ```text
/// [3] EXPLICIT SEQUENCE OF Extension {
///     SEQUENCE {                       -- the subjectAltName extension
///         OID 2.5.29.17
///         OCTET STRING {
///             SEQUENCE OF GeneralName {
///                 [2] dNSName   (one per entry in `dns_names`)
///                 [7] iPAddress (one per entry in `ip_addrs`; 4 or 16 bytes)
///             }
///         }
///     }
/// }
/// ```
///
/// Both lists are optional: if `dns_names` and `ip_addrs` are both empty,
/// nothing is written and `Ok(0)` is returned.
pub fn encode_san_extensions(dns_names: &[&str], ip_addrs: &[IpAddr], out: &mut [u8]) -> (r: Result<
    usize,
    Error,
>)
    ensures
        final(out)@.len() == old(out)@.len(),
        match san_extensions(dns_bytes(dns_names@), ip_bytes(ip_addrs@)) {
            Ok(b) => if b.len() <= old(out)@.len() {
                r == Ok::<usize, Error>(b.len() as usize) && final(out)@ == b + old(out)@.skip(
                    b.len() as int,
                )
            } else {
                r == Err::<usize, Error>(Error::BufferTooSmall { needed: b.len() as usize })
                    && final(out)@ == old(out)@
            },
            Err(e) => r == Err::<usize, Error>(e) && final(out)@ == old(out)@,
        },
{
    let ghost base = out@;
    let ghost dns = dns_bytes(dns_names@);
    let ghost ips = ip_bytes(ip_addrs@);
    proof {
        lemma_san_len(dns, ips);
        assert(Seq::<u8>::empty() + base.skip(0) =~= base);
    }
    if dns_names.len() == 0 && ip_addrs.len() == 0 {
        return Ok(0);
    }
    let mut names: [u8; 256] = [0u8; 256];
    let mut n: usize = 0;
    assert(names@.take(0) =~= Seq::<u8>::empty());
    match put_dns_names(&mut names, &mut n, dns_names) {
        Ok(()) => {},
        Err(e) => {
            return Err(e);
        },
    }
    match put_ip_addrs(&mut names, &mut n, ip_addrs) {
        Ok(()) => {},
        Err(e) => {
            return Err(e);
        },
    }
    let total = san_field_len(n);
    assert(san_field(names@.take(n as int)).len() == total);
    if out.len() < total {
        return Err(Error::BufferTooSmall { needed: total });
    }
    let end = put_san_field(names.as_slice().split_at(n).0, out);
    Ok(end)
}

} // verus!
