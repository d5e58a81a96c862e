//! What the reader of a certificate finds in it.

use vstd::prelude::*;
use vstd::string::StringSliceAdditionalSpecFns;

use crate::bytes;
use crate::crypto::ed25519;
use crate::crypto::x509;
use crate::crypto::x509::IpAddr;

verus! {

/// The DER element at the front of `s`: its tag, its content, and what follows.
pub open spec fn element_at(s: Seq<u8>) -> Option<(u8, Seq<u8>, Seq<u8>)> {
    if s.len() < 2 {
        None
    } else {
        let (len, at) = if s[1] < 0x80 {
            (s[1] as int, 2int)
        } else if s[1] == 0x81 && s.len() >= 3 {
            (s[2] as int, 3int)
        } else if s[1] == 0x82 && s.len() >= 4 {
            (s[2] * 256 + s[3], 4int)
        } else {
            (-1int, 2int)
        };
        if len < 0 || at + len > s.len() {
            None
        } else {
            Some((s[0], s.subrange(at, at + len), s.skip(at + len)))
        }
    }
}

/// The DER elements that `s` consists of, as tags and contents; `None` if it is
/// anything else.
pub open spec fn elements(s: Seq<u8>) -> Option<Seq<(u8, Seq<u8>)>>
    decreases s.len(),
{
    if s.len() == 0 {
        Some(Seq::empty())
    } else {
        match element_at(s) {
            None => None,
            Some((tag, content, rest)) => if rest.len() < s.len() {
                match elements(rest) {
                    None => None,
                    Some(more) => Some(seq![(tag, content)] + more),
                }
            } else {
                None
            },
        }
    }
}

/// The content of the only element that `s` consists of, which has the tag `tag`.
pub open spec fn inside(s: Seq<u8>, tag: u8) -> Option<Seq<u8>> {
    match element_at(s) {
        Some((t, content, rest)) => if t == tag && rest.len() == 0 {
            Some(content)
        } else {
            None
        },
        None => None,
    }
}

/// The `GeneralName` entries of an extensions field with one extension, which is
/// `subjectAltName`, as tags and contents.
pub open spec fn alt_names(ext: Seq<u8>) -> Option<Seq<(u8, Seq<u8>)>> {
    match inside(ext, 0xa3) {
        None => None,
        Some(explicit) => match inside(explicit, 0x30) {
            None => None,
            Some(extensions) => match inside(extensions, 0x30) {
                None => None,
                Some(extension) => match elements(extension) {
                    None => None,
                    Some(e) => if e.len() == 2 && e[0] == (0x06u8, seq![0x55u8, 0x1d, 0x11])
                        && e[1].0 == 0x04 {
                        match inside(e[1].1, 0x30) {
                            None => None,
                            Some(names) => elements(names),
                        }
                    } else {
                        None
                    },
                },
            },
        },
    }
}

/// Law: a DER element is read back, whatever follows it.
pub proof fn law_element_roundtrip(tag: u8, content: Seq<u8>, rest: Seq<u8>)
    requires
        content.len() <= 0xffff,
    ensures
        element_at(x509::der(tag, content) + rest) == Some((tag, content, rest)),
{
    let s = x509::der(tag, content) + rest;
    let n = content.len();
    let at = 1 + x509::der_len(n).len() as int;
    assert(s.subrange(at, at + n) =~= content);
    assert(s.skip(at + n) =~= rest);
    assert(s[1] == x509::der_len(n)[0]);
    if n >= 0x80 {
        assert(s[2] == x509::der_len(n)[1]);
        if n >= 0x100 {
            assert(s[3] == x509::der_len(n)[2]);
            assert(n == n / 256 * 256 + n % 256);
            assert(n / 256 < 256);
        }
    }
}

/// The only element is read back.
proof fn lemma_inside(tag: u8, content: Seq<u8>)
    requires
        content.len() <= 0xffff,
    ensures
        inside(x509::der(tag, content), tag) == Some(content),
{
    law_element_roundtrip(tag, content, Seq::empty());
    assert(x509::der(tag, content) + Seq::<u8>::empty() =~= x509::der(tag, content));
}

/// An element in front of others.
proof fn lemma_element_first(tag: u8, content: Seq<u8>, rest: Seq<u8>)
    requires
        content.len() <= 0xffff,
    ensures
        elements(x509::der(tag, content) + rest) == (match elements(rest) {
            Some(more) => Some(seq![(tag, content)] + more),
            None => None,
        }),
{
    law_element_roundtrip(tag, content, rest);
}

/// An element behind others.
proof fn lemma_element_last(s: Seq<u8>, tag: u8, content: Seq<u8>)
    requires
        content.len() <= 0xffff,
        elements(s) is Some,
    ensures
        elements(s + x509::der(tag, content)) == Some(elements(s)->0.push((tag, content))),
    decreases s.len(),
{
    let d = x509::der(tag, content);
    if s.len() == 0 {
        assert(s + d =~= d + Seq::<u8>::empty());
        lemma_element_first(tag, content, Seq::empty());
        assert(seq![(tag, content)] + Seq::<(u8, Seq<u8>)>::empty() =~= elements(s)->0.push(
            (tag, content),
        ));
    } else {
        let (t, c, rest) = element_at(s)->0;
        let all = s + d;
        let at = s.len() - rest.len();
        assert(all.skip(at) =~= rest + d);
        assert(element_at(all) == Some((t, c, rest + d))) by {
            assert(all[0] == s[0] && all[1] == s[1]);
            assert(s.len() >= 3 ==> all[2] == s[2]);
            assert(s.len() >= 4 ==> all[3] == s[3]);
            assert(all.subrange(at - c.len(), at) =~= c);
        }
        lemma_element_last(rest, tag, content);
        let more = elements(rest)->0;
        assert(seq![(t, c)] + more.push((tag, content)) =~= (seq![(t, c)] + more).push(
            (tag, content),
        ));
    }
}

/// How many bytes an entry with a name of `len` bytes takes.
pub open spec fn entry_size(len: nat) -> nat {
    if len < 0x80 {
        2 + len
    } else {
        3 + len
    }
}

/// How many bytes the entries for some names take.
pub open spec fn entries_size(names: Seq<Seq<u8>>) -> nat
    decreases names.len(),
{
    if names.len() == 0 {
        0
    } else {
        entry_size(names[0].len()) + entries_size(names.drop_first())
    }
}

/// Whether no name is longer than an entry can be.
pub open spec fn short_names(names: Seq<Seq<u8>>) -> bool {
    forall|i: int| 0 <= i < names.len() ==> (#[trigger] names[i]).len() <= 0xff
}

/// Law: names are appended if and only if each is short enough and all together
/// have room; then reading them back gives what was there, followed by exactly one
/// entry per name, in order.
pub proof fn law_names_are_appended(done: Seq<u8>, tag: u8, names: Seq<Seq<u8>>)
    requires
        elements(done) is Some,
        done.len() <= 256,
    ensures
        x509::with_names(done, tag, names) is Ok <==> short_names(names) && done.len()
            + entries_size(names) <= 256,
        x509::with_names(done, tag, names) matches Ok(b) ==> elements(b) == Some(
            elements(done)->0 + Seq::new(names.len(), |i: int| (tag, names[i])),
        ) && b.len() == done.len() + entries_size(names),
    decreases names.len(),
{
    let rest = names.drop_first();
    let before = elements(done)->0;
    let added = Seq::new(names.len(), |i: int| (tag, names[i]));
    if names.len() == 0 {
        assert(before + added =~= before);
    } else {
        let next = done + x509::der(tag, names[0]);
        assert(short_names(names) ==> names[0].len() <= 0xff && short_names(rest)) by {
            if short_names(names) {
                assert forall|i: int| 0 <= i < rest.len() implies (#[trigger] rest[i]).len()
                    <= 0xff by {
                    assert(rest[i] == names[i + 1]);
                }
            }
        }
        if names[0].len() <= 0xff && done.len() + entry_size(names[0].len()) <= 256 {
            lemma_element_last(done, tag, names[0]);
            law_names_are_appended(next, tag, rest);
            assert(short_names(rest) ==> short_names(names)) by {
                if short_names(rest) {
                    assert forall|i: int| 0 <= i < names.len() implies (#[trigger] names[i]).len()
                        <= 0xff by {
                        if i > 0 {
                            assert(names[i] == rest[i - 1]);
                        }
                    }
                }
            }
            assert(before.push((tag, names[0])) + Seq::new(
                rest.len(),
                |i: int| (tag, rest[i]),
            ) =~= before + added);
        }
    }
}

/// The octets of an address.
pub open spec fn octets_of(ip: IpAddr) -> Seq<u8> {
    match ip {
        IpAddr::V4(o) => o@,
        IpAddr::V6(o) => o@,
    }
}

/// Whether some entries are one `dNSName` per name and then one `iPAddress` per
/// address, each in order.
pub open spec fn entries_of(e: Seq<(u8, Seq<u8>)>, dns: Seq<&str>, ips: Seq<IpAddr>) -> bool {
    &&& e.len() == dns.len() + ips.len()
    &&& forall|i: int|
        0 <= i < dns.len() ==> #[trigger] e[i] == (0x82u8, dns[i].spec_bytes())
    &&& forall|i: int|
        dns.len() <= i < e.len() ==> #[trigger] e[i] == (0x87u8, octets_of(ips[i - dns.len()]))
}

/// How long an element is.
proof fn lemma_der_len(tag: u8, content: Seq<u8>)
    ensures
        2 + content.len() <= x509::der(tag, content).len() <= 4 + content.len(),
{
}

/// The extension is an object identifier and an octet string.
proof fn lemma_extension(list: Seq<u8>)
    requires
        list.len() <= 0xffff,
    ensures
        elements(x509::san_oid() + x509::der(0x04, list)) == Some(
            seq![(0x06u8, seq![0x55u8, 0x1d, 0x11]), (0x04u8, list)],
        ),
{
    let oid = seq![0x55u8, 0x1d, 0x11];
    assert(x509::san_oid() =~= x509::der(0x06, oid));
    let none = Seq::<u8>::empty();
    let last = x509::der(0x04, list);
    lemma_element_first(0x06, oid, last);
    lemma_element_first(0x04, list, none);
    assert(last + none =~= last);
    assert(elements(none) == Some(Seq::<(u8, Seq<u8>)>::empty()));
    assert(seq![(0x06u8, oid)] + (seq![(0x04u8, list)] + Seq::<(u8, Seq<u8>)>::empty()) =~= seq![
        (0x06u8, oid),
        (0x04u8, list),
    ]);
}

/// The nesting of the extensions field is undone by its reader.
proof fn lemma_field_is_read(names: Seq<u8>)
    requires
        names.len() <= 256,
    ensures
        alt_names(x509::san_field(names)) == elements(names),
        0 < x509::san_field(names).len(),
{
    let list = x509::der(0x30, names);
    let octets = x509::der(0x04, list);
    let content = x509::san_oid() + octets;
    let one = x509::der(0x30, content);
    let all = x509::der(0x30, one);
    lemma_der_len(0x30, names);
    lemma_der_len(0x04, list);
    assert(x509::san_oid().len() == 5);
    lemma_der_len(0x30, content);
    lemma_der_len(0x30, one);
    lemma_der_len(0xa3, all);
    lemma_inside(0x30, names);
    lemma_inside(0x30, content);
    lemma_inside(0x30, one);
    lemma_inside(0xa3, all);
    lemma_extension(list);
    lemma_alt_names(x509::san_field(names), all, one, content, list, names);
}

/// The steps of the reader.
proof fn lemma_alt_names(
    ext: Seq<u8>,
    all: Seq<u8>,
    one: Seq<u8>,
    content: Seq<u8>,
    list: Seq<u8>,
    names: Seq<u8>,
)
    requires
        inside(ext, 0xa3) == Some(all),
        inside(all, 0x30) == Some(one),
        inside(one, 0x30) == Some(content),
        elements(content) == Some(
            seq![(0x06u8, seq![0x55u8, 0x1d, 0x11]), (0x04u8, list)],
        ),
        inside(list, 0x30) == Some(names),
    ensures
        alt_names(ext) == elements(names),
{
    let e = elements(content)->0;
    assert(e[0] == (0x06u8, seq![0x55u8, 0x1d, 0x11]) && e[1] == (0x04u8, list));
}

/// Law: reading the extensions field of a certificate gives the names back:
/// exactly one `dNSName` entry per DNS name and then one `iPAddress` entry per
/// address, in order and with its bytes. Without names there is no field. Names
/// are accepted if and only if each has at most 255 bytes and their entries have
/// 256 together.
pub proof fn law_names_are_read_back(dns: Seq<&str>, ips: Seq<IpAddr>)
    ensures
        ({
            let d = Seq::new(dns.len(), |i: int| dns[i].spec_bytes());
            let a = Seq::new(ips.len(), |i: int| octets_of(ips[i]));
            let r = x509::san_extensions(x509::dns_bytes(dns), x509::ip_bytes(ips));
            &&& r is Ok <==> short_names(d) && entries_size(d) + entries_size(a) <= 256
            &&& r matches Ok(ext) ==> ext.len() <= 281 && if dns.len() + ips.len() == 0 {
                ext.len() == 0
            } else {
                alt_names(ext) matches Some(e) && entries_of(e, dns, ips)
            }
        }),
{
    let d = Seq::new(dns.len(), |i: int| dns[i].spec_bytes());
    let a = Seq::new(ips.len(), |i: int| octets_of(ips[i]));
    let none = Seq::<u8>::empty();
    assert(x509::dns_bytes(dns) =~= d);
    assert(x509::ip_bytes(ips) =~= a);
    law_names_are_appended(none, 0x82, d);
    assert(short_names(a));
    match x509::with_names(none, 0x82, d) {
        Ok(n) => {
            law_names_are_appended(n, 0x87, a);
            match x509::with_names(n, 0x87, a) {
                Ok(b) => {
                    x509::lemma_san_len(d, a);
                    lemma_field_is_read(b);
                    let e = elements(b)->0;
                    assert(entries_of(e, dns, ips));
                },
                Err(_) => {},
            }
        },
        Err(_) => {},
    }
}

/// What the reader of a certificate finds in it.
pub struct Reading {
    /// The fields of the signed part.
    pub fields: Seq<(u8, Seq<u8>)>,
    /// The algorithm of the signature.
    pub algorithm: Seq<u8>,
    /// The signature, with the count of its unused bits in front.
    pub signature: Seq<u8>,
}

/// A certificate, taken apart.
pub open spec fn certificate_read(cert: Seq<u8>) -> Option<Reading> {
    match inside(cert, 0x30) {
        None => None,
        Some(content) => match elements(content) {
            None => None,
            Some(e) => if e.len() == 3 && e[0].0 == 0x30 && e[1].0 == 0x30 && e[2].0 == 0x03 {
                match elements(e[0].1) {
                    None => None,
                    Some(fields) => Some(
                        Reading { fields, algorithm: e[1].1, signature: e[2].1 },
                    ),
                }
            } else {
                None
            },
        },
    }
}

/// The object identifier 1.3.101.112 as an element.
pub open spec fn names_ed25519(algorithm: Seq<u8>) -> bool {
    inside(algorithm, 0x06) == Some(seq![0x2bu8, 0x65, 0x70])
}

/// Whether a name consists of the common name `milli-quic`.
pub open spec fn names_milli_quic(name: Seq<u8>) -> bool {
    &&& inside(name, 0x31) matches Some(set)
    &&& inside(set, 0x30) matches Some(attribute)
    &&& elements(attribute) == Some(
        seq![
            (0x06u8, seq![0x55u8, 0x04, 0x03]),
            (0x0cu8, seq![0x6du8, 0x69, 0x6c, 0x6c, 0x69, 0x2d, 0x71, 0x75, 0x69, 0x63]),
        ],
    )
}

/// Whether a validity reaches from the start of 2025 to the start of 2035.
pub open spec fn ten_years(validity: Seq<u8>) -> bool {
    elements(validity) == Some(
        seq![
            (0x17u8, seq![0x32u8, 0x35, 0x30, 0x31, 0x30, 0x31, 0x30, 0x30, 0x30, 0x30, 0x30, 0x30, 0x5a]),
            (0x17u8, seq![0x33u8, 0x35, 0x30, 0x31, 0x30, 0x31, 0x30, 0x30, 0x30, 0x30, 0x30, 0x30, 0x5a]),
        ],
    )
}

/// Whether a key field holds an Ed25519 key.
pub open spec fn holds_key(field: Seq<u8>, key: Seq<u8>) -> bool {
    &&& elements(field) matches Some(e)
    &&& e.len() == 2
    &&& e[0].0 == 0x30 && names_ed25519(e[0].1)
    &&& e[1] == (0x03u8, seq![0u8] + key)
}

/// Two elements, one after the other.
proof fn lemma_two_elements(t1: u8, c1: Seq<u8>, t2: u8, c2: Seq<u8>)
    requires
        c1.len() <= 0xffff,
        c2.len() <= 0xffff,
    ensures
        elements(x509::der(t1, c1) + x509::der(t2, c2)) == Some(seq![(t1, c1), (t2, c2)]),
{
    let none = Seq::<u8>::empty();
    let last = x509::der(t2, c2);
    lemma_element_first(t1, c1, last);
    lemma_element_first(t2, c2, none);
    assert(last + none =~= last);
    assert(elements(none) == Some(Seq::<(u8, Seq<u8>)>::empty()));
    assert(seq![(t1, c1)] + (seq![(t2, c2)] + Seq::<(u8, Seq<u8>)>::empty()) =~= seq![
        (t1, c1),
        (t2, c2),
    ]);
}

/// The algorithm identifier of a certificate, without tag and length.
pub open spec fn algorithm_content() -> Seq<u8> {
    ed25519::sig_algo().skip(2)
}

proof fn lemma_algorithm()
    ensures
        ed25519::sig_algo() == x509::der(0x30, algorithm_content()),
        names_ed25519(algorithm_content()),
        algorithm_content().len() == 5,
{
    let c = algorithm_content();
    let oid = seq![0x2bu8, 0x65, 0x70];
    assert(c =~= x509::der(0x06, oid));
    lemma_inside(0x06, oid);
    assert(ed25519::sig_algo() =~= x509::der(0x30, c));
}

proof fn lemma_name()
    ensures
        ed25519::common_name() == x509::der(0x30, ed25519::common_name().skip(2)),
        names_milli_quic(ed25519::common_name().skip(2)),
        ed25519::common_name().skip(2).len() == 21,
{
    let c = ed25519::common_name().skip(2);
    let set = c.skip(2);
    let attribute = set.skip(2);
    let oid = seq![0x55u8, 0x04, 0x03];
    let cn = seq![0x6du8, 0x69, 0x6c, 0x6c, 0x69, 0x2d, 0x71, 0x75, 0x69, 0x63];
    assert(attribute =~= x509::der(0x06, oid) + x509::der(0x0c, cn));
    lemma_two_elements(0x06, oid, 0x0c, cn);
    assert(set =~= x509::der(0x30, attribute));
    lemma_inside(0x30, attribute);
    assert(c =~= x509::der(0x31, set));
    lemma_inside(0x31, set);
    assert(ed25519::common_name() =~= x509::der(0x30, c));
}

proof fn lemma_validity()
    ensures
        ed25519::validity() == x509::der(0x30, ed25519::validity().skip(2)),
        ten_years(ed25519::validity().skip(2)),
        ed25519::validity().skip(2).len() == 30,
{
    let c = ed25519::validity().skip(2);
    let a = seq![0x32u8, 0x35, 0x30, 0x31, 0x30, 0x31, 0x30, 0x30, 0x30, 0x30, 0x30, 0x30, 0x5a];
    let b = seq![0x33u8, 0x35, 0x30, 0x31, 0x30, 0x31, 0x30, 0x30, 0x30, 0x30, 0x30, 0x30, 0x5a];
    assert(c =~= x509::der(0x17, a) + x509::der(0x17, b));
    lemma_two_elements(0x17, a, 0x17, b);
    assert(ed25519::validity() =~= x509::der(0x30, c));
}

proof fn lemma_key(key: Seq<u8>) -> (field: Seq<u8>)
    requires
        key.len() == 32,
    ensures
        ed25519::spki_header() + key == x509::der(0x30, field),
        holds_key(field, key),
        field.len() == 42,
{
    let all = ed25519::spki_header() + key;
    let field = all.skip(2);
    let alg = algorithm_content();
    let bits = seq![0u8] + key;
    lemma_algorithm();
    assert(field =~= x509::der(0x30, alg) + x509::der(0x03, bits));
    lemma_two_elements(0x30, alg, 0x03, bits);
    assert(all =~= x509::der(0x30, field));
    field
}

/// Whether the fields of the signed part are the expected ones: version 3, serial
/// number 1, the algorithm, issuer, validity, subject and key.
pub open spec fn expected_fields(f: Seq<(u8, Seq<u8>)>, key: Seq<u8>) -> bool {
    &&& f.len() >= 7
    &&& f[0].0 == 0xa0 && inside(f[0].1, 0x02) == Some(seq![2u8])
    &&& f[1] == (0x02u8, seq![1u8])
    &&& f[2].0 == 0x30 && names_ed25519(f[2].1)
    &&& f[3].0 == 0x30 && names_milli_quic(f[3].1)
    &&& f[4].0 == 0x30 && ten_years(f[4].1)
    &&& f[5].0 == 0x30 && names_milli_quic(f[5].1)
    &&& f[6].0 == 0x30 && holds_key(f[6].1, key)
}

/// The fields of the signed part, in front of the extensions.
proof fn lemma_fields(key: Seq<u8>, ext: Seq<u8>)
    requires
        key.len() == 32,
        elements(ext) is Some,
    ensures
        ({
            let tbs = ed25519::tbs_head() + key + ext;
            &&& elements(tbs) matches Some(f)
            &&& f.len() == 7 + elements(ext)->0.len()
            &&& f.skip(7) == elements(ext)->0
            &&& expected_fields(f, key)
        }),
{
    let more = elements(ext)->0;
    let field = lemma_key(key);
    lemma_algorithm();
    lemma_name();
    lemma_validity();
    let alg = algorithm_content();
    let name = ed25519::common_name().skip(2);
    let valid = ed25519::validity().skip(2);
    let version = seq![0x02u8, 0x01, 0x02];
    lemma_inside(0x02, seq![2u8]);
    assert(version =~= x509::der(0x02, seq![2u8]));
    let d0 = x509::der(0xa0, version);
    let d1 = x509::der(0x02, seq![1u8]);
    let d2 = x509::der(0x30, alg);
    let d3 = x509::der(0x30, name);
    let d4 = x509::der(0x30, valid);
    let d6 = x509::der(0x30, field);
    let r6 = d6 + ext;
    let r5 = d3 + r6;
    let r4 = d4 + r5;
    let r3 = d3 + r4;
    let r2 = d2 + r3;
    let r1 = d1 + r2;
    let r0 = d0 + r1;
    assert(ed25519::version_and_serial() =~= d0 + d1);
    lemma_head_regrouped(key, ext);
    assert(ed25519::tbs_head() + key + ext == r0) by {
        let rest = d2 + (d3 + (d4 + (d3 + (d6 + ext))));
        assert((d0 + d1) + rest =~= d0 + (d1 + rest));
    }
    lemma_element_first(0x30, field, ext);
    lemma_element_first(0x30, name, r6);
    lemma_element_first(0x30, valid, r5);
    lemma_element_first(0x30, name, r4);
    lemma_element_first(0x30, alg, r3);
    lemma_element_first(0x02, seq![1u8], r2);
    lemma_element_first(0xa0, version, r1);
    let f = elements(r0)->0;
    assert(f.skip(7) =~= more);
}

proof fn lemma_head_regrouped(key: Seq<u8>, ext: Seq<u8>)
    ensures
        ed25519::tbs_head() + key + ext == ed25519::version_and_serial() + (ed25519::sig_algo() + (
        ed25519::common_name() + (ed25519::validity() + (ed25519::common_name() + ((
        ed25519::spki_header() + key) + ext))))),
{
    let a = ed25519::version_and_serial();
    let b = ed25519::sig_algo();
    let c = ed25519::common_name();
    let d = ed25519::validity();
    let e = ed25519::spki_header();
    lemma_regrouped(a, b, c, d, e, key, ext);
}

proof fn lemma_regrouped(
    a: Seq<u8>,
    b: Seq<u8>,
    c: Seq<u8>,
    d: Seq<u8>,
    e: Seq<u8>,
    key: Seq<u8>,
    ext: Seq<u8>,
)
    ensures
        a + b + c + d + c + e + key + ext == a + (b + (c + (d + (c + ((e + key) + ext))))),
{
    assert(a + b + c + d + c + e + key + ext =~= a + (b + (c + (d + (c + ((e + key) + ext))))));
}

/// Law: what a certificate says. It is one of version 3 with serial number 1,
/// issued by and to `milli-quic` for the ten years from 2025 on, for the given
/// Ed25519 key, with a signature of 64 zero bytes; behind the key follow the
/// extensions and nothing else.
pub proof fn law_certificate_is_read(key: Seq<u8>, ext: Seq<u8>)
    requires
        key.len() == 32,
        ext.len() <= 281,
        elements(ext) is Some,
    ensures
        ({
            &&& certificate_read(ed25519::certificate(key, ext)) matches Some(c)
            &&& expected_fields(c.fields, key)
            &&& c.fields.skip(7) == elements(ext)->0
            &&& names_ed25519(c.algorithm)
            &&& c.signature.len() == 65 && forall|i: int| 0 <= i < 65 ==> #[trigger] c.signature[i] == 0
        }),
{
    let tbs = ed25519::tbs_head() + key + ext;
    let alg = algorithm_content();
    let sig = seq![0u8] + bytes::zeros(64);
    lemma_fields(key, ext);
    lemma_algorithm();
    assert(ed25519::tbs_head().len() == 105);
    lemma_tail();
    let tail = ed25519::unsigned_tail();
    lemma_element_first(0x30, tbs, tail);
    let content = x509::der(0x30, tbs) + tail;
    lemma_der_len(0x30, tbs);
    lemma_inside(0x30, content);
    lemma_certificate_steps(ed25519::certificate(key, ext), content, tbs, alg, sig);
}

proof fn lemma_tail()
    ensures
        elements(ed25519::unsigned_tail()) == Some(
            seq![(0x30u8, algorithm_content()), (0x03u8, seq![0u8] + bytes::zeros(64))],
        ),
        ed25519::unsigned_tail().len() == 74,
{
    let alg = algorithm_content();
    let sig = seq![0u8] + bytes::zeros(64);
    lemma_algorithm();
    assert(ed25519::unsigned_tail() =~= x509::der(0x30, alg) + x509::der(0x03, sig));
    lemma_two_elements(0x30, alg, 0x03, sig);
}

/// The steps of the reader.
proof fn lemma_certificate_steps(
    cert: Seq<u8>,
    content: Seq<u8>,
    tbs: Seq<u8>,
    alg: Seq<u8>,
    sig: Seq<u8>,
)
    requires
        inside(cert, 0x30) == Some(content),
        elements(content) == Some(seq![(0x30u8, tbs)] + seq![(0x30u8, alg), (0x03u8, sig)]),
        elements(tbs) is Some,
    ensures
        certificate_read(cert) == Some(
            Reading { fields: elements(tbs)->0, algorithm: alg, signature: sig },
        ),
{
    let e = elements(content)->0;
    assert(e[0] == (0x30u8, tbs) && e[1] == (0x30u8, alg) && e[2] == (0x03u8, sig));
}

/// Law: a certificate for some names carries them: its only extensions field
/// holds exactly one entry per DNS name and then one per address. Without names
/// it carries no extension.
pub proof fn law_certificate_carries_names(key: Seq<u8>, dns: Seq<&str>, ips: Seq<IpAddr>)
    requires
        key.len() == 32,
    ensures
        ed25519::named_certificate(key, x509::dns_bytes(dns), x509::ip_bytes(ips)) matches Ok(cert)
            ==> ({
            &&& certificate_read(cert) matches Some(c)
            &&& expected_fields(c.fields, key)
            &&& if dns.len() + ips.len() == 0 {
                c.fields.len() == 7
            } else {
                &&& c.fields.len() == 8
                &&& c.fields[7].0 == 0xa3
                &&& alt_names(x509::der(0xa3, c.fields[7].1)) matches Some(e)
                &&& entries_of(e, dns, ips)
            }
        }),
{
    law_names_are_read_back(dns, ips);
    let d = x509::dns_bytes(dns);
    let a = x509::ip_bytes(ips);
    match x509::san_extensions(d, a) {
        Ok(ext) => {
            if dns.len() + ips.len() == 0 {
                assert(elements(ext) == Some(Seq::<(u8, Seq<u8>)>::empty()));
                law_certificate_is_read(key, ext);
                let f = certificate_read(ed25519::certificate(key, ext))->0.fields;
                assert(f.skip(7).len() == f.len() - 7);
            } else {
                let (tag, inner, rest) = element_at(ext)->0;
                let names = x509::general_names(d, a)->Ok_0;
                let one = x509::der(0x30, x509::der(0x30, x509::san_oid() + x509::der(0x04, x509::der(0x30, names))));
                lemma_der_len(0xa3, one);
                assert(ext == x509::der(0xa3, one));
                let none = Seq::<u8>::empty();
                lemma_element_first(0xa3, one, none);
                assert(ext + none =~= ext);
                assert(elements(none) == Some(Seq::<(u8, Seq<u8>)>::empty()));
                assert(elements(ext) == Some(seq![(0xa3u8, one)])) by {
                    assert(seq![(0xa3u8, one)] + Seq::<(u8, Seq<u8>)>::empty() =~= seq![(0xa3u8, one)]);
                }
                law_certificate_is_read(key, ext);
                let f = certificate_read(ed25519::certificate(key, ext))->0.fields;
                assert(f.skip(7).len() == f.len() - 7);
                assert(f.skip(7)[0] == f[7]);
            }
        },
        Err(_) => {},
    }
}

} // verus!
