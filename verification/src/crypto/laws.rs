//! What the certificate helpers promise together.

use vstd::prelude::*;
use vstd::string::StringSliceAdditionalSpecFns;

use crate::bytes;
use crate::connection::keys;
use crate::connection::keys::KeysModel;
use crate::crypto::ed25519;
use crate::crypto::key_schedule;
use crate::crypto::x509;
use crate::crypto::{self, CryptoProvider, Hkdf};
use crate::error::Error;

verus! {

/// A search that finds nothing before `at` and a match there ends there.
proof fn lemma_first_at(haystack: Seq<u8>, needle: Seq<u8>, from: int, at: int)
    requires
        0 <= from <= at,
        needle.len() > 0,
        at + needle.len() <= haystack.len(),
        haystack.subrange(at, at + needle.len()) == needle,
        forall|j: int|
            from <= j < at ==> #[trigger] haystack.subrange(j, j + needle.len()) != needle,
    ensures
        ed25519::first_from(haystack, needle, from) == Some(at),
    decreases at - from,
{
    if from < at {
        assert(haystack.subrange(from, from + needle.len()) != needle);
        lemma_first_at(haystack, needle, from + 1, at);
    }
}

/// A search for the key that meets no other bit string before `at` takes the
/// one there.
proof fn lemma_key_at(cert: Seq<u8>, from: int, at: int)
    requires
        0 <= from <= at,
        at + 35 <= cert.len(),
        cert[at] == 0x03 && cert[at + 1] == 33 && cert[at + 2] == 0,
        forall|j: int| from < j <= at ==> #[trigger] cert[j] != 33,
    ensures
        ed25519::key_from(cert, from) == Ok::<Seq<u8>, Error>(cert.subrange(at + 3, at + 35)),
    decreases at - from,
{
    if from < at {
        assert(cert[from + 1] != 33);
        lemma_key_at(cert, from + 1, at);
    }
}

/// The bytes of the head that the search looks at.
proof fn lemma_head()
    ensures
        ed25519::tbs_head().len() == 105,
        forall|k: int| 0 <= k < 10 ==> #[trigger] ed25519::tbs_head()[k] != 0x06,
        ed25519::tbs_head().subrange(10, 15) == ed25519::ed25519_oid(),
        forall|k: int| 15 <= k <= 102 ==> #[trigger] ed25519::tbs_head()[k] != 33,
        ed25519::tbs_head()[102] == 0x03,
        ed25519::tbs_head()[103] == 33,
        ed25519::tbs_head()[104] == 0,
        ed25519::tbs_head()[0] == 0xa0,
{
    let h = ed25519::tbs_head();
    let a = ed25519::version_and_serial();
    let b = ed25519::sig_algo();
    let c = ed25519::common_name();
    let d = ed25519::validity();
    let f = ed25519::spki_header();
    assert(h.subrange(10, 15) =~= ed25519::ed25519_oid());
    assert forall|k: int| 0 <= k < 10 implies #[trigger] h[k] != 0x06 by {
        if k < 8 {
            assert(h[k] == a[k]);
        } else {
            assert(h[k] == b[k - 8]);
        }
    }
    assert(forall|k: int| 0 <= k < 23 ==> #[trigger] c[k] != 33);
    assert(forall|k: int| 0 <= k < 32 ==> #[trigger] d[k] != 33);
    assert(forall|k: int| 0 <= k < 10 ==> #[trigger] f[k] != 33);
    assert forall|k: int| 15 <= k <= 102 implies #[trigger] h[k] != 33 by {
        if k < 38 {
            assert(h[k] == c[k - 15]);
        } else if k < 70 {
            assert(h[k] == d[k - 38]);
        } else if k < 93 {
            assert(h[k] == c[k - 70]);
        } else {
            assert(h[k] == f[k - 93]);
        }
    }
    assert(h[102] == f[9] && h[103] == f[10] && h[104] == f[11]);
}

/// Law: whatever extensions a certificate carries, the key that is read out of
/// it is the key it was built for.
pub proof fn law_key_survives_certificate(public_key: Seq<u8>, ext: Seq<u8>)
    requires
        public_key.len() == 32,
        ext.len() <= 281,
    ensures
        ed25519::certificate_key(ed25519::certificate(public_key, ext)) == Ok::<Seq<u8>, Error>(
            public_key,
        ),
{
    let head = ed25519::tbs_head();
    let oid = ed25519::ed25519_oid();
    let tbs = head + public_key + ext;
    lemma_head();
    let inner = x509::der(0x30, tbs) + ed25519::unsigned_tail();
    let h1 = x509::der_header(0x30, inner.len());
    let h2 = x509::der_header(0x30, tbs.len());
    let pre = h1 + h2;
    let p = pre.len() as int;
    let cert = ed25519::certificate(public_key, ext);
    let tail = ed25519::unsigned_tail();
    assert(tail.len() == 74);
    assert(cert == h1 + (h2 + tbs + tail));
    assert(cert =~= pre + tbs + tail);
    assert forall|k: int| 0 <= k < 105 implies #[trigger] cert[p + k] == head[k] by {
        assert(cert[p + k] == tbs[k]);
    }
    assert(cert.subrange(p + 10, p + 15) =~= head.subrange(10, 15));
    assert forall|j: int| 0 <= j < p + 10 implies #[trigger] cert.subrange(j, j + oid.len())
        != oid by {
        let w = cert.subrange(j, j + oid.len());
        assert(w[0] == cert[j] && w[1] == cert[j + 1] && w[2] == cert[j + 2]);
        if w == oid {
            assert(cert[j] == 0x06 && cert[j + 1] == 0x03 && cert[j + 2] == 0x2b);
            if j >= p {
                assert(cert[p + (j - p)] == head[j - p]);
            } else {
                assert(cert[p] == head[0]);
                assert(forall|i: int| 0 <= i < p ==> #[trigger] cert[i] == pre[i]);
            }
        }
    }
    lemma_first_at(cert, oid, 0, p + 10);
    assert forall|j: int| p + 15 < j <= p + 102 implies #[trigger] cert[j] != 33 by {
        assert(cert[p + (j - p)] == head[j - p]);
    }
    assert(cert[p + 102] == head[102] && cert[p + 103] == head[103] && cert[p + 104] == head[104]);
    lemma_key_at(cert, p + 15, p + 102);
    assert(cert.subrange(p + 105, p + 137) =~= public_key);
}

/// Law: a certificate without names is byte for byte the plain one.
pub proof fn law_no_names_no_extension(public_key: Seq<u8>)
    ensures
        ed25519::named_certificate(public_key, Seq::empty(), Seq::empty()) == Ok::<Seq<u8>, Error>(
            ed25519::certificate(public_key, Seq::empty()),
        ),
{
}

/// Law: names only add to a certificate.
pub proof fn law_names_enlarge_certificate(
    public_key: Seq<u8>,
    dns: Seq<Seq<u8>>,
    ips: Seq<Seq<u8>>,
)
    requires
        public_key.len() == 32,
        dns.len() > 0 || ips.len() > 0,
    ensures
        ed25519::named_certificate(public_key, dns, ips) matches Ok(c) ==> c.len()
            > ed25519::certificate(public_key, Seq::empty()).len(),
{
    x509::lemma_san_len(dns, ips);
}

/// Law: the signed content binds context and transcript: two contents are the
/// same only for the same context and the same hash.
pub proof fn law_content_binds_transcript(c1: Seq<u8>, h1: Seq<u8>, c2: Seq<u8>, h2: Seq<u8>)
    requires
        h1.len() == 32,
        h2.len() == 32,
        ed25519::cv_content(c1, h1) == ed25519::cv_content(c2, h2),
    ensures
        c1 == c2,
        h1 == h2,
{
    let a = ed25519::cv_content(c1, h1);
    let b = ed25519::cv_content(c2, h2);
    assert(a.len() == 97 + c1.len());
    assert(b.len() == 97 + c2.len());
    assert(c1 =~= a.subrange(64, 64 + c1.len() as int));
    assert(c2 =~= b.subrange(64, 64 + c2.len() as int));
    assert(h1 =~= a.skip(65 + c1.len() as int));
    assert(h2 =~= b.skip(65 + c2.len() as int));
}

/// Law: the nonce of the record or packet with number `n`: the IV, with the number,
/// most significant byte first, added without carry to its last eight bytes.
pub proof fn law_nonce(iv: Seq<u8>, n: u64)
    ensures
        crypto::nonce_for(iv, n).len() == 12,
        forall|i: int| 0 <= i < 4 ==> #[trigger] crypto::nonce_for(iv, n)[i] == iv[i],
        crypto::nonce_for(iv, n)[4] == iv[4] ^ ((n / 0x100_0000_0000_0000) as u8),
        crypto::nonce_for(iv, n)[5] == iv[5] ^ ((n / 0x1_0000_0000_0000 % 256) as u8),
        crypto::nonce_for(iv, n)[6] == iv[6] ^ ((n / 0x100_0000_0000 % 256) as u8),
        crypto::nonce_for(iv, n)[7] == iv[7] ^ ((n / 0x1_0000_0000 % 256) as u8),
        crypto::nonce_for(iv, n)[8] == iv[8] ^ ((n / 0x100_0000 % 256) as u8),
        crypto::nonce_for(iv, n)[9] == iv[9] ^ ((n / 0x1_0000 % 256) as u8),
        crypto::nonce_for(iv, n)[10] == iv[10] ^ ((n / 256 % 256) as u8),
        crypto::nonce_for(iv, n)[11] == iv[11] ^ ((n % 256) as u8),
{
    bytes::lemma_be8(n as nat);
}

/// Law: different numbers have different nonces under the same IV.
pub proof fn law_nonces_differ(iv: Seq<u8>, a: u64, b: u64)
    requires
        crypto::nonce_for(iv, a) == crypto::nonce_for(iv, b),
    ensures
        a == b,
{
    let x = bytes::be_bytes(a as nat, 8);
    let y = bytes::be_bytes(b as nat, 8);
    bytes::lemma_be_bytes_len(a as nat, 8);
    bytes::lemma_be_bytes_len(b as nat, 8);
    assert forall|i: int| 0 <= i < 8 implies #[trigger] x[i] == y[i] by {
        let v = iv[i + 4];
        let p = x[i];
        let q = y[i];
        assert(i + 4 - 4 == i);
        assert(crypto::nonce_for(iv, a)[i + 4] == v ^ p);
        assert(crypto::nonce_for(iv, b)[i + 4] == v ^ q);
        assert(v ^ p == v ^ q ==> p == q) by (bit_vector);
    }
    assert(x =~= y);
    reveal_with_fuel(bytes::pow256, 9);
    bytes::lemma_be_roundtrip(a as nat, 8);
    bytes::lemma_be_roundtrip(b as nat, 8);
}

/// The labels, spelled out.
proof fn lemma_labels()
    ensures
        key_schedule::label_prefix() == "tls13 ".spec_bytes(),
        key_schedule::label_key() == "key".spec_bytes(),
        key_schedule::label_iv() == "iv".spec_bytes(),
        keys::label_quic_ku() == "quic ku".spec_bytes(),
        keys::label_quic_key() == "quic key".spec_bytes(),
        keys::label_quic_iv() == "quic iv".spec_bytes(),
{
    reveal_strlit("tls13 ");
    reveal_strlit("key");
    reveal_strlit("iv");
    reveal_strlit("quic ku");
    reveal_strlit("quic key");
    reveal_strlit("quic iv");
    bytes::lemma_ascii("tls13 ", key_schedule::label_prefix());
    bytes::lemma_ascii("key", key_schedule::label_key());
    bytes::lemma_ascii("iv", key_schedule::label_iv());
    bytes::lemma_ascii("quic ku", keys::label_quic_ku());
    bytes::lemma_ascii("quic key", keys::label_quic_key());
    bytes::lemma_ascii("quic iv", keys::label_quic_iv());
}

/// What HKDF-Expand is given for a label and `len` bytes of output: the length in
/// two bytes, the label behind `tls13 ` with its own length in front, and an empty
/// context.
pub open spec fn label_info(label: &str, len: nat) -> Seq<u8> {
    seq![(len / 256) as u8, (len % 256) as u8, (6 + label.spec_bytes().len()) as u8]
        + "tls13 ".spec_bytes() + label.spec_bytes() + seq![0u8]
}

proof fn lemma_info(label: &str, len: nat)
    requires
        len <= 0xffff,
    ensures
        key_schedule::hkdf_label(label.spec_bytes(), len) == label_info(label, len),
{
    lemma_labels();
    bytes::lemma_be8(len);
    assert(key_schedule::hkdf_label(label.spec_bytes(), len) =~= label_info(label, len));
}

/// Law: the key and the IV of a TLS record protection are what HKDF-Expand gives
/// for the traffic secret and the labels `key` and `iv`.
pub proof fn law_record_keys<H: Hkdf>(secret: Seq<u8>, key_len: nat)
    requires
        key_len <= 0xffff,
    ensures
        ({
            let key = H::expanded(secret, label_info("key", key_len), key_len);
            let iv = H::expanded(secret, label_info("iv", 12), 12);
            let r = key_schedule::record_keys::<H>(secret, key_len);
            &&& r is Ok <==> key is Ok && iv is Ok
            &&& r matches Ok((k, v)) ==> key == Ok::<Seq<u8>, Error>(k) && iv == Ok::<
                Seq<u8>,
                Error,
            >(v)
        }),
{
    lemma_labels();
    lemma_info("key", key_len);
    lemma_info("iv", 12);
}

/// Law: a key update replaces the secret by what HKDF-Expand gives for it and the
/// label `quic ku`, makes key and IV of the new secret with `quic key` and
/// `quic iv`, keeps the header protection, starts to count anew and flips the key
/// phase.
pub proof fn law_key_update<C: CryptoProvider>(m: KeysModel<C>, crypto: C)
    requires
        m.application is Some,
        m.phase <= 1,
        m.secret.len() <= 0xffff,
        crypto.key_size() <= 0xffff,
    ensures
        ({
            let n = m.secret.len();
            let k = crypto.key_size();
            m.updated(crypto) matches Ok(after) ==> ({
                let next = after.secret;
                &&& <C::Hkdf as Hkdf>::expanded(m.secret, label_info("quic ku", n), n) == Ok::<
                    Seq<u8>,
                    Error,
                >(next)
                &&& <C::Hkdf as Hkdf>::expanded(next, label_info("quic key", k), k) matches Ok(key)
                &&& after.application matches Some(a)
                &&& crypto.aead_for(key) == Ok::<C::Aead, Error>(a.aead)
                &&& <C::Hkdf as Hkdf>::expanded(next, label_info("quic iv", 12), 12) == Ok::<
                    Seq<u8>,
                    Error,
                >(a.iv)
                &&& a.header_protection == (m.application->0).header_protection
                &&& after.packets_encrypted == 0
                &&& after.phase <= 1
                &&& after.phase != m.phase
                &&& after.initial == m.initial
                &&& after.handshake == m.handshake
            })
        }),
{
    lemma_labels();
    lemma_info("quic ku", m.secret.len());
    lemma_info("quic key", crypto.key_size());
    lemma_info("quic iv", 12);
}

/// Law: what a CertificateVerify signature of a server covers: 64 spaces, the text
/// `TLS 1.3, server CertificateVerify`, a zero byte, the transcript hash.
pub proof fn law_signed_content(hash: Seq<u8>)
    requires
        hash.len() == 32,
    ensures
        ({
            let c = ed25519::cv_content(ed25519::server_context(), hash);
            &&& c.len() == 130
            &&& forall|i: int| 0 <= i < 64 ==> #[trigger] c[i] == 0x20
            &&& c.subrange(64, 97) == "TLS 1.3, server CertificateVerify".spec_bytes()
            &&& c[97] == 0
            &&& c.skip(98) == hash
        }),
{
    reveal_strlit("TLS 1.3, server CertificateVerify");
    bytes::lemma_ascii("TLS 1.3, server CertificateVerify", ed25519::server_context());
    let c = ed25519::cv_content(ed25519::server_context(), hash);
    assert(c.subrange(64, 97) =~= ed25519::server_context());
    assert(c.skip(98) =~= hash);
}

/// Law: a search finds the first place at which the needle stands, and nothing only
/// if it stands nowhere. Nothing at all is found nowhere.
pub proof fn law_first_occurrence(haystack: Seq<u8>, needle: Seq<u8>, from: int)
    requires
        0 <= from,
    ensures
        needle.len() == 0 ==> ed25519::first_from(haystack, needle, from) is None,
        needle.len() > 0 ==> match ed25519::first_from(haystack, needle, from) {
            Some(i) => {
                &&& from <= i && i + needle.len() <= haystack.len()
                &&& haystack.subrange(i, i + needle.len()) == needle
                &&& forall|j: int|
                    from <= j < i ==> #[trigger] haystack.subrange(j, j + needle.len()) != needle
            },
            None => forall|j: int|
                from <= j && j + needle.len() <= haystack.len()
                    ==> #[trigger] haystack.subrange(j, j + needle.len()) != needle,
        },
    decreases haystack.len() - from,
{
    if needle.len() > 0 && from + needle.len() <= haystack.len() {
        if haystack.subrange(from, from + needle.len()) != needle {
            law_first_occurrence(haystack, needle, from + 1);
        }
    }
}

/// Law: the key read out of a certificate is the 32 bytes of a bit string of 33
/// bytes without unused bits, the first behind the object identifier 1.3.101.112;
/// where there is no such thing none is read.
pub proof fn law_extracted_key(cert: Seq<u8>)
    ensures
        ({
            let oid = seq![0x06u8, 0x03, 0x2b, 0x65, 0x70];
            match ed25519::certificate_key(cert) {
                Ok(key) => {
                    &&& key.len() == 32
                    &&& exists|i: int, j: int|
                        {
                            &&& 0 <= i && i + 5 <= j && j + 35 <= cert.len()
                            &&& #[trigger] cert.subrange(i, i + 5) == oid
                            &&& #[trigger] cert[j] == 3 && cert[j + 1] == 33 && cert[j + 2] == 0
                            &&& key == cert.subrange(j + 3, j + 35)
                        }
                },
                Err(e) => e == Error::Tls,
            }
        }),
{
    let oid = seq![0x06u8, 0x03, 0x2b, 0x65, 0x70];
    assert(ed25519::ed25519_oid() =~= oid);
    law_first_occurrence(cert, oid, 0);
    match ed25519::first_from(cert, oid, 0) {
        Some(i) => {
            lemma_key_from(cert, i + 5);
            if ed25519::certificate_key(cert) is Ok {
                let j = choose|j: int|
                    i + 5 <= j && j + 35 <= cert.len() && #[trigger] cert[j] == 3 && cert[j + 1]
                        == 33 && cert[j + 2] == 0 && ed25519::certificate_key(cert)->Ok_0
                        == cert.subrange(j + 3, j + 35);
                assert(cert.subrange(i, i + 5) == oid && cert[j] == 3);
            }
        },
        None => {},
    }
}

/// Where a key is read.
proof fn lemma_key_from(cert: Seq<u8>, from: int)
    requires
        0 <= from,
    ensures
        match ed25519::key_from(cert, from) {
            Ok(key) => key.len() == 32 && exists|j: int|
                from <= j && j + 35 <= cert.len() && #[trigger] cert[j] == 3 && cert[j + 1] == 33
                    && cert[j + 2] == 0 && key == cert.subrange(j + 3, j + 35),
            Err(e) => e == Error::Tls,
        },
    decreases cert.len() - from,
{
    if from + 35 <= cert.len() && !(cert[from] == 3 && cert[from + 1] == 33) {
        lemma_key_from(cert, from + 1);
    }
}

} // verus!
