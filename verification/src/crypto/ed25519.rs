//! Ed25519 signing and verification for TLS 1.3 CertificateVerify.
//!
//! Provides helpers to:
//! - Build the TLS 1.3 CertificateVerify signed content (RFC 8446 section 4.4.3)
//! - Sign with an Ed25519 private key
//! - Verify an Ed25519 signature using a public key extracted from a DER certificate
//! - Extract an Ed25519 public key from a minimal DER-encoded certificate
//! - Build a minimal self-signed certificate around a public key

use vstd::prelude::*;

use ed25519_dalek::{Signer, Verifier};

use crate::bytes;
use crate::crypto::x509;
use crate::crypto::x509::IpAddr;
use crate::error::Error;

verus! {

/// TLS 1.3 signature algorithm code for Ed25519.
pub const ED25519_ALGORITHM: u16 = 0x0807;

/// What `SigningKey::from_bytes(seed).verifying_key().to_bytes()` returns.
pub uninterp spec fn ed25519_public_key(seed: Seq<u8>) -> Seq<u8>;

/// What `SigningKey::from_bytes(seed).sign(msg).to_bytes()` returns.
pub uninterp spec fn ed25519_signature(seed: Seq<u8>, msg: Seq<u8>) -> Seq<u8>;

/// Whether `public_key` is a valid point and `VerifyingKey::verify` accepts
/// `signature` for `msg` under it.
pub uninterp spec fn ed25519_verifies(
    public_key: Seq<u8>,
    msg: Seq<u8>,
    signature: Seq<u8>,
) -> bool;

/// Calls `ed25519_dalek::SigningKey::verifying_key` on the key of a seed. The
/// result is a function of the seed, which `ed25519_public_key` names.
#[verifier::external_body]
fn dalek_public_key(seed: &[u8; 32]) -> (key: [u8; 32])
    ensures
        key@ == ed25519_public_key(seed@),
{
    ed25519_dalek::SigningKey::from_bytes(seed).verifying_key().to_bytes()
}

/// Calls `ed25519_dalek::SigningKey::sign`. Ed25519 signatures are
/// deterministic, so the result has a name, `ed25519_signature`; and what a key
/// signs is accepted under its own public key.
#[verifier::external_body]
fn dalek_sign(seed: &[u8; 32], msg: &[u8]) -> (signature: [u8; 64])
    ensures
        signature@ == ed25519_signature(seed@, msg@),
        ed25519_verifies(ed25519_public_key(seed@), msg@, signature@),
{
    ed25519_dalek::SigningKey::from_bytes(seed).sign(msg).to_bytes()
}

/// Calls `ed25519_dalek::VerifyingKey::verify`, with `false` also for bytes
/// that `VerifyingKey::from_bytes` does not take for a public key. The result
/// is a function of the arguments, which `ed25519_verifies` names.
#[verifier::external_body]
fn dalek_verify(public_key: &[u8; 32], msg: &[u8], signature: &[u8; 64]) -> (valid: bool)
    ensures
        valid == ed25519_verifies(public_key@, msg@, signature@),
{
    match ed25519_dalek::VerifyingKey::from_bytes(public_key) {
        Ok(key) => key.verify(msg, &ed25519_dalek::Signature::from_bytes(signature)).is_ok(),
        Err(_) => false,
    }
}

/// Context string for server CertificateVerify (RFC 8446 section 4.4.3):
/// `TLS 1.3, server CertificateVerify`.
pub open spec fn server_context() -> Seq<u8> {
    seq![
        0x54u8, 0x4c, 0x53, 0x20, 0x31, 0x2e, 0x33, 0x2c, 0x20, 0x73, 0x65, 0x72, 0x76, 0x65, 0x72,
        0x20, 0x43, 0x65, 0x72, 0x74, 0x69, 0x66, 0x69, 0x63, 0x61, 0x74, 0x65, 0x56, 0x65, 0x72,
        0x69, 0x66, 0x79,
    ]
}

/// What a CertificateVerify signature covers: 64 spaces, the context string, a
/// zero byte and the transcript hash.
pub open spec fn cv_content(context: Seq<u8>, transcript_hash: Seq<u8>) -> Seq<u8> {
    Seq::new(64, |i: int| 0x20u8) + context + seq![0u8] + transcript_hash
}

/// Build the content to be signed for CertificateVerify (RFC 8446 section 4.4.3).
///
/// The signed content is:
///   64 bytes of 0x20 (space) + context_string + 0x00 + transcript_hash
///
/// Returns the content in a fixed-size buffer and the length used.
pub fn build_certificate_verify_content(context: &[u8], transcript_hash: &[u8; 32]) -> (r: (
    [u8; 130],
    usize,
))
    requires
        context@.len() <= 33,
    ensures
        r.1 == 97 + context@.len(),
        r.0@ == cv_content(context@, transcript_hash@) + bytes::zeros((130 - r.1) as nat),
{
    let mut content: [u8; 130] = [0u8; 130];
    let mut i: usize = 0;
    while i < 64
        invariant
            i <= 64,
            forall|j: int| 0 <= j < i ==> content@[j] == 0x20,
            forall|j: int| i <= j < 130 ==> content@[j] == 0,
        decreases 64 - i,
    {
        content[i] = 0x20;
        i = i + 1;
    }
    let ghost s0 = content@;
    let p1 = bytes::put_slice(&mut content, 64, context);
    let ghost s1 = content@;
    let p2 = bytes::put_byte(&mut content, p1, 0);
    let ghost s2 = content@;
    let p3 = bytes::put_slice(&mut content, p2, transcript_hash.as_slice());
    proof {
        assert(s0.take(64) =~= Seq::new(64, |i: int| 0x20u8));
        bytes::lemma_skip_eq(s0, s1, p1 as int, p3 as int);
        bytes::lemma_skip_eq(s1, s2, p2 as int, p3 as int);
        assert(s0.skip(p3 as int) =~= bytes::zeros((130 - p3) as nat));
        assert(content@ =~= content@.take(p3 as int) + content@.skip(p3 as int));
    }
    (content, p3)
}

/// Build the server CertificateVerify signed content.
pub fn build_server_cv_content(transcript_hash: &[u8; 32]) -> (r: ([u8; 130], usize))
    ensures
        r.1 == 130,
        r.0@ == cv_content(server_context(), transcript_hash@),
{
    let context: [u8; 33] = [
        0x54u8, 0x4c, 0x53, 0x20, 0x31, 0x2e, 0x33, 0x2c, 0x20, 0x73, 0x65, 0x72, 0x76, 0x65, 0x72,
        0x20, 0x43, 0x65, 0x72, 0x74, 0x69, 0x66, 0x69, 0x63, 0x61, 0x74, 0x65, 0x56, 0x65, 0x72,
        0x69, 0x66, 0x79,
    ];
    assert(context@ =~= server_context());
    let r = build_certificate_verify_content(context.as_slice(), transcript_hash);
    assert(r.0@ =~= cv_content(server_context(), transcript_hash@));
    r
}

/// Sign the CertificateVerify content using an Ed25519 private key.
///
/// `signing_key_bytes` must be the 32-byte Ed25519 seed (private key).
/// `transcript_hash` is the hash of the transcript up to and including the Certificate message.
///
/// Returns the 64-byte Ed25519 signature. It is accepted under the public key
/// of the seed.
pub fn sign_certificate_verify(signing_key_bytes: &[u8; 32], transcript_hash: &[u8; 32]) -> (r:
    Result<[u8; 64], Error>)
    ensures
        ({
            let content = cv_content(server_context(), transcript_hash@);
            &&& r matches Ok(signature)
            &&& signature@ == ed25519_signature(signing_key_bytes@, content)
            &&& ed25519_verifies(ed25519_public_key(signing_key_bytes@), content, signature@)
        }),
{
    let (content, content_len) = build_server_cv_content(transcript_hash);
    let signed = content.as_slice().split_at(content_len).0;
    assert(signed@ =~= content@);
    Ok(dalek_sign(signing_key_bytes, signed))
}

/// What the verifier of a CertificateVerify message answers once the signature
/// was checked.
pub fn signature_verdict(valid: bool) -> (r: Result<(), Error>)
    ensures
        r == (if valid {
            Ok::<(), Error>(())
        } else {
            Err::<(), Error>(Error::Tls)
        }),
{
    if valid {
        Ok(())
    } else {
        Err(Error::Tls)
    }
}

/// Verify a CertificateVerify signature using an Ed25519 public key.
///
/// `public_key_bytes` must be the 32-byte Ed25519 public key.
/// `signature_bytes` must be the 64-byte Ed25519 signature.
/// `transcript_hash` is the hash of the transcript up to and including the Certificate message.
pub fn verify_certificate_verify(
    public_key_bytes: &[u8; 32],
    signature_bytes: &[u8],
    transcript_hash: &[u8; 32],
) -> (r: Result<(), Error>)
    ensures
        r == (if signature_bytes@.len() == 64 && ed25519_verifies(
            public_key_bytes@,
            cv_content(server_context(), transcript_hash@),
            signature_bytes@,
        ) {
            Ok::<(), Error>(())
        } else {
            Err::<(), Error>(Error::Tls)
        }),
{
    if signature_bytes.len() != 64 {
        return Err(Error::Tls);
    }
    let mut sig_array: [u8; 64] = [0u8; 64];
    bytes::copy_at(&mut sig_array, 0, signature_bytes);
    assert(sig_array@ =~= signature_bytes@);
    let (content, content_len) = build_server_cv_content(transcript_hash);
    let signed = content.as_slice().split_at(content_len).0;
    assert(signed@ =~= content@);
    signature_verdict(dalek_verify(public_key_bytes, signed, &sig_array))
}

/// Derive the Ed25519 public key from a 32-byte private key seed.
pub fn ed25519_public_key_from_seed(seed: &[u8; 32]) -> (key: [u8; 32])
    ensures
        key@ == ed25519_public_key(seed@),
{
    dalek_public_key(seed)
}

/// Where `needle` first occurs in `haystack` at or behind `from`; an empty
/// needle occurs nowhere.
pub open spec fn first_from(haystack: Seq<u8>, needle: Seq<u8>, from: int) -> Option<int>
    decreases haystack.len() - from,
{
    if needle.len() == 0 || from + needle.len() > haystack.len() {
        None
    } else if haystack.subrange(from, from + needle.len()) == needle {
        Some(from)
    } else {
        first_from(haystack, needle, from + 1)
    }
}

/// Find the first occurrence of `needle` in `haystack`.
pub fn find_subsequence(haystack: &[u8], needle: &[u8]) -> (r: Option<usize>)
    ensures
        match first_from(haystack@, needle@, 0) {
            Some(i) => r == Some(i as usize) && 0 <= i && i + needle@.len() <= haystack@.len(),
            None => r is None,
        },
{
    if needle.len() == 0 || needle.len() > haystack.len() {
        return None;
    }
    let last = haystack.len() - needle.len();
    let mut i: usize = 0;
    while i <= last
        invariant
            needle@.len() > 0,
            last + needle@.len() == haystack@.len(),
            i <= last + 1,
            first_from(haystack@, needle@, 0) == first_from(haystack@, needle@, i as int),
        decreases last + 1 - i,
    {
        let total = haystack.len();
        if bytes::bytes_eq(&haystack[i..i + needle.len()], needle) {
            return Some(i);
        }
        i = i + 1;
    }
    None
}

/// The Ed25519 object identifier 1.3.101.112 in DER.
pub open spec fn ed25519_oid() -> Seq<u8> {
    seq![0x06u8, 0x03, 0x2b, 0x65, 0x70]
}

/// The key in the first bit string of 33 bytes whose tag stands at or behind
/// `from`, with room behind it for the key. Its first byte, the count of
/// unused bits, has to be zero.
pub open spec fn key_from(cert: Seq<u8>, from: int) -> Result<Seq<u8>, Error>
    decreases cert.len() - from,
{
    if from + 35 > cert.len() {
        Err(Error::Tls)
    } else if cert[from] == 0x03 && cert[from + 1] == 33 {
        if cert[from + 2] == 0 {
            Ok(cert.subrange(from + 3, from + 35))
        } else {
            Err(Error::Tls)
        }
    } else {
        key_from(cert, from + 1)
    }
}

/// The Ed25519 key of a certificate: the one behind the first Ed25519 object
/// identifier.
pub open spec fn certificate_key(cert: Seq<u8>) -> Result<Seq<u8>, Error> {
    match first_from(cert, ed25519_oid(), 0) {
        Some(i) => key_from(cert, i + 5),
        None => Err(Error::Tls),
    }
}

/// Extract an Ed25519 public key from a DER-encoded certificate.
///
/// This does minimal ASN.1 parsing to find the SubjectPublicKeyInfo
/// containing an Ed25519 key (OID 1.3.101.112 = 06 03 2b 65 70).
///
/// Returns the 32-byte Ed25519 public key if found.
pub fn extract_ed25519_pubkey_from_cert(cert_der: &[u8]) -> (r: Result<[u8; 32], Error>)
    ensures
        match certificate_key(cert_der@) {
            Ok(key) => r matches Ok(k) && k@ == key,
            Err(e) => r == Err::<[u8; 32], Error>(e),
        },
{
    let oid: [u8; 5] = [0x06u8, 0x03, 0x2b, 0x65, 0x70];
    assert(oid@ =~= ed25519_oid());
    let at = match find_subsequence(cert_der, oid.as_slice()) {
        Some(i) => i,
        None => {
            return Err(Error::Tls);
        },
    };
    let total = cert_der.len();
    let mut i: usize = at + 5;
    while total >= 35 && i <= total - 35
        invariant
            total == cert_der@.len(),
            i <= total,
            certificate_key(cert_der@) == key_from(cert_der@, i as int),
        decreases total - i,
    {
        if cert_der[i] == 0x03 && cert_der[i + 1] == 33 {
            if cert_der[i + 2] != 0x00 {
                return Err(Error::Tls);
            }
            let mut pubkey: [u8; 32] = [0u8; 32];
            bytes::copy_at(&mut pubkey, 0, &cert_der[i + 3..i + 35]);
            assert(pubkey@ =~= cert_der@.subrange(i + 3, i + 35));
            return Ok(pubkey);
        }
        i = i + 1;
    }
    Err(Error::Tls)
}

/// Version v3 and serial number 1.
pub open spec fn version_and_serial() -> Seq<u8> {
    seq![0xa0u8, 0x03, 0x02, 0x01, 0x02, 0x02, 0x01, 0x01]
}

/// The Ed25519 algorithm identifier: SEQUENCE { OID 1.3.101.112 }.
pub open spec fn sig_algo() -> Seq<u8> {
    seq![0x30u8, 0x05, 0x06, 0x03, 0x2b, 0x65, 0x70]
}

/// Issuer and subject: SEQUENCE { SET { SEQUENCE { OID 2.5.4.3 (CN), UTF8String
/// "milli-quic" } } }.
pub open spec fn common_name() -> Seq<u8> {
    seq![
        0x30u8, 0x15, 0x31, 0x13, 0x30, 0x11, 0x06, 0x03, 0x55, 0x04, 0x03, 0x0c, 0x0a, 0x6d, 0x69,
        0x6c, 0x6c, 0x69, 0x2d, 0x71, 0x75, 0x69, 0x63,
    ]
}

/// Validity: SEQUENCE { UTCTime "250101000000Z", UTCTime "350101000000Z" }.
pub open spec fn validity() -> Seq<u8> {
    seq![
        0x30u8, 0x1e, 0x17, 0x0d, 0x32, 0x35, 0x30, 0x31, 0x30, 0x31, 0x30, 0x30, 0x30, 0x30, 0x30,
        0x30, 0x5a, 0x17, 0x0d, 0x33, 0x35, 0x30, 0x31, 0x30, 0x31, 0x30, 0x30, 0x30, 0x30, 0x30,
        0x30, 0x5a,
    ]
}

/// The head of SubjectPublicKeyInfo: SEQUENCE { SEQUENCE { Ed25519 OID }, BIT
/// STRING (0x00 + key) }.
pub open spec fn spki_header() -> Seq<u8> {
    seq![0x30u8, 0x2a, 0x30, 0x05, 0x06, 0x03, 0x2b, 0x65, 0x70, 0x03, 0x21, 0x00]
}

/// Everything of the TBSCertificate in front of the key.
pub open spec fn tbs_head() -> Seq<u8> {
    version_and_serial() + sig_algo() + common_name() + validity() + common_name() + spki_header()
}

/// The signature algorithm and a bit string of 64 zero bytes in the place of
/// the signature.
pub open spec fn unsigned_tail() -> Seq<u8> {
    sig_algo() + seq![0x03u8, 0x41, 0x00] + bytes::zeros(64)
}

/// The certificate around `public_key` with the extensions field `ext`.
pub open spec fn certificate(public_key: Seq<u8>, ext: Seq<u8>) -> Seq<u8> {
    x509::der(0x30, x509::der(0x30, tbs_head() + public_key + ext) + unsigned_tail())
}

/// The certificate around `public_key` for the given names.
pub open spec fn named_certificate(
    public_key: Seq<u8>,
    dns: Seq<Seq<u8>>,
    ips: Seq<Seq<u8>>,
) -> Result<Seq<u8>, Error> {
    match x509::san_extensions(dns, ips) {
        Ok(ext) => Ok(certificate(public_key, ext)),
        Err(e) => Err(e),
    }
}

/// Writes what stands in front of the key in the TBSCertificate.
fn put_tbs_head(out: &mut [u8], pos: usize) -> (end: usize)
    requires
        pos + 105 <= old(out)@.len(),
    ensures
        final(out)@.len() == old(out)@.len(),
        end == pos + 105,
        tbs_head().len() == 105,
        final(out)@.take(end as int) == old(out)@.take(pos as int) + tbs_head(),
        final(out)@.skip(end as int) == old(out)@.skip(end as int),
{
    let start: [u8; 8] = [0xa0u8, 0x03, 0x02, 0x01, 0x02, 0x02, 0x01, 0x01];
    let algo: [u8; 7] = [0x30u8, 0x05, 0x06, 0x03, 0x2b, 0x65, 0x70];
    let name: [u8; 23] = [
        0x30u8, 0x15, 0x31, 0x13, 0x30, 0x11, 0x06, 0x03, 0x55, 0x04, 0x03, 0x0c, 0x0a, 0x6d, 0x69,
        0x6c, 0x6c, 0x69, 0x2d, 0x71, 0x75, 0x69, 0x63,
    ];
    let valid: [u8; 32] = [
        0x30u8, 0x1e, 0x17, 0x0d, 0x32, 0x35, 0x30, 0x31, 0x30, 0x31, 0x30, 0x30, 0x30, 0x30, 0x30,
        0x30, 0x5a, 0x17, 0x0d, 0x33, 0x35, 0x30, 0x31, 0x30, 0x31, 0x30, 0x30, 0x30, 0x30, 0x30,
        0x30, 0x5a,
    ];
    let spki: [u8; 12] = [
        0x30u8, 0x2a, 0x30, 0x05, 0x06, 0x03, 0x2b, 0x65, 0x70, 0x03, 0x21, 0x00,
    ];
    assert(start@ =~= version_and_serial());
    assert(algo@ =~= sig_algo());
    assert(name@ =~= common_name());
    assert(valid@ =~= validity());
    assert(spki@ =~= spki_header());
    let ghost base = out@;
    let p1 = bytes::put_slice(out, pos, start.as_slice());
    let ghost s1 = out@;
    let p2 = bytes::put_slice(out, p1, algo.as_slice());
    let ghost s2 = out@;
    let p3 = bytes::put_slice(out, p2, name.as_slice());
    let ghost s3 = out@;
    let p4 = bytes::put_slice(out, p3, valid.as_slice());
    let ghost s4 = out@;
    let p5 = bytes::put_slice(out, p4, name.as_slice());
    let ghost s5 = out@;
    let p6 = bytes::put_slice(out, p5, spki.as_slice());
    proof {
        lemma_head_is_nested(
            base.take(pos as int),
            start@,
            algo@,
            name@,
            valid@,
            name@,
            spki@,
        );
        bytes::lemma_skip_eq(base, s1, p1 as int, p6 as int);
        bytes::lemma_skip_eq(s1, s2, p2 as int, p6 as int);
        bytes::lemma_skip_eq(s2, s3, p3 as int, p6 as int);
        bytes::lemma_skip_eq(s3, s4, p4 as int, p6 as int);
        bytes::lemma_skip_eq(s4, s5, p5 as int, p6 as int);
    }
    p6
}

/// The parts of the head, written one after the other behind `base`.
proof fn lemma_head_is_nested(
    base: Seq<u8>,
    a: Seq<u8>,
    b: Seq<u8>,
    c: Seq<u8>,
    d: Seq<u8>,
    e: Seq<u8>,
    f: Seq<u8>,
)
    ensures
        base + a + b + c + d + e + f == base + (a + b + c + d + e + f),
{
    assert(base + a + b + c + d + e + f =~= base + (a + b + c + d + e + f));
}

/// Writes the signature algorithm and the empty signature.
fn put_unsigned_tail(out: &mut [u8], pos: usize) -> (end: usize)
    requires
        pos + 74 <= old(out)@.len(),
    ensures
        final(out)@.len() == old(out)@.len(),
        end == pos + 74,
        unsigned_tail().len() == 74,
        final(out)@.take(end as int) == old(out)@.take(pos as int) + unsigned_tail(),
        final(out)@.skip(end as int) == old(out)@.skip(end as int),
{
    let head: [u8; 10] = [0x30u8, 0x05, 0x06, 0x03, 0x2b, 0x65, 0x70, 0x03, 0x41, 0x00];
    let ghost base = out@;
    let total = out.len();
    let p1 = bytes::put_slice(out, pos, head.as_slice());
    let ghost s1 = out@;
    bytes::fill_zero(out, p1, p1 + 64);
    proof {
        assert(head@ =~= sig_algo() + seq![0x03u8, 0x41, 0x00]);
        bytes::lemma_skip_eq(base, s1, p1 as int, p1 + 64);
        assert(out@.skip(p1 + 64) =~= s1.skip(p1 + 64));
        assert(out@.take(p1 + 64) =~= s1.take(p1 as int) + bytes::zeros(64));
        assert(base.take(pos as int) + head@ + bytes::zeros(64) =~= base.take(pos as int)
            + unsigned_tail());
    }
    p1 + 64
}

/// Where the parts of a certificate end up when they are written one after the
/// other.
proof fn lemma_certificate_is_nested(
    h1: Seq<u8>,
    h2: Seq<u8>,
    head: Seq<u8>,
    key: Seq<u8>,
    ext: Seq<u8>,
    tail: Seq<u8>,
)
    ensures
        h1 + h2 + head + key + ext + tail == h1 + (h2 + (head + key + ext) + tail),
{
    assert(h1 + h2 + head + key + ext + tail =~= h1 + (h2 + (head + key + ext) + tail));
}

/// Writes the certificate with the extensions field `ext` to the front of
/// `out`.
fn put_certificate(public_key: &[u8; 32], ext: &[u8], out: &mut [u8]) -> (r: Result<usize, Error>)
    requires
        ext@.len() <= 281,
    ensures
        final(out)@.len() == old(out)@.len(),
        ({
            let b = certificate(public_key@, ext@);
            if b.len() <= old(out)@.len() {
                r == Ok::<usize, Error>(b.len() as usize) && final(out)@ == b + old(out)@.skip(
                    b.len() as int,
                )
            } else {
                r == Err::<usize, Error>(Error::BufferTooSmall { needed: b.len() as usize })
                    && final(out)@ == old(out)@
            }
        }),
{
    let ghost base = out@;
    let tbs_len = 137 + ext.len();
    let outer_len = 1 + x509::asn1_len_size(tbs_len) + tbs_len + 74;
    let total = 1 + x509::asn1_len_size(outer_len) + outer_len;
    let ghost h1 = x509::der_header(0x30, outer_len as nat);
    let ghost h2 = x509::der_header(0x30, tbs_len as nat);
    proof {
        assert(tbs_head().len() == 105);
        assert(unsigned_tail().len() == 74);
        assert(certificate(public_key@, ext@) == h1 + (h2 + (tbs_head() + public_key@ + ext@)
            + unsigned_tail()));
    }
    if out.len() < total {
        return Err(Error::BufferTooSmall { needed: total });
    }
    let p1 = x509::put_der_header(out, 0, 0x30, outer_len);
    let ghost s1 = out@;
    let p2 = x509::put_der_header(out, p1, 0x30, tbs_len);
    let ghost s2 = out@;
    let p3 = put_tbs_head(out, p2);
    let ghost s3 = out@;
    let p4 = bytes::put_slice(out, p3, public_key.as_slice());
    let ghost s4 = out@;
    let p5 = bytes::put_slice(out, p4, ext);
    let ghost s5 = out@;
    let p6 = put_unsigned_tail(out, p5);
    proof {
        assert(s1.take(p1 as int) =~= h1);
        lemma_certificate_is_nested(h1, h2, tbs_head(), public_key@, ext@, unsigned_tail());
        bytes::lemma_skip_eq(base, s1, p1 as int, p6 as int);
        bytes::lemma_skip_eq(s1, s2, p2 as int, p6 as int);
        bytes::lemma_skip_eq(s2, s3, p3 as int, p6 as int);
        bytes::lemma_skip_eq(s3, s4, p4 as int, p6 as int);
        bytes::lemma_skip_eq(s4, s5, p5 as int, p6 as int);
        assert(out@ =~= out@.take(p6 as int) + out@.skip(p6 as int));
    }
    Ok(p6)
}

/// Build a minimal self-signed Ed25519 X.509 certificate (CN=milli-quic).
///
/// This creates a minimal X.509v3-like structure sufficient for TLS 1.3
/// CertificateVerify purposes. It contains the SubjectPublicKeyInfo with
/// the Ed25519 OID and the 32-byte public key.
///
/// Equivalent to [`build_ed25519_cert_der_with_san`] with no SAN entries.
pub fn build_ed25519_cert_der(public_key: &[u8; 32], out: &mut [u8]) -> (r: Result<usize, Error>)
    ensures
        final(out)@.len() == old(out)@.len(),
        ({
            let b = certificate(public_key@, Seq::empty());
            if b.len() <= old(out)@.len() {
                r == Ok::<usize, Error>(b.len() as usize) && final(out)@ == b + old(out)@.skip(
                    b.len() as int,
                )
            } else {
                r == Err::<usize, Error>(Error::BufferTooSmall { needed: b.len() as usize })
                    && final(out)@ == old(out)@
            }
        }),
{
    build_ed25519_cert_der_with_san(public_key, &[], &[], out)
}

/// Build a minimal self-signed Ed25519 X.509 certificate (CN=milli-quic) with
/// an optional `subjectAltName` extension.
///
/// `dns_names` and `ip_addrs` populate the SAN so TLS clients can validate the
/// hostname or IP they connected to (modern clients ignore the CN). Both are
/// optional - pass empty slices to omit the extension entirely, which yields a
/// certificate byte-identical to [`build_ed25519_cert_der`]. The signature is a
/// fixed placeholder: this certificate is meant to be pinned/trusted directly,
/// not chain-verified.
pub fn build_ed25519_cert_der_with_san(
    public_key: &[u8; 32],
    dns_names: &[&str],
    ip_addrs: &[IpAddr],
    out: &mut [u8],
) -> (r: Result<usize, Error>)
    ensures
        final(out)@.len() == old(out)@.len(),
        match named_certificate(
            public_key@,
            x509::dns_bytes(dns_names@),
            x509::ip_bytes(ip_addrs@),
        ) {
            Ok(b) => if b.len() <= old(out)@.len() {
                r == Ok::<usize, Error>(b.len() as usize) && final(out)@ == b + old(out)@.skip(
                    b.len() as int,
                )
            } else {
                r == Err::<usize, Error>(Error::BufferTooSmall { needed: b.len() as usize })
                    && final(out)@ == old(out)@
            },
            Err(e) => r == Err::<usize, Error>(e) && final(out)@ == old(out)@,
        },
{
    let mut ext: [u8; 320] = [0u8; 320];
    proof {
        x509::lemma_san_len(x509::dns_bytes(dns_names@), x509::ip_bytes(ip_addrs@));
    }
    match x509::encode_san_extensions(dns_names, ip_addrs, &mut ext) {
        Ok(ext_len) => {
            let field = ext.as_slice().split_at(ext_len).0;
            proof {
                let b = x509::san_extensions(
                    x509::dns_bytes(dns_names@),
                    x509::ip_bytes(ip_addrs@),
                )->Ok_0;
                assert(field@ =~= b);
            }
            put_certificate(public_key, field, out)
        },
        Err(e) => Err(e),
    }
}

} // verus!
