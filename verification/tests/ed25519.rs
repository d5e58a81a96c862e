use milli_http::crypto::ed25519::{
    build_certificate_verify_content, build_ed25519_cert_der, build_ed25519_cert_der_with_san,
    build_server_cv_content, ed25519_public_key_from_seed, extract_ed25519_pubkey_from_cert,
    find_subsequence, sign_certificate_verify, signature_verdict, verify_certificate_verify,
};
use milli_http::crypto::x509::{
    asn1_len_size, encode_san_extensions, put_general_name, write_asn1_len, IpAddr,
};
use milli_http::error::Error;

#[test]
fn sign_and_verify_roundtrip() {
    let seed = [0x42u8; 32];
    let transcript_hash = [0xABu8; 32];

    let signature = sign_certificate_verify(&seed, &transcript_hash).unwrap();

    let pubkey = ed25519_public_key_from_seed(&seed);
    verify_certificate_verify(&pubkey, &signature, &transcript_hash).unwrap();
}

#[test]
fn verify_wrong_key_fails() {
    let seed = [0x42u8; 32];
    let wrong_seed = [0x43u8; 32];
    let transcript_hash = [0xABu8; 32];

    let signature = sign_certificate_verify(&seed, &transcript_hash).unwrap();

    let wrong_pubkey = ed25519_public_key_from_seed(&wrong_seed);
    let result = verify_certificate_verify(&wrong_pubkey, &signature, &transcript_hash);
    assert!(result.is_err());
}

#[test]
fn verify_wrong_transcript_fails() {
    let seed = [0x42u8; 32];
    let transcript_hash = [0xABu8; 32];
    let wrong_hash = [0xACu8; 32];

    let signature = sign_certificate_verify(&seed, &transcript_hash).unwrap();

    let pubkey = ed25519_public_key_from_seed(&seed);
    let result = verify_certificate_verify(&pubkey, &signature, &wrong_hash);
    assert!(result.is_err());
}

#[test]
fn build_cert_and_extract_pubkey() {
    let seed = [0x42u8; 32];
    let pubkey = ed25519_public_key_from_seed(&seed);

    let mut cert_buf = [0u8; 512];
    let cert_len = build_ed25519_cert_der(&pubkey, &mut cert_buf).unwrap();
    let cert_der = &cert_buf[..cert_len];

    let extracted = extract_ed25519_pubkey_from_cert(cert_der).unwrap();
    assert_eq!(extracted, pubkey);
}

#[test]
fn build_cert_with_san_embeds_names_and_ip() {
    let seed = [0x42u8; 32];
    let pubkey = ed25519_public_key_from_seed(&seed);
    let v6: [u8; 16] = [
        0xfd, 0x54, 0xa4, 0xae, 0x56, 0xde, 0x00, 0x01, 0, 0, 0, 0, 0, 0, 0x00, 0x01,
    ];

    let mut cert_buf = [0u8; 512];
    let cert_len = build_ed25519_cert_der_with_san(
        &pubkey,
        &["raven.local"],
        &[IpAddr::V6(v6)],
        &mut cert_buf,
    )
    .unwrap();
    let cert_der = &cert_buf[..cert_len];

    // subjectAltName OID (2.5.29.17), the dNSName, and the iPAddress octets
    // are all present.
    assert!(find_subsequence(cert_der, &[0x06, 0x03, 0x55, 0x1d, 0x11]).is_some());
    assert!(find_subsequence(cert_der, b"raven.local").is_some());
    assert!(find_subsequence(cert_der, &v6).is_some());

    // The public key is still extractable past the SAN block.
    assert_eq!(extract_ed25519_pubkey_from_cert(cert_der).unwrap(), pubkey);

    // And the SAN cert is larger than the equivalent no-SAN cert.
    let mut plain = [0u8; 512];
    let plain_len = build_ed25519_cert_der(&pubkey, &mut plain).unwrap();
    assert!(cert_len > plain_len);
}

#[test]
fn extract_pubkey_from_non_ed25519_cert_fails() {
    // Random bytes that don't contain the Ed25519 OID
    let garbage = [0xDE, 0xAD, 0xBE, 0xEF, 0xCA, 0xFE];
    let result = extract_ed25519_pubkey_from_cert(&garbage);
    assert!(result.is_err());
}

#[test]
fn certificate_verify_content_format() {
    let transcript_hash = [0xABu8; 32];
    let (content, len) = build_server_cv_content(&transcript_hash);

    // Should start with 64 spaces
    for i in 0..64 {
        assert_eq!(content[i], 0x20, "byte {i} should be 0x20");
    }

    // Then the context string
    let context_str = b"TLS 1.3, server CertificateVerify";
    assert_eq!(&content[64..64 + context_str.len()], context_str);

    // Then 0x00
    let sep_pos = 64 + context_str.len();
    assert_eq!(content[sep_pos], 0x00);

    // Then the transcript hash
    let hash_start = sep_pos + 1;
    assert_eq!(&content[hash_start..hash_start + 32], &transcript_hash);

    // Total length
    assert_eq!(len, 64 + context_str.len() + 1 + 32);
}

#[test]
fn full_sign_verify_with_cert() {
    // Generate key pair
    let seed = [0x55u8; 32];
    let pubkey = ed25519_public_key_from_seed(&seed);

    // Build a certificate with this public key
    let mut cert_buf = [0u8; 512];
    let cert_len = build_ed25519_cert_der(&pubkey, &mut cert_buf).unwrap();
    let cert_der = &cert_buf[..cert_len];

    // Sign with the private key
    let transcript_hash = [0xCDu8; 32];
    let signature = sign_certificate_verify(&seed, &transcript_hash).unwrap();

    // Extract public key from cert and verify
    let extracted_pubkey = extract_ed25519_pubkey_from_cert(cert_der).unwrap();
    verify_certificate_verify(&extracted_pubkey, &signature, &transcript_hash).unwrap();
}

#[test]
fn public_key_of_a_known_seed() {
    // RFC 8032, section 7.1, test 1.
    let seed = [
        0x9d, 0x61, 0xb1, 0x9d, 0xef, 0xfd, 0x5a, 0x60, 0xba, 0x84, 0x4a, 0xf4, 0x92, 0xec, 0x2c,
        0xc4, 0x44, 0x49, 0xc5, 0x69, 0x7b, 0x32, 0x69, 0x19, 0x70, 0x3b, 0xac, 0x03, 0x1c, 0xae,
        0x7f, 0x60,
    ];
    let key = [
        0xd7, 0x5a, 0x98, 0x01, 0x82, 0xb1, 0x0a, 0xb7, 0xd5, 0x4b, 0xfe, 0xd3, 0xc9, 0x64, 0x07,
        0x3a, 0x0e, 0xe1, 0x72, 0xf3, 0xda, 0xa6, 0x23, 0x25, 0xaf, 0x02, 0x1a, 0x68, 0xf7, 0x07,
        0x51, 0x1a,
    ];
    assert_eq!(ed25519_public_key_from_seed(&seed), key);
}

#[test]
fn signatures_are_deterministic_and_sixty_four_bytes() {
    let seed = [0x42u8; 32];
    let a = sign_certificate_verify(&seed, &[1u8; 32]).unwrap();
    let b = sign_certificate_verify(&seed, &[1u8; 32]).unwrap();
    let c = sign_certificate_verify(&seed, &[2u8; 32]).unwrap();
    assert_eq!(a, b);
    assert_ne!(a, c);
}

#[test]
fn verify_refuses_wrong_lengths_and_bad_keys() {
    let seed = [0x42u8; 32];
    let hash = [0xABu8; 32];
    let key = ed25519_public_key_from_seed(&seed);
    let signature = sign_certificate_verify(&seed, &hash).unwrap();
    assert_eq!(
        verify_certificate_verify(&key, &signature[..63], &hash),
        Err(Error::Tls)
    );
    assert_eq!(verify_certificate_verify(&key, &[], &hash), Err(Error::Tls));
    let mut no_point = [0xffu8; 32];
    no_point[0] = 2;
    assert_eq!(
        verify_certificate_verify(&no_point, &signature, &hash),
        Err(Error::Tls)
    );
    assert_eq!(signature_verdict(true), Ok(()));
    assert_eq!(signature_verdict(false), Err(Error::Tls));
}

#[test]
fn content_with_another_context() {
    let (content, len) = build_certificate_verify_content(b"ab", &[0x11u8; 32]);
    assert_eq!(len, 99);
    assert_eq!(&content[..64], &[0x20u8; 64][..]);
    assert_eq!(&content[64..67], b"ab\0");
    assert_eq!(&content[67..99], &[0x11u8; 32][..]);
    assert_eq!(&content[99..], &[0u8; 31][..]);
}

#[test]
fn plain_certificate_byte_for_byte() {
    let key = [0x5au8; 32];
    let mut out = [0xeeu8; 300];
    let n = build_ed25519_cert_der(&key, &mut out).unwrap();
    assert_eq!(n, 217);
    assert_eq!(&out[..3], &[0x30, 0x81, 0xd6]);
    assert_eq!(&out[3..6], &[0x30, 0x81, 0x89]);
    assert_eq!(&out[6..16], &[0xa0, 0x03, 0x02, 0x01, 0x02, 0x02, 0x01, 0x01, 0x30, 0x05]);
    assert_eq!(&out[111..143], &key[..]);
    assert_eq!(&out[143..153], &[0x30, 0x05, 0x06, 0x03, 0x2b, 0x65, 0x70, 0x03, 0x41, 0x00]);
    assert_eq!(&out[153..217], &[0u8; 64][..]);
    assert_eq!(out[217], 0xee);

    let mut again = [0xeeu8; 300];
    let m = build_ed25519_cert_der_with_san(&key, &[], &[], &mut again).unwrap();
    assert_eq!(m, n);
    assert_eq!(out, again);

    let mut small = [0u8; 216];
    assert_eq!(
        build_ed25519_cert_der(&key, &mut small),
        Err(Error::BufferTooSmall { needed: 217 })
    );
}

#[test]
fn extension_byte_for_byte() {
    let mut out = [0u8; 64];
    let n = encode_san_extensions(&["a.b"], &[IpAddr::V4([10, 0, 0, 1])], &mut out).unwrap();
    let expected = [
        0xa3, 0x18, 0x30, 0x16, 0x30, 0x14, 0x06, 0x03, 0x55, 0x1d, 0x11, 0x04, 0x0d, 0x30, 0x0b,
        0x82, 0x03, b'a', b'.', b'b', 0x87, 0x04, 10, 0, 0, 1,
    ];
    assert_eq!(&out[..n], &expected[..]);
    assert_eq!(encode_san_extensions(&[], &[], &mut out), Ok(0));
    let mut small = [0u8; 25];
    assert_eq!(
        encode_san_extensions(&["a.b"], &[IpAddr::V4([10, 0, 0, 1])], &mut small),
        Err(Error::BufferTooSmall { needed: 26 })
    );
}

#[test]
fn names_that_are_too_long_or_too_many() {
    let long = "x".repeat(256);
    let mut out = [0u8; 512];
    assert_eq!(encode_san_extensions(&[&long], &[], &mut out), Err(Error::Tls));
    let wide = "y".repeat(200);
    assert_eq!(
        encode_san_extensions(&[&wide, &wide], &[], &mut out),
        Err(Error::BufferTooSmall { needed: 406 })
    );
    let key = [1u8; 32];
    assert_eq!(
        build_ed25519_cert_der_with_san(&key, &[&long], &[], &mut out),
        Err(Error::Tls)
    );
    let n = build_ed25519_cert_der_with_san(&key, &[&wide], &[IpAddr::V6([7; 16])], &mut out);
    assert_eq!(extract_ed25519_pubkey_from_cert(&out[..n.unwrap()]), Ok(key));
}

#[test]
fn der_lengths_of_all_sizes() {
    for (len, bytes) in [
        (0usize, &[0x00u8][..]),
        (0x7f, &[0x7f]),
        (0x80, &[0x81, 0x80]),
        (0xff, &[0x81, 0xff]),
        (0x100, &[0x82, 0x01, 0x00]),
        (0xffff, &[0x82, 0xff, 0xff]),
    ] {
        let mut out = [0u8; 4];
        assert_eq!(asn1_len_size(len), bytes.len());
        assert_eq!(write_asn1_len(len, &mut out), Ok(bytes.len()));
        assert_eq!(&out[..bytes.len()], bytes);
        let mut none = [0u8; 0];
        assert_eq!(
            write_asn1_len(len, &mut none),
            Err(Error::BufferTooSmall { needed: bytes.len() })
        );
    }
}

#[test]
fn extraction_refuses_odd_certificates() {
    let key = [0x5au8; 32];
    let mut out = [0u8; 300];
    let n = build_ed25519_cert_der(&key, &mut out).unwrap();
    assert_eq!(find_subsequence(&out[..n], &[0x06, 0x03, 0x2b, 0x65, 0x70]), Some(16));
    assert_eq!(find_subsequence(&out[..n], &[]), None);
    let mut unused_bits = out;
    unused_bits[110] = 1;
    assert_eq!(extract_ed25519_pubkey_from_cert(&unused_bits[..n]), Err(Error::Tls));
    assert_eq!(extract_ed25519_pubkey_from_cert(&out[..120]), Err(Error::Tls));
    assert_eq!(extract_ed25519_pubkey_from_cert(&[]), Err(Error::Tls));
}

#[test]
fn long_names_have_a_long_length() {
    let mut names = [0u8; 256];
    let mut n = 0usize;
    let name = [b'a'; 200];
    assert_eq!(put_general_name(&mut names, &mut n, 0x82, &name), Ok(()));
    assert_eq!(n, 203);
    assert_eq!(&names[..3], &[0x82, 0x81, 0xc8]);
    assert_eq!(&names[3..203], &name[..]);
    assert_eq!(
        put_general_name(&mut names, &mut n, 0x82, &[b'b'; 127]),
        Err(Error::BufferTooSmall { needed: 332 })
    );
    assert_eq!(n, 203);
    assert_eq!(put_general_name(&mut names, &mut n, 0x87, &[1, 2, 3, 4]), Ok(()));
    assert_eq!(&names[203..209], &[0x87, 4, 1, 2, 3, 4]);
    assert_eq!(put_general_name(&mut names, &mut n, 0x82, &[0; 256]), Err(Error::Tls));
}
