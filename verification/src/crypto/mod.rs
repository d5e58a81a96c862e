//! Cryptography behind traits.
//!
//! AEAD, header protection and HKDF are supplied by the user of the library
//! through [`CryptoProvider`]. The spec functions of these traits name what the
//! methods compute: the same key, nonce and input always give the same output.
//! They have a default so that ordinary Rust can implement the traits without
//! them; nothing is known of the default, so a verified implementation gives its
//! own.

use vstd::prelude::*;

use crate::bytes;
use crate::error::Error;
use crate::tls::TlsSession;

pub mod ed25519;
pub mod key_schedule;
pub mod laws;
pub mod reading;
pub mod x509;

verus! {

/// The encryption levels of QUIC and of a TLS 1.3 handshake.
#[derive(Debug, Clone, Copy, PartialEq, Eq, Structural)]
pub enum Level {
    Initial,
    Handshake,
    Application,
}

/// The position of a level in per-level arrays.
pub open spec fn level_number(level: Level) -> int {
    match level {
        Level::Initial => 0,
        Level::Handshake => 1,
        Level::Application => 2,
    }
}

/// The position of a level in per-level arrays.
pub fn level_index(level: Level) -> (i: usize)
    ensures
        i == level_number(level),
        i < 3,
{
    match level {
        Level::Initial => 0,
        Level::Handshake => 1,
        Level::Application => 2,
    }
}

/// Length of the authentication tag that every supported AEAD appends.
pub const TAG_LEN: usize = 16;

/// An AEAD cipher with its key.
pub trait Aead {
    /// What sealing `plaintext` gives when the output may take `room` bytes.
    closed spec fn sealed(
        &self,
        nonce: Seq<u8>,
        aad: Seq<u8>,
        plaintext: Seq<u8>,
        room: nat,
    ) -> Result<Seq<u8>, Error> {
        arbitrary()
    }

    /// What opening `ciphertext` (tag included) gives.
    closed spec fn opened(&self, nonce: Seq<u8>, aad: Seq<u8>, ciphertext: Seq<u8>) -> Result<
        Seq<u8>,
        Error,
    > {
        arbitrary()
    }

    /// Replaces the first `payload_len` bytes of `buf` by their ciphertext and
    /// tag, and returns the length of both together.
    fn seal_in_place(
        &self,
        nonce: &[u8; 12],
        aad: &[u8],
        buf: &mut [u8],
        payload_len: usize,
    ) -> (r: Result<usize, Error>)
        requires
            payload_len <= old(buf)@.len(),
        ensures
            final(buf)@.len() == old(buf)@.len(),
            match self.sealed(
                nonce@,
                aad@,
                old(buf)@.take(payload_len as int),
                old(buf)@.len(),
            ) {
                Ok(ct) => ct.len() <= old(buf)@.len() && r == Ok::<usize, Error>(ct.len() as usize)
                    && final(buf)@.take(ct.len() as int) == ct,
                Err(e) => r == Err::<usize, Error>(e),
            },
    ;

    /// Replaces the first `ciphertext_len` bytes of `buf` by the plaintext, and
    /// returns its length.
    fn open_in_place(
        &self,
        nonce: &[u8; 12],
        aad: &[u8],
        buf: &mut [u8],
        ciphertext_len: usize,
    ) -> (r: Result<usize, Error>)
        requires
            ciphertext_len <= old(buf)@.len(),
        ensures
            final(buf)@.len() == old(buf)@.len(),
            match self.opened(nonce@, aad@, old(buf)@.take(ciphertext_len as int)) {
                Ok(pt) => pt.len() <= ciphertext_len && r == Ok::<usize, Error>(pt.len() as usize)
                    && final(buf)@.take(pt.len() as int) == pt,
                Err(e) => r == Err::<usize, Error>(e),
            },
    ;
}

/// QUIC header protection with its key.
pub trait HeaderProtection {
    /// The mask for a sample of ciphertext.
    closed spec fn mask_of(&self, sample: Seq<u8>) -> Seq<u8> {
        arbitrary()
    }

    /// The mask for a sample of ciphertext.
    fn mask(&self, sample: &[u8; 16]) -> (r: [u8; 5])
        ensures
            r@ == self.mask_of(sample@),
    ;
}

/// HKDF with the hash of a cipher suite.
pub trait Hkdf {
    /// What HKDF-Expand gives for `len` bytes of output.
    closed spec fn expanded(prk: Seq<u8>, info: Seq<u8>, len: nat) -> Result<Seq<u8>, Error> {
        arbitrary()
    }

    /// HKDF-Expand: fills `okm`.
    fn expand(&self, prk: &[u8], info: &[u8], okm: &mut [u8]) -> (r: Result<(), Error>)
        ensures
            final(okm)@.len() == old(okm)@.len(),
            match Self::expanded(prk@, info@, old(okm)@.len()) {
                Ok(out) => r is Ok && final(okm)@ == out,
                Err(e) => r == Err::<(), Error>(e),
            },
    ;
}

/// The cryptography and the handshake engine that a connection runs on.
pub trait CryptoProvider: Sized {
    type Aead: Aead;

    type HeaderProtection: HeaderProtection;

    type Hkdf: Hkdf + Default;

    /// The AEAD of Initial packets, which is fixed whatever is negotiated.
    type InitialAead: Aead;

    /// The header protection of Initial packets.
    type InitialHeaderProtection: HeaderProtection;

    /// The TLS 1.3 handshake engine.
    type Tls: TlsSession;

    /// The key length of [`Self::Aead`].
    closed spec fn key_size(&self) -> nat {
        arbitrary()
    }

    /// The cipher for a key.
    closed spec fn aead_for(&self, key: Seq<u8>) -> Result<Self::Aead, Error> {
        arbitrary()
    }

    /// The key length of [`Self::Aead`]; no cipher needs more than 32 bytes.
    fn key_len(&self) -> (n: usize)
        ensures
            n == self.key_size(),
            n <= 32,
    ;

    /// The cipher for a key.
    fn aead(&self, key: &[u8]) -> (r: Result<Self::Aead, Error>)
        ensures
            r == self.aead_for(key@),
    ;
}

/// The nonce of the record or packet with number `n`: the number, big-endian in
/// the last eight bytes, is added without carry to the `iv`.
pub open spec fn nonce_for(iv: Seq<u8>, n: u64) -> Seq<u8> {
    Seq::new(
        12,
        |i: int|
            if i < 4 {
                iv[i]
            } else {
                iv[i] ^ bytes::be_bytes(n as nat, 8)[i - 4]
            },
    )
}

/// The nonce of the record or packet with number `n`.
pub fn build_nonce(iv: &[u8; 12], n: u64) -> (nonce: [u8; 12])
    ensures
        nonce@ == nonce_for(iv@, n),
{
    let mut nonce = [0u8; 12];
    let num = bytes::be8(n);
    let mut i: usize = 0;
    while i < 12
        invariant
            i <= 12,
            num@ == bytes::be_bytes(n as nat, 8),
            num@.len() == 8,
            forall|j: int| 0 <= j < i ==> nonce@[j] == nonce_for(iv@, n)[j],
        decreases 12 - i,
    {
        if i < 4 {
            nonce[i] = iv[i];
        } else {
            nonce[i] = iv[i] ^ num[i - 4];
        }
        i = i + 1;
    }
    assert(nonce@ =~= nonce_for(iv@, n));
    nonce
}

/// The keys for one direction at one level.
pub struct DirectionalKeys<A: Aead, HP: HeaderProtection> {
    pub aead: A,
    pub iv: [u8; 12],
    pub header_protection: HP,
}

/// What [`DirectionalKeys`] hold.
#[verifier::ext_equal]
#[verifier::reject_recursive_types(A)]
#[verifier::reject_recursive_types(HP)]
pub struct KeyModel<A, HP> {
    pub aead: A,
    pub iv: Seq<u8>,
    pub header_protection: HP,
}

impl<A: Aead, HP: HeaderProtection> View for DirectionalKeys<A, HP> {
    type V = KeyModel<A, HP>;

    open spec fn view(&self) -> KeyModel<A, HP> {
        KeyModel { aead: self.aead, iv: self.iv@, header_protection: self.header_protection }
    }
}

impl<A: Aead, HP: HeaderProtection> DirectionalKeys<A, HP> {
    /// The nonce of the packet with number `pn`.
    pub fn nonce(&self, pn: u64) -> (nonce: [u8; 12])
        ensures
            nonce@ == nonce_for(self@.iv, pn),
    {
        build_nonce(&self.iv, pn)
    }
}

} // verus!
