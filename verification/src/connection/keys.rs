//! Sending keys of a connection, and the QUIC key update.

use vstd::prelude::*;

use crate::crypto::key_schedule;
use crate::crypto::{CryptoProvider, DirectionalKeys, KeyModel, Level};
use crate::error::Error;

verus! {

/// How many packets may be sealed with one key before it has to be updated.
pub const CONFIDENTIALITY_LIMIT: u64 = 0x80_0000;

/// State of the QUIC key update.
pub struct KeyUpdateState {
    /// Packets sealed with the current key.
    pub packets_encrypted: u64,
    /// Key phase; its low bit goes into short headers.
    pub phase: u8,
    /// The traffic secret of the current key.
    pub send_secret: Vec<u8>,
}

/// The keys that outgoing packets are protected with.
pub struct ConnectionKeys<C: CryptoProvider> {
    pub initial_send: Option<DirectionalKeys<C::InitialAead, C::InitialHeaderProtection>>,
    pub handshake_send: Option<DirectionalKeys<C::Aead, C::HeaderProtection>>,
    pub application_send: Option<DirectionalKeys<C::Aead, C::HeaderProtection>>,
    pub key_update: KeyUpdateState,
}

/// What [`ConnectionKeys`] hold.
#[verifier::ext_equal]
#[verifier::reject_recursive_types(C)]
pub struct KeysModel<C: CryptoProvider> {
    pub initial: Option<KeyModel<C::InitialAead, C::InitialHeaderProtection>>,
    pub handshake: Option<KeyModel<C::Aead, C::HeaderProtection>>,
    pub application: Option<KeyModel<C::Aead, C::HeaderProtection>>,
    pub packets_encrypted: u64,
    pub phase: u8,
    pub secret: Seq<u8>,
}

/// The label `quic ku`.
pub open spec fn label_quic_ku() -> Seq<u8> {
    seq![113u8, 117, 105, 99, 32, 107, 117]
}

/// The label `quic key`.
pub open spec fn label_quic_key() -> Seq<u8> {
    seq![113u8, 117, 105, 99, 32, 107, 101, 121]
}

/// The label `quic iv`.
pub open spec fn label_quic_iv() -> Seq<u8> {
    seq![113u8, 117, 105, 99, 32, 105, 118]
}

/// Secret, cipher and IV of the next key phase.
pub open spec fn next_generation<C: CryptoProvider>(crypto: C, secret: Seq<u8>) -> Result<
    (Seq<u8>, C::Aead, Seq<u8>),
    Error,
> {
    match key_schedule::expanded_label::<C::Hkdf>(secret, label_quic_ku(), secret.len()) {
        Ok(next) => match key_schedule::expanded_label::<C::Hkdf>(
            next,
            label_quic_key(),
            crypto.key_size(),
        ) {
            Ok(key) => match key_schedule::expanded_label::<C::Hkdf>(next, label_quic_iv(), 12) {
                Ok(iv) => match crypto.aead_for(key) {
                    Ok(aead) => Ok((next, aead, iv)),
                    Err(e) => Err(e),
                },
                Err(e) => Err(e),
            },
            Err(e) => Err(e),
        },
        Err(e) => Err(e),
    }
}

impl<C: CryptoProvider> KeysModel<C> {
    /// Whether packets can be sent at `level`.
    pub open spec fn has(self, level: Level) -> bool {
        match level {
            Level::Initial => self.initial is Some,
            Level::Handshake => self.handshake is Some,
            Level::Application => self.application is Some,
        }
    }

    /// The keys of the two levels that use the negotiated cipher.
    pub open spec fn negotiated(self, level: Level) -> Option<
        KeyModel<C::Aead, C::HeaderProtection>,
    > {
        match level {
            Level::Initial => None,
            Level::Handshake => self.handshake,
            Level::Application => self.application,
        }
    }

    /// Whether the application key must be replaced before it is used again.
    pub open spec fn exhausted(self) -> bool {
        self.packets_encrypted >= CONFIDENTIALITY_LIMIT
    }

    /// One more packet was sealed with the application key.
    pub open spec fn counted(self) -> KeysModel<C> {
        KeysModel { packets_encrypted: (self.packets_encrypted + 1) as u64, ..self }
    }

    /// The next key phase: new cipher, IV and secret; header protection stays.
    pub open spec fn updated(self, crypto: C) -> Result<KeysModel<C>, Error> {
        match self.application {
            Some(k) => match next_generation(crypto, self.secret) {
                Ok((next, aead, iv)) => Ok(
                    KeysModel {
                        application: Some(
                            KeyModel { aead, iv, header_protection: k.header_protection },
                        ),
                        packets_encrypted: 0,
                        phase: if self.phase == 0 {
                            1
                        } else {
                            0
                        },
                        secret: next,
                        ..self
                    },
                ),
                Err(e) => Err(e),
            },
            None => Err(Error::Crypto),
        }
    }
}

impl<C: CryptoProvider> View for ConnectionKeys<C> {
    type V = KeysModel<C>;

    open spec fn view(&self) -> KeysModel<C> {
        KeysModel {
            initial: match self.initial_send {
                Some(k) => Some(k@),
                None => None,
            },
            handshake: match self.handshake_send {
                Some(k) => Some(k@),
                None => None,
            },
            application: match self.application_send {
                Some(k) => Some(k@),
                None => None,
            },
            packets_encrypted: self.key_update.packets_encrypted,
            phase: self.key_update.phase,
            secret: self.key_update.send_secret@,
        }
    }
}

impl<C: CryptoProvider> ConnectionKeys<C> {
    /// No keys at all.
    pub fn new() -> (r: Self)
        ensures
            r@ == (KeysModel::<C> {
                initial: None,
                handshake: None,
                application: None,
                packets_encrypted: 0,
                phase: 0,
                secret: Seq::empty(),
            }),
    {
        ConnectionKeys {
            initial_send: None,
            handshake_send: None,
            application_send: None,
            key_update: KeyUpdateState { packets_encrypted: 0, phase: 0, send_secret: Vec::new() },
        }
    }

    /// Whether packets can be sent at `level`.
    pub fn has_send_keys(&self, level: Level) -> (r: bool)
        ensures
            r == self@.has(level),
    {
        match level {
            Level::Initial => self.initial_send.is_some(),
            Level::Handshake => self.handshake_send.is_some(),
            Level::Application => self.application_send.is_some(),
        }
    }

    /// The keys of the two levels that use the negotiated cipher.
    pub fn send_keys(&self, level: Level) -> (r: Option<
        &DirectionalKeys<C::Aead, C::HeaderProtection>,
    >)
        ensures
            match self@.negotiated(level) {
                Some(k) => r matches Some(d) && d@ == k,
                None => r is None,
            },
    {
        match level {
            Level::Initial => None,
            Level::Handshake => self.handshake_send.as_ref(),
            Level::Application => self.application_send.as_ref(),
        }
    }

    /// The key phase.
    pub fn key_phase(&self) -> (r: u8)
        ensures
            r == self@.phase,
    {
        self.key_update.phase
    }

    /// Whether the application key must be replaced before it is used again.
    pub fn needs_key_update(&self) -> (r: bool)
        ensures
            r == self@.exhausted(),
    {
        self.key_update.packets_encrypted >= CONFIDENTIALITY_LIMIT
    }

    /// Moves the sending side to the next key phase; on failure nothing changes.
    pub fn perform_key_update(&mut self, crypto: &C) -> (r: Result<(), Error>)
        requires
            old(self)@.secret.len() <= 48,
        ensures
            final(self)@.secret.len() == old(self)@.secret.len(),
            match old(self)@.updated(*crypto) {
                Ok(k) => r is Ok && final(self)@ == k,
                Err(e) => r == Err::<(), Error>(e) && final(self)@ == old(self)@,
            },
    {
        if self.application_send.is_none() {
            return Err(Error::Crypto);
        }
        let hkdf = C::Hkdf::default();
        let ku: [u8; 7] = [113u8, 117, 105, 99, 32, 107, 117];
        let key_label: [u8; 8] = [113u8, 117, 105, 99, 32, 107, 101, 121];
        let iv_label: [u8; 7] = [113u8, 117, 105, 99, 32, 105, 118];
        proof {
            assert(ku@ =~= label_quic_ku());
            assert(key_label@ =~= label_quic_key());
            assert(iv_label@ =~= label_quic_iv());
        }
        let secret_len = self.key_update.send_secret.len();
        let mut next = zeroed(secret_len);
        match key_schedule::expand_label(
            &hkdf,
            self.key_update.send_secret.as_slice(),
            ku.as_slice(),
            next.as_mut_slice(),
        ) {
            Ok(()) => {},
            Err(e) => {
                return Err(e);
            },
        }
        let mut key = zeroed(crypto.key_len());
        match key_schedule::expand_label(
            &hkdf,
            next.as_slice(),
            key_label.as_slice(),
            key.as_mut_slice(),
        ) {
            Ok(()) => {},
            Err(e) => {
                return Err(e);
            },
        }
        let mut iv: [u8; 12] = [0u8; 12];
        match key_schedule::expand_label(&hkdf, next.as_slice(), iv_label.as_slice(), &mut iv) {
            Ok(()) => {},
            Err(e) => {
                return Err(e);
            },
        }
        let aead = match crypto.aead(key.as_slice()) {
            Ok(a) => a,
            Err(e) => {
                return Err(e);
            },
        };
        match &mut self.application_send {
            Some(k) => {
                k.aead = aead;
                k.iv = iv;
            },
            None => {},
        }
        self.key_update.packets_encrypted = 0;
        self.key_update.phase = if self.key_update.phase == 0 {
            1
        } else {
            0
        };
        self.key_update.send_secret = next;
        Ok(())
    }
}

/// `n` zero bytes.
fn zeroed(n: usize) -> (v: Vec<u8>)
    ensures
        v@.len() == n,
{
    let mut v: Vec<u8> = Vec::new();
    v.resize(n, 0u8);
    v
}

} // verus!
