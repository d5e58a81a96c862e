//! The parts of the TLS 1.3 and QUIC key schedules that protect records and
//! packets.

use vstd::prelude::*;

use crate::bytes;
use crate::crypto::Hkdf;
use crate::error::Error;

verus! {

/// The prefix of every label: `tls13 `.
pub open spec fn label_prefix() -> Seq<u8> {
    seq![116u8, 108, 115, 49, 51, 32]
}

/// The HkdfLabel structure with an empty context: output length, label, context.
pub open spec fn hkdf_label(label: Seq<u8>, len: nat) -> Seq<u8> {
    bytes::be_bytes(len, 2) + seq![(6 + label.len()) as u8] + label_prefix() + label + seq![0u8]
}

/// HKDF-Expand-Label with an empty context.
pub open spec fn expanded_label<H: Hkdf>(secret: Seq<u8>, label: Seq<u8>, len: nat) -> Result<
    Seq<u8>,
    Error,
> {
    H::expanded(secret, hkdf_label(label, len), len)
}

/// HKDF-Expand-Label with an empty context: fills `out`.
pub fn expand_label<H: Hkdf>(hkdf: &H, secret: &[u8], label: &[u8], out: &mut [u8]) -> (r: Result<
    (),
    Error,
>)
    requires
        label@.len() <= 32,
        old(out)@.len() <= 255,
    ensures
        final(out)@.len() == old(out)@.len(),
        match expanded_label::<H>(secret@, label@, old(out)@.len()) {
            Ok(okm) => r is Ok && final(out)@ == okm,
            Err(e) => r == Err::<(), Error>(e),
        },
{
    let prefix: [u8; 6] = [116u8, 108, 115, 49, 51, 32];
    let len = out.len();
    let mut info: Vec<u8> = Vec::new();
    info.push(0u8);
    info.push(len as u8);
    info.push(6u8 + label.len() as u8);
    info.extend_from_slice(prefix.as_slice());
    info.extend_from_slice(label);
    info.push(0u8);
    proof {
        reveal_with_fuel(bytes::be_bytes, 3);
        assert(prefix@ =~= label_prefix());
        assert(bytes::be_bytes(len as nat, 2) =~= seq![0u8, len as u8]);
        assert(info@ =~= hkdf_label(label@, len as nat));
    }
    hkdf.expand(secret, info.as_slice(), out)
}

/// The label `key`.
pub open spec fn label_key() -> Seq<u8> {
    seq![107u8, 101, 121]
}

/// The label `iv`.
pub open spec fn label_iv() -> Seq<u8> {
    seq![105u8, 118]
}

/// Derives the key (filling `key`) and the IV of a TLS 1.3 traffic secret.
pub fn derive_tls_record_keys<H: Hkdf>(
    hkdf: &H,
    secret: &[u8],
    key: &mut [u8],
    iv: &mut [u8; 12],
) -> (r: Result<(), Error>)
    requires
        old(key)@.len() <= 255,
    ensures
        final(key)@.len() == old(key)@.len(),
        match record_keys::<H>(secret@, old(key)@.len()) {
            Ok((k, v)) => r is Ok && final(key)@ == k && final(iv)@ == v,
            Err(e) => r == Err::<(), Error>(e),
        },
{
    let key_label: [u8; 3] = [107u8, 101, 121];
    let iv_label: [u8; 2] = [105u8, 118];
    proof {
        assert(key_label@ =~= label_key());
        assert(iv_label@ =~= label_iv());
    }
    match expand_label(hkdf, secret, key_label.as_slice(), key) {
        Ok(()) => {},
        Err(e) => {
            return Err(e);
        },
    }
    let mut v: [u8; 12] = [0u8; 12];
    match expand_label(hkdf, secret, iv_label.as_slice(), &mut v) {
        Ok(()) => {},
        Err(e) => {
            return Err(e);
        },
    }
    *iv = v;
    Ok(())
}

/// The key and the IV of a TLS 1.3 traffic secret.
pub open spec fn record_keys<H: Hkdf>(secret: Seq<u8>, key_len: nat) -> Result<
    (Seq<u8>, Seq<u8>),
    Error,
> {
    match expanded_label::<H>(secret, label_key(), key_len) {
        Ok(key) => match expanded_label::<H>(secret, label_iv(), 12) {
            Ok(iv) => Ok((key, iv)),
            Err(e) => Err(e),
        },
        Err(e) => Err(e),
    }
}

} // verus!
