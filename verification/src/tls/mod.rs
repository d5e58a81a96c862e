//! The TLS 1.3 handshake engine, as the record layers see it.

use vstd::prelude::*;

use crate::crypto::Level;
use crate::error::Error;

verus! {

/// Which side of a connection this is.
#[derive(Debug, Clone, Copy, PartialEq, Eq, Structural)]
pub enum Role {
    Client,
    Server,
}

/// Traffic secrets that the engine hands out when they become available.
pub struct DerivedKeys {
    pub level: Level,
    pub send_secret: [u8; 48],
    pub recv_secret: [u8; 48],
    pub secret_len: usize,
}

/// A TLS 1.3 handshake engine.
///
/// The spec functions name how each call changes the engine and what it
/// returns. Ordinary Rust implements the trait without them.
pub trait TlsSession: Sized {
    /// What a client is configured with.
    type ClientConfig;

    /// What a server is configured with.
    type ServerConfig;

    /// A fresh client engine for TLS over TCP.
    closed spec fn tcp_client(config: Self::ClientConfig, secret: Seq<u8>, random: Seq<u8>) -> Self {
        arbitrary()
    }

    /// A fresh server engine for TLS over TCP.
    closed spec fn tcp_server(config: Self::ServerConfig, secret: Seq<u8>, random: Seq<u8>) -> Self {
        arbitrary()
    }

    /// The engine after a call of [`read_handshake`](Self::read_handshake), and
    /// what the call returns.
    closed spec fn read_step(self, level: Level, data: Seq<u8>) -> (Self, Result<(), Error>) {
        arbitrary()
    }

    /// The engine after a call of [`write_handshake`](Self::write_handshake)
    /// with room for `room` bytes, and the bytes it wrote.
    closed spec fn write_step(self, room: nat) -> (Self, Result<(Seq<u8>, Level), Error>) {
        arbitrary()
    }

    /// The engine after a call of [`derived_keys`](Self::derived_keys), and what
    /// the call returns.
    closed spec fn keys_step(self) -> (Self, Option<DerivedKeys>) {
        arbitrary()
    }

    /// The engine after a call of
    /// [`set_local_record_size_limit`](Self::set_local_record_size_limit).
    closed spec fn limit_step(self, limit: u16) -> Self {
        arbitrary()
    }

    /// The engine after a call of
    /// [`shrink_post_handshake`](Self::shrink_post_handshake).
    closed spec fn shrink_step(self) -> Self {
        arbitrary()
    }

    /// Whether the handshake is finished.
    closed spec fn complete(self) -> bool {
        arbitrary()
    }

    /// The negotiated application protocol.
    closed spec fn alpn_name(self) -> Option<Seq<u8>> {
        arbitrary()
    }

    /// The record size limit that the peer advertised.
    closed spec fn peer_limit(self) -> Option<u16> {
        arbitrary()
    }

    /// How many more times [`derived_keys`](Self::derived_keys) can return
    /// secrets before more is read.
    closed spec fn keys_pending(self) -> nat {
        arbitrary()
    }

    /// How many more times [`write_handshake`](Self::write_handshake) can return
    /// bytes before more is read.
    closed spec fn output_pending(self) -> nat {
        arbitrary()
    }

    /// A fresh client engine for TLS over TCP.
    fn new_tcp_client(config: Self::ClientConfig, secret: [u8; 32], random: [u8; 32]) -> (r: Self)
        ensures
            r == Self::tcp_client(config, secret@, random@),
    ;

    /// A fresh server engine for TLS over TCP.
    fn new_tcp_server(config: Self::ServerConfig, secret: [u8; 32], random: [u8; 32]) -> (r: Self)
        ensures
            r == Self::tcp_server(config, secret@, random@),
    ;

    /// Feeds handshake bytes that arrived at `level`.
    fn read_handshake(&mut self, level: Level, data: &[u8]) -> (r: Result<(), Error>)
        ensures
            (*final(self), r) == old(self).read_step(level, data@),
    ;

    /// Takes the next piece of handshake output; each piece is handed out once.
    fn write_handshake(&mut self, buf: &mut [u8]) -> (r: Result<(usize, Level), Error>)
        ensures
            final(buf)@.len() == old(buf)@.len(),
            *final(self) == old(self).write_step(old(buf)@.len()).0,
            match old(self).write_step(old(buf)@.len()).1 {
                Ok((out, level)) => out.len() <= old(buf)@.len() && r == Ok::<
                    (usize, Level),
                    Error,
                >((out.len() as usize, level)) && final(buf)@.take(out.len() as int) == out && (
                out.len() > 0 ==> final(self).output_pending() < old(self).output_pending()),
                Err(e) => r == Err::<(usize, Level), Error>(e),
            },
    ;

    /// Takes the next traffic secrets, if some became available; each pair is
    /// handed out once.
    fn derived_keys(&mut self) -> (r: Option<DerivedKeys>)
        ensures
            (*final(self), r) == old(self).keys_step(),
            r matches Some(k) ==> k.secret_len <= 48 && final(self).keys_pending() < old(
                self,
            ).keys_pending(),
    ;

    /// Sets the record size limit to advertise.
    fn set_local_record_size_limit(&mut self, limit: u16)
        ensures
            *final(self) == old(self).limit_step(limit),
    ;

    /// Gives back what only the handshake needs.
    fn shrink_post_handshake(&mut self)
        ensures
            *final(self) == old(self).shrink_step(),
    ;

    /// Whether the handshake is finished.
    fn is_complete(&self) -> (r: bool)
        ensures
            r == self.complete(),
    ;

    /// The negotiated application protocol.
    fn alpn(&self) -> (r: Option<&[u8]>)
        ensures
            match self.alpn_name() {
                Some(name) => r matches Some(s) && s@ == name,
                None => r is None,
            },
    ;

    /// The record size limit that the peer advertised.
    fn peer_record_size_limit(&self) -> (r: Option<u16>)
        ensures
            r == self.peer_limit(),
    ;
}

} // verus!
