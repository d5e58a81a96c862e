//! TCP TLS record layer (RFC 8446).
//!
//! Standalone middleware between a TCP socket and an HTTP connection.

use vstd::prelude::*;

use crate::buf::Buf;
use crate::crypto::CryptoProvider;
use crate::error::Error;
use crate::tls::TlsSession;

use connection::{ConnState, TlsConnection, TlsModel};
use io::TlsIo;

pub mod connection;
pub mod io;
pub mod laws;
pub mod reading;
pub mod record;
pub mod recv;
pub mod send;
pub mod split;
pub mod writing;

verus! {

/// A set of three `'static mut` slices backing one TLS connection's I/O
/// buffers (net recv/send + app send; decrypted plaintext lives in place in
/// `net_recv`). Lets a memory-tight target keep the large I/O buffers in `.bss`
/// instead of the heap.
///
/// Each slice must be at least `BUF` bytes when wrapped (see
/// [`TlsParts::new_server_in`]).
pub struct TlsBufKit {
    pub net_recv: &'static mut [u8],
    pub net_send: &'static mut [u8],
    pub app_send: &'static mut [u8],
}

/// Pre-handshake TLS state with shared buffers.
///
/// Drives the TLS handshake before protocol selection (ALPN). Once the handshake
/// completes, `alpn()` tells which HTTP version to construct.
pub struct TlsParts<C: CryptoProvider, const BUF: usize> {
    pub tls: TlsConnection<C>,
    pub net_recv: Buf<BUF>,
    pub net_send: Buf<BUF>,
    pub app_send: Buf<BUF>,
}

impl<C: CryptoProvider, const BUF: usize> TlsParts<C, BUF> {
    /// The buffers are well-formed; only received bytes are ever hidden.
    pub open spec fn wf(&self) -> bool {
        &&& self.net_recv.wf()
        &&& io::plain_buf(&self.net_send)
        &&& io::plain_buf(&self.app_send)
    }

    /// Whether all three buffers are backed by caller-provided slices.
    pub open spec fn all_static(&self) -> bool {
        self.net_recv.is_static() && self.net_send.is_static() && self.app_send.is_static()
    }

    /// Create new server-side TLS parts with heap-backed buffers.
    pub fn new_server(
        provider: C,
        config: <C::Tls as TlsSession>::ServerConfig,
        secret: [u8; 32],
        random: [u8; 32],
    ) -> (r: Self)
        ensures
            r.wf(),
            r.tls@ == TlsModel::<C>::fresh(provider, C::Tls::tcp_server(config, secret@, random@)),
            r.net_recv@.len() == 0,
            r.net_recv.hidden_tail().len() == 0,
            r.net_send@.len() == 0,
            r.app_send@.len() == 0,
            !r.net_recv.is_static(),
            !r.net_send.is_static(),
            !r.app_send.is_static(),
    {
        TlsParts {
            tls: TlsConnection::new_server(provider, config, secret, random),
            net_recv: Buf::new(),
            net_send: Buf::new(),
            app_send: Buf::new(),
        }
    }

    /// Create new server-side TLS parts backed by a caller-provided
    /// [`TlsBufKit`] (`'static` slices) instead of the heap. The I/O buffers
    /// never touch the allocator for this connection's lifetime.
    pub fn new_server_in(
        provider: C,
        config: <C::Tls as TlsSession>::ServerConfig,
        secret: [u8; 32],
        random: [u8; 32],
        kit: TlsBufKit,
    ) -> (r: Self)
        requires
            kit.net_recv@.len() >= BUF,
            kit.net_send@.len() >= BUF,
            kit.app_send@.len() >= BUF,
        ensures
            r.wf(),
            r.tls@ == TlsModel::<C>::fresh(provider, C::Tls::tcp_server(config, secret@, random@)),
            r.net_recv@.len() == 0,
            r.net_recv.hidden_tail().len() == 0,
            r.net_send@.len() == 0,
            r.app_send@.len() == 0,
            r.all_static(),
            r.net_recv.static_mem() == old(kit.net_recv)@,
            r.net_send.static_mem() == old(kit.net_send)@,
            r.app_send.static_mem() == old(kit.app_send)@,
    {
        TlsParts {
            tls: TlsConnection::new_server(provider, config, secret, random),
            net_recv: Buf::from_static(kit.net_recv),
            net_send: Buf::from_static(kit.net_send),
            app_send: Buf::from_static(kit.app_send),
        }
    }

    /// Reclaim the `'static` slices backing this connection, if all three are
    /// static-backed. Returns `None` (recovering nothing) if any buffer is
    /// heap-backed; the caller should then just drop the parts. After this call
    /// the parts' buffers are empty heap-backed ones.
    pub fn reclaim_buffers(&mut self) -> (r: Option<TlsBufKit>)
        requires
            old(self).wf(),
        ensures
            final(self).wf(),
            final(self).tls == old(self).tls,
            r is Some <==> old(self).all_static(),
            r matches Some(kit) ==> kit.net_recv@ == old(self).net_recv.static_mem()
                && kit.net_send@ == old(self).net_send.static_mem() && kit.app_send@ == old(
                self).app_send.static_mem(),
            !final(self).net_recv.is_static(),
            !final(self).net_send.is_static(),
            !final(self).app_send.is_static(),
            final(self).net_recv@.len() == 0,
            final(self).net_send@.len() == 0,
            final(self).app_send@.len() == 0,
            final(self).net_recv.hidden_tail().len() == 0,
            final(self).net_send.hidden_tail().len() == 0,
            final(self).app_send.hidden_tail().len() == 0,
    {
        let net_recv = self.net_recv.take_static();
        let net_send = self.net_send.take_static();
        let app_send = self.app_send.take_static();
        self.net_recv.clear();
        self.net_send.clear();
        self.app_send.clear();
        match (net_recv, net_send, app_send) {
            (Some(net_recv), Some(net_send), Some(app_send)) => Some(
                TlsBufKit { net_recv, net_send, app_send },
            ),
            _ => None,
        }
    }

    /// Feed encrypted TCP data, driving the TLS handshake forward.
    pub fn feed_data(&mut self, data: &[u8]) -> (r: Result<(), Error>)
        requires
            old(self).wf(),
            old(self).net_recv.model().size() + data@.len() <= usize::MAX,
            recv::recv_numbers_left(old(self).tls@, BUF as int),
        ensures
            final(self).wf(),
            final(self).net_send == old(self).net_send,
            final(self).app_send == old(self).app_send,
            ({
                let want = recv::fed(
                    old(self).tls@,
                    old(self).net_recv.model(),
                    data@,
                    BUF as int,
                );
                &&& final(self).tls@ == want.conn
                &&& r == want.result
                &&& final(self).net_recv@ == old(self).net_recv@ + want.plain
                &&& final(self).net_recv.hidden_tail().len() == want.rest.len()
                &&& want.intact ==> final(self).net_recv.hidden_tail() == want.rest
            }),
    {
        let mut tls_io: TlsIo<'_, BUF> = TlsIo {
            recv_buf: &mut self.net_recv,
            send_buf: &mut self.net_send,
            app_send_buf: &mut self.app_send,
        };
        self.tls.feed_data(&mut tls_io, data)
    }

    /// Pull outgoing encrypted TLS data (handshake messages).
    pub fn poll_output<'a>(&mut self, buf: &'a mut [u8]) -> (r: Option<&'a [u8]>)
        requires
            old(self).wf(),
            BUF + 20000 <= usize::MAX,
            send::send_numbers_left(old(self).tls@, BUF as int),
        ensures
            final(self).wf(),
            final(self).net_recv == old(self).net_recv,
            ({
                let o = send::output(
                    old(self).tls@,
                    old(self).app_send@,
                    old(self).net_send@,
                    old(buf)@.len() as int,
                    BUF as int,
                );
                &&& final(self).tls@ == o.conn
                &&& final(self).app_send@ == o.app
                &&& final(self).net_send@ == o.send
                &&& match o.bytes {
                    Some(b) => r matches Some(s) && s@ == b,
                    None => r is None,
                }
            }),
    {
        let mut tls_io: TlsIo<'_, BUF> = TlsIo {
            recv_buf: &mut self.net_recv,
            send_buf: &mut self.net_send,
            app_send_buf: &mut self.app_send,
        };
        self.tls.poll_output(&mut tls_io, buf)
    }

    /// Whether the TLS handshake is complete.
    pub fn is_active(&self) -> (r: bool)
        ensures
            r == (self.tls.state == ConnState::Active),
    {
        self.tls.is_active()
    }

    /// Whether the connection is closed.
    pub fn is_closed(&self) -> (r: bool)
        ensures
            r == (self.tls.state == ConnState::Closed || self.tls.state == ConnState::Closing),
    {
        self.tls.is_closed()
    }

    /// Get the negotiated ALPN protocol (available after handshake).
    pub fn alpn(&self) -> (r: Option<&[u8]>)
        ensures
            match self.tls@.engine.alpn_name() {
                Some(name) => r matches Some(s) && s@ == name,
                None => r is None,
            },
    {
        self.tls.alpn()
    }
}

} // verus!
