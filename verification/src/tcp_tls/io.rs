//! The I/O buffers of a TLS connection.

use vstd::prelude::*;

use crate::buf::{Buf, BufExt};
use crate::error::Error;

verus! {

/// The buffers that a TLS connection works on, lent by their owner.
///
/// Between calls the visible part of `recv_buf` is decrypted plaintext; received
/// bytes that are not decrypted yet are its hidden tail.
pub struct TlsIo<'a, const BUF: usize> {
    pub recv_buf: &'a mut Buf<BUF>,
    pub send_buf: &'a mut Buf<BUF>,
    pub app_send_buf: &'a mut Buf<BUF>,
}

/// Owned buffers of a TLS connection.
pub struct TlsIoBufs<const BUF: usize> {
    pub recv_buf: Buf<BUF>,
    pub send_buf: Buf<BUF>,
    pub app_send_buf: Buf<BUF>,
}

/// A buffer that is used without a hidden tail.
pub open spec fn plain_buf<const BUF: usize>(b: &Buf<BUF>) -> bool {
    b.wf() && b.hidden_tail().len() == 0
}

impl<const BUF: usize> TlsIoBufs<BUF> {
    /// Empty buffers.
    pub fn new() -> (r: Self)
        ensures
            r.recv_buf.wf(),
            plain_buf(&r.send_buf),
            plain_buf(&r.app_send_buf),
            r.recv_buf.model() == crate::buf::BufModel::empty(),
            r.send_buf@.len() == 0,
            r.app_send_buf@.len() == 0,
    {
        let r = TlsIoBufs { recv_buf: Buf::new(), send_buf: Buf::new(), app_send_buf: Buf::new() };
        assert(r.recv_buf.model() =~= crate::buf::BufModel::empty());
        r
    }

    /// Lends the buffers.
    pub fn as_io(&mut self) -> (r: TlsIo<'_, BUF>)
        ensures
            *r.recv_buf == old(self).recv_buf,
            *r.send_buf == old(self).send_buf,
            *r.app_send_buf == old(self).app_send_buf,
            final(self).recv_buf == *final(r.recv_buf),
            final(self).send_buf == *final(r.send_buf),
            final(self).app_send_buf == *final(r.app_send_buf),
    {
        TlsIo {
            recv_buf: &mut self.recv_buf,
            send_buf: &mut self.send_buf,
            app_send_buf: &mut self.app_send_buf,
        }
    }
}

/// The bytes of a send buffer of capacity `cap` after `data` was queued: all of
/// it or nothing.
pub open spec fn queued(send: Seq<u8>, data: Seq<u8>, cap: int) -> Seq<u8> {
    if send.len() + data.len() <= cap {
        send + data
    } else {
        send
    }
}

/// Queues bytes for sending.
pub fn queue_send<const BUF: usize>(send_buf: &mut Buf<BUF>, data: &[u8]) -> (r: Result<(), Error>)
    requires
        plain_buf(old(send_buf)),
        old(send_buf)@.len() + data@.len() <= usize::MAX,
    ensures
        plain_buf(final(send_buf)),
        final(send_buf)@ == queued(old(send_buf)@, data@, BUF as int),
        r == (if old(send_buf)@.len() + data@.len() <= BUF {
            Ok::<(), Error>(())
        } else {
            Err::<(), Error>(
                Error::BufferTooSmall { needed: (old(send_buf)@.len() + data@.len()) as usize },
            )
        }),
{
    send_buf.buf_extend_from_slice(data)
}

} // verus!
