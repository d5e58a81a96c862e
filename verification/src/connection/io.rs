//! Queued stream data.

use vstd::prelude::*;

verus! {

/// A piece of stream data that waits to be sent.
pub struct SendEntry {
    pub stream_id: u64,
    pub offset: u64,
    pub data: Vec<u8>,
    pub fin: bool,
}

/// What a [`SendEntry`] holds.
#[verifier::ext_equal]
pub struct EntryModel {
    pub stream_id: u64,
    pub offset: u64,
    pub data: Seq<u8>,
    pub fin: bool,
}

impl View for SendEntry {
    type V = EntryModel;

    open spec fn view(&self) -> EntryModel {
        EntryModel {
            stream_id: self.stream_id,
            offset: self.offset,
            data: self.data@,
            fin: self.fin,
        }
    }
}

/// Stream buffers of a connection: at most `SEND_QUEUE` entries of at most
/// `STREAM_BUF` bytes each.
pub struct QuicStreamIoBufs<const STREAM_BUF: usize, const SEND_QUEUE: usize> {
    pub send_queue: Vec<SendEntry>,
}

impl<const STREAM_BUF: usize, const SEND_QUEUE: usize> View for QuicStreamIoBufs<
    STREAM_BUF,
    SEND_QUEUE,
> {
    type V = Seq<EntryModel>;

    open spec fn view(&self) -> Seq<EntryModel> {
        Seq::new(self.send_queue@.len(), |i: int| self.send_queue@[i]@)
    }
}

impl<const STREAM_BUF: usize, const SEND_QUEUE: usize> QuicStreamIoBufs<STREAM_BUF, SEND_QUEUE> {
    /// Nothing queued.
    pub fn new() -> (r: Self)
        ensures
            r@ == Seq::<EntryModel>::empty(),
    {
        let r = QuicStreamIoBufs { send_queue: Vec::new() };
        assert(r@ =~= Seq::<EntryModel>::empty());
        r
    }

    /// Drops the first `n` entries.
    pub fn drop_front(&mut self, n: usize)
        requires
            n <= old(self)@.len(),
        ensures
            final(self)@ == old(self)@.skip(n as int),
    {
        let ghost before = self@;
        let mut i: usize = 0;
        assert(before.skip(0) =~= before);
        while i < n
            invariant
                i <= n <= before.len(),
                self@ == before.skip(i as int),
            decreases n - i,
        {
            let ghost q0 = self.send_queue@;
            let ghost v0 = self@;
            assert(v0.len() == q0.len());
            let _ = self.send_queue.remove(0);
            assert(self@ =~= v0.skip(1));
            assert(v0.skip(1) =~= before.skip(i + 1));
            i = i + 1;
        }
    }
}

} // verus!
