//! Handshake state, shared by the connections that are still handshaking.

use vstd::prelude::*;

use crate::buf::Buf;
use crate::crypto::{CryptoProvider, Level};
use crate::tls::TlsSession;

verus! {

/// The handshake state of one connection: the TLS engine and, per level, the
/// whole CRYPTO stream produced so far (position in the buffer == offset in the
/// stream) with how much of it was sent.
pub struct HandshakeContext<C: CryptoProvider, const CRYPTO_BUF: usize> {
    pub tls: C::Tls,
    pub crypto_send_offset: [u64; 3],
    pub pending_crypto: [Buf<CRYPTO_BUF>; 3],
    pub pending_crypto_level: [Level; 3],
}

/// What a [`HandshakeContext`] holds.
#[verifier::ext_equal]
#[verifier::reject_recursive_types(C)]
pub struct CtxModel<C: CryptoProvider> {
    pub tls: C::Tls,
    pub sent: Seq<u64>,
    pub pending: Seq<Seq<u8>>,
    pub pending_level: Seq<Level>,
}

impl<C: CryptoProvider, const CRYPTO_BUF: usize> View for HandshakeContext<C, CRYPTO_BUF> {
    type V = CtxModel<C>;

    open spec fn view(&self) -> CtxModel<C> {
        CtxModel {
            tls: self.tls,
            sent: self.crypto_send_offset@,
            pending: seq![
                self.pending_crypto@[0]@,
                self.pending_crypto@[1]@,
                self.pending_crypto@[2]@,
            ],
            pending_level: self.pending_crypto_level@,
        }
    }
}

impl<C: CryptoProvider, const CRYPTO_BUF: usize> HandshakeContext<C, CRYPTO_BUF> {
    /// No more was sent of a level's stream than there is, and nothing of it is
    /// hidden.
    pub open spec fn wf(&self) -> bool {
        forall|i: int|
            0 <= i < 3 ==> (#[trigger] self.pending_crypto@[i]).wf()
                && self.pending_crypto@[i].hidden_tail().len() == 0 && self.crypto_send_offset@[i]
                <= self.pending_crypto@[i]@.len()
    }

    /// The state at the start of a handshake.
    pub fn new(tls: C::Tls) -> (r: Self)
        ensures
            r.wf(),
            r@ == fresh::<C>(tls),
    {
        let r = HandshakeContext {
            tls,
            crypto_send_offset: [0u64, 0u64, 0u64],
            pending_crypto: [Buf::new(), Buf::new(), Buf::new()],
            pending_crypto_level: [Level::Initial, Level::Handshake, Level::Application],
        };
        assert(r@.sent =~= seq![0u64, 0u64, 0u64]);
        assert(r@.pending_level =~= seq![Level::Initial, Level::Handshake, Level::Application]);
        r
    }

    /// Whether every level's stream was sent to its end.
    pub fn all_sent(&self) -> (r: bool)
        requires
            self.wf(),
        ensures
            r == self@.all_sent(),
    {
        self.crypto_send_offset[0] == self.pending_crypto[0].len() as u64
            && self.crypto_send_offset[1] == self.pending_crypto[1].len() as u64
            && self.crypto_send_offset[2] == self.pending_crypto[2].len() as u64
    }
}

/// The state at the start of a handshake.
pub open spec fn fresh<C: CryptoProvider>(tls: C::Tls) -> CtxModel<C> {
    CtxModel {
        tls,
        sent: seq![0u64, 0u64, 0u64],
        pending: seq![Seq::<u8>::empty(), Seq::<u8>::empty(), Seq::<u8>::empty()],
        pending_level: seq![Level::Initial, Level::Handshake, Level::Application],
    }
}

impl<C: CryptoProvider> CtxModel<C> {
    /// Whether every level's stream was sent to its end.
    pub open spec fn all_sent(self) -> bool {
        self.sent[0] == self.pending[0].len() && self.sent[1] == self.pending[1].len()
            && self.sent[2] == self.pending[2].len()
    }

    /// Whether the handshake needs this state no longer.
    pub open spec fn finished(self) -> bool {
        self.tls.complete() && self.all_sent()
    }

    /// All levels are to be sent again from their start.
    pub open spec fn rewound(self) -> CtxModel<C> {
        CtxModel { sent: seq![0u64, 0u64, 0u64], ..self }
    }
}

/// A fixed number of handshake slots.
pub struct HandshakePool<C: CryptoProvider, const N: usize, const CRYPTO_BUF: usize> {
    pub slots: Vec<Option<HandshakeContext<C, CRYPTO_BUF>>>,
}

impl<C: CryptoProvider, const N: usize, const CRYPTO_BUF: usize> View for HandshakePool<
    C,
    N,
    CRYPTO_BUF,
> {
    type V = Seq<Option<CtxModel<C>>>;

    open spec fn view(&self) -> Seq<Option<CtxModel<C>>> {
        Seq::new(
            self.slots@.len(),
            |i: int|
                match self.slots@[i] {
                    Some(c) => Some(c@),
                    None => None,
                },
        )
    }
}

impl<C: CryptoProvider, const N: usize, const CRYPTO_BUF: usize> HandshakePool<C, N, CRYPTO_BUF> {
    /// Every slot in use holds a well-formed context.
    pub open spec fn wf(&self) -> bool {
        forall|i: int|
            0 <= i < self.slots@.len() && (#[trigger] self.slots@[i]) is Some
                ==> self.slots@[i]->0.wf()
    }

    /// Whether `slot` is in use.
    pub open spec fn occupied(&self, slot: int) -> bool {
        0 <= slot < self.slots@.len() && self.slots@[slot] is Some
    }

    /// A slot is in use exactly if its model is there.
    pub proof fn lemma_occupied(&self, slot: int)
        ensures
            0 <= slot < self@.len() ==> self.occupied(slot) == (self@[slot] is Some),
            self@.len() == self.slots@.len(),
    {
    }

    /// A pool of `N` free slots.
    pub fn new() -> (r: Self)
        ensures
            r.wf(),
            r@ == Seq::new(N as nat, |i: int| None::<CtxModel<C>>),
    {
        let mut slots: Vec<Option<HandshakeContext<C, CRYPTO_BUF>>> = Vec::new();
        let mut i: usize = 0;
        while i < N
            invariant
                i <= N,
                slots@.len() == i,
                forall|j: int| 0 <= j < i ==> (#[trigger] slots@[j]) is None,
            decreases N - i,
        {
            slots.push(None);
            i = i + 1;
        }
        let r = HandshakePool { slots };
        assert(r@ =~= Seq::new(N as nat, |i: int| None::<CtxModel<C>>));
        r
    }

    /// Puts a fresh context for `tls` into the first free slot; `None` if all
    /// slots are in use.
    pub fn claim(&mut self, tls: C::Tls) -> (r: Option<usize>)
        requires
            old(self).wf(),
        ensures
            final(self).wf(),
            match r {
                Some(i) => i < old(self)@.len() && old(self)@[i as int] is None && (forall|j: int|
                    0 <= j < i ==> (#[trigger] old(self)@[j]) is Some) && final(self)@ == old(self)@.update(
                    i as int,
                    Some(fresh::<C>(tls)),
                ),
                None => final(self)@ == old(self)@ && forall|j: int|
                    0 <= j < old(self)@.len() ==> (#[trigger] old(self)@[j]) is Some,
            },
    {
        let mut i: usize = 0;
        while i < self.slots.len()
            invariant
                i <= self.slots@.len(),
                *self == *old(self),
                old(self).wf(),
                forall|j: int| 0 <= j < i ==> (#[trigger] self@[j]) is Some,
            decreases self.slots@.len() - i,
        {
            if self.slots[i].is_none() {
                let ghost before = self@;
                let ctx = HandshakeContext::new(tls);
                let ghost model = ctx@;
                self.slots[i] = Some(ctx);
                assert(self@ =~= before.update(i as int, Some(model)));
                return Some(i);
            }
            i = i + 1;
        }
        None
    }

    /// Frees a slot.
    pub fn release(&mut self, slot: usize)
        requires
            old(self).wf(),
            slot < old(self)@.len(),
        ensures
            final(self).wf(),
            final(self)@ == old(self)@.update(slot as int, None),
    {
        let ghost before = self@;
        self.slots[slot] = None;
        assert(self@ =~= before.update(slot as int, None));
    }

    /// The context in a slot in use.
    pub fn get_mut(&mut self, slot: usize) -> (r: &mut HandshakeContext<C, CRYPTO_BUF>)
        requires
            old(self).wf(),
            old(self).occupied(slot as int),
        ensures
            r.wf(),
            Some(r@) == old(self)@[slot as int],
            final(r).wf() ==> final(self).wf(),
            final(self)@ == old(self)@.update(slot as int, Some(final(r)@)),
            final(self).occupied(slot as int),
    {
        match &mut self.slots[slot] {
            Some(c) => c,
            None => vstd::pervasive::unreached(),
        }
    }
}

} // verus!
