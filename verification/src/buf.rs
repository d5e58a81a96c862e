//! Bounded byte buffer.
//!
//! `Buf<N>` is the canonical buffer type for I/O buffers. It never holds more
//! than `N` bytes and is backed either by the heap or by a caller-provided
//! `'static` slice.

use vstd::prelude::*;

use crate::bytes;
use crate::error::Error;

verus! {

/// Byte buffer with capacity bounded by `N`, backed by either the heap (grows
/// on demand) or a caller-provided `'static` slice (fixed, never touches the
/// allocator).
///
/// Some bytes at the end may be hidden (see [`hide_tail`](Self::hide_tail)):
/// they count against the capacity and are kept, but no method shows them until
/// [`unhide_tail`](Self::unhide_tail). The hidden bytes always abut the visible
/// ones.
#[derive(Debug)]
pub struct Buf<const N: usize> {
    storage: Storage,
    hidden: usize,
}

#[derive(Debug)]
enum Storage {
    Heap(Vec<u8>),
    /// Caller-provided fixed slice (`mem.len() >= N`) with a logical length.
    Static { mem: &'static mut [u8], len: usize },
}

impl Storage {
    /// The physical contents: visible bytes, then hidden ones.
    spec fn contents(&self) -> Seq<u8> {
        match self {
            Storage::Heap(v) => v@,
            Storage::Static { mem, len } => mem@.take(*len as int),
        }
    }

    spec fn wf(&self, cap: nat) -> bool {
        &&& self.contents().len() <= cap
        &&& self matches Storage::Static { mem, len } ==> mem@.len() >= cap && len <= mem@.len()
    }
}

/// How many bytes the allocation of `v` has room for: `Vec::capacity`, which is
/// never below the length. What the allocator gave beyond that is not stated.
#[verifier::external_body]
fn vec_capacity(v: &Vec<u8>) -> (cap: usize)
    ensures
        cap >= v@.len(),
{
    v.capacity()
}

/// `Vec::reserve_exact`: makes room for `additional` more bytes and leaves the
/// contents as they are. It panics when the new capacity exceeds `isize::MAX`.
/// How large the allocation is afterwards is up to the allocator and not stated.
#[verifier::external_body]
fn vec_reserve_exact(v: &mut Vec<u8>, additional: usize)
    requires
        old(v)@.len() + additional <= isize::MAX,
    ensures
        final(v)@ == old(v)@,
{
    v.reserve_exact(additional)
}

/// `Vec::shrink_to_fit`: gives unused room back and leaves the contents as they
/// are. How much the allocator takes back is up to it and not stated.
#[verifier::external_body]
fn vec_shrink_to_fit(v: &mut Vec<u8>)
    ensures
        final(v)@ == old(v)@,
{
    v.shrink_to_fit()
}

/// The size to which an allocation of `cap` bytes grows so that `needed` bytes fit,
/// or `None` where they fit already: twice the old size, or what is needed if that
/// is more, but never over `limit`.
///
/// Clamping keeps a buffer that is nearly full from being given far more memory
/// than it may ever use; below the limit the size at least doubles.
pub fn clamped_growth(cap: usize, needed: usize, limit: usize) -> (r: Option<usize>)
    ensures
        r is None <==> needed <= cap,
        r matches Some(size) ==> {
            &&& size == vstd::math::min(vstd::math::max(2 * cap, needed as int), limit as int)
            &&& size == limit || size >= 2 * cap
            &&& needed <= limit ==> needed <= size <= limit
        },
{
    if needed <= cap {
        return None;
    }
    let doubled = if cap <= usize::MAX / 2 {
        cap * 2
    } else {
        usize::MAX
    };
    let wanted = if doubled > needed {
        doubled
    } else {
        needed
    };
    Some(
        if wanted < limit {
            wanted
        } else {
            limit
        },
    )
}

/// What a buffer holds: the bytes it shows and, behind them, those it hides.
#[verifier::ext_equal]
pub struct BufModel {
    pub visible: Seq<u8>,
    pub hidden: Seq<u8>,
}

impl BufModel {
    /// Nothing visible, nothing hidden.
    pub open spec fn empty() -> BufModel {
        BufModel { visible: Seq::empty(), hidden: Seq::empty() }
    }

    /// The bytes that count against the capacity.
    pub open spec fn size(self) -> nat {
        self.visible.len() + self.hidden.len()
    }

    /// The last `n` visible bytes move to the front of the hidden ones.
    pub open spec fn conceal(self, n: int) -> BufModel {
        BufModel {
            visible: self.visible.take(self.visible.len() - n),
            hidden: self.visible.skip(self.visible.len() - n) + self.hidden,
        }
    }

    /// The hidden bytes become visible.
    pub open spec fn reveal_all(self) -> BufModel {
        BufModel { visible: self.visible + self.hidden, hidden: Seq::empty() }
    }

    /// Only the first `len` visible bytes stay visible; the others are gone.
    pub open spec fn truncate(self, len: int) -> BufModel {
        if len < self.visible.len() {
            BufModel { visible: self.visible.take(len), ..self }
        } else {
            self
        }
    }

    /// The first `n` visible bytes are gone.
    pub open spec fn drain_front(self, n: int) -> BufModel {
        BufModel { visible: self.visible.skip(n), ..self }
    }

    /// `data` follows the visible bytes, before the hidden ones.
    pub open spec fn append(self, data: Seq<u8>) -> BufModel {
        BufModel { visible: self.visible + data, ..self }
    }
}

/// Hiding a tail and revealing it again changes nothing.
pub proof fn law_hide_then_unhide(m: BufModel, n: int)
    requires
        0 <= n <= m.visible.len(),
    ensures
        m.conceal(n).reveal_all() == m.reveal_all(),
        m.hidden.len() == 0 ==> m.conceal(n).reveal_all() == m,
{
    assert(m.conceal(n).reveal_all() =~= m.reveal_all());
    if m.hidden.len() == 0 {
        assert(m.reveal_all() =~= m);
    }
}

/// A hidden tail survives draining from the front, truncating and appending:
/// when it is revealed it follows whatever is visible then, byte for byte.
pub proof fn law_hidden_tail_survives(m: BufModel, n: int, drained: int, kept: int, data: Seq<u8>)
    requires
        m.hidden.len() == 0,
        0 <= n <= m.visible.len(),
        0 <= drained <= m.visible.len() - n,
        0 <= kept <= m.visible.len() - n - drained,
    ensures
        m.conceal(n).drain_front(drained).truncate(kept).append(data).reveal_all().visible
            == m.visible.subrange(drained, drained + kept) + data + m.visible.skip(
            m.visible.len() - n,
        ),
{
    assert(m.conceal(n).drain_front(drained).truncate(kept).append(data).reveal_all().visible
        =~= m.visible.subrange(drained, drained + kept) + data + m.visible.skip(
        m.visible.len() - n,
    ));
}

/// Draining twice is draining once by the sum; what was appended last is still
/// last.
pub proof fn law_drain_and_append_commute(m: BufModel, a: int, b: int, data: Seq<u8>)
    requires
        0 <= a,
        0 <= b,
        a + b <= m.visible.len(),
    ensures
        m.drain_front(a).drain_front(b) == m.drain_front(a + b),
        m.append(data).drain_front(a) == m.drain_front(a).append(data),
{
    assert(m.drain_front(a).drain_front(b) =~= m.drain_front(a + b));
    assert(m.append(data).drain_front(a) =~= m.drain_front(a).append(data));
}

impl<const N: usize> View for Buf<N> {
    type V = Seq<u8>;

    /// The visible bytes.
    closed spec fn view(&self) -> Seq<u8> {
        self.storage.contents().take(self.storage.contents().len() - self.hidden)
    }
}

impl<const N: usize> Buf<N> {
    /// The hidden bytes.
    pub closed spec fn hidden_tail(&self) -> Seq<u8> {
        self.storage.contents().skip(self.storage.contents().len() - self.hidden)
    }

    /// Visible and hidden bytes.
    pub open spec fn model(&self) -> BufModel {
        BufModel { visible: self@, hidden: self.hidden_tail() }
    }

    /// Whether the buffer is backed by a caller-provided slice.
    pub closed spec fn is_static(&self) -> bool {
        self.storage is Static
    }

    /// The whole backing slice of a statically backed buffer.
    pub closed spec fn static_mem(&self) -> Seq<u8> {
        match self.storage {
            Storage::Static { mem, .. } => mem@,
            Storage::Heap(_) => Seq::empty(),
        }
    }

    /// Visible and hidden bytes together stay within `N`; a static backing has
    /// room for `N` bytes.
    pub closed spec fn wf(&self) -> bool {
        &&& self.storage.wf(N as nat)
        &&& self.hidden <= self.storage.contents().len()
    }

    /// Visible and hidden bytes together stay within `N`.
    pub proof fn lemma_bounds(&self)
        requires
            self.wf(),
        ensures
            self@.len() + self.hidden_tail().len() <= N,
    {
    }

    /// An empty heap-backed buffer.
    pub fn new() -> (r: Self)
        ensures
            r.wf(),
            r@ == Seq::<u8>::empty(),
            r.hidden_tail() == Seq::<u8>::empty(),
            !r.is_static(),
    {
        Buf { storage: Storage::Heap(Vec::new()), hidden: 0 }
    }

    /// Build a buffer backed by a `'static` slice instead of the heap.
    ///
    /// The slice must be at least `N` bytes; the buffer caps its logical length
    /// at `N` regardless of the slice's actual length. The buffer starts empty.
    pub fn from_static(mem: &'static mut [u8]) -> (r: Self)
        requires
            mem@.len() >= N,
        ensures
            r.wf(),
            r@ == Seq::<u8>::empty(),
            r.hidden_tail() == Seq::<u8>::empty(),
            r.is_static(),
            r.static_mem() == old(mem)@,
    {
        Buf { storage: Storage::Static { mem, len: 0 }, hidden: 0 }
    }

    /// Recover the backing `'static` slice, leaving an empty heap-backed buffer
    /// behind. Returns `None` for a heap-backed buffer, which stays as it was.
    ///
    /// The returned slice's contents are left as they are.
    pub fn take_static(&mut self) -> (r: Option<&'static mut [u8]>)
        requires
            old(self).wf(),
        ensures
            final(self).wf(),
            match r {
                Some(mem) => old(self).is_static() && mem@ == old(self).static_mem()
                    && final(self)@ == Seq::<u8>::empty() && final(self).hidden_tail() == Seq::<u8>::empty() && !final(self).is_static(),
                None => !old(self).is_static() && *final(self) == *old(self),
            },
    {
        let mut storage = Storage::Heap(Vec::new());
        core::mem::swap(&mut storage, &mut self.storage);
        match storage {
            Storage::Static { mem, .. } => {
                self.hidden = 0;
                Some(mem)
            },
            other => {
                self.storage = other;
                None
            },
        }
    }

    /// Physical content length: visible bytes plus any hidden tail.
    fn phys_len(&self) -> (n: usize)
        requires
            self.wf(),
        ensures
            n == self@.len() + self.hidden_tail().len(),
            n == self.storage.contents().len(),
    {
        match &self.storage {
            Storage::Heap(v) => v.len(),
            Storage::Static { len, .. } => *len,
        }
    }

    /// Visible length (excludes any hidden tail).
    pub fn len(&self) -> (n: usize)
        requires
            self.wf(),
        ensures
            n == self@.len(),
    {
        self.phys_len() - self.hidden
    }

    /// Whether no byte is visible.
    pub fn is_empty(&self) -> (r: bool)
        requires
            self.wf(),
        ensures
            r == (self@.len() == 0),
    {
        self.len() == 0
    }

    /// Clear everything, including any hidden tail.
    pub fn clear(&mut self)
        requires
            old(self).wf(),
        ensures
            final(self).wf(),
            final(self)@ == Seq::<u8>::empty(),
            final(self).hidden_tail() == Seq::<u8>::empty(),
            final(self).is_static() == old(self).is_static(),
    {
        match &mut self.storage {
            Storage::Heap(v) => {
                v.clear();
            },
            Storage::Static { len, .. } => {
                *len = 0;
            },
        }
        self.hidden = 0;
    }

    /// Truncate the visible contents to `len` bytes. A hidden tail is relocated
    /// to abut the new visible end.
    pub fn truncate(&mut self, len: usize)
        requires
            old(self).wf(),
        ensures
            final(self).wf(),
            final(self).model() == old(self).model().truncate(len as int),
            final(self).is_static() == old(self).is_static(),
    {
        let vis = self.len();
        if len >= vis {
            return ;
        }
        let hidden = self.hidden;
        let phys = self.phys_len();
        match &mut self.storage {
            Storage::Heap(v) => {
                bytes::copy_within(v.as_mut_slice(), vis, phys, len);
                v.truncate(len + hidden);
            },
            Storage::Static { mem, len: cur } => {
                bytes::copy_within(mem, vis, phys, len);
                *cur = len + hidden;
            },
        }
        assert(self@ =~= old(self)@.take(len as int));
        assert(self.hidden_tail() =~= old(self).hidden_tail());
    }

    /// Hide the last `n` visible bytes: they become invisible to every other
    /// method but are preserved, always abutting the visible end, until
    /// [`unhide_tail`](Self::unhide_tail) makes them visible again.
    ///
    /// The TLS record layer parks not-yet-decrypted ciphertext this way behind
    /// the decrypted plaintext in a single receive buffer.
    pub fn hide_tail(&mut self, n: usize)
        requires
            old(self).wf(),
            n <= old(self)@.len(),
        ensures
            final(self).wf(),
            final(self).model() == old(self).model().conceal(n as int),
            final(self).is_static() == old(self).is_static(),
    {
        let phys = self.phys_len();
        self.hidden = self.hidden + n;
        assert(self@ =~= old(self)@.take(old(self)@.len() - n));
        assert(self.hidden_tail() =~= old(self)@.skip(old(self)@.len() - n) + old(self).hidden_tail());
    }

    /// Reveal a hidden tail, appending it back to the visible contents. Returns
    /// the number of bytes revealed.
    pub fn unhide_tail(&mut self) -> (n: usize)
        requires
            old(self).wf(),
        ensures
            final(self).wf(),
            n == old(self).hidden_tail().len(),
            final(self).model() == old(self).model().reveal_all(),
            final(self).is_static() == old(self).is_static(),
    {
        let n = self.hidden;
        self.hidden = 0;
        assert(self@ =~= old(self)@ + old(self).hidden_tail());
        n
    }

    /// Grow the backing allocation toward `N` to fit `additional` more bytes,
    /// doubling for amortized growth but clamping the reservation to `N`.
    /// Heap-backed only; a no-op for a static backing.
    fn reserve_clamped(&mut self, additional: usize)
        requires
            old(self).wf(),
            old(self)@.len() + old(self).hidden_tail().len() + additional <= N,
        ensures
            final(self).wf(),
            final(self)@ == old(self)@,
            final(self).hidden_tail() == old(self).hidden_tail(),
            final(self).is_static() == old(self).is_static(),
            final(self).hidden == old(self).hidden,
            old(self).is_static() ==> *final(self) == *old(self),
    {
        let ghost before = self.storage.contents();
        match &mut self.storage {
            Storage::Heap(v) => {
                let needed = v.len() + additional;
                if let Some(target) = clamped_growth(vec_capacity(v), needed, N) {
                    if target <= isize::MAX as usize {
                        vec_reserve_exact(v, target - v.len());
                    }
                }
            },
            Storage::Static { .. } => {},
        }
        assert(self.storage.contents() == before);
    }

    /// Append bytes to the visible contents, respecting the `N` capacity bound
    /// (which covers any hidden tail too). A hidden tail stays at the end: new
    /// bytes are inserted before it.
    ///
    /// Returns `Err(())`, and changes nothing, if the result would exceed `N`
    /// bytes.
    pub fn extend_from_slice(&mut self, data: &[u8]) -> (r: Result<(), ()>)
        requires
            old(self).wf(),
        ensures
            final(self).wf(),
            r is Ok <==> old(self).model().size() + data@.len() <= N,
            final(self).model() == (if r is Ok {
                old(self).model().append(data@)
            } else {
                old(self).model()
            }),
            final(self).is_static() == old(self).is_static(),
    {
        let hidden = self.hidden;
        let phys = self.phys_len();
        if data.len() > N - phys {
            return Err(());
        }
        let vis = phys - hidden;
        let dlen = data.len();
        self.reserve_clamped(data.len());
        let ghost before = self.storage.contents();
        assert(before =~= old(self)@ + old(self).hidden_tail());
        match &mut self.storage {
            Storage::Heap(v) => {
                v.extend_from_slice(data);
                assert(v@ =~= before + data@);
                bytes::copy_within(v.as_mut_slice(), vis, phys, vis + dlen);
                bytes::copy_at(v.as_mut_slice(), vis, data);
            },
            Storage::Static { mem, len } => {
                bytes::copy_within(mem, vis, phys, vis + dlen);
                bytes::copy_at(mem, vis, data);
                *len = phys + dlen;
            },
        }
        assert(self.storage.contents() =~= old(self)@ + data@ + old(self).hidden_tail());
        assert(self@ =~= old(self)@ + data@);
        assert(self.hidden_tail() =~= old(self).hidden_tail());
        Ok(())
    }

    /// Push a single byte, respecting the `N` capacity bound.
    ///
    /// Returns `Err(byte)`, and changes nothing, if the buffer is full.
    pub fn push(&mut self, byte: u8) -> (r: Result<(), u8>)
        requires
            old(self).wf(),
        ensures
            final(self).wf(),
            r == (if old(self).model().size() < N {
                Ok::<(), u8>(())
            } else {
                Err::<(), u8>(byte)
            }),
            final(self).model() == (if r is Ok {
                old(self).model().append(seq![byte])
            } else {
                old(self).model()
            }),
            final(self).is_static() == old(self).is_static(),
    {
        let one = [byte];
        match self.extend_from_slice(one.as_slice()) {
            Ok(()) => {
                assert(one@ =~= seq![byte]);
                Ok(())
            },
            Err(()) => Err(byte),
        }
    }

    /// The capacity bound.
    pub fn capacity(&self) -> (n: usize)
        ensures
            n == N,
    {
        N
    }

    /// Release unused heap capacity. No-op for a static backing.
    pub fn shrink_to_fit(&mut self)
        requires
            old(self).wf(),
        ensures
            final(self).wf(),
            final(self)@ == old(self)@,
            final(self).hidden_tail() == old(self).hidden_tail(),
            final(self).is_static() == old(self).is_static(),
            old(self).is_static() ==> *final(self) == *old(self),
    {
        let ghost before = self.storage.contents();
        match &mut self.storage {
            Storage::Heap(v) => {
                vec_shrink_to_fit(v);
            },
            Storage::Static { .. } => {},
        }
        assert(self.storage.contents() == before);
    }

    /// The visible bytes.
    pub fn as_slice(&self) -> (r: &[u8])
        requires
            self.wf(),
        ensures
            r@ == self@,
    {
        let vis = self.len();
        let r: &[u8] = match &self.storage {
            Storage::Heap(v) => v.as_slice().split_at(vis).0,
            Storage::Static { mem, .. } => mem.split_at(vis).0,
        };
        assert(r@ =~= self@);
        r
    }

    /// The visible bytes, for changing them in place, for callers that cannot
    /// promise a well-formed buffer.
    fn shown_mut(&mut self) -> (r: &mut [u8])
        ensures
            old(self).wf() ==> r@ == old(self)@ && (final(r)@.len() == r@.len() ==> final(
                self).wf() && final(self)@ == final(r)@ && final(self).hidden_tail() == old(
                self).hidden_tail() && final(self).is_static() == old(self).is_static()),
    {
        let hidden = self.hidden;
        let all: &mut [u8] = match &mut self.storage {
            Storage::Heap(v) => v.as_mut_slice(),
            Storage::Static { mem, len } => if *len <= mem.len() {
                mem.split_at_mut(*len).0
            } else {
                mem
            },
        };
        let total = all.len();
        if hidden > total {
            return all;
        }
        all.split_at_mut(total - hidden).0
    }

    /// The visible bytes, for callers that cannot promise a well-formed buffer.
    fn shown(&self) -> (r: &[u8])
        ensures
            self.wf() ==> r@ == self@,
    {
        let all: &[u8] = match &self.storage {
            Storage::Heap(v) => v.as_slice(),
            Storage::Static { mem, len } => if *len <= mem.len() {
                mem.split_at(*len).0
            } else {
                mem
            },
        };
        if self.hidden > all.len() {
            return all;
        }
        let r = all.split_at(all.len() - self.hidden).0;
        assert(self.wf() ==> r@ =~= self@);
        r
    }

    /// The visible bytes, for changing them in place.
    pub fn as_mut_slice(&mut self) -> (r: &mut [u8])
        requires
            old(self).wf(),
        ensures
            r@ == old(self)@,
            final(r)@.len() == r@.len() ==> final(self).wf() && final(self)@ == final(r)@ && final(self).hidden_tail() == old(self).hidden_tail() && final(self).is_static() == old(self).is_static(),
    {
        let vis = self.len();
        match &mut self.storage {
            Storage::Heap(v) => v.as_mut_slice().split_at_mut(vis).0,
            Storage::Static { mem, .. } => mem.split_at_mut(vis).0,
        }
    }
}

/// Cloning always produces a heap-backed copy, hidden tail included.
impl<const N: usize> Clone for Buf<N> {
    fn clone(&self) -> (r: Self)
        ensures
            self.wf() ==> r.wf() && r.model() == self.model() && !r.is_static(),
    {
        let storage = match &self.storage {
            Storage::Heap(v) => Storage::Heap(bytes::to_vec(v.as_slice())),
            Storage::Static { mem, len } => Storage::Heap(
                if *len <= mem.len() {
                    bytes::to_vec(mem.split_at(*len).0)
                } else {
                    bytes::to_vec(mem)
                },
            ),
        };
        let r = Buf { storage, hidden: self.hidden };
        proof {
            if self.wf() {
                assert(r.storage.contents() =~= self.storage.contents());
            }
        }
        r
    }
}

/// A buffer can be used where its visible bytes can.
impl<const N: usize> core::ops::Deref for Buf<N> {
    type Target = [u8];

    fn deref(&self) -> (r: &[u8])
        ensures
            self.wf() ==> r@ == self@,
    {
        self.shown()
    }
}

impl<const N: usize> core::ops::DerefMut for Buf<N> {
    fn deref_mut(&mut self) -> (r: &mut [u8])
        ensures
            old(self).wf() ==> r@ == old(self)@ && (final(r)@.len() == r@.len() ==> final(
                self).wf() && final(self)@ == final(r)@ && final(self).hidden_tail() == old(
                self).hidden_tail() && final(self).is_static() == old(self).is_static()),
    {
        self.shown_mut()
    }
}

impl<const N: usize> AsRef<[u8]> for Buf<N> {
    fn as_ref(&self) -> (r: &[u8])
        ensures
            self.wf() ==> r@ == self@,
    {
        self.shown()
    }
}

impl<const N: usize> AsMut<[u8]> for Buf<N> {
    fn as_mut(&mut self) -> (r: &mut [u8])
        ensures
            old(self).wf() ==> r@ == old(self)@ && (final(r)@.len() == r@.len() ==> final(
                self).wf() && final(self)@ == final(r)@ && final(self).hidden_tail() == old(
                self).hidden_tail() && final(self).is_static() == old(self).is_static()),
    {
        self.shown_mut()
    }
}

/// Common operations on byte buffers.
pub trait BufExt {
    /// Visible and hidden bytes.
    spec fn buf_model(&self) -> BufModel;

    /// The capacity bound.
    spec fn buf_cap(&self) -> nat;

    /// The internal invariant.
    spec fn buf_wf(&self) -> bool;

    /// The number of visible bytes.
    fn buf_len(&self) -> (n: usize)
        requires
            self.buf_wf(),
        ensures
            n == self.buf_model().visible.len(),
    ;

    /// Whether no byte is visible.
    fn buf_is_empty(&self) -> (r: bool)
        requires
            self.buf_wf(),
        ensures
            r == (self.buf_model().visible.len() == 0),
    {
        self.buf_len() == 0
    }

    /// Forget all bytes.
    fn buf_clear(&mut self)
        requires
            old(self).buf_wf(),
        ensures
            final(self).buf_wf(),
            final(self).buf_model() == BufModel::empty(),
    ;

    /// Keep only the first `len` visible bytes.
    fn buf_truncate(&mut self, len: usize)
        requires
            old(self).buf_wf(),
        ensures
            final(self).buf_wf(),
            final(self).buf_model() == old(self).buf_model().truncate(len as int),
    ;

    /// Append `data`, or fail and change nothing; the error carries the visible
    /// length that would have been reached.
    fn buf_extend_from_slice(&mut self, data: &[u8]) -> (r: Result<(), Error>)
        requires
            old(self).buf_wf(),
            old(self).buf_model().visible.len() + data@.len() <= usize::MAX,
        ensures
            final(self).buf_wf(),
            r == (if old(self).buf_model().size() + data@.len() <= old(self).buf_cap() {
                Ok::<(), Error>(())
            } else {
                Err::<(), Error>(
                    Error::BufferTooSmall {
                        needed: (old(self).buf_model().visible.len() + data@.len()) as usize,
                    },
                )
            }),
            final(self).buf_model() == (if r is Ok {
                old(self).buf_model().append(data@)
            } else {
                old(self).buf_model()
            }),
    ;

    /// Append one byte, or fail and change nothing.
    fn buf_push(&mut self, byte: u8) -> (r: Result<(), Error>)
        requires
            old(self).buf_wf(),
            old(self).buf_model().visible.len() < usize::MAX,
        ensures
            final(self).buf_wf(),
            r == (if old(self).buf_model().size() < old(self).buf_cap() {
                Ok::<(), Error>(())
            } else {
                Err::<(), Error>(
                    Error::BufferTooSmall {
                        needed: (old(self).buf_model().visible.len() + 1) as usize,
                    },
                )
            }),
            final(self).buf_model() == (if r is Ok {
                old(self).buf_model().append(seq![byte])
            } else {
                old(self).buf_model()
            }),
    ;

    /// The visible bytes.
    fn buf_as_slice(&self) -> (r: &[u8])
        requires
            self.buf_wf(),
        ensures
            r@ == self.buf_model().visible,
    ;

    /// The visible bytes, for changing them in place.
    fn buf_as_mut_slice(&mut self) -> (r: &mut [u8])
        requires
            old(self).buf_wf(),
        ensures
            r@ == old(self).buf_model().visible,
            final(r)@.len() == r@.len() ==> final(self).buf_wf() && final(self).buf_model() == (
            BufModel { visible: final(r)@, ..old(self).buf_model() }),
    ;

    /// Drain `n` bytes from the front by shifting remaining data forward.
    fn buf_drain_front(&mut self, n: usize)
        requires
            old(self).buf_wf(),
            n <= old(self).buf_model().visible.len(),
        ensures
            final(self).buf_wf(),
            final(self).buf_model() == old(self).buf_model().drain_front(n as int),
    ;
}

impl<const N: usize> BufExt for Buf<N> {
    open spec fn buf_model(&self) -> BufModel {
        self.model()
    }

    open spec fn buf_cap(&self) -> nat {
        N as nat
    }

    open spec fn buf_wf(&self) -> bool {
        self.wf()
    }

    fn buf_len(&self) -> (n: usize) {
        self.len()
    }

    fn buf_clear(&mut self) {
        self.clear();
    }

    fn buf_truncate(&mut self, len: usize) {
        self.truncate(len);
    }

    fn buf_extend_from_slice(&mut self, data: &[u8]) -> (r: Result<(), Error>) {
        let needed = self.len() + data.len();
        match self.extend_from_slice(data) {
            Ok(()) => Ok(()),
            Err(()) => Err(Error::BufferTooSmall { needed }),
        }
    }

    fn buf_push(&mut self, byte: u8) -> (r: Result<(), Error>) {
        let needed = self.len() + 1;
        match self.push(byte) {
            Ok(()) => Ok(()),
            Err(_) => Err(Error::BufferTooSmall { needed }),
        }
    }

    fn buf_as_slice(&self) -> (r: &[u8]) {
        self.as_slice()
    }

    fn buf_as_mut_slice(&mut self) -> (r: &mut [u8]) {
        self.as_mut_slice()
    }

    fn buf_drain_front(&mut self, n: usize) {
        let len = self.len();
        let ghost before = self@;
        bytes::copy_within(self.as_mut_slice(), n, len, 0);
        self.truncate(len - n);
        assert(self@ =~= before.skip(n as int));
    }
}

/// Every byte counts against the capacity, shown or hidden: appending adds what is
/// appended, hiding and revealing change nothing, and only what is truncated or
/// drained is given back.
pub proof fn law_every_byte_counts(m: BufModel, n: int, data: Seq<u8>)
    requires
        0 <= n <= m.visible.len(),
    ensures
        BufModel::empty().size() == 0,
        m.size() >= m.visible.len() && m.size() >= m.hidden.len(),
        m.append(data).size() == m.size() + data.len(),
        m.conceal(n).size() == m.size(),
        m.conceal(n).visible.len() == m.visible.len() - n,
        m.reveal_all().size() == m.size(),
        m.reveal_all().visible.len() == m.size(),
        m.truncate(n).size() == m.size() - (m.visible.len() - n),
        m.truncate(m.visible.len() as int + data.len()) == m,
        m.drain_front(n).size() == m.size() - n,
{
}

/// Appending, truncating and draining touch the shown bytes alone, and only at
/// their own end: the others keep their order and the hidden ones stay hidden.
pub proof fn law_shown_bytes_keep_their_order(m: BufModel, n: int, data: Seq<u8>)
    requires
        0 <= n <= m.visible.len(),
    ensures
        m.append(data).hidden == m.hidden,
        m.append(data).visible.take(m.visible.len() as int) == m.visible,
        m.append(data).visible.skip(m.visible.len() as int) == data,
        m.truncate(n).hidden == m.hidden,
        m.drain_front(n).hidden == m.hidden,
        m.truncate(n).visible + m.drain_front(n).visible == m.visible,
        m.truncate(n).visible.len() == n,
{
    assert(m.append(data).visible.take(m.visible.len() as int) =~= m.visible);
    assert(m.append(data).visible.skip(m.visible.len() as int) =~= data);
    assert(m.truncate(n).visible + m.drain_front(n).visible =~= m.visible);
}

} // verus!
