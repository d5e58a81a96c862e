//! Fixed-capacity collections of the `heapless` crate.
//!
//! The collections are opaque; what each holds has a name here, and each method
//! in use has a wrapper that says over that name what the method does.

use vstd::prelude::*;

use crate::h3::qpack;
use crate::tcp_tls::connection::TlsEvent;
use crate::transport::recovery::SentPacket;

verus! {

/// `heapless::Vec`.
#[verifier::external_type_specification]
#[verifier::external_body]
#[verifier::reject_recursive_types(T)]
pub struct ExFixedVec<T, const N: usize>(heapless::Vec<T, N>);

/// `heapless::Deque`.
#[verifier::external_type_specification]
#[verifier::external_body]
#[verifier::reject_recursive_types(T)]
pub struct ExFixedDeque<T, const N: usize>(heapless::Deque<T, N>);

/// The capacity of the queue of TLS events.
pub const EVENT_CAP: usize = 8;

/// The events in a queue, oldest first.
pub uninterp spec fn events(q: heapless::Deque<TlsEvent, 8>) -> Seq<TlsEvent>;

/// `heapless::Deque::new`: an empty queue.
#[verifier::external_body]
pub(crate) fn events_new() -> (q: heapless::Deque<TlsEvent, 8>)
    ensures
        events(q) == Seq::<TlsEvent>::empty(),
{
    heapless::Deque::new()
}

/// `heapless::Deque::push_back`: appends the event while fewer than 8 wait;
/// otherwise the queue stays as it was and the event comes back as the error.
#[verifier::external_body]
pub(crate) fn events_push_back(q: &mut heapless::Deque<TlsEvent, 8>, e: TlsEvent) -> (r: Result<
    (),
    TlsEvent,
>)
    ensures
        r == (if events(*old(q)).len() < EVENT_CAP {
            Ok::<(), TlsEvent>(())
        } else {
            Err::<(), TlsEvent>(e)
        }),
        events(*final(q)) == (if events(*old(q)).len() < EVENT_CAP {
            events(*old(q)).push(e)
        } else {
            events(*old(q))
        }),
{
    q.push_back(e)
}

/// `heapless::Deque::pop_front`: takes the oldest event out; `None` of an empty
/// queue, which stays empty.
#[verifier::external_body]
pub(crate) fn events_pop_front(q: &mut heapless::Deque<TlsEvent, 8>) -> (r: Option<TlsEvent>)
    ensures
        r == (if events(*old(q)).len() > 0 {
            Some(events(*old(q))[0])
        } else {
            None::<TlsEvent>
        }),
        events(*final(q)) == (if events(*old(q)).len() > 0 {
            events(*old(q)).drop_first()
        } else {
            events(*old(q))
        }),
{
    q.pop_front()
}

/// The capacity of the lists that an ACK fills.
pub const ACK_LIST_CAP: usize = 32;

/// The packets in a list of packets, in order.
pub uninterp spec fn packets(v: heapless::Vec<SentPacket, 32>) -> Seq<SentPacket>;

/// The ranges in a list of packet-number ranges, in order.
pub uninterp spec fn ranges(v: heapless::Vec<(u64, u64), 32>) -> Seq<(u64, u64)>;

/// `heapless::Vec::new`: an empty list of packets.
#[verifier::external_body]
pub(crate) fn packets_new() -> (v: heapless::Vec<SentPacket, 32>)
    ensures
        packets(v) == Seq::<SentPacket>::empty(),
{
    heapless::Vec::new()
}

/// `heapless::Vec::push`: appends the packet while fewer than 32 are held;
/// otherwise the list stays as it was and the packet comes back as the error.
#[verifier::external_body]
pub(crate) fn packets_push(v: &mut heapless::Vec<SentPacket, 32>, p: SentPacket) -> (r: Result<
    (),
    SentPacket,
>)
    ensures
        r == (if packets(*old(v)).len() < ACK_LIST_CAP {
            Ok::<(), SentPacket>(())
        } else {
            Err::<(), SentPacket>(p)
        }),
        packets(*final(v)) == (if packets(*old(v)).len() < ACK_LIST_CAP {
            packets(*old(v)).push(p)
        } else {
            packets(*old(v))
        }),
{
    v.push(p)
}

/// `heapless::Vec::new`: an empty list of ranges.
#[verifier::external_body]
pub(crate) fn ranges_new() -> (v: heapless::Vec<(u64, u64), 32>)
    ensures
        ranges(v) == Seq::<(u64, u64)>::empty(),
{
    heapless::Vec::new()
}

/// `heapless::Vec::push`: appends the range while fewer than 32 are held;
/// otherwise the list stays as it was and the range comes back as the error.
#[verifier::external_body]
pub(crate) fn ranges_push(v: &mut heapless::Vec<(u64, u64), 32>, item: (u64, u64)) -> (r: Result<
    (),
    (u64, u64),
>)
    ensures
        r == (if ranges(*old(v)).len() < ACK_LIST_CAP {
            Ok::<(), (u64, u64)>(())
        } else {
            Err::<(), (u64, u64)>(item)
        }),
        ranges(*final(v)) == (if ranges(*old(v)).len() < ACK_LIST_CAP {
            ranges(*old(v)).push(item)
        } else {
            ranges(*old(v))
        }),
{
    v.push(item)
}

/// `heapless::Vec::as_slice`: the ranges, in order.
#[verifier::external_body]
pub(crate) fn ranges_slice(v: &heapless::Vec<(u64, u64), 32>) -> (s: &[(u64, u64)])
    ensures
        s@ == ranges(*v),
{
    v.as_slice()
}

/// The capacity of a list of header fields.
pub const HEADER_CAP: usize = 20;

/// The names and values in a list of header fields, in order.
pub uninterp spec fn headers(v: heapless::Vec<(&[u8], &[u8]), 20>) -> Seq<(Seq<u8>, Seq<u8>)>;

/// `heapless::Vec::new`: an empty list of header fields.
#[verifier::external_body]
pub(crate) fn headers_new<'a>() -> (v: heapless::Vec<(&'a [u8], &'a [u8]), 20>)
    ensures
        headers(v) == Seq::<(Seq<u8>, Seq<u8>)>::empty(),
{
    heapless::Vec::new()
}

/// `heapless::Vec::push`: appends the field while fewer than 20 are held;
/// otherwise the list stays as it was and the field comes back as the error.
#[verifier::external_body]
pub(crate) fn headers_push<'a>(
    v: &mut heapless::Vec<(&'a [u8], &'a [u8]), 20>,
    item: (&'a [u8], &'a [u8]),
) -> (r: Result<(), (&'a [u8], &'a [u8])>)
    ensures
        r == (if headers(*old(v)).len() < HEADER_CAP {
            Ok::<(), (&'a [u8], &'a [u8])>(())
        } else {
            Err::<(), (&'a [u8], &'a [u8])>(item)
        }),
        headers(*final(v)) == (if headers(*old(v)).len() < HEADER_CAP {
            headers(*old(v)).push((item.0@, item.1@))
        } else {
            headers(*old(v))
        }),
{
    v.push(item)
}

/// `heapless::Vec::as_slice`: the fields, in order.
#[verifier::external_body]
pub(crate) fn headers_slice<'a, 'b>(v: &'b heapless::Vec<(&'a [u8], &'a [u8]), 20>) -> (s: &'b [(
    &'a [u8],
    &'a [u8],
)])
    ensures
        qpack::fields_of(s@) == headers(*v),
{
    v.as_slice()
}

} // verus!
