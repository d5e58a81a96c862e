//! Per-stream state.

use vstd::prelude::*;

use crate::transport::flow_control::RecvWindow;

verus! {

/// What a connection knows of a stream.
#[derive(Debug, Clone, Copy, PartialEq, Eq, Structural)]
pub struct StreamState {
    pub id: u64,
    pub send_offset: u64,
    pub send_limit: u64,
    pub fin_sent: bool,
    pub recv: RecvWindow,
}

/// The streams of a connection; no two have the same ID.
pub struct StreamMap {
    pub entries: Vec<StreamState>,
}

/// The first stream at or behind position `i` whose receive window is due for a
/// higher limit; the length if there is none.
pub open spec fn first_due(streams: Seq<StreamState>, i: int) -> int
    decreases streams.len() - i,
{
    if i < 0 || i >= streams.len() {
        streams.len() as int
    } else if streams[i].recv.due() {
        i
    } else {
        first_due(streams, i + 1)
    }
}

/// `streams` after the higher limit of the stream at `i` was advertised.
pub open spec fn renewed_at(streams: Seq<StreamState>, i: int) -> Seq<StreamState> {
    streams.update(i, StreamState { recv: streams[i].recv.renewed(), ..streams[i] })
}

/// No two streams have the same ID.
pub open spec fn distinct_ids(streams: Seq<StreamState>) -> bool {
    forall|i: int, j: int|
        0 <= i < j < streams.len() ==> (#[trigger] streams[i]).id != (#[trigger] streams[j]).id
}

/// The first due stream is due, and none before it is.
pub proof fn lemma_first_due(streams: Seq<StreamState>, i: int)
    requires
        0 <= i <= streams.len(),
    ensures
        i <= first_due(streams, i) <= streams.len(),
        first_due(streams, i) < streams.len() ==> streams[first_due(streams, i)].recv.due(),
        forall|j: int| i <= j < first_due(streams, i) ==> !(#[trigger] streams[j]).recv.due(),
    decreases streams.len() - i,
{
    if i < streams.len() && !streams[i].recv.due() {
        lemma_first_due(streams, i + 1);
    }
}

impl View for StreamMap {
    type V = Seq<StreamState>;

    open spec fn view(&self) -> Seq<StreamState> {
        self.entries@
    }
}

impl StreamMap {
    /// No streams.
    pub fn new() -> (r: Self)
        ensures
            r@ == Seq::<StreamState>::empty(),
    {
        StreamMap { entries: Vec::new() }
    }

    /// The position of a stream.
    pub fn find(&self, id: u64) -> (r: Option<usize>)
        ensures
            match r {
                Some(i) => i < self@.len() && self@[i as int].id == id && forall|j: int|
                    0 <= j < i ==> (#[trigger] self@[j]).id != id,
                None => forall|j: int| 0 <= j < self@.len() ==> (#[trigger] self@[j]).id != id,
            },
    {
        let mut i: usize = 0;
        while i < self.entries.len()
            invariant
                i <= self.entries@.len(),
                forall|j: int| 0 <= j < i ==> (#[trigger] self@[j]).id != id,
            decreases self.entries@.len() - i,
        {
            if self.entries[i].id == id {
                return Some(i);
            }
            i = i + 1;
        }
        None
    }

    /// The first stream whose receive window is due for a higher limit, with
    /// that limit.
    pub fn should_send_max_stream_data(&self) -> (r: Option<(u64, u64)>)
        ensures
            ({
                let i = first_due(self@, 0);
                r == (if i < self@.len() {
                    Some((self@[i].id, self@[i].recv.full_limit()))
                } else {
                    None::<(u64, u64)>
                })
            }),
    {
        let mut i: usize = 0;
        while i < self.entries.len()
            invariant
                i <= self.entries@.len(),
                first_due(self@, 0) == first_due(self@, i as int),
            decreases self.entries@.len() - i,
        {
            match self.entries[i].recv.renewal() {
                Some(max) => {
                    return Some((self.entries[i].id, max));
                },
                None => {},
            }
            i = i + 1;
        }
        None
    }

    /// Record that the higher limit of stream `id` was advertised.
    pub fn mark_max_stream_data_sent(&mut self, id: u64)
        ensures
            forall|i: int|
                #![trigger old(self)@[i]]
                0 <= i < old(self)@.len() && old(self)@[i].id == id && distinct_ids(old(self)@)
                    ==> final(self)@ == renewed_at(old(self)@, i),
            (forall|j: int| 0 <= j < old(self)@.len() ==> (#[trigger] old(self)@[j]).id != id)
                ==> final(self)@ == old(self)@,
    {
        match self.find(id) {
            Some(i) => {
                let mut s = self.entries[i];
                s.recv.renew();
                self.entries[i] = s;
                assert(self@ == renewed_at(old(self)@, i as int));
            },
            None => {},
        }
    }
}

} // verus!
