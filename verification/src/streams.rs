//! The streams of a connection.

use crate::error::Error;
use crate::stream::{RangeBuf, RecvBuf, RecvView};
use std::collections::{HashMap, HashSet};
use vstd::prelude::*;

verus! {

broadcast use vstd::std_specs::hash::group_hash_axioms;

/// What the peer may send on the streams that it opens.
#[derive(Clone, Copy, Debug, PartialEq, Eq, Structural)]
pub struct StreamLimits {
    /// The number of bidirectional streams.
    pub max_streams_bidi: u64,
    /// The number of unidirectional streams.
    pub max_streams_uni: u64,
    /// The number of bytes on a bidirectional stream.
    pub max_stream_data_bidi: u64,
    /// The number of bytes on a unidirectional stream.
    pub max_stream_data_uni: u64,
}

/// Whether a stream is opened by this side of the connection: servers open the
/// odd streams, clients the even ones.
pub open spec fn is_local(id: u64, is_server: bool) -> bool {
    (id % 2 == 1) == is_server
}

/// Whether data flows both ways on a stream.
pub open spec fn is_bidi(id: u64) -> bool {
    id % 4 < 2
}

/// The state of the streams of a connection.
#[verifier::ext_equal]
pub struct StreamsView {
    pub is_server: bool,
    pub limits: StreamLimits,
    /// The number of bidirectional streams that the peer has opened, which
    /// includes those with a smaller number than one it used.
    pub opened_bidi: u64,
    /// The number of unidirectional streams that the peer has opened.
    pub opened_uni: u64,
    /// The streams, by their IDs.
    pub live: Map<u64, RecvView>,
    /// The streams that are over.
    pub collected: Set<u64>,
}

impl StreamsView {
    /// The number of streams of the kind of `id` that the peer has opened once
    /// it has used `id`.
    pub open spec fn opened_with(self, id: u64) -> u64 {
        let opened = if is_bidi(id) {
            self.opened_bidi
        } else {
            self.opened_uni
        };
        if id / 4 + 1 > opened {
            (id / 4 + 1) as u64
        } else {
            opened
        }
    }

    /// The error that a stream the peer uses is refused with, if it is.
    pub open spec fn refusal(self, id: u64) -> Option<Error> {
        let max = if is_bidi(id) {
            self.limits.max_streams_bidi
        } else {
            self.limits.max_streams_uni
        };
        if self.live.contains_key(id) {
            None
        } else if self.collected.contains(id) {
            Some(Error::Done)
        } else if is_local(id, self.is_server) {
            Some(Error::InvalidStreamState(id))
        } else if self.opened_with(id) > max {
            Some(Error::StreamLimit)
        } else {
            None
        }
    }

    /// The streams once the peer uses stream `id`, which is not refused.
    pub open spec fn with(self, id: u64) -> StreamsView {
        if self.live.contains_key(id) {
            self
        } else if is_bidi(id) {
            StreamsView {
                opened_bidi: self.opened_with(id),
                live: self.live.insert(id, RecvView::fresh(self.limits.max_stream_data_bidi)),
                ..self
            }
        } else {
            StreamsView {
                opened_uni: self.opened_with(id),
                live: self.live.insert(id, RecvView::fresh(self.limits.max_stream_data_uni)),
                ..self
            }
        }
    }

    /// The streams with another state of stream `id`.
    pub open spec fn update(self, id: u64, stream: RecvView) -> StreamsView {
        StreamsView { live: self.live.insert(id, stream), ..self }
    }

    /// The streams once stream `id` is over.
    pub open spec fn collect(self, id: u64) -> StreamsView {
        StreamsView {
            live: self.live.remove(id),
            collected: self.collected.insert(id),
            ..self
        }
    }

    /// Whether stream `id` has something to read.
    pub open spec fn readable(self, id: u64) -> bool {
        self.live.contains_key(id) && self.live[id].readable()
    }
}

/// The number of bytes, over all streams, that were received and that the
/// application has not disposed of.
pub open spec fn outstanding(live: Map<u64, RecvView>) -> int
    decreases live.dom().len(),
{
    if live.dom().finite() && live.dom().len() > 0 {
        let id = live.dom().choose();
        live[id].outstanding() + outstanding(live.remove(id))
    } else {
        0
    }
}

/// Any stream can be counted first.
pub proof fn lemma_outstanding(live: Map<u64, RecvView>, id: u64)
    requires
        live.dom().finite(),
        live.contains_key(id),
    ensures
        outstanding(live) == live[id].outstanding() + outstanding(live.remove(id)),
    decreases live.dom().len(),
{
    let first = live.dom().choose();
    if first != id {
        lemma_outstanding(live.remove(first), id);
        lemma_outstanding(live.remove(id), first);
        assert(live.remove(first).remove(id) =~= live.remove(id).remove(first));
    }
}

/// How the count changes with the state of one stream.
pub proof fn lemma_outstanding_insert(live: Map<u64, RecvView>, id: u64, stream: RecvView)
    requires
        live.dom().finite(),
    ensures
        outstanding(live.insert(id, stream)) == stream.outstanding() + outstanding(
            live.remove(id),
        ),
        live.contains_key(id) ==> outstanding(live) == live[id].outstanding() + outstanding(
            live.remove(id),
        ),
        !live.contains_key(id) ==> outstanding(live) == outstanding(live.remove(id)),
{
    lemma_outstanding(live.insert(id, stream), id);
    assert(live.insert(id, stream).remove(id) =~= live.remove(id));
    if live.contains_key(id) {
        lemma_outstanding(live, id);
    } else {
        assert(live.remove(id) =~= live);
    }
}

/// The count is not negative where no stream's is.
pub proof fn lemma_outstanding_bound(live: Map<u64, RecvView>)
    requires
        forall|id: u64| #[trigger] live.contains_key(id) ==> live[id].outstanding() >= 0,
    ensures
        outstanding(live) >= 0,
    decreases live.dom().len(),
{
    if live.dom().finite() && live.dom().len() > 0 {
        let id = live.dom().choose();
        assert(live.contains_key(id));
        lemma_outstanding_bound(live.remove(id));
    }
}

/// Which streams of the peer are refused, and why. Streams with an odd number
/// are the server's; of four in a row, the first two are bidirectional. A stream
/// opens all of its kind with a smaller number.
pub proof fn law_stream_refusals(streams: StreamsView, id: u64)
    ensures
        ({
            let live = streams.live.contains_key(id);
            let over = streams.collected.contains(id);
            let own = (id % 2 == 1) == streams.is_server;
            let bidi = id % 4 == 0 || id % 4 == 1;
            let (opened, max) = if bidi {
                (streams.opened_bidi, streams.limits.max_streams_bidi)
            } else {
                (streams.opened_uni, streams.limits.max_streams_uni)
            };
            let too_many = id / 4 >= max || opened > max;
            let refusal = streams.refusal(id);
            &&& refusal == Some(Error::Done) <==> !live && over
            &&& refusal == Some(Error::InvalidStreamState(id)) <==> !live && !over && own
            &&& refusal == Some(Error::StreamLimit) <==> !live && !over && !own && too_many
            &&& refusal is None <==> live || (!over && !own && !too_many)
        }),
{
}

/// What the use of a stream that is not refused does: it is there, empty and
/// with the limit of its kind if it is new, and no other stream changes.
pub proof fn law_stream_opened(streams: StreamsView, id: u64)
    requires
        streams.refusal(id) is None,
    ensures
        ({
            let after = streams.with(id);
            let bidi = id % 4 == 0 || id % 4 == 1;
            &&& after.live.contains_key(id)
            &&& after.live.remove(id) == streams.live.remove(id)
            &&& streams.live.contains_key(id) ==> after == streams
            &&& !streams.live.contains_key(id) ==> {
                &&& after.live[id] == RecvView::fresh(
                    if bidi {
                        streams.limits.max_stream_data_bidi
                    } else {
                        streams.limits.max_stream_data_uni
                    },
                )
                &&& bidi ==> after.opened_uni == streams.opened_uni && after.opened_bidi
                    >= streams.opened_bidi && after.opened_bidi > id / 4 && (after.opened_bidi
                    == streams.opened_bidi || after.opened_bidi == id / 4 + 1)
                &&& !bidi ==> after.opened_bidi == streams.opened_bidi && after.opened_uni
                    >= streams.opened_uni && after.opened_uni > id / 4 && (after.opened_uni
                    == streams.opened_uni || after.opened_uni == id / 4 + 1)
            }
            &&& after.collected == streams.collected
            &&& after.is_server == streams.is_server
            &&& after.limits == streams.limits
        }),
{
    assert(streams.with(id).live.remove(id) =~= streams.live.remove(id));
}

/// A stream that is over is there no more, has nothing to read, and is not
/// opened again; no other stream changes.
pub proof fn law_stream_over(streams: StreamsView, id: u64, other: u64)
    ensures
        ({
            let after = streams.collect(id);
            &&& !after.live.contains_key(id)
            &&& !after.readable(id)
            &&& after.refusal(id) == Some(Error::Done)
            &&& other != id ==> after.live.contains_key(other) == streams.live.contains_key(other)
                && after.live[other] == streams.live[other] && after.collected.contains(other)
                == streams.collected.contains(other)
            &&& after.opened_bidi == streams.opened_bidi
            &&& after.opened_uni == streams.opened_uni
            &&& after.is_server == streams.is_server
            &&& after.limits == streams.limits
        }),
{
}

/// Another state of one stream changes no other, nor anything else.
pub proof fn law_stream_updated(streams: StreamsView, id: u64, stream: RecvView, other: u64)
    ensures
        ({
            let after = streams.update(id, stream);
            &&& after.live.contains_key(id) && after.live[id] == stream
            &&& other != id ==> after.live.contains_key(other) == streams.live.contains_key(other)
                && after.live[other] == streams.live[other]
            &&& after.collected == streams.collected
            &&& after.opened_bidi == streams.opened_bidi
            &&& after.opened_uni == streams.opened_uni
            &&& after.is_server == streams.is_server
            &&& after.limits == streams.limits
        }),
{
}

/// A stream has something to read exactly where it is there, and its next byte
/// or its untold end is.
pub proof fn law_stream_readable_iff(streams: StreamsView, id: u64)
    ensures
        streams.readable(id) <==> streams.live.contains_key(id) && !streams.live[id].drain && (
        streams.live[id].data.contains_key(streams.live[id].off as int) || (streams.live[id].fin_off
            == Some(streams.live[id].off) && !streams.live[id].fin_read)),
{
}

/// The streams of a connection, as far as data is received on them.
pub struct StreamMap {
    is_server: bool,
    limits: StreamLimits,
    opened_bidi: u64,
    opened_uni: u64,
    streams: HashMap<u64, RecvBuf>,
    collected: HashSet<u64>,
    /// The streams that have something to read, in the order in which they
    /// came to have it.
    readable: Vec<u64>,
}

impl View for StreamMap {
    type V = StreamsView;

    closed spec fn view(&self) -> StreamsView {
        StreamsView {
            is_server: self.is_server,
            limits: self.limits,
            opened_bidi: self.opened_bidi,
            opened_uni: self.opened_uni,
            live: self.streams@.map_values(|s: RecvBuf| s@),
            collected: self.collected@,
        }
    }
}

impl StreamMap {
    /// Every stream is well-formed, and the list of readable streams is exact.
    pub closed spec fn wf(&self) -> bool {
        &&& self.streams_wf()
        &&& self.readable@.no_duplicates()
        &&& forall|id: u64| #[trigger] self.readable@.contains(id) <==> self@.readable(id)
    }

    spec fn streams_wf(&self) -> bool {
        forall|id: u64| #[trigger] self.streams@.contains_key(id) ==> self.streams@[id].wf()
    }

    /// Creates the streams of a new connection.
    pub fn new(is_server: bool, limits: StreamLimits) -> (s: Self)
        ensures
            s.wf(),
            s@ == (StreamsView {
                is_server,
                limits,
                opened_bidi: 0,
                opened_uni: 0,
                live: Map::empty(),
                collected: Set::empty(),
            }),
    {
        let s = StreamMap {
            is_server,
            limits,
            opened_bidi: 0,
            opened_uni: 0,
            streams: HashMap::new(),
            collected: HashSet::new(),
            readable: Vec::new(),
        };
        assert(s@.live =~= Map::<u64, RecvView>::empty());
        s
    }

    /// There are finitely many streams.
    pub proof fn lemma_finite(&self)
        ensures
            self@.live.dom().finite(),
    {
        assert(self@.live.dom() =~= self.streams@.dom());
    }

    /// The state of every stream is sound.
    pub proof fn lemma_sound(&self)
        requires
            self.wf(),
        ensures
            forall|id: u64| #[trigger] self@.live.contains_key(id) ==> self@.live[id].sound(),
    {
        assert forall|id: u64| #[trigger] self@.live.contains_key(
            id,
        ) implies self@.live[id].sound() by {
            self.streams@[id].lemma_sound();
        }
    }

    /// Makes sure that the stream that the peer uses is there.
    pub fn get_or_create(&mut self, id: u64) -> (r: Result<(), Error>)
        requires
            old(self).wf(),
        ensures
            final(self).wf(),
            match r {
                Ok(()) => old(self)@.refusal(id) is None && final(self)@ == old(self)@.with(id),
                Err(e) => old(self)@.refusal(id) == Some(e) && final(self)@ == old(self)@,
            },
    {
        if self.streams.contains_key(&id) {
            return Ok(());
        }
        if self.collected.contains(&id) {
            return Err(Error::Done);
        }
        if (id % 2 == 1) == self.is_server {
            return Err(Error::InvalidStreamState(id));
        }
        let bidi = id % 4 < 2;
        let (opened, max, max_data) = if bidi {
            (self.opened_bidi, self.limits.max_streams_bidi, self.limits.max_stream_data_bidi)
        } else {
            (self.opened_uni, self.limits.max_streams_uni, self.limits.max_stream_data_uni)
        };
        let opened: u64 = if id / 4 + 1 > opened {
            id / 4 + 1
        } else {
            opened
        };
        if opened > max {
            return Err(Error::StreamLimit);
        }
        if bidi {
            self.opened_bidi = opened;
        } else {
            self.opened_uni = opened;
        }
        self.streams.insert(id, RecvBuf::new(max_data));
        assert(self@.live =~= old(self)@.with(id).live);
        Ok(())
    }

    /// Returns the receive side of a stream.
    pub fn get(&self, id: u64) -> (s: Option<&RecvBuf>)
        requires
            self.wf(),
        ensures
            match s {
                Some(s) => self@.live.contains_key(id) && self@.live[id] == s@ && s.wf(),
                None => !self@.live.contains_key(id),
            },
    {
        self.streams.get(&id)
    }

    /// Lists a stream as readable.
    fn insert_readable(&mut self, id: u64)
        requires
            !old(self).readable@.contains(id),
            old(self).readable@.no_duplicates(),
        ensures
            final(self).readable@.no_duplicates(),
            forall|k: u64| #[trigger]
                final(self).readable@.contains(k) <==> old(self).readable@.contains(k) || k == id,
            final(self).streams == old(self).streams,
            final(self)@ == old(self)@,
    {
        let ghost before = self.readable@;
        self.readable.push(id);
        proof {
            assert forall|k: u64| #[trigger] self.readable@.contains(k) <==> before.contains(k) || k
                == id by {
                if before.contains(k) {
                    let i = choose|i: int| 0 <= i < before.len() && before[i] == k;
                    assert(self.readable@[i] == k);
                }
                if k == id {
                    assert(self.readable@[before.len() as int] == k);
                }
            }
        }
    }

    /// Lists a stream as readable no more.
    fn remove_readable(&mut self, id: u64)
        requires
            old(self).readable@.no_duplicates(),
        ensures
            final(self).readable@.no_duplicates(),
            forall|k: u64| #[trigger]
                final(self).readable@.contains(k) <==> old(self).readable@.contains(k) && k != id,
            final(self).streams == old(self).streams,
            final(self)@ == old(self)@,
    {
        let mut i: usize = 0;
        while i < self.readable.len()
            invariant
                i <= self.readable@.len(),
                *self == *old(self),
                self.readable@.no_duplicates(),
                forall|k: int| 0 <= k < i ==> self.readable@[k] != id,
            decreases self.readable@.len() - i,
        {
            if self.readable[i] == id {
                let ghost before = self.readable@;
                self.readable.remove(i);
                proof {
                    let after = self.readable@;
                    assert(after =~= before.remove(i as int));
                    assert forall|k: u64| #[trigger] after.contains(k) <==> before.contains(k) && k
                        != id by {
                        if after.contains(k) {
                            let j = choose|j: int| 0 <= j < after.len() && after[j] == k;
                            if j < i {
                                assert(before[j] == k);
                            } else {
                                assert(before[j + 1] == k);
                            }
                        }
                        if before.contains(k) && k != id {
                            let j = choose|j: int| 0 <= j < before.len() && before[j] == k;
                            if j < i {
                                assert(after[j] == k);
                            } else {
                                assert(after[j - 1] == k);
                            }
                        }
                    }
                }
                return;
            }
            i += 1;
        }
    }

    /// Takes in a chunk of data on a stream, and lists the stream as readable
    /// if it becomes so.
    pub fn write(&mut self, id: u64, data: &RangeBuf) -> (r: Result<(), Error>)
        requires
            old(self).wf(),
            old(self)@.live.contains_key(id),
            data.wf(),
        ensures
            final(self).wf(),
            ({
                let refusal = old(self)@.live[id].refusal(data.off, data.data@, data.fin);
                let written = old(self)@.live[id].written(data.off, data.data@, data.fin);
                match r {
                    Ok(()) => refusal is None && final(self)@ == old(self)@.update(id, written),
                    Err(e) => refusal == Some(e) && final(self)@ == old(self)@,
                }
            }),
    {
        let mut stream = match self.streams.remove(&id) {
            Some(s) => s,
            None => return Err(Error::InvalidStreamState(id)),
        };
        let was_readable = stream.is_readable();
        let r = stream.write(data);
        let is_readable = stream.is_readable();
        let ghost after = stream@;
        self.streams.insert(id, stream);
        proof {
            assert(self@.live =~= old(self)@.live.insert(id, after));
            if r is Err {
                assert(self@.live =~= old(self)@.live);
            }
        }
        if !was_readable && is_readable {
            self.insert_readable(id);
        }
        r
    }

    /// Reads from a stream. A unidirectional stream that has been read to its
    /// end is over.
    pub fn read(&mut self, id: u64, out: &mut [u8]) -> (r: Result<(usize, bool), Error>)
        requires
            old(self).wf(),
        ensures
            final(self).wf(),
            match r {
                Ok((n, fin)) => {
                    let before = old(self)@.live[id];
                    let after = before.after_read(n as nat);
                    &&& old(self)@.readable(id)
                    &&& n <= old(out)@.len()
                    &&& forall|o: int|
                        before.off <= o < before.off + n ==> #[trigger] before.data.contains_key(o)
                    &&& forall|i: int|
                        0 <= i < n ==> #[trigger] final(out)@[i] == before.data[before.off + i]
                    &&& n == old(out)@.len() || !before.data.contains_key(before.off + n)
                    &&& final(out)@.len() == old(out)@.len()
                    &&& final(out)@.skip(n as int) == old(out)@.skip(n as int)
                    &&& fin == (before.fin_off == Some(after.off))
                    &&& final(self)@ == (if fin && !is_bidi(id) {
                        old(self)@.collect(id)
                    } else {
                        old(self)@.update(id, after)
                    })
                    &&& before.off + n <= before.len
                },
                Err(e) => {
                    &&& !old(self)@.readable(id)
                    &&& e == (if old(self)@.live.contains_key(id) {
                        Error::Done
                    } else {
                        Error::InvalidStreamState(id)
                    })
                    &&& final(self)@ == old(self)@
                    &&& final(out)@ == old(out)@
                },
            },
    {
        let mut stream = match self.streams.remove(&id) {
            Some(s) => s,
            None => {
                assert(self@.live =~= old(self)@.live);
                return Err(Error::InvalidStreamState(id));
            },
        };
        let r = stream.emit(out);
        let is_readable = stream.is_readable();
        let over = match r {
            Ok((_, fin)) => fin && id % 4 >= 2,
            Err(_) => false,
        };
        let ghost after = stream@;
        if over {
            self.collected.insert(id);
            assert(self@.live =~= old(self)@.live.remove(id));
        } else {
            self.streams.insert(id, stream);
            proof {
                assert(self@.live =~= old(self)@.live.insert(id, after));
                if r is Err {
                    assert(self@.live =~= old(self)@.live);
                }
            }
        }
        if over || !is_readable {
            self.remove_readable(id);
        }
        r
    }

    /// Gives up reading a stream. Returns the number of bytes that the
    /// application had not read.
    pub fn shutdown(&mut self, id: u64) -> (r: Result<u64, Error>)
        requires
            old(self).wf(),
        ensures
            final(self).wf(),
            match r {
                Ok(n) => {
                    &&& old(self)@.live.contains_key(id)
                    &&& !old(self)@.live[id].drain
                    &&& n == old(self)@.live[id].outstanding()
                    &&& final(self)@ == old(self)@.update(id, old(self)@.live[id].after_shutdown())
                },
                Err(e) => {
                    &&& final(self)@ == old(self)@
                    &&& if old(self)@.live.contains_key(id) {
                        old(self)@.live[id].drain && e == Error::Done
                    } else {
                        e == Error::InvalidStreamState(id)
                    }
                },
            },
    {
        let mut stream = match self.streams.remove(&id) {
            Some(s) => s,
            None => {
                assert(self@.live =~= old(self)@.live);
                return Err(Error::InvalidStreamState(id));
            },
        };
        let r = stream.shutdown();
        let ghost after = stream@;
        self.streams.insert(id, stream);
        proof {
            assert(self@.live =~= old(self)@.live.insert(id, after));
            if r is Err {
                assert(self@.live =~= old(self)@.live);
            }
        }
        self.remove_readable(id);
        r
    }

    /// Returns the streams that have something to read.
    pub fn readable(&self) -> (ids: Vec<u64>)
        requires
            self.wf(),
        ensures
            ids@.no_duplicates(),
            forall|id: u64| #[trigger] ids@.contains(id) <==> self@.readable(id),
    {
        self.readable.clone()
    }
}

} // verus!
