//! Reassembly of received stream data.

use crate::error::Error;
use std::collections::BTreeMap;
use vstd::prelude::*;

verus! {

broadcast use vstd::std_specs::btree::group_btree_axioms;

/// A chunk of stream data, at its offset in the stream.
pub struct RangeBuf {
    /// The offset of the first byte.
    pub off: u64,
    /// The bytes.
    pub data: Vec<u8>,
    /// Whether the stream ends behind the last byte.
    pub fin: bool,
}

impl RangeBuf {
    /// The offset behind the last byte.
    pub open spec fn spec_max_off(&self) -> int {
        self.off + self.data@.len()
    }

    /// Offsets fit in 64 bits.
    pub open spec fn wf(&self) -> bool {
        self.spec_max_off() <= u64::MAX
    }

    /// Returns the offset behind the last byte.
    pub fn max_off(&self) -> (off: u64)
        requires
            self.wf(),
        ensures
            off == self.spec_max_off(),
    {
        self.off + self.data.len() as u64
    }
}

/// The state of the receive side of a stream.
#[verifier::ext_equal]
pub struct RecvView {
    /// The offset up to which the application has read.
    pub off: u64,
    /// The largest offset received.
    pub len: u64,
    /// The bytes that were received and not read yet, by offset.
    pub data: Map<int, u8>,
    /// The offset that the peer may send up to.
    pub max_data: u64,
    /// The final size, once it is known.
    pub fin_off: Option<u64>,
    /// Whether the application was told that the stream ended.
    pub fin_read: bool,
    /// Whether incoming data is dropped.
    pub drain: bool,
}

impl RecvView {
    /// A stream on which nothing was received.
    pub open spec fn fresh(max_data: u64) -> RecvView {
        RecvView {
            off: 0,
            len: 0,
            data: Map::empty(),
            max_data,
            fin_off: None,
            fin_read: false,
            drain: false,
        }
    }

    /// The next byte is there, or the end of the stream is, and the application
    /// does not know yet.
    pub open spec fn readable(self) -> bool {
        !self.drain && (self.data.contains_key(self.off as int) || (self.fin_off == Some(self.off)
            && !self.fin_read))
    }

    /// What has been read was received; what was received is within the limit,
    /// and is all there is once the final size is known.
    pub open spec fn sound(self) -> bool {
        &&& self.off <= self.len <= self.max_data
        &&& forall|o: int| #[trigger] self.data.contains_key(o) ==> self.off <= o < self.len
        &&& self.fin_off matches Some(size) ==> size == self.len
    }

    /// Exactly `n` bytes can be read without a gap.
    pub open spec fn has_next(self, n: nat) -> bool {
        &&& forall|o: int| self.off <= o < self.off + n ==> #[trigger] self.data.contains_key(o)
        &&& !self.data.contains_key(self.off + n)
    }

    /// The number of bytes that can be read without a gap.
    pub open spec fn next_len(self) -> nat {
        choose|n: nat| self.has_next(n)
    }

    /// The bytes that can be read without a gap.
    pub open spec fn next_bytes(self) -> Seq<u8> {
        Seq::new(self.next_len(), |i: int| self.data[self.off + i])
    }

    /// Whether the stream ends behind those bytes.
    pub open spec fn ends_next(self) -> bool {
        self.fin_off == Some((self.off + self.next_len()) as u64)
    }

    /// The bytes received of which the application has not disposed, holes
    /// counted.
    pub open spec fn outstanding(self) -> int {
        self.len - self.off
    }

    /// The error that a chunk is refused with, if it is.
    pub open spec fn refusal(self, off: u64, data: Seq<u8>, fin: bool) -> Option<Error> {
        let end = off + data.len();
        if end > self.max_data {
            Some(Error::FlowControl)
        } else if self.fin_off matches Some(size) && (end > size || (fin && end != size)) {
            Some(Error::FinalSize)
        } else if fin && end < self.len {
            Some(Error::FinalSize)
        } else {
            None
        }
    }

    /// The state after a chunk that is not refused. Bytes that are already there
    /// are kept, and bytes that the application has read are dropped.
    pub open spec fn written(self, off: u64, data: Seq<u8>, fin: bool) -> RecvView {
        let end = off + data.len();
        let len = if end > self.len {
            end as u64
        } else {
            self.len
        };
        if data.len() == 0 && !fin {
            self
        } else {
            RecvView {
                off: if self.drain {
                    len
                } else {
                    self.off
                },
                len,
                data: if self.drain {
                    self.data
                } else {
                    chunk_from(self.off as int, off as int, data).union_prefer_right(self.data)
                },
                fin_off: if fin {
                    Some(end as u64)
                } else {
                    self.fin_off
                },
                ..self
            }
        }
    }

    /// The state after the application has read `n` bytes, and was told the end
    /// of the stream if it is there.
    pub open spec fn after_read(self, n: nat) -> RecvView {
        let off = (self.off + n) as u64;
        RecvView {
            off,
            data: self.data.remove_keys(Set::new(|o: int| o < off)),
            fin_read: self.fin_read || self.fin_off == Some(off),
            ..self
        }
    }

    /// The state after the application has given up reading.
    pub open spec fn after_shutdown(self) -> RecvView {
        RecvView { off: self.len, data: Map::empty(), drain: true, ..self }
    }
}

/// There is one number of bytes that can be read without a gap.
pub proof fn lemma_next_len(stream: RecvView, n: nat)
    requires
        stream.has_next(n),
    ensures
        stream.next_len() == n,
{
    let m = stream.next_len();
    assert(stream.has_next(m));
    if m < n {
        assert(stream.data.contains_key(stream.off + m));
    }
    if n < m {
        assert(stream.data.contains_key(stream.off + n));
    }
}

/// Reading in two steps is reading at once.
pub proof fn lemma_read_twice(stream: RecvView, n: nat, m: nat)
    requires
        stream.sound(),
        stream.off + n + m <= stream.len,
    ensures
        stream.after_read(n).after_read(m) == stream.after_read(n + m),
        stream.after_read(n).sound(),
{
    assert(stream.after_read(n).after_read(m).data =~= stream.after_read(n + m).data);
}

/// The bytes of a chunk at or above offset `from`, by offset.
pub open spec fn chunk_from(from: int, off: int, data: Seq<u8>) -> Map<int, u8> {
    Map::new(|o: int| from <= o && off <= o < off + data.len(), |o: int| data[o - off])
}

/// A part of what a sender sends on a stream.
pub struct Chunk {
    pub off: u64,
    pub end: u64,
    pub fin: bool,
}

impl Chunk {
    /// The part lies within `content`.
    pub open spec fn within(self, content: Seq<u8>) -> bool {
        self.off <= self.end <= content.len()
    }
}

/// The state after parts of `content`, in the order in which they arrive.
pub open spec fn after_chunks(stream: RecvView, content: Seq<u8>, chunks: Seq<Chunk>) -> RecvView
    decreases chunks.len(),
{
    if chunks.len() == 0 {
        stream
    } else {
        let last = chunks.last();
        after_chunks(stream, content, chunks.drop_last()).written(
            last.off,
            content.subrange(last.off as int, last.end as int),
            last.fin,
        )
    }
}

/// Every byte that was received and not read yet is that of `content` at its
/// offset.
pub open spec fn agrees(stream: RecvView, content: Seq<u8>) -> bool {
    forall|o: int| #[trigger]
        stream.data.contains_key(o) ==> 0 <= o < content.len() && stream.data[o] == content[o]
}

/// However the parts of a stream arrive (in any order, overlapping, more than
/// once), each byte of them that was not read yet can be read, and is what was
/// sent.
pub proof fn law_reassembly(stream: RecvView, content: Seq<u8>, chunks: Seq<Chunk>)
    requires
        agrees(stream, content),
        !stream.drain,
        forall|i: int| 0 <= i < chunks.len() ==> (#[trigger] chunks[i]).within(content),
    ensures
        ({
            let after = after_chunks(stream, content, chunks);
            &&& agrees(after, content)
            &&& after.off == stream.off
            &&& !after.drain
            &&& forall|o: int| #[trigger]
                after.data.contains_key(o) <==> stream.data.contains_key(o) || (stream.off <= o
                    && exists|i: int|
                    0 <= i < chunks.len() && (#[trigger] chunks[i]).off <= o < chunks[i].end)
        }),
    decreases chunks.len(),
{
    if chunks.len() > 0 {
        let rest = chunks.drop_last();
        let last = chunks.last();
        assert forall|i: int| 0 <= i < rest.len() implies (#[trigger] rest[i]).within(content) by {
            assert(chunks[i].within(content));
        }
        law_reassembly(stream, content, rest);
        let before = after_chunks(stream, content, rest);
        let after = after_chunks(stream, content, chunks);
        assert(last.within(content)) by {
            assert(chunks[chunks.len() - 1].within(content));
        }
        assert forall|o: int| #[trigger] after.data.contains_key(o) <==> stream.data.contains_key(o)
            || (stream.off <= o && exists|i: int|
            0 <= i < chunks.len() && (#[trigger] chunks[i]).off <= o < chunks[i].end) by {
            assert(after.data.contains_key(o) <==> before.data.contains_key(o) || (stream.off <= o
                && last.off <= o < last.end));
            if last.off <= o < last.end {
                assert(chunks[chunks.len() - 1].off <= o);
            }
            if exists|i: int| 0 <= i < rest.len() && (#[trigger] rest[i]).off <= o < rest[i].end {
                let i = choose|i: int|
                    0 <= i < rest.len() && (#[trigger] rest[i]).off <= o < rest[i].end;
                assert(chunks[i].off <= o < chunks[i].end);
            }
            if exists|i: int|
                0 <= i < chunks.len() && (#[trigger] chunks[i]).off <= o < chunks[i].end {
                let i = choose|i: int|
                    0 <= i < chunks.len() && (#[trigger] chunks[i]).off <= o < chunks[i].end;
                if i < chunks.len() - 1 {
                    assert(rest[i].off <= o < rest[i].end);
                }
            }
        }
    }
}

/// A part of a stream that arrives again changes nothing.
pub proof fn law_duplicate_chunk(stream: RecvView, off: u64, data: Seq<u8>, fin: bool)
    requires
        stream.off <= stream.len,
        stream.refusal(off, data, fin) is None,
        off + data.len() <= u64::MAX,
    ensures
        ({
            let once = stream.written(off, data, fin);
            &&& once.refusal(off, data, fin) is None
            &&& once.written(off, data, fin) == once
        }),
{
    let once = stream.written(off, data, fin);
    assert(once.written(off, data, fin).data =~= once.data);
}

/// Which chunks are refused, and why: those beyond the limit break flow control;
/// the others are refused exactly where they contradict the final size, be it
/// the one that is known or the one that they bring.
pub proof fn law_refusals(stream: RecvView, off: u64, data: Seq<u8>, fin: bool)
    ensures
        ({
            let end = off + data.len();
            let refusal = stream.refusal(off, data, fin);
            let contradicts = (stream.fin_off is Some && end > stream.fin_off->0) || (fin
                && stream.fin_off is Some && end != stream.fin_off->0) || (fin && end < stream.len);
            &&& refusal == Some(Error::FlowControl) <==> end > stream.max_data
            &&& refusal == Some(Error::FinalSize) <==> end <= stream.max_data && contradicts
            &&& refusal is None <==> end <= stream.max_data && !contradicts
        }),
{
}

/// No part of what a sender sends is refused, within the limit of the stream,
/// whatever parts of it were received and whatever prefix of it was read before.
pub proof fn law_parts_accepted(stream: RecvView, content: Seq<u8>, off: u64, end: u64, fin: bool)
    requires
        // What was received so far is part of the content.
        stream.len <= content.len(),
        stream.fin_off matches Some(size) ==> size == content.len(),
        // So is the chunk, which ends the stream only where the content ends.
        off <= end <= content.len(),
        fin ==> end == content.len(),
        end <= stream.max_data,
    ensures
        stream.refusal(off, content.subrange(off as int, end as int), fin) is None,
        // Which leaves the stream ready for any other part.
        ({
            let after = stream.written(off, content.subrange(off as int, end as int), fin);
            &&& after.len <= content.len()
            &&& after.fin_off matches Some(size) ==> size == content.len()
            &&& after.max_data == stream.max_data
        }),
{
}

/// A chunk that was accepted is accepted again, after any number of reads, and
/// then changes nothing.
pub proof fn law_accepted_again(stream: RecvView, off: u64, data: Seq<u8>, fin: bool, n: nat)
    requires
        stream.off <= stream.len,
        off + data.len() <= u64::MAX,
        stream.refusal(off, data, fin) is None,
        stream.written(off, data, fin).off + n <= stream.written(off, data, fin).len,
    ensures
        ({
            let later = stream.written(off, data, fin).after_read(n);
            &&& later.refusal(off, data, fin) is None
            &&& later.written(off, data, fin) == later
        }),
{
    let later = stream.written(off, data, fin).after_read(n);
    assert(later.written(off, data, fin).data =~= later.data);
}

/// A chunk that brings nothing new, because each of its bytes was read or is
/// there to be read, changes nothing.
pub proof fn law_nothing_new(stream: RecvView, off: u64, data: Seq<u8>, fin: bool)
    requires
        stream.off <= stream.len,
        off + data.len() <= stream.len,
        fin ==> stream.fin_off == Some((off + data.len()) as u64),
        stream.drain ==> stream.off == stream.len,
        forall|o: int|
            off <= o < off + data.len() ==> o < stream.off || #[trigger] stream.data.contains_key(o),
    ensures
        stream.written(off, data, fin) == stream,
{
    assert(stream.written(off, data, fin).data =~= stream.data);
}

/// What a chunk does to a stream that wants it: its bytes that were neither read
/// nor there before are there, and nothing else changes but the largest offset
/// and the final size.
pub proof fn law_chunk_taken(stream: RecvView, off: u64, data: Seq<u8>, fin: bool, o: int)
    requires
        !stream.drain,
        data.len() > 0 || fin,
        off + data.len() <= u64::MAX,
    ensures
        ({
            let after = stream.written(off, data, fin);
            &&& after.data.contains_key(o) <==> stream.data.contains_key(o) || (o >= stream.off
                && off <= o < off + data.len())
            &&& stream.data.contains_key(o) ==> after.data[o] == stream.data[o]
            &&& !stream.data.contains_key(o) && after.data.contains_key(o) ==> after.data[o]
                == data[o - off]
            &&& after.len >= stream.len && after.len >= off + data.len()
            &&& after.len == stream.len || after.len == off + data.len()
            &&& after.fin_off == (if fin {
                Some((off + data.len()) as u64)
            } else {
                stream.fin_off
            })
            &&& after.off == stream.off
            &&& after.max_data == stream.max_data
            &&& after.fin_read == stream.fin_read
            &&& !after.drain
        }),
{
}

/// A chunk on a stream that was given up is counted and dropped; one that is
/// empty, and does not end the stream, does nothing anywhere.
pub proof fn law_chunk_dropped(stream: RecvView, off: u64, data: Seq<u8>, fin: bool)
    requires
        off + data.len() <= u64::MAX,
    ensures
        data.len() == 0 && !fin ==> stream.written(off, data, fin) == stream,
        stream.drain ==> stream.written(off, data, fin).data == stream.data,
        stream.drain && (data.len() > 0 || fin) ==> stream.written(off, data, fin).outstanding()
            == 0 && stream.written(off, data, fin).drain,
{
}

/// What reading does: the bytes that were read are gone, the others are still
/// there, and the application knows of the end once it has read up to it.
pub proof fn law_bytes_read(stream: RecvView, n: nat, o: int)
    requires
        stream.off + n <= stream.len,
    ensures
        ({
            let after = stream.after_read(n);
            &&& after.off == stream.off + n
            &&& after.data.contains_key(o) <==> stream.data.contains_key(o) && o >= stream.off + n
            &&& after.data.contains_key(o) ==> after.data[o] == stream.data[o]
            &&& after.outstanding() == stream.outstanding() - n
            &&& after.fin_read <==> stream.fin_read || stream.fin_off == Some(
                (stream.off + n) as u64,
            )
            &&& after.len == stream.len
            &&& after.max_data == stream.max_data
            &&& after.fin_off == stream.fin_off
            &&& after.drain == stream.drain
        }),
{
}

/// A stream that was given up has nothing to read, and nothing outstanding; what
/// was received of it still counts.
pub proof fn law_given_up(stream: RecvView)
    ensures
        ({
            let after = stream.after_shutdown();
            &&& !after.readable()
            &&& after.outstanding() == 0
            &&& after.data == Map::<int, u8>::empty()
            &&& after.drain
            &&& after.len == stream.len
            &&& after.fin_off == stream.fin_off
            &&& after.max_data == stream.max_data
        }),
{
}

/// There is something to read exactly where the next byte is there, or the end
/// of the stream is and the application was not told; never on a stream that was
/// given up.
pub proof fn law_something_to_read(stream: RecvView)
    ensures
        stream.drain ==> !stream.readable(),
        !stream.drain && stream.data.contains_key(stream.off as int) ==> stream.readable(),
        !stream.drain && stream.fin_off == Some(stream.off) && !stream.fin_read
            ==> stream.readable(),
        stream.readable() ==> stream.data.contains_key(stream.off as int) || (stream.fin_off == Some(
            stream.off,
        ) && !stream.fin_read),
{
}

/// A new stream is empty: nothing was read, nothing received, and nothing
/// ended.
pub proof fn law_fresh_stream(max_data: u64)
    ensures
        ({
            let stream = RecvView::fresh(max_data);
            &&& stream.off == 0 && stream.len == 0
            &&& stream.data == Map::<int, u8>::empty()
            &&& stream.fin_off is None && !stream.fin_read
            &&& !stream.drain
            &&& stream.max_data == max_data
            &&& stream.outstanding() == 0
        }),
{
}

/// Some offset at or above `from` holds no byte, and all those before it, from
/// the first unread one on, do.
proof fn lemma_gap(stream: RecvView, from: nat) -> (n: nat)
    requires
        stream.sound(),
        stream.off + from <= stream.len,
        forall|o: int| stream.off <= o < stream.off + from ==> #[trigger] stream.data.contains_key(o),
    ensures
        stream.off + n <= stream.len,
        forall|o: int| stream.off <= o < stream.off + n ==> #[trigger] stream.data.contains_key(o),
        !stream.data.contains_key(stream.off + n),
    decreases stream.len - stream.off - from,
{
    if stream.data.contains_key(stream.off + from) {
        lemma_gap(stream, from + 1)
    } else {
        from
    }
}

/// What can be read next is the bytes up to the first gap, all of them and no
/// more.
pub proof fn law_next_bytes(stream: RecvView, i: int)
    requires
        stream.sound(),
        0 <= i < stream.next_bytes().len(),
    ensures
        stream.data.contains_key(stream.off + i),
        stream.next_bytes()[i] == stream.data[stream.off + i],
{
    let n = lemma_gap(stream, 0);
    assert(stream.has_next(n));
    lemma_next_len(stream, n);
}

/// What can be read next ends at a gap, or at the end of what was received; the
/// stream ends there exactly where that is its final size.
pub proof fn law_next_gap(stream: RecvView)
    requires
        stream.sound(),
    ensures
        ({
            let n = stream.next_bytes().len();
            &&& !stream.data.contains_key(stream.off + n)
            &&& stream.off + n <= stream.len
            &&& stream.ends_next() <==> (stream.fin_off is Some && stream.fin_off->0 == stream.off + n)
        }),
{
    let n = lemma_gap(stream, 0);
    assert(stream.has_next(n));
    lemma_next_len(stream, n);
}

/// What is read is what was sent, in order and without a gap, and what is left
/// still is.
pub proof fn law_read_in_order(stream: RecvView, content: Seq<u8>, n: nat)
    requires
        agrees(stream, content),
        forall|o: int| stream.off <= o < stream.off + n ==> #[trigger] stream.data.contains_key(o),
    ensures
        Seq::new(n, |i: int| stream.data[stream.off + i]) == (if n > 0 {
            content.subrange(stream.off as int, stream.off + n)
        } else {
            Seq::empty()
        }),
        agrees(stream.after_read(n), content),
{
    if n > 0 {
        assert(stream.data.contains_key(stream.off + n - 1));
        assert forall|i: int| 0 <= i < n implies #[trigger] stream.data[stream.off + i]
            == content[stream.off + i] by {
            assert(stream.data.contains_key(stream.off + i));
        }
        assert(Seq::new(n, |i: int| stream.data[stream.off + i]) =~= content.subrange(
            stream.off as int,
            stream.off + n,
        ));
    } else {
        assert(Seq::new(n, |i: int| stream.data[stream.off + i]) =~= Seq::empty());
    }
}

/// The receive side of a stream.
pub struct RecvBuf {
    /// The bytes that were received and not read yet, by offset.
    bytes: BTreeMap<u64, u8>,
    off: u64,
    len: u64,
    max_data: u64,
    fin_off: Option<u64>,
    fin_read: bool,
    drain: bool,
}

/// The bytes of a map, by offset.
spec fn by_offset(bytes: Map<u64, u8>) -> Map<int, u8> {
    Map::new(
        |o: int| 0 <= o <= u64::MAX && bytes.contains_key(o as u64),
        |o: int| bytes[o as u64],
    )
}

impl View for RecvBuf {
    type V = RecvView;

    closed spec fn view(&self) -> RecvView {
        RecvView {
            off: self.off,
            len: self.len,
            data: by_offset(self.bytes@),
            max_data: self.max_data,
            fin_off: self.fin_off,
            fin_read: self.fin_read,
            drain: self.drain,
        }
    }
}

impl RecvBuf {
    /// The bytes are between what was read and the largest offset received,
    /// which is within the limit and is the final size once that is known; a
    /// drained stream holds nothing.
    pub closed spec fn wf(&self) -> bool {
        &&& forall|o: u64| #[trigger] self.bytes@.contains_key(o) ==> self.off <= o < self.len
        &&& self.off <= self.len <= self.max_data
        &&& self.fin_off matches Some(size) ==> size == self.len
        &&& self.drain ==> self.off == self.len
    }

    /// The state of a well-formed stream is sound.
    pub proof fn lemma_sound(&self)
        requires
            self.wf(),
        ensures
            self@.sound(),
    {
    }

    /// Creates the receive side of a stream that the peer may send `max_data`
    /// bytes on.
    pub fn new(max_data: u64) -> (s: Self)
        ensures
            s.wf(),
            s@ == RecvView::fresh(max_data),
    {
        let s = RecvBuf {
            bytes: BTreeMap::new(),
            off: 0,
            len: 0,
            max_data,
            fin_off: None,
            fin_read: false,
            drain: false,
        };
        assert(s@.data =~= Map::<int, u8>::empty());
        s
    }

    /// Returns the largest offset received.
    pub fn max_off(&self) -> (off: u64)
        ensures
            off == self@.len,
    {
        self.len
    }

    /// Returns whether incoming data is dropped.
    pub fn is_draining(&self) -> (b: bool)
        ensures
            b == self@.drain,
    {
        self.drain
    }

    /// Returns whether there is something to read.
    pub fn is_readable(&self) -> (b: bool)
        requires
            self.wf(),
        ensures
            b == self@.readable(),
    {
        if self.drain {
            return false;
        }
        if self.bytes.contains_key(&self.off) {
            return true;
        }
        match self.fin_off {
            Some(size) => size == self.off && !self.fin_read,
            None => false,
        }
    }

    /// Takes in a chunk of data.
    pub fn write(&mut self, buf: &RangeBuf) -> (r: Result<(), Error>)
        requires
            old(self).wf(),
            buf.wf(),
        ensures
            final(self).wf(),
            match r {
                Ok(()) => old(self)@.refusal(buf.off, buf.data@, buf.fin) is None && final(self)@
                    == old(self)@.written(buf.off, buf.data@, buf.fin),
                Err(e) => old(self)@.refusal(buf.off, buf.data@, buf.fin) == Some(e)
                    && final(self)@ == old(self)@,
            },
    {
        let end = buf.max_off();
        if end > self.max_data {
            return Err(Error::FlowControl);
        }
        if let Some(size) = self.fin_off {
            if end > size || (buf.fin && end != size) {
                return Err(Error::FinalSize);
            }
        }
        if buf.fin && end < self.len {
            return Err(Error::FinalSize);
        }
        if buf.data.len() == 0 && !buf.fin {
            return Ok(());
        }
        if buf.fin {
            self.fin_off = Some(end);
        }
        if end > self.len {
            self.len = end;
        }
        if self.drain {
            self.off = self.len;
            return Ok(());
        }
        let ghost start = *self;
        let mut i: usize = 0;
        while i < buf.data.len()
            invariant
                i <= buf.data@.len(),
                buf.wf(),
                *self == (RecvBuf { bytes: self.bytes, ..start }),
                forall|o: u64| #[trigger]
                    self.bytes@.contains_key(o) <==> start.bytes@.contains_key(o) || (self.off <= o
                        && buf.off <= o < buf.off + i),
                forall|o: u64| #[trigger]
                    self.bytes@.contains_key(o) ==> self.bytes@[o]
                        == if start.bytes@.contains_key(o) {
                        start.bytes@[o]
                    } else {
                        buf.data@[o - buf.off]
                    },
            decreases buf.data@.len() - i,
        {
            let at: u64 = buf.off + i as u64;
            if at >= self.off && !self.bytes.contains_key(&at) {
                self.bytes.insert(at, buf.data[i]);
            }
            i += 1;
        }
        assert(self@.data =~= old(self)@.written(buf.off, buf.data@, buf.fin).data);
        Ok(())
    }

    /// Reads the bytes that are next into `out`. Returns their number, and
    /// whether the stream ends behind them.
    pub fn emit(&mut self, out: &mut [u8]) -> (r: Result<(usize, bool), Error>)
        requires
            old(self).wf(),
        ensures
            final(self).wf(),
            match r {
                Ok((n, fin)) => {
                    &&& old(self)@.readable()
                    &&& n <= old(out)@.len()
                    &&& old(self)@.off + n <= old(self)@.len
                    &&& forall|o: int|
                        old(self)@.off <= o < old(self)@.off + n ==> #[trigger] old(
                            self,
                        )@.data.contains_key(o)
                    &&& forall|i: int|
                        0 <= i < n ==> #[trigger] final(out)@[i] == old(self)@.data[old(self)@.off
                            + i]
                    &&& n == old(out)@.len() || !old(self)@.data.contains_key(old(self)@.off + n)
                    &&& final(out)@.len() == old(out)@.len()
                    &&& final(out)@.skip(n as int) == old(out)@.skip(n as int)
                    &&& final(self)@ == old(self)@.after_read(n as nat)
                    &&& fin == (old(self)@.fin_off == Some(final(self)@.off))
                },
                Err(e) => {
                    &&& !old(self)@.readable()
                    &&& e == Error::Done
                    &&& final(self)@ == old(self)@
                    &&& final(out)@ == old(out)@
                },
            },
    {
        if !self.is_readable() {
            return Err(Error::Done);
        }
        let ghost start = *self;
        let mut n: usize = 0;
        let len: usize = out.len();
        while n < len && self.off < self.len && self.bytes.contains_key(&self.off)
            invariant
                n <= len,
                *self == (RecvBuf { bytes: self.bytes, off: self.off, ..start }),
                self.off == start.off + n,
                start.wf(),
                self.off <= self.len,
                len == out@.len() == old(out)@.len(),
                forall|o: u64| #[trigger]
                    self.bytes@.contains_key(o) <==> start.bytes@.contains_key(o) && o >= self.off,
                forall|o: u64| #[trigger]
                    self.bytes@.contains_key(o) ==> self.bytes@[o] == start.bytes@[o],
                forall|o: int|
                    start.off <= o < self.off ==> #[trigger] start@.data.contains_key(o),
                forall|k: int| 0 <= k < n ==> #[trigger] out@[k] == start@.data[start.off + k],
                forall|k: int| n <= k < len ==> #[trigger] out@[k] == old(out)@[k],
            decreases len - n,
        {
            if let Some(b) = self.bytes.remove(&self.off) {
                out[n] = b;
            }
            self.off = self.off + 1;
            n += 1;
        }
        assert(out@.skip(n as int) =~= old(out)@.skip(n as int));
        let fin = match self.fin_off {
            Some(size) => size == self.off,
            None => false,
        };
        if fin {
            self.fin_read = true;
        }
        assert(self@.data =~= old(self)@.after_read(n as nat).data);
        Ok((n, fin))
    }

    /// Gives up reading: what was received and what is received later is
    /// dropped. Returns the number of bytes that the application had not read.
    pub fn shutdown(&mut self) -> (r: Result<u64, Error>)
        requires
            old(self).wf(),
        ensures
            final(self).wf(),
            match r {
                Ok(n) => !old(self)@.drain && n == old(self)@.outstanding() && final(self)@
                    == old(self)@.after_shutdown(),
                Err(e) => old(self)@.drain && e == Error::Done && final(self)@ == old(self)@,
            },
    {
        if self.drain {
            return Err(Error::Done);
        }
        let n: u64 = self.len - self.off;
        self.drain = true;
        self.bytes.clear();
        self.off = self.len;
        assert(self@.data =~= Map::<int, u8>::empty());
        Ok(n)
    }
}

} // verus!
