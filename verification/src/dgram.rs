//! The queue of received datagrams.

use crate::error::Error;
use std::collections::VecDeque;
use vstd::prelude::*;

verus! {

/// A bounded queue of datagrams.
pub struct DatagramQueue {
    queue: VecDeque<Vec<u8>>,
    max_len: usize,
}

/// The datagrams of a queue, oldest first, and how many it holds at most.
#[verifier::ext_equal]
pub struct DgramView {
    pub queue: Seq<Seq<u8>>,
    pub max_len: usize,
}

impl DgramView {
    /// Makes room for a datagram by dropping the oldest one, if there is none.
    pub open spec fn with_room(self) -> DgramView {
        if self.queue.len() == self.max_len && self.max_len > 0 {
            DgramView { queue: self.queue.drop_first(), ..self }
        } else {
            self
        }
    }

    /// Adds a datagram behind the others.
    pub open spec fn push(self, data: Seq<u8>) -> DgramView {
        DgramView { queue: self.queue.push(data), ..self }
    }
}

/// The queue after datagrams, one after the other.
pub open spec fn after_dgrams(q: DgramView, dgrams: Seq<Seq<u8>>) -> DgramView
    decreases dgrams.len(),
{
    if dgrams.len() == 0 {
        q
    } else {
        after_dgrams(q, dgrams.drop_last()).with_room().push(dgrams.last())
    }
}

/// Datagrams come out in the order in which they came in. When there are too
/// many, the newest are kept.
pub proof fn law_newest_in_order(q: DgramView, dgrams: Seq<Seq<u8>>)
    requires
        q.max_len > 0,
        q.queue.len() <= q.max_len,
    ensures
        ({
            let all = q.queue + dgrams;
            let after = after_dgrams(q, dgrams);
            &&& after.max_len == q.max_len
            &&& after.queue == (if all.len() > q.max_len {
                all.skip(all.len() - q.max_len)
            } else {
                all
            })
        }),
    decreases dgrams.len(),
{
    let all = q.queue + dgrams;
    let after = after_dgrams(q, dgrams);
    if dgrams.len() > 0 {
        let rest = dgrams.drop_last();
        law_newest_in_order(q, rest);
        assert(q.queue + rest =~= all.drop_last());
        if all.len() > q.max_len {
            assert(after.queue =~= all.skip(all.len() - q.max_len));
        } else {
            assert(after.queue =~= all);
        }
    } else {
        assert(all =~= q.queue);
    }
}

/// A datagram that is added is the newest one, and no other changes; the oldest
/// one, and only that, makes room for it where the queue is full.
pub proof fn law_added(q: DgramView, data: Seq<u8>)
    requires
        q.max_len > 0,
        q.queue.len() <= q.max_len,
    ensures
        ({
            let after = q.with_room().push(data);
            &&& after.max_len == q.max_len
            &&& after.queue.last() == data
            &&& q.queue.len() < q.max_len ==> after.queue.drop_last() == q.queue
            &&& q.queue.len() == q.max_len ==> after.queue.drop_last() == q.queue.drop_first()
        }),
{
    let after = q.with_room().push(data);
    assert(after.queue.drop_last() =~= q.with_room().queue);
}

impl View for DatagramQueue {
    type V = DgramView;

    closed spec fn view(&self) -> DgramView {
        DgramView { queue: self.queue@.map_values(|d: Vec<u8>| d@), max_len: self.max_len }
    }
}

impl DatagramQueue {
    /// The queue keeps its bound.
    pub open spec fn wf(&self) -> bool {
        self@.queue.len() <= self@.max_len
    }

    /// Creates an empty queue.
    pub fn new(max_len: usize) -> (q: Self)
        ensures
            q.wf(),
            q@ == (DgramView { queue: Seq::empty(), max_len }),
    {
        let q = DatagramQueue { queue: VecDeque::new(), max_len };
        assert(q@.queue =~= Seq::<Seq<u8>>::empty());
        q
    }

    /// Returns whether there is no room for a datagram.
    pub fn is_full(&self) -> (full: bool)
        ensures
            full == (self@.queue.len() == self@.max_len),
    {
        self.queue.len() == self.max_len
    }

    /// Takes the oldest datagram.
    pub fn pop(&mut self) -> (d: Option<Vec<u8>>)
        requires
            old(self).wf(),
        ensures
            final(self).wf(),
            match d {
                Some(d) => old(self)@.queue.len() > 0 && d@ == old(self)@.queue[0] && final(self)@
                    == (DgramView { queue: old(self)@.queue.drop_first(), ..old(self)@ }),
                None => old(self)@.queue.len() == 0 && final(self)@ == old(self)@,
            },
    {
        let d = self.queue.pop_front();
        assert(d is Some ==> self@.queue =~= old(self)@.queue.drop_first());
        assert(d is None ==> self@.queue =~= old(self)@.queue);
        d
    }

    /// Adds a datagram behind the others, unless there is no room.
    pub fn push(&mut self, data: Vec<u8>) -> (r: Result<(), Error>)
        requires
            old(self).wf(),
        ensures
            final(self).wf(),
            match r {
                Ok(()) => old(self)@.queue.len() < old(self)@.max_len && final(self)@ == old(
                    self,
                )@.push(data@),
                Err(e) => old(self)@.queue.len() == old(self)@.max_len && e == Error::Done
                    && final(self)@ == old(self)@,
            },
    {
        if self.is_full() {
            return Err(Error::Done);
        }
        let ghost added = data@;
        self.queue.push_back(data);
        assert(self@.queue =~= old(self)@.queue.push(added));
        Ok(())
    }
}

} // verus!
