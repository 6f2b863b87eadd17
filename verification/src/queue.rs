//! Request queue and response demultiplexer.
//!
//! Assigns a strictly increasing transaction id per session and keeps
//! one pending entry per id until the matching response arrives.  A
//! response with an unknown id is a sequencing violation and fails with
//! `ProtocolError`; on session loss every outstanding entry is drained
//! so the session layer can resolve each with `ConnectionLoss`.

use vstd::prelude::*;
use crate::errors::Error;

verus! {

/// Outstanding requests in submission order, plus the next id to issue.
pub struct RequestQueue {
    next_xid: i32,
    pending: Vec<(i32, u32)>,
}

impl RequestQueue {
    /// The transaction id the next submission will receive.
    pub closed spec fn next_spec(self) -> i32 {
        self.next_xid
    }

    /// Outstanding (transaction id, opcode) pairs, in submission order.
    pub closed spec fn pending_seq(self) -> Seq<(i32, u32)> {
        self.pending@
    }

    /// Ids start at 1, grow strictly along the queue, and stay below the
    /// next id to issue; so an id in flight is never issued twice.
    pub closed spec fn wf(self) -> bool {
        &&& 1 <= self.next_xid
        &&& forall|i: int| 0 <= i < self.pending@.len() ==> 1 <= (#[trigger] self.pending@[i]).0 < self.next_xid
        &&& forall|i: int, j: int|
            0 <= i < j < self.pending@.len() ==> self.pending@[i].0 < self.pending@[j].0
    }

    /// Whether an entry with transaction id `xid` is outstanding.
    pub open spec fn has_xid(self, xid: i32) -> bool {
        exists|i: int| 0 <= i < self.pending_seq().len() && (#[trigger] self.pending_seq()[i]).0 == xid
    }

    /// The queue position of the outstanding entry with id `xid`.
    pub open spec fn index_of(self, xid: i32) -> int {
        choose|i: int| 0 <= i < self.pending_seq().len() && (#[trigger] self.pending_seq()[i]).0 == xid
    }

    /// A fresh queue for a new session: ids restart at 1, nothing pending.
    pub fn new() -> (r: Self)
        ensures
            r.wf(),
            r.next_spec() == 1,
            r.pending_seq() == Seq::<(i32, u32)>::empty(),
    {
        let r = RequestQueue { next_xid: 1, pending: Vec::new() };
        proof {
            assert(r.pending_seq() =~= Seq::<(i32, u32)>::empty());
        }
        r
    }

    /// Issues the next transaction id for an operation with opcode
    /// `opcode` and records the pending entry at the back of the queue.
    pub fn submit(&mut self, opcode: u32) -> (xid: i32)
        requires
            old(self).wf(),
            old(self).next_spec() < i32::MAX,
        ensures
            final(self).wf(),
            xid == old(self).next_spec(),
            final(self).next_spec() == old(self).next_spec() + 1,
            final(self).pending_seq() == old(self).pending_seq().push((xid, opcode)),
            final(self).has_xid(xid),
    {
        let xid = self.next_xid;
        self.pending.push((xid, opcode));
        self.next_xid = self.next_xid + 1;
        proof {
            let s1 = self.pending_seq();
            assert(s1[s1.len() - 1].0 == xid);
        }
        xid
    }

    /// Completes the single outstanding entry with id `xid`, returning
    /// its opcode; an unknown id is a codec or sequencing bug and fails
    /// with `ProtocolError`, leaving the queue unchanged.
    pub fn complete(&mut self, xid: i32) -> (r: Result<u32, Error>)
        requires
            old(self).wf(),
        ensures
            final(self).wf(),
            final(self).next_spec() == old(self).next_spec(),
            old(self).has_xid(xid) ==> {
                &&& r == Ok::<u32, Error>(old(self).pending_seq()[old(self).index_of(xid)].1)
                &&& final(self).pending_seq() == old(self).pending_seq().remove(old(self).index_of(xid))
                &&& !final(self).has_xid(xid)
            },
            !old(self).has_xid(xid) ==> {
                &&& r == Err::<u32, Error>(Error::ProtocolError)
                &&& final(self).pending_seq() == old(self).pending_seq()
            },
    {
        let ghost s0 = self.pending@;
        proof {
            assert forall|a: int, b: int| 0 <= a < b < s0.len()
                implies (#[trigger] s0[a]).0 < (#[trigger] s0[b]).0 by {
                assert(old(self).pending@[a].0 < old(self).pending@[b].0);
            }
        }
        let mut i: usize = 0;
        while i < self.pending.len()
            invariant
                i <= s0.len(),
                *self == *old(self),
                old(self).wf(),
                s0 == old(self).pending_seq(),
                forall|a: int, b: int| 0 <= a < b < s0.len() ==> (#[trigger] s0[a]).0 < (#[trigger] s0[b]).0,
                forall|j: int| 0 <= j < i ==> (#[trigger] s0[j]).0 != xid,
            decreases s0.len() - i,
        {
            if self.pending[i].0 == xid {
                proof {
                    assert(old(self).pending_seq()[i as int].0 == xid);
                    assert(old(self).has_xid(xid));
                }
                let e = self.pending.remove(i);
                proof {
                    let k = old(self).index_of(xid);
                    assert(0 <= k < s0.len() && s0[k].0 == xid);
                    assert(k == i as int);
                    let s1 = self.pending@;
                    assert(s1 =~= s0.remove(i as int));
                    assert forall|a: int| 0 <= a < s1.len()
                        implies s1[a] == (if a < i as int { s0[a] } else { s0[a + 1] }) by {
                        assert(s1 =~= s0.subrange(0, i as int) + s0.subrange(i as int + 1, s0.len() as int));
                    }
                    assert forall|a: int| 0 <= a < s1.len() implies (#[trigger] s1[a]).0 != xid by {
                        if a < i as int {
                            assert(s0[a].0 != xid);
                        } else {
                            assert(s0[a + 1].0 > s0[i as int].0);
                        }
                    }
                }
                return Ok(e.1);
            }
            i = i + 1;
        }
        proof {
            assert(!old(self).has_xid(xid));
        }
        Err(Error::ProtocolError)
    }

    /// Drains every outstanding entry, in submission order, so each can
    /// be resolved with `ConnectionLoss`; ids are not reused afterwards.
    pub fn fail_all(&mut self) -> (drained: Vec<(i32, u32)>)
        requires
            old(self).wf(),
        ensures
            final(self).wf(),
            final(self).next_spec() == old(self).next_spec(),
            drained@ == old(self).pending_seq(),
            final(self).pending_seq() == Seq::<(i32, u32)>::empty(),
    {
        let mut drained: Vec<(i32, u32)> = Vec::new();
        core::mem::swap(&mut drained, &mut self.pending);
        proof {
            assert(self.pending_seq() =~= Seq::<(i32, u32)>::empty());
        }
        drained
    }

    /// Whether another id can still be issued.
    pub fn next_below_max(&self) -> (r: bool)
        ensures
            r <==> self.next_spec() < i32::MAX,
    {
        self.next_xid < i32::MAX
    }

    /// How many requests are outstanding.
    pub fn outstanding(&self) -> (n: usize)
        ensures
            n == self.pending_seq().len(),
    {
        self.pending.len()
    }
}

/// Outstanding transaction ids are strictly increasing in submission
/// order — and therefore pairwise distinct — and all lie below the next
/// id to be issued: a fresh id never collides with one in flight.
pub proof fn lemma_xids_strictly_increasing(q: RequestQueue)
    requires
        q.wf(),
    ensures
        forall|i: int, j: int|
            0 <= i < j < q.pending_seq().len() ==> q.pending_seq()[i].0 < q.pending_seq()[j].0,
        forall|i: int| 0 <= i < q.pending_seq().len() ==> (#[trigger] q.pending_seq()[i]).0 < q.next_spec(),
{
}

} // verus!
