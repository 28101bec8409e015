use crate::bheap::{prio_le, BinaryMaxHeap};
use vstd::laws_cmp::obeys_cmp;
use vstd::multiset::Multiset;
use vstd::prelude::*;

verus! {

broadcast use vstd::laws_cmp::group_laws_cmp;

/// Why a job could not be submitted.
#[derive(Debug, Clone, Copy, PartialEq, Eq, Structural)]
pub enum SubmitError {
    /// The queue has been closed.
    Closed,
    /// Every job id has been handed out.
    Exhausted,
}

/// What a worker does next.
#[derive(Debug, Clone, Copy, PartialEq, Eq, Structural)]
pub enum Next {
    /// Run the job with this id.
    Run { priority: u64, id: u64 },
    /// Nothing is pending: wait for a submission.
    Wait,
    /// Nothing is pending and nothing more will come: stop.
    Exit,
}

/// The scheduling decisions of a thread pool: pending jobs are keyed by
/// `(priority, id)` in a max heap, ids count down from `u64::MAX` so that
/// among equal priorities the earliest submission runs first.
pub struct JobQueue {
    order: BinaryMaxHeap<(u64, u64)>,
    submitted: u64,
    closed: bool,
}

impl JobQueue {
    /// The `(priority, id)` keys of the pending jobs.
    pub closed spec fn pending(&self) -> Multiset<(u64, u64)> {
        self.order@.to_multiset()
    }

    /// How many jobs have been submitted so far.
    pub closed spec fn submitted(&self) -> nat {
        self.submitted as nat
    }

    /// Whether submissions are refused.
    pub closed spec fn is_closed(&self) -> bool {
        self.closed
    }

    /// The heap is well formed and every pending id was handed out already.
    pub closed spec fn wf(&self) -> bool {
        &&& self.order.wf()
        &&& forall|u: u64| #[trigger]
            self.order.positions().contains_key(u) ==> u > u64::MAX - self.submitted
    }

    /// The id given to the `n`-th submission (counting from 0).
    pub open spec fn id_of(n: nat) -> int {
        u64::MAX - n
    }

    pub fn new() -> (r: Self)
        ensures
            r.wf(),
            r.pending() == Multiset::<(u64, u64)>::empty(),
            r.submitted() == 0,
            !r.is_closed(),
    {
        let order = BinaryMaxHeap::new();
        proof {
            broadcast use vstd::seq_lib::group_to_multiset_ensures;
            broadcast use vstd::multiset::lemma_multiset_empty_len;

            assert(order@.to_multiset().len() == 0);
        }
        JobQueue { order, submitted: 0, closed: false }
    }

    /// Registers a job with the given priority and returns its id.
    pub fn submit(&mut self, priority: u64) -> (r: Result<u64, SubmitError>)
        requires
            old(self).wf(),
        ensures
            final(self).wf(),
            final(self).is_closed() == old(self).is_closed(),
            match r {
                Ok(id) => {
                    &&& !old(self).is_closed()
                    &&& old(self).submitted() < u64::MAX
                    &&& id == Self::id_of(old(self).submitted())
                    &&& final(self).pending() == old(self).pending().insert((priority, id))
                    &&& final(self).submitted() == old(self).submitted() + 1
                },
                Err(SubmitError::Closed) => old(self).is_closed() && *final(self) == *old(self),
                Err(SubmitError::Exhausted) => {
                    &&& !old(self).is_closed()
                    &&& old(self).submitted() == u64::MAX
                    &&& *final(self) == *old(self)
                },
            },
    {
        if self.closed {
            return Err(SubmitError::Closed);
        }
        if self.submitted == u64::MAX {
            return Err(SubmitError::Exhausted);
        }
        let id = u64::MAX - self.submitted;
        let ghost before = self.order.positions();
        self.order.push((priority, id));
        self.submitted = self.submitted + 1;
        proof {
            assert forall|u: u64| #[trigger]
                self.order.positions().contains_key(u) implies u > u64::MAX - self.submitted by {
                if u != id {
                    assert(before.contains_key(u));
                }
            }
        }
        Ok(id)
    }

    /// Refuses further submissions; pending jobs still run.
    pub fn close(&mut self)
        requires
            old(self).wf(),
        ensures
            final(self).wf(),
            final(self).is_closed(),
            final(self).pending() == old(self).pending(),
            final(self).submitted() == old(self).submitted(),
    {
        self.closed = true;
    }

    /// The next decision of a worker: run the pending job with the highest
    /// key, or wait while the queue is open, or stop once it is closed.
    pub fn next(&mut self) -> (r: Next)
        requires
            old(self).wf(),
        ensures
            final(self).wf(),
            final(self).is_closed() == old(self).is_closed(),
            final(self).submitted() == old(self).submitted(),
            match r {
                Next::Run { priority, id } => {
                    &&& old(self).pending().count((priority, id)) > 0
                    &&& forall|k: (u64, u64)|
                        old(self).pending().count(k) > 0 ==> #[trigger] prio_le(k, (priority, id))
                    &&& final(self).pending() == old(self).pending().remove((priority, id))
                },
                Next::Wait => {
                    &&& old(self).pending().len() == 0
                    &&& !old(self).is_closed()
                    &&& final(self).pending() == old(self).pending()
                },
                Next::Exit => {
                    &&& old(self).pending().len() == 0
                    &&& old(self).is_closed()
                    &&& final(self).pending() == old(self).pending()
                },
            },
    {
        broadcast use vstd::seq_lib::group_to_multiset_ensures;

        let ghost s = self.order@;
        let ghost before = self.order.positions();
        match self.order.pop() {
            Some(e) => {
                proof {
                    assert(s[0] == e);
                    assert forall|k: (u64, u64)| s.to_multiset().count(k) > 0 implies #[trigger] prio_le(
                        k,
                        e,
                    ) by {
                        assert(s.contains(k));
                        let j = choose|j: int| 0 <= j < s.len() && s[j] == k;
                        assert(prio_le(s[j], e));
                    }
                    assert forall|u: u64| #[trigger]
                        self.order.positions().contains_key(u) implies u > u64::MAX - self.submitted by {
                        assert(before.contains_key(u));
                    }
                }
                Next::Run { priority: e.0, id: e.1 }
            },
            None => {
                proof {
                    assert(s.to_multiset().len() == 0);
                }
                if self.closed {
                    Next::Exit
                } else {
                    Next::Wait
                }
            },
        }
    }
}

} // verus!
