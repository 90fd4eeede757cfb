//! Bookkeeping of one document's revisions: local revisions waiting for the
//! server, acknowledgements, and what to do with a remote revision.
use vstd::prelude::*;

verus! {

/// A local revision not yet acknowledged.
#[derive(Clone, Copy, Debug, PartialEq, Eq, Structural)]
pub struct PendingRev {
    pub base_rev_id: i64,
    pub rev_id: i64,
}

/// What to do with a remote revision.
#[derive(Clone, Copy, Debug, PartialEq, Eq, Structural)]
pub enum RemoteAction {
    /// It is based on the current revision and nothing local waits: compose it directly.
    Compose,
    /// Local revisions wait: transform it against each of them, in order, then compose.
    TransformThenCompose,
    /// It skips revisions: ask the server for those from `from` up to `to`, both included.
    RequestMissing { from: i64, to: i64 },
    /// It is already known: drop it.
    Ignore,
}

/// Each pending revision builds on the one before, starting from `acked`, and ends at `rev`.
pub open spec fn chained(p: Seq<PendingRev>, acked: int, rev: int) -> bool {
    &&& forall|i: int| 0 <= i < p.len() ==> (#[trigger] p[i]).rev_id == acked + i + 1
    &&& forall|i: int| 0 <= i < p.len() ==> (#[trigger] p[i]).base_rev_id == p[i].rev_id - 1
    &&& rev == acked + p.len()
}

pub struct RevisionQueue {
    /// The last revision that both sides agree on.
    pub acked_rev_id: i64,
    /// The newest revision of the document, local or not.
    pub rev_id: i64,
    pub pending: Vec<PendingRev>,
}

impl RevisionQueue {
    pub open spec fn wf(&self) -> bool {
        chained(self.pending@, self.acked_rev_id as int, self.rev_id as int)
    }

    pub fn new(rev_id: i64) -> (r: RevisionQueue)
        ensures
            r.wf(),
            r.rev_id == rev_id,
            r.acked_rev_id == rev_id,
            r.pending@.len() == 0,
    {
        RevisionQueue { acked_rev_id: rev_id, rev_id, pending: Vec::new() }
    }

    /// Numbers a new local edit: it builds on the newest revision and takes the next id.
    pub fn record_local(&mut self) -> (r: PendingRev)
        requires
            old(self).wf(),
            old(self).rev_id < i64::MAX,
        ensures
            final(self).wf(),
            r.base_rev_id == old(self).rev_id,
            r.rev_id == old(self).rev_id + 1,
            final(self).rev_id == r.rev_id,
            final(self).acked_rev_id == old(self).acked_rev_id,
            final(self).pending@ == old(self).pending@.push(r),
    {
        let r = PendingRev { base_rev_id: self.rev_id, rev_id: self.rev_id + 1 };
        self.pending.push(r);
        self.rev_id = r.rev_id;
        r
    }

    /// The server acknowledged `rev_id`: it and every local revision before it leave the queue,
    /// in order; the later ones stay.
    pub fn ack(&mut self, rev_id: i64) -> (r: Vec<PendingRev>)
        requires
            old(self).wf(),
        ensures
            final(self).wf(),
            final(self).rev_id == old(self).rev_id,
            r@ + final(self).pending@ == old(self).pending@,
            forall|i: int| 0 <= i < r@.len() ==> (#[trigger] r@[i]).rev_id <= rev_id,
            forall|i: int| 0 <= i < final(self).pending@.len() ==> (#[trigger] final(self).pending@[i]).rev_id > rev_id,
    {
        let n = self.pending.len();
        let mut k: usize = 0;
        while k < n && self.pending[k].rev_id <= rev_id
            invariant
                n == self.pending@.len(),
                k <= n,
                forall|i: int| 0 <= i < k ==> (#[trigger] self.pending@[i]).rev_id <= rev_id,
            decreases n - k,
        {
            k = k + 1;
        }
        let ghost before = self.pending@;
        let mut acked: Vec<PendingRev> = Vec::new();
        let mut rest: Vec<PendingRev> = Vec::new();
        let mut i: usize = 0;
        while i < n
            invariant
                n == before.len(),
                self.pending@ == before,
                k <= n,
                i <= n,
                i <= k ==> acked@ == before.take(i as int) && rest@.len() == 0,
                i > k ==> acked@ == before.take(k as int) && rest@ == before.subrange(k as int, i as int),
            decreases n - i,
        {
            let p = self.pending[i];
            if i < k {
                acked.push(p);
                proof {
                    assert(before.take(i + 1) =~= before.take(i as int).push(p));
                }
            } else {
                proof {
                    if i == k {
                        assert(before.take(i as int) == before.take(k as int));
                    }
                }
                rest.push(p);
                proof {
                    assert(before.subrange(k as int, i + 1) =~= before.subrange(k as int, i as int).push(p));
                }
            }
            i = i + 1;
        }
        proof {
            if n == k {
                assert(before.take(n as int) =~= before);
                assert(rest@ =~= before.subrange(k as int, n as int));
            }
            assert(acked@ + rest@ =~= before);
            if k < n {
                // the chain is increasing, so everything after the first later revision is later too
                assert forall|j: int| 0 <= j < rest@.len() implies (#[trigger] rest@[j]).rev_id > rev_id by {
                    assert(rest@[j] == before[k + j]);
                }
            }
        }
        if k > 0 {
            self.acked_rev_id = acked[k - 1].rev_id;
        }
        self.pending = rest;
        proof {
            assert forall|j: int| 0 <= j < self.pending@.len() implies (#[trigger] self.pending@[j]).rev_id
                == self.acked_rev_id + j + 1 by {
                assert(self.pending@[j] == before[k + j]);
            }
        }
        acked
    }

    /// What to do with a remote revision numbered `rev_id` that was made on `base_rev_id`.
    pub fn on_remote(&self, base_rev_id: i64, rev_id: i64) -> (r: RemoteAction)
        requires
            self.wf(),
        ensures
            r == (if rev_id <= self.acked_rev_id {
                RemoteAction::Ignore
            } else if rev_id > self.acked_rev_id + 1 {
                RemoteAction::RequestMissing { from: (self.acked_rev_id + 1) as i64, to: (rev_id - 1) as i64 }
            } else if base_rev_id == self.rev_id && self.pending@.len() == 0 {
                RemoteAction::Compose
            } else {
                RemoteAction::TransformThenCompose
            }),
    {
        if rev_id <= self.acked_rev_id {
            RemoteAction::Ignore
        } else if rev_id - 1 > self.acked_rev_id {
            RemoteAction::RequestMissing { from: self.acked_rev_id + 1, to: rev_id - 1 }
        } else if base_rev_id == self.rev_id && self.pending.len() == 0 {
            RemoteAction::Compose
        } else {
            RemoteAction::TransformThenCompose
        }
    }

    /// A remote revision was composed into the document: it becomes the agreed revision and
    /// each pending local revision moves one number up, still building on the one before.
    pub fn remote_applied(&mut self)
        requires
            old(self).wf(),
            old(self).rev_id < i64::MAX,
        ensures
            final(self).wf(),
            final(self).acked_rev_id == old(self).acked_rev_id + 1,
            final(self).rev_id == old(self).rev_id + 1,
            final(self).pending@.len() == old(self).pending@.len(),
            forall|i: int| 0 <= i < old(self).pending@.len() ==> (#[trigger] final(self).pending@[i]).rev_id
                == old(self).pending@[i].rev_id + 1,
    {
        let n = self.pending.len();
        let mut i: usize = 0;
        let ghost before = self.pending@;
        while i < n
            invariant
                n == before.len(),
                n == self.pending@.len(),
                i <= n,
                chained(before, self.acked_rev_id as int, self.rev_id as int),
                self.rev_id < i64::MAX,
                self.rev_id == old(self).rev_id,
                self.acked_rev_id == old(self).acked_rev_id,
                before == old(self).pending@,
                forall|j: int| 0 <= j < i ==> (#[trigger] self.pending@[j]).rev_id == before[j].rev_id + 1
                    && self.pending@[j].base_rev_id == before[j].rev_id,
                forall|j: int| i <= j < n ==> (#[trigger] self.pending@[j]) == before[j],
            decreases n - i,
        {
            let p = self.pending[i];
            proof {
                assert(p.rev_id == self.acked_rev_id + i + 1);
                assert(p.rev_id <= self.rev_id);
            }
            self.pending.set(i, PendingRev { base_rev_id: p.rev_id, rev_id: p.rev_id + 1 });
            i = i + 1;
        }
        self.acked_rev_id = self.acked_rev_id + 1;
        self.rev_id = self.rev_id + 1;
    }
}

} // verus!
