//! A document: its content as a delta of inserts, edited one revision at a time.
use vstd::prelude::*;
use crate::attributes::Attributes;
use crate::delta::{compose_model, compose_rec, base_of, target_of, text_of, transform_model, transform_rec, trimmed, Delta, OTError, OpModel, push_op};
use crate::extensions::{auto_exit_block, insert_edit, plain_insert};
use crate::operation::Interval;
use crate::sync::{PendingRev, RevisionQueue};
use crate::text::code_units;

verus! {

pub struct Document {
    pub delta: Delta,
    pub revisions: RevisionQueue,
}

impl Document {
    pub open spec fn wf(&self) -> bool {
        self.delta.wf() && self.revisions.wf()
    }

    pub fn new(delta: Delta, rev_id: i64) -> (r: Document)
        requires
            delta.wf(),
        ensures
            r.wf(),
            r.delta == delta,
            r.revisions.rev_id == rev_id,
            r.revisions.pending@.len() == 0,
    {
        Document { delta, revisions: RevisionQueue::new(rev_id) }
    }

    /// The text of the document.
    pub fn to_text(&self) -> (r: String)
        ensures
            r@ == text_of(self.delta@),
    {
        self.delta.to_text()
    }

    /// Composes `edit` into the document and numbers it as a new local revision; on an error
    /// nothing changes.
    pub fn apply_edit(&mut self, edit: &Delta) -> (r: Result<PendingRev, OTError>)
        requires
            old(self).wf(),
            edit.wf(),
            old(self).revisions.rev_id < i64::MAX,
        ensures
            final(self).wf(),
            match r {
                Ok(rev) => {
                    &&& edit.base_len <= old(self).delta.target_len
                    &&& final(self).delta@ == compose_model(old(self).delta@, edit@)
                    &&& rev.base_rev_id == old(self).revisions.rev_id
                    &&& rev.rev_id == old(self).revisions.rev_id + 1
                    &&& final(self).revisions.pending@ == old(self).revisions.pending@.push(rev)
                },
                Err(e) => {
                    &&& e == OTError::ComposeMismatch
                    &&& *final(self) == *old(self)
                    &&& (edit.base_len > old(self).delta.target_len || base_of(compose_rec(old(self).delta@, edit@))
                        > usize::MAX || target_of(compose_rec(old(self).delta@, edit@)) > usize::MAX)
                },
            },
    {
        match self.delta.compose(edit) {
            Ok(d) => {
                self.delta = d;
                Ok(self.revisions.record_local())
            },
            Err(e) => Err(e),
        }
    }

    /// Composes a remote delta, already carried past the pending local ones, into the
    /// document: it becomes the agreed revision and the pending ones move one number up.
    /// On an error nothing changes.
    pub fn apply_remote(&mut self, remote: &Delta) -> (r: Result<(), OTError>)
        requires
            old(self).wf(),
            remote.wf(),
            old(self).revisions.rev_id < i64::MAX,
        ensures
            final(self).wf(),
            match r {
                Ok(()) => {
                    &&& final(self).delta@ == compose_model(old(self).delta@, remote@)
                    &&& final(self).revisions.acked_rev_id == old(self).revisions.acked_rev_id + 1
                    &&& final(self).revisions.rev_id == old(self).revisions.rev_id + 1
                    &&& final(self).revisions.pending@.len() == old(self).revisions.pending@.len()
                },
                Err(e) => {
                    &&& e == OTError::ComposeMismatch
                    &&& *final(self) == *old(self)
                    &&& (remote.base_len > old(self).delta.target_len || base_of(compose_rec(old(self).delta@, remote@))
                        > usize::MAX || target_of(compose_rec(old(self).delta@, remote@)) > usize::MAX)
                },
            },
    {
        match self.delta.compose(remote) {
            Ok(d) => {
                self.delta = d;
                self.revisions.remote_applied();
                Ok(())
            },
            Err(e) => Err(e),
        }
    }

    /// Types `text` at code unit `index`, over `replace_len` selected code units; returns
    /// the edit made, after the insert rules had their say.
    pub fn insert(&mut self, index: usize, text: &str, replace_len: usize) -> (r: Result<(Delta, PendingRev), OTError>)
        requires
            old(self).wf(),
            old(self).revisions.rev_id < i64::MAX,
            index + replace_len < usize::MAX,
            index + code_units(text@) <= usize::MAX,
        ensures
            final(self).wf(),
            match r {
                Ok((edit, rev)) => {
                    &&& edit@ == match auto_exit_block(old(self).delta@, replace_len as nat, text@, index as nat) {
                        Some(d) => d,
                        None => plain_insert(replace_len as nat, text@, index as nat),
                    }
                    &&& final(self).delta@ == compose_model(old(self).delta@, edit@)
                    &&& rev.rev_id == old(self).revisions.rev_id + 1
                },
                Err(e) => e == OTError::ComposeMismatch && *final(self) == *old(self) && ({
                    let m = match auto_exit_block(old(self).delta@, replace_len as nat, text@, index as nat) {
                        Some(d) => d,
                        None => plain_insert(replace_len as nat, text@, index as nat),
                    };
                    base_of(m) > old(self).delta.target_len || base_of(compose_rec(old(self).delta@, m)) > usize::MAX
                        || target_of(compose_rec(old(self).delta@, m)) > usize::MAX
                }),
            },
    {
        let edit = insert_edit(&self.delta, replace_len, text, index);
        match self.apply_edit(&edit) {
            Ok(rev) => Ok((edit, rev)),
            Err(e) => Err(e),
        }
    }

    /// Deletes the code units of `interval`.
    pub fn delete(&mut self, interval: Interval) -> (r: Result<(Delta, PendingRev), OTError>)
        requires
            old(self).wf(),
            old(self).revisions.rev_id < i64::MAX,
        ensures
            final(self).wf(),
            match r {
                Ok((edit, rev)) => {
                    &&& edit@ == push_op(push_op(Seq::empty(), OpModel::Retain(interval.start as nat, Seq::empty())), OpModel::Delete(interval.spec_size()))
                    &&& final(self).delta@ == compose_model(old(self).delta@, edit@)
                    &&& rev.rev_id == old(self).revisions.rev_id + 1
                },
                Err(e) => e == OTError::ComposeMismatch && *final(self) == *old(self) && ({
                    let m = push_op(push_op(Seq::empty(), OpModel::Retain(interval.start as nat, Seq::empty())), OpModel::Delete(interval.spec_size()));
                    interval.start + interval.spec_size() > usize::MAX || base_of(m) > old(self).delta.target_len
                        || base_of(compose_rec(old(self).delta@, m)) > usize::MAX || target_of(compose_rec(old(self).delta@, m)) > usize::MAX
                }),
            },
    {
        let size = interval.size();
        let mut edit = Delta::new();
        edit.retain(interval.start, Attributes::new());
        proof {
            crate::delta::lemma_push_op_lengths(Seq::empty(), OpModel::Retain(interval.start as nat, Seq::empty()));
        }
        if size > usize::MAX - interval.start {
            return Err(OTError::ComposeMismatch);
        }
        edit.delete(size);
        match self.apply_edit(&edit) {
            Ok(rev) => Ok((edit, rev)),
            Err(e) => Err(e),
        }
    }

    /// Formats the code units of `interval` with `attributes`.
    pub fn format(&mut self, interval: Interval, attributes: Attributes) -> (r: Result<(Delta, PendingRev), OTError>)
        requires
            old(self).wf(),
            old(self).revisions.rev_id < i64::MAX,
        ensures
            final(self).wf(),
            match r {
                Ok((edit, rev)) => {
                    &&& edit@ == push_op(push_op(Seq::empty(), OpModel::Retain(interval.start as nat, Seq::empty())), OpModel::Retain(interval.spec_size(), attributes@))
                    &&& final(self).delta@ == compose_model(old(self).delta@, edit@)
                    &&& rev.rev_id == old(self).revisions.rev_id + 1
                },
                Err(e) => e == OTError::ComposeMismatch && *final(self) == *old(self) && ({
                    let m = push_op(push_op(Seq::empty(), OpModel::Retain(interval.start as nat, Seq::empty())), OpModel::Retain(interval.spec_size(), attributes@));
                    interval.start + interval.spec_size() > usize::MAX || base_of(m) > old(self).delta.target_len
                        || base_of(compose_rec(old(self).delta@, m)) > usize::MAX || target_of(compose_rec(old(self).delta@, m)) > usize::MAX
                }),
            },
    {
        let size = interval.size();
        let mut edit = Delta::new();
        edit.retain(interval.start, Attributes::new());
        proof {
            crate::delta::lemma_push_op_lengths(Seq::empty(), OpModel::Retain(interval.start as nat, Seq::empty()));
        }
        if size > usize::MAX - interval.start {
            return Err(OTError::ComposeMismatch);
        }
        edit.retain(size, attributes);
        match self.apply_edit(&edit) {
            Ok(rev) => Ok((edit, rev)),
            Err(e) => Err(e),
        }
    }
}

/// `transform` succeeds on `r` and `l`: they share a base and the results' lengths fit a `usize`.
pub open spec fn transform_ok(r: Seq<OpModel>, l: Seq<OpModel>) -> bool {
    let t = transform_rec(r, l);
    &&& base_of(r) == base_of(l)
    &&& base_of(t.0) <= usize::MAX
    &&& target_of(t.0) <= usize::MAX
    &&& base_of(t.1) <= usize::MAX
    &&& target_of(t.1) <= usize::MAX
}

/// `r` extended by a plain retain to expect `n` code units, when it expects fewer: a dropped
/// trailing retain put back.
pub open spec fn padded(r: Seq<OpModel>, n: nat) -> Seq<OpModel> {
    if base_of(r) < n {
        push_op(r, OpModel::Retain((n - base_of(r)) as nat, Seq::empty()))
    } else {
        r
    }
}

/// The padding of `r` to `n` code units keeps its lengths within a `usize`.
pub open spec fn pad_fits(r: Seq<OpModel>, n: nat) -> bool {
    base_of(r) >= n || (n <= usize::MAX && target_of(r) + (n - base_of(r)) <= usize::MAX)
}

/// A remote delta carried past the pending local deltas `ls`, in order: at each one the
/// remote, padded to the local's base length, is transformed against it and the local is
/// replaced by its transformed form.
/// The result is the remote delta to compose into the document and the new locals.
pub open spec fn sweep(r: Seq<OpModel>, ls: Seq<Seq<OpModel>>) -> Option<(Seq<OpModel>, Seq<Seq<OpModel>>)>
    decreases ls.len(),
{
    if ls.len() == 0 {
        Some((r, Seq::empty()))
    } else if !pad_fits(r, base_of(ls[0])) || !transform_ok(padded(r, base_of(ls[0])), ls[0]) {
        None
    } else {
        let t = transform_model(padded(r, base_of(ls[0])), ls[0]);
        match sweep(trimmed(t.0), ls.drop_first()) {
            Some((r2, rest)) => Some((r2, seq![trimmed(t.1)] + rest)),
            None => None,
        }
    }
}

pub open spec fn delta_views(v: Seq<Delta>) -> Seq<Seq<OpModel>> {
    v.map_values(|d: Delta| d@)
}

/// Carries the remote delta `remote` past the pending local deltas `locals`; on success the
/// locals are replaced by their transformed forms and the remote delta to compose comes
/// back. On failure the locals stay as they were.
pub fn reconcile(remote: Delta, locals: &mut Vec<Delta>) -> (r: Result<Delta, OTError>)
    requires
        remote.wf(),
        forall|i: int| 0 <= i < old(locals)@.len() ==> (#[trigger] old(locals)@[i]).wf(),
    ensures
        forall|i: int| 0 <= i < final(locals)@.len() ==> (#[trigger] final(locals)@[i]).wf(),
        match sweep(remote@, delta_views(old(locals)@)) {
            Some((r2, ls2)) => (r matches Ok(d) && d.wf() && d@ == r2) && delta_views(final(locals)@) == ls2,
            None => r == Err::<Delta, OTError>(OTError::TransformMismatch) && final(locals)@ == old(locals)@,
        },
{
    let ghost ls = delta_views(locals@);
    let n = locals.len();
    let mut cur = remote;
    let mut done: Vec<Delta> = Vec::new();
    let mut i: usize = 0;
    proof {
        assert(ls.skip(0) =~= ls);
        assert(delta_views(done@) =~= Seq::<Seq<OpModel>>::empty());
    }
    while i < n
        invariant
            n == locals@.len(),
            locals@ == old(locals)@,
            ls == delta_views(locals@),
            i <= n,
            cur.wf(),
            forall|j: int| 0 <= j < locals@.len() ==> (#[trigger] locals@[j]).wf(),
            forall|j: int| 0 <= j < done@.len() ==> (#[trigger] done@[j]).wf(),
            sweep(remote@, ls) == match sweep(cur@, ls.skip(i as int)) {
                Some((r2, rest)) => Some((r2, delta_views(done@) + rest)),
                None => None::<(Seq<OpModel>, Seq<Seq<OpModel>>)>,
            },
        decreases n - i,
    {
        let ghost old_cur = cur@;
        proof {
            assert(ls.skip(i as int)[0] == locals@[i as int]@);
            assert(ls[i as int] == locals@[i as int]@);
            assert(ls.skip(i as int).drop_first() =~= ls.skip(i + 1));
        }
        let lb = locals[i].base_len;
        if cur.base_len < lb {
            let d = lb - cur.base_len;
            if cur.target_len > usize::MAX - d {
                return Err(OTError::TransformMismatch);
            }
            proof {
                crate::delta::lemma_push_op_lengths(cur@, OpModel::Retain(d as nat, Seq::empty()));
            }
            cur.retain(d, Attributes::new());
        }
        proof {
            assert(cur@ == padded(old_cur, base_of(ls[i as int])));
        }
        match cur.transform(&locals[i]) {
            Err(e) => {
                return Err(OTError::TransformMismatch);
            },
            Ok((r2, l2)) => {
                let ghost before = delta_views(done@);
                let ghost rest_now = sweep(r2@, ls.skip(i + 1));
                proof {
                    let t = transform_rec(cur@, locals@[i as int]@);
                    crate::delta::lemma_build_lengths(t.0);
                    crate::delta::lemma_build_lengths(t.1);
                    assert(transform_ok(cur@, ls.skip(i as int)[0]));
                    assert(pad_fits(old_cur, base_of(ls[i as int])));
                    assert(trimmed(transform_model(cur@, ls.skip(i as int)[0]).0) == r2@);
                    assert(trimmed(transform_model(cur@, ls.skip(i as int)[0]).1) == l2@);
                }
                done.push(l2);
                proof {
                    assert(delta_views(done@) =~= before.push(l2@));
                    if rest_now is Some {
                        let (x, rest) = rest_now->Some_0;
                        assert(before + (seq![l2@] + rest) =~= before.push(l2@) + rest);
                    }
                }
                cur = r2;
            },
        }
        i = i + 1;
    }
    proof {
        assert(ls.skip(n as int).len() == 0);
        assert(delta_views(done@) + Seq::<Seq<OpModel>>::empty() =~= delta_views(done@));
    }
    *locals = done;
    Ok(cur)
}

} // verus!
