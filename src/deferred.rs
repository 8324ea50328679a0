//! The deferred-load queue: chunks whose texture asset was not resident when
//! their bind group was built, retried once per frame until it is.
use vstd::prelude::*;
use crate::cache::{EntityId, ImageHandle};

verus! {

/// Whether the asset `h` is among the resident handles of this frame.
pub fn handle_resolved(resolved: &Vec<ImageHandle>, h: ImageHandle) -> (r: bool)
    ensures
        r == resolved@.contains(h),
{
    let mut i: usize = 0;
    while i < resolved.len()
        invariant
            i <= resolved@.len(),
            forall|j: int| 0 <= j < i ==> resolved@[j] != h,
        decreases resolved@.len() - i,
    {
        if resolved[i] == h {
            return true;
        }
        i = i + 1;
    }
    false
}

/// A chunk waiting for its texture, with what rebuilding its bind group
/// needs besides the texture.
#[derive(Clone, Copy, Debug)]
pub struct PendingLoad<A> {
    pub entity: EntityId,
    pub handle: ImageHandle,
    pub aux: A,
}

/// The records that a resident handle set releases.
pub open spec fn released<A>(records: Seq<PendingLoad<A>>, resolved: Seq<ImageHandle>) -> Seq<PendingLoad<A>> {
    records.filter(|r: PendingLoad<A>| resolved.contains(r.handle))
}

/// The records that stay pending under a resident handle set.
pub open spec fn still_pending<A>(records: Seq<PendingLoad<A>>, resolved: Seq<ImageHandle>) -> Seq<PendingLoad<A>> {
    records.filter(|r: PendingLoad<A>| !resolved.contains(r.handle))
}

/// Some record of `records` belongs to `e`.
pub open spec fn has_record<A>(records: Seq<PendingLoad<A>>, e: EntityId) -> bool {
    exists|i: int| 0 <= i < records.len() && records[i].entity == e
}

/// No two records belong to the same chunk.
pub open spec fn unique_entities<A>(records: Seq<PendingLoad<A>>) -> bool {
    forall|i: int, j: int| 0 <= i < j < records.len() ==> records[i].entity != records[j].entity
}

/// Once a pending texture is resident, one resolution step leaves no record
/// of its chunk in the queue, whichever other records stay.
pub proof fn lemma_released_not_pending<A>(records: Seq<PendingLoad<A>>, resolved: Seq<ImageHandle>, i: int)
    requires
        unique_entities(records),
        0 <= i < records.len(),
        resolved.contains(records[i].handle),
    ensures
        !has_record(still_pending(records, resolved), records[i].entity),
{
    let kept = still_pending(records, resolved);
    lemma_kept_from(records, resolved);
    if has_record(kept, records[i].entity) {
        let k = choose|k: int| 0 <= k < kept.len() && kept[k].entity == records[i].entity;
        assert(records.contains(kept[k]));
        let j = choose|j: int| 0 <= j < records.len() && records[j] == kept[k];
        assert(j == i);
    }
}

/// A record stays pending exactly when its handle is not resident; records
/// of chunks that had none do not appear.
pub proof fn lemma_still_pending_records<A>(records: Seq<PendingLoad<A>>, resolved: Seq<ImageHandle>, e: EntityId)
    requires
        unique_entities(records),
    ensures
        has_record(still_pending(records, resolved), e) ==> has_record(records, e),
        unique_entities(still_pending(records, resolved)),
{
    let kept = still_pending(records, resolved);
    lemma_kept_from(records, resolved);
    if has_record(kept, e) {
        let k = choose|k: int| 0 <= k < kept.len() && kept[k].entity == e;
        assert(records.contains(kept[k]));
    }
    lemma_filter_unique(records, resolved);
}

/// Every record that stays pending was a record of the queue.
pub proof fn lemma_kept_from<A>(records: Seq<PendingLoad<A>>, resolved: Seq<ImageHandle>)
    ensures
        forall|k: int| 0 <= k < still_pending(records, resolved).len()
            ==> records.contains(#[trigger] still_pending(records, resolved)[k]),
    decreases records.len(),
{
    reveal(Seq::filter);
    if records.len() > 0 {
        let init = records.drop_last();
        lemma_kept_from(init, resolved);
        let kept = still_pending(records, resolved);
        let ki = still_pending(init, resolved);
        assert forall|k: int| 0 <= k < kept.len() implies records.contains(#[trigger] kept[k]) by {
            if k < ki.len() {
                assert(kept[k] == ki[k]);
                assert(init.contains(ki[k]));
                let j = choose|j: int| 0 <= j < init.len() && init[j] == ki[k];
                assert(records[j] == init[j]);
            } else {
                assert(kept[k] == records.last());
                assert(records[records.len() - 1] == records.last());
            }
        }
    }
}

/// Every released record is a record of the queue.
pub proof fn lemma_released_from<A>(records: Seq<PendingLoad<A>>, resolved: Seq<ImageHandle>)
    ensures
        forall|k: int| 0 <= k < released(records, resolved).len()
            ==> records.contains(#[trigger] released(records, resolved)[k]),
    decreases records.len(),
{
    reveal(Seq::filter);
    if records.len() > 0 {
        let init = records.drop_last();
        lemma_released_from(init, resolved);
        let out = released(records, resolved);
        let oi = released(init, resolved);
        assert forall|k: int| 0 <= k < out.len() implies records.contains(#[trigger] out[k]) by {
            if k < oi.len() {
                assert(out[k] == oi[k]);
                assert(init.contains(oi[k]));
                let j = choose|j: int| 0 <= j < init.len() && init[j] == oi[k];
                assert(records[j] == init[j]);
            } else {
                assert(out[k] == records.last());
                assert(records[records.len() - 1] == records.last());
            }
        }
    }
}

proof fn lemma_filter_unique<A>(records: Seq<PendingLoad<A>>, resolved: Seq<ImageHandle>)
    requires
        unique_entities(records),
    ensures
        unique_entities(still_pending(records, resolved)),
    decreases records.len(),
{
    reveal(Seq::filter);
    if records.len() > 0 {
        let init = records.drop_last();
        lemma_filter_unique(init, resolved);
        let kept = still_pending(init, resolved);
        lemma_kept_from(init, resolved);
        assert forall|k: int| 0 <= k < kept.len() implies kept[k].entity != records.last().entity by {
            assert(init.contains(kept[k]));
            let j = choose|j: int| 0 <= j < init.len() && init[j] == kept[k];
            assert(records[j] == init[j]);
        }
    }
}

/// The pending records of one texture kind, at most one per chunk.
pub struct DeferredQueue<A> {
    records: Vec<PendingLoad<A>>,
}

impl<A: Copy> DeferredQueue<A> {
    pub closed spec fn view(&self) -> Seq<PendingLoad<A>> {
        self.records@
    }

    pub open spec fn wf(&self) -> bool {
        unique_entities(self@)
    }

    pub fn new() -> (q: DeferredQueue<A>)
        ensures
            q@.len() == 0,
            q.wf(),
    {
        DeferredQueue { records: Vec::new() }
    }

    pub fn len(&self) -> (n: usize)
        ensures
            n == self@.len(),
    {
        self.records.len()
    }

    /// Number of records that belong to `e`: zero or one.
    pub fn count_for(&self, e: EntityId) -> (n: usize)
        requires
            self.wf(),
        ensures
            n <= 1,
            (n == 1) == has_record(self@, e),
    {
        let mut n: usize = 0;
        let mut i: usize = 0;
        while i < self.records.len()
            invariant
                self.wf(),
                i <= self@.len(),
                n <= 1,
                (n == 1) == (exists|j: int| 0 <= j < i && self@[j].entity == e),
            decreases self@.len() - i,
        {
            if self.records[i].entity == e {
                assert(n == 0);
                n = 1;
            }
            i = i + 1;
        }
        n
    }

    /// Position of the record of `e`, if any.
    fn position(&self, e: EntityId) -> (r: Option<usize>)
        ensures
            r is None ==> !has_record(self@, e),
            r matches Some(i) ==> i < self@.len() && self@[i as int].entity == e,
    {
        let mut i: usize = 0;
        while i < self.records.len()
            invariant
                i <= self@.len(),
                forall|j: int| 0 <= j < i ==> self@[j].entity != e,
            decreases self@.len() - i,
        {
            if self.records[i].entity == e {
                return Some(i);
            }
            i = i + 1;
        }
        None
    }

    /// Records that `e` waits for `handle`. A chunk has at most one record:
    /// one already pending is replaced, so a repeated request changes
    /// nothing.
    pub fn enqueue(&mut self, e: EntityId, handle: ImageHandle, aux: A)
        requires
            old(self).wf(),
        ensures
            final(self).wf(),
            has_record(old(self)@, e) ==> exists|i: int| 0 <= i < old(self)@.len()
                && old(self)@[i].entity == e
                && final(self)@ == old(self)@.update(i, PendingLoad { entity: e, handle, aux }),
            !has_record(old(self)@, e) ==> final(self)@ == old(self)@.push(
                PendingLoad { entity: e, handle, aux },
            ),
    {
        let rec = PendingLoad { entity: e, handle, aux };
        match self.position(e) {
            Some(i) => {
                self.records.remove(i);
                self.records.insert(i, rec);
                assert(self@ =~= old(self)@.update(i as int, rec));
            }
            None => {
                self.records.push(rec);
            }
        }
    }

    /// Drops the record of `e`, if any.
    pub fn cancel(&mut self, e: EntityId)
        requires
            old(self).wf(),
        ensures
            final(self).wf(),
            !has_record(final(self)@, e),
            forall|x: EntityId| x != e ==> (has_record(final(self)@, x) == has_record(old(self)@, x)),
            forall|i: int| 0 <= i < final(self)@.len() ==> old(self)@.contains(#[trigger] final(self)@[i]),
            !has_record(old(self)@, e) ==> final(self)@ == old(self)@,
    {
        match self.position(e) {
            Some(i) => {
                let ghost o = self@;
                self.records.remove(i);
                proof {
                    assert forall|a: int| 0 <= a < self@.len() implies
                        #[trigger] self@[a] == o[if a < i { a } else { a + 1 }] by {}
                    assert forall|x: EntityId| x != e implies
                        (has_record(self@, x) == has_record(o, x)) by {
                        if has_record(o, x) {
                            let j = choose|j: int| 0 <= j < o.len() && o[j].entity == x;
                            assert(j != i);
                            let k = if j < i { j } else { j - 1 };
                            assert(self@[k].entity == x);
                        }
                        if has_record(self@, x) {
                            let k = choose|k: int| 0 <= k < self@.len() && self@[k].entity == x;
                            assert(o[if k < i { k } else { k + 1 }].entity == x);
                        }
                    }
                    assert forall|a: int| 0 <= a < self@.len() implies
                        o.contains(#[trigger] self@[a]) by {
                        assert(o[if a < i { a } else { a + 1 }] == self@[a]);
                    }
                    assert(!has_record(self@, e)) by {
                        if has_record(self@, e) {
                            let k = choose|k: int| 0 <= k < self@.len() && self@[k].entity == e;
                            let ok = if k < i { k } else { k + 1 };
                            assert(o[ok].entity == e);
                        }
                    }
                }
            }
            None => {}
        }
    }

    /// Takes out the records whose handle is resident, in queue order; the
    /// rest stay, in queue order.
    pub fn take_resolved(&mut self, resolved: &Vec<ImageHandle>) -> (out: Vec<PendingLoad<A>>)
        requires
            old(self).wf(),
        ensures
            final(self).wf(),
            out@ == released(old(self)@, resolved@),
            unique_entities(out@),
            final(self)@ == still_pending(old(self)@, resolved@),
    {
        let ghost o = self@;
        let mut out: Vec<PendingLoad<A>> = Vec::new();
        let mut kept: Vec<PendingLoad<A>> = Vec::new();
        let mut i: usize = 0;
        while i < self.records.len()
            invariant
                self@ == o,
                i <= o.len(),
                out@ == released(o.take(i as int), resolved@),
                kept@ == still_pending(o.take(i as int), resolved@),
                unique_entities(o),
                unique_entities(kept@),
                unique_entities(out@),
                forall|a: int| 0 <= a < out@.len() ==> exists|j: int| 0 <= j < i && o[j] == #[trigger] out@[a],
                forall|a: int| 0 <= a < kept@.len() ==> exists|j: int| 0 <= j < i && o[j] == #[trigger] kept@[a],
            decreases o.len() - i,
        {
            let r = self.records[i];
            proof {
                assert(r == o[i as int]);
                assert(o.take(i + 1).drop_last() =~= o.take(i as int));
                assert(o.take(i + 1).last() == r);
                assert(released(o.take(i + 1), resolved@) == if resolved@.contains(r.handle) {
                    released(o.take(i as int), resolved@).push(r)
                } else {
                    released(o.take(i as int), resolved@)
                }) by {
                    reveal(Seq::filter);
                }
                assert(still_pending(o.take(i + 1), resolved@) == if !resolved@.contains(r.handle) {
                    still_pending(o.take(i as int), resolved@).push(r)
                } else {
                    still_pending(o.take(i as int), resolved@)
                }) by {
                    reveal(Seq::filter);
                }
            }
            if handle_resolved(resolved, r.handle) {
                proof {
                    assert forall|a: int| 0 <= a < out@.len() implies
                        #[trigger] out@[a].entity != r.entity by {
                        let j = choose|j: int| 0 <= j < i && o[j] == out@[a];
                    }
                }
                out.push(r);
                proof {
                    assert forall|a: int| 0 <= a < out@.len() implies
                        exists|j: int| 0 <= j < i + 1 && o[j] == #[trigger] out@[a] by {
                        if a == out@.len() - 1 {
                            assert(o[i as int] == out@[a]);
                        } else {
                            let j = choose|j: int| 0 <= j < i && o[j] == out@[a];
                            assert(o[j] == out@[a]);
                        }
                    }
                }
            } else {
                proof {
                    assert forall|a: int| 0 <= a < kept@.len() implies
                        #[trigger] kept@[a].entity != r.entity by {
                        let j = choose|j: int| 0 <= j < i && o[j] == kept@[a];
                    }
                }
                kept.push(r);
                proof {
                    assert forall|a: int| 0 <= a < kept@.len() implies
                        exists|j: int| 0 <= j < i + 1 && o[j] == #[trigger] kept@[a] by {
                        if a == kept@.len() - 1 {
                            assert(o[i as int] == kept@[a]);
                        } else {
                            let j = choose|j: int| 0 <= j < i && o[j] == kept@[a];
                            assert(o[j] == kept@[a]);
                        }
                    }
                }
            }
            i = i + 1;
        }
        assert(o.take(o.len() as int) =~= o);
        self.records = kept;
        out
    }
}

} // verus!
