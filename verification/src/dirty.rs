use vstd::prelude::*;

use crate::body::{BodyArena, BodyId};

verus! {

/// Bodies whose published state changed since the last drain.
///
/// `ids` keeps the order in which bodies were marked; `marked` is indexed by
/// slot and keeps a slot from being recorded twice until it is drained,
/// forgotten or reset.
pub struct DirtyBodies {
    ids: Vec<BodyId>,
    marked: Vec<bool>,
}

/// The slot flags with `slot` raised, grown with lowered flags to cover it.
pub open spec fn raise_flag(marked: Seq<bool>, slot: int) -> Seq<bool> {
    let len = if slot < marked.len() {
        marked.len() as int
    } else {
        slot + 1
    };
    Seq::new(
        len as nat,
        |i: int|
            if i == slot {
                true
            } else if i < marked.len() {
                marked[i]
            } else {
                false
            },
    )
}

/// Whether the flag of `slot` is raised.
pub open spec fn flag_raised(marked: Seq<bool>, slot: int) -> bool {
    0 <= slot < marked.len() && marked[slot]
}

/// Slots of the recorded handles.
pub open spec fn recorded_slot(ids: Seq<BodyId>, slot: int) -> bool {
    exists|k: int| 0 <= k < ids.len() && ids[k].spec_slot() == slot
}

/// Marking the handles of `ids` in order, from `(recorded, marked)`.
pub open spec fn mark_all(recorded: Seq<BodyId>, marked: Seq<bool>, ids: Seq<BodyId>) -> (
    Seq<BodyId>,
    Seq<bool>,
)
    decreases ids.len(),
{
    if ids.len() == 0 {
        (recorded, marked)
    } else {
        let (r, m) = mark_all(recorded, marked, ids.drop_last());
        let id = ids.last();
        if flag_raised(m, id.spec_slot() as int) {
            (r, m)
        } else {
            (r.push(id), raise_flag(m, id.spec_slot() as int))
        }
    }
}

impl DirtyBodies {
    /// The recorded handles, in marking order.
    pub closed spec fn recorded_ids(&self) -> Seq<BodyId> {
        self.ids@
    }

    /// The per-slot flags.
    pub closed spec fn flags(&self) -> Seq<bool> {
        self.marked@
    }

    /// Every raised flag belongs to a recorded handle.
    pub closed spec fn wf(&self) -> bool {
        forall|s: int| flag_raised(self.marked@, s) ==> recorded_slot(self.ids@, s)
    }

    pub fn new() -> (r: Self)
        ensures
            r.wf(),
            r.recorded_ids() == Seq::<BodyId>::empty(),
            r.flags() == Seq::<bool>::empty(),
    {
        Self { ids: Vec::new(), marked: Vec::new() }
    }

    /// Records `id` unless its slot is already recorded.
    pub fn mark(&mut self, id: BodyId)
        requires
            old(self).wf(),
        ensures
            final(self).wf(),
            flag_raised(old(self).flags(), id.spec_slot() as int) ==> *final(self) == *old(self),
            !flag_raised(old(self).flags(), id.spec_slot() as int) ==> {
                &&& final(self).recorded_ids() == old(self).recorded_ids().push(id)
                &&& final(self).flags() == raise_flag(old(self).flags(), id.spec_slot() as int)
            },
            old(self).recorded_ids().no_duplicates() && !old(self).recorded_ids().contains(id)
                ==> final(self).recorded_ids().no_duplicates(),
    {
        let slot = id.slot() as usize;
        let ghost old_marked = self.marked@;
        if slot >= self.marked.len() {
            while self.marked.len() <= slot
                invariant
                    self.marked@.len() <= slot + 1,
                    self.marked@.subrange(0, old_marked.len() as int) == old_marked,
                    forall|i: int|
                        old_marked.len() <= i < self.marked@.len() ==> !self.marked@[i],
                    self.marked@.len() >= old_marked.len(),
                    self.ids@ == old(self).ids@,
                    old_marked == old(self).marked@,
                decreases slot + 1 - self.marked@.len(),
            {
                self.marked.push(false);
            }
        }
        if self.marked[slot] {
            proof {
                assert(old_marked.len() > slot);
                assert(self.marked@ =~= old_marked);
            }
            return;
        }
        let ghost grown = self.marked@;
        let ghost old_ids = self.ids@;
        self.marked.set(slot, true);
        self.ids.push(id);
        proof {
            assert forall|i: int| 0 <= i < old_marked.len() implies grown[i] == old_marked[i] by {
                assert(grown.subrange(0, old_marked.len() as int)[i] == old_marked[i]);
            }
            assert(self.marked@ =~= raise_flag(old_marked, slot as int));
            assert forall|s: int| flag_raised(self.marked@, s) implies recorded_slot(self.ids@, s) by {
                if s == slot as int {
                    assert(self.ids@[self.ids@.len() - 1] == id);
                } else {
                    assert(flag_raised(old_marked, s));
                    let k = choose|k: int| 0 <= k < old_ids.len() && old_ids[k].spec_slot() == s;
                    assert(self.ids@[k] == old_ids[k]);
                }
            }
        }
    }

    /// Lowers the flag of `id`'s slot; the handle stays in the record.
    pub fn forget(&mut self, id: BodyId)
        requires
            old(self).wf(),
        ensures
            final(self).wf(),
            final(self).recorded_ids() == old(self).recorded_ids(),
            (id.spec_slot() as int) < old(self).flags().len() ==> final(self).flags() == old(
                self,
            ).flags().update(id.spec_slot() as int, false),
            (id.spec_slot() as int) >= old(self).flags().len() ==> final(self).flags() == old(
                self,
            ).flags(),
    {
        let slot = id.slot() as usize;
        if slot < self.marked.len() {
            self.marked.set(slot, false);
            proof {
                assert forall|s: int| flag_raised(self.marked@, s) implies recorded_slot(self.ids@, s) by {
                    assert(flag_raised(old(self).marked@, s));
                }
            }
        }
    }

    /// The recorded handles, in marking order.
    pub fn recorded(&self) -> (r: &[BodyId])
        ensures
            r@ == self.recorded_ids(),
    {
        self.ids.as_slice()
    }

    /// Clears the record, then marks `ids` in order.
    pub fn reset(&mut self, ids: &[BodyId])
        requires
            old(self).wf(),
        ensures
            final(self).wf(),
            (final(self).recorded_ids(), final(self).flags()) == mark_all(
                Seq::empty(),
                Seq::new(old(self).flags().len(), |i: int| false),
                ids@,
            ),
    {
        self.ids.clear();
        let mut i: usize = 0;
        let ghost n = self.marked@.len();
        while i < self.marked.len()
            invariant
                i <= self.marked@.len(),
                self.marked@.len() == n,
                forall|j: int| 0 <= j < i ==> !self.marked@[j],
                self.ids@ == Seq::<BodyId>::empty(),
            decreases self.marked@.len() - i,
        {
            self.marked.set(i, false);
            i = i + 1;
        }
        proof {
            assert(self.marked@ =~= Seq::new(n, |i: int| false));
        }
        let mut k: usize = 0;
        while k < ids.len()
            invariant
                k <= ids@.len(),
                self.wf(),
                (self.ids@, self.marked@) == mark_all(
                    Seq::empty(),
                    Seq::new(n, |i: int| false),
                    ids@.subrange(0, k as int),
                ),
            decreases ids@.len() - k,
        {
            proof {
                assert(ids@.subrange(0, k as int + 1).drop_last() =~= ids@.subrange(0, k as int));
            }
            self.mark(ids[k]);
            k = k + 1;
        }
        proof {
            assert(ids@.subrange(0, ids@.len() as int) =~= ids@);
        }
    }

    /// Hands out, in marking order, the recorded handles that still resolve in
    /// `bodies`, and empties the record. Every recorded slot's flag is lowered.
    pub fn drain<T>(&mut self, bodies: &BodyArena<T>) -> (r: Vec<BodyId>)
        requires
            old(self).wf(),
            bodies.wf(),
        ensures
            final(self).wf(),
            r@ == old(self).recorded_ids().filter(|id: BodyId| bodies@.contains_key(id)),
            final(self).recorded_ids() == Seq::<BodyId>::empty(),
            no_live_repeat(old(self).recorded_ids(), bodies) ==> r@.no_duplicates(),
            final(self).flags().len() == old(self).flags().len(),
            forall|s: int|
                0 <= s < old(self).flags().len() ==> #[trigger] final(self).flags()[s] == (old(
                    self,
                ).flags()[s] && !recorded_slot(old(self).recorded_ids(), s)),
    {
        let ghost old_ids = self.ids@;
        let ghost old_marked = self.marked@;
        let mut out: Vec<BodyId> = Vec::new();
        let mut k: usize = 0;
        while k < self.ids.len()
            invariant
                self.ids@ == old_ids,
                k <= old_ids.len(),
                self.marked@.len() == old_marked.len(),
                out@ == old_ids.subrange(0, k as int).filter(|id: BodyId| bodies@.contains_key(id)),
                forall|s: int|
                    0 <= s < old_marked.len() ==> #[trigger] self.marked@[s] == (old_marked[s]
                        && !recorded_slot(old_ids.subrange(0, k as int), s)),
                bodies.wf(),
            decreases old_ids.len() - k,
        {
            let id = self.ids[k];
            let slot = id.slot() as usize;
            let ghost before = self.marked@;
            if slot < self.marked.len() {
                self.marked.set(slot, false);
            }
            proof {
                let pre = old_ids.subrange(0, k as int);
                let post = old_ids.subrange(0, k as int + 1);
                assert(post.drop_last() =~= pre);
                assert forall|s: int| 0 <= s < old_marked.len() implies #[trigger] self.marked@[s]
                    == (old_marked[s] && !recorded_slot(post, s)) by {
                    if recorded_slot(pre, s) {
                        let j = choose|j: int| 0 <= j < pre.len() && pre[j].spec_slot() == s;
                        assert(post[j] == pre[j]);
                    }
                    if s == slot as int {
                        assert(post[k as int] == id);
                    } else if recorded_slot(post, s) {
                        let j = choose|j: int| 0 <= j < post.len() && post[j].spec_slot() == s;
                        assert(j != k as int);
                        assert(pre[j] == post[j]);
                    }
                }
            }
            if bodies.dense_index(id).is_some() {
                out.push(id);
            }
            proof {
                let pre = old_ids.subrange(0, k as int);
                let post = old_ids.subrange(0, k as int + 1);
                assert(post.drop_last() =~= pre);
                reveal_with_fuel(Seq::filter, 2);
            }
            k = k + 1;
        }
        self.ids.clear();
        proof {
            assert(old_ids.subrange(0, old_ids.len() as int) =~= old_ids);
            if no_live_repeat(old_ids, bodies) {
                lemma_filter_keeps_distinct(old_ids, |id: BodyId| bodies@.contains_key(id));
            }
            assert forall|s: int| flag_raised(self.marked@, s) implies recorded_slot(self.ids@, s) by {
                assert(flag_raised(old_marked, s));
                assert(recorded_slot(old_ids, s));
            }
        }
        out
    }
}

/// No handle that resolves in `bodies` is listed twice.
pub open spec fn no_live_repeat<T>(ids: Seq<BodyId>, bodies: &BodyArena<T>) -> bool {
    forall|i: int, j: int|
        #![trigger ids[i], ids[j]]
        0 <= i < j < ids.len() && ids[i] == ids[j] ==> !bodies@.contains_key(ids[i])
}

/// The record agrees with the arena as a world keeps the two: every recorded
/// handle was issued (it resolves now, or never will again), every recorded
/// handle that resolves has its slot's flag raised, and no handle that
/// resolves is recorded twice.
pub open spec fn coherent_with<T>(dirty: &DirtyBodies, bodies: &BodyArena<T>) -> bool {
    let rec = dirty.recorded_ids();
    &&& forall|k: int| 0 <= k < rec.len() ==> bodies@.contains_key(#[trigger] rec[k]) || bodies.stale(rec[k])
    &&& forall|k: int|
        0 <= k < rec.len() && bodies@.contains_key(#[trigger] rec[k]) ==> flag_raised(
            dirty.flags(),
            rec[k].spec_slot() as int,
        )
    &&& no_live_repeat(rec, bodies)
}

/// Marking a handle that resolves keeps the record coherent with the arena.
pub proof fn lemma_mark_keeps_coherence<T>(
    before: &DirtyBodies,
    after: &DirtyBodies,
    bodies: &BodyArena<T>,
    id: BodyId,
)
    requires
        coherent_with(before, bodies),
        bodies@.contains_key(id),
        flag_raised(before.flags(), id.spec_slot() as int) ==> *after == *before,
        !flag_raised(before.flags(), id.spec_slot() as int) ==> {
            &&& after.recorded_ids() == before.recorded_ids().push(id)
            &&& after.flags() == raise_flag(before.flags(), id.spec_slot() as int)
        },
    ensures
        coherent_with(after, bodies),
{
    let rec = before.recorded_ids();
    let slot = id.spec_slot() as int;
    if !flag_raised(before.flags(), slot) {
        let rec2 = after.recorded_ids();
        assert forall|k: int| 0 <= k < rec2.len() && bodies@.contains_key(#[trigger] rec2[k]) implies flag_raised(
            after.flags(),
            rec2[k].spec_slot() as int,
        ) by {
            if k < rec.len() {
                assert(rec2[k] == rec[k]);
                assert(flag_raised(before.flags(), rec[k].spec_slot() as int));
            }
        }
        assert forall|k: int| 0 <= k < rec2.len() implies bodies@.contains_key(#[trigger] rec2[k]) || bodies.stale(
            rec2[k],
        ) by {
            if k < rec.len() {
                assert(rec2[k] == rec[k]);
            }
        }
        assert forall|i: int, j: int|
            #![trigger rec2[i], rec2[j]]
            0 <= i < j < rec2.len() && rec2[i] == rec2[j] implies !bodies@.contains_key(rec2[i]) by {
            assert(rec2[i] == rec[i]);
            if j < rec.len() {
                assert(rec2[j] == rec[j]);
            } else {
                assert(rec2[j] == id);
                if bodies@.contains_key(rec[i]) {
                    assert(flag_raised(before.flags(), rec[i].spec_slot() as int));
                }
            }
        }
    }
}

/// Despawning a body and forgetting its flag keeps the record coherent with
/// the arena: the despawned handle never resolves again, and no other handle
/// that resolves shares its slot.
pub proof fn lemma_despawn_keeps_coherence<T>(
    before: &DirtyBodies,
    after: &DirtyBodies,
    bodies_before: &BodyArena<T>,
    bodies_after: &BodyArena<T>,
    id: BodyId,
)
    requires
        bodies_before.wf(),
        coherent_with(before, bodies_before),
        bodies_before@.contains_key(id),
        bodies_after@ == bodies_before@.remove(id),
        bodies_after.stale(id),
        forall|x: BodyId| bodies_before.stale(x) ==> #[trigger] bodies_after.stale(x),
        after.recorded_ids() == before.recorded_ids(),
        (id.spec_slot() as int) < before.flags().len() ==> after.flags() == before.flags().update(
            id.spec_slot() as int,
            false,
        ),
        (id.spec_slot() as int) >= before.flags().len() ==> after.flags() == before.flags(),
    ensures
        coherent_with(after, bodies_after),
{
    let rec = before.recorded_ids();
    assert forall|k: int| 0 <= k < rec.len() implies bodies_after@.contains_key(#[trigger] rec[k])
        || bodies_after.stale(rec[k]) by {
        if rec[k] != id && bodies_before@.contains_key(rec[k]) {
            assert(bodies_after@.contains_key(rec[k]));
        }
    }
    assert forall|k: int| 0 <= k < rec.len() && bodies_after@.contains_key(#[trigger] rec[k]) implies flag_raised(
        after.flags(),
        rec[k].spec_slot() as int,
    ) by {
        assert(bodies_before@.contains_key(rec[k]));
        assert(flag_raised(before.flags(), rec[k].spec_slot() as int));
        if rec[k].spec_slot() == id.spec_slot() {
            crate::body::lemma_one_live_handle_per_slot(bodies_before, rec[k], id);
        }
    }
    assert forall|i: int, j: int|
        #![trigger rec[i], rec[j]]
        0 <= i < j < rec.len() && rec[i] == rec[j] implies !bodies_after@.contains_key(rec[i]) by {
        if bodies_after@.contains_key(rec[i]) {
            assert(bodies_before@.contains_key(rec[i]));
        }
    }
}

/// Spawning a body keeps the record coherent with the arena: the new handle
/// was never issued before, so it is not recorded.
pub proof fn lemma_spawn_keeps_coherence<T>(
    dirty: &DirtyBodies,
    bodies_before: &BodyArena<T>,
    bodies_after: &BodyArena<T>,
    id: BodyId,
    body: T,
)
    requires
        coherent_with(dirty, bodies_before),
        !bodies_before@.contains_key(id),
        !bodies_before.stale(id),
        bodies_after@ == bodies_before@.insert(id, body),
        forall|x: BodyId| bodies_before.stale(x) ==> #[trigger] bodies_after.stale(x),
    ensures
        coherent_with(dirty, bodies_after),
{
    let rec = dirty.recorded_ids();
    assert forall|k: int| 0 <= k < rec.len() implies bodies_after@.contains_key(#[trigger] rec[k]) || bodies_after.stale(
        rec[k],
    ) by {
        if bodies_before@.contains_key(rec[k]) {
            assert(bodies_after@.contains_key(rec[k]));
        }
    }
    assert forall|k: int| 0 <= k < rec.len() && bodies_after@.contains_key(#[trigger] rec[k]) implies flag_raised(
        dirty.flags(),
        rec[k].spec_slot() as int,
    ) by {
        assert(bodies_before@.contains_key(rec[k]) || bodies_before.stale(rec[k]));
    }
    assert forall|i: int, j: int|
        #![trigger rec[i], rec[j]]
        0 <= i < j < rec.len() && rec[i] == rec[j] implies !bodies_after@.contains_key(rec[i]) by {
        assert(bodies_before@.contains_key(rec[i]) || bodies_before.stale(rec[i]));
    }
}

/// A record coherent with the arena drains each handle that resolves once.
pub proof fn lemma_coherent_drain_yields_each_once<T>(dirty: &DirtyBodies, bodies: &BodyArena<T>)
    requires
        coherent_with(dirty, bodies),
    ensures
        dirty.recorded_ids().filter(|id: BodyId| bodies@.contains_key(id)).no_duplicates(),
{
    lemma_filter_keeps_distinct(dirty.recorded_ids(), |id: BodyId| bodies@.contains_key(id));
}

/// Keeping some handles of a list that names each handle once names each kept handle once.
proof fn lemma_filter_keeps_distinct(s: Seq<BodyId>, keep: spec_fn(BodyId) -> bool)
    requires
        forall|i: int, j: int| 0 <= i < j < s.len() && s[i] == s[j] ==> !keep(s[i]),
    ensures
        s.filter(keep).no_duplicates(),
        forall|i: int| 0 <= i < s.filter(keep).len() ==> s.contains(#[trigger] s.filter(keep)[i]),
    decreases s.len(),
{
    broadcast use vstd::seq_lib::group_filter_ensures;

    if s.len() > 0 {
        let init = s.drop_last();
        assert forall|i: int, j: int| 0 <= i < j < init.len() && init[i] == init[j] implies !keep(init[i]) by {
            assert(init[i] == s[i] && init[j] == s[j]);
        }
        lemma_filter_keeps_distinct(init, keep);
        let sub = init.filter(keep);
        assert(s.filter(keep) == if keep(s.last()) {
            sub.push(s.last())
        } else {
            sub
        }) by {
            reveal_with_fuel(Seq::filter, 1);
        }
        if keep(s.last()) {
            assert forall|i: int| 0 <= i < sub.len() implies sub[i] != s.last() by {
                assert(init.contains(sub[i]));
                let k = choose|k: int| 0 <= k < init.len() && init[k] == sub[i];
                assert(s[k] == init[k]);
                assert(s[s.len() - 1] == s.last());
            }
            assert forall|i: int| 0 <= i < sub.len() implies s.contains(#[trigger] sub[i]) by {
                let k = choose|k: int| 0 <= k < init.len() && init[k] == sub[i];
                assert(s[k] == init[k]);
            }
            assert(s[s.len() - 1] == s.last());
            let t = sub.push(s.last());
            assert forall|i: int, j: int| 0 <= i < t.len() && 0 <= j < t.len() && i != j implies t[i] != t[j] by {
                if i < sub.len() && j < sub.len() {
                    assert(t[i] == sub[i] && t[j] == sub[j]);
                }
            }
        } else {
            assert forall|i: int| 0 <= i < sub.len() implies s.contains(#[trigger] sub[i]) by {
                let k = choose|k: int| 0 <= k < init.len() && init[k] == sub[i];
                assert(s[k] == init[k]);
            }
        }
    }
}

/// Marking a handle twice records it once: the second mark changes nothing.
pub proof fn lemma_mark_idempotent(recorded: Seq<BodyId>, marked: Seq<bool>, id: BodyId)
    ensures
        mark_all(recorded, marked, seq![id, id]) == mark_all(recorded, marked, seq![id]),
{
    assert(seq![id, id].drop_last() =~= seq![id]);
    assert(seq![id].drop_last() =~= Seq::<BodyId>::empty());
    reveal_with_fuel(mark_all, 3);
}

} // verus!
