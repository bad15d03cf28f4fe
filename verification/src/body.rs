use vstd::prelude::*;

verus! {

/// A generational handle to a body: the slot it occupies and the generation
/// of that slot when the body was spawned. Ordered by slot, then generation.
#[derive(Clone, Copy, Debug, PartialEq, Eq, Structural, PartialOrd, Ord, Hash)]
pub struct BodyId {
    slot: u32,
    generation: u32,
}

impl BodyId {
    pub closed spec fn spec_slot(self) -> u32 {
        self.slot
    }

    pub closed spec fn spec_generation(self) -> u32 {
        self.generation
    }

    /// Handle order: by slot, then by generation.
    pub open spec fn precedes(self, other: BodyId) -> bool {
        self.spec_slot() < other.spec_slot() || (self.spec_slot() == other.spec_slot()
            && self.spec_generation() < other.spec_generation())
    }

    /// A handle is its slot and generation.
    pub proof fn lemma_ext(self, other: BodyId)
        ensures
            (self.spec_slot() == other.spec_slot() && self.spec_generation()
                == other.spec_generation()) <==> self == other,
    {
    }

    pub fn slot(self) -> (r: u32)
        ensures
            r == self.spec_slot(),
    {
        self.slot
    }

    pub fn generation(self) -> (r: u32)
        ensures
            r == self.spec_generation(),
    {
        self.generation
    }

    /// Builds a handle from its parts, whether or not any arena issued it.
    pub fn forge(slot: u32, generation: u32) -> (r: Self)
        ensures
            r.spec_slot() == slot,
            r.spec_generation() == generation,
            r == Self::forge_spec(slot, generation),
    {
        Self { slot, generation }
    }

    /// `self < other` in handle order.
    pub fn less_than(self, other: BodyId) -> (r: bool)
        ensures
            r == self.precedes(other),
    {
        self.slot < other.slot || (self.slot == other.slot && self.generation < other.generation)
    }
}

/// Handle order is a strict total order.
pub proof fn lemma_handle_order_total(a: BodyId, b: BodyId)
    ensures
        a == b || a.precedes(b) || b.precedes(a),
        !(a.precedes(b) && b.precedes(a)),
        !a.precedes(a),
{
}

/// Handle order is transitive.
pub proof fn lemma_handle_order_transitive(a: BodyId, b: BodyId, c: BodyId)
    requires
        a.precedes(b),
        b.precedes(c),
    ensures
        a.precedes(c),
{
}

struct Slot {
    generation: u32,
    dense: Option<u32>,
}

/// Dense storage of bodies addressed by generational handles.
///
/// Despawning swaps the last body into the hole, so storage stays dense and
/// every surviving handle keeps resolving to its own body. A despawned
/// handle never resolves again: its slot's generation moves on, and a slot
/// whose generation would wrap is retired instead of recycled.
pub struct BodyArena<T> {
    dense: Vec<T>,
    ids: Vec<BodyId>,
    slots: Vec<Slot>,
    free: Vec<u32>,
}

impl<T> BodyArena<T> {
    /// The internal consistency every operation keeps.
    pub closed spec fn wf(&self) -> bool {
        &&& self.dense@.len() == self.ids@.len()
        &&& self.ids@.len() <= u32::MAX
        &&& self.slots@.len() <= u32::MAX + 1
        &&& forall|d: int|
            #![trigger self.ids@[d]]
            0 <= d < self.ids@.len() ==> {
                let id = self.ids@[d];
                &&& id.slot < self.slots@.len()
                &&& self.slots@[id.slot as int].dense == Some(d as u32)
                &&& self.slots@[id.slot as int].generation == id.generation
            }
        &&& forall|s: int|
            #![trigger self.slots@[s]]
            0 <= s < self.slots@.len() ==> match self.slots@[s].dense {
                Some(d) => d < self.ids@.len() && self.ids@[d as int].slot == s,
                None => true,
            }
        &&& forall|k: int|
            #![trigger self.free@[k]]
            0 <= k < self.free@.len() ==> {
                &&& self.free@[k] < self.slots@.len()
                &&& self.slots@[self.free@[k] as int].dense is None
            }
        &&& forall|k: int, l: int|
            #![trigger self.free@[k], self.free@[l]]
            0 <= k < l < self.free@.len() ==> self.free@[k] != self.free@[l]
    }

    /// The handle resolves to a body held now.
    pub closed spec fn live(&self, id: BodyId) -> bool {
        &&& id.slot < self.slots@.len()
        &&& self.slots@[id.slot as int].generation == id.generation
        &&& self.slots@[id.slot as int].dense is Some
    }

    /// Dense position of a live handle.
    pub closed spec fn position(&self, id: BodyId) -> int {
        self.slots@[id.slot as int].dense.unwrap() as int
    }

    /// The handle named a body that has been despawned; it can never resolve again.
    pub closed spec fn stale(&self, id: BodyId) -> bool {
        &&& id.slot < self.slots@.len()
        &&& {
            let slot = self.slots@[id.slot as int];
            ||| id.generation < slot.generation
            ||| (id.generation == slot.generation && slot.dense is None && !self.free@.contains(
                id.slot,
            ))
        }
    }

    /// Handles of the held bodies, in dense storage order.
    pub closed spec fn ids(&self) -> Seq<BodyId> {
        self.ids@
    }

    /// The held bodies, in dense storage order.
    pub closed spec fn bodies(&self) -> Seq<T> {
        self.dense@
    }

    /// The handle the next spawn hands out: the most recently freed slot, else a new one.
    pub closed spec fn next_id(&self) -> BodyId {
        if self.free@.len() > 0 {
            let slot = self.free@.last();
            BodyId { slot, generation: self.slots@[slot as int].generation }
        } else {
            BodyId { slot: self.slots@.len() as u32, generation: 0 }
        }
    }

    /// Whether one more spawn fits in the 32-bit slot and position space.
    pub closed spec fn can_spawn(&self) -> bool {
        &&& self.ids@.len() < u32::MAX
        &&& (self.free@.len() > 0 || self.slots@.len() <= u32::MAX)
    }

    /// Each live handle mapped to its body.
    pub open spec fn view(&self) -> Map<BodyId, T> {
        Map::new(|id: BodyId| self.live(id), |id: BodyId| self.bodies()[self.position(id)])
    }

    proof fn lemma_live_position(&self, id: BodyId)
        requires
            self.wf(),
            self.live(id),
        ensures
            0 <= self.position(id) < self.ids@.len(),
            self.ids@[self.position(id)] == id,
    {
        let s = id.slot as int;
        assert(self.slots@[s].dense is Some);
    }

    proof fn lemma_ids_live(&self, d: int)
        requires
            self.wf(),
            0 <= d < self.ids@.len(),
        ensures
            self.live(self.ids@[d]),
            self.position(self.ids@[d]) == d,
    {
        let id = self.ids@[d];
        assert(self.slots@[id.slot as int].dense == Some(d as u32));
    }

    proof fn lemma_ids_distinct(&self)
        requires
            self.wf(),
        ensures
            forall|a: int, b: int|
                0 <= a < self.ids@.len() && 0 <= b < self.ids@.len() && a != b ==> self.ids@[a]
                    != self.ids@[b],
    {
        assert forall|a: int, b: int|
            0 <= a < self.ids@.len() && 0 <= b < self.ids@.len() && a != b implies self.ids@[a]
            != self.ids@[b] by {
            self.lemma_ids_live(a);
            self.lemma_ids_live(b);
        }
    }

    pub fn new() -> (r: Self)
        ensures
            r.wf(),
            r@ == Map::<BodyId, T>::empty(),
            r.ids() == Seq::<BodyId>::empty(),
            r.bodies() == Seq::<T>::empty(),
            r.next_id() == BodyId::forge_spec(0, 0),
            r.can_spawn(),
    {
        let r = Self { dense: Vec::new(), ids: Vec::new(), slots: Vec::new(), free: Vec::new() };
        assert(r@ =~= Map::<BodyId, T>::empty());
        r
    }

    /// Number of held bodies.
    pub fn len(&self) -> (r: usize)
        requires
            self.wf(),
        ensures
            r == self.ids().len(),
            r == self.bodies().len(),
            r <= u32::MAX,
    {
        self.dense.len()
    }

    /// Whether one more body fits: at most `u32::MAX` bodies and `2^32` slots.
    pub fn has_room(&self) -> (r: bool)
        requires
            self.wf(),
        ensures
            r == self.can_spawn(),
    {
        self.ids.len() < 4294967295usize && (self.free.len() > 0 || self.slots.len() <= 4294967295usize)
    }

    pub fn get_mut(&mut self, id: BodyId) -> (r: Option<&mut T>)
        requires
            old(self).wf(),
        ensures
            r is Some <==> old(self)@.contains_key(id),
            r is None ==> *final(self) == *old(self),
            r matches Some(body) ==> {
                &&& *body == old(self)@[id]
                &&& final(self).wf()
                &&& final(self)@ == old(self)@.insert(id, *final(body))
                &&& final(self).ids() == old(self).ids()
                &&& final(self).bodies() == old(self).bodies().update(old(self).position(id), *final(body))
            },
            final(self).wf(),
            forall|x: BodyId| old(self).stale(x) <==> #[trigger] final(self).stale(x),
    {
        match self.dense_index(id) {
            Some(d) => {
                proof {
                    self.lemma_ids_distinct();
                    self.lemma_live_position(id);
                }
                Some(&mut self.dense[d])
            },
            None => None,
        }
    }

    pub fn spawn(&mut self, body: T) -> (id: BodyId)
        requires
            old(self).wf(),
            old(self).can_spawn(),
        ensures
            final(self).wf(),
            id == old(self).next_id(),
            !old(self)@.contains_key(id),
            !old(self).stale(id),
            final(self)@ == old(self)@.insert(id, body),
            final(self).ids() == old(self).ids().push(id),
            final(self).bodies() == old(self).bodies().push(body),
            forall|x: BodyId| old(self).stale(x) ==> #[trigger] final(self).stale(x),
    {
        let ghost old_self = *self;
        let dense = self.dense.len() as u32;
        let slot = match self.free.pop() {
            Some(slot) => {
                let generation = self.slots[slot as usize].generation;
                self.slots.set(slot as usize, Slot { generation, dense: Some(dense) });
                slot
            },
            None => {
                self.slots.push(Slot { generation: 0, dense: Some(dense) });
                (self.slots.len() - 1) as u32
            },
        };
        let id = BodyId { slot, generation: self.slots[slot as usize].generation };
        self.dense.push(body);
        self.ids.push(id);
        proof {
            assert(id == old_self.next_id());
            assert forall|x: BodyId| old_self.stale(x) implies #[trigger] self.stale(x) by {
                if x.slot == slot {
                    assert(old_self.free@.contains(slot)) by {
                        if old_self.free@.len() > 0 {
                            assert(old_self.free@[old_self.free@.len() - 1] == slot);
                        }
                    }
                } else {
                    if old_self.free@.len() > 0 {
                        assert(self.free@ =~= old_self.free@.drop_last());
                        if self.free@.contains(x.slot) {
                            let k = choose|k: int|
                                0 <= k < self.free@.len() && self.free@[k] == x.slot;
                            assert(old_self.free@[k] == x.slot);
                        }
                    }
                }
            }
            assert forall|k: int, l: int|
                #![trigger self.free@[k], self.free@[l]]
                0 <= k < l < self.free@.len() implies self.free@[k] != self.free@[l] by {
                assert(self.free@[k] == old_self.free@[k]);
                assert(self.free@[l] == old_self.free@[l]);
            }
            assert forall|k: int|
                #![trigger self.free@[k]]
                0 <= k < self.free@.len() implies {
                &&& self.free@[k] < self.slots@.len()
                &&& self.slots@[self.free@[k] as int].dense is None
            } by {
                assert(self.free@[k] == old_self.free@[k]);
                if old_self.free@.len() > 0 {
                    let last = old_self.free@.len() - 1;
                    assert(old_self.free@[last] == slot);
                    assert(old_self.free@[k] != old_self.free@[last]);
                }
            }
            assert forall|d: int|
                #![trigger self.ids@[d]]
                0 <= d < self.ids@.len() implies {
                let i = self.ids@[d];
                &&& i.slot < self.slots@.len()
                &&& self.slots@[i.slot as int].dense == Some(d as u32)
                &&& self.slots@[i.slot as int].generation == i.generation
            } by {
                if d < old_self.ids@.len() {
                    let i = old_self.ids@[d];
                    assert(old_self.slots@[i.slot as int].dense == Some(d as u32));
                }
            }
            assert forall|s: int|
                #![trigger self.slots@[s]]
                0 <= s < self.slots@.len() implies match self.slots@[s].dense {
                Some(d) => d < self.ids@.len() && self.ids@[d as int].slot == s,
                None => true,
            } by {
                if s != slot as int {
                    assert(self.slots@[s] == old_self.slots@[s]);
                }
            }
            assert(!old_self.live(id)) by {
                if old_self.live(id) {
                    assert(old_self.slots@[slot as int].dense is Some);
                }
            }
            assert forall|x: BodyId| self.live(x) <==> (old_self.live(x) || x == id) by {
                if x.slot == slot {
                } else if x.slot < old_self.slots@.len() {
                    assert(self.slots@[x.slot as int] == old_self.slots@[x.slot as int]);
                }
            }
            assert forall|x: BodyId| #[trigger] old_self.live(x) implies self.position(x)
                == old_self.position(x) by {
                if x.slot != slot {
                    assert(self.slots@[x.slot as int] == old_self.slots@[x.slot as int]);
                }
            }
            assert(self@ =~= old_self@.insert(id, body)) by {
                assert forall|x: BodyId| #[trigger] old_self.live(x) implies self.bodies()[self.position(
                    x,
                )] == old_self.bodies()[old_self.position(x)] by {
                    old_self.lemma_live_position(x);
                }
            }
        }
        id
    }

    /// Where the handle's body sits in dense storage; `None` for a handle that does not resolve.
    pub fn dense_index(&self, id: BodyId) -> (r: Option<usize>)
        requires
            self.wf(),
        ensures
            r is Some <==> self@.contains_key(id),
            r matches Some(d) ==> d < self.ids().len() && self.ids()[d as int] == id,
    {
        if (id.slot as usize) >= self.slots.len() {
            return None;
        }
        let slot = &self.slots[id.slot as usize];
        if slot.generation != id.generation {
            return None;
        }
        match slot.dense {
            Some(d) => {
                proof {
                    self.lemma_live_position(id);
                }
                Some(d as usize)
            },
            None => None,
        }
    }

    /// The handle of the body at a dense position.
    pub fn id_at(&self, dense: usize) -> (r: BodyId)
        requires
            self.wf(),
            dense < self.ids().len(),
        ensures
            r == self.ids()[dense as int],
            self@.contains_key(r),
    {
        proof {
            self.lemma_ids_live(dense as int);
        }
        self.ids[dense]
    }

    /// The body at a dense position.
    pub fn at(&self, dense: usize) -> (r: &T)
        requires
            self.wf(),
            dense < self.ids().len(),
        ensures
            *r == self.bodies()[dense as int],
    {
        &self.dense[dense]
    }

    pub fn get(&self, id: BodyId) -> (r: Option<&T>)
        requires
            self.wf(),
        ensures
            r == (if self@.contains_key(id) {
                Some(&self@[id])
            } else {
                None
            }),
    {
        match self.dense_index(id) {
            Some(d) => {
                proof {
                    self.lemma_ids_distinct();
                    self.lemma_live_position(id);
                }
                Some(&self.dense[d])
            },
            None => None,
        }
    }

    /// Dense storage as a slice.
    pub fn as_slice(&self) -> (r: &[T])
        requires
            self.wf(),
        ensures
            r@ == self.bodies(),
    {
        self.dense.as_slice()
    }

    pub fn despawn(&mut self, id: BodyId) -> (r: Option<T>)
        requires
            old(self).wf(),
        ensures
            final(self).wf(),
            r is Some <==> old(self)@.contains_key(id),
            r is None ==> *final(self) == *old(self),
            r matches Some(body) ==> {
                let d = old(self).position(id);
                let last = old(self).ids().len() - 1;
                &&& body == old(self)@[id]
                &&& final(self)@ == old(self)@.remove(id)
                &&& final(self).stale(id)
                &&& final(self).ids() == old(self).ids().update(d, old(self).ids()[last]).drop_last()
                &&& final(self).bodies() == old(self).bodies().update(
                    d,
                    old(self).bodies()[last],
                ).drop_last()
                &&& old(self).can_spawn() ==> final(self).can_spawn()
                &&& id.spec_generation() < u32::MAX ==> {
                    &&& final(self).can_spawn()
                    &&& final(self).next_id() == BodyId::forge_spec(id.spec_slot(), (id.spec_generation() + 1) as u32)
                }
            },
            forall|x: BodyId| old(self).stale(x) ==> #[trigger] final(self).stale(x),
    {
        let ghost old_self = *self;
        let dense = match self.dense_index(id) {
            Some(d) => d,
            None => return None,
        };
        proof {
            old_self.lemma_live_position(id);
            old_self.lemma_ids_distinct();
        }
        let s = id.slot as usize;
        let generation = self.slots[s].generation;
        match generation.checked_add(1) {
            Some(next) => {
                self.slots.set(s, Slot { generation: next, dense: None });
                proof {
                    assert(!old_self.free@.contains(id.slot)) by {
                        if old_self.free@.contains(id.slot) {
                            let k = choose|k: int|
                                0 <= k < old_self.free@.len() && old_self.free@[k] == id.slot;
                            assert(old_self.free@[k] == id.slot);
                        }
                    }
                }
                self.free.push(id.slot);
            },
            None => {
                self.slots.set(s, Slot { generation, dense: None });
            },
        }
        let ghost mid = *self;
        let removed = self.dense.swap_remove(dense);
        self.ids.swap_remove(dense);
        if dense < self.ids.len() {
            let moved = self.ids[dense];
            proof {
                let last = old_self.ids@.len() - 1;
                assert(moved == old_self.ids@[last]);
                assert(old_self.slots@[moved.slot as int].dense == Some(last as u32));
            }
            let g = self.slots[moved.slot as usize].generation;
            self.slots.set(moved.slot as usize, Slot { generation: g, dense: Some(dense as u32) });
        }
        proof {
            let last = old_self.ids@.len() - 1;
            let d = dense as int;
            assert(self.ids@ =~= old_self.ids@.update(d, old_self.ids@[last]).drop_last());
            assert(self.dense@ =~= old_self.dense@.update(d, old_self.dense@[last]).drop_last());
            // live handles other than `id` keep resolving, to the same bodies
            assert forall|x: BodyId| self.live(x) <==> (old_self.live(x) && x != id) by {
                if x.slot == id.slot {
                    if d < last {
                        assert(old_self.ids@[last].slot != id.slot) by {
                            assert(old_self.ids@[d] == id);
                        }
                    }
                } else if x.slot < old_self.slots@.len() {
                    if d < last && x.slot == old_self.ids@[last].slot {
                    } else {
                        assert(self.slots@[x.slot as int] == old_self.slots@[x.slot as int]);
                    }
                }
            }
            assert forall|x: BodyId| #[trigger] self.live(x) implies self.bodies()[self.position(x)]
                == old_self.bodies()[old_self.position(x)] by {
                old_self.lemma_live_position(x);
                if d < last && x == old_self.ids@[last] {
                } else {
                    if x.slot < old_self.slots@.len() && !(d < last && x.slot
                        == old_self.ids@[last].slot) {
                        assert(self.slots@[x.slot as int] == old_self.slots@[x.slot as int]);
                    }
                }
            }
            assert(self@ =~= old_self@.remove(id));
            assert forall|d2: int|
                #![trigger self.ids@[d2]]
                0 <= d2 < self.ids@.len() implies {
                let i = self.ids@[d2];
                &&& i.slot < self.slots@.len()
                &&& self.slots@[i.slot as int].dense == Some(d2 as u32)
                &&& self.slots@[i.slot as int].generation == i.generation
            } by {
                let i = self.ids@[d2];
                if d2 == d {
                } else {
                    assert(i == old_self.ids@[d2]);
                    assert(old_self.slots@[i.slot as int].dense == Some(d2 as u32));
                    assert(i.slot != id.slot) by {
                        assert(old_self.ids@[d] == id);
                    }
                    if d < last {
                        assert(i.slot != old_self.ids@[last].slot) by {
                            old_self.lemma_ids_live(last);
                        }
                    }
                }
            }
            assert forall|s2: int|
                #![trigger self.slots@[s2]]
                0 <= s2 < self.slots@.len() implies match self.slots@[s2].dense {
                Some(d2) => d2 < self.ids@.len() && self.ids@[d2 as int].slot == s2,
                None => true,
            } by {
                if s2 == id.slot as int {
                } else if d < last && s2 == old_self.ids@[last].slot as int {
                } else {
                    assert(self.slots@[s2] == old_self.slots@[s2]);
                    match old_self.slots@[s2].dense {
                        Some(d2) => {
                            assert(old_self.ids@[d2 as int].slot == s2);
                            assert(d2 as int != d) by {
                                assert(old_self.ids@[d] == id);
                            }
                            if d2 as int == last && d < last {
                                assert(false);
                            }
                        },
                        None => {},
                    }
                }
            }
            assert forall|k: int|
                #![trigger self.free@[k]]
                0 <= k < self.free@.len() implies {
                &&& self.free@[k] < self.slots@.len()
                &&& self.slots@[self.free@[k] as int].dense is None
            } by {
                if k < old_self.free@.len() {
                    assert(self.free@[k] == old_self.free@[k]);
                    let f = old_self.free@[k];
                    assert(old_self.slots@[f as int].dense is None);
                    if d < last {
                        assert(f != old_self.ids@[last].slot) by {
                            old_self.lemma_ids_live(last);
                        }
                    }
                }
            }
            assert forall|k: int, l: int|
                #![trigger self.free@[k], self.free@[l]]
                0 <= k < l < self.free@.len() implies self.free@[k] != self.free@[l] by {
                if l < old_self.free@.len() {
                    assert(self.free@[k] == old_self.free@[k]);
                    assert(self.free@[l] == old_self.free@[l]);
                } else {
                    assert(self.free@[k] == old_self.free@[k]);
                    assert(old_self.free@[k] != id.slot) by {
                        assert(old_self.slots@[old_self.free@[k] as int].dense is None);
                    }
                }
            }
            assert forall|x: BodyId| #[trigger] old_self.stale(x) implies self.stale(x) by {
                if x.slot == id.slot {
                } else if d < last && x.slot == old_self.ids@[last].slot {
                    assert(!self.free@.contains(x.slot)) by {
                        if self.free@.contains(x.slot) {
                            let k = choose|k: int| 0 <= k < self.free@.len() && self.free@[k] == x.slot;
                            if k < old_self.free@.len() {
                                assert(old_self.free@[k] == x.slot);
                                old_self.lemma_ids_live(last);
                            }
                        }
                    }
                } else {
                    assert(self.slots@[x.slot as int] == old_self.slots@[x.slot as int]);
                    if self.free@.contains(x.slot) {
                        let k = choose|k: int| 0 <= k < self.free@.len() && self.free@[k] == x.slot;
                        if k < old_self.free@.len() {
                            assert(old_self.free@[k] == x.slot);
                        }
                    }
                }
            }
            if id.generation < u32::MAX {
                assert(self.free@.last() == id.slot);
                assert(mid.slots@[id.slot as int].generation == id.generation + 1);
                if d < last {
                    assert(old_self.ids@[last].slot != id.slot) by {
                        assert(old_self.ids@[d] == id);
                    }
                }
                assert(self.slots@[id.slot as int].generation == id.generation + 1);
            }
            assert(self.stale(id)) by {
                if self.slots@[id.slot as int].generation == id.generation {
                    assert(!self.free@.contains(id.slot)) by {
                        if self.free@.contains(id.slot) {
                            let k = choose|k: int| 0 <= k < self.free@.len() && self.free@[k] == id.slot;
                            if k < old_self.free@.len() {
                                assert(old_self.free@[k] == id.slot);
                            }
                        }
                    }
                }
            }
        }
        Some(removed)
    }
}

impl BodyId {
    pub closed spec fn forge_spec(slot: u32, generation: u32) -> BodyId {
        BodyId { slot, generation }
    }
}

/// A handle whose body was despawned never resolves again, however the arena changes after.
pub proof fn lemma_stale_handle_never_resolves<T>(arena: &BodyArena<T>, id: BodyId)
    requires
        arena.wf(),
        arena.stale(id),
    ensures
        !arena@.contains_key(id),
{
}

/// Every dense position resolves back, through its own handle, to itself.
pub proof fn lemma_dense_position_round_trip<T>(arena: &BodyArena<T>, dense: int)
    requires
        arena.wf(),
        0 <= dense < arena.ids().len(),
    ensures
        arena@.contains_key(arena.ids()[dense]),
        arena@[arena.ids()[dense]] == arena.bodies()[dense],
{
    arena.lemma_ids_live(dense);
}

/// At most one handle of a slot resolves.
pub proof fn lemma_one_live_handle_per_slot<T>(arena: &BodyArena<T>, a: BodyId, b: BodyId)
    requires
        arena.wf(),
        arena@.contains_key(a),
        arena@.contains_key(b),
        a.spec_slot() == b.spec_slot(),
    ensures
        a == b,
{
}

/// Distinct dense positions hold distinct handles.
pub proof fn lemma_handles_distinct<T>(arena: &BodyArena<T>, a: int, b: int)
    requires
        arena.wf(),
        0 <= a < arena.ids().len(),
        0 <= b < arena.ids().len(),
        a != b,
    ensures
        arena.ids()[a] != arena.ids()[b],
{
    arena.lemma_ids_distinct();
}

/// A live handle sits at its position in dense storage.
pub proof fn lemma_position_of_live<T>(arena: &BodyArena<T>, id: BodyId)
    requires
        arena.wf(),
        arena@.contains_key(id),
    ensures
        0 <= arena.position(id) < arena.ids().len(),
        arena.ids()[arena.position(id)] == id,
{
    arena.lemma_live_position(id);
}

/// A live handle sits at exactly one dense position.
pub proof fn lemma_handles_distinct_positions<T>(arena: &BodyArena<T>, id: BodyId, d: int)
    requires
        arena.wf(),
        0 <= d < arena.ids().len(),
        arena.ids()[d] == id,
    ensures
        arena@.contains_key(id),
        arena.position(id) == d,
{
    arena.lemma_ids_live(d);
}

} // verus!
