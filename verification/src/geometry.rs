use vstd::prelude::*;

use crate::collider::ColliderKind;

verus! {

/// Index of a geometry entry.
#[derive(Clone, Copy, Debug, PartialEq, Eq, Structural, Hash, PartialOrd, Ord)]
pub struct GeometryId(u32);

impl GeometryId {
    pub closed spec fn spec_index(self) -> u32 {
        self.0
    }

    pub fn index(self) -> (r: u32)
        ensures
            r == self.spec_index(),
    {
        self.0
    }
}

/// A geometry entry at one version; a released entry's next version never
/// matches an older reference.
#[derive(Clone, Copy, Debug, PartialEq, Eq, Structural, Hash)]
pub struct GeometryRef {
    id: GeometryId,
    version: u32,
}

impl GeometryRef {
    pub closed spec fn spec_id(self) -> GeometryId {
        self.id
    }

    pub closed spec fn spec_version(self) -> u32 {
        self.version
    }

    pub fn id(self) -> (r: GeometryId)
        ensures
            r == self.spec_id(),
    {
        self.id
    }

    pub fn version(self) -> (r: u32)
        ensures
            r == self.spec_version(),
    {
        self.version
    }
}

/// A prepared collider: its kind and the geometry it uses.
#[derive(Clone, Copy, Debug, PartialEq, Eq, Structural, Hash)]
pub struct ColliderRef {
    kind: ColliderKind,
    geometry: GeometryRef,
}

impl ColliderRef {
    pub closed spec fn spec_kind(self) -> ColliderKind {
        self.kind
    }

    pub closed spec fn spec_geometry(self) -> GeometryRef {
        self.geometry
    }

    pub fn kind(self) -> (r: ColliderKind)
        ensures
            r == self.spec_kind(),
    {
        self.kind
    }

    pub fn geometry(self) -> (r: GeometryRef)
        ensures
            r == self.spec_geometry(),
    {
        self.geometry
    }
}

/// A collider's geometry as plain values: its kind and the bit patterns of its
/// single-precision numbers in declaration order, a polygon's or a hull's
/// vertices one after another.
#[derive(Clone, Debug, PartialEq, Eq)]
pub struct Shape {
    pub kind: ColliderKind,
    pub words: Vec<u32>,
}

/// What a shape holds.
pub open spec fn shape_view(s: &Shape) -> (ColliderKind, Seq<u32>) {
    (s.kind, s.words@)
}

/// The bit pattern is a NaN.
pub open spec fn is_nan_bits(w: u32) -> bool {
    (w & 0x7f80_0000u32) == 0x7f80_0000u32 && (w & 0x007f_ffffu32) != 0
}

/// IEEE equality of two single-precision numbers given by their bit patterns:
/// no NaN equals anything, and the two zeros are equal.
pub open spec fn float_bits_eq(a: u32, b: u32) -> bool {
    !is_nan_bits(a) && !is_nan_bits(b) && (a == b || ((a | b) & 0x7fff_ffffu32) == 0)
}

/// Two shapes of one kind whose numbers are equal one by one.
pub open spec fn spec_same_shape(a: (ColliderKind, Seq<u32>), b: (ColliderKind, Seq<u32>)) -> bool {
    &&& a.0 == b.0
    &&& a.1.len() == b.1.len()
    &&& forall|i: int| 0 <= i < a.1.len() ==> float_bits_eq(#[trigger] a.1[i], b.1[i])
}

/// A held shape serves a new one equal to it.
pub open spec fn serves(held: (ColliderKind, Seq<u32>), s: (ColliderKind, Seq<u32>)) -> bool {
    spec_same_shape(held, s)
}

fn float_eq(a: u32, b: u32) -> (r: bool)
    ensures
        r == float_bits_eq(a, b),
{
    let nan_a = (a & 0x7f80_0000u32) == 0x7f80_0000u32 && (a & 0x007f_ffffu32) != 0;
    let nan_b = (b & 0x7f80_0000u32) == 0x7f80_0000u32 && (b & 0x007f_ffffu32) != 0;
    !nan_a && !nan_b && (a == b || ((a | b) & 0x7fff_ffffu32) == 0)
}

/// Whether two shapes are the same collider geometry.
pub fn same_shape(a: &Shape, b: &Shape) -> (r: bool)
    ensures
        r == spec_same_shape(shape_view(a), shape_view(b)),
{
    if a.kind != b.kind || a.words.len() != b.words.len() {
        return false;
    }
    let mut i: usize = 0;
    while i < a.words.len()
        invariant
            a.words@.len() == b.words@.len(),
            i <= a.words@.len(),
            forall|j: int| 0 <= j < i ==> float_bits_eq(#[trigger] a.words@[j], b.words@[j]),
        decreases a.words@.len() - i,
    {
        if !float_eq(a.words[i], b.words[i]) {
            return false;
        }
        i = i + 1;
    }
    true
}

struct Entry {
    version: u32,
    uses: u32,
    shape: Option<Shape>,
}

spec fn count_held(s: Seq<Entry>) -> nat
    decreases s.len(),
{
    if s.len() == 0 {
        0
    } else {
        count_held(s.drop_last()) + if s.last().shape is Some {
            1nat
        } else {
            0nat
        }
    }
}

proof fn lemma_count_held_push(s: Seq<Entry>, e: Entry)
    ensures
        count_held(s.push(e)) == count_held(s) + if e.shape is Some {
            1nat
        } else {
            0nat
        },
{
    assert(s.push(e).drop_last() =~= s);
}

proof fn lemma_count_held_update(s: Seq<Entry>, i: int, e: Entry)
    requires
        0 <= i < s.len(),
    ensures
        count_held(s.update(i, e)) + (if s[i].shape is Some {
            1nat
        } else {
            0nat
        }) == count_held(s) + (if e.shape is Some {
            1nat
        } else {
            0nat
        }),
    decreases s.len(),
{
    let t = s.update(i, e);
    if i == s.len() - 1 {
        assert(t.drop_last() =~= s.drop_last());
    } else {
        assert(t.drop_last() =~= s.drop_last().update(i, e));
        lemma_count_held_update(s.drop_last(), i, e);
    }
}

/// Pool of released shapes kept for reuse of their buffers.
pub open spec fn stashed(released: Seq<(ColliderKind, Seq<u32>)>, s: (ColliderKind, Seq<u32>)) -> Seq<
    (ColliderKind, Seq<u32>),
> {
    if released.len() >= 2 {
        released.drop_first().push(s)
    } else {
        released.push(s)
    }
}

/// Reference-counted, versioned collider geometry. Preparing a shape equal to
/// one already held shares its entry; the last release frees the entry and
/// moves its version on, so older references stop resolving.
pub struct GeometryStore {
    entries: Vec<Entry>,
    free: Vec<u32>,
    released: Vec<Shape>,
}

impl GeometryStore {
    pub closed spec fn wf(&self) -> bool {
        &&& self.entries@.len() <= u32::MAX + 1
        &&& self.released@.len() <= 2
        &&& forall|i: int|
            #![trigger self.entries@[i]]
            0 <= i < self.entries@.len() ==> (self.entries@[i].shape is Some <==> self.entries@[i].uses
                > 0)
        &&& forall|k: int|
            #![trigger self.free@[k]]
            0 <= k < self.free@.len() ==> {
                &&& self.free@[k] < self.entries@.len()
                &&& self.entries@[self.free@[k] as int].shape is None
            }
        &&& forall|k: int, l: int|
            #![trigger self.free@[k], self.free@[l]]
            0 <= k < l < self.free@.len() ==> self.free@[k] != self.free@[l]
        &&& forall|i: int, j: int|
            #![trigger self.entries@[i], self.entries@[j]]
            0 <= i < j < self.entries@.len() && self.entries@[i].shape is Some
                && self.entries@[j].shape is Some ==> !serves(
                shape_view(&self.entries@[i].shape.unwrap()),
                shape_view(&self.entries@[j].shape.unwrap()),
            )
    }

    /// The reference resolves to a held shape.
    pub closed spec fn live(&self, r: GeometryRef) -> bool {
        &&& r.id.0 < self.entries@.len()
        &&& self.entries@[r.id.0 as int].version == r.version
        &&& self.entries@[r.id.0 as int].shape is Some
    }

    /// The reference's shape was released for good: it never resolves again.
    pub closed spec fn stale(&self, r: GeometryRef) -> bool {
        &&& r.id.0 < self.entries@.len()
        &&& {
            let e = self.entries@[r.id.0 as int];
            ||| r.version < e.version
            ||| (r.version == e.version && e.shape is None && !self.free@.contains(r.id.0))
        }
    }

    /// Each live reference with its shape and the number of its holders.
    pub closed spec fn held(&self) -> Map<GeometryRef, ((ColliderKind, Seq<u32>), u32)> {
        Map::new(
            |r: GeometryRef| self.live(r),
            |r: GeometryRef|
                (
                    shape_view(&self.entries@[r.id.0 as int].shape.unwrap()),
                    self.entries@[r.id.0 as int].uses,
                ),
        )
    }

    /// The released shapes kept for reuse, oldest first.
    pub closed spec fn released_shapes(&self) -> Seq<(ColliderKind, Seq<u32>)> {
        self.released@.map_values(|s: Shape| shape_view(&s))
    }

    /// The reference a shape that no held shape serves receives.
    pub closed spec fn next_ref(&self) -> GeometryRef {
        if self.free@.len() > 0 {
            let slot = self.free@.last();
            GeometryRef { id: GeometryId(slot), version: self.entries@[slot as int].version }
        } else {
            GeometryRef { id: GeometryId(self.entries@.len() as u32), version: 0 }
        }
    }

    /// One more preparation fits: a fresh entry index, and no holder count at its limit.
    pub closed spec fn can_prepare(&self) -> bool {
        &&& (self.free@.len() > 0 || self.entries@.len() <= u32::MAX)
        &&& forall|i: int|
            #![trigger self.entries@[i]]
            0 <= i < self.entries@.len() ==> self.entries@[i].uses < u32::MAX
    }

    /// A shape that no held shape serves can take an entry: a freed one, or a
    /// new one whose index fits.
    pub closed spec fn fresh_slot(&self) -> bool {
        self.free@.len() > 0 || self.entries@.len() <= u32::MAX
    }

    /// Preparing a shape of this value fits: a held shape that serves it has
    /// holders to spare, and where none serves it an entry is free for it.
    pub open spec fn room_for(&self, s: (ColliderKind, Seq<u32>)) -> bool {
        &&& forall|g: GeometryRef|
            #[trigger] self.held().contains_key(g) && serves(self.held()[g].0, s) ==> self.held()[g].1
                < u32::MAX
        &&& (forall|g: GeometryRef| #[trigger] self.held().contains_key(g) ==> !serves(self.held()[g].0, s))
            ==> self.fresh_slot()
    }

    /// The number of entries that hold a shape.
    pub closed spec fn prepared_count(&self) -> nat {
        count_held(self.entries@)
    }

    pub fn new() -> (r: Self)
        ensures
            r.wf(),
            r.held() == Map::<GeometryRef, ((ColliderKind, Seq<u32>), u32)>::empty(),
            r.released_shapes() == Seq::<(ColliderKind, Seq<u32>)>::empty(),
            r.can_prepare(),
            r.fresh_slot(),
            r.prepared_count() == 0,
            r.next_ref().spec_id().spec_index() == 0,
            r.next_ref().spec_version() == 0,
            forall|g: GeometryRef| !r.stale(g),
    {
        let r = Self { entries: Vec::new(), free: Vec::new(), released: Vec::new() };
        assert(r.held() =~= Map::<GeometryRef, ((ColliderKind, Seq<u32>), u32)>::empty());
        assert(r.released_shapes() =~= Seq::<(ColliderKind, Seq<u32>)>::empty());
        r
    }

    /// Whether one more preparation fits.
    pub fn has_room(&self) -> (r: bool)
        requires
            self.wf(),
        ensures
            r == self.can_prepare(),
    {
        if !(self.free.len() > 0 || self.entries.len() <= 4294967295usize) {
            return false;
        }
        let mut i: usize = 0;
        while i < self.entries.len()
            invariant
                i <= self.entries@.len(),
                forall|j: int| 0 <= j < i ==> (#[trigger] self.entries@[j]).uses < u32::MAX,
            decreases self.entries@.len() - i,
        {
            if self.entries[i].uses == 4294967295u32 {
                return false;
            }
            i = i + 1;
        }
        true
    }

    /// Keeps a released shape for reuse; the pool holds the two most recent.
    pub fn stash(&mut self, shape: Shape)
        requires
            old(self).wf(),
        ensures
            final(self).wf(),
            final(self).held() == old(self).held(),
            final(self).released_shapes() == stashed(old(self).released_shapes(), shape_view(&shape)),
            forall|r: GeometryRef| #[trigger] final(self).stale(r) == old(self).stale(r),
            final(self).next_ref() == old(self).next_ref(),
            final(self).can_prepare() == old(self).can_prepare(),
            final(self).fresh_slot() == old(self).fresh_slot(),
            final(self).prepared_count() == old(self).prepared_count(),
    {
        let ghost before = self.released@;
        if self.released.len() == 2 {
            self.released.remove(0);
        }
        self.released.push(shape);
        proof {
            let f = |s: Shape| shape_view(&s);
            if before.len() >= 2 {
                assert(self.released@ =~= before.drop_first().push(shape));
                assert(self.released@.map_values(f) =~= before.map_values(f).drop_first().push(
                    shape_view(&shape),
                ));
            } else {
                assert(self.released@.map_values(f) =~= before.map_values(f).push(shape_view(&shape)));
            }
        }
    }

    /// The most recently released shape, for reuse of its buffers.
    pub fn take_released(&mut self) -> (r: Option<Shape>)
        requires
            old(self).wf(),
        ensures
            final(self).wf(),
            final(self).held() == old(self).held(),
            old(self).released_shapes().len() == 0 ==> r is None && final(self).released_shapes()
                == old(self).released_shapes(),
            old(self).released_shapes().len() > 0 ==> r is Some && shape_view(&r.unwrap()) == old(
                self,
            ).released_shapes().last() && final(self).released_shapes() == old(
                self,
            ).released_shapes().drop_last(),
            forall|g: GeometryRef| #[trigger] final(self).stale(g) == old(self).stale(g),
    {
        let ghost before = self.released@;
        let r = self.released.pop();
        proof {
            let f = |s: Shape| shape_view(&s);
            if before.len() > 0 {
                assert(self.released@.map_values(f) =~= before.map_values(f).drop_last());
            }
        }
        r
    }

    /// The shape a collider uses, while its reference resolves.
    pub fn get(&self, collider: ColliderRef) -> (r: Option<&Shape>)
        requires
            self.wf(),
        ensures
            r is Some <==> self.held().contains_key(collider.spec_geometry()),
            r matches Some(s) ==> shape_view(s) == self.held()[collider.spec_geometry()].0,
    {
        let slot = collider.geometry.id.0 as usize;
        if slot >= self.entries.len() {
            return None;
        }
        let entry = &self.entries[slot];
        if entry.version != collider.geometry.version {
            return None;
        }
        entry.shape.as_ref()
    }

    /// The number of entries that hold a shape.
    pub fn prepared(&self) -> (r: usize)
        ensures
            r == self.prepared_count(),
    {
        let mut n: usize = 0;
        let mut i: usize = 0;
        while i < self.entries.len()
            invariant
                i <= self.entries@.len(),
                n == count_held(self.entries@.take(i as int)),
                n <= i,
            decreases self.entries@.len() - i,
        {
            let some = self.entries[i].shape.is_some();
            if some {
                n = n + 1;
            }
            proof {
                let t = self.entries@.take(i as int + 1);
                assert(t.drop_last() =~= self.entries@.take(i as int));
                assert(t.last() == self.entries@[i as int]);
            }
            i = i + 1;
        }
        proof {
            assert(self.entries@.take(self.entries@.len() as int) =~= self.entries@);
        }
        n
    }

    fn find_serving(&self, shape: &Shape) -> (r: Option<usize>)
        requires
            self.wf(),
        ensures
            r matches Some(i) ==> i < self.entries@.len() && self.entries@[i as int].shape is Some
                && serves(shape_view(&self.entries@[i as int].shape.unwrap()), shape_view(shape)),
            r is None ==> forall|i: int|
                0 <= i < self.entries@.len() && (#[trigger] self.entries@[i]).shape is Some ==> !serves(
                    shape_view(&self.entries@[i].shape.unwrap()),
                    shape_view(shape),
                ),
    {
        let mut i: usize = 0;
        while i < self.entries.len()
            invariant
                i <= self.entries@.len(),
                forall|j: int|
                    0 <= j < i && (#[trigger] self.entries@[j]).shape is Some ==> !serves(
                        shape_view(&self.entries@[j].shape.unwrap()),
                        shape_view(shape),
                    ),
            decreases self.entries@.len() - i,
        {
            match &self.entries[i].shape {
                Some(held) => {
                    if same_shape(held, shape) {
                        return Some(i);
                    }
                },
                None => {},
            }
            i = i + 1;
        }
        None
    }

    /// Prepares a collider of `shape`. A held shape that serves it is shared
    /// and `shape` joins the released pool; otherwise `shape` takes the most
    /// recently freed entry, or a new one.
    pub fn prepare(&mut self, shape: Shape) -> (r: ColliderRef)
        requires
            old(self).wf(),
            old(self).room_for(shape_view(&shape)),
        ensures
            final(self).wf(),
            r.spec_kind() == shape.kind,
            final(self).held().contains_key(r.spec_geometry()),
            forall|g: GeometryRef| old(self).stale(g) ==> #[trigger] final(self).stale(g),
            forall|g: GeometryRef|
                #[trigger] old(self).held().contains_key(g) && serves(old(self).held()[g].0, shape_view(&shape))
                    ==> r.spec_geometry() == g,
            old(self).held().contains_key(r.spec_geometry()) ==> {
                &&& serves(old(self).held()[r.spec_geometry()].0, shape_view(&shape))
                &&& final(self).prepared_count() == old(self).prepared_count()
                &&& final(self).next_ref() == old(self).next_ref()
                &&& final(self).fresh_slot() == old(self).fresh_slot()
                &&& final(self).held() == old(self).held().insert(
                    r.spec_geometry(),
                    (old(self).held()[r.spec_geometry()].0, (old(self).held()[r.spec_geometry()].1 + 1) as u32),
                )
                &&& final(self).released_shapes() == stashed(old(self).released_shapes(), shape_view(&shape))
            },
            !old(self).held().contains_key(r.spec_geometry()) ==> {
                &&& r.spec_geometry() == old(self).next_ref()
                &&& !old(self).stale(r.spec_geometry())
                &&& forall|g: GeometryRef| #[trigger] old(self).held().contains_key(g) ==> !serves(
                    old(self).held()[g].0,
                    shape_view(&shape),
                )
                &&& final(self).held() == old(self).held().insert(r.spec_geometry(), (shape_view(&shape), 1u32))
                &&& final(self).released_shapes() == old(self).released_shapes()
                &&& final(self).prepared_count() == old(self).prepared_count() + 1
            },
    {
        let ghost old_self = *self;
        let ghost sv = shape_view(&shape);
        let kind = shape.kind;
        match self.find_serving(&shape) {
            Some(i) => {
                let version = self.entries[i].version;
                let uses = self.entries[i].uses;
                proof {
                    let g0 = GeometryRef { id: GeometryId(i as u32), version };
                    assert(old_self.live(g0));
                    assert(old_self.held().contains_key(g0));
                    assert(old_self.held()[g0].1 == uses);
                }
                let held = self.entries[i].shape.take();
                let ghost mid_entries = self.entries@;
                self.entries[i] = Entry { version, uses: uses + 1, shape: held };
                proof {
                    assert(self.entries@ =~= old_self.entries@.update(
                        i as int,
                        Entry { version, uses: (uses + 1) as u32, shape: old_self.entries@[i as int].shape },
                    ));
                }
                let ghost mid = *self;
                self.stash(shape);
                let r = ColliderRef {
                    kind,
                    geometry: GeometryRef { id: GeometryId(i as u32), version },
                };
                proof {
                    let g = r.geometry;
                    assert(mid.wf()) by {
                        assert forall|a: int, b: int|
                            #![trigger mid.entries@[a], mid.entries@[b]]
                            0 <= a < b < mid.entries@.len() && mid.entries@[a].shape is Some
                                && mid.entries@[b].shape is Some implies !serves(
                            shape_view(&mid.entries@[a].shape.unwrap()),
                            shape_view(&mid.entries@[b].shape.unwrap()),
                        ) by {
                            assert(old_self.entries@[a].shape == mid.entries@[a].shape);
                            assert(old_self.entries@[b].shape == mid.entries@[b].shape);
                        }
                        assert forall|k: int|
                            #![trigger mid.free@[k]]
                            0 <= k < mid.free@.len() implies {
                            &&& mid.free@[k] < mid.entries@.len()
                            &&& mid.entries@[mid.free@[k] as int].shape is None
                        } by {
                            assert(old_self.entries@[old_self.free@[k] as int].shape is None);
                        }
                    }
                    assert(old_self.live(g));
                    assert forall|x: GeometryRef| mid.live(x) <==> old_self.live(x) by {}
                    assert(mid.held() =~= old_self.held().insert(
                        g,
                        (old_self.held()[g].0, (old_self.held()[g].1 + 1) as u32),
                    ));
                    assert forall|x: GeometryRef| old_self.stale(x) implies #[trigger] mid.stale(x) by {}
                    lemma_count_held_update(
                        old_self.entries@,
                        i as int,
                        Entry { version, uses: (uses + 1) as u32, shape: old_self.entries@[i as int].shape },
                    );
                    assert forall|x: GeometryRef|
                        #[trigger] old_self.held().contains_key(x) && serves(old_self.held()[x].0, sv) implies g
                        == x by {
                        lemma_serves_symmetric(old_self.held()[x].0, sv);
                        lemma_serves_transitive(old_self.held()[g].0, sv, old_self.held()[x].0);
                        lemma_equal_shapes_held_once(&old_self, g, x);
                    }
                }
                r
            },
            None => {
                proof {
                    assert forall|g: GeometryRef| #[trigger] old_self.held().contains_key(g) implies !serves(
                        old_self.held()[g].0,
                        sv,
                    ) by {
                        assert(old_self.entries@[g.id.0 as int].shape is Some);
                    }
                    assert(old_self.fresh_slot());
                }
                let slot: u32 = match self.free.pop() {
                    Some(slot) => {
                        let version = self.entries[slot as usize].version;
                        self.entries[slot as usize] = Entry { version, uses: 1, shape: Some(shape) };
                        slot
                    },
                    None => {
                        self.entries.push(Entry { version: 0, uses: 1, shape: Some(shape) });
                        (self.entries.len() - 1) as u32
                    },
                };
                let version = self.entries[slot as usize].version;
                let r = ColliderRef {
                    kind,
                    geometry: GeometryRef { id: GeometryId(slot), version },
                };
                proof {
                    let g = r.geometry;
                    assert(g == old_self.next_ref());
                    if old_self.free@.len() > 0 {
                        assert(old_self.free@[old_self.free@.len() - 1] == slot);
                        assert(self.free@ =~= old_self.free@.drop_last());
                        assert(old_self.free@.contains(slot));
                    }
                    assert(!old_self.live(g));
                    assert(!old_self.stale(g));
                    assert forall|k: int|
                        #![trigger self.free@[k]]
                        0 <= k < self.free@.len() implies {
                        &&& self.free@[k] < self.entries@.len()
                        &&& self.entries@[self.free@[k] as int].shape is None
                    } by {
                        assert(self.free@[k] == old_self.free@[k]);
                        if old_self.free@.len() > 0 {
                            let last = old_self.free@.len() - 1;
                            assert(old_self.free@[k] != old_self.free@[last]);
                        }
                    }
                    assert forall|k: int, l: int|
                        #![trigger self.free@[k], self.free@[l]]
                        0 <= k < l < self.free@.len() implies self.free@[k] != self.free@[l] by {
                        assert(self.free@[k] == old_self.free@[k]);
                        assert(self.free@[l] == old_self.free@[l]);
                    }
                    assert forall|a: int, b: int|
                        #![trigger self.entries@[a], self.entries@[b]]
                        0 <= a < b < self.entries@.len() && self.entries@[a].shape is Some
                            && self.entries@[b].shape is Some implies !serves(
                        shape_view(&self.entries@[a].shape.unwrap()),
                        shape_view(&self.entries@[b].shape.unwrap()),
                    ) by {
                        if a == slot as int {
                            assert(old_self.entries@[b].shape is Some);
                            crate::geometry::lemma_serves_symmetric(
                                shape_view(&old_self.entries@[b].shape.unwrap()),
                                sv,
                            );
                        } else if b == slot as int {
                            assert(old_self.entries@[a].shape is Some);
                        } else {
                            assert(old_self.entries@[a] == self.entries@[a]);
                            assert(old_self.entries@[b] == self.entries@[b]);
                        }
                    }
                    assert forall|x: GeometryRef| self.live(x) <==> (old_self.live(x) || x == g) by {
                        if x.id.0 != slot && x.id.0 < old_self.entries@.len() {
                            assert(self.entries@[x.id.0 as int] == old_self.entries@[x.id.0 as int]);
                        }
                    }
                    assert(self.held() =~= old_self.held().insert(g, (sv, 1u32))) by {
                        assert forall|x: GeometryRef| #[trigger] old_self.live(x) implies self.entries@[x.id.0 as int]
                            == old_self.entries@[x.id.0 as int] by {}
                    }
                    assert forall|x: GeometryRef| old_self.stale(x) implies #[trigger] self.stale(x) by {
                        if x.id.0 == slot {
                        } else if x.id.0 < old_self.entries@.len() {
                            assert(self.entries@[x.id.0 as int] == old_self.entries@[x.id.0 as int]);
                            if self.free@.contains(x.id.0) {
                                let k = choose|k: int| 0 <= k < self.free@.len() && self.free@[k] == x.id.0;
                                assert(old_self.free@[k] == x.id.0);
                            }
                        }
                    }
                    if old_self.free@.len() > 0 {
                        assert(old_self.entries@[slot as int].shape is None);
                        lemma_count_held_update(old_self.entries@, slot as int, self.entries@[slot as int]);
                        assert(self.entries@ =~= old_self.entries@.update(slot as int, self.entries@[slot as int]));
                    } else {
                        lemma_count_held_push(old_self.entries@, self.entries@[slot as int]);
                        assert(self.entries@ =~= old_self.entries@.push(self.entries@[slot as int]));
                    }
                }
                r
            },
        }
    }

    /// Drops one holder of the collider's geometry. The last holder frees the
    /// entry: its shape joins the released pool and its version moves on, so
    /// the reference never resolves again. A reference that does not resolve
    /// changes nothing.
    pub fn release(&mut self, collider: ColliderRef)
        requires
            old(self).wf(),
        ensures
            final(self).wf(),
            forall|g: GeometryRef| old(self).stale(g) ==> #[trigger] final(self).stale(g),
            ({
                let g = collider.spec_geometry();
                &&& !old(self).held().contains_key(g) ==> *final(self) == *old(self)
                &&& old(self).held().contains_key(g) && old(self).held()[g].1 > 1 ==> {
                    &&& final(self).held() == old(self).held().insert(
                        g,
                        (old(self).held()[g].0, (old(self).held()[g].1 - 1) as u32),
                    )
                    &&& final(self).released_shapes() == old(self).released_shapes()
                    &&& final(self).prepared_count() == old(self).prepared_count()
                    &&& final(self).next_ref() == old(self).next_ref()
                    &&& final(self).fresh_slot() == old(self).fresh_slot()
                }
                &&& old(self).held().contains_key(g) && old(self).held()[g].1 == 1 ==> {
                    &&& final(self).held() == old(self).held().remove(g)
                    &&& final(self).stale(g)
                    &&& final(self).released_shapes() == stashed(
                        old(self).released_shapes(),
                        old(self).held()[g].0,
                    )
                    &&& final(self).prepared_count() + 1 == old(self).prepared_count()
                    &&& g.spec_version() < u32::MAX ==> {
                        &&& final(self).next_ref().spec_id() == g.spec_id()
                        &&& final(self).next_ref().spec_version() == g.spec_version() + 1
                        &&& final(self).fresh_slot()
                    }
                }
            }),
    {
        let ghost old_self = *self;
        let g = collider.geometry;
        let slot = g.id.0 as usize;
        if slot >= self.entries.len() {
            return;
        }
        let version = self.entries[slot].version;
        let uses = self.entries[slot].uses;
        if version != g.version || uses == 0 {
            return;
        }
        let shape = self.entries[slot].shape.take();
        if uses > 1 {
            self.entries[slot] = Entry { version, uses: uses - 1, shape };
            proof {
                assert(self.entries@ =~= old_self.entries@.update(
                    slot as int,
                    Entry { version, uses: (uses - 1) as u32, shape: old_self.entries@[slot as int].shape },
                ));
                assert forall|a: int, b: int|
                    #![trigger self.entries@[a], self.entries@[b]]
                    0 <= a < b < self.entries@.len() && self.entries@[a].shape is Some
                        && self.entries@[b].shape is Some implies !serves(
                    shape_view(&self.entries@[a].shape.unwrap()),
                    shape_view(&self.entries@[b].shape.unwrap()),
                ) by {
                    assert(old_self.entries@[a].shape == self.entries@[a].shape);
                    assert(old_self.entries@[b].shape == self.entries@[b].shape);
                }
                assert forall|k: int|
                    #![trigger self.free@[k]]
                    0 <= k < self.free@.len() implies {
                    &&& self.free@[k] < self.entries@.len()
                    &&& self.entries@[self.free@[k] as int].shape is None
                } by {
                    assert(old_self.entries@[old_self.free@[k] as int].shape is None);
                }
                assert forall|x: GeometryRef| self.live(x) <==> old_self.live(x) by {}
                assert(self.held() =~= old_self.held().insert(
                    g,
                    (old_self.held()[g].0, (old_self.held()[g].1 - 1) as u32),
                ));
                assert forall|x: GeometryRef| old_self.stale(x) implies #[trigger] self.stale(x) by {}
                lemma_count_held_update(old_self.entries@, slot as int, self.entries@[slot as int]);
            }
            return;
        }
        proof {
            assert(shape is Some);
            assert(!old_self.free@.contains(g.id.0)) by {
                if old_self.free@.contains(g.id.0) {
                    let k = choose|k: int| 0 <= k < old_self.free@.len() && old_self.free@[k] == g.id.0;
                    assert(old_self.entries@[old_self.free@[k] as int].shape is None);
                }
            }
        }
        match version.checked_add(1) {
            Some(next) => {
                self.entries[slot] = Entry { version: next, uses: 0, shape: None };
                self.free.push(slot as u32);
            },
            None => {
                self.entries[slot] = Entry { version, uses: 0, shape: None };
            },
        }
        let ghost mid = *self;
        proof {
            lemma_count_held_update(old_self.entries@, slot as int, mid.entries@[slot as int]);
            assert(mid.entries@ =~= old_self.entries@.update(slot as int, mid.entries@[slot as int]));
            assert forall|a: int, b: int|
                #![trigger mid.entries@[a], mid.entries@[b]]
                0 <= a < b < mid.entries@.len() && mid.entries@[a].shape is Some
                    && mid.entries@[b].shape is Some implies !serves(
                shape_view(&mid.entries@[a].shape.unwrap()),
                shape_view(&mid.entries@[b].shape.unwrap()),
            ) by {
                assert(old_self.entries@[a].shape == mid.entries@[a].shape);
                assert(old_self.entries@[b].shape == mid.entries@[b].shape);
            }
            assert forall|k: int|
                #![trigger mid.free@[k]]
                0 <= k < mid.free@.len() implies {
                &&& mid.free@[k] < mid.entries@.len()
                &&& mid.entries@[mid.free@[k] as int].shape is None
            } by {
                if k < old_self.free@.len() {
                    assert(mid.free@[k] == old_self.free@[k]);
                    assert(old_self.entries@[old_self.free@[k] as int].shape is None);
                }
            }
            assert forall|k: int, l: int|
                #![trigger mid.free@[k], mid.free@[l]]
                0 <= k < l < mid.free@.len() implies mid.free@[k] != mid.free@[l] by {
                assert(mid.free@[k] == old_self.free@[k]);
                if l < old_self.free@.len() {
                    assert(mid.free@[l] == old_self.free@[l]);
                } else {
                    assert(old_self.entries@[old_self.free@[k] as int].shape is None);
                }
            }
            assert forall|x: GeometryRef| mid.live(x) <==> (old_self.live(x) && x != g) by {
                if x.id.0 != g.id.0 && x.id.0 < old_self.entries@.len() {
                    assert(mid.entries@[x.id.0 as int] == old_self.entries@[x.id.0 as int]);
                }
            }
            assert(mid.held() =~= old_self.held().remove(g)) by {
                assert forall|x: GeometryRef| #[trigger] mid.live(x) implies mid.entries@[x.id.0 as int]
                    == old_self.entries@[x.id.0 as int] by {}
            }
            assert forall|x: GeometryRef| old_self.stale(x) implies #[trigger] mid.stale(x) by {
                if x.id.0 == g.id.0 {
                } else if x.id.0 < old_self.entries@.len() {
                    assert(mid.entries@[x.id.0 as int] == old_self.entries@[x.id.0 as int]);
                    if mid.free@.contains(x.id.0) {
                        let k = choose|k: int| 0 <= k < mid.free@.len() && mid.free@[k] == x.id.0;
                        if k < old_self.free@.len() {
                            assert(old_self.free@[k] == x.id.0);
                        }
                    }
                }
            }
            assert(mid.stale(g)) by {
                if mid.entries@[slot as int].version == g.version {
                    if mid.free@.contains(g.id.0) {
                        let k = choose|k: int| 0 <= k < mid.free@.len() && mid.free@[k] == g.id.0;
                        if k < old_self.free@.len() {
                            assert(old_self.free@[k] == g.id.0);
                        }
                    }
                }
            }
        }
        match shape {
            Some(freed) => {
                self.stash(freed);
            },
            None => {},
        }
    }
}

/// Serving is symmetric.
pub proof fn lemma_serves_symmetric(a: (ColliderKind, Seq<u32>), b: (ColliderKind, Seq<u32>))
    ensures
        serves(a, b) == serves(b, a),
{
    if serves(a, b) {
        assert forall|i: int| 0 <= i < b.1.len() implies float_bits_eq(#[trigger] b.1[i], a.1[i]) by {
            assert(float_bits_eq(a.1[i], b.1[i]));
            let x = a.1[i];
            let y = b.1[i];
            assert((x | y) == (y | x)) by (bit_vector);
        }
    }
    if serves(b, a) {
        assert forall|i: int| 0 <= i < a.1.len() implies float_bits_eq(#[trigger] a.1[i], b.1[i]) by {
            assert(float_bits_eq(b.1[i], a.1[i]));
            let x = a.1[i];
            let y = b.1[i];
            assert((x | y) == (y | x)) by (bit_vector);
        }
    }
}

/// Two single-precision numbers compare equal exactly as IEEE equality says:
/// neither is a NaN, and they are the same number or both are zeros of either
/// sign. A nonzero number never equals its negation.
pub proof fn lemma_float_equality_is_ieee(a: u32, b: u32)
    ensures
        float_bits_eq(a, b) <==> ({
            let a_nan = (a >> 23u32) & 0xffu32 == 0xffu32 && a & 0x7f_ffffu32 != 0;
            let b_nan = (b >> 23u32) & 0xffu32 == 0xffu32 && b & 0x7f_ffffu32 != 0;
            !a_nan && !b_nan && (a == b || (a & 0x7fff_ffffu32 == 0 && b & 0x7fff_ffffu32 == 0))
        }),
        a & 0x7fff_ffffu32 != 0 ==> !float_bits_eq(a, a ^ 0x8000_0000u32),
{
    assert(float_bits_eq(a, b) <==> ({
        let a_nan = (a >> 23u32) & 0xffu32 == 0xffu32 && a & 0x7f_ffffu32 != 0;
        let b_nan = (b >> 23u32) & 0xffu32 == 0xffu32 && b & 0x7f_ffffu32 != 0;
        !a_nan && !b_nan && (a == b || (a & 0x7fff_ffffu32 == 0 && b & 0x7fff_ffffu32 == 0))
    })) by (bit_vector);
    assert(a & 0x7fff_ffffu32 != 0 ==> !float_bits_eq(a, a ^ 0x8000_0000u32)) by (bit_vector);
}

/// Shapes are the same exactly when they are of one kind and hold as many
/// numbers, each pair the same number or both zeros, none a NaN: in
/// particular a shape and its mirror image through the origin differ unless
/// all its numbers are zeros.
pub proof fn lemma_same_shape_compares_numbers(a: (ColliderKind, Seq<u32>), b: (ColliderKind, Seq<u32>))
    ensures
        spec_same_shape(a, b) <==> {
            &&& a.0 == b.0
            &&& a.1.len() == b.1.len()
            &&& forall|i: int|
                0 <= i < a.1.len() ==> {
                    let x = #[trigger] a.1[i];
                    let y = b.1[i];
                    &&& !((x >> 23u32) & 0xffu32 == 0xffu32 && x & 0x7f_ffffu32 != 0)
                    &&& !((y >> 23u32) & 0xffu32 == 0xffu32 && y & 0x7f_ffffu32 != 0)
                    &&& (x == y || (x & 0x7fff_ffffu32 == 0 && y & 0x7fff_ffffu32 == 0))
                }
        },
{
    assert forall|i: int| 0 <= i < a.1.len() implies float_bits_eq(#[trigger] a.1[i], b.1[i]) <==> ({
        let x = a.1[i];
        let y = b.1[i];
        &&& !((x >> 23u32) & 0xffu32 == 0xffu32 && x & 0x7f_ffffu32 != 0)
        &&& !((y >> 23u32) & 0xffu32 == 0xffu32 && y & 0x7f_ffffu32 != 0)
        &&& (x == y || (x & 0x7fff_ffffu32 == 0 && y & 0x7fff_ffffu32 == 0))
    }) by {
        lemma_float_equality_is_ieee(a.1[i], b.1[i]);
    }
}

/// Serving is transitive.
pub proof fn lemma_serves_transitive(
    a: (ColliderKind, Seq<u32>),
    b: (ColliderKind, Seq<u32>),
    c: (ColliderKind, Seq<u32>),
)
    requires
        serves(a, b),
        serves(b, c),
    ensures
        serves(a, c),
{
    assert forall|i: int| 0 <= i < a.1.len() implies float_bits_eq(#[trigger] a.1[i], c.1[i]) by {
        assert(float_bits_eq(a.1[i], b.1[i]));
        assert(float_bits_eq(b.1[i], c.1[i]));
        let x = a.1[i];
        let y = b.1[i];
        let z = c.1[i];
        assert(float_bits_eq(x, y) && float_bits_eq(y, z) ==> float_bits_eq(x, z)) by (bit_vector);
    }
}

/// No two held references hold shapes that serve each other: equal geometry
/// is held once, however many colliders use it.
pub proof fn lemma_equal_shapes_held_once(store: &GeometryStore, a: GeometryRef, b: GeometryRef)
    requires
        store.wf(),
        store.held().contains_key(a),
        store.held().contains_key(b),
        serves(store.held()[a].0, store.held()[b].0),
    ensures
        a == b,
{
    let i = a.id.0 as int;
    let j = b.id.0 as int;
    if i < j {
        assert(!serves(
            shape_view(&store.entries@[i].shape.unwrap()),
            shape_view(&store.entries@[j].shape.unwrap()),
        ));
    } else if j < i {
        lemma_serves_symmetric(store.held()[a].0, store.held()[b].0);
        assert(!serves(
            shape_view(&store.entries@[j].shape.unwrap()),
            shape_view(&store.entries@[i].shape.unwrap()),
        ));
    }
}

/// A store with room for one more preparation has room for a shape of any value.
pub proof fn lemma_room_from_can_prepare(store: &GeometryStore, s: (ColliderKind, Seq<u32>))
    requires
        store.wf(),
        store.can_prepare(),
    ensures
        store.room_for(s),
{
    assert forall|g: GeometryRef| #[trigger] store.held().contains_key(g) && serves(store.held()[g].0, s) implies store.held()[g].1
        < u32::MAX by {
        assert(store.entries@[g.id.0 as int].uses < u32::MAX);
    }
}

/// A shape that a held shape with holders to spare serves can be prepared:
/// it shares that entry, since no other held shape serves it.
pub proof fn lemma_room_to_share(store: &GeometryStore, g: GeometryRef, s: (ColliderKind, Seq<u32>))
    requires
        store.wf(),
        store.held().contains_key(g),
        serves(store.held()[g].0, s),
        store.held()[g].1 < u32::MAX,
    ensures
        store.room_for(s),
{
    assert forall|x: GeometryRef| #[trigger] store.held().contains_key(x) && serves(store.held()[x].0, s) implies store.held()[x].1
        < u32::MAX by {
        lemma_serves_symmetric(store.held()[x].0, s);
        lemma_serves_transitive(store.held()[g].0, s, store.held()[x].0);
        lemma_equal_shapes_held_once(store, g, x);
    }
}

spec fn refs_below(entries: Seq<Entry>, k: int) -> Set<GeometryRef> {
    Set::new(
        |r: GeometryRef|
            r.id.0 < k && r.id.0 < entries.len() && entries[r.id.0 as int].version == r.version
                && entries[r.id.0 as int].shape is Some,
    )
}

proof fn lemma_refs_below_count(entries: Seq<Entry>, k: int)
    requires
        0 <= k <= entries.len(),
        entries.len() <= u32::MAX + 1,
    ensures
        refs_below(entries, k).finite(),
        refs_below(entries, k).len() == count_held(entries.take(k)),
    decreases k,
{
    if k == 0 {
        assert(refs_below(entries, 0) =~= Set::<GeometryRef>::empty());
        assert(entries.take(0) =~= Seq::<Entry>::empty());
    } else {
        lemma_refs_below_count(entries, k - 1);
        let prev = refs_below(entries, k - 1);
        let e = entries[k - 1];
        let top = GeometryRef { id: GeometryId((k - 1) as u32), version: e.version };
        assert(entries.take(k).drop_last() =~= entries.take(k - 1));
        assert(entries.take(k).last() == e);
        assert(!prev.contains(top));
        if e.shape is Some {
            assert(refs_below(entries, k) =~= prev.insert(top));
        } else {
            assert(refs_below(entries, k) =~= prev);
        }
    }
}

/// The store counts as prepared exactly its held references: one per entry
/// that holds a shape.
pub proof fn lemma_prepared_counts_held(store: &GeometryStore)
    requires
        store.wf(),
    ensures
        store.held().dom().finite(),
        store.held().dom().len() == store.prepared_count(),
{
    let n = store.entries@.len() as int;
    lemma_refs_below_count(store.entries@, n);
    assert(store.entries@.take(n) =~= store.entries@);
    assert(store.held().dom() =~= refs_below(store.entries@, n));
}

/// Once a shape is prepared, a shape equal to it can be prepared while its
/// entry has holders to spare, and every held shape that serves the second
/// one is the first one's: preparing it shares the first reference.
pub proof fn lemma_equal_shape_shares_prepared(
    store: &GeometryStore,
    r: GeometryRef,
    first: (ColliderKind, Seq<u32>),
    second: (ColliderKind, Seq<u32>),
)
    requires
        store.wf(),
        store.held().contains_key(r),
        store.held()[r].0 == first || serves(store.held()[r].0, first),
        spec_same_shape(first, second),
        store.held()[r].1 < u32::MAX,
    ensures
        store.room_for(second),
        forall|g: GeometryRef|
            #[trigger] store.held().contains_key(g) && serves(store.held()[g].0, second) ==> g == r,
{
    let held = store.held()[r].0;
    if held != first {
        lemma_serves_transitive(held, first, second);
    }
    assert(serves(held, second));
    lemma_room_to_share(store, r, second);
    assert forall|g: GeometryRef|
        #[trigger] store.held().contains_key(g) && serves(store.held()[g].0, second) implies g == r by {
        lemma_serves_symmetric(store.held()[g].0, second);
        lemma_serves_transitive(held, second, store.held()[g].0);
        lemma_equal_shapes_held_once(store, r, g);
    }
}

/// A released reference never resolves again.
pub proof fn lemma_stale_geometry_never_resolves(store: &GeometryStore, g: GeometryRef)
    requires
        store.wf(),
        store.stale(g),
    ensures
        !store.held().contains_key(g),
{
}

} // verus!
