use vstd::prelude::*;

use std::collections::HashMap;

use crate::collider::{kind_rank, spec_kind_rank, ColliderKind};
use crate::edit::EditError;

verus! {

/// A registered kind pair.
pub type KindPair = (ColliderKind, ColliderKind);

/// Registration order: by the first kind's rank, then the second's.
pub open spec fn pair_before(x: KindPair, y: KindPair) -> bool {
    spec_kind_rank(x.0) < spec_kind_rank(y.0) || (spec_kind_rank(x.0) == spec_kind_rank(y.0)
        && spec_kind_rank(x.1) < spec_kind_rank(y.1))
}

/// Strictly ascending in registration order (so without repeats).
pub open spec fn pairs_ascending(s: Seq<KindPair>) -> bool {
    forall|a: int, b: int| 0 <= a < b < s.len() ==> pair_before(#[trigger] s[a], #[trigger] s[b])
}

fn pair_precedes(x: KindPair, y: KindPair) -> (r: bool)
    ensures
        r == pair_before(x, y),
{
    let (x0, x1) = (kind_rank(x.0), kind_rank(x.1));
    let (y0, y1) = (kind_rank(y.0), kind_rank(y.1));
    x0 < y0 || (x0 == y0 && x1 < y1)
}

proof fn lemma_pair_order(x: KindPair, y: KindPair, z: KindPair)
    ensures
        x == y || pair_before(x, y) || pair_before(y, x),
        !(pair_before(x, y) && pair_before(y, x)),
        pair_before(x, y) && pair_before(y, z) ==> pair_before(x, z),
{
    crate::collider::lemma_kind_rank_injective(x.0, y.0);
    crate::collider::lemma_kind_rank_injective(x.1, y.1);
}

/// The key of an ordered kind pair in the handler table.
pub open spec fn pair_code(p: KindPair) -> u8 {
    (spec_kind_rank(p.0) * 8 + spec_kind_rank(p.1)) as u8
}

proof fn lemma_pair_code_injective(p: KindPair, q: KindPair)
    ensures
        pair_code(p) == pair_code(q) <==> p == q,
{
    crate::collider::lemma_kind_rank_injective(p.0, q.0);
    crate::collider::lemma_kind_rank_injective(p.1, q.1);
}

fn code_of(a: ColliderKind, b: ColliderKind) -> (r: u8)
    ensures
        r == pair_code((a, b)),
{
    proof {
        crate::collider::lemma_kind_rank_injective(a, a);
        crate::collider::lemma_kind_rank_injective(b, b);
    }
    kind_rank(a) * 8 + kind_rank(b)
}

/// Contact handlers by ordered kind pair, and the pairs in registration order.
///
/// A handler registered for `(a, b)` also serves `(b, a)` with its bodies
/// swapped, unless `(b, a)` has a handler of its own.
pub struct Narrowphase<H> {
    dispatch: HashMap<u8, H>,
    order: Vec<KindPair>,
}

impl<H: Copy> Narrowphase<H> {
    /// Registered pairs mapped to their handlers.
    pub closed spec fn handlers(&self) -> Map<KindPair, H> {
        Map::new(
            |p: KindPair| self.dispatch@.contains_key(pair_code(p)),
            |p: KindPair| self.dispatch@[pair_code(p)],
        )
    }

    /// The registered pairs, in registration order.
    pub closed spec fn order(&self) -> Seq<KindPair> {
        self.order@
    }

    pub closed spec fn wf(&self) -> bool {
        &&& pairs_ascending(self.order@)
        &&& forall|p: KindPair| self.order@.contains(p) <==> #[trigger] self.dispatch@.contains_key(pair_code(p))
    }

    pub fn new() -> (r: Self)
        ensures
            r.wf(),
            r.handlers() == Map::<KindPair, H>::empty(),
            r.order() == Seq::<KindPair>::empty(),
    {
        let r = Self { dispatch: HashMap::new(), order: Vec::new() };
        assert(r.handlers() =~= Map::<KindPair, H>::empty());
        r
    }

    /// Registers `f` for the ordered pair `(a, b)`. Registering a pair again
    /// replaces its handler and keeps its place in the order.
    pub fn register(&mut self, a: ColliderKind, b: ColliderKind, f: H)
        requires
            old(self).wf(),
        ensures
            final(self).wf(),
            final(self).handlers() == old(self).handlers().insert((a, b), f),
            old(self).handlers().contains_key((a, b)) ==> final(self).order() == old(self).order(),
            !old(self).handlers().contains_key((a, b)) ==> exists|at: int|
                0 <= at <= old(self).order().len() && final(self).order() == old(
                    self,
                ).order().insert(at, (a, b)),
    {
        broadcast use vstd::std_specs::hash::group_hash_axioms;

        let key = (a, b);
        let code = code_of(a, b);
        let ghost old_self = *self;
        let previous = self.dispatch.insert(code, f);
        proof {
            assert forall|p: KindPair| #[trigger] self.dispatch@.contains_key(pair_code(p)) <==> (
            old_self.dispatch@.contains_key(pair_code(p)) || p == key) by {
                lemma_pair_code_injective(p, key);
            }
            assert(self.handlers() =~= old_self.handlers().insert(key, f)) by {
                assert forall|p: KindPair| #[trigger] self.handlers().contains_key(p) implies self.handlers()[p]
                    == old_self.handlers().insert(key, f)[p] by {
                    lemma_pair_code_injective(p, key);
                }
            }
        }
        match previous {
            Some(_) => {
                proof {
                    assert(old_self.handlers().contains_key(key));
                }
            },
            None => {
                proof {
                    assert(!old_self.handlers().contains_key(key));
                }
                let mut at: usize = 0;
                while at < self.order.len() && pair_precedes(self.order[at], key)
                    invariant
                        at <= self.order@.len(),
                        self.order@ == old_self.order@,
                        forall|q: int| 0 <= q < at ==> pair_before(#[trigger] self.order@[q], key),
                    decreases self.order@.len() - at,
                {
                    at = at + 1;
                }
                let ghost before = self.order@;
                proof {
                    assert(!before.contains(key));
                    if at < before.len() {
                        lemma_pair_order(before[at as int], key, key);
                    }
                }
                self.order.insert(at, key);
                proof {
                    assert forall|x: int, y: int| 0 <= x < y < self.order@.len() implies pair_before(
                        #[trigger] self.order@[x],
                        #[trigger] self.order@[y],
                    ) by {
                        if y < at {
                        } else if x < at && y == at {
                        } else if x < at {
                            assert(self.order@[y] == before[y - 1]);
                            lemma_pair_order(self.order@[x], key, before[at as int]);
                            if y - 1 > at {
                                lemma_pair_order(self.order@[x], before[at as int], before[y - 1]);
                            }
                        } else if x == at {
                            assert(self.order@[y] == before[y - 1]);
                            if y - 1 > at {
                                lemma_pair_order(key, before[at as int], before[y - 1]);
                            }
                        } else {
                            assert(self.order@[x] == before[x - 1]);
                            assert(self.order@[y] == before[y - 1]);
                        }
                    }
                    assert forall|p: KindPair| self.order@.contains(p) <==> #[trigger] self.dispatch@.contains_key(
                        pair_code(p),
                    ) by {
                        if self.order@.contains(p) {
                            let q = choose|q: int| 0 <= q < self.order@.len() && self.order@[q] == p;
                            if q < at {
                                assert(before[q] == p);
                            } else if q > at {
                                assert(before[q - 1] == p);
                            }
                        }
                        if self.dispatch@.contains_key(pair_code(p)) {
                            if p == key {
                                assert(self.order@[at as int] == key);
                            } else {
                                assert(before.contains(p));
                                let r = choose|r: int| 0 <= r < before.len() && before[r] == p;
                                if r < at {
                                    assert(self.order@[r] == p);
                                } else {
                                    assert(self.order@[r + 1] == p);
                                }
                            }
                        }
                    }
                    assert(self.order@ == before.insert(at as int, key));
                    assert(0 <= at <= old_self.order@.len() && self.order@ == old_self.order@.insert(at as int, key));
                    assert(self.order() == old(self).order().insert(at as int, (a, b)));
                }
            },
        }
    }

    /// The registered pairs, in registration order.
    pub fn registrations(&self) -> (r: &[KindPair])
        ensures
            r@ == self.order(),
    {
        self.order.as_slice()
    }

    /// The handler for a body of kind `a` against one of kind `b`, and whether
    /// it was registered for the swapped pair, so that the bodies go in swapped
    /// and the contact normal comes out reversed.
    pub fn select(&self, a: ColliderKind, b: ColliderKind) -> (r: Option<(H, bool)>)
        requires
            self.wf(),
        ensures
            self.handlers().contains_key((a, b)) ==> r == Some((self.handlers()[(a, b)], false)),
            !self.handlers().contains_key((a, b)) && self.handlers().contains_key((b, a)) ==> r
                == Some((self.handlers()[(b, a)], true)),
            !self.handlers().contains_key((a, b)) && !self.handlers().contains_key((b, a)) ==> r
                is None,
    {
        broadcast use vstd::std_specs::hash::group_hash_axioms;

        let forward = code_of(a, b);
        match self.dispatch.get(&forward) {
            Some(f) => Some((*f, false)),
            None => {
                let backward = code_of(b, a);
                match self.dispatch.get(&backward) {
                    Some(f) => Some((*f, true)),
                    None => None,
                }
            },
        }
    }
}

/// The registration order depends only on which pairs are registered, not on
/// the order they were registered in: two ascending orders holding the same
/// pairs are equal.
pub proof fn lemma_registrations_determined_by_pairs(s: Seq<KindPair>, t: Seq<KindPair>)
    requires
        pairs_ascending(s),
        pairs_ascending(t),
        forall|p: KindPair| s.contains(p) <==> t.contains(p),
    ensures
        s == t,
    decreases s.len() + t.len(),
{
    if s.len() == 0 {
        if t.len() > 0 {
            assert(t.contains(t[0]));
        }
        assert(t =~= s);
    } else if t.len() == 0 {
        assert(s.contains(s[0]));
    } else {
        // both heads are the least element
        assert(s.contains(s[0]));
        assert(t.contains(t[0]));
        let i = choose|i: int| 0 <= i < t.len() && t[i] == s[0];
        let j = choose|j: int| 0 <= j < s.len() && s[j] == t[0];
        if i > 0 {
            if j > 0 {
                lemma_pair_order(s[0], t[0], s[0]);
            }
        }
        assert(s[0] == t[0]);
        let s1 = s.drop_first();
        let t1 = t.drop_first();
        assert forall|p: KindPair| s1.contains(p) <==> t1.contains(p) by {
            if s1.contains(p) {
                let k = choose|k: int| 0 <= k < s1.len() && s1[k] == p;
                assert(s[k + 1] == p);
                assert(t.contains(p));
                let m = choose|m: int| 0 <= m < t.len() && t[m] == p;
                if m == 0 {
                    assert(pair_before(s[0], s[k + 1]));
                    lemma_pair_order(s[0], s[0], s[0]);
                }
                assert(t1[m - 1] == p);
            }
            if t1.contains(p) {
                let k = choose|k: int| 0 <= k < t1.len() && t1[k] == p;
                assert(t[k + 1] == p);
                assert(s.contains(p));
                let m = choose|m: int| 0 <= m < s.len() && s[m] == p;
                if m == 0 {
                    assert(pair_before(t[0], t[k + 1]));
                    lemma_pair_order(t[0], t[0], t[0]);
                }
                assert(s1[m - 1] == p);
            }
        }
        assert(pairs_ascending(s1)) by {
            assert forall|a: int, b: int| 0 <= a < b < s1.len() implies pair_before(
                #[trigger] s1[a],
                #[trigger] s1[b],
            ) by {
                assert(s1[a] == s[a + 1]);
                assert(s1[b] == s[b + 1]);
            }
        }
        assert(pairs_ascending(t1)) by {
            assert forall|a: int, b: int| 0 <= a < b < t1.len() implies pair_before(
                #[trigger] t1[a],
                #[trigger] t1[b],
            ) by {
                assert(t1[a] == t[a + 1]);
                assert(t1[b] == t[b + 1]);
            }
        }
        lemma_registrations_determined_by_pairs(s1, t1);
        assert(s =~= seq![s[0]] + s1);
        assert(t =~= seq![t[0]] + t1);
    }
}

impl<H: Copy> Narrowphase<H> {
    /// The registrations are ascending and hold exactly the registered pairs.
    pub proof fn lemma_registrations_sorted(&self)
        requires
            self.wf(),
        ensures
            pairs_ascending(self.order()),
            forall|p: KindPair| self.order().contains(p) <==> #[trigger] self.handlers().contains_key(p),
    {
    }
}

/// A snapshot fits a world whose contact registrations are the snapshot's,
/// pair for pair in order, and whose field registrations hold as many kinds as
/// the snapshot's, every one of the snapshot's among them.
pub open spec fn registrations_fit(
    pairs: Seq<KindPair>,
    fields: Seq<ColliderKind>,
    saved_pairs: Seq<KindPair>,
    saved_fields: Seq<ColliderKind>,
) -> bool {
    &&& pairs == saved_pairs
    &&& fields.len() == saved_fields.len()
    &&& forall|q: int| 0 <= q < saved_fields.len() ==> fields.contains(#[trigger] saved_fields[q])
}

pub(crate) fn holds_kind(kinds: &[ColliderKind], kind: ColliderKind) -> (r: bool)
    ensures
        r == kinds@.contains(kind),
{
    let mut i: usize = 0;
    while i < kinds.len()
        invariant
            i <= kinds@.len(),
            forall|q: int| 0 <= q < i ==> kinds@[q] != kind,
        decreases kinds@.len() - i,
    {
        if kinds[i] == kind {
            return true;
        }
        i = i + 1;
    }
    false
}

/// Refuses a snapshot taken under other registrations than the world's.
pub fn check_registrations(
    pairs: &[KindPair],
    fields: &[ColliderKind],
    saved_pairs: &[KindPair],
    saved_fields: &[ColliderKind],
) -> (r: Result<(), EditError>)
    ensures
        r is Ok <==> registrations_fit(pairs@, fields@, saved_pairs@, saved_fields@),
        r is Err ==> r == Err::<(), EditError>(EditError::RegistrationMismatch),
{
    if pairs.len() != saved_pairs.len() {
        return Err(EditError::RegistrationMismatch);
    }
    let mut i: usize = 0;
    while i < pairs.len()
        invariant
            i <= pairs@.len(),
            pairs@.len() == saved_pairs@.len(),
            forall|q: int| 0 <= q < i ==> pairs@[q] == saved_pairs@[q],
        decreases pairs@.len() - i,
    {
        let (a, b) = pairs[i];
        let (c, d) = saved_pairs[i];
        if a != c || b != d {
            return Err(EditError::RegistrationMismatch);
        }
        i = i + 1;
    }
    proof {
        assert(pairs@ =~= saved_pairs@);
    }
    if fields.len() != saved_fields.len() {
        return Err(EditError::RegistrationMismatch);
    }
    let mut k: usize = 0;
    while k < saved_fields.len()
        invariant
            k <= saved_fields@.len(),
            pairs@ == saved_pairs@,
            fields@.len() == saved_fields@.len(),
            forall|q: int| 0 <= q < k ==> fields@.contains(#[trigger] saved_fields@[q]),
        decreases saved_fields@.len() - k,
    {
        if !holds_kind(fields, saved_fields[k]) {
            return Err(EditError::RegistrationMismatch);
        }
        k = k + 1;
    }
    Ok(())
}

/// Field queries by the kind of the body's collider, and the kinds in the
/// order they were first registered.
pub struct FieldNarrowphase<H> {
    kinds: Vec<ColliderKind>,
    handlers: Vec<H>,
}

impl<H: Copy> FieldNarrowphase<H> {
    /// The registered kinds, in the order they were first registered.
    pub closed spec fn kind_seq(&self) -> Seq<ColliderKind> {
        self.kinds@
    }

    /// The query of each registered kind, in the same order.
    pub closed spec fn handler_seq(&self) -> Seq<H> {
        self.handlers@
    }

    pub closed spec fn wf(&self) -> bool {
        &&& self.kinds@.len() == self.handlers@.len()
        &&& forall|a: int, b: int|
            0 <= a < b < self.kinds@.len() ==> #[trigger] self.kinds@[a] != #[trigger] self.kinds@[b]
    }

    pub fn new() -> (r: Self)
        ensures
            r.wf(),
            r.kind_seq() == Seq::<ColliderKind>::empty(),
            r.handler_seq() == Seq::<H>::empty(),
    {
        Self { kinds: Vec::new(), handlers: Vec::new() }
    }

    fn position_of(&self, kind: ColliderKind) -> (r: Option<usize>)
        requires
            self.wf(),
        ensures
            r matches Some(i) ==> i < self.kinds@.len() && self.kinds@[i as int] == kind,
            r is None ==> !self.kinds@.contains(kind),
    {
        let mut i: usize = 0;
        while i < self.kinds.len()
            invariant
                i <= self.kinds@.len(),
                forall|q: int| 0 <= q < i ==> self.kinds@[q] != kind,
            decreases self.kinds@.len() - i,
        {
            if self.kinds[i] == kind {
                return Some(i);
            }
            i = i + 1;
        }
        None
    }

    /// Registers `query` for bodies of `kind`; registering a kind again
    /// replaces its query and keeps its place.
    pub fn register(&mut self, kind: ColliderKind, query: H)
        requires
            old(self).wf(),
        ensures
            final(self).wf(),
            old(self).kind_seq().contains(kind) ==> {
                let i = old(self).kind_seq().index_of(kind);
                &&& final(self).kind_seq() == old(self).kind_seq()
                &&& final(self).handler_seq() == old(self).handler_seq().update(i, query)
            },
            !old(self).kind_seq().contains(kind) ==> {
                &&& final(self).kind_seq() == old(self).kind_seq().push(kind)
                &&& final(self).handler_seq() == old(self).handler_seq().push(query)
            },
    {
        match self.position_of(kind) {
            Some(i) => {
                proof {
                    assert(self.kinds@.index_of(kind) == i) by {
                        assert(self.kinds@.contains(kind));
                        let j = self.kinds@.index_of(kind);
                        assert(self.kinds@[j] == kind);
                        if j != i as int {
                            if j < i {
                                assert(self.kinds@[j] != self.kinds@[i as int]);
                            } else {
                                assert(self.kinds@[i as int] != self.kinds@[j]);
                            }
                        }
                    }
                }
                self.handlers.set(i, query);
            },
            None => {
                self.kinds.push(kind);
                self.handlers.push(query);
                proof {
                    assert forall|a: int, b: int|
                        0 <= a < b < self.kinds@.len() implies #[trigger] self.kinds@[a] != #[trigger] self.kinds@[b] by {
                        if b == self.kinds@.len() - 1 {
                            assert(old(self).kinds@.contains(old(self).kinds@[a]));
                        }
                    }
                }
            },
        }
    }

    /// The registered kinds, in the order they were first registered.
    pub fn registrations(&self) -> (r: &[ColliderKind])
        ensures
            r@ == self.kind_seq(),
    {
        self.kinds.as_slice()
    }

    /// The query for a body of `kind`; `None` when none is registered, which
    /// refuses the body by its kind.
    pub fn select(&self, kind: ColliderKind) -> (r: Option<H>)
        requires
            self.wf(),
        ensures
            self.kind_seq().contains(kind) ==> r == Some(
                self.handler_seq()[self.kind_seq().index_of(kind)],
            ),
            !self.kind_seq().contains(kind) ==> r is None,
    {
        match self.position_of(kind) {
            Some(i) => {
                proof {
                    let j = self.kinds@.index_of(kind);
                    assert(self.kinds@[j] == kind);
                    if j != i as int {
                        if j < i {
                            assert(self.kinds@[j] != self.kinds@[i as int]);
                        } else {
                            assert(self.kinds@[i as int] != self.kinds@[j]);
                        }
                    }
                }
                Some(self.handlers[i])
            },
            None => None,
        }
    }
}

/// Each kind is listed once among the field registrations, wherever and
/// however often it was registered.
pub proof fn lemma_field_registrations_distinct<H: Copy>(phase: &FieldNarrowphase<H>, a: int, b: int)
    requires
        phase.wf(),
        0 <= a < b < phase.kind_seq().len(),
    ensures
        phase.kind_seq()[a] != phase.kind_seq()[b],
{
}

} // verus!
