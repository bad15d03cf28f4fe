use vstd::prelude::*;

use crate::body::{BodyArena, BodyId};
use crate::collider::ColliderKind;
use crate::narrowphase::{check_registrations, holds_kind, registrations_fit, KindPair};
use crate::dirty::DirtyBodies;
use crate::edit::EditError;

verus! {

/// A contact pair, handles in ascending order.
pub type PairKey = (BodyId, BodyId);

/// The pair of two distinct handles, lower handle first.
pub open spec fn spec_canonical_pair(a: BodyId, b: BodyId) -> PairKey {
    if a.precedes(b) {
        (a, b)
    } else {
        (b, a)
    }
}

pub fn canonical_pair(a: BodyId, b: BodyId) -> (r: PairKey)
    requires
        a != b,
    ensures
        r == spec_canonical_pair(a, b),
        r.0.precedes(r.1),
{
    proof {
        crate::body::lemma_handle_order_total(a, b);
    }
    if a.less_than(b) {
        (a, b)
    } else {
        (b, a)
    }
}

/// The pair does not depend on the order its handles are given in.
pub proof fn lemma_canonical_pair_symmetric(a: BodyId, b: BodyId)
    requires
        a != b,
    ensures
        spec_canonical_pair(a, b) == spec_canonical_pair(b, a),
        spec_canonical_pair(a, b).0.precedes(spec_canonical_pair(a, b).1),
{
    crate::body::lemma_handle_order_total(a, b);
}

/// Per-step work counts of the broadphase sweep and the narrowphase.
#[derive(Clone, Copy, Debug, Default, PartialEq, Eq, Structural)]
pub struct StepCounters {
    pub index_visits: u32,
    pub distance_evals: u32,
    pub candidates: u32,
    pub contacts: u32,
}

/// Index of a distance field registered with the world.
#[derive(Clone, Copy, Debug, PartialEq, Eq, Structural, PartialOrd, Ord)]
pub struct FieldId(pub u32);

/// Mutable borrows of two distinct elements, in argument order.
pub fn split_two_mut<T>(slice: &mut [T], i: usize, j: usize) -> (r: (&mut T, &mut T))
    requires
        i != j,
        i < old(slice)@.len(),
        j < old(slice)@.len(),
    ensures
        *r.0 == old(slice)@[i as int],
        *r.1 == old(slice)@[j as int],
        final(slice)@ == old(slice)@.update(i as int, *final(r.0)).update(j as int, *final(r.1)),
{
    if i < j {
        let (left, right) = slice.split_at_mut(j);
        let (_, tail) = left.split_at_mut(i);
        let a = tail.first_mut().unwrap();
        let b = right.first_mut().unwrap();
        (a, b)
    } else {
        let (left, right) = slice.split_at_mut(i);
        let (_, tail) = left.split_at_mut(j);
        let b = tail.first_mut().unwrap();
        let a = right.first_mut().unwrap();
        (a, b)
    }
}


/// Every node's parent sits at or below it, so parent chains end at a root.
pub open spec fn descending_forest(parent: Seq<u32>) -> bool {
    forall|i: int| 0 <= i < parent.len() ==> #[trigger] parent[i] <= i
}

/// The root of `i`'s tree: follow parents until a node is its own parent.
pub open spec fn root_of(parent: Seq<u32>, i: int) -> int
    decreases i,
{
    if i < 0 || i >= parent.len() || parent[i] as int >= i {
        i
    } else {
        root_of(parent, parent[i] as int)
    }
}

proof fn lemma_root_is_root(parent: Seq<u32>, i: int)
    requires
        descending_forest(parent),
        0 <= i < parent.len(),
    ensures
        0 <= root_of(parent, i) <= i,
        parent[root_of(parent, i)] == root_of(parent, i),
        root_of(parent, root_of(parent, i)) == root_of(parent, i),
    decreases i,
{
    if parent[i] as int >= i {
    } else {
        lemma_root_is_root(parent, parent[i] as int);
    }
}

/// Pointing `d` at its grandparent keeps every node's root.
proof fn lemma_halving_keeps_roots(parent: Seq<u32>, d: int, j: int)
    requires
        descending_forest(parent),
        0 <= d < parent.len(),
    ensures
        descending_forest(parent.update(d, parent[parent[d] as int])),
        root_of(parent.update(d, parent[parent[d] as int]), j) == root_of(parent, j),
    decreases j,
{
    let next = parent.update(d, parent[parent[d] as int]);
    assert(descending_forest(next)) by {
        assert forall|i: int| 0 <= i < next.len() implies #[trigger] next[i] <= i by {
            if i == d {
                assert(parent[parent[d] as int] <= parent[d]);
            }
        }
    }
    if j < 0 || j >= parent.len() {
    } else if j == d {
        if parent[d] as int >= d {
        } else {
            let p = parent[d] as int;
            lemma_halving_keeps_roots(parent, d, p);
            if parent[p] as int >= p {
                lemma_halving_keeps_roots(parent, d, parent[p] as int);
            } else {
                lemma_halving_keeps_roots(parent, d, parent[p] as int);
            }
        }
    } else {
        if parent[j] as int >= j {
        } else {
            lemma_halving_keeps_roots(parent, d, parent[j] as int);
        }
    }
}

/// Hanging root `hi` under root `lo < hi` moves exactly `hi`'s tree under `lo`.
proof fn lemma_union_roots(parent: Seq<u32>, lo: int, hi: int, x: int)
    requires
        descending_forest(parent),
        0 <= lo < hi < parent.len(),
        parent[lo] == lo,
        parent[hi] == hi,
    ensures
        descending_forest(parent.update(hi, lo as u32)),
        root_of(parent.update(hi, lo as u32), x) == (if root_of(parent, x) == hi {
            lo
        } else {
            root_of(parent, x)
        }),
    decreases x,
{
    let next = parent.update(hi, lo as u32);
    if x < 0 || x >= parent.len() {
    } else if x == hi {
        assert(root_of(next, lo) == lo);
    } else if parent[x] as int >= x {
    } else {
        lemma_union_roots(parent, lo, hi, parent[x] as int);
    }
}

/// The root reached from `i` by following parents at most `fuel` times, if
/// one is reached: a node that is its own parent.
pub open spec fn chain_root(parent: Seq<u32>, i: int, fuel: nat) -> Option<int>
    decreases fuel,
{
    if !(0 <= i < parent.len()) {
        None
    } else if parent[i] as int == i {
        Some(i)
    } else if fuel == 0 {
        None
    } else {
        chain_root(parent, parent[i] as int, (fuel - 1) as nat)
    }
}

/// Every node's parent is a node, and every node's parent chain reaches a root.
pub open spec fn is_forest(parent: Seq<u32>) -> bool {
    forall|i: int| 0 <= i < parent.len() ==> parent[i] < parent.len() && #[trigger] chain_root(
        parent,
        i,
        parent.len(),
    ) is Some
}

proof fn lemma_chain_root_more_fuel(parent: Seq<u32>, i: int, fuel: nat, more: nat)
    requires
        chain_root(parent, i, fuel) is Some,
        fuel <= more,
    ensures
        chain_root(parent, i, more) == chain_root(parent, i, fuel),
    decreases fuel,
{
    if 0 <= i < parent.len() && parent[i] as int != i {
        lemma_chain_root_more_fuel(parent, parent[i] as int, (fuel - 1) as nat, (more - 1) as nat);
    }
}

/// Pointing `d` at its grandparent keeps every chain that reached a root
/// reaching the same root, within as many steps.
proof fn lemma_halving_keeps_chains(parent: Seq<u32>, d: int, j: int, fuel: nat)
    requires
        0 <= d < parent.len(),
        parent[d] < parent.len(),
        parent[d] as int != d,
        chain_root(parent, j, fuel) is Some,
    ensures
        chain_root(parent.update(d, parent[parent[d] as int]), j, fuel) == chain_root(parent, j, fuel),
    decreases fuel,
{
    let next = parent.update(d, parent[parent[d] as int]);
    if parent[j] as int == j {
    } else if j != d {
        lemma_halving_keeps_chains(parent, d, parent[j] as int, (fuel - 1) as nat);
    } else {
        let p = parent[d] as int;
        let g = parent[p] as int;
        if g == p {
            lemma_halving_keeps_chains(parent, d, g, (fuel - 1) as nat);
        } else {
            lemma_halving_keeps_chains(parent, d, g, (fuel - 2) as nat);
            lemma_chain_root_more_fuel(next, g, (fuel - 2) as nat, (fuel - 1) as nat);
        }
    }
}

/// A forest whose parents sit at or below their nodes reaches, from each
/// node, the root that `root_of` names.
proof fn lemma_descending_chain(parent: Seq<u32>, i: int, fuel: nat)
    requires
        descending_forest(parent),
        0 <= i < parent.len(),
        i <= fuel,
    ensures
        chain_root(parent, i, fuel) == Some(root_of(parent, i)),
    decreases i,
{
    if parent[i] as int != i {
        lemma_descending_chain(parent, parent[i] as int, (fuel - 1) as nat);
    }
}

proof fn lemma_descending_is_forest(parent: Seq<u32>)
    requires
        descending_forest(parent),
    ensures
        is_forest(parent),
        forall|i: int| 0 <= i < parent.len() ==> #[trigger] chain_root(parent, i, parent.len()) == Some(
            root_of(parent, i),
        ),
{
    assert forall|i: int| 0 <= i < parent.len() implies #[trigger] chain_root(parent, i, parent.len()) == Some(
        root_of(parent, i),
    ) by {
        lemma_descending_chain(parent, i, parent.len());
    }
}

/// Finds `dense`'s root, halving the path on the way; no node's root changes.
pub fn find_root(parent: &mut [u32], dense: usize) -> (r: usize)
    requires
        is_forest(old(parent)@),
        dense < old(parent)@.len(),
    ensures
        Some(r as int) == chain_root(old(parent)@, dense as int, old(parent)@.len()),
        final(parent)@.len() == old(parent)@.len(),
        final(parent)@[r as int] == r,
        is_forest(final(parent)@),
        forall|j: int| #[trigger] chain_root(final(parent)@, j, final(parent)@.len()) == chain_root(
            old(parent)@,
            j,
            old(parent)@.len(),
        ),
        descending_forest(old(parent)@) ==> {
            &&& r == root_of(old(parent)@, dense as int)
            &&& descending_forest(final(parent)@)
            &&& forall|j: int| #[trigger] root_of(final(parent)@, j) == root_of(old(parent)@, j)
        },
{
    let ghost orig = parent@;
    let ghost n = orig.len();
    let ghost root = chain_root(orig, dense as int, n);
    let ghost mut fuel: nat = n;
    proof {
        assert forall|j: int| 0 <= j < n implies orig[j] < n by {
            assert(chain_root(orig, j, orig.len()) is Some);
        }
    }
    let mut d = dense;
    while parent[d] as usize != d
        invariant
            parent@.len() == n,
            n == orig.len(),
            is_forest(orig),
            d < n,
            fuel <= n,
            root is Some,
            root == chain_root(orig, dense as int, n),
            chain_root(parent@, d as int, fuel) == root,
            forall|j: int| 0 <= j < n ==> parent@[j] < n,
            forall|j: int| #[trigger] chain_root(parent@, j, n) == chain_root(orig, j, n),
            descending_forest(orig) ==> descending_forest(parent@),
            descending_forest(orig) ==> forall|j: int| #[trigger] root_of(parent@, j) == root_of(orig, j),
        decreases fuel,
    {
        let p = parent[d];
        let pp = parent[p as usize];
        proof {
            let cur = parent@;
            let next = cur.update(d as int, pp);
            assert forall|j: int| #[trigger] chain_root(next, j, n) == chain_root(orig, j, n) by {
                if 0 <= j < n {
                    assert(chain_root(cur, j, n) is Some);
                    lemma_halving_keeps_chains(cur, d as int, j, n);
                }
            }
            if p as int == pp as int {
                lemma_halving_keeps_chains(cur, d as int, pp as int, (fuel - 1) as nat);
            } else {
                lemma_halving_keeps_chains(cur, d as int, pp as int, (fuel - 2) as nat);
                lemma_chain_root_more_fuel(next, pp as int, (fuel - 2) as nat, (fuel - 1) as nat);
            }
            if descending_forest(orig) {
                assert forall|j: int| #[trigger] root_of(next, j) == root_of(cur, j) by {
                    lemma_halving_keeps_roots(cur, d as int, j);
                }
                lemma_halving_keeps_roots(cur, d as int, d as int);
            }
            fuel = (fuel - 1) as nat;
        }
        parent[d] = pp;
        d = pp as usize;
    }
    proof {
        lemma_chain_root_more_fuel(parent@, d as int, fuel, n);
        assert(chain_root(parent@, d as int, n) == Some(d as int));
        assert(is_forest(parent@)) by {
            assert forall|i: int| 0 <= i < parent@.len() implies parent@[i] < parent@.len() && #[trigger] chain_root(
                parent@,
                i,
                parent@.len(),
            ) is Some by {
                assert(chain_root(orig, i, n) is Some);
            }
        }
        if descending_forest(orig) {
            lemma_descending_is_forest(orig);
            assert(chain_root(orig, dense as int, n) == Some(root_of(orig, dense as int)));
        }
    }
    d
}


/// A contact joins the islands of its bodies only when both are dynamic.
pub open spec fn joins(dynamic: Seq<bool>, pair: (int, int)) -> bool {
    &&& 0 <= pair.0 < dynamic.len()
    &&& 0 <= pair.1 < dynamic.len()
    &&& dynamic[pair.0]
    &&& dynamic[pair.1]
}

/// `f` gives the two bodies of every joining contact the same value.
pub open spec fn respects(f: spec_fn(int) -> int, dynamic: Seq<bool>, pairs: Seq<(int, int)>) -> bool {
    forall|k: int|
        0 <= k < pairs.len() && #[trigger] joins(dynamic, pairs[k]) ==> f(pairs[k].0) == f(pairs[k].1)
}

/// Dense positions `a` and `b` lie in one connected component of the graph
/// whose edges are the joining contacts: every labelling constant across
/// each joining contact gives them the same label.
pub open spec fn connected(dynamic: Seq<bool>, pairs: Seq<(int, int)>, a: int, b: int) -> bool {
    forall|f: spec_fn(int) -> int| #[trigger] respects(f, dynamic, pairs) ==> f(a) == f(b)
}

/// `l` is the lowest handle among the bodies connected to dense position `d`.
pub open spec fn is_component_label(
    ids: Seq<BodyId>,
    dynamic: Seq<bool>,
    pairs: Seq<(int, int)>,
    d: int,
    l: BodyId,
) -> bool {
    &&& exists|e: int| 0 <= e < ids.len() && connected(dynamic, pairs, d, e) && ids[e] == l
    &&& forall|e: int|
        0 <= e < ids.len() && connected(dynamic, pairs, d, e) ==> !(#[trigger] ids[e]).precedes(l)
}

/// Contact keys as dense positions in the arena.
pub open spec fn dense_pairs<T>(bodies: &BodyArena<T>, touched: Seq<PairKey>) -> Seq<(int, int)> {
    touched.map_values(|k: PairKey| (bodies.position(k.0), bodies.position(k.1)))
}

proof fn lemma_connected_prefix(dynamic: Seq<bool>, pairs: Seq<(int, int)>, k: int, a: int, b: int)
    requires
        0 <= k < pairs.len(),
        connected(dynamic, pairs.take(k), a, b),
    ensures
        connected(dynamic, pairs.take(k + 1), a, b),
{
    assert forall|f: spec_fn(int) -> int| #[trigger] respects(f, dynamic, pairs.take(k + 1)) implies f(a)
        == f(b) by {
        assert(respects(f, dynamic, pairs.take(k))) by {
            assert forall|e: int|
                0 <= e < pairs.take(k).len() && #[trigger] joins(dynamic, pairs.take(k)[e]) implies f(
                pairs.take(k)[e].0,
            ) == f(pairs.take(k)[e].1) by {
                assert(pairs.take(k)[e] == pairs.take(k + 1)[e]);
            }
        }
    }
}

proof fn lemma_connected_through(
    dynamic: Seq<bool>,
    pairs: Seq<(int, int)>,
    k: int,
    a: int,
    i: int,
    j: int,
    b: int,
)
    requires
        0 <= k < pairs.len(),
        joins(dynamic, pairs[k]),
        (pairs[k] == (i, j) || pairs[k] == (j, i)),
        connected(dynamic, pairs.take(k), a, i),
        connected(dynamic, pairs.take(k), j, b),
    ensures
        connected(dynamic, pairs.take(k + 1), a, b),
{
    lemma_connected_prefix(dynamic, pairs, k, a, i);
    lemma_connected_prefix(dynamic, pairs, k, j, b);
    assert forall|f: spec_fn(int) -> int| #[trigger] respects(f, dynamic, pairs.take(k + 1)) implies f(a)
        == f(b) by {
        assert(pairs.take(k + 1)[k] == pairs[k]);
        assert(joins(dynamic, pairs.take(k + 1)[k]));
    }
}

/// Labels every dense position with the lowest handle of its component in the
/// graph of contacts between dynamic bodies; static bodies stay alone.
pub fn fill_islands<T>(
    bodies: &BodyArena<T>,
    dynamic: &[bool],
    touched: &[PairKey],
    parent: &mut Vec<u32>,
    labels: &mut Vec<BodyId>,
)
    requires
        bodies.wf(),
        dynamic@.len() == bodies.ids().len(),
        forall|k: int| 0 <= k < touched@.len() ==> bodies@.contains_key(#[trigger] touched@[k].0)
            && bodies@.contains_key(touched@[k].1),
    ensures
        final(labels)@.len() == bodies.ids().len(),
        forall|d: int|
            0 <= d < bodies.ids().len() ==> is_component_label(
                bodies.ids(),
                dynamic@,
                dense_pairs(bodies, touched@),
                d,
                #[trigger] final(labels)@[d],
            ),
{
    let n = bodies.len();
    let ghost pairs = dense_pairs(bodies, touched@);
    let ghost ids = bodies.ids();
    parent.clear();
    labels.clear();
    let mut t: usize = 0;
    while t < n
        invariant
            n == ids.len(),
            ids == bodies.ids(),
            bodies.wf(),
            t <= n,
            n <= u32::MAX,
            parent@.len() == t,
            labels@ == ids.take(t as int),
            forall|x: int| 0 <= x < t ==> parent@[x] == x,
        decreases n - t,
    {
        parent.push(t as u32);
        labels.push(bodies.id_at(t));
        proof {
            assert(labels@ =~= ids.take(t as int + 1));
        }
        t = t + 1;
    }
    proof {
        assert(labels@ =~= ids);
        assert(descending_forest(parent@));
        assert forall|x: int| 0 <= x < n implies root_of(parent@, x) == x by {
        }
    }
    // Union the components of every contact between dynamic bodies.
    let mut k: usize = 0;
    while k < touched.len()
        invariant
            n == ids.len(),
            ids == bodies.ids(),
            pairs == dense_pairs(bodies, touched@),
            bodies.wf(),
            dynamic@.len() == n,
            labels@ == ids,
            forall|q: int| 0 <= q < touched@.len() ==> bodies@.contains_key(#[trigger] touched@[q].0)
                && bodies@.contains_key(touched@[q].1),
            k <= touched@.len(),
            parent@.len() == n,
            descending_forest(parent@),
            forall|a: int, b: int|
                0 <= a < n && 0 <= b < n && root_of(parent@, a) == root_of(parent@, b) ==> connected(
                    dynamic@,
                    pairs.take(k as int),
                    a,
                    b,
                ),
            forall|e: int|
                0 <= e < k && #[trigger] joins(dynamic@, pairs[e]) ==> root_of(parent@, pairs[e].0)
                    == root_of(parent@, pairs[e].1),
        decreases touched@.len() - k,
    {
        let key = touched[k];
        let i = bodies.dense_index(key.0).unwrap();
        let j = bodies.dense_index(key.1).unwrap();
        proof {
            crate::body::lemma_position_of_live(bodies, key.0);
            crate::body::lemma_position_of_live(bodies, key.1);
            crate::body::lemma_handles_distinct_positions(bodies, key.0, i as int);
            crate::body::lemma_handles_distinct_positions(bodies, key.1, j as int);
            assert(pairs[k as int] == (i as int, j as int));
        }
        let ghost before = parent@;
        if dynamic[i] && dynamic[j] {
            proof {
                lemma_descending_is_forest(parent@);
            }
            let a = find_root(parent.as_mut_slice(), i);
            proof {
                lemma_descending_is_forest(parent@);
            }
            let b = find_root(parent.as_mut_slice(), j);
            let ghost mid = parent@;
            if a != b {
                let (lo, hi) = if a < b {
                    (a, b)
                } else {
                    (b, a)
                };
                proof {
                    lemma_root_is_root(mid, i as int);
                    lemma_root_is_root(mid, j as int);
                }
                parent[hi] = lo as u32;
                proof {
                    assert forall|x: int| #[trigger] root_of(parent@, x) == (if root_of(mid, x) == hi {
                        lo as int
                    } else {
                        root_of(mid, x)
                    }) by {
                        lemma_union_roots(mid, lo as int, hi as int, x);
                    }
                    lemma_union_roots(mid, lo as int, hi as int, 0);
                }
            }
            proof {
                let cur = parent@;
                // components only merge, and i's and j's merge
                assert forall|x: int, y: int|
                    root_of(before, x) == root_of(before, y) implies root_of(cur, x) == root_of(
                    cur,
                    y,
                ) by {
                }
                assert(root_of(cur, i as int) == root_of(cur, j as int));
                assert forall|x: int, y: int|
                    0 <= x < n && 0 <= y < n && root_of(cur, x) == root_of(cur, y) implies connected(
                    dynamic@,
                    pairs.take(k as int + 1),
                    x,
                    y,
                ) by {
                    if root_of(before, x) == root_of(before, y) {
                        lemma_connected_prefix(dynamic@, pairs, k as int, x, y);
                    } else if root_of(before, x) == root_of(before, i as int) && root_of(before, y)
                        == root_of(before, j as int) {
                        lemma_connected_through(
                            dynamic@,
                            pairs,
                            k as int,
                            x,
                            i as int,
                            j as int,
                            y,
                        );
                    } else {
                        assert(root_of(before, x) == root_of(before, j as int) && root_of(before, y)
                            == root_of(before, i as int));
                        lemma_connected_through(
                            dynamic@,
                            pairs,
                            k as int,
                            x,
                            j as int,
                            i as int,
                            y,
                        );
                    }
                }
            }
        } else {
            proof {
                assert forall|x: int, y: int|
                    0 <= x < n && 0 <= y < n && root_of(parent@, x) == root_of(parent@, y) implies connected(
                    dynamic@,
                    pairs.take(k as int + 1),
                    x,
                    y,
                ) by {
                    lemma_connected_prefix(dynamic@, pairs, k as int, x, y);
                }
            }
        }
        k = k + 1;
    }
    proof {
        assert(pairs.take(touched@.len() as int) =~= pairs);
    }
    let ghost unioned = parent@;
    // Connectivity is exactly having one root.
    proof {
        let rf = |x: int| root_of(unioned, x);
        assert(respects(rf, dynamic@, pairs));
        assert forall|a: int, b: int|
            0 <= a < n && 0 <= b < n implies (root_of(unioned, a) == root_of(unioned, b)
            <==> connected(dynamic@, pairs, a, b)) by {
            if connected(dynamic@, pairs, a, b) {
                assert(rf(a) == rf(b));
            }
        }
    }
    // Lowest handle of each component, held at its root.
    let mut t: usize = 0;
    while t < n
        invariant
            n == ids.len(),
            ids == bodies.ids(),
            bodies.wf(),
            t <= n,
            parent@.len() == n,
            labels@.len() == n,
            descending_forest(parent@),
            forall|j: int| #[trigger] root_of(parent@, j) == root_of(unioned, j),
            descending_forest(unioned),
            unioned.len() == n,
            forall|x: int|
                0 <= x < n && root_of(unioned, x) == x ==> {
                    &&& exists|e: int| 0 <= e < n && root_of(unioned, e) == x && labels@[x] == ids[e]
                    &&& forall|e: int|
                        0 <= e < t && root_of(unioned, e) == x ==> !(#[trigger] ids[e]).precedes(
                            labels@[x],
                        )
                },
        decreases n - t,
    {
        proof {
            lemma_descending_is_forest(parent@);
        }
        let r = find_root(parent.as_mut_slice(), t);
        let id = bodies.id_at(t);
        proof {
            lemma_root_is_root(unioned, t as int);
        }
        let ghost old_label = labels@[r as int];
        if id.less_than(labels[r]) {
            labels[r] = id;
            proof {
                assert forall|e: int| 0 <= e < t + 1 && root_of(unioned, e) == r implies !(
                #[trigger] ids[e]).precedes(labels@[r as int]) by {
                    if e < t {
                        if ids[e].precedes(id) {
                            crate::body::lemma_handle_order_transitive(ids[e], id, old_label);
                        }
                    }
                    crate::body::lemma_handle_order_total(ids[e], id);
                }
            }
        }
        t = t + 1;
    }
    let ghost minima = labels@;
    // Spread each component's label to its members.
    let mut t: usize = 0;
    while t < n
        invariant
            n == ids.len(),
            ids == bodies.ids(),
            t <= n,
            parent@.len() == n,
            labels@.len() == n,
            descending_forest(parent@),
            forall|j: int| #[trigger] root_of(parent@, j) == root_of(unioned, j),
            descending_forest(unioned),
            unioned.len() == n,
            minima.len() == n,
            forall|x: int| 0 <= x < n && root_of(unioned, x) == x ==> labels@[x] == minima[x],
            forall|x: int| 0 <= x < t ==> labels@[x] == minima[root_of(unioned, x)],
        decreases n - t,
    {
        proof {
            lemma_descending_is_forest(parent@);
        }
        let r = find_root(parent.as_mut_slice(), t);
        proof {
            lemma_root_is_root(unioned, t as int);
        }
        let label = labels[r];
        labels[t] = label;
        t = t + 1;
    }
    proof {
        assert forall|d: int| 0 <= d < n implies is_component_label(
            ids,
            dynamic@,
            pairs,
            d,
            #[trigger] labels@[d],
        ) by {
            let r = root_of(unioned, d);
            lemma_root_is_root(unioned, d);
            let e = choose|e: int| 0 <= e < n && root_of(unioned, e) == r && minima[r] == ids[e];
            assert(connected(dynamic@, pairs, d, e));
            assert forall|e2: int|
                0 <= e2 < ids.len() && connected(dynamic@, pairs, d, e2) implies !(
                #[trigger] ids[e2]).precedes(labels@[d]) by {
                assert(root_of(unioned, e2) == r);
            }
        }
    }
}


/// A connected component of the contact graph, over dynamic bodies only.
#[derive(Clone, Debug, PartialEq, Eq)]
pub struct Island {
    /// Lowest handle among the bodies of the component.
    pub id: BodyId,
    /// Ascending.
    pub bodies: Vec<BodyId>,
    /// In contact order; a contact with a static body belongs to its dynamic side.
    pub constraints: Vec<PairKey>,
}

/// At least one body of the contact is dynamic, so it belongs to an island.
pub open spec fn contact_active<T>(bodies: &BodyArena<T>, dynamic: Seq<bool>, key: PairKey) -> bool {
    dynamic[bodies.position(key.0)] || dynamic[bodies.position(key.1)]
}

/// The dynamic body whose island the contact belongs to: the first, when it is dynamic.
pub open spec fn contact_anchor<T>(bodies: &BodyArena<T>, dynamic: Seq<bool>, key: PairKey) -> int {
    if dynamic[bodies.position(key.0)] {
        bodies.position(key.0)
    } else {
        bodies.position(key.1)
    }
}

/// The contact belongs to the island whose id is `id`.
pub open spec fn in_island<T>(
    bodies: &BodyArena<T>,
    dynamic: Seq<bool>,
    touched: Seq<PairKey>,
    key: PairKey,
    id: BodyId,
) -> bool {
    &&& contact_active(bodies, dynamic, key)
    &&& is_component_label(
        bodies.ids(),
        dynamic,
        dense_pairs(bodies, touched),
        contact_anchor(bodies, dynamic, key),
        id,
    )
}

/// `x` is a dynamic body of one of the constraints.
pub open spec fn island_member<T>(
    bodies: &BodyArena<T>,
    dynamic: Seq<bool>,
    constraints: Seq<PairKey>,
    x: BodyId,
) -> bool {
    &&& dynamic[bodies.position(x)]
    &&& exists|c: int|
        0 <= c < constraints.len() && (#[trigger] constraints[c].0 == x || constraints[c].1 == x)
}

/// Strictly ascending in handle order.
pub open spec fn ascending(s: Seq<BodyId>) -> bool {
    forall|a: int, b: int| 0 <= a < b < s.len() ==> (#[trigger] s[a]).precedes(#[trigger] s[b])
}

/// `r` lists the islands of the contacts, by ascending id.
pub open spec fn are_islands<T>(
    bodies: &BodyArena<T>,
    dynamic: Seq<bool>,
    touched: Seq<PairKey>,
    r: Seq<Island>,
) -> bool {
    &&& forall|a: int, b: int| 0 <= a < b < r.len() ==> (#[trigger] r[a]).id.precedes(#[trigger] r[b].id)
    &&& forall|a: int|
        0 <= a < r.len() ==> {
            &&& (#[trigger] r[a]).constraints@ == touched.filter(
                |k: PairKey| in_island(bodies, dynamic, touched, k, r[a].id),
            )
            &&& r[a].constraints@.len() > 0
            &&& ascending(r[a].bodies@)
            &&& forall|x: BodyId|
                r[a].bodies@.contains(x) <==> island_member(bodies, dynamic, r[a].constraints@, x)
        }
    &&& forall|c: int|
        0 <= c < touched.len() && contact_active(bodies, dynamic, #[trigger] touched[c]) ==> exists|
            a: int,
        | 0 <= a < r.len() && in_island(bodies, dynamic, touched, touched[c], r[a].id)
}

proof fn lemma_label_unique(
    ids: Seq<BodyId>,
    dynamic: Seq<bool>,
    pairs: Seq<(int, int)>,
    d: int,
    l1: BodyId,
    l2: BodyId,
)
    requires
        is_component_label(ids, dynamic, pairs, d, l1),
        is_component_label(ids, dynamic, pairs, d, l2),
    ensures
        l1 == l2,
{
    let e1 = choose|e: int| 0 <= e < ids.len() && connected(dynamic, pairs, d, e) && ids[e] == l1;
    let e2 = choose|e: int| 0 <= e < ids.len() && connected(dynamic, pairs, d, e) && ids[e] == l2;
    assert(!ids[e1].precedes(l2));
    assert(!ids[e2].precedes(l1));
    crate::body::lemma_handle_order_total(l1, l2);
}

proof fn lemma_connected_symmetric(dynamic: Seq<bool>, pairs: Seq<(int, int)>, a: int, b: int)
    requires
        connected(dynamic, pairs, a, b),
    ensures
        connected(dynamic, pairs, b, a),
{
    assert forall|f: spec_fn(int) -> int| #[trigger] respects(f, dynamic, pairs) implies f(b) == f(a) by {}
}

proof fn lemma_connected_transitive(dynamic: Seq<bool>, pairs: Seq<(int, int)>, a: int, b: int, c: int)
    requires
        connected(dynamic, pairs, a, b),
        connected(dynamic, pairs, b, c),
    ensures
        connected(dynamic, pairs, a, c),
{
    assert forall|f: spec_fn(int) -> int| #[trigger] respects(f, dynamic, pairs) implies f(a) == f(c) by {}
}

proof fn lemma_joined_connected(dynamic: Seq<bool>, pairs: Seq<(int, int)>, k: int)
    requires
        0 <= k < pairs.len(),
        joins(dynamic, pairs[k]),
    ensures
        connected(dynamic, pairs, pairs[k].0, pairs[k].1),
{
    assert forall|f: spec_fn(int) -> int| #[trigger] respects(f, dynamic, pairs) implies f(pairs[k].0) == f(
        pairs[k].1,
    ) by {}
}

proof fn lemma_connected_reflexive(dynamic: Seq<bool>, pairs: Seq<(int, int)>, a: int)
    ensures
        connected(dynamic, pairs, a, a),
{
    assert forall|f: spec_fn(int) -> int| #[trigger] respects(f, dynamic, pairs) implies f(a) == f(a) by {}
}

/// A position connected to another one is an end of a joining contact.
proof fn lemma_connected_has_edge(dynamic: Seq<bool>, pairs: Seq<(int, int)>, d: int, e: int)
    requires
        d != e,
        connected(dynamic, pairs, d, e),
    ensures
        exists|k: int| 0 <= k < pairs.len() && #[trigger] joins(dynamic, pairs[k]) && (pairs[k].0 == e || pairs[k].1 == e),
{
    if !(exists|k: int| 0 <= k < pairs.len() && #[trigger] joins(dynamic, pairs[k]) && (pairs[k].0 == e || pairs[k].1 == e)) {
        let f = |x: int| if x == e { 1int } else { 0int };
        assert(respects(f, dynamic, pairs)) by {
            assert forall|k: int| 0 <= k < pairs.len() && #[trigger] joins(dynamic, pairs[k]) implies f(pairs[k].0)
                == f(pairs[k].1) by {}
        }
        assert(f(d) == f(e));
    }
}

/// Connected positions carry the same component label.
proof fn lemma_label_follows(
    ids: Seq<BodyId>,
    dynamic: Seq<bool>,
    pairs: Seq<(int, int)>,
    d: int,
    d2: int,
    l: BodyId,
)
    requires
        connected(dynamic, pairs, d, d2),
        is_component_label(ids, dynamic, pairs, d, l),
    ensures
        is_component_label(ids, dynamic, pairs, d2, l),
{
    lemma_connected_symmetric(dynamic, pairs, d, d2);
    let e = choose|e: int| 0 <= e < ids.len() && connected(dynamic, pairs, d, e) && ids[e] == l;
    lemma_connected_transitive(dynamic, pairs, d2, d, e);
    assert forall|x: int| 0 <= x < ids.len() && connected(dynamic, pairs, d2, x) implies !(#[trigger] ids[x]).precedes(
        l,
    ) by {
        lemma_connected_transitive(dynamic, pairs, d, d2, x);
    }
}

/// Each island's id is its lowest body, and so the first of its bodies.
pub proof fn lemma_island_id_is_its_first_body<T>(
    bodies: &BodyArena<T>,
    dynamic: Seq<bool>,
    touched: Seq<PairKey>,
    r: Seq<Island>,
    a: int,
)
    requires
        bodies.wf(),
        dynamic.len() == bodies.ids().len(),
        forall|k: int| 0 <= k < touched.len() ==> bodies@.contains_key(#[trigger] touched[k].0)
            && bodies@.contains_key(touched[k].1),
        are_islands(bodies, dynamic, touched, r),
        0 <= a < r.len(),
    ensures
        r[a].bodies@.len() > 0,
        r[a].bodies@[0] == r[a].id,
{
    broadcast use vstd::seq_lib::group_filter_ensures;

    let ids = bodies.ids();
    let pairs = dense_pairs(bodies, touched);
    let id = r[a].id;
    let cons = r[a].constraints@;
    let pred = |k: PairKey| in_island(bodies, dynamic, touched, k, id);
    assert(cons == touched.filter(pred));
    // every body of the island is at least the id
    assert forall|x: BodyId| r[a].bodies@.contains(x) implies !x.precedes(id) by {
        assert(island_member(bodies, dynamic, cons, x));
        let c = choose|c: int| 0 <= c < cons.len() && (#[trigger] cons[c].0 == x || cons[c].1 == x);
        assert(pred(cons[c]));
        assert(cons.contains(cons[c]));
        touched.lemma_filter_contains_rev(pred, cons[c]);
        let j = choose|j: int| 0 <= j < touched.len() && touched[j] == cons[c];
        let key = touched[j];
        crate::body::lemma_position_of_live(bodies, key.0);
        crate::body::lemma_position_of_live(bodies, key.1);
        let anchor = contact_anchor(bodies, dynamic, key);
        let p = bodies.position(x);
        assert(pairs[j] == (bodies.position(key.0), bodies.position(key.1)));
        assert(connected(dynamic, pairs, anchor, p)) by {
            if p == anchor {
                lemma_connected_reflexive(dynamic, pairs, p);
            } else {
                assert(joins(dynamic, pairs[j]));
                lemma_joined_connected(dynamic, pairs, j);
                if anchor != pairs[j].0 {
                    lemma_connected_symmetric(dynamic, pairs, pairs[j].0, pairs[j].1);
                }
            }
        }
        crate::body::lemma_position_of_live(bodies, x);
    }
    // the id is a body of the island
    let k0 = cons[0];
    assert(pred(k0));
    assert(cons.contains(k0));
    touched.lemma_filter_contains_rev(pred, k0);
    let d = contact_anchor(bodies, dynamic, k0);
    crate::body::lemma_position_of_live(bodies, k0.0);
    crate::body::lemma_position_of_live(bodies, k0.1);
    let e = choose|e: int| 0 <= e < ids.len() && connected(dynamic, pairs, d, e) && ids[e] == id;
    crate::body::lemma_handles_distinct_positions(bodies, id, e);
    if e == d {
        assert(ids[d] == k0.0 || ids[d] == k0.1);
        assert(cons[0].0 == id || cons[0].1 == id);
        assert(island_member(bodies, dynamic, cons, id));
    } else {
        lemma_connected_has_edge(dynamic, pairs, d, e);
        let k = choose|k: int| 0 <= k < pairs.len() && #[trigger] joins(dynamic, pairs[k]) && (pairs[k].0 == e || pairs[k].1 == e);
        let key = touched[k];
        crate::body::lemma_position_of_live(bodies, key.0);
        crate::body::lemma_position_of_live(bodies, key.1);
        assert(pairs[k] == (bodies.position(key.0), bodies.position(key.1)));
        lemma_joined_connected(dynamic, pairs, k);
        assert(contact_anchor(bodies, dynamic, key) == pairs[k].0);
        assert(connected(dynamic, pairs, d, pairs[k].0)) by {
            if pairs[k].0 == e {
            } else {
                lemma_connected_symmetric(dynamic, pairs, pairs[k].0, pairs[k].1);
                lemma_connected_transitive(dynamic, pairs, d, e, pairs[k].0);
            }
        }
        lemma_label_follows(ids, dynamic, pairs, d, pairs[k].0, id);
        assert(pred(key));
        assert(touched.filter(pred).contains(touched[k]));
        let c = choose|c: int| 0 <= c < cons.len() && cons[c] == key;
        assert(ids[e] == key.0 || ids[e] == key.1);
        assert(cons[c].0 == id || cons[c].1 == id);
        assert(island_member(bodies, dynamic, cons, id));
    }
    assert(r[a].bodies@.contains(id));
    let m = choose|m: int| 0 <= m < r[a].bodies@.len() && r[a].bodies@[m] == id;
    if m > 0 {
        assert(r[a].bodies@[0].precedes(r[a].bodies@[m]));
        assert(r[a].bodies@.contains(r[a].bodies@[0]));
    }
}

/// Some contact names the body.
pub open spec fn named_by_contact(touched: Seq<PairKey>, x: BodyId) -> bool {
    exists|k: int| 0 <= k < touched.len() && (#[trigger] touched[k].0 == x || touched[k].1 == x)
}

/// Two positions with one component label are connected.
proof fn lemma_same_label_connected(
    ids: Seq<BodyId>,
    dynamic: Seq<bool>,
    pairs: Seq<(int, int)>,
    p: int,
    q: int,
    l: BodyId,
)
    requires
        forall|i: int, j: int| 0 <= i < ids.len() && 0 <= j < ids.len() && i != j ==> ids[i] != ids[j],
        is_component_label(ids, dynamic, pairs, p, l),
        is_component_label(ids, dynamic, pairs, q, l),
    ensures
        connected(dynamic, pairs, p, q),
{
    let e = choose|e: int| 0 <= e < ids.len() && connected(dynamic, pairs, p, e) && ids[e] == l;
    let f = choose|e: int| 0 <= e < ids.len() && connected(dynamic, pairs, q, e) && ids[e] == l;
    assert(e == f);
    lemma_connected_symmetric(dynamic, pairs, q, f);
    lemma_connected_transitive(dynamic, pairs, p, e, q);
}

/// A body belongs to an island exactly when it is dynamic, some contact names
/// it, and its component carries the island's id.
proof fn lemma_island_member_by_label<T>(
    bodies: &BodyArena<T>,
    dynamic: Seq<bool>,
    touched: Seq<PairKey>,
    r: Seq<Island>,
    a: int,
    x: BodyId,
)
    requires
        bodies.wf(),
        dynamic.len() == bodies.ids().len(),
        forall|k: int| 0 <= k < touched.len() ==> bodies@.contains_key(#[trigger] touched[k].0)
            && bodies@.contains_key(touched[k].1),
        are_islands(bodies, dynamic, touched, r),
        0 <= a < r.len(),
        bodies@.contains_key(x),
    ensures
        r[a].bodies@.contains(x) <==> {
            &&& dynamic[bodies.position(x)]
            &&& named_by_contact(touched, x)
            &&& is_component_label(
                bodies.ids(),
                dynamic,
                dense_pairs(bodies, touched),
                bodies.position(x),
                r[a].id,
            )
        },
{
    broadcast use vstd::seq_lib::group_filter_ensures;

    let ids = bodies.ids();
    let pairs = dense_pairs(bodies, touched);
    let id = r[a].id;
    let cons = r[a].constraints@;
    let pred = |k: PairKey| in_island(bodies, dynamic, touched, k, id);
    assert(cons == touched.filter(pred));
    crate::body::lemma_position_of_live(bodies, x);
    let p = bodies.position(x);
    if r[a].bodies@.contains(x) {
        assert(island_member(bodies, dynamic, cons, x));
        let c = choose|c: int| 0 <= c < cons.len() && (#[trigger] cons[c].0 == x || cons[c].1 == x);
        assert(pred(cons[c]));
        assert(cons.contains(cons[c]));
        touched.lemma_filter_contains_rev(pred, cons[c]);
        let j = choose|j: int| 0 <= j < touched.len() && touched[j] == cons[c];
        let key = touched[j];
        assert(touched[j].0 == x || touched[j].1 == x);
        crate::body::lemma_position_of_live(bodies, key.0);
        crate::body::lemma_position_of_live(bodies, key.1);
        let anchor = contact_anchor(bodies, dynamic, key);
        assert(pairs[j] == (bodies.position(key.0), bodies.position(key.1)));
        assert(connected(dynamic, pairs, anchor, p)) by {
            if p == anchor {
                lemma_connected_reflexive(dynamic, pairs, p);
            } else {
                assert(joins(dynamic, pairs[j]));
                lemma_joined_connected(dynamic, pairs, j);
                if anchor != pairs[j].0 {
                    lemma_connected_symmetric(dynamic, pairs, pairs[j].0, pairs[j].1);
                }
            }
        }
        lemma_label_follows(ids, dynamic, pairs, anchor, p, id);
    }
    if dynamic[p] && named_by_contact(touched, x) && is_component_label(ids, dynamic, pairs, p, id) {
        let j = choose|k: int| 0 <= k < touched.len() && (#[trigger] touched[k].0 == x || touched[k].1 == x);
        let key = touched[j];
        crate::body::lemma_position_of_live(bodies, key.0);
        crate::body::lemma_position_of_live(bodies, key.1);
        crate::body::lemma_handles_distinct_positions(bodies, key.0, bodies.position(key.0));
        assert(pairs[j] == (bodies.position(key.0), bodies.position(key.1)));
        let anchor = contact_anchor(bodies, dynamic, key);
        assert(connected(dynamic, pairs, p, anchor)) by {
            if p == anchor {
                lemma_connected_reflexive(dynamic, pairs, p);
            } else {
                assert(joins(dynamic, pairs[j]));
                lemma_joined_connected(dynamic, pairs, j);
                if p != pairs[j].0 {
                    lemma_connected_symmetric(dynamic, pairs, pairs[j].0, pairs[j].1);
                }
            }
        }
        lemma_label_follows(ids, dynamic, pairs, p, anchor, id);
        assert(pred(key));
        assert(touched.filter(pred).contains(touched[j]));
        let c = choose|c: int| 0 <= c < cons.len() && cons[c] == key;
        assert(cons[c].0 == x || cons[c].1 == x);
        assert(island_member(bodies, dynamic, cons, x));
    }
}

/// The islands partition the dynamic bodies that some contact names into the
/// connected components of the graph whose edges are the contacts between
/// two dynamic bodies: each such body lies in exactly one island, and two of
/// them share an island exactly when they are connected.
pub proof fn lemma_islands_partition_components<T>(
    bodies: &BodyArena<T>,
    dynamic: Seq<bool>,
    touched: Seq<PairKey>,
    r: Seq<Island>,
    x: BodyId,
    y: BodyId,
)
    requires
        bodies.wf(),
        dynamic.len() == bodies.ids().len(),
        forall|k: int| 0 <= k < touched.len() ==> bodies@.contains_key(#[trigger] touched[k].0)
            && bodies@.contains_key(touched[k].1),
        are_islands(bodies, dynamic, touched, r),
        bodies@.contains_key(x),
        bodies@.contains_key(y),
        dynamic[bodies.position(x)],
        dynamic[bodies.position(y)],
        named_by_contact(touched, x),
        named_by_contact(touched, y),
    ensures
        exists|a: int| 0 <= a < r.len() && r[a].bodies@.contains(x),
        forall|a: int, b: int|
            0 <= a < r.len() && 0 <= b < r.len() && #[trigger] r[a].bodies@.contains(x) && #[trigger] r[b].bodies@.contains(x)
                ==> a == b,
        (exists|a: int| 0 <= a < r.len() && r[a].bodies@.contains(x) && r[a].bodies@.contains(y))
            <==> connected(dynamic, dense_pairs(bodies, touched), bodies.position(x), bodies.position(y)),
{
    let ids = bodies.ids();
    let pairs = dense_pairs(bodies, touched);
    assert forall|i: int, k: int| 0 <= i < ids.len() && 0 <= k < ids.len() && i != k implies ids[i] != ids[k] by {
        crate::body::lemma_handles_distinct(bodies, i, k);
    }
    crate::body::lemma_position_of_live(bodies, x);
    crate::body::lemma_position_of_live(bodies, y);
    let px = bodies.position(x);
    let py = bodies.position(y);
    // x lies in the island of a contact that names it
    let j = choose|k: int| 0 <= k < touched.len() && (#[trigger] touched[k].0 == x || touched[k].1 == x);
    let key = touched[j];
    crate::body::lemma_position_of_live(bodies, key.0);
    crate::body::lemma_position_of_live(bodies, key.1);
    assert(contact_active(bodies, dynamic, touched[j]));
    let a = choose|a: int| 0 <= a < r.len() && in_island(bodies, dynamic, touched, touched[j], r[a].id);
    let anchor = contact_anchor(bodies, dynamic, key);
    assert(pairs[j] == (bodies.position(key.0), bodies.position(key.1)));
    assert(connected(dynamic, pairs, anchor, px)) by {
        if px == anchor {
            lemma_connected_reflexive(dynamic, pairs, px);
        } else {
            assert(joins(dynamic, pairs[j]));
            lemma_joined_connected(dynamic, pairs, j);
            if anchor != pairs[j].0 {
                lemma_connected_symmetric(dynamic, pairs, pairs[j].0, pairs[j].1);
            }
        }
    }
    lemma_label_follows(ids, dynamic, pairs, anchor, px, r[a].id);
    lemma_island_member_by_label(bodies, dynamic, touched, r, a, x);
    assert(r[a].bodies@.contains(x));
    // and in no other
    assert forall|b: int, c: int|
        0 <= b < r.len() && 0 <= c < r.len() && #[trigger] r[b].bodies@.contains(x) && #[trigger] r[c].bodies@.contains(x)
            implies b == c by {
        lemma_island_member_by_label(bodies, dynamic, touched, r, b, x);
        lemma_island_member_by_label(bodies, dynamic, touched, r, c, x);
        lemma_label_unique(ids, dynamic, pairs, px, r[b].id, r[c].id);
        if b < c {
            assert(r[b].id.precedes(r[c].id));
            crate::body::lemma_handle_order_total(r[b].id, r[c].id);
        } else if c < b {
            assert(r[c].id.precedes(r[b].id));
            crate::body::lemma_handle_order_total(r[b].id, r[c].id);
        }
    }
    if connected(dynamic, pairs, px, py) {
        lemma_label_follows(ids, dynamic, pairs, px, py, r[a].id);
        lemma_island_member_by_label(bodies, dynamic, touched, r, a, y);
    }
    if exists|b: int| 0 <= b < r.len() && r[b].bodies@.contains(x) && r[b].bodies@.contains(y) {
        let b = choose|b: int| 0 <= b < r.len() && r[b].bodies@.contains(x) && r[b].bodies@.contains(y);
        lemma_island_member_by_label(bodies, dynamic, touched, r, b, x);
        lemma_island_member_by_label(bodies, dynamic, touched, r, b, y);
        lemma_same_label_connected(ids, dynamic, pairs, px, py, r[b].id);
    }
}

/// A contact belongs to an island exactly when one of its bodies is a body of
/// the island; so a contact between two static bodies belongs to none.
pub proof fn lemma_island_contacts_touch_its_bodies<T>(
    bodies: &BodyArena<T>,
    dynamic: Seq<bool>,
    touched: Seq<PairKey>,
    r: Seq<Island>,
    a: int,
    j: int,
)
    requires
        bodies.wf(),
        dynamic.len() == bodies.ids().len(),
        forall|k: int| 0 <= k < touched.len() ==> bodies@.contains_key(#[trigger] touched[k].0)
            && bodies@.contains_key(touched[k].1),
        are_islands(bodies, dynamic, touched, r),
        0 <= a < r.len(),
        0 <= j < touched.len(),
    ensures
        in_island(bodies, dynamic, touched, touched[j], r[a].id) <==> (r[a].bodies@.contains(touched[j].0)
            || r[a].bodies@.contains(touched[j].1)),
{
    let ids = bodies.ids();
    let pairs = dense_pairs(bodies, touched);
    let id = r[a].id;
    let key = touched[j];
    crate::body::lemma_position_of_live(bodies, key.0);
    crate::body::lemma_position_of_live(bodies, key.1);
    assert(pairs[j] == (bodies.position(key.0), bodies.position(key.1)));
    assert(named_by_contact(touched, key.0));
    assert(named_by_contact(touched, key.1));
    lemma_island_member_by_label(bodies, dynamic, touched, r, a, key.0);
    lemma_island_member_by_label(bodies, dynamic, touched, r, a, key.1);
    let anchor = contact_anchor(bodies, dynamic, key);
    if in_island(bodies, dynamic, touched, key, id) {
        if anchor == bodies.position(key.0) {
            assert(r[a].bodies@.contains(key.0));
        } else {
            assert(r[a].bodies@.contains(key.1));
        }
    }
    if r[a].bodies@.contains(key.0) || r[a].bodies@.contains(key.1) {
        let x = if r[a].bodies@.contains(key.0) { key.0 } else { key.1 };
        let px = bodies.position(x);
        assert(contact_active(bodies, dynamic, key));
        assert(connected(dynamic, pairs, px, anchor)) by {
            if px == anchor {
                lemma_connected_reflexive(dynamic, pairs, px);
            } else {
                assert(joins(dynamic, pairs[j]));
                lemma_joined_connected(dynamic, pairs, j);
                if px != pairs[j].0 {
                    lemma_connected_symmetric(dynamic, pairs, pairs[j].0, pairs[j].1);
                }
            }
        }
        lemma_label_follows(ids, dynamic, pairs, px, anchor, id);
    }
}

proof fn lemma_filter_keeps_ascending(s: Seq<PairKey>, keep: spec_fn(PairKey) -> bool)
    requires
        keys_ascending(s),
    ensures
        keys_ascending(s.filter(keep)),
    decreases s.len(),
{
    if s.len() > 0 {
        let init = s.drop_last();
        let last = s.last();
        assert(keys_ascending(init)) by {
            assert forall|a: int, b: int| 0 <= a < b < init.len() implies key_before(#[trigger] init[a], #[trigger] init[b]) by {
                assert(init[a] == s[a] && init[b] == s[b]);
            }
        }
        lemma_filter_keeps_ascending(init, keep);
        let sub = init.filter(keep);
        assert(s.filter(keep) == if keep(last) {
            sub.push(last)
        } else {
            sub
        }) by {
            reveal_with_fuel(Seq::filter, 1);
        }
        if keep(last) {
            let t = sub.push(last);
            assert forall|a: int, b: int| 0 <= a < b < t.len() implies key_before(#[trigger] t[a], #[trigger] t[b]) by {
                if b < sub.len() {
                    assert(t[a] == sub[a] && t[b] == sub[b]);
                } else {
                    assert(t[a] == sub[a]);
                    assert(sub.contains(sub[a]));
                    init.lemma_filter_contains_rev(keep, sub[a]);
                    let k = choose|k: int| 0 <= k < init.len() && init[k] == sub[a];
                    assert(s[k] == init[k]);
                    assert(s[s.len() - 1] == last);
                    assert(key_before(s[k], s[s.len() - 1]));
                }
            }
        }
    }
}

/// Over contacts given in ascending key order, each island's contacts ascend too.
pub proof fn lemma_island_constraints_ascend<T>(
    bodies: &BodyArena<T>,
    dynamic: Seq<bool>,
    touched: Seq<PairKey>,
    r: Seq<Island>,
    a: int,
)
    requires
        are_islands(bodies, dynamic, touched, r),
        keys_ascending(touched),
        0 <= a < r.len(),
    ensures
        keys_ascending(r[a].constraints@),
{
    lemma_filter_keeps_ascending(touched, |k: PairKey| in_island(bodies, dynamic, touched, k, r[a].id));
}

/// Inserts `x` into a strictly ascending sequence of handles, unless present.
fn insert_sorted(v: &mut Vec<BodyId>, x: BodyId)
    requires
        ascending(old(v)@),
    ensures
        ascending(final(v)@),
        forall|y: BodyId| final(v)@.contains(y) <==> (old(v)@.contains(y) || y == x),
{
    let mut p: usize = 0;
    while p < v.len() && v[p].less_than(x)
        invariant
            p <= v@.len(),
            v@ == old(v)@,
            forall|q: int| 0 <= q < p ==> (#[trigger] v@[q]).precedes(x),
        decreases v@.len() - p,
    {
        p = p + 1;
    }
    if p < v.len() && v[p] == x {
        return;
    }
    proof {
        if p < v@.len() {
            crate::body::lemma_handle_order_total(v@[p as int], x);
        }
    }
    let ghost before = v@;
    v.insert(p, x);
    proof {
        assert forall|a: int, b: int| 0 <= a < b < v@.len() implies (#[trigger] v@[a]).precedes(
            #[trigger] v@[b],
        ) by {
            if b < p {
            } else if a < p && b == p {
            } else if a < p {
                assert(v@[b] == before[b - 1]);
                crate::body::lemma_handle_order_transitive(v@[a], x, before[p as int]);
                if b - 1 > p {
                    crate::body::lemma_handle_order_transitive(v@[a], before[p as int], before[b - 1]);
                }
            } else if a == p {
                assert(v@[b] == before[b - 1]);
                if b - 1 > p {
                    crate::body::lemma_handle_order_transitive(x, before[p as int], before[b - 1]);
                }
            } else {
                assert(v@[a] == before[a - 1]);
                assert(v@[b] == before[b - 1]);
            }
        }
        assert forall|y: BodyId| v@.contains(y) <==> (before.contains(y) || y == x) by {
            if before.contains(y) {
                let q = choose|q: int| 0 <= q < before.len() && before[q] == y;
                if q < p {
                    assert(v@[q] == y);
                } else {
                    assert(v@[q + 1] == y);
                }
            }
            if v@.contains(y) {
                let q = choose|q: int| 0 <= q < v@.len() && v@[q] == y;
                if q < p {
                    assert(before[q] == y);
                } else if q > p {
                    assert(before[q - 1] == y);
                }
            }
            if y == x {
                assert(v@[p as int] == x);
            }
        }
        assert(before == old(v)@);
        assert(forall|y: BodyId| v@.contains(y) <==> (old(v)@.contains(y) || y == x));
    }
}

/// The islands of the contacts `touched`, by ascending id: the components of
/// the graph whose edges are the contacts between two dynamic bodies, each
/// with the contacts that reach it and its dynamic bodies. A contact between
/// two static bodies belongs to no island. `dynamic` flags, by dense
/// position, the bodies that take part in the solve.
pub fn islands<T>(bodies: &BodyArena<T>, dynamic: &[bool], touched: &[PairKey]) -> (r: Vec<Island>)
    requires
        bodies.wf(),
        dynamic@.len() == bodies.ids().len(),
        forall|k: int| 0 <= k < touched@.len() ==> bodies@.contains_key(#[trigger] touched@[k].0)
            && bodies@.contains_key(touched@[k].1),
    ensures
        are_islands(bodies, dynamic@, touched@, r@),
{
    let mut parent: Vec<u32> = Vec::new();
    let mut labels: Vec<BodyId> = Vec::new();
    fill_islands(bodies, dynamic, touched, &mut parent, &mut labels);
    let ghost pairs = dense_pairs(bodies, touched@);
    let ghost ids = bodies.ids();
    let ghost dynv = dynamic@;
    let ghost tv = touched@;
    let mut out: Vec<Island> = Vec::new();
    let mut c: usize = 0;
    while c < touched.len()
        invariant
            bodies.wf(),
            dynamic@.len() == bodies.ids().len(),
            dynv == dynamic@,
            tv == touched@,
            ids == bodies.ids(),
            pairs == dense_pairs(bodies, touched@),
            forall|k: int| 0 <= k < touched@.len() ==> bodies@.contains_key(#[trigger] touched@[k].0)
                && bodies@.contains_key(touched@[k].1),
            labels@.len() == ids.len(),
            forall|d: int|
                0 <= d < ids.len() ==> is_component_label(ids, dynv, pairs, d, #[trigger] labels@[d]),
            c <= touched@.len(),
            forall|a: int, b: int|
                0 <= a < b < out@.len() ==> (#[trigger] out@[a]).id.precedes(#[trigger] out@[b].id),
            forall|a: int|
                0 <= a < out@.len() ==> {
                    &&& (#[trigger] out@[a]).constraints@ == tv.take(c as int).filter(
                        |k: PairKey| in_island(bodies, dynv, tv, k, out@[a].id),
                    )
                    &&& out@[a].constraints@.len() > 0
                    &&& ascending(out@[a].bodies@)
                    &&& forall|x: BodyId|
                        out@[a].bodies@.contains(x) <==> island_member(
                            bodies,
                            dynv,
                            out@[a].constraints@,
                            x,
                        )
                },
            forall|q: int|
                0 <= q < c && contact_active(bodies, dynv, #[trigger] tv[q]) ==> exists|a: int|
                    0 <= a < out@.len() && in_island(bodies, dynv, tv, tv[q], out@[a].id),
        decreases touched@.len() - c,
    {
        let key = touched[c];
        let i = bodies.dense_index(key.0).unwrap();
        let j = bodies.dense_index(key.1).unwrap();
        proof {
            crate::body::lemma_handles_distinct_positions(bodies, key.0, i as int);
            crate::body::lemma_handles_distinct_positions(bodies, key.1, j as int);
            assert(tv.take(c as int + 1).drop_last() =~= tv.take(c as int));
            assert(tv.take(c as int + 1).last() == key);
        }
        if !dynamic[i] && !dynamic[j] {
            proof {
                assert forall|a: int| 0 <= a < out@.len() implies (#[trigger] out@[a]).constraints@
                    == tv.take(c as int + 1).filter(
                    |k: PairKey| in_island(bodies, dynv, tv, k, out@[a].id),
                ) by {
                    reveal_with_fuel(Seq::filter, 1);
                }
            }
            c = c + 1;
            continue;
        }
        let anchor = if dynamic[i] {
            i
        } else {
            j
        };
        let id = labels[anchor];
        proof {
            assert(in_island(bodies, dynv, tv, key, id));
        }
        // first island whose id is not below `id`
        let mut at: usize = 0;
        while at < out.len() && out[at].id.less_than(id)
            invariant
                at <= out@.len(),
                forall|q: int| 0 <= q < at ==> (#[trigger] out@[q]).id.precedes(id),
            decreases out@.len() - at,
        {
            at = at + 1;
        }
        let found = at < out.len() && out[at].id == id;
        let ghost before = out@;
        let mut island = if found {
            out.remove(at)
        } else {
            Island { id, bodies: Vec::new(), constraints: Vec::new() }
        };
        let ghost old_island = island;
        island.constraints.push(key);
        if dynamic[i] {
            insert_sorted(&mut island.bodies, key.0);
        }
        if dynamic[j] {
            insert_sorted(&mut island.bodies, key.1);
        }
        out.insert(at, island);
        proof {
            let p = |k: PairKey| in_island(bodies, dynv, tv, k, id);
            reveal_with_fuel(Seq::filter, 1);
            if found {
                assert(out@ =~= before.update(at as int, island));
            } else {
                if at < before.len() {
                    crate::body::lemma_handle_order_total(before[at as int].id, id);
                }
                assert(tv.take(c as int).filter(p) =~= Seq::<PairKey>::empty()) by {
                    assert forall|q: int| 0 <= q < c implies !p(#[trigger] tv.take(c as int)[q]) by {
                        let kq = tv[q];
                        assert(tv.take(c as int)[q] == kq);
                        if p(kq) {
                            let a = choose|a: int|
                                0 <= a < before.len() && in_island(bodies, dynv, tv, kq, before[a].id);
                            lemma_label_unique(
                                ids,
                                dynv,
                                pairs,
                                contact_anchor(bodies, dynv, kq),
                                id,
                                before[a].id,
                            );
                            if a < at {
                            } else if a > at {
                                crate::body::lemma_handle_order_transitive(
                                    id,
                                    before[at as int].id,
                                    before[a].id,
                                );
                            }
                        }
                    }
                    tv.take(c as int).lemma_all_neg_filter_empty(p);
                }
            }
            // the island just extended
            assert(island.constraints@ == tv.take(c as int + 1).filter(p));
            assert forall|x: BodyId| island.bodies@.contains(x) <==> island_member(
                bodies,
                dynv,
                island.constraints@,
                x,
            ) by {
                let n = island.constraints@.len() - 1;
                assert(island.constraints@[n] == key);
                if island_member(bodies, dynv, island.constraints@, x) {
                    let q = choose|q: int|
                        0 <= q < island.constraints@.len() && (#[trigger] island.constraints@[q].0
                            == x || island.constraints@[q].1 == x);
                    if q < n {
                        assert(island_member(bodies, dynv, old_island.constraints@, x)) by {
                            assert(old_island.constraints@[q] == island.constraints@[q]);
                        }
                    }
                }
                if old_island.bodies@.contains(x) {
                    assert(island_member(bodies, dynv, old_island.constraints@, x));
                    let q = choose|q: int|
                        0 <= q < old_island.constraints@.len() && (#[trigger] old_island.constraints@[q].0
                            == x || old_island.constraints@[q].1 == x);
                    assert(island.constraints@[q] == old_island.constraints@[q]);
                }
            }
            // every other island keeps its contacts
            assert forall|a: int| 0 <= a < out@.len() implies ({
                &&& (#[trigger] out@[a]).constraints@ == tv.take(c as int + 1).filter(
                    |k: PairKey| in_island(bodies, dynv, tv, k, out@[a].id),
                )
                &&& out@[a].constraints@.len() > 0
                &&& ascending(out@[a].bodies@)
                &&& forall|x: BodyId|
                    out@[a].bodies@.contains(x) <==> island_member(
                        bodies,
                        dynv,
                        out@[a].constraints@,
                        x,
                    )
            }) by {
                if a != at {
                    let b = if a < at || found {
                        a
                    } else {
                        a - 1
                    };
                    assert(out@[a] == before[b]);
                    assert(!in_island(bodies, dynv, tv, key, before[b].id)) by {
                        if in_island(bodies, dynv, tv, key, before[b].id) {
                            lemma_label_unique(
                                ids,
                                dynv,
                                pairs,
                                contact_anchor(bodies, dynv, key),
                                id,
                                before[b].id,
                            );
                            if !found {
                                if b < at {
                                } else {
                                    crate::body::lemma_handle_order_total(before[at as int].id, id);
                                    if b > at {
                                        crate::body::lemma_handle_order_transitive(
                                            id,
                                            before[at as int].id,
                                            before[b].id,
                                        );
                                    }
                                }
                            }
                        }
                    }
                }
            }
            assert forall|a: int, b: int| 0 <= a < b < out@.len() implies (
            #[trigger] out@[a]).id.precedes(#[trigger] out@[b].id) by {
                if !found {
                    if at < before.len() {
                        crate::body::lemma_handle_order_total(before[at as int].id, id);
                    }
                    if a == at {
                        assert(out@[b] == before[b - 1]);
                        if b - 1 > at {
                            crate::body::lemma_handle_order_transitive(
                                id,
                                before[at as int].id,
                                before[b - 1].id,
                            );
                        }
                    } else if b == at {
                        assert(out@[a] == before[a]);
                    } else if a < at && b > at {
                        assert(out@[a] == before[a]);
                        assert(out@[b] == before[b - 1]);
                    } else if a > at {
                        assert(out@[a] == before[a - 1]);
                        assert(out@[b] == before[b - 1]);
                    }
                }
            }
            assert forall|q: int|
                0 <= q < c + 1 && contact_active(bodies, dynv, #[trigger] tv[q]) implies exists|a: int|
                0 <= a < out@.len() && in_island(bodies, dynv, tv, tv[q], out@[a].id) by {
                if q == c {
                    assert(out@[at as int].id == id);
                } else {
                    let a = choose|a: int|
                        0 <= a < before.len() && in_island(bodies, dynv, tv, tv[q], before[a].id);
                    if found || a < at {
                        assert(out@[a] .id == before[a].id);
                    } else {
                        assert(out@[a + 1].id == before[a].id);
                    }
                }
            }
        }
        c = c + 1;
    }
    proof {
        assert(tv.take(tv.len() as int) =~= tv);
    }
    out
}


/// The contact involves the body.
pub open spec fn touches(key: PairKey, id: BodyId) -> bool {
    key.0 == id || key.1 == id
}

/// Drops from the contact order every contact of `id`, keeping the others in
/// order, and hands back the dropped ones, in order, so their manifolds can
/// return to the pool.
pub fn drop_contacts_of(order: &mut Vec<PairKey>, id: BodyId) -> (r: Vec<PairKey>)
    ensures
        final(order)@ == old(order)@.filter(|k: PairKey| !touches(k, id)),
        r@ == old(order)@.filter(|k: PairKey| touches(k, id)),
{
    let ghost orig = order@;
    let mut kept: Vec<PairKey> = Vec::new();
    let mut dropped: Vec<PairKey> = Vec::new();
    let mut read: usize = 0;
    while read < order.len()
        invariant
            order@ == orig,
            read <= orig.len(),
            kept@ == orig.take(read as int).filter(|k: PairKey| !touches(k, id)),
            dropped@ == orig.take(read as int).filter(|k: PairKey| touches(k, id)),
        decreases orig.len() - read,
    {
        let key = order[read];
        proof {
            assert(orig.take(read as int + 1).drop_last() =~= orig.take(read as int));
            assert(orig.take(read as int + 1).last() == key);
            reveal_with_fuel(Seq::filter, 1);
        }
        if key.0 == id || key.1 == id {
            dropped.push(key);
        } else {
            kept.push(key);
        }
        read = read + 1;
    }
    proof {
        assert(orig.take(orig.len() as int) =~= orig);
    }
    *order = kept;
    dropped
}

/// Contact key order: by the first handle, then by the second.
pub open spec fn key_before(x: PairKey, y: PairKey) -> bool {
    x.0.precedes(y.0) || (x.0 == y.0 && x.1.precedes(y.1))
}

/// Strictly ascending in key order, so without repeats.
pub open spec fn keys_ascending(s: Seq<PairKey>) -> bool {
    forall|a: int, b: int| 0 <= a < b < s.len() ==> key_before(#[trigger] s[a], #[trigger] s[b])
}

proof fn lemma_key_order(x: PairKey, y: PairKey, z: PairKey)
    ensures
        x == y || key_before(x, y) || key_before(y, x),
        !(key_before(x, y) && key_before(y, x)),
        key_before(x, y) && key_before(y, z) ==> key_before(x, z),
{
    crate::body::lemma_handle_order_total(x.0, y.0);
    crate::body::lemma_handle_order_total(x.1, y.1);
    if key_before(x, y) && key_before(y, z) {
        crate::body::lemma_handle_order_total(y.0, z.0);
        if x.0.precedes(y.0) && y.0.precedes(z.0) {
            crate::body::lemma_handle_order_transitive(x.0, y.0, z.0);
        }
        if x.1.precedes(y.1) && y.1.precedes(z.1) {
            crate::body::lemma_handle_order_transitive(x.1, y.1, z.1);
        }
    }
}

fn key_less(x: PairKey, y: PairKey) -> (r: bool)
    ensures
        r == key_before(x, y),
{
    x.0.less_than(y.0) || (x.0 == y.0 && x.1.less_than(y.1))
}

/// The keys of this step's contacts, ascending and each once: the new
/// contact order.
pub fn touched_keys(pending: &[PairKey]) -> (r: Vec<PairKey>)
    ensures
        keys_ascending(r@),
        forall|k: PairKey| r@.contains(k) <==> pending@.contains(k),
{
    let mut out: Vec<PairKey> = Vec::new();
    let mut i: usize = 0;
    while i < pending.len()
        invariant
            i <= pending@.len(),
            keys_ascending(out@),
            forall|k: PairKey| out@.contains(k) <==> pending@.take(i as int).contains(k),
        decreases pending@.len() - i,
    {
        let x = pending[i];
        let mut p: usize = 0;
        while p < out.len() && key_less(out[p], x)
            invariant
                p <= out@.len(),
                forall|q: int| 0 <= q < p ==> key_before(#[trigger] out@[q], x),
            decreases out@.len() - p,
        {
            p = p + 1;
        }
        let ghost before = out@;
        let present = p < out.len() && out[p].0 == x.0 && out[p].1 == x.1;
        if !present {
            proof {
                if p < before.len() {
                    lemma_key_order(before[p as int], x, x);
                }
            }
            out.insert(p, x);
            proof {
                assert forall|a: int, b: int| 0 <= a < b < out@.len() implies key_before(
                    #[trigger] out@[a],
                    #[trigger] out@[b],
                ) by {
                    if b < p {
                    } else if a < p && b == p {
                    } else if a < p {
                        assert(out@[b] == before[b - 1]);
                        lemma_key_order(out@[a], x, before[p as int]);
                        if b - 1 > p {
                            lemma_key_order(out@[a], before[p as int], before[b - 1]);
                        }
                    } else if a == p {
                        assert(out@[b] == before[b - 1]);
                        if b - 1 > p {
                            lemma_key_order(x, before[p as int], before[b - 1]);
                        }
                    } else {
                        assert(out@[a] == before[a - 1]);
                        assert(out@[b] == before[b - 1]);
                    }
                }
            }
        }
        proof {
            assert(pending@.take(i as int + 1) =~= pending@.take(i as int).push(x));
            assert forall|k: PairKey| out@.contains(k) <==> pending@.take(i as int + 1).contains(k) by {
                let t0 = pending@.take(i as int);
                let t1 = pending@.take(i as int + 1);
                assert(t1.contains(k) <==> (t0.contains(k) || k == x)) by {
                    if t1.contains(k) {
                        let q = choose|q: int| 0 <= q < t1.len() && t1[q] == k;
                        if q < i {
                            assert(t0[q] == k);
                        }
                    }
                    if t0.contains(k) {
                        let q = choose|q: int| 0 <= q < t0.len() && t0[q] == k;
                        assert(t1[q] == k);
                    }
                    if k == x {
                        assert(t1[i as int] == x);
                    }
                }
                if present {
                    assert(out@[p as int] == x);
                } else {
                    if before.contains(k) {
                        let q = choose|q: int| 0 <= q < before.len() && before[q] == k;
                        if q < p {
                            assert(out@[q] == k);
                        } else {
                            assert(out@[q + 1] == k);
                        }
                    }
                    if out@.contains(k) {
                        let q = choose|q: int| 0 <= q < out@.len() && out@[q] == k;
                        if q < p {
                            assert(before[q] == k);
                        } else if q > p {
                            assert(before[q - 1] == k);
                        }
                    }
                    if k == x {
                        assert(out@[p as int] == x);
                    }
                }
            }
        }
        i = i + 1;
    }
    proof {
        assert(pending@.take(pending@.len() as int) =~= pending@);
    }
    out
}

/// Replaces the contact order with `touched`, and hands back, in order, the
/// held contacts that `touched` lacks, so their manifolds can return to the pool.
pub fn recycle_untouched(order: &mut Vec<PairKey>, touched: &[PairKey]) -> (r: Vec<PairKey>)
    ensures
        final(order)@ == touched@,
        r@ == old(order)@.filter(|k: PairKey| !touched@.contains(k)),
{
    let ghost orig = order@;
    let mut dropped: Vec<PairKey> = Vec::new();
    let mut read: usize = 0;
    while read < order.len()
        invariant
            order@ == orig,
            read <= orig.len(),
            dropped@ == orig.take(read as int).filter(|k: PairKey| !touched@.contains(k)),
        decreases orig.len() - read,
    {
        let key = order[read];
        let mut found = false;
        let mut t: usize = 0;
        while t < touched.len()
            invariant
                t <= touched@.len(),
                found == exists|q: int| 0 <= q < t && touched@[q] == key,
            decreases touched@.len() - t,
        {
            let other = touched[t];
            if other.0 == key.0 && other.1 == key.1 {
                found = true;
            }
            t = t + 1;
        }
        proof {
            assert(orig.take(read as int + 1).drop_last() =~= orig.take(read as int));
            assert(orig.take(read as int + 1).last() == key);
            reveal_with_fuel(Seq::filter, 1);
        }
        if !found {
            dropped.push(key);
        }
        read = read + 1;
    }
    proof {
        assert(orig.take(orig.len() as int) =~= orig);
    }
    let mut next: Vec<PairKey> = Vec::new();
    let mut t: usize = 0;
    while t < touched.len()
        invariant
            t <= touched@.len(),
            next@ == touched@.take(t as int),
        decreases touched@.len() - t,
    {
        next.push(touched[t]);
        proof {
            assert(next@ =~= touched@.take(t as int + 1));
        }
        t = t + 1;
    }
    proof {
        assert(next@ =~= touched@);
    }
    *order = next;
    dropped
}

/// Binding order: by body handle, then by field.
pub open spec fn binding_before(x: (BodyId, FieldId), y: (BodyId, FieldId)) -> bool {
    x.0.precedes(y.0) || (x.0 == y.0 && x.1.0 < y.1.0)
}

/// Strictly ascending in binding order.
pub open spec fn bindings_ascending(s: Seq<(BodyId, FieldId)>) -> bool {
    forall|a: int, b: int| 0 <= a < b < s.len() ==> binding_before(#[trigger] s[a], #[trigger] s[b])
}

proof fn lemma_binding_order(x: (BodyId, FieldId), y: (BodyId, FieldId), z: (BodyId, FieldId))
    ensures
        x == y || binding_before(x, y) || binding_before(y, x),
        !(binding_before(x, y) && binding_before(y, x)),
        binding_before(x, y) && binding_before(y, z) ==> binding_before(x, z),
{
    crate::body::lemma_handle_order_total(x.0, y.0);
    if binding_before(x, y) && binding_before(y, z) {
        if x.0.precedes(y.0) && y.0.precedes(z.0) {
            crate::body::lemma_handle_order_transitive(x.0, y.0, z.0);
        }
    }
}

fn binding_less(x: (BodyId, FieldId), y: (BodyId, FieldId)) -> (r: bool)
    ensures
        r == binding_before(x, y),
{
    x.0.less_than(y.0) || (x.0 == y.0 && x.1.0 < y.1.0)
}

/// A binding names a field of `anchors`, a body other than that field's
/// anchor, and a body in `live`.
pub open spec fn binding_resolves(anchors: Seq<BodyId>, live: Set<BodyId>, x: (BodyId, FieldId)) -> bool {
    &&& x.1.0 < anchors.len()
    &&& x.0 != anchors[x.1.0 as int]
    &&& live.contains(x.0)
}

/// What a snapshot's bindings must satisfy to be restored.
pub open spec fn saved_bindings_valid(anchors: Seq<BodyId>, live: Set<BodyId>, saved: Seq<(BodyId, FieldId)>) -> bool {
    &&& bindings_ascending(saved)
    &&& forall|q: int| 0 <= q < saved.len() ==> binding_resolves(anchors, live, #[trigger] saved[q])
}

/// The distance fields of a world: each field's anchor body, by field index,
/// and the bodies bound to query each field.
pub struct FieldTable {
    anchors: Vec<BodyId>,
    bindings: Vec<(BodyId, FieldId)>,
}

impl FieldTable {
    /// Anchor body of each field, by field index.
    pub closed spec fn anchor_seq(&self) -> Seq<BodyId> {
        self.anchors@
    }

    /// The (body, field) bindings, ascending.
    pub closed spec fn binding_seq(&self) -> Seq<(BodyId, FieldId)> {
        self.bindings@
    }

    pub closed spec fn wf(&self) -> bool {
        bindings_ascending(self.bindings@)
    }

    pub fn new() -> (r: Self)
        ensures
            r.wf(),
            r.anchor_seq() == Seq::<BodyId>::empty(),
            r.binding_seq() == Seq::<(BodyId, FieldId)>::empty(),
    {
        Self { anchors: Vec::new(), bindings: Vec::new() }
    }

    /// Registers a field owned by `anchor`, which must be live and static;
    /// the new field's index is the number of fields before it. The anchor
    /// leaves every collision group: on success the result holds its filter
    /// with group and mask cleared, and its contacts leave the contact order
    /// and are handed back, in order, so their manifolds can return to the
    /// pool. A refusal changes nothing.
    pub fn insert_field<T>(
        &mut self,
        bodies: &BodyArena<T>,
        contacts: &mut Vec<PairKey>,
        anchor: BodyId,
        anchor_body: ContactBody,
    ) -> (r: Result<(FieldId, ContactBody, Vec<PairKey>), EditError>)
        requires
            old(self).wf(),
            bodies.wf(),
            old(self).anchor_seq().len() < u32::MAX,
        ensures
            final(self).wf(),
            final(self).binding_seq() == old(self).binding_seq(),
            !bodies@.contains_key(anchor) ==> r == Err::<(FieldId, ContactBody, Vec<PairKey>), EditError>(
                EditError::StaleHandle,
            ),
            bodies@.contains_key(anchor) && !anchor_body.is_static ==> r == Err::<
                (FieldId, ContactBody, Vec<PairKey>),
                EditError,
            >(EditError::DynamicFieldAnchor),
            r is Err ==> final(self).anchor_seq() == old(self).anchor_seq() && *final(contacts)
                == *old(contacts),
            bodies@.contains_key(anchor) && anchor_body.is_static ==> r is Ok,
            r matches Ok((field, filter, dropped)) ==> {
                &&& field == FieldId(old(self).anchor_seq().len() as u32)
                &&& final(self).anchor_seq() == old(self).anchor_seq().push(anchor)
                &&& filter == (ContactBody {
                    kind: anchor_body.kind,
                    is_static: anchor_body.is_static,
                    group: 0,
                    mask: 0,
                })
                &&& final(contacts)@ == old(contacts)@.filter(|k: PairKey| !touches(k, anchor))
                &&& dropped@ == old(contacts)@.filter(|k: PairKey| touches(k, anchor))
            },
    {
        if bodies.dense_index(anchor).is_none() {
            return Err(EditError::StaleHandle);
        }
        if !anchor_body.is_static {
            return Err(EditError::DynamicFieldAnchor);
        }
        let filter = ContactBody { kind: anchor_body.kind, is_static: anchor_body.is_static, group: 0, mask: 0 };
        let dropped = drop_contacts_of(contacts, anchor);
        let id = FieldId(self.anchors.len() as u32);
        self.anchors.push(anchor);
        Ok((id, filter, dropped))
    }

    /// Binds `body` to query `field` every step; binding twice binds once.
    pub fn bind_field<T>(&mut self, bodies: &BodyArena<T>, body: BodyId, field: FieldId) -> (r: Result<
        (),
        EditError,
    >)
        requires
            old(self).wf(),
            bodies.wf(),
        ensures
            final(self).wf(),
            final(self).anchor_seq() == old(self).anchor_seq(),
            field.0 >= old(self).anchor_seq().len() ==> r == Err::<(), EditError>(EditError::StaleHandle)
                && final(self).binding_seq() == old(self).binding_seq(),
            field.0 < old(self).anchor_seq().len() && old(self).anchor_seq()[field.0 as int] == body
                ==> r == Err::<(), EditError>(EditError::AnchorBindsOwnField) && final(self).binding_seq()
                == old(self).binding_seq(),
            field.0 < old(self).anchor_seq().len() && old(self).anchor_seq()[field.0 as int] != body
                && !bodies@.contains_key(body) ==> r == Err::<(), EditError>(EditError::StaleHandle)
                && final(self).binding_seq() == old(self).binding_seq(),
            field.0 < old(self).anchor_seq().len() && old(self).anchor_seq()[field.0 as int] != body
                && bodies@.contains_key(body) ==> {
                &&& r is Ok
                &&& bindings_ascending(final(self).binding_seq())
                &&& forall|x: (BodyId, FieldId)|
                    #[trigger] final(self).binding_seq().contains(x) <==> (old(self).binding_seq().contains(x)
                        || x == (body, field))
            },
    {
        if (field.0 as usize) >= self.anchors.len() {
            return Err(EditError::StaleHandle);
        }
        if self.anchors[field.0 as usize] == body {
            return Err(EditError::AnchorBindsOwnField);
        }
        if bodies.dense_index(body).is_none() {
            return Err(EditError::StaleHandle);
        }
        let key = (body, field);
        let mut at: usize = 0;
        while at < self.bindings.len() && binding_less(self.bindings[at], key)
            invariant
                at <= self.bindings@.len(),
                self.bindings@ == old(self).bindings@,
                forall|q: int| 0 <= q < at ==> binding_before(#[trigger] self.bindings@[q], key),
            decreases self.bindings@.len() - at,
        {
            at = at + 1;
        }
        if at < self.bindings.len() {
            let held = self.bindings[at];
            if held.0 == key.0 && held.1.0 == key.1.0 {
                proof {
                    assert(self.bindings@[at as int] == key);
                    assert forall|x: (BodyId, FieldId)|
                        #[trigger] self.bindings@.contains(x) <==> (old(self).bindings@.contains(x) || x
                            == key) by {
                    }
                }
                return Ok(());
            }
        }
        let ghost before = self.bindings@;
        proof {
            if at < before.len() {
                lemma_binding_order(before[at as int], key, key);
            }
        }
        self.bindings.insert(at, key);
        proof {
            assert forall|a: int, b: int| 0 <= a < b < self.bindings@.len() implies binding_before(
                #[trigger] self.bindings@[a],
                #[trigger] self.bindings@[b],
            ) by {
                if b < at {
                } else if a < at && b == at {
                } else if a < at {
                    assert(self.bindings@[b] == before[b - 1]);
                    lemma_binding_order(self.bindings@[a], key, before[at as int]);
                    if b - 1 > at {
                        lemma_binding_order(self.bindings@[a], before[at as int], before[b - 1]);
                    }
                } else if a == at {
                    assert(self.bindings@[b] == before[b - 1]);
                    if b - 1 > at {
                        lemma_binding_order(key, before[at as int], before[b - 1]);
                    }
                } else {
                    assert(self.bindings@[a] == before[a - 1]);
                    assert(self.bindings@[b] == before[b - 1]);
                }
            }
            assert forall|x: (BodyId, FieldId)|
                #[trigger] self.bindings@.contains(x) <==> (before.contains(x) || x == key) by {
                if before.contains(x) {
                    let q = choose|q: int| 0 <= q < before.len() && before[q] == x;
                    if q < at {
                        assert(self.bindings@[q] == x);
                    } else {
                        assert(self.bindings@[q + 1] == x);
                    }
                }
                if self.bindings@.contains(x) {
                    let q = choose|q: int| 0 <= q < self.bindings@.len() && self.bindings@[q] == x;
                    if q < at {
                        assert(before[q] == x);
                    } else if q > at {
                        assert(before[q - 1] == x);
                    }
                }
                if x == key {
                    assert(self.bindings@[at as int] == key);
                }
            }
        }
        Ok(())
    }

    /// The field bindings, ascending.
    pub fn bindings(&self) -> (r: &[(BodyId, FieldId)])
        ensures
            r@ == self.binding_seq(),
    {
        self.bindings.as_slice()
    }

    /// The anchor body of each field, by field index.
    pub fn anchors(&self) -> (r: &[BodyId])
        ensures
            r@ == self.anchor_seq(),
    {
        self.anchors.as_slice()
    }

    /// Whether the body anchors a field, so that despawning it is refused.
    pub fn is_anchor(&self, id: BodyId) -> (r: bool)
        ensures
            r == self.anchor_seq().contains(id),
    {
        let mut k: usize = 0;
        while k < self.anchors.len()
            invariant
                k <= self.anchors@.len(),
                forall|q: int| 0 <= q < k ==> self.anchors@[q] != id,
            decreases self.anchors@.len() - k,
        {
            if self.anchors[k] == id {
                proof {
                    assert(self.anchors@[k as int] == id);
                }
                return true;
            }
            k = k + 1;
        }
        false
    }

    /// A snapshot's field anchors must be this world's, field by field.
    pub fn check_anchors(&self, saved: &[BodyId]) -> (r: Result<(), EditError>)
        ensures
            r is Ok <==> saved@ == self.anchor_seq(),
            r is Err ==> r == Err::<(), EditError>(EditError::FieldMismatch),
    {
        if saved.len() != self.anchors.len() {
            return Err(EditError::FieldMismatch);
        }
        let mut i: usize = 0;
        while i < saved.len()
            invariant
                i <= saved@.len(),
                saved@.len() == self.anchors@.len(),
                forall|q: int| 0 <= q < i ==> saved@[q] == self.anchors@[q],
            decreases saved@.len() - i,
        {
            if saved[i] != self.anchors[i] {
                return Err(EditError::FieldMismatch);
            }
            i = i + 1;
        }
        proof {
            assert(saved@ =~= self.anchors@);
        }
        Ok(())
    }

    /// A snapshot's bindings must ascend strictly, and each must name a field
    /// of this world, a body other than the field's anchor, and a body that
    /// lives in the snapshot's arena.
    pub fn check_bindings<T>(&self, saved_bodies: &BodyArena<T>, saved: &[(BodyId, FieldId)]) -> (r: Result<
        (),
        EditError,
    >)
        requires
            saved_bodies.wf(),
        ensures
            r is Ok <==> saved_bindings_valid(self.anchor_seq(), saved_bodies@.dom(), saved@),
            r is Err ==> r == Err::<(), EditError>(EditError::InvalidFieldBinding),
    {
        let mut i: usize = 1;
        while i < saved.len()
            invariant
                1 <= i,
                saved@.len() == 0 || i <= saved@.len(),
                forall|a: int, b: int|
                    0 <= a < b < i && b < saved@.len() ==> binding_before(#[trigger] saved@[a], #[trigger] saved@[b]),
            decreases saved@.len() - i,
        {
            if !binding_less(saved[i - 1], saved[i]) {
                return Err(EditError::InvalidFieldBinding);
            }
            proof {
                assert forall|a: int, b: int|
                    0 <= a < b < i + 1 && b < saved@.len() implies binding_before(#[trigger] saved@[a], #[trigger] saved@[b]) by {
                    if b == i && a < i - 1 {
                        lemma_binding_order(saved@[a], saved@[i - 1], saved@[b]);
                    }
                }
            }
            i = i + 1;
        }
        let mut k: usize = 0;
        while k < saved.len()
            invariant
                bindings_ascending(saved@),
                k <= saved@.len(),
                saved_bodies.wf(),
                forall|q: int| 0 <= q < k ==> binding_resolves(self.anchor_seq(), saved_bodies@.dom(), #[trigger] saved@[q]),
            decreases saved@.len() - k,
        {
            let (body, field) = saved[k];
            if (field.0 as usize) >= self.anchors.len() {
                return Err(EditError::InvalidFieldBinding);
            }
            if body == self.anchors[field.0 as usize] || saved_bodies.dense_index(body).is_none() {
                return Err(EditError::InvalidFieldBinding);
            }
            k = k + 1;
        }
        Ok(())
    }

    /// Takes a snapshot's bindings in place of the held ones.
    pub fn restore_bindings(&mut self, saved: &[(BodyId, FieldId)])
        requires
            bindings_ascending(saved@),
        ensures
            final(self).wf(),
            final(self).binding_seq() == saved@,
            final(self).anchor_seq() == old(self).anchor_seq(),
    {
        let mut fresh: Vec<(BodyId, FieldId)> = Vec::new();
        let mut k: usize = 0;
        while k < saved.len()
            invariant
                k <= saved@.len(),
                fresh@ == saved@.subrange(0, k as int),
            decreases saved@.len() - k,
        {
            fresh.push(saved[k]);
            k = k + 1;
        }
        proof {
            assert(fresh@ =~= saved@);
        }
        self.bindings = fresh;
    }

    /// Drops every binding of a despawned body, keeping the others in order.
    pub fn unbind_body(&mut self, id: BodyId)
        requires
            old(self).wf(),
        ensures
            final(self).wf(),
            final(self).anchor_seq() == old(self).anchor_seq(),
            final(self).binding_seq() == old(self).binding_seq().filter(
                |b: (BodyId, FieldId)| b.0 != id,
            ),
    {
        let ghost orig = self.bindings@;
        let mut kept: Vec<(BodyId, FieldId)> = Vec::new();
        let mut k: usize = 0;
        while k < self.bindings.len()
            invariant
                self.bindings@ == orig,
                bindings_ascending(orig),
                k <= orig.len(),
                kept@ == orig.take(k as int).filter(|b: (BodyId, FieldId)| b.0 != id),
                bindings_ascending(kept@),
                forall|q: int| 0 <= q < kept@.len() ==> exists|p: int|
                    0 <= p < k && orig[p] == #[trigger] kept@[q],
            decreases orig.len() - k,
        {
            let b = self.bindings[k];
            proof {
                assert(orig.take(k as int + 1).drop_last() =~= orig.take(k as int));
                assert(orig.take(k as int + 1).last() == b);
                reveal_with_fuel(Seq::filter, 1);
            }
            if b.0 != id {
                let ghost prev = kept@;
                kept.push(b);
                proof {
                    assert forall|x: int, y: int| 0 <= x < y < kept@.len() implies binding_before(
                        #[trigger] kept@[x],
                        #[trigger] kept@[y],
                    ) by {
                        if y == kept@.len() - 1 {
                            let p = choose|p: int| 0 <= p < k && orig[p] == prev[x];
                            assert(binding_before(orig[p], orig[k as int]));
                        } else {
                            assert(kept@[x] == prev[x]);
                            assert(kept@[y] == prev[y]);
                        }
                    }
                    assert forall|q: int| 0 <= q < kept@.len() implies exists|p: int|
                        0 <= p < k + 1 && orig[p] == #[trigger] kept@[q] by {
                        if q == kept@.len() - 1 {
                            assert(orig[k as int] == kept@[q]);
                        } else {
                            let p = choose|p: int| 0 <= p < k && orig[p] == prev[q];
                            assert(orig[p] == kept@[q]);
                        }
                    }
                }
            }
            k = k + 1;
        }
        proof {
            assert(orig.take(orig.len() as int) =~= orig);
        }
        self.bindings = kept;
    }
}

/// Removes a body with everything that refers to it: its field bindings, its
/// contacts and its dirty flag. Hands back the body and its dropped contacts,
/// in order, so that its geometry and manifolds can be released. A field's
/// anchor is refused, and so is a stale handle; a refusal changes nothing.
pub fn despawn_body<T>(
    bodies: &mut BodyArena<T>,
    fields: &mut FieldTable,
    dirty: &mut DirtyBodies,
    contacts: &mut Vec<PairKey>,
    id: BodyId,
) -> (r: Result<(T, Vec<PairKey>), EditError>)
    requires
        old(bodies).wf(),
        old(fields).wf(),
        old(dirty).wf(),
    ensures
        final(bodies).wf(),
        final(fields).wf(),
        final(dirty).wf(),
        final(fields).anchor_seq() == old(fields).anchor_seq(),
        old(fields).anchor_seq().contains(id) ==> r == Err::<(T, Vec<PairKey>), EditError>(
            EditError::FieldAnchorRemoval,
        ),
        !old(fields).anchor_seq().contains(id) && !old(bodies)@.contains_key(id) ==> r == Err::<
            (T, Vec<PairKey>),
            EditError,
        >(EditError::StaleHandle),
        !old(fields).anchor_seq().contains(id) && old(bodies)@.contains_key(id) ==> r is Ok,
        r is Err ==> {
            &&& *final(bodies) == *old(bodies)
            &&& *final(fields) == *old(fields)
            &&& *final(dirty) == *old(dirty)
            &&& *final(contacts) == *old(contacts)
        },
        r matches Ok((body, dropped)) ==> {
            &&& !old(fields).anchor_seq().contains(id)
            &&& old(bodies)@.contains_key(id)
            &&& body == old(bodies)@[id]
            &&& final(bodies)@ == old(bodies)@.remove(id)
            &&& final(bodies).stale(id)
            &&& final(fields).binding_seq() == old(fields).binding_seq().filter(
                |b: (BodyId, FieldId)| b.0 != id,
            )
            &&& final(contacts)@ == old(contacts)@.filter(|k: PairKey| !touches(k, id))
            &&& dropped@ == old(contacts)@.filter(|k: PairKey| touches(k, id))
            &&& final(dirty).recorded_ids() == old(dirty).recorded_ids()
            &&& (id.spec_slot() as int) < old(dirty).flags().len() ==> final(dirty).flags() == old(
                dirty,
            ).flags().update(id.spec_slot() as int, false)
            &&& (id.spec_slot() as int) >= old(dirty).flags().len() ==> final(dirty).flags() == old(
                dirty,
            ).flags()
        },
{
    if fields.is_anchor(id) {
        return Err(EditError::FieldAnchorRemoval);
    }
    let body = match bodies.despawn(id) {
        Some(body) => body,
        None => return Err(EditError::StaleHandle),
    };
    fields.unbind_body(id);
    let dropped = drop_contacts_of(contacts, id);
    dirty.forget(id);
    Ok((body, dropped))
}

/// What the contact rules read of one body.
#[derive(Clone, Copy, Debug, PartialEq, Eq, Structural)]
pub struct ContactBody {
    pub kind: ColliderKind,
    /// The body has no mass.
    pub is_static: bool,
    pub group: u32,
    pub mask: u32,
}

/// A contact found this step where none was held wakes both its bodies when
/// one of them sleeps and the other does not, and neither is static.
pub open spec fn new_contact_wakes(
    held: bool,
    a_sleeping: bool,
    b_sleeping: bool,
    a_static: bool,
    b_static: bool,
) -> bool {
    !held && a_sleeping != b_sleeping && !a_static && !b_static
}

/// Whether a contact found this step wakes both its bodies: `held` tells
/// whether a manifold was held for the pair before the step.
pub fn contact_wakes(held: bool, a_sleeping: bool, b_sleeping: bool, a_static: bool, b_static: bool) -> (r: bool)
    ensures
        r == new_contact_wakes(held, a_sleeping, b_sleeping, a_static, b_static),
{
    !held && a_sleeping != b_sleeping && !a_static && !b_static
}

/// Each body's mask admits the other's group.
pub open spec fn filters_admit(a: ContactBody, b: ContactBody) -> bool {
    a.mask & b.group != 0 && b.mask & a.group != 0
}

/// Each body's mask admits the other's group.
pub fn collision_filters_admit(a: ContactBody, b: ContactBody) -> (r: bool)
    ensures
        r == filters_admit(a, b),
{
    a.mask & b.group != 0 && b.mask & a.group != 0
}

/// Filters admit a pair exactly when each body's mask shares a bit with the
/// other's group: a shared bit `k` on each side admits the pair, a mask with
/// no bit of the other's group refuses it, and a body in no group is never
/// admitted.
pub proof fn lemma_filters_share_a_bit(a: ContactBody, b: ContactBody, k: u32, j: u32)
    ensures
        k < 32 && (a.mask >> k) & 1 == 1 && (b.group >> k) & 1 == 1 && j < 32 && (b.mask >> j) & 1 == 1 && (
        a.group >> j) & 1 == 1 ==> filters_admit(a, b),
        a.mask & b.group == 0 ==> !filters_admit(a, b),
        b.mask & a.group == 0 ==> !filters_admit(a, b),
        a.group == 0 ==> !filters_admit(a, b),
        b.group == 0 ==> !filters_admit(a, b),
        filters_admit(a, b) == filters_admit(b, a),
{
    let am = a.mask;
    let ag = a.group;
    let bm = b.mask;
    let bg = b.group;
    assert(k < 32 && (am >> k) & 1 == 1 && (bg >> k) & 1 == 1 ==> am & bg != 0) by (bit_vector);
    assert(j < 32 && (bm >> j) & 1 == 1 && (ag >> j) & 1 == 1 ==> bm & ag != 0) by (bit_vector);
    assert(ag == 0 ==> bm & ag == 0) by (bit_vector);
    assert(bg == 0 ==> am & bg == 0) by (bit_vector);
    assert(am & bg == bg & am && bm & ag == ag & bm) by (bit_vector);
}

/// A contact handler is registered for the two kinds, in either order.
pub open spec fn kinds_registered(registrations: Seq<KindPair>, a: ColliderKind, b: ColliderKind) -> bool {
    registrations.contains((a, b)) || registrations.contains((b, a))
}

/// Two bodies may hold a contact of their own: a handler serves their kinds,
/// one of them has mass, and their filters admit each other.
pub open spec fn body_contact_allowed(registrations: Seq<KindPair>, a: ContactBody, b: ContactBody) -> bool {
    &&& kinds_registered(registrations, a.kind, b.kind)
    &&& !(a.is_static && b.is_static)
    &&& filters_admit(a, b)
}

/// A binding makes `key` a field contact: it binds one of the key's bodies
/// to a field anchored at the other, and that body's kind has a field handler.
pub open spec fn binding_makes_contact(
    anchors: Seq<BodyId>,
    field_kinds: Seq<ColliderKind>,
    key: PairKey,
    a: ContactBody,
    b: ContactBody,
    binding: (BodyId, FieldId),
) -> bool {
    &&& spec_canonical_pair(binding.0, anchors[binding.1.0 as int]) == key
    &&& field_kinds.contains(if binding.0 == key.0 { a.kind } else { b.kind })
}

/// Some binding makes `key` a field contact.
pub open spec fn field_contact_allowed(
    anchors: Seq<BodyId>,
    bindings: Seq<(BodyId, FieldId)>,
    field_kinds: Seq<ColliderKind>,
    key: PairKey,
    a: ContactBody,
    b: ContactBody,
) -> bool {
    exists|q: int| 0 <= q < bindings.len() && binding_makes_contact(anchors, field_kinds, key, a, b, #[trigger] bindings[q])
}

/// What a snapshot's contact must satisfy, apart from its geometry: both
/// bodies live, the key in handle order, the contact naming the key's
/// bodies, and a reason for the two to touch.
pub open spec fn saved_contact_admissible(
    anchors: Seq<BodyId>,
    bindings: Seq<(BodyId, FieldId)>,
    registrations: Seq<KindPair>,
    field_kinds: Seq<ColliderKind>,
    key: PairKey,
    contact_bodies: PairKey,
    a: Option<ContactBody>,
    b: Option<ContactBody>,
) -> bool {
    &&& a is Some
    &&& b is Some
    &&& key.0.precedes(key.1)
    &&& contact_bodies == key
    &&& (field_contact_allowed(anchors, bindings, field_kinds, key, a.unwrap(), b.unwrap())
        || body_contact_allowed(registrations, a.unwrap(), b.unwrap()))
}

fn holds_pair(pairs: &[KindPair], a: ColliderKind, b: ColliderKind) -> (r: bool)
    ensures
        r == pairs@.contains((a, b)),
{
    let mut i: usize = 0;
    while i < pairs.len()
        invariant
            i <= pairs@.len(),
            forall|q: int| 0 <= q < i ==> pairs@[q] != (a, b),
        decreases pairs@.len() - i,
    {
        let (x, y) = pairs[i];
        if x == a && y == b {
            proof {
                assert(pairs@[i as int] == (a, b));
            }
            return true;
        }
        i = i + 1;
    }
    false
}

/// Refuses a snapshot's contact that no rule of the world allows: `a` and `b`
/// are what the snapshot's arena holds for the key's two bodies, `None` for a
/// body it does not hold. The bindings are the snapshot's, already checked to
/// name fields of this world.
pub fn check_saved_contact(
    anchors: &[BodyId],
    bindings: &[(BodyId, FieldId)],
    registrations: &[KindPair],
    field_kinds: &[ColliderKind],
    key: PairKey,
    contact_bodies: PairKey,
    a: Option<ContactBody>,
    b: Option<ContactBody>,
) -> (r: Result<(), EditError>)
    requires
        forall|q: int| 0 <= q < bindings@.len() ==> (#[trigger] bindings@[q]).1.0 < anchors@.len(),
    ensures
        r is Ok <==> saved_contact_admissible(
            anchors@,
            bindings@,
            registrations@,
            field_kinds@,
            key,
            contact_bodies,
            a,
            b,
        ),
        r is Err ==> r == Err::<(), EditError>(EditError::InvalidManifold),
{
    let (body_a, body_b) = match (a, b) {
        (Some(x), Some(y)) => (x, y),
        _ => return Err(EditError::InvalidManifold),
    };
    if !key.0.less_than(key.1) || contact_bodies.0 != key.0 || contact_bodies.1 != key.1 {
        return Err(EditError::InvalidManifold);
    }
    let mut field_pair = false;
    let mut q: usize = 0;
    while q < bindings.len()
        invariant
            q <= bindings@.len(),
            forall|k: int| 0 <= k < bindings@.len() ==> (#[trigger] bindings@[k]).1.0 < anchors@.len(),
            field_pair <==> exists|k: int|
                0 <= k < q && binding_makes_contact(anchors@, field_kinds@, key, body_a, body_b, #[trigger] bindings@[k]),
        decreases bindings@.len() - q,
    {
        let (body, field) = bindings[q];
        let anchor = anchors[field.0 as usize];
        let pair = if body.less_than(anchor) {
            (body, anchor)
        } else {
            (anchor, body)
        };
        let kind = if body == key.0 {
            body_a.kind
        } else {
            body_b.kind
        };
        if pair.0 == key.0 && pair.1 == key.1 && holds_kind(field_kinds, kind) {
            field_pair = true;
        }
        proof {
            assert(binding_makes_contact(anchors@, field_kinds@, key, body_a, body_b, bindings@[q as int])
                == (pair == key && field_kinds@.contains(kind)));
        }
        q = q + 1;
    }
    let registered = holds_pair(registrations, body_a.kind, body_b.kind) || holds_pair(
        registrations,
        body_b.kind,
        body_a.kind,
    );
    let body_pair = registered && !(body_a.is_static && body_b.is_static)
        && collision_filters_admit(body_a, body_b);
    if !field_pair && !body_pair {
        return Err(EditError::InvalidManifold);
    }
    Ok(())
}

/// What a snapshot holds of one of its contacts: its key, the two bodies the
/// contact names, what the snapshot's arena holds for the key's two bodies
/// (`None` for a body it does not hold), and whether the contact's geometry
/// passed the numeric checks.
#[derive(Clone, Copy, Debug, PartialEq, Eq)]
pub struct SavedContact {
    pub key: PairKey,
    pub bodies: PairKey,
    pub a: Option<ContactBody>,
    pub b: Option<ContactBody>,
    pub geometry_valid: bool,
}

/// The outcomes of the restore checks that compute on numbers: the world's
/// gravity and solver tolerance, the snapshot's time, and its bodies and
/// geometry (`Ok`, or the refusal of that check).
#[derive(Clone, Copy, Debug, PartialEq, Eq)]
pub struct NumericChecks {
    pub gravity_valid: bool,
    pub tolerance_valid: bool,
    pub time_valid: bool,
    pub bodies: Result<(), EditError>,
}

/// What the caller hands in of the snapshot's bodies is what its arena holds:
/// one entry per field anchor, and each summary present exactly for a body
/// the arena holds.
pub open spec fn summaries_match<T>(
    saved_bodies: &BodyArena<T>,
    saved_anchors: Seq<BodyId>,
    anchor_bodies: Seq<Option<ContactBody>>,
    contacts: Seq<SavedContact>,
) -> bool {
    &&& anchor_bodies.len() == saved_anchors.len()
    &&& forall|q: int|
        0 <= q < anchor_bodies.len() ==> ((#[trigger] anchor_bodies[q]) is Some <==> saved_bodies@.contains_key(
            saved_anchors[q],
        ))
    &&& forall|q: int|
        0 <= q < contacts.len() ==> {
            &&& ((#[trigger] contacts[q]).a is Some <==> saved_bodies@.contains_key(contacts[q].key.0))
            &&& (contacts[q].b is Some <==> saved_bodies@.contains_key(contacts[q].key.1))
        }
}

/// A field's anchor as a snapshot must hold it: a static body outside every
/// collision group.
pub open spec fn anchor_body_valid(b: Option<ContactBody>) -> bool {
    b matches Some(x) && x.is_static && x.group == 0 && x.mask == 0
}

/// Refuses a snapshot whose field anchors are not all static bodies outside
/// every collision group: `anchor_bodies` holds, field by field, what the
/// snapshot's arena holds for the field's anchor.
pub fn check_anchor_bodies(anchor_bodies: &[Option<ContactBody>]) -> (r: Result<(), EditError>)
    ensures
        r is Ok <==> forall|q: int| 0 <= q < anchor_bodies@.len() ==> anchor_body_valid(#[trigger] anchor_bodies@[q]),
        r is Err ==> r == Err::<(), EditError>(EditError::InvalidFieldBinding),
{
    let mut i: usize = 0;
    while i < anchor_bodies.len()
        invariant
            i <= anchor_bodies@.len(),
            forall|q: int| 0 <= q < i ==> anchor_body_valid(#[trigger] anchor_bodies@[q]),
        decreases anchor_bodies@.len() - i,
    {
        let valid = match anchor_bodies[i] {
            Some(x) => x.is_static && x.group == 0 && x.mask == 0,
            None => false,
        };
        if !valid {
            return Err(EditError::InvalidFieldBinding);
        }
        i = i + 1;
    }
    Ok(())
}

/// Every field anchor is a body the snapshot holds, static and outside every
/// collision group.
pub open spec fn saved_anchors_valid(
    live: Set<BodyId>,
    saved_anchors: Seq<BodyId>,
    anchor_bodies: Seq<Option<ContactBody>>,
) -> bool {
    forall|q: int|
        0 <= q < anchor_bodies.len() ==> anchor_body_valid(#[trigger] anchor_bodies[q]) && live.contains(
            saved_anchors[q],
        )
}

/// A snapshot's contact that the world can take: both its bodies are held by
/// the snapshot, it is admissible, and its geometry is valid.
pub open spec fn saved_contact_valid(
    live: Set<BodyId>,
    anchors: Seq<BodyId>,
    bindings: Seq<(BodyId, FieldId)>,
    registrations: Seq<KindPair>,
    field_kinds: Seq<ColliderKind>,
    c: SavedContact,
) -> bool {
    &&& live.contains(c.key.0)
    &&& live.contains(c.key.1)
    &&& saved_contact_admissible(anchors, bindings, registrations, field_kinds, c.key, c.bodies, c.a, c.b)
    &&& c.geometry_valid
}

/// The first refusal of a restore, checked in this order: the world's
/// gravity, then its solver tolerance, the narrowphase registrations, the
/// field anchors, the snapshot's time, its bodies and geometry, the anchors'
/// bodies, the field bindings, then the contacts.
pub open spec fn restore_refusal(
    numeric: NumericChecks,
    pairs: Seq<KindPair>,
    field_kinds: Seq<ColliderKind>,
    saved_pairs: Seq<KindPair>,
    saved_field_kinds: Seq<ColliderKind>,
    anchors: Seq<BodyId>,
    saved_anchors: Seq<BodyId>,
    anchor_bodies: Seq<Option<ContactBody>>,
    live: Set<BodyId>,
    saved_bindings: Seq<(BodyId, FieldId)>,
    contacts: Seq<SavedContact>,
) -> Option<EditError> {
    if !numeric.gravity_valid {
        Some(EditError::InvalidGravity)
    } else if !numeric.tolerance_valid {
        Some(EditError::InvalidSolverTolerance)
    } else if !registrations_fit(pairs, field_kinds, saved_pairs, saved_field_kinds) {
        Some(EditError::RegistrationMismatch)
    } else if saved_anchors != anchors {
        Some(EditError::FieldMismatch)
    } else if !numeric.time_valid {
        Some(EditError::InvalidTime)
    } else {
        match numeric.bodies {
            Err(e) => Some(e),
            Ok(_) => if !saved_anchors_valid(live, saved_anchors, anchor_bodies) {
                Some(EditError::InvalidFieldBinding)
            } else if !saved_bindings_valid(anchors, live, saved_bindings) {
                Some(EditError::InvalidFieldBinding)
            } else if !(forall|q: int| 0 <= q < contacts.len() ==> saved_contact_valid(
                live,
                anchors,
                saved_bindings,
                pairs,
                saved_field_kinds,
                #[trigger] contacts[q],
            )) {
                Some(EditError::InvalidManifold)
            } else {
                None
            },
        }
    }
}

/// Checks a snapshot against the world before anything of it is taken, and
/// refuses it with the first failing check of `restore_refusal`. The checks
/// that compute on numbers are made by the caller and handed in as `numeric`
/// and as each contact's `geometry_valid`; the summaries of the snapshot's
/// bodies are what its arena holds.
pub fn check_restore<T>(
    numeric: NumericChecks,
    registrations: &[KindPair],
    field_kinds: &[ColliderKind],
    saved_registrations: &[KindPair],
    saved_field_kinds: &[ColliderKind],
    fields: &FieldTable,
    saved_anchors: &[BodyId],
    anchor_bodies: &[Option<ContactBody>],
    saved_bodies: &BodyArena<T>,
    saved_bindings: &[(BodyId, FieldId)],
    contacts: &[SavedContact],
) -> (r: Result<(), EditError>)
    requires
        saved_bodies.wf(),
        summaries_match(saved_bodies, saved_anchors@, anchor_bodies@, contacts@),
    ensures
        match restore_refusal(
            numeric,
            registrations@,
            field_kinds@,
            saved_registrations@,
            saved_field_kinds@,
            fields.anchor_seq(),
            saved_anchors@,
            anchor_bodies@,
            saved_bodies@.dom(),
            saved_bindings@,
            contacts@,
        ) {
            Some(e) => r == Err::<(), EditError>(e),
            None => r is Ok,
        },
{
    if !numeric.gravity_valid {
        return Err(EditError::InvalidGravity);
    }
    if !numeric.tolerance_valid {
        return Err(EditError::InvalidSolverTolerance);
    }
    match check_registrations(registrations, field_kinds, saved_registrations, saved_field_kinds) {
        Err(e) => return Err(e),
        Ok(_) => {},
    }
    match fields.check_anchors(saved_anchors) {
        Err(e) => return Err(e),
        Ok(_) => {},
    }
    if !numeric.time_valid {
        return Err(EditError::InvalidTime);
    }
    match numeric.bodies {
        Err(e) => return Err(e),
        Ok(_) => {},
    }
    match check_anchor_bodies(anchor_bodies) {
        Err(e) => return Err(e),
        Ok(_) => {},
    }
    proof {
        assert forall|q: int| 0 <= q < anchor_bodies@.len() implies anchor_body_valid(#[trigger] anchor_bodies@[q])
            && saved_bodies@.dom().contains(saved_anchors@[q]) by {
            assert(anchor_body_valid(anchor_bodies@[q]));
        }
    }
    match fields.check_bindings(saved_bodies, saved_bindings) {
        Err(e) => return Err(e),
        Ok(_) => {},
    }
    let anchors = fields.anchors();
    let mut i: usize = 0;
    while i < contacts.len()
        invariant
            i <= contacts@.len(),
            anchors@ == fields.anchor_seq(),
            numeric.gravity_valid,
            numeric.tolerance_valid,
            numeric.time_valid,
            numeric.bodies is Ok,
            registrations_fit(registrations@, field_kinds@, saved_registrations@, saved_field_kinds@),
            saved_anchors@ == fields.anchor_seq(),
            saved_anchors_valid(saved_bodies@.dom(), saved_anchors@, anchor_bodies@),
            saved_bindings_valid(fields.anchor_seq(), saved_bodies@.dom(), saved_bindings@),
            summaries_match(saved_bodies, saved_anchors@, anchor_bodies@, contacts@),
            forall|q: int| 0 <= q < i ==> saved_contact_valid(
                saved_bodies@.dom(),
                fields.anchor_seq(),
                saved_bindings@,
                registrations@,
                saved_field_kinds@,
                #[trigger] contacts@[q],
            ),
        decreases contacts@.len() - i,
    {
        let c = contacts[i];
        proof {
            assert forall|q: int| 0 <= q < saved_bindings@.len() implies (#[trigger] saved_bindings@[q]).1.0
                < anchors@.len() by {
                assert(binding_resolves(fields.anchor_seq(), saved_bodies@.dom(), saved_bindings@[q]));
            }
            assert(c == contacts@[i as int]);
        }
        let admitted = check_saved_contact(
            anchors,
            saved_bindings,
            registrations,
            saved_field_kinds,
            c.key,
            c.bodies,
            c.a,
            c.b,
        );
        if admitted.is_err() || !c.geometry_valid {
            proof {
                assert(!saved_contact_valid(
                    saved_bodies@.dom(),
                    fields.anchor_seq(),
                    saved_bindings@,
                    registrations@,
                    saved_field_kinds@,
                    contacts@[i as int],
                ));
            }
            return Err(EditError::InvalidManifold);
        }
        i = i + 1;
    }
    Ok(())
}

/// The refusals of the check of a snapshot's bodies and geometry: none that
/// another check of a restore gives.
pub open spec fn arena_refusal(e: EditError) -> bool {
    !(e is InvalidGravity || e is InvalidSolverTolerance || e is RegistrationMismatch || e is FieldMismatch
        || e is InvalidTime)
}

/// With valid world settings, a restore is refused for its registrations
/// exactly when the snapshot's registrations do not fit the world's.
pub proof fn lemma_restore_refused_for_registrations(
    numeric: NumericChecks,
    pairs: Seq<KindPair>,
    field_kinds: Seq<ColliderKind>,
    saved_pairs: Seq<KindPair>,
    saved_field_kinds: Seq<ColliderKind>,
    anchors: Seq<BodyId>,
    saved_anchors: Seq<BodyId>,
    anchor_bodies: Seq<Option<ContactBody>>,
    live: Set<BodyId>,
    saved_bindings: Seq<(BodyId, FieldId)>,
    contacts: Seq<SavedContact>,
)
    requires
        numeric.gravity_valid,
        numeric.tolerance_valid,
        numeric.bodies matches Err(e) ==> arena_refusal(e),
    ensures
        restore_refusal(
            numeric,
            pairs,
            field_kinds,
            saved_pairs,
            saved_field_kinds,
            anchors,
            saved_anchors,
            anchor_bodies,
            live,
            saved_bindings,
            contacts,
        ) == Some(EditError::RegistrationMismatch) <==> !registrations_fit(
            pairs,
            field_kinds,
            saved_pairs,
            saved_field_kinds,
        ),
{
}

/// With valid world settings and fitting registrations, a restore is refused
/// for its fields exactly when the snapshot's field anchors, in field order,
/// are not the world's.
pub proof fn lemma_restore_refused_for_fields(
    numeric: NumericChecks,
    pairs: Seq<KindPair>,
    field_kinds: Seq<ColliderKind>,
    saved_pairs: Seq<KindPair>,
    saved_field_kinds: Seq<ColliderKind>,
    anchors: Seq<BodyId>,
    saved_anchors: Seq<BodyId>,
    anchor_bodies: Seq<Option<ContactBody>>,
    live: Set<BodyId>,
    saved_bindings: Seq<(BodyId, FieldId)>,
    contacts: Seq<SavedContact>,
)
    requires
        numeric.gravity_valid,
        numeric.tolerance_valid,
        numeric.bodies matches Err(e) ==> arena_refusal(e),
        registrations_fit(pairs, field_kinds, saved_pairs, saved_field_kinds),
    ensures
        restore_refusal(
            numeric,
            pairs,
            field_kinds,
            saved_pairs,
            saved_field_kinds,
            anchors,
            saved_anchors,
            anchor_bodies,
            live,
            saved_bindings,
            contacts,
        ) == Some(EditError::FieldMismatch) <==> saved_anchors != anchors,
{
}

/// Restores a snapshot's field bindings once `check_restore` admits the
/// snapshot; a refused snapshot leaves the fields unchanged.
pub fn restore_fields<T>(
    fields: &mut FieldTable,
    numeric: NumericChecks,
    registrations: &[KindPair],
    field_kinds: &[ColliderKind],
    saved_registrations: &[KindPair],
    saved_field_kinds: &[ColliderKind],
    saved_anchors: &[BodyId],
    anchor_bodies: &[Option<ContactBody>],
    saved_bodies: &BodyArena<T>,
    saved_bindings: &[(BodyId, FieldId)],
    contacts: &[SavedContact],
) -> (r: Result<(), EditError>)
    requires
        old(fields).wf(),
        saved_bodies.wf(),
        summaries_match(saved_bodies, saved_anchors@, anchor_bodies@, contacts@),
    ensures
        final(fields).wf(),
        final(fields).anchor_seq() == old(fields).anchor_seq(),
        match restore_refusal(
            numeric,
            registrations@,
            field_kinds@,
            saved_registrations@,
            saved_field_kinds@,
            old(fields).anchor_seq(),
            saved_anchors@,
            anchor_bodies@,
            saved_bodies@.dom(),
            saved_bindings@,
            contacts@,
        ) {
            Some(e) => r == Err::<(), EditError>(e) && *final(fields) == *old(fields),
            None => r is Ok && final(fields).binding_seq() == saved_bindings@,
        },
{
    match check_restore(
        numeric,
        registrations,
        field_kinds,
        saved_registrations,
        saved_field_kinds,
        fields,
        saved_anchors,
        anchor_bodies,
        saved_bodies,
        saved_bindings,
        contacts,
    ) {
        Err(e) => Err(e),
        Ok(_) => {
            fields.restore_bindings(saved_bindings);
            Ok(())
        },
    }
}

/// One contact of the solve: the island it is solved in, its key, and the
/// dense positions of its two bodies.
#[derive(Clone, Copy, Debug, PartialEq, Eq)]
pub struct ConstraintUnit {
    pub island: BodyId,
    pub key: PairKey,
    pub dense: (usize, usize),
}

/// The lowest handle of the component of dense position `d` in the graph of
/// the contacts `touched` between dynamic bodies.
pub open spec fn component_label<T>(bodies: &BodyArena<T>, dynamic: Seq<bool>, touched: Seq<PairKey>, d: int) -> BodyId {
    choose|l: BodyId| is_component_label(bodies.ids(), dynamic, dense_pairs(bodies, touched), d, l)
}

/// The unit of contact `key`: solved in the island of its first body if that
/// body is dynamic, else in the island of its second.
pub open spec fn constraint_unit<T>(
    bodies: &BodyArena<T>,
    dynamic: Seq<bool>,
    touched: Seq<PairKey>,
    key: PairKey,
) -> ConstraintUnit {
    let i = bodies.position(key.0);
    let j = bodies.position(key.1);
    ConstraintUnit {
        island: component_label(bodies, dynamic, touched, if dynamic[i] { i } else { j }),
        key,
        dense: (i as usize, j as usize),
    }
}

/// Solve order: by island, then by key.
pub open spec fn unit_before(x: ConstraintUnit, y: ConstraintUnit) -> bool {
    ||| x.island.precedes(y.island)
    ||| x.island == y.island && x.key.0.precedes(y.key.0)
    ||| x.island == y.island && x.key.0 == y.key.0 && x.key.1.precedes(y.key.1)
}

/// No unit comes after a later one.
pub open spec fn units_ordered(s: Seq<ConstraintUnit>) -> bool {
    forall|a: int, b: int| 0 <= a < b < s.len() ==> !unit_before(#[trigger] s[b], #[trigger] s[a])
}

proof fn lemma_unit_order(x: ConstraintUnit, y: ConstraintUnit, z: ConstraintUnit)
    ensures
        !(unit_before(x, y) && unit_before(y, x)),
        unit_before(x, y) && unit_before(y, z) ==> unit_before(x, z),
{
    crate::body::lemma_handle_order_total(x.island, y.island);
    crate::body::lemma_handle_order_total(x.key.0, y.key.0);
    crate::body::lemma_handle_order_total(x.key.1, y.key.1);
    if unit_before(x, y) && unit_before(y, z) {
        crate::body::lemma_handle_order_total(y.island, z.island);
        crate::body::lemma_handle_order_total(x.island, z.island);
        if x.island.precedes(y.island) && y.island.precedes(z.island) {
            crate::body::lemma_handle_order_transitive(x.island, y.island, z.island);
        }
        if x.key.0.precedes(y.key.0) && y.key.0.precedes(z.key.0) {
            crate::body::lemma_handle_order_transitive(x.key.0, y.key.0, z.key.0);
        }
        if x.key.1.precedes(y.key.1) && y.key.1.precedes(z.key.1) {
            crate::body::lemma_handle_order_transitive(x.key.1, y.key.1, z.key.1);
        }
    }
}

fn unit_less(x: ConstraintUnit, y: ConstraintUnit) -> (r: bool)
    ensures
        r == unit_before(x, y),
{
    x.island.less_than(y.island) || (x.island == y.island && x.key.0.less_than(y.key.0)) || (x.island
        == y.island && x.key.0 == y.key.0 && x.key.1.less_than(y.key.1))
}

/// The solve's units for the contacts `order`: each contact's unit, sorted
/// by island and then by key. `labels` is left holding each dense position's
/// island, as `fill_islands` leaves it.
#[verifier::spinoff_prover]
pub fn collect_constraints<T>(
    bodies: &BodyArena<T>,
    dynamic: &[bool],
    order: &[PairKey],
    parent: &mut Vec<u32>,
    labels: &mut Vec<BodyId>,
) -> (r: Vec<ConstraintUnit>)
    requires
        bodies.wf(),
        dynamic@.len() == bodies.ids().len(),
        forall|k: int| 0 <= k < order@.len() ==> bodies@.contains_key(#[trigger] order@[k].0)
            && bodies@.contains_key(order@[k].1),
    ensures
        final(labels)@.len() == bodies.ids().len(),
        forall|d: int|
            0 <= d < bodies.ids().len() ==> #[trigger] final(labels)@[d] == component_label(
                bodies,
                dynamic@,
                order@,
                d,
            ),
        r@.len() == order@.len(),
        units_ordered(r@),
        r@.to_multiset() == order@.map_values(|k: PairKey| constraint_unit(bodies, dynamic@, order@, k)).to_multiset(),
        forall|q: int|
            0 <= q < r@.len() ==> (#[trigger] r@[q]).dense.0 < bodies.ids().len() && r@[q].dense.1
                < bodies.ids().len() && (r@[q].key.0 != r@[q].key.1 ==> r@[q].dense.0 != r@[q].dense.1),
{
    assert(forall|k: int| 0 <= k < order@.len() ==> bodies@.contains_key(#[trigger] order@[k].0)
        && bodies@.contains_key(order@[k].1));
    fill_islands(bodies, dynamic, order, parent, labels);
    let ghost f = |k: PairKey| constraint_unit(bodies, dynamic@, order@, k);
    proof {
        assert forall|d: int| 0 <= d < bodies.ids().len() implies #[trigger] labels@[d] == component_label(
            bodies,
            dynamic@,
            order@,
            d,
        ) by {
            let pairs = dense_pairs(bodies, order@);
            assert(is_component_label(bodies.ids(), dynamic@, pairs, d, labels@[d]));
            let c = component_label(bodies, dynamic@, order@, d);
            assert(is_component_label(bodies.ids(), dynamic@, pairs, d, c));
            lemma_label_unique(bodies.ids(), dynamic@, pairs, d, labels@[d], c);
        }
    }
    let mut units: Vec<ConstraintUnit> = Vec::new();
    let mut k: usize = 0;
    proof {
        assert(order@.take(0).map_values(f) =~= units@);
    }
    while k < order.len()
        invariant
            bodies.wf(),
            dynamic@.len() == bodies.ids().len(),
            forall|q: int| 0 <= q < order@.len() ==> bodies@.contains_key(#[trigger] order@[q].0)
                && bodies@.contains_key(order@[q].1),
            labels@.len() == bodies.ids().len(),
            forall|d: int|
                0 <= d < bodies.ids().len() ==> #[trigger] labels@[d] == component_label(
                    bodies,
                    dynamic@,
                    order@,
                    d,
                ),
            f == (|key: PairKey| constraint_unit(bodies, dynamic@, order@, key)),
            k <= order@.len(),
            units@.len() == k,
            units_ordered(units@),
            units@.to_multiset() == order@.take(k as int).map_values(f).to_multiset(),
            forall|q: int|
                0 <= q < units@.len() ==> (#[trigger] units@[q]).dense.0 < bodies.ids().len()
                    && units@[q].dense.1 < bodies.ids().len() && (units@[q].key.0 != units@[q].key.1
                    ==> units@[q].dense.0 != units@[q].dense.1),
        decreases order@.len() - k,
    {
        let key = order[k];
        let i = match bodies.dense_index(key.0) {
            Some(d) => d,
            None => {
                proof {
                    assert(bodies@.contains_key(order@[k as int].0));
                }
                0
            },
        };
        let j = match bodies.dense_index(key.1) {
            Some(d) => d,
            None => {
                proof {
                    assert(bodies@.contains_key(order@[k as int].1));
                }
                0
            },
        };
        proof {
            crate::body::lemma_handles_distinct_positions(bodies, key.0, i as int);
            crate::body::lemma_handles_distinct_positions(bodies, key.1, j as int);
        }
        let island = if dynamic[i] {
            labels[i]
        } else {
            labels[j]
        };
        let unit = ConstraintUnit { island, key, dense: (i, j) };
        assert(unit == f(key));
        let mut p: usize = 0;
        while p < units.len() && !unit_less(unit, units[p])
            invariant
                p <= units@.len(),
                forall|q: int| 0 <= q < p ==> !unit_before(unit, #[trigger] units@[q]),
            decreases units@.len() - p,
        {
            p = p + 1;
        }
        let ghost before = units@;
        units.insert(p, unit);
        proof {
            assert(units@ == before.insert(p as int, unit));
            vstd::seq_lib::to_multiset_insert(before, p as int, unit);
            assert(order@.take(k as int + 1) =~= order@.take(k as int).push(key));
            assert(order@.take(k as int + 1).map_values(f) =~= order@.take(k as int).map_values(f).push(
                f(key),
            ));
            vstd::seq_lib::to_multiset_build(order@.take(k as int).map_values(f), f(key));
            assert forall|a: int, b: int| 0 <= a < b < units@.len() implies !unit_before(
                #[trigger] units@[b],
                #[trigger] units@[a],
            ) by {
                if a < p && b == p {
                } else if a < p && b > p {
                    assert(units@[b] == before[b - 1]);
                } else if a == p && b > p {
                    assert(units@[b] == before[b - 1]);
                    assert(unit_before(unit, before[p as int]));
                    if b - 1 > p {
                        assert(!unit_before(before[b - 1], before[p as int]));
                    }
                    lemma_unit_order(before[b - 1], unit, before[p as int]);
                } else if a > p {
                    assert(units@[a] == before[a - 1]);
                    assert(units@[b] == before[b - 1]);
                }
            }
        }
        k = k + 1;
    }
    proof {
        assert(order@.take(order@.len() as int) =~= order@);
    }
    units
}

/// The solve runs island by island: a unit between two units of one island
/// belongs to that island.
pub proof fn lemma_units_run_island_by_island(s: Seq<ConstraintUnit>, a: int, b: int, c: int)
    requires
        units_ordered(s),
        0 <= a < b < c < s.len(),
        s[a].island == s[c].island,
    ensures
        s[b].island == s[a].island,
{
    assert(!unit_before(s[b], s[a]));
    assert(!unit_before(s[c], s[b]));
    crate::body::lemma_handle_order_total(s[a].island, s[b].island);
}

/// Within one island the units come in ascending key order.
pub proof fn lemma_island_units_ascend_by_key(s: Seq<ConstraintUnit>, a: int, b: int)
    requires
        units_ordered(s),
        0 <= a < b < s.len(),
        s[a].island == s[b].island,
    ensures
        s[a].key == s[b].key || s[a].key.0.precedes(s[b].key.0) || (s[a].key.0 == s[b].key.0
            && s[a].key.1.precedes(s[b].key.1)),
{
    assert(!unit_before(s[b], s[a]));
    crate::body::lemma_handle_order_total(s[a].key.0, s[b].key.0);
    crate::body::lemma_handle_order_total(s[a].key.1, s[b].key.1);
}

} // verus!
