use vstd::prelude::*;

use crate::world::{ConstraintUnit, PairKey};

verus! {

/// Marks a gathered copy that is not written back: a body without mass.
pub const SCATTERED_NOWHERE: u32 = 0xffff_ffff;

/// The most points a contact manifold holds.
pub const MAX_POINTS: usize = 4;

/// One contact of an island's solve: its key, the island-local positions of
/// its two bodies, and where its points sit in the island's points.
#[derive(Clone, Copy, Debug, PartialEq, Eq)]
pub struct ScratchUnit {
    pub key: PairKey,
    pub a: u32,
    pub b: u32,
    pub first: u32,
    pub count: u32,
}

/// An island's share of the solve: copies of its bodies, where each copy is
/// written back, its contacts, and copies of their points.
pub struct IslandSolve<B, P> {
    pub bodies: Vec<B>,
    pub dense: Vec<u32>,
    pub units: Vec<ScratchUnit>,
    pub points: Vec<P>,
}

/// Where a body's copy is written back: its dense position if it has mass.
pub open spec fn write_back(dynamic: Seq<bool>, d: int) -> u32 {
    if dynamic[d] {
        d as u32
    } else {
        SCATTERED_NOWHERE
    }
}

/// Island-local position `k` holds a copy of dense body `d`.
pub open spec fn holds_copy<B, P>(isl: IslandSolve<B, P>, bodies: Seq<B>, dynamic: Seq<bool>, k: int, d: int) -> bool {
    &&& 0 <= k < isl.bodies@.len()
    &&& isl.bodies@[k] == bodies[d]
    &&& isl.dense@[k] == write_back(dynamic, d)
}

/// The island's contact `su` is the gathered form of `u` with points `pts`.
pub open spec fn unit_gathered<B, P>(
    isl: IslandSolve<B, P>,
    su: ScratchUnit,
    u: ConstraintUnit,
    bodies: Seq<B>,
    dynamic: Seq<bool>,
    pts: Seq<P>,
) -> bool {
    &&& su.key == u.key
    &&& su.a != su.b
    &&& holds_copy(isl, bodies, dynamic, su.a as int, u.dense.0 as int)
    &&& holds_copy(isl, bodies, dynamic, su.b as int, u.dense.1 as int)
    &&& su.count == pts.len()
    &&& su.first + su.count <= isl.points@.len()
    &&& isl.points@.subrange(su.first as int, su.first + su.count) == pts
}

/// Within an island, a body written back is written back from one copy, and
/// every copy written back is a copy of the body it is written to.
pub open spec fn copies_sound<B, P>(isl: IslandSolve<B, P>, bodies: Seq<B>) -> bool {
    &&& isl.bodies@.len() == isl.dense@.len()
    &&& forall|k: int|
        0 <= k < isl.dense@.len() && #[trigger] isl.dense@[k] != SCATTERED_NOWHERE ==> isl.dense@[k]
            < bodies.len() && isl.bodies@[k] == bodies[isl.dense@[k] as int]
    &&& forall|k1: int, k2: int|
        0 <= k1 < k2 < isl.dense@.len() && #[trigger] isl.dense@[k1] != SCATTERED_NOWHERE ==> isl.dense@[k1]
            != #[trigger] isl.dense@[k2]
}

/// `local` names, for each body written back from the island, its copy.
pub open spec fn local_agrees<B, P>(local: Seq<u32>, isl: IslandSolve<B, P>) -> bool {
    &&& forall|e: int|
        0 <= e < local.len() && #[trigger] local[e] != SCATTERED_NOWHERE ==> local[e] < isl.dense@.len()
            && isl.dense@[local[e] as int] == e
    &&& forall|k: int|
        0 <= k < isl.dense@.len() && #[trigger] isl.dense@[k] != SCATTERED_NOWHERE ==> isl.dense@[k]
            < local.len() && local[isl.dense@[k] as int] == k
}

/// The number of contacts in the islands before island `s`.
pub open spec fn run_start<B, P>(islands: Seq<IslandSolve<B, P>>, s: int) -> int
    decreases s,
{
    if s <= 0 {
        0
    } else {
        run_start(islands, s - 1) + islands[s - 1].units@.len()
    }
}

/// Contact `t` of island `s` is the gathered form of its contact in `units`,
/// which is of the island's first contact's island.
pub open spec fn island_unit_gathered<B, P>(
    islands: Seq<IslandSolve<B, P>>,
    units: Seq<ConstraintUnit>,
    bodies: Seq<B>,
    dynamic: Seq<bool>,
    points: Seq<Seq<P>>,
    s: int,
    t: int,
) -> bool {
    let g = run_start(islands, s) + t;
    &&& units[g].island == units[run_start(islands, s)].island
    &&& unit_gathered(islands[s], islands[s].units@[t], units[g], bodies, dynamic, points[g])
}

/// The islands hold the ordered contacts `units`: one island per run of
/// contacts that share an island, in order, each holding copies of the bodies
/// and points of exactly its run.
pub open spec fn gathered<B, P>(
    islands: Seq<IslandSolve<B, P>>,
    units: Seq<ConstraintUnit>,
    bodies: Seq<B>,
    dynamic: Seq<bool>,
    points: Seq<Seq<P>>,
) -> bool {
    &&& run_start(islands, islands.len() as int) == units.len()
    &&& forall|s: int| 0 <= s < islands.len() ==> (#[trigger] islands[s]).units@.len() > 0
    &&& forall|s: int| 0 <= s < islands.len() ==> copies_sound(#[trigger] islands[s], bodies)
    &&& forall|s: int, t: int|
        0 <= s < islands.len() && 0 <= t < islands[s].units@.len() ==> #[trigger] island_unit_gathered(
            islands,
            units,
            bodies,
            dynamic,
            points,
            s,
            t,
        )
    &&& forall|s: int|
        0 < s < islands.len() ==> units[#[trigger] run_start(islands, s)].island != units[run_start(
            islands,
            s,
        ) - 1].island
}

proof fn lemma_run_start_push<B, P>(islands: Seq<IslandSolve<B, P>>, isl: IslandSolve<B, P>, s: int)
    requires
        0 <= s <= islands.len(),
    ensures
        run_start(islands.push(isl), s) == run_start(islands, s),
    decreases s,
{
    if s > 0 {
        lemma_run_start_push(islands, isl, s - 1);
    }
}

proof fn lemma_run_start_bound<B, P>(islands: Seq<IslandSolve<B, P>>, s: int, t: int)
    requires
        0 <= s < islands.len(),
        0 <= t < islands[s].units@.len(),
    ensures
        0 <= run_start(islands, s),
        run_start(islands, s) + t < run_start(islands, islands.len() as int),
{
    lemma_run_start_grows(islands, s + 1);
    lemma_run_start_nonnegative(islands, s);
}

proof fn lemma_run_start_nonnegative<B, P>(islands: Seq<IslandSolve<B, P>>, s: int)
    ensures
        0 <= run_start(islands, s),
    decreases s,
{
    if s > 0 {
        lemma_run_start_nonnegative(islands, s - 1);
    }
}

proof fn lemma_run_start_grows<B, P>(islands: Seq<IslandSolve<B, P>>, s: int)
    requires
        0 <= s <= islands.len(),
    ensures
        run_start(islands, s) <= run_start(islands, islands.len() as int),
    decreases islands.len() - s,
{
    if s < islands.len() {
        lemma_run_start_grows(islands, s + 1);
    }
}

/// The island's contact `t` is the gathered form of contact `start + t` of
/// `units`, which is of island `label`.
pub open spec fn gathered_at<B, P>(
    isl: IslandSolve<B, P>,
    units: Seq<ConstraintUnit>,
    start: int,
    label: crate::body::BodyId,
    bodies: Seq<B>,
    dynamic: Seq<bool>,
    pts: Seq<Seq<P>>,
    t: int,
) -> bool {
    &&& units[start + t].island == label
    &&& unit_gathered(isl, isl.units@[t], units[start + t], bodies, dynamic, pts[start + t])
}

/// The island holds, in order, the gathered forms of the contacts of
/// `units` from `start` on, all of island `label`.
pub open spec fn run_gathered<B, P>(
    isl: IslandSolve<B, P>,
    units: Seq<ConstraintUnit>,
    start: int,
    label: crate::body::BodyId,
    bodies: Seq<B>,
    dynamic: Seq<bool>,
    pts: Seq<Seq<P>>,
) -> bool {
    forall|t: int|
        0 <= t < isl.units@.len() ==> #[trigger] gathered_at(isl, units, start, label, bodies, dynamic, pts, t)
}

/// Copies dense body `d` into the island: once for a body with mass, once
/// per use for a body without; hands back its island-local position.
fn gather_body<B: Copy, P>(
    isl: &mut IslandSolve<B, P>,
    local: &mut Vec<u32>,
    bodies: &[B],
    dynamic: &[bool],
    d: usize,
) -> (r: u32)
    requires
        d < bodies@.len(),
        dynamic@.len() == bodies@.len(),
        old(local)@.len() == bodies@.len(),
        bodies@.len() < SCATTERED_NOWHERE,
        old(isl).bodies@.len() + 1 < SCATTERED_NOWHERE,
        copies_sound(*old(isl), bodies@),
        local_agrees(old(local)@, *old(isl)),
    ensures
        final(isl).units@ == old(isl).units@,
        final(isl).points@ == old(isl).points@,
        old(isl).bodies@.len() <= final(isl).bodies@.len() <= old(isl).bodies@.len() + 1,
        forall|k: int|
            0 <= k < old(isl).bodies@.len() ==> final(isl).bodies@[k] == old(isl).bodies@[k]
                && final(isl).dense@[k] == old(isl).dense@[k],
        holds_copy(*final(isl), bodies@, dynamic@, r as int, d as int),
        !dynamic@[d as int] ==> r == old(isl).bodies@.len(),
        copies_sound(*final(isl), bodies@),
        final(local)@.len() == old(local)@.len(),
        local_agrees(final(local)@, *final(isl)),
{
    if !dynamic[d] {
        isl.bodies.push(bodies[d]);
        isl.dense.push(SCATTERED_NOWHERE);
        return (isl.bodies.len() - 1) as u32;
    }
    if local[d] == SCATTERED_NOWHERE {
        let at = isl.bodies.len() as u32;
        let ghost before = *isl;
        local.set(d, at);
        isl.bodies.push(bodies[d]);
        isl.dense.push(d as u32);
        proof {
            assert forall|k1: int, k2: int|
                0 <= k1 < k2 < isl.dense@.len() && #[trigger] isl.dense@[k1] != SCATTERED_NOWHERE implies isl.dense@[k1]
                    != #[trigger] isl.dense@[k2] by {
                if k2 == at as int {
                    assert(old(local)@[before.dense@[k1] as int] == k1);
                }
            }
            assert forall|e: int|
                0 <= e < local@.len() && #[trigger] local@[e] != SCATTERED_NOWHERE implies local@[e]
                    < isl.dense@.len() && isl.dense@[local@[e] as int] == e by {
                if e != d {
                    assert(old(local)@[e] == local@[e]);
                }
            }
            assert forall|k: int|
                0 <= k < isl.dense@.len() && #[trigger] isl.dense@[k] != SCATTERED_NOWHERE implies isl.dense@[k]
                    < local@.len() && local@[isl.dense@[k] as int] == k by {
                if k < at {
                    assert(before.dense@[k] != d) by {
                        if before.dense@[k] == d {
                            assert(old(local)@[d as int] == k);
                        }
                    }
                }
            }
        }
        at
    } else {
        let k = local[d];
        proof {
            assert(isl.dense@[k as int] == d);
        }
        k
    }
}

/// Gathers the ordered contacts `units` into islands, one per run of
/// contacts that share an island: each takes copies of its bodies (one per
/// body with mass, one per use of a body without) and of its contacts'
/// points, which `points` gives for each contact. An island numbers its body
/// copies and its points with 32-bit indices; with at most `MAX_POINTS`
/// points per contact, fewer than 2^30 contacts keep every index in range.
pub fn gather_islands<B: Copy, P: Copy>(
    units: &[ConstraintUnit],
    bodies: &[B],
    dynamic: &[bool],
    points: &[Vec<P>],
) -> (r: Vec<IslandSolve<B, P>>)
    requires
        dynamic@.len() == bodies@.len(),
        points@.len() == units@.len(),
        bodies@.len() < SCATTERED_NOWHERE,
        units@.len() < 0x4000_0000,
        forall|g: int| 0 <= g < points@.len() ==> (#[trigger] points@[g])@.len() <= MAX_POINTS,
        forall|g: int|
            0 <= g < units@.len() ==> (#[trigger] units@[g]).dense.0 < bodies@.len() && units@[g].dense.1
                < bodies@.len() && units@[g].dense.0 != units@[g].dense.1,
    ensures
        gathered(r@, units@, bodies@, dynamic@, points@.map_values(|v: Vec<P>| v@)),
{
    let ghost pts = points@.map_values(|v: Vec<P>| v@);
    let n = bodies.len();
    let mut local: Vec<u32> = Vec::new();
    while local.len() < n
        invariant
            local@.len() <= n,
            n == bodies@.len(),
            forall|e: int| 0 <= e < local@.len() ==> local@[e] == SCATTERED_NOWHERE,
        decreases n - local@.len(),
    {
        local.push(SCATTERED_NOWHERE);
    }
    let mut out: Vec<IslandSolve<B, P>> = Vec::new();
    let mut g: usize = 0;
    while g < units.len()
        invariant
            dynamic@.len() == bodies@.len(),
            points@.len() == units@.len(),
            pts == points@.map_values(|v: Vec<P>| v@),
            bodies@.len() < SCATTERED_NOWHERE,
            units@.len() < 0x4000_0000,
            forall|q: int| 0 <= q < points@.len() ==> (#[trigger] points@[q])@.len() <= MAX_POINTS,
            forall|q: int|
                0 <= q < units@.len() ==> (#[trigger] units@[q]).dense.0 < bodies@.len() && units@[q].dense.1
                    < bodies@.len() && units@[q].dense.0 != units@[q].dense.1,
            g <= units@.len(),
            local@.len() == bodies@.len(),
            forall|e: int| 0 <= e < local@.len() ==> local@[e] == SCATTERED_NOWHERE,
            gathered(out@, units@.take(g as int), bodies@, dynamic@, pts),
            out@.len() > 0 ==> units@[g as int - 1].island == units@[run_start(out@, out@.len() - 1)].island,
            out@.len() > 0 && g < units@.len() ==> units@[g as int].island != units@[g as int - 1].island,
            out@.len() == 0 ==> g == 0,
        decreases units@.len() - g,
    {
        let label = units[g].island;
        let start = g;
        let ghost prev_label_differs = out@.len() > 0 ==> units@[start as int].island != units@[start as int - 1].island;
        assert(prev_label_differs);
        assert(gathered(out@, units@.take(start as int), bodies@, dynamic@, pts));
        assert(out@.len() > 0 ==> units@[start as int - 1].island == units@[run_start(out@, out@.len() - 1)].island);
        let mut isl: IslandSolve<B, P> = IslandSolve {
            bodies: Vec::new(),
            dense: Vec::new(),
            units: Vec::new(),
            points: Vec::new(),
        };
        while g < units.len() && units[g].island == label
            invariant
                dynamic@.len() == bodies@.len(),
                points@.len() == units@.len(),
                pts == points@.map_values(|v: Vec<P>| v@),
                bodies@.len() < SCATTERED_NOWHERE,
                units@.len() < 0x4000_0000,
                forall|q: int| 0 <= q < points@.len() ==> (#[trigger] points@[q])@.len() <= MAX_POINTS,
                forall|q: int|
                    0 <= q < units@.len() ==> (#[trigger] units@[q]).dense.0 < bodies@.len()
                        && units@[q].dense.1 < bodies@.len() && units@[q].dense.0 != units@[q].dense.1,
                start < units@.len(),
                units@[start as int].island == label,
                start <= g <= units@.len(),
                local@.len() == bodies@.len(),
                isl.units@.len() == g - start,
                isl.bodies@.len() <= 2 * (g - start),
                isl.points@.len() <= MAX_POINTS * (g - start),
                copies_sound(isl, bodies@),
                local_agrees(local@, isl),
                run_gathered(isl, units@, start as int, label, bodies@, dynamic@, pts),
            decreases units@.len() - g,
        {
            let u = units[g];
            let ghost before_a = isl;
            let a = gather_body(&mut isl, &mut local, bodies, dynamic, u.dense.0);
            let ghost before_b = isl;
            let b = gather_body(&mut isl, &mut local, bodies, dynamic, u.dense.1);
            proof {
                if a == b {
                    if dynamic@[u.dense.1 as int] {
                        assert(isl.dense@[b as int] == u.dense.1);
                        assert(isl.dense@[a as int] == before_b.dense@[a as int]);
                    }
                }
            }
            let first = isl.points.len() as u32;
            let theirs = &points[g];
            let ghost before_p = isl.points@;
            let ghost before_pl = isl;
            let mut q: usize = 0;
            while q < theirs.len()
                invariant
                    q <= theirs@.len(),
                    theirs@.len() <= MAX_POINTS,
                    isl.points@ == before_p + theirs@.take(q as int),
                    isl.units@ == before_pl.units@,
                    isl.bodies@ == before_pl.bodies@,
                    isl.dense@ == before_pl.dense@,
                decreases theirs@.len() - q,
            {
                isl.points.push(theirs[q]);
                q = q + 1;
                proof {
                    assert(theirs@.take(q as int) =~= theirs@.take(q as int - 1).push(theirs@[q as int - 1]));
                }
            }
            proof {
                assert(theirs@.take(theirs@.len() as int) =~= theirs@);
                assert(isl.points@.subrange(first as int, first + theirs@.len()) =~= theirs@);
            }
            let su = ScratchUnit { key: u.key, a, b, first, count: theirs.len() as u32 };
            let ghost before_u = isl;
            isl.units.push(su);
            proof {
                assert(pts[g as int] == points@[g as int]@);
                assert forall|t: int| 0 <= t < isl.units@.len() implies #[trigger] gathered_at(
                    isl,
                    units@,
                    start as int,
                    label,
                    bodies@,
                    dynamic@,
                    pts,
                    t,
                ) by {
                    if t < isl.units@.len() - 1 {
                        let old_su = before_a.units@[t];
                        assert(gathered_at(before_a, units@, start as int, label, bodies@, dynamic@, pts, t));
                        assert(isl.units@[t] == old_su);
                        assert(isl.points@.subrange(old_su.first as int, old_su.first + old_su.count)
                            =~= before_a.points@.subrange(old_su.first as int, old_su.first + old_su.count));
                    }
                }
                assert(run_gathered(isl, units@, start as int, label, bodies@, dynamic@, pts));
            }
            g = g + 1;
        }
        proof {
            assert(g > start) by {
                assert(units@[start as int].island == label);
            }
        }
        // Clears this island's entries, so the next island starts from none.
        let mut k: usize = 0;
        while k < isl.dense.len()
            invariant
                k <= isl.dense@.len(),
                bodies@.len() < SCATTERED_NOWHERE,
                local@.len() == bodies@.len(),
                copies_sound(isl, bodies@),
                forall|e: int|
                    0 <= e < local@.len() && #[trigger] local@[e] != SCATTERED_NOWHERE ==> k <= local@[e]
                        < isl.dense@.len() && isl.dense@[local@[e] as int] == e,
            decreases isl.dense@.len() - k,
        {
            let e = isl.dense[k];
            let ghost before_l = local@;
            if e != SCATTERED_NOWHERE {
                local.set(e as usize, SCATTERED_NOWHERE);
            }
            proof {
                assert forall|x: int|
                    0 <= x < local@.len() && #[trigger] local@[x] != SCATTERED_NOWHERE implies k + 1 <= local@[x]
                        < isl.dense@.len() && isl.dense@[local@[x] as int] == x by {
                    assert(local@[x] == before_l[x]);
                    assert(before_l[x] != SCATTERED_NOWHERE);
                    if before_l[x] == k {
                        assert(isl.dense@[k as int] == x);
                    }
                }
            }
            k = k + 1;
        }
        let ghost prev = out@;
        out.push(isl);
        proof {
            let taken = units@.take(g as int);
            assert(gathered(prev, units@.take(start as int), bodies@, dynamic@, pts));
            assert(run_start(prev, prev.len() as int) == start);
            lemma_run_start_push(prev, isl, prev.len() as int);
            assert forall|s: int| 0 <= s <= prev.len() implies run_start(out@, s) == run_start(prev, s) by {
                lemma_run_start_push(prev, isl, s);
            }
            assert(run_start(out@, out@.len() as int) == g);
            assert forall|s: int, t: int|
                0 <= s < out@.len() && 0 <= t < out@[s].units@.len() implies #[trigger] island_unit_gathered(
                    out@,
                    taken,
                    bodies@,
                    dynamic@,
                    pts,
                    s,
                    t,
                ) by {
                if s < prev.len() {
                    lemma_run_start_bound(prev, s, t);
                    assert(island_unit_gathered(prev, units@.take(start as int), bodies@, dynamic@, pts, s, t));
                    assert(out@[s] == prev[s]);
                    assert(run_start(out@, s) == run_start(prev, s));
                    assert(units@.take(start as int)[run_start(prev, s) + t] == taken[run_start(prev, s) + t]);
                    assert(units@.take(start as int)[run_start(prev, s)] == taken[run_start(prev, s)]);
                } else {
                    assert(run_start(out@, s) == start);
                    assert(out@[s] == isl);
                    assert(gathered_at(isl, units@, start as int, label, bodies@, dynamic@, pts, t));
                    assert(taken[start + t] == units@[start + t]);
                    assert(taken[start as int] == units@[start as int]);
                }
            }
            assert forall|s: int|
                0 < s < out@.len() implies taken[#[trigger] run_start(out@, s)].island != taken[run_start(
                    out@,
                    s,
                ) - 1].island by {
                if s < prev.len() {
                    lemma_run_start_bound(prev, s, 0);
                    lemma_run_start_nonnegative(prev, s - 1);
                    assert(prev[s - 1].units@.len() > 0);
                    assert(units@.take(start as int)[run_start(prev, s)] == taken[run_start(prev, s)]);
                    assert(units@.take(start as int)[run_start(prev, s) - 1] == taken[run_start(prev, s) - 1]);
                } else {
                    assert(run_start(out@, s) == start);
                    assert(prev_label_differs);
                    assert(prev[prev.len() - 1].units@.len() > 0);
                    lemma_run_start_bound(prev, prev.len() - 1, 0);
                    assert(taken[start as int] == units@[start as int]);
                    assert(taken[start as int - 1] == units@[start as int - 1]);
                }
            }
            assert(run_start(out@, out@.len() - 1) == start);
            assert(gathered_at(isl, units@, start as int, label, bodies@, dynamic@, pts, g - 1 - start));
            assert(units@[g as int - 1].island == label);
        }
    }
    proof {
        assert(units@.take(units@.len() as int) =~= units@);
    }
    out
}

/// `base` with the first `k` copies of an island written back.
pub open spec fn write_copies<B>(copies: Seq<B>, dense: Seq<u32>, k: int, base: Seq<B>) -> Seq<B>
    decreases k,
{
    if k <= 0 {
        base
    } else {
        let before = write_copies(copies, dense, k - 1, base);
        if dense[k - 1] != SCATTERED_NOWHERE && dense[k - 1] < before.len() {
            before.update(dense[k - 1] as int, copies[k - 1])
        } else {
            before
        }
    }
}

/// `bodies` with the copies of the islands written back, island by island
/// and copy by copy.
pub open spec fn scattered<B, P>(islands: Seq<IslandSolve<B, P>>, bodies: Seq<B>) -> Seq<B>
    decreases islands.len(),
{
    if islands.len() == 0 {
        bodies
    } else {
        let isl = islands.last();
        write_copies(
            isl.bodies@,
            isl.dense@,
            isl.dense@.len() as int,
            scattered(islands.drop_last(), bodies),
        )
    }
}

proof fn lemma_write_copies_len<B>(copies: Seq<B>, dense: Seq<u32>, k: int, base: Seq<B>)
    ensures
        write_copies(copies, dense, k, base).len() == base.len(),
    decreases k,
{
    if k > 0 {
        lemma_write_copies_len(copies, dense, k - 1, base);
    }
}

/// Writes each island's copies back to the bodies they were taken from, island
/// by island; copies of bodies without mass are not written.
pub fn scatter_islands<B: Copy, P>(islands: &[IslandSolve<B, P>], bodies: &mut Vec<B>)
    requires
        forall|s: int| 0 <= s < islands@.len() ==> (#[trigger] islands@[s]).bodies@.len() == islands@[s].dense@.len(),
    ensures
        final(bodies)@ == scattered(islands@, old(bodies)@),
{
    let mut s: usize = 0;
    while s < islands.len()
        invariant
            s <= islands@.len(),
            forall|q: int| 0 <= q < islands@.len() ==> (#[trigger] islands@[q]).bodies@.len() == islands@[q].dense@.len(),
            bodies@ == scattered(islands@.take(s as int), old(bodies)@),
        decreases islands@.len() - s,
    {
        let isl = &islands[s];
        let ghost base = bodies@;
        let mut k: usize = 0;
        while k < isl.dense.len()
            invariant
                k <= isl.dense@.len(),
                isl.bodies@.len() == isl.dense@.len(),
                bodies@ == write_copies(isl.bodies@, isl.dense@, k as int, base),
            decreases isl.dense@.len() - k,
        {
            let d = isl.dense[k];
            proof {
                lemma_write_copies_len(isl.bodies@, isl.dense@, k as int, base);
            }
            if d != SCATTERED_NOWHERE && (d as usize) < bodies.len() {
                bodies.set(d as usize, isl.bodies[k]);
            }
            k = k + 1;
        }
        proof {
            assert(islands@.take(s as int + 1).drop_last() =~= islands@.take(s as int));
            assert(islands@.take(s as int + 1).last() == islands@[s as int]);
        }
        s = s + 1;
    }
    proof {
        assert(islands@.take(islands@.len() as int) =~= islands@);
    }
}

proof fn lemma_write_copies_unchanged<B>(copies: Seq<B>, dense: Seq<u32>, k: int, base: Seq<B>)
    requires
        0 <= k <= dense.len(),
        k <= copies.len(),
        forall|q: int|
            0 <= q < k && #[trigger] dense[q] != SCATTERED_NOWHERE && dense[q] < base.len() ==> copies[q]
                == base[dense[q] as int],
    ensures
        write_copies(copies, dense, k, base) == base,
    decreases k,
{
    if k > 0 {
        lemma_write_copies_unchanged(copies, dense, k - 1, base);
        let before = write_copies(copies, dense, k - 1, base);
        if dense[k - 1] != SCATTERED_NOWHERE && dense[k - 1] < before.len() {
            assert(before.update(dense[k - 1] as int, copies[k - 1]) =~= before);
        }
    }
}

proof fn lemma_scattered_unchanged<B, P>(islands: Seq<IslandSolve<B, P>>, bodies: Seq<B>)
    requires
        forall|s: int| 0 <= s < islands.len() ==> copies_sound(#[trigger] islands[s], bodies),
    ensures
        scattered(islands, bodies) == bodies,
    decreases islands.len(),
{
    if islands.len() > 0 {
        let rest = islands.drop_last();
        assert forall|s: int| 0 <= s < rest.len() implies copies_sound(#[trigger] rest[s], bodies) by {
            assert(rest[s] == islands[s]);
        }
        lemma_scattered_unchanged(rest, bodies);
        let isl = islands.last();
        assert(copies_sound(islands[islands.len() - 1], bodies));
        lemma_write_copies_unchanged(isl.bodies@, isl.dense@, isl.dense@.len() as int, bodies);
    }
}

/// Scattering what was gathered, before any solving, writes every body back
/// as it was.
pub proof fn lemma_gather_then_scatter_keeps_bodies<B, P>(
    islands: Seq<IslandSolve<B, P>>,
    units: Seq<ConstraintUnit>,
    bodies: Seq<B>,
    dynamic: Seq<bool>,
    points: Seq<Seq<P>>,
)
    requires
        gathered(islands, units, bodies, dynamic, points),
    ensures
        scattered(islands, bodies) == bodies,
{
    lemma_scattered_unchanged(islands, bodies);
}

} // verus!
