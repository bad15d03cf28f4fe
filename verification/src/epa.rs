use vstd::prelude::*;

verus! {

/// An edge of the expansion horizon, as a directed pair of vertex indices.
pub type Edge = (usize, usize);

/// The horizon after meeting edge `(a, b)` of a face that is removed: the
/// reversed edge, shared with another removed face, cancels (its first
/// occurrence leaves, the last edge taking its place); otherwise the edge
/// joins the horizon.
pub open spec fn horizon_after(horizon: Seq<Edge>, a: usize, b: usize) -> Seq<Edge> {
    if exists|k: int| 0 <= k < horizon.len() && horizon[k] == (b, a) {
        let k = choose|k: int|
            0 <= k < horizon.len() && horizon[k] == (b, a) && forall|q: int|
                0 <= q < k ==> horizon[q] != (b, a);
        horizon.update(k, horizon.last()).drop_last()
    } else {
        horizon.push((a, b))
    }
}

pub fn add_or_remove_edge(horizon: &mut Vec<Edge>, a: usize, b: usize)
    ensures
        final(horizon)@ == horizon_after(old(horizon)@, a, b),
{
    let mut k: usize = 0;
    while k < horizon.len()
        invariant
            k <= horizon@.len(),
            horizon@ == old(horizon)@,
            forall|q: int| 0 <= q < k ==> horizon@[q] != (b, a),
        decreases horizon@.len() - k,
    {
        let (x, y) = horizon[k];
        if x == b && y == a {
            proof {
                let s = old(horizon)@;
                assert(s[k as int] == (b, a));
                let c = choose|c: int|
                    0 <= c < s.len() && s[c] == (b, a) && forall|q: int| 0 <= q < c ==> s[q] != (b, a);
                assert(c == k as int) by {
                    if c < k {
                    } else if c > k {
                        assert(s[k as int] != (b, a));
                    }
                }
            }
            horizon.swap_remove(k);
            proof {
                let s = old(horizon)@;
                assert(horizon@ =~= s.update(k as int, s.last()).drop_last());
            }
            return;
        }
        k = k + 1;
    }
    horizon.push((a, b));
}

/// Meeting an edge and then its reverse, with neither on the horizon before,
/// leaves the horizon as it was.
pub proof fn lemma_shared_edge_cancels(horizon: Seq<Edge>, a: usize, b: usize)
    requires
        forall|k: int| 0 <= k < horizon.len() ==> horizon[k] != (b, a) && horizon[k] != (a, b),
    ensures
        horizon_after(horizon_after(horizon, a, b), b, a) == horizon,
{
    let once = horizon.push((a, b));
    assert(horizon_after(horizon, a, b) == once);
    let n = horizon.len() as int;
    assert(once[n] == (a, b));
    let c = choose|c: int|
        0 <= c < once.len() && once[c] == (a, b) && forall|q: int| 0 <= q < c ==> once[q] != (a, b);
    assert(c == n) by {
        if c < n {
            assert(horizon[c] == once[c]);
        } else if c > n {
            assert(once[n] != (a, b));
        }
    }
    assert(once.update(n, once.last()).drop_last() =~= horizon);
}

} // verus!
