//! Nearest hit by a linear scan over an ordered list of surfaces.

use vstd::prelude::*;
use crate::probe::{below, best_bound, no_tighter, not_better, probed_no_better, reports_nearest};

verus! {

/// Probes the surfaces `0..n` in order, each with the parameter of the nearest
/// hit found so far as its bound (`None` at first, the query's own limit), and
/// keeps a reported hit where it lies below that bound. Returns the surface and
/// parameter of the nearest hit reported.
pub fn scan_nearest<H>(n: usize, object_hit: &H) -> (r: Option<(usize, u64)>) where
    H: Fn(usize, Option<u64>) -> Option<u64>,

    requires
        forall|o: usize, b: Option<u64>| #[trigger] object_hit.requires((o, b)),
    ensures
        r matches Some((o, t)) ==> o < n && exists|b: Option<u64>|
            below(t, b) && #[trigger] object_hit.ensures((o, b), Some(t)),
        forall|o: usize| o < n ==> #[trigger] probed_no_better(*object_hit, o, best_bound(r)),
{
    let mut best: Option<(usize, u64)> = None;
    let mut bound: Option<u64> = None;
    let mut o: usize = 0;
    while o < n
        invariant
            o <= n,
            forall|p: usize, b: Option<u64>| #[trigger] object_hit.requires((p, b)),
            bound == best_bound(best),
            best matches Some((p, t)) ==> p < n && exists|b: Option<u64>|
                below(t, b) && #[trigger] object_hit.ensures((p, b), Some(t)),
            forall|p: usize| p < o ==> #[trigger] probed_no_better(*object_hit, p, bound),
        decreases n - o,
    {
        let ghost old_bound = bound;
        let res = object_hit(o, bound);
        if let Some(t) = res {
            let closer = match bound {
                Some(u) => t < u,
                None => true,
            };
            if closer {
                best = Some((o, t));
                bound = Some(t);
                assert(below(t, old_bound) && object_hit.ensures((o, old_bound), Some(t)));
            }
        }
        proof {
            assert forall|p: usize| p < o + 1 implies #[trigger] probed_no_better(*object_hit, p, bound) by {
                if p == o {
                    assert(no_tighter(old_bound, bound) && object_hit.ensures((p, old_bound), res) && not_better(res, bound));
                } else {
                    assert(probed_no_better(*object_hit, p, old_bound));
                    let (b, r) = choose|b: Option<u64>, r: Option<u64>|
                        no_tighter(b, old_bound) && #[trigger] object_hit.ensures((p, b), r) && not_better(r, old_bound);
                    assert(no_tighter(b, bound) && object_hit.ensures((p, b), r) && not_better(r, bound));
                }
            }
        }
        o = o + 1;
    }
    best
}

/// `r` is the nearest hit among the surfaces `0..n`, where `hits(o)` are the
/// parameters at which the ray meets surface `o` within the query's range:
/// `None` where no surface is hit, else a surface hit at a parameter no
/// greater than any other hit.
pub open spec fn is_nearest_of(n: nat, hits: spec_fn(usize) -> Set<u64>, r: Option<(usize, u64)>) -> bool {
    match r {
        None => forall|o: usize, u: u64| o < n ==> !#[trigger] hits(o).contains(u),
        Some((o, t)) => {
            &&& o < n
            &&& hits(o).contains(t)
            &&& forall|p: usize, u: u64| p < n && #[trigger] hits(p).contains(u) ==> t <= u
        },
    }
}

/// Where each probe reports the nearest hit of its surface below the bound,
/// whatever `scan_nearest` returns is the nearest hit of all the surfaces.
pub proof fn lemma_scan_finds_nearest<H>(
    n: nat,
    object_hit: H,
    hits: spec_fn(usize) -> Set<u64>,
    r: Option<(usize, u64)>,
)
    where
        H: Fn(usize, Option<u64>) -> Option<u64>,
    requires
        forall|o: usize, b: Option<u64>, res: Option<u64>|
            #[trigger] object_hit.ensures((o, b), res) ==> reports_nearest(hits(o), b, res),
        r matches Some((o, t)) ==> o < n && exists|b: Option<u64>|
            below(t, b) && #[trigger] object_hit.ensures((o, b), Some(t)),
        forall|o: usize| o < n ==> #[trigger] probed_no_better(object_hit, o, best_bound(r)),
    ensures
        is_nearest_of(n, hits, r),
{
    let best = best_bound(r);
    assert forall|p: usize, u: u64| p < n && #[trigger] hits(p).contains(u) implies (best matches Some(t) && t
        <= u) by {
        assert(probed_no_better(object_hit, p, best));
        let (b, res) = choose|b: Option<u64>, res: Option<u64>|
            no_tighter(b, best) && #[trigger] object_hit.ensures((p, b), res) && not_better(res, best);
        assert(reports_nearest(hits(p), b, res));
        if best is None || u < best->0 {
            assert(below(u, b));
        }
    }
    if let Some((o, t)) = r {
        let b = choose|b: Option<u64>| below(t, b) && #[trigger] object_hit.ensures((o, b), Some(t));
        assert(reports_nearest(hits(o), b, Some(t)));
    }
}

} // verus!
