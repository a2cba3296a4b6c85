//! The vocabulary of nearest-hit searches: a search probes surfaces with an
//! upper bound on the ray parameter, and each probe reports the parameter of a
//! hit as an order key (a `u64` that orders as the parameter does).

use vstd::prelude::*;

verus! {

/// `t` lies below the bound `b`; `None` stands for the query's own limit,
/// which every reported parameter lies below.
pub open spec fn below(t: u64, b: Option<u64>) -> bool {
    b matches Some(x) ==> t < x
}

/// Bound `b` is no tighter than `best`, with `None` above every parameter.
pub open spec fn no_tighter(b: Option<u64>, best: Option<u64>) -> bool {
    match best {
        None => b is None,
        Some(t) => b matches Some(x) ==> t <= x,
    }
}

/// A reported hit parameter that does not beat `best`.
pub open spec fn not_better(res: Option<u64>, best: Option<u64>) -> bool {
    res matches Some(t) ==> (best matches Some(u) && u <= t)
}

/// The parameter of the nearest hit found, as a bound.
pub open spec fn best_bound(r: Option<(usize, u64)>) -> Option<u64> {
    match r {
        Some((_, t)) => Some(t),
        None => None,
    }
}

/// What probing a surface whose hit parameters are `hits` with bound `b` must
/// report: the least parameter below `b`, or nothing where none lies below it.
pub open spec fn reports_nearest(hits: Set<u64>, b: Option<u64>, res: Option<u64>) -> bool {
    match res {
        None => forall|u: u64| #[trigger] hits.contains(u) ==> !below(u, b),
        Some(t) => {
            &&& hits.contains(t)
            &&& below(t, b)
            &&& forall|u: u64| #[trigger] hits.contains(u) && below(u, b) ==> t <= u
        },
    }
}

/// Surface `o` was probed with a bound no tighter than `best` and reported
/// nothing better than `best`.
pub open spec fn probed_no_better<H>(object_hit: H, o: usize, best: Option<u64>) -> bool where
    H: Fn(usize, Option<u64>) -> Option<u64>,
 {
    exists|b: Option<u64>, res: Option<u64>|
        no_tighter(b, best) && #[trigger] object_hit.ensures((o, b), res) && not_better(res, best)
}

} // verus!
