//! Bounding volume hierarchy over a list of surfaces: its construction, and
//! the search for the nearest hit of a ray through it.
//!
//! Surfaces are known here by their position in the list and by the order keys
//! of the least corner of their bounding boxes, one per axis. The keys preserve
//! the order of the coordinates they stand for, so sorting by key is sorting by
//! coordinate. Boxes and surfaces are met by the caller, through probes that
//! the search hands a bound and that report ray parameters as order keys.

use vstd::prelude::*;
use crate::random::random_up_to;
use crate::world::{is_nearest_of, lemma_scan_finds_nearest};
use crate::probe::{below, best_bound, no_tighter, not_better, probed_no_better, reports_nearest};

verus! {

/// Order keys of the least corner of a surface's bounding box.
#[derive(Debug, Clone, Copy, PartialEq, Eq)]
pub struct BoxKey {
    pub x: u64,
    pub y: u64,
    pub z: u64,
}

impl BoxKey {
    /// The key on axis 0 (x), 1 (y) or 2 (z).
    pub open spec fn on(self, axis: int) -> u64 {
        if axis == 0 {
            self.x
        } else if axis == 1 {
            self.y
        } else {
            self.z
        }
    }

    pub fn get(&self, axis: usize) -> (r: u64)
        ensures
            r == self.on(axis as int),
    {
        if axis == 0 {
            self.x
        } else if axis == 1 {
            self.y
        } else {
            self.z
        }
    }
}

/// Key on `axis` of the surface at position `o`.
pub open spec fn key_of(keys: Seq<BoxKey>, o: usize, axis: int) -> u64 {
    keys[o as int].on(axis)
}

/// `items` are in ascending order of their keys on `axis`.
pub open spec fn sorted_on(keys: Seq<BoxKey>, items: Seq<usize>, axis: int) -> bool {
    forall|a: int, b: int|
        0 <= a < b < items.len() ==> key_of(keys, #[trigger] items[a], axis) <= key_of(
            keys,
            #[trigger] items[b],
            axis,
        )
}

/// Every item is the position of a surface.
pub open spec fn all_below(items: Seq<usize>, n: nat) -> bool {
    forall|a: int| 0 <= a < items.len() ==> #[trigger] items[a] < n
}

/// A node of the hierarchy, or a surface under it.
#[derive(Debug)]
pub enum BvhShape {
    /// No surface at all: the hierarchy over an empty list.
    Empty,
    /// The surface at this position of the list.
    Object(usize),
    /// A node, numbered `id`, whose list was split on `axis`, with its two subtrees.
    Node { id: usize, axis: usize, left: Box<BvhShape>, right: Box<BvhShape> },
}

impl BvhShape {
    /// Whether the surface at position `o` lies under this node.
    pub open spec fn holds(self, o: usize) -> bool
        decreases self,
    {
        match self {
            BvhShape::Empty => false,
            BvhShape::Object(p) => p == o,
            BvhShape::Node { left, right, .. } => left.holds(o) || right.holds(o),
        }
    }

    /// At every node, each surface on the left comes no later on the split axis
    /// than each surface on the right.
    pub open spec fn ordered(self, keys: Seq<BoxKey>) -> bool
        decreases self,
    {
        match self {
            BvhShape::Empty => true,
            BvhShape::Object(p) => p < keys.len(),
            BvhShape::Node { axis, left, right, .. } => {
                &&& axis < 3
                &&& left.ordered(keys)
                &&& right.ordered(keys)
                &&& forall|a: usize, b: usize|
                    left.holds(a) && right.holds(b) ==> #[trigger] key_of(keys, a, axis as int)
                        <= #[trigger] key_of(keys, b, axis as int)
            },
        }
    }

    /// Whether a node under this one, or this one, is numbered `x`.
    pub open spec fn has_id(self, x: usize) -> bool
        decreases self,
    {
        match self {
            BvhShape::Empty | BvhShape::Object(_) => false,
            BvhShape::Node { id, left, right, .. } => id == x || left.has_id(x) || right.has_id(x),
        }
    }

    /// No two nodes share a number.
    pub open spec fn unique_ids(self) -> bool
        decreases self,
    {
        match self {
            BvhShape::Empty | BvhShape::Object(_) => true,
            BvhShape::Node { id, left, right, .. } => {
                &&& left.unique_ids()
                &&& right.unique_ids()
                &&& !left.has_id(id)
                &&& !right.has_id(id)
                &&& forall|x: usize| left.has_id(x) ==> !#[trigger] right.has_id(x)
            },
        }
    }

    /// Every node is numbered in `lo..hi`.
    pub open spec fn ids_within(self, lo: int, hi: int) -> bool {
        forall|x: usize| #[trigger] self.has_id(x) ==> lo <= x < hi
    }

    /// Number of surfaces under this node, a single surface that sits on both
    /// sides counted once.
    pub open spec fn span(self) -> nat
        decreases self,
    {
        match self {
            BvhShape::Empty => 0,
            BvhShape::Object(_) => 1,
            BvhShape::Node { left, right, .. } => if *left is Object && left == right {
                1
            } else {
                left.span() + right.span()
            },
        }
    }

    /// Every node over more than one surface has half of them, rounded down,
    /// on its left.
    pub open spec fn halved(self) -> bool
        decreases self,
    {
        match self {
            BvhShape::Empty | BvhShape::Object(_) => true,
            BvhShape::Node { left, right, .. } => {
                &&& left.halved()
                &&& right.halved()
                &&& self.span() == 1 || left.span() == self.span() / 2
            },
        }
    }

    /// The number of this node; `None` for a surface.
    pub open spec fn node_id(self) -> Option<usize> {
        match self {
            BvhShape::Empty | BvhShape::Object(_) => None,
            BvhShape::Node { id, .. } => Some(id),
        }
    }
}

proof fn lemma_swap_keeps_contents(s: Seq<usize>, i: int, j: int)
    requires
        0 <= i < s.len(),
        0 <= j < s.len(),
        i != j,
    ensures
        forall|o: usize|
            s.update(i, s[j]).update(j, s[i]).contains(o) <==> #[trigger] s.contains(o),
        s.update(i, s[j]).update(j, s[i]).to_multiset() == s.to_multiset(),
{
    broadcast use vstd::seq_lib::to_multiset_update, vstd::seq_lib::to_multiset_contains,
        vstd::multiset::group_multiset_axioms;

    let s1 = s.update(i, s[j]);
    assert(s.contains(s[i]));
    assert(s.to_multiset().count(s[i]) > 0);
    let m = s.to_multiset();
    let a = s[j];
    let b = s[i];
    assert forall|x: usize| #[trigger] m.insert(a).remove(b).insert(b).remove(a).count(x) == m.count(x) by {
    }
    assert(s1.to_multiset() == s.to_multiset().insert(s[j]).remove(s[i]));
    assert(s1[j] == s[j]);
    assert(s1.update(j, s[i]).to_multiset() == s1.to_multiset().insert(s[i]).remove(s[j]));
    assert(s1.update(j, s[i]).to_multiset() =~= s.to_multiset());
    let t = s.update(i, s[j]).update(j, s[i]);
    assert forall|o: usize| t.contains(o) <==> #[trigger] s.contains(o) by {
        if t.contains(o) {
            let k = choose|k: int| 0 <= k < t.len() && t[k] == o;
            if k == i {
                assert(s[j] == o);
            } else if k == j {
                assert(s[i] == o);
            } else {
                assert(s[k] == o);
            }
        }
        if s.contains(o) {
            let k = choose|k: int| 0 <= k < s.len() && s[k] == o;
            if k == i {
                assert(t[j] == o);
            } else if k == j {
                assert(t[i] == o);
            } else {
                assert(t[k] == o);
            }
        }
    }
}

/// Sorts `items` in ascending order of their keys on `axis` (insertion sort).
pub fn sort_on_axis(keys: &Vec<BoxKey>, items: &mut Vec<usize>, axis: usize)
    requires
        all_below(old(items)@, keys@.len()),
    ensures
        final(items)@.len() == old(items)@.len(),
        all_below(final(items)@, keys@.len()),
        sorted_on(keys@, final(items)@, axis as int),
        forall|o: usize| final(items)@.contains(o) <==> #[trigger] old(items)@.contains(o),
        final(items)@.to_multiset() == old(items)@.to_multiset(),
{
    let n = items.len();
    if n == 0 {
        return;
    }
    let mut i: usize = 1;
    while i < n
        invariant
            1 <= i <= n,
            items@.len() == n,
            all_below(items@, keys@.len()),
            forall|o: usize| items@.contains(o) <==> #[trigger] old(items)@.contains(o),
            items@.to_multiset() == old(items)@.to_multiset(),
            sorted_on(keys@, items@.subrange(0, i as int), axis as int),
        decreases n - i,
    {
        let mut j: usize = i;
        assert forall|a: int, b: int| 0 <= a < b < i implies key_of(
            keys@,
            #[trigger] items@[a],
            axis as int,
        ) <= key_of(keys@, #[trigger] items@[b], axis as int) by {
            assert(items@.subrange(0, i as int)[a] == items@[a]);
            assert(items@.subrange(0, i as int)[b] == items@[b]);
        }
        while j > 0 && keys[items[j - 1]].get(axis) > keys[items[j]].get(axis)
            invariant
                1 <= i < n,
                j <= i,
                items@.len() == n,
                all_below(items@, keys@.len()),
                forall|o: usize| items@.contains(o) <==> #[trigger] old(items)@.contains(o),
                items@.to_multiset() == old(items)@.to_multiset(),
                forall|a: int, b: int|
                    0 <= a < b <= i && a != j && b != j ==> key_of(keys@, #[trigger] items@[a], axis as int)
                        <= key_of(keys@, #[trigger] items@[b], axis as int),
                forall|b: int|
                    j < b <= i ==> key_of(keys@, items@[j as int], axis as int) <= key_of(
                        keys@,
                        #[trigger] items@[b],
                        axis as int,
                    ),
            decreases j,
        {
            let a = items[j - 1];
            let b = items[j];
            proof {
                lemma_swap_keeps_contents(items@, j - 1, j as int);
            }
            items.set(j - 1, b);
            items.set(j, a);
            j = j - 1;
        }
        assert(sorted_on(keys@, items@.subrange(0, i + 1), axis as int)) by {
            assert forall|a: int, b: int| 0 <= a < b < i + 1 implies key_of(
                keys@,
                #[trigger] items@.subrange(0, i + 1)[a],
                axis as int,
            ) <= key_of(keys@, #[trigger] items@.subrange(0, i + 1)[b], axis as int) by {
                if a == j {
                } else if b == j {
                    assert(j > 0);
                    if a < j - 1 {
                        assert(key_of(keys@, items@[a], axis as int) <= key_of(
                            keys@,
                            items@[j - 1],
                            axis as int,
                        ));
                    }
                }
            }
        }
        i = i + 1;
    }
    assert(items@.subrange(0, n as int) == items@);
}

/// Copies `items[lo..hi]`.
fn copy_range(items: &Vec<usize>, lo: usize, hi: usize) -> (r: Vec<usize>)
    requires
        lo <= hi <= items@.len(),
    ensures
        r@ == items@.subrange(lo as int, hi as int),
{
    let mut r: Vec<usize> = Vec::new();
    let mut i: usize = lo;
    while i < hi
        invariant
            lo <= i <= hi <= items@.len(),
            r@ == items@.subrange(lo as int, i as int),
        decreases hi - i,
    {
        r.push(items[i]);
        i = i + 1;
    }
    r
}


impl BvhShape {
    /// Builds the hierarchy over the surfaces at the positions in `items`,
    /// numbering its nodes from `first_id` in pre-order, and returns it with
    /// the first number left unused. No surface gives the empty hierarchy.
    /// Otherwise picks an axis at random; a single surface
    /// goes under both sides; two surfaces go one per side, in order on the
    /// axis; more are sorted on the axis and split at the middle, each half
    /// under a hierarchy of its own.
    pub fn from_range(keys: &Vec<BoxKey>, items: Vec<usize>, first_id: usize) -> (r: (BvhShape, usize))
        requires
            all_below(items@, keys@.len()),
            items@.no_duplicates(),
            first_id + 2 * items@.len() <= usize::MAX,
        ensures
            items@.len() == 0 ==> r.0 is Empty && r.1 == first_id,
            items@.len() > 0 ==> r.0.node_id() == Some(first_id),
            r.0.span() == items@.len(),
            r.0.halved(),
            r.0.ordered(keys@),
            forall|o: usize| r.0.holds(o) <==> #[trigger] items@.contains(o),
            r.0.unique_ids(),
            r.0.ids_within(first_id as int, r.1 as int),
            items@.len() > 0 ==> first_id < r.1 < first_id + 2 * items@.len(),
        decreases items@.len(),
    {
        let n = items.len();
        if n == 0 {
            proof {
                assert forall|o: usize| !#[trigger] items@.contains(o) by {}
            }
            return (BvhShape::Empty, first_id);
        }
        let axis = random_up_to(2);
        if n == 1 {
            let o = items[0];
            proof {
                assert forall|p: usize| items@.contains(p) implies p == o by {
                    let k = choose|k: int| 0 <= k < items@.len() && items@[k] == p;
                }
                assert(items@.contains(o)) by {
                    assert(items@[0] == o);
                }
            }
            let r = BvhShape::Node {
                id: first_id,
                axis,
                left: Box::new(BvhShape::Object(o)),
                right: Box::new(BvhShape::Object(o)),
            };
            proof {
                reveal_with_fuel(BvhShape::holds, 2);
                reveal_with_fuel(BvhShape::ordered, 2);
                reveal_with_fuel(BvhShape::has_id, 2);
                reveal_with_fuel(BvhShape::unique_ids, 2);
                reveal_with_fuel(BvhShape::span, 2);
                reveal_with_fuel(BvhShape::halved, 2);
            }
            (r, first_id + 1)
        } else if n == 2 {
            let mut first = items[0];
            let mut second = items[1];
            if keys[first].get(axis) > keys[second].get(axis) {
                let t = first;
                first = second;
                second = t;
            }
            proof {
                assert forall|p: usize| items@.contains(p) implies p == first || p == second by {
                    let k = choose|k: int| 0 <= k < items@.len() && items@[k] == p;
                }
                assert(items@.contains(items@[0]));
                assert(items@.contains(items@[1]));
            }
            let r = BvhShape::Node {
                id: first_id,
                axis,
                left: Box::new(BvhShape::Object(first)),
                right: Box::new(BvhShape::Object(second)),
            };
            proof {
                reveal_with_fuel(BvhShape::holds, 2);
                reveal_with_fuel(BvhShape::ordered, 2);
                reveal_with_fuel(BvhShape::has_id, 2);
                reveal_with_fuel(BvhShape::unique_ids, 2);
                reveal_with_fuel(BvhShape::span, 2);
                reveal_with_fuel(BvhShape::halved, 2);
            }
            (r, first_id + 1)
        } else {
            let ghost unsorted = items@;
            let mut sorted = items;
            sort_on_axis(keys, &mut sorted, axis);
            proof {
                unsorted.lemma_multiset_has_no_duplicates();
                sorted@.lemma_multiset_has_no_duplicates_conv();
            }
            let mid = n / 2;
            let lower = copy_range(&sorted, 0, mid);
            let upper = copy_range(&sorted, mid, n);
            let ghost s = sorted@;
            assert(all_below(lower@, keys@.len())) by {
                assert forall|a: int| 0 <= a < lower@.len() implies #[trigger] lower@[a] < keys@.len() by {
                    assert(lower@[a] == s[a]);
                }
            }
            assert(all_below(upper@, keys@.len())) by {
                assert forall|a: int| 0 <= a < upper@.len() implies #[trigger] upper@[a] < keys@.len() by {
                    assert(upper@[a] == s[mid + a]);
                }
            }
            assert(lower@.no_duplicates()) by {
                assert forall|a: int, b: int| 0 <= a < lower@.len() && 0 <= b < lower@.len() && a != b implies lower@[a]
                    != lower@[b] by {
                    assert(lower@[a] == s[a] && lower@[b] == s[b]);
                }
            }
            assert(upper@.no_duplicates()) by {
                assert forall|a: int, b: int| 0 <= a < upper@.len() && 0 <= b < upper@.len() && a != b implies upper@[a]
                    != upper@[b] by {
                    assert(upper@[a] == s[mid + a] && upper@[b] == s[mid + b]);
                }
            }
            let (left, after_left) = BvhShape::from_range(keys, lower, first_id + 1);
            let (right, after_right) = BvhShape::from_range(keys, upper, after_left);
            proof {
                assert forall|o: usize| left.holds(o) || right.holds(o) <==> #[trigger] items@.contains(o) by {
                    if items@.contains(o) {
                        assert(s.contains(o));
                        let k = choose|k: int| 0 <= k < s.len() && s[k] == o;
                        if k < mid {
                            assert(lower@[k] == o);
                            assert(lower@.contains(o));
                        } else {
                            assert(upper@[k - mid] == o);
                            assert(upper@.contains(o));
                        }
                    }
                    if left.holds(o) {
                        assert(lower@.contains(o));
                        let k = choose|k: int| 0 <= k < lower@.len() && lower@[k] == o;
                        assert(s[k] == o);
                        assert(s.contains(o));
                    }
                    if right.holds(o) {
                        assert(upper@.contains(o));
                        let k = choose|k: int| 0 <= k < upper@.len() && upper@[k] == o;
                        assert(s[mid + k] == o);
                        assert(s.contains(o));
                    }
                }
                assert forall|a: usize, b: usize| left.holds(a) && right.holds(b) implies #[trigger] key_of(
                    keys@,
                    a,
                    axis as int,
                ) <= #[trigger] key_of(keys@, b, axis as int) by {
                    assert(lower@.contains(a));
                    assert(upper@.contains(b));
                    let p = choose|p: int| 0 <= p < lower@.len() && lower@[p] == a;
                    let q = choose|q: int| 0 <= q < upper@.len() && upper@[q] == b;
                    assert(s[p] == a);
                    assert(s[mid + q] == b);
                    assert(key_of(keys@, s[p], axis as int) <= key_of(keys@, s[mid + q], axis as int));
                }
                assert forall|x: usize| left.has_id(x) implies !#[trigger] right.has_id(x) by {
                    assert(x < after_left);
                }
            }
            let r = BvhShape::Node { id: first_id, axis, left: Box::new(left), right: Box::new(right) };
            proof {
                assert forall|x: usize| #[trigger] r.has_id(x) implies first_id <= x < after_right by {
                    if left.has_id(x) {
                    }
                    if right.has_id(x) {
                    }
                }
            }
            (r, after_right)
        }
    }

    /// Builds the hierarchy over all the surfaces whose keys are given, by
    /// position, its nodes numbered from 0 and below twice the number of
    /// surfaces; the empty hierarchy for an empty list.
    pub fn new(keys: &Vec<BoxKey>) -> (r: BvhShape)
        requires
            2 * keys@.len() <= usize::MAX,
        ensures
            keys@.len() == 0 <==> r is Empty,
            keys@.len() > 0 ==> r.node_id() == Some(0usize),
            r.span() == keys@.len(),
            r.halved(),
            r.ordered(keys@),
            forall|o: usize| r.holds(o) <==> o < keys@.len(),
            r.unique_ids(),
            r.ids_within(0, 2 * keys@.len() as int),
    {
        let n = keys.len();
        let mut items: Vec<usize> = Vec::new();
        let mut i: usize = 0;
        while i < n
            invariant
                i <= n == keys@.len(),
                items@.len() == i,
                forall|k: int| 0 <= k < i ==> #[trigger] items@[k] == k,
            decreases n - i,
        {
            items.push(i);
            i = i + 1;
        }
        let ghost all = items@;
        let (t, _) = BvhShape::from_range(keys, items, 0);
        assert(n == 0 ==> t is Empty);
        proof {
            assert forall|o: usize| t.holds(o) <==> o < keys@.len() by {
                if o < keys@.len() {
                    assert(all[o as int] == o);
                    assert(all.contains(o));
                }
                if t.holds(o) {
                    assert(all.contains(o));
                    let k = choose|k: int| 0 <= k < all.len() && all[k] == o;
                }
            }
        }
        t
    }
}

impl BvhShape {
    /// `sub` is this node or lies under it.
    pub open spec fn contains_node(self, sub: BvhShape) -> bool
        decreases self,
    {
        self == sub || match self {
            BvhShape::Empty | BvhShape::Object(_) => false,
            BvhShape::Node { left, right, .. } => left.contains_node(sub) || right.contains_node(sub),
        }
    }

    /// Some node numbered `id`, at or under this one, holds the surface `o`.
    pub open spec fn id_holds(self, id: usize, o: usize) -> bool
        decreases self,
    {
        match self {
            BvhShape::Empty | BvhShape::Object(_) => false,
            BvhShape::Node { id: i, left, right, .. } => (i == id && self.holds(o)) || left.id_holds(id, o)
                || right.id_holds(id, o),
        }
    }

    /// Number of nodes and surfaces in the tree.
    pub open spec fn size(self) -> nat
        decreases self,
    {
        match self {
            BvhShape::Empty | BvhShape::Object(_) => 1,
            BvhShape::Node { left, right, .. } => 1 + left.size() + right.size(),
        }
    }
}

/// Total size of the subtrees still to visit.
pub open spec fn pending(stack: Seq<&BvhShape>) -> nat
    decreases stack.len(),
{
    if stack.len() == 0 {
        0
    } else {
        pending(stack.drop_last()) + stack.last().size()
    }
}

/// Surface `o` needs no further probe once the nearest hit found is `best`:
/// either it was probed with a bound no tighter than `best` and reported
/// nothing better, or a node holding it was probed with such a bound and
/// reported that its box is missed.
pub open spec fn settled<B, H>(root: BvhShape, box_hit: B, object_hit: H, o: usize, best: Option<u64>) -> bool where
    B: Fn(usize, Option<u64>) -> bool,
    H: Fn(usize, Option<u64>) -> Option<u64>,
 {
    ||| probed_no_better(object_hit, o, best)
    ||| exists|id: usize, b: Option<u64>|
        no_tighter(b, best) && #[trigger] box_hit.ensures((id, b), false) && root.id_holds(id, o)
}

proof fn lemma_contains_node_children(root: BvhShape, sub: BvhShape)
    requires
        root.contains_node(sub),
        sub is Node,
    ensures
        root.contains_node(*sub->left),
        root.contains_node(*sub->right),
    decreases root,
{
    if root != sub {
        match root {
            BvhShape::Empty | BvhShape::Object(_) => {},
            BvhShape::Node { left, right, .. } => {
                if left.contains_node(sub) {
                    lemma_contains_node_children(*left, sub);
                } else {
                    lemma_contains_node_children(*right, sub);
                }
            },
        }
    } else {
        match sub {
            BvhShape::Empty | BvhShape::Object(_) => {},
            BvhShape::Node { left, right, .. } => {
                assert(left.contains_node(*left));
                assert(right.contains_node(*right));
            },
        }
    }
}

proof fn lemma_contains_node_holds(root: BvhShape, sub: BvhShape, o: usize)
    requires
        root.contains_node(sub),
        sub.holds(o),
    ensures
        root.holds(o),
        sub matches BvhShape::Node { id, .. } ==> root.id_holds(id, o),
    decreases root,
{
    if root != sub {
        match root {
            BvhShape::Empty | BvhShape::Object(_) => {},
            BvhShape::Node { left, right, .. } => {
                if left.contains_node(sub) {
                    lemma_contains_node_holds(*left, sub, o);
                } else {
                    lemma_contains_node_holds(*right, sub, o);
                }
            },
        }
    }
}

proof fn lemma_pending_push(stack: Seq<&BvhShape>, t: &BvhShape)
    ensures
        pending(stack.push(t)) == pending(stack) + t.size(),
{
    assert(stack.push(t).drop_last() == stack);
}

proof fn lemma_settled_tighter<B, H>(root: BvhShape, box_hit: B, object_hit: H, o: usize, old_best: Option<u64>, t: u64)
    where
        B: Fn(usize, Option<u64>) -> bool,
        H: Fn(usize, Option<u64>) -> Option<u64>,
    requires
        settled(root, box_hit, object_hit, o, old_best),
        below(t, old_best),
    ensures
        settled(root, box_hit, object_hit, o, Some(t)),
{
    if probed_no_better(object_hit, o, old_best) {
        let (b, res) = choose|b: Option<u64>, res: Option<u64>|
            no_tighter(b, old_best) && #[trigger] object_hit.ensures((o, b), res) && not_better(res, old_best);
        assert(no_tighter(b, Some(t)) && object_hit.ensures((o, b), res) && not_better(res, Some(t)));
    } else {
        let (id, b) = choose|id: usize, b: Option<u64>|
            no_tighter(b, old_best) && #[trigger] box_hit.ensures((id, b), false) && root.id_holds(id, o);
        assert(no_tighter(b, Some(t)) && box_hit.ensures((id, b), false) && root.id_holds(id, o));
    }
}

impl BvhShape {
    /// Finds the nearest hit of a ray among the surfaces of the hierarchy.
    /// `object_hit(o, b)` reports the parameter of the nearest hit of surface
    /// `o` below bound `b`, and `box_hit(id, b)` whether the box of node `id`
    /// is met below `b`; a bound of `None` is the query's own limit. Nodes are
    /// visited left before right, and a node whose box is missed is skipped.
    /// Returns the surface and parameter of the nearest hit reported; the
    /// empty hierarchy reports no hit.
    pub fn nearest<B, H>(&self, box_hit: &B, object_hit: &H) -> (r: Option<(usize, u64)>) where
        B: Fn(usize, Option<u64>) -> bool,
        H: Fn(usize, Option<u64>) -> Option<u64>,

        requires
            forall|id: usize, b: Option<u64>| #[trigger] box_hit.requires((id, b)),
            forall|o: usize, b: Option<u64>| #[trigger] object_hit.requires((o, b)),
        ensures
            *self is Empty ==> r is None,
            r matches Some((o, t)) ==> self.holds(o) && exists|b: Option<u64>|
                below(t, b) && #[trigger] object_hit.ensures((o, b), Some(t)),
            forall|o: usize|
                #[trigger] self.holds(o) ==> settled(
                    *self,
                    *box_hit,
                    *object_hit,
                    o,
                    best_bound(r),
                ),
    {
        let mut stack: Vec<&BvhShape> = Vec::new();
        stack.push(self);
        let mut best: Option<(usize, u64)> = None;
        let mut bound: Option<u64> = None;
        proof {
            assert(self.contains_node(*self));
            assert forall|o: usize| #[trigger] self.holds(o) implies exists|k: int|
                0 <= k < stack@.len() && #[trigger] stack@[k].holds(o) by {
                assert(stack@[0] == self);
            }
        }
        while stack.len() > 0
            invariant
                forall|id: usize, b: Option<u64>| #[trigger] box_hit.requires((id, b)),
                forall|o: usize, b: Option<u64>| #[trigger] object_hit.requires((o, b)),
                bound == best_bound(best),
                forall|k: int| 0 <= k < stack@.len() ==> self.contains_node(*#[trigger] stack@[k]),
                best matches Some((o, t)) ==> self.holds(o) && exists|b: Option<u64>|
                    below(t, b) && #[trigger] object_hit.ensures((o, b), Some(t)),
                forall|o: usize|
                    #[trigger] self.holds(o) ==> settled(*self, *box_hit, *object_hit, o, bound) || exists|
                        k: int,
                    | 0 <= k < stack@.len() && #[trigger] stack@[k].holds(o),
            decreases pending(stack@),
        {
            let ghost before = stack@;
            let ghost old_bound = bound;
            let node = stack.pop().unwrap();
            assert(before.drop_last() == stack@);
            assert(before[before.len() - 1] == node);
            match node {
                BvhShape::Empty => {
                    proof {
                        assert forall|p: usize| #[trigger] self.holds(p) implies settled(*self, *box_hit, *object_hit, p, bound) || exists|
                            k: int,
                        | 0 <= k < stack@.len() && #[trigger] stack@[k].holds(p) by {
                            if !settled(*self, *box_hit, *object_hit, p, bound) {
                                let k = choose|k: int| 0 <= k < before.len() && #[trigger] before[k].holds(p);
                                assert(k < stack@.len());
                                assert(stack@[k] == before[k]);
                            }
                        }
                    }
                },
                BvhShape::Object(o) => {
                    let res = object_hit(*o, bound);
                    proof {
                        lemma_contains_node_holds(*self, *node, *o);
                        assert(node.holds(*o));
                    }
                    let mut improved = false;
                    if let Some(t) = res {
                        let closer = match bound {
                            Some(u) => t < u,
                            None => true,
                        };
                        if closer {
                            best = Some((*o, t));
                            bound = Some(t);
                            improved = true;
                            assert(below(t, old_bound) && object_hit.ensures((*o, old_bound), Some(t)));
                        }
                    }
                    assert(best matches Some((o, t)) ==> self.holds(o) && exists|b: Option<u64>|
                        below(t, b) && #[trigger] object_hit.ensures((o, b), Some(t)));
                    proof {
                        assert forall|p: usize| #[trigger] self.holds(p) implies settled(*self, *box_hit, *object_hit, p, bound) || exists|
                            k: int,
                        | 0 <= k < stack@.len() && #[trigger] stack@[k].holds(p) by {
                            if p == *o {
                                assert(no_tighter(old_bound, bound) && object_hit.ensures((p, old_bound), res) && not_better(res, bound));
                            } else if settled(*self, *box_hit, *object_hit, p, old_bound) {
                                if improved {
                                    lemma_settled_tighter(*self, *box_hit, *object_hit, p, old_bound, bound->0);
                                }
                            } else {
                                let k = choose|k: int| 0 <= k < before.len() && #[trigger] before[k].holds(p);
                                assert(k < stack@.len());
                                assert(stack@[k] == before[k]);
                            }
                        }
                    }
                },
                BvhShape::Node { id, left, right, .. } => {
                    let met = box_hit(*id, bound);
                    proof {
                        lemma_pending_push(stack@, left);
                        lemma_pending_push(stack@.push(right), left);
                        lemma_pending_push(stack@, right);
                        lemma_contains_node_children(*self, *node);
                    }
                    if met {
                        let ghost mid = stack@;
                        stack.push(right);
                        stack.push(left);
                        proof {
                            assert forall|p: usize| #[trigger] self.holds(p) implies settled(*self, *box_hit, *object_hit, p, bound) || exists|
                                k: int,
                            | 0 <= k < stack@.len() && #[trigger] stack@[k].holds(p) by {
                                if !settled(*self, *box_hit, *object_hit, p, bound) {
                                    let k = choose|k: int| 0 <= k < before.len() && #[trigger] before[k].holds(p);
                                    assert(stack@ == mid.push(&**right).push(&**left));
                                    if k == before.len() - 1 {
                                        assert(node.holds(p));
                                        if left.holds(p) {
                                            assert(stack@[mid.len() + 1int] == &**left);
                                            assert(stack@[mid.len() + 1int].holds(p));
                                        } else {
                                            assert(stack@[mid.len() as int] == &**right);
                                            assert(stack@[mid.len() as int].holds(p));
                                        }
                                    } else {
                                        assert(stack@[k] == before[k]);
                                        assert(stack@[k].holds(p));
                                    }
                                }
                            }
                        }
                    } else {
                        proof {
                            assert forall|p: usize| #[trigger] self.holds(p) implies settled(*self, *box_hit, *object_hit, p, bound) || exists|
                                k: int,
                            | 0 <= k < stack@.len() && #[trigger] stack@[k].holds(p) by {
                                if !settled(*self, *box_hit, *object_hit, p, bound) {
                                    let k = choose|k: int| 0 <= k < before.len() && #[trigger] before[k].holds(p);
                                    if k == before.len() - 1 {
                                        lemma_contains_node_holds(*self, *node, p);
                                        assert(no_tighter(bound, bound) && box_hit.ensures((*id, bound), false) && self.id_holds(*id, p));
                                    } else {
                                        assert(stack@[k] == before[k]);
                                    }
                                }
                            }
                        }
                    }
                },
            }
        }
        best
    }
}

/// `r` is the nearest hit among the surfaces under `root`, as a scan of every
/// surface that keeps the closest hit finds it: `None` where no surface is hit,
/// else a surface hit at a parameter no greater than any other hit.
pub open spec fn is_nearest(root: BvhShape, hits: spec_fn(usize) -> Set<u64>, r: Option<(usize, u64)>) -> bool {
    match r {
        None => forall|o: usize, u: u64| root.holds(o) ==> !#[trigger] hits(o).contains(u),
        Some((o, t)) => {
            &&& root.holds(o)
            &&& hits(o).contains(t)
            &&& forall|p: usize, u: u64| root.holds(p) && #[trigger] hits(p).contains(u) ==> t <= u
        },
    }
}

/// The hierarchy finds what a linear scan finds. Let `hits(o)` be the
/// parameters at which a ray meets surface `o` within the query's range. Where
/// each surface probe reports the nearest of its hits below the bound, and a
/// box probe reports a miss only where no surface under the node is hit below
/// the bound, whatever `nearest` returns is the nearest hit of all the
/// surfaces, and `None` exactly where no surface is hit.
pub proof fn lemma_nearest_matches_linear_scan<B, H>(
    root: BvhShape,
    box_hit: B,
    object_hit: H,
    hits: spec_fn(usize) -> Set<u64>,
    r: Option<(usize, u64)>,
)
    where
        B: Fn(usize, Option<u64>) -> bool,
        H: Fn(usize, Option<u64>) -> Option<u64>,
    requires
        forall|o: usize, b: Option<u64>, res: Option<u64>|
            #[trigger] object_hit.ensures((o, b), res) ==> reports_nearest(hits(o), b, res),
        forall|id: usize, b: Option<u64>, o: usize, u: u64|
            #[trigger] box_hit.ensures((id, b), false) && root.id_holds(id, o) && #[trigger] hits(o).contains(u)
                ==> !below(u, b),
        r matches Some((o, t)) ==> root.holds(o) && exists|b: Option<u64>|
            below(t, b) && #[trigger] object_hit.ensures((o, b), Some(t)),
        forall|o: usize| #[trigger] root.holds(o) ==> settled(root, box_hit, object_hit, o, best_bound(r)),
    ensures
        is_nearest(root, hits, r),
{
    let best = best_bound(r);
    assert forall|p: usize, u: u64| root.holds(p) && #[trigger] hits(p).contains(u) implies (best matches Some(
        t,
    ) && t <= u) by {
        assert(settled(root, box_hit, object_hit, p, best));
        if probed_no_better(object_hit, p, best) {
            let (b, res) = choose|b: Option<u64>, res: Option<u64>|
                no_tighter(b, best) && #[trigger] object_hit.ensures((p, b), res) && not_better(res, best);
            assert(reports_nearest(hits(p), b, res));
            if best is None || u < best->0 {
                assert(below(u, b));
            }
        } else {
            let (id, b) = choose|id: usize, b: Option<u64>|
                no_tighter(b, best) && #[trigger] box_hit.ensures((id, b), false) && root.id_holds(id, p);
            assert(!below(u, b));
        }
    }
    if let Some((o, t)) = r {
        let b = choose|b: Option<u64>| below(t, b) && #[trigger] object_hit.ensures((o, b), Some(t));
        assert(reports_nearest(hits(o), b, Some(t)));
    }
}

/// The hierarchy finds the same nearest hit as a linear scan over the same
/// surfaces. Let `hits(o)` be the parameters at which a ray meets surface `o`
/// within the query's range, for a hierarchy over the surfaces `0..n`. Where
/// the probes of both searches report the nearest hit of a surface below the
/// bound, and the hierarchy's box probes report a miss only where no surface
/// under the node is hit below the bound, `nearest` and `scan_nearest` return
/// a hit at the same parameter, or both nothing.
pub proof fn lemma_hierarchy_matches_scan<B, H, G>(
    root: BvhShape,
    n: nat,
    box_hit: B,
    object_hit: H,
    scan_hit: G,
    hits: spec_fn(usize) -> Set<u64>,
    r_tree: Option<(usize, u64)>,
    r_scan: Option<(usize, u64)>,
)
    where
        B: Fn(usize, Option<u64>) -> bool,
        H: Fn(usize, Option<u64>) -> Option<u64>,
        G: Fn(usize, Option<u64>) -> Option<u64>,
    requires
        forall|o: usize| #[trigger] root.holds(o) <==> o < n,
        forall|o: usize, b: Option<u64>, res: Option<u64>|
            #[trigger] object_hit.ensures((o, b), res) ==> reports_nearest(hits(o), b, res),
        forall|o: usize, b: Option<u64>, res: Option<u64>|
            #[trigger] scan_hit.ensures((o, b), res) ==> reports_nearest(hits(o), b, res),
        forall|id: usize, b: Option<u64>, o: usize, u: u64|
            #[trigger] box_hit.ensures((id, b), false) && root.id_holds(id, o) && #[trigger] hits(o).contains(u)
                ==> !below(u, b),
        r_tree matches Some((o, t)) ==> root.holds(o) && exists|b: Option<u64>|
            below(t, b) && #[trigger] object_hit.ensures((o, b), Some(t)),
        forall|o: usize| #[trigger] root.holds(o) ==> settled(root, box_hit, object_hit, o, best_bound(r_tree)),
        r_scan matches Some((o, t)) ==> o < n && exists|b: Option<u64>|
            below(t, b) && #[trigger] scan_hit.ensures((o, b), Some(t)),
        forall|o: usize| o < n ==> #[trigger] probed_no_better(scan_hit, o, best_bound(r_scan)),
    ensures
        best_bound(r_tree) == best_bound(r_scan),
{
    lemma_nearest_matches_linear_scan(root, box_hit, object_hit, hits, r_tree);
    lemma_scan_finds_nearest(n, scan_hit, hits, r_scan);
    match (r_tree, r_scan) {
        (Some((o, t)), Some((p, u))) => {
            assert(root.holds(p));
            assert(hits(p).contains(u));
            assert(hits(o).contains(t));
        },
        (Some((o, t)), None) => {
            assert(hits(o).contains(t));
        },
        (None, Some((p, u))) => {
            assert(root.holds(p));
            assert(hits(p).contains(u));
        },
        (None, None) => {},
    }
}

} // verus!
