//! Lattice tables of Perlin noise: three shuffled permutations of the lattice
//! indices, one per axis, that pick the gradient at each corner of a cell.

use vstd::prelude::*;
use crate::random::random_up_to;

verus! {

/// Number of gradients, and length of each permutation table.
pub const POINT_COUNT: usize = 256;

/// `s` is a permutation of `0..n`: `n` distinct values, each below `n`.
pub open spec fn is_permutation(s: Seq<usize>, n: nat) -> bool {
    &&& s.len() == n
    &&& forall|i: int| 0 <= i < n ==> #[trigger] s[i] < n
    &&& forall|i: int, j: int| 0 <= i < j < n ==> #[trigger] s[i] != #[trigger] s[j]
}

/// `s` with the entries at `i` and `j` exchanged.
pub open spec fn swapped(s: Seq<usize>, i: int, j: int) -> Seq<usize> {
    s.update(i, s[j]).update(j, s[i])
}

/// The steps of a Fisher-Yates shuffle from position `i - 1` down to 0: the
/// entry at each position `k` is exchanged with the one at `draws[k]`.
pub open spec fn swap_down(s: Seq<usize>, draws: Seq<usize>, i: nat) -> Seq<usize>
    decreases i,
{
    if i == 0 {
        s
    } else {
        let k = (i - 1) as nat;
        swap_down(swapped(s, k as int, draws[k as int] as int), draws, k)
    }
}

/// `0, 1, ..., n - 1`.
pub open spec fn identity(n: nat) -> Seq<usize> {
    Seq::new(n, |k: int| k as usize)
}

/// The Fisher-Yates shuffle of `0..n` under the drawn positions `draws`.
pub open spec fn shuffled(n: nat, draws: Seq<usize>) -> Seq<usize> {
    swap_down(identity(n), draws, n)
}

/// Shuffles `0..n` by Fisher-Yates: from the last position down to the first,
/// the entry at position `k` is exchanged with the one at `draws[k]`, a
/// position no later than `k`.
pub fn shuffle_with(n: usize, draws: &Vec<usize>) -> (p: Vec<usize>)
    requires
        draws@.len() == n,
        forall|k: int| 0 <= k < n ==> #[trigger] draws@[k] <= k,
    ensures
        p@ == shuffled(n as nat, draws@),
        is_permutation(p@, n as nat),
{
    let mut p: Vec<usize> = Vec::new();
    let mut i: usize = 0;
    while i < n
        invariant
            i <= n,
            p@.len() == i,
            forall|k: int| 0 <= k < i ==> p@[k] == k,
        decreases n - i,
    {
        p.push(i);
        i = i + 1;
    }
    assert(p@ == identity(n as nat));
    let mut i: usize = n;
    while i > 0
        invariant
            i <= n,
            draws@.len() == n,
            forall|k: int| 0 <= k < n ==> #[trigger] draws@[k] <= k,
            is_permutation(p@, n as nat),
            swap_down(p@, draws@, i as nat) == shuffled(n as nat, draws@),
        decreases i,
    {
        i = i - 1;
        let target = draws[i];
        let a = p[i];
        let b = p[target];
        p.set(i, b);
        p.set(target, a);
    }
    p
}

/// A uniformly shuffled permutation of `0..n`: draws, for each position `k`,
/// a position no later than `k`, and shuffles with those draws.
pub fn random_permutation(n: usize) -> (p: Vec<usize>)
    ensures
        is_permutation(p@, n as nat),
{
    let mut draws: Vec<usize> = Vec::new();
    let mut k: usize = 0;
    while k < n
        invariant
            k <= n,
            draws@.len() == k,
            forall|m: int| 0 <= m < k ==> #[trigger] draws@[m] <= m,
        decreases n - k,
    {
        draws.push(random_up_to(k));
        k = k + 1;
    }
    shuffle_with(n, &draws)
}

/// Position of integer coordinate `c` within the lattice's period.
pub open spec fn lattice_cell(c: int) -> nat {
    (c % (POINT_COUNT as int)) as nat
}

/// Wraps an integer coordinate into `0..POINT_COUNT`, counting from below for
/// negative coordinates.
pub fn wrap_cell(c: i64) -> (r: usize)
    ensures
        r == lattice_cell(c as int),
        r < POINT_COUNT,
{
    let m: i64 = c % 256;
    if m < 0 {
        (m + 256) as usize
    } else {
        m as usize
    }
}

/// The three permutation tables of a Perlin noise generator.
#[derive(Debug)]
pub struct PerlinLattice {
    perm_x: Vec<usize>,
    perm_y: Vec<usize>,
    perm_z: Vec<usize>,
}

/// Looking a cell up twice in one lattice gives the same gradient indices both
/// times: the lookup depends on the tables and the cell alone, and draws nothing.
pub proof fn lemma_corners_deterministic(
    lattice: PerlinLattice,
    i: i32,
    j: i32,
    k: i32,
    first: Seq<usize>,
    second: Seq<usize>,
)
    requires
        lattice.wf(),
        first == lattice.cell_corners(i as int, j as int, k as int),
        second == lattice.cell_corners(i as int, j as int, k as int),
    ensures
        first == second,
{
}

impl PerlinLattice {
    pub closed spec fn table_x(&self) -> Seq<usize> {
        self.perm_x@
    }

    pub closed spec fn table_y(&self) -> Seq<usize> {
        self.perm_y@
    }

    pub closed spec fn table_z(&self) -> Seq<usize> {
        self.perm_z@
    }

    pub open spec fn wf(&self) -> bool {
        &&& is_permutation(self.table_x(), POINT_COUNT as nat)
        &&& is_permutation(self.table_y(), POINT_COUNT as nat)
        &&& is_permutation(self.table_z(), POINT_COUNT as nat)
    }

    /// Index of the gradient at lattice corner `(i, j, k)`.
    pub open spec fn corner(&self, i: int, j: int, k: int) -> usize {
        self.table_x()[lattice_cell(i) as int] ^ self.table_y()[lattice_cell(j) as int]
            ^ self.table_z()[lattice_cell(k) as int]
    }

    /// Gradient indices at the eight corners of the cell whose least corner is
    /// `(i, j, k)`; corner `4 * di + 2 * dj + dk` lies at `(i + di, j + dj, k + dk)`.
    pub open spec fn cell_corners(&self, i: int, j: int, k: int) -> Seq<usize> {
        Seq::new(8, |m: int| self.corner(i + m / 4, j + (m / 2) % 2, k + m % 2))
    }

    /// Fresh tables, each shuffled independently.
    pub fn new() -> (r: PerlinLattice)
        ensures
            r.wf(),
    {
        PerlinLattice {
            perm_x: random_permutation(POINT_COUNT),
            perm_y: random_permutation(POINT_COUNT),
            perm_z: random_permutation(POINT_COUNT),
        }
    }

    /// Gradient indices at the eight corners of the cell whose least corner is
    /// `(i, j, k)`, each below `POINT_COUNT`.
    pub fn corners(&self, i: i32, j: i32, k: i32) -> (r: Vec<usize>)
        requires
            self.wf(),
        ensures
            r@ == self.cell_corners(i as int, j as int, k as int),
            forall|m: int| 0 <= m < 8 ==> #[trigger] r@[m] < POINT_COUNT,
    {
        let mut r: Vec<usize> = Vec::new();
        let mut di: i64 = 0;
        while di < 2
            invariant
                0 <= di <= 2,
                self.wf(),
                r@.len() == 4 * di,
                forall|m: int| 0 <= m < r@.len() ==> #[trigger] r@[m] == self.cell_corners(i as int, j as int, k as int)[m],
                forall|m: int| 0 <= m < r@.len() ==> #[trigger] r@[m] < POINT_COUNT,
            decreases 2 - di,
        {
            let xterm = self.perm_x[wrap_cell(i as i64 + di)];
            let mut dj: i64 = 0;
            while dj < 2
                invariant
                    0 <= di < 2,
                    0 <= dj <= 2,
                    self.wf(),
                    xterm == self.table_x()[lattice_cell(i + di) as int],
                    r@.len() == 4 * di + 2 * dj,
                    forall|m: int| 0 <= m < r@.len() ==> #[trigger] r@[m] == self.cell_corners(i as int, j as int, k as int)[m],
                    forall|m: int| 0 <= m < r@.len() ==> #[trigger] r@[m] < POINT_COUNT,
                decreases 2 - dj,
            {
                let yterm = self.perm_y[wrap_cell(j as i64 + dj)];
                let mut dk: i64 = 0;
                while dk < 2
                    invariant
                        0 <= di < 2,
                        0 <= dj < 2,
                        0 <= dk <= 2,
                        self.wf(),
                        xterm == self.table_x()[lattice_cell(i + di) as int],
                        yterm == self.table_y()[lattice_cell(j + dj) as int],
                        r@.len() == 4 * di + 2 * dj + dk,
                        forall|m: int| 0 <= m < r@.len() ==> #[trigger] r@[m] == self.cell_corners(i as int, j as int, k as int)[m],
                        forall|m: int| 0 <= m < r@.len() ==> #[trigger] r@[m] < POINT_COUNT,
                    decreases 2 - dk,
                {
                    let zterm = self.perm_z[wrap_cell(k as i64 + dk)];
                    let index = xterm ^ yterm ^ zterm;
                    assert(xterm < 256 && yterm < 256 && zterm < 256 ==> (xterm ^ yterm ^ zterm) < 256)
                        by (bit_vector);
                    let ghost m: int = 4 * di + 2 * dj + dk;
                    assert(m / 4 == di && (m / 2) % 2 == dj && m % 2 == dk);
                    r.push(index);
                    dk = dk + 1;
                }
                dj = dj + 1;
            }
            di = di + 1;
        }
        r
    }
}

} // verus!
