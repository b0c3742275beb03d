use vstd::prelude::*;

verus! {

/// Fixed-point scale of trail levels: this value stands for 1.
pub const PHEROMONE_ONE: u64 = 1_000_000_000_000;

/// Fixed-point scale of rates (decay, evaporation, exploitation threshold):
/// this value stands for 1.
pub const RATE_ONE: u64 = 1_000_000;

/// The convex combination `(1 - rate) * old + rate * target`, rounded down,
/// with `rate` in units of `RATE_ONE`.
pub open spec fn blend(old: nat, target: nat, rate: nat) -> nat {
    (((RATE_ONE - rate) * old + rate * target) / RATE_ONE as int) as nat
}

/// A blend of two values with a rate in `[0, 1]` lies between them.
pub proof fn lemma_blend_between(old: nat, target: nat, rate: nat)
    requires
        rate <= RATE_ONE,
    ensures
        old <= target ==> old <= blend(old, target, rate) <= target,
        target <= old ==> target <= blend(old, target, rate) <= old,
{
    let lo = if old <= target { old } else { target };
    let hi = if old <= target { target } else { old };
    let s = (RATE_ONE - rate) * old + rate * target;
    assert(lo * RATE_ONE <= s <= hi * RATE_ONE) by (nonlinear_arith)
        requires
            s == (RATE_ONE - rate) * old + rate * target,
            rate <= RATE_ONE,
            lo <= old <= hi,
            lo <= target <= hi,
    ;
    assert(lo <= s / RATE_ONE as int <= hi) by (nonlinear_arith)
        requires lo * RATE_ONE <= s <= hi * RATE_ONE, s >= 0;
}

/// After an edge is blended towards `target` with a rate in `[0, 1]`, its
/// new level lies between its old level and `target`, both included; this is
/// the bound of the local update (`target` = tau0) and of the global update
/// (`target` = the deposit of the best tour).
pub proof fn lemma_update_edge_between(
    before: PheromoneMatrix,
    after: PheromoneMatrix,
    i: nat,
    j: nat,
    target: nat,
    rate: nat,
)
    requires
        before.well_formed(),
        i < before.dim,
        j < before.dim,
        rate <= RATE_ONE,
        target <= u64::MAX,
        after.dim == before.dim,
        after.cells@ == before.cells@.update(
            cell_index(before.dim as nat, i, j),
            blend(before.level(i, j) as nat, target, rate) as u64,
        ),
    ensures
        before.level(i, j) <= target ==> before.level(i, j) <= after.level(i, j) <= target,
        target <= before.level(i, j) ==> target <= after.level(i, j) <= before.level(i, j),
        after.level(i, j) == after.level(j, i),
{
    lemma_cell_index_bounds(before.dim as nat, i, j);
    lemma_blend_between(before.level(i, j) as nat, target, rate);
}

/// Position of the cell that backs the undirected edge `{i, j}`.
pub open spec fn cell_index(dim: nat, i: nat, j: nat) -> int {
    if i <= j {
        (i * dim + j) as int
    } else {
        (j * dim + i) as int
    }
}

/// The cell of an edge between two cities lies inside the matrix.
pub proof fn lemma_cell_index_bounds(dim: nat, i: nat, j: nat)
    requires
        i < dim,
        j < dim,
    ensures
        0 <= cell_index(dim, i, j) < dim * dim,
        i * dim + j < dim * dim,
        j * dim + i < dim * dim,
        i * dim <= dim * dim,
        j * dim <= dim * dim,
{
    assert(0 <= i * dim + j < dim * dim) by (nonlinear_arith)
        requires i < dim, j < dim;
    assert(0 <= j * dim + i < dim * dim) by (nonlinear_arith)
        requires i < dim, j < dim;
    assert(i * dim <= dim * dim && j * dim <= dim * dim) by (nonlinear_arith)
        requires i < dim, j < dim;
}

/// Cell `k` backs no edge: it lies below the diagonal, or on it when there
/// are two or more cities (a tour then never stays on one city).
pub open spec fn backs_no_edge(dim: nat, k: int) -> bool {
    k / (dim as int) > k % (dim as int) || (k / (dim as int) == k % (dim as int) && dim >= 2)
}

/// Every cell that backs no edge has the same level in `before` and `after`.
pub open spec fn unused_cells_kept(before: Seq<u64>, after: Seq<u64>, dim: nat) -> bool {
    forall|k: int|
        0 <= k < before.len() && backs_no_edge(dim, k) ==> #[trigger] after[k] == before[k]
}

/// Keeping the unused cells through two steps keeps them through both.
pub proof fn lemma_unused_cells_kept_trans(a: Seq<u64>, b: Seq<u64>, c: Seq<u64>, dim: nat)
    requires
        a.len() == b.len(),
        unused_cells_kept(a, b, dim),
        unused_cells_kept(b, c, dim),
    ensures
        unused_cells_kept(a, c, dim),
{
    assert forall|k: int| 0 <= k < a.len() && backs_no_edge(dim, k) implies #[trigger] c[k] == a[k] by {
        assert(b[k] == a[k]);
        assert(c[k] == b[k]);
    }
}

/// The cell of an edge between two cities is one that backs an edge: on or
/// above the diagonal, and on it only when both ends are the same city.
pub proof fn lemma_edge_cell_used(dim: nat, i: nat, j: nat)
    requires
        i < dim,
        j < dim,
        i != j || dim < 2,
    ensures
        !backs_no_edge(dim, cell_index(dim, i, j)),
{
    let lo = if i <= j { i } else { j };
    let hi = if i <= j { j } else { i };
    vstd::arithmetic::div_mod::lemma_fundamental_div_mod_converse(
        cell_index(dim, i, j),
        dim as int,
        lo as int,
        hi as int,
    );
}

/// The symmetric matrix of trail levels, one cell per undirected edge.
pub struct PheromoneMatrix {
    pub dim: usize,
    pub cells: Vec<u64>,
}

impl PheromoneMatrix {
    /// The cells cover every edge and every level is positive.
    pub open spec fn well_formed(&self) -> bool {
        &&& self.cells@.len() == self.dim * self.dim
        &&& forall|k: int| 0 <= k < self.cells@.len() ==> #[trigger] self.cells@[k] > 0
    }

    /// Trail level on the edge `{i, j}`.
    pub open spec fn level(&self, i: nat, j: nat) -> u64 {
        self.cells@[cell_index(self.dim as nat, i, j)]
    }

    /// A matrix in which every edge has level `tau0`.
    pub fn new(dim: usize, tau0: u64) -> (r: PheromoneMatrix)
        requires
            tau0 > 0,
            dim * dim <= usize::MAX,
        ensures
            r.well_formed(),
            r.dim == dim,
            forall|k: int| 0 <= k < r.cells@.len() ==> #[trigger] r.cells@[k] == tau0,
    {
        let size: usize = dim * dim;
        let mut cells: Vec<u64> = Vec::new();
        for k in 0..size
            invariant
                cells@.len() == k,
                forall|m: int| 0 <= m < k ==> #[trigger] cells@[m] == tau0,
        {
            cells.push(tau0);
        }
        PheromoneMatrix { dim, cells }
    }

    /// Trail level on the edge `{i, j}`.
    pub fn get(&self, i: usize, j: usize) -> (r: u64)
        requires
            self.well_formed(),
            i < self.dim,
            j < self.dim,
        ensures
            r == self.level(i as nat, j as nat),
            r > 0,
    {
        proof {
            lemma_cell_index_bounds(self.dim as nat, i as nat, j as nat);
        }
        let size: usize = self.cells.len();
        let k: usize = if i <= j { i * self.dim + j } else { j * self.dim + i };
        assert(k < size);
        self.cells[k]
    }

    /// Moves the level of the edge `{i, j}` towards `target` by `rate`;
    /// every other edge keeps its level.
    pub fn update_edge(&mut self, i: usize, j: usize, target: u64, rate: u64)
        requires
            old(self).well_formed(),
            i < old(self).dim,
            j < old(self).dim,
            target > 0,
            rate <= RATE_ONE,
        ensures
            final(self).well_formed(),
            final(self).dim == old(self).dim,
            final(self).cells@ == old(self).cells@.update(
                cell_index(old(self).dim as nat, i as nat, j as nat),
                blend(old(self).level(i as nat, j as nat) as nat, target as nat, rate as nat) as u64,
            ),
            i != j || old(self).dim < 2 ==> unused_cells_kept(
                old(self).cells@,
                final(self).cells@,
                old(self).dim as nat,
            ),
    {
        proof {
            lemma_cell_index_bounds(self.dim as nat, i as nat, j as nat);
        }
        let size: usize = self.cells.len();
        let k: usize = if i <= j { i * self.dim + j } else { j * self.dim + i };
        assert(k < size);
        let old_val = self.cells[k];
        proof {
            lemma_blend_between(old_val as nat, target as nat, rate as nat);
        }
        assert((RATE_ONE - rate) * old_val + rate * target <= 0xffff_ffff_ffff_ffff_ffff_ffff_ffff_ffffint)
            by (nonlinear_arith)
            requires rate <= RATE_ONE, old_val <= u64::MAX, target <= u64::MAX;
        let s: u128 = (RATE_ONE - rate) as u128 * old_val as u128 + rate as u128 * target as u128;
        let v: u64 = (s / RATE_ONE as u128) as u64;
        self.cells.set(k, v);
        proof {
            if i != j || self.dim < 2 {
                lemma_edge_cell_used(self.dim as nat, i as nat, j as nat);
            }
        }
    }
}

} // verus!
