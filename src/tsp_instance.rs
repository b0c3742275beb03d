use crate::input_parser::{FileType, lemma_triangle, triangle};
use vstd::prelude::*;

verus! {

/// `r` is the integer square root of `x`, rounded down.
pub open spec fn is_floor_sqrt(x: nat, r: nat) -> bool {
    r * r <= x && x < (r + 1) * (r + 1)
}

/// Squared Euclidean distance between two points.
pub open spec fn squared_distance(p1: (i64, i64), p2: (i64, i64)) -> nat {
    ((p2.0 - p1.0) * (p2.0 - p1.0) + (p2.1 - p1.1) * (p2.1 - p1.1)) as nat
}

/// Largest magnitude of a coordinate (2^62).
pub const COORD_LIMIT: i64 = 0x4000_0000_0000_0000;

/// Every coordinate of every point lies within `COORD_LIMIT` of zero.
pub open spec fn all_within(coord: Seq<(i64, i64)>) -> bool {
    forall|k: int|
        0 <= k < coord.len() ==> -COORD_LIMIT <= (#[trigger] coord[k]).0 <= COORD_LIMIT && -COORD_LIMIT
            <= coord[k].1 <= COORD_LIMIT
}

/// A floor square root is unique.
pub proof fn lemma_floor_sqrt_unique(x: nat, r1: nat, r2: nat)
    requires
        is_floor_sqrt(x, r1),
        is_floor_sqrt(x, r2),
    ensures
        r1 == r2,
{
    if r1 < r2 {
        assert((r1 + 1) * (r1 + 1) <= r2 * r2) by (nonlinear_arith)
            requires r1 + 1 <= r2;
    } else if r2 < r1 {
        assert((r2 + 1) * (r2 + 1) <= r1 * r1) by (nonlinear_arith)
            requires r2 + 1 <= r1;
    }
}

/// Integer square root, rounded down, by bisection.
pub fn floor_sqrt(x: u128) -> (r: u64)
    ensures
        is_floor_sqrt(x as nat, r as nat),
{
    let mut lo: u128 = 0;
    let mut hi: u128 = 0x1_0000_0000_0000_0000;
    assert(x < hi * hi) by (nonlinear_arith)
        requires hi == 0x1_0000_0000_0000_0000u128, x <= u128::MAX;
    while hi - lo > 1
        invariant
            lo < hi <= 0x1_0000_0000_0000_0000u128,
            lo * lo <= x,
            x < hi * hi,
        decreases hi - lo,
    {
        let mid: u128 = lo + (hi - lo) / 2;
        assert(mid * mid < 0x1_0000_0000_0000_0000_0000_0000_0000_0000int) by (nonlinear_arith)
            requires mid < 0x1_0000_0000_0000_0000u128;
        if mid * mid <= x {
            lo = mid;
        } else {
            hi = mid;
        }
    }
    assert(hi == lo + 1);
    lo as u64
}

/// Euclidean distance between two points, rounded down to a whole unit.
pub fn distance(p1: (i64, i64), p2: (i64, i64)) -> (r: u64)
    requires
        -COORD_LIMIT <= p1.0 <= COORD_LIMIT,
        -COORD_LIMIT <= p1.1 <= COORD_LIMIT,
        -COORD_LIMIT <= p2.0 <= COORD_LIMIT,
        -COORD_LIMIT <= p2.1 <= COORD_LIMIT,
    ensures
        is_floor_sqrt(squared_distance(p1, p2), r as nat),
{
    let dx: i128 = p2.0 as i128 - p1.0 as i128;
    let dy: i128 = p2.1 as i128 - p1.1 as i128;
    assert(dx * dx <= 0x4000_0000_0000_0000_0000_0000_0000_0000int) by (nonlinear_arith)
        requires -0x8000_0000_0000_0000int <= dx <= 0x8000_0000_0000_0000int;
    assert(dy * dy <= 0x4000_0000_0000_0000_0000_0000_0000_0000int) by (nonlinear_arith)
        requires -0x8000_0000_0000_0000int <= dy <= 0x8000_0000_0000_0000int;
    assert(dx * dx >= 0 && dy * dy >= 0) by (nonlinear_arith);
    let sq: u128 = (dx * dx) as u128 + (dy * dy) as u128;
    floor_sqrt(sq)
}


/// A matrix of whole-unit distances: a row per city, a column per city.
pub open spec fn is_square(grid: Seq<Vec<u64>>, dim: nat) -> bool {
    grid.len() == dim && forall|i: int| 0 <= i < dim ==> #[trigger] grid[i]@.len() == dim
}

/// The matrix is symmetric with a zero diagonal.
pub open spec fn is_symmetric_zero_diagonal(grid: Seq<Vec<u64>>) -> bool {
    &&& forall|i: int, j: int|
        0 <= i < grid.len() && 0 <= j < grid.len() ==> #[trigger] grid[i]@[j] == grid[j]@[i]
    &&& forall|i: int| 0 <= i < grid.len() ==> #[trigger] grid[i]@[i] == 0
}

/// Each entry of `grid` is the rounded-down Euclidean distance between two of `coord`.
pub open spec fn is_euclidean(grid: Seq<Vec<u64>>, coord: Seq<(i64, i64)>) -> bool {
    &&& is_square(grid, coord.len())
    &&& forall|i: int, j: int|
        0 <= i < coord.len() && 0 <= j < coord.len() ==> is_floor_sqrt(
            squared_distance(coord[i], coord[j]),
            #[trigger] grid[i]@[j] as nat,
        )
}

/// A distance matrix computed from coordinates is symmetric with a zero diagonal.
pub proof fn lemma_euclidean_symmetric(grid: Seq<Vec<u64>>, coord: Seq<(i64, i64)>)
    requires
        is_euclidean(grid, coord),
    ensures
        is_symmetric_zero_diagonal(grid),
{
    assert forall|i: int, j: int|
        0 <= i < grid.len() && 0 <= j < grid.len() implies #[trigger] grid[i]@[j] == grid[j]@[i] by {
        assert(squared_distance(coord[i], coord[j]) == squared_distance(coord[j], coord[i])) by (nonlinear_arith);
        lemma_floor_sqrt_unique(squared_distance(coord[i], coord[j]), grid[i]@[j] as nat, grid[j]@[i] as nat);
    }
    assert forall|i: int| 0 <= i < grid.len() implies #[trigger] grid[i]@[i] == 0 by {
        assert(squared_distance(coord[i], coord[i]) == 0) by (nonlinear_arith);
        assert(is_floor_sqrt(0, grid[i]@[i] as nat));
        assert(grid[i]@[i] == 0) by (nonlinear_arith)
            requires is_floor_sqrt(0, grid[i]@[i] as nat);
    }
}

/// Builds the distance matrix of a set of points.
pub fn parse_coordinates(coord: Vec<(i64, i64)>, dim: u32) -> (grid: Vec<Vec<u64>>)
    requires
        coord.len() == dim,
        all_within(coord@),
    ensures
        is_euclidean(grid@, coord@),
        is_symmetric_zero_diagonal(grid@),
{
    let n = coord.len();
    let mut grid: Vec<Vec<u64>> = Vec::new();
    for i in 0..n
        invariant
            n == coord.len(),
            all_within(coord@),
            grid.len() == i,
            forall|a: int| 0 <= a < i ==> #[trigger] grid[a]@.len() == n,
            forall|a: int, b: int|
                0 <= a < i && 0 <= b < n ==> is_floor_sqrt(
                    squared_distance(coord[a], coord[b]),
                    #[trigger] grid[a]@[b] as nat,
                ),
    {
        let mut row: Vec<u64> = Vec::new();
        for j in 0..n
            invariant
                n == coord.len(),
                all_within(coord@),
                0 <= i < n,
                row.len() == j,
                forall|b: int|
                    0 <= b < j ==> is_floor_sqrt(
                        squared_distance(coord[i as int], coord[b]),
                        #[trigger] row[b] as nat,
                    ),
        {
            row.push(distance(coord[i], coord[j]));
        }
        grid.push(row);
    }
    proof {
        lemma_euclidean_symmetric(grid@, coord@);
    }
    grid
}

/// Distance between cities `i` and `j` in explicit distances: row by row
/// of the full matrix, or, for a lower triangle with its diagonal, the
/// entry in row `max(i, j)` and column `min(i, j)`.
pub open spec fn explicit_entry(data: Seq<u64>, dim: nat, i: int, j: int) -> u64 {
    if data.len() == dim * dim {
        data[i * dim + j]
    } else if i >= j {
        data[triangle(i as nat) + j]
    } else {
        data[triangle(j as nat) + i]
    }
}

proof fn lemma_triangle_index(lo: nat, hi: nat, n: nat)
    requires
        lo <= hi < n,
    ensures
        triangle(hi) + lo < triangle(n),
    decreases n,
{
    if hi + 1 < n {
        lemma_triangle_index(lo, hi, (n - 1) as nat);
    }
}

/// The distance matrix given by explicit distances.
pub fn explicit_grid(data: &Vec<u64>, dim: u32) -> (grid: Vec<Vec<u64>>)
    requires
        data@.len() == dim * dim || data@.len() == triangle(dim as nat),
    ensures
        is_square(grid@, dim as nat),
        forall|i: int, j: int|
            0 <= i < dim && 0 <= j < dim ==> #[trigger] grid@[i]@[j] == explicit_entry(data@, dim as nat, i, j),
{
    let n: usize = dim as usize;
    let len: usize = data.len();
    assert(dim * dim <= 0xffff_ffff_ffff_ffffint) by (nonlinear_arith)
        requires dim <= 0xffff_ffffint;
    let full: bool = len as u64 == dim as u64 * dim as u64;
    let mut grid: Vec<Vec<u64>> = Vec::new();
    for i in 0..n
        invariant
            n == dim,
            len == data@.len(),
            data@.len() == dim * dim || data@.len() == triangle(dim as nat),
            full == (data@.len() == dim * dim),
            grid@.len() == i,
            forall|a: int| 0 <= a < i ==> #[trigger] grid@[a]@.len() == n,
            forall|a: int, b: int|
                0 <= a < i && 0 <= b < n ==> #[trigger] grid@[a]@[b] == explicit_entry(data@, dim as nat, a, b),
    {
        let mut row: Vec<u64> = Vec::new();
        for j in 0..n
            invariant
                n == dim,
                len == data@.len(),
                data@.len() == dim * dim || data@.len() == triangle(dim as nat),
                full == (data@.len() == dim * dim),
                0 <= i < n,
                row@.len() == j,
                forall|b: int| 0 <= b < j ==> #[trigger] row@[b] == explicit_entry(data@, dim as nat, i as int, b),
        {
            let v: u64 = if full {
                assert(i * n + j < n * n) by (nonlinear_arith)
                    requires i < n, j < n;
                assert(i * n <= n * n) by (nonlinear_arith)
                    requires i < n;
                data[i * n + j]
            } else {
                let hi: usize = if i >= j { i } else { j };
                let lo: usize = if i >= j { j } else { i };
                proof {
                    lemma_triangle(hi as nat);
                    lemma_triangle_index(lo as nat, hi as nat, n as nat);
                }
                assert(hi * (hi + 1) < 0x1_0000_0000_0000_0000int) by (nonlinear_arith)
                    requires hi < 0x1_0000_0000int;
                let t: u64 = hi as u64 * (hi as u64 + 1) / 2;
                data[t as usize + lo]
            };
            row.push(v);
        }
        grid.push(row);
    }
    grid
}

/// Turns a 1-based tour as read from a file into city indices: the sign is
/// dropped and one is subtracted, so the closing `-1` of a tour becomes city 0.
pub open spec fn city_of_entry(n: i32) -> u32 {
    if n == 0 {
        u32::MAX
    } else if n > 0 {
        (n - 1) as u32
    } else {
        (-n - 1) as u32
    }
}

/// Converts a tour read from a file into city indices.
pub fn parse_solution(sol: Option<Vec<i32>>) -> (r: Option<Vec<u32>>)
    ensures
        sol is None <==> r is None,
        sol is Some ==> r->0@ == sol->0@.map_values(|n: i32| city_of_entry(n)),
{
    let sol = match sol {
        Some(s) => s,
        None => return None,
    };
    let mut ret: Vec<u32> = Vec::new();
    for k in 0..sol.len()
        invariant
            ret@ == sol@.take(k as int).map_values(|n: i32| city_of_entry(n)),
    {
        let n = sol[k];
        let c: u32 = if n == 0 {
            u32::MAX
        } else if n > 0 {
            (n - 1) as u32
        } else {
            (-(n as i64) - 1) as u32
        };
        ret.push(c);
        assert(sol@.take(k + 1) == sol@.take(k as int).push(n));
    }
    assert(sol@.take(sol.len() as int) == sol@);
    Some(ret)
}


/// Length of the path that visits `s` in order: the sum of the distances of
/// consecutive entries.
pub open spec fn path_cost(grid: Seq<Vec<u64>>, s: Seq<u32>) -> nat
    decreases s.len(),
{
    if s.len() < 2 {
        0
    } else {
        (path_cost(grid, s.drop_last()) + grid[s[s.len() - 2] as int]@[s.last() as int]) as nat
    }
}

/// Every entry of `s` names a city below `dim`.
pub open spec fn all_below(s: Seq<u32>, dim: nat) -> bool {
    forall|k: int| 0 <= k < s.len() ==> (#[trigger] s[k] as nat) < dim
}

/// The length of a path depends on the path and the distance matrix alone:
/// two instances with the same matrix give equal paths equal lengths.
pub proof fn lemma_cost_deterministic(w1: TspInstance, w2: TspInstance, s1: Seq<u32>, s2: Seq<u32>)
    requires
        w1.grid@ == w2.grid@,
        s1 == s2,
    ensures
        w1.cost_of(s1) == w2.cost_of(s2),
{
}

/// A problem instance: the distance matrix and an optional reference tour.
pub struct TspInstance {
    pub grid: Vec<Vec<u64>>,
    pub dim: u32,
    pub solution: Option<Vec<u32>>,
}

impl TspInstance {
    /// The matrix is `dim` by `dim` and the reference tour names known cities.
    pub open spec fn well_formed(&self) -> bool {
        &&& is_square(self.grid@, self.dim as nat)
        &&& self.solution is Some ==> all_below(self.solution->0@, self.dim as nat)
    }

    /// Distance between cities `i` and `j`.
    pub open spec fn dist(&self, i: int, j: int) -> u64 {
        self.grid@[i]@[j]
    }

    /// Length of the path that visits `s` in order.
    pub open spec fn cost_of(&self, s: Seq<u32>) -> nat {
        path_cost(self.grid@, s)
    }

    /// Builds an instance from a loaded problem and an optional 1-based tour.
    pub fn new(problem: FileType, solution: Option<Vec<i32>>) -> (r: TspInstance)
        requires
            problem.well_formed(),
            solution is Some ==> all_below(
                solution->0@.map_values(|n: i32| city_of_entry(n)),
                match problem {
                    FileType::Explicit((_, dim)) => dim as nat,
                    FileType::Coordinates((_, dim)) => dim as nat,
                },
            ),
        ensures
            r.well_formed(),
            match problem {
                FileType::Explicit((data, dim)) => {
                    &&& r.dim == dim
                    &&& forall|i: int, j: int|
                        0 <= i < dim && 0 <= j < dim ==> #[trigger] r.dist(i, j) == explicit_entry(
                            data@,
                            dim as nat,
                            i,
                            j,
                        )
                    &&& data@.len() != dim * dim ==> forall|i: int, j: int|
                        0 <= i < dim && 0 <= j < dim ==> #[trigger] r.dist(i, j) == r.dist(j, i)
                },
                FileType::Coordinates((coord, dim)) => {
                    &&& r.dim == dim
                    &&& is_euclidean(r.grid@, coord@)
                    &&& is_symmetric_zero_diagonal(r.grid@)
                },
            },
            solution is None <==> r.solution is None,
            solution is Some ==> r.solution->0@ == solution->0@.map_values(
                |n: i32| city_of_entry(n),
            ),
    {
        let (grid, dim) = match problem {
            FileType::Coordinates((coord, dim)) => (parse_coordinates(coord, dim), dim),
            FileType::Explicit((data, dim)) => (explicit_grid(&data, dim), dim),
        };
        let solution = parse_solution(solution);
        TspInstance { grid, dim, solution }
    }

    /// Distance between cities `x` and `y`.
    pub fn at(&self, x: usize, y: usize) -> (r: u64)
        requires
            self.well_formed(),
            x < self.dim,
            y < self.dim,
        ensures
            r == self.dist(x as int, y as int),
    {
        self.grid[x][y]
    }

    /// The reference tour, if one was supplied, with its length.
    pub fn get_optimal_solution(&self) -> (r: Option<(&[u32], u128)>)
        requires
            self.well_formed(),
        ensures
            self.solution is None <==> r is None,
            match r {
                Some((s, c)) => s@ == self.solution->0@ && c == self.cost_of(s@),
                None => true,
            },
    {
        match &self.solution {
            Some(sol) => {
                let s = sol.as_slice();
                Some((s, self.evaluate_solution(s)))
            },
            None => None,
        }
    }

    /// Length of the path that visits `sol` in order, closing edge included
    /// when `sol` ends where it started.
    pub fn evaluate_solution(&self, sol: &[u32]) -> (r: u128)
        requires
            self.well_formed(),
            all_below(sol@, self.dim as nat),
        ensures
            r == self.cost_of(sol@),
            r < u128::MAX,
    {
        let mut dist: u128 = 0;
        if sol.len() == 0 {
            return 0;
        }
        let mut state = sol[0];
        let mut k: usize = 1;
        while k < sol.len()
            invariant
                self.well_formed(),
                all_below(sol@, self.dim as nat),
                1 <= k <= sol.len(),
                state == sol@[k - 1],
                dist == path_cost(self.grid@, sol@.take(k as int)),
                dist <= (k - 1) * 0xffff_ffff_ffff_ffffint,
            decreases sol.len() - k,
        {
            let next_state = sol[k];
            let d = self.at(state as usize, next_state as usize);
            assert(sol@.take(k + 1).drop_last() == sol@.take(k as int));
            assert(dist + d <= k * 0xffff_ffff_ffff_ffffint) by (nonlinear_arith)
                requires dist <= (k - 1) * 0xffff_ffff_ffff_ffffint, d <= 0xffff_ffff_ffff_ffffint;
            assert(k * 0xffff_ffff_ffff_ffffint < 0x1_0000_0000_0000_0000_0000_0000_0000_0000int) by (nonlinear_arith)
                requires k < 0x1_0000_0000_0000_0000int;
            dist = dist + d as u128;
            state = next_state;
            k = k + 1;
        }
        assert(sol@.take(sol.len() as int) == sol@);
        assert(dist < u128::MAX) by (nonlinear_arith)
            requires dist <= (k - 1) * 0xffff_ffff_ffff_ffffint, k <= usize::MAX;
        dist
    }
}

} // verus!
