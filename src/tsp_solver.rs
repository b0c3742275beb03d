use crate::pheromone::{
    PheromoneMatrix, PHEROMONE_ONE, RATE_ONE, backs_no_edge, blend, cell_index, unused_cells_kept,
};
use crate::tsp_instance::{TspInstance, all_below};
use rand::Rng;
use vstd::set_lib::{lemma_len_subset, lemma_subset_equality};
use vstd::prelude::*;

verus! {

/// Fixed-point scale of the visibility `1 / distance`: the visibility of an
/// edge of length 1.
pub const VISIBILITY_ONE: u64 = 1_000_000_000;

/// Largest weight a move can get (2^90); larger products are cut down to
/// it. Trail levels and visibilities at the solver's scales stay far below.
pub const WEIGHT_CAP: u128 = 0x400_0000_0000_0000_0000_0000;

/// Parameters of a run.
pub struct Config {
    /// Ants per iteration.
    pub ant_count: u32,
    /// Local decay, in units of `RATE_ONE`.
    pub pheromone_decay: u64,
    /// Global evaporation, in units of `RATE_ONE`.
    pub evaporation_rate: u64,
    /// Whole exponent of the trail level when exploring.
    pub alpha: u32,
    /// Whole exponent of the visibility.
    pub beta: u32,
    /// Probability of exploiting, in units of `RATE_ONE`.
    pub q0: u64,
    /// Number of iterations.
    pub iterations: u32,
    /// Whether each ant starts at a city drawn at random instead of city 0.
    pub random_start: bool,
}

impl Config {
    /// Decay and evaporation lie in `[0, 1]`.
    pub open spec fn well_formed(&self) -> bool {
        self.pheromone_decay <= RATE_ONE && self.evaporation_rate <= RATE_ONE
    }
}

/// Visibility of an edge of length `d`: `VISIBILITY_ONE / d`, rounded down,
/// never below 1; an edge of length 0 counts as length 1.
pub open spec fn visibility(d: u64) -> nat {
    if d <= 1 {
        VISIBILITY_ONE as nat
    } else if VISIBILITY_ONE / d == 0 {
        1
    } else {
        (VISIBILITY_ONE / d) as nat
    }
}

/// `x` to the power `k`, where every partial product is cut down to `WEIGHT_CAP`.
pub open spec fn capped_pow(x: nat, k: nat) -> nat
    decreases k,
{
    if k == 0 {
        1
    } else {
        let p = capped_pow(x, (k - 1) as nat) * x;
        if p > WEIGHT_CAP {
            WEIGHT_CAP as nat
        } else {
            p
        }
    }
}

/// Weight of a move over an edge with trail `level` and length `d`:
/// `level^alpha * visibility(d)^beta`, cut down to `WEIGHT_CAP`.
pub open spec fn edge_weight(level: nat, d: u64, alpha: nat, beta: nat) -> nat {
    let p = capped_pow(level, alpha) * capped_pow(visibility(d), beta);
    if p > WEIGHT_CAP {
        WEIGHT_CAP as nat
    } else {
        p
    }
}

proof fn lemma_capped_pow_le_cap(x: nat, k: nat)
    ensures
        capped_pow(x, k) <= WEIGHT_CAP,
    decreases k,
{
    if k > 0 {
        lemma_capped_pow_le_cap(x, (k - 1) as nat);
    }
}

proof fn lemma_capped_pow_bounds(x: nat, k: nat)
    requires
        x >= 1,
    ensures
        1 <= capped_pow(x, k) <= WEIGHT_CAP,
    decreases k,
{
    if k > 0 {
        lemma_capped_pow_bounds(x, (k - 1) as nat);
        assert(capped_pow(x, (k - 1) as nat) * x >= 1) by (nonlinear_arith)
            requires capped_pow(x, (k - 1) as nat) >= 1, x >= 1;
    }
}

/// Every move has a positive weight.
pub proof fn lemma_edge_weight_positive(level: nat, d: u64, alpha: nat, beta: nat)
    requires
        level >= 1,
    ensures
        1 <= edge_weight(level, d, alpha, beta) <= WEIGHT_CAP,
{
    lemma_capped_pow_bounds(level, alpha);
    lemma_capped_pow_bounds(visibility(d), beta);
    assert(capped_pow(level, alpha) * capped_pow(visibility(d), beta) >= 1) by (nonlinear_arith)
        requires capped_pow(level, alpha) >= 1, capped_pow(visibility(d), beta) >= 1;
}

/// `a * b`, cut down to `WEIGHT_CAP`.
fn capped_mul(a: u128, b: u128) -> (r: u128)
    requires
        a <= WEIGHT_CAP,
        b <= WEIGHT_CAP,
    ensures
        r == (if a * b > WEIGHT_CAP { WEIGHT_CAP as int } else { a * b }),
{
    if b == 0 {
        assert(a * b == 0) by (nonlinear_arith)
            requires b == 0;
        return 0;
    }
    let q: u128 = WEIGHT_CAP / b;
    proof {
        vstd::arithmetic::div_mod::lemma_fundamental_div_mod(WEIGHT_CAP as int, b as int);
    }
    if a > q {
        assert(a * b > WEIGHT_CAP) by (nonlinear_arith)
            requires
                a >= q + 1,
                b > 0,
                WEIGHT_CAP == b * q + (WEIGHT_CAP % b),
                WEIGHT_CAP % b < b,
        ;
        WEIGHT_CAP
    } else {
        assert(a * b <= WEIGHT_CAP) by (nonlinear_arith)
            requires
                a <= q,
                b > 0,
                WEIGHT_CAP == b * q + (WEIGHT_CAP % b),
                WEIGHT_CAP % b >= 0,
        ;
        a * b
    }
}

fn capped_power(x: u64, k: u32) -> (r: u128)
    ensures
        r == capped_pow(x as nat, k as nat),
        r <= WEIGHT_CAP,
{
    proof {
        lemma_capped_pow_le_cap(x as nat, 0);
    }
    let mut acc: u128 = 1;
    let xx: u128 = if x as u128 > WEIGHT_CAP { WEIGHT_CAP } else { x as u128 };
    for i in 0..k
        invariant
            acc == capped_pow(x as nat, i as nat),
            acc <= WEIGHT_CAP,
            xx == (if x > WEIGHT_CAP { WEIGHT_CAP as int } else { x as int }),
    {
        let ghost prev0 = acc;
        acc = capped_mul(acc, xx);
        let ghost prev = prev0;
        assert(capped_pow(x as nat, (i + 1) as nat) == acc) by {
            if x as int > WEIGHT_CAP {
                if prev == 0 {
                    assert(prev * x == 0 && prev * xx == 0);
                } else {
                    assert(prev * x > WEIGHT_CAP) by (nonlinear_arith)
                        requires prev >= 1, x > WEIGHT_CAP;
                    assert(prev * xx >= WEIGHT_CAP) by (nonlinear_arith)
                        requires prev >= 1, xx == WEIGHT_CAP;
                }
            }
        }
    }
    acc
}

fn visibility_of(d: u64) -> (r: u64)
    ensures
        r == visibility(d),
{
    if d <= 1 {
        VISIBILITY_ONE
    } else if VISIBILITY_ONE / d == 0 {
        1
    } else {
        VISIBILITY_ONE / d
    }
}

/// Weight of a move over an edge with trail `level` and length `d`.
pub fn weight_of(level: u64, d: u64, alpha: u32, beta: u32) -> (r: u128)
    ensures
        r == edge_weight(level as nat, d, alpha as nat, beta as nat),
{
    let a = capped_power(level, alpha);
    let b = capped_power(visibility_of(d), beta);
    capped_mul(a, b)
}

/// Weight of moving from `from` to `to` with the exponents `alpha` and `beta`.
pub open spec fn move_weight(
    world: TspInstance,
    pheromones: PheromoneMatrix,
    from: u32,
    to: u32,
    alpha: nat,
    beta: nat,
) -> nat {
    edge_weight(
        pheromones.level(from as nat, to as nat) as nat,
        world.dist(from as int, to as int),
        alpha,
        beta,
    )
}

/// The weights of each of `moves`, in order.
pub open spec fn move_weights(
    world: TspInstance,
    pheromones: PheromoneMatrix,
    from: u32,
    moves: Seq<u32>,
    alpha: nat,
    beta: nat,
) -> Seq<nat> {
    moves.map_values(|m: u32| move_weight(world, pheromones, from, m, alpha, beta))
}

/// Sum of the first `k` entries of `ws`.
pub open spec fn prefix_sum(ws: Seq<nat>, k: int) -> nat
    decreases k,
{
    if k <= 0 {
        0
    } else {
        prefix_sum(ws, k - 1) + ws[k - 1]
    }
}

/// The solver's data fit together: `from` and every move name a city of
/// `world`, and the trail matrix covers the same cities.
pub open spec fn fits(world: TspInstance, pheromones: PheromoneMatrix, from: u32, moves: Seq<u32>) -> bool {
    &&& world.well_formed()
    &&& pheromones.well_formed()
    &&& pheromones.dim == world.dim
    &&& from < world.dim
    &&& all_below(moves, world.dim as nat)
}

/// `c` is the first of `moves` with the largest exploitation weight
/// `level * visibility^beta`.
pub open spec fn is_exploit_choice(
    world: TspInstance,
    pheromones: PheromoneMatrix,
    from: u32,
    moves: Seq<u32>,
    beta: nat,
    c: u32,
) -> bool {
    exists|k: int|
        0 <= k < moves.len() && c == moves[k] && (forall|i: int|
            0 <= i < k ==> #[trigger] move_weight(world, pheromones, from, moves[i], 1, beta)
                < move_weight(world, pheromones, from, c, 1, beta)) && (forall|i: int|
            0 <= i < moves.len() ==> #[trigger] move_weight(world, pheromones, from, moves[i], 1, beta)
                <= move_weight(world, pheromones, from, c, 1, beta))
}

/// `c` is the one of `moves` whose slice of the cumulative exploration
/// weights holds `random`.
pub open spec fn is_explore_choice(
    world: TspInstance,
    pheromones: PheromoneMatrix,
    from: u32,
    moves: Seq<u32>,
    alpha: nat,
    beta: nat,
    random: int,
    c: u32,
) -> bool {
    exists|k: int|
        0 <= k < moves.len() && c == moves[k] && prefix_sum(move_weights(world, pheromones, from, moves, alpha, beta), k)
            <= random < prefix_sum(move_weights(world, pheromones, from, moves, alpha, beta), k + 1)
}

/// Some draw below the total exploration weight of `moves` makes the
/// exploration rule pick `c`.
pub open spec fn is_explore_outcome(
    world: TspInstance,
    pheromones: PheromoneMatrix,
    from: u32,
    moves: Seq<u32>,
    config: Config,
    c: u32,
) -> bool {
    exists|random: int|
        0 <= random < prefix_sum(
            move_weights(world, pheromones, from, moves, config.alpha as nat, config.beta as nat),
            moves.len() as int,
        ) && #[trigger] is_explore_choice(
            world,
            pheromones,
            from,
            moves,
            config.alpha as nat,
            config.beta as nat,
            random,
            c,
        )
}

/// `c` is what the pseudo-random-proportional rule can pick among `moves`:
/// the exploitation choice, or the exploration choice for some draw below
/// the total exploration weight. With `q0` at 1 or more only exploitation
/// is possible, and with `q0` at 0 only exploration.
pub open spec fn follows_rule(
    world: TspInstance,
    pheromones: PheromoneMatrix,
    from: u32,
    moves: Seq<u32>,
    config: Config,
    c: u32,
) -> bool {
    &&& is_exploit_choice(world, pheromones, from, moves, config.beta as nat, c)
        || is_explore_outcome(world, pheromones, from, moves, config, c)
    &&& config.q0 >= RATE_ONE ==> is_exploit_choice(world, pheromones, from, moves, config.beta as nat, c)
    &&& config.q0 == 0 ==> is_explore_outcome(world, pheromones, from, moves, config, c)
}

/// Exploitation: the first of `possible_moves` whose weight
/// `level * visibility^beta` is largest.
pub fn argmax(
    current_state: u32,
    possible_moves: &[u32],
    world: &TspInstance,
    pheromones: &PheromoneMatrix,
    config: &Config,
) -> (r: u32)
    requires
        possible_moves@.len() > 0,
        fits(*world, *pheromones, current_state, possible_moves@),
    ensures
        is_exploit_choice(*world, *pheromones, current_state, possible_moves@, config.beta as nat, r),
{
    let mut best_move = possible_moves[0];
    let mut best_k: usize = 0;
    let mut best_val = weight_of(
        pheromones.get(current_state as usize, best_move as usize),
        world.at(current_state as usize, best_move as usize),
        1,
        config.beta,
    );
    let mut k: usize = 1;
    while k < possible_moves.len()
        invariant
            fits(*world, *pheromones, current_state, possible_moves@),
            1 <= k <= possible_moves@.len(),
            best_k < k,
            best_move == possible_moves@[best_k as int],
            best_val == move_weight(*world, *pheromones, current_state, best_move, 1, config.beta as nat),
            forall|i: int| 0 <= i < best_k ==> #[trigger] move_weight(*world, *pheromones, current_state, possible_moves@[i], 1, config.beta as nat) < best_val,
            forall|i: int| 0 <= i < k ==> #[trigger] move_weight(*world, *pheromones, current_state, possible_moves@[i], 1, config.beta as nat) <= best_val,
        decreases possible_moves@.len() - k,
    {
        let mov = possible_moves[k];
        let val = weight_of(
            pheromones.get(current_state as usize, mov as usize),
            world.at(current_state as usize, mov as usize),
            1,
            config.beta,
        );
        if val > best_val {
            best_val = val;
            best_move = mov;
            best_k = k;
        }
        k = k + 1;
    }
    assert(0 <= best_k < possible_moves@.len() && best_move == possible_moves@[best_k as int]);
    best_move
}


/// Sum of the exploration weights of `possible_moves`.
pub fn exploration_total(
    current_state: u32,
    possible_moves: &[u32],
    world: &TspInstance,
    pheromones: &PheromoneMatrix,
    config: &Config,
) -> (r: u128)
    requires
        possible_moves@.len() <= u32::MAX,
        fits(*world, *pheromones, current_state, possible_moves@),
    ensures
        r == prefix_sum(
            move_weights(*world, *pheromones, current_state, possible_moves@, config.alpha as nat, config.beta as nat),
            possible_moves@.len() as int,
        ),
        r >= possible_moves@.len(),
{
    let ghost ws = move_weights(*world, *pheromones, current_state, possible_moves@, config.alpha as nat, config.beta as nat);
    let mut sum: u128 = 0;
    let mut k: usize = 0;
    while k < possible_moves.len()
        invariant
            possible_moves@.len() <= u32::MAX,
            fits(*world, *pheromones, current_state, possible_moves@),
            ws == move_weights(*world, *pheromones, current_state, possible_moves@, config.alpha as nat, config.beta as nat),
            k <= possible_moves@.len(),
            sum == prefix_sum(ws, k as int),
            k <= sum <= k * WEIGHT_CAP,
        decreases possible_moves@.len() - k,
    {
        let mov = possible_moves[k];
        let level = pheromones.get(current_state as usize, mov as usize);
        let w = weight_of(level, world.at(current_state as usize, mov as usize), config.alpha, config.beta);
        proof {
            lemma_edge_weight_positive(level as nat, world.dist(current_state as int, mov as int), config.alpha as nat, config.beta as nat);
        }
        assert(sum + w <= (k + 1) * WEIGHT_CAP) by (nonlinear_arith)
            requires sum <= k * WEIGHT_CAP, w <= WEIGHT_CAP;
        assert((k + 1) * WEIGHT_CAP <= u128::MAX) by (nonlinear_arith)
            requires k < 0x1_0000_0000int;
        sum = sum + w as u128;
        k = k + 1;
    }
    sum
}

/// Exploration: the move whose slice of the cumulative weights holds
/// `random`, that is the first `k` with `random < w[0] + ... + w[k]`.
pub fn eq_4(
    current_state: u32,
    possible_moves: &[u32],
    world: &TspInstance,
    pheromones: &PheromoneMatrix,
    config: &Config,
    random: u128,
) -> (r: u32)
    requires
        possible_moves@.len() <= u32::MAX,
        fits(*world, *pheromones, current_state, possible_moves@),
        random < prefix_sum(
            move_weights(*world, *pheromones, current_state, possible_moves@, config.alpha as nat, config.beta as nat),
            possible_moves@.len() as int,
        ),
    ensures
        is_explore_choice(
            *world,
            *pheromones,
            current_state,
            possible_moves@,
            config.alpha as nat,
            config.beta as nat,
            random as int,
            r,
        ),
{
    let ghost ws = move_weights(*world, *pheromones, current_state, possible_moves@, config.alpha as nat, config.beta as nat);
    let mut prob_sum: u128 = 0;
    let mut k: usize = 0;
    while k < possible_moves.len()
        invariant
            possible_moves@.len() <= u32::MAX,
            fits(*world, *pheromones, current_state, possible_moves@),
            ws == move_weights(*world, *pheromones, current_state, possible_moves@, config.alpha as nat, config.beta as nat),
            random < prefix_sum(ws, possible_moves@.len() as int),
            k <= possible_moves@.len(),
            prob_sum == prefix_sum(ws, k as int),
            prob_sum <= random,
            prob_sum <= k * WEIGHT_CAP,
        decreases possible_moves@.len() - k,
    {
        let mov = possible_moves[k];
        let level = pheromones.get(current_state as usize, mov as usize);
        let w = weight_of(level, world.at(current_state as usize, mov as usize), config.alpha, config.beta);
        proof {
            lemma_edge_weight_positive(level as nat, world.dist(current_state as int, mov as int), config.alpha as nat, config.beta as nat);
        }
        assert(prob_sum + w <= (k + 1) * WEIGHT_CAP) by (nonlinear_arith)
            requires prob_sum <= k * WEIGHT_CAP, w <= WEIGHT_CAP;
        assert((k + 1) * WEIGHT_CAP <= u128::MAX) by (nonlinear_arith)
            requires k < 0x1_0000_0000int;
        prob_sum = prob_sum + w as u128;
        if prob_sum > random {
            return mov;
        }
        k = k + 1;
    }
    // The weights add up to more than `random`, so the loop has returned.
    possible_moves[possible_moves.len() - 1]
}

/// Relies on rand::thread_rng and Rng::gen_range: a value drawn uniformly
/// from `0..bound`, which panics only on an empty range.
#[verifier::external_body]
fn draw_below(bound: u128) -> (r: u128)
    requires
        bound > 0,
    ensures
        r < bound,
{
    rand::thread_rng().gen_range(0..bound)
}

/// The indices of the `false` entries of `v`, in increasing order.
pub open spec fn unvisited_cities(v: Seq<bool>) -> Seq<u32>
    decreases v.len(),
{
    if v.len() == 0 {
        seq![]
    } else {
        let p = unvisited_cities(v.drop_last());
        if v.last() {
            p
        } else {
            p.push((v.len() - 1) as u32)
        }
    }
}

/// The cities not yet visited, in increasing order.
pub fn unvisited(visited: &Vec<bool>) -> (r: Vec<u32>)
    requires
        visited@.len() <= u32::MAX,
    ensures
        r@ == unvisited_cities(visited@),
        r@.len() <= visited@.len(),
        forall|k: int| 0 <= k < r@.len() ==> (#[trigger] r@[k] as int) < visited@.len() && !visited@[r@[k] as int],
        forall|c: int| 0 <= c < visited@.len() && !visited@[c] ==> r@.contains(c as u32),
        forall|a: int, b: int| 0 <= a < b < r@.len() ==> r@[a] < r@[b],
{
    let mut r: Vec<u32> = Vec::new();
    let mut c: usize = 0;
    while c < visited.len()
        invariant
            visited@.len() <= u32::MAX,
            c <= visited@.len(),
            r@.len() <= c,
            r@ == unvisited_cities(visited@.take(c as int)),
            forall|k: int| 0 <= k < r@.len() ==> (#[trigger] r@[k] as int) < c && !visited@[r@[k] as int],
            forall|d: int| 0 <= d < c && !visited@[d] ==> r@.contains(d as u32),
            forall|a: int, b: int| 0 <= a < b < r@.len() ==> r@[a] < r@[b],
        decreases visited@.len() - c,
    {
        assert(visited@.take(c + 1).drop_last() == visited@.take(c as int));
        if !visited[c] {
            let ghost old_r = r@;
            r.push(c as u32);
            assert forall|d: int| 0 <= d <= c && !visited@[d] implies r@.contains(d as u32) by {
                if d < c {
                    let j = choose|j: int| 0 <= j < old_r.len() && old_r[j] == d as u32;
                    assert(r@[j] == d as u32);
                } else {
                    assert(r@[r@.len() - 1] == d as u32);
                }
            }
        }
        c = c + 1;
    }
    assert(visited@.take(visited@.len() as int) == visited@);
    r
}


/// The trail deposited by a tour of length `cost`: `PHEROMONE_ONE / cost`,
/// rounded down and never below 1; a tour of length 0 deposits `PHEROMONE_ONE`.
pub open spec fn deposit_of(cost: nat) -> nat {
    if cost == 0 {
        PHEROMONE_ONE as nat
    } else if PHEROMONE_ONE as nat / cost == 0 {
        1
    } else {
        PHEROMONE_ONE as nat / cost
    }
}

fn deposit_amount(cost: u128) -> (r: u64)
    ensures
        r == deposit_of(cost as nat),
        r > 0,
{
    if cost == 0 {
        PHEROMONE_ONE
    } else if PHEROMONE_ONE as u128 / cost == 0 {
        1
    } else {
        (PHEROMONE_ONE as u128 / cost) as u64
    }
}

/// The levels after blending, edge by edge along `s`, towards `target` by `rate`.
pub open spec fn deposit_along(cells: Seq<u64>, dim: nat, s: Seq<u32>, target: nat, rate: nat) -> Seq<u64>
    decreases s.len(),
{
    if s.len() < 2 {
        cells
    } else {
        let prev = deposit_along(cells, dim, s.drop_last(), target, rate);
        let k = cell_index(dim, s[s.len() - 2] as nat, s.last() as nat);
        prev.update(k, blend(prev[k] as nat, target, rate) as u64)
    }
}

/// After the global update along any path, every level lies between its
/// old level and the deposit, both included: each edge on the path was
/// blended towards the deposit, once or more, and every other edge kept its
/// level.
pub proof fn lemma_deposit_along_between(cells: Seq<u64>, dim: nat, s: Seq<u32>, target: nat, rate: nat)
    requires
        cells.len() == dim * dim,
        all_below(s, dim),
        rate <= RATE_ONE,
        target <= u64::MAX,
    ensures
        deposit_along(cells, dim, s, target, rate).len() == cells.len(),
        forall|k: int|
            0 <= k < cells.len() ==> {
                let v = #[trigger] deposit_along(cells, dim, s, target, rate)[k];
                &&& cells[k] <= target ==> cells[k] <= v <= target
                &&& target <= cells[k] ==> target <= v <= cells[k]
            },
    decreases s.len(),
{
    if s.len() >= 2 {
        let t = s.drop_last();
        assert(all_below(t, dim)) by {
            assert forall|m: int| 0 <= m < t.len() implies (#[trigger] t[m] as nat) < dim by {
                assert(t[m] == s[m]);
            }
        }
        lemma_deposit_along_between(cells, dim, t, target, rate);
        let prev = deposit_along(cells, dim, t, target, rate);
        let i = s[s.len() - 2] as nat;
        let j = s.last() as nat;
        assert(i < dim && j < dim);
        crate::pheromone::lemma_cell_index_bounds(dim, i, j);
        let c = cell_index(dim, i, j);
        crate::pheromone::lemma_blend_between(prev[c] as nat, target, rate);
        assert forall|k: int| 0 <= k < cells.len() implies {
            let v = #[trigger] deposit_along(cells, dim, s, target, rate)[k];
            &&& cells[k] <= target ==> cells[k] <= v <= target
            &&& target <= cells[k] ==> target <= v <= cells[k]
        } by {
            assert(prev[k] == deposit_along(cells, dim, t, target, rate)[k]);
        }
    }
}

/// Consecutive entries of `s` differ: the path never stays on a city.
pub open spec fn never_stays(s: Seq<u32>) -> bool {
    forall|k: int| 0 <= k && k + 1 < s.len() ==> #[trigger] s[k] != s[k + 1]
}

/// A closed tour of two or more cities never stays on a city.
pub proof fn lemma_closed_tour_never_stays(s: Seq<u32>, n: nat)
    requires
        is_closed_tour(s, n),
        n >= 2,
    ensures
        never_stays(s),
{
    let t = s.take(n as int);
    assert forall|k: int| 0 <= k && k + 1 < s.len() implies #[trigger] s[k] != s[k + 1] by {
        if k + 1 < n {
            assert(t[k] == s[k] && t[k + 1] == s[k + 1]);
        } else {
            assert(t[k] == s[k] && t[0] == s[0]);
        }
    }
}

/// The global update along a path that never stays on a city (or along
/// any path, with a single city) leaves every cell that backs no edge as
/// it was.
pub proof fn lemma_deposit_along_keeps_unused(cells: Seq<u64>, dim: nat, s: Seq<u32>, target: nat, rate: nat)
    requires
        cells.len() == dim * dim,
        all_below(s, dim),
        dim >= 2 ==> never_stays(s),
    ensures
        deposit_along(cells, dim, s, target, rate).len() == cells.len(),
        unused_cells_kept(cells, deposit_along(cells, dim, s, target, rate), dim),
    decreases s.len(),
{
    if s.len() >= 2 {
        let t = s.drop_last();
        assert(all_below(t, dim)) by {
            assert forall|m: int| 0 <= m < t.len() implies (#[trigger] t[m] as nat) < dim by {
                assert(t[m] == s[m]);
            }
        }
        assert(dim >= 2 ==> never_stays(t)) by {
            if dim >= 2 {
                assert forall|k: int| 0 <= k && k + 1 < t.len() implies #[trigger] t[k] != t[k + 1] by {
                    assert(t[k] == s[k] && t[k + 1] == s[k + 1]);
                }
            }
        }
        lemma_deposit_along_keeps_unused(cells, dim, t, target, rate);
        let i = s[s.len() - 2] as nat;
        let j = s.last() as nat;
        assert(i < dim && j < dim);
        crate::pheromone::lemma_cell_index_bounds(dim, i, j);
        crate::pheromone::lemma_edge_cell_used(dim, i, j);
    }
}

/// The cities `0..n`.
pub open spec fn cities_below(n: nat) -> Set<u32> {
    Set::new(|c: u32| (c as nat) < n)
}

proof fn lemma_cities_below_len(n: nat)
    requires
        n <= u32::MAX + 1,
    ensures
        cities_below(n).finite(),
        cities_below(n).len() == n,
    decreases n,
{
    if n == 0 {
        assert(cities_below(0) =~= Set::empty());
    } else {
        lemma_cities_below_len((n - 1) as nat);
        assert(cities_below(n) =~= cities_below((n - 1) as nat).insert((n - 1) as u32));
    }
}

/// Distinct cities below `n` are at most `n`, and exactly `n` when every
/// city below `n` is among them.
pub proof fn lemma_distinct_cities(s: Seq<u32>, n: nat)
    requires
        s.no_duplicates(),
        all_below(s, n),
        n <= u32::MAX,
    ensures
        s.len() <= n,
        s.len() == n <==> (forall|c: u32| (c as nat) < n ==> s.contains(c)),
{
    lemma_cities_below_len(n);
    s.unique_seq_to_set();
    assert forall|c: u32| s.to_set().contains(c) implies cities_below(n).contains(c) by {
        let k = choose|k: int| 0 <= k < s.len() && s[k] == c;
        assert(all_below(s, n));
        assert((s[k] as nat) < n);
    }
    lemma_len_subset(s.to_set(), cities_below(n));
    if s.len() == n {
        lemma_subset_equality(s.to_set(), cities_below(n));
        assert forall|c: u32| (c as nat) < n implies s.contains(c) by {
            assert(cities_below(n).contains(c));
            assert(s.to_set().contains(c));
        }
    }
    if forall|c: u32| (c as nat) < n ==> s.contains(c) {
        assert(s.to_set() =~= cities_below(n));
    }
}

/// `s` visits each of the cities `0..n` once and then returns to its first city.
pub open spec fn is_closed_tour(s: Seq<u32>, n: nat) -> bool {
    &&& s.len() == n + 1
    &&& s[0] == s[n as int]
    &&& s.take(n as int).no_duplicates()
    &&& all_below(s, n)
    &&& forall|c: u32| (c as nat) < n ==> #[trigger] s.take(n as int).contains(c)
}

/// City `c` stands exactly once among the first `n` entries of `s`.
pub open spec fn appears_once(s: Seq<u32>, n: nat, c: u32) -> bool {
    exists|k: int|
        #![trigger s[k]]
        0 <= k < n && s[k] == c && forall|m: int| 0 <= m < n && #[trigger] s[m] == c ==> m == k
}

/// A finished ant's path is a closed tour: `n + 1` cities, the last equal to
/// the first, and every city below `n` exactly once among the first `n`.
pub proof fn lemma_finished_ant_tour(ant: Ant, n: nat)
    requires
        ant.well_formed(n),
        ant.is_done,
        n <= u32::MAX,
    ensures
        ant.solution@.len() == n + 1,
        ant.solution@[0] == ant.solution@[n as int],
        forall|c: u32| (c as nat) < n ==> #[trigger] appears_once(ant.solution@, n, c),
{
    let s = ant.solution@;
    let t = s.take(n as int);
    assert forall|c: u32| (c as nat) < n implies #[trigger] appears_once(s, n, c) by {
        assert(t.contains(c));
        let k = choose|k: int| 0 <= k < t.len() && t[k] == c;
        assert(s[k] == t[k]);
        assert forall|m: int| 0 <= m < n && s[m] == c implies m == k by {
            assert(t[m] == s[m]);
        }
    }
}

/// One walker of an iteration: the cities it has visited, its path so far,
/// where it stands and where it started.
pub struct Ant {
    pub visited: Vec<bool>,
    pub solution: Vec<u32>,
    pub is_done: bool,
    pub current_state: u32,
    pub orig_state: u32,
}

impl Ant {
    /// The ant walks a problem of `n` cities. While stepping, its path holds
    /// distinct cities, ends where it stands, and holds exactly the visited
    /// cities; once done, its path is a closed tour.
    pub open spec fn well_formed(&self, n: nat) -> bool {
        &&& self.visited@.len() == n
        &&& self.orig_state < n
        &&& self.solution@.len() >= 1
        &&& self.solution@[0] == self.orig_state
        &&& all_below(self.solution@, n)
        &&& if self.is_done {
            is_closed_tour(self.solution@, n)
        } else {
            &&& self.solution@.no_duplicates()
            &&& self.current_state == self.solution@.last()
            &&& forall|c: int|
                0 <= c < n ==> (#[trigger] self.visited@[c] <==> self.solution@.contains(c as u32))
        }
    }

    /// An ant that starts at city 0.
    pub fn new(world: &TspInstance) -> (r: Ant)
        requires
            world.well_formed(),
            world.dim > 0,
        ensures
            r.well_formed(world.dim as nat),
            !r.is_done,
            r.orig_state == 0,
            r.solution@ == seq![0u32],
    {
        Ant::starting_at(world, 0)
    }

    /// An ant that starts at `start_state`.
    pub fn starting_at(world: &TspInstance, start_state: u32) -> (r: Ant)
        requires
            world.well_formed(),
            start_state < world.dim,
        ensures
            r.well_formed(world.dim as nat),
            !r.is_done,
            r.orig_state == start_state,
            r.current_state == start_state,
            r.solution@ == seq![start_state],
    {
        let mut solution: Vec<u32> = Vec::new();
        solution.push(start_state);
        let mut visited: Vec<bool> = Vec::new();
        let n = world.dim as usize;
        for c in 0..n
            invariant
                visited@.len() == c,
                forall|d: int| 0 <= d < c ==> #[trigger] visited@[d] == (d == start_state as int),
        {
            visited.push(c == start_state as usize);
        }
        let r = Ant {
            visited,
            solution,
            is_done: false,
            current_state: start_state,
            orig_state: start_state,
        };
        assert forall|c: int| 0 <= c < n implies (#[trigger] r.visited@[c] <==> r.solution@.contains(c as u32)) by {
            if r.visited@[c] {
                assert(r.solution@[0] == c as u32);
            }
        }
        r
    }

    /// One step. A done ant stays as it is. An ant that has visited every
    /// city returns to its first city and is done. Otherwise it moves to an
    /// unvisited city chosen by the pseudo-random-proportional rule, and the
    /// level of the edge it took is blended towards `tau0` by the decay.
    pub fn make_move(
        &mut self,
        world: &TspInstance,
        pheromones: &mut PheromoneMatrix,
        config: &Config,
        tau0: u64,
    )
        requires
            world.well_formed(),
            old(self).well_formed(world.dim as nat),
            old(pheromones).well_formed(),
            old(pheromones).dim == world.dim,
            config.well_formed(),
            tau0 > 0,
        ensures
            final(self).well_formed(world.dim as nat),
            final(pheromones).well_formed(),
            final(pheromones).dim == world.dim,
            final(self).orig_state == old(self).orig_state,
            old(self).is_done ==> *final(self) == *old(self) && *final(pheromones) == *old(pheromones),
            !old(self).is_done && old(self).solution@.len() == world.dim ==> {
                &&& final(self).is_done
                &&& final(self).solution@ == old(self).solution@.push(old(self).orig_state)
                &&& final(self).current_state == old(self).current_state
                &&& final(self).visited == old(self).visited
                &&& *final(pheromones) == *old(pheromones)
            },
            unused_cells_kept(old(pheromones).cells@, final(pheromones).cells@, world.dim as nat),
            !old(self).is_done && old(self).solution@.len() < world.dim ==> {
                &&& !final(self).is_done
                &&& old(self).solution@.len() < world.dim
                &&& exists|c: u32|
                    #![trigger old(self).visited@[c as int]]
                    c < world.dim && !old(self).visited@[c as int] && c != old(self).current_state
                        && follows_rule(
                        *world,
                        *old(pheromones),
                        old(self).current_state,
                        unvisited_cities(old(self).visited@),
                        *config,
                        c,
                    ) && final(self).solution@ == old(self).solution@.push(c)
                        && final(self).current_state == c && final(pheromones).cells@ == old(pheromones).cells@.update(
                        cell_index(world.dim as nat, old(self).current_state as nat, c as nat),
                        blend(
                            old(pheromones).level(old(self).current_state as nat, c as nat) as nat,
                            tau0 as nat,
                            config.pheromone_decay as nat,
                        ) as u64,
                    )
            },
    {
        if self.is_done {
            return;
        }
        let ghost n = world.dim as nat;
        let ghost s0 = self.solution@;
        proof {
            lemma_distinct_cities(s0, n);
        }
        let possible_moves = unvisited(&self.visited);
        if possible_moves.len() == 0 {
            assert forall|c: u32| (c as nat) < n implies s0.contains(c) by {
                if !self.visited@[c as int] {
                    assert(possible_moves@.contains(c));
                }
            }
            self.close(world);
            return;
        }
        let ghost c0 = possible_moves@[0];
        assert(!s0.contains(c0));
        assert(all_below(possible_moves@, n)) by {
            assert forall|k: int| 0 <= k < possible_moves@.len() implies (#[trigger] possible_moves@[k] as nat) < n by {}
        }
        let q = draw_below(RATE_ONE as u128);
        let next_move = if q < config.q0 as u128 {
            argmax(self.current_state, possible_moves.as_slice(), world, pheromones, config)
        } else {
            let total = exploration_total(self.current_state, possible_moves.as_slice(), world, pheromones, config);
            let random = draw_below(total);
            let m = eq_4(self.current_state, possible_moves.as_slice(), world, pheromones, config, random);
            assert(is_explore_choice(
                *world,
                *pheromones,
                self.current_state,
                possible_moves@,
                config.alpha as nat,
                config.beta as nat,
                random as int,
                m,
            ));
            m
        };
        assert(follows_rule(*world, *pheromones, self.current_state, possible_moves@, *config, next_move));
        assert(s0.contains(self.current_state)) by {
            assert(s0[s0.len() - 1] == self.current_state);
        }
        assert(possible_moves@.contains(next_move));
        let current = self.current_state;
        self.visit(world, next_move);
        pheromones.update_edge(current as usize, next_move as usize, tau0, config.pheromone_decay);
    }

    /// Returns to the first city once every city is visited.
    fn close(&mut self, world: &TspInstance)
        requires
            old(self).well_formed(world.dim as nat),
            !old(self).is_done,
            forall|c: u32| (c as nat) < world.dim ==> old(self).solution@.contains(c),
        ensures
            final(self).well_formed(world.dim as nat),
            final(self).is_done,
            final(self).orig_state == old(self).orig_state,
            final(self).solution@ == old(self).solution@.push(old(self).orig_state),
            final(self).current_state == old(self).current_state,
            final(self).visited == old(self).visited,
            old(self).solution@.len() == world.dim,
    {
        let ghost n = world.dim as nat;
        let ghost s0 = self.solution@;
        proof {
            lemma_distinct_cities(s0, n);
        }
        self.is_done = true;
        self.solution.push(self.orig_state);
        assert(self.solution@.take(n as int) == s0);
    }

    /// Moves to the unvisited city `next_move`.
    fn visit(&mut self, world: &TspInstance, next_move: u32)
        requires
            old(self).well_formed(world.dim as nat),
            !old(self).is_done,
            next_move < world.dim,
            !old(self).visited@[next_move as int],
        ensures
            final(self).well_formed(world.dim as nat),
            !final(self).is_done,
            final(self).orig_state == old(self).orig_state,
            final(self).current_state == next_move,
            final(self).solution@ == old(self).solution@.push(next_move),
            final(self).visited@ == old(self).visited@.update(next_move as int, true),
    {
        let ghost n = world.dim as nat;
        let ghost s0 = self.solution@;
        assert(!s0.contains(next_move));
        self.solution.push(next_move);
        self.visited.set(next_move as usize, true);
        self.current_state = next_move;
        proof {
            let s1 = self.solution@;
            assert(s1 == s0.push(next_move));
            assert(!s0.contains(next_move));
            assert(s1.no_duplicates()) by {
                assert forall|a: int, b: int| 0 <= a < s1.len() && 0 <= b < s1.len() && a != b implies s1[a] != s1[b] by {
                    if a < s0.len() && b < s0.len() {
                    } else if a < s0.len() {
                        assert(s0[a] == s1[a]);
                    } else {
                        assert(s0[b] == s1[b]);
                    }
                }
            }
            assert forall|c: int| 0 <= c < n implies (#[trigger] self.visited@[c] <==> s1.contains(c as u32)) by {
                if c == next_move as int {
                    assert(s1[s1.len() - 1] == next_move);
                } else {
                    if s1.contains(c as u32) {
                        let k = choose|k: int| 0 <= k < s1.len() && s1[k] == c as u32;
                        assert(s0[k] == c as u32);
                    }
                    if s0.contains(c as u32) {
                        let k = choose|k: int| 0 <= k < s0.len() && s0[k] == c as u32;
                        assert(s1[k] == c as u32);
                    }
                }
            }
            assert(all_below(s1, n)) by {
                assert forall|k: int| 0 <= k < s1.len() implies (#[trigger] s1[k] as nat) < n by {
                    if k < s0.len() {
                        assert(s1[k] == s0[k]);
                    }
                }
            }
        }
    }

    /// The global update: every edge of the ant's tour, in order, is blended
    /// towards `deposit_of(cost)` by the evaporation rate.
    pub fn update_pheromones(
        &self,
        world: &TspInstance,
        pheromones: &mut PheromoneMatrix,
        config: &Config,
    )
        requires
            world.well_formed(),
            self.well_formed(world.dim as nat),
            self.is_done,
            old(pheromones).well_formed(),
            old(pheromones).dim == world.dim,
            config.well_formed(),
        ensures
            final(pheromones).well_formed(),
            final(pheromones).dim == world.dim,
            final(pheromones).cells@ == deposit_along(
                old(pheromones).cells@,
                world.dim as nat,
                self.solution@,
                deposit_of(world.cost_of(self.solution@)),
                config.evaporation_rate as nat,
            ),
            unused_cells_kept(old(pheromones).cells@, final(pheromones).cells@, world.dim as nat),
    {
        let ghost n = world.dim as nat;
        let ghost tour = self.solution@;
        let ghost start = pheromones.cells@;
        let sol_cost = self.get_solution(world);
        let deposit = deposit_amount(sol_cost);
        let mut state = self.solution[0];
        let mut k: usize = 1;
        assert(tour.take(1).drop_last().len() == 0);
        while k < self.solution.len()
            invariant
                world.well_formed(),
                n == world.dim,
                self.well_formed(n),
                tour == self.solution@,
                config.well_formed(),
                deposit == deposit_of(world.cost_of(tour)),
                deposit > 0,
                1 <= k <= tour.len(),
                state == tour[k - 1],
                pheromones.well_formed(),
                pheromones.dim == n,
                pheromones.cells@ == deposit_along(start, n, tour.take(k as int), deposit as nat, config.evaporation_rate as nat),
            decreases tour.len() - k,
        {
            let next_state = self.solution[k];
            assert(tour.take(k + 1).drop_last() == tour.take(k as int));
            pheromones.update_edge(state as usize, next_state as usize, deposit, config.evaporation_rate);
            state = next_state;
            k = k + 1;
        }
        assert(tour.take(tour.len() as int) == tour);
        proof {
            if n >= 2 {
                lemma_closed_tour_never_stays(tour, n);
            }
            lemma_deposit_along_keeps_unused(start, n, tour, deposit as nat, config.evaporation_rate as nat);
        }
    }

    /// Length of the ant's path.
    pub fn get_solution(&self, world: &TspInstance) -> (r: u128)
        requires
            world.well_formed(),
            self.well_formed(world.dim as nat),
        ensures
            r == world.cost_of(self.solution@),
            r < u128::MAX,
    {
        world.evaluate_solution(self.solution.as_slice())
    }
}


/// `next` is the first city, in index order, among those not in `prefix`
/// that is nearest to the last city of `prefix`.
pub open spec fn is_nearest_step(world: TspInstance, prefix: Seq<u32>, next: u32) -> bool {
    &&& !prefix.contains(next)
    &&& forall|c: u32|
        (c as nat) < world.dim && !#[trigger] prefix.contains(c) ==> {
            &&& world.dist(prefix.last() as int, next as int) <= world.dist(prefix.last() as int, c as int)
            &&& c < next ==> world.dist(prefix.last() as int, next as int) < world.dist(
                prefix.last() as int,
                c as int,
            )
        }
}

/// `s` is the nearest-neighbour tour of `world`: it starts at city 0, always
/// moves to the nearest unvisited city (the lowest index on ties), and closes
/// the loop back to city 0.
pub open spec fn is_nearest_neighbor_tour(world: TspInstance, s: Seq<u32>) -> bool {
    &&& is_closed_tour(s, world.dim as nat)
    &&& s[0] == 0
    &&& forall|k: int| 1 <= k < world.dim ==> #[trigger] is_nearest_step(world, s.take(k), s[k])
}

/// The first of `possible_moves` nearest to `current_state`.
fn nearest(current_state: u32, possible_moves: &[u32], world: &TspInstance) -> (r: u32)
    requires
        world.well_formed(),
        current_state < world.dim,
        possible_moves@.len() > 0,
        all_below(possible_moves@, world.dim as nat),
    ensures
        exists|k: int|
            0 <= k < possible_moves@.len() && r == possible_moves@[k] && (forall|i: int|
                0 <= i < k ==> world.dist(current_state as int, r as int) < world.dist(
                    current_state as int,
                    #[trigger] possible_moves@[i] as int,
                )) && (forall|i: int|
                0 <= i < possible_moves@.len() ==> world.dist(current_state as int, r as int)
                    <= world.dist(current_state as int, #[trigger] possible_moves@[i] as int)),
{
    let mut best_move = possible_moves[0];
    let mut best_k: usize = 0;
    let mut best_val = world.at(current_state as usize, best_move as usize);
    let mut k: usize = 1;
    while k < possible_moves.len()
        invariant
            world.well_formed(),
            current_state < world.dim,
            all_below(possible_moves@, world.dim as nat),
            1 <= k <= possible_moves@.len(),
            best_k < k,
            best_move == possible_moves@[best_k as int],
            best_val == world.dist(current_state as int, best_move as int),
            forall|i: int| 0 <= i < best_k ==> best_val < world.dist(current_state as int, #[trigger] possible_moves@[i] as int),
            forall|i: int| 0 <= i < k ==> best_val <= world.dist(current_state as int, #[trigger] possible_moves@[i] as int),
        decreases possible_moves@.len() - k,
    {
        let mov = possible_moves[k];
        let val = world.at(current_state as usize, mov as usize);
        if val < best_val {
            best_val = val;
            best_move = mov;
            best_k = k;
        }
        k = k + 1;
    }
    best_move
}

/// The nearest-neighbour tour of `world`.
pub fn nearest_neighbor_tour(world: &TspInstance) -> (r: Vec<u32>)
    requires
        world.well_formed(),
        world.dim > 0,
    ensures
        is_nearest_neighbor_tour(*world, r@),
{
    let ghost n = world.dim as nat;
    let mut ant = Ant::new(world);
    let mut step: u32 = 1;
    while step < world.dim
        invariant
            world.well_formed(),
            n == world.dim,
            1 <= step <= n,
            ant.well_formed(n),
            !ant.is_done,
            ant.orig_state == 0,
            ant.solution@.len() == step,
            forall|k: int| 1 <= k < step ==> #[trigger] is_nearest_step(*world, ant.solution@.take(k), ant.solution@[k]),
        decreases n - step,
    {
        let ghost s0 = ant.solution@;
        proof {
            lemma_distinct_cities(s0, n);
        }
        let possible_moves = unvisited(&ant.visited);
        assert(all_below(possible_moves@, n)) by {
            assert forall|k: int| 0 <= k < possible_moves@.len() implies (#[trigger] possible_moves@[k] as nat) < n by {}
        }
        let ghost missing = choose|c: u32| (c as nat) < n && !s0.contains(c);
        assert(!ant.visited@[missing as int]);
        assert(possible_moves@.contains(missing));
        let next = nearest(ant.current_state, possible_moves.as_slice(), world);
        assert(possible_moves@.contains(next));
        assert(is_nearest_step(*world, s0, next)) by {
            let kk = choose|kk: int| 0 <= kk < possible_moves@.len() && next == possible_moves@[kk];
            assert forall|c: u32| (c as nat) < world.dim && !#[trigger] s0.contains(c) implies {
                &&& world.dist(s0.last() as int, next as int) <= world.dist(s0.last() as int, c as int)
                &&& c < next ==> world.dist(s0.last() as int, next as int) < world.dist(s0.last() as int, c as int)
            } by {
                assert(!ant.visited@[c as int]);
                assert(possible_moves@.contains(c));
                let i = choose|i: int| 0 <= i < possible_moves@.len() && possible_moves@[i] == c;
                if c < next {
                    if i >= kk {
                        if i > kk {
                            assert(possible_moves@[kk] < possible_moves@[i]);
                        }
                    }
                }
            }
        }
        ant.visit(world, next);
        assert(ant.solution@.take(step as int) == s0);
        assert forall|k: int| 1 <= k < step + 1 implies #[trigger] is_nearest_step(*world, ant.solution@.take(k), ant.solution@[k]) by {
            if k < step {
                assert(ant.solution@.take(k) == s0.take(k));
                assert(ant.solution@[k] == s0[k]);
            }
        }
        step = step + 1;
    }
    proof {
        lemma_distinct_cities(ant.solution@, n);
    }
    let ghost before = ant.solution@;
    ant.close(world);
    assert forall|k: int| 1 <= k < n implies #[trigger] is_nearest_step(*world, ant.solution@.take(k), ant.solution@[k]) by {
        assert(ant.solution@.take(k) == before.take(k));
        assert(ant.solution@[k] == before[k]);
    }
    ant.solution
}

/// Length of the nearest-neighbour tour of `world`.
pub fn approximate_sol(world: &TspInstance) -> (r: u128)
    requires
        world.well_formed(),
        world.dim > 0,
    ensures
        exists|s: Seq<u32>| is_nearest_neighbor_tour(*world, s) && r == world.cost_of(s),
{
    let tour = nearest_neighbor_tour(world);
    world.evaluate_solution(tour.as_slice())
}


/// The least of `best` and the entries of `costs`.
pub open spec fn min_over(best: u128, costs: Seq<u128>) -> u128
    decreases costs.len(),
{
    if costs.len() == 0 {
        best
    } else {
        let m = min_over(best, costs.drop_last());
        if costs.last() < m {
            costs.last()
        } else {
            m
        }
    }
}

/// `tours[k]` is the first of the closed `tours` with the least length `c`.
pub open spec fn is_iteration_best(world: TspInstance, tours: Seq<Seq<u32>>, k: int, c: u128) -> bool {
    &&& 0 <= k < tours.len()
    &&& forall|i: int| 0 <= i < tours.len() ==> is_closed_tour(#[trigger] tours[i], world.dim as nat)
    &&& c == world.cost_of(tours[k])
    &&& forall|i: int| 0 <= i < tours.len() ==> c <= world.cost_of(#[trigger] tours[i])
    &&& forall|i: int| 0 <= i < k ==> c < world.cost_of(#[trigger] tours[i])
}

/// `tour` is the iteration-best tour of an iteration of `config.ant_count`
/// ants with closed tours, the first of least length `c`; with a fixed
/// start, every one of those tours starts at city 0.
pub open spec fn is_iteration_record(world: TspInstance, config: Config, c: u128, tour: Seq<u32>) -> bool {
    exists|tours: Seq<Seq<u32>>, k: int|
        is_iteration_best(world, tours, k, c) && tours.len() == config.ant_count && tour == tours[k] && (
        !config.random_start ==> forall|i: int| 0 <= i < tours.len() ==> (#[trigger] tours[i])[0] == 0)
}

/// `records[i]` is the iteration-best tour behind `costs[i]` for each
/// iteration; when the best length fell from `old_best` to `new_best`, the
/// best tour is that of the first iteration that reached `new_best`.
pub open spec fn is_run_record(
    world: TspInstance,
    config: Config,
    old_best: u128,
    new_best: u128,
    new_tour: Seq<u32>,
    costs: Seq<u128>,
    records: Seq<Seq<u32>>,
) -> bool {
    &&& records.len() == costs.len()
    &&& forall|i: int| 0 <= i < costs.len() ==> is_iteration_record(world, config, #[trigger] costs[i], records[i])
    &&& new_best < old_best ==> exists|i: int|
        0 <= i < costs.len() && #[trigger] costs[i] == new_best && (forall|j: int| 0 <= j < i ==> #[trigger] costs[j] > costs[i])
            && new_tour == records[i]
}

/// `tour` is the record of the iteration, and the trails went from
/// `before` to `after` by local updates that left the unused cells alone,
/// then by the global update along `tour`.
pub open spec fn is_iteration_outcome(
    world: TspInstance,
    config: Config,
    before: Seq<u64>,
    after: Seq<u64>,
    c: u128,
    tour: Seq<u32>,
) -> bool {
    &&& is_iteration_record(world, config, c, tour)
    &&& exists|mid: Seq<u64>|
        unused_cells_kept(before, mid, world.dim as nat) && after == deposit_along(
            mid,
            world.dim as nat,
            tour,
            deposit_of(c as nat),
            config.evaporation_rate as nat,
        )
}

/// The least of `best` and the entries of `costs` is at most each of them.
pub proof fn lemma_min_over_le(best: u128, costs: Seq<u128>)
    ensures
        min_over(best, costs) <= best,
        forall|j: int| 0 <= j < costs.len() ==> min_over(best, costs) <= #[trigger] costs[j],
    decreases costs.len(),
{
    if costs.len() > 0 {
        lemma_min_over_le(best, costs.drop_last());
        assert forall|j: int| 0 <= j < costs.len() implies min_over(best, costs) <= #[trigger] costs[j] by {
            if j < costs.len() - 1 {
                assert(costs.drop_last()[j] == costs[j]);
            }
        }
    }
}

/// Trail level every edge starts with: `PHEROMONE_ONE / (dim * approximate)`,
/// rounded down and never below 1; `PHEROMONE_ONE` when the baseline tour
/// has length 0.
pub open spec fn tau0_of(dim: nat, approximate: nat) -> nat {
    if approximate == 0 {
        PHEROMONE_ONE as nat
    } else if PHEROMONE_ONE as nat / (dim * approximate) == 0 {
        1
    } else {
        PHEROMONE_ONE as nat / (dim * approximate)
    }
}

fn initial_level(dim: u32, approximate: u128) -> (r: u64)
    requires
        dim > 0,
    ensures
        r == tau0_of(dim as nat, approximate as nat),
        r > 0,
{
    if approximate == 0 {
        return PHEROMONE_ONE;
    }
    let t: u128 = PHEROMONE_ONE as u128 / approximate / dim as u128;
    proof {
        vstd::arithmetic::div_mod::lemma_div_denominator(PHEROMONE_ONE as int, approximate as int, dim as int);
        assert(approximate * dim == dim * approximate) by (nonlinear_arith);
    }
    if t == 0 {
        1
    } else {
        t as u64
    }
}

/// The solver: the problem, the trail matrix, the parameters, and the best
/// tour found so far.
pub struct TspSolver {
    pub problem_instance: TspInstance,
    pub pheromone_dist: PheromoneMatrix,
    pub config: Config,
    /// Level every edge starts with and local updates pull towards.
    pub tau0: u64,
    /// Length of the nearest-neighbour tour.
    pub approximate_solution: u128,
    /// Length of `best_sol`, or `u128::MAX` while no tour was found.
    pub best_sol_cost: u128,
    pub best_sol: Vec<u32>,
}

impl TspSolver {
    /// The parts fit together, and the best tour, once there is one, is a
    /// closed tour whose length is `best_sol_cost`.
    pub open spec fn well_formed(&self) -> bool {
        &&& self.problem_instance.well_formed()
        &&& self.problem_instance.dim > 0
        &&& self.pheromone_dist.well_formed()
        &&& self.pheromone_dist.dim == self.problem_instance.dim
        &&& self.config.well_formed()
        &&& self.tau0 > 0
        &&& self.best_sol@.len() == 0 ==> self.best_sol_cost == u128::MAX
        &&& self.best_sol@.len() > 0 ==> {
            &&& is_closed_tour(self.best_sol@, self.problem_instance.dim as nat)
            &&& self.best_sol_cost == self.problem_instance.cost_of(self.best_sol@)
        }
    }

    /// A solver for `problem_instance`, with every trail at `tau0` derived
    /// from the nearest-neighbour tour, and no best tour yet.
    pub fn new(problem_instance: TspInstance, config: Config) -> (r: TspSolver)
        requires
            problem_instance.well_formed(),
            problem_instance.dim > 0,
            problem_instance.dim * problem_instance.dim <= usize::MAX,
            config.well_formed(),
        ensures
            r.well_formed(),
            r.problem_instance == problem_instance,
            r.config == config,
            exists|s: Seq<u32>|
                is_nearest_neighbor_tour(problem_instance, s) && r.approximate_solution
                    == problem_instance.cost_of(s),
            r.tau0 == tau0_of(problem_instance.dim as nat, r.approximate_solution as nat),
            r.pheromone_dist.dim == problem_instance.dim,
            forall|k: int| 0 <= k < r.pheromone_dist.cells@.len() ==> #[trigger] r.pheromone_dist.cells@[k] == r.tau0,
            r.best_sol@.len() == 0,
            r.best_sol_cost == u128::MAX,
    {
        let approximate_solution = approximate_sol(&problem_instance);
        let tau0 = initial_level(problem_instance.dim, approximate_solution);
        let pheromone_dist = PheromoneMatrix::new(problem_instance.dim as usize, tau0);
        TspSolver {
            problem_instance,
            pheromone_dist,
            config,
            tau0,
            approximate_solution,
            best_sol_cost: u128::MAX,
            best_sol: Vec::new(),
        }
    }

    /// One colony iteration: `ant_count` fresh ants walk in lockstep rounds
    /// until all have closed their tours; the first shortest tour gets the
    /// global update and replaces the best tour if it is strictly shorter.
    /// Returns the length of that iteration-best tour, or `None` when there
    /// are no ants.
    pub fn run_iteration(&mut self) -> (r: Option<u128>)
        requires
            old(self).well_formed(),
        ensures
            final(self).well_formed(),
            final(self).problem_instance == old(self).problem_instance,
            final(self).config == old(self).config,
            final(self).tau0 == old(self).tau0,
            final(self).approximate_solution == old(self).approximate_solution,
            final(self).best_sol_cost <= old(self).best_sol_cost,
            old(self).config.ant_count == 0 <==> r is None,
            old(self).config.ant_count == 0 ==> *final(self) == *old(self),
            unused_cells_kept(
                old(self).pheromone_dist.cells@,
                final(self).pheromone_dist.cells@,
                old(self).problem_instance.dim as nat,
            ),
            r matches Some(c) ==> final(self).best_sol_cost == if c < old(self).best_sol_cost {
                c
            } else {
                old(self).best_sol_cost
            },
            r is Some ==> final(self).best_sol@.len() > 0,
            r matches Some(c) ==> (c >= old(self).best_sol_cost ==> final(self).best_sol == old(self).best_sol),
            r matches Some(c) ==> exists|tour: Seq<u32>|
                #[trigger] is_iteration_outcome(
                    old(self).problem_instance,
                    old(self).config,
                    old(self).pheromone_dist.cells@,
                    final(self).pheromone_dist.cells@,
                    c,
                    tour,
                ) && (c < old(self).best_sol_cost ==> final(self).best_sol@ == tour),
    {
        if self.config.ant_count == 0 {
            return None;
        }
        let n: u32 = self.problem_instance.dim;
        let ghost nn = n as nat;
        let ghost s0 = *self;
        let mut ants: Vec<Ant> = Vec::new();
        let mut a: u32 = 0;
        while a < self.config.ant_count
            invariant
                self.well_formed(),
                self.problem_instance == s0.problem_instance,
                self.config == s0.config,
                self.tau0 == s0.tau0,
                self.approximate_solution == s0.approximate_solution,
                self.best_sol_cost == s0.best_sol_cost,
                self.best_sol == s0.best_sol,
                self.config.ant_count > 0,
                n == self.problem_instance.dim,
                nn == n,
                a <= self.config.ant_count,
                ants@.len() == a,
                !self.config.random_start ==> forall|i: int| 0 <= i < ants@.len() ==> (#[trigger] ants@[i]).orig_state == 0,
                forall|i: int| 0 <= i < ants@.len() ==> {
                    &&& (#[trigger] ants@[i]).well_formed(nn)
                    &&& !ants@[i].is_done
                    &&& ants@[i].solution@.len() == 1
                },
            decreases self.config.ant_count - a,
        {
            let start: u32 = if self.config.random_start {
                draw_below(n as u128) as u32
            } else {
                0
            };
            ants.push(Ant::starting_at(&self.problem_instance, start));
            a = a + 1;
        }
        let mut round: u32 = 0;
        while round < n
            invariant
                self.well_formed(),
                self.problem_instance == s0.problem_instance,
                self.config == s0.config,
                self.tau0 == s0.tau0,
                self.approximate_solution == s0.approximate_solution,
                self.best_sol_cost == s0.best_sol_cost,
                self.best_sol == s0.best_sol,
                self.config.ant_count > 0,
                n == self.problem_instance.dim,
                nn == n,
                round <= n,
                ants@.len() == self.config.ant_count,
                unused_cells_kept(s0.pheromone_dist.cells@, self.pheromone_dist.cells@, nn),
                s0.well_formed(),
                !self.config.random_start ==> forall|i: int| 0 <= i < ants@.len() ==> (#[trigger] ants@[i]).orig_state == 0,
                forall|i: int| 0 <= i < ants@.len() ==> {
                    &&& (#[trigger] ants@[i]).well_formed(nn)
                    &&& ants@[i].is_done == (round == n)
                    &&& round < n ==> ants@[i].solution@.len() == round + 1
                },
            decreases n - round,
        {
            let mut k: usize = 0;
            while k < ants.len()
                invariant
                    self.well_formed(),
                    self.problem_instance == s0.problem_instance,
                    self.config == s0.config,
                    self.tau0 == s0.tau0,
                    self.approximate_solution == s0.approximate_solution,
                    self.best_sol_cost == s0.best_sol_cost,
                    self.best_sol == s0.best_sol,
                    self.config.ant_count > 0,
                    unused_cells_kept(s0.pheromone_dist.cells@, self.pheromone_dist.cells@, nn),
                    s0.well_formed(),
                    !self.config.random_start ==> forall|i: int| 0 <= i < ants@.len() ==> (#[trigger] ants@[i]).orig_state == 0,
                    n == self.problem_instance.dim,
                    nn == n,
                    round < n,
                    k <= ants@.len(),
                    ants@.len() == self.config.ant_count,
                    forall|i: int| 0 <= i < ants@.len() ==> (#[trigger] ants@[i]).well_formed(nn),
                    forall|i: int| 0 <= i < k ==> {
                        &&& (#[trigger] ants@[i]).is_done == (round + 1 == n)
                        &&& round + 1 < n ==> ants@[i].solution@.len() == round + 2
                    },
                    forall|i: int| k <= i < ants@.len() ==> {
                        &&& !(#[trigger] ants@[i]).is_done
                        &&& ants@[i].solution@.len() == round + 1
                    },
                decreases ants@.len() - k,
            {
                let ghost cells_before = self.pheromone_dist.cells@;
                ants[k].make_move(
                    &self.problem_instance,
                    &mut self.pheromone_dist,
                    &self.config,
                    self.tau0,
                );
                proof {
                    crate::pheromone::lemma_unused_cells_kept_trans(
                        s0.pheromone_dist.cells@,
                        cells_before,
                        self.pheromone_dist.cells@,
                        nn,
                    );
                }
                k = k + 1;
            }
            round = round + 1;
        }
        let mut best_idx: usize = 0;
        let mut best_ant_sol = ants[0].get_solution(&self.problem_instance);
        let mut k: usize = 1;
        while k < ants.len()
            invariant
                self.well_formed(),
                self.problem_instance == s0.problem_instance,
                self.config == s0.config,
                self.tau0 == s0.tau0,
                self.approximate_solution == s0.approximate_solution,
                self.best_sol_cost == s0.best_sol_cost,
                self.best_sol == s0.best_sol,
                self.config.ant_count > 0,
                nn == self.problem_instance.dim,
                1 <= k <= ants@.len(),
                best_idx < ants@.len(),
                forall|i: int| 0 <= i < ants@.len() ==> (#[trigger] ants@[i]).well_formed(nn) && ants@[i].is_done,
                unused_cells_kept(s0.pheromone_dist.cells@, self.pheromone_dist.cells@, nn),
                s0.well_formed(),
                !self.config.random_start ==> forall|i: int| 0 <= i < ants@.len() ==> (#[trigger] ants@[i]).orig_state == 0,
                best_ant_sol == self.problem_instance.cost_of(ants@[best_idx as int].solution@),
                best_ant_sol < u128::MAX,
                best_idx < k,
                forall|i: int| 0 <= i < k ==> best_ant_sol <= self.problem_instance.cost_of((#[trigger] ants@[i]).solution@),
                forall|i: int| 0 <= i < best_idx ==> best_ant_sol < self.problem_instance.cost_of((#[trigger] ants@[i]).solution@),
            decreases ants@.len() - k,
        {
            let c = ants[k].get_solution(&self.problem_instance);
            if c < best_ant_sol {
                best_ant_sol = c;
                best_idx = k;
            }
            k = k + 1;
        }
        let ghost tours = ants@.map_values(|a: Ant| a.solution@);
        assert(is_iteration_best(s0.problem_instance, tours, best_idx as int, best_ant_sol)) by {
            assert forall|i: int| 0 <= i < tours.len() implies is_closed_tour(#[trigger] tours[i], nn) by {
                assert(ants@[i].well_formed(nn) && ants@[i].is_done);
            }
            assert forall|i: int| 0 <= i < tours.len() implies best_ant_sol <= s0.problem_instance.cost_of(#[trigger] tours[i]) by {
                assert(tours[i] == ants@[i].solution@);
            }
            assert forall|i: int| 0 <= i < best_idx implies best_ant_sol < s0.problem_instance.cost_of(#[trigger] tours[i]) by {
                assert(tours[i] == ants@[i].solution@);
            }
        }
        assert(!s0.config.random_start ==> forall|i: int| 0 <= i < tours.len() ==> (#[trigger] tours[i])[0] == 0) by {
            if !s0.config.random_start {
                assert forall|i: int| 0 <= i < tours.len() implies (#[trigger] tours[i])[0] == 0 by {
                    assert(tours[i] == ants@[i].solution@);
                    assert(ants@[i].well_formed(nn));
                }
            }
        }
        let best_ant = ants.remove(best_idx);
        let ghost mid = self.pheromone_dist.cells@;
        assert(best_ant.well_formed(nn) && best_ant.is_done);
        assert(is_closed_tour(best_ant.solution@, nn));
        best_ant.update_pheromones(&self.problem_instance, &mut self.pheromone_dist, &self.config);
        if self.best_sol_cost > best_ant_sol {
            self.best_sol_cost = best_ant_sol;
            self.best_sol = best_ant.solution;
        }
        assert(best_ant_sol == s0.problem_instance.cost_of(best_ant.solution@));
        assert(tours[best_idx as int] == best_ant.solution@);
        assert(is_iteration_record(s0.problem_instance, s0.config, best_ant_sol, tours[best_idx as int]));
        assert(self.pheromone_dist.cells@ == deposit_along(
            mid,
            nn,
            tours[best_idx as int],
            deposit_of(best_ant_sol as nat),
            s0.config.evaporation_rate as nat,
        ));
        assert(is_iteration_outcome(
            s0.problem_instance,
            s0.config,
            s0.pheromone_dist.cells@,
            self.pheromone_dist.cells@,
            best_ant_sol,
            tours[best_idx as int],
        ));
        assert(best_ant_sol < s0.best_sol_cost ==> self.best_sol@ == tours[best_idx as int]);
        let r = Some(best_ant_sol);
        assert(r->0 == best_ant_sol);
        assert(exists|tour: Seq<u32>|
            #[trigger] is_iteration_outcome(
                s0.problem_instance,
                s0.config,
                s0.pheromone_dist.cells@,
                self.pheromone_dist.cells@,
                r->0,
                tour,
            ) && (r->0 < s0.best_sol_cost ==> self.best_sol@ == tour));
        r
    }

    /// Runs `iterations` colony iterations and returns the length of each
    /// iteration-best tour, in order (none when there are no ants).
    pub fn solve(&mut self) -> (r: Vec<u128>)
        requires
            old(self).well_formed(),
        ensures
            final(self).well_formed(),
            final(self).problem_instance == old(self).problem_instance,
            final(self).config == old(self).config,
            final(self).tau0 == old(self).tau0,
            final(self).approximate_solution == old(self).approximate_solution,
            old(self).config.ant_count > 0 ==> r@.len() == old(self).config.iterations,
            old(self).config.ant_count == 0 || old(self).config.iterations == 0 ==> {
                &&& r@.len() == 0
                &&& *final(self) == *old(self)
            },
            exists|records: Seq<Seq<u32>>|
                #[trigger] is_run_record(
                    old(self).problem_instance,
                    old(self).config,
                    old(self).best_sol_cost,
                    final(self).best_sol_cost,
                    final(self).best_sol@,
                    r@,
                    records,
                ),
            final(self).best_sol_cost == min_over(old(self).best_sol_cost, r@),
            final(self).best_sol_cost == old(self).best_sol_cost ==> final(self).best_sol == old(self).best_sol,
            old(self).config.iterations > 0 && old(self).config.ant_count > 0 ==> final(self).best_sol@.len() > 0,
            unused_cells_kept(
                old(self).pheromone_dist.cells@,
                final(self).pheromone_dist.cells@,
                old(self).problem_instance.dim as nat,
            ),
    {
        let iterations = self.config.iterations;
        let ghost start = *self;
        let mut costs: Vec<u128> = Vec::new();
        let ghost mut records: Seq<Seq<u32>> = Seq::empty();
        let mut iteration: u32 = 0;
        while iteration < iterations
            invariant
                self.well_formed(),
                self.problem_instance == start.problem_instance,
                self.config == start.config,
                self.tau0 == start.tau0,
                self.approximate_solution == start.approximate_solution,
                iterations == self.config.iterations,
                iteration <= iterations,
                start.config.ant_count > 0 ==> costs@.len() == iteration,
                start.config.ant_count == 0 || iteration == 0 ==> costs@.len() == 0 && *self == start,
                records.len() == costs@.len(),
                forall|i: int|
                    0 <= i < costs@.len() ==> is_iteration_record(
                        start.problem_instance,
                        start.config,
                        #[trigger] costs@[i],
                        records[i],
                    ),
                self.best_sol_cost < start.best_sol_cost ==> exists|i: int|
                    0 <= i < costs@.len() && costs@[i] == self.best_sol_cost && (forall|j: int|
                        0 <= j < i ==> #[trigger] costs@[j] > costs@[i]) && self.best_sol@ == records[i],
                self.best_sol_cost == min_over(start.best_sol_cost, costs@),
                self.best_sol_cost == start.best_sol_cost ==> self.best_sol == start.best_sol,
                self.best_sol_cost <= start.best_sol_cost,
                iteration > 0 && self.config.ant_count > 0 ==> self.best_sol@.len() > 0,
                unused_cells_kept(
                    start.pheromone_dist.cells@,
                    self.pheromone_dist.cells@,
                    start.problem_instance.dim as nat,
                ),
                start.well_formed(),
            decreases iterations - iteration,
        {
            let ghost before = *self;
            let ghost old_costs = costs@;
            let outcome = self.run_iteration();
            proof {
                crate::pheromone::lemma_unused_cells_kept_trans(
                    start.pheromone_dist.cells@,
                    before.pheromone_dist.cells@,
                    self.pheromone_dist.cells@,
                    start.problem_instance.dim as nat,
                );
            }
            match outcome {
                Some(c) => {
                    let ghost tour = choose|tour: Seq<u32>|
                        is_iteration_record(start.problem_instance, start.config, c, tour) && (c
                            < before.best_sol_cost ==> self.best_sol@ == tour);
                    proof {
                        lemma_min_over_le(start.best_sol_cost, old_costs);
                    }
                    let ghost old_records = records;
                    costs.push(c);
                    proof {
                        records = records.push(tour);
                    }
                    assert(costs@.drop_last() == old_costs);
                    assert forall|i: int|
                        0 <= i < costs@.len() implies is_iteration_record(
                            start.problem_instance,
                            start.config,
                            #[trigger] costs@[i],
                            records[i],
                        ) by {
                        if i < old_costs.len() {
                            assert(costs@[i] == old_costs[i] && records[i] == old_records[i]);
                        }
                    }
                    assert(self.best_sol_cost == start.best_sol_cost ==> self.best_sol == start.best_sol) by {
                        if self.best_sol_cost == start.best_sol_cost && c < before.best_sol_cost {
                            assert(false);
                        }
                    }
                    proof {
                        if c < before.best_sol_cost {
                            let i = old_costs.len() as int;
                            assert(costs@[i] == c && records[i] == tour);
                            assert forall|j: int| 0 <= j < i implies #[trigger] costs@[j] > costs@[i] by {
                                assert(costs@[j] == old_costs[j]);
                            }
                        } else if self.best_sol_cost < start.best_sol_cost {
                            let i = choose|i: int|
                                0 <= i < old_costs.len() && old_costs[i] == before.best_sol_cost && (forall|j: int|
                                    0 <= j < i ==> #[trigger] old_costs[j] > old_costs[i]) && before.best_sol@
                                    == old_records[i];
                            assert(costs@[i] == old_costs[i] && records[i] == old_records[i]);
                            assert forall|j: int| 0 <= j < i implies #[trigger] costs@[j] > costs@[i] by {
                                assert(costs@[j] == old_costs[j]);
                            }
                        }
                    }
                },
                None => {},
            }
            iteration = iteration + 1;
        }
        assert(is_run_record(
            start.problem_instance,
            start.config,
            start.best_sol_cost,
            self.best_sol_cost,
            self.best_sol@,
            costs@,
            records,
        ));
        costs
    }
}

} // verus!
