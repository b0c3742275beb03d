use ants_tsp::input_parser::FileType;
use ants_tsp::pheromone::{PheromoneMatrix, PHEROMONE_ONE, RATE_ONE};
use ants_tsp::tsp_instance::{COORD_LIMIT, distance, floor_sqrt, parse_coordinates, parse_solution, TspInstance};
use ants_tsp::tsp_solver::{
    approximate_sol, argmax, eq_4, exploration_total, nearest_neighbor_tour, unvisited, weight_of,
    Ant, Config, TspSolver, WEIGHT_CAP,
};

fn config(ant_count: u32, iterations: u32) -> Config {
    Config {
        ant_count,
        pheromone_decay: RATE_ONE / 10,
        evaporation_rate: RATE_ONE / 10,
        alpha: 1,
        beta: 2,
        q0: RATE_ONE * 9 / 10,
        iterations,
        random_start: false,
    }
}

fn square() -> TspInstance {
    let pts = vec![(0, 0), (0, 1000), (1000, 1000), (1000, 0)];
    TspInstance::new(FileType::Coordinates((pts, 4)), None)
}

fn three() -> TspInstance {
    let rows = vec![vec![0, 2, 9], vec![2, 0, 6], vec![9, 6, 0]];
    TspInstance::new(FileType::Explicit((rows.concat(), 3)), None)
}

fn assert_closed_tour(tour: &[u32], n: usize) {
    assert_eq!(tour.len(), n + 1);
    assert_eq!(tour[0], tour[n]);
    let mut seen = vec![false; n];
    for &c in &tour[..n] {
        assert!((c as usize) < n);
        assert!(!seen[c as usize]);
        seen[c as usize] = true;
    }
    assert!(seen.iter().all(|&s| s));
}

#[test]
fn square_instance_converges_to_perimeter() {
    let mut solver = TspSolver::new(square(), config(4, 200));
    let costs = solver.solve();
    assert_eq!(costs.len(), 200);
    assert_eq!(solver.best_sol_cost, 4000);
    assert_eq!(solver.best_sol_cost, *costs.iter().min().unwrap());
    assert_closed_tour(&solver.best_sol, 4);
}

#[test]
fn three_city_matrix_costs_seventeen() {
    let mut solver = TspSolver::new(three(), config(1, 1));
    let costs = solver.solve();
    assert_eq!(costs, vec![17]);
    assert_eq!(solver.best_sol_cost, 17);
    assert_closed_tour(&solver.best_sol, 3);
    assert!(solver.best_sol == vec![0, 1, 2, 0] || solver.best_sol == vec![0, 2, 1, 0]);
}

#[test]
fn solve_keeps_first_best_tour_on_ties() {
    let mut solver = TspSolver::new(three(), config(3, 4));
    solver.run_iteration();
    let first = solver.best_sol.clone();
    let costs = solver.solve();
    assert_eq!(costs, vec![17, 17, 17, 17]);
    assert_eq!(solver.best_sol, first);
}

#[test]
fn zero_iterations_change_nothing() {
    let mut solver = TspSolver::new(three(), config(3, 0));
    let before = solver.pheromone_dist.cells.clone();
    assert!(solver.solve().is_empty());
    assert_eq!(solver.pheromone_dist.cells, before);
    assert_eq!(solver.best_sol_cost, u128::MAX);
}

#[test]
fn only_edge_cells_change() {
    let pts = vec![(0, 0), (3000, 0), (3000, 4000), (0, 4000), (1500, 6000)];
    let world = TspInstance::new(FileType::Coordinates((pts, 5)), None);
    let mut solver = TspSolver::new(world, config(3, 5));
    let tau0 = solver.tau0;
    solver.solve();
    for i in 0..5 {
        for j in 0..=i {
            assert_eq!(solver.pheromone_dist.cells[i * 5 + j], tau0);
        }
    }
}

#[test]
fn lower_triangle_matrix() {
    let data = vec![0, 2, 0, 9, 6, 0];
    let world = TspInstance::new(FileType::Explicit((data, 3)), None);
    assert_eq!(world.at(0, 1), 2);
    assert_eq!(world.at(1, 0), 2);
    assert_eq!(world.at(2, 0), 9);
    assert_eq!(world.at(0, 2), 9);
    assert_eq!(world.at(1, 2), 6);
    assert_eq!(world.at(2, 2), 0);
}

#[test]
fn three_city_matrix_with_random_starts() {
    let mut c = config(5, 3);
    c.random_start = true;
    c.q0 = 0;
    let mut solver = TspSolver::new(three(), c);
    solver.solve();
    assert_eq!(solver.best_sol_cost, 17);
}

#[test]
fn reference_cost_is_its_evaluation() {
    let rows = vec![vec![0, 2, 9], vec![2, 0, 6], vec![9, 6, 0]];
    let world = TspInstance::new(FileType::Explicit((rows.concat(), 3)), Some(vec![1, 3, 2, -1]));
    let (tour, cost) = world.get_optimal_solution().unwrap();
    assert_eq!(tour, &[0, 2, 1, 0]);
    assert_eq!(cost, world.evaluate_solution(&[0, 2, 1, 0]));
    assert_eq!(cost, 17);
}

#[test]
fn reference_absent_is_none_and_search_runs() {
    let world = three();
    assert!(world.get_optimal_solution().is_none());
    let mut solver = TspSolver::new(world, config(2, 2));
    solver.solve();
    assert!(solver.problem_instance.get_optimal_solution().is_none());
    assert_eq!(solver.best_sol_cost, 17);
}

#[test]
fn best_cost_never_increases() {
    let pts = vec![(0, 0), (3000, 0), (3000, 4000), (0, 4000), (1500, 6000), (-2000, 2000)];
    let world = TspInstance::new(FileType::Coordinates((pts, 6)), None);
    let mut solver = TspSolver::new(world, config(3, 1));
    let mut last = solver.best_sol_cost;
    for _ in 0..20 {
        let it = solver.run_iteration().unwrap();
        assert!(solver.best_sol_cost <= last);
        assert!(solver.best_sol_cost <= it);
        assert_eq!(solver.best_sol_cost, solver.problem_instance.evaluate_solution(&solver.best_sol));
        last = solver.best_sol_cost;
    }
}

#[test]
fn no_ants_leaves_solver_unchanged() {
    let mut solver = TspSolver::new(three(), config(0, 3));
    assert!(solver.run_iteration().is_none());
    solver.solve();
    assert_eq!(solver.best_sol_cost, u128::MAX);
    assert!(solver.best_sol.is_empty());
}

#[test]
fn distance_matrix_is_symmetric_with_zero_diagonal() {
    let pts = vec![(0, 0), (3, 4), (-7, 2), (10, -10)];
    let grid = parse_coordinates(pts, 4);
    for i in 0..4 {
        assert_eq!(grid[i][i], 0);
        for j in 0..4 {
            assert_eq!(grid[i][j], grid[j][i]);
        }
    }
    assert_eq!(grid[0][1], 5);
}

#[test]
fn euclidean_distance_rounds_down() {
    assert_eq!(distance((0, 0), (3, 4)), 5);
    assert_eq!(distance((0, 0), (1000, 1000)), 1414);
    assert_eq!(distance((i32::MIN as i64, i32::MIN as i64), (i32::MAX as i64, i32::MAX as i64)), 6074000998);
    let l = COORD_LIMIT;
    assert_eq!(distance((-l, -l), (l, l)), 13043817825332782212);
    assert_eq!(floor_sqrt(15), 3);
    assert_eq!(floor_sqrt(16), 4);
    assert_eq!(floor_sqrt(0), 0);
    assert_eq!(floor_sqrt(u128::MAX), u64::MAX);
}

#[test]
fn solution_entries_become_city_indices() {
    assert_eq!(parse_solution(Some(vec![1, 5, 3, -1])), Some(vec![0, 4, 2, 0]));
    assert_eq!(parse_solution(Some(vec![0])), Some(vec![u32::MAX]));
    assert_eq!(parse_solution(Some(vec![i32::MIN])), Some(vec![0x7fff_ffff]));
    assert_eq!(parse_solution(None), None);
}

#[test]
fn evaluate_solution_is_repeatable() {
    let world = three();
    let a = world.evaluate_solution(&[0, 1, 2, 0]);
    let b = world.evaluate_solution(&[0, 1, 2, 0]);
    assert_eq!(a, b);
    assert_eq!(a, 17);
    assert_eq!(world.evaluate_solution(&[2]), 0);
    assert_eq!(world.evaluate_solution(&[]), 0);
    assert_eq!(world.at(1, 2), 6);
}

#[test]
fn local_update_moves_towards_tau0() {
    let mut p = PheromoneMatrix::new(3, 100);
    p.update_edge(0, 1, 1000, RATE_ONE / 10);
    assert_eq!(p.get(0, 1), 190);
    assert_eq!(p.get(1, 0), 190);
    assert_eq!(p.get(0, 2), 100);
    p.update_edge(1, 0, 10, RATE_ONE / 2);
    assert_eq!(p.get(0, 1), 100);
    p.update_edge(2, 2, 7, RATE_ONE);
    assert_eq!(p.get(2, 2), 7);
    p.update_edge(2, 1, 7, 0);
    assert_eq!(p.get(1, 2), 100);
}

#[test]
fn global_update_deposits_inverse_cost() {
    let world = three();
    let mut ant = Ant::new(&world);
    let mut p = PheromoneMatrix::new(3, 1000);
    let c = config(1, 1);
    for _ in 0..3 {
        ant.make_move(&world, &mut p, &c, 1000);
    }
    assert!(ant.is_done);
    let mut q = PheromoneMatrix::new(3, 1000);
    ant.update_pheromones(&world, &mut q, &c);
    // Each edge: 0.9 * 1000 + 0.1 * (PHEROMONE_ONE / 17), rounded down.
    let expected = (900_000u128 * 1000 + 100_000u128 * (PHEROMONE_ONE as u128 / 17)) / 1_000_000;
    assert_eq!(q.get(0, 1) as u128, expected);
    assert_eq!(q.get(1, 2) as u128, expected);
    assert_eq!(q.get(0, 2) as u128, expected);
    assert_eq!(q.get(0, 0), 1000);
}

#[test]
fn ant_builds_closed_tour() {
    let world = square();
    let mut ant = Ant::new(&world);
    let mut p = PheromoneMatrix::new(4, 50);
    let c = config(1, 1);
    for _ in 0..4 {
        assert!(!ant.is_done);
        ant.make_move(&world, &mut p, &c, 50);
    }
    assert!(ant.is_done);
    assert_closed_tour(&ant.solution, 4);
    let before = ant.solution.clone();
    ant.make_move(&world, &mut p, &c, 50);
    assert_eq!(ant.solution, before);
    assert_eq!(ant.get_solution(&world), world.evaluate_solution(&before));
}

#[test]
fn ant_starting_elsewhere() {
    let world = square();
    let ant = Ant::starting_at(&world, 2);
    assert_eq!(ant.solution, vec![2]);
    assert_eq!(ant.visited, vec![false, false, true, false]);
}

#[test]
fn unvisited_lists_cities_in_order() {
    assert_eq!(unvisited(&vec![true, false, true, false, false]), vec![1, 3, 4]);
    assert!(unvisited(&vec![true, true]).is_empty());
}

#[test]
fn move_weights_and_selection() {
    assert_eq!(weight_of(10, 1000, 1, 2), 10 * 1_000_000 * 1_000_000);
    assert_eq!(weight_of(10, 0, 0, 0), 1);
    assert_eq!(weight_of(u64::MAX, 1, 2, 2), WEIGHT_CAP);
    assert_eq!(weight_of(5, 2_000_000_000, 1, 1), 5);
    let rows = vec![vec![0, 1000, 2000, 1000], vec![1000, 0, 1000, 2000], vec![2000, 1000, 0, 1000], vec![1000, 2000, 1000, 0]];
    let world = TspInstance::new(FileType::Explicit((rows.concat(), 4)), None);
    let p = PheromoneMatrix::new(4, 1);
    let c = config(1, 1);
    // Cities 1 and 3 tie as nearest: the first wins.
    assert_eq!(argmax(0, &[1, 2, 3], &world, &p, &c), 1);
    assert_eq!(argmax(0, &[2, 3], &world, &p, &c), 3);
    let total = exploration_total(0, &[1, 2, 3], &world, &p, &c);
    assert_eq!(total, 1_000_000_000_000 + 250_000_000_000 + 1_000_000_000_000);
    assert_eq!(eq_4(0, &[1, 2, 3], &world, &p, &c, 0), 1);
    assert_eq!(eq_4(0, &[1, 2, 3], &world, &p, &c, 999_999_999_999), 1);
    assert_eq!(eq_4(0, &[1, 2, 3], &world, &p, &c, 1_000_000_000_000), 2);
    assert_eq!(eq_4(0, &[1, 2, 3], &world, &p, &c, 1_250_000_000_000), 3);
    assert_eq!(eq_4(0, &[1, 2, 3], &world, &p, &c, total - 1), 3);
}

#[test]
fn nearest_neighbor_baseline() {
    let rows = vec![
        vec![0, 5, 1, 9],
        vec![5, 0, 2, 3],
        vec![1, 2, 0, 7],
        vec![9, 3, 7, 0],
    ];
    let world = TspInstance::new(FileType::Explicit((rows.concat(), 4)), None);
    assert_eq!(nearest_neighbor_tour(&world), vec![0, 2, 1, 3, 0]);
    assert_eq!(approximate_sol(&world), 1 + 2 + 3 + 9);
    let ties = square();
    assert_eq!(nearest_neighbor_tour(&ties), vec![0, 1, 2, 3, 0]);
}

#[test]
fn tau0_comes_from_baseline() {
    let solver = TspSolver::new(three(), config(1, 1));
    assert_eq!(solver.approximate_solution, 17);
    assert_eq!(solver.tau0 as u128, PHEROMONE_ONE as u128 / (3 * 17));
    assert_eq!(solver.pheromone_dist.get(1, 2), solver.tau0);
    let single = TspInstance::new(FileType::Explicit((vec![0], 1)), None);
    let mut solver = TspSolver::new(single, config(2, 2));
    assert_eq!(solver.approximate_solution, 0);
    assert_eq!(solver.tau0, PHEROMONE_ONE);
    solver.solve();
    assert_eq!(solver.best_sol, vec![0, 0]);
    assert_eq!(solver.best_sol_cost, 0);
}

#[test]
fn pure_exploitation_follows_heaviest_edges() {
    let rows = vec![
        vec![0, 5000, 1000, 9000],
        vec![5000, 0, 2000, 3000],
        vec![1000, 2000, 0, 7000],
        vec![9000, 3000, 7000, 0],
    ];
    let world = TspInstance::new(FileType::Explicit((rows.concat(), 4)), None);
    let mut c = config(1, 1);
    c.q0 = RATE_ONE;
    let mut ant = Ant::new(&world);
    let mut p = PheromoneMatrix::new(4, 1000);
    for _ in 0..4 {
        ant.make_move(&world, &mut p, &c, 1000);
    }
    assert_eq!(ant.solution, vec![0, 2, 1, 3, 0]);
    // The local update pulls the traversed edges towards tau0, which they
    // already hold.
    assert_eq!(p.get(0, 2), 1000);
    let mut q = PheromoneMatrix::new(4, 2000);
    let mut ant = Ant::new(&world);
    ant.make_move(&world, &mut q, &c, 1000);
    assert_eq!(q.get(2, 0), 1900);
    assert_eq!(q.get(0, 1), 2000);
}

#[test]
fn move_selection_at_the_solvers_own_scale() {
    let solver = TspSolver::new(square(), config(4, 1));
    assert_eq!(solver.approximate_solution, 4000);
    assert_eq!(solver.tau0, 62_500_000);
    let world = &solver.problem_instance;
    let p = &solver.pheromone_dist;
    let c = &solver.config;
    let side = weight_of(solver.tau0, 1000, 1, 2);
    let diagonal = weight_of(solver.tau0, 1414, 1, 2);
    assert_eq!(side, 62_500_000u128 * 1_000_000 * 1_000_000);
    assert_eq!(diagonal, 31_259_389_210_562_500_000);
    assert!(side < WEIGHT_CAP && diagonal < side);
    // The side to city 3 beats the diagonal to city 2 despite its index.
    assert_eq!(argmax(0, &[2, 3], world, p, c), 3);
    assert_eq!(argmax(1, &[2, 3], world, p, c), 2);
    let total = exploration_total(0, &[1, 2, 3], world, p, c);
    assert_eq!(total, 2 * side + diagonal);
    assert_eq!(eq_4(0, &[1, 2, 3], world, p, c, side - 1), 1);
    assert_eq!(eq_4(0, &[1, 2, 3], world, p, c, side), 2);
    assert_eq!(eq_4(0, &[1, 2, 3], world, p, c, side + diagonal), 3);
}
