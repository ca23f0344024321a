use water_sort::game_elements::color::Color;
use water_sort::game_elements::glass::Glass;
use water_sort::game_elements::glass_system::GlassSystem;
use water_sort::game_elements::step::Step;
use water_sort::solver::data_structures::{EvaluatedNode, SolverQueue};
use water_sort::solver::evaluation::SolutionValueMode;
use water_sort::solver::solution::WaterSortSolution;
use water_sort::solver::{
    bfs_shortest_path, build_state_graph, dfs_shortest_path, heuristic_dijkstra_search, solve, SolverError,
};

fn glass_of(ids: &[u8]) -> Glass {
    let mut g = Glass::new();
    for &id in ids {
        g.push(Color::new(id)).unwrap();
    }
    g
}

fn system(glasses: &[&[u8]]) -> GlassSystem {
    GlassSystem::new(glasses.iter().map(|g| glass_of(g)).collect())
}

fn two_color_puzzle() -> GlassSystem {
    system(&[&[1, 2, 1, 2], &[2, 1, 2, 1], &[], &[]])
}

fn check_solution(start: &GlassSystem, sol: &WaterSortSolution) {
    let end = solve(start.clone(), sol).expect("the solution replays");
    assert!(end.is_solved());
}

#[test]
fn bfs_solves_small_puzzle() {
    let start = two_color_puzzle();
    let sol = bfs_shortest_path(&start).unwrap();
    assert!(sol.len() > 0);
    check_solution(&start, &sol);
}

#[test]
fn dfs_solves_small_puzzle() {
    let start = two_color_puzzle();
    let sol = dfs_shortest_path(&start).unwrap();
    check_solution(&start, &sol);
}

#[test]
fn heuristic_solves_small_puzzle() {
    let start = two_color_puzzle();
    for mode in [SolutionValueMode::Constant, SolutionValueMode::ColorCount, SolutionValueMode::AlternatingColors] {
        let sol = heuristic_dijkstra_search(&start, &mode).unwrap();
        check_solution(&start, &sol);
    }
}

#[test]
fn bfs_finds_one_step_solution() {
    let start = system(&[&[1, 1, 1, 1], &[2, 2, 2], &[2]]);
    let sol = bfs_shortest_path(&start).unwrap();
    assert_eq!(sol.len(), 1);
    check_solution(&start, &sol);
}

#[test]
fn bfs_is_no_longer_than_heuristic() {
    let start = two_color_puzzle();
    let b = bfs_shortest_path(&start).unwrap();
    let h = heuristic_dijkstra_search(&start, &SolutionValueMode::ColorCount).unwrap();
    assert!(b.len() <= h.len());
}

#[test]
fn unsolvable_puzzle_has_no_solution() {
    let start = system(&[&[1, 2, 1, 2], &[2, 1, 2, 1]]);
    assert!(matches!(bfs_shortest_path(&start), Err(SolverError::NoSolutionError)));
    assert!(matches!(dfs_shortest_path(&start), Err(SolverError::NoSolutionError)));
    assert!(matches!(
        heuristic_dijkstra_search(&start, &SolutionValueMode::ColorCount),
        Err(SolverError::NoSolutionError)
    ));
}

#[test]
fn already_solved_start_needs_no_step_in_bfs() {
    let start = system(&[&[1, 1, 1, 1], &[]]);
    assert!(bfs_shortest_path(&start).unwrap().is_empty());
    assert!(matches!(dfs_shortest_path(&start), Err(SolverError::NoSolutionError)));
    // The heuristic search only checks the systems that moves reach.
    assert!(matches!(
        heuristic_dijkstra_search(&start, &SolutionValueMode::ColorCount),
        Err(SolverError::NoSolutionError)
    ));
}

#[test]
fn solve_reports_failing_step() {
    let start = system(&[&[1, 2], &[]]);
    let mut sol = WaterSortSolution::new();
    sol.push(Step { source: 0, destination: 7 });
    sol.push(Step { source: 0, destination: 1 });
    assert_eq!(sol.len(), 2);
    assert!(matches!(solve(start.clone(), &sol), Err(SolverError::InvalidSolution(1))));
    let empty = WaterSortSolution::new();
    assert!(empty.is_empty());
    assert!(solve(start.clone(), &empty).unwrap() == start);
}

#[test]
fn solution_push_prepends() {
    let mut sol = WaterSortSolution::default();
    sol.push(Step { source: 1, destination: 2 });
    sol.push(Step { source: 3, destination: 4 });
    let steps: Vec<Step> = sol.steps().iter().cloned().collect();
    assert_eq!(steps, vec![Step { source: 3, destination: 4 }, Step { source: 1, destination: 2 }]);
}

#[test]
fn queues_order() {
    let mut q: SolverQueue<u32> = SolverQueue::regular();
    q.push(1);
    q.push(2);
    q.push(3);
    assert_eq!(q.len(), 3);
    assert_eq!(q.pop(), Some(1));
    assert_eq!(q.pop(), Some(2));
    let mut s: SolverQueue<u32> = SolverQueue::stack();
    s.push(1);
    s.push(2);
    assert_eq!(s.pop(), Some(2));
    assert_eq!(s.pop(), Some(1));
    assert_eq!(s.pop(), None);
    assert!(s.is_empty());
    let mut p: SolverQueue<u32> = SolverQueue::priority();
    p.push(2);
    p.push(5);
    p.push(1);
    assert_eq!(p.pop(), Some(5));
    assert_eq!(p.pop(), Some(2));
    assert_eq!(p.pop(), Some(1));
}

#[test]
fn priority_queue_gives_lowest_value_first() {
    let mut p: SolverQueue<EvaluatedNode> = SolverQueue::priority();
    p.push(EvaluatedNode { system_id: 1, solution_value: 7 });
    p.push(EvaluatedNode { system_id: 2, solution_value: 3 });
    p.push(EvaluatedNode { system_id: 3, solution_value: 3 });
    p.push(EvaluatedNode { system_id: 4, solution_value: 9 });
    let order: Vec<u32> = (0..4).map(|_| p.pop().unwrap().system_id).collect();
    assert_eq!(order, vec![3, 2, 1, 4]);
    assert!(p.pop().is_none());
}

#[test]
fn evaluated_nodes_compare_by_value() {
    assert!(EvaluatedNode { system_id: 1, solution_value: 3 } == EvaluatedNode { system_id: 2, solution_value: 3 });
    assert!(EvaluatedNode { system_id: 1, solution_value: 3 } != EvaluatedNode { system_id: 1, solution_value: 4 });
}

#[test]
fn state_graph_exploration() {
    let start = system(&[&[1, 1, 1], &[1], &[]]);
    let graph = build_state_graph(&start, &SolutionValueMode::Constant, 3);
    assert!(!graph.is_complete);
    assert!(!graph.state_graph.is_empty());
    assert_eq!(graph.state_graph[0].system, 0);
    for w in graph.state_graph.windows(2) {
        assert!(w[0].system < w[1].system);
    }
    let report = graph.report();
    assert!(report.ends_with("Graph exploration ended at max depth"));
    assert!(report.starts_with("[        ]0(2): "));
    let none = build_state_graph(&start, &SolutionValueMode::Constant, 0);
    assert!(none.state_graph.is_empty());
    assert!(!none.is_complete);
}

#[test]
fn bfs_finds_shortest_solution_length() {
    // The shortest solution of this puzzle takes 7 moves; no search finds a shorter one.
    let start = two_color_puzzle();
    let b = bfs_shortest_path(&start).unwrap();
    assert_eq!(b.len(), 7);
    let d = dfs_shortest_path(&start).unwrap();
    assert!(d.len() >= 7);
    check_solution(&start, &d);
}

#[test]
fn reordered_glasses_need_as_many_moves() {
    let start = system(&[&[], &[2, 1, 2, 1], &[], &[1, 2, 1, 2]]);
    let b = bfs_shortest_path(&start).unwrap();
    assert_eq!(b.len(), 7);
    check_solution(&start, &b);
}

#[test]
fn exploration_reaches_every_level_below_max_depth() {
    // The shortest solution takes 7 moves: exploring 8 levels meets a solved system,
    // exploring 7 does not.
    let start = two_color_puzzle();
    let deep = build_state_graph(&start, &SolutionValueMode::Constant, 8);
    assert_eq!(deep.state_graph.len(), 67);
    assert!(deep.state_graph.iter().any(|n| n.is_solved));
    let shallow = build_state_graph(&start, &SolutionValueMode::Constant, 7);
    assert_eq!(shallow.state_graph.len(), 64);
    assert!(shallow.state_graph.iter().all(|n| !n.is_solved));
}

#[test]
fn exploring_one_level_lists_the_new_moves() {
    let start = two_color_puzzle();
    let graph = build_state_graph(&start, &SolutionValueMode::Constant, 1);
    assert!(!graph.is_complete);
    assert_eq!(graph.state_graph.len(), 1);
    let node = &graph.state_graph[0];
    assert_eq!(node.system, 0);
    assert_eq!(node.solution_value, 3);
    assert!(!node.is_solved);
    // Pouring 0->3 and 1->3 give the same systems as 0->2 and 1->2, up to glass order.
    let listed: Vec<(usize, usize, u32)> =
        node.neighbours.iter().map(|nb| (nb.step.source, nb.step.destination, nb.system)).collect();
    assert_eq!(listed, vec![(0, 2, 1), (1, 2, 2)]);
}

#[test]
fn empty_source_pours_nothing() {
    let mut s = system(&[&[], &[]]);
    let before = s.clone();
    assert!(s.try_pour(0, 1).is_ok());
    assert_eq!(s.get_state()[1].top, 0);
    assert!(s == before);
}
