use water_sort::game_elements::step::Step;
use water_sort::solver::data_structures::Neighbour;
use water_sort::solver::graph_builder::{graph_string, GeneralNode, StateGraph};

fn node(system: u32, value: u32, solved: bool, ns: Vec<Neighbour>) -> GeneralNode {
    GeneralNode { system, solution_value: value, is_solved: solved, neighbours: ns }
}

#[test]
fn graph_string_format() {
    let nodes = vec![
        node(0, 5, false, vec![
            Neighbour { system: 1, step: Step { source: 0, destination: 2 } },
            Neighbour { system: 2, step: Step { source: 1, destination: 2 } },
        ]),
        node(1, 3, true, vec![]),
    ];
    assert_eq!(
        graph_string(&nodes),
        "[        ]0(5): [(0, 2); 1] -> [(1, 2); 2]\n[SOLUTION]1(3): Dead end\n"
    );
    assert_eq!(graph_string(&[]), "");
}

#[test]
fn state_graph_sorted_report() {
    let mut g = StateGraph::new();
    g.insert(node(4, 1, false, vec![]));
    g.insert(node(2, 1, true, vec![]));
    g.insert(node(4, 9, true, vec![]));
    assert_eq!(g.state_graph.len(), 2);
    assert_eq!(g.state_graph[0].solution_value, 1);
    let sorted = g.get_sorted();
    assert_eq!(sorted[0].system, 2);
    assert_eq!(sorted[1].system, 4);
    assert_eq!(g.to_string(), "[        ]4(1): Dead end\n[SOLUTION]2(1): Dead end\n");
    assert_eq!(
        g.report(),
        "[SOLUTION]2(1): Dead end\n[        ]4(1): Dead end\nGraph exploration ended at max depth"
    );
    g.is_complete = true;
    assert!(g.report().ends_with("Graph is complete!"));
}
