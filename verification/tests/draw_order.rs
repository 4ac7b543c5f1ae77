use nadi_cairo::plan::{layout_extent, network_steps, plot_steps, table_steps, DrawStep, PlotNode};
use nadi_cairo::plan::DrawStep::{Cell, Edge, Header, Label, Node, Rule, Series};

fn sample() -> Vec<PlotNode> {
    vec![
        PlotNode { level: 0, outputs: 1 },
        PlotNode { level: 1, outputs: 0 },
        PlotNode { level: 1, outputs: 2 },
    ]
}

fn drawn_markers(steps: &[DrawStep]) -> Vec<usize> {
    steps
        .iter()
        .filter_map(|s| match s {
            DrawStep::Node { node } => Some(*node),
            _ => None,
        })
        .collect()
}

#[test]
fn empty_network_is_rejected() {
    assert_eq!(layout_extent(&vec![]), Err("Empty Network".to_string()));
}

#[test]
fn extent_is_the_highest_level() {
    let nodes = vec![
        PlotNode { level: 0, outputs: 1 },
        PlotNode { level: 3, outputs: 1 },
        PlotNode { level: 1, outputs: 0 },
    ];
    assert_eq!(layout_extent(&nodes), Ok(3));
    assert_eq!(layout_extent(&vec![PlotNode { level: 7, outputs: 0 }]), Ok(7));
}

#[test]
fn network_draws_only_single_outputs() {
    assert_eq!(
        network_steps(&sample()),
        vec![
            Node { node: 2 },
            Label { node: 2 },
            Node { node: 1 },
            Label { node: 1 },
            Edge { node: 0, output: 0 },
            Node { node: 0 },
            Label { node: 0 },
        ]
    );
}

#[test]
fn network_of_no_nodes_draws_nothing() {
    assert_eq!(network_steps(&vec![]), vec![]);
}

#[test]
fn plot_draws_titles_then_every_connection() {
    assert_eq!(
        plot_steps(&sample()),
        vec![
            Header { column: 0 },
            Header { column: 1 },
            Rule,
            Edge { node: 2, output: 0 },
            Edge { node: 2, output: 1 },
            Node { node: 2 },
            Label { node: 2 },
            Series { node: 2 },
            Node { node: 1 },
            Label { node: 1 },
            Series { node: 1 },
            Edge { node: 0, output: 0 },
            Node { node: 0 },
            Label { node: 0 },
            Series { node: 0 },
        ]
    );
}

#[test]
fn table_pairs_rows_from_the_end() {
    // two rendered rows for three nodes: the last row goes with the last node
    assert_eq!(
        table_steps(&sample(), &vec![2, 1], 2),
        vec![
            Header { column: 0 },
            Header { column: 1 },
            Rule,
            Edge { node: 2, output: 0 },
            Edge { node: 2, output: 1 },
            Node { node: 2 },
            Cell { node: 2, row: 1, column: 0 },
            Node { node: 1 },
            Cell { node: 1, row: 0, column: 0 },
            Cell { node: 1, row: 0, column: 1 },
        ]
    );
}

#[test]
fn table_cells_without_a_column_are_skipped() {
    let nodes = vec![PlotNode { level: 0, outputs: 0 }];
    assert_eq!(
        table_steps(&nodes, &vec![3], 1),
        vec![
            Header { column: 0 },
            Rule,
            Node { node: 0 },
            Cell { node: 0, row: 0, column: 0 },
        ]
    );
}

#[test]
fn table_rows_match_nodes_when_counts_agree() {
    let rows = vec![2, 2, 2];
    for step in table_steps(&sample(), &rows, 2) {
        if let DrawStep::Cell { node, row, .. } = step {
            assert_eq!(node, row);
        }
    }
}

#[test]
fn every_plot_draws_each_node_once_bottom_up() {
    let nodes = sample();
    assert_eq!(drawn_markers(&network_steps(&nodes)), vec![2, 1, 0]);
    assert_eq!(drawn_markers(&plot_steps(&nodes)), vec![2, 1, 0]);
    assert_eq!(drawn_markers(&table_steps(&nodes, &vec![1, 1, 1], 1)), vec![2, 1, 0]);
    assert_eq!(drawn_markers(&table_steps(&nodes, &vec![1], 1)), vec![2]);
}
