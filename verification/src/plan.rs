//! The node grid of a network plot and the order in which it is drawn.
//!
//! A network is given by its nodes in network order; node `p` sits at
//! position `p`.  Drawing goes from the last node to the first, and for each
//! node draws its connections, then the node, then its text.

use vstd::prelude::*;
use vstd::string::StringExecFns;

verus! {

/// What the layout reads of one node: its level and how many output nodes it has.
#[derive(Clone, Copy, Debug, PartialEq, Eq, Structural)]
pub struct PlotNode {
    pub level: u64,
    pub outputs: usize,
}

/// One drawing operation of a plot; nodes are named by their position in the
/// network, table rows by their position in the rendered table.
#[derive(Clone, Copy, Debug, PartialEq, Eq, Structural)]
pub enum DrawStep {
    /// the title of a column
    Header { column: usize },
    /// the line below the titles
    Rule,
    /// the line from a node to one of its output nodes
    Edge { node: usize, output: usize },
    /// the node's marker
    Node { node: usize },
    /// the node's label
    Label { node: usize },
    /// one cell of a table row, written on the node's line
    Cell { node: usize, row: usize, column: usize },
    /// the node's time series
    Series { node: usize },
}

/// `m` is the highest level of a node.
pub open spec fn is_max_level(nodes: Seq<PlotNode>, m: u64) -> bool {
    &&& exists|i: int| 0 <= i < nodes.len() && nodes[i].level == m
    &&& forall|i: int| 0 <= i < nodes.len() ==> nodes[i].level <= m
}

/// The highest level of the network's nodes, or the message that rejects a
/// network without nodes.
pub fn layout_extent(nodes: &Vec<PlotNode>) -> (res: Result<u64, String>)
    ensures
        res is Err <==> nodes@.len() == 0,
        res matches Err(msg) ==> msg@ == "Empty Network"@,
        res matches Ok(m) ==> is_max_level(nodes@, m),
{
    if nodes.len() == 0 {
        return Err(String::from_str("Empty Network"));
    }
    let mut m: u64 = nodes[0].level;
    let mut i: usize = 1;
    while i < nodes.len()
        invariant
            1 <= i <= nodes@.len(),
            exists|j: int| 0 <= j < i && nodes@[j].level == m,
            forall|j: int| 0 <= j < i ==> nodes@[j].level <= m,
        decreases nodes@.len() - i,
    {
        if nodes[i].level > m {
            m = nodes[i].level;
        }
        i = i + 1;
    }
    Ok(m)
}

/// The lines from node `node` to its first `count` output nodes.
pub open spec fn edge_steps(node: int, count: nat) -> Seq<DrawStep> {
    Seq::new(count, |j: int| DrawStep::Edge { node: node as usize, output: j as usize })
}

/// The titles of the first `count` columns, then the line below them.
pub open spec fn header_steps(count: nat) -> Seq<DrawStep> {
    Seq::new(count, |c: int| DrawStep::Header { column: c as usize }).push(DrawStep::Rule)
}

/// The first `count` cells of table row `row`, written on node `node`'s line.
pub open spec fn cell_steps(node: int, row: int, count: nat) -> Seq<DrawStep> {
    Seq::new(count, |c: int| DrawStep::Cell { node: node as usize, row: row as usize, column: c as usize })
}

/// The node drawn `k`-th: drawing runs from the last node to the first.
pub open spec fn drawn_at(n: nat, k: int) -> int {
    n - 1 - k
}

/// A network plot draws, for a node, the line to its output when it has
/// exactly one, then the node, then its label.
pub open spec fn network_node_steps(nodes: Seq<PlotNode>, p: int) -> Seq<DrawStep> {
    (if nodes[p].outputs == 1 { edge_steps(p, 1) } else { Seq::empty() })
        + seq![DrawStep::Node { node: p as usize }, DrawStep::Label { node: p as usize }]
}

/// The steps of a network plot for the first `k` nodes it draws.
pub open spec fn network_plan(nodes: Seq<PlotNode>, k: nat) -> Seq<DrawStep>
    decreases k,
{
    if k == 0 {
        Seq::empty()
    } else {
        network_plan(nodes, (k - 1) as nat) + network_node_steps(
            nodes,
            drawn_at(nodes.len(), k - 1),
        )
    }
}

/// A series plot draws, for a node, the lines to all its outputs, then the
/// node, its label and its series.
pub open spec fn plot_node_steps(nodes: Seq<PlotNode>, p: int) -> Seq<DrawStep> {
    edge_steps(p, nodes[p].outputs as nat) + seq![
        DrawStep::Node { node: p as usize },
        DrawStep::Label { node: p as usize },
        DrawStep::Series { node: p as usize },
    ]
}

/// The node steps of a series plot for the first `k` nodes it draws.
pub open spec fn plot_plan(nodes: Seq<PlotNode>, k: nat) -> Seq<DrawStep>
    decreases k,
{
    if k == 0 {
        Seq::empty()
    } else {
        plot_plan(nodes, (k - 1) as nat) + plot_node_steps(nodes, drawn_at(nodes.len(), k - 1))
    }
}

/// The smaller of two counts.
pub open spec fn min_count(a: int, b: int) -> nat {
    if a <= b { a as nat } else { b as nat }
}

/// A table plot pairs the `k`-th node it draws with the `k`-th row counted
/// from the end of the table, and draws the node's lines to all its outputs,
/// the node, and the row's cells that have a column.
pub open spec fn table_node_steps(
    nodes: Seq<PlotNode>,
    rows: Seq<usize>,
    columns: nat,
    k: int,
) -> Seq<DrawStep> {
    let p = drawn_at(nodes.len(), k);
    let r = drawn_at(rows.len(), k);
    edge_steps(p, nodes[p].outputs as nat) + seq![DrawStep::Node { node: p as usize }]
        + cell_steps(p, r, min_count(rows[r] as int, columns as int))
}

/// The node steps of a table plot for the first `k` nodes it draws.
pub open spec fn table_plan(nodes: Seq<PlotNode>, rows: Seq<usize>, columns: nat, k: nat) -> Seq<
    DrawStep,
>
    decreases k,
{
    if k == 0 {
        Seq::empty()
    } else {
        table_plan(nodes, rows, columns, (k - 1) as nat) + table_node_steps(
            nodes,
            rows,
            columns,
            k - 1,
        )
    }
}

fn push_edges(steps: &mut Vec<DrawStep>, node: usize, count: usize)
    ensures
        final(steps)@ == old(steps)@ + edge_steps(node as int, count as nat),
{
    let ghost start = steps@;
    let mut j: usize = 0;
    while j < count
        invariant
            j <= count,
            steps@ == start + edge_steps(node as int, j as nat),
        decreases count - j,
    {
        steps.push(DrawStep::Edge { node, output: j });
        j = j + 1;
        assert(steps@ =~= start + edge_steps(node as int, j as nat));
    }
}

fn push_cells(steps: &mut Vec<DrawStep>, node: usize, row: usize, count: usize)
    ensures
        final(steps)@ == old(steps)@ + cell_steps(node as int, row as int, count as nat),
{
    let ghost start = steps@;
    let mut c: usize = 0;
    while c < count
        invariant
            c <= count,
            steps@ == start + cell_steps(node as int, row as int, c as nat),
        decreases count - c,
    {
        steps.push(DrawStep::Cell { node, row, column: c });
        c = c + 1;
        assert(steps@ =~= start + cell_steps(node as int, row as int, c as nat));
    }
}

fn push_headers(steps: &mut Vec<DrawStep>, count: usize)
    ensures
        final(steps)@ == old(steps)@ + header_steps(count as nat),
{
    let ghost start = steps@;
    let mut c: usize = 0;
    while c < count
        invariant
            c <= count,
            steps@ == start + Seq::new(c as nat, |i: int| DrawStep::Header { column: i as usize }),
        decreases count - c,
    {
        steps.push(DrawStep::Header { column: c });
        c = c + 1;
        assert(steps@ =~= start + Seq::new(
            c as nat,
            |i: int| DrawStep::Header { column: i as usize },
        ));
    }
    steps.push(DrawStep::Rule);
    assert(steps@ =~= start + header_steps(count as nat));
}

/// The drawing order of a network plot: for each node from the last to the
/// first, the line to its output when it has exactly one, the node and its
/// label.
pub fn network_steps(nodes: &Vec<PlotNode>) -> (steps: Vec<DrawStep>)
    ensures
        steps@ == network_plan(nodes@, nodes@.len()),
        drawn_nodes(steps@) == reverse_order(nodes@.len(), nodes@.len()),
        drawn(steps@, Mark::Label) == reverse_order(nodes@.len(), nodes@.len()),
        steps_in_place(steps@, nodes@),
        network_kinds(steps@),
{
    let n = nodes.len();
    let mut steps: Vec<DrawStep> = Vec::new();
    let mut k: usize = 0;
    while k < n
        invariant
            n == nodes@.len(),
            k <= n,
            steps@ == network_plan(nodes@, k as nat),
        decreases n - k,
    {
        let p = n - 1 - k;
        let ghost before = steps@;
        if nodes[p].outputs == 1 {
            push_edges(&mut steps, p, 1);
        } else {
            assert(steps@ =~= before + Seq::empty());
        }
        steps.push(DrawStep::Node { node: p });
        steps.push(DrawStep::Label { node: p });
        k = k + 1;
        assert(steps@ =~= before + network_node_steps(nodes@, p as int));
    }
    proof {
        lemma_network_draws_each_node_once(nodes@);
        lemma_plots_keep_each_node_together(nodes@, Seq::empty(), 0);
        lemma_plots_draw_their_own_kinds(nodes@, Seq::empty(), 0);
    }
    steps
}

/// The drawing order of a series plot: the two column titles and the line
/// below them, then for each node from the last to the first, the lines to
/// all its outputs, the node, its label and its series.
pub fn plot_steps(nodes: &Vec<PlotNode>) -> (steps: Vec<DrawStep>)
    ensures
        steps@ == header_steps(2) + plot_plan(nodes@, nodes@.len()),
        titles_then_rule(steps@, 2),
        drawn_nodes(steps@) == reverse_order(nodes@.len(), nodes@.len()),
        drawn(steps@, Mark::Label) == reverse_order(nodes@.len(), nodes@.len()),
        drawn(steps@, Mark::Series) == reverse_order(nodes@.len(), nodes@.len()),
        steps_in_place(steps@, nodes@),
        plot_kinds(steps@.skip(3)),
{
    let n = nodes.len();
    let mut steps: Vec<DrawStep> = Vec::new();
    push_headers(&mut steps, 2);
    let ghost head = steps@;
    let mut k: usize = 0;
    while k < n
        invariant
            n == nodes@.len(),
            k <= n,
            head == header_steps(2),
            steps@ == head + plot_plan(nodes@, k as nat),
        decreases n - k,
    {
        let p = n - 1 - k;
        let ghost before = steps@;
        push_edges(&mut steps, p, nodes[p].outputs);
        steps.push(DrawStep::Node { node: p });
        steps.push(DrawStep::Label { node: p });
        steps.push(DrawStep::Series { node: p });
        k = k + 1;
        assert(steps@ =~= before + plot_node_steps(nodes@, p as int));
        assert(steps@ =~= head + plot_plan(nodes@, k as nat));
    }
    proof {
        lemma_plot_titles(nodes@);
        lemma_plot_draws_each_node_once(nodes@);
        lemma_plots_keep_each_node_together(nodes@, Seq::empty(), 0);
        lemma_plots_draw_their_own_kinds(nodes@, Seq::empty(), 0);
        assert(steps@.skip(3) =~= plot_plan(nodes@, nodes@.len()));
    }
    steps
}

/// The drawing order of a table plot, given how many cells each rendered row
/// holds (in network order) and how many columns the table has: the column
/// titles and the line below them, then for each node from the last to the
/// first, paired with the rows from the last to the first while both last,
/// the lines to all the node's outputs, the node, and the row's cells that
/// have a column.
pub fn table_steps(nodes: &Vec<PlotNode>, rows: &Vec<usize>, columns: usize) -> (steps: Vec<
    DrawStep,
>)
    ensures
        steps@ == header_steps(columns as nat) + table_plan(
            nodes@,
            rows@,
            columns as nat,
            min_count(nodes@.len() as int, rows@.len() as int),
        ),
        titles_then_rule(steps@, columns as nat),
        drawn_nodes(steps@) == reverse_order(
            nodes@.len(),
            min_count(nodes@.len() as int, rows@.len() as int),
        ),
        steps_in_place(steps@, nodes@),
        table_kinds(steps@.skip(columns + 1)),
{
    let n = nodes.len();
    let nr = rows.len();
    let count = if n <= nr { n } else { nr };
    let mut steps: Vec<DrawStep> = Vec::new();
    push_headers(&mut steps, columns);
    let ghost head = steps@;
    let mut k: usize = 0;
    while k < count
        invariant
            n == nodes@.len(),
            nr == rows@.len(),
            count <= n,
            count <= nr,
            k <= count,
            head == header_steps(columns as nat),
            steps@ == head + table_plan(nodes@, rows@, columns as nat, k as nat),
        decreases count - k,
    {
        let p = n - 1 - k;
        let r = nr - 1 - k;
        let ghost before = steps@;
        push_edges(&mut steps, p, nodes[p].outputs);
        steps.push(DrawStep::Node { node: p });
        let cells = if rows[r] <= columns { rows[r] } else { columns };
        push_cells(&mut steps, p, r, cells);
        k = k + 1;
        assert(steps@ =~= before + table_node_steps(nodes@, rows@, columns as nat, k - 1));
        assert(steps@ =~= head + table_plan(nodes@, rows@, columns as nat, k as nat));
    }
    proof {
        lemma_table_titles(nodes@, rows@, columns as nat);
        lemma_table_draws_each_node_once(nodes@, rows@, columns as nat);
        lemma_plots_keep_each_node_together(nodes@, rows@, columns);
        lemma_plots_draw_their_own_kinds(nodes@, rows@, columns as nat);
        assert(steps@.skip(columns + 1) =~= table_plan(
            nodes@,
            rows@,
            columns as nat,
            min_count(nodes@.len() as int, rows@.len() as int),
        ));
    }
    steps
}

/// The kinds of step that draw one thing per node.
pub enum Mark {
    /// the node's marker
    Marker,
    /// the node's label
    Label,
    /// the node's series
    Series,
}

/// The node that a step draws something of kind `mark` for, if it does.
pub open spec fn mark_of(mark: Mark, step: DrawStep) -> Option<usize> {
    match step {
        DrawStep::Node { node } => if mark is Marker { Some(node) } else { None },
        DrawStep::Label { node } => if mark is Label { Some(node) } else { None },
        DrawStep::Series { node } => if mark is Series { Some(node) } else { None },
        _ => None,
    }
}

/// The nodes for which a sequence of steps draws something of kind `mark`,
/// in drawing order.
pub open spec fn drawn(steps: Seq<DrawStep>, mark: Mark) -> Seq<usize>
    decreases steps.len(),
{
    if steps.len() == 0 {
        Seq::empty()
    } else {
        let rest = drawn(steps.drop_last(), mark);
        match mark_of(mark, steps.last()) {
            Some(node) => rest.push(node),
            None => rest,
        }
    }
}

/// The nodes whose markers a sequence of steps draws, in drawing order.
pub open spec fn drawn_nodes(steps: Seq<DrawStep>) -> Seq<usize> {
    drawn(steps, Mark::Marker)
}

/// The nodes `n - 1`, `n - 2`, ... down to `n - k`: the first `k` nodes that
/// a plot of `n` nodes draws.
pub open spec fn reverse_order(n: nat, k: nat) -> Seq<usize> {
    Seq::new(k, |j: int| drawn_at(n, j) as usize)
}

/// The steps begin with the titles of columns `0` to `columns - 1`, in order,
/// then the line below them, and no other step is a title or that line.
pub open spec fn titles_then_rule(steps: Seq<DrawStep>, columns: nat) -> bool {
    &&& steps.len() > columns
    &&& forall|c: int| 0 <= c < columns ==> steps[c] == DrawStep::Header { column: c as usize }
    &&& steps[columns as int] == DrawStep::Rule
    &&& forall|i: int| columns < i < steps.len() ==> !(steps[i] is Header) && !(steps[i] is Rule)
}

proof fn lemma_drawn_add(a: Seq<DrawStep>, b: Seq<DrawStep>, mark: Mark)
    ensures
        drawn(a + b, mark) == drawn(a, mark) + drawn(b, mark),
    decreases b.len(),
{
    if b.len() == 0 {
        assert(a + b =~= a);
        assert(drawn(a, mark) + drawn(b, mark) =~= drawn(a, mark));
    } else {
        lemma_drawn_add(a, b.drop_last(), mark);
        assert((a + b).drop_last() =~= a + b.drop_last());
        assert((a + b).last() == b.last());
        match mark_of(mark, b.last()) {
            Some(node) => {
                assert(drawn(a, mark) + drawn(b.drop_last(), mark).push(node) =~= (drawn(a, mark)
                    + drawn(b.drop_last(), mark)).push(node));
            },
            None => {},
        }
    }
}

proof fn lemma_none_drawn(steps: Seq<DrawStep>, mark: Mark)
    requires
        forall|i: int| 0 <= i < steps.len() ==> (#[trigger] mark_of(mark, steps[i])) is None,
    ensures
        drawn(steps, mark) == Seq::<usize>::empty(),
    decreases steps.len(),
{
    if steps.len() > 0 {
        let rest = steps.drop_last();
        assert forall|i: int| 0 <= i < rest.len() implies (#[trigger] mark_of(
            mark,
            rest[i],
        )) is None by {
            assert(rest[i] == steps[i]);
        }
        lemma_none_drawn(rest, mark);
        assert(mark_of(mark, steps[steps.len() - 1]) is None);
    }
}

/// A sequence in which only step `i` draws something of kind `mark`, for node
/// `p`, draws that for `p` alone.
proof fn lemma_drawn_once(steps: Seq<DrawStep>, mark: Mark, i: int, p: usize)
    requires
        0 <= i < steps.len(),
        mark_of(mark, steps[i]) == Some(p),
        forall|j: int| 0 <= j < steps.len() && j != i ==> (#[trigger] mark_of(mark, steps[j])) is None,
    ensures
        drawn(steps, mark) == seq![p],
{
    let before = steps.subrange(0, i);
    let one = seq![steps[i]];
    let after = steps.subrange(i + 1, steps.len() as int);
    assert(steps =~= before + one + after);
    assert forall|j: int| 0 <= j < before.len() implies (#[trigger] mark_of(
        mark,
        before[j],
    )) is None by {
        assert(before[j] == steps[j]);
    }
    assert forall|j: int| 0 <= j < after.len() implies (#[trigger] mark_of(
        mark,
        after[j],
    )) is None by {
        assert(after[j] == steps[i + 1 + j]);
    }
    lemma_none_drawn(before, mark);
    lemma_none_drawn(after, mark);
    assert(one.drop_last() =~= Seq::<DrawStep>::empty());
    assert(drawn(Seq::<DrawStep>::empty(), mark) == Seq::<usize>::empty());
    assert(drawn(one, mark) =~= seq![p]);
    lemma_drawn_add(before, one, mark);
    lemma_drawn_add(before + one, after, mark);
    assert(Seq::<usize>::empty() + seq![p] + Seq::<usize>::empty() =~= seq![p]);
}

proof fn lemma_edges_mark_nothing(p: int, count: nat, mark: Mark)
    ensures
        forall|j: int|
            0 <= j < count ==> (#[trigger] mark_of(mark, edge_steps(p, count)[j])) is None,
{
}

/// A network plot draws, for each node, its marker once and its label once,
/// from the last node of the network to the first.
pub proof fn lemma_network_draws_each_node_once(nodes: Seq<PlotNode>)
    ensures
        drawn_nodes(network_plan(nodes, nodes.len())) == reverse_order(nodes.len(), nodes.len()),
        drawn(network_plan(nodes, nodes.len()), Mark::Label) == reverse_order(
            nodes.len(),
            nodes.len(),
        ),
{
    lemma_network_prefix(nodes, nodes.len(), Mark::Marker);
    lemma_network_prefix(nodes, nodes.len(), Mark::Label);
}

proof fn lemma_network_prefix(nodes: Seq<PlotNode>, k: nat, mark: Mark)
    requires
        k <= nodes.len(),
        mark is Marker || mark is Label,
    ensures
        drawn(network_plan(nodes, k), mark) == reverse_order(nodes.len(), k),
    decreases k,
{
    if k > 0 {
        lemma_network_prefix(nodes, (k - 1) as nat, mark);
        let p = drawn_at(nodes.len(), k - 1);
        let block = network_node_steps(nodes, p);
        let e: int = if nodes[p].outputs == 1 { 1 } else { 0 };
        assert(block.len() == e + 2);
        assert(block[e] == DrawStep::Node { node: p as usize });
        assert(block[e + 1] == DrawStep::Label { node: p as usize });
        assert(e == 1 ==> block[0] == DrawStep::Edge { node: p as usize, output: 0 });
        let i = if mark is Marker { e } else { e + 1 };
        lemma_drawn_once(block, mark, i, p as usize);
        lemma_drawn_add(network_plan(nodes, (k - 1) as nat), block, mark);
        assert(reverse_order(nodes.len(), (k - 1) as nat) + seq![p as usize] =~= reverse_order(
            nodes.len(),
            k,
        ));
    }
}

/// A series plot draws, for each node, its marker once, its label once and
/// its series once, from the last node of the network to the first.
pub proof fn lemma_plot_draws_each_node_once(nodes: Seq<PlotNode>)
    ensures
        drawn_nodes(header_steps(2) + plot_plan(nodes, nodes.len())) == reverse_order(
            nodes.len(),
            nodes.len(),
        ),
        drawn(header_steps(2) + plot_plan(nodes, nodes.len()), Mark::Label) == reverse_order(
            nodes.len(),
            nodes.len(),
        ),
        drawn(header_steps(2) + plot_plan(nodes, nodes.len()), Mark::Series) == reverse_order(
            nodes.len(),
            nodes.len(),
        ),
{
    lemma_plot_each(nodes, Mark::Marker);
    lemma_plot_each(nodes, Mark::Label);
    lemma_plot_each(nodes, Mark::Series);
}

proof fn lemma_plot_each(nodes: Seq<PlotNode>, mark: Mark)
    ensures
        drawn(header_steps(2) + plot_plan(nodes, nodes.len()), mark) == reverse_order(
            nodes.len(),
            nodes.len(),
        ),
{
    lemma_plot_prefix(nodes, nodes.len(), mark);
    lemma_none_drawn(header_steps(2), mark);
    lemma_drawn_add(header_steps(2), plot_plan(nodes, nodes.len()), mark);
    assert(Seq::<usize>::empty() + reverse_order(nodes.len(), nodes.len()) =~= reverse_order(
        nodes.len(),
        nodes.len(),
    ));
}

proof fn lemma_plot_prefix(nodes: Seq<PlotNode>, k: nat, mark: Mark)
    requires
        k <= nodes.len(),
    ensures
        drawn(plot_plan(nodes, k), mark) == reverse_order(nodes.len(), k),
    decreases k,
{
    if k > 0 {
        lemma_plot_prefix(nodes, (k - 1) as nat, mark);
        let p = drawn_at(nodes.len(), k - 1);
        let block = plot_node_steps(nodes, p);
        let e: int = nodes[p].outputs as int;
        lemma_edges_mark_nothing(p, e as nat, mark);
        assert(block.len() == e + 3);
        assert forall|j: int| 0 <= j < e implies block[j] == edge_steps(p, e as nat)[j] by {}
        assert(block[e] == DrawStep::Node { node: p as usize });
        assert(block[e + 1] == DrawStep::Label { node: p as usize });
        assert(block[e + 2] == DrawStep::Series { node: p as usize });
        let i = if mark is Marker {
            e
        } else if mark is Label {
            e + 1
        } else {
            e + 2
        };
        lemma_drawn_once(block, mark, i, p as usize);
        lemma_drawn_add(plot_plan(nodes, (k - 1) as nat), block, mark);
        assert(reverse_order(nodes.len(), (k - 1) as nat) + seq![p as usize] =~= reverse_order(
            nodes.len(),
            k,
        ));
    }
}

/// A table plot draws the marker of each node that has a row exactly once,
/// from the last node of the network backwards, one node per row.
pub proof fn lemma_table_draws_each_node_once(
    nodes: Seq<PlotNode>,
    rows: Seq<usize>,
    columns: nat,
)
    ensures
        drawn_nodes(
            header_steps(columns) + table_plan(
                nodes,
                rows,
                columns,
                min_count(nodes.len() as int, rows.len() as int),
            ),
        ) == reverse_order(nodes.len(), min_count(nodes.len() as int, rows.len() as int)),
{
    let m = min_count(nodes.len() as int, rows.len() as int);
    lemma_table_prefix(nodes, rows, columns, m);
    lemma_none_drawn(header_steps(columns), Mark::Marker);
    lemma_drawn_add(header_steps(columns), table_plan(nodes, rows, columns, m), Mark::Marker);
    assert(Seq::<usize>::empty() + reverse_order(nodes.len(), m) =~= reverse_order(
        nodes.len(),
        m,
    ));
}

proof fn lemma_table_prefix(nodes: Seq<PlotNode>, rows: Seq<usize>, columns: nat, k: nat)
    requires
        k <= nodes.len(),
        k <= rows.len(),
    ensures
        drawn_nodes(table_plan(nodes, rows, columns, k)) == reverse_order(nodes.len(), k),
    decreases k,
{
    if k > 0 {
        lemma_table_prefix(nodes, rows, columns, (k - 1) as nat);
        let p = drawn_at(nodes.len(), k - 1);
        let r = drawn_at(rows.len(), k - 1);
        let block = table_node_steps(nodes, rows, columns, k - 1);
        let e: int = nodes[p].outputs as int;
        let cells = min_count(rows[r] as int, columns as int);
        lemma_edges_mark_nothing(p, e as nat, Mark::Marker);
        assert(block.len() == e + 1 + cells);
        assert forall|j: int| 0 <= j < e implies block[j] == edge_steps(p, e as nat)[j] by {}
        assert(block[e] == DrawStep::Node { node: p as usize });
        assert forall|j: int| e < j < block.len() implies block[j] == cell_steps(
            p,
            r,
            cells,
        )[j - e - 1] by {}
        lemma_drawn_once(block, Mark::Marker, e, p as usize);
        lemma_drawn_add(table_plan(nodes, rows, columns, (k - 1) as nat), block, Mark::Marker);
        assert(reverse_order(nodes.len(), (k - 1) as nat) + seq![p as usize] =~= reverse_order(
            nodes.len(),
            k,
        ));
    }
}

proof fn lemma_plot_plan_no_titles(nodes: Seq<PlotNode>, k: nat)
    requires
        k <= nodes.len(),
    ensures
        forall|i: int|
            0 <= i < plot_plan(nodes, k).len() ==> !(#[trigger] plot_plan(nodes, k)[i] is Header)
                && !(plot_plan(nodes, k)[i] is Rule),
    decreases k,
{
    if k > 0 {
        lemma_plot_plan_no_titles(nodes, (k - 1) as nat);
        let p = drawn_at(nodes.len(), k - 1);
        let block = plot_node_steps(nodes, p);
        assert forall|j: int| 0 <= j < block.len() implies !(#[trigger] block[j] is Header)
            && !(block[j] is Rule) by {}
    }
}

proof fn lemma_table_plan_no_titles(nodes: Seq<PlotNode>, rows: Seq<usize>, columns: nat, k: nat)
    requires
        k <= nodes.len(),
        k <= rows.len(),
    ensures
        forall|i: int|
            0 <= i < table_plan(nodes, rows, columns, k).len() ==> !(#[trigger] table_plan(
                nodes,
                rows,
                columns,
                k,
            )[i] is Header) && !(table_plan(nodes, rows, columns, k)[i] is Rule),
    decreases k,
{
    if k > 0 {
        lemma_table_plan_no_titles(nodes, rows, columns, (k - 1) as nat);
        let block = table_node_steps(nodes, rows, columns, k - 1);
        assert forall|j: int| 0 <= j < block.len() implies !(#[trigger] block[j] is Header)
            && !(block[j] is Rule) by {}
    }
}

proof fn lemma_titles_first(columns: nat, rest: Seq<DrawStep>)
    requires
        forall|i: int| 0 <= i < rest.len() ==> !(#[trigger] rest[i] is Header) && !(rest[i] is Rule),
    ensures
        titles_then_rule(header_steps(columns) + rest, columns),
{
    let all = header_steps(columns) + rest;
    assert(header_steps(columns).len() == columns + 1);
    assert forall|i: int| columns < i < all.len() implies !(all[i] is Header) && !(
    all[i] is Rule) by {
        assert(all[i] == rest[i - columns - 1]);
    }
}

/// A series plot first writes its two column titles, then the line below
/// them, and writes no other title or line of that kind.
pub proof fn lemma_plot_titles(nodes: Seq<PlotNode>)
    ensures
        titles_then_rule(header_steps(2) + plot_plan(nodes, nodes.len()), 2),
{
    lemma_plot_plan_no_titles(nodes, nodes.len());
    lemma_titles_first(2, plot_plan(nodes, nodes.len()));
}

/// A table plot first writes the title of every column, in column order,
/// then the line below them, and writes no other title or line of that kind.
pub proof fn lemma_table_titles(nodes: Seq<PlotNode>, rows: Seq<usize>, columns: nat)
    ensures
        titles_then_rule(
            header_steps(columns) + table_plan(
                nodes,
                rows,
                columns,
                min_count(nodes.len() as int, rows.len() as int),
            ),
            columns,
        ),
{
    let m = min_count(nodes.len() as int, rows.len() as int);
    lemma_table_plan_no_titles(nodes, rows, columns, m);
    lemma_titles_first(columns, table_plan(nodes, rows, columns, m));
}

/// Steps that begin with the titles of `columns` columns and the line below
/// them hold the title of column `c` exactly when `c` is one of those columns.
pub proof fn lemma_title_of_every_column(steps: Seq<DrawStep>, columns: usize, c: usize)
    requires
        titles_then_rule(steps, columns as nat),
    ensures
        steps.contains(DrawStep::Header { column: c }) <==> c < columns,
{
    if c < columns {
        assert(steps[c as int] == DrawStep::Header { column: c });
    }
    if steps.contains(DrawStep::Header { column: c }) {
        let i = choose|i: int| 0 <= i < steps.len() && steps[i] == DrawStep::Header { column: c };
        if i == columns {
            assert(steps[columns as int] == DrawStep::Rule);
        }
        if i < columns {
            assert(steps[i] == DrawStep::Header { column: i as usize });
        }
    }
}

/// Within the steps, each node's lines come right before its marker, one per
/// output in output order; its label comes right after its marker, its series
/// right after its label, and the cells of its row right after its marker in
/// column order.
pub open spec fn steps_in_place(steps: Seq<DrawStep>, nodes: Seq<PlotNode>) -> bool {
    forall|i: int|
        0 <= i < steps.len() ==> match #[trigger] steps[i] {
            DrawStep::Edge { node, output } => {
                &&& node < nodes.len()
                &&& output < nodes[node as int].outputs
                &&& i + nodes[node as int].outputs - output < steps.len()
                &&& steps[i + nodes[node as int].outputs - output] == DrawStep::Node { node }
            },
            DrawStep::Label { node } => i >= 1 && steps[i - 1] == DrawStep::Node { node },
            DrawStep::Series { node } => i >= 1 && steps[i - 1] == DrawStep::Label { node },
            DrawStep::Cell { node, column, .. } => i >= column + 1 && steps[i - column - 1]
                == DrawStep::Node { node },
            _ => true,
        }
}

proof fn lemma_in_place_add(a: Seq<DrawStep>, b: Seq<DrawStep>, nodes: Seq<PlotNode>)
    requires
        steps_in_place(a, nodes),
        steps_in_place(b, nodes),
    ensures
        steps_in_place(a + b, nodes),
{
    let s = a + b;
    assert forall|i: int| 0 <= i < s.len() implies match #[trigger] s[i] {
        DrawStep::Edge { node, output } => {
            &&& node < nodes.len()
            &&& output < nodes[node as int].outputs
            &&& i + nodes[node as int].outputs - output < s.len()
            &&& s[i + nodes[node as int].outputs - output] == DrawStep::Node { node }
        },
        DrawStep::Label { node } => i >= 1 && s[i - 1] == DrawStep::Node { node },
        DrawStep::Series { node } => i >= 1 && s[i - 1] == DrawStep::Label { node },
        DrawStep::Cell { node, column, .. } => i >= column + 1 && s[i - column - 1]
            == DrawStep::Node { node },
        _ => true,
    } by {
        if i < a.len() {
            assert(s[i] == a[i]);
            match a[i] {
                DrawStep::Edge { node, output } => {
                    assert(s[i + nodes[node as int].outputs - output] == a[i + nodes[node as int].outputs
                        - output]);
                },
                DrawStep::Label { node } => {
                    assert(s[i - 1] == a[i - 1]);
                },
                DrawStep::Series { node } => {
                    assert(s[i - 1] == a[i - 1]);
                },
                DrawStep::Cell { node, column, .. } => {
                    assert(s[i - column - 1] == a[i - column - 1]);
                },
                _ => {},
            }
        } else {
            let t = i - a.len();
            assert(s[i] == b[t]);
            match b[t] {
                DrawStep::Edge { node, output } => {
                    assert(s[i + nodes[node as int].outputs - output] == b[t + nodes[node as int].outputs
                        - output]);
                },
                DrawStep::Label { node } => {
                    assert(s[i - 1] == b[t - 1]);
                },
                DrawStep::Series { node } => {
                    assert(s[i - 1] == b[t - 1]);
                },
                DrawStep::Cell { node, column, .. } => {
                    assert(s[i - column - 1] == b[t - column - 1]);
                },
                _ => {},
            }
        }
    }
}

proof fn lemma_headers_in_place(count: nat, nodes: Seq<PlotNode>)
    ensures
        steps_in_place(header_steps(count), nodes),
{
    let h = header_steps(count);
    assert forall|i: int| 0 <= i < h.len() implies (#[trigger] h[i] is Header) || h[i] is Rule by {
        if i < count {
            assert(h[i] == DrawStep::Header { column: i as usize });
        }
    }
}

proof fn lemma_network_in_place(nodes: Seq<PlotNode>, k: nat)
    requires
        k <= nodes.len() <= usize::MAX,
    ensures
        steps_in_place(network_plan(nodes, k), nodes),
    decreases k,
{
    if k == 0 {
        assert(network_plan(nodes, 0) =~= Seq::<DrawStep>::empty());
    } else {
        lemma_network_in_place(nodes, (k - 1) as nat);
        let p = drawn_at(nodes.len(), k - 1);
        let block = network_node_steps(nodes, p);
        let e: int = if nodes[p].outputs == 1 { 1 } else { 0 };
        assert(block.len() == e + 2);
        assert(block[e] == DrawStep::Node { node: p as usize });
        assert(block[e + 1] == DrawStep::Label { node: p as usize });
        assert(e == 1 ==> block[0] == DrawStep::Edge { node: p as usize, output: 0 });
        assert(steps_in_place(block, nodes));
        lemma_in_place_add(network_plan(nodes, (k - 1) as nat), block, nodes);
    }
}

proof fn lemma_plot_in_place(nodes: Seq<PlotNode>, k: nat)
    requires
        k <= nodes.len() <= usize::MAX,
    ensures
        steps_in_place(plot_plan(nodes, k), nodes),
    decreases k,
{
    if k == 0 {
        assert(plot_plan(nodes, 0) =~= Seq::<DrawStep>::empty());
    } else {
        lemma_plot_in_place(nodes, (k - 1) as nat);
        let p = drawn_at(nodes.len(), k - 1);
        let block = plot_node_steps(nodes, p);
        let e: int = nodes[p].outputs as int;
        assert(block.len() == e + 3);
        assert forall|j: int| 0 <= j < e implies block[j] == DrawStep::Edge {
            node: p as usize,
            output: j as usize,
        } by {}
        assert(block[e] == DrawStep::Node { node: p as usize });
        assert(block[e + 1] == DrawStep::Label { node: p as usize });
        assert(block[e + 2] == DrawStep::Series { node: p as usize });
        assert(steps_in_place(block, nodes));
        lemma_in_place_add(plot_plan(nodes, (k - 1) as nat), block, nodes);
    }
}

proof fn lemma_table_in_place(nodes: Seq<PlotNode>, rows: Seq<usize>, columns: nat, k: nat)
    requires
        k <= nodes.len() <= usize::MAX,
        k <= rows.len() <= usize::MAX,
        columns <= usize::MAX,
    ensures
        steps_in_place(table_plan(nodes, rows, columns, k), nodes),
    decreases k,
{
    if k == 0 {
        assert(table_plan(nodes, rows, columns, 0) =~= Seq::<DrawStep>::empty());
    } else {
        lemma_table_in_place(nodes, rows, columns, (k - 1) as nat);
        let p = drawn_at(nodes.len(), k - 1);
        let r = drawn_at(rows.len(), k - 1);
        let block = table_node_steps(nodes, rows, columns, k - 1);
        let e: int = nodes[p].outputs as int;
        let cells = min_count(rows[r] as int, columns as int);
        assert(block.len() == e + 1 + cells);
        assert forall|j: int| 0 <= j < e implies block[j] == DrawStep::Edge {
            node: p as usize,
            output: j as usize,
        } by {}
        assert(block[e] == DrawStep::Node { node: p as usize });
        assert forall|j: int| e < j < block.len() implies block[j] == DrawStep::Cell {
            node: p as usize,
            row: r as usize,
            column: (j - e - 1) as usize,
        } by {}
        assert(steps_in_place(block, nodes));
        lemma_in_place_add(table_plan(nodes, rows, columns, (k - 1) as nat), block, nodes);
    }
}

/// In every plot, each node's lines come right before its marker and its
/// texts and series right after it (see `steps_in_place`).
pub proof fn lemma_plots_keep_each_node_together(
    nodes: Seq<PlotNode>,
    rows: Seq<usize>,
    columns: usize,
)
    requires
        nodes.len() <= usize::MAX,
        rows.len() <= usize::MAX,
    ensures
        steps_in_place(network_plan(nodes, nodes.len()), nodes),
        steps_in_place(header_steps(2) + plot_plan(nodes, nodes.len()), nodes),
        steps_in_place(
            header_steps(columns as nat) + table_plan(
                nodes,
                rows,
                columns as nat,
                min_count(nodes.len() as int, rows.len() as int),
            ),
            nodes,
        ),
{
    let m = min_count(nodes.len() as int, rows.len() as int);
    lemma_network_in_place(nodes, nodes.len());
    lemma_plot_in_place(nodes, nodes.len());
    lemma_table_in_place(nodes, rows, columns as nat, m);
    lemma_headers_in_place(2, nodes);
    lemma_headers_in_place(columns as nat, nodes);
    lemma_in_place_add(header_steps(2), plot_plan(nodes, nodes.len()), nodes);
    lemma_in_place_add(header_steps(columns as nat), table_plan(nodes, rows, columns as nat, m), nodes);
}

/// A network plot draws only connections, markers and labels.
pub open spec fn network_kinds(steps: Seq<DrawStep>) -> bool {
    forall|i: int|
        0 <= i < steps.len() ==> (#[trigger] steps[i] is Edge) || steps[i] is Node
            || steps[i] is Label
}

/// Below its titles, a series plot draws only connections, markers, labels
/// and series.
pub open spec fn plot_kinds(steps: Seq<DrawStep>) -> bool {
    forall|i: int|
        0 <= i < steps.len() ==> (#[trigger] steps[i] is Edge) || steps[i] is Node
            || steps[i] is Label || steps[i] is Series
}

/// Below its titles, a table plot draws only connections, markers and cells.
pub open spec fn table_kinds(steps: Seq<DrawStep>) -> bool {
    forall|i: int|
        0 <= i < steps.len() ==> (#[trigger] steps[i] is Edge) || steps[i] is Node
            || steps[i] is Cell
}

/// What each kind of plot draws for its nodes: a network plot draws only
/// connections, markers and labels; a series plot only those and series; a
/// table plot only connections, markers and cells.
pub proof fn lemma_plots_draw_their_own_kinds(nodes: Seq<PlotNode>, rows: Seq<usize>, columns: nat)
    ensures
        network_kinds(network_plan(nodes, nodes.len())),
        plot_kinds(plot_plan(nodes, nodes.len())),
        table_kinds(
            table_plan(nodes, rows, columns, min_count(nodes.len() as int, rows.len() as int)),
        ),
{
    lemma_network_kinds(nodes, nodes.len());
    lemma_plot_kinds(nodes, nodes.len());
    lemma_table_kinds(nodes, rows, columns, min_count(nodes.len() as int, rows.len() as int));
}

proof fn lemma_network_kinds(nodes: Seq<PlotNode>, k: nat)
    requires
        k <= nodes.len(),
    ensures
        network_kinds(network_plan(nodes, k)),
    decreases k,
{
    if k > 0 {
        lemma_network_kinds(nodes, (k - 1) as nat);
        let block = network_node_steps(nodes, drawn_at(nodes.len(), k - 1));
        assert(network_kinds(block));
        let all = network_plan(nodes, k);
        assert forall|i: int| 0 <= i < all.len() implies (#[trigger] all[i] is Edge)
            || all[i] is Node || all[i] is Label by {
            let prev = network_plan(nodes, (k - 1) as nat);
            if i < prev.len() {
                assert(all[i] == prev[i]);
            } else {
                assert(all[i] == block[i - prev.len()]);
            }
        }
    }
}

proof fn lemma_plot_kinds(nodes: Seq<PlotNode>, k: nat)
    requires
        k <= nodes.len(),
    ensures
        plot_kinds(plot_plan(nodes, k)),
    decreases k,
{
    if k > 0 {
        lemma_plot_kinds(nodes, (k - 1) as nat);
        let block = plot_node_steps(nodes, drawn_at(nodes.len(), k - 1));
        assert(plot_kinds(block));
        let all = plot_plan(nodes, k);
        assert forall|i: int| 0 <= i < all.len() implies (#[trigger] all[i] is Edge)
            || all[i] is Node || all[i] is Label || all[i] is Series by {
            let prev = plot_plan(nodes, (k - 1) as nat);
            if i < prev.len() {
                assert(all[i] == prev[i]);
            } else {
                assert(all[i] == block[i - prev.len()]);
            }
        }
    }
}

proof fn lemma_table_kinds(nodes: Seq<PlotNode>, rows: Seq<usize>, columns: nat, k: nat)
    requires
        k <= nodes.len(),
        k <= rows.len(),
    ensures
        table_kinds(table_plan(nodes, rows, columns, k)),
    decreases k,
{
    if k > 0 {
        lemma_table_kinds(nodes, rows, columns, (k - 1) as nat);
        let block = table_node_steps(nodes, rows, columns, k - 1);
        assert(table_kinds(block));
        let all = table_plan(nodes, rows, columns, k);
        assert forall|i: int| 0 <= i < all.len() implies (#[trigger] all[i] is Edge)
            || all[i] is Node || all[i] is Cell by {
            let prev = table_plan(nodes, rows, columns, (k - 1) as nat);
            if i < prev.len() {
                assert(all[i] == prev[i]);
            } else {
                assert(all[i] == block[i - prev.len()]);
            }
        }
    }
}

proof fn lemma_add_contains(a: Seq<DrawStep>, b: Seq<DrawStep>, x: DrawStep)
    ensures
        (a + b).contains(x) <==> a.contains(x) || b.contains(x),
{
    if (a + b).contains(x) {
        let i = choose|i: int| 0 <= i < (a + b).len() && (a + b)[i] == x;
        if i < a.len() {
            assert(a[i] == x);
        } else {
            assert(b[i - a.len()] == x);
        }
    }
    if a.contains(x) {
        let i = choose|i: int| 0 <= i < a.len() && a[i] == x;
        assert((a + b)[i] == x);
    }
    if b.contains(x) {
        let i = choose|i: int| 0 <= i < b.len() && b[i] == x;
        assert((a + b)[a.len() + i] == x);
    }
}

proof fn lemma_edge_steps_contain(q: int, count: nat, p: usize, j: usize)
    requires
        0 <= q <= usize::MAX,
        count <= usize::MAX + 1,
    ensures
        edge_steps(q, count).contains(DrawStep::Edge { node: p, output: j }) <==> (p == q && j
            < count),
{
    let x = DrawStep::Edge { node: p, output: j };
    if p == q && j < count {
        assert(edge_steps(q, count)[j as int] == x);
    }
}

proof fn lemma_edge_free(s: Seq<DrawStep>, p: usize, j: usize)
    requires
        forall|i: int| 0 <= i < s.len() ==> !(#[trigger] s[i] is Edge),
    ensures
        !s.contains(DrawStep::Edge { node: p, output: j }),
{
}

/// The lines of a series plot: it draws the line from a node to one of its
/// outputs exactly for the nodes of the network and the outputs they have.
pub proof fn lemma_plot_draws_every_connection(nodes: Seq<PlotNode>, p: usize, j: usize)
    requires
        nodes.len() <= usize::MAX,
    ensures
        (header_steps(2) + plot_plan(nodes, nodes.len())).contains(
            DrawStep::Edge { node: p, output: j },
        ) <==> p < nodes.len() && j < nodes[p as int].outputs,
{
    let x = DrawStep::Edge { node: p, output: j };
    lemma_plot_edges_prefix(nodes, nodes.len(), p, j);
    lemma_add_contains(header_steps(2), plot_plan(nodes, nodes.len()), x);
    lemma_edge_free(header_steps(2), p, j);
}

proof fn lemma_plot_edges_prefix(nodes: Seq<PlotNode>, k: nat, p: usize, j: usize)
    requires
        k <= nodes.len() <= usize::MAX,
    ensures
        plot_plan(nodes, k).contains(DrawStep::Edge { node: p, output: j }) <==> nodes.len() - k
            <= p < nodes.len() && j < nodes[p as int].outputs,
    decreases k,
{
    let x = DrawStep::Edge { node: p, output: j };
    if k == 0 {
        assert(!Seq::<DrawStep>::empty().contains(x));
    } else {
        lemma_plot_edges_prefix(nodes, (k - 1) as nat, p, j);
        let q = drawn_at(nodes.len(), k - 1);
        let edges = edge_steps(q, nodes[q].outputs as nat);
        let tail = seq![
            DrawStep::Node { node: q as usize },
            DrawStep::Label { node: q as usize },
            DrawStep::Series { node: q as usize },
        ];
        lemma_add_contains(plot_plan(nodes, (k - 1) as nat), plot_node_steps(nodes, q), x);
        lemma_add_contains(edges, tail, x);
        lemma_edge_steps_contain(q, nodes[q].outputs as nat, p, j);
        lemma_edge_free(tail, p, j);
    }
}

/// The lines of a network plot: it draws a line from a node exactly when the
/// node has a single output, and then only that one.
pub proof fn lemma_network_draws_single_outputs(nodes: Seq<PlotNode>, p: usize, j: usize)
    requires
        nodes.len() <= usize::MAX,
    ensures
        network_plan(nodes, nodes.len()).contains(DrawStep::Edge { node: p, output: j }) <==> p
            < nodes.len() && nodes[p as int].outputs == 1 && j == 0,
{
    lemma_network_edges_prefix(nodes, nodes.len(), p, j);
}

proof fn lemma_network_edges_prefix(nodes: Seq<PlotNode>, k: nat, p: usize, j: usize)
    requires
        k <= nodes.len() <= usize::MAX,
    ensures
        network_plan(nodes, k).contains(DrawStep::Edge { node: p, output: j }) <==> nodes.len()
            - k <= p < nodes.len() && nodes[p as int].outputs == 1 && j == 0,
    decreases k,
{
    let x = DrawStep::Edge { node: p, output: j };
    if k == 0 {
        assert(!Seq::<DrawStep>::empty().contains(x));
    } else {
        lemma_network_edges_prefix(nodes, (k - 1) as nat, p, j);
        let q = drawn_at(nodes.len(), k - 1);
        let edges: Seq<DrawStep> = if nodes[q].outputs == 1 {
            edge_steps(q, 1)
        } else {
            Seq::empty()
        };
        let tail = seq![DrawStep::Node { node: q as usize }, DrawStep::Label { node: q as usize }];
        assert(network_node_steps(nodes, q) == edges + tail);
        lemma_add_contains(network_plan(nodes, (k - 1) as nat), network_node_steps(nodes, q), x);
        lemma_add_contains(edges, tail, x);
        lemma_edge_steps_contain(q, 1, p, j);
        lemma_edge_free(tail, p, j);
        lemma_edge_free(Seq::empty(), p, j);
    }
}

proof fn lemma_cell_steps_contain(q: int, rr: int, count: nat, p: usize, r: usize, c: usize)
    requires
        0 <= q <= usize::MAX,
        0 <= rr <= usize::MAX,
        count <= usize::MAX + 1,
    ensures
        cell_steps(q, rr, count).contains(DrawStep::Cell { node: p, row: r, column: c }) <==> (p
            == q && r == rr && c < count),
{
    let x = DrawStep::Cell { node: p, row: r, column: c };
    if p == q && r == rr && c < count {
        assert(cell_steps(q, rr, count)[c as int] == x);
    }
}

/// The cells of a table plot: each row counted from the end of the table is
/// written on the line of the node counted as far from the end of the
/// network, and exactly the row's cells that have a column are written.
pub proof fn lemma_table_cells_on_their_rows(
    nodes: Seq<PlotNode>,
    rows: Seq<usize>,
    columns: usize,
    p: usize,
    r: usize,
    c: usize,
)
    requires
        nodes.len() <= usize::MAX,
        rows.len() <= usize::MAX,
    ensures
        (header_steps(columns as nat) + table_plan(
            nodes,
            rows,
            columns as nat,
            min_count(nodes.len() as int, rows.len() as int),
        )).contains(DrawStep::Cell { node: p, row: r, column: c }) <==> {
            &&& p < nodes.len()
            &&& r < rows.len()
            &&& nodes.len() - p == rows.len() - r
            &&& c < rows[r as int]
            &&& c < columns
        },
{
    let m = min_count(nodes.len() as int, rows.len() as int);
    let x = DrawStep::Cell { node: p, row: r, column: c };
    lemma_table_cells_prefix(nodes, rows, columns as nat, m, p, r, c);
    lemma_add_contains(header_steps(columns as nat), table_plan(nodes, rows, columns as nat, m), x);
    assert(!header_steps(columns as nat).contains(x));
}

proof fn lemma_table_cells_prefix(
    nodes: Seq<PlotNode>,
    rows: Seq<usize>,
    columns: nat,
    k: nat,
    p: usize,
    r: usize,
    c: usize,
)
    requires
        k <= nodes.len() <= usize::MAX,
        k <= rows.len() <= usize::MAX,
        columns <= usize::MAX,
    ensures
        table_plan(nodes, rows, columns, k).contains(DrawStep::Cell { node: p, row: r, column: c })
            <==> {
            &&& nodes.len() - k <= p < nodes.len()
            &&& r < rows.len()
            &&& nodes.len() - p == rows.len() - r
            &&& c < rows[r as int]
            &&& c < columns
        },
    decreases k,
{
    let x = DrawStep::Cell { node: p, row: r, column: c };
    if k == 0 {
        assert(!Seq::<DrawStep>::empty().contains(x));
    } else {
        lemma_table_cells_prefix(nodes, rows, columns, (k - 1) as nat, p, r, c);
        let q = drawn_at(nodes.len(), k - 1);
        let rr = drawn_at(rows.len(), k - 1);
        let cells = cell_steps(q, rr, min_count(rows[rr] as int, columns as int));
        let head = edge_steps(q, nodes[q].outputs as nat) + seq![
            DrawStep::Node { node: q as usize },
        ];
        assert(!head.contains(x));
        assert(table_node_steps(nodes, rows, columns, k - 1) == head + cells);
        lemma_add_contains(
            table_plan(nodes, rows, columns, (k - 1) as nat),
            table_node_steps(nodes, rows, columns, k - 1),
            x,
        );
        lemma_add_contains(head, cells, x);
        lemma_cell_steps_contain(q, rr, min_count(rows[rr] as int, columns as int), p, r, c);
    }
}

/// The lines of a table plot: it draws the line from a node to one of its
/// outputs exactly for the nodes that have a row and the outputs they have.
pub proof fn lemma_table_draws_every_connection(
    nodes: Seq<PlotNode>,
    rows: Seq<usize>,
    columns: usize,
    p: usize,
    j: usize,
)
    requires
        nodes.len() <= usize::MAX,
        rows.len() <= usize::MAX,
    ensures
        (header_steps(columns as nat) + table_plan(
            nodes,
            rows,
            columns as nat,
            min_count(nodes.len() as int, rows.len() as int),
        )).contains(DrawStep::Edge { node: p, output: j }) <==> {
            &&& p < nodes.len()
            &&& nodes.len() - p <= rows.len()
            &&& j < nodes[p as int].outputs
        },
{
    let m = min_count(nodes.len() as int, rows.len() as int);
    let x = DrawStep::Edge { node: p, output: j };
    lemma_table_edges_prefix(nodes, rows, columns as nat, m, p, j);
    lemma_add_contains(header_steps(columns as nat), table_plan(nodes, rows, columns as nat, m), x);
    lemma_edge_free(header_steps(columns as nat), p, j);
}

proof fn lemma_table_edges_prefix(
    nodes: Seq<PlotNode>,
    rows: Seq<usize>,
    columns: nat,
    k: nat,
    p: usize,
    j: usize,
)
    requires
        k <= nodes.len() <= usize::MAX,
        k <= rows.len() <= usize::MAX,
    ensures
        table_plan(nodes, rows, columns, k).contains(DrawStep::Edge { node: p, output: j })
            <==> nodes.len() - k <= p < nodes.len() && j < nodes[p as int].outputs,
    decreases k,
{
    let x = DrawStep::Edge { node: p, output: j };
    if k == 0 {
        assert(!Seq::<DrawStep>::empty().contains(x));
    } else {
        lemma_table_edges_prefix(nodes, rows, columns, (k - 1) as nat, p, j);
        let q = drawn_at(nodes.len(), k - 1);
        let rr = drawn_at(rows.len(), k - 1);
        let edges = edge_steps(q, nodes[q].outputs as nat);
        let tail = seq![DrawStep::Node { node: q as usize }] + cell_steps(
            q,
            rr,
            min_count(rows[rr] as int, columns as int),
        );
        assert(table_node_steps(nodes, rows, columns, k - 1) =~= edges + tail);
        lemma_add_contains(
            table_plan(nodes, rows, columns, (k - 1) as nat),
            table_node_steps(nodes, rows, columns, k - 1),
            x,
        );
        lemma_add_contains(edges, tail, x);
        lemma_edge_steps_contain(q, nodes[q].outputs as nat, p, j);
        assert forall|i: int| 0 <= i < tail.len() implies !(#[trigger] tail[i] is Edge) by {}
        lemma_edge_free(tail, p, j);
    }
}

} // verus!
