use vstd::prelude::*;
use crate::pyre_graph::GraphView;
use crate::text::{decimal, position};

verus! {

/// The first lines of every document.
pub open spec fn header() -> Seq<char> {
    "digraph {\n    node [colorscheme=spectral11]\nedge [colorscheme=dark28]\n"@
}

/// The directive that fills a node which no edge touches.
pub open spec fn isolated_directive() -> Seq<char> {
    "style=filled fillcolor=2"@
}

/// The directive that fills a node of the highlight set.
pub open spec fn highlight_directive() -> Seq<char> {
    "style=filled fillcolor=11"@
}

/// The isolation directive of node `i`: present if and only if no edge
/// touches the node.
pub open spec fn isolated_style(g: GraphView, i: int) -> Seq<char> {
    if g.is_isolated(i) {
        isolated_directive()
    } else {
        Seq::empty()
    }
}

/// The highlight directive of node `i`: present if and only if there is a
/// highlight set and the node is in it.
pub open spec fn highlight_style(highlight: Option<Set<int>>, i: int) -> Seq<char> {
    match highlight {
        Some(set) => if set.contains(i) {
            highlight_directive()
        } else {
            Seq::empty()
        },
        None => Seq::empty(),
    }
}

/// The line of node `i`: its number, its card's name as the label, and its
/// two style directives side by side. Where both are present the later one,
/// the highlight, is the one that a reader of the attribute list ends with.
pub open spec fn node_line(g: GraphView, highlight: Option<Set<int>>, i: int) -> Seq<char> {
    "        "@ + decimal(i as nat) + " [ label = \""@ + g.nodes[i].name + "\" "@ + isolated_style(
        g,
        i,
    ) + " "@ + highlight_style(highlight, i) + "]\n"@
}

/// A node that no edge touches has the isolation directive in its line,
/// and a node that an edge touches has nothing in its place.
pub proof fn lemma_isolated_style(g: GraphView, highlight: Option<Set<int>>, i: int)
    ensures
        isolated_directive().len() > 0,
        g.is_isolated(i) ==> isolated_style(g, i) == isolated_directive(),
        !g.is_isolated(i) ==> isolated_style(g, i) == Seq::<char>::empty(),
        g.is_isolated(i) <==> !exists|e: int|
            0 <= e < g.edges.len() && ((#[trigger] g.edges[e]).from == i || g.edges[e].to == i),
        node_line(g, highlight, i) == "        "@ + decimal(i as nat) + " [ label = \""@
            + g.nodes[i].name + "\" "@ + isolated_style(g, i) + " "@ + highlight_style(highlight, i)
            + "]\n"@,
{
    reveal_strlit("style=filled fillcolor=2");
}

/// The lines of those among the first `k` nodes whose cost is `cost`, in
/// the order of the nodes.
pub open spec fn cluster_nodes(g: GraphView, highlight: Option<Set<int>>, cost: int, k: int) -> Seq<
    char,
>
    decreases k,
{
    if k <= 0 {
        Seq::empty()
    } else {
        cluster_nodes(g, highlight, cost, k - 1) + if g.nodes[k - 1].cmc == cost {
            node_line(g, highlight, k - 1)
        } else {
            Seq::empty()
        }
    }
}

/// Whether one of the first `k` nodes has the cost `cost`.
pub open spec fn has_cost(g: GraphView, cost: int, k: int) -> bool {
    exists|i: int| 0 <= i < k && i < g.nodes.len() && (#[trigger] g.nodes[i]).cmc == cost
}

/// The cluster of the cost `cost`: its opening line, the lines of its
/// nodes, its label and its closing line; nothing where no node has that
/// cost.
pub open spec fn cluster(g: GraphView, highlight: Option<Set<int>>, cost: int) -> Seq<char> {
    if has_cost(g, cost, g.nodes.len() as int) {
        "    subgraph cluster_"@ + decimal(cost as nat) + " {\n"@ + cluster_nodes(
            g,
            highlight,
            cost,
            g.nodes.len() as int,
        ) + "       label = \""@ + decimal(cost as nat) + "\"\n"@ + "   }\n"@
    } else {
        Seq::empty()
    }
}

/// The clusters of the costs below `upto`, by rising cost.
pub open spec fn clusters(g: GraphView, highlight: Option<Set<int>>, upto: int) -> Seq<char>
    decreases upto,
{
    if upto <= 0 {
        Seq::empty()
    } else {
        clusters(g, highlight, upto - 1) + cluster(g, highlight, upto - 1)
    }
}

/// Whether the edge `e` is drawn: always without a highlight set, else
/// only if both of its ends are in the set.
pub open spec fn shown(g: GraphView, highlight: Option<Set<int>>, e: int) -> bool {
    match highlight {
        Some(set) => set.contains(g.edges[e].from) && set.contains(g.edges[e].to),
        None => true,
    }
}

/// The distinct labels of the drawn edges among the first `k`, in the
/// order in which they are first seen.
pub open spec fn seen_labels(g: GraphView, highlight: Option<Set<int>>, k: int) -> Seq<Seq<char>>
    decreases k,
{
    if k <= 0 {
        Seq::empty()
    } else {
        let before = seen_labels(g, highlight, k - 1);
        let label = g.edges[k - 1].label;
        if shown(g, highlight, k - 1) && position(before, label) == before.len() {
            before.push(label)
        } else {
            before
        }
    }
}

/// The colour of the drawn edge `e`: the rank, from one, of its label among
/// the labels in the order in which the drawn edges first show them.
pub open spec fn color(g: GraphView, highlight: Option<Set<int>>, e: int) -> int {
    position(seen_labels(g, highlight, e + 1), g.edges[e].label) + 1
}

/// The line of the edge `e`: its ends, its label, and its colour as line
/// and font colour.
pub open spec fn edge_line(g: GraphView, highlight: Option<Set<int>>, e: int) -> Seq<char> {
    decimal(g.edges[e].from as nat) + " -> "@ + decimal(g.edges[e].to as nat) + " [ label = \""@
        + g.edges[e].label + "\" color="@ + decimal(color(g, highlight, e) as nat) + " fontcolor="@
        + decimal(color(g, highlight, e) as nat) + "]\n"@
}

/// The lines of the drawn edges among the first `k`, in the order of the
/// edges.
pub open spec fn edge_lines(g: GraphView, highlight: Option<Set<int>>, k: int) -> Seq<char>
    decreases k,
{
    if k <= 0 {
        Seq::empty()
    } else {
        edge_lines(g, highlight, k - 1) + if shown(g, highlight, k - 1) {
            edge_line(g, highlight, k - 1)
        } else {
            Seq::empty()
        }
    }
}

/// The document of a graph: the header, one cluster for each cost that a
/// node has, the drawn edges, and the closing brace.
pub open spec fn document(g: GraphView, highlight: Option<Set<int>>) -> Seq<char> {
    header() + clusters(g, highlight, 256) + edge_lines(g, highlight, g.edges.len() as int) + "}"@
}

} // verus!
