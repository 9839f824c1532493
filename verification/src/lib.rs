// Card relationship graphs: deck-list entries are normalized and resolved
// into cards, cards are linked by a pod policy into a directed graph, and
// the graph is rendered as a Graphviz document.
pub mod cache;
pub mod card;
pub mod cost;
pub mod decklist;
pub mod digraph;
pub mod dot;
pub mod pyre_graph;
pub mod text;
