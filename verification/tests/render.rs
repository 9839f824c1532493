use podgraph::card::Card;
use podgraph::pyre_graph::{BirthingPod, PodGraph, PyreOfHeroes};

fn card(name: &str, cmc: u8, types: &[&str]) -> Card {
    Card { name: name.to_string(), cmc, types: types.iter().map(|t| t.to_string()).collect() }
}

const HEADER: &str = "digraph {\n    node [colorscheme=spectral11]\nedge [colorscheme=dark28]\n";

#[test]
fn empty_graph_document() {
    let graph = PodGraph::<BirthingPod>::new();
    assert_eq!(graph.to_img(None), format!("{HEADER}}}"));
    assert_eq!(graph.to_img(Some("Elf")), format!("{HEADER}}}"));
}

#[test]
fn document_without_highlight() {
    let mut graph = PodGraph::<BirthingPod>::new();
    graph.add_card(card("B", 2, &[]));
    graph.add_card(card("C", 5, &[]));
    graph.add_card(card("A", 1, &[]));
    let expected = [
        HEADER,
        "    subgraph cluster_1 {\n",
        "        2 [ label = \"A\"  ]\n",
        "       label = \"1\"\n",
        "   }\n",
        "    subgraph cluster_2 {\n",
        "        0 [ label = \"B\"  ]\n",
        "       label = \"2\"\n",
        "   }\n",
        "    subgraph cluster_5 {\n",
        "        1 [ label = \"C\" style=filled fillcolor=2 ]\n",
        "       label = \"5\"\n",
        "   }\n",
        "2 -> 0 [ label = \"\" color=1 fontcolor=1]\n",
        "}",
    ]
    .concat();
    assert_eq!(graph.to_img(None), expected);
}

#[test]
fn isolated_node_has_the_isolated_directive() {
    let mut graph = PodGraph::<BirthingPod>::new();
    graph.add_card(card("Alone", 4, &[]));
    let doc = graph.to_img(None);
    assert!(doc.contains("        0 [ label = \"Alone\" style=filled fillcolor=2 ]\n"));
    graph.add_card(card("Friend", 5, &[]));
    let doc = graph.to_img(None);
    assert!(doc.contains("        0 [ label = \"Alone\"  ]\n"));
    assert!(doc.contains("        1 [ label = \"Friend\"  ]\n"));
    assert!(!doc.contains("fillcolor=2"));
}

#[test]
fn nodes_of_one_cost_share_a_cluster() {
    let mut graph = PodGraph::<BirthingPod>::new();
    graph.add_card(card("X", 3, &[]));
    graph.add_card(card("Y", 0, &[]));
    graph.add_card(card("Z", 3, &[]));
    let expected = [
        HEADER,
        "    subgraph cluster_0 {\n",
        "        1 [ label = \"Y\" style=filled fillcolor=2 ]\n",
        "       label = \"0\"\n",
        "   }\n",
        "    subgraph cluster_3 {\n",
        "        0 [ label = \"X\" style=filled fillcolor=2 ]\n",
        "        2 [ label = \"Z\" style=filled fillcolor=2 ]\n",
        "       label = \"3\"\n",
        "   }\n",
        "}",
    ]
    .concat();
    assert_eq!(graph.to_img(None), expected);
}

#[test]
fn highest_cost_has_a_cluster() {
    let mut graph = PodGraph::<BirthingPod>::new();
    graph.add_card(card("Huge", 255, &[]));
    let doc = graph.to_img(None);
    assert!(doc.contains("    subgraph cluster_255 {\n        0 [ label = \"Huge\" style=filled fillcolor=2 ]\n       label = \"255\"\n   }\n"));
}

fn tribes() -> PodGraph<PyreOfHeroes> {
    let mut graph = PodGraph::<PyreOfHeroes>::new();
    graph.add_card(card("Elf One", 1, &["Elf"]));
    graph.add_card(card("Goblin One", 1, &["Goblin"]));
    graph.add_card(card("Elf Goblin Two", 2, &["Goblin", "Elf"]));
    graph.add_card(card("Elf Three", 3, &["Elf", "Druid"]));
    graph.add_card(card("Hermit", 2, &["Crab"]));
    graph
}

#[test]
fn colours_follow_first_appearance_of_labels() {
    let expected = [
        HEADER,
        "    subgraph cluster_1 {\n",
        "        0 [ label = \"Elf One\"  ]\n",
        "        1 [ label = \"Goblin One\"  ]\n",
        "       label = \"1\"\n",
        "   }\n",
        "    subgraph cluster_2 {\n",
        "        2 [ label = \"Elf Goblin Two\"  ]\n",
        "        4 [ label = \"Hermit\" style=filled fillcolor=2 ]\n",
        "       label = \"2\"\n",
        "   }\n",
        "    subgraph cluster_3 {\n",
        "        3 [ label = \"Elf Three\"  ]\n",
        "       label = \"3\"\n",
        "   }\n",
        "0 -> 2 [ label = \"Elf\" color=1 fontcolor=1]\n",
        "1 -> 2 [ label = \"Goblin\" color=2 fontcolor=2]\n",
        "2 -> 3 [ label = \"Elf\" color=1 fontcolor=1]\n",
        "}",
    ]
    .concat();
    assert_eq!(tribes().to_img(None), expected);
}

#[test]
fn highlight_marks_what_reaches_the_target() {
    let expected = [
        HEADER,
        "    subgraph cluster_1 {\n",
        "        0 [ label = \"Elf One\"  style=filled fillcolor=11]\n",
        "        1 [ label = \"Goblin One\"  style=filled fillcolor=11]\n",
        "       label = \"1\"\n",
        "   }\n",
        "    subgraph cluster_2 {\n",
        "        2 [ label = \"Elf Goblin Two\"  style=filled fillcolor=11]\n",
        "        4 [ label = \"Hermit\" style=filled fillcolor=2 ]\n",
        "       label = \"2\"\n",
        "   }\n",
        "    subgraph cluster_3 {\n",
        "        3 [ label = \"Elf Three\"  ]\n",
        "       label = \"3\"\n",
        "   }\n",
        "0 -> 2 [ label = \"Elf\" color=1 fontcolor=1]\n",
        "1 -> 2 [ label = \"Goblin\" color=2 fontcolor=2]\n",
        "}",
    ]
    .concat();
    assert_eq!(tribes().to_img(Some("Goblin Two")), expected);
}

#[test]
fn colours_count_drawn_edges_only() {
    let mut graph = PodGraph::<PyreOfHeroes>::new();
    graph.add_card(card("Elf One", 1, &["Elf"]));
    graph.add_card(card("Elf Two", 2, &["Elf"]));
    graph.add_card(card("Goblin One", 1, &["Goblin"]));
    graph.add_card(card("Goblin Two", 2, &["Goblin"]));
    let all = graph.to_img(None);
    assert!(all.contains("0 -> 1 [ label = \"Elf\" color=1 fontcolor=1]\n"));
    assert!(all.contains("2 -> 3 [ label = \"Goblin\" color=2 fontcolor=2]\n"));
    let some = graph.to_img(Some("Goblin Two"));
    assert!(!some.contains("0 -> 1"));
    assert!(some.ends_with("   }\n2 -> 3 [ label = \"Goblin\" color=1 fontcolor=1]\n}"));
}

#[test]
fn isolated_and_highlighted_node_has_both_directives() {
    let mut graph = PodGraph::<BirthingPod>::new();
    graph.add_card(card("Alone", 4, &[]));
    graph.add_card(card("Other", 9, &[]));
    let doc = graph.to_img(Some("Alone"));
    assert!(doc.contains("        0 [ label = \"Alone\" style=filled fillcolor=2 style=filled fillcolor=11]\n"));
    assert!(doc.contains("        1 [ label = \"Other\" style=filled fillcolor=2 ]\n"));
}

#[test]
fn unmatched_target_highlights_nothing_and_draws_no_edge() {
    let doc = tribes().to_img(Some("Dragon"));
    assert!(!doc.contains("fillcolor=11"));
    assert!(!doc.contains("->"));
    assert!(doc.ends_with("       label = \"3\"\n   }\n}"));
}
