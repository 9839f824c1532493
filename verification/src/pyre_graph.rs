use vstd::prelude::*;
use crate::card::{Card, CardView, texts};
use crate::digraph::{
    graph_arcs, graph_node_count, lemma_reached_without_arc, lemma_reaches_itself, reachable,
    INDEX_LIMIT,
};
use crate::dot::{
    cluster, cluster_nodes, clusters, color, document, edge_line, edge_lines, has_cost, header,
    node_line, seen_labels, shown,
};
use crate::text::{contains, contains_text, find_text, push_decimal};

verus! {

/// Which way a link between a new card and an existing one points.
#[derive(Debug, Clone, Copy, PartialEq, Eq)]
pub enum LinkDirection {
    /// From the existing card to the new one.
    From,
    /// From the new card to the existing one.
    To,
}

/// A link that a policy asks for: the edge to add and its direction.
pub struct Link<Edge> {
    pub edge: Edge,
    pub dir: LinkDirection,
}

/// The mathematical value of a [`Link`]: its direction and the text of its
/// label.
pub struct LinkView {
    pub dir: LinkDirection,
    pub label: Seq<char>,
}

/// A pod policy: it decides whether a new card and an existing one are
/// linked, which way, and with which edge.
pub trait PodKind {
    /// What an edge of this kind carries.
    type Edge;

    /// The text that an edge shows as its label.
    spec fn label_text(edge: &Self::Edge) -> Seq<char>;

    /// The policy's decision for a pair of cards. It is a function of the
    /// two cards alone.
    spec fn decide(new: CardView, existing: CardView) -> Option<LinkView>;

    /// Decides the pair `(new, existing)`.
    fn check(new: &Card, existing: &Card) -> (link: Option<Link<Self::Edge>>)
        ensures
            match link {
                Some(l) => Self::decide(new@, existing@) == Some(
                    (LinkView { dir: l.dir, label: Self::label_text(&l.edge) }),
                ),
                None => Self::decide(new@, existing@) is None,
            },
    ;

    /// The label of an edge, as text.
    fn label(edge: &Self::Edge) -> (text: String)
        ensures
            text@ == Self::label_text(edge),
    ;
}

/// The policy of cost adjacency: two cards are linked when their costs
/// differ by exactly one, from the cheaper to the dearer.
pub struct BirthingPod;

/// The edge of [`BirthingPod`]: it carries nothing and shows an empty label.
#[derive(Debug, Clone, Copy, PartialEq, Eq, Hash, PartialOrd, Ord)]
pub struct NoInfo;

impl PodKind for BirthingPod {
    type Edge = NoInfo;

    open spec fn label_text(edge: &NoInfo) -> Seq<char> {
        Seq::empty()
    }

    open spec fn decide(new: CardView, existing: CardView) -> Option<LinkView> {
        if new.cmc + 1 == existing.cmc {
            Some(LinkView { dir: LinkDirection::To, label: Seq::empty() })
        } else if new.cmc == existing.cmc + 1 {
            Some(LinkView { dir: LinkDirection::From, label: Seq::empty() })
        } else {
            None
        }
    }

    fn check(new: &Card, existing: &Card) -> (link: Option<Link<NoInfo>>) {
        let difference: i16 = (new.cmc as i16) - (existing.cmc as i16);
        if difference == -1 {
            Some(Link { edge: NoInfo, dir: LinkDirection::To })
        } else if difference == 1 {
            Some(Link { edge: NoInfo, dir: LinkDirection::From })
        } else {
            None
        }
    }

    fn label(edge: &NoInfo) -> (text: String) {
        String::new()
    }
}

/// The position in `tags` of its first entry that `others` holds too, if
/// there is one at or after `from`.
pub open spec fn first_shared(tags: Seq<Seq<char>>, others: Seq<Seq<char>>, from: int) -> Option<int>
    decreases tags.len() - from,
{
    if from < 0 || from >= tags.len() {
        None
    } else if others.contains(tags[from]) {
        Some(from)
    } else {
        first_shared(tags, others, from + 1)
    }
}

/// The policy of cost adjacency among cards of a kind: two cards are linked
/// as [`BirthingPod`] links them, but only if they share a type, and the
/// edge carries the first type of the new card that the existing one has.
pub struct PyreOfHeroes;

impl PodKind for PyreOfHeroes {
    type Edge = String;

    open spec fn label_text(edge: &String) -> Seq<char> {
        edge@
    }

    open spec fn decide(new: CardView, existing: CardView) -> Option<LinkView> {
        match first_shared(new.types, existing.types, 0) {
            Some(i) => match BirthingPod::decide(new, existing) {
                Some(l) => Some(LinkView { dir: l.dir, label: new.types[i] }),
                None => None,
            },
            None => None,
        }
    }

    fn check(new: &Card, existing: &Card) -> (link: Option<Link<String>>) {
        match shared_type(&new.types, &existing.types) {
            Some(i) => match BirthingPod::check(new, existing) {
                Some(l) => Some(Link { edge: new.types[i].clone(), dir: l.dir }),
                None => None,
            },
            None => None,
        }
    }

    fn label(edge: &String) -> (text: String) {
        edge.clone()
    }
}

/// Whether `others` holds the text `tag`.
fn holds_type(others: &Vec<String>, tag: &String) -> (found: bool)
    ensures
        found == texts(others@).contains(tag@),
{
    let mut j: usize = 0;
    while j < others.len()
        invariant
            j <= others.len(),
            forall|k: int| 0 <= k < j ==> texts(others@)[k] != tag@,
        decreases others.len() - j,
    {
        if others[j] == *tag {
            assert(texts(others@)[j as int] == tag@);
            return true;
        }
        j += 1;
    }
    false
}

/// The position of the first entry of `tags` that `others` holds too.
fn shared_type(tags: &Vec<String>, others: &Vec<String>) -> (at: Option<usize>)
    ensures
        match at {
            Some(i) => first_shared(texts(tags@), texts(others@), 0) == Some(i as int) && i < tags.len(),
            None => first_shared(texts(tags@), texts(others@), 0) is None,
        },
{
    let mut i: usize = 0;
    while i < tags.len()
        invariant
            i <= tags.len(),
            first_shared(texts(tags@), texts(others@), 0) == first_shared(
                texts(tags@),
                texts(others@),
                i as int,
            ),
        decreases tags.len() - i,
    {
        if holds_type(others, &tags[i]) {
            return Some(i);
        }
        i += 1;
    }
    None
}

/// What [`first_shared`] returns is the place of the first shared entry:
/// `others` holds the entry there and none of those between `from` and it;
/// where it returns none, `others` holds no entry from `from` on.
pub proof fn lemma_first_shared(tags: Seq<Seq<char>>, others: Seq<Seq<char>>, from: int)
    requires
        0 <= from,
    ensures
        match first_shared(tags, others, from) {
            Some(i) => {
                &&& from <= i < tags.len()
                &&& others.contains(tags[i])
                &&& forall|j: int| from <= j < i ==> !others.contains(tags[j])
            },
            None => forall|j: int| from <= j < tags.len() ==> !others.contains(tags[j]),
        },
    decreases tags.len() - from,
{
    if from < tags.len() && !others.contains(tags[from]) {
        lemma_first_shared(tags, others, from + 1);
    }
}

/// Cost adjacency: two cards are linked if and only if their costs differ
/// by exactly one, and the link leads from the cheaper card to the dearer
/// one.
pub proof fn lemma_birthing_pod_links_adjacent_costs(new: CardView, existing: CardView)
    ensures
        BirthingPod::decide(new, existing) is Some <==> (new.cmc - existing.cmc == 1
            || existing.cmc - new.cmc == 1),
        new.cmc - existing.cmc == 1 ==> BirthingPod::decide(new, existing) == Some(
            (LinkView { dir: LinkDirection::From, label: Seq::empty() }),
        ),
        existing.cmc - new.cmc == 1 ==> BirthingPod::decide(new, existing) == Some(
            (LinkView { dir: LinkDirection::To, label: Seq::empty() }),
        ),
{
}

/// Cost adjacency among cards of a kind: without a shared type there is no
/// link, whatever the costs; with one, the link is that of [`BirthingPod`],
/// and its label is the first type of the new card that the existing card
/// has too.
pub proof fn lemma_pyre_of_heroes_needs_shared_type(new: CardView, existing: CardView)
    ensures
        (forall|tag: Seq<char>| !(new.types.contains(tag) && existing.types.contains(tag)))
            ==> PyreOfHeroes::decide(new, existing) is None,
        BirthingPod::decide(new, existing) is None ==> PyreOfHeroes::decide(new, existing) is None,
        PyreOfHeroes::decide(new, existing) matches Some(link) ==> {
            &&& BirthingPod::decide(new, existing) matches Some(plain) && plain.dir == link.dir
            &&& exists|i: int|
                {
                    &&& 0 <= i < new.types.len()
                    &&& #[trigger] new.types[i] == link.label
                    &&& existing.types.contains(new.types[i])
                    &&& forall|j: int| 0 <= j < i ==> !existing.types.contains(new.types[j])
                }
        },
{
    lemma_first_shared(new.types, existing.types, 0);
    match first_shared(new.types, existing.types, 0) {
        Some(i) => {
            assert(new.types.contains(new.types[i]));
        },
        None => {},
    }
}

/// An edge of a graph of cards: the numbers of its two nodes and the text
/// of its label.
pub struct EdgeView {
    pub from: int,
    pub to: int,
    pub label: Seq<char>,
}

/// The mathematical value of a [`PodGraph`]: its cards by node number, and
/// its edges by edge number.
pub struct GraphView {
    pub nodes: Seq<CardView>,
    pub edges: Seq<EdgeView>,
}

/// The edge that a link makes between the existing node `existing` and the
/// new node `new`.
pub open spec fn link_edge(link: LinkView, existing: int, new: int) -> EdgeView {
    match link.dir {
        LinkDirection::From => EdgeView { from: existing, to: new, label: link.label },
        LinkDirection::To => EdgeView { from: new, to: existing, label: link.label },
    }
}

/// The edges that the card `c` gets when it arrives at `nodes`, against the
/// first `k` of them: one for each that the policy links it with, in the
/// order of the nodes.
pub open spec fn new_edges<K: PodKind>(nodes: Seq<CardView>, c: CardView, k: int) -> Seq<EdgeView>
    decreases k,
{
    if k <= 0 {
        Seq::empty()
    } else {
        let before = new_edges::<K>(nodes, c, k - 1);
        match K::decide(c, nodes[k - 1]) {
            Some(link) => before.push(link_edge(link, k - 1, nodes.len() as int)),
            None => before,
        }
    }
}

/// The number of the first node at or after `from` whose card's name holds
/// the text `name`.
pub open spec fn first_named(nodes: Seq<CardView>, name: Seq<char>, from: int) -> Option<int>
    decreases nodes.len() - from,
{
    if from < 0 || from >= nodes.len() {
        None
    } else if contains_text(nodes[from].name, name) {
        Some(from)
    } else {
        first_named(nodes, name, from + 1)
    }
}

/// The numbers that `indices` holds, as a set.
pub open spec fn index_set(indices: Seq<usize>) -> Set<int> {
    Set::new(|n: int| exists|j: int| 0 <= j < indices.len() && indices[j] == n)
}

/// The numbers of a list with one more at its end are those of the list
/// and that one.
proof fn lemma_index_set_push(indices: Seq<usize>, n: usize)
    ensures
        index_set(indices.push(n)) == index_set(indices).insert(n as int),
{
    assert forall|m: int| index_set(indices.push(n)).contains(m) <==> index_set(indices).insert(
        n as int,
    ).contains(m) by {
        if index_set(indices.push(n)).contains(m) {
            let j = choose|j: int| 0 <= j < indices.push(n).len() && indices.push(n)[j] == m;
            if j < indices.len() {
                assert(indices[j] == m);
            }
        }
        if index_set(indices).contains(m) {
            let j = choose|j: int| 0 <= j < indices.len() && indices[j] == m;
            assert(indices.push(n)[j] == m);
        }
        if m == n {
            assert(indices.push(n)[indices.len() as int] == m);
        }
    }
    assert(index_set(indices.push(n)) =~= index_set(indices).insert(n as int));
}

/// The nodes below `k` that reach the node `t`.
spec fn reaching_below(g: GraphView, t: int, k: int) -> Set<int> {
    Set::new(|n: int| 0 <= n < k && g.reaches(n, t))
}

impl GraphView {
    /// The target of a search by name: the first node whose card's name
    /// holds the text, if there is one.
    pub open spec fn target(self, name: Seq<char>) -> Option<int> {
        first_named(self.nodes, name, 0)
    }

    /// Whether a path along the edges leads from `from` to `to`.
    pub open spec fn reaches(self, from: int, to: int) -> bool {
        reachable(self.arcs(), from, to)
    }

    /// The nodes that reach the target of `name`; none where no node's name
    /// holds `name`.
    pub open spec fn can_reach(self, name: Seq<char>) -> Set<int> {
        match self.target(name) {
            Some(t) => Set::new(|n: int| 0 <= n < self.nodes.len() && self.reaches(n, t)),
            None => Set::empty(),
        }
    }

    /// The highlight set of a document: the nodes that reach the target, if
    /// a target is asked for.
    pub open spec fn highlight(self, draw_path_to: Option<Seq<char>>) -> Option<Set<int>> {
        match draw_path_to {
            Some(name) => Some(self.can_reach(name)),
            None => None,
        }
    }

    /// The graph after the card `c` has arrived: `c` is the last node, and
    /// the edges that were there are followed by those that link `c` with
    /// the nodes that were there.
    pub open spec fn insert<K: PodKind>(self, c: CardView) -> GraphView {
        GraphView {
            nodes: self.nodes.push(c),
            edges: self.edges + new_edges::<K>(self.nodes, c, self.nodes.len() as int),
        }
    }

    /// The edges as pairs of source and target.
    pub open spec fn arcs(self) -> Seq<(int, int)> {
        Seq::new(self.edges.len(), |e: int| (self.edges[e].from, self.edges[e].to))
    }

    /// Whether no edge touches the node `i`.
    pub open spec fn is_isolated(self, i: int) -> bool {
        forall|e: int| 0 <= e < self.edges.len() ==> (#[trigger] self.edges[e]).from != i && self.edges[e].to != i
    }
}

/// Those of `edges` that touch the node `i`, in their order.
pub open spec fn touching(edges: Seq<EdgeView>, i: int) -> Seq<EdgeView>
    decreases edges.len(),
{
    if edges.len() == 0 {
        Seq::empty()
    } else {
        let before = touching(edges.drop_last(), i);
        if edges.last().from == i || edges.last().to == i {
            before.push(edges.last())
        } else {
            before
        }
    }
}

/// The edges that an arriving card gets with one existing node: the edge of
/// the policy's decision for the two cards, or none.
pub open spec fn pair_edges<K: PodKind>(c: CardView, other: CardView, existing: int, new: int) -> Seq<
    EdgeView,
> {
    match K::decide(c, other) {
        Some(link) => seq![link_edge(link, existing, new)],
        None => Seq::empty(),
    }
}

/// The outcome for a pair of cards does not depend on the rest of the
/// graph: among the edges that an arriving card `c` gets, those that touch
/// an existing node `i` are what the policy decides for `c` and the card of
/// `i`, whatever the other nodes hold.
pub proof fn lemma_pair_outcome<K: PodKind>(nodes: Seq<CardView>, c: CardView, i: int)
    requires
        0 <= i < nodes.len(),
    ensures
        touching(new_edges::<K>(nodes, c, nodes.len() as int), i) == pair_edges::<K>(
            c,
            nodes[i],
            i,
            nodes.len() as int,
        ),
{
    lemma_pair_outcome_among::<K>(nodes, c, i, nodes.len() as int);
}

proof fn lemma_pair_outcome_among<K: PodKind>(nodes: Seq<CardView>, c: CardView, i: int, k: int)
    requires
        0 <= i < nodes.len(),
        0 <= k <= nodes.len(),
    ensures
        touching(new_edges::<K>(nodes, c, k), i) == if i < k {
            pair_edges::<K>(c, nodes[i], i, nodes.len() as int)
        } else {
            Seq::empty()
        },
    decreases k,
{
    if k > 0 {
        lemma_pair_outcome_among::<K>(nodes, c, i, k - 1);
        let before = new_edges::<K>(nodes, c, k - 1);
        match K::decide(c, nodes[k - 1]) {
            Some(link) => {
                let made = link_edge(link, k - 1, nodes.len() as int);
                assert(before.push(made).drop_last() =~= before);
                if i == k - 1 {
                    assert(touching(before, i).push(made) =~= seq![made]);
                }
            },
            None => {},
        }
    }
}

/// Every edge that an arriving card gets joins the new node with a node
/// that was there before it: no edge is made between two earlier nodes.
pub proof fn lemma_new_edges_join_new_node<K: PodKind>(nodes: Seq<CardView>, c: CardView, k: int)
    requires
        0 <= k <= nodes.len(),
    ensures
        forall|e: int|
            0 <= e < new_edges::<K>(nodes, c, k).len() ==> {
                let edge = #[trigger] new_edges::<K>(nodes, c, k)[e];
                ||| edge.from == nodes.len() && 0 <= edge.to < k
                ||| edge.to == nodes.len() && 0 <= edge.from < k
            },
    decreases k,
{
    if k > 0 {
        lemma_new_edges_join_new_node::<K>(nodes, c, k - 1);
        let before = new_edges::<K>(nodes, c, k - 1);
        assert forall|e: int| 0 <= e < new_edges::<K>(nodes, c, k).len() implies {
            let edge = #[trigger] new_edges::<K>(nodes, c, k)[e];
            ||| edge.from == nodes.len() && 0 <= edge.to < k
            ||| edge.to == nodes.len() && 0 <= edge.from < k
        } by {
            if e < before.len() {
                assert(new_edges::<K>(nodes, c, k)[e] == before[e]);
            }
        }
    }
}

/// A target that no edge leads to is reached by itself alone.
pub proof fn lemma_target_without_incoming_edge(g: GraphView, name: Seq<char>)
    requires
        g.target(name) is Some,
        forall|e: int| 0 <= e < g.edges.len() ==> (#[trigger] g.edges[e]).to != g.target(name)->0,
    ensures
        g.can_reach(name) == set![g.target(name)->0],
{
    let t = g.target(name)->0;
    lemma_first_named(g.nodes, name, 0);
    lemma_reaches_itself(g.arcs(), t);
    assert forall|n: int| g.reaches(n, t) implies n == t by {
        assert forall|e: int| 0 <= e < g.arcs().len() implies (#[trigger] g.arcs()[e]).1 != t by {
            assert(g.edges[e].to != t);
        }
        lemma_reached_without_arc(g.arcs(), n, t);
    }
    assert(g.can_reach(name) =~= set![t]);
}

/// What [`first_named`] returns is a node at or after `from`, and it is
/// the first whose name holds `name`.
pub proof fn lemma_first_named(nodes: Seq<CardView>, name: Seq<char>, from: int)
    requires
        0 <= from,
    ensures
        match first_named(nodes, name, from) {
            Some(t) => {
                &&& from <= t < nodes.len()
                &&& contains_text(nodes[t].name, name)
                &&& forall|j: int| from <= j < t ==> !contains_text(nodes[j].name, name)
            },
            None => forall|j: int| from <= j < nodes.len() ==> !contains_text(nodes[j].name, name),
        },
    decreases nodes.len() - from,
{
    if from < nodes.len() && !contains_text(nodes[from].name, name) {
        lemma_first_named(nodes, name, from + 1);
    }
}

/// A directed graph of cards whose edges the policy `K` decides.
pub struct PodGraph<K: PodKind> {
    g: petgraph::Graph<(), ()>,
    cards: Vec<Card>,
    labels: Vec<K::Edge>,
}

impl<K: PodKind> View for PodGraph<K> {
    type V = GraphView;

    closed spec fn view(&self) -> GraphView {
        GraphView {
            nodes: Seq::new(self.cards@.len(), |i: int| self.cards@[i]@),
            edges: Seq::new(
                self.labels@.len(),
                |e: int|
                    EdgeView {
                        from: graph_arcs(self.g)[e].0,
                        to: graph_arcs(self.g)[e].1,
                        label: K::label_text(&self.labels@[e]),
                    },
            ),
        }
    }
}

impl<K: PodKind> PodGraph<K> {
    /// The invariant of the graph: every node has its card, every edge has
    /// its label, and every edge joins two nodes of the graph.
    pub closed spec fn wf(&self) -> bool {
        &&& graph_node_count(self.g) == self.cards@.len()
        &&& graph_arcs(self.g).len() == self.labels@.len()
        &&& forall|e: int|
            0 <= e < graph_arcs(self.g).len() ==> {
                &&& 0 <= (#[trigger] graph_arcs(self.g)[e]).0 < self.cards@.len()
                &&& 0 <= graph_arcs(self.g)[e].1 < self.cards@.len()
            }
    }

    /// Every edge of a graph joins two of its nodes.
    pub proof fn lemma_edges_join_nodes(&self)
        requires
            self.wf(),
        ensures
            forall|e: int|
                0 <= e < self@.edges.len() ==> {
                    &&& 0 <= (#[trigger] self@.edges[e]).from < self@.nodes.len()
                    &&& 0 <= self@.edges[e].to < self@.nodes.len()
                },
    {
        assert forall|e: int| 0 <= e < self@.edges.len() implies {
            &&& 0 <= (#[trigger] self@.edges[e]).from < self@.nodes.len()
            &&& 0 <= self@.edges[e].to < self@.nodes.len()
        } by {
            assert(0 <= graph_arcs(self.g)[e].0 < self.cards@.len());
        }
    }

    /// The graph without nodes.
    pub fn new() -> (graph: Self)
        ensures
            graph.wf(),
            graph@.nodes == Seq::<CardView>::empty(),
            graph@.edges == Seq::<EdgeView>::empty(),
    {
        PodGraph { g: crate::digraph::graph_new(), cards: Vec::new(), labels: Vec::new() }
    }

    /// Adds the card `c` as the last node and links it with the nodes that
    /// were there, as the policy decides for each of them.
    pub fn add_card(&mut self, c: Card)
        requires
            old(self).wf(),
            old(self)@.nodes.len() + old(self)@.edges.len() < INDEX_LIMIT,
        ensures
            final(self).wf(),
            final(self)@ == old(self)@.insert::<K>(c@),
    {
        let n = self.cards.len();
        let node = crate::digraph::add_node(&mut self.g);
        self.cards.push(c);
        assert(self@.nodes =~= old(self)@.nodes.push(c@));
        assert(self@.edges =~= old(self)@.edges);
        let mut i: usize = 0;
        while i < n
            invariant
                i <= n,
                node == n,
                n == old(self)@.nodes.len(),
                n + old(self)@.edges.len() < INDEX_LIMIT,
                self.wf(),
                self.cards@.len() == n + 1,
                self@.nodes == old(self)@.nodes.push(c@),
                self@.edges == old(self)@.edges + new_edges::<K>(old(self)@.nodes, c@, i as int),
                new_edges::<K>(old(self)@.nodes, c@, i as int).len() <= i,
            decreases n - i,
        {
            let ghost before = self@.edges;
            let ghost nodes = old(self)@.nodes;
            assert(graph_arcs(self.g).len() == before.len());
            assert(before.len() == old(self)@.edges.len() + new_edges::<K>(nodes, c@, i as int).len());
            assert(self@.nodes[i as int] == nodes[i as int]);
            assert(self@.nodes[n as int] == c@);
            match K::check(&self.cards[n], &self.cards[i]) {
                Some(link) => {
                    match link.dir {
                        LinkDirection::From => {
                            crate::digraph::add_edge(&mut self.g, i, node);
                        },
                        LinkDirection::To => {
                            crate::digraph::add_edge(&mut self.g, node, i);
                        },
                    }
                    let ghost made = link_edge(
                        LinkView { dir: link.dir, label: K::label_text(&link.edge) },
                        i as int,
                        n as int,
                    );
                    self.labels.push(link.edge);
                    assert(self@.edges =~= before.push(made));
                    assert(before.push(made) =~= old(self)@.edges + new_edges::<K>(
                        nodes,
                        c@,
                        i as int,
                    ).push(made));
                },
                None => {},
            }
            i += 1;
        }
    }

    /// Adds the card `c` as [`PodGraph::add_card`] does, if the graph has
    /// room for it and for an edge to each node that is there; hands the
    /// card back and leaves the graph as it is otherwise.
    pub fn try_add_card(&mut self, c: Card) -> (added: Result<(), Card>)
        requires
            old(self).wf(),
        ensures
            final(self).wf(),
            match added {
                Ok(_) => {
                    &&& old(self)@.nodes.len() + old(self)@.edges.len() < INDEX_LIMIT
                    &&& final(self)@ == old(self)@.insert::<K>(c@)
                },
                Err(back) => {
                    &&& old(self)@.nodes.len() + old(self)@.edges.len() >= INDEX_LIMIT
                    &&& final(self)@ == old(self)@
                    &&& back == c
                },
            },
    {
        let nodes = self.cards.len();
        let edges = self.labels.len();
        if nodes < INDEX_LIMIT && edges < INDEX_LIMIT - nodes {
            self.add_card(c);
            Ok(())
        } else {
            Err(c)
        }
    }

    /// The number of nodes.
    pub fn node_count(&self) -> (n: usize)
        requires
            self.wf(),
        ensures
            n == self@.nodes.len(),
    {
        crate::digraph::node_count(&self.g)
    }

    /// The number of edges.
    pub fn edge_count(&self) -> (n: usize)
        requires
            self.wf(),
        ensures
            n == self@.edges.len(),
    {
        crate::digraph::edge_count(&self.g)
    }

    /// The card of the node `i`.
    pub fn card(&self, i: usize) -> (c: &Card)
        requires
            self.wf(),
            i < self@.nodes.len(),
        ensures
            c@ == self@.nodes[i as int],
    {
        &self.cards[i]
    }

    /// The source and the target of the edge `e`.
    pub fn edge_endpoints(&self, e: usize) -> (ends: (usize, usize))
        requires
            self.wf(),
            e < self@.edges.len(),
        ensures
            ends.0 == self@.edges[e as int].from,
            ends.1 == self@.edges[e as int].to,
            ends.0 < self@.nodes.len(),
            ends.1 < self@.nodes.len(),
    {
        match crate::digraph::edge_endpoints(&self.g, e) {
            Some(ends) => ends,
            None => (0, 0),
        }
    }

    /// The label of the edge `e`, as text.
    pub fn edge_label(&self, e: usize) -> (text: String)
        requires
            self.wf(),
            e < self@.edges.len(),
        ensures
            text@ == self@.edges[e as int].label,
    {
        K::label(&self.labels[e])
    }

    /// Whether no edge touches the node `index`.
    pub fn node_is_isolated(&self, index: usize) -> (isolated: bool)
        requires
            self.wf(),
        ensures
            isolated == self@.is_isolated(index as int),
    {
        let m = self.labels.len();
        let mut e: usize = 0;
        while e < m
            invariant
                self.wf(),
                m == self@.edges.len(),
                e <= m,
                forall|k: int|
                    0 <= k < e ==> (#[trigger] self@.edges[k]).from != index && self@.edges[k].to
                        != index,
            decreases m - e,
        {
            let ends = self.edge_endpoints(e);
            if ends.0 == index || ends.1 == index {
                return false;
            }
            e += 1;
        }
        true
    }

    /// The number of the first node whose card's name holds `name`.
    fn find_target(&self, name: &str) -> (target: Option<usize>)
        requires
            self.wf(),
        ensures
            match target {
                Some(t) => self@.target(name@) == Some(t as int) && t < self@.nodes.len(),
                None => self@.target(name@) is None,
            },
    {
        let mut i: usize = 0;
        while i < self.cards.len()
            invariant
                i <= self.cards@.len(),
                self@.target(name@) == first_named(self@.nodes, name@, i as int),
            decreases self.cards@.len() - i,
        {
            if contains(self.cards[i].name.as_str(), name) {
                return Some(i);
            }
            i += 1;
        }
        None
    }

    /// The nodes from which a path leads to the first node whose card's
    /// name holds `name`, by rising number; that node is among them. No
    /// node where no name holds `name`.
    pub fn nodes_that_can_reach(&self, name: &str) -> (nodes: Vec<usize>)
        requires
            self.wf(),
        ensures
            forall|j: int, k: int| 0 <= j < k < nodes@.len() ==> nodes@[j] < nodes@[k],
            index_set(nodes@) == self@.can_reach(name@),
            self@.target(name@) is None ==> nodes@.len() == 0,
            self@.target(name@) matches Some(t) ==> nodes@.contains(t as usize),
    {
        let mut nodes: Vec<usize> = Vec::new();
        let target = match self.find_target(name) {
            Some(t) => t,
            None => {
                assert(index_set(nodes@) =~= self@.can_reach(name@));
                return nodes;
            },
        };
        let n = self.cards.len();
        let mut space = crate::digraph::dfs_space(&self.g);
        assert(self@.arcs() =~= graph_arcs(self.g));
        assert(index_set(nodes@) =~= reaching_below(self@, target as int, 0));
        let mut i: usize = 0;
        while i < n
            invariant
                self.wf(),
                n == self.cards@.len(),
                i <= n,
                target < n,
                self@.arcs() == graph_arcs(self.g),
                forall|j: int, k: int| 0 <= j < k < nodes@.len() ==> nodes@[j] < nodes@[k],
                forall|j: int| 0 <= j < nodes@.len() ==> nodes@[j] < i,
                index_set(nodes@) == reaching_below(self@, target as int, i as int),
            decreases n - i,
        {
            let ghost before = nodes@;
            if crate::digraph::has_path_connecting(&self.g, i, target, &mut space) {
                nodes.push(i);
                proof {
                    lemma_index_set_push(before, i);
                    assert(index_set(before).insert(i as int) =~= reaching_below(
                        self@,
                        target as int,
                        i + 1,
                    ));
                }
            } else {
                assert(reaching_below(self@, target as int, i as int) =~= reaching_below(
                    self@,
                    target as int,
                    i + 1,
                ));
            }
            i += 1;
        }
        assert(reaching_below(self@, target as int, n as int) =~= self@.can_reach(name@));
        proof {
            lemma_reaches_itself(self@.arcs(), target as int);
            assert(index_set(nodes@).contains(target as int));
            let j = choose|j: int| 0 <= j < nodes@.len() && nodes@[j] == target as int;
            assert(nodes@[j] == target);
        }
        nodes
    }

    /// Appends the line of the node `i`.
    fn push_node_line(&self, out: &mut String, highlight: &Option<Vec<usize>>, i: usize)
        requires
            self.wf(),
            i < self@.nodes.len(),
        ensures
            final(out)@ == old(out)@ + node_line(self@, marked(highlight), i as int),
    {
        out.append("        ");
        push_decimal(out, i);
        out.append(" [ label = \"");
        out.append(self.cards[i].name.as_str());
        out.append("\" ");
        if self.node_is_isolated(i) {
            out.append("style=filled fillcolor=2");
        }
        out.append(" ");
        if is_marked(highlight, i) {
            out.append("style=filled fillcolor=11");
        }
        out.append("]\n");
        assert(out@ =~= old(out)@ + node_line(self@, marked(highlight), i as int));
    }

    /// Appends the cluster of the cost `cost`.
    fn push_cluster(&self, out: &mut String, highlight: &Option<Vec<usize>>, cost: u8)
        requires
            self.wf(),
        ensures
            final(out)@ == old(out)@ + cluster(self@, marked(highlight), cost as int),
    {
        let n = self.cards.len();
        let mut lines = String::new();
        let mut any = false;
        let mut i: usize = 0;
        while i < n
            invariant
                self.wf(),
                n == self@.nodes.len(),
                i <= n,
                lines@ == cluster_nodes(self@, marked(highlight), cost as int, i as int),
                any == has_cost(self@, cost as int, i as int),
            decreases n - i,
        {
            if self.cards[i].cmc == cost {
                self.push_node_line(&mut lines, highlight, i);
                any = true;
            } else {
                assert(lines@ + Seq::<char>::empty() =~= lines@);
            }
            i += 1;
        }
        if any {
            out.append("    subgraph cluster_");
            push_decimal(out, cost as usize);
            out.append(" {\n");
            out.append(lines.as_str());
            out.append("       label = \"");
            push_decimal(out, cost as usize);
            out.append("\"\n");
            out.append("   }\n");
        }
        assert(out@ =~= old(out)@ + cluster(self@, marked(highlight), cost as int));
    }

    /// Appends the line of the edge `e` in the colour `colour`.
    fn push_edge_line(&self, out: &mut String, highlight: &Option<Vec<usize>>, e: usize, colour: usize)
        requires
            self.wf(),
            e < self@.edges.len(),
            colour == color(self@, marked(highlight), e as int),
        ensures
            final(out)@ == old(out)@ + edge_line(self@, marked(highlight), e as int),
    {
        let ends = self.edge_endpoints(e);
        let label = self.edge_label(e);
        push_decimal(out, ends.0);
        out.append(" -> ");
        push_decimal(out, ends.1);
        out.append(" [ label = \"");
        out.append(label.as_str());
        out.append("\" color=");
        push_decimal(out, colour);
        out.append(" fontcolor=");
        push_decimal(out, colour);
        out.append("]\n");
        assert(out@ =~= old(out)@ + edge_line(self@, marked(highlight), e as int));
    }

    /// The document of the graph, in the language of Graphviz. With a
    /// target, the nodes that reach the first node whose card's name holds
    /// it are highlighted, and only the edges among them are drawn.
    pub fn to_img(&self, draw_path_to: Option<&str>) -> (doc: String)
        requires
            self.wf(),
        ensures
            doc@ == document(self@, self@.highlight(target_text(draw_path_to))),
    {
        let highlight: Option<Vec<usize>> = match draw_path_to {
            Some(name) => Some(self.nodes_that_can_reach(name)),
            None => None,
        };
        assert(marked(&highlight) == self@.highlight(target_text(draw_path_to)));
        let mut out = String::from_str(
            "digraph {\n    node [colorscheme=spectral11]\nedge [colorscheme=dark28]\n",
        );
        assert(out@ =~= header() + clusters(self@, marked(&highlight), 0));
        let mut cost: u8 = 0;
        loop
            invariant_except_break
                self.wf(),
                out@ == header() + clusters(self@, marked(&highlight), cost as int),
            ensures
                out@ == header() + clusters(self@, marked(&highlight), 256),
            decreases 256 - cost,
        {
            let ghost before = out@;
            self.push_cluster(&mut out, &highlight, cost);
            assert(out@ =~= header() + clusters(self@, marked(&highlight), cost + 1)) by {
                assert(out@ == before + cluster(self@, marked(&highlight), cost as int));
                assert(before + cluster(self@, marked(&highlight), cost as int) =~= header() + (
                clusters(self@, marked(&highlight), cost as int) + cluster(
                    self@,
                    marked(&highlight),
                    cost as int,
                )));
            }
            if cost == 255 {
                break;
            }
            cost += 1;
        }
        let m = self.labels.len();
        let mut seen: Vec<String> = Vec::new();
        let mut e: usize = 0;
        assert(out@ =~= header() + clusters(self@, marked(&highlight), 256) + edge_lines(
            self@,
            marked(&highlight),
            0,
        ));
        assert(texts(seen@) =~= seen_labels(self@, marked(&highlight), 0));
        while e < m
            invariant
                self.wf(),
                m == self@.edges.len(),
                e <= m,
                out@ == header() + clusters(self@, marked(&highlight), 256) + edge_lines(
                    self@,
                    marked(&highlight),
                    e as int,
                ),
                texts(seen@) == seen_labels(self@, marked(&highlight), e as int),
                seen@.len() <= e,
            decreases m - e,
        {
            let ghost before = out@;
            let ghost labels = texts(seen@);
            let ends = self.edge_endpoints(e);
            let drawn = match &highlight {
                Some(nodes) => holds_index(nodes, ends.0) && holds_index(nodes, ends.1),
                None => true,
            };
            assert(drawn == shown(self@, marked(&highlight), e as int));
            if drawn {
                let label = self.edge_label(e);
                let at = find_text(&seen, &label);
                if at == seen.len() {
                    seen.push(label);
                    assert(texts(seen@) =~= labels.push(self@.edges[e as int].label));
                    assert(texts(seen@).drop_last() =~= labels);
                }
                assert(texts(seen@) == seen_labels(self@, marked(&highlight), e + 1));
                self.push_edge_line(&mut out, &highlight, e, at + 1);
                assert(out@ =~= header() + clusters(self@, marked(&highlight), 256) + edge_lines(
                    self@,
                    marked(&highlight),
                    e + 1,
                )) by {
                    assert(out@ == before + edge_line(self@, marked(&highlight), e as int));
                    assert(before + edge_line(self@, marked(&highlight), e as int) =~= header()
                        + clusters(self@, marked(&highlight), 256) + (edge_lines(
                        self@,
                        marked(&highlight),
                        e as int,
                    ) + edge_line(self@, marked(&highlight), e as int)));
                }
            } else {
                assert(edge_lines(self@, marked(&highlight), e as int) + Seq::<char>::empty()
                    =~= edge_lines(self@, marked(&highlight), e as int));
            }
            e += 1;
        }
        out.append("}");
        out
    }
}

/// The text of a target, if one is given.
pub open spec fn target_text(draw_path_to: Option<&str>) -> Option<Seq<char>> {
    match draw_path_to {
        Some(name) => Some(name@),
        None => None,
    }
}

/// The highlight set that a list of nodes stands for, if there is a list.
spec fn marked(highlight: &Option<Vec<usize>>) -> Option<Set<int>> {
    match highlight {
        Some(nodes) => Some(index_set(nodes@)),
        None => None,
    }
}

/// Whether `nodes` holds the number `n`.
fn holds_index(nodes: &Vec<usize>, n: usize) -> (found: bool)
    ensures
        found == index_set(nodes@).contains(n as int),
{
    let mut j: usize = 0;
    while j < nodes.len()
        invariant
            j <= nodes.len(),
            forall|k: int| 0 <= k < j ==> nodes@[k] != n,
        decreases nodes.len() - j,
    {
        if nodes[j] == n {
            return true;
        }
        j += 1;
    }
    false
}

/// Whether there is a highlight list and it holds the node `i`.
fn is_marked(highlight: &Option<Vec<usize>>, i: usize) -> (found: bool)
    ensures
        found == match marked(highlight) {
            Some(set) => set.contains(i as int),
            None => false,
        },
{
    match highlight {
        Some(nodes) => holds_index(nodes, i),
        None => false,
    }
}

} // verus!
