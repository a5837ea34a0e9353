//! The undirected graph: nodes in discovery order, and for each node the
//! ordered list of its distinct neighbors.

use crate::order::{names_of, Name};
use vstd::prelude::*;

verus! {

/// The mathematical content of a graph. Node `v` is the `v`-th identifier
/// discovered; `adj[v]` lists the neighbors of `v`, as node numbers, in the
/// order in which they were first linked to it.
pub struct GraphModel {
    pub names: Seq<Name>,
    pub adj: Seq<Seq<int>>,
}

impl GraphModel {
    /// The graph without nodes.
    pub open spec fn empty() -> GraphModel {
        GraphModel { names: Seq::empty(), adj: Seq::empty() }
    }

    /// Whether `w` is in the neighbor list of `v`.
    pub open spec fn linked(self, v: int, w: int) -> bool {
        0 <= v < self.adj.len() && self.adj[v].contains(w)
    }

    /// Every node has one identifier and one neighbor list, no identifier
    /// names two nodes, and every neighbor is a node of the graph.
    pub open spec fn well_shaped(self) -> bool {
        &&& self.adj.len() == self.names.len()
        &&& self.names.no_duplicates()
        &&& forall|v: int, w: int| #[trigger] self.linked(v, w) ==> 0 <= w < self.names.len()
    }

    /// No neighbor list names a node twice.
    pub open spec fn duplicate_free(self) -> bool {
        forall|v: int| 0 <= v < self.adj.len() ==> #[trigger] self.adj[v].no_duplicates()
    }

    /// A node is in the neighbor list of each of its own neighbors.
    pub open spec fn symmetric(self) -> bool {
        forall|v: int, w: int| #[trigger] self.linked(v, w) ==> self.linked(w, v)
    }

    /// No node is its own neighbor: no pair with two equal ends was fed.
    pub open spec fn loop_free(self) -> bool {
        forall|v: int| !#[trigger] self.linked(v, v)
    }

    /// What holds of every graph that the builder produces.
    pub open spec fn wf(self) -> bool {
        &&& self.well_shaped()
        &&& self.duplicate_free()
        &&& self.symmetric()
    }

    /// The neighbor list of node `v`, by identifier.
    pub open spec fn neighbor_names(self, v: int) -> Seq<Name> {
        Seq::new(self.adj[v].len(), |k: int| self.names[self.adj[v][k]])
    }

    /// The graph with a node for `name`, which is appended, without
    /// neighbors, unless the graph already has it.
    pub open spec fn with_node(self, name: Name) -> GraphModel {
        if self.names.contains(name) {
            self
        } else {
            GraphModel { names: self.names.push(name), adj: self.adj.push(Seq::empty()) }
        }
    }

    /// The graph with `w` in the neighbor list of `v`, where it is appended
    /// unless the list already has it.
    pub open spec fn with_link(self, v: int, w: int) -> GraphModel {
        if self.adj[v].contains(w) {
            self
        } else {
            GraphModel { names: self.names, adj: self.adj.update(v, self.adj[v].push(w)) }
        }
    }

    /// The graph after the pair `(a, b)` was fed to it: both ends are nodes,
    /// `a` discovered before `b`, and each is in the other's neighbor list.
    /// A pair with `a == b` makes the node its own neighbor.
    pub open spec fn add_edge(self, a: Name, b: Name) -> GraphModel {
        let g = self.with_node(a).with_node(b);
        let v = g.names.index_of(a);
        let w = g.names.index_of(b);
        g.with_link(v, w).with_link(w, v)
    }

    /// The graph built from a feed of pairs, taken in order.
    pub open spec fn from_pairs(pairs: Seq<(Name, Name)>) -> GraphModel
        decreases pairs.len(),
    {
        if pairs.len() == 0 {
            GraphModel::empty()
        } else {
            GraphModel::from_pairs(pairs.drop_last()).add_edge(pairs.last().0, pairs.last().1)
        }
    }
}

/// In a list without duplicates, an entry is found at its own position.
pub proof fn lemma_index_of_unique<A>(s: Seq<A>, i: int)
    requires
        s.no_duplicates(),
        0 <= i < s.len(),
    ensures
        s.index_of(s[i]) == i,
{
    let j = s.index_of(s[i]);
    assert(0 <= j < s.len() && s[j] == s[i]);
}

/// Adding a node keeps a graph well-formed.
pub proof fn lemma_with_node_wf(g: GraphModel, name: Name)
    requires
        g.wf(),
    ensures
        g.with_node(name).wf(),
        g.with_node(name).names.contains(name),
{
    let h = g.with_node(name);
    if g.names.contains(name) {
    } else {
        let n = g.names.len() as int;
        assert(h.names[n] == name);
        assert forall|v: int, w: int| #[trigger] h.linked(v, w) implies g.linked(v, w) by {
            if v == n {
                assert(h.adj[v] =~= Seq::<int>::empty());
            }
        }
        assert forall|v: int, w: int| #[trigger] h.linked(v, w) implies h.linked(w, v) by {
            assert(g.linked(v, w));
            assert(g.linked(w, v));
            assert(h.adj[w] == g.adj[w]);
        }
    }
}

/// What a new link changes: `w` joins the neighbors of `v`, and nothing else moves.
pub proof fn lemma_with_link_linked(g: GraphModel, v: int, w: int)
    requires
        0 <= v < g.adj.len(),
    ensures
        forall|x: int, y: int| #[trigger]
            g.with_link(v, w).linked(x, y) <==> g.linked(x, y) || (x == v && y == w),
        g.with_link(v, w).names == g.names,
        g.with_link(v, w).adj.len() == g.adj.len(),
{
    let h = g.with_link(v, w);
    assert forall|x: int, y: int| #[trigger]
        h.linked(x, y) <==> g.linked(x, y) || (x == v && y == w) by {
        if !g.adj[v].contains(w) && x == v {
            let row = g.adj[v];
            assert(h.adj[v] == row.push(w));
            if row.contains(y) {
                let k = row.index_of(y);
                assert(row.push(w)[k] == y);
            }
            assert(row.push(w)[row.len() as int] == w);
        }
    }
}

/// Adding a link between two nodes keeps what shapes a graph and keeps its
/// neighbor lists free of duplicates. (Symmetry waits for the link back.)
pub proof fn lemma_with_link_shape(g: GraphModel, v: int, w: int)
    requires
        g.well_shaped(),
        g.duplicate_free(),
        0 <= v < g.names.len(),
        0 <= w < g.names.len(),
    ensures
        g.with_link(v, w).well_shaped(),
        g.with_link(v, w).duplicate_free(),
{
    let h = g.with_link(v, w);
    lemma_with_link_linked(g, v, w);
    assert forall|x: int, y: int| #[trigger] h.linked(x, y) implies 0 <= y < h.names.len() by {
        if g.linked(x, y) {
        }
    }
    assert forall|x: int| 0 <= x < h.adj.len() implies #[trigger] h.adj[x].no_duplicates() by {
        assert(g.adj[x].no_duplicates());
    }
}

/// Feeding a pair to a well-formed graph gives a well-formed graph: the
/// neighbor relation stays symmetric and no neighbor list gains a duplicate.
pub proof fn lemma_add_edge_wf(g: GraphModel, a: Name, b: Name)
    requires
        g.wf(),
    ensures
        g.add_edge(a, b).wf(),
{
    lemma_with_node_wf(g, a);
    let g1 = g.with_node(a);
    lemma_with_node_wf(g1, b);
    let g2 = g1.with_node(b);
    assert(g2.names.contains(a)) by {
        let k = g1.names.index_of(a);
        assert(g2.names[k] == a);
    }
    let v = g2.names.index_of(a);
    let w = g2.names.index_of(b);
    let g3 = g2.with_link(v, w);
    lemma_with_link_linked(g2, v, w);
    lemma_with_link_shape(g2, v, w);
    let g4 = g3.with_link(w, v);
    lemma_with_link_linked(g3, w, v);
    lemma_with_link_shape(g3, w, v);
    assert forall|x: int, y: int| #[trigger] g4.linked(x, y) implies g4.linked(y, x) by {
        if g2.linked(x, y) {
            assert(g2.linked(y, x));
            assert(g3.linked(y, x));
        } else if x == v && y == w {
            assert(g4.linked(w, v));
        } else {
            assert(g3.linked(v, w));
        }
    }
}

/// Every graph built from a feed of pairs is well-formed.
pub proof fn lemma_from_pairs_wf(pairs: Seq<(Name, Name)>)
    ensures
        GraphModel::from_pairs(pairs).wf(),
    decreases pairs.len(),
{
    if pairs.len() > 0 {
        lemma_from_pairs_wf(pairs.drop_last());
        lemma_add_edge_wf(
            GraphModel::from_pairs(pairs.drop_last()),
            pairs.last().0,
            pairs.last().1,
        );
    }
}

/// Symmetry, by identifier: in a well-formed graph, `b` is in the neighbor
/// list of `a` exactly when `a` is in the neighbor list of `b`.
pub proof fn lemma_neighbors_symmetric(g: GraphModel, v: int, w: int)
    requires
        g.wf(),
        0 <= v < g.names.len(),
        0 <= w < g.names.len(),
    ensures
        g.neighbor_names(v).contains(g.names[w]) <==> g.neighbor_names(w).contains(g.names[v]),
{
    lemma_neighbor_names_contains(g, v, w);
    lemma_neighbor_names_contains(g, w, v);
    if g.linked(v, w) {
        assert(g.linked(w, v));
    }
    if g.linked(w, v) {
        assert(g.linked(v, w));
    }
}

/// A node's identifier is in a neighbor list by identifier exactly when the
/// node is in the list.
pub proof fn lemma_neighbor_names_contains(g: GraphModel, v: int, w: int)
    requires
        g.well_shaped(),
        0 <= v < g.names.len(),
        0 <= w < g.names.len(),
    ensures
        g.neighbor_names(v).contains(g.names[w]) <==> g.linked(v, w),
{
    let row = g.neighbor_names(v);
    if row.contains(g.names[w]) {
        let k = row.index_of(g.names[w]);
        let x = g.adj[v][k];
        assert(g.linked(v, x));
        assert(g.names[x] == g.names[w]);
    }
    if g.linked(v, w) {
        let k = g.adj[v].index_of(w);
        assert(row[k] == g.names[w]);
    }
}

/// No duplicates, by identifier: in a well-formed graph no identifier
/// appears twice in a neighbor list.
pub proof fn lemma_neighbor_names_distinct(g: GraphModel, v: int)
    requires
        g.wf(),
        0 <= v < g.names.len(),
    ensures
        g.neighbor_names(v).no_duplicates(),
{
    let row = g.neighbor_names(v);
    assert(g.adj[v].no_duplicates());
    assert forall|i: int, j: int| 0 <= i < row.len() && 0 <= j < row.len() && i != j implies row[i]
        != row[j] by {
        assert(g.linked(v, g.adj[v][i]));
        assert(g.linked(v, g.adj[v][j]));
    }
}

/// The numbers held in a list of machine integers.
pub open spec fn ints(s: Seq<usize>) -> Seq<int> {
    Seq::new(s.len(), |k: int| s[k] as int)
}

/// An undirected graph, built once from a feed of identifier pairs.
///
/// A pair whose two ends are the same identifier is accepted: it makes that
/// node its own neighbor, once.
#[derive(Debug, Clone, PartialEq, Eq)]
pub struct Graph {
    nodes: Vec<String>,
    neighbors: Vec<Vec<usize>>,
}

impl View for Graph {
    type V = GraphModel;

    closed spec fn view(&self) -> GraphModel {
        GraphModel {
            names: names_of(self.nodes@),
            adj: Seq::new(self.neighbors@.len(), |v: int| ints(self.neighbors@[v]@)),
        }
    }
}

/// The position of `name` in `names`, if it is there.
fn position(names: &Vec<String>, name: &String) -> (found: Option<usize>)
    ensures
        match found {
            Some(v) => v < names.len() && names[v as int]@ == name@,
            None => !names_of(names@).contains(name@),
        },
{
    let mut v: usize = 0;
    while v < names.len()
        invariant
            v <= names.len(),
            forall|k: int| 0 <= k < v ==> names[k]@ != name@,
        decreases names.len() - v,
    {
        if names[v] == *name {
            return Some(v);
        }
        v += 1;
    }
    proof {
        let all = names_of(names@);
        if all.contains(name@) {
            let k = all.index_of(name@);
            assert(names[k]@ == name@);
        }
    }
    None
}

/// Whether `w` is in `row`.
fn holds(row: &Vec<usize>, w: usize) -> (found: bool)
    ensures
        found == ints(row@).contains(w as int),
{
    let mut k: usize = 0;
    while k < row.len()
        invariant
            k <= row.len(),
            forall|i: int| 0 <= i < k ==> row[i] != w,
        decreases row.len() - k,
    {
        if row[k] == w {
            assert(ints(row@)[k as int] == w as int);
            return true;
        }
        k += 1;
    }
    proof {
        let all = ints(row@);
        if all.contains(w as int) {
            let i = all.index_of(w as int);
            assert(row[i] == w);
        }
    }
    false
}

impl Graph {
    /// Whether the graph is one that the builder produces.
    pub open spec fn wf(&self) -> bool {
        self@.wf()
    }

    /// The graph without nodes.
    pub fn new() -> (g: Graph)
        ensures
            g@ == GraphModel::empty(),
            g.wf(),
    {
        let g = Graph { nodes: Vec::new(), neighbors: Vec::new() };
        assert(g@.names =~= Seq::<Name>::empty());
        assert(g@.adj =~= Seq::<Seq<int>>::empty());
        g
    }

    /// The number of nodes.
    pub fn node_count(&self) -> (n: usize)
        ensures
            n == self@.names.len(),
    {
        self.nodes.len()
    }

    /// The identifier of node `v`.
    pub fn name(&self, v: usize) -> (name: &String)
        requires
            v < self@.names.len(),
        ensures
            name@ == self@.names[v as int],
    {
        &self.nodes[v]
    }

    /// The node that `name` identifies, if there is one.
    pub fn find(&self, name: &String) -> (found: Option<usize>)
        ensures
            match found {
                Some(v) => v < self@.names.len() && self@.names[v as int] == name@,
                None => !self@.names.contains(name@),
            },
    {
        position(&self.nodes, name)
    }

    /// The number of neighbors of node `v`.
    pub fn degree(&self, v: usize) -> (d: usize)
        requires
            self.wf(),
            v < self@.names.len(),
        ensures
            d == self@.adj[v as int].len(),
    {
        self.neighbors[v].len()
    }

    /// The `k`-th neighbor of node `v`.
    pub fn neighbor(&self, v: usize, k: usize) -> (w: usize)
        requires
            self.wf(),
            v < self@.names.len(),
            k < self@.adj[v as int].len(),
        ensures
            w == self@.adj[v as int][k as int],
            w < self@.names.len(),
    {
        let w = self.neighbors[v][k];
        assert(self@.adj[v as int][k as int] == w);
        assert(self@.linked(v as int, w as int));
        w
    }

    /// The node for `name`, which is appended to the graph if it is new.
    fn intern(&mut self, name: &String) -> (v: usize)
        requires
            old(self)@.wf(),
        ensures
            final(self)@ == old(self)@.with_node(name@),
            v == final(self)@.names.index_of(name@),
            v < final(self)@.names.len(),
    {
        proof {
            lemma_with_node_wf(self@, name@);
        }
        match position(&self.nodes, name) {
            Some(v) => {
                proof {
                    lemma_index_of_unique(self@.names, v as int);
                }
                v
            },
            None => {
                let v = self.nodes.len();
                let ghost before = self@;
                self.nodes.push(name.clone());
                self.neighbors.push(Vec::new());
                proof {
                    assert(self@.names =~= before.names.push(name@));
                    assert(self@.adj[v as int] =~= Seq::<int>::empty());
                    assert(self@.adj =~= before.adj.push(Seq::empty()));
                    lemma_index_of_unique(self@.names, v as int);
                }
                v
            },
        }
    }

    /// Puts `w` in the neighbor list of `v`, unless it is there.
    fn link(&mut self, v: usize, w: usize)
        requires
            old(self)@.well_shaped(),
            v < old(self)@.names.len(),
        ensures
            final(self)@ == old(self)@.with_link(v as int, w as int),
    {
        if !holds(&self.neighbors[v], w) {
            let ghost before = self@;
            self.neighbors[v].push(w);
            proof {
                assert(self@.names == before.names);
                assert(self@.adj[v as int] =~= before.adj[v as int].push(w as int));
                assert(self@.adj =~= before.adj.update(
                    v as int,
                    before.adj[v as int].push(w as int),
                ));
            }
        }
    }

    /// Feeds one pair to the graph. Both identifiers become nodes, in this
    /// order, where they are new; each joins the end of the other's neighbor
    /// list, unless it is already in it.
    pub fn add_edge(&mut self, edge: (String, String))
        requires
            old(self).wf(),
        ensures
            final(self)@ == old(self)@.add_edge(edge.0@, edge.1@),
            final(self).wf(),
    {
        proof {
            lemma_add_edge_wf(self@, edge.0@, edge.1@);
            lemma_with_node_wf(self@, edge.0@);
            lemma_with_node_wf(self@.with_node(edge.0@), edge.1@);
        }
        let v = self.intern(&edge.0);
        let w = self.intern(&edge.1);
        proof {
            let g = self@;
            assert(g.names[v as int] == edge.0@);
            lemma_index_of_unique(g.names, v as int);
            lemma_with_link_shape(g, v as int, w as int);
        }
        self.link(v, w);
        self.link(w, v);
    }

    /// The identifiers of the nodes, in discovery order.
    pub fn node_names(&self) -> (names: Vec<String>)
        ensures
            names_of(names@) == self@.names,
    {
        let mut names: Vec<String> = Vec::new();
        let mut v: usize = 0;
        while v < self.nodes.len()
            invariant
                v <= self.nodes.len(),
                names@.len() == v,
                forall|u: int| 0 <= u < v ==> (#[trigger] names@[u])@ == self.nodes@[u]@,
            decreases self.nodes.len() - v,
        {
            names.push(self.nodes[v].clone());
            v += 1;
        }
        assert(names_of(names@) =~= self@.names);
        names
    }

    /// The identifiers of the neighbors of node `v`, in the order in which
    /// they were linked to it.
    pub fn neighbor_names(&self, v: usize) -> (names: Vec<String>)
        requires
            self.wf(),
            v < self@.names.len(),
        ensures
            names_of(names@) == self@.neighbor_names(v as int),
    {
        let d = self.degree(v);
        let mut names: Vec<String> = Vec::new();
        let mut k: usize = 0;
        while k < d
            invariant
                self.wf(),
                v < self@.names.len(),
                d == self@.adj[v as int].len(),
                k <= d,
                names@.len() == k,
                forall|i: int|
                    0 <= i < k ==> (#[trigger] names@[i])@ == self@.names[self@.adj[v as int][i]],
            decreases d - k,
        {
            let w = self.neighbor(v, k);
            names.push(self.name(w).clone());
            k += 1;
        }
        assert(names_of(names@) =~= self@.neighbor_names(v as int));
        names
    }

    /// The identifiers of the neighbors of the node that `name` identifies,
    /// if there is such a node.
    pub fn neighbors_of(&self, name: &String) -> (found: Option<Vec<String>>)
        requires
            self.wf(),
        ensures
            match found {
                Some(names) => {
                    &&& self@.names.contains(name@)
                    &&& names_of(names@) == self@.neighbor_names(self@.names.index_of(name@))
                },
                None => !self@.names.contains(name@),
            },
    {
        match self.find(name) {
            Some(v) => {
                proof {
                    lemma_index_of_unique(self@.names, v as int);
                }
                Some(self.neighbor_names(v))
            },
            None => None,
        }
    }
}

/// The identifiers of a feed of pairs.
pub open spec fn pair_names(pairs: Seq<(String, String)>) -> Seq<(Name, Name)> {
    Seq::new(pairs.len(), |i: int| (pairs[i].0@, pairs[i].1@))
}

/// Builds the graph of a feed of pairs, taken in order.
pub fn build_graph(pairs: &Vec<(String, String)>) -> (graph: Graph)
    ensures
        graph@ == GraphModel::from_pairs(pair_names(pairs@)),
        graph.wf(),
{
    let mut graph = Graph::new();
    let ghost feed = pair_names(pairs@);
    let mut i: usize = 0;
    assert(feed.take(0) =~= Seq::<(Name, Name)>::empty());
    while i < pairs.len()
        invariant
            i <= pairs.len(),
            feed == pair_names(pairs@),
            graph@ == GraphModel::from_pairs(feed.take(i as int)),
            graph.wf(),
        decreases pairs.len() - i,
    {
        let a = pairs[i].0.clone();
        let b = pairs[i].1.clone();
        proof {
            let upto = feed.take(i + 1);
            assert(upto.drop_last() =~= feed.take(i as int));
            assert(upto.last() == (a@, b@));
        }
        graph.add_edge((a, b));
        i += 1;
    }
    assert(feed.take(i as int) =~= feed);
    graph
}

} // verus!