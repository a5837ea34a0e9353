//! Neighbor cursors: resumable read positions in the neighbor lists of a graph.

use crate::graph::{Graph, GraphModel};
use vstd::prelude::*;

verus! {

/// Where a cursor stands: at `offset` in the neighbor list of `node`.
pub struct Place {
    pub node: int,
    pub offset: int,
}

impl Place {
    /// The cursor stands in a neighbor list of `g`, at most at its end.
    pub open spec fn fits(self, g: GraphModel) -> bool {
        &&& 0 <= self.node < g.adj.len()
        &&& 0 <= self.offset <= g.adj[self.node].len()
    }
}

/// A read position in the neighbor list of one node. A copy of a cursor
/// moves on its own.
#[derive(Clone, Copy, Debug, PartialEq, Eq)]
pub struct Cursor {
    node: usize,
    offset: usize,
}

impl View for Cursor {
    type V = Place;

    closed spec fn view(&self) -> Place {
        Place { node: self.node as int, offset: self.offset as int }
    }
}

impl Cursor {
    /// A cursor at the start of the neighbor list of `node`.
    pub fn at_start(node: usize) -> (c: Cursor)
        ensures
            c@ == (Place { node: node as int, offset: 0 }),
    {
        Cursor { node, offset: 0 }
    }

    /// The node whose neighbor list the cursor reads.
    pub fn node(&self) -> (v: usize)
        ensures
            v == self@.node,
    {
        self.node
    }

    /// The number of neighbors that the cursor has yielded.
    pub fn offset(&self) -> (k: usize)
        ensures
            k == self@.offset,
    {
        self.offset
    }

    /// Yields the next neighbor and moves past it, or yields nothing, and
    /// stays, at the end of the list.
    pub fn advance(&mut self, graph: &Graph) -> (next: Option<usize>)
        requires
            graph.wf(),
            old(self)@.fits(graph@),
        ensures
            final(self)@.fits(graph@),
            final(self)@.node == old(self)@.node,
            match next {
                Some(w) => {
                    &&& old(self)@.offset < graph@.adj[old(self)@.node].len()
                    &&& w == graph@.adj[old(self)@.node][old(self)@.offset]
                    &&& w < graph@.names.len()
                    &&& final(self)@.offset == old(self)@.offset + 1
                },
                None => {
                    &&& old(self)@.offset == graph@.adj[old(self)@.node].len()
                    &&& final(self)@ == old(self)@
                },
            },
    {
        if self.offset < graph.degree(self.node) {
            let w = graph.neighbor(self.node, self.offset);
            self.offset = self.offset + 1;
            Some(w)
        } else {
            None
        }
    }
}

/// The offsets of a table of cursors.
pub open spec fn offsets_of(table: Seq<Cursor>) -> Seq<int> {
    Seq::new(table.len(), |v: int| table[v]@.offset)
}

/// The table has one cursor for each node of `g`, in node order, each within
/// its node's neighbor list.
pub open spec fn table_fits(table: Seq<Cursor>, g: GraphModel) -> bool {
    &&& table.len() == g.adj.len()
    &&& forall|v: int| 0 <= v < table.len() ==> (#[trigger] table[v])@.node == v && table[v]@.fits(g)
}

/// The offsets of the pristine table of a graph with `n` nodes: all zero.
pub open spec fn pristine(n: nat) -> Seq<int> {
    Seq::new(n, |v: int| 0int)
}

/// The pristine cursors of a graph: one for each node, at the start of its
/// neighbor list. Every pass of the enumerator copies its cursors from such a
/// table.
pub fn pristine_cursors(graph: &Graph) -> (table: Vec<Cursor>)
    requires
        graph.wf(),
    ensures
        table_fits(table@, graph@),
        offsets_of(table@) == pristine(graph@.names.len()),
{
    let n = graph.node_count();
    let mut table: Vec<Cursor> = Vec::new();
    let mut v: usize = 0;
    while v < n
        invariant
            graph.wf(),
            n == graph@.names.len(),
            v <= n,
            table@.len() == v,
            forall|u: int| 0 <= u < v ==> (#[trigger] table@[u])@ == (Place { node: u, offset: 0 }),
        decreases n - v,
    {
        table.push(Cursor::at_start(v));
        v += 1;
    }
    assert(offsets_of(table@) =~= pristine(graph@.names.len()));
    table
}

/// Whether `table` is a table of cursors for `graph`.
pub fn is_table_for(table: &Vec<Cursor>, graph: &Graph) -> (fits: bool)
    requires
        graph.wf(),
    ensures
        fits == table_fits(table@, graph@),
{
    let n = graph.node_count();
    if table.len() != n {
        return false;
    }
    let mut v: usize = 0;
    while v < n
        invariant
            graph.wf(),
            n == graph@.names.len(),
            table@.len() == n,
            v <= n,
            forall|u: int| 0 <= u < v ==> (#[trigger] table@[u])@.node == u && table@[u]@.fits(graph@),
        decreases n - v,
    {
        if table[v].node() != v || table[v].offset() > graph.degree(v) {
            return false;
        }
        v += 1;
    }
    true
}

} // verus!
