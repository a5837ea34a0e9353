//! The cycle enumerator: a depth-first walk with resumable neighbor cursors.
//!
//! One call of [`get_cycles`] makes one pass for each node of the graph, in
//! node order. A pass walks depth-first from its start node, never deeper
//! than the length bound, and reads each neighbor list through a cursor that
//! keeps its place when its node leaves the path and comes back. When the
//! walk meets a neighbor that is on the path, and the stretch of path from
//! there to the top is as long as the bound, the sorted identifiers of that
//! stretch are offered to the cycle set. A node whose pass is over is retired:
//! later passes of the same call neither step on it nor close a cycle at it.

use crate::cursor::{offsets_of, table_fits, Cursor};
use crate::cycles::{
    absorb, lemma_absorb_concat, lemma_absorb_distinct, lemma_absorb_extends,
    lemma_absorb_members, lemma_absorb_twice, record, CycleSet, Record,
};
use crate::graph::{ints, lemma_index_of_unique, Graph, GraphModel};
use crate::order::{
    canonical, is_canonical, lemma_canonical_members, names_of, sort_names, Name,
};
use vstd::prelude::*;

verus! {

/// The state of a pass: the path from the start node to the active node, and
/// how far the cursor of each node has read.
pub struct Walk {
    pub path: Seq<int>,
    pub offsets: Seq<int>,
}

impl Walk {
    /// The walk at the start of the pass for `start`, with cursors copied from `starts`.
    pub open spec fn begin(start: int, starts: Seq<int>) -> Walk {
        Walk { path: seq![start], offsets: starts }
    }

    /// The path holds nodes of `g`, and each cursor stands within its list.
    pub open spec fn fits(self, g: GraphModel) -> bool {
        &&& self.offsets.len() == g.adj.len()
        &&& forall|v: int|
            0 <= v < g.adj.len() ==> 0 <= #[trigger] self.offsets[v] <= g.adj[v].len()
        &&& forall|k: int| 0 <= k < self.path.len() ==> 0 <= #[trigger] self.path[k] < g.adj.len()
    }

    /// The active node.
    pub open spec fn top(self) -> int {
        self.path.last()
    }

    /// The cursor of the active node is at the end of its list.
    pub open spec fn exhausted(self, g: GraphModel) -> bool {
        self.offsets[self.top()] >= g.adj[self.top()].len()
    }

    /// The neighbor that the cursor of the active node yields next.
    pub open spec fn offered(self, g: GraphModel) -> int {
        g.adj[self.top()][self.offsets[self.top()]]
    }

    /// The offsets after the cursor of the active node moved on by one.
    pub open spec fn consumed(self) -> Seq<int> {
        self.offsets.update(self.top(), self.offsets[self.top()] + 1)
    }
}

/// In the pass for `start`, the nodes before it in node order are retired.
pub open spec fn retired(start: int, v: int) -> bool {
    v < start
}

/// The walk after one more reading of the active node's cursor. At the end
/// of the list the active node leaves the path. A neighbor that is live, off
/// the path and within the bound becomes the active node. Any other neighbor
/// is passed over.
pub open spec fn step(g: GraphModel, bound: nat, start: int, w: Walk) -> Walk {
    if w.exhausted(g) {
        Walk { path: w.path.drop_last(), offsets: w.offsets }
    } else if !retired(start, w.offered(g)) && !w.path.contains(w.offered(g)) && w.path.len()
        < bound {
        Walk { path: w.path.push(w.offered(g)), offsets: w.consumed() }
    } else {
        Walk { path: w.path, offsets: w.consumed() }
    }
}

/// The stretch of path that the next reading closes into a cycle, if it does:
/// the neighbor read is live and on the path, and the path from it to the
/// active node is at least as long as the bound.
pub open spec fn closing_span(g: GraphModel, bound: nat, start: int, w: Walk) -> Option<Seq<int>> {
    if !w.exhausted(g) && !retired(start, w.offered(g)) && w.path.contains(w.offered(g))
        && w.path.len() - w.path.index_of(w.offered(g)) >= bound {
        Some(w.path.subrange(w.path.index_of(w.offered(g)), w.path.len() as int))
    } else {
        None
    }
}

/// The identifiers of a list of nodes.
pub open spec fn node_names(g: GraphModel, nodes: Seq<int>) -> Seq<Name> {
    Seq::new(nodes.len(), |k: int| g.names[nodes[k]])
}

/// The record of a list of nodes: their identifiers, sorted.
pub open spec fn record_of(g: GraphModel, nodes: Seq<int>) -> Record {
    canonical(node_names(g, nodes))
}

/// The neighbor slots that the cursors of the first `upto` nodes have not read.
pub open spec fn slots_left(g: GraphModel, offsets: Seq<int>, upto: int) -> int
    decreases upto,
{
    if upto <= 0 {
        0
    } else {
        slots_left(g, offsets, upto - 1) + (g.adj[upto - 1].len() - offsets[upto - 1])
    }
}

/// A bound on the readings that a walk has left: every reading moves a cursor
/// or shortens the path.
pub open spec fn work_left(g: GraphModel, w: Walk) -> int {
    2 * slots_left(g, w.offsets, g.adj.len() as int) + w.path.len()
}

proof fn lemma_slots_left_bounds(g: GraphModel, offsets: Seq<int>, upto: int)
    requires
        0 <= upto <= g.adj.len(),
        forall|v: int| 0 <= v < upto ==> 0 <= #[trigger] offsets[v] <= g.adj[v].len(),
    ensures
        slots_left(g, offsets, upto) >= 0,
    decreases upto,
{
    if upto > 0 {
        lemma_slots_left_bounds(g, offsets, upto - 1);
        assert(offsets[upto - 1] <= g.adj[upto - 1].len());
    }
}

proof fn lemma_slots_left_update(g: GraphModel, offsets: Seq<int>, upto: int, v: int, x: int)
    requires
        0 <= upto <= offsets.len(),
        0 <= v < offsets.len(),
    ensures
        slots_left(g, offsets.update(v, x), upto) == slots_left(g, offsets, upto) - if v < upto {
            x - offsets[v]
        } else {
            0
        },
    decreases upto,
{
    if upto > 0 {
        lemma_slots_left_update(g, offsets, upto - 1, v, x);
    }
}

/// Every reading leaves less work: the walk of a pass ends.
pub proof fn lemma_step_less(g: GraphModel, bound: nat, start: int, w: Walk)
    requires
        w.fits(g),
        w.path.len() > 0,
    ensures
        0 <= work_left(g, step(g, bound, start, w)) < work_left(g, w),
{
    let n = g.adj.len() as int;
    let top = w.top();
    assert(0 <= top < n) by {
        assert(w.path[w.path.len() - 1] == top);
    }
    lemma_slots_left_bounds(g, w.offsets, n);
    if !w.exhausted(g) {
        lemma_slots_left_update(g, w.offsets, n, top, w.offsets[top] + 1);
        let after = w.consumed();
        assert forall|v: int| 0 <= v < n implies 0 <= #[trigger] after[v] <= g.adj[v].len() by {
            assert(0 <= w.offsets[v] <= g.adj[v].len());
        }
        lemma_slots_left_bounds(g, after, n);
    }
}

/// The records that the rest of a pass offers to the cycle set, in order.
pub open spec fn finds_from(g: GraphModel, bound: nat, start: int, w: Walk) -> Seq<Record>
    decreases work_left(g, w),
    when w.fits(g)
    via finds_from_ends
{
    if w.path.len() == 0 {
        Seq::empty()
    } else {
        let rest = finds_from(g, bound, start, step(g, bound, start, w));
        match closing_span(g, bound, start, w) {
            Some(span) => seq![record_of(g, span)] + rest,
            None => rest,
        }
    }
}

#[via_fn]
proof fn finds_from_ends(g: GraphModel, bound: nat, start: int, w: Walk) {
    if w.path.len() != 0 {
        lemma_step_less(g, bound, start, w);
    }
}

/// The records that the pass for `start` offers.
pub open spec fn pass_finds(g: GraphModel, starts: Seq<int>, bound: nat, start: int) -> Seq<Record> {
    finds_from(g, bound, start, Walk::begin(start, starts))
}

/// The records that the passes for the first `upto` nodes offer.
pub open spec fn sweep_finds(g: GraphModel, starts: Seq<int>, bound: nat, upto: nat) -> Seq<Record>
    decreases upto,
{
    if upto == 0 {
        Seq::empty()
    } else {
        sweep_finds(g, starts, bound, (upto - 1) as nat) + pass_finds(g, starts, bound, upto - 1)
    }
}

/// The cycle set after one call of the enumerator: `found`, and behind it,
/// in the order of discovery, each record that a pass offered and that was
/// not in the set by then.
pub open spec fn enumerate(g: GraphModel, starts: Seq<int>, bound: nat, found: Seq<Record>) -> Seq<
    Record,
> {
    absorb(found, sweep_finds(g, starts, bound, g.names.len()))
}

/// A reading keeps the walk within a well-shaped graph, and keeps the path
/// free of repeated nodes.
pub proof fn lemma_step_fits(g: GraphModel, bound: nat, start: int, w: Walk)
    requires
        g.well_shaped(),
        w.fits(g),
        w.path.len() > 0,
        w.path.no_duplicates(),
    ensures
        step(g, bound, start, w).fits(g),
        step(g, bound, start, w).path.no_duplicates(),
{
    let top = w.top();
    let next = step(g, bound, start, w);
    assert(0 <= top < g.adj.len()) by {
        assert(w.path[w.path.len() - 1] == top);
    }
    if !w.exhausted(g) {
        let nb = w.offered(g);
        assert(g.linked(top, nb)) by {
            assert(g.adj[top][w.offsets[top]] == nb);
        }
        assert forall|v: int| 0 <= v < g.adj.len() implies 0 <= #[trigger] next.offsets[v]
            <= g.adj[v].len() by {
            assert(0 <= w.offsets[v] <= g.adj[v].len());
        }
    }
}

/// One reading, seen from the cycle set: what the rest of the pass does to
/// `found` is what it does, after this reading, to `found` with the closed
/// cycle offered.
pub proof fn lemma_finds_unfold(
    g: GraphModel,
    bound: nat,
    start: int,
    w: Walk,
    found: Seq<Record>,
)
    requires
        g.well_shaped(),
        w.fits(g),
        w.path.len() > 0,
        w.path.no_duplicates(),
    ensures
        absorb(found, finds_from(g, bound, start, w)) == absorb(
            match closing_span(g, bound, start, w) {
                Some(span) => record(found, record_of(g, span)),
                None => found,
            },
            finds_from(g, bound, start, step(g, bound, start, w)),
        ),
{
    lemma_step_fits(g, bound, start, w);
    let rest = finds_from(g, bound, start, step(g, bound, start, w));
    match closing_span(g, bound, start, w) {
        Some(span) => {
            let all = seq![record_of(g, span)] + rest;
            assert(finds_from(g, bound, start, w) == all);
            assert(all.first() == record_of(g, span));
            assert(all.drop_first() =~= rest);
        },
        None => {
            assert(finds_from(g, bound, start, w) == rest);
        },
    }
}

/// Each node of the list has the next one among its neighbors.
pub open spec fn chained(g: GraphModel, nodes: Seq<int>) -> bool {
    forall|k: int| 0 <= k < nodes.len() - 1 ==> g.linked(#[trigger] nodes[k], nodes[k + 1])
}

/// The list is a closed path of the graph that visits no node twice: each
/// node has the next one among its neighbors, and the last one has the first.
pub open spec fn is_cycle(g: GraphModel, nodes: Seq<int>) -> bool {
    &&& nodes.len() > 0
    &&& nodes.no_duplicates()
    &&& chained(g, nodes)
    &&& g.linked(nodes.last(), nodes.first())
}

/// `r` is the record of a cycle of `len` nodes of the graph.
pub open spec fn is_cycle_record(g: GraphModel, len: nat, r: Record) -> bool {
    exists|nodes: Seq<int>| #[trigger]
        is_cycle(g, nodes) && nodes.len() == len && r == record_of(g, nodes)
}

/// The offsets are those of one cursor for each node, each within its list.
pub open spec fn starts_fit(g: GraphModel, starts: Seq<int>) -> bool {
    &&& starts.len() == g.adj.len()
    &&& forall|v: int| 0 <= v < g.adj.len() ==> 0 <= #[trigger] starts[v] <= g.adj[v].len()
}

/// What holds of the walk throughout a pass: its path is a path of the
/// graph, visits no node twice and is no longer than the bound.
pub open spec fn on_track(g: GraphModel, bound: nat, w: Walk) -> bool {
    &&& w.fits(g)
    &&& w.path.no_duplicates()
    &&& chained(g, w.path)
    &&& w.path.len() <= bound
}

proof fn lemma_step_on_track(g: GraphModel, bound: nat, start: int, w: Walk)
    requires
        g.well_shaped(),
        on_track(g, bound, w),
        w.path.len() > 0,
    ensures
        on_track(g, bound, step(g, bound, start, w)),
{
    lemma_step_fits(g, bound, start, w);
    let next = step(g, bound, start, w);
    let top = w.top();
    assert(0 <= top < g.adj.len()) by {
        assert(w.path[w.path.len() - 1] == top);
    }
    assert forall|k: int| 0 <= k < next.path.len() - 1 implies g.linked(
        #[trigger] next.path[k],
        next.path[k + 1],
    ) by {
        if k < w.path.len() - 1 {
            assert(g.linked(w.path[k], w.path[k + 1]));
        } else {
            assert(g.adj[top][w.offsets[top]] == w.offered(g));
        }
    }
}

proof fn lemma_closing_is_cycle(g: GraphModel, bound: nat, start: int, w: Walk)
    requires
        g.well_shaped(),
        bound >= 1,
        on_track(g, bound, w),
        w.path.len() > 0,
        closing_span(g, bound, start, w) is Some,
    ensures
        is_cycle_record(g, bound, record_of(g, closing_span(g, bound, start, w)->0)),
{
    let span = closing_span(g, bound, start, w)->0;
    let top = w.top();
    let nb = w.offered(g);
    let d = w.path.index_of(nb);
    assert(0 <= d < w.path.len() && w.path[d] == nb);
    assert(0 <= top < g.adj.len()) by {
        assert(w.path[w.path.len() - 1] == top);
    }
    assert(g.linked(top, nb)) by {
        assert(g.adj[top][w.offsets[top]] == nb);
    }
    assert forall|k: int| 0 <= k < span.len() - 1 implies g.linked(
        #[trigger] span[k],
        span[k + 1],
    ) by {
        assert(g.linked(w.path[d + k], w.path[d + k + 1]));
    }
    assert(is_cycle(g, span));
}

/// Every record that the rest of a pass offers is the record of a cycle of
/// the graph with as many nodes as the bound.
proof fn lemma_finds_sound(g: GraphModel, bound: nat, start: int, w: Walk, k: int)
    requires
        g.well_shaped(),
        bound >= 1,
        on_track(g, bound, w),
        0 <= k < finds_from(g, bound, start, w).len(),
    ensures
        is_cycle_record(g, bound, finds_from(g, bound, start, w)[k]),
    decreases work_left(g, w),
{
    if w.path.len() > 0 {
        let next = step(g, bound, start, w);
        lemma_step_less(g, bound, start, w);
        lemma_step_on_track(g, bound, start, w);
        let rest = finds_from(g, bound, start, next);
        match closing_span(g, bound, start, w) {
            Some(span) => {
                assert(finds_from(g, bound, start, w) == seq![record_of(g, span)] + rest);
                lemma_closing_is_cycle(g, bound, start, w);
                if k > 0 {
                    lemma_finds_sound(g, bound, start, next, k - 1);
                }
            },
            None => {
                assert(finds_from(g, bound, start, w) == rest);
                lemma_finds_sound(g, bound, start, next, k);
            },
        }
    }
}

/// Every record that the passes offer is the record of a cycle of the graph
/// with as many nodes as the bound.
proof fn lemma_sweep_sound(g: GraphModel, starts: Seq<int>, bound: nat, upto: nat, k: int)
    requires
        g.well_shaped(),
        starts_fit(g, starts),
        bound >= 1,
        upto <= g.names.len(),
        0 <= k < sweep_finds(g, starts, bound, upto).len(),
    ensures
        is_cycle_record(g, bound, sweep_finds(g, starts, bound, upto)[k]),
    decreases upto,
{
    if upto > 0 {
        let before = sweep_finds(g, starts, bound, (upto - 1) as nat);
        if k < before.len() {
            lemma_sweep_sound(g, starts, bound, (upto - 1) as nat, k);
        } else {
            let w = Walk::begin(upto - 1, starts);
            assert(on_track(g, bound, w));
            lemma_finds_sound(g, bound, upto - 1, w, k - before.len());
        }
    }
}

/// With a bound below 2 the path never grows past its start node, and only a
/// node that is its own neighbor closes a cycle.
proof fn lemma_short_bound_finds(g: GraphModel, bound: nat, start: int, w: Walk)
    requires
        g.well_shaped(),
        g.loop_free(),
        bound <= 1,
        w.fits(g),
        w.path.len() <= 1,
    ensures
        finds_from(g, bound, start, w) == Seq::<Record>::empty(),
    decreases work_left(g, w),
{
    if w.path.len() > 0 {
        let top = w.top();
        assert(w.path[0] == top);
        lemma_step_less(g, bound, start, w);
        lemma_step_fits(g, bound, start, w);
        if !w.exhausted(g) {
            let nb = w.offered(g);
            assert(g.linked(top, nb)) by {
                assert(g.adj[top][w.offsets[top]] == nb);
            }
            if w.path.contains(nb) {
                let k = w.path.index_of(nb);
                assert(w.path[k] == nb);
                assert(g.linked(top, top));
            }
        }
        assert(closing_span(g, bound, start, w) is None);
        lemma_short_bound_finds(g, bound, start, step(g, bound, start, w));
    }
}

proof fn lemma_short_bound_sweep(g: GraphModel, starts: Seq<int>, bound: nat, upto: nat)
    requires
        g.well_shaped(),
        g.loop_free(),
        starts_fit(g, starts),
        bound <= 1,
        upto <= g.names.len(),
    ensures
        sweep_finds(g, starts, bound, upto) == Seq::<Record>::empty(),
    decreases upto,
{
    if upto > 0 {
        lemma_short_bound_sweep(g, starts, bound, (upto - 1) as nat);
        lemma_short_bound_finds(g, bound, upto - 1, Walk::begin(upto - 1, starts));
    }
}

/// A bound of 0 or 1 leaves the cycle set as it was, on a graph in which no
/// node is its own neighbor.
pub proof fn lemma_short_bound_finds_nothing(
    g: GraphModel,
    starts: Seq<int>,
    bound: nat,
    found: Seq<Record>,
)
    requires
        g.wf(),
        g.loop_free(),
        starts_fit(g, starts),
        bound <= 1,
    ensures
        enumerate(g, starts, bound, found) == found,
{
    lemma_short_bound_sweep(g, starts, bound, g.names.len());
}

/// On a graph without nodes every call leaves the cycle set as it was.
pub proof fn lemma_empty_graph_finds_nothing(
    g: GraphModel,
    starts: Seq<int>,
    bound: nat,
    found: Seq<Record>,
)
    requires
        g.names.len() == 0,
    ensures
        enumerate(g, starts, bound, found) == found,
{
}

/// The set after a call holds the records it held before and the records
/// that the passes offered, and no others.
pub proof fn lemma_enumerate_members(
    g: GraphModel,
    starts: Seq<int>,
    bound: nat,
    found: Seq<Record>,
    r: Record,
)
    ensures
        enumerate(g, starts, bound, found).contains(r) <==> found.contains(r) || sweep_finds(
            g,
            starts,
            bound,
            g.names.len(),
        ).contains(r),
{
    lemma_absorb_members(found, sweep_finds(g, starts, bound, g.names.len()), r);
}

/// The record of a list of nodes has one identifier for each of them.
pub proof fn lemma_record_len(g: GraphModel, nodes: Seq<int>)
    ensures
        record_of(g, nodes).len() == nodes.len(),
        is_canonical(record_of(g, nodes)),
{
    lemma_canonical_members(node_names(g, nodes));
}

/// Length correctness: a record that a call of the enumerator adds is the
/// sorted list of the identifiers of a cycle of the graph, and has exactly as
/// many entries as the bound. Only a bound of 0 on a graph with a node that
/// is its own neighbor is left out: there the cycle of that one node is
/// recorded.
pub proof fn lemma_enumerate_sound(
    g: GraphModel,
    starts: Seq<int>,
    bound: nat,
    found: Seq<Record>,
    r: Record,
)
    requires
        g.wf(),
        starts_fit(g, starts),
        bound >= 1 || g.loop_free(),
        enumerate(g, starts, bound, found).contains(r),
        !found.contains(r),
    ensures
        is_cycle_record(g, bound, r),
        r.len() == bound,
        is_canonical(r),
{
    if bound == 0 {
        lemma_short_bound_finds_nothing(g, starts, bound, found);
    }
    let finds = sweep_finds(g, starts, bound, g.names.len());
    lemma_absorb_members(found, finds, r);
    let k = finds.index_of(r);
    lemma_sweep_sound(g, starts, bound, g.names.len(), k);
    let nodes = choose|nodes: Seq<int>| #[trigger]
        is_cycle(g, nodes) && nodes.len() == bound && r == record_of(g, nodes);
    lemma_record_len(g, nodes);
}

/// Canonical uniqueness: a call of the enumerator leaves no record twice in
/// a set that held none twice.
pub proof fn lemma_enumerate_distinct(
    g: GraphModel,
    starts: Seq<int>,
    bound: nat,
    found: Seq<Record>,
)
    requires
        found.no_duplicates(),
    ensures
        enumerate(g, starts, bound, found).no_duplicates(),
{
    lemma_absorb_distinct(found, sweep_finds(g, starts, bound, g.names.len()));
}

/// Monotonic accumulation: a call of the enumerator keeps every record of
/// the set, in place, so the number of records does not fall.
pub proof fn lemma_enumerate_extends(
    g: GraphModel,
    starts: Seq<int>,
    bound: nat,
    found: Seq<Record>,
)
    ensures
        found.is_prefix_of(enumerate(g, starts, bound, found)),
        found.len() <= enumerate(g, starts, bound, found).len(),
{
    lemma_absorb_extends(found, sweep_finds(g, starts, bound, g.names.len()));
}

/// Idempotence: a second call of the enumerator on the same graph, with the
/// same cursors and the same bound, leaves the cycle set as the first call
/// left it.
pub proof fn lemma_enumerate_twice(
    g: GraphModel,
    starts: Seq<int>,
    bound: nat,
    found: Seq<Record>,
)
    ensures
        enumerate(g, starts, bound, enumerate(g, starts, bound, found)) == enumerate(
            g,
            starts,
            bound,
            found,
        ),
{
    lemma_absorb_twice(found, sweep_finds(g, starts, bound, g.names.len()));
}

/// The walk that the data of a pass stands for.
spec fn walk_of(path: Seq<usize>, cursors: Seq<Cursor>) -> Walk {
    Walk { path: ints(path), offsets: offsets_of(cursors) }
}

/// The on-path index is exact: it gives each node on the path its depth, and
/// nothing to a node off the path.
spec fn index_exact(path: Seq<usize>, depth: Seq<Option<usize>>) -> bool {
    forall|v: int|
        0 <= v < depth.len() ==> match #[trigger] depth[v] {
            Some(d) => d < path.len() && path[d as int] == v,
            None => !ints(path).contains(v),
        }
}

/// The sorted identifiers of the nodes on `path` from depth `from` on.
fn span_record(graph: &Graph, path: &Vec<usize>, from: usize) -> (r: Vec<String>)
    requires
        graph.wf(),
        from <= path.len(),
        forall|k: int| 0 <= k < path.len() ==> #[trigger] path[k] < graph@.names.len(),
    ensures
        names_of(r@) == record_of(graph@, ints(path@).subrange(from as int, path.len() as int)),
{
    let ghost span = ints(path@).subrange(from as int, path.len() as int);
    let mut names: Vec<String> = Vec::new();
    let mut k: usize = from;
    while k < path.len()
        invariant
            graph.wf(),
            from <= k <= path.len(),
            forall|i: int| 0 <= i < path.len() ==> #[trigger] path[i] < graph@.names.len(),
            names@.len() == k - from,
            forall|i: int| 0 <= i < k - from ==> (#[trigger] names@[i])@ == graph@.names[path[from + i] as int],
        decreases path.len() - k,
    {
        names.push(graph.name(path[k]).clone());
        k += 1;
    }
    assert(names_of(names@) =~= node_names(graph@, span));
    sort_names(&names)
}

/// The pass for one start node: walks from it until the path is empty again,
/// and offers to `cycles` the record of each cycle that the walk closes.
fn explore(
    cycles: &mut CycleSet,
    start_iterators: &Vec<Cursor>,
    graph: &Graph,
    len_of_cycles: usize,
    start: usize,
)
    requires
        graph.wf(),
        table_fits(start_iterators@, graph@),
        start < graph@.names.len(),
    ensures
        final(cycles)@ == absorb(
            old(cycles)@,
            pass_finds(
                graph@,
                offsets_of(start_iterators@),
                len_of_cycles as nat,
                start as int,
            ),
        ),
{
    let n = graph.node_count();
    let ghost g = graph@;
    let ghost bound = len_of_cycles as nat;
    // Fresh cursors for this pass, and the on-path index: for a node on the
    // path, its depth in it.
    let mut cursors: Vec<Cursor> = Vec::new();
    let mut depth: Vec<Option<usize>> = Vec::new();
    let mut v: usize = 0;
    while v < n
        invariant
            graph.wf(),
            n == g.names.len(),
            g == graph@,
            table_fits(start_iterators@, g),
            v <= n,
            cursors@.len() == v,
            depth@.len() == v,
            forall|u: int| 0 <= u < v ==> (#[trigger] cursors@[u])@ == start_iterators@[u]@,
            forall|u: int| 0 <= u < v ==> (#[trigger] depth@[u]) is None,
        decreases n - v,
    {
        cursors.push(start_iterators[v]);
        depth.push(None);
        v += 1;
    }
    let mut path: Vec<usize> = Vec::new();
    path.push(start);
    depth[start] = Some(0);
    let ghost goal = absorb(
        cycles@,
        pass_finds(g, offsets_of(start_iterators@), bound, start as int),
    );
    proof {
        assert(offsets_of(cursors@) =~= offsets_of(start_iterators@));
        assert(ints(path@) =~= seq![start as int]);
        assert forall|v: int| 0 <= v < depth@.len() implies match #[trigger] depth@[v] {
            Some(d) => d < path@.len() && path@[d as int] == v,
            None => !ints(path@).contains(v),
        } by {
            if v != start && ints(path@).contains(v) {
                let k = ints(path@).index_of(v);
                assert(ints(path@)[k] == v);
            }
        }
    }
    while path.len() > 0
        invariant
            graph.wf(),
            g == graph@,
            n == g.names.len(),
            bound == len_of_cycles as nat,
            start < n,
            cursors@.len() == n,
            depth@.len() == n,
            table_fits(cursors@, g),
            walk_of(path@, cursors@).fits(g),
            ints(path@).no_duplicates(),
            index_exact(path@, depth@),
            absorb(cycles@, finds_from(g, bound, start as int, walk_of(path@, cursors@))) == goal,
        decreases work_left(g, walk_of(path@, cursors@)),
    {
        let ghost w = walk_of(path@, cursors@);
        let ghost held = cycles@;
        let ghost path0 = path@;
        let ghost depth0 = depth@;
        let top = path[path.len() - 1];
        proof {
            assert(ints(path@)[path@.len() - 1] == top);
            assert(w.top() == top);
            lemma_finds_unfold(g, bound, start as int, w, held);
            lemma_step_less(g, bound, start as int, w);
            lemma_step_fits(g, bound, start as int, w);
        }
        let next = cursors[top].advance(graph);
        assert(offsets_of(cursors@) =~= if next is Some {
            w.consumed()
        } else {
            w.offsets
        });
        assert(table_fits(cursors@, g));
        match next {
            None => {
                // The active node has no neighbor left: it leaves the path.
                path.pop();
                depth[top] = None;
                proof {
                    assert(ints(path@) =~= w.path.drop_last());
                    assert forall|v: int| 0 <= v < n implies match #[trigger] depth@[v] {
                        Some(d) => d < path@.len() && path@[d as int] == v,
                        None => !ints(path@).contains(v),
                    } by {
                        if ints(path@).contains(v) {
                            let k = ints(path@).index_of(v);
                            assert(ints(path0)[k] == v);
                            assert(ints(path0)[path0.len() - 1] == top);
                        }
                        if v != top {
                            assert(depth@[v] == depth0[v]);
                        }
                    }
                }
            },
            Some(nb) => {
                assert(nb == w.offered(g));
                // The nodes before `start` are retired.
                if nb >= start {
                    match depth[nb] {
                        None => {
                            // Off the path: the walk goes on there, if the
                            // bound lets the path grow.
                            if path.len() < len_of_cycles {
                                depth[nb] = Some(path.len());
                                path.push(nb);
                                proof {
                                    assert(ints(path@) =~= w.path.push(nb as int));
                                    assert forall|v: int| 0 <= v < n implies match #[trigger] depth@[v] {
                                        Some(d) => d < path@.len() && path@[d as int] == v,
                                        None => !ints(path@).contains(v),
                                    } by {
                                        if v != nb {
                                            assert(depth@[v] == depth0[v]);
                                            if ints(path@).contains(v) {
                                                let k = ints(path@).index_of(v);
                                                assert(ints(path0)[k] == v);
                                            }
                                        }
                                    }
                                }
                            }
                        },
                        Some(d) => {
                            // On the path, at depth `d`: the path from there
                            // to the active node closes into a cycle.
                            proof {
                                assert(ints(path@)[d as int] == nb);
                                lemma_index_of_unique(ints(path@), d as int);
                            }
                            if path.len() - d >= len_of_cycles {
                                assert forall|k: int| 0 <= k < path.len() implies #[trigger] path[k]
                                    < n by {
                                    assert(0 <= w.path[k] < n);
                                }
                                let r = span_record(graph, &path, d);
                                cycles.insert(r);
                            }
                        },
                    }
                }
            },
        }
        assert(walk_of(path@, cursors@) == step(g, bound, start as int, w));
    }
}

/// Enumerates the cycles of length `len_of_cycles` in `graph` and adds their
/// records to `cycles`.
///
/// Each pass copies its cursors from `start_iterators`, which are the
/// pristine cursors of the graph in ordinary use.
pub fn get_cycles(
    cycles: &mut CycleSet,
    start_iterators: &Vec<Cursor>,
    graph: &Graph,
    len_of_cycles: usize,
)
    requires
        old(cycles).wf(),
        graph.wf(),
        table_fits(start_iterators@, graph@),
    ensures
        final(cycles)@ == enumerate(
            graph@,
            offsets_of(start_iterators@),
            len_of_cycles as nat,
            old(cycles)@,
        ),
        final(cycles).wf(),
        old(cycles)@.is_prefix_of(final(cycles)@),
        len_of_cycles >= 1 || graph@.loop_free() ==> forall|r: Record| #[trigger]
            final(cycles)@.contains(r) && !old(cycles)@.contains(r) ==> r.len() == len_of_cycles
                && is_cycle_record(graph@, len_of_cycles as nat, r),
{
    proof {
        let g = graph@;
        let starts = offsets_of(start_iterators@);
        let bound = len_of_cycles as nat;
        let after = enumerate(g, starts, bound, cycles@);
        lemma_enumerate_distinct(g, starts, bound, cycles@);
        lemma_enumerate_extends(g, starts, bound, cycles@);
        if len_of_cycles >= 1 || g.loop_free() {
            assert forall|r: Record| #[trigger] after.contains(r) && !cycles@.contains(r) implies r.len()
                == len_of_cycles && is_cycle_record(g, bound, r) by {
                lemma_enumerate_sound(g, starts, bound, cycles@, r);
            }
        }
    }
    let n = graph.node_count();
    let ghost g = graph@;
    let ghost starts = offsets_of(start_iterators@);
    let ghost bound = len_of_cycles as nat;
    let ghost held = cycles@;
    let mut start: usize = 0;
    while start < n
        invariant
            graph.wf(),
            g == graph@,
            n == g.names.len(),
            starts == offsets_of(start_iterators@),
            bound == len_of_cycles as nat,
            table_fits(start_iterators@, g),
            start <= n,
            cycles@ == absorb(held, sweep_finds(g, starts, bound, start as nat)),
        decreases n - start,
    {
        proof {
            lemma_absorb_concat(
                held,
                sweep_finds(g, starts, bound, start as nat),
                pass_finds(g, starts, bound, start as int),
            );
        }
        explore(cycles, start_iterators, graph, len_of_cycles, start);
        start += 1;
    }
}

} // verus!
