//! The run over several cycle lengths, all recorded in one cycle set.

use crate::cursor::{offsets_of, pristine, pristine_cursors, table_fits};
use crate::cycles::{CycleSet, Record};
use crate::graph::{Graph, GraphModel};
use crate::search::{
    enumerate, get_cycles, is_cycle_record, lemma_enumerate_extends, lemma_enumerate_sound,
    starts_fit,
};
use vstd::prelude::*;

verus! {

/// The lengths of a list of machine integers.
pub open spec fn bounds_of(lengths: Seq<usize>) -> Seq<nat> {
    Seq::new(lengths.len(), |i: int| lengths[i] as nat)
}

/// The cycle set after the enumerator was called once for each of `lengths`,
/// in the order of the list, each call with pristine cursors and on the set
/// that the call before it left.
pub open spec fn accumulate(g: GraphModel, lengths: Seq<nat>, found: Seq<Record>) -> Seq<Record>
    decreases lengths.len(),
{
    if lengths.len() == 0 {
        found
    } else {
        enumerate(
            g,
            pristine(g.names.len()),
            lengths.last(),
            accumulate(g, lengths.drop_last(), found),
        )
    }
}

/// Monotonic accumulation: from one call of the enumerator to the next, the
/// run keeps every record of the cycle set in place, so the size of the set
/// never falls.
pub proof fn lemma_accumulate_extends(
    g: GraphModel,
    lengths: Seq<nat>,
    found: Seq<Record>,
    i: int,
    j: int,
)
    requires
        0 <= i <= j <= lengths.len(),
    ensures
        accumulate(g, lengths.take(i), found).is_prefix_of(accumulate(g, lengths.take(j), found)),
        accumulate(g, lengths.take(i), found).len() <= accumulate(g, lengths.take(j), found).len(),
    decreases j - i,
{
    if i < j {
        lemma_accumulate_extends(g, lengths, found, i, j - 1);
        let upto = lengths.take(j);
        assert(upto.drop_last() =~= lengths.take(j - 1));
        lemma_enumerate_extends(
            g,
            pristine(g.names.len()),
            upto.last(),
            accumulate(g, lengths.take(j - 1), found),
        );
    }
}

/// A record that a run adds is the record of a cycle of the graph whose
/// number of nodes is one of the lengths. Only a length of 0 on a graph with
/// a node that is its own neighbor is left out.
pub proof fn lemma_accumulate_sound(
    g: GraphModel,
    lengths: Seq<nat>,
    found: Seq<Record>,
    r: Record,
)
    requires
        g.wf(),
        g.loop_free() || forall|i: int| 0 <= i < lengths.len() ==> #[trigger] lengths[i] >= 1,
        accumulate(g, lengths, found).contains(r),
        !found.contains(r),
    ensures
        exists|i: int|
            0 <= i < lengths.len() && r.len() == #[trigger] lengths[i] && is_cycle_record(
                g,
                lengths[i],
                r,
            ),
    decreases lengths.len(),
{
    if lengths.len() > 0 {
        let before = accumulate(g, lengths.drop_last(), found);
        let last = lengths.len() - 1;
        if before.contains(r) {
            if !g.loop_free() {
                assert forall|i: int| 0 <= i < lengths.drop_last().len() implies #[trigger] lengths.drop_last()[i]
                    >= 1 by {
                    assert(lengths.drop_last()[i] == lengths[i]);
                }
            }
            lemma_accumulate_sound(g, lengths.drop_last(), found, r);
            let i = choose|i: int|
                0 <= i < lengths.drop_last().len() && r.len() == #[trigger] lengths.drop_last()[i]
                    && is_cycle_record(g, lengths.drop_last()[i], r);
            assert(lengths[i] == lengths.drop_last()[i]);
        } else {
            assert(starts_fit(g, pristine(g.names.len())));
            assert(g.loop_free() || lengths[last] >= 1);
            lemma_enumerate_sound(g, pristine(g.names.len()), lengths.last(), before, r);
        }
    }
}

/// Calls the enumerator on `graph` once for each of `lengths`, in the order
/// of the list, and gathers what the calls find in `cycles`.
pub fn collect_cycles(cycles: &mut CycleSet, graph: &Graph, lengths: &Vec<usize>)
    requires
        old(cycles).wf(),
        graph.wf(),
    ensures
        final(cycles)@ == accumulate(graph@, bounds_of(lengths@), old(cycles)@),
        final(cycles).wf(),
        old(cycles)@.is_prefix_of(final(cycles)@),
        graph@.loop_free() || (forall|i: int| 0 <= i < lengths.len() ==> #[trigger] lengths[i] >= 1)
            ==> forall|r: Record| #[trigger]
            final(cycles)@.contains(r) && !old(cycles)@.contains(r) ==> exists|i: int|
                0 <= i < lengths.len() && r.len() == #[trigger] lengths[i] && is_cycle_record(
                    graph@,
                    lengths[i] as nat,
                    r,
                ),
{
    proof {
        let g = graph@;
        let all = bounds_of(lengths@);
        let after = accumulate(g, all, cycles@);
        if g.loop_free() || (forall|i: int| 0 <= i < lengths.len() ==> #[trigger] lengths[i] >= 1) {
            assert forall|r: Record| #[trigger] after.contains(r) && !cycles@.contains(r) implies exists|
                i: int,
            |
                0 <= i < lengths.len() && r.len() == #[trigger] lengths[i] && is_cycle_record(
                    g,
                    lengths[i] as nat,
                    r,
                ) by {
                if !g.loop_free() {
                    assert forall|i: int| 0 <= i < all.len() implies #[trigger] all[i] >= 1 by {
                        assert(lengths[i] >= 1);
                    }
                }
                lemma_accumulate_sound(g, all, cycles@, r);
                let i = choose|i: int|
                    0 <= i < all.len() && r.len() == #[trigger] all[i] && is_cycle_record(
                        g,
                        all[i],
                        r,
                    );
                assert(all[i] == lengths[i] as nat);
            }
        }
    }
    let start_iterators = pristine_cursors(graph);
    let ghost g = graph@;
    let ghost all = bounds_of(lengths@);
    let ghost held = cycles@;
    let mut i: usize = 0;
    assert(all.take(0) =~= Seq::<nat>::empty());
    while i < lengths.len()
        invariant
            graph.wf(),
            g == graph@,
            all == bounds_of(lengths@),
            table_fits(start_iterators@, g),
            offsets_of(start_iterators@) == pristine(g.names.len()),
            i <= lengths.len(),
            cycles.wf(),
            cycles@ == accumulate(g, all.take(i as int), held),
            held.is_prefix_of(cycles@),
        decreases lengths.len() - i,
    {
        proof {
            let upto = all.take(i + 1);
            assert(upto.drop_last() =~= all.take(i as int));
            assert(upto.last() == lengths[i as int] as nat);
        }
        get_cycles(cycles, &start_iterators, graph, lengths[i]);
        i += 1;
    }
    assert(all.take(i as int) =~= all);
}

} // verus!
