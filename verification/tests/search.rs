use cycle_finder::cursor::{pristine_cursors, Cursor};
use cycle_finder::cycles::CycleSet;
use cycle_finder::graph::Graph;
use cycle_finder::search::get_cycles;

fn names(xs: &[&str]) -> Vec<String> {
    xs.iter().map(|x| x.to_string()).collect()
}

fn graph_of(edges: &[(&str, &str)]) -> Graph {
    let mut g = Graph::new();
    for (a, b) in edges {
        g.add_edge((a.to_string(), b.to_string()));
    }
    g
}

fn complete_graph(nodes: &[&str]) -> Graph {
    let mut g = Graph::new();
    for i in 0..nodes.len() {
        for j in (i + 1)..nodes.len() {
            g.add_edge((nodes[i].to_string(), nodes[j].to_string()));
        }
    }
    g
}

fn records(set: &CycleSet) -> Vec<Vec<String>> {
    (0..set.len()).map(|i| set.get(i).clone()).collect()
}

fn found(g: &Graph, bound: usize) -> Vec<Vec<String>> {
    let mut set = CycleSet::new();
    get_cycles(&mut set, &pristine_cursors(g), g, bound);
    records(&set)
}

const TRIANGLE: [(&str, &str); 3] = [("A", "B"), ("B", "C"), ("C", "A")];

const SQUARE: [(&str, &str); 4] = [("A", "B"), ("B", "C"), ("C", "D"), ("D", "A")];

#[test]
fn triangle_gives_one_record() {
    let g = graph_of(&TRIANGLE);
    assert_eq!(found(&g, 3), vec![names(&["A", "B", "C"])]);
}

#[test]
fn square_has_no_triangle() {
    let g = graph_of(&SQUARE);
    assert_eq!(found(&g, 3), Vec::<Vec<String>>::new());
}

#[test]
fn square_gives_one_record_of_four() {
    let g = graph_of(&SQUARE);
    assert_eq!(found(&g, 4), vec![names(&["A", "B", "C", "D"])]);
}

#[test]
fn single_edge_has_no_cycle_of_three_or_more() {
    let g = graph_of(&[("A", "B")]);
    for bound in 3..8 {
        assert_eq!(found(&g, bound), Vec::<Vec<String>>::new());
    }
}

#[test]
fn two_disjoint_triangles_give_two_records() {
    let g = graph_of(&[("A", "B"), ("B", "C"), ("C", "A"), ("X", "Y"), ("Y", "Z"), ("Z", "X")]);
    assert_eq!(found(&g, 3), vec![names(&["A", "B", "C"]), names(&["X", "Y", "Z"])]);
}

#[test]
fn empty_graph_has_no_cycles() {
    let g = Graph::new();
    for bound in 0..6 {
        assert_eq!(found(&g, bound), Vec::<Vec<String>>::new());
    }
}

#[test]
fn bound_zero_or_one_finds_nothing_without_self_pairs() {
    for edges in [&TRIANGLE[..], &SQUARE[..], &[("A", "B")][..]] {
        let g = graph_of(edges);
        assert_eq!(found(&g, 0), Vec::<Vec<String>>::new());
        assert_eq!(found(&g, 1), Vec::<Vec<String>>::new());
    }
}

#[test]
fn bound_zero_or_one_leaves_a_filled_set_unchanged() {
    let g = graph_of(&TRIANGLE);
    let mut set = CycleSet::new();
    set.insert(names(&["A", "B", "C"]));
    set.insert(names(&["P", "Q"]));
    let before = records(&set);
    get_cycles(&mut set, &pristine_cursors(&g), &g, 0);
    assert_eq!(records(&set), before);
    get_cycles(&mut set, &pristine_cursors(&g), &g, 1);
    assert_eq!(records(&set), before);
}

#[test]
fn bound_two_records_each_linked_pair() {
    let g = graph_of(&TRIANGLE);
    assert_eq!(
        found(&g, 2),
        vec![names(&["A", "B"]), names(&["A", "C"]), names(&["B", "C"])]
    );
    let edge = graph_of(&[("A", "B")]);
    assert_eq!(found(&edge, 2), vec![names(&["A", "B"])]);
}

#[test]
fn self_neighbor_closes_a_cycle_of_one() {
    let g = graph_of(&[("A", "A"), ("A", "B")]);
    assert_eq!(found(&g, 1), vec![names(&["A"])]);
    assert_eq!(found(&g, 2), vec![names(&["A", "B"])]);
    assert_eq!(found(&g, 3), Vec::<Vec<String>>::new());
}

#[test]
fn bound_above_every_cycle_finds_nothing() {
    let g = graph_of(&TRIANGLE);
    assert_eq!(found(&g, 4), Vec::<Vec<String>>::new());
    assert_eq!(found(&g, 100), Vec::<Vec<String>>::new());
    assert_eq!(found(&g, usize::MAX), Vec::<Vec<String>>::new());
}

#[test]
fn disconnected_nodes_have_no_cycles() {
    let g = graph_of(&[("A", "B"), ("C", "D"), ("E", "F")]);
    assert_eq!(found(&g, 3), Vec::<Vec<String>>::new());
    assert_eq!(found(&g, 4), Vec::<Vec<String>>::new());
}

#[test]
fn records_are_sorted_whatever_the_order_of_discovery() {
    let g = graph_of(&[("C", "B"), ("B", "A"), ("A", "C")]);
    assert_eq!(g.node_names(), names(&["C", "B", "A"]));
    assert_eq!(found(&g, 3), vec![names(&["A", "B", "C"])]);
    let h = graph_of(&[("usdt", "ETH"), ("ETH", "BTC"), ("BTC", "usdt")]);
    assert_eq!(found(&h, 3), vec![names(&["BTC", "ETH", "usdt"])]);
}

#[test]
fn triangle_and_square_sharing_a_node() {
    let g = graph_of(&[
        ("A", "B"),
        ("B", "C"),
        ("C", "A"),
        ("C", "D"),
        ("D", "E"),
        ("E", "F"),
        ("F", "C"),
    ]);
    assert_eq!(found(&g, 3), vec![names(&["A", "B", "C"])]);
    assert_eq!(found(&g, 4), vec![names(&["C", "D", "E", "F"])]);
}

#[test]
fn two_triangles_sharing_a_node() {
    let g = graph_of(&[("A", "B"), ("B", "C"), ("C", "A"), ("C", "D"), ("D", "E"), ("E", "C")]);
    assert_eq!(found(&g, 3), vec![names(&["A", "B", "C"]), names(&["C", "D", "E"])]);
}

#[test]
fn cursor_keeps_its_place_when_a_node_returns_to_the_path() {
    // D is first reached through B, where its cursor reads its whole list.
    // Reached again through C, it has nothing left to offer, so the
    // triangle A, C, D goes unseen.
    let g = graph_of(&[("A", "B"), ("B", "D"), ("D", "C"), ("A", "C"), ("A", "D")]);
    assert_eq!(found(&g, 3), vec![names(&["A", "B", "D"])]);
}

#[test]
fn complete_graph_of_four() {
    let g = complete_graph(&["A", "B", "C", "D"]);
    assert_eq!(
        found(&g, 3),
        vec![names(&["A", "B", "C"]), names(&["A", "B", "D"]), names(&["B", "C", "D"])]
    );
    assert_eq!(found(&g, 4), vec![names(&["A", "B", "C", "D"])]);
}

#[test]
fn complete_graph_of_five() {
    let g = complete_graph(&["A", "B", "C", "D", "E"]);
    assert_eq!(
        found(&g, 3),
        vec![
            names(&["A", "B", "C"]),
            names(&["A", "B", "D"]),
            names(&["A", "B", "E"]),
            names(&["B", "C", "D"]),
            names(&["B", "C", "E"]),
            names(&["C", "D", "E"]),
        ]
    );
    assert_eq!(
        found(&g, 4),
        vec![
            names(&["A", "B", "C", "D"]),
            names(&["A", "B", "C", "E"]),
            names(&["B", "C", "D", "E"]),
        ]
    );
    assert_eq!(found(&g, 5), vec![names(&["A", "B", "C", "D", "E"])]);
}

#[test]
fn cycles_on_the_same_nodes_share_one_record() {
    // The four nodes of a complete graph carry three different cycles of
    // length four; they have one sorted node list between them.
    let g = complete_graph(&["A", "B", "C", "D"]);
    assert_eq!(found(&g, 4).len(), 1);
}

#[test]
fn every_new_record_has_the_length_of_the_bound() {
    let g = complete_graph(&["N1", "N2", "N3", "N4", "N5", "N6"]);
    for bound in 1..8 {
        for r in found(&g, bound) {
            assert_eq!(r.len(), bound);
        }
    }
}

#[test]
fn every_new_record_is_sorted_and_names_linked_nodes() {
    let g = complete_graph(&["N5", "N3", "N1", "N4", "N2"]);
    for bound in 2..6 {
        for r in found(&g, bound) {
            for k in 1..r.len() {
                assert!(r[k - 1] < r[k]);
            }
            for name in &r {
                assert!(g.find(name).is_some());
            }
        }
    }
}

#[test]
fn second_call_with_the_same_bound_changes_nothing() {
    for bound in 0..6 {
        let g = complete_graph(&["A", "B", "C", "D", "E"]);
        let table = pristine_cursors(&g);
        let mut set = CycleSet::new();
        get_cycles(&mut set, &table, &g, bound);
        let once = records(&set);
        get_cycles(&mut set, &table, &g, bound);
        assert_eq!(records(&set), once);
    }
}

#[test]
fn calls_only_add_to_the_set() {
    let g = complete_graph(&["A", "B", "C", "D", "E"]);
    let table = pristine_cursors(&g);
    let mut set = CycleSet::new();
    let mut before = records(&set);
    for bound in [3, 4, 5, 3, 2, 0] {
        get_cycles(&mut set, &table, &g, bound);
        let after = records(&set);
        assert!(after.len() >= before.len());
        assert_eq!(&after[..before.len()], &before[..]);
        before = after;
    }
    assert_eq!(before.len(), 20);
}

#[test]
fn set_never_holds_a_record_twice() {
    let g = complete_graph(&["A", "B", "C", "D", "E"]);
    let table = pristine_cursors(&g);
    let mut set = CycleSet::new();
    for bound in [3, 4, 3, 5, 4] {
        get_cycles(&mut set, &table, &g, bound);
    }
    let all = records(&set);
    assert_eq!(all.len(), 10);
    for i in 0..all.len() {
        for j in 0..i {
            assert_ne!(all[i], all[j]);
        }
    }
}

#[test]
fn record_held_before_the_call_is_not_recorded_again() {
    let g = graph_of(&TRIANGLE);
    let mut set = CycleSet::new();
    set.insert(names(&["A", "B", "C"]));
    get_cycles(&mut set, &pristine_cursors(&g), &g, 3);
    assert_eq!(records(&set), vec![names(&["A", "B", "C"])]);
}

#[test]
fn records_of_other_graphs_stay_in_the_set() {
    let g = graph_of(&TRIANGLE);
    let mut set = CycleSet::new();
    set.insert(names(&["X", "Y", "Z"]));
    get_cycles(&mut set, &pristine_cursors(&g), &g, 3);
    assert_eq!(records(&set), vec![names(&["X", "Y", "Z"]), names(&["A", "B", "C"])]);
}

#[test]
fn retired_start_node_does_not_bring_its_cycles_back() {
    // Every pass after the first meets the triangle again, but not through A.
    let g = graph_of(&TRIANGLE);
    let mut set = CycleSet::new();
    get_cycles(&mut set, &pristine_cursors(&g), &g, 3);
    assert_eq!(set.len(), 1);
}

#[test]
fn each_pass_starts_from_the_given_cursors() {
    // With the cursor of A at the end of its list, the pass from A sees no
    // neighbor, and A is retired before any other pass could reach it.
    let g = graph_of(&TRIANGLE);
    let mut table = pristine_cursors(&g);
    assert_eq!(table[0].advance(&g), Some(1));
    assert_eq!(table[0].advance(&g), Some(2));
    let mut set = CycleSet::new();
    get_cycles(&mut set, &table, &g, 3);
    assert_eq!(records(&set), Vec::<Vec<String>>::new());
    let mut fresh = CycleSet::new();
    get_cycles(&mut fresh, &pristine_cursors(&g), &g, 3);
    assert_eq!(records(&fresh), vec![names(&["A", "B", "C"])]);
}

#[test]
fn the_given_cursors_are_left_as_they_were() {
    let g = graph_of(&TRIANGLE);
    let table = pristine_cursors(&g);
    let mut set = CycleSet::new();
    get_cycles(&mut set, &table, &g, 3);
    assert_eq!(table, vec![Cursor::at_start(0), Cursor::at_start(1), Cursor::at_start(2)]);
}

#[test]
fn long_ring_is_found_at_its_own_length_only() {
    let ring = ["R0", "R1", "R2", "R3", "R4", "R5", "R6", "R7", "R8", "R9"];
    let mut g = Graph::new();
    for i in 0..ring.len() {
        g.add_edge((ring[i].to_string(), ring[(i + 1) % ring.len()].to_string()));
    }
    for bound in 3..10 {
        assert_eq!(found(&g, bound), Vec::<Vec<String>>::new());
    }
    assert_eq!(found(&g, 10), vec![names(&ring)]);
    assert_eq!(found(&g, 11), Vec::<Vec<String>>::new());
}
