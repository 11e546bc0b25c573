//! Properties that hold across calls on a graph.

use vstd::prelude::*;

use crate::graph::{
    add_edges, built_from, depends_on, is_acyclic, is_chain, is_path, reaches, succs, successors_first,
};

verus! {

/// Whatever the order of the `add` and `link` calls, the keys of the graph
/// are exactly the nodes passed to them as first argument.
pub proof fn lemma_keys_are_added_nodes(steps: Seq<(u64, Set<u64>)>)
    ensures
        built_from(steps).dom() == steps.map_values(|s: (u64, Set<u64>)| s.0).to_set(),
        forall|n: u64|
            #[trigger] built_from(steps).contains_key(n) <==> exists|i: int|
                0 <= i < steps.len() && (#[trigger] steps[i]).0 == n,
    decreases steps.len(),
{
    let firsts = steps.map_values(|s: (u64, Set<u64>)| s.0);
    if steps.len() == 0 {
        assert(firsts.to_set() =~= Set::empty());
    } else {
        let rest = steps.drop_last();
        lemma_keys_are_added_nodes(rest);
        let rest_firsts = rest.map_values(|s: (u64, Set<u64>)| s.0);
        assert(firsts =~= rest_firsts.push(steps.last().0));
        rest_firsts.lemma_push_to_set_commute(steps.last().0);
        assert(built_from(steps).dom() =~= firsts.to_set());
        assert forall|n: u64|
            #[trigger] built_from(steps).contains_key(n) implies exists|i: int|
                0 <= i < steps.len() && (#[trigger] steps[i]).0 == n by {
            if n != steps.last().0 {
                let i = choose|i: int| 0 <= i < rest.len() && (#[trigger] rest[i]).0 == n;
                assert(steps[i] == rest[i]);
            } else {
                assert(steps[steps.len() - 1].0 == n);
            }
        }
        assert forall|n: u64|
            (exists|i: int| 0 <= i < steps.len() && (#[trigger] steps[i]).0 == n) implies
                #[trigger] built_from(steps).contains_key(n) by {
            let i = choose|i: int| 0 <= i < steps.len() && (#[trigger] steps[i]).0 == n;
            if i < steps.len() - 1 {
                assert(rest[i] == steps[i]);
            }
        }
    }
}

/// Adding two batches of edges gives the same graph in either order.
pub proof fn lemma_insertion_order_irrelevant(
    g: Map<u64, Set<u64>>,
    a: u64,
    xs: Set<u64>,
    b: u64,
    ys: Set<u64>,
)
    ensures
        add_edges(add_edges(g, a, xs), b, ys) == add_edges(add_edges(g, b, ys), a, xs),
{
    if a == b {
        assert(succs(g, a) + xs + ys =~= succs(g, a) + ys + xs);
    }
    assert(add_edges(add_edges(g, a, xs), b, ys) =~= add_edges(add_edges(g, b, ys), a, xs));
}

/// Adding two batches of children to one node gives that node their union,
/// each child once.
pub proof fn lemma_batches_merge(g: Map<u64, Set<u64>>, a: u64, xs: Set<u64>, ys: Set<u64>)
    ensures
        add_edges(add_edges(g, a, xs), a, ys) == add_edges(g, a, xs + ys),
{
    assert(succs(add_edges(g, a, xs), a) == succs(g, a) + xs);
    assert(succs(g, a) + xs + ys =~= succs(g, a) + (xs + ys));
    assert(add_edges(add_edges(g, a, xs), a, ys) =~= add_edges(g, a, xs + ys));
}

/// On a graph without cycles, the order that `sort` returns puts the target
/// of every edge before its source.
pub proof fn lemma_sort_is_topological_when_acyclic(g: Map<u64, Set<u64>>, order: Seq<u64>)
    requires
        is_acyclic(g),
        successors_first(g, order),
    ensures
        forall|i: int, j: int|
            0 <= i < order.len() && 0 <= j < order.len() && #[trigger] depends_on(
                g,
                order[i],
                order[j],
            ) ==> j < i,
{
    assert forall|i: int, j: int|
        0 <= i < order.len() && 0 <= j < order.len() && #[trigger] depends_on(
            g,
            order[i],
            order[j],
        ) implies j < i by {
        if !(j < i) {
            assert(reaches(g, order[j], order[i]));
            let p = choose|p: Seq<u64>| #[trigger] is_path(g, p) && p[0] == order[j] && p.last() == order[i];
            assert(is_chain(g, p));
            let cycle = seq![order[i]] + p;
            assert forall|k: int| 0 <= k < cycle.len() - 1 implies #[trigger] depends_on(
                g,
                cycle[k],
                cycle[k + 1],
            ) by {
                if k > 0 {
                    let t = k - 1;
                    assert(depends_on(g, p[t], p[t + 1]));
                    assert(cycle[k] == p[t] && cycle[k + 1] == p[t + 1]);
                } else {
                    assert(cycle[1] == p[0]);
                }
            }
            assert(is_path(g, cycle));
            assert(cycle.last() == order[i]);
        }
    }
}

} // verus!
