//! Properties that hold across the graph operations.

use crate::graph::{
    dependency_edges, has_edge, induced, is_built_from, is_closure_order, is_walk,
    lemma_dependency_edge_targets, reaches, reaches_from_any, DependencyGraph,
};
use crate::unit::{defines_main, same_unit, DependencyInfo};
use vstd::prelude::*;

verus! {

/// Every node depends on itself, by the walk of length zero.
pub proof fn lemma_depends_on_reflexive(g: DependencyGraph, a: usize)
    requires
        (a as int) < g.nodes@.len(),
    ensures
        reaches(g.adj(), a, a),
{
    let p = seq![a];
    assert(is_walk(g.adj(), p) && p[0] == a && p.last() == a);
}

/// No edge that edge construction adds ends at a unit that defines `main`.
pub proof fn lemma_no_binary_dependency(nodes: Seq<DependencyInfo>, i: int, level: nat)
    requires
        0 <= i < nodes.len() <= usize::MAX,
    ensures
        forall|k: int|
            0 <= k < dependency_edges(nodes, i, level).len() ==> {
                let t = #[trigger] dependency_edges(nodes, i, level)[k];
                (t as int) < nodes.len() && !defines_main(nodes[t as int])
            },
{
    lemma_dependency_edge_targets(nodes, i, level);
}

/// In a graph built from unit records, no edge ends at a unit that defines
/// `main`.
pub proof fn lemma_built_graph_has_no_binary_target(infos: Seq<DependencyInfo>, level: nat, g: DependencyGraph)
    requires
        is_built_from(infos, level, g),
    ensures
        forall|u: int, k: int|
            0 <= u < g.nodes@.len() && 0 <= k < g.adj()[u].len() ==> !defines_main(
                g.nodes@[#[trigger] g.adj()[u][k] as int],
            ),
{
    assert forall|u: int, k: int| 0 <= u < g.nodes@.len() && 0 <= k < g.adj()[u].len() implies !defines_main(
        g.nodes@[#[trigger] g.adj()[u][k] as int],
    ) by {
        assert(g.adj()[u] == dependency_edges(g.nodes@, u, level));
        assert(g.nodes@.len() == g.nodes.len());
        lemma_dependency_edge_targets(g.nodes@, u, level);
        assert(dependency_edges(g.nodes@, u, level)[k] == g.adj()[u][k]);
    }
}

/// Building twice from the same records at the same level gives the same
/// edges, so in particular the same edge sets.
pub proof fn lemma_build_deterministic(
    infos: Seq<DependencyInfo>,
    level: nat,
    g1: DependencyGraph,
    g2: DependencyGraph,
)
    requires
        is_built_from(infos, level, g1),
        is_built_from(infos, level, g2),
    ensures
        g1.adj() == g2.adj(),
        forall|u: int| 0 <= u < infos.len() ==> (#[trigger] g1.adj()[u]).to_set() == g2.adj()[u].to_set(),
{
    assert forall|u: int| 0 <= u < infos.len() implies #[trigger] g1.adj()[u] == g2.adj()[u] by {
        assert(g1.adj()[u] == dependency_edges(infos, u, level));
        assert(g2.adj()[u] == dependency_edges(infos, u, level));
    }
    assert(g1.adj() =~= g2.adj());
}

/// Extraction from no seeds gives the empty graph.
pub proof fn lemma_empty_seed(g: DependencyGraph, sub: DependencyGraph)
    requires
        g.is_extraction(Seq::empty(), sub),
    ensures
        sub.nodes@.len() == 0,
        sub.edges@.len() == 0,
{
    let order = choose|order: Seq<usize>|
        is_closure_order(g.adj(), Seq::empty(), order) && #[trigger] g.is_induced_subgraph(sub, order);
    if order.len() > 0 {
        assert(order.contains(order[0]));
    }
}

/// The number of edges, counted with their multiplicity.
pub open spec fn edge_count(e: Seq<Seq<usize>>) -> nat
    decreases e.len(),
{
    if e.len() == 0 {
        0
    } else {
        edge_count(e.drop_last()) + e.last().len()
    }
}

/// The sum of the out-degrees of the nodes listed in `p`.
spec fn degree_sum(e: Seq<Seq<usize>>, p: Seq<usize>) -> nat
    decreases p.len(),
{
    if p.len() == 0 {
        0
    } else {
        degree_sum(e, p.drop_last()) + e[p.last() as int].len()
    }
}

spec fn ids_below(n: nat) -> Seq<usize> {
    Seq::new(n, |i: int| i as usize)
}

proof fn lemma_induced_keeps_all(list: Seq<usize>, ids: Seq<usize>)
    requires
        forall|k: int| 0 <= k < list.len() ==> ids.contains(#[trigger] list[k]),
    ensures
        induced(list, ids).len() == list.len(),
    decreases list.len(),
{
    if list.len() > 0 {
        let rest = list.drop_last();
        assert forall|k: int| 0 <= k < rest.len() implies ids.contains(#[trigger] rest[k]) by {
            assert(rest[k] == list[k]);
        }
        lemma_induced_keeps_all(rest, ids);
        assert(ids.contains(list[list.len() - 1]));
    }
}

proof fn lemma_count_matches_degrees(e2: Seq<Seq<usize>>, e: Seq<Seq<usize>>, p: Seq<usize>)
    requires
        e2.len() == p.len(),
        forall|k: int| 0 <= k < p.len() ==> (#[trigger] e2[k]).len() == e[p[k] as int].len(),
    ensures
        edge_count(e2) == degree_sum(e, p),
    decreases p.len(),
{
    if p.len() > 0 {
        let e3 = e2.drop_last();
        let q = p.drop_last();
        assert forall|k: int| 0 <= k < q.len() implies (#[trigger] e3[k]).len() == e[q[k] as int].len() by {
            assert(e3[k] == e2[k] && q[k] == p[k]);
        }
        lemma_count_matches_degrees(e3, e, q);
        assert(e2.last().len() == e[p.last() as int].len());
    }
}

proof fn lemma_degrees_of_prefix(e: Seq<Seq<usize>>, m: nat)
    requires
        m <= e.len() <= usize::MAX,
    ensures
        degree_sum(e, ids_below(m)) == edge_count(e.subrange(0, m as int)),
    decreases m,
{
    if m > 0 {
        lemma_degrees_of_prefix(e, (m - 1) as nat);
        assert(ids_below(m).drop_last() =~= ids_below((m - 1) as nat));
        assert(e.subrange(0, m as int).drop_last() =~= e.subrange(0, m - 1));
    }
}

proof fn lemma_degrees_remove(e: Seq<Seq<usize>>, q: Seq<usize>, j: int)
    requires
        0 <= j < q.len(),
    ensures
        degree_sum(e, q) == degree_sum(e, q.remove(j)) + e[q[j] as int].len(),
    decreases q.len(),
{
    if j < q.len() - 1 {
        lemma_degrees_remove(e, q.drop_last(), j);
        assert(q.remove(j).drop_last() =~= q.drop_last().remove(j));
        assert(q.remove(j).last() == q.last());
    } else {
        assert(q.remove(j) =~= q.drop_last());
    }
}

proof fn lemma_degrees_permuted(e: Seq<Seq<usize>>, p: Seq<usize>, q: Seq<usize>)
    requires
        p.no_duplicates(),
        q.no_duplicates(),
        forall|v: usize| p.contains(v) <==> q.contains(v),
    ensures
        p.len() == q.len(),
        degree_sum(e, p) == degree_sum(e, q),
    decreases p.len(),
{
    if p.len() == 0 {
        if q.len() > 0 {
            assert(q.contains(q[0]));
        }
    } else {
        let x = p.last();
        assert(p.contains(x));
        let j = choose|j: int| 0 <= j < q.len() && q[j] == x;
        let p2 = p.drop_last();
        let q2 = q.remove(j);
        assert forall|v: usize| p2.contains(v) <==> q2.contains(v) by {
            if p2.contains(v) {
                let a = choose|a: int| 0 <= a < p2.len() && p2[a] == v;
                assert(p[a] == v);
                assert(v != x);
                assert(q.contains(v));
                let b = choose|b: int| 0 <= b < q.len() && q[b] == v;
                if b < j {
                    assert(q2[b] == v);
                } else {
                    assert(q2[b - 1] == v);
                }
            }
            if q2.contains(v) {
                let b = choose|b: int| 0 <= b < q2.len() && q2[b] == v;
                let c = if b < j { b } else { b + 1 };
                assert(q[c] == v);
                assert(c != j);
                assert(v != x);
                assert(p.contains(v));
                let a = choose|a: int| 0 <= a < p.len() && p[a] == v;
                assert(a != p.len() - 1);
                assert(p2[a] == v);
            }
        }
        assert(q2.no_duplicates()) by {
            assert forall|a: int, b: int| 0 <= a < b < q2.len() implies q2[a] != q2[b] by {
                let a2 = if a < j { a } else { a + 1 };
                let b2 = if b < j { b } else { b + 1 };
                assert(q2[a] == q[a2] && q2[b] == q[b2]);
            }
        }
        lemma_degrees_permuted(e, p2, q2);
        lemma_degrees_remove(e, q, j);
    }
}

/// Extraction seeded with every node keeps every node and every edge: the
/// result has as many nodes and as many edges as the graph.
pub proof fn lemma_full_extraction(g: DependencyGraph, seeds: Seq<usize>, sub: DependencyGraph)
    requires
        g.well_formed(),
        forall|v: usize| (v as int) < g.nodes@.len() ==> #[trigger] seeds.contains(v),
        g.is_extraction(seeds, sub),
    ensures
        sub.nodes@.len() == g.nodes@.len(),
        sub.edges@.len() == g.edges@.len(),
        edge_count(sub.adj()) == edge_count(g.adj()),
{
    let e = g.adj();
    let n = g.nodes@.len();
    assert(n == g.nodes.len());
    let order = choose|order: Seq<usize>|
        is_closure_order(e, seeds, order) && #[trigger] g.is_induced_subgraph(sub, order);
    let all = ids_below(n);
    assert forall|v: usize| (v as int) < n implies #[trigger] order.contains(v) by {
        assert(seeds.contains(v));
        let i = choose|i: int| 0 <= i < seeds.len() && seeds[i] == v;
        lemma_depends_on_reflexive(g, v);
        assert(reaches_from_any(e, seeds, v));
    }
    assert forall|v: usize| order.contains(v) <==> all.contains(v) by {
        if order.contains(v) {
            let k = choose|k: int| 0 <= k < order.len() && order[k] == v;
            assert(all[v as int] == v);
        }
        if all.contains(v) {
            let k = choose|k: int| 0 <= k < all.len() && all[k] == v;
        }
    }
    assert(all.no_duplicates());
    lemma_degrees_permuted(e, order, all);
    assert forall|k: int| 0 <= k < order.len() implies (#[trigger] sub.adj()[k]).len() == e[order[k] as int].len() by {
        let list = e[order[k] as int];
        assert forall|m: int| 0 <= m < list.len() implies order.contains(#[trigger] list[m]) by {
            assert(g.edges@[order[k] as int]@[m] == list[m]);
        }
        lemma_induced_keeps_all(list, order);
        assert(sub.adj()[k] == sub.edges@[k]@);
    }
    lemma_count_matches_degrees(sub.adj(), e, order);
    lemma_degrees_of_prefix(e, n);
    assert(e.subrange(0, n as int) =~= e);
}

/// In a graph built from unit records, a unit that defines `main` is reached
/// from no node but itself: each binary's closure holds no other binary.
pub proof fn lemma_binary_reached_only_from_itself(
    infos: Seq<DependencyInfo>,
    level: nat,
    g: DependencyGraph,
    a: usize,
    b: usize,
)
    requires
        is_built_from(infos, level, g),
        (b as int) < g.nodes@.len(),
        defines_main(g.nodes@[b as int]),
        reaches(g.adj(), a, b),
    ensures
        a == b,
{
    lemma_built_graph_has_no_binary_target(infos, level, g);
    let e = g.adj();
    let p = choose|p: Seq<usize>| is_walk(e, p) && p[0] == a && p.last() == b;
    if p.len() > 1 {
        let u = p[p.len() - 2];
        assert(has_edge(e, u, p.last()));
        let k = choose|k: int| 0 <= k < e[u as int].len() && e[u as int][k] == b;
        assert(!defines_main(g.nodes@[e[u as int][k] as int]));
    }
}

/// Extraction from one seed numbers that seed 0.
pub proof fn lemma_seed_first(g: DependencyGraph, s: usize, sub: DependencyGraph)
    requires
        g.well_formed(),
        (s as int) < g.nodes@.len(),
        g.is_extraction(seq![s], sub),
    ensures
        sub.nodes@.len() >= 1,
        same_unit(sub.nodes@[0], g.nodes@[s as int]),
{
    let e = g.adj();
    let order = choose|order: Seq<usize>|
        is_closure_order(e, seq![s], order) && #[trigger] g.is_induced_subgraph(sub, order);
    lemma_depends_on_reflexive(g, s);
    assert(seq![s][0] == s);
    assert(reaches_from_any(e, seq![s], s));
    assert(e.len() == g.nodes@.len());
    assert(order.contains(s));
    assert(seq![s].contains(order[0]));
    let i = choose|i: int| 0 <= i < 1 && seq![s][i] == order[0];
    assert(order[0] == s);
}

} // verus!
