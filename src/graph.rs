//! The dependency graph: units as nodes in dense storage, and for each node
//! the list of nodes that supply a symbol it needs.

use crate::symbol::{symbol_matches, DependencySymbol};
use crate::unit::{defines_main, same_unit, DependencyInfo};
use vstd::prelude::*;

verus! {

/// There is an edge `u -> v` in the adjacency lists `e`.
pub open spec fn has_edge(e: Seq<Seq<usize>>, u: usize, v: usize) -> bool {
    (u as int) < e.len() && e[u as int].contains(v)
}

/// `p` is a non-empty walk along edges of `e`.
pub open spec fn is_walk(e: Seq<Seq<usize>>, p: Seq<usize>) -> bool {
    &&& p.len() > 0
    &&& forall|k: int| #![trigger p[k]] 0 <= k < p.len() - 1 ==> has_edge(e, p[k], p[k + 1])
}

/// `b` can be reached from `a`, by a walk of zero or more edges.
pub open spec fn reaches(e: Seq<Seq<usize>>, a: usize, b: usize) -> bool {
    exists|p: Seq<usize>| is_walk(e, p) && p[0] == a && p.last() == b
}

/// `b` can be reached from one of `seeds`.
pub open spec fn reaches_from_any(e: Seq<Seq<usize>>, seeds: Seq<usize>, b: usize) -> bool {
    exists|i: int| 0 <= i < seeds.len() && reaches(e, #[trigger] seeds[i], b)
}

/// The nodes marked in `inside` have all their edge targets marked too.
pub open spec fn is_closed(e: Seq<Seq<usize>>, inside: Seq<bool>) -> bool {
    &&& inside.len() == e.len()
    &&& forall|u: int, k: int|
        0 <= u < e.len() && inside[u] && 0 <= k < e[u].len() ==> (e[u][k] as int) < e.len()
            && #[trigger] inside[e[u][k] as int]
}

/// Number of unmarked entries.
pub open spec fn count_unmarked(v: Seq<bool>) -> nat
    decreases v.len(),
{
    if v.len() == 0 {
        0
    } else {
        count_unmarked(v.drop_last()) + if v.last() {
            0nat
        } else {
            1nat
        }
    }
}

proof fn lemma_mark_one(v: Seq<bool>, i: int)
    requires
        0 <= i < v.len(),
        !v[i],
    ensures
        count_unmarked(v.update(i, true)) + 1 == count_unmarked(v),
    decreases v.len(),
{
    let w = v.update(i, true);
    if i == v.len() - 1 {
        assert(w.drop_last() =~= v.drop_last());
    } else {
        lemma_mark_one(v.drop_last(), i);
        assert(w.drop_last() =~= v.drop_last().update(i, true));
    }
}

/// Every node is reachable from itself.
proof fn lemma_reaches_self(e: Seq<Seq<usize>>, a: usize)
    ensures
        reaches(e, a, a),
{
    let p = seq![a];
    assert(is_walk(e, p) && p[0] == a && p.last() == a);
}

/// Reachability extends along one more edge.
proof fn lemma_reaches_step(e: Seq<Seq<usize>>, a: usize, u: usize, v: usize)
    requires
        reaches(e, a, u),
        has_edge(e, u, v),
    ensures
        reaches(e, a, v),
{
    let p = choose|p: Seq<usize>| is_walk(e, p) && p[0] == a && p.last() == u;
    let q = p.push(v);
    assert forall|k: int| #![trigger q[k]] 0 <= k < q.len() - 1 implies has_edge(e, q[k], q[k + 1]) by {
        if k < p.len() - 1 {
            assert(q[k] == p[k] && q[k + 1] == p[k + 1]);
        } else {
            assert(q[k] == u && q[k + 1] == v);
        }
    }
    assert(is_walk(e, q) && q[0] == a && q.last() == v);
}

/// What stays in a stack after its top is popped.
proof fn lemma_pop_keeps(before: Seq<usize>, after: Seq<usize>, top: usize, v: usize)
    requires
        before == after.push(top),
        before.contains(v),
        v != top,
    ensures
        after.contains(v),
{
    let i = choose|i: int| 0 <= i < before.len() && before[i] == v;
    assert(after[i] == v);
}

/// A closed set that holds the start of a walk holds the whole walk.
proof fn lemma_closed_holds_walk(e: Seq<Seq<usize>>, inside: Seq<bool>, p: Seq<usize>)
    requires
        is_closed(e, inside),
        is_walk(e, p),
        (p[0] as int) < inside.len(),
        inside[p[0] as int],
    ensures
        (p.last() as int) < inside.len(),
        inside[p.last() as int],
    decreases p.len(),
{
    if p.len() > 1 {
        let q = p.drop_last();
        assert forall|k: int| #![trigger q[k]] 0 <= k < q.len() - 1 implies has_edge(e, q[k], q[k + 1]) by {
            assert(q[k] == p[k] && q[k + 1] == p[k + 1]);
        }
        lemma_closed_holds_walk(e, inside, q);
        let u = p[p.len() - 2];
        assert(has_edge(e, u, p.last()));
        let k = choose|k: int| 0 <= k < e[u as int].len() && e[u as int][k] == p.last();
        assert(inside[e[u as int][k] as int]);
    }
}

/// A closed set holds everything reachable from its members.
proof fn lemma_closed_holds_reachable(e: Seq<Seq<usize>>, inside: Seq<bool>, a: usize, b: usize)
    requires
        is_closed(e, inside),
        (a as int) < inside.len(),
        inside[a as int],
        reaches(e, a, b),
    ensures
        (b as int) < inside.len(),
        inside[b as int],
{
    let p = choose|p: Seq<usize>| is_walk(e, p) && p[0] == a && p.last() == b;
    lemma_closed_holds_walk(e, inside, p);
}

/// The position of the first occurrence of `x` in `s`.
pub open spec fn first_index(s: Seq<usize>, x: usize) -> int {
    choose|i: int| 0 <= i < s.len() && s[i] == x && forall|j: int| 0 <= j < i ==> s[j] != x
}

/// The edges of `list` that end inside `ids`, each renumbered to the first
/// position of its target in `ids`, in their original order.
pub open spec fn induced(list: Seq<usize>, ids: Seq<usize>) -> Seq<usize>
    decreases list.len(),
{
    if list.len() == 0 {
        Seq::empty()
    } else {
        let rest = induced(list.drop_last(), ids);
        if ids.contains(list.last()) {
            rest.push(first_index(ids, list.last()) as usize)
        } else {
            rest
        }
    }
}

/// Some node among the first `upto` of `found` has an edge to `v`.
pub open spec fn found_from(e: Seq<Seq<usize>>, found: Seq<usize>, upto: int, v: usize) -> bool {
    exists|j: int| 0 <= j < upto && #[trigger] has_edge(e, found[j], v)
}

/// Each node of `order` is a seed, or the target of an edge from a node
/// listed before it: the order in which a search from the seeds meets them.
pub open spec fn is_discovery_order(e: Seq<Seq<usize>>, seeds: Seq<usize>, order: Seq<usize>) -> bool {
    forall|k: int| 0 <= k < order.len() ==> seeds.contains(#[trigger] order[k]) || found_from(e, order, k, order[k])
}

proof fn lemma_found_from_extends(e: Seq<Seq<usize>>, a: Seq<usize>, b: Seq<usize>, m: int, n: int, v: usize)
    requires
        found_from(e, a, m, v),
        m <= n,
        m <= a.len(),
        m <= b.len(),
        forall|j: int| 0 <= j < m ==> a[j] == b[j],
    ensures
        found_from(e, b, n, v),
{
    let j = choose|j: int| 0 <= j < m && #[trigger] has_edge(e, a[j], v);
    assert(has_edge(e, b[j], v));
}

/// `order` lists, each once and in an order of discovery, exactly the nodes
/// reachable from `seeds`.
pub open spec fn is_closure_order(e: Seq<Seq<usize>>, seeds: Seq<usize>, order: Seq<usize>) -> bool {
    &&& order.no_duplicates()
    &&& is_discovery_order(e, seeds, order)
    &&& forall|k: int| 0 <= k < order.len() ==> (#[trigger] order[k] as int) < e.len()
    &&& forall|v: usize| #[trigger]
        order.contains(v) <== (v as int) < e.len() && reaches_from_any(e, seeds, v)
    &&& forall|v: usize| #[trigger] order.contains(v) ==> reaches_from_any(e, seeds, v)
}

proof fn lemma_first_index_is(s: Seq<usize>, x: usize, i: int)
    requires
        0 <= i < s.len(),
        s[i] == x,
        forall|j: int| 0 <= j < i ==> s[j] != x,
    ensures
        first_index(s, x) == i,
{
    let f = first_index(s, x);
    assert(0 <= f < s.len() && s[f] == x && forall|j: int| 0 <= j < f ==> s[j] != x);
}

proof fn lemma_reaches_from_step(e: Seq<Seq<usize>>, seeds: Seq<usize>, u: usize, v: usize)
    requires
        reaches_from_any(e, seeds, u),
        has_edge(e, u, v),
    ensures
        reaches_from_any(e, seeds, v),
{
    let i = choose|i: int| 0 <= i < seeds.len() && reaches(e, #[trigger] seeds[i], u);
    lemma_reaches_step(e, seeds[i], u, v);
}

/// `info` is no binary and one of its definitions satisfies `sym` at `level`.
pub open spec fn supplies(info: DependencyInfo, sym: DependencySymbol, level: nat) -> bool {
    &&& !defines_main(info)
    &&& exists|k: int|
        0 <= k < info.defined@.len() && symbol_matches(#[trigger] info.defined@[k], sym, level)
}

/// The ids below `upto` of the units that supply `sym`, in increasing order.
pub open spec fn suppliers(nodes: Seq<DependencyInfo>, sym: DependencySymbol, level: nat, upto: int) -> Seq<
    usize,
>
    decreases upto,
{
    if upto <= 0 {
        Seq::empty()
    } else {
        let rest = suppliers(nodes, sym, level, upto - 1);
        if supplies(nodes[upto - 1], sym, level) {
            rest.push((upto - 1) as usize)
        } else {
            rest
        }
    }
}

/// For the first `upto` of `needs`, in order, the suppliers of each.
pub open spec fn needed_edges(nodes: Seq<DependencyInfo>, needs: Seq<DependencySymbol>, level: nat, upto: int) -> Seq<
    usize,
>
    decreases upto,
{
    if upto <= 0 {
        Seq::empty()
    } else {
        needed_edges(nodes, needs, level, upto - 1) + suppliers(nodes, needs[upto - 1], level, nodes.len() as int)
    }
}

/// The edges that unit `i` of `nodes` gets at `level`.
pub open spec fn dependency_edges(nodes: Seq<DependencyInfo>, i: int, level: nat) -> Seq<usize> {
    needed_edges(nodes, nodes[i].undefined@, level, nodes[i].undefined@.len() as int)
}

proof fn lemma_suppliers_targets(nodes: Seq<DependencyInfo>, sym: DependencySymbol, level: nat, upto: int)
    requires
        upto <= nodes.len() <= usize::MAX,
    ensures
        forall|k: int| 0 <= k < suppliers(nodes, sym, level, upto).len() ==> {
            let t = #[trigger] suppliers(nodes, sym, level, upto)[k];
            (t as int) < upto && !defines_main(nodes[t as int])
        },
    decreases upto,
{
    if upto > 0 {
        lemma_suppliers_targets(nodes, sym, level, upto - 1);
        let rest = suppliers(nodes, sym, level, upto - 1);
        if supplies(nodes[upto - 1], sym, level) {
            assert forall|k: int| 0 <= k < rest.push((upto - 1) as usize).len() implies {
                let t = #[trigger] rest.push((upto - 1) as usize)[k];
                (t as int) < upto && !defines_main(nodes[t as int])
            } by {
                if k < rest.len() {
                    assert(rest.push((upto - 1) as usize)[k] == rest[k]);
                }
            }
        }
    }
}

proof fn lemma_needed_targets(nodes: Seq<DependencyInfo>, needs: Seq<DependencySymbol>, level: nat, upto: int)
    requires
        upto <= needs.len(),
        nodes.len() <= usize::MAX,
    ensures
        forall|k: int| 0 <= k < needed_edges(nodes, needs, level, upto).len() ==> {
            let t = #[trigger] needed_edges(nodes, needs, level, upto)[k];
            (t as int) < nodes.len() && !defines_main(nodes[t as int])
        },
    decreases upto,
{
    if upto > 0 {
        lemma_needed_targets(nodes, needs, level, upto - 1);
        let a = needed_edges(nodes, needs, level, upto - 1);
        let b = suppliers(nodes, needs[upto - 1], level, nodes.len() as int);
        lemma_suppliers_targets(nodes, needs[upto - 1], level, nodes.len() as int);
        assert forall|k: int| 0 <= k < (a + b).len() implies {
            let t = #[trigger] (a + b)[k];
            (t as int) < nodes.len() && !defines_main(nodes[t as int])
        } by {
            if k < a.len() {
                assert((a + b)[k] == a[k]);
            } else {
                assert((a + b)[k] == b[k - a.len()]);
            }
        }
    }
}

pub(crate) proof fn lemma_dependency_edge_targets(nodes: Seq<DependencyInfo>, i: int, level: nat)
    requires
        0 <= i < nodes.len() <= usize::MAX,
    ensures
        forall|k: int|
            0 <= k < dependency_edges(nodes, i, level).len() ==> {
                let t = #[trigger] dependency_edges(nodes, i, level)[k];
                (t as int) < nodes.len() && !defines_main(nodes[t as int])
            },
{
    lemma_needed_targets(nodes, nodes[i].undefined@, level, nodes[i].undefined@.len() as int);
}

/// The graph is the one built from `infos` at `level`: the same units in
/// the same order, and for each the edges that its needs give.
pub open spec fn is_built_from(infos: Seq<DependencyInfo>, level: nat, g: DependencyGraph) -> bool {
    &&& g.well_formed()
    &&& g.nodes@ == infos
    &&& forall|i: int| 0 <= i < infos.len() ==> #[trigger] g.adj()[i] == dependency_edges(g.nodes@, i, level)
}

/// An optional path as text.
pub open spec fn opt_text(o: Option<String>) -> Option<Seq<char>> {
    match o {
        Some(s) => Some(s@),
        None => None,
    }
}

/// The unit was compiled from `input` into `object`.
pub open spec fn has_input(info: DependencyInfo, input: Seq<char>, object: Option<Seq<char>>) -> bool {
    info.input_path@ == input && opt_text(info.object_path) == object
}

fn same_opt_text(a: &Option<String>, b: &Option<String>) -> (r: bool)
    ensures
        r == (opt_text(*a) == opt_text(*b)),
{
    match a {
        Some(x) => match b {
            Some(y) => *x == *y,
            None => false,
        },
        None => b.is_none(),
    }
}

/// The unit defines a symbol that satisfies `sym` at `level`.
fn any_definition_matches(info: &DependencyInfo, sym: &DependencySymbol, level: usize) -> (r: bool)
    ensures
        r == exists|k: int|
            0 <= k < info.defined@.len() && symbol_matches(#[trigger] info.defined@[k], *sym, level as nat),
{
    let mut k: usize = 0;
    while k < info.defined.len()
        invariant
            k <= info.defined@.len(),
            forall|j: int| 0 <= j < k ==> !symbol_matches(#[trigger] info.defined@[j], *sym, level as nat),
        decreases info.defined@.len() - k,
    {
        if info.defined[k].depends_on(sym, level) {
            return true;
        }
        k += 1;
    }
    false
}

/// The first position of `x` in `ids`.
fn position_of(ids: &Vec<usize>, x: usize) -> (r: Option<usize>)
    ensures
        r matches Some(i) ==> i < ids@.len() && ids@[i as int] == x && first_index(ids@, x) == i,
        r is None ==> !ids@.contains(x),
{
    let mut i: usize = 0;
    while i < ids.len()
        invariant
            i <= ids@.len(),
            forall|j: int| 0 <= j < i ==> ids@[j] != x,
        decreases ids@.len() - i,
    {
        if ids[i] == x {
            proof {
                lemma_first_index_is(ids@, x, i as int);
            }
            return Some(i);
        }
        i += 1;
    }
    None
}

/// Units in dense, 0-based storage, with one adjacency list per unit.
#[derive(Debug)]
pub struct DependencyGraph {
    pub nodes: Vec<DependencyInfo>,
    pub edges: Vec<Vec<usize>>,
}

impl DependencyGraph {
    /// The adjacency lists as sequences.
    pub open spec fn adj(&self) -> Seq<Seq<usize>> {
        self.edges@.map_values(|l: Vec<usize>| l@)
    }

    /// One adjacency list per node, and every edge ends at a node.
    pub open spec fn well_formed(&self) -> bool {
        &&& self.edges@.len() == self.nodes@.len()
        &&& forall|u: int, k: int|
            0 <= u < self.edges@.len() && 0 <= k < self.edges@[u]@.len() ==> (
            #[trigger] self.edges@[u]@[k] as int) < self.nodes@.len()
    }

    pub fn new() -> (r: Self)
        ensures
            r.well_formed(),
            r.nodes@.len() == 0,
            r.edges@.len() == 0,
    {
        DependencyGraph { nodes: Vec::new(), edges: Vec::new() }
    }

    pub fn add_node(&mut self, node: DependencyInfo)
        requires
            old(self).well_formed(),
        ensures
            final(self).well_formed(),
            final(self).nodes@ == old(self).nodes@.push(node),
            final(self).edges@.len() == old(self).edges@.len() + 1,
            final(self).edges@.drop_last() == old(self).edges@,
            final(self).edges@.last()@.len() == 0,
    {
        self.nodes.push(node);
        self.edges.push(Vec::new());
        assert(self.edges@.last()@ =~= Seq::<usize>::empty());
    }

    pub fn add_edge(&mut self, from: usize, to: usize)
        requires
            old(self).well_formed(),
            from < old(self).nodes@.len(),
            to < old(self).nodes@.len(),
        ensures
            final(self).well_formed(),
            final(self).nodes@ == old(self).nodes@,
            final(self).edges@.len() == old(self).edges@.len(),
            final(self).edges@[from as int]@ == old(self).edges@[from as int]@.push(to),
            forall|u: int|
                0 <= u < final(self).edges@.len() && u != from ==> #[trigger] final(self).edges@[u]
                    == old(self).edges@[u],
    {
        self.edges[from].push(to);
        assert forall|u: int, k: int|
            0 <= u < self.edges@.len() && 0 <= k < self.edges@[u]@.len() implies (
            #[trigger] self.edges@[u]@[k] as int) < self.nodes@.len() by {
            if u == from && k == old(self).edges@[u]@.len() {
                assert(self.edges@[u]@[k] == to);
            } else if u == from {
                assert(self.edges@[u]@[k] == old(self).edges@[u]@[k]);
            }
        }
    }

    pub fn direct_depends_on(&self, from: usize, to: usize) -> (r: bool)
        requires
            from < self.edges@.len(),
        ensures
            r == self.edges@[from as int]@.contains(to),
    {
        let list = &self.edges[from];
        let mut k: usize = 0;
        while k < list.len()
            invariant
                from < self.edges@.len(),
                list@ == self.edges@[from as int]@,
                k <= list@.len(),
                forall|j: int| 0 <= j < k ==> list@[j] != to,
            decreases list@.len() - k,
        {
            if list[k] == to {
                assert(list@[k as int] == to);
                return true;
            }
            k += 1;
        }
        false
    }

    /// `sub` is the subgraph induced by `order`: its node `k` is node
    /// `order[k]` here, and its edges are those among `order`, renumbered.
    pub open spec fn is_induced_subgraph(&self, sub: DependencyGraph, order: Seq<usize>) -> bool {
        &&& sub.well_formed()
        &&& sub.nodes@.len() == order.len()
        &&& forall|k: int|
            0 <= k < order.len() ==> same_unit(#[trigger] sub.nodes@[k], self.nodes@[order[k] as int])
        &&& forall|k: int|
            0 <= k < order.len() ==> #[trigger] sub.edges@[k]@ == induced(self.adj()[order[k] as int], order)
    }

    /// `sub` is what extraction from `seeds` gives: the subgraph induced by
    /// the nodes reachable from the seeds, numbered in some order of discovery.
    pub open spec fn is_extraction(&self, seeds: Seq<usize>, sub: DependencyGraph) -> bool {
        exists|order: Seq<usize>|
            is_closure_order(self.adj(), seeds, order) && #[trigger] self.is_induced_subgraph(sub, order)
    }

    pub fn build_sub_graph(&self, nodes: &Vec<usize>) -> (r: DependencyGraph)
        requires
            self.well_formed(),
            forall|k: int| 0 <= k < nodes@.len() ==> (#[trigger] nodes@[k] as int) < self.nodes@.len(),
        ensures
            self.is_induced_subgraph(r, nodes@),
    {
        let ghost e = self.adj();
        let mut sub = DependencyGraph::new();
        let mut i: usize = 0;
        while i < nodes.len()
            invariant
                self.well_formed(),
                forall|k: int| 0 <= k < nodes@.len() ==> (#[trigger] nodes@[k] as int) < self.nodes@.len(),
                i <= nodes@.len(),
                sub.well_formed(),
                sub.nodes@.len() == i,
                forall|k: int| 0 <= k < i ==> same_unit(#[trigger] sub.nodes@[k], self.nodes@[nodes@[k] as int]),
                forall|k: int| 0 <= k < i ==> (#[trigger] sub.edges@[k])@.len() == 0,
            decreases nodes@.len() - i,
        {
            let ghost before = sub.edges@;
            sub.add_node(self.nodes[nodes[i]].clone());
            assert forall|k: int| 0 <= k < i + 1 implies (#[trigger] sub.edges@[k])@.len() == 0 by {
                if k < i {
                    assert(sub.edges@[k] == sub.edges@.drop_last()[k]);
                }
            }
            i += 1;
        }
        let mut i: usize = 0;
        while i < nodes.len()
            invariant
                self.well_formed(),
                e == self.adj(),
                forall|k: int| 0 <= k < nodes@.len() ==> (#[trigger] nodes@[k] as int) < self.nodes@.len(),
                i <= nodes@.len(),
                sub.well_formed(),
                sub.nodes@.len() == nodes@.len(),
                forall|k: int| 0 <= k < nodes@.len() ==> same_unit(#[trigger] sub.nodes@[k], self.nodes@[nodes@[k] as int]),
                forall|k: int| 0 <= k < i ==> (#[trigger] sub.edges@[k])@ == induced(e[nodes@[k] as int], nodes@),
                forall|k: int| i <= k < nodes@.len() ==> (#[trigger] sub.edges@[k])@.len() == 0,
            decreases nodes@.len() - i,
        {
            let list = &self.edges[nodes[i]];
            let mut m: usize = 0;
            assert(list@.subrange(0, 0) =~= Seq::<usize>::empty());
            while m < list.len()
                invariant
                    self.well_formed(),
                    e == self.adj(),
                    forall|k: int| 0 <= k < nodes@.len() ==> (#[trigger] nodes@[k] as int) < self.nodes@.len(),
                    list@ == e[nodes@[i as int] as int],
                    i < nodes@.len(),
                    m <= list@.len(),
                    sub.well_formed(),
                    sub.nodes@.len() == nodes@.len(),
                    forall|k: int| 0 <= k < nodes@.len() ==> same_unit(#[trigger] sub.nodes@[k], self.nodes@[nodes@[k] as int]),
                    forall|k: int| 0 <= k < i ==> (#[trigger] sub.edges@[k])@ == induced(e[nodes@[k] as int], nodes@),
                    forall|k: int| i < k < nodes@.len() ==> (#[trigger] sub.edges@[k])@.len() == 0,
                    sub.edges@[i as int]@ == induced(list@.subrange(0, m as int), nodes@),
                decreases list@.len() - m,
            {
                let next = list[m];
                let ghost prefix = list@.subrange(0, m as int);
                assert(list@.subrange(0, m + 1).drop_last() =~= prefix);
                match position_of(nodes, next) {
                    Some(p) => {
                        sub.add_edge(i, p);
                    },
                    None => {},
                }
                m += 1;
            }
            assert(list@.subrange(0, list@.len() as int) =~= list@);
            i += 1;
        }
        sub
    }

    pub fn extract_sub_dependency(&self, nodes: Vec<usize>) -> (r: DependencyGraph)
        requires
            self.well_formed(),
            forall|k: int| 0 <= k < nodes@.len() ==> (#[trigger] nodes@[k] as int) < self.nodes@.len(),
        ensures
            self.is_extraction(nodes@, r),
    {
        let ghost e = self.adj();
        let ghost seeds = nodes@;
        let n = self.nodes.len();
        let mut all_nodes: Vec<usize> = Vec::new();
        let mut visited: Vec<bool> = vec![false; n];
        let mut queue = nodes;
        assert forall|i: int| 0 <= i < queue@.len() implies reaches_from_any(e, seeds, #[trigger] queue@[i]) by {
            lemma_reaches_self(e, seeds[i]);
        }
        while queue.len() > 0
            invariant
                self.well_formed(),
                e == self.adj(),
                n == self.nodes@.len(),
                visited@.len() == n,
                forall|i: int| 0 <= i < seeds.len() ==> visited@[#[trigger] seeds[i] as int]
                    || queue@.contains(seeds[i]),
                forall|i: int| 0 <= i < seeds.len() ==> (#[trigger] seeds[i] as int) < n,
                forall|i: int| 0 <= i < queue@.len() ==> (#[trigger] queue@[i] as int) < n,
                forall|i: int| 0 <= i < queue@.len() ==> reaches_from_any(e, seeds, #[trigger] queue@[i]),
                all_nodes@.no_duplicates(),
                is_discovery_order(e, seeds, all_nodes@),
                forall|i: int| 0 <= i < queue@.len() ==> seeds.contains(#[trigger] queue@[i])
                    || found_from(e, all_nodes@, all_nodes@.len() as int, queue@[i]),
                forall|k: int| 0 <= k < all_nodes@.len() ==> (#[trigger] all_nodes@[k] as int) < n,
                forall|v: usize| (v as int) < n ==> (visited@[v as int] <==> #[trigger] all_nodes@.contains(v)),
                forall|u: int| 0 <= u < n && #[trigger] visited@[u] ==> reaches_from_any(e, seeds, u as usize),
                forall|u: int, k: int|
                    0 <= u < n && visited@[u] && 0 <= k < e[u].len() ==> #[trigger] visited@[e[u][k] as int]
                        || queue@.contains(e[u][k]),
            decreases count_unmarked(visited@), queue@.len(),
        {
            let ghost before = queue@;
            let current = queue.pop().unwrap();
            proof {
                assert(before == queue@.push(current));
                assert forall|i: int| 0 <= i < queue@.len() implies seeds.contains(#[trigger] queue@[i])
                    || found_from(e, all_nodes@, all_nodes@.len() as int, queue@[i]) by {
                    assert(queue@[i] == before[i]);
                }
                assert(seeds.contains(current) || found_from(e, all_nodes@, all_nodes@.len() as int, current)) by {
                    assert(before[before.len() - 1] == current);
                }
                assert forall|i: int| 0 <= i < seeds.len() && seeds[i] != current && !visited@[seeds[i] as int]
                    implies queue@.contains(#[trigger] seeds[i]) by {
                    lemma_pop_keeps(before, queue@, current, seeds[i]);
                }
            }
            if visited[current] {
                proof {
                    assert forall|u: int, j: int|
                        0 <= u < n && visited@[u] && 0 <= j < e[u].len() implies #[trigger] visited@[e[u][j] as int]
                            || queue@.contains(e[u][j]) by {
                        if !visited@[e[u][j] as int] {
                            lemma_pop_keeps(before, queue@, current, e[u][j]);
                        }
                    }
                }
                continue;
            }
            let ghost vis0 = visited@;
            let ghost all0 = all_nodes@;
            proof {
                lemma_mark_one(visited@, current as int);
            }
            visited[current] = true;
            all_nodes.push(current);
            proof {
                assert forall|v: usize| (v as int) < n implies (visited@[v as int] <==> #[trigger] all_nodes@.contains(v)) by {
                    if v == current {
                        assert(all_nodes@.last() == v);
                    } else if all_nodes@.contains(v) {
                        let k = choose|k: int| 0 <= k < all_nodes@.len() && all_nodes@[k] == v;
                        assert(k < all0.len());
                        assert(all0[k] == v);
                        assert(all0.contains(v));
                    } else if vis0[v as int] {
                        assert(all0.contains(v));
                        let k = choose|k: int| 0 <= k < all0.len() && all0[k] == v;
                        assert(all_nodes@[k] == v);
                    }
                }
                assert forall|j: int| 0 <= j < all0.len() implies all0[j] == #[trigger] all_nodes@[j] by {}
                assert forall|k: int| 0 <= k < all_nodes@.len() implies seeds.contains(#[trigger] all_nodes@[k])
                    || found_from(e, all_nodes@, k, all_nodes@[k]) by {
                    if k < all0.len() {
                        assert(all0[k] == all_nodes@[k]);
                        if !seeds.contains(all0[k]) {
                            lemma_found_from_extends(e, all0, all_nodes@, k, k, all0[k]);
                        }
                    } else {
                        assert(all_nodes@[k] == current);
                        if !seeds.contains(current) {
                            lemma_found_from_extends(e, all0, all_nodes@, all0.len() as int, k, current);
                        }
                    }
                }
                assert forall|i: int| 0 <= i < queue@.len() implies seeds.contains(#[trigger] queue@[i])
                    || found_from(e, all_nodes@, all_nodes@.len() as int, queue@[i]) by {
                    if !seeds.contains(queue@[i]) {
                        lemma_found_from_extends(e, all0, all_nodes@, all0.len() as int, all_nodes@.len() as int, queue@[i]);
                    }
                }
                assert(!all0.contains(current));
                assert(all_nodes@.no_duplicates()) by {
                    assert forall|a: int, b: int| 0 <= a < b < all_nodes@.len() implies all_nodes@[a] != all_nodes@[b] by {
                        if b == all0.len() {
                            assert(all0[a] == all_nodes@[a]);
                        } else {
                            assert(all0[a] == all_nodes@[a] && all0[b] == all_nodes@[b]);
                        }
                    }
                }
            }
            let list = &self.edges[current];
            let ghost q0 = queue@;
            let mut k: usize = 0;
            while k < list.len()
                invariant
                    self.well_formed(),
                    e == self.adj(),
                    n == self.nodes@.len(),
                    current < n,
                    reaches_from_any(e, seeds, current),
                    k <= list@.len(),
                    list@ == e[current as int],
                    queue@.len() == q0.len() + k,
                    forall|i: int| 0 <= i < q0.len() ==> #[trigger] queue@[i] == q0[i],
                    forall|j: int| 0 <= j < k ==> #[trigger] queue@[q0.len() + j] == list@[j],
                    forall|i: int| 0 <= i < queue@.len() ==> (#[trigger] queue@[i] as int) < n,
                    forall|i: int| 0 <= i < queue@.len() ==> reaches_from_any(e, seeds, #[trigger] queue@[i]),
                    all_nodes@.len() > 0,
                    all_nodes@[all_nodes@.len() - 1] == current,
                    forall|i: int| 0 <= i < queue@.len() ==> seeds.contains(#[trigger] queue@[i])
                        || found_from(e, all_nodes@, all_nodes@.len() as int, queue@[i]),
                decreases list@.len() - k,
            {
                proof {
                    assert(self.edges@[current as int]@[k as int] == list@[k as int]);
                    assert(e[current as int][k as int] == list@[k as int]);
                    lemma_reaches_from_step(e, seeds, current, list@[k as int]);
                    assert(has_edge(e, all_nodes@[all_nodes@.len() - 1], list@[k as int]));
                }
                queue.push(list[k]);
                k += 1;
            }
            proof {
                assert forall|j: int| 0 <= j < list@.len() implies queue@.contains(#[trigger] list@[j]) by {
                    assert(queue@[q0.len() + j] == list@[j]);
                }
                assert forall|v: usize| q0.contains(v) implies queue@.contains(v) by {
                    let i = choose|i: int| 0 <= i < q0.len() && q0[i] == v;
                    assert(queue@[i] == v);
                }
                assert forall|u: int, j: int|
                    0 <= u < n && visited@[u] && 0 <= j < e[u].len() implies #[trigger] visited@[e[u][j] as int]
                        || queue@.contains(e[u][j]) by {
                    if u == current {
                        assert(list@[j] == e[u][j]);
                    } else {
                        assert(vis0[u]);
                        if e[u][j] != current && !visited@[e[u][j] as int] {
                            assert(!vis0[e[u][j] as int]);
                            lemma_pop_keeps(before, q0, current, e[u][j]);
                        }
                    }
                }
                assert forall|i: int| 0 <= i < seeds.len() implies visited@[#[trigger] seeds[i] as int]
                    || queue@.contains(seeds[i]) by {
                    if seeds[i] != current && !visited@[seeds[i] as int] {
                        assert(q0.contains(seeds[i]));
                    }
                }
            }
        }
        proof {
            assert forall|v: usize| (v as int) < e.len() && reaches_from_any(e, seeds, v)
                implies #[trigger] all_nodes@.contains(v) by {
                let i = choose|i: int| 0 <= i < seeds.len() && reaches(e, #[trigger] seeds[i], v);
                lemma_closed_holds_reachable(e, visited@, seeds[i], v);
            }
            assert forall|v: usize| #[trigger] all_nodes@.contains(v) implies reaches_from_any(e, seeds, v) by {
                let k = choose|k: int| 0 <= k < all_nodes@.len() && all_nodes@[k] == v;
                assert((all_nodes@[k] as int) < n);
            }
        }
        let r = self.build_sub_graph(&all_nodes);
        assert(is_closure_order(e, seeds, all_nodes@) && self.is_induced_subgraph(r, all_nodes@));
        r
    }

    pub fn build_dependency_edges(&mut self, fuzz_depends_level: usize)
        requires
            old(self).well_formed(),
        ensures
            final(self).well_formed(),
            final(self).nodes@ == old(self).nodes@,
            final(self).edges@.len() == old(self).edges@.len(),
            forall|i: int|
                0 <= i < old(self).nodes@.len() ==> #[trigger] final(self).adj()[i] == old(self).adj()[i]
                    + dependency_edges(old(self).nodes@, i, fuzz_depends_level as nat),
    {
        let ghost lvl = fuzz_depends_level as nat;
        let ghost e0 = self.edges@;
        let ghost nodes = self.nodes@;
        let n = self.nodes.len();
        let mut i: usize = 0;
        while i < n
            invariant
                self.well_formed(),
                lvl == fuzz_depends_level as nat,
                n == nodes.len(),
                self.nodes@ == nodes,
                self.edges@.len() == n,
                e0.len() == n,
                forall|k: int| 0 <= k < i ==> (#[trigger] self.edges@[k])@ == e0[k]@ + dependency_edges(nodes, k, lvl),
                forall|k: int| i <= k < n ==> #[trigger] self.edges@[k] == e0[k],
            decreases n - i,
        {
            let mut s: usize = 0;
            let ghost needs = self.nodes@[i as int].undefined@;
            assert(e0[i as int]@ + needed_edges(nodes, needs, lvl, 0) =~= e0[i as int]@);
            while s < self.nodes[i].undefined.len()
                invariant
                    self.well_formed(),
                    lvl == fuzz_depends_level as nat,
                    n == nodes.len(),
                    self.nodes@ == nodes,
                    self.edges@.len() == n,
                    e0.len() == n,
                    i < n,
                    needs == nodes[i as int].undefined@,
                    s <= needs.len(),
                    forall|k: int| 0 <= k < i ==> (#[trigger] self.edges@[k])@ == e0[k]@ + dependency_edges(nodes, k, lvl),
                    forall|k: int| i < k < n ==> #[trigger] self.edges@[k] == e0[k],
                    self.edges@[i as int]@ == e0[i as int]@ + needed_edges(nodes, needs, lvl, s as int),
                decreases needs.len() - s,
            {
                let ghost sym = needs[s as int];
                let ghost base = self.edges@[i as int]@;
                let mut j: usize = 0;
                assert(base + suppliers(nodes, sym, lvl, 0) =~= base);
                while j < n
                    invariant
                        self.well_formed(),
                        n == nodes.len(),
                        self.nodes@ == nodes,
                        self.edges@.len() == n,
                        e0.len() == n,
                        i < n,
                        needs == nodes[i as int].undefined@,
                        s < needs.len(),
                        sym == needs[s as int],
                        lvl == fuzz_depends_level as nat,
                        j <= n,
                        forall|k: int| 0 <= k < i ==> (#[trigger] self.edges@[k])@ == e0[k]@ + dependency_edges(nodes, k, lvl),
                        forall|k: int| i < k < n ==> #[trigger] self.edges@[k] == e0[k],
                        base == e0[i as int]@ + needed_edges(nodes, needs, lvl, s as int),
                        self.edges@[i as int]@ == base + suppliers(nodes, sym, lvl, j as int),
                    decreases n - j,
                {
                    let ghost cur = self.edges@[i as int]@;
                    let binary = self.nodes[j].is_main();
                    let supplier = !binary && any_definition_matches(
                        &self.nodes[j],
                        &self.nodes[i].undefined[s],
                        fuzz_depends_level,
                    );
                    proof {
                        assert(supplier == supplies(nodes[j as int], sym, lvl));
                        let prev = suppliers(nodes, sym, lvl, j as int);
                        assert(suppliers(nodes, sym, lvl, j + 1) == if supplier {
                            prev.push(j)
                        } else {
                            prev
                        });
                    }
                    if supplier {
                        self.edges[i].push(j);
                        assert(self.edges@[i as int]@ =~= base + suppliers(nodes, sym, lvl, j + 1));
                    }
                    proof {
                        assert forall|u: int, k: int|
                            0 <= u < self.edges@.len() && 0 <= k < self.edges@[u]@.len() implies (
                            #[trigger] self.edges@[u]@[k] as int) < self.nodes@.len() by {
                            if u == i && k == cur.len() {
                                assert(self.edges@[u]@[k] == j);
                            } else if u == i {
                                assert(self.edges@[u]@[k] == cur[k]);
                            }
                        }
                    }
                    j += 1;
                }
                assert(self.edges@[i as int]@ =~= e0[i as int]@ + needed_edges(nodes, needs, lvl, s + 1));
                s += 1;
            }
            i += 1;
        }
        assert forall|i: int|
            0 <= i < old(self).nodes@.len() implies #[trigger] self.adj()[i] == old(self).adj()[i]
                + dependency_edges(old(self).nodes@, i, fuzz_depends_level as nat) by {
            assert(self.adj()[i] == self.edges@[i]@);
        }
    }

    pub fn get_node_index_with_input(&self, input_path: &String, object_path: &Option<String>) -> (r: Option<
        usize,
    >)
        ensures
            r matches Some(i) ==> i < self.nodes@.len() && has_input(
                self.nodes@[i as int],
                input_path@,
                opt_text(*object_path),
            ) && forall|j: int|
                0 <= j < i ==> !has_input(#[trigger] self.nodes@[j], input_path@, opt_text(*object_path)),
            r is None ==> forall|j: int|
                0 <= j < self.nodes@.len() ==> !has_input(
                    #[trigger] self.nodes@[j],
                    input_path@,
                    opt_text(*object_path),
                ),
    {
        let mut i: usize = 0;
        while i < self.nodes.len()
            invariant
                i <= self.nodes@.len(),
                forall|j: int|
                    0 <= j < i ==> !has_input(#[trigger] self.nodes@[j], input_path@, opt_text(*object_path)),
            decreases self.nodes@.len() - i,
        {
            let node = &self.nodes[i];
            if node.input_path == *input_path && same_opt_text(&node.object_path, object_path) {
                return Some(i);
            }
            i += 1;
        }
        None
    }

    pub fn get_node_index_with_output(&self, output_path: &String) -> (r: Option<usize>)
        ensures
            r matches Some(i) ==> i < self.nodes@.len() && self.nodes@[i as int].output_path@ == output_path@
                && forall|j: int| 0 <= j < i ==> (#[trigger] self.nodes@[j]).output_path@ != output_path@,
            r is None ==> forall|j: int|
                0 <= j < self.nodes@.len() ==> (#[trigger] self.nodes@[j]).output_path@ != output_path@,
    {
        let mut i: usize = 0;
        while i < self.nodes.len()
            invariant
                i <= self.nodes@.len(),
                forall|j: int| 0 <= j < i ==> (#[trigger] self.nodes@[j]).output_path@ != output_path@,
            decreases self.nodes@.len() - i,
        {
            if self.nodes[i].output_path == *output_path {
                return Some(i);
            }
            i += 1;
        }
        None
    }

    pub fn depends_on(&self, from: usize, to: usize) -> (r: bool)
        requires
            self.well_formed(),
            from < self.nodes@.len(),
        ensures
            r == reaches(self.adj(), from, to),
    {
        let ghost e = self.adj();
        let n = self.nodes.len();
        let mut visited: Vec<bool> = vec![false; n];
        let mut queue: Vec<usize> = vec![from];
        assert(visited@.len() == n);
        proof {
            lemma_reaches_self(e, from);
        }
        while queue.len() > 0
            invariant
                self.well_formed(),
                e == self.adj(),
                n == self.nodes@.len(),
                visited@.len() == n,
                from < n,
                visited@[from as int] || queue@.contains(from),
                forall|i: int| 0 <= i < queue@.len() ==> (#[trigger] queue@[i] as int) < n,
                forall|i: int| 0 <= i < queue@.len() ==> reaches(e, from, #[trigger] queue@[i]),
                forall|u: int| 0 <= u < n && #[trigger] visited@[u] ==> reaches(e, from, u as usize),
                (to as int) < n ==> !visited@[to as int],
                forall|u: int, k: int|
                    0 <= u < n && visited@[u] && 0 <= k < e[u].len() ==> #[trigger] visited@[e[u][k] as int]
                        || queue@.contains(e[u][k]),
            decreases count_unmarked(visited@), queue@.len(),
        {
            let ghost before = queue@;
            let current = queue.pop().unwrap();
            proof {
                assert(before == queue@.push(current));
            }
            proof {
                if from != current && queue@.len() + 1 == before.len() && before.contains(from) {
                    lemma_pop_keeps(before, queue@, current, from);
                }
            }
            if visited[current] {
                proof {
                    assert forall|u: int, j: int|
                        0 <= u < n && visited@[u] && 0 <= j < e[u].len() implies #[trigger] visited@[e[u][j] as int]
                            || queue@.contains(e[u][j]) by {
                        if !visited@[e[u][j] as int] {
                            lemma_pop_keeps(before, queue@, current, e[u][j]);
                        }
                    }
                }
                continue;
            }
            let ghost vis0 = visited@;
            proof {
                lemma_mark_one(visited@, current as int);
            }
            visited[current] = true;
            if current == to {
                return true;
            }
            let list = &self.edges[current];
            let ghost q0 = queue@;
            let mut k: usize = 0;
            while k < list.len()
                invariant
                    self.well_formed(),
                    e == self.adj(),
                    n == self.nodes@.len(),
                    current < n,
                    reaches(e, from, current),
                    k <= list@.len(),
                    list@ == e[current as int],
                    queue@.len() == q0.len() + k,
                    forall|i: int| 0 <= i < q0.len() ==> #[trigger] queue@[i] == q0[i],
                    forall|j: int| 0 <= j < k ==> #[trigger] queue@[q0.len() + j] == list@[j],
                    forall|i: int| 0 <= i < queue@.len() ==> (#[trigger] queue@[i] as int) < n,
                    forall|i: int| 0 <= i < queue@.len() ==> reaches(e, from, #[trigger] queue@[i]),
                decreases list@.len() - k,
            {
                proof {
                    assert(self.edges@[current as int]@[k as int] == list@[k as int]);
                    assert(e[current as int][k as int] == list@[k as int]);
                    lemma_reaches_step(e, from, current, list@[k as int]);
                }
                queue.push(list[k]);
                k += 1;
            }
            proof {
                assert forall|j: int| 0 <= j < list@.len() implies queue@.contains(#[trigger] list@[j]) by {
                    assert(queue@[q0.len() + j] == list@[j]);
                }
                assert forall|v: usize| q0.contains(v) implies queue@.contains(v) by {
                    let i = choose|i: int| 0 <= i < q0.len() && q0[i] == v;
                    assert(queue@[i] == v);
                }
                assert forall|u: int, j: int|
                    0 <= u < n && visited@[u] && 0 <= j < e[u].len() implies #[trigger] visited@[e[u][j] as int]
                        || queue@.contains(e[u][j]) by {
                    if u == current {
                        assert(list@[j] == e[u][j]);
                    } else {
                        assert(vis0[u]);
                        if e[u][j] != current && !visited@[e[u][j] as int] {
                            assert(!vis0[e[u][j] as int]);
                            lemma_pop_keeps(before, q0, current, e[u][j]);
                        }
                    }
                }
            }
        }
        proof {
            if reaches(e, from, to) {
                lemma_closed_holds_reachable(e, visited@, from, to);
            }
        }
        false
    }
}

/// Builds the graph of `dependency_infos`, in their order, with the edges
/// that `fuzz_depends_level` gives.
pub fn build_dependency(dependency_infos: Vec<DependencyInfo>, fuzz_depends_level: usize) -> (r:
    DependencyGraph)
    ensures
        is_built_from(dependency_infos@, fuzz_depends_level as nat, r),
{
    let ghost infos = dependency_infos@;
    let mut dependency_graph = DependencyGraph::new();
    let mut pending = dependency_infos;
    let mut reversed: Vec<DependencyInfo> = Vec::new();
    while pending.len() > 0
        invariant
            pending@.len() + reversed@.len() == infos.len(),
            pending@ == infos.subrange(0, pending@.len() as int),
            forall|k: int| 0 <= k < reversed@.len() ==> #[trigger] reversed@[k] == infos[infos.len() - 1 - k],
        decreases pending@.len(),
    {
        let info = pending.pop().unwrap();
        reversed.push(info);
    }
    while reversed.len() > 0
        invariant
            dependency_graph.well_formed(),
            dependency_graph.nodes@.len() + reversed@.len() == infos.len(),
            dependency_graph.nodes@ == infos.subrange(0, dependency_graph.nodes@.len() as int),
            forall|k: int| 0 <= k < dependency_graph.edges@.len() ==> (#[trigger] dependency_graph.edges@[k])@.len() == 0,
            forall|k: int| 0 <= k < reversed@.len() ==> #[trigger] reversed@[k] == infos[infos.len() - 1 - k],
        decreases reversed@.len(),
    {
        let info = reversed.pop().unwrap();
        let ghost before = dependency_graph.edges@;
        dependency_graph.add_node(info);
        assert forall|k: int| 0 <= k < dependency_graph.edges@.len() implies (#[trigger] dependency_graph.edges@[k])@.len() == 0 by {
            if k < before.len() {
                assert(dependency_graph.edges@[k] == dependency_graph.edges@.drop_last()[k]);
            }
        }
    }
    assert(dependency_graph.nodes@ =~= infos);
    dependency_graph.build_dependency_edges(fuzz_depends_level);
    assert forall|i: int| 0 <= i < infos.len() implies #[trigger] dependency_graph.adj()[i] == dependency_edges(
        dependency_graph.nodes@,
        i,
        fuzz_depends_level as nat,
    ) by {
        assert(dependency_graph.adj()[i] =~= Seq::<usize>::empty() + dependency_edges(
            dependency_graph.nodes@,
            i,
            fuzz_depends_level as nat,
        ));
    }
    dependency_graph
}

} // verus!
