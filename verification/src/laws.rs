//! Global laws of the graph, stated over the same spec functions that the
//! executable functions' contracts use.

use crate::graph::MovieGraph;
use vstd::prelude::*;

verus! {

/// Symmetry of co-appearance: whenever actor `b` is among the neighbours of
/// actor `a`, actor `a` is among the neighbours of actor `b`.
pub proof fn lemma_edge_symmetric(g: MovieGraph, a: Seq<char>, b: Seq<char>)
    requires
        g.wf(),
        g.spec_has_edge(a, b),
    ensures
        g.spec_has_edge(b, a),
{
    let (i, j) = choose|i: usize, j: usize|
        i < g.names@.len() && j < g.names@.len() && g.name_at(i as int) == a && g.name_at(
            j as int,
        ) == b && g.spec_edge(i, j);
    assert(g.spec_edge(j, i));
    assert(g.name_at(j as int) == b && g.name_at(i as int) == a && g.spec_edge(j, i));
}

/// Symmetry at the adjacency level: if id `j` is in the adjacency list of
/// id `i`, then id `i` is in the adjacency list of id `j`.
pub proof fn lemma_adjacency_symmetric(g: MovieGraph, i: usize, j: usize)
    requires
        g.wf(),
        g.spec_edge(i, j),
    ensures
        g.spec_edge(j, i),
{
}

/// The length of a shortest path is the graph distance between its
/// endpoints: any two paths between the same actors that are each no longer
/// than every path between them have one and the same length, so the edge
/// count a shortest-path query reports is a property of the graph, not of
/// the search.
pub proof fn lemma_shortest_length_unique(
    g: MovieGraph,
    x: Seq<char>,
    y: Seq<char>,
    p: Seq<Seq<char>>,
    q: Seq<Seq<char>>,
)
    requires
        g.wf(),
        g.name_path(p),
        p.first() == x,
        p.last() == y,
        forall|w: Seq<Seq<char>>|
            g.name_path(w) && w.first() == x && w.last() == y ==> w.len() >= p.len(),
        g.name_path(q),
        q.first() == x,
        q.last() == y,
        forall|w: Seq<Seq<char>>|
            g.name_path(w) && w.first() == x && w.last() == y ==> w.len() >= q.len(),
    ensures
        p.len() == q.len(),
{
}

/// A shortest-path query from an actor to itself is pinned down completely:
/// any path that starts and ends at `x` and is no longer than every such
/// path is the one-element path `[x]`.
pub proof fn lemma_same_actor_path(g: MovieGraph, x: Seq<char>, p: Seq<Seq<char>>)
    requires
        g.wf(),
        g.contains_name(x),
        g.name_path(p),
        p.first() == x,
        p.last() == x,
        forall|q: Seq<Seq<char>>|
            g.name_path(q) && q.first() == x && q.last() == x ==> q.len() >= p.len(),
    ensures
        p =~= seq![x],
{
    let single = seq![x];
    assert(g.name_path(single)) by {
        assert(single.len() == 1 && single[0] == x);
    }
    assert(single.first() == x && single.last() == x);
    assert(p.len() == 1);
    assert(p[0] == x);
}

} // verus!
