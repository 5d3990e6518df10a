//! The co-occurrence graph: vertices are actor names, and an undirected
//! edge joins two actors that appeared in at least one movie together.
//!
//! Vertices are stored as a vector of distinct names; adjacency is kept as
//! index lists, one per vertex, together with an explicit list of the
//! distinct undirected edges (each recorded once, as an ordered index pair).

use vstd::prelude::*;

verus! {

broadcast use vstd::seq_lib::lemma_seq_contains_after_push;

/// Why a query could not produce a path.
#[derive(Clone, Copy, PartialEq, Eq, Structural, Debug)]
pub enum GraphError {
    /// The input source could not be obtained at all.
    LoadFailure,
    /// A record could not be parsed; it is skipped, never fatal.
    MalformedRecord,
    /// A queried actor name never appeared in the input.
    VertexNotFound,
    /// Both actors exist but no chain of co-appearances joins them.
    NoPathFound,
}

/// An undirected graph of actors keyed by name.
pub struct MovieGraph {
    /// The distinct actor names; the position of a name is its vertex id.
    pub names: Vec<String>,
    /// `adj[i]` lists the vertex ids adjacent to vertex `i`, without
    /// duplicates and without `i` itself.
    pub adj: Vec<Vec<usize>>,
    /// Every undirected edge exactly once, as a pair `(i, j)` with `i < j`.
    pub edges: Vec<(usize, usize)>,
}

impl MovieGraph {
    /// The number of vertices, as a spec value.
    pub open spec fn vertex_count(self) -> nat {
        self.names@.len()
    }

    /// Vertex id `j` is adjacent to vertex id `i`.
    pub open spec fn spec_edge(self, i: usize, j: usize) -> bool {
        i < self.adj@.len() && self.adj@[i as int]@.contains(j)
    }

    /// The name at vertex id `i`.
    pub open spec fn name_at(self, i: int) -> Seq<char> {
        self.names@[i]@
    }

    /// The graph has a vertex with this name.
    pub open spec fn contains_name(self, name: Seq<char>) -> bool {
        exists|i: int| 0 <= i < self.names@.len() && self.name_at(i) == name
    }

    /// The vertex id of a name that the graph contains.
    pub open spec fn id_of(self, name: Seq<char>) -> int {
        choose|i: int| 0 <= i < self.names@.len() && self.name_at(i) == name
    }

    /// Actors named `a` and `b` co-appeared in some movie.
    pub open spec fn spec_has_edge(self, a: Seq<char>, b: Seq<char>) -> bool {
        exists|i: usize, j: usize|
            i < self.names@.len() && j < self.names@.len() && self.name_at(i as int) == a
                && self.name_at(j as int) == b && self.spec_edge(i, j)
    }

    /// The set of distinct undirected edges, each as an ordered id pair.
    pub open spec fn edge_pair_set(self) -> Set<(usize, usize)> {
        Set::new(|p: (usize, usize)| p.0 < p.1 && self.spec_edge(p.0, p.1))
    }

    /// Structural well-formedness: one adjacency list per name, distinct
    /// names, in-range self-loop-free duplicate-free adjacency lists,
    /// symmetry, and an edge list that enumerates each undirected edge once.
    pub open spec fn wf(self) -> bool {
        &&& self.adj@.len() == self.names@.len()
        &&& forall|i: int, j: int|
            0 <= i < self.names@.len() && 0 <= j < self.names@.len() && i != j
                ==> self.name_at(i) != self.name_at(j)
        &&& forall|i: int, k: int|
            0 <= i < self.adj@.len() && 0 <= k < self.adj@[i]@.len()
                ==> self.adj@[i]@[k] < self.names@.len() && self.adj@[i]@[k] != i
        &&& forall|i: int| 0 <= i < self.adj@.len() ==> (#[trigger] self.adj@[i])@.no_duplicates()
        &&& forall|i: usize, j: usize| #[trigger] self.spec_edge(i, j) ==> self.spec_edge(j, i)
        &&& self.edges@.no_duplicates()
        &&& forall|k: int|
            0 <= k < self.edges@.len()
                ==> (#[trigger] self.edges@[k]).0 < self.edges@[k].1
                    && self.spec_edge(self.edges@[k].0, self.edges@[k].1)
        &&& forall|i: usize, j: usize| i < j && self.spec_edge(i, j) ==> self.edges@.contains((i, j))
    }

    /// An empty graph: no actors, no edges.
    pub fn new() -> (g: Self)
        ensures
            g.wf(),
            g.vertex_count() == 0,
            g.edges@.len() == 0,
            forall|nm: Seq<char>| !g.contains_name(nm),
            forall|a: Seq<char>, b: Seq<char>| !g.spec_has_edge(a, b),
    {
        MovieGraph { names: Vec::new(), adj: Vec::new(), edges: Vec::new() }
    }

    /// The vertex id under a name, if the name is known.
    pub fn find_index(&self, name: &String) -> (r: Option<usize>)
        ensures
            match r {
                Some(i) => i < self.names@.len() && self.name_at(i as int) == name@,
                None => !self.contains_name(name@),
            },
    {
        let n = self.names.len();
        for i in 0..n
            invariant
                n == self.names@.len(),
                forall|j: int| 0 <= j < i ==> self.name_at(j) != name@,
        {
            if self.names[i] == *name {
                return Some(i);
            }
        }
        None
    }

    /// The number of distinct actor names known to the graph.
    pub fn num_vertices(&self) -> (r: usize)
        ensures
            r == self.vertex_count(),
    {
        self.names.len()
    }

    /// The graph knows an actor under this name.
    pub fn has_vertex(&self, name: &String) -> (r: bool)
        ensures
            r == self.contains_name(name@),
    {
        self.find_index(name).is_some()
    }

    /// The number of co-stars of the named actor, or `None` if the name is
    /// unknown (distinct from a known actor of degree zero).
    pub fn degree(&self, name: &String) -> (r: Option<usize>)
        requires
            self.wf(),
        ensures
            match r {
                Some(d) => self.contains_name(name@) && d == self.adj@[self.id_of(name@)]@.len(),
                None => !self.contains_name(name@),
            },
    {
        match self.find_index(name) {
            Some(i) => {
                proof {
                    let j = self.id_of(name@);
                    assert(self.name_at(i as int) == name@ && self.name_at(j) == name@);
                }
                Some(self.adj[i].len())
            },
            None => None,
        }
    }

    /// The two named actors co-appeared in at least one movie.
    pub fn has_edge(&self, a: &String, b: &String) -> (r: bool)
        requires
            self.wf(),
        ensures
            r == self.spec_has_edge(a@, b@),
    {
        match (self.find_index(a), self.find_index(b)) {
            (Some(i), Some(j)) => {
                let r = vec_contains(&self.adj[i], j);
                proof {
                    if self.spec_has_edge(a@, b@) {
                        let (i2, j2) = choose|i2: usize, j2: usize|
                            i2 < self.names@.len() && j2 < self.names@.len()
                                && self.name_at(i2 as int) == a@ && self.name_at(j2 as int) == b@
                                && self.spec_edge(i2, j2);
                        assert(i2 == i && j2 == j);
                    }
                    if r {
                        assert(self.spec_edge(i, j));
                        assert(self.spec_has_edge(a@, b@));
                    }
                }
                r
            },
            _ => false,
        }
    }

    /// The number of distinct undirected edges. Counting the explicit edge
    /// list is exactly counting the set of unordered adjacent pairs: no
    /// double counting, no missing symmetric half.
    pub fn num_edges(&self) -> (r: usize)
        requires
            self.wf(),
        ensures
            r == self.edge_pair_set().len(),
    {
        proof {
            self.edges@.unique_seq_to_set();
            assert(self.edges@.to_set() =~= self.edge_pair_set());
        }
        self.edges.len()
    }

    /// A snapshot of the adjacency structure by name: one entry per actor,
    /// pairing the actor's name with the names of all co-stars.
    pub fn get_adj_list(&self) -> (r: Vec<(String, Vec<String>)>)
        requires
            self.wf(),
        ensures
            r@.len() == self.names@.len(),
            forall|i: int| 0 <= i < r@.len() ==> (#[trigger] r@[i]).0@ == self.name_at(i),
            forall|i: int| 0 <= i < r@.len() ==> (#[trigger] r@[i]).1@.len() == self.adj@[i]@.len(),
            forall|i: int, k: int|
                0 <= i < r@.len() && 0 <= k < r@[i].1@.len() ==> r@[i].1@[k]@ == self.name_at(
                    self.adj@[i]@[k] as int,
                ),
    {
        let n = self.names.len();
        let mut r: Vec<(String, Vec<String>)> = Vec::new();
        for i in 0..n
            invariant
                self.wf(),
                n == self.names@.len(),
                r@.len() == i,
                forall|t: int| 0 <= t < i ==> (#[trigger] r@[t]).0@ == self.name_at(t),
                forall|t: int| 0 <= t < i ==> (#[trigger] r@[t]).1@.len() == self.adj@[t]@.len(),
                forall|t: int, k: int|
                    0 <= t < i && 0 <= k < r@[t].1@.len() ==> r@[t].1@[k]@ == self.name_at(
                        self.adj@[t]@[k] as int,
                    ),
        {
            let row_len = self.adj[i].len();
            let mut names_row: Vec<String> = Vec::new();
            for k in 0..row_len
                invariant
                    self.wf(),
                    n == self.names@.len(),
                    i < n,
                    row_len == self.adj@[i as int]@.len(),
                    names_row@.len() == k,
                    forall|m: int|
                        0 <= m < k ==> names_row@[m]@ == self.name_at(
                            self.adj@[i as int]@[m] as int,
                        ),
            {
                let id = self.adj[i][k];
                names_row.push(self.names[id].clone());
            }
            r.push((self.names[i].clone(), names_row));
        }
        r
    }

    /// The vertex id under a name, adding a fresh isolated vertex if the
    /// name is new. Existing ids, adjacency and edges are untouched.
    fn find_or_add(&mut self, name: String) -> (i: usize)
        requires
            old(self).wf(),
        ensures
            final(self).wf(),
            i < final(self).names@.len(),
            final(self).name_at(i as int) == name@,
            final(self).names@.len() >= old(self).names@.len(),
            forall|k: int|
                0 <= k < old(self).names@.len() ==> final(self).name_at(k) == old(self).name_at(
                    k,
                ),
            forall|nm: Seq<char>|
                final(self).contains_name(nm) <==> (old(self).contains_name(nm) || nm == name@),
            forall|p: usize, q: usize| final(self).spec_edge(p, q) <==> old(self).spec_edge(p, q),
            forall|a: Seq<char>, b: Seq<char>|
                final(self).spec_has_edge(a, b) <==> old(self).spec_has_edge(a, b),
            final(self).edges@ =~= old(self).edges@,
    {
        match self.find_index(&name) {
            Some(i) => {
                proof {
                    assert(self.contains_name(name@));
                }
                i
            },
            None => {
                let i = self.names.len();
                self.names.push(name);
                self.adj.push(Vec::new());
                proof {
                    assert(self.name_at(i as int) == name@);
                    assert forall|p: int, q: int|
                        0 <= p < self.names@.len() && 0 <= q < self.names@.len() && p
                        != q implies self.name_at(p) != self.name_at(q) by {
                        let n0 = old(self).names@.len() as int;
                        if p < n0 && q < n0 {
                            assert(self.name_at(p) == old(self).name_at(p));
                            assert(self.name_at(q) == old(self).name_at(q));
                        } else if p == n0 {
                            assert(self.name_at(q) == old(self).name_at(q));
                            if old(self).name_at(q) == name@ {
                                assert(old(self).contains_name(name@));
                            }
                        } else {
                            assert(self.name_at(p) == old(self).name_at(p));
                            if old(self).name_at(p) == name@ {
                                assert(old(self).contains_name(name@));
                            }
                        }
                    }
                    assert forall|p: usize, q: usize| self.spec_edge(p, q)
                        implies old(self).spec_edge(p, q) by {
                        if p == old(self).adj@.len() {
                            assert(self.adj@[p as int]@.len() == 0);
                        } else {
                            assert(self.adj@[p as int] == old(self).adj@[p as int]);
                        }
                    }
                    assert forall|nm: Seq<char>| self.contains_name(nm)
                        implies (old(self).contains_name(nm) || nm == name@) by {
                        let w = choose|w: int|
                            0 <= w < self.names@.len() && self.name_at(w) == nm;
                        if w < old(self).names@.len() {
                            assert(old(self).name_at(w) == nm);
                        }
                    }
                    assert forall|nm: Seq<char>| old(self).contains_name(nm)
                        implies self.contains_name(nm) by {
                        let w = choose|w: int|
                            0 <= w < old(self).names@.len() && old(self).name_at(w) == nm;
                        assert(self.name_at(w) == nm);
                    }
                    assert forall|a: Seq<char>, b: Seq<char>| self.spec_has_edge(a, b)
                        implies old(self).spec_has_edge(a, b) by {
                        let (p, q) = choose|p: usize, q: usize|
                            p < self.names@.len() && q < self.names@.len()
                                && self.name_at(p as int) == a && self.name_at(q as int) == b
                                && self.spec_edge(p, q);
                        assert(old(self).spec_edge(p, q));
                        assert(old(self).name_at(p as int) == a && old(self).name_at(q as int)
                            == b);
                    }
                    assert forall|a: Seq<char>, b: Seq<char>| old(self).spec_has_edge(a, b)
                        implies self.spec_has_edge(a, b) by {
                        let (p, q) = choose|p: usize, q: usize|
                            p < old(self).names@.len() && q < old(self).names@.len()
                                && old(self).name_at(p as int) == a && old(self).name_at(q as int)
                                == b && old(self).spec_edge(p, q);
                        assert(self.name_at(p as int) == a && self.name_at(q as int) == b);
                        assert(self.spec_edge(p, q));
                    }
                }
                i
            },
        }
    }

    /// Record that the two named actors co-appeared in a movie, creating
    /// either vertex if it is new. The edge is undirected and deduplicated,
    /// and an actor is never joined to itself: for `u == v` only the vertex
    /// is ensured to exist, no self-loop appears.
    pub fn add_edge(&mut self, u: String, v: String)
        requires
            old(self).wf(),
        ensures
            final(self).wf(),
            forall|nm: Seq<char>|
                final(self).contains_name(nm) <==> (old(self).contains_name(nm) || nm == u@ || nm
                    == v@),
            forall|a: Seq<char>, b: Seq<char>|
                final(self).spec_has_edge(a, b) <==> (old(self).spec_has_edge(a, b) || (u@ != v@
                    && ((a == u@ && b == v@) || (a == v@ && b == u@)))),
    {
        let ghost u_view = u@;
        let ghost v_view = v@;
        let ui = self.find_or_add(u);
        let vi = self.find_or_add(v);
        let ghost g2 = *self;
        if ui == vi {
            proof {
                assert(u_view == v_view);
            }
            return ;
        }
        proof {
            assert(u_view != v_view);
        }
        if !vec_contains(&self.adj[ui], vi) {
            proof {
                assert(!g2.spec_edge(ui, vi));
                assert(!g2.adj@[vi as int]@.contains(ui)) by {
                    if g2.adj@[vi as int]@.contains(ui) {
                        assert(g2.spec_edge(vi, ui));
                    }
                }
            }
            push_adj(&mut self.adj, ui, vi);
            push_adj(&mut self.adj, vi, ui);
            let lo = if ui < vi {
                ui
            } else {
                vi
            };
            let hi = if ui < vi {
                vi
            } else {
                ui
            };
            self.edges.push((lo, hi));
            proof {
                lemma_insert_edge(g2, *self, ui, vi, lo, hi, u_view, v_view);
                lemma_same_names_contains(g2, *self);
            }
        } else {
            proof {
                assert(g2.spec_edge(ui, vi));
                assert(g2.spec_has_edge(u_view, v_view)) by {
                    assert(g2.name_at(ui as int) == u_view && g2.name_at(vi as int) == v_view
                        && g2.spec_edge(ui, vi));
                }
                assert(g2.spec_has_edge(v_view, u_view)) by {
                    assert(g2.spec_edge(vi, ui));
                }
            }
        }
    }
}

/// Extend the adjacency row at index `i` by one id, leaving every other row
/// unchanged.
fn push_adj(adj: &mut Vec<Vec<usize>>, i: usize, x: usize)
    requires
        i < old(adj)@.len(),
    ensures
        final(adj)@.len() == old(adj)@.len(),
        forall|k: int| 0 <= k < final(adj)@.len() && k != i ==> final(adj)@[k] == old(adj)@[k],
        final(adj)@[i as int]@ == old(adj)@[i as int]@.push(x),
{
    let ghost orig = adj@;
    let mut row = adj.remove(i);
    row.push(x);
    adj.insert(i, row);
    proof {
        assert forall|k: int| 0 <= k < adj@.len() && k != i implies adj@[k] == orig[k] by {
            if k < i {
                assert(adj@[k] == orig.remove(i as int)[k]);
            } else {
                assert(adj@[k] == orig.remove(i as int)[k - 1]);
            }
        }
        assert(adj@[i as int] == row);
    }
}

/// A duplicate-free sequence stays duplicate-free when an element it does
/// not contain is pushed onto it.
proof fn lemma_push_no_duplicates<A>(s: Seq<A>, x: A)
    requires
        s.no_duplicates(),
        !s.contains(x),
    ensures
        s.push(x).no_duplicates(),
{
    assert forall|i: int, j: int|
        0 <= i < s.push(x).len() && 0 <= j < s.push(x).len() && i != j implies s.push(x)[i]
        != s.push(x)[j] by {
        if j == s.len() {
            assert(s[i] == s.push(x)[i]);
            assert(s.contains(s[i]));
        } else if i == s.len() {
            assert(s[j] == s.push(x)[j]);
            assert(s.contains(s[j]));
        }
    }
}

/// Inserting one fresh undirected edge extends the edge relation by exactly
/// the two directions of that edge, keeps the graph well-formed, and extends
/// the named co-appearance relation by exactly the two name orders.
proof fn lemma_insert_edge(
    g2: MovieGraph,
    g3: MovieGraph,
    ui: usize,
    vi: usize,
    lo: usize,
    hi: usize,
    u: Seq<char>,
    v: Seq<char>,
)
    requires
        g2.wf(),
        ui < g2.names@.len(),
        vi < g2.names@.len(),
        ui != vi,
        g2.name_at(ui as int) == u,
        g2.name_at(vi as int) == v,
        !g2.adj@[ui as int]@.contains(vi),
        !g2.adj@[vi as int]@.contains(ui),
        g3.names@ == g2.names@,
        g3.adj@.len() == g2.adj@.len(),
        forall|k: int| 0 <= k < g3.adj@.len() && k != ui && k != vi ==> g3.adj@[k] == g2.adj@[k],
        g3.adj@[ui as int]@ == g2.adj@[ui as int]@.push(vi),
        g3.adj@[vi as int]@ == g2.adj@[vi as int]@.push(ui),
        g3.edges@ == g2.edges@.push((lo, hi)),
        lo < hi,
        (lo == ui && hi == vi) || (lo == vi && hi == ui),
    ensures
        g3.wf(),
        forall|p: usize, q: usize|
            g3.spec_edge(p, q) <==> (g2.spec_edge(p, q) || (p == ui && q == vi) || (p == vi && q
                == ui)),
        forall|a: Seq<char>, b: Seq<char>|
            g3.spec_has_edge(a, b) <==> (g2.spec_has_edge(a, b) || (a == u && b == v) || (a == v
                && b == u)),
{
    assert forall|p: usize, q: usize|
        g3.spec_edge(p, q) <==> (g2.spec_edge(p, q) || (p == ui && q == vi) || (p == vi && q
            == ui)) by {
        if p < g3.adj@.len() {
            if p == ui {
                assert(g3.adj@[p as int]@.contains(q) <==> (g2.adj@[p as int]@.contains(q) || q
                    == vi));
            } else if p == vi {
                assert(g3.adj@[p as int]@.contains(q) <==> (g2.adj@[p as int]@.contains(q) || q
                    == ui));
            } else {
                assert(g3.adj@[p as int] == g2.adj@[p as int]);
            }
        }
    }
    lemma_push_no_duplicates(g2.adj@[ui as int]@, vi);
    lemma_push_no_duplicates(g2.adj@[vi as int]@, ui);
    assert(!g2.edges@.contains((lo, hi))) by {
        if g2.edges@.contains((lo, hi)) {
            let k = choose|k: int| 0 <= k < g2.edges@.len() && g2.edges@[k] == (lo, hi);
            assert(g2.edges@[k].0 == lo && g2.edges@[k].1 == hi);
            assert(g2.spec_edge(lo, hi));
        }
    }
    lemma_push_no_duplicates(g2.edges@, (lo, hi));
    assert(g3.wf()) by {
        assert(g3.adj@.len() == g3.names@.len());
        assert forall|i: int, j: int|
            0 <= i < g3.names@.len() && 0 <= j < g3.names@.len() && i != j implies g3.name_at(i)
            != g3.name_at(j) by {
            assert(g3.name_at(i) == g2.name_at(i));
            assert(g3.name_at(j) == g2.name_at(j));
        }
        assert forall|i: int, k: int|
            0 <= i < g3.adj@.len() && 0 <= k < g3.adj@[i]@.len() implies g3.adj@[i]@[k]
            < g3.names@.len() && g3.adj@[i]@[k] != i by {
            if i == ui {
                assert(g3.adj@[i]@ == g2.adj@[i]@.push(vi));
                if k < g2.adj@[i]@.len() {
                    assert(g3.adj@[i]@[k] == g2.adj@[i]@[k]);
                } else {
                    assert(g3.adj@[i]@[k] == vi);
                }
            } else if i == vi {
                assert(g3.adj@[i]@ == g2.adj@[i]@.push(ui));
                if k < g2.adj@[i]@.len() {
                    assert(g3.adj@[i]@[k] == g2.adj@[i]@[k]);
                } else {
                    assert(g3.adj@[i]@[k] == ui);
                }
            } else {
                assert(g3.adj@[i] == g2.adj@[i]);
            }
        }
        assert forall|i: int| 0 <= i < g3.adj@.len() implies (
        #[trigger] g3.adj@[i])@.no_duplicates() by {
            if i != ui && i != vi {
                assert(g3.adj@[i] == g2.adj@[i]);
            }
        }
        assert forall|k: int| 0 <= k < g3.edges@.len() implies (
        #[trigger] g3.edges@[k]).0 < g3.edges@[k].1 && g3.spec_edge(
            g3.edges@[k].0,
            g3.edges@[k].1,
        ) by {
            if k < g2.edges@.len() {
                assert(g3.edges@[k] == g2.edges@[k]);
                assert(g2.spec_edge(g2.edges@[k].0, g2.edges@[k].1));
            } else {
                assert(g3.edges@[k] == (lo, hi));
                assert(g3.spec_edge(lo, hi));
            }
        }
        assert forall|i: usize, j: usize| i < j && g3.spec_edge(i, j) implies g3.edges@.contains(
            (i, j),
        ) by {
            if g2.spec_edge(i, j) {
                assert(g2.edges@.contains((i, j)));
            } else {
                assert((i == lo && j == hi));
                assert(g3.edges@[g2.edges@.len() as int] == (lo, hi));
            }
        }
    }
    assert forall|a: Seq<char>, b: Seq<char>|
        g3.spec_has_edge(a, b) <==> (g2.spec_has_edge(a, b) || (a == u && b == v) || (a == v && b
            == u)) by {
        if g3.spec_has_edge(a, b) {
            let (p, q) = choose|p: usize, q: usize|
                p < g3.names@.len() && q < g3.names@.len() && g3.name_at(p as int) == a
                    && g3.name_at(q as int) == b && g3.spec_edge(p, q);
            if g2.spec_edge(p, q) {
                assert(g2.name_at(p as int) == a && g2.name_at(q as int) == b);
                assert(g2.spec_has_edge(a, b));
            }
        }
        if g2.spec_has_edge(a, b) {
            let (p, q) = choose|p: usize, q: usize|
                p < g2.names@.len() && q < g2.names@.len() && g2.name_at(p as int) == a
                    && g2.name_at(q as int) == b && g2.spec_edge(p, q);
            assert(g3.name_at(p as int) == a && g3.name_at(q as int) == b && g3.spec_edge(p, q));
            assert(g3.spec_has_edge(a, b));
        }
        if a == u && b == v {
            assert(g3.name_at(ui as int) == a && g3.name_at(vi as int) == b && g3.spec_edge(
                ui,
                vi,
            ));
            assert(g3.spec_has_edge(a, b));
        }
        if a == v && b == u {
            assert(g3.name_at(vi as int) == a && g3.name_at(ui as int) == b && g3.spec_edge(
                vi,
                ui,
            ));
            assert(g3.spec_has_edge(a, b));
        }
    }
}

/// Two graphs over one and the same name vector know the same names.
proof fn lemma_same_names_contains(g1: MovieGraph, g2: MovieGraph)
    requires
        g1.names@ == g2.names@,
    ensures
        forall|nm: Seq<char>| g1.contains_name(nm) <==> g2.contains_name(nm),
{
    assert forall|nm: Seq<char>| g1.contains_name(nm) implies g2.contains_name(nm) by {
        let w = choose|w: int| 0 <= w < g1.names@.len() && g1.name_at(w) == nm;
        assert(g2.name_at(w) == nm);
    }
    assert forall|nm: Seq<char>| g2.contains_name(nm) implies g1.contains_name(nm) by {
        let w = choose|w: int| 0 <= w < g2.names@.len() && g2.name_at(w) == nm;
        assert(g1.name_at(w) == nm);
    }
}

/// Whether a vector of vertex ids contains the given id.
fn vec_contains(xs: &Vec<usize>, x: usize) -> (r: bool)
    ensures
        r == xs@.contains(x),
{
    let n = xs.len();
    for k in 0..n
        invariant
            n == xs@.len(),
            forall|m: int| 0 <= m < k ==> xs@[m] != x,
    {
        if xs[k] == x {
            return true;
        }
    }
    false
}

} // verus!
