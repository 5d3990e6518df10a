//! Breadth-first shortest-path search over the actor graph.
//!
//! The search works on vertex ids and is proved to return a path that is
//! genuinely shortest by edge count, to return a path whenever one exists,
//! and to report the two failure kinds (unknown actor, disconnected pair)
//! exactly when they apply.

use crate::graph::GraphError;
use crate::graph::MovieGraph;
use vstd::prelude::*;

verus! {

broadcast use vstd::seq_lib::lemma_seq_contains_after_push;

impl MovieGraph {
    /// A walk through the graph by vertex id: nonempty, every id in range,
    /// and each consecutive pair adjacent.
    pub open spec fn id_path(self, q: Seq<usize>) -> bool {
        &&& q.len() >= 1
        &&& forall|k: int| 0 <= k < q.len() ==> q[k] < self.names@.len()
        &&& forall|k: int| 0 <= k < q.len() - 1 ==> self.spec_edge(#[trigger] q[k], q[k + 1])
    }

    /// A walk through the graph by actor name: nonempty, every name known,
    /// and each consecutive pair of actors co-starred.
    pub open spec fn name_path(self, q: Seq<Seq<char>>) -> bool {
        &&& q.len() >= 1
        &&& forall|k: int| 0 <= k < q.len() ==> self.contains_name(q[k])
        &&& forall|k: int| 0 <= k < q.len() - 1 ==> self.spec_has_edge(#[trigger] q[k], q[k + 1])
    }
}

/// How many entries of a boolean sequence are set.
pub open spec fn count_true(s: Seq<bool>) -> nat
    decreases s.len(),
{
    if s.len() == 0 {
        0
    } else {
        count_true(s.drop_last()) + if s.last() {
            1nat
        } else {
            0nat
        }
    }
}

proof fn lemma_count_true_le(s: Seq<bool>)
    ensures
        count_true(s) <= s.len(),
    decreases s.len(),
{
    if s.len() > 0 {
        lemma_count_true_le(s.drop_last());
    }
}

proof fn lemma_count_true_update(s: Seq<bool>, i: int)
    requires
        0 <= i < s.len(),
        !s[i],
    ensures
        count_true(s.update(i, true)) == count_true(s) + 1,
    decreases s.len(),
{
    if i == s.len() - 1 {
        assert(s.update(i, true).drop_last() =~= s.drop_last());
        assert(s.update(i, true).last());
    } else {
        lemma_count_true_update(s.drop_last(), i);
        assert(s.update(i, true).drop_last() =~= s.drop_last().update(i, true));
        assert(s.update(i, true).last() == s.last());
    }
}

/// The id `u` sits somewhere in the still-unprocessed tail of the queue.
spec fn window_contains(queue: Seq<usize>, head: int, u: usize) -> bool {
    exists|t: int| head <= t < queue.len() && queue[t] == u
}

/// The heart of the breadth-first argument. Under the usual BFS state
/// invariants, any path from the source to a vertex `v` either certifies
/// that `v` was already discovered at a distance no larger than the path's
/// edge count, or is at least as long as the distance of the queue's front.
proof fn lemma_path_lower_bound(
    g: MovieGraph,
    s: usize,
    visited: Seq<bool>,
    dist: Seq<usize>,
    queue: Seq<usize>,
    head: int,
    q: Seq<usize>,
)
    requires
        g.wf(),
        visited.len() == g.names@.len(),
        dist.len() == g.names@.len(),
        0 <= head <= queue.len(),
        forall|t: int|
            head <= t < queue.len() ==> queue[t] < g.names@.len() && visited[queue[t] as int],
        forall|t1: int, t2: int|
            head <= t1 <= t2 < queue.len() ==> dist[queue[t1] as int] <= dist[queue[t2] as int],
        forall|u: usize, v: usize|
            u < g.names@.len() && visited[u as int] && !window_contains(queue, head, u)
                && #[trigger] g.spec_edge(u, v) ==> visited[v as int] && dist[v as int] <= dist[u as int]
                + 1,
        s < g.names@.len(),
        visited[s as int],
        dist[s as int] == 0,
        g.id_path(q),
        q.first() == s,
    ensures
        (visited[q.last() as int] && dist[q.last() as int] <= q.len() - 1) || (head < queue.len()
            && q.len() - 1 >= dist[queue[head] as int]),
    decreases q.len(),
{
    if q.len() == 1 {
        assert(q.last() == s);
    } else {
        let q0 = q.drop_last();
        assert(g.id_path(q0)) by {
            assert(forall|k: int| 0 <= k < q0.len() ==> q0[k] == q[k]);
            assert(forall|k: int|
                0 <= k < q0.len() - 1 ==> g.spec_edge(#[trigger] q0[k], q0[k + 1]));
        }
        assert(q0.first() == s);
        lemma_path_lower_bound(g, s, visited, dist, queue, head, q0);
        let w = q0.last();
        let v = q.last();
        assert(w == q[q.len() - 2] && v == q[q.len() - 1]);
        assert(g.spec_edge(w, v));
        if visited[w as int] && dist[w as int] <= q0.len() - 1 {
            if window_contains(queue, head, w) {
                let t = choose|t: int| head <= t < queue.len() && queue[t] == w;
                assert(dist[queue[head] as int] <= dist[queue[t] as int]);
            } else {
                assert(visited[v as int] && dist[v as int] <= dist[w as int] + 1);
            }
        }
    }
}

impl MovieGraph {
    /// Breadth-first search by vertex id. Returns a shortest path from `s`
    /// to `e` (inclusive, `s` first), or `None` exactly when no path joins
    /// them.
    pub(crate) fn bfs_ids(&self, s: usize, e: usize) -> (r: Option<Vec<usize>>)
        requires
            self.wf(),
            s < self.names@.len(),
            e < self.names@.len(),
        ensures
            match r {
                Some(p) => {
                    &&& self.id_path(p@)
                    &&& p@.first() == s
                    &&& p@.last() == e
                    &&& p@.len() <= self.names@.len()
                    &&& forall|q: Seq<usize>|
                        self.id_path(q) && q.first() == s && q.last() == e ==> q.len() >= p@.len()
                },
                None => forall|q: Seq<usize>|
                    !(self.id_path(q) && q.first() == s && q.last() == e),
            },
    {
        let n = self.names.len();
        let mut visited = filled_bool(n);
        let mut dist = filled_usize(n);
        let mut pred = filled_usize(n);
        let mut queue: Vec<usize> = Vec::new();
        let mut head: usize = 0;
        let mut count: usize = 1;
        visited[s] = true;
        queue.push(s);
        proof {
            lemma_count_true_update(Seq::new(n as nat, |i: int| false), s as int);
            assert(count_true(Seq::new(n as nat, |i: int| false)) == 0) by {
                lemma_count_true_all_false(Seq::new(n as nat, |i: int| false));
            }
            assert(queue@[0] == s);
            assert(queue@.contains(s));
            assert(window_contains(queue@, 0, s));
        }
        while head < queue.len()
            invariant
                self.wf(),
                s < n,
                e < n,
                n == self.names@.len(),
                visited@.len() == n,
                dist@.len() == n,
                pred@.len() == n,
                head <= queue@.len(),
                count == count_true(visited@),
                count <= n,
                visited@[s as int],
                dist@[s as int] == 0,
                forall|t: int|
                    0 <= t < queue@.len() ==> queue@[t] < n && visited@[queue@[t] as int],
                forall|t1: int, t2: int|
                    0 <= t1 <= t2 < queue@.len() ==> dist@[queue@[t1] as int]
                        <= dist@[queue@[t2] as int],
                forall|t: int|
                    head <= t < queue@.len() ==> dist@[queue@[t] as int]
                        <= dist@[queue@[head as int] as int] + 1,
                forall|u: usize, v: usize|
                    u < n && visited@[u as int] && !window_contains(queue@, head as int, u)
                        && #[trigger] self.spec_edge(u, v) ==> visited@[v as int]
                        && dist@[v as int] <= dist@[u as int] + 1,
                forall|v: usize|
                    v < n && visited@[v as int] && v != s ==> pred@[v as int] < n
                        && visited@[pred@[v as int] as int] && self.spec_edge(
                        pred@[v as int],
                        v,
                    ) && dist@[v as int] == dist@[pred@[v as int] as int] + 1,
                forall|v: usize| v < n && visited@[v as int] ==> dist@[v as int] < count,
                forall|v: usize| v < n && visited@[v as int] ==> queue@.contains(v),
                forall|t: int| 0 <= t < head ==> queue@[t] != e,
            decreases n - count, queue@.len() - head,
        {
            let u = queue[head];
            let du = dist[u];
            if u == e {
                proof {
                    assert forall|q: Seq<usize>|
                        self.id_path(q) && q.first() == s && q.last() == e implies q.len() >= du
                        + 1 by {
                        lemma_path_lower_bound(
                            *self,
                            s,
                            visited@,
                            dist@,
                            queue@,
                            head as int,
                            q,
                        );
                    }
                }
                return Some(self.walk_back(s, e, &visited, &dist, &pred, Ghost(count as nat)));
            }
            let ghost c0 = count as int;
            let ghost q0_len = queue@.len() as int;
            let row_len = self.adj[u].len();
            for k in 0..row_len
                invariant
                    self.wf(),
                    s < n,
                    e < n,
                    n == self.names@.len(),
                    visited@.len() == n,
                    dist@.len() == n,
                    pred@.len() == n,
                    head < queue@.len(),
                    count == count_true(visited@),
                    count <= n,
                    visited@[s as int],
                    dist@[s as int] == 0,
                    u == queue@[head as int],
                    u < n,
                    u != e,
                    row_len == self.adj@[u as int]@.len(),
                    du == dist@[u as int],
                    c0 <= count,
                    q0_len <= queue@.len(),
                    queue@.len() - q0_len == count - c0,
                    forall|t: int|
                        0 <= t < queue@.len() ==> queue@[t] < n && visited@[queue@[t] as int],
                    forall|t1: int, t2: int|
                        0 <= t1 <= t2 < queue@.len() ==> dist@[queue@[t1] as int]
                            <= dist@[queue@[t2] as int],
                    forall|t: int|
                        head <= t < queue@.len() ==> dist@[queue@[t] as int] <= du + 1,
                    forall|w: usize, v: usize|
                        w < n && visited@[w as int] && !window_contains(queue@, head as int, w)
                            && #[trigger] self.spec_edge(w, v) ==> visited@[v as int]
                            && dist@[v as int] <= dist@[w as int] + 1,
                    forall|m: int|
                        0 <= m < k ==> visited@[self.adj@[u as int]@[m] as int]
                            && dist@[self.adj@[u as int]@[m] as int] <= du + 1,
                    forall|v: usize|
                        v < n && visited@[v as int] && v != s ==> pred@[v as int] < n
                            && visited@[pred@[v as int] as int] && self.spec_edge(
                            pred@[v as int],
                            v,
                        ) && dist@[v as int] == dist@[pred@[v as int] as int] + 1,
                    forall|v: usize| v < n && visited@[v as int] ==> dist@[v as int] < count,
                    forall|v: usize| v < n && visited@[v as int] ==> queue@.contains(v),
                    forall|t: int| 0 <= t < head ==> queue@[t] != e,
            {
                let v = self.adj[u][k];
                proof {
                    assert(self.adj@[u as int]@[k as int] == v);
                    assert(v < n && v != u);
                }
                if !visited[v] {
                    let ghost pre_visited = visited@;
                    let ghost pre_dist = dist@;
                    let ghost pre_queue = queue@;
                    proof {
                        lemma_count_true_update(visited@, v as int);
                        lemma_count_true_le(visited@.update(v as int, true));
                        assert(self.spec_edge(u, v)) by {
                            assert(self.adj@[u as int]@[k as int] == v);
                        }
                    }
                    visited[v] = true;
                    dist[v] = du + 1;
                    pred[v] = u;
                    queue.push(v);
                    count = count + 1;
                    proof {
                        assert(queue@.last() == v);
                        assert(queue@[queue@.len() - 1] == v);
                        assert(visited@[v as int] && queue@.contains(v));
                        assert(queue@[head as int] == u);
                        assert forall|x: usize| x < n && visited@[x as int] implies queue@.contains(
                            x,
                        ) by {
                            if x != v {
                                assert(pre_queue.contains(x));
                                let t = choose|t: int|
                                    0 <= t < pre_queue.len() && pre_queue[t] == x;
                                assert(queue@[t] == x);
                            }
                        }
                        assert forall|w: usize, x: usize|
                            w < n && visited@[w as int] && !window_contains(
                                queue@,
                                head as int,
                                w,
                            ) && #[trigger] self.spec_edge(w, x) implies visited@[x as int]
                            && dist@[x as int] <= dist@[w as int] + 1 by {
                            if w == v {
                                assert(window_contains(queue@, head as int, v)) by {
                                    assert(queue@[queue@.len() - 1] == v);
                                }
                            } else {
                                assert(pre_visited[w as int]);
                                assert(!window_contains(pre_queue, head as int, w)) by {
                                    if window_contains(pre_queue, head as int, w) {
                                        let t = choose|t: int|
                                            head <= t < pre_queue.len() && pre_queue[t] == w;
                                        assert(queue@[t] == w);
                                    }
                                }
                                assert(pre_visited[x as int] && pre_dist[x as int]
                                    <= pre_dist[w as int] + 1);
                                if x == v {
                                    assert(!pre_visited[v as int]);
                                }
                            }
                        }
                        assert forall|t1: int, t2: int|
                            0 <= t1 <= t2 < queue@.len() implies dist@[queue@[t1] as int]
                            <= dist@[queue@[t2] as int] by {
                            if t2 == queue@.len() - 1 {
                                assert(queue@[t2] == v && dist@[v as int] == du + 1);
                                if t1 < t2 {
                                    assert(queue@[t1] == pre_queue[t1]);
                                    assert(pre_visited[queue@[t1] as int]);
                                    assert(queue@[t1] != v);
                                    assert(dist@[queue@[t1] as int] == pre_dist[queue@[t1] as int]);
                                    if t1 <= head {
                                        assert(pre_dist[pre_queue[t1] as int]
                                            <= pre_dist[pre_queue[head as int] as int]);
                                    } else {
                                        assert(pre_dist[pre_queue[t1] as int] <= du + 1);
                                    }
                                }
                            } else {
                                assert(queue@[t1] == pre_queue[t1] && queue@[t2] == pre_queue[t2]);
                                assert(queue@[t1] != v && queue@[t2] != v);
                            }
                        }
                        assert forall|t: int|
                            head <= t < queue@.len() implies dist@[queue@[t] as int] <= du + 1 by {
                            if t == queue@.len() - 1 {
                                assert(queue@[t] == v && dist@[v as int] == du + 1);
                            } else {
                                assert(queue@[t] == pre_queue[t]);
                                assert(queue@[t] != v);
                            }
                        }
                    }
                } else {
                    proof {
                        assert(queue@.contains(v));
                        let t = choose|t: int| 0 <= t < queue@.len() && queue@[t] == v;
                        if t <= head {
                            assert(dist@[queue@[t] as int] <= dist@[queue@[head as int] as int]);
                        }
                        assert(dist@[v as int] <= du + 1);
                    }
                }
            }
            head = head + 1;
            proof {
                assert(queue@[(head - 1) as int] == u && dist@[u as int] == du);
                assert forall|t: int|
                    head <= t < queue@.len() implies dist@[queue@[t] as int]
                    <= dist@[queue@[head as int] as int] + 1 by {
                    assert(dist@[queue@[t] as int] <= du + 1);
                    assert(dist@[queue@[(head - 1) as int] as int]
                        <= dist@[queue@[head as int] as int]);
                }
                assert forall|w: usize, v: usize|
                    w < n && visited@[w as int] && !window_contains(queue@, head as int, w)
                        && #[trigger] self.spec_edge(w, v) implies visited@[v as int]
                    && dist@[v as int] <= dist@[w as int] + 1 by {
                    if w == u {
                        let m = choose|m: int|
                            0 <= m < self.adj@[u as int]@.len() && self.adj@[u as int]@[m] == v;
                        assert(visited@[self.adj@[u as int]@[m] as int]);
                    } else {
                        assert(!window_contains(queue@, (head - 1) as int, w)) by {
                            if window_contains(queue@, (head - 1) as int, w) {
                                let t = choose|t: int|
                                    head - 1 <= t < queue@.len() && queue@[t] == w;
                                assert(t == head - 1 ==> queue@[t] == u);
                            }
                        }
                    }
                }
            }
        }
        proof {
            assert forall|q: Seq<usize>|
                !(self.id_path(q) && q.first() == s && q.last() == e) by {
                if self.id_path(q) && q.first() == s && q.last() == e {
                    lemma_path_lower_bound(*self, s, visited@, dist@, queue@, head as int, q);
                    assert(visited@[e as int]);
                    assert(queue@.contains(e));
                    let t = choose|t: int| 0 <= t < queue@.len() && queue@[t] == e;
                    assert(queue@[t] != e);
                }
            }
        }
        None
    }


    /// Rebuild the path found by the search by walking the predecessor map
    /// from `e` back to `s`, then reversing.
    fn walk_back(
        &self,
        s: usize,
        e: usize,
        visited: &Vec<bool>,
        dist: &Vec<usize>,
        pred: &Vec<usize>,
        Ghost(count): Ghost<nat>,
    ) -> (p: Vec<usize>)
        requires
            self.wf(),
            visited@.len() == self.names@.len(),
            dist@.len() == self.names@.len(),
            pred@.len() == self.names@.len(),
            s < self.names@.len(),
            e < self.names@.len(),
            visited@[s as int],
            visited@[e as int],
            dist@[s as int] == 0,
            count <= self.names@.len(),
            forall|v: usize|
                v < self.names@.len() && visited@[v as int] && v != s ==> pred@[v as int]
                    < self.names@.len() && visited@[pred@[v as int] as int] && self.spec_edge(
                    pred@[v as int],
                    v,
                ) && dist@[v as int] == dist@[pred@[v as int] as int] + 1,
            forall|v: usize| v < self.names@.len() && visited@[v as int] ==> dist@[v as int] < count,
        ensures
            self.id_path(p@),
            p@.first() == s,
            p@.last() == e,
            p@.len() == dist@[e as int] + 1,
    {
        let ghost n = self.names@.len();
        let mut rev: Vec<usize> = Vec::new();
        let mut curr = e;
        rev.push(curr);
        while curr != s
            invariant
                self.wf(),
                n == self.names@.len(),
                visited@.len() == n,
                dist@.len() == n,
                pred@.len() == n,
                s < n,
                e < n,
                visited@[s as int],
                dist@[s as int] == 0,
                curr < n,
                visited@[curr as int],
                rev@.len() == dist@[e as int] - dist@[curr as int] + 1,
                rev@.len() >= 1,
                rev@[0] == e,
                rev@.last() == curr,
                forall|k: int| 0 <= k < rev@.len() ==> rev@[k] < n,
                forall|k: int| 0 <= k < rev@.len() - 1 ==> self.spec_edge(rev@[k + 1], #[trigger] rev@[k]),
                forall|v: usize|
                    v < n && visited@[v as int] && v != s ==> pred@[v as int] < n
                        && visited@[pred@[v as int] as int] && self.spec_edge(pred@[v as int], v)
                        && dist@[v as int] == dist@[pred@[v as int] as int] + 1,
            decreases dist@[curr as int],
        {
            let w = pred[curr];
            rev.push(w);
            curr = w;
        }
        let m = rev.len();
        let mut path: Vec<usize> = Vec::new();
        for k in 0..m
            invariant
                m == rev@.len(),
                path@.len() == k,
                forall|j: int| 0 <= j < k ==> path@[j] == rev@[m - 1 - j],
        {
            path.push(rev[m - 1 - k]);
        }
        proof {
            assert(path@.first() == rev@[m - 1] && rev@.last() == s);
            assert(path@.last() == rev@[0]);
            assert forall|k: int| 0 <= k < path@.len() - 1 implies self.spec_edge(
                #[trigger] path@[k],
                path@[k + 1],
            ) by {
                assert(path@[k] == rev@[m - 1 - k] && path@[k + 1] == rev@[m - 1 - (k + 1)]);
                assert(self.spec_edge(rev@[(m - 2 - k) + 1], rev@[m - 2 - k]));
            }
        }
        path
    }
}

/// A vector of `n` entries, all false.
fn filled_bool(n: usize) -> (v: Vec<bool>)
    ensures
        v@ =~= Seq::new(n as nat, |i: int| false),
{
    let mut v: Vec<bool> = Vec::new();
    for k in 0..n
        invariant
            v@.len() == k,
            forall|j: int| 0 <= j < k ==> !v@[j],
    {
        v.push(false);
    }
    v
}

/// A vector of `n` entries, all zero.
fn filled_usize(n: usize) -> (v: Vec<usize>)
    ensures
        v@.len() == n,
        forall|j: int| 0 <= j < n ==> v@[j] == 0,
{
    let mut v: Vec<usize> = Vec::new();
    for k in 0..n
        invariant
            v@.len() == k,
            forall|j: int| 0 <= j < k ==> v@[j] == 0,
    {
        v.push(0);
    }
    v
}

/// An all-false sequence has no set entries.
proof fn lemma_count_true_all_false(s: Seq<bool>)
    requires
        forall|i: int| 0 <= i < s.len() ==> !s[i],
    ensures
        count_true(s) == 0,
    decreases s.len(),
{
    if s.len() > 0 {
        lemma_count_true_all_false(s.drop_last());
    }
}

/// Two vertex ids that carry one and the same name are equal: names are
/// distinct in a well-formed graph.
proof fn lemma_id_unique(g: MovieGraph, i: usize, j: usize)
    requires
        g.wf(),
        i < g.names@.len(),
        j < g.names@.len(),
        g.name_at(i as int) == g.name_at(j as int),
    ensures
        i == j,
{
}

/// Every path of names follows a path of vertex ids carrying those names.
proof fn lemma_name_path_to_id_path(g: MovieGraph, q: Seq<Seq<char>>) -> (ids: Seq<usize>)
    requires
        g.wf(),
        g.names@.len() <= usize::MAX,
        g.name_path(q),
    ensures
        g.id_path(ids),
        ids.len() == q.len(),
        forall|k: int| 0 <= k < q.len() ==> g.name_at(ids[k] as int) == q[k],
{
    let ids = Seq::new(q.len(), |k: int| g.id_of(q[k]) as usize);
    assert forall|k: int| 0 <= k < q.len() implies ids[k] < g.names@.len() && g.name_at(
        ids[k] as int,
    ) == q[k] by {
        assert(g.contains_name(q[k]));
        let i = g.id_of(q[k]);
        assert(0 <= i < g.names@.len() && g.name_at(i) == q[k]);
        assert(ids[k] == i as usize);
    }
    assert forall|k: int| 0 <= k < q.len() - 1 implies g.spec_edge(#[trigger] ids[k], ids[k + 1]) by {
        assert(g.spec_has_edge(q[k], q[k + 1]));
        let (i, j) = choose|i: usize, j: usize|
            i < g.names@.len() && j < g.names@.len() && g.name_at(i as int) == q[k] && g.name_at(
                j as int,
            ) == q[k + 1] && g.spec_edge(i, j);
        lemma_id_unique(g, i, ids[k]);
        lemma_id_unique(g, j, ids[k + 1]);
    }
    ids
}

impl MovieGraph {
    /// The shortest chain of co-appearances from `start` to `end`, both
    /// inclusive, `start` first. A query from an actor to itself yields the
    /// one-element path. `VertexNotFound` reports a name the graph has never
    /// seen, and `NoPathFound` a pair of known actors with no connecting
    /// chain; the two are never conflated.
    pub fn bfs(&self, start: &String, end: &String) -> (r: Result<Vec<String>, GraphError>)
        requires
            self.wf(),
        ensures
            match r {
                Ok(p) => {
                    &&& self.contains_name(start@)
                    &&& self.contains_name(end@)
                    &&& self.name_path(p.deep_view())
                    &&& p.deep_view().first() == start@
                    &&& p.deep_view().last() == end@
                    &&& p@.len() <= self.names@.len()
                    &&& forall|q: Seq<Seq<char>>|
                        self.name_path(q) && q.first() == start@ && q.last() == end@ ==> q.len()
                            >= p@.len()
                },
                Err(GraphError::VertexNotFound) => !self.contains_name(start@)
                    || !self.contains_name(end@),
                Err(GraphError::NoPathFound) => {
                    &&& self.contains_name(start@)
                    &&& self.contains_name(end@)
                    &&& forall|q: Seq<Seq<char>>|
                        !(self.name_path(q) && q.first() == start@ && q.last() == end@)
                },
                Err(GraphError::LoadFailure) => false,
                Err(GraphError::MalformedRecord) => false,
            },
    {
        let si = match self.find_index(start) {
            Some(i) => i,
            None => {
                return Err(GraphError::VertexNotFound);
            },
        };
        let ei = match self.find_index(end) {
            Some(i) => i,
            None => {
                return Err(GraphError::VertexNotFound);
            },
        };
        let nv = self.names.len();
        proof {
            assert(self.names@.len() == nv);
            assert(self.contains_name(start@)) by {
                assert(self.name_at(si as int) == start@);
            }
            assert(self.contains_name(end@)) by {
                assert(self.name_at(ei as int) == end@);
            }
        }
        match self.bfs_ids(si, ei) {
            Some(ids) => {
                let len = ids.len();
                let mut out: Vec<String> = Vec::new();
                for k in 0..len
                    invariant
                        self.wf(),
                        len == ids@.len(),
                        self.id_path(ids@),
                        out@.len() == k,
                        forall|j: int| 0 <= j < k ==> out@[j]@ == self.name_at(ids@[j] as int),
                {
                    let id = ids[k];
                    out.push(self.names[id].clone());
                }
                proof {
                    let dv = out.deep_view();
                    assert(dv.len() == ids@.len());
                    assert forall|j: int| 0 <= j < dv.len() implies dv[j] == self.name_at(
                        ids@[j] as int,
                    ) by {
                        assert(dv[j] == out@[j]@);
                    }
                    assert forall|j: int| 0 <= j < dv.len() implies self.contains_name(dv[j]) by {
                        assert(self.name_at(ids@[j] as int) == dv[j]);
                    }
                    assert forall|j: int| 0 <= j < dv.len() - 1 implies self.spec_has_edge(
                        #[trigger] dv[j],
                        dv[j + 1],
                    ) by {
                        assert(self.spec_edge(ids@[j], ids@[j + 1]));
                        assert(ids@[j] < self.names@.len() && ids@[j + 1] < self.names@.len());
                        assert(self.name_at(ids@[j] as int) == dv[j] && self.name_at(
                            ids@[j + 1] as int,
                        ) == dv[j + 1]);
                    }
                    assert(dv.first() == start@) by {
                        assert(dv[0] == self.name_at(ids@[0] as int));
                        assert(ids@.first() == si);
                    }
                    assert(dv.last() == end@) by {
                        assert(dv[dv.len() - 1] == self.name_at(ids@[ids@.len() - 1] as int));
                        assert(ids@.last() == ei);
                    }
                    assert forall|q: Seq<Seq<char>>|
                        self.name_path(q) && q.first() == start@ && q.last() == end@ implies q.len()
                        >= out@.len() by {
                        let idsq = lemma_name_path_to_id_path(*self, q);
                        lemma_id_unique(*self, idsq.first(), si);
                        lemma_id_unique(*self, idsq.last(), ei);
                        assert(idsq.first() == si && idsq.last() == ei);
                        assert(idsq.len() >= ids@.len());
                    }
                }
                Ok(out)
            },
            None => {
                proof {
                    assert forall|q: Seq<Seq<char>>|
                        !(self.name_path(q) && q.first() == start@ && q.last() == end@) by {
                        if self.name_path(q) && q.first() == start@ && q.last() == end@ {
                            let idsq = lemma_name_path_to_id_path(*self, q);
                            lemma_id_unique(*self, idsq.first(), si);
                            lemma_id_unique(*self, idsq.last(), ei);
                            assert(idsq.first() == si && idsq.last() == ei);
                        }
                    }
                }
                Err(GraphError::NoPathFound)
            },
        }
    }
}

} // verus!
