//! Estimation of the average shortest-path length over random actor pairs.
//!
//! A seeded generator draws pairs of vertex ids uniformly with replacement;
//! for each connected pair the shortest-path length in edges is accumulated,
//! and the caller divides the total by the number of connected pairs. The
//! accumulation over a given pair sequence is verified exactly; what the
//! generator returns is only known to lie below the vertex count.

use crate::graph::MovieGraph;
use vstd::prelude::*;

verus! {

#[verifier::external_type_specification]
#[verifier::external_body]
pub struct ExStdRng(rand::rngs::StdRng);

/// Relies on rand's `SeedableRng::seed_from_u64` for `StdRng`: it builds a
/// generator whose output is a function of the seed alone, and never fails.
#[verifier::external_body]
fn rng_from_seed(seed: u64) -> rand::rngs::StdRng {
    rand::SeedableRng::seed_from_u64(seed)
}

/// Relies on rand's `RngExt::random_range` over `0..limit`: the sample lies
/// in that range, which the precondition keeps nonempty.
#[verifier::external_body]
fn rng_below(rng: &mut rand::rngs::StdRng, limit: usize) -> (r: usize)
    requires
        limit > 0,
    ensures
        r < limit,
{
    rand::RngExt::random_range(rng, 0..limit)
}

/// `count` pairs of ids below `limit`, drawn from a generator seeded with
/// `seed`; with one seed the same pairs come back on every call.
pub fn sample_pairs(seed: u64, count: usize, limit: usize) -> (r: Vec<(usize, usize)>)
    requires
        limit > 0,
    ensures
        r@.len() == count,
        forall|k: int| 0 <= k < r@.len() ==> (#[trigger] r@[k]).0 < limit && r@[k].1 < limit,
{
    let mut rng = rng_from_seed(seed);
    let mut r: Vec<(usize, usize)> = Vec::new();
    for k in 0..count
        invariant
            limit > 0,
            r@.len() == k,
            forall|t: int| 0 <= t < k ==> (#[trigger] r@[t]).0 < limit && r@[t].1 < limit,
    {
        let a = rng_below(&mut rng, limit);
        let b = rng_below(&mut rng, limit);
        r.push((a, b));
    }
    r
}

impl MovieGraph {
    /// Some chain of co-appearances joins the two vertex ids.
    pub open spec fn spec_connected(self, a: usize, b: usize) -> bool {
        exists|q: Seq<usize>| self.id_path(q) && q.first() == a && q.last() == b
    }

    /// Some path of exactly `k` edges joins the two vertex ids.
    pub open spec fn has_path_len(self, a: usize, b: usize, k: nat) -> bool {
        exists|q: Seq<usize>|
            self.id_path(q) && q.first() == a && q.last() == b && q.len() == k + 1
    }

    /// `k` is the graph distance from `a` to `b`: some path has `k` edges
    /// and none has fewer.
    pub open spec fn dist_is(self, a: usize, b: usize, k: nat) -> bool {
        self.has_path_len(a, b, k) && forall|j: nat| j < k ==> !self.has_path_len(a, b, j)
    }

    /// The graph distance from `a` to `b` in edges, meaningful when the two
    /// are connected.
    pub open spec fn spec_distance(self, a: usize, b: usize) -> nat {
        choose|k: nat| self.dist_is(a, b, k)
    }

    /// The running totals over the first `upto` sampled pairs: the summed
    /// graph distance of the connected pairs, and how many pairs were
    /// connected.
    pub open spec fn stats_of(self, pairs: Seq<(usize, usize)>, upto: int) -> (int, int)
        decreases upto,
    {
        if upto <= 0 {
            (0, 0)
        } else {
            let prev = self.stats_of(pairs, upto - 1);
            if self.spec_connected(pairs[upto - 1].0, pairs[upto - 1].1) {
                (prev.0 + self.spec_distance(pairs[upto - 1].0, pairs[upto - 1].1), prev.1 + 1)
            } else {
                prev
            }
        }
    }

    /// A graph distance is unique: the witness of `dist_is` is the value of
    /// `spec_distance`.
    pub proof fn lemma_distance_determined(self, a: usize, b: usize, d: nat)
        requires
            self.dist_is(a, b, d),
        ensures
            self.spec_distance(a, b) == d,
    {
        assert(exists|k: nat| self.dist_is(a, b, k));
        let k = self.spec_distance(a, b);
        assert(self.dist_is(a, b, k));
        if k < d {
            assert(self.has_path_len(a, b, k));
            assert(!self.has_path_len(a, b, k));
        }
        if d < k {
            assert(self.has_path_len(a, b, d));
            assert(!self.has_path_len(a, b, d));
        }
    }

    /// Sum the shortest-path edge counts of the connected pairs among the
    /// given id pairs, and count those pairs. Disconnected pairs, and pairs
    /// of one vertex with itself at distance zero, are defined outcomes,
    /// never errors.
    #[verifier::rlimit(60)]
    pub fn average_path_stats(&self, pairs: &Vec<(usize, usize)>) -> (r: (u128, usize))
        requires
            self.wf(),
            forall|k: int|
                0 <= k < pairs@.len() ==> (#[trigger] pairs@[k]).0 < self.names@.len()
                    && pairs@[k].1 < self.names@.len(),
        ensures
            (r.0 as int, r.1 as int) == self.stats_of(pairs@, pairs@.len() as int),
            r.1 <= pairs@.len(),
    {
        let n = pairs.len();
        let nv = self.names.len();
        let mut total: u128 = 0;
        let mut succ: usize = 0;
        for k in 0..n
            invariant
                self.wf(),
                n == pairs@.len(),
                nv == self.names@.len(),
                forall|t: int|
                    0 <= t < pairs@.len() ==> (#[trigger] pairs@[t]).0 < self.names@.len()
                        && pairs@[t].1 < self.names@.len(),
                (total as int, succ as int) == self.stats_of(pairs@, k as int),
                succ <= k,
                total <= (k as u128) * (nv as u128),
        {
            let (a, b) = pairs[k];
            let ghost t0 = total as int;
            let ghost s0 = succ as int;
            match self.bfs_ids(a, b) {
                Some(p) => {
                    let d = p.len() - 1;
                    proof {
                        assert(self.id_path(p@) && p@.first() == a && p@.last() == b);
                        assert(self.spec_connected(a, b));
                        assert(self.has_path_len(a, b, d as nat)) by {
                            assert(p@.len() == d + 1);
                        }
                        assert forall|j: nat| j < d as nat implies !self.has_path_len(
                            a,
                            b,
                            j,
                        ) by {
                            if self.has_path_len(a, b, j) {
                                let q = choose|q: Seq<usize>|
                                    self.id_path(q) && q.first() == a && q.last() == b && q.len()
                                        == j + 1;
                                assert(q.len() >= p@.len());
                            }
                        }
                        assert(self.dist_is(a, b, d as nat));
                        assert(d < nv);
                        assert((total + d as u128) <= ((k + 1) as u128) * (nv as u128))
                            by (nonlinear_arith)
                            requires
                                total <= (k as u128) * (nv as u128),
                                (d as u128) < (nv as u128),
                                k < n <= usize::MAX,
                                nv <= usize::MAX,
                        ;
                        assert(((k + 1) as u128) * (nv as u128) < u128::MAX) by (nonlinear_arith)
                            requires
                                k < n <= usize::MAX,
                                nv <= usize::MAX,
                                usize::MAX as u128 <= u64::MAX as u128,
                        ;
                    }
                    total = total + d as u128;
                    succ = succ + 1;
                    proof {
                        self.lemma_distance_determined(a, b, d as nat);
                        assert(self.spec_distance(a, b) == d as nat);
                        assert((total as int, succ as int) == self.stats_of(pairs@, k + 1));
                    }
                },
                None => {
                    proof {
                        assert(!self.spec_connected(a, b)) by {
                            if self.spec_connected(a, b) {
                                let q = choose|q: Seq<usize>|
                                    self.id_path(q) && q.first() == a && q.last() == b;
                            }
                        }
                        assert((total as int, succ as int) == self.stats_of(pairs@, k + 1));
                        assert(total <= ((k + 1) as u128) * (nv as u128)) by (nonlinear_arith)
                            requires
                                total <= (k as u128) * (nv as u128),
                                k < n <= usize::MAX,
                                nv <= usize::MAX,
                        ;
                    }
                },
            }
        }
        (total, succ)
    }

    /// Draw `count` random pairs of actors from a generator seeded with
    /// `seed`, and return the summed shortest-path length over the connected
    /// pairs together with their number; the mean is their quotient, and a
    /// run with no connected pair is a defined, zero-valued outcome. With an
    /// empty graph nothing can be drawn: the totals are zero. The totals are
    /// exactly the accumulated statistics of some pair sequence of length
    /// `count`; which one depends on the generator alone, so one seed gives
    /// one answer on every run.
    pub fn sampled_path_stats(&self, seed: u64, count: usize) -> (r: (u128, usize))
        requires
            self.wf(),
        ensures
            self.vertex_count() == 0 ==> r == (0u128, 0usize),
            self.vertex_count() > 0 ==> exists|pairs: Seq<(usize, usize)>|
                {
                    &&& pairs.len() == count
                    &&& forall|k: int|
                        0 <= k < pairs.len() ==> (#[trigger] pairs[k]).0 < self.names@.len()
                            && pairs[k].1 < self.names@.len()
                    &&& (r.0 as int, r.1 as int) == #[trigger] self.stats_of(pairs, count as int)
                },
            r.1 <= count,
    {
        let nv = self.num_vertices();
        if nv == 0 {
            return (0, 0);
        }
        let pairs = sample_pairs(seed, count, nv);
        let r = self.average_path_stats(&pairs);
        proof {
            assert(pairs@.len() == count && (r.0 as int, r.1 as int) == self.stats_of(
                pairs@,
                count as int,
            ));
        }
        r
    }
}

} // verus!
