//! Source-routed path computation over the discovered graph: exhaustive
//! simple-path search, and the router that turns paths into routing headers
//! and drives forced re-discovery when a destination becomes unreachable.

use vstd::prelude::*;

use crate::packet::{
    FloodRequest, NodeId, NodeRole, Packet, PacketType, RoutingHeader,
};
use crate::topology::{contains_id, NetworkTopology};

verus! {

/// Whether `p` is a loop-free path from `src` to `dst` along edges of `g`.
pub open spec fn path_ok(g: NetworkTopology, p: Seq<NodeId>, src: NodeId, dst: NodeId) -> bool {
    &&& p.len() >= 1
    &&& p[0] == src
    &&& p[p.len() - 1] == dst
    &&& forall|k: int| 0 < k < p.len() ==> g.has_edge(p[k - 1], #[trigger] p[k])
    &&& forall|i: int, j: int| 0 <= i < j < p.len() ==> p[i] != p[j]
}

/// Whether some loop-free path joins `src` to `dst` in `g`.
pub open spec fn connected(g: NetworkTopology, src: NodeId, dst: NodeId) -> bool {
    exists|p: Seq<NodeId>| path_ok(g, p, src, dst)
}

/// Law: a path over a graph that does not hold a node never crosses that
/// node (except as its own start). Once a crashed node has been removed from
/// the topology, no header computed afterwards can route through it.
pub proof fn lemma_path_avoids_absent_node(
    g: NetworkTopology,
    p: Seq<NodeId>,
    src: NodeId,
    dst: NodeId,
    x: NodeId,
)
    requires
        g.wf(),
        path_ok(g, p, src, dst),
        !g.contains_node(x),
        x != src,
    ensures
        !p.contains(x),
{
    if p.contains(x) {
        let k = choose|k: int| 0 <= k < p.len() && p[k] == x;
        if k == 0 {
            assert(x == src);
        } else {
            assert(g.has_edge(p[k - 1], p[k]));
            let i = choose|i: int|
                0 <= i < g.nodes@.len() && g.nodes@[i].id == p[k - 1]
                    && g.nodes@[i].neighbors@.contains(p[k]);
            let m = choose|m: int|
                0 <= m < g.nodes@[i].neighbors@.len() && g.nodes@[i].neighbors@[m] == p[k];
            assert(g.contains_node(g.nodes@[i].neighbors@[m]));
        }
    }
}

/// Law: a path that never crosses a node is unaffected by that node's
/// removal — it is a path of the reduced graph exactly when it is a path of
/// the full one. So excluding a node and removing it from the graph agree on
/// which routes remain.
pub proof fn lemma_avoiding_path_survives(
    g1: NetworkTopology,
    g2: NetworkTopology,
    bad: NodeId,
    p: Seq<NodeId>,
    src: NodeId,
    dst: NodeId,
)
    requires
        forall|a: NodeId, b: NodeId|
            #[trigger] g2.has_edge(a, b) <==> g1.has_edge(a, b) && a != bad && b != bad,
        !p.contains(bad),
    ensures
        path_ok(g1, p, src, dst) == path_ok(g2, p, src, dst),
{
    assert forall|k: int| 0 <= k < p.len() implies #[trigger] p[k] != bad by {
        assert(p.contains(p[k]));
    }
    if path_ok(g1, p, src, dst) {
        assert forall|k: int| 0 < k < p.len() implies g2.has_edge(p[k - 1], #[trigger] p[k]) by {
            assert(p[k - 1] != bad && p[k] != bad);
        }
    }
    if path_ok(g2, p, src, dst) {
        assert forall|k: int| 0 < k < p.len() implies g1.has_edge(p[k - 1], #[trigger] p[k]) by {}
    }
}

/// Failure of a header computation.
#[derive(Clone, Copy, PartialEq, Eq, Structural, Debug)]
pub enum RoutingError {
    /// The graph holds no loop-free route to the destination.
    NoPathFound,
}

/// Outcome of asking for a route that must avoid one node.
#[derive(Debug)]
pub enum AltRoute {
    /// A discovered route that avoids the node.
    Found(RoutingHeader),
    /// No discovered route avoids it: the topology has been wiped and this
    /// flood request starts the forced re-discovery.
    Unreachable { flood_request: Packet },
}

/// Exactly the loop-free continuations of `base` that end at `dst`: `q`
/// extends `base`, closes at `dst`, follows graph edges beyond the base, and
/// repeats no node.
pub open spec fn completes_path(
    g: NetworkTopology,
    base: Seq<NodeId>,
    q: Seq<NodeId>,
    dst: NodeId,
) -> bool {
    &&& q.len() >= base.len()
    &&& q.subrange(0, base.len() as int) == base
    &&& q[q.len() - 1] == dst
    &&& forall|k: int| base.len() <= k < q.len() ==> g.has_edge(q[k - 1], #[trigger] q[k])
    &&& forall|i: int, j: int| 0 <= i < j < q.len() ==> q[i] != q[j]
}

/// The graph entries whose node is not yet on the path: the search's
/// termination measure.
pub open spec fn absent_entries(g: NetworkTopology, path: Seq<NodeId>) -> Set<int> {
    Set::new(|i: int| 0 <= i < g.nodes@.len() && !path.contains(g.nodes@[i].id))
}

/// Putting a graph node onto the path strictly shrinks the set of entries
/// still off the path.
proof fn lemma_absent_entries_decrease(g: NetworkTopology, path: Seq<NodeId>, nb: NodeId)
    requires
        g.contains_node(nb),
        !path.contains(nb),
    ensures
        absent_entries(g, path).finite(),
        absent_entries(g, path.push(nb)).len() < absent_entries(g, path).len(),
{
    broadcast use vstd::seq_lib::lemma_seq_contains_after_push;

    let n = g.nodes@.len() as int;
    let s = absent_entries(g, path);
    let s2 = absent_entries(g, path.push(nb));
    vstd::set_lib::lemma_int_range(0, n);
    assert(s.subset_of(vstd::set_lib::set_int_range(0, n)));
    vstd::set_lib::lemma_len_subset(s, vstd::set_lib::set_int_range(0, n));
    let j = choose|j: int| 0 <= j < g.nodes@.len() && g.nodes@[j].id == nb;
    assert(s.contains(j));
    assert(path.push(nb).contains(nb));
    assert(!s2.contains(j));
    assert(s2.subset_of(s.remove(j))) by {
        assert forall|i: int| s2.contains(i) implies s.remove(j).contains(i) by {
            assert(!path.push(nb).contains(g.nodes@[i].id));
            if path.contains(g.nodes@[i].id) {
                assert(path.push(nb).contains(g.nodes@[i].id));
            }
        }
    }
    vstd::set::axiom_set_remove_len(s, j);
    vstd::set_lib::lemma_len_subset(s2, s.remove(j));
}

/// A continuation of `base` whose first step is the neighbor `nb` is the
/// same thing as a continuation of `base` extended by `nb`.
proof fn lemma_completion_step(
    g: NetworkTopology,
    base: Seq<NodeId>,
    nb: NodeId,
    q: Seq<NodeId>,
    dst: NodeId,
)
    requires
        base.len() >= 1,
        g.has_edge(base[base.len() - 1], nb),
        !base.contains(nb),
    ensures
        (completes_path(g, base, q, dst) && q.len() > base.len() && q[base.len() as int] == nb)
            <==> completes_path(g, base.push(nb), q, dst),
{
    let ext = base.push(nb);
    if completes_path(g, base, q, dst) && q.len() > base.len() && q[base.len() as int] == nb {
        assert(q.subrange(0, ext.len() as int) =~= ext) by {
            assert(forall|k: int|
                0 <= k < base.len() ==> q.subrange(0, base.len() as int)[k] == #[trigger] q[k]);
        }
        assert(completes_path(g, ext, q, dst));
    }
    if completes_path(g, ext, q, dst) {
        assert(q.subrange(0, base.len() as int) =~= base) by {
            assert(forall|k: int|
                0 <= k < ext.len() ==> q.subrange(0, ext.len() as int)[k] == #[trigger] q[k]);
        }
        assert(q[base.len() as int] == ext[base.len() as int]);
        assert(q[base.len() as int] == nb);
        assert forall|k: int| base.len() <= k < q.len() implies g.has_edge(
            q[k - 1],
            #[trigger] q[k],
        ) by {
            if k == base.len() {
                assert(q[k - 1] == base[base.len() - 1]);
            }
        }
        assert(completes_path(g, base, q, dst));
    }
}

/// Joins the two halves of one neighbor scan step: the records whose first
/// step is the neighbor `nb`, then those whose first step lies in the rest
/// of the neighbor list.
#[verifier::spinoff_prover]
proof fn lemma_dfs_combine(
    g: NetworkTopology,
    base: Seq<NodeId>,
    nb: NodeId,
    destination: NodeId,
    n0: int,
    len_mid: int,
    post: Seq<Vec<NodeId>>,
    tail_t: Seq<NodeId>,
    tail_t1: Seq<NodeId>,
)
    requires
        0 <= n0 <= len_mid <= post.len(),
        forall|x: NodeId| #[trigger] tail_t.contains(x) == (x == nb || tail_t1.contains(x)),
        !tail_t1.contains(nb),
        forall|i: int|
            n0 <= i < len_mid ==> completes_path(g, base, (#[trigger] post[i])@, destination)
                && post[i]@.len() > base.len() && post[i]@[base.len() as int] == nb,
        forall|q: Seq<NodeId>|
            #[trigger] completes_path(g, base, q, destination) && q.len() > base.len() && q[
            base.len() as int] == nb ==> exists|i: int| n0 <= i < len_mid && (#[trigger] post[i])@
                == q,
        forall|i: int, j: int| n0 <= i < j < len_mid ==> post[i]@ != post[j]@,
        forall|i: int|
            len_mid <= i < post.len() ==> completes_path(g, base, (#[trigger] post[i])@, destination)
                && post[i]@.len() > base.len() && tail_t1.contains(post[i]@[base.len() as int]),
        forall|q: Seq<NodeId>|
            #[trigger] completes_path(g, base, q, destination) && q.len() > base.len()
                && tail_t1.contains(q[base.len() as int]) ==> exists|i: int|
                len_mid <= i < post.len() && (#[trigger] post[i])@ == q,
        forall|i: int, j: int| len_mid <= i < j < post.len() ==> post[i]@ != post[j]@,
    ensures
        forall|i: int|
            n0 <= i < post.len() ==> completes_path(g, base, (#[trigger] post[i])@, destination)
                && post[i]@.len() > base.len() && tail_t.contains(post[i]@[base.len() as int]),
        forall|q: Seq<NodeId>|
            #[trigger] completes_path(g, base, q, destination) && q.len() > base.len()
                && tail_t.contains(q[base.len() as int]) ==> exists|i: int|
                n0 <= i < post.len() && (#[trigger] post[i])@ == q,
        forall|i: int, j: int| n0 <= i < j < post.len() ==> post[i]@ != post[j]@,
{
    assert forall|i: int, j: int| n0 <= i < j < post.len() implies post[i]@ != post[j]@ by {
        if i < len_mid && j >= len_mid {
            assert(post[i]@[base.len() as int] == nb);
            assert(tail_t1.contains(post[j]@[base.len() as int]));
        }
    }
}

impl NetworkTopology {
    /// Records, onto `paths`, exactly the loop-free continuations of the
    /// current `path` that end at `destination`, leaving the path as it was
    /// and everything previously recorded in place.
    #[verifier::rlimit(100)]
    #[verifier::spinoff_prover]
    fn dfs(&self, destination: NodeId, path: Vec<NodeId>, paths: &mut Vec<Vec<NodeId>>) -> (out:
        Vec<NodeId>)
        requires
            self.wf(),
            path@.len() >= 1,
            forall|k: int| 0 < k < path@.len() ==> self.has_edge(path@[k - 1], #[trigger] path@[k]),
            forall|i: int, j: int| 0 <= i < j < path@.len() ==> path@[i] != path@[j],
            forall|k: int| 0 < k < path@.len() ==> self.contains_node(#[trigger] path@[k]),
        ensures
            out@ == path@,
            final(paths)@.len() >= old(paths)@.len(),
            forall|i: int|
                0 <= i < old(paths)@.len() ==> final(paths)@[i] == #[trigger] old(paths)@[i],
            forall|i: int|
                old(paths)@.len() <= i < final(paths)@.len() ==> completes_path(
                    *self,
                    path@,
                    (#[trigger] final(paths)@[i])@,
                    destination,
                ),
            forall|q: Seq<NodeId>|
                #[trigger] completes_path(*self, path@, q, destination) ==> exists|i: int|
                    old(paths)@.len() <= i < final(paths)@.len() && (#[trigger] final(paths)@[i])@
                        == q,
            forall|i: int, j: int|
                old(paths)@.len() <= i < j < final(paths)@.len() ==> final(paths)@[i]@ != final(paths)@[j]@,
        decreases absent_entries(*self, path@).len(), 1int, 0int,
    {
        let ghost g = *self;
        let ghost base = path@;
        let ghost n0 = paths@.len() as int;
        let current = path[path.len() - 1];
        if current == destination {
            paths.push(crate::packet::copy_vec(&path));
            proof {
                assert(paths@[n0]@ == base);
                assert(base.subrange(0, base.len() as int) =~= base);
                assert(completes_path(g, base, base, destination));
                assert forall|q: Seq<NodeId>|
                    #[trigger] completes_path(g, base, q, destination) implies q == base by {
                    if q.len() > base.len() {
                        assert(q[base.len() - 1] == base[base.len() - 1]) by {
                            assert(q.subrange(0, base.len() as int)[base.len() - 1] == q[base.len()
                                - 1]);
                        }
                        assert(q[base.len() - 1] == destination);
                        assert(q[q.len() - 1] == destination);
                        assert(false);
                    }
                    assert(q =~= base) by {
                        assert(forall|k: int|
                            0 <= k < base.len() ==> q.subrange(0, base.len() as int)[k]
                                == #[trigger] q[k]);
                    }
                }
            }
            return path;
        }
        let _graph_size = self.nodes.len();
        let ix = match self.find_index(current) {
            Some(ix) => ix,
            None => {
                proof {
                    assert forall|q: Seq<NodeId>|
                        #[trigger] completes_path(g, base, q, destination) implies false by {
                        if q.len() == base.len() {
                            assert(q =~= base) by {
                                assert(forall|k: int|
                                    0 <= k < base.len() ==> q.subrange(0, base.len() as int)[k]
                                        == #[trigger] q[k]);
                            }
                            assert(q[q.len() - 1] == current);
                        } else {
                            assert(g.has_edge(q[base.len() - 1], q[base.len() as int]));
                            assert(q[base.len() - 1] == current) by {
                                assert(q.subrange(0, base.len() as int)[base.len() - 1] == q[
                                base.len() - 1]);
                            }
                            assert(g.contains_node(current));
                        }
                    }
                }
                return path;
            },
        };
        proof {
            self.lemma_index_of(current);
            assert(ix as int == self.index_of(current));
        }
        let out = self.dfs_from(destination, ix, 0, path, paths);
        proof {
            let nbrs = self.nodes@[ix as int].neighbors@;
            assert(nbrs.subrange(0 as int, nbrs.len() as int) =~= nbrs);
            assert forall|q: Seq<NodeId>|
                #[trigger] completes_path(g, base, q, destination) implies exists|i: int|
                n0 <= i < paths@.len() && (#[trigger] paths@[i])@ == q by {
                if q.len() == base.len() {
                    assert(q =~= base) by {
                        assert(forall|k: int|
                            0 <= k < base.len() ==> q.subrange(0, base.len() as int)[k]
                                == #[trigger] q[k]);
                    }
                    assert(q[q.len() - 1] == current);
                    assert(false);
                } else {
                    let first = q[base.len() as int];
                    assert(q[base.len() - 1] == current) by {
                        assert(q.subrange(0, base.len() as int)[base.len() - 1] == q[base.len()
                            - 1]);
                    }
                    assert(g.has_edge(current, first));
                    let e = choose|e: int|
                        0 <= e < g.nodes@.len() && g.nodes@[e].id == current
                            && g.nodes@[e].neighbors@.contains(first);
                    assert(e == ix as int);
                    assert(nbrs.contains(first));
                }
            }
        }
        out
    }

    /// Scans the neighbors of the node at entry `ix` (the last node of
    /// `path`) from position `t` on, recording exactly the continuations of
    /// `path` whose first step is one of those neighbors.
    #[verifier::rlimit(100)]
    #[verifier::spinoff_prover]
    fn dfs_from(
        &self,
        destination: NodeId,
        ix: usize,
        t: usize,
        path: Vec<NodeId>,
        paths: &mut Vec<Vec<NodeId>>,
    ) -> (out: Vec<NodeId>)
        requires
            self.wf(),
            path@.len() >= 1,
            forall|k: int| 0 < k < path@.len() ==> self.has_edge(path@[k - 1], #[trigger] path@[k]),
            forall|i: int, j: int| 0 <= i < j < path@.len() ==> path@[i] != path@[j],
            forall|k: int| 0 < k < path@.len() ==> self.contains_node(#[trigger] path@[k]),
            path@[path@.len() - 1] != destination,
            ix < self.nodes@.len(),
            self.nodes@[ix as int].id == path@[path@.len() - 1],
            t <= self.nodes@[ix as int].neighbors@.len(),
        ensures
            out@ == path@,
            final(paths)@.len() >= old(paths)@.len(),
            forall|i: int|
                0 <= i < old(paths)@.len() ==> final(paths)@[i] == #[trigger] old(paths)@[i],
            forall|i: int|
                old(paths)@.len() <= i < final(paths)@.len() ==> completes_path(
                    *self,
                    path@,
                    (#[trigger] final(paths)@[i])@,
                    destination,
                ) && (#[trigger] final(paths)@[i])@.len() > path@.len()
                    && self.nodes@[ix as int].neighbors@.subrange(
                    t as int,
                    self.nodes@[ix as int].neighbors@.len() as int,
                ).contains(final(paths)@[i]@[path@.len() as int]),
            forall|q: Seq<NodeId>|
                #[trigger] completes_path(*self, path@, q, destination) && q.len() > path@.len()
                    && self.nodes@[ix as int].neighbors@.subrange(
                    t as int,
                    self.nodes@[ix as int].neighbors@.len() as int,
                ).contains(q[path@.len() as int]) ==> exists|i: int|
                    old(paths)@.len() <= i < final(paths)@.len() && (#[trigger] final(paths)@[i])@
                        == q,
            forall|i: int, j: int|
                old(paths)@.len() <= i < j < final(paths)@.len() ==> final(paths)@[i]@ != final(paths)@[j]@,
        decreases
                absent_entries(*self, path@).len(),
                0int,
                self.nodes@[ix as int].neighbors@.len() - t,
    {
        let ghost g = *self;
        let ghost base = path@;
        let ghost n0 = paths@.len() as int;
        let ghost nbrs = self.nodes@[ix as int].neighbors@;
        let current = path[path.len() - 1];
        proof {
            assert(current == base[base.len() - 1]);
        }
        let deg = self.nodes[ix].neighbors.len();
        if t >= deg {
            proof {
                assert(nbrs.subrange(t as int, nbrs.len() as int) =~= Seq::<NodeId>::empty());
            }
            return path;
        }
        let nb = self.nodes[ix].neighbors[t];
        let ghost tail_t = nbrs.subrange(t as int, nbrs.len() as int);
        let ghost tail_t1 = nbrs.subrange(t as int + 1, nbrs.len() as int);
        proof {
            assert(nbrs[t as int] == nb);
            assert(g.has_edge(current, nb)) by {
                assert(nbrs.contains(nb));
            }
            // Membership in the tail from `t` splits into `nb` and the tail
            // from `t + 1`; the neighbor list is duplicate-free, so `nb` is
            // not in the shorter tail.
            assert forall|x: NodeId| #[trigger]
                tail_t.contains(x) == (x == nb || tail_t1.contains(x)) by {
                if tail_t.contains(x) {
                    let m = choose|m: int| 0 <= m < tail_t.len() && tail_t[m] == x;
                    if m > 0 {
                        assert(tail_t1[m - 1] == x);
                    }
                }
                if x == nb {
                    assert(tail_t[0] == nb);
                }
                if tail_t1.contains(x) {
                    let m = choose|m: int| 0 <= m < tail_t1.len() && tail_t1[m] == x;
                    assert(tail_t[m + 1] == x);
                }
            }
            assert(!tail_t1.contains(nb)) by {
                if tail_t1.contains(nb) {
                    let m = choose|m: int| 0 <= m < tail_t1.len() && tail_t1[m] == nb;
                    assert(nbrs[t as int + 1 + m] == nbrs[t as int]);
                }
            }
        }
        let mut path = path;
        if !crate::topology::contains_id(&path, nb) {
            path.push(nb);
            proof {
                assert(path@ == base.push(nb));
                assert(path@[path@.len() - 1] == nb);
                assert forall|k: int|
                    0 < k < path@.len() implies g.has_edge(path@[k - 1], #[trigger] path@[k]) by {
                    if k < base.len() {
                        assert(path@[k] == base[k] && path@[k - 1] == base[k - 1]);
                    } else {
                        assert(path@[k] == nb && path@[k - 1] == current);
                    }
                }
                assert forall|i: int, j: int|
                    0 <= i < j < path@.len() implies path@[i] != path@[j] by {
                    if j == base.len() {
                        assert(path@[i] == base[i]);
                        if base[i] == nb {
                            assert(base.contains(nb));
                        }
                    }
                }
                assert forall|k: int|
                    0 < k < path@.len() implies g.contains_node(#[trigger] path@[k]) by {
                    if k == base.len() {
                        assert(nbrs.contains(nb));
                        assert(g.contains_node(nb));
                    }
                }
                lemma_absent_entries_decrease(g, base, nb);
            }
            let ghost paths_before = paths@;
            path = self.dfs(destination, path, paths);
            let _popped = path.pop();
            proof {
                assert(path@ =~= base);
                assert forall|i: int|
                    n0 <= i < paths@.len() implies completes_path(
                    g,
                    base,
                    (#[trigger] paths@[i])@,
                    destination,
                ) && paths@[i]@.len() > base.len() && paths@[i]@[base.len() as int] == nb by {
                    assert(paths@[i] == paths_before[i] || completes_path(
                        g,
                        base.push(nb),
                        paths@[i]@,
                        destination,
                    ));
                    lemma_completion_step(g, base, nb, paths@[i]@, destination);
                }
            }
        } else {
            proof {
                assert(base.contains(nb));
            }
        }
        let ghost paths_mid = paths@;
        let ghost len_mid = paths_mid.len() as int;
        proof {
            // The first half covers every continuation whose first step is
            // `nb`: when `nb` was already on the path, no such continuation
            // exists at all.
            assert forall|q: Seq<NodeId>|
                #[trigger] completes_path(g, base, q, destination) && q.len() > base.len() && q[
                base.len() as int] == nb implies exists|i: int|
                n0 <= i < len_mid && (#[trigger] paths_mid[i])@ == q by {
                if base.contains(nb) {
                    let m = choose|m: int| 0 <= m < base.len() && base[m] == nb;
                    assert(q[m] == base[m]) by {
                        assert(q.subrange(0, base.len() as int)[m] == q[m]);
                    }
                    assert(q[m] == q[base.len() as int]);
                    assert(false);
                } else {
                    lemma_completion_step(g, base, nb, q, destination);
                    assert(completes_path(g, base.push(nb), q, destination));
                }
            }
        }
        let out = self.dfs_from(destination, ix, t + 1, path, paths);
        proof {
            assert(tail_t1 == nbrs.subrange(t as int + 1, nbrs.len() as int));
            assert forall|i: int|
                0 <= i < len_mid implies paths@[i] == #[trigger] paths_mid[i] by {}
            assert forall|i: int|
                n0 <= i < len_mid implies completes_path(
                g,
                base,
                (#[trigger] paths@[i])@,
                destination,
            ) && paths@[i]@.len() > base.len() && paths@[i]@[base.len() as int] == nb by {
                assert(paths@[i] == paths_mid[i]);
            }
            assert forall|i: int, j: int|
                n0 <= i < j < len_mid implies paths@[i]@ != paths@[j]@ by {
                assert(paths@[i] == paths_mid[i] && paths@[j] == paths_mid[j]);
            }
            lemma_dfs_combine(
                g,
                base,
                nb,
                destination,
                n0,
                len_mid,
                paths@,
                tail_t,
                tail_t1,
            );
        }
        out
    }

    /// Exhaustive simple-path search: the result is exactly the set of
    /// loop-free paths from `current_id` to `destination_id` along recorded
    /// edges — every returned path is such a path, every such path is
    /// returned, and none is returned twice. In particular the result is
    /// empty exactly when the destination is unreachable. The order of the
    /// paths follows the neighbor lists and carries no further meaning.
    pub fn find_paths_to(&self, current_id: NodeId, destination_id: NodeId) -> (r: Vec<
        Vec<NodeId>,
    >)
        requires
            self.wf(),
        ensures
            forall|i: int|
                0 <= i < r@.len() ==> path_ok(
                    *self,
                    (#[trigger] r@[i])@,
                    current_id,
                    destination_id,
                ),
            forall|p: Seq<NodeId>|
                #[trigger] path_ok(*self, p, current_id, destination_id) ==> exists|i: int|
                    0 <= i < r@.len() && (#[trigger] r@[i])@ == p,
            forall|i: int, j: int| 0 <= i < j < r@.len() ==> r@[i]@ != r@[j]@,
            connected(*self, current_id, destination_id) <==> r@.len() > 0,
            current_id == destination_id ==> r@.len() == 1 && r@[0]@ == seq![current_id],
    {
        let mut path: Vec<NodeId> = Vec::new();
        path.push(current_id);
        let mut paths: Vec<Vec<NodeId>> = Vec::new();
        let _path = self.dfs(destination_id, path, &mut paths);
        proof {
            let g = *self;
            let start = seq![current_id];
            assert forall|q: Seq<NodeId>|
                #[trigger] path_ok(g, q, current_id, destination_id) == completes_path(
                g,
                start,
                q,
                destination_id,
            ) by {
                if path_ok(g, q, current_id, destination_id) {
                    assert(q.subrange(0, 1) =~= start);
                }
                if completes_path(g, start, q, destination_id) {
                    assert(q[0] == start[0]) by {
                        assert(q.subrange(0, 1)[0] == q[0]);
                    }
                }
            }
            if paths@.len() > 0 {
                assert(path_ok(g, paths@[0]@, current_id, destination_id));
                assert(connected(g, current_id, destination_id));
            }
            if connected(g, current_id, destination_id) {
                let p = choose|p: Seq<NodeId>| path_ok(g, p, current_id, destination_id);
                assert(completes_path(g, start, p, destination_id));
            }
            if current_id == destination_id {
                assert(path_ok(g, start, current_id, destination_id)) by {
                    assert(start[0] == current_id);
                }
                assert(paths@.len() >= 1);
                assert forall|i: int| 0 <= i < paths@.len() implies (#[trigger] paths@[i])@
                    == start by {
                    let q = paths@[i]@;
                    assert(path_ok(g, q, current_id, destination_id));
                    if q.len() > 1 {
                        assert(q[0] == current_id && q[q.len() - 1] == destination_id);
                        assert(false);
                    }
                    assert(q =~= start);
                }
                if paths@.len() > 1 {
                    assert(paths@[0]@ != paths@[1]@);
                    assert(false);
                }
            }
        }
        paths
    }
}

/// The path resolver of one node: its own identity, the discovered topology,
/// and the flood counter that tags each discovery round it initiates.
#[derive(Debug)]
pub struct Router {
    pub id: NodeId,
    pub role: NodeRole,
    pub topology: NetworkTopology,
    pub flood_counter: u64,
}

impl Router {
    /// A router that has discovered nothing yet.
    pub fn new(id: NodeId, role: NodeRole) -> (r: Router)
        ensures
            r.id == id,
            r.role == role,
            r.flood_counter == 0,
            r.topology.wf(),
            forall|x: NodeId| !r.topology.contains_node(x),
            forall|a: NodeId, b: NodeId| !r.topology.has_edge(a, b),
    {
        Router { id, role, topology: NetworkTopology::new(), flood_counter: 0 }
    }

    /// Starts a new discovery round: bumps the flood counter and builds the
    /// flood request packet to hand to every neighbor, seeded with this
    /// node's own (id, role).
    pub fn get_flood_request(&mut self) -> (r: Packet)
        ensures
            final(self).id == old(self).id,
            final(self).role == old(self).role,
            final(self).topology == old(self).topology,
            final(self).flood_counter == if old(self).flood_counter == u64::MAX {
                0u64
            } else {
                (old(self).flood_counter + 1) as u64
            },
            r@.session_id == 0,
            r@.routing_header.hops.len() == 0,
            r@.routing_header.hop_index == 0,
            r@.pack_type == (crate::packet::PacketTypeView::FloodRequest {
                flood_id: final(self).flood_counter,
                initiator_id: old(self).id,
                path_trace: seq![(old(self).id, old(self).role)],
            }),
    {
        self.flood_counter = if self.flood_counter == u64::MAX {
            0
        } else {
            self.flood_counter + 1
        };
        let mut path_trace: Vec<(NodeId, NodeRole)> = Vec::new();
        path_trace.push((self.id, self.role));
        proof {
            assert(path_trace@ =~= seq![(self.id, self.role)]);
        }
        Packet {
            routing_header: RoutingHeader { hops: Vec::new(), hop_index: 0 },
            session_id: 0,
            pack_type: PacketType::FloodRequest(FloodRequest {
                flood_id: self.flood_counter,
                initiator_id: self.id,
                path_trace,
            }),
        }
    }

    /// Folds the path trace of a flood response into the topology. A response
    /// with an empty trace is defensively dropped.
    pub fn handle_flood_response(&mut self, response: &crate::packet::FloodResponse)
        requires
            old(self).topology.wf(),
        ensures
            final(self).id == old(self).id,
            final(self).role == old(self).role,
            final(self).flood_counter == old(self).flood_counter,
            final(self).topology.wf(),
            response.path_trace@.len() == 0 ==> final(self).topology == old(self).topology,
            response.path_trace@.len() > 0 ==> crate::topology::absorbs_trace(
                old(self).topology,
                final(self).topology,
                response.path_trace@,
            ),
    {
        if response.path_trace.len() == 0 {
            return ;
        }
        self.topology.process_path_trace(&response.path_trace);
    }

    /// Forgets a crashed node: it leaves the topology together with every
    /// edge touching it, so no later header can route through it.
    pub fn drone_crashed(&mut self, node: NodeId)
        requires
            old(self).topology.wf(),
        ensures
            final(self).id == old(self).id,
            final(self).role == old(self).role,
            final(self).flood_counter == old(self).flood_counter,
            final(self).topology.wf(),
            !final(self).topology.contains_node(node),
            forall|x: NodeId|
                final(self).topology.contains_node(x) <==> old(self).topology.contains_node(x)
                    && x != node,
            forall|a: NodeId, b: NodeId|
                final(self).topology.has_edge(a, b) <==> old(self).topology.has_edge(a, b) && a
                    != node && b != node,
    {
        self.topology.remove_node(node);
    }

    /// The first discovered loop-free route to `dest`, as a routing header
    /// positioned at its first forward hop. Fails with [`RoutingError::NoPathFound`]
    /// when the graph holds no such route; in particular an unreachable
    /// destination always fails and never yields an invalid header.
    pub fn get_source_routing_header(&self, dest: NodeId) -> (r: Result<
        RoutingHeader,
        RoutingError,
    >)
        requires
            self.topology.wf(),
        ensures
            r matches Ok(h) ==> path_ok(self.topology, h@.hops, self.id, dest) && h@.hop_index
                == 1,
            r is Ok <==> connected(self.topology, self.id, dest),
            r is Err ==> r == Err::<RoutingHeader, RoutingError>(RoutingError::NoPathFound),
    {
        let mut paths = self.topology.find_paths_to(self.id, dest);
        if paths.len() == 0 {
            Err(RoutingError::NoPathFound)
        } else {
            let first = paths.remove(0);
            Ok(RoutingHeader { hops: first, hop_index: 1 })
        }
    }

    /// Every discovered loop-free route to `dest`, each as a header
    /// positioned at its first forward hop.
    pub fn get_multiple_source_routing_headers(&self, dest: NodeId) -> (r: Vec<RoutingHeader>)
        requires
            self.topology.wf(),
        ensures
            forall|i: int|
                0 <= i < r@.len() ==> path_ok(self.topology, (#[trigger] r@[i])@.hops, self.id, dest)
                    && r@[i]@.hop_index == 1,
            forall|p: Seq<NodeId>|
                #[trigger] path_ok(self.topology, p, self.id, dest) ==> exists|i: int|
                    0 <= i < r@.len() && (#[trigger] r@[i])@.hops == p,
            connected(self.topology, self.id, dest) <==> r@.len() > 0,
    {
        let paths = self.topology.find_paths_to(self.id, dest);
        let mut r: Vec<RoutingHeader> = Vec::new();
        let mut i: usize = 0;
        while i < paths.len()
            invariant
                self.topology.wf(),
                i <= paths@.len(),
                forall|k: int|
                    0 <= k < paths@.len() ==> path_ok(self.topology, paths@[k]@, self.id, dest),
                r@.len() == i,
                forall|k: int|
                    0 <= k < r@.len() ==> path_ok(self.topology, (#[trigger] r@[k])@.hops, self.id, dest)
                        && r@[k]@.hop_index == 1,
                forall|k: int| 0 <= k < r@.len() ==> (#[trigger] r@[k])@.hops == paths@[k]@,
            decreases paths@.len() - i,
        {
            let hops = crate::packet::copy_vec(&paths[i]);
            r.push(RoutingHeader { hops, hop_index: 1 });
            i = i + 1;
        }
        proof {
            if r@.len() > 0 {
                assert(path_ok(self.topology, r@[0]@.hops, self.id, dest));
                assert(connected(self.topology, self.id, dest));
            }
            if connected(self.topology, self.id, dest) {
                let p = choose|p: Seq<NodeId>| path_ok(self.topology, p, self.id, dest);
                assert(exists|k: int|
                    0 <= k < paths@.len() && (#[trigger] paths@[k])@ == p);
            }
            assert forall|p: Seq<NodeId>|
                #[trigger] path_ok(self.topology, p, self.id, dest) implies exists|k: int|
                0 <= k < r@.len() && (#[trigger] r@[k])@.hops == p by {
                let k = choose|k: int| 0 <= k < paths@.len() && (#[trigger] paths@[k])@ == p;
                assert(r@[k]@.hops == p);
            }
        }
        r
    }

    /// A route to `dest` that avoids `excluded`, or the flood request of the
    /// forced re-discovery that was started because none remained.
    pub fn get_alternate_routing_header(&mut self, dest: NodeId, excluded: NodeId) -> (r: AltRoute)
        requires
            old(self).topology.wf(),
        ensures
            final(self).id == old(self).id,
            final(self).role == old(self).role,
            final(self).topology.wf(),
            r matches AltRoute::Found(h) ==> *final(self) == *old(self) && path_ok(
                old(self).topology,
                h@.hops,
                old(self).id,
                dest,
            ) && h@.hop_index == 1 && !h@.hops.contains(excluded),
            r is Found <==> exists|p: Seq<NodeId>|
                path_ok(old(self).topology, p, old(self).id, dest) && !p.contains(excluded),
            r matches AltRoute::Unreachable { flood_request } ==> (forall|x: NodeId|
                !final(self).topology.contains_node(x)) && final(self).flood_counter == (if old(
                self,
            ).flood_counter == u64::MAX {
                0u64
            } else {
                (old(self).flood_counter + 1) as u64
            }) && flood_request@.session_id == 0 && flood_request@.routing_header.hops.len() == 0
                && flood_request@.routing_header.hop_index == 0 && flood_request@.pack_type == (
            crate::packet::PacketTypeView::FloodRequest {
                flood_id: final(self).flood_counter,
                initiator_id: old(self).id,
                path_trace: seq![(old(self).id, old(self).role)],
            }),
    {
        let paths = self.topology.find_paths_to(self.id, dest);
        let ghost pre = *self;
        let mut i: usize = 0;
        while i < paths.len()
            invariant
                self.topology.wf(),
                *self == pre,
                i <= paths@.len(),
                forall|k: int|
                    0 <= k < paths@.len() ==> path_ok(self.topology, (#[trigger] paths@[k])@, self.id, dest),
                forall|p: Seq<NodeId>|
                    #[trigger] path_ok(self.topology, p, self.id, dest) ==> exists|k: int|
                        0 <= k < paths@.len() && (#[trigger] paths@[k])@ == p,
                forall|k: int| 0 <= k < i ==> (#[trigger] paths@[k])@.contains(excluded),
            decreases paths@.len() - i,
        {
            if !contains_id(&paths[i], excluded) {
                let hops = crate::packet::copy_vec(&paths[i]);
                return AltRoute::Found(RoutingHeader { hops, hop_index: 1 });
            }
            i = i + 1;
        }
        proof {
            // Every discovered route crosses the excluded node, and every
            // loop-free route is discovered: none avoids it.
            assert forall|p: Seq<NodeId>|
                path_ok(pre.topology, p, pre.id, dest) implies #[trigger] p.contains(excluded) by {
                let k = choose|k: int| 0 <= k < paths@.len() && (#[trigger] paths@[k])@ == p;
                assert(paths@[k]@.contains(excluded));
            }
        }
        // No discovered route avoids the excluded node: wipe the graph and
        // start a fresh discovery round; the caller broadcasts the request.
        self.topology.clear();
        let flood_request = self.get_flood_request();
        AltRoute::Unreachable { flood_request }
    }

    /// The ids of all discovered nodes recorded with the `Server` role.
    pub fn get_server_list(&self) -> (r: Vec<NodeId>)
        requires
            self.topology.wf(),
        ensures
            forall|k: int|
                0 <= k < r@.len() ==> self.topology.contains_node(r@[k])
                    && self.topology.role_of(r@[k]) == NodeRole::Server,
            forall|x: NodeId|
                self.topology.contains_node(x) && self.topology.role_of(x) == NodeRole::Server
                    ==> r@.contains(x),
    {
        self.topology.server_ids()
    }
}

} // verus!
