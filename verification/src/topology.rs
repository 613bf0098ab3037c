//! Adjacency knowledge of discovered nodes: an undirected, additive graph of
//! node ids with their roles, fed by the path traces of flood responses.

use vstd::prelude::*;

use crate::packet::{NodeId, NodeRole};

verus! {

/// Whether `id` appears anywhere in a path trace.
pub open spec fn trace_mentions(trace: Seq<(NodeId, NodeRole)>, id: NodeId) -> bool {
    exists|k: int| 0 <= k < trace.len() && trace[k].0 == id
}

/// Whether `a` and `b` stand next to each other (in either order) somewhere
/// in a path trace.
pub open spec fn adjacent_in_trace(trace: Seq<(NodeId, NodeRole)>, a: NodeId, b: NodeId) -> bool {
    exists|k: int|
        #![trigger trace[k]]
        1 <= k < trace.len() && ((trace[k - 1].0 == a && trace[k].0 == b) || (trace[k - 1].0 == b
            && trace[k].0 == a))
}

/// The role paired with the last mention of `id` in a path trace.
pub open spec fn last_role_in(trace: Seq<(NodeId, NodeRole)>, id: NodeId) -> NodeRole
    recommends
        trace_mentions(trace, id),
    decreases trace.len(),
{
    if trace.len() == 0 {
        arbitrary()
    } else if trace[trace.len() - 1].0 == id {
        trace[trace.len() - 1].1
    } else {
        last_role_in(trace.drop_last(), id)
    }
}

/// How a graph grows by absorbing one path trace: the new graph holds exactly
/// the old nodes plus those the trace mentions, exactly the old edges plus one
/// edge in each direction per consecutive trace pair, the mentioned nodes
/// carry the role of their last mention, and every other role is kept.
pub open spec fn absorbs_trace(
    pre: NetworkTopology,
    post: NetworkTopology,
    trace: Seq<(NodeId, NodeRole)>,
) -> bool {
    &&& forall|x: NodeId|
        post.contains_node(x) <==> pre.contains_node(x) || trace_mentions(trace, x)
    &&& forall|a: NodeId, b: NodeId|
        post.has_edge(a, b) <==> pre.has_edge(a, b) || adjacent_in_trace(trace, a, b)
    &&& forall|x: NodeId|
        trace_mentions(trace, x) ==> post.role_of(x) == last_role_in(trace, x)
    &&& forall|x: NodeId|
        !trace_mentions(trace, x) && pre.contains_node(x) ==> post.role_of(x) == pre.role_of(x)
}

/// Law: absorbing a path trace records every pair of consecutive trace
/// entries as an edge in both directions.
pub proof fn lemma_trace_edges_both_ways(
    pre: NetworkTopology,
    post: NetworkTopology,
    trace: Seq<(NodeId, NodeRole)>,
    k: int,
)
    requires
        absorbs_trace(pre, post, trace),
        1 <= k < trace.len(),
    ensures
        post.has_edge(trace[k - 1].0, trace[k].0),
        post.has_edge(trace[k].0, trace[k - 1].0),
{
    assert(adjacent_in_trace(trace, trace[k - 1].0, trace[k].0));
    assert(adjacent_in_trace(trace, trace[k].0, trace[k - 1].0));
}

/// A duplicate-free id list stays duplicate-free when an id it does not hold
/// is appended.
proof fn lemma_distinct_push(s: Seq<NodeId>, x: NodeId)
    requires
        forall|k1: int, k2: int| 0 <= k1 < k2 < s.len() ==> s[k1] != s[k2],
        !s.contains(x),
    ensures
        forall|k1: int, k2: int|
            0 <= k1 < k2 < s.push(x).len() ==> s.push(x)[k1] != s.push(x)[k2],
{
    assert forall|k1: int, k2: int|
        0 <= k1 < k2 < s.push(x).len() implies s.push(x)[k1] != s.push(x)[k2] by {
        if k2 == s.len() {
            assert(s.push(x)[k1] == s[k1]);
            if s[k1] == x {
                assert(s.contains(x));
            }
        }
    }
}

/// Growing a trace prefix by one entry mentions exactly the old ids plus the
/// id of the new entry.
proof fn lemma_mentions_step(trace: Seq<(NodeId, NodeRole)>, k: int, x: NodeId)
    requires
        0 <= k < trace.len(),
    ensures
        trace_mentions(trace.subrange(0, k + 1), x) <==> trace_mentions(trace.subrange(0, k), x)
            || trace[k].0 == x,
{
    let p = trace.subrange(0, k);
    let q = trace.subrange(0, k + 1);
    assert(q =~= p.push(trace[k]));
    if trace_mentions(p, x) {
        let i = choose|i: int| 0 <= i < p.len() && p[i].0 == x;
        assert(q[i].0 == x);
    }
    if trace[k].0 == x {
        assert(q[k].0 == x);
    }
    if trace_mentions(q, x) {
        let i = choose|i: int| 0 <= i < q.len() && q[i].0 == x;
        if i < k {
            assert(p[i].0 == x);
        }
    }
}

/// Growing a trace prefix by one entry adds exactly the adjacency between the
/// last old entry and the new one.
proof fn lemma_adjacent_step(trace: Seq<(NodeId, NodeRole)>, k: int, a: NodeId, b: NodeId)
    requires
        0 <= k < trace.len(),
    ensures
        adjacent_in_trace(trace.subrange(0, k + 1), a, b) <==> adjacent_in_trace(
            trace.subrange(0, k),
            a,
            b,
        ) || (k >= 1 && ((trace[k - 1].0 == a && trace[k].0 == b) || (trace[k - 1].0 == b
            && trace[k].0 == a))),
{
    let p = trace.subrange(0, k);
    let q = trace.subrange(0, k + 1);
    assert(q =~= p.push(trace[k]));
    if adjacent_in_trace(p, a, b) {
        let i = choose|i: int|
            #![trigger p[i]]
            1 <= i < p.len() && ((p[i - 1].0 == a && p[i].0 == b) || (p[i - 1].0 == b && p[i].0
                == a));
        assert(q[i - 1] == p[i - 1] && q[i] == p[i]);
    }
    if k >= 1 && ((trace[k - 1].0 == a && trace[k].0 == b) || (trace[k - 1].0 == b && trace[k].0
        == a)) {
        assert(q[k - 1] == trace[k - 1] && q[k] == trace[k]);
    }
    if adjacent_in_trace(q, a, b) {
        let i = choose|i: int|
            #![trigger q[i]]
            1 <= i < q.len() && ((q[i - 1].0 == a && q[i].0 == b) || (q[i - 1].0 == b && q[i].0
                == a));
        if i < k {
            assert(p[i - 1] == q[i - 1] && p[i] == q[i]);
        } else {
            assert(i == k);
            assert(q[k - 1] == trace[k - 1] && q[k] == trace[k]);
        }
    }
}

/// The last role paired with `x` in a trace prefix grown by one entry.
proof fn lemma_last_role_step(trace: Seq<(NodeId, NodeRole)>, k: int, x: NodeId)
    requires
        0 <= k < trace.len(),
    ensures
        last_role_in(trace.subrange(0, k + 1), x) == if trace[k].0 == x {
            trace[k].1
        } else {
            last_role_in(trace.subrange(0, k), x)
        },
{
    let p = trace.subrange(0, k);
    let q = trace.subrange(0, k + 1);
    assert(q.len() == k + 1);
    assert(q[q.len() - 1] == trace[k]);
    assert(q.drop_last() =~= p);
}

/// A copy of a list of node ids with every occurrence of `x` left out; a
/// duplicate-free list stays duplicate-free.
fn without_id(v: &Vec<NodeId>, x: NodeId) -> (r: Vec<NodeId>)
    ensures
        forall|y: NodeId| r@.contains(y) <==> v@.contains(y) && y != x,
        (forall|k1: int, k2: int| 0 <= k1 < k2 < v@.len() ==> v@[k1] != v@[k2]) ==> forall|
            k1: int,
            k2: int,
        | 0 <= k1 < k2 < r@.len() ==> r@[k1] != r@[k2],
{
    let mut r: Vec<NodeId> = Vec::new();
    let mut i: usize = 0;
    while i < v.len()
        invariant
            i <= v@.len(),
            forall|y: NodeId| r@.contains(y) <==> v@.subrange(0, i as int).contains(y) && y != x,
            (forall|k1: int, k2: int| 0 <= k1 < k2 < v@.len() ==> v@[k1] != v@[k2]) ==> forall|
                k1: int,
                k2: int,
            | 0 <= k1 < k2 < r@.len() ==> r@[k1] != r@[k2],
        decreases v@.len() - i,
    {
        let ghost ii = i as int;
        let ghost prev = r@;
        if v[i] != x {
            proof {
                if forall|k1: int, k2: int| 0 <= k1 < k2 < v@.len() ==> v@[k1] != v@[k2] {
                    if r@.contains(v@[ii]) {
                        let k = choose|k: int| 0 <= k < prev.len() && prev[k] == v@[ii];
                        let k0 = choose|k0: int|
                            0 <= k0 < ii && v@.subrange(0, ii)[k0] == v@[ii];
                        assert(v@[k0] == v@[ii]);
                        assert(false);
                    }
                }
            }
            r.push(v[i]);
        }
        proof {
            assert(v@.subrange(0, ii + 1) =~= v@.subrange(0, ii).push(v@[ii]));
            broadcast use vstd::seq_lib::lemma_seq_contains_after_push;
        }
        i = i + 1;
    }
    proof {
        assert(v@.subrange(0, v@.len() as int) =~= v@);
    }
    r
}

/// Whether a list of node ids holds `x`.
pub fn contains_id(v: &Vec<NodeId>, x: NodeId) -> (r: bool)
    ensures
        r == v@.contains(x),
{
    let mut i: usize = 0;
    while i < v.len()
        invariant
            i <= v@.len(),
            forall|j: int| 0 <= j < i ==> v@[j] != x,
        decreases v@.len() - i,
    {
        if v[i] == x {
            return true;
        }
        i = i + 1;
    }
    false
}

/// One discovered node: its id, its role, and the ids it is linked to.
#[derive(Debug)]
pub struct NetworkNode {
    pub id: NodeId,
    pub role: NodeRole,
    pub neighbors: Vec<NodeId>,
}

/// The discovered graph. Undirected and additive: every inserted edge is
/// symmetric, and entries only leave through [`NetworkTopology::clear`] or
/// [`NetworkTopology::remove_node`].
#[derive(Debug)]
pub struct NetworkTopology {
    pub nodes: Vec<NetworkNode>,
}

impl NetworkTopology {
    /// Whether a node with this id has been discovered.
    pub open spec fn contains_node(self, id: NodeId) -> bool {
        exists|i: int| 0 <= i < self.nodes@.len() && self.nodes@[i].id == id
    }

    /// The index of the entry for `id`; meaningful only under [`Self::wf`]
    /// when the node is present.
    pub open spec fn index_of(self, id: NodeId) -> int {
        choose|i: int| 0 <= i < self.nodes@.len() && self.nodes@[i].id == id
    }

    /// The recorded role of a discovered node.
    pub open spec fn role_of(self, id: NodeId) -> NodeRole
        recommends
            self.contains_node(id),
    {
        self.nodes@[self.index_of(id)].role
    }

    /// Whether the graph holds the directed edge `a -> b`. Under [`Self::wf`]
    /// this relation is symmetric.
    pub open spec fn has_edge(self, a: NodeId, b: NodeId) -> bool {
        exists|i: int|
            0 <= i < self.nodes@.len() && self.nodes@[i].id == a && self.nodes@[i].neighbors@.contains(b)
    }

    /// Well-formedness: ids are unique, the edge relation is symmetric,
    /// every recorded neighbor is itself a discovered node, and no neighbor
    /// list repeats an id.
    pub open spec fn wf(self) -> bool {
        &&& forall|i: int, j: int|
            0 <= i < j < self.nodes@.len() ==> self.nodes@[i].id != self.nodes@[j].id
        &&& forall|a: NodeId, b: NodeId| self.has_edge(a, b) ==> self.has_edge(b, a)
        &&& forall|i: int, k: int|
            0 <= i < self.nodes@.len() && 0 <= k < self.nodes@[i].neighbors@.len()
                ==> self.contains_node(self.nodes@[i].neighbors@[k])
        &&& forall|i: int, k1: int, k2: int|
            #![trigger self.nodes@[i].neighbors@[k1], self.nodes@[i].neighbors@[k2]]
            0 <= i < self.nodes@.len() && 0 <= k1 < k2 < self.nodes@[i].neighbors@.len()
                ==> self.nodes@[i].neighbors@[k1] != self.nodes@[i].neighbors@[k2]
    }

    /// Under [`Self::wf`], the entry index of a present node is unique and in
    /// range, and `index_of` names it.
    pub proof fn lemma_index_of(self, id: NodeId)
        requires
            self.wf(),
            self.contains_node(id),
        ensures
            0 <= self.index_of(id) < self.nodes@.len(),
            self.nodes@[self.index_of(id)].id == id,
            forall|i: int|
                0 <= i < self.nodes@.len() && self.nodes@[i].id == id ==> i == self.index_of(id),
    {
    }

    /// An empty graph.
    pub fn new() -> (r: NetworkTopology)
        ensures
            r.wf(),
            forall|id: NodeId| !r.contains_node(id),
            forall|a: NodeId, b: NodeId| !r.has_edge(a, b),
    {
        NetworkTopology { nodes: Vec::new() }
    }

    /// Wipes the graph entirely, to force a full re-discovery.
    pub fn clear(&mut self)
        ensures
            final(self).wf(),
            forall|id: NodeId| !final(self).contains_node(id),
            forall|a: NodeId, b: NodeId| !final(self).has_edge(a, b),
    {
        self.nodes = Vec::new();
    }

    /// The entry index of `id`, if the node has been discovered.
    pub(crate) fn find_index(&self, id: NodeId) -> (r: Option<usize>)
        requires
            self.wf(),
        ensures
            r is Some ==> self.contains_node(id) && r == Some(self.index_of(id) as usize),
            r is None ==> !self.contains_node(id),
    {
        let mut i: usize = 0;
        while i < self.nodes.len()
            invariant
                self.wf(),
                i <= self.nodes@.len(),
                forall|j: int| 0 <= j < i ==> self.nodes@[j].id != id,
            decreases self.nodes@.len() - i,
        {
            if self.nodes[i].id == id {
                proof {
                    self.lemma_index_of(id);
                }
                return Some(i);
            }
            i = i + 1;
        }
        None
    }

    /// Two graphs whose entries agree on ids and neighbor lists (roles may
    /// differ) have the same nodes and edges, and well-formedness carries over.
    proof fn lemma_same_shape(pre: Self, post: Self)
        requires
            pre.wf(),
            post.nodes@.len() == pre.nodes@.len(),
            forall|i: int|
                0 <= i < pre.nodes@.len() ==> post.nodes@[i].id == pre.nodes@[i].id
                    && post.nodes@[i].neighbors@ == pre.nodes@[i].neighbors@,
        ensures
            post.wf(),
            forall|x: NodeId| post.contains_node(x) == pre.contains_node(x),
            forall|a: NodeId, b: NodeId| post.has_edge(a, b) == pre.has_edge(a, b),
    {
        assert forall|x: NodeId| post.contains_node(x) == pre.contains_node(x) by {
            if pre.contains_node(x) {
                let i = choose|i: int| 0 <= i < pre.nodes@.len() && pre.nodes@[i].id == x;
                assert(post.nodes@[i].id == x);
            }
            if post.contains_node(x) {
                let i = choose|i: int| 0 <= i < post.nodes@.len() && post.nodes@[i].id == x;
                assert(pre.nodes@[i].id == x);
            }
        }
        assert forall|a: NodeId, b: NodeId| post.has_edge(a, b) == pre.has_edge(a, b) by {
            if pre.has_edge(a, b) {
                let i = choose|i: int|
                    0 <= i < pre.nodes@.len() && pre.nodes@[i].id == a
                        && pre.nodes@[i].neighbors@.contains(b);
                assert(post.nodes@[i].id == a && post.nodes@[i].neighbors@.contains(b));
            }
            if post.has_edge(a, b) {
                let i = choose|i: int|
                    0 <= i < post.nodes@.len() && post.nodes@[i].id == a
                        && post.nodes@[i].neighbors@.contains(b);
                assert(pre.nodes@[i].id == a && pre.nodes@[i].neighbors@.contains(b));
            }
        }
        assert forall|i: int, k: int|
            0 <= i < post.nodes@.len() && 0 <= k < post.nodes@[i].neighbors@.len() implies
            post.contains_node(post.nodes@[i].neighbors@[k]) by {
            assert(pre.contains_node(pre.nodes@[i].neighbors@[k]));
        }
    }

    /// Pushes `b` into the neighbor list at entry `j` unless already present:
    /// adds the directed edge `nodes[j].id -> b` and nothing else.
    fn add_neighbor_at(&mut self, j: usize, b: NodeId)
        requires
            j < old(self).nodes@.len(),
        ensures
            final(self).nodes@.len() == old(self).nodes@.len(),
            forall|i: int|
                0 <= i < old(self).nodes@.len() && i != j ==> final(self).nodes@[i] == old(self).nodes@[i],
            final(self).nodes@[j as int].id == old(self).nodes@[j as int].id,
            final(self).nodes@[j as int].role == old(self).nodes@[j as int].role,
            forall|x: NodeId|
                final(self).nodes@[j as int].neighbors@.contains(x) <==> old(self).nodes@[j as int].neighbors@.contains(x) || x == b,
            final(self).nodes@[j as int].neighbors@ == if old(self).nodes@[j as int].neighbors@.contains(b) {
                old(self).nodes@[j as int].neighbors@
            } else {
                old(self).nodes@[j as int].neighbors@.push(b)
            },
    {
        let mut tmp = NetworkNode { id: 0, role: NodeRole::Relay, neighbors: Vec::new() };
        self.nodes.set_and_swap(j, &mut tmp);
        if !contains_id(&tmp.neighbors, b) {
            proof {
                broadcast use vstd::seq_lib::lemma_seq_contains_after_push;
            }
            tmp.neighbors.push(b);
        }
        self.nodes.set(j, tmp);
    }

    /// Inserts the undirected link between two known nodes: afterwards the
    /// graph holds exactly the old edges plus `a -- b` in both directions.
    fn add_link(&mut self, a: NodeId, b: NodeId)
        requires
            old(self).wf(),
            old(self).contains_node(a),
            old(self).contains_node(b),
        ensures
            final(self).wf(),
            forall|x: NodeId| final(self).contains_node(x) == old(self).contains_node(x),
            forall|x: NodeId|
                old(self).contains_node(x) ==> final(self).role_of(x) == old(self).role_of(x),
            forall|x: NodeId, y: NodeId|
                final(self).has_edge(x, y) <==> old(self).has_edge(x, y) || (x == a && y == b) || (
                x == b && y == a),
    {
        let ghost pre = *self;
        let _node_count = self.nodes.len();
        let ja = match self.find_index(a) {
            Some(i) => i,
            None => {
                proof {
                    assert(false);
                }
                unreached()
            },
        };
        let jb = match self.find_index(b) {
            Some(i) => i,
            None => {
                proof {
                    assert(false);
                }
                unreached()
            },
        };
        proof {
            pre.lemma_index_of(a);
            pre.lemma_index_of(b);
            assert(ja as int == pre.index_of(a));
            assert(jb as int == pre.index_of(b));
        }
        self.add_neighbor_at(ja, b);
        let ghost mid = *self;
        self.add_neighbor_at(jb, a);
        proof {
            let jai = ja as int;
            let jbi = jb as int;
            // Entry ids and roles never change, so node membership and roles carry over.
            assert(forall|i: int|
                0 <= i < pre.nodes@.len() ==> self.nodes@[i].id == pre.nodes@[i].id
                    && self.nodes@[i].role == pre.nodes@[i].role);
            assert forall|x: NodeId| self.contains_node(x) == pre.contains_node(x) by {
                if pre.contains_node(x) {
                    let i = choose|i: int| 0 <= i < pre.nodes@.len() && pre.nodes@[i].id == x;
                    assert(self.nodes@[i].id == x);
                }
                if self.contains_node(x) {
                    let i = choose|i: int| 0 <= i < self.nodes@.len() && self.nodes@[i].id == x;
                    assert(pre.nodes@[i].id == x);
                }
            }
            assert forall|x: NodeId| pre.contains_node(x) implies self.role_of(x) == pre.role_of(
                x,
            ) by {
                pre.lemma_index_of(x);
                let i = pre.index_of(x);
                assert(self.nodes@[i].id == x);
                assert forall|i2: int|
                    0 <= i2 < self.nodes@.len() && self.nodes@[i2].id == x implies i2 == i by {
                    assert(pre.nodes@[i2].id == x);
                }
                assert(self.index_of(x) == i);
            }
            // The neighbor lists: entry ja gained b, entry jb gained a,
            // everything else is untouched.
            assert forall|i: int, x: NodeId|
                0 <= i < self.nodes@.len() implies (self.nodes@[i].neighbors@.contains(x) <==> (
            pre.nodes@[i].neighbors@.contains(x) || (i == jai && x == b) || (i == jbi && x
                == a))) by {
                if i != jbi {
                    assert(self.nodes@[i] == mid.nodes@[i]);
                }
                if i != jai {
                    assert(mid.nodes@[i] == pre.nodes@[i]);
                }
            }
            assert forall|x: NodeId, y: NodeId|
                self.has_edge(x, y) <==> pre.has_edge(x, y) || (x == a && y == b) || (x == b && y
                    == a) by {
                if self.has_edge(x, y) {
                    let i = choose|i: int|
                        0 <= i < self.nodes@.len() && self.nodes@[i].id == x
                            && self.nodes@[i].neighbors@.contains(y);
                    if pre.nodes@[i].neighbors@.contains(y) {
                        assert(pre.has_edge(x, y));
                    }
                }
                if pre.has_edge(x, y) {
                    let i = choose|i: int|
                        0 <= i < pre.nodes@.len() && pre.nodes@[i].id == x
                            && pre.nodes@[i].neighbors@.contains(y);
                    assert(self.nodes@[i].id == x && self.nodes@[i].neighbors@.contains(y));
                }
                if x == a && y == b {
                    assert(self.nodes@[jai].id == a && self.nodes@[jai].neighbors@.contains(b));
                }
                if x == b && y == a {
                    assert(self.nodes@[jbi].id == b && self.nodes@[jbi].neighbors@.contains(a));
                }
            }
            assert forall|i: int, k: int|
                0 <= i < self.nodes@.len() && 0 <= k < self.nodes@[i].neighbors@.len() implies
                self.contains_node(self.nodes@[i].neighbors@[k]) by {
                let x = self.nodes@[i].neighbors@[k];
                assert(self.nodes@[i].neighbors@.contains(x));
                if pre.nodes@[i].neighbors@.contains(x) {
                    assert(pre.contains_node(x));
                    assert(self.contains_node(x) == pre.contains_node(x));
                } else {
                    assert((i == jai && x == b) || (i == jbi && x == a));
                    assert(self.contains_node(a) == pre.contains_node(a));
                    assert(self.contains_node(b) == pre.contains_node(b));
                }
            }
            assert forall|i: int, j2: int|
                0 <= i < j2 < self.nodes@.len() implies self.nodes@[i].id != self.nodes@[j2].id by {
                assert(pre.nodes@[i].id != pre.nodes@[j2].id);
            }
            assert forall|x: NodeId, y: NodeId| self.has_edge(x, y) implies self.has_edge(
                y,
                x,
            ) by {
                if pre.has_edge(x, y) {
                    assert(pre.has_edge(y, x));
                }
            }
            assert forall|i: int, k1: int, k2: int|
                #![trigger self.nodes@[i].neighbors@[k1], self.nodes@[i].neighbors@[k2]]
                0 <= i < self.nodes@.len() && 0 <= k1 < k2 < self.nodes@[i].neighbors@.len()
                implies self.nodes@[i].neighbors@[k1] != self.nodes@[i].neighbors@[k2] by {
                let before_first = pre.nodes@[i].neighbors@;
                if i != jai && i != jbi {
                    assert(self.nodes@[i].neighbors@ == before_first);
                } else {
                    let after_first = mid.nodes@[i].neighbors@;
                    if i == jai {
                        if !before_first.contains(b) {
                            lemma_distinct_push(before_first, b);
                        }
                        assert(after_first == if before_first.contains(b) {
                            before_first
                        } else {
                            before_first.push(b)
                        });
                    } else {
                        assert(after_first == before_first);
                    }
                    assert(forall|m1: int, m2: int|
                        0 <= m1 < m2 < after_first.len() ==> after_first[m1] != after_first[m2]);
                    if i == jbi {
                        if !after_first.contains(a) {
                            lemma_distinct_push(after_first, a);
                        }
                        assert(self.nodes@[i].neighbors@ == if after_first.contains(a) {
                            after_first
                        } else {
                            after_first.push(a)
                        });
                    } else {
                        assert(self.nodes@[i].neighbors@ == after_first);
                    }
                }
            }
            assert(self.wf());
        }
    }

    /// Folds a flood-response path trace into the graph: every node of the
    /// trace is recorded (its role updated to the one the trace reports last),
    /// every pair of consecutive trace entries becomes an edge in both
    /// directions, and nothing else changes (see [`absorbs_trace`]).
    pub fn process_path_trace(&mut self, path_trace: &Vec<(NodeId, NodeRole)>)
        requires
            old(self).wf(),
        ensures
            final(self).wf(),
            absorbs_trace(*old(self), *final(self), path_trace@),
    {
        let ghost pre = *self;
        let ghost t = path_trace@;
        let mut k: usize = 0;
        while k < path_trace.len()
            invariant
                self.wf(),
                k <= t.len(),
                t == path_trace@,
                absorbs_trace(pre, *self, t.subrange(0, k as int)),
            decreases t.len() - k,
        {
            let ghost ki = k as int;
            let ghost s0 = *self;
            proof {
                assert(absorbs_trace(pre, s0, t.subrange(0, ki)));
            }
            let (id, role) = path_trace[k];
            self.upsert_node(id, role);
            let ghost s1 = *self;
            if k > 0 {
                let (prev, _prev_role) = path_trace[k - 1];
                proof {
                    assert(trace_mentions(t.subrange(0, ki), prev)) by {
                        assert(t.subrange(0, ki)[ki - 1].0 == prev);
                    }
                    assert(s0.contains_node(prev));
                    assert(self.contains_node(prev));
                    assert(self.contains_node(id));
                }
                self.add_link(prev, id);
            }
            proof {
                let s2 = *self;
                assert forall|x: NodeId|
                    s2.contains_node(x) <==> pre.contains_node(x) || trace_mentions(
                        t.subrange(0, ki + 1),
                        x,
                    ) by {
                    lemma_mentions_step(t, ki, x);
                    assert(s1.contains_node(x) <==> s0.contains_node(x) || x == id);
                    assert(s2.contains_node(x) == s1.contains_node(x));
                }
                assert forall|a: NodeId, b: NodeId|
                    s2.has_edge(a, b) <==> pre.has_edge(a, b) || adjacent_in_trace(
                        t.subrange(0, ki + 1),
                        a,
                        b,
                    ) by {
                    lemma_adjacent_step(t, ki, a, b);
                    assert(s1.has_edge(a, b) == s0.has_edge(a, b));
                    if ki > 0 {
                        assert(s2.has_edge(a, b) <==> s1.has_edge(a, b) || (a == t[ki - 1].0 && b
                            == t[ki].0) || (a == t[ki].0 && b == t[ki - 1].0));
                    } else {
                        assert(s2.has_edge(a, b) == s1.has_edge(a, b));
                    }
                }
                assert forall|x: NodeId|
                    trace_mentions(t.subrange(0, ki + 1), x) implies s2.role_of(x) == last_role_in(
                    t.subrange(0, ki + 1),
                    x,
                ) by {
                    lemma_mentions_step(t, ki, x);
                    lemma_last_role_step(t, ki, x);
                    if x == id {
                        assert(s1.role_of(x) == role);
                        assert(s1.contains_node(x));
                        assert(s2.role_of(x) == s1.role_of(x));
                    } else {
                        assert(trace_mentions(t.subrange(0, ki), x));
                        assert(s0.role_of(x) == last_role_in(t.subrange(0, ki), x));
                        assert(s1.role_of(x) == s0.role_of(x));
                        assert(s1.contains_node(x));
                        assert(s2.role_of(x) == s1.role_of(x));
                    }
                }
                assert forall|x: NodeId|
                    !trace_mentions(t.subrange(0, ki + 1), x) && pre.contains_node(x) implies
                    s2.role_of(x) == pre.role_of(x) by {
                    lemma_mentions_step(t, ki, x);
                    assert(!trace_mentions(t.subrange(0, ki), x) && x != id);
                    assert(s0.role_of(x) == pre.role_of(x));
                    assert(s0.contains_node(x));
                    assert(s1.role_of(x) == s0.role_of(x));
                    assert(s1.contains_node(x));
                    assert(s2.role_of(x) == s1.role_of(x));
                }
                assert(absorbs_trace(pre, s2, t.subrange(0, ki + 1)));
            }
            k = k + 1;
        }
        proof {
            assert(t.subrange(0, t.len() as int) =~= t);
            assert(absorbs_trace(pre, *self, t));
        }
    }


    /// Records `id` with `role`, updating the role if the node is already
    /// known. Edges are untouched.
    fn upsert_node(&mut self, id: NodeId, role: NodeRole)
        requires
            old(self).wf(),
        ensures
            final(self).wf(),
            forall|x: NodeId|
                final(self).contains_node(x) <==> old(self).contains_node(x) || x == id,
            forall|a: NodeId, b: NodeId|
                final(self).has_edge(a, b) == old(self).has_edge(a, b),
            final(self).role_of(id) == role,
            forall|x: NodeId|
                x != id && old(self).contains_node(x) ==> final(self).role_of(x) == old(self).role_of(x),
    {
        let ghost pre = *self;
        let _node_count = self.nodes.len();
        match self.find_index(id) {
            Some(j) => {
                proof {
                    pre.lemma_index_of(id);
                    assert(0 <= pre.index_of(id) < pre.nodes@.len());
                    assert(j == pre.index_of(id) as usize);
                    assert(j as int == pre.index_of(id));
                }
                let mut tmp = NetworkNode { id, role, neighbors: Vec::new() };
                self.nodes.set_and_swap(j, &mut tmp);
                let updated = NetworkNode { id, role, neighbors: tmp.neighbors };
                self.nodes.set(j, updated);
                proof {
                    assert(self.nodes@ =~= pre.nodes@.update(
                        j as int,
                        NetworkNode { id, role, neighbors: pre.nodes@[j as int].neighbors },
                    ));
                    assert(pre.nodes@[j as int].id == id);
                    Self::lemma_same_shape(pre, *self);
                    self.lemma_index_of(id);
                    assert(self.role_of(id) == role);
                    assert forall|x: NodeId|
                        x != id && pre.contains_node(x) implies self.role_of(x) == pre.role_of(
                        x,
                    ) by {
                        pre.lemma_index_of(x);
                        self.lemma_index_of(x);
                    }
                }
            },
            None => {
                self.nodes.push(NetworkNode { id, role, neighbors: Vec::new() });
                proof {
                    let n = pre.nodes@.len() as int;
                    assert forall|x: NodeId| self.contains_node(x) <==> pre.contains_node(x)
                        || x == id by {
                        if pre.contains_node(x) {
                            let i = choose|i: int|
                                0 <= i < pre.nodes@.len() && pre.nodes@[i].id == x;
                            assert(self.nodes@[i].id == x);
                        }
                        if x == id {
                            assert(self.nodes@[n].id == x);
                        }
                        if self.contains_node(x) {
                            let i = choose|i: int|
                                0 <= i < self.nodes@.len() && self.nodes@[i].id == x;
                            if i < n {
                                assert(pre.nodes@[i].id == x);
                            }
                        }
                    }
                    assert forall|a: NodeId, b: NodeId|
                        self.has_edge(a, b) == pre.has_edge(a, b) by {
                        if pre.has_edge(a, b) {
                            let i = choose|i: int|
                                0 <= i < pre.nodes@.len() && pre.nodes@[i].id == a
                                    && pre.nodes@[i].neighbors@.contains(b);
                            assert(self.nodes@[i].id == a && self.nodes@[i].neighbors@.contains(b));
                        }
                        if self.has_edge(a, b) {
                            let i = choose|i: int|
                                0 <= i < self.nodes@.len() && self.nodes@[i].id == a
                                    && self.nodes@[i].neighbors@.contains(b);
                            assert(i < n);
                            assert(pre.nodes@[i].id == a && pre.nodes@[i].neighbors@.contains(b));
                        }
                    }
                    assert forall|i: int, j2: int|
                        0 <= i < j2 < self.nodes@.len() implies self.nodes@[i].id
                        != self.nodes@[j2].id by {
                        if j2 == n {
                            assert(pre.nodes@[i].id == self.nodes@[i].id);
                            assert(self.nodes@[j2].id == id);
                            if pre.nodes@[i].id == id {
                                assert(pre.contains_node(id));
                            }
                        }
                    }
                    assert forall|a: NodeId, b: NodeId| self.has_edge(a, b) implies self.has_edge(
                        b,
                        a,
                    ) by {
                        assert(pre.has_edge(a, b));
                        assert(pre.has_edge(b, a));
                    }
                    assert forall|i: int, k: int|
                        0 <= i < self.nodes@.len() && 0 <= k < self.nodes@[i].neighbors@.len()
                        implies self.contains_node(self.nodes@[i].neighbors@[k]) by {
                        assert(i < n);
                        assert(pre.contains_node(pre.nodes@[i].neighbors@[k]));
                    }
                    assert(self.wf());
                    self.lemma_index_of(id);
                    assert(self.role_of(id) == role);
                    assert forall|x: NodeId|
                        x != id && pre.contains_node(x) implies self.role_of(x) == pre.role_of(
                        x,
                    ) by {
                        pre.lemma_index_of(x);
                        self.lemma_index_of(x);
                    }
                }
            },
        }
    }

    /// Maps an entry index of the graph after `swap_remove(j)` back to the
    /// index of the same entry before it.
    pub open spec fn origin_index(pre_len: int, j: int, i: int) -> int {
        if i == j {
            pre_len - 1
        } else {
            i
        }
    }

    /// Forgets a node entirely: its entry and every edge touching it leave
    /// the graph; all other nodes, edges and roles stay.
    #[verifier::rlimit(60)]
    pub fn remove_node(&mut self, id: NodeId)
        requires
            old(self).wf(),
        ensures
            final(self).wf(),
            forall|x: NodeId|
                final(self).contains_node(x) <==> old(self).contains_node(x) && x != id,
            forall|a: NodeId, b: NodeId|
                final(self).has_edge(a, b) <==> old(self).has_edge(a, b) && a != id && b != id,
            forall|x: NodeId|
                x != id && old(self).contains_node(x) ==> final(self).role_of(x) == old(
                    self,
                ).role_of(x),
    {
        let ghost pre = *self;
        let _node_count = self.nodes.len();
        let j = match self.find_index(id) {
            Some(i) => i,
            None => {
                proof {
                    assert forall|a: NodeId, b: NodeId|
                        pre.has_edge(a, b) implies a != id && b != id by {
                        let i = choose|i: int|
                            0 <= i < pre.nodes@.len() && pre.nodes@[i].id == a
                                && pre.nodes@[i].neighbors@.contains(b);
                        assert(pre.contains_node(a));
                        let k = choose|k: int|
                            0 <= k < pre.nodes@[i].neighbors@.len() && pre.nodes@[i].neighbors@[k]
                                == b;
                        assert(pre.contains_node(pre.nodes@[i].neighbors@[k]));
                    }
                }
                return ;
            },
        };
        proof {
            pre.lemma_index_of(id);
            assert(j as int == pre.index_of(id));
        }
        self.nodes.swap_remove(j);
        let ghost n = pre.nodes@.len() as int;
        let ghost ji = j as int;
        let ghost mid = *self;
        proof {
            assert(mid.nodes@.len() == n - 1);
            assert forall|i: int|
                0 <= i < n - 1 implies #[trigger] mid.nodes@[i] == pre.nodes@[
                Self::origin_index(n, ji, i)] by {}
        }
        // Purge `id` from every remaining neighbor list.
        let mut i: usize = 0;
        while i < self.nodes.len()
            invariant
                pre.wf(),
                n == pre.nodes@.len(),
                0 <= ji < n,
                mid.nodes@.len() == n - 1,
                forall|i2: int|
                    0 <= i2 < n - 1 ==> #[trigger] mid.nodes@[i2] == pre.nodes@[
                    Self::origin_index(n, ji, i2)],
                self.nodes@.len() == mid.nodes@.len(),
                i <= mid.nodes@.len(),
                forall|i2: int|
                    0 <= i2 < mid.nodes@.len() ==> (#[trigger] self.nodes@[i2]).id
                        == mid.nodes@[i2].id && self.nodes@[i2].role == mid.nodes@[i2].role,
                forall|i2: int, y: NodeId|
                    0 <= i2 < i ==> (#[trigger] self.nodes@[i2].neighbors@.contains(y)
                        <==> mid.nodes@[i2].neighbors@.contains(y) && y != id),
                forall|i2: int, k1: int, k2: int|
                    #![trigger self.nodes@[i2].neighbors@[k1], self.nodes@[i2].neighbors@[k2]]
                    0 <= i2 < i && 0 <= k1 < k2 < self.nodes@[i2].neighbors@.len()
                        ==> self.nodes@[i2].neighbors@[k1] != self.nodes@[i2].neighbors@[k2],
                forall|i2: int| i <= i2 < mid.nodes@.len() ==> self.nodes@[i2] == mid.nodes@[i2],
            decreases mid.nodes@.len() - i,
        {
            let mut tmp = NetworkNode { id: 0, role: NodeRole::Relay, neighbors: Vec::new() };
            self.nodes.set_and_swap(i, &mut tmp);
            proof {
                assert(tmp == mid.nodes@[i as int]);
                assert(tmp == pre.nodes@[Self::origin_index(n, ji, i as int)]);
                assert(forall|k1: int, k2: int|
                    0 <= k1 < k2 < tmp.neighbors@.len() ==> tmp.neighbors@[k1]
                        != tmp.neighbors@[k2]);
            }
            let cleaned = without_id(&tmp.neighbors, id);
            self.nodes.set(
                i,
                NetworkNode { id: tmp.id, role: tmp.role, neighbors: cleaned },
            );
            proof {
                let ii = i as int;
                assert(self.nodes@[ii].id == mid.nodes@[ii].id);
                assert(self.nodes@[ii].role == mid.nodes@[ii].role);
                assert(forall|y: NodeId|
                    #[trigger] self.nodes@[ii].neighbors@.contains(y) <==> mid.nodes@[
                    ii].neighbors@.contains(y) && y != id);
            }
            i = i + 1;
        }
        proof {
            let post = *self;
            // Entry-level picture: post entry i descends from pre entry
            // origin_index(n, j, i), with `id` purged from its neighbor list.
            assert forall|i2: int|
                0 <= i2 < n - 1 implies {
                let i0 = Self::origin_index(n, ji, i2);
                &&& #[trigger] post.nodes@[i2].id == pre.nodes@[i0].id
                &&& post.nodes@[i2].role == pre.nodes@[i0].role
                &&& forall|y: NodeId|
                    #[trigger] post.nodes@[i2].neighbors@.contains(y) <==> pre.nodes@[
                    i0].neighbors@.contains(y) && y != id
            } by {
                assert(mid.nodes@[i2] == pre.nodes@[Self::origin_index(n, ji, i2)]);
            }
            // An id other than `id` sits at the same entry it descended from;
            // `id` itself is gone because only entry j carried it.
            assert forall|x: NodeId|
                post.contains_node(x) <==> pre.contains_node(x) && x != id by {
                if post.contains_node(x) {
                    let i2 = choose|i2: int|
                        0 <= i2 < post.nodes@.len() && post.nodes@[i2].id == x;
                    let i0 = Self::origin_index(n, ji, i2);
                    assert(pre.nodes@[i0].id == x);
                    assert(i0 != ji);
                    assert(x != id) by {
                        if x == id {
                            pre.lemma_index_of(id);
                        }
                    }
                }
                if pre.contains_node(x) && x != id {
                    pre.lemma_index_of(x);
                    let i0 = pre.index_of(x);
                    assert(i0 != ji);
                    let i2: int = if ji == n - 1 {
                        i0
                    } else if i0 == n - 1 {
                        ji
                    } else {
                        i0
                    };
                    assert(post.nodes@[i2].id == x);
                }
            }
            assert forall|a: NodeId, b: NodeId|
                post.has_edge(a, b) <==> pre.has_edge(a, b) && a != id && b != id by {
                if post.has_edge(a, b) {
                    let i2 = choose|i2: int|
                        0 <= i2 < post.nodes@.len() && post.nodes@[i2].id == a
                            && post.nodes@[i2].neighbors@.contains(b);
                    let i0 = Self::origin_index(n, ji, i2);
                    assert(pre.nodes@[i0].id == a && pre.nodes@[i0].neighbors@.contains(b));
                    assert(post.contains_node(a));
                    assert(b != id);
                }
                if pre.has_edge(a, b) && a != id && b != id {
                    let i0 = choose|i0: int|
                        0 <= i0 < pre.nodes@.len() && pre.nodes@[i0].id == a
                            && pre.nodes@[i0].neighbors@.contains(b);
                    assert(i0 != ji) by {
                        pre.lemma_index_of(id);
                    }
                    let i2: int = if ji == n - 1 {
                        i0
                    } else if i0 == n - 1 {
                        ji
                    } else {
                        i0
                    };
                    assert(Self::origin_index(n, ji, i2) == i0);
                    assert(post.nodes@[i2].id == a);
                    assert(post.nodes@[i2].neighbors@.contains(b));
                }
            }
            assert forall|x: NodeId|
                x != id && pre.contains_node(x) implies post.role_of(x) == pre.role_of(x) by {
                pre.lemma_index_of(x);
                let i0 = pre.index_of(x);
                assert(i0 != ji);
                let i2: int = if ji == n - 1 {
                    i0
                } else if i0 == n - 1 {
                    ji
                } else {
                    i0
                };
                assert(Self::origin_index(n, ji, i2) == i0);
                assert(post.nodes@[i2].id == x && post.nodes@[i2].role == pre.nodes@[i0].role);
                assert forall|i3: int|
                    0 <= i3 < post.nodes@.len() && post.nodes@[i3].id == x implies i3 == i2 by {
                    let i4 = Self::origin_index(n, ji, i3);
                    assert(pre.nodes@[i4].id == x);
                    assert(i4 == i0);
                }
                assert(post.index_of(x) == i2);
            }
            // Well-formedness of the shrunk graph.
            assert forall|i2: int, i3: int|
                0 <= i2 < i3 < post.nodes@.len() implies post.nodes@[i2].id
                != post.nodes@[i3].id by {
                let a0 = Self::origin_index(n, ji, i2);
                let b0 = Self::origin_index(n, ji, i3);
                assert(a0 != b0);
                assert(pre.nodes@[a0].id != pre.nodes@[b0].id);
            }
            assert forall|a: NodeId, b: NodeId| post.has_edge(a, b) implies post.has_edge(
                b,
                a,
            ) by {
                assert(pre.has_edge(a, b));
                assert(pre.has_edge(b, a));
            }
            assert forall|i2: int, k: int|
                0 <= i2 < post.nodes@.len() && 0 <= k < post.nodes@[i2].neighbors@.len() implies
                post.contains_node(post.nodes@[i2].neighbors@[k]) by {
                let y = post.nodes@[i2].neighbors@[k];
                assert(post.nodes@[i2].neighbors@.contains(y));
                assert(post.has_edge(post.nodes@[i2].id, y));
                assert(pre.has_edge(post.nodes@[i2].id, y) && y != id);
                assert(pre.has_edge(y, post.nodes@[i2].id));
                assert(pre.contains_node(y));
            }
            assert(forall|i2: int, k1: int, k2: int|
                #![trigger post.nodes@[i2].neighbors@[k1], post.nodes@[i2].neighbors@[k2]]
                0 <= i2 < post.nodes@.len() && 0 <= k1 < k2 < post.nodes@[i2].neighbors@.len()
                    ==> post.nodes@[i2].neighbors@[k1] != post.nodes@[i2].neighbors@[k2]);
            assert(post.wf());
        }
    }

    /// The ids of all discovered nodes whose recorded role is `Server`.
    pub fn server_ids(&self) -> (r: Vec<NodeId>)
        requires
            self.wf(),
        ensures
            forall|k: int|
                0 <= k < r@.len() ==> self.contains_node(r@[k]) && self.role_of(r@[k])
                    == NodeRole::Server,
            forall|x: NodeId|
                self.contains_node(x) && self.role_of(x) == NodeRole::Server ==> r@.contains(x),
    {
        let mut r: Vec<NodeId> = Vec::new();
        let mut i: usize = 0;
        while i < self.nodes.len()
            invariant
                self.wf(),
                i <= self.nodes@.len(),
                forall|k: int|
                    0 <= k < r@.len() ==> self.contains_node(r@[k]) && self.role_of(r@[k])
                        == NodeRole::Server,
                forall|i2: int|
                    0 <= i2 < i && self.nodes@[i2].role == NodeRole::Server ==> r@.contains(
                        self.nodes@[i2].id,
                    ),
            decreases self.nodes@.len() - i,
        {
            let ghost prev = r@;
            if matches!(self.nodes[i].role, NodeRole::Server) {
                r.push(self.nodes[i].id);
                proof {
                    self.lemma_index_of(self.nodes@[i as int].id);
                    assert(self.index_of(self.nodes@[i as int].id) == i as int);
                    assert(r@[r@.len() - 1] == self.nodes@[i as int].id);
                    broadcast use vstd::seq_lib::lemma_seq_contains_after_push;
                }
            }
            i = i + 1;
        }
        proof {
            assert forall|x: NodeId|
                self.contains_node(x) && self.role_of(x) == NodeRole::Server implies r@.contains(
                x,
            ) by {
                self.lemma_index_of(x);
            }
        }
        r
    }
}

} // verus!
