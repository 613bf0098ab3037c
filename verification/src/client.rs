//! The protocol engine of one chat-client node. Every handler is pure state:
//! it maps a received packet or an operator command to a new node state and a
//! list of [`Action`]s, and the surrounding event loop performs them — puts
//! packets on neighbor channels, hands escalations to the operator, and
//! delivers completed messages to the application.

use rand::Rng;
use vstd::prelude::*;

use crate::cache::PacketCache;
use crate::fragment::Assembler;
use crate::packet::{
    Ack, FloodRequest, FloodResponse, Fragment, Nack, NackType, NodeId, NodeRole, Packet,
    PacketType, RoutingHeader,
};
use crate::routing::Router;

verus! {

/// The ids of a path trace, in order.
pub open spec fn trace_ids(trace: Seq<(NodeId, NodeRole)>) -> Seq<NodeId> {
    Seq::new(trace.len(), |k: int| trace[k].0)
}

/// The view of the flood response answering a request whose trace, with the
/// answering node appended, is `trace`: the trace travels back along its own
/// hops in reverse.
pub open spec fn flood_response_view(
    flood_id: u64,
    trace: Seq<(NodeId, NodeRole)>,
    sid: u64,
) -> crate::packet::PacketView {
    crate::packet::PacketView {
        routing_header: crate::packet::HeaderView { hops: trace_ids(trace).reverse(), hop_index: 1 },
        session_id: sid,
        pack_type: crate::packet::PacketTypeView::FloodResponse { flood_id, path_trace: trace },
    }
}

/// The view of a flood request forwarded onward with an extended trace. A
/// flood request is routed by flooding, not by its header, so the header is
/// left empty.
pub open spec fn flood_forward_view(
    flood_id: u64,
    initiator_id: NodeId,
    trace: Seq<(NodeId, NodeRole)>,
    sid: u64,
) -> crate::packet::PacketView {
    crate::packet::PacketView {
        routing_header: crate::packet::HeaderView { hops: Seq::empty(), hop_index: 0 },
        session_id: sid,
        pack_type: crate::packet::PacketTypeView::FloodRequest {
            flood_id,
            initiator_id,
            path_trace: trace,
        },
    }
}

/// The neighbors other than the one a flood request arrived from.
pub open spec fn others_of(neighbors: Seq<NodeId>, prev: NodeId) -> Seq<NodeId> {
    neighbors.filter(|n: NodeId| n != prev)
}

/// Appending a neighbor extends the filtered list exactly when it is not the
/// arrival one.
proof fn lemma_others_push(s: Seq<NodeId>, x: NodeId, prev: NodeId)
    ensures
        others_of(s.push(x), prev) == if x != prev {
            others_of(s, prev).push(x)
        } else {
            others_of(s, prev)
        },
{
    reveal_with_fuel(Seq::<NodeId>::filter, 2);
    assert(s.push(x).drop_last() =~= s);
    assert(s.push(x).last() == x);
}

/// The forwarding decision for a packet: on-channel when the hop the route
/// points at is a connected neighbor, escalated to the operator otherwise.
pub open spec fn dispatched(
    neighbors: Seq<NodeId>,
    pv: crate::packet::PacketView,
    a: Action,
) -> bool {
    let hv = pv.routing_header;
    if hv.hop_index < hv.hops.len() && neighbors.contains(hv.hops[hv.hop_index]) {
        a matches Action::Send { neighbor, packet } && neighbor == hv.hops[hv.hop_index]
            && packet@ == pv
    } else {
        a matches Action::Escalate { packet } && packet@ == pv
    }
}

/// The ids of a path trace, in order, as a hop list.
pub fn ids_of(trace: &Vec<(NodeId, NodeRole)>) -> (r: Vec<NodeId>)
    ensures
        r@ == trace_ids(trace@),
{
    let mut r: Vec<NodeId> = Vec::new();
    let mut i: usize = 0;
    while i < trace.len()
        invariant
            i <= trace@.len(),
            r@.len() == i,
            forall|k: int| 0 <= k < i ==> r@[k] == trace@[k].0,
        decreases trace@.len() - i,
    {
        r.push(trace[i].0);
        i = i + 1;
    }
    proof {
        assert(r@ =~= trace_ids(trace@));
    }
    r
}

/// The retry policy of the failure-recovery state machine. Both bounds are
/// configuration, not constants of the library.
#[derive(Clone, Copy, PartialEq, Eq, Structural, Debug)]
pub struct RetryConfig {
    /// Below this many charged delivery attempts a dropped fragment is
    /// resent unchanged on its old path; from this count on a different
    /// known path is chosen at random.
    pub path_switch_threshold: u64,
    /// Past this many charged delivery attempts a full re-discovery of the
    /// topology is forced before the retry continues.
    pub reflood_threshold: u64,
}

/// What the event loop around the engine must do next.
#[derive(Debug)]
pub enum Action {
    /// Put the packet on this neighbor's outbound channel.
    Send { neighbor: NodeId, packet: Packet },
    /// No outbound channel can take the packet: hand it to the operator
    /// interface unchanged.
    Escalate { packet: Packet },
    /// A message completed reassembly: hand its bytes to the application.
    Deliver { session_id: u64, source: NodeId, message: Vec<u8> },
    /// Recovery gave this packet up as undeliverable: report it.
    ReportUndeliverable { packet: Packet },
}

/// One chat-client node: its identity, neighbor set, discovered topology,
/// in-flight fragments, reassembly buffers, flood dedup set and retry policy.
#[derive(Debug)]
pub struct ChatClient {
    pub id: NodeId,
    pub running: bool,
    pub registered: Option<NodeId>,
    pub neighbors: Vec<NodeId>,
    pub router: Router,
    pub cache: PacketCache,
    pub assembler: Assembler,
    pub flood_seen: Vec<(u64, NodeId)>,
    pub session_counter: u64,
    pub config: RetryConfig,
}

impl ChatClient {
    /// The state the engine keeps well-formed across every handler.
    pub open spec fn wf(self) -> bool {
        &&& self.router.topology.wf()
        &&& self.cache.wf()
        &&& self.assembler.wf()
        &&& self.router.id == self.id
        &&& forall|i: int, j: int|
            0 <= i < j < self.neighbors@.len() ==> self.neighbors@[i] != self.neighbors@[j]
    }

    /// Whether this flood instance has already been seen here.
    pub open spec fn seen_flood(self, flood_id: u64, initiator: NodeId) -> bool {
        self.flood_seen@.contains((flood_id, initiator))
    }

    /// A fresh node that knows nothing but its own id and policy.
    pub fn new(id: NodeId, config: RetryConfig) -> (r: ChatClient)
        ensures
            r.wf(),
            r.id == id,
            r.config == config,
            !r.running,
            r.registered is None,
            r.neighbors@.len() == 0,
            r.session_counter == 0,
            forall|f: u64, n: NodeId| !r.seen_flood(f, n),
            forall|x: NodeId| !r.router.topology.contains_node(x),
            forall|sid: u64, fi: u64| !r.cache.has_entry(sid, fi),
            forall|sid: u64, src: NodeId| !r.assembler.has_buffer(sid, src),
    {
        ChatClient {
            id,
            running: false,
            registered: None,
            neighbors: Vec::new(),
            router: Router::new(id, NodeRole::Client),
            cache: PacketCache::new(),
            assembler: Assembler::new(),
            flood_seen: Vec::new(),
            session_counter: 0,
            config,
        }
    }

    /// Registers an outbound channel's neighbor id; already-known ids are
    /// kept once. The channel object itself lives with the event loop.
    pub fn add_neighbor(&mut self, node_id: NodeId)
        requires
            old(self).wf(),
        ensures
            final(self).wf(),
            forall|x: NodeId|
                final(self).neighbors@.contains(x) <==> old(self).neighbors@.contains(x) || x
                    == node_id,
            final(self).id == old(self).id,
            final(self).router == old(self).router,
            final(self).cache == old(self).cache,
            final(self).assembler == old(self).assembler,
            final(self).flood_seen == old(self).flood_seen,
    {
        if !crate::topology::contains_id(&self.neighbors, node_id) {
            proof {
                broadcast use vstd::seq_lib::lemma_seq_contains_after_push;
            }
            self.neighbors.push(node_id);
            proof {
                assert forall|i: int, j: int|
                    0 <= i < j < self.neighbors@.len() implies self.neighbors@[i]
                    != self.neighbors@[j] by {
                    if j == self.neighbors@.len() - 1 {
                        assert(self.neighbors@.contains(self.neighbors@[i]) ==> true);
                        assert(old(self).neighbors@[i] == self.neighbors@[i]);
                        if self.neighbors@[i] == node_id {
                            assert(old(self).neighbors@.contains(node_id));
                        }
                    }
                }
            }
        }
    }

    /// Drops an outbound channel's neighbor id.
    pub fn remove_neighbor(&mut self, node_id: NodeId)
        requires
            old(self).wf(),
        ensures
            final(self).wf(),
            forall|x: NodeId|
                final(self).neighbors@.contains(x) <==> old(self).neighbors@.contains(x) && x
                    != node_id,
            final(self).id == old(self).id,
            final(self).router == old(self).router,
            final(self).cache == old(self).cache,
            final(self).assembler == old(self).assembler,
            final(self).flood_seen == old(self).flood_seen,
    {
        let mut kept: Vec<NodeId> = Vec::new();
        let mut i: usize = 0;
        while i < self.neighbors.len()
            invariant
                i <= self.neighbors@.len(),
                forall|i2: int, j2: int|
                    0 <= i2 < j2 < self.neighbors@.len() ==> self.neighbors@[i2]
                        != self.neighbors@[j2],
                forall|x: NodeId|
                    kept@.contains(x) <==> self.neighbors@.subrange(0, i as int).contains(x) && x
                        != node_id,
                forall|i2: int, j2: int| 0 <= i2 < j2 < kept@.len() ==> kept@[i2] != kept@[j2],
            decreases self.neighbors@.len() - i,
        {
            let ghost prefix = self.neighbors@.subrange(0, i as int);
            if self.neighbors[i] != node_id {
                proof {
                    broadcast use vstd::seq_lib::lemma_seq_contains_after_push;
                    if kept@.contains(self.neighbors@[i as int]) {
                        let k = choose|k: int|
                            0 <= k < prefix.len() && prefix[k] == self.neighbors@[i as int];
                        assert(self.neighbors@[k] == self.neighbors@[i as int]);
                        assert(false);
                    }
                }
                kept.push(self.neighbors[i]);
            }
            proof {
                assert(self.neighbors@.subrange(0, i as int + 1) =~= prefix.push(
                    self.neighbors@[i as int],
                ));
                broadcast use vstd::seq_lib::lemma_seq_contains_after_push;
            }
            i = i + 1;
        }
        proof {
            assert(self.neighbors@.subrange(0, self.neighbors@.len() as int) =~= self.neighbors@);
        }
        self.neighbors = kept;
    }

    /// The forwarding decision for an outbound packet: when the hop the
    /// route points at is a connected neighbor, the packet goes on that
    /// channel; otherwise it is escalated to the operator unchanged.
    pub fn forward_packet(&self, packet: Packet) -> (a: Action)
        ensures
            dispatched(self.neighbors@, packet@, a),
    {
        if packet.routing_header.hop_index < packet.routing_header.hops.len() {
            let next = packet.routing_header.hops[packet.routing_header.hop_index];
            if crate::topology::contains_id(&self.neighbors, next) {
                return Action::Send { neighbor: next, packet };
            }
        }
        Action::Escalate { packet }
    }

    /// Everything but the flood-dedup set is unchanged.
    pub open spec fn only_seen_changed(pre: Self, post: Self) -> bool {
        &&& post.id == pre.id
        &&& post.running == pre.running
        &&& post.registered == pre.registered
        &&& post.neighbors == pre.neighbors
        &&& post.router == pre.router
        &&& post.cache == pre.cache
        &&& post.assembler == pre.assembler
        &&& post.session_counter == pre.session_counter
        &&& post.config == pre.config
    }

    /// How one flood request changes the node and what it sends: the node
    /// appends itself to the trace; a request already seen is answered with a
    /// direct response to the node it came from; a fresh one is marked seen,
    /// then either answered directly (when no neighbor besides the arrival
    /// one exists) or forwarded, trace extended and flood id unchanged, to
    /// every neighbor except the arrival one. A request with an empty trace
    /// is marked seen but answered with nothing: it names no node to reply
    /// to.
    pub open spec fn flood_request_step(
        pre: Self,
        post: Self,
        flood_id: u64,
        initiator_id: NodeId,
        trace: Seq<(NodeId, NodeRole)>,
        sid: u64,
        actions: Seq<Action>,
    ) -> bool {
        let new_trace = trace.push((pre.id, NodeRole::Client));
        let response = flood_response_view(flood_id, new_trace, sid);
        if trace.len() == 0 {
            &&& Self::only_seen_changed(pre, post)
            &&& forall|f: u64, n: NodeId|
                #[trigger] post.seen_flood(f, n) <==> pre.seen_flood(f, n) || (f == flood_id && n
                    == initiator_id)
            &&& actions.len() == 0
        } else {
            let prev = trace.last().0;
            let only_prev = forall|k: int|
                0 <= k < pre.neighbors@.len() ==> pre.neighbors@[k] == prev;
            &&& Self::only_seen_changed(pre, post)
            &&& if pre.seen_flood(flood_id, initiator_id) {
                &&& post.flood_seen == pre.flood_seen
                &&& actions.len() == 1
                &&& dispatched(pre.neighbors@, response, actions[0])
            } else {
                &&& forall|f: u64, n: NodeId|
                    #[trigger] post.seen_flood(f, n) <==> pre.seen_flood(f, n) || (f == flood_id
                        && n == initiator_id)
                &&& if only_prev {
                    &&& actions.len() == 1
                    &&& dispatched(pre.neighbors@, response, actions[0])
                } else {
                    let others = others_of(pre.neighbors@, prev);
                    &&& actions.len() == others.len()
                    &&& forall|k: int|
                        0 <= k < actions.len() ==> ((#[trigger] actions[k]) matches Action::Send {
                            neighbor,
                            packet,
                        } && neighbor == others[k] && packet@ == flood_forward_view(
                            flood_id,
                            initiator_id,
                            new_trace,
                            sid,
                        ))
                }
            }
        }
    }

    /// Handles one incoming flood request, as [`Self::flood_request_step`]
    /// states: deduplicated fan-out forwarding, or a direct response back to
    /// the sender.
    pub fn handle_flood_request(&mut self, request: &FloodRequest, session_id: u64) -> (r: Vec<
        Action,
    >)
        requires
            old(self).wf(),
        ensures
            final(self).wf(),
            Self::flood_request_step(
                *old(self),
                *final(self),
                request.flood_id,
                request.initiator_id,
                request.path_trace@,
                session_id,
                r@,
            ),
    {
        let ghost pre = *self;
        if request.path_trace.len() == 0 {
            if !crate::fragment::contains_pair(
                &self.flood_seen,
                request.flood_id,
                request.initiator_id,
            ) {
                self.flood_seen.push((request.flood_id, request.initiator_id));
                proof {
                    broadcast use vstd::seq_lib::lemma_seq_contains_after_push;
                }
            }
            return Vec::new();
        }
        let prev = request.path_trace[request.path_trace.len() - 1].0;
        let mut new_trace = crate::packet::copy_vec(&request.path_trace);
        new_trace.push((self.id, NodeRole::Client));
        let seen = crate::fragment::contains_pair(
            &self.flood_seen,
            request.flood_id,
            request.initiator_id,
        );
        let mut only_prev = true;
        let mut i: usize = 0;
        while i < self.neighbors.len()
            invariant
                i <= self.neighbors@.len(),
                only_prev <==> forall|k: int| 0 <= k < i ==> self.neighbors@[k] == prev,
            decreases self.neighbors@.len() - i,
        {
            if self.neighbors[i] != prev {
                only_prev = false;
            }
            i = i + 1;
        }
        if !seen {
            self.flood_seen.push((request.flood_id, request.initiator_id));
            proof {
                broadcast use vstd::seq_lib::lemma_seq_contains_after_push;
            }
        }
        if seen || only_prev {
            let hops = crate::packet::reverse_vec(&ids_of(&new_trace));
            let response = Packet {
                routing_header: RoutingHeader { hops, hop_index: 1 },
                session_id,
                pack_type: PacketType::FloodResponse(FloodResponse {
                    flood_id: request.flood_id,
                    path_trace: new_trace,
                }),
            };
            let mut actions: Vec<Action> = Vec::new();
            actions.push(self.forward_packet(response));
            actions
        } else {
            let ghost fwd = flood_forward_view(
                request.flood_id,
                request.initiator_id,
                new_trace@,
                session_id,
            );
            let mut actions: Vec<Action> = Vec::new();
            let mut i: usize = 0;
            while i < self.neighbors.len()
                invariant
                    self.wf(),
                    i <= self.neighbors@.len(),
                    fwd == flood_forward_view(
                        request.flood_id,
                        request.initiator_id,
                        new_trace@,
                        session_id,
                    ),
                    actions@.len() == others_of(
                        self.neighbors@.subrange(0, i as int),
                        prev,
                    ).len(),
                    forall|k: int|
                        0 <= k < actions@.len() ==> ((#[trigger] actions@[k]) matches Action::Send {
                            neighbor,
                            packet,
                        } && neighbor == others_of(self.neighbors@.subrange(0, i as int), prev)[k]
                            && packet@ == fwd),
                decreases self.neighbors@.len() - i,
            {
                let ghost prefix = self.neighbors@.subrange(0, i as int);
                let ghost prefix2 = self.neighbors@.subrange(0, i as int + 1);
                if self.neighbors[i] != prev {
                    let forwarded = Packet {
                        routing_header: RoutingHeader { hops: Vec::new(), hop_index: 0 },
                        session_id,
                        pack_type: PacketType::FloodRequest(FloodRequest {
                            flood_id: request.flood_id,
                            initiator_id: request.initiator_id,
                            path_trace: crate::packet::copy_vec(&new_trace),
                        }),
                    };
                    actions.push(Action::Send { neighbor: self.neighbors[i], packet: forwarded });
                }
                proof {
                    assert(prefix2 =~= prefix.push(self.neighbors@[i as int]));
                    lemma_others_push(prefix, self.neighbors@[i as int], prev);
                }
                i = i + 1;
            }
            proof {
                assert(self.neighbors@.subrange(0, self.neighbors@.len() as int)
                    =~= self.neighbors@);
            }
            actions
        }
    }

    /// Starts a discovery round this node initiates: a fresh flood request,
    /// seeded with this node's own (id, role), goes to every neighbor.
    pub fn start_flooding(&mut self) -> (r: Vec<Action>)
        requires
            old(self).wf(),
        ensures
            final(self).wf(),
            final(self).id == old(self).id,
            final(self).neighbors == old(self).neighbors,
            final(self).cache == old(self).cache,
            final(self).assembler == old(self).assembler,
            final(self).flood_seen == old(self).flood_seen,
            final(self).router.topology == old(self).router.topology,
            final(self).router.flood_counter == (if old(self).router.flood_counter == u64::MAX {
                0u64
            } else {
                (old(self).router.flood_counter + 1) as u64
            }),
            r@.len() == old(self).neighbors@.len(),
            forall|k: int|
                0 <= k < r@.len() ==> ((#[trigger] r@[k]) matches Action::Send { neighbor, packet }
                    && neighbor == old(self).neighbors@[k] && packet@.routing_header.hops.len()
                    == 0 && packet@.routing_header.hop_index == 0 && packet@.session_id == 0
                    && packet@.pack_type == (crate::packet::PacketTypeView::FloodRequest {
                    flood_id: final(self).router.flood_counter,
                    initiator_id: old(self).id,
                    path_trace: seq![(old(self).id, old(self).router.role)],
                })),
    {
        let request = self.router.get_flood_request();
        let mut actions: Vec<Action> = Vec::new();
        let mut i: usize = 0;
        while i < self.neighbors.len()
            invariant
                i <= self.neighbors@.len(),
                actions@.len() == i,
                forall|k: int|
                    0 <= k < actions@.len() ==> ((#[trigger] actions@[k]) matches Action::Send {
                        neighbor,
                        packet,
                    } && neighbor == self.neighbors@[k] && packet@.routing_header
                        == request@.routing_header && packet@.session_id == request@.session_id
                        && packet@.pack_type == request@.pack_type),
            decreases self.neighbors@.len() - i,
        {
            actions.push(
                Action::Send { neighbor: self.neighbors[i], packet: request.duplicate() },
            );
            i = i + 1;
        }
        actions
    }

    /// Folds a flood response that reached this node into the discovered
    /// topology; an empty trace is defensively dropped.
    pub fn process_flood_response(&mut self, response: &FloodResponse)
        requires
            old(self).wf(),
        ensures
            final(self).wf(),
            final(self).id == old(self).id,
            final(self).neighbors == old(self).neighbors,
            final(self).cache == old(self).cache,
            final(self).assembler == old(self).assembler,
            final(self).flood_seen == old(self).flood_seen,
            response.path_trace@.len() == 0 ==> final(self).router == old(self).router,
            response.path_trace@.len() > 0 ==> crate::topology::absorbs_trace(
                old(self).router.topology,
                final(self).router.topology,
                response.path_trace@,
            ),
    {
        self.router.handle_flood_response(response);
    }

    /// Everything but the router and the pending-fragment cache is unchanged.
    pub open spec fn core_unchanged(pre: Self, post: Self) -> bool {
        &&& post.id == pre.id
        &&& post.running == pre.running
        &&& post.registered == pre.registered
        &&& post.neighbors == pre.neighbors
        &&& post.assembler == pre.assembler
        &&& post.flood_seen == pre.flood_seen
        &&& post.session_counter == pre.session_counter
        &&& post.config == pre.config
    }

    /// The retry counter after charging one more delivery attempt against
    /// this pending fragment.
    pub open spec fn charged_count(pre: Self, sid: u64, fi: u64) -> u64 {
        if pre.cache.stored_count(sid, fi) == u64::MAX {
            u64::MAX
        } else {
            (pre.cache.stored_count(sid, fi) + 1) as u64
        }
    }

    /// The first `n` actions broadcast the flood request of a forced
    /// re-discovery, one copy per neighbor.
    pub open spec fn flood_broadcast_prefix(
        pre: Self,
        post: Self,
        actions: Seq<Action>,
        n: int,
    ) -> bool {
        forall|k: int|
            0 <= k < n ==> ((#[trigger] actions[k]) matches Action::Send { neighbor, packet }
                && neighbor == pre.neighbors@[k] && packet@.routing_header.hops.len() == 0
                && packet@.routing_header.hop_index == 0 && packet@.session_id == 0
                && packet@.pack_type == (crate::packet::PacketTypeView::FloodRequest {
                flood_id: post.router.flood_counter,
                initiator_id: pre.id,
                path_trace: seq![(pre.id, pre.router.role)],
            }))
    }

    /// How one Dropped NACK for a pending fragment changes the node and what
    /// it sends. The pending entry is charged one more attempt; below the
    /// switch threshold the stored packet is resent unchanged on its old
    /// path, from the threshold on a reroute over a freshly chosen route is
    /// attempted (falling back to the old path when none is known), and past
    /// the re-flood threshold the topology is wiped and a new discovery
    /// round is broadcast first. The cumulative counter survives every
    /// reroute. A NACK with no pending entry changes nothing.
    pub open spec fn dropped_step(
        pre: Self,
        post: Self,
        sid: u64,
        fi: u64,
        actions: Seq<Action>,
    ) -> bool {
        if !pre.cache.has_entry(sid, fi) {
            post == pre && actions.len() == 0
        } else {
            let stored = pre.cache.stored_packet(sid, fi);
            let charged = Self::charged_count(pre, sid, fi);
            let reflooded = charged > pre.config.reflood_threshold;
            let nf: int = if reflooded {
                pre.neighbors@.len() as int
            } else {
                0
            };
            &&& Self::core_unchanged(pre, post)
            &&& actions.len() == nf + 1
            &&& reflooded ==> (forall|x: NodeId| !post.router.topology.contains_node(x))
                && post.router.flood_counter == (if pre.router.flood_counter == u64::MAX {
                0u64
            } else {
                (pre.router.flood_counter + 1) as u64
            }) && Self::flood_broadcast_prefix(pre, post, actions, nf)
            &&& !reflooded ==> post.router == pre.router
            &&& post.cache.has_entry(sid, fi)
            &&& post.cache.stored_count(sid, fi) == charged
            &&& PacketCache::same_other_entries(pre.cache, post.cache, sid, fi)
            &&& if charged < pre.config.path_switch_threshold {
                dispatched(pre.neighbors@, stored, actions[nf]) && post.cache.stored_packet(
                    sid,
                    fi,
                ) == stored
            } else if stored.routing_header.hops.len() == 0 {
                ((actions[nf] matches Action::ReportUndeliverable { packet } && packet@ == stored))
                    && post.cache.stored_packet(sid, fi) == stored
            } else {
                Self::rerouted_resend(pre, post, sid, fi, actions[nf])
            }
        }
    }

    /// The resend of a pending fragment after the switch threshold: the
    /// action carries a packet with the stored session and payload, whose
    /// route is either a freshly computed one to the stored destination or,
    /// when no route is known, the stored route unchanged; the cache holds
    /// that packet in the entry's place.
    pub open spec fn rerouted_resend(pre: Self, post: Self, sid: u64, fi: u64, a: Action) -> bool {
        let stored = pre.cache.stored_packet(sid, fi);
        let dest = stored.routing_header.hops.last();
        exists|pv: crate::packet::PacketView|
            {
                &&& #[trigger] dispatched(pre.neighbors@, pv, a)
                &&& pv.session_id == stored.session_id
                &&& pv.pack_type == stored.pack_type
                &&& post.cache.stored_packet(sid, fi) == pv
                &&& ((crate::routing::path_ok(
                    post.router.topology,
                    pv.routing_header.hops,
                    pre.id,
                    dest,
                ) && pv.routing_header.hop_index == 1) || (!crate::routing::connected(
                    post.router.topology,
                    pre.id,
                    dest,
                ) && pv == stored))
            }
    }

    /// How a NACK that invalidates the stored route (ErrorInRouting or
    /// UnexpectedRecipient, naming node `bad`) changes the node and what it
    /// sends. The pending packet is taken out; a freshly computed route that
    /// avoids `bad` carries it again, reinserted with its cumulative counter
    /// kept; when no discovered route avoids `bad`, the topology is wiped, a
    /// new discovery round is broadcast, and the packet is reported
    /// undeliverable. For ErrorInRouting (`crash`) the unreachable node
    /// itself is first erased from the topology. A NACK with no pending
    /// entry changes nothing.
    pub open spec fn reroute_step(
        pre: Self,
        post: Self,
        sid: u64,
        fi: u64,
        bad: NodeId,
        crash: bool,
        actions: Seq<Action>,
    ) -> bool {
        if !pre.cache.has_entry(sid, fi) {
            post == pre && actions.len() == 0
        } else {
            let stored = pre.cache.stored_packet(sid, fi);
            let count = pre.cache.stored_count(sid, fi);
            &&& Self::core_unchanged(pre, post)
            &&& PacketCache::same_other_entries(pre.cache, post.cache, sid, fi)
            &&& if stored.routing_header.hops.len() == 0 {
                &&& actions.len() == 1
                &&& ((actions[0] matches Action::ReportUndeliverable { packet } && packet@
                    == stored))
                &&& !post.cache.has_entry(sid, fi)
                &&& post.router == pre.router
            } else {
                let dest = stored.routing_header.hops.last();
                let avoidable = exists|p: Seq<NodeId>|
                    crate::routing::path_ok(pre.router.topology, p, pre.id, dest) && !p.contains(
                        bad,
                    );
                &&& post.router.id == pre.router.id
                &&& post.router.role == pre.router.role
                &&& if avoidable {
                    // A route around the offending node is known: the packet
                    // travels it, reinserted with its counter kept; the
                    // topology loses exactly the crashed node, if any.
                    &&& post.router.flood_counter == pre.router.flood_counter
                    &&& forall|x: NodeId|
                        #[trigger] post.router.topology.contains_node(x)
                            <==> pre.router.topology.contains_node(x) && !(crash && x == bad)
                    &&& forall|a: NodeId, b: NodeId|
                        #[trigger] post.router.topology.has_edge(a, b)
                            <==> pre.router.topology.has_edge(a, b) && !(crash && (a == bad || b
                            == bad))
                    &&& (exists|pv: crate::packet::PacketView|
                        {
                            &&& actions.len() == 1
                            &&& #[trigger] dispatched(pre.neighbors@, pv, actions[0])
                            &&& pv.session_id == stored.session_id
                            &&& pv.pack_type == stored.pack_type
                            &&& pv.routing_header.hop_index == 1
                            &&& !pv.routing_header.hops.contains(bad)
                            &&& crate::routing::path_ok(
                                post.router.topology,
                                pv.routing_header.hops,
                                pre.id,
                                dest,
                            )
                            &&& post.cache.has_entry(sid, fi)
                            &&& post.cache.stored_packet(sid, fi) == pv
                            &&& post.cache.stored_count(sid, fi) == count
                        })
                } else {
                    // No discovered route avoids the node: the topology is
                    // wiped, a new discovery round is broadcast, and the
                    // packet is dropped and reported undeliverable.
                    &&& actions.len() == pre.neighbors@.len() + 1
                    &&& Self::flood_broadcast_prefix(
                        pre,
                        post,
                        actions,
                        pre.neighbors@.len() as int,
                    )
                    &&& ((actions[actions.len() - 1] matches Action::ReportUndeliverable {
                        packet,
                    } && packet@ == stored))
                    &&& forall|x: NodeId| !post.router.topology.contains_node(x)
                    &&& post.router.flood_counter == (if pre.router.flood_counter == u64::MAX {
                        0u64
                    } else {
                        (pre.router.flood_counter + 1) as u64
                    })
                    &&& !post.cache.has_entry(sid, fi)
                }
            }
        }
    }

    /// How a DestinationIsDrone NACK changes the node: terminal misrouting,
    /// never retried — the pending packet, if any, is dropped and reported
    /// as a permanent delivery failure.
    pub open spec fn terminal_step(
        pre: Self,
        post: Self,
        sid: u64,
        fi: u64,
        actions: Seq<Action>,
    ) -> bool {
        if !pre.cache.has_entry(sid, fi) {
            post == pre && actions.len() == 0
        } else {
            &&& Self::core_unchanged(pre, post)
            &&& post.router == pre.router
            &&& actions.len() == 1
            &&& ((actions[0] matches Action::ReportUndeliverable { packet } && packet@ == pre
                .cache.stored_packet(sid, fi)))
            &&& !post.cache.has_entry(sid, fi)
            &&& PacketCache::same_other_entries(pre.cache, post.cache, sid, fi)
        }
    }

    /// Law: flood dedup is idempotent. Delivering the same (flood id,
    /// initiator) request twice to a node that has not seen it and has a
    /// neighbor besides the arrival one yields exactly one fan-out — the
    /// first delivery forwards to every other neighbor — while the repeat is
    /// answered with a single direct response and marks nothing further.
    pub proof fn lemma_flood_dedup_idempotent(
        s0: ChatClient,
        s1: ChatClient,
        s2: ChatClient,
        flood_id: u64,
        initiator: NodeId,
        trace: Seq<(NodeId, NodeRole)>,
        sid1: u64,
        sid2: u64,
        a1: Seq<Action>,
        a2: Seq<Action>,
    )
        requires
            trace.len() > 0,
            !s0.seen_flood(flood_id, initiator),
            exists|k: int| 0 <= k < s0.neighbors@.len() && s0.neighbors@[k] != trace.last().0,
            Self::flood_request_step(s0, s1, flood_id, initiator, trace, sid1, a1),
            Self::flood_request_step(s1, s2, flood_id, initiator, trace, sid2, a2),
        ensures
            a1.len() == others_of(s0.neighbors@, trace.last().0).len(),
            forall|k: int|
                0 <= k < a1.len() ==> ((#[trigger] a1[k]) matches Action::Send { neighbor, packet }
                    && neighbor == others_of(s0.neighbors@, trace.last().0)[k] && packet@
                    == flood_forward_view(
                    flood_id,
                    initiator,
                    trace.push((s0.id, NodeRole::Client)),
                    sid1,
                )),
            a2.len() == 1,
            dispatched(
                s1.neighbors@,
                flood_response_view(flood_id, trace.push((s0.id, NodeRole::Client)), sid2),
                a2[0],
            ),
            s2.flood_seen == s1.flood_seen,
    {
        let prev = trace.last().0;
        assert(!(forall|k: int| 0 <= k < s0.neighbors@.len() ==> s0.neighbors@[k] == prev)) by {
            let k = choose|k: int|
                0 <= k < s0.neighbors@.len() && s0.neighbors@[k] != prev;
            assert(0 <= k < s0.neighbors@.len() && s0.neighbors@[k] != prev);
        }
        assert(s1.seen_flood(flood_id, initiator));
        assert(s1.id == s0.id && s1.neighbors == s0.neighbors);
    }

    /// Acknowledgement of one fragment: the matching pending entry leaves
    /// the cache; a duplicate acknowledgement changes nothing.
    pub fn process_ack(&mut self, ack: &Ack, session_id: u64) -> (had: bool)
        requires
            old(self).wf(),
        ensures
            final(self).wf(),
            had == old(self).cache.has_entry(session_id, ack.fragment_index),
            !final(self).cache.has_entry(session_id, ack.fragment_index),
            PacketCache::same_other_entries(
                old(self).cache,
                final(self).cache,
                session_id,
                ack.fragment_index,
            ),
            final(self).router == old(self).router,
            final(self).assembler == old(self).assembler,
            Self::core_unchanged(*old(self), *final(self)),
    {
        self.cache.remove(session_id, ack.fragment_index)
    }

    /// The view of the acknowledgement answering a fragment that arrived
    /// along `hops`: it travels the same route backwards.
    pub open spec fn ack_view(hops: Seq<NodeId>, sid: u64, fragment_index: u64) -> crate::packet::PacketView {
        crate::packet::PacketView {
            routing_header: crate::packet::HeaderView { hops: hops.reverse(), hop_index: 1 },
            session_id: sid,
            pack_type: crate::packet::PacketTypeView::Ack(Ack { fragment_index }),
        }
    }

    /// How one fragment that reached its destination changes the node and
    /// what it sends: one acknowledgement always travels back to the source,
    /// the fragment joins its (session, source) reassembly buffer, and a
    /// buffer that just completed yields its message for the application,
    /// exactly once.
    pub open spec fn fragment_step(
        pre: Self,
        post: Self,
        fv: crate::packet::FragmentView,
        hops: Seq<NodeId>,
        sid: u64,
        actions: Seq<Action>,
    ) -> bool {
        let src = hops[0];
        &&& actions.len() >= 1
        &&& dispatched(pre.neighbors@, Self::ack_view(hops, sid, fv.fragment_index), actions[0])
        &&& post.cache == pre.cache
        &&& post.router == pre.router
        &&& post.neighbors == pre.neighbors
        &&& post.flood_seen == pre.flood_seen
        &&& post.id == pre.id
        &&& post.running == pre.running
        &&& post.registered == pre.registered
        &&& post.session_counter == pre.session_counter
        &&& post.config == pre.config
        &&& if !pre.assembler.accepts(fv, sid, src) {
            post.assembler == pre.assembler && actions.len() == 1
        } else if pre.assembler.completes(fv, sid, src) {
            &&& actions.len() == 2
            &&& ((actions[1] matches Action::Deliver { session_id: s2, source, message } && s2
                == sid && source == src && message@ == crate::fragment::gather(
                pre.assembler.updated_chunks(fv, sid, src),
                fv.total_n_fragments as int,
            )))
            &&& !post.assembler.has_buffer(sid, src)
            &&& Assembler::same_other_buffers(pre.assembler, post.assembler, sid, src)
            &&& forall|x: u64, y: NodeId|
                #[trigger] post.assembler.delivered_contains(x, y) <==> pre
                    .assembler.delivered_contains(x, y) || (x == sid && y == src)
        } else {
            &&& actions.len() == 1
            &&& post.assembler.has_buffer(sid, src)
            &&& post.assembler.buffer_total(sid, src) == fv.total_n_fragments
            &&& post.assembler.buffer_chunks(sid, src) == pre.assembler.updated_chunks(
                fv,
                sid,
                src,
            )
            &&& Assembler::same_other_buffers(pre.assembler, post.assembler, sid, src)
            &&& post.assembler.delivered@ == pre.assembler.delivered@
        }
    }

    /// Handles one fragment addressed to this node, as
    /// [`Self::fragment_step`] states: acknowledge, accumulate, and deliver
    /// the completed message exactly once.
    pub fn process_fragment(
        &mut self,
        fragment: &Fragment,
        header: &RoutingHeader,
        session_id: u64,
    ) -> (r: Vec<Action>)
        requires
            old(self).wf(),
            header@.hops.len() >= 1,
        ensures
            final(self).wf(),
            Self::fragment_step(
                *old(self),
                *final(self),
                fragment@,
                header@.hops,
                session_id,
                r@,
            ),
    {
        let ack = Packet {
            routing_header: header.reversed(),
            session_id,
            pack_type: PacketType::Ack(Ack { fragment_index: fragment.fragment_index }),
        };
        let mut actions: Vec<Action> = Vec::new();
        actions.push(self.forward_packet(ack));
        let source = header.hops[0];
        match self.assembler.on_fragment_received(fragment, session_id, source) {
            Some(message) => {
                actions.push(Action::Deliver { session_id, source, message });
            },
            None => {},
        }
        actions
    }

    /// Broadcasts a forced re-discovery: wipes the topology and queues the
    /// fresh flood request for every neighbor.
    fn reflood(&mut self) -> (r: Vec<Action>)
        requires
            old(self).wf(),
        ensures
            final(self).wf(),
            Self::core_unchanged(*old(self), *final(self)),
            final(self).cache == old(self).cache,
            final(self).router.id == old(self).router.id,
            final(self).router.role == old(self).router.role,
            forall|x: NodeId| !final(self).router.topology.contains_node(x),
            final(self).router.flood_counter == (if old(self).router.flood_counter == u64::MAX {
                0u64
            } else {
                (old(self).router.flood_counter + 1) as u64
            }),
            r@.len() == old(self).neighbors@.len(),
            Self::flood_broadcast_prefix(
                *old(self),
                *final(self),
                r@,
                old(self).neighbors@.len() as int,
            ),
    {
        self.router.topology.clear();
        let request = self.router.get_flood_request();
        let mut actions: Vec<Action> = Vec::new();
        let mut i: usize = 0;
        while i < self.neighbors.len()
            invariant
                i <= self.neighbors@.len(),
                actions@.len() == i,
                forall|k: int|
                    0 <= k < actions@.len() ==> ((#[trigger] actions@[k]) matches Action::Send {
                        neighbor,
                        packet,
                    } && neighbor == self.neighbors@[k] && packet@.routing_header
                        == request@.routing_header && packet@.session_id == request@.session_id
                        && packet@.pack_type == request@.pack_type),
            decreases self.neighbors@.len() - i,
        {
            actions.push(
                Action::Send { neighbor: self.neighbors[i], packet: request.duplicate() },
            );
            i = i + 1;
        }
        actions
    }

    /// Handles a NACK that invalidates the stored route, as
    /// [`Self::reroute_step`] states.
    #[verifier::rlimit(60)]
    #[verifier::spinoff_prover]
    fn handle_bad_route(
        &mut self,
        session_id: u64,
        fragment_index: u64,
        bad: NodeId,
        crash: bool,
    ) -> (r: Vec<Action>)
        requires
            old(self).wf(),
        ensures
            final(self).wf(),
            Self::reroute_step(
                *old(self),
                *final(self),
                session_id,
                fragment_index,
                bad,
                crash,
                r@,
            ),
    {
        let ghost pre = *self;
        let (pkt, count) = match self.cache.remove_and_get(session_id, fragment_index) {
            Some(p) => p,
            None => {
                return Vec::new();
            },
        };
        if pkt.routing_header.hops.len() == 0 {
            let mut actions: Vec<Action> = Vec::new();
            actions.push(Action::ReportUndeliverable { packet: pkt });
            return actions;
        }
        let dest = pkt.routing_header.hops[pkt.routing_header.hops.len() - 1];
        if crash {
            self.router.drone_crashed(bad);
        }
        match self.router.get_alternate_routing_header(dest, bad) {
            crate::routing::AltRoute::Found(header) => {
                let new_pkt = Packet {
                    routing_header: header,
                    session_id: pkt.session_id,
                    pack_type: pkt.pack_type,
                };
                self.cache.reinsert(new_pkt.duplicate(), count);
                let ghost pv = new_pkt@;
                let mut actions: Vec<Action> = Vec::new();
                actions.push(self.forward_packet(new_pkt));
                proof {
                    assert(pv.session_id == pre.cache.stored_packet(
                        session_id,
                        fragment_index,
                    ).session_id);
                    assert(dispatched(pre.neighbors@, pv, actions@[0]));
                }
                actions
            },
            crate::routing::AltRoute::Unreachable { flood_request } => {
                let mut actions: Vec<Action> = Vec::new();
                let mut i: usize = 0;
                while i < self.neighbors.len()
                    invariant
                        i <= self.neighbors@.len(),
                        actions@.len() == i,
                        forall|k: int|
                            0 <= k < actions@.len() ==> ((#[trigger] actions@[k]) matches
                                Action::Send { neighbor, packet } && neighbor
                                == self.neighbors@[k] && packet@.routing_header
                                == flood_request@.routing_header && packet@.session_id
                                == flood_request@.session_id && packet@.pack_type
                                == flood_request@.pack_type),
                    decreases self.neighbors@.len() - i,
                {
                    actions.push(
                        Action::Send {
                            neighbor: self.neighbors[i],
                            packet: flood_request.duplicate(),
                        },
                    );
                    i = i + 1;
                }
                let ghost sends = actions@;
                actions.push(Action::ReportUndeliverable { packet: pkt });
                proof {
                    assert forall|k: int|
                        0 <= k < pre.neighbors@.len() implies ((#[trigger] actions@[k]) matches
                        Action::Send { neighbor, packet } && neighbor == pre.neighbors@[k]
                        && packet@.routing_header.hops.len() == 0
                        && packet@.routing_header.hop_index == 0 && packet@.session_id == 0
                        && packet@.pack_type == (crate::packet::PacketTypeView::FloodRequest {
                        flood_id: self.router.flood_counter,
                        initiator_id: pre.id,
                        path_trace: seq![(pre.id, pre.router.role)],
                    })) by {
                        assert(actions@[k] == sends[k]);
                        assert(pre.router.id == pre.id);
                        assert(flood_request@.routing_header.hops.len() == 0);
                        assert(flood_request@.routing_header.hop_index == 0);
                        assert(flood_request@.session_id == 0);
                        assert(seq![(pre.router.id, pre.router.role)] =~= seq![
                            (pre.id, pre.router.role),
                        ]);
                        assert(flood_request@.pack_type == (
                        crate::packet::PacketTypeView::FloodRequest {
                            flood_id: self.router.flood_counter,
                            initiator_id: pre.id,
                            path_trace: seq![(pre.id, pre.router.role)],
                        }));
                    }
                    assert(Self::flood_broadcast_prefix(
                        pre,
                        *self,
                        actions@,
                        pre.neighbors@.len() as int,
                    ));
                }
                actions
            },
        }
    }

    /// Handles a Dropped NACK, as [`Self::dropped_step`] states: bounded
    /// same-path retry, then randomized rerouting, then a forced re-flood.
    #[verifier::rlimit(100)]
    #[verifier::spinoff_prover]
    fn handle_dropped(&mut self, session_id: u64, fragment_index: u64) -> (r: Vec<Action>)
        requires
            old(self).wf(),
        ensures
            final(self).wf(),
            Self::dropped_step(*old(self), *final(self), session_id, fragment_index, r@),
    {
        let ghost pre = *self;
            let (pkt, charged) = match self.cache.get(session_id, fragment_index) {
                Some(p) => p,
                None => {
                    return Vec::new();
                },
            };
            let ghost after_get = *self;
            let mut actions: Vec<Action> = Vec::new();
            let ghost mut nf: int = 0;
            let ghost mut flood_actions = actions@;
            if charged > self.config.reflood_threshold {
                actions = self.reflood();
                proof {
                    nf = pre.neighbors@.len() as int;
                    flood_actions = actions@;
                }
            }
            let ghost mid = *self;
            if charged < self.config.path_switch_threshold {
                actions.push(self.forward_packet(pkt));
            } else if pkt.routing_header.hops.len() == 0 {
                actions.push(Action::ReportUndeliverable { packet: pkt });
            } else {
                let dest = pkt.routing_header.hops[pkt.routing_header.hops.len() - 1];
                let mut headers = self.router.get_multiple_source_routing_headers(dest);
                if headers.len() > 0 {
                    let j = random_below(headers.len());
                    let header = headers.swap_remove(j);
                    let new_pkt = Packet {
                        routing_header: header,
                        session_id: pkt.session_id,
                        pack_type: pkt.pack_type,
                    };
                    let ghost cache_mid = self.cache;
                    self.cache.reinsert(new_pkt.duplicate(), charged);
                    let ghost pv = new_pkt@;
                    actions.push(self.forward_packet(new_pkt));
                    proof {
                        let sid = session_id;
                        let fi = fragment_index;
                        let stored = pre.cache.stored_packet(sid, fi);
                        pre.cache.lemma_entry_index(sid, fi);
                        assert(stored.session_id == sid);
                        assert(stored.pack_type is MsgFragment);
                        assert(stored.pack_type->MsgFragment_0.fragment_index == fi);
                        assert(pv.session_id == sid);
                        assert(pv.pack_type == stored.pack_type);
                        assert(cache_mid.is_fragment_packet(pv));
                        assert(cache_mid.fragment_key(pv) == fi);
                        assert(self.cache.stored_packet(sid, fi) == pv);
                        assert(self.cache.stored_count(sid, fi) == charged);
                        assert forall|s2: u64, f2: u64|
                            !(s2 == sid && f2 == fi) implies (#[trigger] self.cache.has_entry(
                            s2,
                            f2,
                        ) == pre.cache.has_entry(s2, f2) && (pre.cache.has_entry(s2, f2)
                            ==> self.cache.stored_packet(s2, f2) == pre.cache.stored_packet(
                            s2,
                            f2,
                        ) && self.cache.stored_count(s2, f2) == pre.cache.stored_count(
                            s2,
                            f2,
                        ))) by {
                            assert(cache_mid.has_entry(s2, f2) == pre.cache.has_entry(s2, f2));
                            assert(self.cache.has_entry(s2, f2) == cache_mid.has_entry(s2, f2));
                        }
                        assert(dispatched(pre.neighbors@, pv, actions@[nf]));
                        assert(crate::routing::path_ok(
                            self.router.topology,
                            pv.routing_header.hops,
                            pre.id,
                            stored.routing_header.hops.last(),
                        ));
                        assert(pv.routing_header.hop_index == 1);
                        assert(Self::rerouted_resend(
                            pre,
                            *self,
                            session_id,
                            fragment_index,
                            actions@[nf],
                        ));
                    }
                } else {
                    actions.push(self.forward_packet(pkt));
                    proof {
                        let stored = pre.cache.stored_packet(session_id, fragment_index);
                        assert(dispatched(pre.neighbors@, stored, actions@[nf]));
                        assert(Self::rerouted_resend(
                            pre,
                            *self,
                            session_id,
                            fragment_index,
                            actions@[nf],
                        ));
                    }
                }
            }
            proof {
                let post = *self;
                let reflooded = charged > pre.config.reflood_threshold;
                if reflooded {
                    assert(Self::flood_broadcast_prefix(after_get, mid, flood_actions, nf));
                    assert forall|k: int|
                        0 <= k < nf implies ((#[trigger] actions@[k]) matches Action::Send {
                        neighbor,
                        packet,
                    } && neighbor == pre.neighbors@[k] && packet@.pack_type == (
                    crate::packet::PacketTypeView::FloodRequest {
                        flood_id: post.router.flood_counter,
                        initiator_id: pre.id,
                        path_trace: seq![(pre.id, pre.router.role)],
                    })) by {
                        assert(actions@[k] == flood_actions[k]);
                        assert(seq![(after_get.id, after_get.router.role)] =~= seq![
                            (pre.id, pre.router.role),
                        ]);
                        assert(post.router.flood_counter == mid.router.flood_counter);
                    }
                    assert(Self::flood_broadcast_prefix(pre, post, actions@, nf));
                }
                let sid = session_id;
                let fi = fragment_index;
                let stored = pre.cache.stored_packet(sid, fi);
                let charged_g = Self::charged_count(pre, sid, fi);
                assert(charged == charged_g);
                assert(pre.cache.has_entry(sid, fi));
                assert(Self::core_unchanged(pre, post));
                assert(actions@.len() == nf + 1);
                assert(!(charged_g > pre.config.reflood_threshold) ==> post.router
                    == pre.router);
                assert(post.cache.has_entry(sid, fi));
                assert(post.cache.stored_count(sid, fi) == charged_g);
                assert forall|s2: u64, f2: u64|
                    !(s2 == sid && f2 == fi) implies (#[trigger] post.cache.has_entry(s2, f2)
                    == pre.cache.has_entry(s2, f2) && (pre.cache.has_entry(s2, f2)
                    ==> post.cache.stored_packet(s2, f2) == pre.cache.stored_packet(s2, f2)
                    && post.cache.stored_count(s2, f2) == pre.cache.stored_count(
                    s2,
                    f2,
                ))) by {
                    assert(after_get.cache.has_entry(s2, f2) == pre.cache.has_entry(s2, f2));
                    assert(post.cache.has_entry(s2, f2) == after_get.cache.has_entry(s2, f2));
                    if pre.cache.has_entry(s2, f2) {
                        assert(after_get.cache.stored_packet(s2, f2)
                            == pre.cache.stored_packet(s2, f2));
                        assert(post.cache.stored_packet(s2, f2)
                            == after_get.cache.stored_packet(s2, f2));
                        assert(after_get.cache.stored_count(s2, f2) == pre.cache.stored_count(
                            s2,
                            f2,
                        ));
                        assert(post.cache.stored_count(s2, f2) == after_get.cache.stored_count(
                            s2,
                            f2,
                        ));
                    }
                }
                assert(PacketCache::same_other_entries(pre.cache, post.cache, sid, fi));
                if charged_g < pre.config.path_switch_threshold {
                    assert(dispatched(pre.neighbors@, stored, actions@[nf]));
                    assert(post.cache.stored_packet(sid, fi) == stored);
                } else if stored.routing_header.hops.len() == 0 {
                    assert((actions@[nf] matches Action::ReportUndeliverable { packet }
                        && packet@ == stored));
                    assert(post.cache.stored_packet(sid, fi) == stored);
                }
                assert(Self::dropped_step(
                    pre,
                    *self,
                    session_id,
                    fragment_index,
                    actions@,
                ));
            }
            actions
    }

    /// The packet carrying fragment `i` of a message sent along `hops` under
    /// session `sid`.
    pub open spec fn fragment_packet_view(
        hops: Seq<NodeId>,
        sid: u64,
        count: int,
        content: Seq<u8>,
        i: int,
    ) -> crate::packet::PacketView {
        crate::packet::PacketView {
            routing_header: crate::packet::HeaderView { hops, hop_index: 1 },
            session_id: sid,
            pack_type: crate::packet::PacketTypeView::MsgFragment(
                crate::packet::FragmentView {
                    fragment_index: i as u64,
                    total_n_fragments: count as u64,
                    data: crate::fragment::fragment_data(content, i),
                },
            ),
        }
    }

    /// Every fragment of `content` is queued for transmission along `hops`
    /// under session `sid`, and recorded as pending under its index.
    pub open spec fn fragments_queued(
        pre: Self,
        post: Self,
        hops: Seq<NodeId>,
        sid: u64,
        content: Seq<u8>,
        actions: Seq<Action>,
    ) -> bool {
        let count = crate::fragment::fragment_count(content.len() as int);
        &&& actions.len() == count
        &&& forall|k: int|
            0 <= k < count ==> dispatched(
                pre.neighbors@,
                Self::fragment_packet_view(hops, sid, count, content, k),
                #[trigger] actions[k],
            )
        &&& forall|k: int|
            0 <= k < count ==> #[trigger] post.cache.has_entry(sid, k as u64)
                && post.cache.stored_packet(sid, k as u64) == Self::fragment_packet_view(
                hops,
                sid,
                count,
                content,
                k,
            )
    }

    /// The whole message went out: along some discovered route to the
    /// destination, every fragment was queued and recorded as pending.
    pub open spec fn message_queued(
        pre: Self,
        post: Self,
        content: Seq<u8>,
        destination: NodeId,
        actions: Seq<Action>,
    ) -> bool {
        exists|hops: Seq<NodeId>|
            #[trigger] crate::routing::path_ok(pre.router.topology, hops, pre.id, destination)
                && Self::fragments_queued(
                pre,
                post,
                hops,
                pre.session_counter,
                content,
                actions,
            )
    }

    /// Fragments a serialized message, records every fragment as pending and
    /// queues it for its first transmission. One fresh session id covers all
    /// fragments; every packet carries the first discovered route to the
    /// destination. With no discovered route the message is not sent and
    /// nothing changes; in particular an unreachable destination never
    /// produces a packet.
    pub fn send_message(&mut self, content: &Vec<u8>, destination: NodeId) -> (r: Vec<Action>)
        requires
            old(self).wf(),
        ensures
            final(self).wf(),
            !crate::routing::connected(old(self).router.topology, old(self).id, destination)
                ==> r@.len() == 0 && *final(self) == *old(self),
            crate::routing::connected(old(self).router.topology, old(self).id, destination)
                ==> r@.len() == crate::fragment::fragment_count(content@.len() as int),
            r@.len() != 0 ==> ({
                let sid = old(self).session_counter;
                let count = crate::fragment::fragment_count(content@.len() as int);
                &&& r@.len() == count
                &&& final(self).session_counter == (if old(self).session_counter == u64::MAX {
                    0u64
                } else {
                    (old(self).session_counter + 1) as u64
                })
                &&& final(self).router == old(self).router
                &&& final(self).assembler == old(self).assembler
                &&& final(self).flood_seen == old(self).flood_seen
                &&& final(self).neighbors == old(self).neighbors
                &&& final(self).id == old(self).id
                &&& Self::message_queued(*old(self), *final(self), content@, destination, r@)
            }),
    {
        let ghost pre = *self;
        let header = match self.router.get_source_routing_header(destination) {
            Err(_) => {
                return Vec::new();
            },
            Ok(h) => h,
        };
        let session_id = self.session_counter;
        self.session_counter = if self.session_counter == u64::MAX {
            0
        } else {
            self.session_counter + 1
        };
        let fragments = crate::fragment::fragment_message(content);
        let ghost count = fragments@.len() as int;
        let mut actions: Vec<Action> = Vec::new();
        let mut k: usize = 0;
        while k < fragments.len()
            invariant
                self.wf(),
                k <= fragments@.len(),
                actions@.len() == k,
                count == fragments@.len(),
                count >= 1,
                self.router == pre.router,
                self.assembler == pre.assembler,
                self.flood_seen == pre.flood_seen,
                self.neighbors == pre.neighbors,
                self.id == pre.id,
                session_id == pre.session_counter,
                self.session_counter == (if pre.session_counter == u64::MAX {
                    0u64
                } else {
                    (pre.session_counter + 1) as u64
                }),
                header@.hop_index == 1,
                forall|i: int|
                    0 <= i < fragments@.len() ==> (#[trigger] fragments@[i])@.fragment_index == i
                        && fragments@[i]@.total_n_fragments == count && fragments@[i]@.data
                        == crate::fragment::fragment_data(content@, i),
                forall|i: int|
                    0 <= i < k ==> dispatched(
                        pre.neighbors@,
                        Self::fragment_packet_view(
                            header@.hops,
                            session_id,
                            count,
                            content@,
                            i,
                        ),
                        #[trigger] actions@[i],
                    ),
                forall|i: int|
                    0 <= i < k ==> #[trigger] self.cache.has_entry(session_id, i as u64)
                        && self.cache.stored_packet(session_id, i as u64)
                        == Self::fragment_packet_view(
                        header@.hops,
                        session_id,
                        count,
                        content@,
                        i,
                    ),
            decreases fragments@.len() - k,
        {
            let fragment = fragments[k].duplicate();
            let packet = Packet {
                routing_header: header.duplicate(),
                session_id,
                pack_type: PacketType::MsgFragment(fragment),
            };
            let ghost pv = packet@;
            let ghost cache_before = self.cache;
            self.cache.insert(packet.duplicate());
            actions.push(self.forward_packet(packet));
            proof {
                assert(cache_before.is_fragment_packet(pv));
                assert(cache_before.fragment_key(pv) == k as u64);
                assert(pv == Self::fragment_packet_view(
                    header@.hops,
                    session_id,
                    count,
                    content@,
                    k as int,
                ));
                assert(self.cache.stored_packet(session_id, k as u64) == pv);
                assert(PacketCache::same_other_entries(
                    cache_before,
                    self.cache,
                    session_id,
                    k as u64,
                ));
                assert forall|i: int|
                    0 <= i < k implies #[trigger] self.cache.has_entry(session_id, i as u64)
                    && self.cache.stored_packet(session_id, i as u64)
                    == cache_before.stored_packet(session_id, i as u64) by {
                    assert(cache_before.has_entry(session_id, i as u64));
                    assert(i < k);
                    assert(i as u64 != k as u64);
                    assert(self.cache.has_entry(session_id, i as u64) == cache_before.has_entry(
                        session_id,
                        i as u64,
                    ));
                    assert(self.cache.stored_packet(session_id, i as u64)
                        == cache_before.stored_packet(session_id, i as u64));
                }
            }
            k = k + 1;
        }
        proof {
            assert(actions@.len() == count);
            assert(Self::fragments_queued(
                pre,
                *self,
                header@.hops,
                session_id,
                content@,
                actions@,
            ));
            assert(crate::routing::path_ok(
                pre.router.topology,
                header@.hops,
                pre.id,
                destination,
            ));
            assert(Self::message_queued(pre, *self, content@, destination, actions@));
        }
        actions
    }

    /// The fragment index a NACK about this payload reports: the fragment's
    /// own index, or zero for payloads that carry none.
    pub open spec fn nack_index_of(pt: crate::packet::PacketTypeView) -> u64 {
        if pt is MsgFragment {
            pt->MsgFragment_0.fragment_index
        } else {
            0
        }
    }

    /// The view of the UnexpectedRecipient NACK a misaddressed packet is
    /// answered with: it travels the already-traversed route prefix
    /// backwards, starting from this node itself.
    pub open spec fn unexpected_nack_view(
        pv: crate::packet::PacketView,
        self_id: NodeId,
    ) -> crate::packet::PacketView {
        let hv = pv.routing_header;
        let upto = if hv.hop_index <= hv.hops.len() {
            hv.hop_index
        } else {
            hv.hops.len() as int
        };
        crate::packet::PacketView {
            routing_header: crate::packet::HeaderView {
                hops: hv.hops.subrange(0, upto).push(self_id).reverse(),
                hop_index: 1,
            },
            session_id: pv.session_id,
            pack_type: crate::packet::PacketTypeView::Nack(Nack {
                fragment_index: Self::nack_index_of(pv.pack_type),
                nack_type: NackType::UnexpectedRecipient(self_id),
            }),
        }
    }

    /// The view of the ErrorInRouting NACK sent when the hop after this node
    /// is not a connected neighbor: it travels the traversed route backwards
    /// from this node, which sits just before `hop_index` of the advanced
    /// route.
    pub open spec fn routing_error_nack_view(
        pv: crate::packet::PacketView,
        self_id: NodeId,
    ) -> crate::packet::PacketView {
        let hv = pv.routing_header;
        crate::packet::PacketView {
            routing_header: crate::packet::HeaderView {
                hops: hv.hops.subrange(0, hv.hop_index).reverse(),
                hop_index: 1,
            },
            session_id: pv.session_id,
            pack_type: crate::packet::PacketTypeView::Nack(Nack {
                fragment_index: Self::nack_index_of(pv.pack_type),
                nack_type: NackType::ErrorInRouting(self_id),
            }),
        }
    }

    /// Whether this packet's route names this node at its current hop.
    pub open spec fn addressed_here(pv: crate::packet::PacketView, self_id: NodeId) -> bool {
        let hv = pv.routing_header;
        hv.hop_index < hv.hops.len() && hv.hops[hv.hop_index] == self_id
    }

    /// Dispatches one received packet. A flood request is handled by the
    /// flood controller ([`Self::flood_request_step`]). Any other packet is
    /// first checked against its route: a packet not addressed to this node
    /// is answered with an UnexpectedRecipient NACK (or silently dropped
    /// when its route is empty and no reply can travel); an addressed packet
    /// advances one hop, and either this node is its destination — fragments
    /// go to reassembly ([`Self::fragment_step`]), acknowledgements clear
    /// the pending cache, NACKs drive recovery, flood responses feed the
    /// topology — or it is relayed to the next hop, answered with an
    /// ErrorInRouting NACK when that hop is not a connected neighbor.
    #[verifier::rlimit(30)]
    pub fn handle_packet(&mut self, packet: Packet) -> (r: Vec<Action>)
        requires
            old(self).wf(),
        ensures
            final(self).wf(),
            packet@.pack_type matches crate::packet::PacketTypeView::FloodRequest {
                flood_id,
                initiator_id,
                path_trace,
            } ==> Self::flood_request_step(
                *old(self),
                *final(self),
                flood_id,
                initiator_id,
                path_trace,
                packet@.session_id,
                r@,
            ),
            !(packet@.pack_type is FloodRequest) && !Self::addressed_here(
                packet@,
                old(self).id,
            ) ==> *final(self) == *old(self) && (if packet@.routing_header.hops.len() == 0 {
                r@.len() == 0
            } else {
                r@.len() == 1 && dispatched(
                    old(self).neighbors@,
                    Self::unexpected_nack_view(packet@, old(self).id),
                    r@[0],
                )
            }),
            !(packet@.pack_type is FloodRequest) && Self::addressed_here(packet@, old(self).id)
                && packet@.routing_header.hop_index + 1 == packet@.routing_header.hops.len() ==> {
                let sid = packet@.session_id;
                match packet@.pack_type {
                    crate::packet::PacketTypeView::MsgFragment(fv) => Self::fragment_step(
                        *old(self),
                        *final(self),
                        fv,
                        packet@.routing_header.hops,
                        sid,
                        r@,
                    ),
                    crate::packet::PacketTypeView::Ack(a) => r@.len() == 0 && !final(self).cache.has_entry(sid, a.fragment_index) && PacketCache::same_other_entries(
                        old(self).cache,
                        final(self).cache,
                        sid,
                        a.fragment_index,
                    ) && final(self).router == old(self).router && final(self).assembler == old(self).assembler && Self::core_unchanged(*old(self), *final(self)),
                    crate::packet::PacketTypeView::Nack(n) => {
                        &&& n.nack_type is Dropped ==> Self::dropped_step(
                            *old(self),
                            *final(self),
                            sid,
                            n.fragment_index,
                            r@,
                        )
                        &&& n.nack_type matches NackType::ErrorInRouting(bad)
                            ==> Self::reroute_step(
                            *old(self),
                            *final(self),
                            sid,
                            n.fragment_index,
                            bad,
                            true,
                            r@,
                        )
                        &&& n.nack_type matches NackType::UnexpectedRecipient(bad)
                            ==> Self::reroute_step(
                            *old(self),
                            *final(self),
                            sid,
                            n.fragment_index,
                            bad,
                            false,
                            r@,
                        )
                        &&& n.nack_type is DestinationIsDrone ==> Self::terminal_step(
                            *old(self),
                            *final(self),
                            sid,
                            n.fragment_index,
                            r@,
                        )
                    },
                    crate::packet::PacketTypeView::FloodResponse { flood_id, path_trace } => {
                        &&& r@.len() == 0
                        &&& final(self).cache == old(self).cache
                        &&& final(self).assembler == old(self).assembler
                        &&& path_trace.len() == 0 ==> final(self).router == old(self).router
                        &&& path_trace.len() > 0 ==> crate::topology::absorbs_trace(
                            old(self).router.topology,
                            final(self).router.topology,
                            path_trace,
                        )
                    },
                    crate::packet::PacketTypeView::FloodRequest { .. } => true,
                }
            },
            !(packet@.pack_type is FloodRequest) && Self::addressed_here(packet@, old(self).id)
                && packet@.routing_header.hop_index + 1 < packet@.routing_header.hops.len() ==> {
                let hv = packet@.routing_header;
                &&& *final(self) == *old(self)
                &&& r@.len() == 1
                &&& if old(self).neighbors@.contains(hv.hops[hv.hop_index + 1]) {
                    r@[0] matches Action::Send { neighbor, packet: p } && neighbor == hv.hops[
                        hv.hop_index + 1] && p@ == (crate::packet::PacketView {
                        routing_header: crate::packet::HeaderView {
                            hops: hv.hops,
                            hop_index: hv.hop_index + 1,
                        },
                        session_id: packet@.session_id,
                        pack_type: packet@.pack_type,
                    })
                } else {
                    dispatched(
                        old(self).neighbors@,
                        Self::routing_error_nack_view(
                            crate::packet::PacketView {
                                routing_header: crate::packet::HeaderView {
                                    hops: hv.hops,
                                    hop_index: hv.hop_index + 1,
                                },
                                session_id: packet@.session_id,
                                pack_type: packet@.pack_type,
                            },
                            old(self).id,
                        ),
                        r@[0],
                    )
                }
            },
    {
        if let PacketType::FloodRequest(request) = &packet.pack_type {
            return self.handle_flood_request(request, packet.session_id);
        }
        let Packet { routing_header: mut header, session_id, pack_type } = packet;
        let addressed = header.hop_index < header.hops.len() && header.hops[header.hop_index]
            == self.id;
        if !addressed {
            if header.hops.len() == 0 {
                return Vec::new();
            }
            let fi = match &pack_type {
                PacketType::MsgFragment(f) => f.fragment_index,
                _ => 0,
            };
            if header.hop_index > header.hops.len() {
                header.hop_index = header.hops.len();
            }
            let reply = header.unexpected_reply(self.id);
            let nack_packet = Packet {
                routing_header: reply,
                session_id,
                pack_type: PacketType::Nack(Nack {
                    fragment_index: fi,
                    nack_type: NackType::UnexpectedRecipient(self.id),
                }),
            };
            let mut actions: Vec<Action> = Vec::new();
            actions.push(self.forward_packet(nack_packet));
            return actions;
        }
        header.advance();
        if header.hop_index == header.hops.len() {
            match pack_type {
                PacketType::MsgFragment(fragment) => {
                    self.process_fragment(&fragment, &header, session_id)
                },
                PacketType::Ack(ack) => {
                    self.process_ack(&ack, session_id);
                    Vec::new()
                },
                PacketType::Nack(nack) => self.process_nack(&nack, session_id),
                PacketType::FloodResponse(response) => {
                    self.process_flood_response(&response);
                    Vec::new()
                },
                PacketType::FloodRequest(_) => Vec::new(),
            }
        } else {
            let next = header.hops[header.hop_index];
            if crate::topology::contains_id(&self.neighbors, next) {
                let forwarded = Packet { routing_header: header, session_id, pack_type };
                let mut actions: Vec<Action> = Vec::new();
                actions.push(Action::Send { neighbor: next, packet: forwarded });
                actions
            } else {
                let fi = match &pack_type {
                    PacketType::MsgFragment(f) => f.fragment_index,
                    _ => 0,
                };
                let reply = header.reverse_prefix(header.hop_index);
                let nack_packet = Packet {
                    routing_header: reply,
                    session_id,
                    pack_type: PacketType::Nack(Nack {
                        fragment_index: fi,
                        nack_type: NackType::ErrorInRouting(self.id),
                    }),
                };
                let mut actions: Vec<Action> = Vec::new();
                actions.push(self.forward_packet(nack_packet));
                actions
            }
        }
    }

    /// Dispatches one NACK for the given session to the failure-recovery
    /// state machine, by the failure kind it reports: transient loss is
    /// retried with bounded escalation ([`Self::dropped_step`]), a stale or
    /// broken route is recomputed around the offending node
    /// ([`Self::reroute_step`]), and terminal misrouting is surfaced as a
    /// permanent failure ([`Self::terminal_step`]).
    #[verifier::rlimit(60)]
    #[verifier::spinoff_prover]
    pub fn process_nack(&mut self, nack: &Nack, session_id: u64) -> (r: Vec<Action>)
        requires
            old(self).wf(),
        ensures
            final(self).wf(),
            nack.nack_type is Dropped ==> Self::dropped_step(
                *old(self),
                *final(self),
                session_id,
                nack.fragment_index,
                r@,
            ),
            nack.nack_type matches NackType::ErrorInRouting(bad) ==> Self::reroute_step(
                *old(self),
                *final(self),
                session_id,
                nack.fragment_index,
                bad,
                true,
                r@,
            ),
            nack.nack_type matches NackType::UnexpectedRecipient(bad) ==> Self::reroute_step(
                *old(self),
                *final(self),
                session_id,
                nack.fragment_index,
                bad,
                false,
                r@,
            ),
            nack.nack_type is DestinationIsDrone ==> Self::terminal_step(
                *old(self),
                *final(self),
                session_id,
                nack.fragment_index,
                r@,
            ),
    {
        let ghost pre = *self;
        match nack.nack_type {
            NackType::ErrorInRouting(bad) => {
                self.handle_bad_route(session_id, nack.fragment_index, bad, true)
            },
            NackType::UnexpectedRecipient(bad) => {
                self.handle_bad_route(session_id, nack.fragment_index, bad, false)
            },
            NackType::DestinationIsDrone => {
                match self.cache.remove_and_get(session_id, nack.fragment_index) {
                    Some((pkt, _count)) => {
                        let mut actions: Vec<Action> = Vec::new();
                        actions.push(Action::ReportUndeliverable { packet: pkt });
                        actions
                    },
                    None => Vec::new(),
                }
            },
            NackType::Dropped => {
                self.handle_dropped(session_id, nack.fragment_index)
            },
        }
    }

    /// Under consecutive Dropped events for one pending fragment, the
    /// cumulative counter after the event numbered `k` (counting from zero)
    /// is exactly `k + 1`, the entry survives, and the policy is unchanged.
    proof fn lemma_dropped_count_climbs(
        states: Seq<ChatClient>,
        sid: u64,
        fi: u64,
        action_lists: Seq<Seq<Action>>,
        k: int,
    )
        requires
            states.len() == action_lists.len() + 1,
            action_lists.len() < u64::MAX,
            states[0].cache.has_entry(sid, fi),
            states[0].cache.stored_count(sid, fi) == 0,
            forall|j: int|
                0 <= j < action_lists.len() ==> #[trigger] Self::dropped_step(
                    states[j],
                    states[j + 1],
                    sid,
                    fi,
                    action_lists[j],
                ),
            0 <= k <= action_lists.len(),
        ensures
            states[k].cache.has_entry(sid, fi),
            states[k].cache.stored_count(sid, fi) == k,
            states[k].config == states[0].config,
        decreases k,
    {
        if k > 0 {
            Self::lemma_dropped_count_climbs(states, sid, fi, action_lists, k - 1);
            assert(Self::dropped_step(states[k - 1], states[k], sid, fi, action_lists[k - 1]));
        }
    }

    /// Law: under repeated Dropped NACKs for one fragment whose counter
    /// starts at zero, the counter climbs by exactly one per event; the
    /// event numbered `k` therefore resends on the stored path exactly while
    /// `k + 1` is below the switch threshold, and broadcasts a forced
    /// re-flood (one flood request per neighbor, before the resend) exactly
    /// once `k + 1` is past the re-flood threshold.
    pub proof fn lemma_dropped_retry_bound(
        states: Seq<ChatClient>,
        sid: u64,
        fi: u64,
        action_lists: Seq<Seq<Action>>,
    )
        requires
            states.len() == action_lists.len() + 1,
            action_lists.len() < u64::MAX,
            states[0].cache.has_entry(sid, fi),
            states[0].cache.stored_count(sid, fi) == 0,
            forall|j: int|
                0 <= j < action_lists.len() ==> #[trigger] Self::dropped_step(
                    states[j],
                    states[j + 1],
                    sid,
                    fi,
                    action_lists[j],
                ),
        ensures
            forall|k: int|
                0 <= k < action_lists.len() ==> #[trigger] states[k + 1].cache.stored_count(
                    sid,
                    fi,
                ) == k + 1,
            forall|k: int|
                0 <= k < action_lists.len() ==> #[trigger] action_lists[k].len() == (if k + 1
                    > states[0].config.reflood_threshold {
                    states[k].neighbors@.len() + 1
                } else {
                    1
                }),
            forall|k: int|
                0 <= k < action_lists.len() && k + 1 < states[0].config.path_switch_threshold && k
                    + 1 <= states[0].config.reflood_threshold ==> dispatched(
                    states[k].neighbors@,
                    states[k].cache.stored_packet(sid, fi),
                    #[trigger] action_lists[k][0],
                ),
    {
        assert forall|k: int| 0 <= k < action_lists.len() implies #[trigger] states[k
            + 1].cache.stored_count(sid, fi) == k + 1 by {
            Self::lemma_dropped_count_climbs(states, sid, fi, action_lists, k);
            assert(Self::dropped_step(states[k], states[k + 1], sid, fi, action_lists[k]));
        }
        assert forall|k: int| 0 <= k < action_lists.len() implies #[trigger] action_lists[k].len()
            == (if k + 1 > states[0].config.reflood_threshold {
            states[k].neighbors@.len() + 1
        } else {
            1
        }) by {
            Self::lemma_dropped_count_climbs(states, sid, fi, action_lists, k);
            assert(Self::dropped_step(states[k], states[k + 1], sid, fi, action_lists[k]));
        }
        assert forall|k: int|
            0 <= k < action_lists.len() && k + 1 < states[0].config.path_switch_threshold && k + 1
                <= states[0].config.reflood_threshold implies dispatched(
            states[k].neighbors@,
            states[k].cache.stored_packet(sid, fi),
            #[trigger] action_lists[k][0],
        ) by {
            Self::lemma_dropped_count_climbs(states, sid, fi, action_lists, k);
            assert(Self::dropped_step(states[k], states[k + 1], sid, fi, action_lists[k]));
        }
    }

    /// Whether the node has been started.
    pub fn is_running(&self) -> (r: bool)
        ensures
            r == self.running,
    {
        self.running
    }

    /// Whether the node is registered to a communication server.
    pub fn is_registered(&self) -> (r: bool)
        ensures
            r == (self.registered is Some),
    {
        self.registered.is_some()
    }

    /// Starts the node: only a running node sends application messages.
    pub fn start(&mut self)
        requires
            old(self).wf(),
        ensures
            final(self).wf(),
            *final(self) == (ChatClient { running: true, ..*old(self) }),
    {
        self.running = true;
    }

    /// Records the communication server this node registered to, or clears
    /// the registration on logout.
    pub fn set_registered(&mut self, server: Option<NodeId>)
        requires
            old(self).wf(),
        ensures
            final(self).wf(),
            *final(self) == (ChatClient { registered: server, ..*old(self) }),
    {
        self.registered = server;
    }
}

/// Relies on rand's `Rng::gen_range` on the thread-local generator: it
/// returns a value drawn from the given half-open range, and panics only on
/// an empty range, which the precondition rules out. Nothing more is assumed
/// of which value comes back.
#[verifier::external_body]
fn random_below(n: usize) -> (r: usize)
    requires
        n > 0,
    ensures
        r < n,
{
    rand::thread_rng().gen_range(0..n)
}

} // verus!
