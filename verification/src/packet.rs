//! Wire-level data model: node identifiers and roles, source-routing headers,
//! and the five packet kinds carried on the links between neighboring nodes.

use vstd::prelude::*;

verus! {

/// Identifier of a node, globally unique per simulation run.
pub type NodeId = u8;

/// What a node is allowed to do: relays only forward packets, clients and
/// servers are message endpoints.
#[derive(Clone, Copy, PartialEq, Eq, Structural, Debug)]
pub enum NodeRole {
    Relay,
    Client,
    Server,
}

/// A source route: the full ordered hop list, embedded by the sender, plus the
/// index of the hop the packet currently sits at. A correctly addressed packet
/// has `hops[hop_index]` equal to the receiving node's id; the index only ever
/// moves forward, except when a header is explicitly reversed to build a reply.
#[derive(Clone, Debug)]
pub struct RoutingHeader {
    pub hops: Vec<NodeId>,
    pub hop_index: usize,
}

/// Spec-level image of a [`RoutingHeader`].
#[verifier::ext_equal]
pub ghost struct HeaderView {
    pub hops: Seq<NodeId>,
    pub hop_index: int,
}

impl View for RoutingHeader {
    type V = HeaderView;

    open spec fn view(&self) -> HeaderView {
        HeaderView { hops: self.hops@, hop_index: self.hop_index as int }
    }
}

/// A bounded-size slice of a serialized message, individually addressed and
/// acknowledged. Indices run 0..total_n_fragments within one session.
#[derive(Clone, Debug)]
pub struct Fragment {
    pub fragment_index: u64,
    pub total_n_fragments: u64,
    pub data: Vec<u8>,
}

/// Spec-level image of a [`Fragment`].
#[verifier::ext_equal]
pub ghost struct FragmentView {
    pub fragment_index: u64,
    pub total_n_fragments: u64,
    pub data: Seq<u8>,
}

impl View for Fragment {
    type V = FragmentView;

    open spec fn view(&self) -> FragmentView {
        FragmentView {
            fragment_index: self.fragment_index,
            total_n_fragments: self.total_n_fragments,
            data: self.data@,
        }
    }
}

/// Positive acknowledgement of one fragment of a session.
#[derive(Clone, Copy, PartialEq, Eq, Structural, Debug)]
pub struct Ack {
    pub fragment_index: u64,
}

/// The specific delivery failure a NACK reports.
#[derive(Clone, Copy, PartialEq, Eq, Structural, Debug)]
pub enum NackType {
    /// The path crosses a node that its neighbor could not reach.
    ErrorInRouting(NodeId),
    /// The packet ran out of hops at a relay: terminal misrouting.
    DestinationIsDrone,
    /// Transient loss, not a topology fault.
    Dropped,
    /// `hops[hop_index]` named a different node than the one that received it.
    UnexpectedRecipient(NodeId),
}

/// Negative acknowledgement for one fragment.
#[derive(Clone, Copy, PartialEq, Eq, Structural, Debug)]
pub struct Nack {
    pub fragment_index: u64,
    pub nack_type: NackType,
}

/// Topology-discovery probe, propagated hop by hop; the trace accumulates the
/// (id, role) of every node it crossed.
#[derive(Clone, Debug)]
pub struct FloodRequest {
    pub flood_id: u64,
    pub initiator_id: NodeId,
    pub path_trace: Vec<(NodeId, NodeRole)>,
}

/// Answer to a flood request, carrying the accumulated trace back.
#[derive(Clone, Debug)]
pub struct FloodResponse {
    pub flood_id: u64,
    pub path_trace: Vec<(NodeId, NodeRole)>,
}

/// The five packet kinds carried on a link.
#[derive(Clone, Debug)]
pub enum PacketType {
    MsgFragment(Fragment),
    Ack(Ack),
    Nack(Nack),
    FloodRequest(FloodRequest),
    FloodResponse(FloodResponse),
}

/// Spec-level image of a [`PacketType`].
#[verifier::ext_equal]
pub ghost enum PacketTypeView {
    MsgFragment(FragmentView),
    Ack(Ack),
    Nack(Nack),
    FloodRequest { flood_id: u64, initiator_id: NodeId, path_trace: Seq<(NodeId, NodeRole)> },
    FloodResponse { flood_id: u64, path_trace: Seq<(NodeId, NodeRole)> },
}

impl View for PacketType {
    type V = PacketTypeView;

    open spec fn view(&self) -> PacketTypeView {
        match self {
            PacketType::MsgFragment(f) => PacketTypeView::MsgFragment(f@),
            PacketType::Ack(a) => PacketTypeView::Ack(*a),
            PacketType::Nack(n) => PacketTypeView::Nack(*n),
            PacketType::FloodRequest(r) => PacketTypeView::FloodRequest {
                flood_id: r.flood_id,
                initiator_id: r.initiator_id,
                path_trace: r.path_trace@,
            },
            PacketType::FloodResponse(r) => PacketTypeView::FloodResponse {
                flood_id: r.flood_id,
                path_trace: r.path_trace@,
            },
        }
    }
}

/// One wire unit: a source route, a session tag, and the payload kind.
#[derive(Clone, Debug)]
pub struct Packet {
    pub routing_header: RoutingHeader,
    pub session_id: u64,
    pub pack_type: PacketType,
}

/// Spec-level image of a [`Packet`].
#[verifier::ext_equal]
pub ghost struct PacketView {
    pub routing_header: HeaderView,
    pub session_id: u64,
    pub pack_type: PacketTypeView,
}

impl View for Packet {
    type V = PacketView;

    open spec fn view(&self) -> PacketView {
        PacketView {
            routing_header: self.routing_header@,
            session_id: self.session_id,
            pack_type: self.pack_type@,
        }
    }
}

/// Copies a vector of plain values element by element.
pub fn copy_vec<T: Copy>(v: &Vec<T>) -> (r: Vec<T>)
    ensures
        r@ == v@,
{
    let mut r: Vec<T> = Vec::new();
    let mut i: usize = 0;
    while i < v.len()
        invariant
            i <= v.len(),
            r@ =~= v@.subrange(0, i as int),
        decreases v.len() - i,
    {
        r.push(v[i]);
        i = i + 1;
    }
    assert(r@ =~= v@);
    r
}

/// Copies a vector of plain values in reverse order.
pub fn reverse_vec<T: Copy>(v: &Vec<T>) -> (r: Vec<T>)
    ensures
        r@ == v@.reverse(),
{
    let mut r: Vec<T> = Vec::new();
    let mut i: usize = v.len();
    while i > 0
        invariant
            i <= v.len(),
            r@.len() == v@.len() - i,
            forall|k: int| 0 <= k < r@.len() ==> r@[k] == v@[v@.len() - 1 - k],
        decreases i,
    {
        i = i - 1;
        r.push(v[i]);
    }
    assert(r@ =~= v@.reverse());
    r
}

impl RoutingHeader {
    /// Builds a header from a hop list and a starting index.
    pub fn new(hops: Vec<NodeId>, hop_index: usize) -> (r: RoutingHeader)
        ensures
            r@.hops == hops@,
            r@.hop_index == hop_index,
    {
        RoutingHeader { hops, hop_index }
    }

    /// The node the route starts from, if the route is not empty.
    pub fn source(&self) -> (r: Option<NodeId>)
        ensures
            self@.hops.len() == 0 ==> r is None,
            self@.hops.len() > 0 ==> r == Some(self@.hops[0]),
    {
        if self.hops.len() == 0 {
            None
        } else {
            Some(self.hops[0])
        }
    }

    /// The node the route ends at, if the route is not empty.
    pub fn destination(&self) -> (r: Option<NodeId>)
        ensures
            self@.hops.len() == 0 ==> r is None,
            self@.hops.len() > 0 ==> r == Some(self@.hops[self@.hops.len() - 1]),
    {
        if self.hops.len() == 0 {
            None
        } else {
            Some(self.hops[self.hops.len() - 1])
        }
    }

    /// The hop the packet currently sits at, if the index is in range.
    pub fn current_hop(&self) -> (r: Option<NodeId>)
        ensures
            self@.hop_index < self@.hops.len() ==> r == Some(self@.hops[self@.hop_index]),
            self@.hop_index >= self@.hops.len() ==> r is None,
    {
        if self.hop_index < self.hops.len() {
            Some(self.hops[self.hop_index])
        } else {
            None
        }
    }

    /// Moves the packet one hop forward along the route.
    pub fn advance(&mut self)
        requires
            old(self)@.hop_index < old(self)@.hops.len(),
        ensures
            final(self)@.hops == old(self)@.hops,
            final(self)@.hop_index == old(self)@.hop_index + 1,
    {
        let n = self.hops.len();
        assert(self.hop_index < n);
        self.hop_index = self.hop_index + 1;
    }

    /// The whole route turned around, positioned at its first forward hop:
    /// the reply route from this end of the path back to the other.
    pub fn reversed(&self) -> (r: RoutingHeader)
        ensures
            r@.hops == self@.hops.reverse(),
            r@.hop_index == 1,
    {
        RoutingHeader { hops: reverse_vec(&self.hops), hop_index: 1 }
    }

    /// The already-traversed prefix of the route (`upto` hops), turned around:
    /// the reply route from the node at position `upto - 1` back to the source.
    pub fn reverse_prefix(&self, upto: usize) -> (r: RoutingHeader)
        requires
            upto <= self@.hops.len(),
        ensures
            r@.hops == self@.hops.subrange(0, upto as int).reverse(),
            r@.hop_index == 1,
    {
        let mut prefix: Vec<NodeId> = Vec::new();
        let mut i: usize = 0;
        while i < upto
            invariant
                i <= upto,
                upto <= self@.hops.len(),
                prefix@ =~= self@.hops.subrange(0, i as int),
            decreases upto - i,
        {
            prefix.push(self.hops[i]);
            i = i + 1;
        }
        assert(prefix@ =~= self@.hops.subrange(0, upto as int));
        RoutingHeader { hops: reverse_vec(&prefix), hop_index: 1 }
    }

    /// The reply route used by a node the route never named: the traversed
    /// prefix up to (excluding) `hop_index`, with this node's own id appended,
    /// turned around.
    pub fn unexpected_reply(&self, self_id: NodeId) -> (r: RoutingHeader)
        requires
            self@.hop_index <= self@.hops.len(),
        ensures
            r@.hops == self@.hops.subrange(0, self@.hop_index).push(self_id).reverse(),
            r@.hop_index == 1,
    {
        let mut prefix: Vec<NodeId> = Vec::new();
        let mut i: usize = 0;
        while i < self.hop_index
            invariant
                i <= self@.hop_index,
                self@.hop_index <= self@.hops.len(),
                prefix@ =~= self@.hops.subrange(0, i as int),
            decreases self@.hop_index - i,
        {
            prefix.push(self.hops[i]);
            i = i + 1;
        }
        prefix.push(self_id);
        assert(prefix@ =~= self@.hops.subrange(0, self@.hop_index).push(self_id));
        RoutingHeader { hops: reverse_vec(&prefix), hop_index: 1 }
    }

    /// A field-by-field copy whose view equals this header's view.
    pub fn duplicate(&self) -> (r: RoutingHeader)
        ensures
            r@ == self@,
    {
        RoutingHeader { hops: copy_vec(&self.hops), hop_index: self.hop_index }
    }
}

impl Fragment {
    /// A field-by-field copy whose view equals this fragment's view.
    pub fn duplicate(&self) -> (r: Fragment)
        ensures
            r@ == self@,
    {
        Fragment {
            fragment_index: self.fragment_index,
            total_n_fragments: self.total_n_fragments,
            data: copy_vec(&self.data),
        }
    }
}

impl PacketType {
    /// A field-by-field copy whose view equals this payload's view.
    pub fn duplicate(&self) -> (r: PacketType)
        ensures
            r@ == self@,
    {
        match self {
            PacketType::MsgFragment(f) => PacketType::MsgFragment(f.duplicate()),
            PacketType::Ack(a) => PacketType::Ack(*a),
            PacketType::Nack(n) => PacketType::Nack(*n),
            PacketType::FloodRequest(r) => PacketType::FloodRequest(FloodRequest {
                flood_id: r.flood_id,
                initiator_id: r.initiator_id,
                path_trace: copy_vec(&r.path_trace),
            }),
            PacketType::FloodResponse(r) => PacketType::FloodResponse(FloodResponse {
                flood_id: r.flood_id,
                path_trace: copy_vec(&r.path_trace),
            }),
        }
    }
}

impl Packet {
    /// A field-by-field copy whose view equals this packet's view.
    pub fn duplicate(&self) -> (r: Packet)
        ensures
            r@ == self@,
    {
        Packet {
            routing_header: self.routing_header.duplicate(),
            session_id: self.session_id,
            pack_type: self.pack_type.duplicate(),
        }
    }
}

} // verus!
