//! Fragmentation and reassembly: an application message is sliced into
//! fixed-capacity fragments, and a per-(session, source) accumulator rebuilds
//! the message exactly once when every fragment index has arrived.

use vstd::prelude::*;

use crate::packet::{Fragment, NodeId};

verus! {

/// The fixed capacity of one fragment's payload, in bytes.
pub const FRAGMENT_CAPACITY: usize = 128;

/// How many fragments a message of `len` bytes is sliced into: at least one,
/// and otherwise the rounded-up quotient by the fragment capacity.
pub open spec fn fragment_count(len: int) -> int {
    if len <= 0 {
        1
    } else {
        (len + FRAGMENT_CAPACITY - 1) / FRAGMENT_CAPACITY as int
    }
}

/// The payload of fragment `i` of message `m`: the i-th capacity-sized slice,
/// shorter only at the end of the message.
pub open spec fn fragment_data(m: Seq<u8>, i: int) -> Seq<u8> {
    let start = i * FRAGMENT_CAPACITY;
    let end = if (i + 1) * FRAGMENT_CAPACITY <= m.len() {
        (i + 1) * FRAGMENT_CAPACITY
    } else {
        m.len() as int
    };
    m.subrange(start, end)
}

/// The fragment payloads of message `m`, in index order.
pub open spec fn fragment_seq(m: Seq<u8>) -> Seq<Seq<u8>> {
    Seq::new(fragment_count(m.len() as int) as nat, |i: int| fragment_data(m, i))
}

/// All chunks joined in order.
pub open spec fn concat_chunks(chunks: Seq<Seq<u8>>) -> Seq<u8>
    decreases chunks.len(),
{
    if chunks.len() == 0 {
        Seq::empty()
    } else {
        concat_chunks(chunks.drop_last()) + chunks.last()
    }
}

/// Joining the first `n` fragment payloads of `m` rebuilds the first
/// `min(n * capacity, len)` bytes of `m`.
proof fn lemma_concat_prefix(m: Seq<u8>, n: int)
    requires
        0 <= n <= fragment_count(m.len() as int),
    ensures
        concat_chunks(fragment_seq(m).take(n)) == m.subrange(
            0,
            if n * FRAGMENT_CAPACITY <= m.len() {
                n * FRAGMENT_CAPACITY as int
            } else {
                m.len() as int
            },
        ),
    decreases n,
{
    let cap = FRAGMENT_CAPACITY as int;
    if n == 0 {
        assert(fragment_seq(m).take(0) =~= Seq::<Seq<u8>>::empty());
        assert(m.subrange(0, 0) =~= Seq::<u8>::empty());
    } else {
        lemma_concat_prefix(m, n - 1);
        let pre = fragment_seq(m).take(n - 1);
        let cur = fragment_seq(m).take(n);
        assert(cur.drop_last() =~= pre);
        assert(cur.last() == fragment_data(m, n - 1));
        let prev_end: int = if (n - 1) * cap <= m.len() {
            (n - 1) * cap
        } else {
            m.len() as int
        };
        let this_end: int = if n * cap <= m.len() {
            n * cap
        } else {
            m.len() as int
        };
        // The (n-1)-th slice runs from prev_end to this_end.
        assert((n - 1) * cap <= m.len()) by {
            if n - 1 < fragment_count(m.len() as int) {
                if m.len() > 0 {
                    assert((fragment_count(m.len() as int) - 1) * cap < m.len()) by (nonlinear_arith)
                        requires
                            m.len() > 0,
                            fragment_count(m.len() as int) == (m.len() + cap - 1) / cap,
                            cap == 128,
                    ;
                    assert((n - 1) * cap <= (fragment_count(m.len() as int) - 1) * cap)
                        by (nonlinear_arith)
                        requires
                            n - 1 <= fragment_count(m.len() as int) - 1,
                            cap > 0,
                    ;
                }
            }
        }
        assert(fragment_data(m, n - 1) == m.subrange(prev_end, this_end));
        assert(m.subrange(0, prev_end) + m.subrange(prev_end, this_end) =~= m.subrange(
            0,
            this_end,
        ));
    }
}

/// Law: joining all fragment payloads of a message, in index order, rebuilds
/// the message exactly. Together with the reassembly contract this gives the
/// fragmentation round trip: feeding every fragment of `fragment_message(m)`
/// into a reassembler yields `m`.
pub proof fn lemma_fragmentation_round_trip(m: Seq<u8>)
    ensures
        concat_chunks(fragment_seq(m)) == m,
{
    let count = fragment_count(m.len() as int);
    let cap = FRAGMENT_CAPACITY as int;
    assert(count * cap >= m.len()) by {
        if m.len() > 0 {
            assert(((m.len() + cap - 1) / cap) * cap >= m.len()) by (nonlinear_arith)
                requires
                    m.len() > 0,
                    cap == 128,
            ;
        }
    }
    lemma_concat_prefix(m, count);
    assert(fragment_seq(m).take(count) =~= fragment_seq(m));
    assert(m.subrange(0, m.len() as int) =~= m);
}

/// The collected fragment payloads of one buffer, keyed by fragment index.
pub open spec fn frags_map(s: Seq<(u64, Vec<u8>)>) -> Map<u64, Seq<u8>>
    decreases s.len(),
{
    if s.len() == 0 {
        Map::empty()
    } else {
        frags_map(s.drop_last()).insert(s.last().0, s.last().1@)
    }
}

/// The payloads for indices `0 .. n` joined in order.
pub open spec fn gather(chunks: Map<u64, Seq<u8>>, n: int) -> Seq<u8>
    decreases n,
{
    if n <= 0 {
        Seq::empty()
    } else {
        gather(chunks, n - 1) + chunks[(n - 1) as u64]
    }
}

/// Under unique indices, the map built from a fragment list answers lookups
/// exactly as the list does.
proof fn lemma_frags_map_lookup(s: Seq<(u64, Vec<u8>)>, i: u64)
    requires
        forall|k1: int, k2: int| 0 <= k1 < k2 < s.len() ==> s[k1].0 != s[k2].0,
    ensures
        frags_map(s).contains_key(i) <==> exists|k: int| 0 <= k < s.len() && s[k].0 == i,
        frags_map(s).contains_key(i) ==> forall|k: int|
            0 <= k < s.len() && s[k].0 == i ==> frags_map(s)[i] == s[k].1@,
    decreases s.len(),
{
    if s.len() > 0 {
        let body = s.drop_last();
        lemma_frags_map_lookup(body, i);
        if s.last().0 == i {
            assert(s[s.len() - 1].0 == i);
        } else {
            if frags_map(s).contains_key(i) {
                let k = choose|k: int| 0 <= k < body.len() && body[k].0 == i;
                assert(s[k].0 == i);
            }
            if exists|k: int| 0 <= k < s.len() && s[k].0 == i {
                let k = choose|k: int| 0 <= k < s.len() && s[k].0 == i;
                assert(k < s.len() - 1);
                assert(body[k].0 == i);
            }
        }
    }
}

/// `gather` over a map agrees with joining the chunk sequence it denotes.
proof fn lemma_gather_eq_concat(chunks: Map<u64, Seq<u8>>, n: int)
    requires
        n >= 0,
    ensures
        gather(chunks, n) == concat_chunks(Seq::new(n as nat, |i: int| chunks[i as u64])),
    decreases n,
{
    let cs = Seq::new(n as nat, |i: int| chunks[i as u64]);
    if n > 0 {
        lemma_gather_eq_concat(chunks, n - 1);
        assert(cs.drop_last() =~= Seq::new((n - 1) as nat, |i: int| chunks[i as u64]));
        assert(cs.last() == chunks[(n - 1) as u64]);
    } else {
        assert(cs =~= Seq::<Seq<u8>>::empty());
    }
}

/// Law: a reassembly that has collected, for every index, exactly the
/// fragment payload of message `m`, yields `m` when joined in index order.
pub proof fn lemma_reassembled_message(chunks: Map<u64, Seq<u8>>, m: Seq<u8>)
    requires
        m.len() <= usize::MAX,
        forall|i: u64|
            (i as int) < fragment_count(m.len() as int) ==> #[trigger] chunks[i]
                == fragment_data(m, i as int),
    ensures
        gather(chunks, fragment_count(m.len() as int)) == m,
{
    let count = fragment_count(m.len() as int);
    lemma_gather_eq_concat(chunks, count);
    assert(Seq::new(count as nat, |i: int| chunks[i as u64]) =~= fragment_seq(m)) by {
        assert forall|i: int| 0 <= i < count implies chunks[i as u64] == fragment_data(m, i) by {
            let iu = i as u64;
            assert(iu as int == i);
            assert(chunks[iu] == fragment_data(m, iu as int));
        }
    }
    lemma_fragmentation_round_trip(m);
}

/// A copy of `v[start..end]`.
fn copy_range(v: &Vec<u8>, start: usize, end: usize) -> (r: Vec<u8>)
    requires
        start <= end <= v@.len(),
    ensures
        r@ == v@.subrange(start as int, end as int),
{
    let mut r: Vec<u8> = Vec::new();
    let mut i: usize = start;
    while i < end
        invariant
            start <= i <= end <= v@.len(),
            r@ =~= v@.subrange(start as int, i as int),
        decreases end - i,
    {
        r.push(v[i]);
        proof {
            assert(r@ =~= v@.subrange(start as int, i as int + 1));
        }
        i = i + 1;
    }
    proof {
        assert(r@ =~= v@.subrange(start as int, end as int));
    }
    r
}

/// Slices a serialized message into fragments of ascending index, each
/// carrying the total count and its capacity-sized share of the bytes; an
/// empty message becomes one empty fragment.
pub fn fragment_message(data: &Vec<u8>) -> (r: Vec<Fragment>)
    ensures
        r@.len() == fragment_count(data@.len() as int),
        forall|i: int|
            0 <= i < r@.len() ==> (#[trigger] r@[i])@.fragment_index == i
                && r@[i]@.total_n_fragments == r@.len() && r@[i]@.data == fragment_data(
                data@,
                i,
            ),
{
    let len = data.len();
    if len == 0 {
        let mut r: Vec<Fragment> = Vec::new();
        r.push(Fragment { fragment_index: 0, total_n_fragments: 1, data: Vec::new() });
        proof {
            assert(r@[0]@.data =~= fragment_data(data@, 0));
        }
        return r;
    }
    let total_count = (len - 1) / FRAGMENT_CAPACITY + 1;
    proof {
        assert(total_count == fragment_count(data@.len() as int)) by (nonlinear_arith)
            requires
                len == data@.len(),
                len >= 1,
                total_count == (len - 1) / 128 + 1,
                fragment_count(data@.len() as int) == (data@.len() + 127) / 128,
        ;
    }
    proof {
        assert((total_count - 1) * FRAGMENT_CAPACITY < len && total_count * FRAGMENT_CAPACITY
            >= len) by (nonlinear_arith)
            requires
                len >= 1,
                total_count == (len - 1) / 128 + 1,
                FRAGMENT_CAPACITY == 128,
        ;
    }
    let mut r: Vec<Fragment> = Vec::new();
    let mut idx: usize = 0;
    while idx < total_count
        invariant
            len == data@.len(),
            len >= 1,
            total_count == fragment_count(data@.len() as int),
            (total_count - 1) * FRAGMENT_CAPACITY < len,
            total_count * FRAGMENT_CAPACITY >= len,
            idx <= total_count,
            r@.len() == idx,
            forall|i: int|
                0 <= i < r@.len() ==> (#[trigger] r@[i])@.fragment_index == i
                    && r@[i]@.total_n_fragments == total_count && r@[i]@.data == fragment_data(
                    data@,
                    i,
                ),
        decreases total_count - idx,
    {
        let start = idx * FRAGMENT_CAPACITY;
        proof {
            assert(start < len) by (nonlinear_arith)
                requires
                    start == idx * FRAGMENT_CAPACITY,
                    idx <= total_count - 1,
                    (total_count - 1) * FRAGMENT_CAPACITY < len,
                    idx >= 0,
            ;
        }
        let end = if len - start > FRAGMENT_CAPACITY {
            start + FRAGMENT_CAPACITY
        } else {
            len
        };
        let chunk = copy_range(data, start, end);
        proof {
            assert(chunk@ == fragment_data(data@, idx as int));
        }
        r.push(
            Fragment {
                fragment_index: idx as u64,
                total_n_fragments: total_count as u64,
                data: chunk,
            },
        );
        idx = idx + 1;
    }
    proof {
        assert(total_count * FRAGMENT_CAPACITY >= len);
    }
    r
}

/// Whether a list of (session, source) pairs holds this pair.
pub(crate) fn contains_pair(v: &Vec<(u64, NodeId)>, sid: u64, src: NodeId) -> (r: bool)
    ensures
        r == v@.contains((sid, src)),
{
    let mut i: usize = 0;
    while i < v.len()
        invariant
            i <= v@.len(),
            forall|j: int| 0 <= j < i ==> v@[j] != (sid, src),
        decreases v@.len() - i,
    {
        if v[i].0 == sid && v[i].1 == src {
            proof {
                assert(v@[i as int] == (sid, src));
            }
            return true;
        }
        i = i + 1;
    }
    false
}

/// The position of the payload collected for `index`, if any.
fn find_frag(frags: &Vec<(u64, Vec<u8>)>, index: u64) -> (r: Option<usize>)
    ensures
        r matches Some(k) ==> (k as int) < frags@.len() && frags@[k as int].0 == index,
        r is None ==> forall|k: int| 0 <= k < frags@.len() ==> frags@[k].0 != index,
{
    let mut i: usize = 0;
    while i < frags.len()
        invariant
            i <= frags@.len(),
            forall|j: int| 0 <= j < i ==> frags@[j].0 != index,
        decreases frags@.len() - i,
    {
        if frags[i].0 == index {
            return Some(i);
        }
        i = i + 1;
    }
    None
}

/// Whether this fragment view is the true fragment of message `m` at its
/// own index.
pub open spec fn is_fragment_of(fv: crate::packet::FragmentView, m: Seq<u8>) -> bool {
    &&& fv.total_n_fragments == fragment_count(m.len() as int)
    &&& (fv.fragment_index as int) < fragment_count(m.len() as int)
    &&& fv.data == fragment_data(m, fv.fragment_index as int)
}

/// Whether every collected chunk is the true slice of message `m` at its
/// index.
pub open spec fn chunks_of_message(c: Map<u64, Seq<u8>>, m: Seq<u8>) -> bool {
    forall|i: u64|
        #[trigger] c.contains_key(i) ==> (i as int) < fragment_count(m.len() as int) && c[i]
            == fragment_data(m, i as int)
}

/// One per-(session, source) fragment accumulator.
#[derive(Debug)]
pub struct ReassemblyBuffer {
    pub session_id: u64,
    pub source: NodeId,
    pub total: u64,
    pub frags: Vec<(u64, Vec<u8>)>,
}

impl ReassemblyBuffer {
    /// Indices are unique, below the announced total, and the total is
    /// positive.
    pub open spec fn wf(self) -> bool {
        &&& self.total >= 1
        &&& forall|k: int| 0 <= k < self.frags@.len() ==> (#[trigger] self.frags@[k]).0 < self.total
        &&& forall|k1: int, k2: int|
            0 <= k1 < k2 < self.frags@.len() ==> self.frags@[k1].0 != self.frags@[k2].0
    }

    /// The collected payloads, keyed by fragment index.
    pub open spec fn chunks(self) -> Map<u64, Seq<u8>> {
        frags_map(self.frags@)
    }
}

/// The reassembly engine: one buffer per (session, source) pair still being
/// collected, and the pairs already consumed, so that a buffer yields its
/// message exactly once.
#[derive(Debug)]
pub struct Assembler {
    pub buffers: Vec<ReassemblyBuffer>,
    pub delivered: Vec<(u64, NodeId)>,
}

impl Assembler {
    /// Whether a buffer for this (session, source) pair is being collected.
    pub open spec fn has_buffer(self, sid: u64, src: NodeId) -> bool {
        exists|i: int|
            0 <= i < self.buffers@.len() && self.buffers@[i].session_id == sid
                && self.buffers@[i].source == src
    }

    /// The entry index of the buffer for this pair.
    pub open spec fn buf_index(self, sid: u64, src: NodeId) -> int {
        choose|i: int|
            0 <= i < self.buffers@.len() && self.buffers@[i].session_id == sid
                && self.buffers@[i].source == src
    }

    /// The announced fragment total of the buffer for this pair.
    pub open spec fn buffer_total(self, sid: u64, src: NodeId) -> u64
        recommends
            self.has_buffer(sid, src),
    {
        self.buffers@[self.buf_index(sid, src)].total
    }

    /// The payloads collected so far for this pair, keyed by fragment index.
    pub open spec fn buffer_chunks(self, sid: u64, src: NodeId) -> Map<u64, Seq<u8>>
        recommends
            self.has_buffer(sid, src),
    {
        self.buffers@[self.buf_index(sid, src)].chunks()
    }

    /// Whether this pair's message has already been handed out.
    pub open spec fn delivered_contains(self, sid: u64, src: NodeId) -> bool {
        self.delivered@.contains((sid, src))
    }

    /// Buffer keys are unique and each buffer is well-formed.
    pub open spec fn wf(self) -> bool {
        &&& forall|i: int| 0 <= i < self.buffers@.len() ==> (#[trigger] self.buffers@[i]).wf()
        &&& forall|i: int, j: int|
            0 <= i < j < self.buffers@.len() ==> !(self.buffers@[i].session_id
                == self.buffers@[j].session_id && self.buffers@[i].source
                == self.buffers@[j].source)
    }

    /// Under [`Self::wf`], the entry index of a present buffer is unique and
    /// in range.
    pub proof fn lemma_buf_index(self, sid: u64, src: NodeId)
        requires
            self.wf(),
            self.has_buffer(sid, src),
        ensures
            0 <= self.buf_index(sid, src) < self.buffers@.len(),
            self.buffers@[self.buf_index(sid, src)].session_id == sid,
            self.buffers@[self.buf_index(sid, src)].source == src,
            forall|i: int|
                0 <= i < self.buffers@.len() && self.buffers@[i].session_id == sid
                    && self.buffers@[i].source == src ==> i == self.buf_index(sid, src),
    {
    }

    /// Whether the engine takes this fragment at all: the pair has not been
    /// consumed, the fragment's index lies below its announced total, and the
    /// total agrees with the buffer already being collected, if any.
    pub open spec fn accepts(self, fv: crate::packet::FragmentView, sid: u64, src: NodeId) -> bool {
        &&& !self.delivered_contains(sid, src)
        &&& fv.total_n_fragments >= 1
        &&& fv.fragment_index < fv.total_n_fragments
        &&& self.has_buffer(sid, src) ==> fv.total_n_fragments == self.buffer_total(sid, src)
    }

    /// The collected payloads after taking this fragment: a first payload for
    /// an index is kept, a repeated one is ignored.
    pub open spec fn updated_chunks(
        self,
        fv: crate::packet::FragmentView,
        sid: u64,
        src: NodeId,
    ) -> Map<u64, Seq<u8>> {
        let m = if self.has_buffer(sid, src) {
            self.buffer_chunks(sid, src)
        } else {
            Map::empty()
        };
        if m.contains_key(fv.fragment_index) {
            m
        } else {
            m.insert(fv.fragment_index, fv.data)
        }
    }

    /// Whether taking this fragment completes the pair's buffer: every index
    /// below the total has a payload.
    pub open spec fn completes(self, fv: crate::packet::FragmentView, sid: u64, src: NodeId) -> bool {
        forall|i: u64|
            i < fv.total_n_fragments ==> #[trigger] self.updated_chunks(
                fv,
                sid,
                src,
            ).contains_key(i)
    }

    /// Buffers for every other (session, source) pair are untouched.
    pub open spec fn same_other_buffers(pre: Self, post: Self, sid: u64, src: NodeId) -> bool {
        forall|s2: u64, n2: NodeId|
            !(s2 == sid && n2 == src) ==> (#[trigger] post.has_buffer(s2, n2) == pre.has_buffer(
                s2,
                n2,
            ) && (pre.has_buffer(s2, n2) ==> post.buffer_total(s2, n2) == pre.buffer_total(s2, n2)
                && post.buffer_chunks(s2, n2) == pre.buffer_chunks(s2, n2)))
    }

    /// An engine with no buffers and nothing delivered.
    pub fn new() -> (r: Assembler)
        ensures
            r.wf(),
            forall|sid: u64, src: NodeId| !r.has_buffer(sid, src),
            forall|sid: u64, src: NodeId| !r.delivered_contains(sid, src),
    {
        Assembler { buffers: Vec::new(), delivered: Vec::new() }
    }

    /// The entry index of the buffer for this pair, if one is being collected.
    fn find_buffer(&self, sid: u64, src: NodeId) -> (r: Option<usize>)
        requires
            self.wf(),
        ensures
            r matches Some(b) ==> self.has_buffer(sid, src) && b as int == self.buf_index(
                sid,
                src,
            ),
            r is None ==> !self.has_buffer(sid, src),
    {
        let mut i: usize = 0;
        while i < self.buffers.len()
            invariant
                self.wf(),
                i <= self.buffers@.len(),
                forall|j: int|
                    0 <= j < i ==> !((#[trigger] self.buffers@[j]).session_id == sid
                        && self.buffers@[j].source == src),
            decreases self.buffers@.len() - i,
        {
            if self.buffers[i].session_id == sid && self.buffers[i].source == src {
                proof {
                    self.lemma_buf_index(sid, src);
                }
                return Some(i);
            }
            i = i + 1;
        }
        None
    }

    /// Accumulates one received fragment for its (session, source) pair.
    /// The first fragment of a pair opens its buffer; a repeated index is
    /// ignored; when every index below the announced total has arrived, the
    /// joined message is returned exactly once and the pair is marked
    /// consumed. A fragment for a consumed pair, one whose index is out of
    /// range, or one whose total disagrees with the open buffer, is dropped
    /// and changes nothing.
    pub fn on_fragment_received(
        &mut self,
        fragment: &Fragment,
        session_id: u64,
        source: NodeId,
    ) -> (r: Option<Vec<u8>>)
        requires
            old(self).wf(),
        ensures
            final(self).wf(),
            !old(self).accepts(fragment@, session_id, source) ==> r is None && *final(self)
                == *old(self),
            old(self).accepts(fragment@, session_id, source) && old(self).completes(
                fragment@,
                session_id,
                source,
            ) ==> {
                &&& r matches Some(msg) && msg@ == gather(
                    old(self).updated_chunks(fragment@, session_id, source),
                    fragment@.total_n_fragments as int,
                )
                &&& !final(self).has_buffer(session_id, source)
                &&& Self::same_other_buffers(*old(self), *final(self), session_id, source)
                &&& forall|x: u64, y: NodeId|
                    #[trigger] final(self).delivered_contains(x, y) <==> old(
                        self,
                    ).delivered_contains(x, y) || (x == session_id && y == source)
            },
            old(self).accepts(fragment@, session_id, source) && !old(self).completes(
                fragment@,
                session_id,
                source,
            ) ==> {
                &&& r is None
                &&& final(self).has_buffer(session_id, source)
                &&& final(self).buffer_total(session_id, source) == fragment@.total_n_fragments
                &&& final(self).buffer_chunks(session_id, source) == old(self).updated_chunks(
                    fragment@,
                    session_id,
                    source,
                )
                &&& Self::same_other_buffers(*old(self), *final(self), session_id, source)
                &&& final(self).delivered@ == old(self).delivered@
            },
    {
        let ghost pre = *self;
        let ghost fv = fragment@;
        if contains_pair(&self.delivered, session_id, source) {
            return None;
        }
        let total = fragment.total_n_fragments;
        if total == 0 || fragment.fragment_index >= total {
            return None;
        }
        let buffer_count = self.buffers.len();
        let bidx = match self.find_buffer(session_id, source) {
            Some(b) => {
                if self.buffers[b].total != total {
                    return None;
                }
                b
            },
            None => {
                self.buffers.push(
                    ReassemblyBuffer { session_id, source, total, frags: Vec::new() },
                );
                proof {
                    let n = pre.buffers@.len() as int;
                    assert forall|s2: u64, n2: NodeId| #[trigger]
                        self.has_buffer(s2, n2) == (pre.has_buffer(s2, n2) || (s2 == session_id
                            && n2 == source)) by {
                        if pre.has_buffer(s2, n2) {
                            let i = pre.buf_index(s2, n2);
                            pre.lemma_buf_index(s2, n2);
                            assert(self.buffers@[i].session_id == s2);
                        }
                        if s2 == session_id && n2 == source {
                            assert(self.buffers@[n].session_id == s2 && self.buffers@[n].source
                                == n2);
                        }
                        if self.has_buffer(s2, n2) {
                            let i = choose|i: int|
                                0 <= i < self.buffers@.len() && self.buffers@[i].session_id == s2
                                    && self.buffers@[i].source == n2;
                            if i < n {
                                assert(pre.buffers@[i].session_id == s2);
                            }
                        }
                    }
                    assert forall|i: int, j: int|
                        0 <= i < j < self.buffers@.len() implies !(self.buffers@[i].session_id
                        == self.buffers@[j].session_id && self.buffers@[i].source
                        == self.buffers@[j].source) by {
                        if j == n {
                            assert(pre.buffers@[i] == self.buffers@[i]);
                            if self.buffers@[i].session_id == session_id && self.buffers@[i].source
                                == source {
                                assert(pre.has_buffer(session_id, source));
                            }
                        }
                    }
                    assert(self.wf());
                    self.lemma_buf_index(session_id, source);
                    assert(self.buf_index(session_id, source) == n);
                    assert(self.buffer_chunks(session_id, source) =~= Map::<u64, Seq<u8>>::empty());
                }
                buffer_count
            },
        };
        let ghost mid = *self;
        proof {
            mid.lemma_buf_index(session_id, source);
            assert(bidx as int == mid.buf_index(session_id, source));
            assert(mid.buffer_total(session_id, source) == total);
            assert forall|s2: u64, n2: NodeId|
                !(s2 == session_id && n2 == source) implies (#[trigger] mid.has_buffer(s2, n2)
                == pre.has_buffer(s2, n2) && (pre.has_buffer(s2, n2) ==> mid.buffer_total(s2, n2)
                == pre.buffer_total(s2, n2) && mid.buffer_chunks(s2, n2) == pre.buffer_chunks(
                s2,
                n2,
            ))) by {
                if pre.has_buffer(s2, n2) {
                    pre.lemma_buf_index(s2, n2);
                    let i0 = pre.buf_index(s2, n2);
                    assert(mid.buffers@[i0] == pre.buffers@[i0]);
                    assert(mid.has_buffer(s2, n2));
                    mid.lemma_buf_index(s2, n2);
                    assert(mid.buf_index(s2, n2) == i0);
                }
                if mid.has_buffer(s2, n2) {
                    let i2 = choose|i2: int|
                        0 <= i2 < mid.buffers@.len() && mid.buffers@[i2].session_id == s2
                            && mid.buffers@[i2].source == n2;
                    if i2 < pre.buffers@.len() {
                        assert(pre.buffers@[i2].session_id == s2 && pre.buffers@[i2].source == n2);
                    }
                }
            }
            assert(Self::same_other_buffers(pre, mid, session_id, source));
            assert(mid.buffer_chunks(session_id, source) == if pre.has_buffer(session_id, source) {
                pre.buffer_chunks(session_id, source)
            } else {
                Map::<u64, Seq<u8>>::empty()
            });
        }
        let mut entry = ReassemblyBuffer {
            session_id: 0,
            source: 0,
            total: 1,
            frags: Vec::new(),
        };
        self.buffers.set_and_swap(bidx, &mut entry);
        proof {
            assert(entry == mid.buffers@[bidx as int]);
        }
        let already = match find_frag(&entry.frags, fragment.fragment_index) {
            Some(_) => true,
            None => false,
        };
        if !already {
            let ghost old_frags = entry.frags@;
            entry.frags.push((fragment.fragment_index, crate::packet::copy_vec(&fragment.data)));
            proof {
                assert(entry.frags@.drop_last() =~= old_frags);
                assert(entry.frags@.last().0 == fv.fragment_index);
                assert(entry.frags@.last().1@ == fv.data);
                assert(entry.chunks() == frags_map(old_frags).insert(fv.fragment_index, fv.data));
            }
        }
        proof {
            lemma_frags_map_lookup(mid.buffers@[bidx as int].frags@, fv.fragment_index);
            assert(entry.chunks() == pre.updated_chunks(fv, session_id, source));
            assert(entry.wf());
            assert(entry.session_id == session_id && entry.source == source && entry.total
                == total);
        }
        // Try to join the message: walk the indices upward and stop at the
        // first one still missing.
        let mut msg: Vec<u8> = Vec::new();
        let mut i: u64 = 0;
        let mut filled = true;
        while i < total && filled
            invariant
                entry.wf(),
                entry.total == total,
                i <= total,
                filled ==> msg@ == gather(entry.chunks(), i as int),
                filled ==> forall|j: u64| j < i ==> entry.chunks().contains_key(j),
                !filled ==> i >= 1 && !entry.chunks().contains_key((i - 1) as u64),
            decreases total - i,
        {
            match find_frag(&entry.frags, i) {
                Some(k) => {
                    let mut part = copy_range(&entry.frags[k].1, 0, entry.frags[k].1.len());
                    proof {
                        lemma_frags_map_lookup(entry.frags@, i);
                        assert(part@ =~= entry.frags@[k as int].1@);
                        assert(entry.chunks()[i] == entry.frags@[k as int].1@);
                    }
                    msg.append(&mut part);
                },
                None => {
                    proof {
                        lemma_frags_map_lookup(entry.frags@, i);
                        assert(!entry.chunks().contains_key(i));
                    }
                    filled = false;
                },
            }
            i = i + 1;
        }
        if filled {
            proof {
                assert(i == total);
                assert(pre.completes(fv, session_id, source));
            }
            self.buffers.swap_remove(bidx);
            self.delivered.push((session_id, source));
            proof {
                let n2 = mid.buffers@.len() as int;
                let bi = bidx as int;
                assert forall|s2: u64, y2: NodeId|
                    !(s2 == session_id && y2 == source) implies (#[trigger] self.has_buffer(s2, y2)
                    == pre.has_buffer(s2, y2) && (pre.has_buffer(s2, y2) ==> self.buffer_total(
                    s2,
                    y2,
                ) == pre.buffer_total(s2, y2) && self.buffer_chunks(s2, y2) == pre.buffer_chunks(
                    s2,
                    y2,
                ))) by {
                    if pre.has_buffer(s2, y2) {
                        pre.lemma_buf_index(s2, y2);
                        let i0 = pre.buf_index(s2, y2);
                        assert(i0 != bi);
                        let i2: int = if i0 == n2 - 1 {
                            bi
                        } else {
                            i0
                        };
                        assert(self.buffers@[i2] == mid.buffers@[i0]);
                        assert(mid.buffers@[i0] == pre.buffers@[i0]);
                        assert(self.has_buffer(s2, y2));
                        assert forall|i3: int|
                            0 <= i3 < self.buffers@.len() && self.buffers@[i3].session_id == s2
                                && self.buffers@[i3].source == y2 implies i3 == i2 by {
                            let i4: int = if i3 == bi {
                                n2 - 1
                            } else {
                                i3
                            };
                            assert(self.buffers@[i3] == mid.buffers@[i4]);
                            assert(i4 == i0);
                        }
                        assert(self.buf_index(s2, y2) == i2);
                    }
                    if self.has_buffer(s2, y2) {
                        let i2 = choose|i2: int|
                            0 <= i2 < self.buffers@.len() && self.buffers@[i2].session_id == s2
                                && self.buffers@[i2].source == y2;
                        let i4: int = if i2 == bi {
                            n2 - 1
                        } else {
                            i2
                        };
                        assert(self.buffers@[i2] == mid.buffers@[i4]);
                        assert(mid.has_buffer(s2, y2));
                    }
                }
                assert(!self.has_buffer(session_id, source)) by {
                    if self.has_buffer(session_id, source) {
                        let i2 = choose|i2: int|
                            0 <= i2 < self.buffers@.len() && self.buffers@[i2].session_id
                                == session_id && self.buffers@[i2].source == source;
                        let i4: int = if i2 == bi {
                            n2 - 1
                        } else {
                            i2
                        };
                        assert(self.buffers@[i2] == mid.buffers@[i4]);
                        assert(mid.buffers@[i4].session_id == session_id && mid.buffers@[i4].source
                            == source);
                        assert(i4 == bi);
                        assert(false);
                    }
                }
                assert forall|i2: int, j2: int|
                    0 <= i2 < j2 < self.buffers@.len() implies !(self.buffers@[i2].session_id
                    == self.buffers@[j2].session_id && self.buffers@[i2].source
                    == self.buffers@[j2].source) by {
                    let a0: int = if i2 == bi {
                        n2 - 1
                    } else {
                        i2
                    };
                    let b0: int = if j2 == bi {
                        n2 - 1
                    } else {
                        j2
                    };
                    assert(self.buffers@[i2] == mid.buffers@[a0]);
                    assert(self.buffers@[j2] == mid.buffers@[b0]);
                    assert(a0 != b0);
                }
                assert forall|i2: int| 0 <= i2 < self.buffers@.len() implies (#[trigger]
                self.buffers@[i2]).wf() by {
                    let a0: int = if i2 == bi {
                        n2 - 1
                    } else {
                        i2
                    };
                    assert(self.buffers@[i2] == mid.buffers@[a0]);
                }
                assert(self.wf());
                broadcast use vstd::seq_lib::lemma_seq_contains_after_push;
            }
            return Some(msg);
        }
        self.buffers.set(bidx, entry);
        proof {
            assert(!pre.completes(fv, session_id, source)) by {
                let missing = (i - 1) as u64;
                assert(!entry.chunks().contains_key(missing));
                assert(!pre.updated_chunks(fv, session_id, source).contains_key(missing));
            }
            let bi = bidx as int;
            assert forall|s2: u64, y2: NodeId|
                !(s2 == session_id && y2 == source) implies (#[trigger] self.has_buffer(s2, y2)
                == pre.has_buffer(s2, y2) && (pre.has_buffer(s2, y2) ==> self.buffer_total(s2, y2)
                == pre.buffer_total(s2, y2) && self.buffer_chunks(s2, y2) == pre.buffer_chunks(
                s2,
                y2,
            ))) by {
                if pre.has_buffer(s2, y2) {
                    pre.lemma_buf_index(s2, y2);
                    let i0 = pre.buf_index(s2, y2);
                    assert(i0 != bi);
                    assert(self.buffers@[i0] == pre.buffers@[i0]);
                    assert(self.has_buffer(s2, y2));
                    assert forall|i3: int|
                        0 <= i3 < self.buffers@.len() && self.buffers@[i3].session_id == s2
                            && self.buffers@[i3].source == y2 implies i3 == i0 by {
                        if i3 == bi {
                            assert(self.buffers@[bi] == entry);
                        } else {
                            assert(self.buffers@[i3] == pre.buffers@[i3]);
                        }
                    }
                    assert(self.buf_index(s2, y2) == i0);
                }
                if self.has_buffer(s2, y2) {
                    let i2 = choose|i2: int|
                        0 <= i2 < self.buffers@.len() && self.buffers@[i2].session_id == s2
                            && self.buffers@[i2].source == y2;
                    assert(i2 != bi);
                    assert(pre.buffers@[i2].session_id == s2);
                }
            }
            assert forall|i2: int, j2: int|
                0 <= i2 < j2 < self.buffers@.len() implies !(self.buffers@[i2].session_id
                == self.buffers@[j2].session_id && self.buffers@[i2].source
                == self.buffers@[j2].source) by {
                if i2 != bi && j2 != bi {
                    assert(self.buffers@[i2] == pre.buffers@[i2]);
                    assert(self.buffers@[j2] == pre.buffers@[j2]);
                }
            }
            assert forall|i2: int| 0 <= i2 < self.buffers@.len() implies (#[trigger]
            self.buffers@[i2]).wf() by {
                if i2 != bi {
                    assert(self.buffers@[i2] == pre.buffers@[i2]);
                }
            }
            assert(self.wf());
            assert(self.buffers@[bi] == entry);
            assert(self.has_buffer(session_id, source));
            self.lemma_buf_index(session_id, source);
            assert(self.buf_index(session_id, source) == bi);
        }
        None
    }
}

/// A run of accepted, non-completing deliveries of fragments of `m` into
/// one fresh (session, source) buffer keeps every collected chunk the true
/// slice of `m` at its index, whatever the delivery order.
proof fn lemma_chunks_stay_of_message(
    states: Seq<Assembler>,
    frags: Seq<crate::packet::FragmentView>,
    m: Seq<u8>,
    sid: u64,
    src: NodeId,
    k: int,
)
    requires
        states.len() == frags.len() + 1,
        !states[0].has_buffer(sid, src),
        forall|j: int| 0 <= j < frags.len() ==> is_fragment_of(#[trigger] frags[j], m),
        forall|j: int|
            0 <= j < frags.len() ==> (#[trigger] states[j].accepts(frags[j], sid, src))
                && states[j + 1].has_buffer(sid, src) && states[j + 1].buffer_chunks(sid, src)
                == states[j].updated_chunks(frags[j], sid, src),
        0 <= k < states.len(),
        states[k].has_buffer(sid, src),
    ensures
        chunks_of_message(states[k].buffer_chunks(sid, src), m),
    decreases k,
{
    if k == 0 {
    } else {
        let prev = if states[k - 1].has_buffer(sid, src) {
            states[k - 1].buffer_chunks(sid, src)
        } else {
            Map::<u64, Seq<u8>>::empty()
        };
        if states[k - 1].has_buffer(sid, src) {
            lemma_chunks_stay_of_message(states, frags, m, sid, src, k - 1);
        }
        assert(chunks_of_message(prev, m));
        let fv = frags[k - 1];
        assert(states[k - 1].accepts(fv, sid, src));
        assert(states[k].buffer_chunks(sid, src) == states[k - 1].updated_chunks(fv, sid, src));
        assert(is_fragment_of(fv, m));
        assert forall|i: u64|
            #[trigger] states[k].buffer_chunks(sid, src).contains_key(i) implies (i as int)
            < fragment_count(m.len() as int) && states[k].buffer_chunks(sid, src)[i]
            == fragment_data(m, i as int) by {
            if !prev.contains_key(i) {
                assert(i == fv.fragment_index);
            }
        }
    }
}

/// Law: the fragmentation round trip holds in any delivery order. After a
/// run of accepted, non-completing deliveries of fragments of `m` into one
/// fresh (session, source) buffer, a further fragment of `m` that completes
/// the buffer yields exactly `m`.
pub proof fn lemma_round_trip_any_order(
    states: Seq<Assembler>,
    frags: Seq<crate::packet::FragmentView>,
    m: Seq<u8>,
    sid: u64,
    src: NodeId,
    last: crate::packet::FragmentView,
)
    requires
        m.len() <= usize::MAX,
        states.len() == frags.len() + 1,
        !states[0].has_buffer(sid, src),
        forall|j: int| 0 <= j < frags.len() ==> is_fragment_of(#[trigger] frags[j], m),
        forall|j: int|
            0 <= j < frags.len() ==> (#[trigger] states[j].accepts(frags[j], sid, src))
                && states[j + 1].has_buffer(sid, src) && states[j + 1].buffer_chunks(sid, src)
                == states[j].updated_chunks(frags[j], sid, src),
        is_fragment_of(last, m),
        states[states.len() - 1].completes(last, sid, src),
    ensures
        gather(
            states[states.len() - 1].updated_chunks(last, sid, src),
            last.total_n_fragments as int,
        ) == m,
{
    let n = states.len() - 1;
    let fin = states[n];
    let prev = if fin.has_buffer(sid, src) {
        fin.buffer_chunks(sid, src)
    } else {
        Map::<u64, Seq<u8>>::empty()
    };
    if fin.has_buffer(sid, src) {
        lemma_chunks_stay_of_message(states, frags, m, sid, src, n as int);
        assert(chunks_of_message(fin.buffer_chunks(sid, src), m));
    }
    assert(chunks_of_message(prev, m));
    let c = fin.updated_chunks(last, sid, src);
    let count = fragment_count(m.len() as int);
    assert forall|i: u64| (i as int) < count implies #[trigger] c[i] == fragment_data(
        m,
        i as int,
    ) by {
        assert(c.contains_key(i));
        if !prev.contains_key(i) {
            assert(i == last.fragment_index);
        }
    }
    lemma_reassembled_message(c, m);
    assert(last.total_n_fragments as int == count);
}

} // verus!
