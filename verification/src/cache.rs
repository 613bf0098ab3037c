//! The pending-fragment cache: one entry per in-flight (session, fragment)
//! pair, holding the last packet sent for it and the cumulative count of
//! delivery attempts charged against it.

use vstd::prelude::*;

use crate::packet::{Packet, PacketType, PacketView};

verus! {

/// One in-flight fragment: its key, the packet last sent for it, and its
/// cumulative retry counter.
#[derive(Debug)]
pub struct CacheEntry {
    pub session_id: u64,
    pub fragment_index: u64,
    pub packet: Packet,
    pub count: u64,
}

/// The cache of in-flight fragments, keyed by (session, fragment index).
#[derive(Debug)]
pub struct PacketCache {
    pub entries: Vec<CacheEntry>,
}

impl PacketCache {
    /// Whether an entry for this key is held.
    pub open spec fn has_entry(self, sid: u64, fi: u64) -> bool {
        exists|i: int|
            0 <= i < self.entries@.len() && self.entries@[i].session_id == sid
                && self.entries@[i].fragment_index == fi
    }

    /// The position of the entry for this key.
    pub open spec fn entry_index(self, sid: u64, fi: u64) -> int {
        choose|i: int|
            0 <= i < self.entries@.len() && self.entries@[i].session_id == sid
                && self.entries@[i].fragment_index == fi
    }

    /// The view of the packet held for this key.
    pub open spec fn stored_packet(self, sid: u64, fi: u64) -> PacketView
        recommends
            self.has_entry(sid, fi),
    {
        self.entries@[self.entry_index(sid, fi)].packet@
    }

    /// The retry counter held for this key.
    pub open spec fn stored_count(self, sid: u64, fi: u64) -> u64
        recommends
            self.has_entry(sid, fi),
    {
        self.entries@[self.entry_index(sid, fi)].count
    }

    /// Keys are unique, and every entry holds a fragment-carrying packet
    /// whose session and fragment index are the entry's own key.
    pub open spec fn wf(self) -> bool {
        &&& forall|i: int, j: int|
            0 <= i < j < self.entries@.len() ==> !(self.entries@[i].session_id
                == self.entries@[j].session_id && self.entries@[i].fragment_index
                == self.entries@[j].fragment_index)
        &&& forall|i: int|
            0 <= i < self.entries@.len() ==> ((#[trigger] self.entries@[i]).packet@.pack_type
                is MsgFragment && self.entries@[i].packet@.pack_type->MsgFragment_0.fragment_index
                == self.entries@[i].fragment_index && self.entries@[i].packet@.session_id
                == self.entries@[i].session_id)
    }

    /// Every other key's entry is untouched.
    pub open spec fn same_other_entries(pre: Self, post: Self, sid: u64, fi: u64) -> bool {
        forall|s2: u64, f2: u64|
            !(s2 == sid && f2 == fi) ==> (#[trigger] post.has_entry(s2, f2) == pre.has_entry(
                s2,
                f2,
            ) && (pre.has_entry(s2, f2) ==> post.stored_packet(s2, f2) == pre.stored_packet(s2, f2)
                && post.stored_count(s2, f2) == pre.stored_count(s2, f2)))
    }

    /// Under [`Self::wf`], the entry position of a held key is unique and in
    /// range.
    pub proof fn lemma_entry_index(self, sid: u64, fi: u64)
        requires
            self.wf(),
            self.has_entry(sid, fi),
        ensures
            0 <= self.entry_index(sid, fi) < self.entries@.len(),
            self.entries@[self.entry_index(sid, fi)].session_id == sid,
            self.entries@[self.entry_index(sid, fi)].fragment_index == fi,
            forall|i: int|
                0 <= i < self.entries@.len() && self.entries@[i].session_id == sid
                    && self.entries@[i].fragment_index == fi ==> i == self.entry_index(sid, fi),
    {
    }

    /// An empty cache.
    pub fn new() -> (r: PacketCache)
        ensures
            r.wf(),
            forall|sid: u64, fi: u64| !r.has_entry(sid, fi),
    {
        PacketCache { entries: Vec::new() }
    }

    /// The position of the entry for this key, if held.
    fn find_entry(&self, sid: u64, fi: u64) -> (r: Option<usize>)
        requires
            self.wf(),
        ensures
            r matches Some(i) ==> self.has_entry(sid, fi) && i as int == self.entry_index(
                sid,
                fi,
            ),
            r is None ==> !self.has_entry(sid, fi),
    {
        let mut i: usize = 0;
        while i < self.entries.len()
            invariant
                self.wf(),
                i <= self.entries@.len(),
                forall|j: int|
                    0 <= j < i ==> !((#[trigger] self.entries@[j]).session_id == sid
                        && self.entries@[j].fragment_index == fi),
            decreases self.entries@.len() - i,
        {
            if self.entries[i].session_id == sid && self.entries[i].fragment_index == fi {
                proof {
                    self.lemma_entry_index(sid, fi);
                }
                return Some(i);
            }
            i = i + 1;
        }
        None
    }

    /// Records the packet under an explicit retry counter: the entry for the
    /// packet's (session, fragment) key is created or overwritten with this
    /// packet and this counter. Used when a rerouted packet replaces the
    /// stored one while keeping its cumulative counter. A packet that carries
    /// no fragment has no key and is ignored.
    pub fn reinsert(&mut self, packet: Packet, count: u64)
        requires
            old(self).wf(),
        ensures
            final(self).wf(),
            !(old(self).is_fragment_packet(packet@)) ==> *final(self) == *old(self),
            old(self).is_fragment_packet(packet@) ==> {
                let sid = packet@.session_id;
                let fi = old(self).fragment_key(packet@);
                &&& final(self).has_entry(sid, fi)
                &&& final(self).stored_packet(sid, fi) == packet@
                &&& final(self).stored_count(sid, fi) == count
                &&& Self::same_other_entries(*old(self), *final(self), sid, fi)
            },
    {
        let ghost pre = *self;
        let fragment_index = match &packet.pack_type {
            PacketType::MsgFragment(f) => f.fragment_index,
            _ => {
                return ;
            },
        };
        let sid = packet.session_id;
        let _entry_count = self.entries.len();
        match self.find_entry(sid, fragment_index) {
            Some(i) => {
                self.entries.set(
                    i,
                    CacheEntry { session_id: sid, fragment_index, packet, count },
                );
                proof {
                    let ii = i as int;
                    assert forall|i2: int, j2: int|
                        0 <= i2 < j2 < self.entries@.len() implies !(self.entries@[i2].session_id
                        == self.entries@[j2].session_id && self.entries@[i2].fragment_index
                        == self.entries@[j2].fragment_index) by {
                        if i2 != ii && j2 != ii {
                            assert(self.entries@[i2] == pre.entries@[i2]);
                            assert(self.entries@[j2] == pre.entries@[j2]);
                        } else {
                            assert(pre.entries@[if i2 == ii {
                                i2
                            } else {
                                i2
                            }].session_id == pre.entries@[i2].session_id);
                        }
                    }
                    assert(self.wf());
                    assert(self.entries@[ii].session_id == sid && self.entries@[ii].fragment_index
                        == fragment_index);
                    assert(self.has_entry(sid, fragment_index));
                    self.lemma_entry_index(sid, fragment_index);
                    assert(self.entry_index(sid, fragment_index) == ii);
                    Self::lemma_same_others_update(pre, *self, sid, fragment_index, ii);
                }
            },
            None => {
                self.entries.push(CacheEntry { session_id: sid, fragment_index, packet, count });
                proof {
                    let n = pre.entries@.len() as int;
                    assert forall|i2: int, j2: int|
                        0 <= i2 < j2 < self.entries@.len() implies !(self.entries@[i2].session_id
                        == self.entries@[j2].session_id && self.entries@[i2].fragment_index
                        == self.entries@[j2].fragment_index) by {
                        if j2 == n {
                            assert(self.entries@[i2] == pre.entries@[i2]);
                            if self.entries@[i2].session_id == sid
                                && self.entries@[i2].fragment_index == fragment_index {
                                assert(pre.has_entry(sid, fragment_index));
                            }
                        }
                    }
                    assert(self.wf());
                    assert(self.entries@[n].session_id == sid);
                    assert(self.has_entry(sid, fragment_index));
                    self.lemma_entry_index(sid, fragment_index);
                    assert(self.entry_index(sid, fragment_index) == n);
                    Self::lemma_same_others_update(pre, *self, sid, fragment_index, n);
                }
            },
        }
    }

    /// Whether this packet carries a fragment and so has a cache key.
    pub open spec fn is_fragment_packet(self, pv: PacketView) -> bool {
        pv.pack_type is MsgFragment
    }

    /// The fragment index of a fragment-carrying packet.
    pub open spec fn fragment_key(self, pv: PacketView) -> u64
        recommends
            self.is_fragment_packet(pv),
    {
        pv.pack_type->MsgFragment_0.fragment_index
    }

    /// Entries at positions other than `ii` are untouched, so every other
    /// key reads back unchanged.
    proof fn lemma_same_others_update(pre: Self, post: Self, sid: u64, fi: u64, ii: int)
        requires
            pre.wf(),
            post.wf(),
            post.entries@.len() >= pre.entries@.len(),
            post.entries@.len() <= pre.entries@.len() + 1,
            0 <= ii < post.entries@.len(),
            post.entries@[ii].session_id == sid,
            post.entries@[ii].fragment_index == fi,
            forall|k: int|
                0 <= k < post.entries@.len() && k != ii ==> k < pre.entries@.len()
                    && post.entries@[k] == pre.entries@[k],
            ii < pre.entries@.len() ==> pre.entries@[ii].session_id == sid
                && pre.entries@[ii].fragment_index == fi,
        ensures
            Self::same_other_entries(pre, post, sid, fi),
    {
        assert forall|s2: u64, f2: u64|
            !(s2 == sid && f2 == fi) implies (#[trigger] post.has_entry(s2, f2) == pre.has_entry(
            s2,
            f2,
        ) && (pre.has_entry(s2, f2) ==> post.stored_packet(s2, f2) == pre.stored_packet(s2, f2)
            && post.stored_count(s2, f2) == pre.stored_count(s2, f2))) by {
            if pre.has_entry(s2, f2) {
                pre.lemma_entry_index(s2, f2);
                let i0 = pre.entry_index(s2, f2);
                assert(i0 != ii);
                assert(post.entries@[i0] == pre.entries@[i0]);
                assert(post.has_entry(s2, f2));
                post.lemma_entry_index(s2, f2);
                assert(post.entry_index(s2, f2) == i0);
            }
            if post.has_entry(s2, f2) {
                let i2 = choose|i2: int|
                    0 <= i2 < post.entries@.len() && post.entries@[i2].session_id == s2
                        && post.entries@[i2].fragment_index == f2;
                assert(i2 != ii);
                assert(pre.entries@[i2].session_id == s2);
            }
        }
    }

    /// Records or overwrites the entry for the packet's (session, fragment)
    /// key. A fresh key starts its retry counter at zero; an overwritten key
    /// keeps its counter, so retries accumulate across reinsertion. A packet
    /// that carries no fragment has no key and is ignored.
    pub fn insert(&mut self, packet: Packet)
        requires
            old(self).wf(),
        ensures
            final(self).wf(),
            !(old(self).is_fragment_packet(packet@)) ==> *final(self) == *old(self),
            old(self).is_fragment_packet(packet@) ==> {
                let sid = packet@.session_id;
                let fi = old(self).fragment_key(packet@);
                &&& final(self).has_entry(sid, fi)
                &&& final(self).stored_packet(sid, fi) == packet@
                &&& final(self).stored_count(sid, fi) == if old(self).has_entry(sid, fi) {
                    old(self).stored_count(sid, fi)
                } else {
                    0u64
                }
                &&& Self::same_other_entries(*old(self), *final(self), sid, fi)
            },
    {
        let fragment_index = match &packet.pack_type {
            PacketType::MsgFragment(f) => f.fragment_index,
            _ => {
                return ;
            },
        };
        let count = match self.find_entry(packet.session_id, fragment_index) {
            Some(i) => self.entries[i].count,
            None => 0,
        };
        self.reinsert(packet, count);
    }

    /// Reads the entry for this key without removing it, charging one more
    /// delivery attempt against it: the stored counter grows by one (it
    /// saturates at its maximum) and the returned pair carries the packet and
    /// the counter as just charged.
    pub fn get(&mut self, session_id: u64, fragment_index: u64) -> (r: Option<(Packet, u64)>)
        requires
            old(self).wf(),
        ensures
            final(self).wf(),
            r is None <==> !old(self).has_entry(session_id, fragment_index),
            r is None ==> *final(self) == *old(self),
            r matches Some(pair) ==> {
                let charged = if old(self).stored_count(session_id, fragment_index) == u64::MAX {
                    u64::MAX
                } else {
                    (old(self).stored_count(session_id, fragment_index) + 1) as u64
                };
                &&& pair.0@ == old(self).stored_packet(session_id, fragment_index)
                &&& pair.1 == charged
                &&& final(self).has_entry(session_id, fragment_index)
                &&& final(self).stored_packet(session_id, fragment_index) == old(
                    self,
                ).stored_packet(session_id, fragment_index)
                &&& final(self).stored_count(session_id, fragment_index) == charged
                &&& Self::same_other_entries(
                    *old(self),
                    *final(self),
                    session_id,
                    fragment_index,
                )
            },
    {
        let ghost pre = *self;
        let i = match self.find_entry(session_id, fragment_index) {
            Some(i) => i,
            None => {
                return None;
            },
        };
        let mut taken = CacheEntry {
            session_id: 0,
            fragment_index: 0,
            packet: Packet {
                routing_header: crate::packet::RoutingHeader { hops: Vec::new(), hop_index: 0 },
                session_id: 0,
                pack_type: PacketType::Ack(crate::packet::Ack { fragment_index: 0 }),
            },
            count: 0,
        };
        self.entries.set_and_swap(i, &mut taken);
        let charged = if taken.count == u64::MAX {
            u64::MAX
        } else {
            taken.count + 1
        };
        let copy = taken.packet.duplicate();
        let updated = CacheEntry {
            session_id: taken.session_id,
            fragment_index: taken.fragment_index,
            packet: taken.packet,
            count: charged,
        };
        self.entries.set(i, updated);
        proof {
            let ii = i as int;
            assert forall|i2: int, j2: int|
                0 <= i2 < j2 < self.entries@.len() implies !(self.entries@[i2].session_id
                == self.entries@[j2].session_id && self.entries@[i2].fragment_index
                == self.entries@[j2].fragment_index) by {
                if i2 != ii && j2 != ii {
                    assert(self.entries@[i2] == pre.entries@[i2]);
                    assert(self.entries@[j2] == pre.entries@[j2]);
                }
            }
            assert(self.wf());
            assert(self.entries@[ii].session_id == session_id
                && self.entries@[ii].fragment_index == fragment_index);
            assert(self.has_entry(session_id, fragment_index));
            self.lemma_entry_index(session_id, fragment_index);
            assert(self.entry_index(session_id, fragment_index) == ii);
            Self::lemma_same_others_update(pre, *self, session_id, fragment_index, ii);
        }
        Some((copy, charged))
    }

    /// Drops the entry for this key, reporting whether one was held: the
    /// guard against duplicate acknowledgements.
    pub fn remove(&mut self, session_id: u64, fragment_index: u64) -> (r: bool)
        requires
            old(self).wf(),
        ensures
            final(self).wf(),
            r == old(self).has_entry(session_id, fragment_index),
            !final(self).has_entry(session_id, fragment_index),
            Self::same_other_entries(*old(self), *final(self), session_id, fragment_index),
    {
        match self.remove_and_get(session_id, fragment_index) {
            Some(_) => true,
            None => false,
        }
    }

    /// Atomically drops and returns the entry for this key: the stored
    /// packet together with its cumulative retry counter.
    pub fn remove_and_get(&mut self, session_id: u64, fragment_index: u64) -> (r: Option<
        (Packet, u64),
    >)
        requires
            old(self).wf(),
        ensures
            final(self).wf(),
            r is None <==> !old(self).has_entry(session_id, fragment_index),
            r is None ==> *final(self) == *old(self),
            r matches Some(pair) ==> pair.0@ == old(self).stored_packet(session_id, fragment_index)
                && pair.1 == old(self).stored_count(session_id, fragment_index),
            !final(self).has_entry(session_id, fragment_index),
            Self::same_other_entries(*old(self), *final(self), session_id, fragment_index),
    {
        let ghost pre = *self;
        let i = match self.find_entry(session_id, fragment_index) {
            Some(i) => i,
            None => {
                return None;
            },
        };
        let ghost n = pre.entries@.len() as int;
        let ghost ii = i as int;
        let taken = self.entries.swap_remove(i);
        proof {
            assert(taken == pre.entries@[ii]);
            assert forall|k: int|
                0 <= k < self.entries@.len() implies #[trigger] self.entries@[k] == pre.entries@[
            if k == ii {
                n - 1
            } else {
                k
            }] by {}
            assert forall|i2: int, j2: int|
                0 <= i2 < j2 < self.entries@.len() implies !(self.entries@[i2].session_id
                == self.entries@[j2].session_id && self.entries@[i2].fragment_index
                == self.entries@[j2].fragment_index) by {
                let a0: int = if i2 == ii {
                    n - 1
                } else {
                    i2
                };
                let b0: int = if j2 == ii {
                    n - 1
                } else {
                    j2
                };
                assert(self.entries@[i2] == pre.entries@[a0]);
                assert(self.entries@[j2] == pre.entries@[b0]);
                assert(a0 != b0);
            }
            assert(self.wf());
            assert(!self.has_entry(session_id, fragment_index)) by {
                if self.has_entry(session_id, fragment_index) {
                    let i2 = choose|i2: int|
                        0 <= i2 < self.entries@.len() && self.entries@[i2].session_id == session_id
                            && self.entries@[i2].fragment_index == fragment_index;
                    let a0: int = if i2 == ii {
                        n - 1
                    } else {
                        i2
                    };
                    assert(self.entries@[i2] == pre.entries@[a0]);
                    assert(a0 == ii);
                    assert(false);
                }
            }
            assert forall|s2: u64, f2: u64|
                !(s2 == session_id && f2 == fragment_index) implies (#[trigger] self.has_entry(
                s2,
                f2,
            ) == pre.has_entry(s2, f2) && (pre.has_entry(s2, f2) ==> self.stored_packet(s2, f2)
                == pre.stored_packet(s2, f2) && self.stored_count(s2, f2) == pre.stored_count(
                s2,
                f2,
            ))) by {
                if pre.has_entry(s2, f2) {
                    pre.lemma_entry_index(s2, f2);
                    let i0 = pre.entry_index(s2, f2);
                    assert(i0 != ii);
                    let i2: int = if i0 == n - 1 {
                        ii
                    } else {
                        i0
                    };
                    assert(i2 < self.entries@.len()) by {
                        if i0 == n - 1 {
                            assert(ii < n - 1);
                        }
                    }
                    assert(self.entries@[i2] == pre.entries@[i0]);
                    assert(self.has_entry(s2, f2));
                    assert forall|i3: int|
                        0 <= i3 < self.entries@.len() && self.entries@[i3].session_id == s2
                            && self.entries@[i3].fragment_index == f2 implies i3 == i2 by {
                        let i4: int = if i3 == ii {
                            n - 1
                        } else {
                            i3
                        };
                        assert(self.entries@[i3] == pre.entries@[i4]);
                        assert(i4 == i0);
                    }
                    self.lemma_entry_index(s2, f2);
                    assert(self.entry_index(s2, f2) == i2);
                }
                if self.has_entry(s2, f2) {
                    let i2 = choose|i2: int|
                        0 <= i2 < self.entries@.len() && self.entries@[i2].session_id == s2
                            && self.entries@[i2].fragment_index == f2;
                    let a0: int = if i2 == ii {
                        n - 1
                    } else {
                        i2
                    };
                    assert(self.entries@[i2] == pre.entries@[a0]);
                    assert(pre.has_entry(s2, f2));
                }
            }
        }
        Some((taken.packet, taken.count))
    }
}

} // verus!
