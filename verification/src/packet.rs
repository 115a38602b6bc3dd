//! Packets travelling through the network, and the per-agent source that
//! originates them.
//!
//! A packet carries a hop budget (`ttl`) and the path of hops it has taken.
//! The relay protocol keeps every packet loop-free — no agent appears twice
//! on the path — and bounds the path length by the initial budget.

use vstd::prelude::*;

verus! {

/// Hop budget of every freshly originated packet.
pub const INITIAL_TTL: usize = 10;

/// One relay step: sender, receiver, and the time of the hand-over.
#[derive(Clone, Copy, Debug, PartialEq, Eq, Structural)]
pub struct Hop {
    pub from: usize,
    pub to: usize,
    pub time: u64,
}

/// A message relayed hop-by-hop, identified by `(source, id)`.
#[derive(Clone, Debug, PartialEq)]
pub struct Packet {
    id: usize,
    source: usize,
    ttl: usize,
    path: Vec<Hop>,
}

impl Packet {
    pub closed spec fn spec_id(self) -> usize {
        self.id
    }

    pub closed spec fn spec_source(self) -> usize {
        self.source
    }

    pub closed spec fn spec_ttl(self) -> usize {
        self.ttl
    }

    pub closed spec fn spec_path(self) -> Seq<Hop> {
        self.path@
    }

    /// Whether `node` already took part in this packet's journey, as its
    /// origin or as the receiver of some hop.
    pub open spec fn spec_in_path(self, node: usize) -> bool {
        self.spec_source() == node || exists|i: int|
            0 <= i < self.spec_path().len() && (#[trigger] self.spec_path()[i]).to == node
    }

    /// The last agent that held the packet: the receiver of the last hop, or
    /// the origin while the path is still empty.
    pub open spec fn spec_last_to(self) -> usize {
        if self.spec_path().len() == 0 {
            self.spec_source()
        } else {
            self.spec_path().last().to
        }
    }

    /// The relay invariant of one packet:
    /// hops chain up from the origin; no agent receives the packet twice and
    /// it never returns to its origin; and the path spent exactly the hop
    /// budget the `ttl` no longer has, so the path length never exceeds
    /// `INITIAL_TTL`.
    pub open spec fn wf(self) -> bool {
        &&& self.spec_path().len() + self.spec_ttl() <= INITIAL_TTL
        &&& (self.spec_path().len() > 0 ==> self.spec_path()[0].from == self.spec_source())
        &&& (forall|i: int|
            0 <= i && i + 1 < self.spec_path().len() ==> (#[trigger] self.spec_path()[i + 1]).from
                == self.spec_path()[i].to)
        &&& (forall|i: int|
            0 <= i < self.spec_path().len() ==> (#[trigger] self.spec_path()[i]).to
                != self.spec_source())
        &&& (forall|i: int, j: int|
            0 <= i < j < self.spec_path().len() ==> (#[trigger] self.spec_path()[i]).to != (
            #[trigger] self.spec_path()[j]).to)
    }

    pub fn new(id: usize, source: usize, ttl: usize) -> (p: Self)
        ensures
            p.spec_id() == id,
            p.spec_source() == source,
            p.spec_ttl() == ttl,
            p.spec_path() == Seq::<Hop>::empty(),
            ttl <= INITIAL_TTL ==> p.wf(),
    {
        let p = Packet { id, source, ttl, path: Vec::new() };
        proof {
            assert(p.spec_path() =~= Seq::<Hop>::empty());
        }
        p
    }

    pub fn id(&self) -> (r: usize)
        ensures
            r == self.spec_id(),
    {
        self.id
    }

    pub fn source(&self) -> (r: usize)
        ensures
            r == self.spec_source(),
    {
        self.source
    }

    pub fn ttl(&self) -> (r: usize)
        ensures
            r == self.spec_ttl(),
    {
        self.ttl
    }

    pub fn path(&self) -> (r: &Vec<Hop>)
        ensures
            r@ == self.spec_path(),
    {
        &self.path
    }

    /// Whether `node` already appears on this packet's path (or is its
    /// origin).
    pub fn in_path(&self, node: usize) -> (r: bool)
        ensures
            r == self.spec_in_path(node),
    {
        if self.source == node {
            return true;
        }
        let n = self.path.len();
        let mut i: usize = 0;
        while i < n
            invariant
                n == self.spec_path().len(),
                i <= n,
                forall|k: int| 0 <= k < i ==> (#[trigger] self.spec_path()[k]).to != node,
            decreases n - i,
        {
            if self.path[i].to == node {
                return true;
            }
            i += 1;
        }
        false
    }

    /// Spend one unit of the hop budget.
    pub fn decrement_ttl(&mut self)
        requires
            old(self).spec_ttl() > 0,
        ensures
            final(self).spec_ttl() == old(self).spec_ttl() - 1,
            final(self).spec_id() == old(self).spec_id(),
            final(self).spec_source() == old(self).spec_source(),
            final(self).spec_path() == old(self).spec_path(),
    {
        self.ttl = self.ttl - 1;
    }

    /// Append the hop that brought the packet to `node`: the sender is the
    /// last agent that held the packet.
    pub fn add_hop(&mut self, node: usize, time: u64)
        ensures
            final(self).spec_path() == old(self).spec_path().push(
                Hop { from: old(self).spec_last_to(), to: node, time },
            ),
            final(self).spec_id() == old(self).spec_id(),
            final(self).spec_source() == old(self).spec_source(),
            final(self).spec_ttl() == old(self).spec_ttl(),
    {
        // append a new hop to the path list from previous node to current node
        let last = if self.path.len() == 0 {
            self.source
        } else {
            self.path[self.path.len() - 1].to
        };
        self.path.push(Hop { from: last, to: node, time });
    }

    /// An exact copy of the packet.
    pub fn duplicate(&self) -> (p: Packet)
        ensures
            p.spec_id() == self.spec_id(),
            p.spec_source() == self.spec_source(),
            p.spec_ttl() == self.spec_ttl(),
            p.spec_path() == self.spec_path(),
            p.wf() == self.wf(),
    {
        let n = self.path.len();
        let mut path: Vec<Hop> = Vec::new();
        let mut i: usize = 0;
        while i < n
            invariant
                n == self.path@.len(),
                i <= n,
                path@ == self.path@.take(i as int),
            decreases n - i,
        {
            path.push(self.path[i]);
            proof {
                assert(path@ =~= self.path@.take(i + 1));
            }
            i += 1;
        }
        proof {
            assert(path@ =~= self.path@);
        }
        Packet { id: self.id, source: self.source, ttl: self.ttl, path }
    }

    /// A packet that still has hop budget and has never visited `node`
    /// stays well formed when the budget is spent and the hop to `node` is
    /// recorded.
    pub proof fn lemma_hop_keeps_wf(pre: Packet, post: Packet, node: usize, time: u64)
        requires
            pre.wf(),
            pre.spec_ttl() > 0,
            !pre.spec_in_path(node),
            post.spec_source() == pre.spec_source(),
            post.spec_ttl() == pre.spec_ttl() - 1,
            post.spec_path() == pre.spec_path().push(
                Hop { from: pre.spec_last_to(), to: node, time },
            ),
        ensures
            post.wf(),
            post.spec_in_path(node),
    {
        let p0 = pre.spec_path();
        let p1 = post.spec_path();
        let new_hop = Hop { from: pre.spec_last_to(), to: node, time };
        assert(p1.len() == p0.len() + 1);
        assert(forall|i: int| 0 <= i < p0.len() ==> p1[i] == p0[i]);
        assert(p1[p0.len() as int] == new_hop);
        assert(node != pre.spec_source());
        assert(forall|k: int| 0 <= k < p0.len() ==> (#[trigger] p0[k]).to != node);
        assert forall|i: int| 0 <= i && i + 1 < p1.len() implies (#[trigger] p1[i + 1]).from
            == p1[i].to by {
            if i + 1 < p0.len() {
            } else {
                assert(i + 1 == p0.len());
                if p0.len() > 0 {
                    assert(p1[i] == p0[i]);
                    assert(new_hop.from == p0.last().to);
                    assert(p0.last() == p0[p0.len() - 1]);
                }
            }
        };
        assert forall|i: int, j: int| 0 <= i < j < p1.len() implies (#[trigger] p1[i]).to != (
        #[trigger] p1[j]).to by {
            if j < p0.len() {
            } else {
                assert(j == p0.len());
                assert(p1[i] == p0[i]);
                assert(p1[j].to == node);
            }
        };
    }
}

/// Whether a receiver accepts a packet: the packet has hop budget left and
/// the receiver has never held it.
pub open spec fn spec_accepts(p: Packet, node: usize) -> bool {
    !p.spec_in_path(node) && p.spec_ttl() > 0
}

/// `q` is `p` as delivered to `node`: one unit of hop budget paid, and the
/// hop to `node` recorded, at some time.
pub open spec fn spec_delivered(p: Packet, node: usize, q: Packet) -> bool {
    &&& q.spec_id() == p.spec_id()
    &&& q.spec_source() == p.spec_source()
    &&& q.spec_ttl() == p.spec_ttl() - 1
    &&& (exists|t: u64|
        q.spec_path() == p.spec_path().push((Hop { from: p.spec_last_to(), to: node, time: t })))
}

/// Law of packet loop-freedom: on a well-formed packet no agent id occurs
/// twice along the path — the origin is never a receiver, and no two hops
/// share a receiver.
pub proof fn lemma_packet_loop_free(p: Packet)
    requires
        p.wf(),
    ensures
        forall|i: int|
            0 <= i < p.spec_path().len() ==> (#[trigger] p.spec_path()[i]).to != p.spec_source(),
        forall|i: int, j: int|
            0 <= i < j < p.spec_path().len() ==> (#[trigger] p.spec_path()[i]).to != (
            #[trigger] p.spec_path()[j]).to,
{
}

/// Law of the packet ttl bound: a well-formed packet's path never grows
/// longer than the initial hop budget.
pub proof fn lemma_packet_path_bounded(p: Packet)
    requires
        p.wf(),
    ensures
        p.spec_path().len() <= INITIAL_TTL,
{
}

/// The per-agent origin of new packets: a stable id and a monotonic
/// sequence counter.
#[derive(Clone, Debug, PartialEq, Eq, Structural)]
pub struct PacketSource {
    id: usize,
    sequence_number: usize,
}

impl PacketSource {
    pub closed spec fn spec_id(self) -> usize {
        self.id
    }

    pub closed spec fn spec_sequence(self) -> usize {
        self.sequence_number
    }

    pub fn new(id: usize) -> (s: Self)
        ensures
            s.spec_id() == id,
            s.spec_sequence() == 0,
    {
        Self { id, sequence_number: 0 }
    }

    /// Originate a fresh packet: the next sequence number, this agent as
    /// source, a full hop budget, and an empty path.
    pub fn next(&mut self) -> (p: Packet)
        requires
            old(self).spec_sequence() < usize::MAX,
        ensures
            final(self).spec_id() == old(self).spec_id(),
            final(self).spec_sequence() == old(self).spec_sequence() + 1,
            p.spec_id() == final(self).spec_sequence(),
            p.spec_source() == old(self).spec_id(),
            p.spec_ttl() == INITIAL_TTL,
            p.spec_path() == Seq::<Hop>::empty(),
            p.wf(),
    {
        self.sequence_number = self.sequence_number + 1;
        Packet::new(self.sequence_number, self.id, INITIAL_TTL)
    }

    pub fn id(&self) -> (r: usize)
        ensures
            r == self.spec_id(),
    {
        self.id
    }

    pub fn sequence_number(&self) -> (r: usize)
        ensures
            r == self.spec_sequence(),
    {
        self.sequence_number
    }
}

} // verus!
