//! Communication clusters and the per-tick cluster formation protocol:
//! candidate selection by energy, greedy head election by mutual distance,
//! membership assignment to the nearest head, and hue continuity.

use vstd::prelude::*;

verus! {

use crate::entropy::rand_below;
use crate::quadtree::Point;
use crate::satellite::{SatelliteEnergy, SatelliteProperties, HUE_FULL_TURN};
use crate::settings::MAX_COORD;

/// One communication cluster: the elected head, and the ids of its
/// followers. The head is *not* listed among the members, so the cluster's
/// size is one more than the member count.
pub struct Cluster {
    head: usize,
    members: Vec<usize>,
    size: usize,
    color: u32,
}

impl Cluster {
    pub closed spec fn spec_head(self) -> usize {
        self.head
    }

    pub closed spec fn spec_members(self) -> Seq<usize> {
        self.members@
    }

    pub closed spec fn spec_size(self) -> usize {
        self.size
    }

    pub closed spec fn spec_color(self) -> u32 {
        self.color
    }

    /// The size counts the head and the members; the members are listed in
    /// strictly ascending id order (so none repeats, and none is the head);
    /// the hue is a valid angle.
    pub open spec fn wf(self) -> bool {
        &&& self.spec_size() == self.spec_members().len() + 1
        &&& self.spec_color() < HUE_FULL_TURN
        &&& (forall|i: int|
            0 <= i < self.spec_members().len() ==> (#[trigger] self.spec_members()[i])
                != self.spec_head())
        &&& (forall|i: int, j: int|
            0 <= i < j < self.spec_members().len() ==> (#[trigger] self.spec_members()[i]) < (
            #[trigger] self.spec_members()[j]))
    }

    /// A fresh cluster of one: the head alone, with a random hue.
    pub fn new(head: usize) -> (c: Self)
        ensures
            c.wf(),
            c.spec_head() == head,
            c.spec_members() == Seq::<usize>::empty(),
            c.spec_size() == 1,
    {
        let color = rand_below(HUE_FULL_TURN as u64) as u32;
        let c = Cluster { head, members: Vec::new(), size: 1, color };
        proof {
            assert(c.spec_members() =~= Seq::<usize>::empty());
        }
        c
    }

    pub fn head(&self) -> (r: usize)
        ensures
            r == self.spec_head(),
    {
        self.head
    }

    pub fn members(&self) -> (r: &Vec<usize>)
        ensures
            r@ == self.spec_members(),
    {
        &self.members
    }

    pub fn size(&self) -> (r: usize)
        ensures
            r == self.spec_size(),
    {
        self.size
    }

    pub fn color(&self) -> (r: u32)
        ensures
            r == self.spec_color(),
    {
        self.color
    }

    pub fn set_color(&mut self, color: u32)
        requires
            color < HUE_FULL_TURN,
        ensures
            final(self).spec_color() == color,
            final(self).spec_head() == old(self).spec_head(),
            final(self).spec_members() == old(self).spec_members(),
            final(self).spec_size() == old(self).spec_size(),
            old(self).wf() ==> final(self).wf(),
    {
        self.color = color;
    }

    /// Enlist a follower. Members arrive in ascending id order, so the new
    /// id must exceed every enlisted one, and must not be the head.
    pub fn add_member(&mut self, node: usize)
        requires
            old(self).wf(),
            node != old(self).spec_head(),
            forall|i: int|
                0 <= i < old(self).spec_members().len() ==> (#[trigger] old(self).spec_members()[i]) < node,
            old(self).spec_size() < usize::MAX,
        ensures
            final(self).wf(),
            final(self).spec_head() == old(self).spec_head(),
            final(self).spec_color() == old(self).spec_color(),
            final(self).spec_members() == old(self).spec_members().push(node),
            final(self).spec_size() == old(self).spec_size() + 1,
    {
        self.members.push(node);
        self.size = self.size + 1;
    }
}

/// The association from head id to cluster, in election order: exactly one
/// entry per elected head.
pub struct ClusterMap {
    clusters: Vec<Cluster>,
}

impl ClusterMap {
    pub closed spec fn spec_clusters(self) -> Seq<Cluster> {
        self.clusters@
    }

    /// The heads, in election order.
    pub open spec fn spec_heads(self) -> Seq<usize> {
        self.spec_clusters().map_values(|c: Cluster| c.spec_head())
    }

    pub open spec fn spec_has_head(self, id: usize) -> bool {
        exists|i: int|
            0 <= i < self.spec_clusters().len() && (#[trigger] self.spec_clusters()[i]).spec_head()
                == id
    }

    /// Every cluster is well formed and no two share a head.
    pub open spec fn wf(self) -> bool {
        &&& (forall|i: int|
            0 <= i < self.spec_clusters().len() ==> (#[trigger] self.spec_clusters()[i]).wf())
        &&& (forall|i: int, j: int|
            0 <= i < j < self.spec_clusters().len() ==> (#[trigger] self.spec_clusters()[i]).spec_head()
                != (#[trigger] self.spec_clusters()[j]).spec_head())
    }

    /// The hue of the cluster led by `id` — well defined because heads are
    /// unique.
    pub open spec fn spec_color_of(self, id: usize) -> u32
        recommends
            self.spec_has_head(id),
    {
        let i = choose|i: int|
            0 <= i < self.spec_clusters().len() && (#[trigger] self.spec_clusters()[i]).spec_head()
                == id;
        self.spec_clusters()[i].spec_color()
    }

    /// Cluster exclusivity: no id is a member of two clusters, and no head
    /// is a member of any cluster.
    pub open spec fn exclusive(self) -> bool {
        &&& (forall|a: int, b: int, k: int|
            0 <= a < self.spec_clusters().len() && 0 <= b < self.spec_clusters().len() && 0 <= k
                < self.spec_clusters()[b].spec_members().len() ==> (
            #[trigger] self.spec_clusters()[b].spec_members()[k]) != (
            #[trigger] self.spec_clusters()[a]).spec_head())
        &&& (forall|a: int, b: int, j: int, k: int|
            0 <= a < self.spec_clusters().len() && 0 <= b < self.spec_clusters().len() && a != b
                && 0 <= j < self.spec_clusters()[a].spec_members().len() && 0 <= k
                < self.spec_clusters()[b].spec_members().len() ==> (
            #[trigger] self.spec_clusters()[a].spec_members()[j]) != (
            #[trigger] self.spec_clusters()[b].spec_members()[k]))
    }

    pub fn new() -> (m: Self)
        ensures
            m.wf(),
            m.exclusive(),
            m.spec_clusters() == Seq::<Cluster>::empty(),
    {
        let m = ClusterMap { clusters: Vec::new() };
        proof {
            assert(m.spec_clusters() =~= Seq::<Cluster>::empty());
        }
        m
    }

    /// Record a freshly elected cluster. Heads are unique, so the new
    /// cluster's head must be new to the map.
    pub fn insert(&mut self, cluster: Cluster)
        requires
            old(self).wf(),
            cluster.wf(),
            !old(self).spec_has_head(cluster.spec_head()),
        ensures
            final(self).wf(),
            final(self).spec_clusters() == old(self).spec_clusters().push(cluster),
    {
        self.clusters.push(cluster);
        proof {
            let pre = old(self).spec_clusters();
            let post = self.spec_clusters();
            assert(post == pre.push(cluster));
            assert forall|i: int, j: int| 0 <= i < j < post.len() implies (
            #[trigger] post[i]).spec_head() != (#[trigger] post[j]).spec_head() by {
                if j < pre.len() {
                    assert(post[i] == pre[i] && post[j] == pre[j]);
                } else {
                    assert(post[j] == cluster);
                    assert(post[i] == pre[i]);
                }
            };
        }
    }

    /// The cluster led by `id`, if `id` is an elected head.
    pub fn get(&self, id: usize) -> (r: Option<&Cluster>)
        requires
            self.wf(),
        ensures
            r is Some <==> self.spec_has_head(id),
            r matches Some(c) ==> c.spec_head() == id && c.spec_color() == self.spec_color_of(id)
                && (exists|i: int|
                0 <= i < self.spec_clusters().len() && (#[trigger] self.spec_clusters()[i]) == *c),
    {
        let n = self.clusters.len();
        let mut i: usize = 0;
        while i < n
            invariant
                i <= n,
                n == self.spec_clusters().len(),
                self.wf(),
                forall|k: int|
                    0 <= k < i ==> (#[trigger] self.spec_clusters()[k]).spec_head() != id,
            decreases n - i,
        {
            if self.clusters[i].head() == id {
                proof {
                    let j = choose|j: int|
                        0 <= j < self.spec_clusters().len() && (
                        #[trigger] self.spec_clusters()[j]).spec_head() == id;
                    assert(self.spec_clusters()[i as int].spec_head() == id);
                    if j != i {
                        assert(self.spec_clusters()[j].spec_head() != self.spec_clusters()[
                            i as int
                        ].spec_head());
                        assert(false);
                    }
                }
                return Some(&self.clusters[i]);
            }
            i += 1;
        }
        None
    }

    /// Remove and return the cluster led by `id`, if any.
    pub fn remove(&mut self, id: usize) -> (r: Option<Cluster>)
        requires
            old(self).wf(),
        ensures
            final(self).wf(),
            r is Some <==> old(self).spec_has_head(id),
            !old(self).spec_has_head(id) ==> final(self).spec_clusters() == old(self).spec_clusters(),
            r matches Some(c) ==> c.spec_head() == id && (exists|i: int|
                0 <= i < old(self).spec_clusters().len() && old(self).spec_clusters()[i] == c
                    && final(self).spec_clusters() == old(self).spec_clusters().remove(i)),
    {
        let n = self.clusters.len();
        let mut i: usize = 0;
        while i < n
            invariant
                i <= n,
                n == self.spec_clusters().len(),
                self.spec_clusters() == old(self).spec_clusters(),
                old(self).wf(),
                forall|k: int|
                    0 <= k < i ==> (#[trigger] self.spec_clusters()[k]).spec_head() != id,
            decreases n - i,
        {
            if self.clusters[i].head() == id {
                let c = self.clusters.remove(i);
                proof {
                    let pre = old(self).spec_clusters();
                    pre.remove_ensures(i as int);
                    assert forall|a: int, b: int|
                        0 <= a < b < self.spec_clusters().len() implies (
                    #[trigger] self.spec_clusters()[a]).spec_head() != (
                    #[trigger] self.spec_clusters()[b]).spec_head() by {
                        if b < i {
                        } else if a < i {
                            assert(self.spec_clusters()[b] == pre[b + 1]);
                        } else {
                            assert(self.spec_clusters()[a] == pre[a + 1]);
                            assert(self.spec_clusters()[b] == pre[b + 1]);
                        }
                    };
                }
                return Some(c);
            }
            i += 1;
        }
        None
    }

    /// All clusters, in election order.
    pub fn clusters(&self) -> (r: &Vec<Cluster>)
        ensures
            r@ == self.spec_clusters(),
    {
        &self.clusters
    }
}

impl ClusterMap {
    /// Enlist `node` as a follower of the cluster led by `head`. Nodes are
    /// enlisted in ascending id order, each in at most one cluster, and a
    /// node that leads some cluster is never enlisted anywhere.
    #[verifier::loop_isolation(false)]
    pub fn add_member_to(&mut self, head: usize, node: usize)
        requires
            old(self).wf(),
            old(self).spec_has_head(head),
            node != head,
            forall|a: int|
                0 <= a < old(self).spec_clusters().len() ==> (#[trigger] old(self).spec_clusters()[a]).spec_head() != node,
            forall|a: int, k: int|
                0 <= a < old(self).spec_clusters().len() && 0 <= k < old(self).spec_clusters()[a].spec_members().len() ==> (#[trigger] old(self).spec_clusters()[a].spec_members()[k]) < node,
            forall|a: int|
                0 <= a < old(self).spec_clusters().len() ==> (#[trigger] old(self).spec_clusters()[a]).spec_size() < usize::MAX,
        ensures
            final(self).wf(),
            old(self).exclusive() ==> final(self).exclusive(),
            final(self).spec_clusters().len() == old(self).spec_clusters().len(),
            forall|a: int|
                0 <= a < old(self).spec_clusters().len() && (#[trigger] old(self).spec_clusters()[a]).spec_head() != head ==> final(self).spec_clusters()[a]
                    == old(self).spec_clusters()[a],
            forall|a: int|
                0 <= a < old(self).spec_clusters().len() && (#[trigger] old(self).spec_clusters()[a]).spec_head() == head ==> {
                    let post = final(self).spec_clusters()[a];
                    let pre = old(self).spec_clusters()[a];
                    &&& post.spec_head() == pre.spec_head()
                    &&& post.spec_color() == pre.spec_color()
                    &&& post.spec_members() == pre.spec_members().push(node)
                    &&& post.spec_size() == pre.spec_size() + 1
                },
    {
        let n = self.clusters.len();
        let mut i: usize = 0;
        while i < n
            invariant
                i <= n,
                n == self.spec_clusters().len(),
                self.spec_clusters() == old(self).spec_clusters(),
                old(self).wf(),
                old(self).spec_has_head(head),
                forall|k: int|
                    0 <= k < i ==> (#[trigger] self.spec_clusters()[k]).spec_head() != head,
            decreases n - i,
        {
            if self.clusters[i].head() == head {
                let mut taken = Cluster { head: 0, members: Vec::new(), size: 1, color: 0 };
                self.clusters.set_and_swap(i, &mut taken);
                proof {
                    assert(taken == old(self).spec_clusters()[i as int]);
                    assert forall|k: int|
                        0 <= k < taken.spec_members().len() implies (
                    #[trigger] taken.spec_members()[k]) < node by {
                        assert(old(self).spec_clusters()[i as int].spec_members()[k] < node);
                    };
                }
                taken.add_member(node);
                let ghost updated = taken;
                self.clusters.set_and_swap(i, &mut taken);
                proof {
                    let pre = old(self).spec_clusters();
                    let post = self.spec_clusters();
                    assert(post =~= pre.update(i as int, updated));
                    assert forall|a: int, b: int| 0 <= a < b < post.len() implies (
                    #[trigger] post[a]).spec_head() != (#[trigger] post[b]).spec_head() by {
                        assert(pre[a].spec_head() != pre[b].spec_head());
                    };
                    assert forall|a: int|
                        0 <= a < pre.len() && (#[trigger] pre[a]).spec_head() != head implies
                        post[a] == pre[a] by {
                        assert(a != i);
                    };
                }
                return ;
            }
            i += 1;
        }
        proof {
            assert(false);
        }
    }
}

/// The head candidates drawn from the ids at `k` and beyond: every id
/// whose energy strictly exceeds the threshold, in ascending order.
pub open spec fn spec_candidates_from(
    energies: Seq<SatelliteEnergy>,
    threshold: u32,
    k: int,
) -> Seq<usize>
    decreases energies.len() - k,
{
    if k < 0 || k >= energies.len() {
        Seq::empty()
    } else {
        let rest = spec_candidates_from(energies, threshold, k + 1);
        if energies[k].spec_energy() > threshold {
            seq![k as usize] + rest
        } else {
            rest
        }
    }
}

/// The head candidates: every agent whose energy strictly exceeds the
/// threshold, in ascending id order.
pub open spec fn spec_candidates(energies: Seq<SatelliteEnergy>, threshold: u32) -> Seq<usize> {
    spec_candidates_from(energies, threshold, 0)
}


/// Step one of cluster formation: the head candidates, in ascending id
/// order — every agent whose energy strictly exceeds the threshold.
#[verifier::loop_isolation(false)]
pub fn select_candidates(energies: &Vec<SatelliteEnergy>, threshold: u32) -> (cands: Vec<usize>)
    ensures
        cands@ == spec_candidates(energies@, threshold),
        forall|j: int|
            0 <= j < cands@.len() ==> (#[trigger] cands@[j]) < energies@.len()
                && energies@[cands@[j] as int].spec_energy() > threshold,
        forall|i2: int, j2: int|
            0 <= i2 < j2 < cands@.len() ==> (#[trigger] cands@[i2]) < (#[trigger] cands@[j2]),
        forall|idx: int|
            0 <= idx < energies@.len() && (#[trigger] energies@[idx].spec_energy()) > threshold
                ==> cands@.contains(idx as usize),
{
    let n = energies.len();
    let mut cands: Vec<usize> = Vec::new();
    let mut i: usize = 0;
    proof {
        assert(cands@ + spec_candidates_from(energies@, threshold, 0) =~= spec_candidates(
            energies@,
            threshold,
        ));
    }
    while i < n
        invariant
            i <= n,
            cands@ + spec_candidates_from(energies@, threshold, i as int) == spec_candidates(
                energies@,
                threshold,
            ),
            forall|j: int| 0 <= j < cands@.len() ==> (#[trigger] cands@[j]) < i,
            forall|j: int|
                0 <= j < cands@.len() ==> energies@[(#[trigger] cands@[j]) as int].spec_energy()
                    > threshold,
            forall|i2: int, j2: int|
                0 <= i2 < j2 < cands@.len() ==> (#[trigger] cands@[i2]) < (#[trigger] cands@[j2]),
            forall|idx: int|
                0 <= idx < i && (#[trigger] energies@[idx].spec_energy()) > threshold
                    ==> cands@.contains(idx as usize),
        decreases n - i,
    {
        let ghost pre = cands@;
        if energies[i].energy() > threshold {
            cands.push(i);
            proof {
                let rest = spec_candidates_from(energies@, threshold, i + 1);
                assert(spec_candidates_from(energies@, threshold, i as int) =~= seq![i as usize]
                    + rest);
                assert(cands@ + rest =~= pre + spec_candidates_from(
                    energies@,
                    threshold,
                    i as int,
                ));
                assert forall|idx: int|
                    0 <= idx < i + 1 && (#[trigger] energies@[idx].spec_energy())
                        > threshold implies cands@.contains(idx as usize) by {
                    if idx < i {
                        let j = choose|j: int| 0 <= j < pre.len() && pre[j] == idx as usize;
                        assert(cands@[j] == idx as usize);
                    } else {
                        assert(cands@[pre.len() as int] == i as usize);
                    }
                };
            }
        } else {
            proof {
                assert(spec_candidates_from(energies@, threshold, i as int)
                    == spec_candidates_from(energies@, threshold, i + 1));
            }
        }
        i += 1;
    }
    proof {
        assert(spec_candidates_from(energies@, threshold, n as int) =~= Seq::empty());
        assert(cands@ =~= spec_candidates(energies@, threshold));
    }
    cands
}

/// Separation of two agents: their squared distance reaches `dist2`.
pub open spec fn spec_sep(positions: Seq<Point>, a: usize, b: usize, dist2: int) -> bool {
    positions[a as int].spec_dist_sq(positions[b as int]) >= dist2
}

/// Greedy head election: take each candidate in order, accepting it
/// exactly when it keeps the required separation from every head accepted
/// before it.
pub open spec fn spec_greedy_heads(
    cands: Seq<usize>,
    positions: Seq<Point>,
    dist2: int,
    acc: Seq<usize>,
) -> Seq<usize>
    decreases cands.len(),
{
    if cands.len() == 0 {
        acc
    } else {
        let c = cands[0];
        let accepted = forall|h: int|
            0 <= h < acc.len() ==> spec_sep(positions, #[trigger] acc[h], c, dist2);
        spec_greedy_heads(
            cands.drop_first(),
            positions,
            dist2,
            if accepted {
                acc.push(c)
            } else {
                acc
            },
        )
    }
}

/// Step two of cluster formation: elect the heads greedily from the
/// ordered candidates. Elected heads are pairwise separated by at least
/// `cluster_distance` — compared squared, as everywhere in the core.
#[verifier::loop_isolation(false)]
pub fn elect_heads(
    candidates: &Vec<usize>,
    positions: &Vec<Point>,
    cluster_distance: i64,
) -> (heads: Vec<usize>)
    requires
        forall|k: int| 0 <= k < candidates@.len() ==> (#[trigger] candidates@[k]) < positions.len(),
        forall|i2: int, j2: int|
            0 <= i2 < j2 < candidates@.len() ==> (#[trigger] candidates@[i2]) < (
            #[trigger] candidates@[j2]),
        forall|i: int| 0 <= i < positions@.len() ==> (#[trigger] positions@[i]).in_range(),
        0 <= cluster_distance <= MAX_COORD,
    ensures
        heads@ == spec_greedy_heads(
            candidates@,
            positions@,
            cluster_distance * cluster_distance,
            Seq::empty(),
        ),
        forall|k: int| 0 <= k < heads@.len() ==> (#[trigger] heads@[k]) < positions.len(),
        forall|k: int| 0 <= k < heads@.len() ==> candidates@.contains(#[trigger] heads@[k]),
        forall|i2: int, j2: int|
            0 <= i2 < j2 < heads@.len() ==> (#[trigger] heads@[i2]) < (#[trigger] heads@[j2]),
        forall|a: int, b: int|
            0 <= a < heads@.len() && 0 <= b < heads@.len() && a != b ==> spec_sep(
                positions@,
                #[trigger] heads@[a],
                #[trigger] heads@[b],
                cluster_distance * cluster_distance,
            ),
{
    proof {
        assert(cluster_distance * cluster_distance <= MAX_COORD * MAX_COORD) by (nonlinear_arith)
            requires
                0 <= cluster_distance <= MAX_COORD;
    }
    let dd: i64 = cluster_distance * cluster_distance;
    let ghost d2 = cluster_distance * cluster_distance;
    let n = candidates.len();
    let mut heads: Vec<usize> = Vec::new();
    let mut i: usize = 0;
    proof {
        assert(candidates@.skip(0) =~= candidates@);
    }
    while i < n
        invariant
            i <= n,
            spec_greedy_heads(candidates@.skip(i as int), positions@, d2, heads@)
                == spec_greedy_heads(candidates@, positions@, d2, Seq::empty()),
            forall|k: int| 0 <= k < heads@.len() ==> (#[trigger] heads@[k]) < positions.len(),
            forall|k: int|
                0 <= k < heads@.len() ==> exists|m: int|
                    0 <= m < i && candidates@[m] == #[trigger] heads@[k],
            forall|i2: int, j2: int|
                0 <= i2 < j2 < heads@.len() ==> (#[trigger] heads@[i2]) < (#[trigger] heads@[j2]),
            forall|a: int, b: int|
                0 <= a < heads@.len() && 0 <= b < heads@.len() && a != b ==> spec_sep(
                    positions@,
                    #[trigger] heads@[a],
                    #[trigger] heads@[b],
                    d2,
                ),
        decreases n - i,
    {
        let c = candidates[i];
        let mut is_head = true;
        let mut h: usize = 0;
        let hn = heads.len();
        while h < hn
            invariant
                h <= hn,
                hn == heads@.len(),
                is_head == (forall|k: int|
                    0 <= k < h ==> spec_sep(positions@, #[trigger] heads@[k], c, d2)),
            decreases hn - h,
        {
            let d2v = positions[heads[h]].dist_sq(&positions[c]);
            if d2v < dd {
                is_head = false;
            }
            h += 1;
        }
        proof {
            assert(candidates@.skip(i as int).drop_first() =~= candidates@.skip(i + 1));
            assert(candidates@.skip(i as int)[0] == candidates@[i as int]);
        }
        if is_head {
            let ghost pre = heads@;
            heads.push(c);
            proof {
                assert forall|k: int|
                    0 <= k < heads@.len() implies exists|m: int|
                    0 <= m < i + 1 && candidates@[m] == #[trigger] heads@[k] by {
                    if k < pre.len() {
                        assert(heads@[k] == pre[k]);
                        let m = choose|m: int| 0 <= m < i && candidates@[m] == pre[k];
                        assert(candidates@[m] == heads@[k]);
                    } else {
                        assert(heads@[k] == candidates@[i as int]);
                    }
                };
                assert forall|i2: int, j2: int| 0 <= i2 < j2 < heads@.len() implies (
                #[trigger] heads@[i2]) < (#[trigger] heads@[j2]) by {
                    if j2 < pre.len() {
                    } else {
                        assert(heads@[j2] == c);
                        let m = choose|m: int| 0 <= m < i && candidates@[m] == pre[i2];
                        assert(candidates@[m] < candidates@[i as int]);
                    }
                };
                assert forall|a: int, b: int|
                    0 <= a < heads@.len() && 0 <= b < heads@.len() && a != b implies spec_sep(
                    positions@,
                    #[trigger] heads@[a],
                    #[trigger] heads@[b],
                    d2,
                ) by {
                    if a < pre.len() && b < pre.len() {
                    } else if b == pre.len() as int {
                        assert(spec_sep(positions@, pre[a], c, d2));
                    } else {
                        assert(a == pre.len() as int);
                        assert(spec_sep(positions@, pre[b], c, d2));
                        crate::quadtree::lemma_dist_sq_sym(
                            positions@[pre[b] as int],
                            positions@[c as int],
                        );
                    }
                };
            }
        }
        i += 1;
    }
    proof {
        assert(candidates@.skip(n as int) =~= Seq::<usize>::empty());
    }
    heads
}

/// The member-assignment rule, scanning the heads from index `k` with the
/// best head found so far: a later head wins only with a strictly smaller
/// distance, so among equally near heads the first in election order wins.
pub open spec fn spec_nearest_from(
    heads: Seq<usize>,
    positions: Seq<Point>,
    p: Point,
    k: int,
    best: Option<usize>,
) -> Option<usize>
    decreases heads.len() - k,
{
    if k < 0 || k >= heads.len() {
        best
    } else {
        let h = heads[k];
        let better = match best {
            None => true,
            Some(b) => positions[h as int].spec_dist_sq(p) < positions[b as int].spec_dist_sq(p),
        };
        spec_nearest_from(
            heads,
            positions,
            p,
            k + 1,
            if better {
                Some(h)
            } else {
                best
            },
        )
    }
}

/// The head a non-head agent at `p` joins: the first head, in election
/// order, at the strictly smallest distance; `None` when no head exists.
pub open spec fn spec_nearest_head(heads: Seq<usize>, positions: Seq<Point>, p: Point) -> Option<
    usize,
> {
    spec_nearest_from(heads, positions, p, 0, None)
}

/// The scan yields `None` exactly when it started empty-handed past the
/// end, and anything it yields is the running best or one of the heads.
proof fn lemma_nearest_from_props(
    heads: Seq<usize>,
    positions: Seq<Point>,
    p: Point,
    k: int,
    best: Option<usize>,
)
    requires
        0 <= k,
    ensures
        spec_nearest_from(heads, positions, p, k, best) is None <==> (best is None && k
            >= heads.len()),
        spec_nearest_from(heads, positions, p, k, best) matches Some(x) ==> best == Some(x) || (
        exists|m: int| k <= m < heads.len() && heads[m] == x),
    decreases heads.len() - k,
{
    if k < heads.len() {
        let h = heads[k];
        let better = match best {
            None => true,
            Some(b) => positions[h as int].spec_dist_sq(p) < positions[b as int].spec_dist_sq(p),
        };
        let next = if better {
            Some(h)
        } else {
            best
        };
        lemma_nearest_from_props(heads, positions, p, k + 1, next);
        if let Some(x) = spec_nearest_from(heads, positions, p, k, best) {
            if next == Some::<usize>(x) && better {
                assert(heads[k] == x);
            }
        }
    }
}

/// Step three of cluster formation: the nearest elected head to `p`, ties
/// broken in favour of the earlier head.
#[verifier::loop_isolation(false)]
pub fn nearest_head(heads: &Vec<usize>, positions: &Vec<Point>, p: Point) -> (r: Option<usize>)
    requires
        forall|k: int| 0 <= k < heads@.len() ==> (#[trigger] heads@[k]) < positions.len(),
        forall|i: int| 0 <= i < positions@.len() ==> (#[trigger] positions@[i]).in_range(),
        p.in_range(),
    ensures
        r == spec_nearest_head(heads@, positions@, p),
        r is None <==> heads@.len() == 0,
        r matches Some(x) ==> heads@.contains(x),
{
    let n = heads.len();
    let mut best: Option<usize> = None;
    let mut k: usize = 0;
    while k < n
        invariant
            k <= n,
            spec_nearest_from(heads@, positions@, p, k as int, best) == spec_nearest_head(
                heads@,
                positions@,
                p,
            ),
            best is None ==> k == 0,
            best matches Some(b) ==> b < positions.len() && heads@.contains(b),
        decreases n - k,
    {
        let h = heads[k];
        let better = match best {
            None => true,
            Some(b) => positions[h].dist_sq(&p) < positions[b].dist_sq(&p),
        };
        if better {
            best = Some(h);
            proof {
                assert(heads@[k as int] == h);
            }
        }
        k += 1;
    }
    best
}

/// The sum of a sequence of hues.
pub open spec fn spec_hue_sum(hues: Seq<u32>) -> int
    decreases hues.len(),
{
    if hues.len() == 0 {
        0
    } else {
        spec_hue_sum(hues.drop_last()) + hues.last()
    }
}

/// Step four of cluster formation, the hue rule: the mean of the members'
/// hues, averaged half-and-half with the cluster's hue, wrapped around the
/// circle.
pub open spec fn spec_blend(cluster_hue: u32, member_hues: Seq<u32>) -> int
    recommends
        member_hues.len() > 0,
{
    ((cluster_hue + spec_hue_sum(member_hues) / (member_hues.len() as int)) / 2) % (
    HUE_FULL_TURN as int)
}

/// Blend a cluster's hue with its members' current hues.
#[verifier::loop_isolation(false)]
pub fn blend_hue(cluster_hue: u32, props: &Vec<SatelliteProperties>, members: &Vec<usize>) -> (r:
    u32)
    requires
        members@.len() > 0,
        members@.len() < 0x1_0000_0000,
        forall|k: int| 0 <= k < members@.len() ==> (#[trigger] members@[k]) < props.len(),
        forall|i: int| 0 <= i < props@.len() ==> (#[trigger] props@[i]).wf(),
        cluster_hue < HUE_FULL_TURN,
    ensures
        r == spec_blend(
            cluster_hue,
            members@.map_values(|m: usize| props@[m as int].spec_hue()),
        ),
        r < HUE_FULL_TURN,
{
    let ghost hues = members@.map_values(|m: usize| props@[m as int].spec_hue());
    let n = members.len();
    let mut sum: u64 = 0;
    let mut k: usize = 0;
    proof {
        assert(hues.take(0) =~= Seq::<u32>::empty());
    }
    while k < n
        invariant
            k <= n,
            n == members@.len(),
            sum == spec_hue_sum(hues.take(k as int)),
            sum <= (k as int) * ((HUE_FULL_TURN - 1) as int),
        decreases n - k,
    {
        let m = members[k];
        let hue = props[m].color();
        proof {
            assert(hues.take(k + 1).drop_last() =~= hues.take(k as int));
            assert(hues.take(k + 1).last() == hues[k as int]);
            assert(hues[k as int] == props@[members@[k as int] as int].spec_hue());
            assert(sum + hue <= (k + 1) * ((HUE_FULL_TURN - 1) as int)) by (nonlinear_arith)
                requires
                    sum <= (k as int) * ((HUE_FULL_TURN - 1) as int),
                    hue <= (HUE_FULL_TURN - 1) as int;
        }
        sum = sum + hue as u64;
        k += 1;
    }
    proof {
        assert(hues.take(n as int) =~= hues);
        assert((n as int) * ((HUE_FULL_TURN - 1) as int) < 0x1_0000_0000 * (HUE_FULL_TURN as int))
            by (nonlinear_arith)
            requires
                0 < n < 0x1_0000_0000;
        vstd::arithmetic::div_mod::lemma_div_is_ordered(
            sum as int,
            (n as int) * ((HUE_FULL_TURN - 1) as int),
            n as int,
        );
        vstd::arithmetic::div_mod::lemma_div_multiples_vanish(
            (HUE_FULL_TURN - 1) as int,
            n as int,
        );
    }
    let mean: u64 = sum / (n as u64);
    let blended: u64 = ((cluster_hue as u64) + mean) / 2 % (HUE_FULL_TURN as u64);
    blended as u32
}

/// Whether `id` stands anywhere in the map, as a head or as a member.
pub open spec fn spec_in_map(map: ClusterMap, id: usize) -> bool {
    exists|a: int|
        0 <= a < map.spec_clusters().len() && ((#[trigger] map.spec_clusters()[a]).spec_head()
            == id || map.spec_clusters()[a].spec_members().contains(id))
}

/// The hue a fresh cluster starts from: the hue it had under the same head
/// on the previous tick, else the head's own hue.
pub open spec fn spec_base_hue(prev: ClusterMap, hues: Seq<SatelliteProperties>, h: usize) -> u32 {
    if prev.spec_has_head(h) {
        prev.spec_color_of(h)
    } else {
        hues[h as int].spec_hue()
    }
}

/// Whether `x` is an element of the vector.
fn vec_contains(v: &Vec<usize>, x: usize) -> (r: bool)
    ensures
        r == v@.contains(x),
{
    let n = v.len();
    let mut i: usize = 0;
    while i < n
        invariant
            i <= n,
            n == v@.len(),
            forall|k: int| 0 <= k < i ==> v@[k] != x,
        decreases n - i,
    {
        if v[i] == x {
            proof {
                assert(v@[i as int] == x);
            }
            return true;
        }
        i += 1;
    }
    false
}

/// Create one cluster per elected head, in election order, each seeded
/// with the hue its head's cluster had on the previous tick — else with
/// the head's own hue — and recolour heads that inherited a hue.
#[verifier::loop_isolation(false)]
fn seed_clusters(
    props: &mut Vec<SatelliteProperties>,
    prev: &ClusterMap,
    heads: &Vec<usize>,
) -> (map: ClusterMap)
    requires
        forall|k: int| 0 <= k < heads@.len() ==> (#[trigger] heads@[k]) < old(props).len(),
        forall|i2: int, j2: int|
            0 <= i2 < j2 < heads@.len() ==> (#[trigger] heads@[i2]) < (#[trigger] heads@[j2]),
        forall|i: int| 0 <= i < old(props).len() ==> (#[trigger] old(props)@[i]).wf(),
        prev.wf(),
    ensures
        map.wf(),
        map.exclusive(),
        map.spec_clusters().len() == heads@.len(),
        forall|b: int|
            0 <= b < heads@.len() ==> (#[trigger] map.spec_clusters()[b]).spec_head() == heads@[b]
                && map.spec_clusters()[b].spec_members() == Seq::<usize>::empty()
                && map.spec_clusters()[b].spec_size() == 1
                && map.spec_clusters()[b].spec_color() == spec_base_hue(
                *prev,
                old(props)@,
                heads@[b],
            ),
        final(props).len() == old(props).len(),
        forall|i: int|
            0 <= i < old(props).len() ==> (#[trigger] final(props)@[i]).wf()
                && final(props)@[i].spec_id() == old(props)@[i].spec_id()
                && final(props)@[i].spec_distance() == old(props)@[i].spec_distance()
                && final(props)@[i].spec_selected() == old(props)@[i].spec_selected(),
        forall|b: int|
            0 <= b < heads@.len() ==> final(props)@[(#[trigger] heads@[b]) as int].spec_hue()
                == spec_base_hue(*prev, old(props)@, heads@[b]),
        forall|i: int|
            0 <= i < old(props).len() && !heads@.contains(i as usize)
                ==> (#[trigger] final(props)@[i]).spec_hue() == old(props)@[i].spec_hue(),
{
    let n = props.len();
    let ghost props0 = props@;
    let hn = heads.len();
    let mut map = ClusterMap::new();
    let mut a: usize = 0;
    while a < hn
        invariant
            a <= hn,
            map.wf(),
            map.spec_clusters().len() == a,
            forall|b: int|
                0 <= b < a ==> (#[trigger] map.spec_clusters()[b]).spec_head() == heads@[b]
                    && map.spec_clusters()[b].spec_members() == Seq::<usize>::empty()
                    && map.spec_clusters()[b].spec_size() == 1
                    && map.spec_clusters()[b].spec_color() == spec_base_hue(
                    *prev,
                    props0,
                    heads@[b],
                ),
            props@.len() == n,
            forall|i: int|
                0 <= i < n ==> (#[trigger] props@[i]).wf() && props@[i].spec_id()
                    == props0[i].spec_id() && props@[i].spec_distance()
                    == props0[i].spec_distance() && props@[i].spec_selected()
                    == props0[i].spec_selected(),
            forall|b: int|
                0 <= b < a ==> props@[(#[trigger] heads@[b]) as int].spec_hue() == spec_base_hue(
                    *prev,
                    props0,
                    heads@[b],
                ),
            forall|i: int|
                0 <= i < n && !heads@.take(a as int).contains(i as usize) ==> (
                #[trigger] props@[i]).spec_hue() == props0[i].spec_hue(),
        decreases hn - a,
    {
        let h = heads[a];
        proof {
            assert(heads@[a as int] == h);
            assert forall|b: int|
                0 <= b < map.spec_clusters().len() implies (
            #[trigger] map.spec_clusters()[b]).spec_head() != h by {
                assert(heads@[b] < heads@[a as int]);
            };
        }
        let mut cluster = Cluster::new(h);
        match prev.get(h) {
            Some(pc) => {
                proof {
                    let i = choose|i: int|
                        0 <= i < prev.spec_clusters().len() && (
                        #[trigger] prev.spec_clusters()[i]) == *pc;
                    assert(prev.spec_clusters()[i].wf());
                }
                let c = pc.color();
                cluster.set_color(c);
                SatelliteProperties::set_color_in(props, h, c);
            },
            None => {
                let c = props[h].color();
                cluster.set_color(c);
            },
        }
        map.insert(cluster);
        proof {
            assert forall|i: int|
                0 <= i < n && !heads@.take(a + 1).contains(i as usize) implies (
            #[trigger] props@[i]).spec_hue() == props0[i].spec_hue() by {
                assert(!heads@.take(a as int).contains(i as usize)) by {
                    if heads@.take(a as int).contains(i as usize) {
                        let b = choose|b: int| 0 <= b < a && heads@.take(a as int)[b] == i as usize;
                        assert(heads@.take(a + 1)[b] == i as usize);
                    }
                };
                assert(i != h as int) by {
                    assert(heads@.take(a + 1)[a as int] == h);
                };
            };
            assert forall|b: int|
                0 <= b < a + 1 implies props@[(#[trigger] heads@[b]) as int].spec_hue()
                == spec_base_hue(*prev, props0, heads@[b]) by {
                if b < a {
                    assert(heads@[b] != h);
                }
            };
        }
        a += 1;
    }
    proof {
        assert(heads@.take(hn as int) =~= heads@);
        assert forall|i: int|
            0 <= i < n && !heads@.contains(i as usize) implies (#[trigger] props@[i]).spec_hue()
            == props0[i].spec_hue() by {
            assert(!heads@.take(hn as int).contains(i as usize));
        };
    }
    map
}

/// Walk every agent in ascending id order and enlist each non-head with
/// the cluster of its nearest head.
#[verifier::loop_isolation(false)]
#[verifier::rlimit(40)]
fn assign_members(map: &mut ClusterMap, heads: &Vec<usize>, positions: &Vec<Point>, n: usize)
    requires
        n < 0xffff_ffff,
        positions.len() == n,
        forall|i: int| 0 <= i < positions@.len() ==> (#[trigger] positions@[i]).in_range(),
        forall|k: int| 0 <= k < heads@.len() ==> (#[trigger] heads@[k]) < n,
        old(map).wf(),
        old(map).exclusive(),
        old(map).spec_clusters().len() == heads@.len(),
        forall|b: int|
            0 <= b < heads@.len() ==> (#[trigger] old(map).spec_clusters()[b]).spec_head()
                == heads@[b] && old(map).spec_clusters()[b].spec_members() == Seq::<
                usize,
            >::empty(),
    ensures
        final(map).wf(),
        final(map).exclusive(),
        final(map).spec_clusters().len() == heads@.len(),
        forall|b: int|
            0 <= b < heads@.len() ==> (#[trigger] final(map).spec_clusters()[b]).spec_head()
                == heads@[b] && final(map).spec_clusters()[b].spec_color() == old(map).spec_clusters()[b].spec_color() && final(map).spec_clusters()[b].spec_size()
                == final(map).spec_clusters()[b].spec_members().len() + 1,
        forall|b: int, j: int|
            0 <= b < heads@.len() && 0 <= j < final(map).spec_clusters()[b].spec_members().len()
                ==> {
                let m = (#[trigger] final(map).spec_clusters()[b].spec_members()[j]);
                &&& m < n
                &&& !heads@.contains(m)
                &&& spec_nearest_head(heads@, positions@, positions@[m as int]) == Some(heads@[b])
            },
        forall|b: int|
            0 <= b < heads@.len() ==> (#[trigger] final(map).spec_clusters()[
                b
            ]).spec_members().len() <= n,
        forall|x: int|
            0 <= x < n && !heads@.contains(x as usize) ==> ((#[trigger] spec_nearest_head(
                heads@,
                positions@,
                positions@[x],
            )) matches Some(h) ==> exists|b: int|
                0 <= b < heads@.len() && heads@[b] == h && final(map).spec_clusters()[
                    b
                ].spec_members().contains(x as usize)),
{
    let hn = heads.len();
    let mut i: usize = 0;
    while i < n
        invariant
            i <= n,
            map.wf(),
            map.exclusive(),
            map.spec_clusters().len() == hn,
            forall|b: int|
                0 <= b < hn ==> (#[trigger] map.spec_clusters()[b]).spec_head() == heads@[b]
                    && map.spec_clusters()[b].spec_color() == old(map).spec_clusters()[
                    b
                ].spec_color() && map.spec_clusters()[b].spec_size() == map.spec_clusters()[
                    b
                ].spec_members().len() + 1,
            forall|b: int|
                0 <= b < hn ==> (#[trigger] map.spec_clusters()[b]).spec_members().len() < i + 1,
            forall|b: int, j: int|
                0 <= b < hn && 0 <= j < map.spec_clusters()[b].spec_members().len() ==> {
                    let m = (#[trigger] map.spec_clusters()[b].spec_members()[j]);
                    &&& m < i
                    &&& !heads@.contains(m)
                    &&& spec_nearest_head(heads@, positions@, positions@[m as int]) == Some(
                        heads@[b],
                    )
                },
            forall|x: int|
                0 <= x < i && !heads@.contains(x as usize) ==> ((#[trigger] spec_nearest_head(
                    heads@,
                    positions@,
                    positions@[x],
                )) matches Some(h) ==> exists|b: int|
                    0 <= b < hn && heads@[b] == h && map.spec_clusters()[b].spec_members().contains(
                        x as usize,
                    )),
        decreases n - i,
    {
        if !vec_contains(&heads, i) {
            match nearest_head(&heads, positions, positions[i]) {
                Some(h) => {
                    proof {
                        let b = choose|b: int| 0 <= b < heads@.len() && heads@[b] == h;
                        assert(map.spec_clusters()[b].spec_head() == h);
                        assert forall|bb: int|
                            0 <= bb < map.spec_clusters().len() implies (
                        #[trigger] map.spec_clusters()[bb]).spec_size() < usize::MAX by {
                            assert(map.spec_clusters()[bb].spec_members().len() < i + 1);
                        };
                    }
                    let ghost pre_map = *map;
                    map.add_member_to(h, i);
                    proof {
                        assert forall|b: int|
                            0 <= b < hn implies (#[trigger] map.spec_clusters()[b]).spec_head()
                            == heads@[b] && map.spec_clusters()[b].spec_color() == old(
                            map,
                        ).spec_clusters()[b].spec_color() && map.spec_clusters()[b].spec_size()
                            == map.spec_clusters()[b].spec_members().len() + 1
                            && map.spec_clusters()[b].spec_members().len() < i + 2 by {
                            if pre_map.spec_clusters()[b].spec_head() == h {
                            } else {
                                assert(map.spec_clusters()[b] == pre_map.spec_clusters()[b]);
                            }
                        };
                        assert forall|b: int, j: int|
                            0 <= b < hn && 0 <= j < map.spec_clusters()[b].spec_members().len()
                                implies {
                            let m = (#[trigger] map.spec_clusters()[b].spec_members()[j]);
                            &&& m < i + 1
                            &&& !heads@.contains(m)
                            &&& spec_nearest_head(heads@, positions@, positions@[m as int])
                                == Some(heads@[b])
                        } by {
                            if pre_map.spec_clusters()[b].spec_head() == h {
                                let pm = pre_map.spec_clusters()[b].spec_members();
                                assert(map.spec_clusters()[b].spec_members() == pm.push(
                                    i as usize,
                                ));
                                if j < pm.len() {
                                    assert(map.spec_clusters()[b].spec_members()[j] == pm[j]);
                                    assert(pre_map.spec_clusters()[b].spec_members()[j] == pm[j]);
                                } else {
                                    assert(map.spec_clusters()[b].spec_members()[j] == i as usize);
                                    assert(heads@[b] == h);
                                }
                            } else {
                                assert(map.spec_clusters()[b] == pre_map.spec_clusters()[b]);
                                assert(pre_map.spec_clusters()[b].spec_members()[j]
                                    == map.spec_clusters()[b].spec_members()[j]);
                            }
                        };
                        assert forall|x: int|
                            0 <= x < i + 1 && !heads@.contains(x as usize) implies ((
                        #[trigger] spec_nearest_head(
                            heads@,
                            positions@,
                            positions@[x],
                        )) matches Some(hh) ==> exists|b: int|
                            0 <= b < hn && heads@[b] == hh
                                && map.spec_clusters()[b].spec_members().contains(x as usize)) by {
                            if let Some(hh) = spec_nearest_head(heads@, positions@, positions@[x]) {
                                if x < i {
                                    let b = choose|b: int|
                                        0 <= b < hn && heads@[b] == hh && pre_map.spec_clusters()[
                                            b
                                        ].spec_members().contains(x as usize);
                                    let j = choose|j: int|
                                        0 <= j < pre_map.spec_clusters()[b].spec_members().len()
                                            && pre_map.spec_clusters()[b].spec_members()[j]
                                            == x as usize;
                                    assert(map.spec_clusters()[b].spec_members()[j] == x as usize);
                                } else {
                                    assert(hh == h);
                                    let b = choose|b: int| 0 <= b < hn && heads@[b] == h;
                                    let pm = pre_map.spec_clusters()[b].spec_members();
                                    assert(map.spec_clusters()[b].spec_members() == pm.push(
                                        i as usize,
                                    ));
                                    assert(map.spec_clusters()[b].spec_members()[pm.len() as int]
                                        == i as usize);
                                }
                            }
                        };
                    }
                },
                None => {
                },
            }
        }
        i += 1;
    }
}

/// Recolour every cluster that has members: its hue becomes the blend of
/// its hue with its members' mean hue, and head and members take that
/// colour. Clusters without members, and agents outside every populated
/// cluster, keep their hues.
#[verifier::loop_isolation(false)]
#[verifier::rlimit(80)]
fn apply_hues(map: &mut ClusterMap, props: &mut Vec<SatelliteProperties>)
    requires
        old(map).wf(),
        old(map).exclusive(),
        old(props).len() < 0x1_0000_0000,
        forall|b: int|
            0 <= b < old(map).spec_clusters().len() ==> (#[trigger] old(map).spec_clusters()[
                b
            ]).spec_head() < old(props).len(),
        forall|b: int, j: int|
            0 <= b < old(map).spec_clusters().len() && 0 <= j < old(map).spec_clusters()[
                b
            ].spec_members().len() ==> (#[trigger] old(map).spec_clusters()[b].spec_members()[j])
                < old(props).len(),
        forall|b: int|
            0 <= b < old(map).spec_clusters().len() ==> (#[trigger] old(map).spec_clusters()[
                b
            ]).spec_members().len() < 0x1_0000_0000,
        forall|i: int| 0 <= i < old(props).len() ==> (#[trigger] old(props)@[i]).wf(),
    ensures
        final(map).wf(),
        final(map).exclusive(),
        final(map).spec_clusters().len() == old(map).spec_clusters().len(),
        forall|b: int|
            0 <= b < old(map).spec_clusters().len() ==> (#[trigger] final(map).spec_clusters()[
                b
            ]).spec_head() == old(map).spec_clusters()[b].spec_head() && final(map).spec_clusters()[b].spec_members() == old(map).spec_clusters()[b].spec_members()
                && final(map).spec_clusters()[b].spec_size() == old(map).spec_clusters()[
                b
            ].spec_size(),
        forall|b: int|
            0 <= b < old(map).spec_clusters().len() && (#[trigger] old(map).spec_clusters()[
                b
            ]).spec_members().len() == 0 ==> final(map).spec_clusters()[b].spec_color() == old(map).spec_clusters()[b].spec_color(),
        forall|b: int|
            0 <= b < old(map).spec_clusters().len() && (#[trigger] old(map).spec_clusters()[
                b
            ]).spec_members().len() > 0 ==> final(map).spec_clusters()[b].spec_color() as int
                == spec_blend(
                old(map).spec_clusters()[b].spec_color(),
                old(map).spec_clusters()[b].spec_members().map_values(
                    |m: usize| old(props)@[m as int].spec_hue(),
                ),
            ),
        final(props).len() == old(props).len(),
        forall|i: int|
            0 <= i < old(props).len() ==> (#[trigger] final(props)@[i]).wf()
                && final(props)@[i].spec_id() == old(props)@[i].spec_id()
                && final(props)@[i].spec_distance() == old(props)@[i].spec_distance()
                && final(props)@[i].spec_selected() == old(props)@[i].spec_selected(),
        forall|b: int|
            0 <= b < old(map).spec_clusters().len() && (#[trigger] old(map).spec_clusters()[
                b
            ]).spec_members().len() > 0 ==> final(props)@[old(map).spec_clusters()[
                b
            ].spec_head() as int].spec_hue() == final(map).spec_clusters()[b].spec_color() && (
            forall|j: int|
                0 <= j < old(map).spec_clusters()[b].spec_members().len() ==> final(props)@[(
                #[trigger] old(map).spec_clusters()[b].spec_members()[j]) as int].spec_hue()
                    == final(map).spec_clusters()[b].spec_color()),
        forall|i: int|
            0 <= i < old(props).len() && !(exists|b: int|
                0 <= b < old(map).spec_clusters().len() && (#[trigger] old(map).spec_clusters()[
                    b
                ]).spec_members().len() > 0 && (old(map).spec_clusters()[b].spec_head()
                    == i as usize || old(map).spec_clusters()[b].spec_members().contains(
                    i as usize,
                ))) ==> (#[trigger] final(props)@[i]).spec_hue() == old(props)@[i].spec_hue(),
{
    let n = props.len();
    let ghost props1 = props@;
    let ghost snap = old(map).spec_clusters();
    let hn = map.clusters.len();

    // compute the blended hue of every populated cluster
    let mut new_colors: Vec<u32> = Vec::new();
    let mut a: usize = 0;
    while a < hn
        invariant
            a <= hn,
            map.spec_clusters() == snap,
            props@ == props1,
            new_colors@.len() == a,
            forall|b: int|
                0 <= b < a && (#[trigger] snap[b]).spec_members().len() == 0 ==> new_colors@[b]
                    == snap[b].spec_color(),
            forall|b: int|
                0 <= b < a && (#[trigger] snap[b]).spec_members().len() > 0 ==> new_colors@[b]
                    as int == spec_blend(
                    snap[b].spec_color(),
                    snap[b].spec_members().map_values(|m: usize| props1[m as int].spec_hue()),
                ),
            forall|b: int| 0 <= b < a ==> (#[trigger] new_colors@[b]) < HUE_FULL_TURN,
        decreases hn - a,
    {
        let cl = &map.clusters[a];
        proof {
            assert(map.spec_clusters()[a as int].wf());
        }
        if cl.members().len() > 0 {
            let col = blend_hue(cl.color(), props, cl.members());
            new_colors.push(col);
        } else {
            let col = cl.color();
            new_colors.push(col);
        }
        a += 1;
    }

    // recolour each populated cluster, its head, and its members
    let mut a2: usize = 0;
    while a2 < hn
        invariant
            a2 <= hn,
            map.spec_clusters().len() == hn,
            map.wf(),
            map.exclusive(),
            forall|b: int|
                0 <= b < hn ==> (#[trigger] map.spec_clusters()[b]).spec_head() == snap[
                    b
                ].spec_head() && map.spec_clusters()[b].spec_members() == snap[b].spec_members()
                    && map.spec_clusters()[b].spec_size() == snap[b].spec_size(),
            forall|b: int|
                a2 <= b < hn ==> (#[trigger] map.spec_clusters()[b]).spec_color() == snap[
                    b
                ].spec_color(),
            forall|b: int|
                0 <= b < a2 ==> (#[trigger] map.spec_clusters()[b]).spec_color()
                    == new_colors@[b],
            props@.len() == n,
            forall|i2: int|
                0 <= i2 < n ==> (#[trigger] props@[i2]).wf() && props@[i2].spec_id()
                    == props1[i2].spec_id() && props@[i2].spec_distance()
                    == props1[i2].spec_distance() && props@[i2].spec_selected()
                    == props1[i2].spec_selected(),
            forall|b: int|
                0 <= b < a2 && (#[trigger] snap[b]).spec_members().len() > 0 ==> props@[snap[
                    b
                ].spec_head() as int].spec_hue() == new_colors@[b] && (forall|j: int|
                    0 <= j < snap[b].spec_members().len() ==> props@[(#[trigger] snap[
                        b
                    ].spec_members()[j]) as int].spec_hue() == new_colors@[b]),
            forall|i2: int|
                0 <= i2 < n ==> (#[trigger] props@[i2]).spec_hue() == props1[i2].spec_hue() || (
                exists|b: int|
                    0 <= b < a2 && (#[trigger] snap[b]).spec_members().len() > 0 && (snap[
                        b
                    ].spec_head() == i2 as usize || snap[b].spec_members().contains(i2 as usize))),
        decreases hn - a2,
    {
        let ghost cur = map.spec_clusters();
        let ghost props_entry = props@;
        let mut taken = Cluster { head: 0, members: Vec::new(), size: 1, color: 0 };
        map.clusters.set_and_swap(a2, &mut taken);
        proof {
            assert(taken == cur[a2 as int]);
            assert(taken.wf()) by {
                assert(cur[a2 as int].wf());
            };
        }
        if taken.members.len() > 0 {
            let col = new_colors[a2];
            let h = taken.head;
            proof {
                assert(taken.spec_members() == snap[a2 as int].spec_members());
                assert(h == snap[a2 as int].spec_head());
                assert(h < n);
            }
            taken.set_color(col);
            SatelliteProperties::set_color_in(props, h, col);
            let mn = taken.members.len();
            let mut j: usize = 0;
            while j < mn
                invariant
                    j <= mn,
                    taken.wf(),
                    mn == taken.spec_members().len(),
                    taken.spec_members() == snap[a2 as int].spec_members(),
                    props@.len() == n,
                    forall|i2: int|
                        0 <= i2 < n ==> (#[trigger] props@[i2]).wf() && props@[i2].spec_id()
                            == props1[i2].spec_id() && props@[i2].spec_distance()
                            == props1[i2].spec_distance() && props@[i2].spec_selected()
                            == props1[i2].spec_selected(),
                    props@[h as int].spec_hue() == col,
                    forall|jj: int|
                        0 <= jj < j ==> props@[(#[trigger] taken.spec_members()[jj]) as int].spec_hue()
                            == col,
                    forall|i2: int|
                        0 <= i2 < n && i2 != h as int && !(exists|jj: int|
                            0 <= jj < j && (#[trigger] taken.spec_members()[jj]) == i2 as usize)
                            ==> (#[trigger] props@[i2]) == props_entry[i2],
                decreases mn - j,
            {
                let m = taken.members[j];
                proof {
                    assert(taken.spec_members()[j as int] == m);
                    assert(snap[a2 as int].spec_members()[j as int] < n);
                }
                SatelliteProperties::set_color_in(props, m, col);
                proof {
                    assert forall|jj: int|
                        0 <= jj < j + 1 implies props@[(#[trigger] taken.spec_members()[jj])
                        as int].spec_hue() == col by {
                        if jj < j {
                            assert(taken.spec_members()[jj] < taken.spec_members()[j as int]);
                        } else {
                            assert(taken.spec_members()[j as int] == m);
                        }
                    };
                    assert forall|i2: int|
                        0 <= i2 < n && i2 != h as int && !(exists|jj: int|
                            0 <= jj < j + 1 && (#[trigger] taken.spec_members()[jj])
                                == i2 as usize) implies (#[trigger] props@[i2]) == props_entry[i2]
                        by {
                        assert(i2 != m as int) by {
                            if i2 == m as int {
                                assert(taken.spec_members()[j as int] == i2 as usize);
                            }
                        };
                    };
                }
                j += 1;
            }
        }
        let ghost taken_final = taken;
        map.clusters.set_and_swap(a2, &mut taken);
        proof {
            let post = map.spec_clusters();
            assert(post =~= cur.update(a2 as int, taken_final));
            assert(taken_final.spec_head() == snap[a2 as int].spec_head());
            assert(taken_final.spec_members() == snap[a2 as int].spec_members());
            assert(taken_final.spec_size() == snap[a2 as int].spec_size());
            assert(taken_final.wf());
            // the map stays well formed and exclusive: only a colour changed
            assert forall|x: int, y: int| 0 <= x < y < post.len() implies (
            #[trigger] post[x]).spec_head() != (#[trigger] post[y]).spec_head() by {
                assert(cur[x].spec_head() != cur[y].spec_head());
                assert(post[x].spec_head() == cur[x].spec_head());
                assert(post[y].spec_head() == cur[y].spec_head());
            };
            assert forall|x: int, y: int, k: int|
                0 <= x < post.len() && 0 <= y < post.len() && 0 <= k
                    < post[y].spec_members().len() implies (#[trigger] post[y].spec_members()[k])
                != (#[trigger] post[x]).spec_head() by {
                assert(post[y].spec_members() == cur[y].spec_members());
                assert(post[x].spec_head() == cur[x].spec_head());
                assert(cur[y].spec_members()[k] != cur[x].spec_head());
            };
            assert forall|x: int, y: int, jx: int, k: int|
                0 <= x < post.len() && 0 <= y < post.len() && x != y && 0 <= jx
                    < post[x].spec_members().len() && 0 <= k < post[y].spec_members().len() implies
                (#[trigger] post[x].spec_members()[jx]) != (#[trigger] post[y].spec_members()[k])
                by {
                assert(post[x].spec_members() == cur[x].spec_members());
                assert(post[y].spec_members() == cur[y].spec_members());
                assert(cur[x].spec_members()[jx] != cur[y].spec_members()[k]);
            };
            // earlier clusters' recoloured agents kept their hues: this
            // iteration touched only this cluster's head and members
            let hh = snap[a2 as int].spec_head();
            let mems = snap[a2 as int].spec_members();
            assert forall|b: int|
                0 <= b < a2 + 1 && (#[trigger] snap[b]).spec_members().len() > 0 implies props@[
                snap[b].spec_head() as int].spec_hue() == new_colors@[b] && (forall|jj: int|
                0 <= jj < snap[b].spec_members().len() ==> props@[(#[trigger] snap[
                    b
                ].spec_members()[jj]) as int].spec_hue() == new_colors@[b]) by {
                if b < a2 {
                    let hb = snap[b].spec_head();
                    assert(hb != hh) by {
                        assert(cur[b].spec_head() != cur[a2 as int].spec_head());
                    };
                    assert(!(exists|jj: int|
                        0 <= jj < mems.len() && (#[trigger] mems[jj]) == hb)) by {
                        if exists|jj: int| 0 <= jj < mems.len() && (#[trigger] mems[jj]) == hb {
                            let jj = choose|jj: int| 0 <= jj < mems.len() && mems[jj] == hb;
                            assert(cur[a2 as int].spec_members()[jj] != cur[b].spec_head());
                        }
                    };
                    assert(props@[hb as int] == props_entry[hb as int]);
                    assert forall|jj: int|
                        0 <= jj < snap[b].spec_members().len() implies props@[(#[trigger] snap[
                        b
                    ].spec_members()[jj]) as int].spec_hue() == new_colors@[b] by {
                        let mb = snap[b].spec_members()[jj];
                        assert(mb != hh) by {
                            assert(cur[b].spec_members()[jj] != cur[a2 as int].spec_head());
                        };
                        assert(!(exists|kk: int|
                            0 <= kk < mems.len() && (#[trigger] mems[kk]) == mb)) by {
                            if exists|kk: int| 0 <= kk < mems.len() && (#[trigger] mems[kk]) == mb
                                {
                                let kk = choose|kk: int| 0 <= kk < mems.len() && mems[kk] == mb;
                                assert(cur[b].spec_members()[jj] != cur[a2 as int].spec_members()[
                                    kk
                                ]);
                            }
                        };
                        assert(props@[mb as int] == props_entry[mb as int]);
                        assert(props_entry[mb as int].spec_hue() == new_colors@[b]);
                    };
                } else {
                    if snap[a2 as int].spec_members().len() > 0 {
                        assert(props@[hh as int].spec_hue() == new_colors@[a2 as int]);
                    }
                }
            };
            // everything outside this cluster kept its hue
            assert forall|i2: int|
                0 <= i2 < n implies (#[trigger] props@[i2]).spec_hue() == props1[i2].spec_hue()
                || (exists|b: int|
                0 <= b < a2 + 1 && (#[trigger] snap[b]).spec_members().len() > 0 && (snap[
                    b
                ].spec_head() == i2 as usize || snap[b].spec_members().contains(i2 as usize))) by {
                if props@[i2] == props_entry[i2] {
                    if props_entry[i2].spec_hue() != props1[i2].spec_hue() {
                        let b = choose|b: int|
                            0 <= b < a2 && (#[trigger] snap[b]).spec_members().len() > 0 && (snap[
                                b
                            ].spec_head() == i2 as usize || snap[b].spec_members().contains(
                                i2 as usize,
                            ));
                        assert(0 <= b < a2 + 1 && snap[b].spec_members().len() > 0 && (snap[
                            b
                        ].spec_head() == i2 as usize || snap[b].spec_members().contains(
                            i2 as usize,
                        )));
                    }
                } else {
                    assert(snap[a2 as int].spec_members().len() > 0);
                    assert(i2 == hh as int || (exists|jj: int|
                        0 <= jj < mems.len() && (#[trigger] mems[jj]) == i2 as usize));
                    if i2 != hh as int {
                        let jj = choose|jj: int|
                            0 <= jj < mems.len() && (#[trigger] mems[jj]) == i2 as usize;
                        assert(mems.contains(i2 as usize));
                    }
                }
            };
        }
        a2 += 1;
    }
    proof {
        assert forall|b: int|
            0 <= b < hn && (#[trigger] snap[b]).spec_members().len() > 0 implies map.spec_clusters()[
            b
        ].spec_color() as int == spec_blend(
            snap[b].spec_color(),
            snap[b].spec_members().map_values(|m: usize| props1[m as int].spec_hue()),
        ) by {
            assert(map.spec_clusters()[b].spec_color() == new_colors@[b]);
        };
    }
}

/// One comms tick of cluster formation.
///
/// Candidates are the agents whose energy exceeds the threshold, taken in
/// ascending id order; heads are elected greedily under the separation
/// distance; every other agent joins its nearest head, ties going to the
/// earlier head; a cluster starts from the hue it had under the same head
/// last tick (else its head's own hue), and one with members blends that
/// hue with the members' mean hue and recolours head and members with the
/// result.
#[verifier::loop_isolation(false)]
#[verifier::rlimit(60)]
pub fn form_clusters(
    props: &mut Vec<SatelliteProperties>,
    energies: &Vec<SatelliteEnergy>,
    positions: &Vec<Point>,
    prev: &ClusterMap,
    energy_threshold: u32,
    cluster_distance: i64,
) -> (map: ClusterMap)
    requires
        energies.len() == old(props).len(),
        positions.len() == old(props).len(),
        old(props).len() < 0xffff_ffff,
        forall|i: int| 0 <= i < positions@.len() ==> (#[trigger] positions@[i]).in_range(),
        forall|i: int| 0 <= i < old(props).len() ==> (#[trigger] old(props)@[i]).wf(),
        prev.wf(),
        0 <= cluster_distance <= MAX_COORD,
    ensures
        final(props).len() == old(props).len(),
        forall|i: int|
            0 <= i < old(props).len() ==> (#[trigger] final(props)@[i]).wf()
                && final(props)@[i].spec_id() == old(props)@[i].spec_id()
                && final(props)@[i].spec_distance() == old(props)@[i].spec_distance()
                && final(props)@[i].spec_selected() == old(props)@[i].spec_selected(),
        map.wf(),
        map.exclusive(),
        map.spec_heads() == spec_greedy_heads(
            spec_candidates(energies@, energy_threshold),
            positions@,
            cluster_distance * cluster_distance,
            Seq::empty(),
        ),
        forall|a: int|
            0 <= a < map.spec_clusters().len() ==> (#[trigger] map.spec_clusters()[a]).spec_head()
                < old(props).len(),
        forall|a: int, b: int|
            0 <= a < map.spec_clusters().len() && 0 <= b < map.spec_clusters().len() && a != b
                ==> spec_sep(
                positions@,
                (#[trigger] map.spec_clusters()[a]).spec_head(),
                (#[trigger] map.spec_clusters()[b]).spec_head(),
                cluster_distance * cluster_distance,
            ),
        forall|a: int, j: int|
            0 <= a < map.spec_clusters().len() && 0 <= j
                < map.spec_clusters()[a].spec_members().len() ==> {
                let m = (#[trigger] map.spec_clusters()[a].spec_members()[j]);
                &&& m < old(props).len()
                &&& !map.spec_heads().contains(m)
                &&& spec_nearest_head(map.spec_heads(), positions@, positions@[m as int])
                    == Some(map.spec_clusters()[a].spec_head())
            },
        forall|x: int|
            0 <= x < old(props).len() && !map.spec_heads().contains(x as usize) ==> ((
            #[trigger] spec_nearest_head(
                map.spec_heads(),
                positions@,
                positions@[x],
            )) matches Some(h) ==> exists|a: int|
                0 <= a < map.spec_clusters().len() && map.spec_clusters()[a].spec_head() == h
                    && map.spec_clusters()[a].spec_members().contains(x as usize)),
        forall|a: int|
            0 <= a < map.spec_clusters().len() ==> {
                let c = (#[trigger] map.spec_clusters()[a]);
                let h = c.spec_head();
                let base = spec_base_hue(*prev, old(props)@, h);
                &&& (c.spec_members().len() == 0 ==> c.spec_color() == base
                    && final(props)@[h as int].spec_hue() == base)
                &&& (c.spec_members().len() > 0 ==> c.spec_color() as int == spec_blend(
                    base,
                    c.spec_members().map_values(|m: usize| old(props)@[m as int].spec_hue()),
                ) && final(props)@[h as int].spec_hue() == c.spec_color() && (forall|j: int|
                    0 <= j < c.spec_members().len()
                        ==> final(props)@[(#[trigger] c.spec_members()[j]) as int].spec_hue()
                        == c.spec_color()))
            },
        forall|i: int|
            0 <= i < old(props).len() && !spec_in_map(map, i as usize)
                ==> final(props)@[i].spec_hue() == old(props)@[i].spec_hue(),
{
    let n = props.len();
    let ghost props0 = props@;

    let candidates = select_candidates(energies, energy_threshold);
    let heads = elect_heads(&candidates, positions, cluster_distance);
    let ghost hn = heads@.len();
    proof {
        assert forall|b1: int, b2: int|
            0 <= b1 < hn && 0 <= b2 < hn && b1 != b2 implies (#[trigger] heads@[b1]) != (
        #[trigger] heads@[b2]) by {
            if b1 < b2 {
            } else {
                assert(heads@[b2] < heads@[b1]);
            }
        };
    }

    let mut map = seed_clusters(props, prev, &heads);
    let ghost props1 = props@;
    assign_members(&mut map, &heads, positions, n);
    let ghost map2 = map;
    apply_hues(&mut map, props);

    proof {
        let snap = map2.spec_clusters();
        assert(map.spec_heads() =~= heads@);
        // members were never heads, so their hues before blending are
        // their hues from before the tick
        assert forall|b: int|
            0 <= b < hn && (#[trigger] snap[b]).spec_members().len() > 0 implies snap[
            b
        ].spec_members().map_values(|m: usize| props1[m as int].spec_hue()) =~= snap[
            b
        ].spec_members().map_values(|m: usize| props0[m as int].spec_hue()) by {
            assert forall|j: int| 0 <= j < snap[b].spec_members().len() implies props1[(
            #[trigger] snap[b].spec_members()[j]) as int].spec_hue() == props0[snap[
                b
            ].spec_members()[j] as int].spec_hue() by {
                assert(!heads@.contains(snap[b].spec_members()[j]));
            };
        };
        // the hue outcome of every cluster
        assert forall|a: int| 0 <= a < map.spec_clusters().len() implies {
            let c = (#[trigger] map.spec_clusters()[a]);
            let h = c.spec_head();
            let base = spec_base_hue(*prev, props0, h);
            &&& (c.spec_members().len() == 0 ==> c.spec_color() == base
                && props@[h as int].spec_hue() == base)
            &&& (c.spec_members().len() > 0 ==> c.spec_color() as int == spec_blend(
                base,
                c.spec_members().map_values(|m: usize| props0[m as int].spec_hue()),
            ) && props@[h as int].spec_hue() == c.spec_color() && (forall|j: int|
                0 <= j < c.spec_members().len()
                    ==> props@[(#[trigger] c.spec_members()[j]) as int].spec_hue()
                    == c.spec_color()))
        } by {
            let c = map.spec_clusters()[a];
            let h = c.spec_head();
            assert(h == heads@[a]);
            assert(snap[a].spec_color() == spec_base_hue(*prev, props0, h));
            if c.spec_members().len() == 0 {
                // neither this cluster nor any other touched this head's hue
                assert(!(exists|b: int|
                    0 <= b < snap.len() && (#[trigger] snap[b]).spec_members().len() > 0 && (snap[
                        b
                    ].spec_head() == h || snap[b].spec_members().contains(h)))) by {
                    if exists|b: int|
                        0 <= b < snap.len() && (#[trigger] snap[b]).spec_members().len() > 0 && (
                        snap[b].spec_head() == h || snap[b].spec_members().contains(h)) {
                        let b = choose|b: int|
                            0 <= b < snap.len() && (#[trigger] snap[b]).spec_members().len() > 0
                                && (snap[b].spec_head() == h || snap[b].spec_members().contains(
                                h,
                            ));
                        if snap[b].spec_head() == h {
                            assert(heads@[b] == heads@[a]);
                            assert(b == a);
                        } else {
                            let k = choose|k: int|
                                0 <= k < snap[b].spec_members().len() && snap[b].spec_members()[k]
                                    == h;
                            assert(snap[b].spec_members()[k] != snap[a].spec_head());
                        }
                    }
                };
                assert(props@[h as int].spec_hue() == props1[h as int].spec_hue());
            } else {
                assert(props@[h as int].spec_hue() == map.spec_clusters()[a].spec_color());
            }
        };
        // agents in no cluster keep their hues
        assert forall|i: int|
            0 <= i < n && !spec_in_map(map, i as usize) implies (#[trigger] props@[i]).spec_hue()
            == props0[i].spec_hue() by {
            assert(!(exists|b: int|
                0 <= b < snap.len() && (#[trigger] snap[b]).spec_members().len() > 0 && (snap[
                    b
                ].spec_head() == i as usize || snap[b].spec_members().contains(i as usize)))) by {
                if exists|b: int|
                    0 <= b < snap.len() && (#[trigger] snap[b]).spec_members().len() > 0 && (snap[
                        b
                    ].spec_head() == i as usize || snap[b].spec_members().contains(i as usize)) {
                    let b = choose|b: int|
                        0 <= b < snap.len() && (#[trigger] snap[b]).spec_members().len() > 0 && (
                        snap[b].spec_head() == i as usize || snap[b].spec_members().contains(
                            i as usize,
                        ));
                    assert(map.spec_clusters()[b].spec_head() == snap[b].spec_head());
                    assert(map.spec_clusters()[b].spec_members() == snap[b].spec_members());
                    assert(spec_in_map(map, i as usize));
                }
            };
            assert(props@[i].spec_hue() == props1[i].spec_hue());
            assert(!heads@.contains(i as usize)) by {
                if heads@.contains(i as usize) {
                    let b = choose|b: int| 0 <= b < hn && heads@[b] == i as usize;
                    assert(map.spec_clusters()[b].spec_head() == i as usize);
                    assert(spec_in_map(map, i as usize));
                }
            };
        };
    }
    map
}


impl Default for ClusterMap {
    fn default() -> (m: Self)
        ensures
            m.wf(),
            m.exclusive(),
            m.spec_clusters() == Seq::<Cluster>::empty(),
    {
        ClusterMap::new()
    }
}

} // verus!
