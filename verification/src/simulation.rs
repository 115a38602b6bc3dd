//! The simulation arena and its discrete ticks.

use vstd::prelude::*;

verus! {

use crate::cluster::{
    form_clusters, spec_base_hue, spec_blend, spec_candidates, spec_greedy_heads, spec_in_map,
    spec_nearest_head, spec_sep, Cluster, ClusterMap,
};
use crate::quadtree::{lemma_bag_grows_all, Box2d, Point, QuadTree};
use crate::satellite::{
    ProbEntering, SatelliteComms, SatelliteEnergy, SatelliteProperties,
};
use crate::settings::Settings;

/// Whether agent `i` stands in the cluster at index `b`, as its head or
/// as a member.
pub open spec fn spec_in_cluster_at(map: ClusterMap, b: int, i: usize) -> bool {
    map.spec_clusters()[b].spec_head() == i || map.spec_clusters()[b].spec_members().contains(i)
}

/// Whether agent `i` belongs to any cluster, as head or member. Every
/// cluster plays the energy game, whatever its size.
pub open spec fn spec_participant(map: ClusterMap, i: usize) -> bool {
    exists|b: int| 0 <= b < map.spec_clusters().len() && #[trigger] spec_in_cluster_at(map, b, i)
}

/// Whether some other member of `i`'s playing cluster is marked as
/// playing, judged on the given state of the energy facets.
pub open spec fn spec_other_playing(map: ClusterMap, energies: Seq<SatelliteEnergy>, i: usize) -> bool {
    exists|b: int, x: int|
        #![trigger map.spec_clusters()[b], energies[x]]
        0 <= b < map.spec_clusters().len() && spec_in_cluster_at(map, b, i) && 0 <= x
            < energies.len() && x != i && spec_in_cluster_at(map, b, x as usize) && energies[
            x
        ].spec_in_game()
}

/// What one game tick does to a member of a cluster of the given size:
/// the decision respects the Phase-A rules against the pre-tick state —
/// alone it plays exactly when its energy strictly exceeds the cost — and
/// the energy settles by the Phase-B rules against the other members'
/// decisions.
pub open spec fn spec_settled(
    pre: SatelliteEnergy,
    cluster_size: int,
    prob: ProbEntering,
    any_other: bool,
    post: SatelliteEnergy,
) -> bool {
    &&& post.same_parameters(pre)
    &&& (pre.spec_energy() < pre.spec_cost() ==> !post.spec_in_game())
    &&& (post.spec_in_game() ==> pre.spec_energy() >= pre.spec_cost())
    &&& (pre.spec_energy() >= pre.spec_cost() && cluster_size < 2 ==> post.spec_in_game() == (
    pre.spec_energy() > pre.spec_cost()) && post.spec_prob_entering()
        == pre.spec_prob_entering())
    &&& (pre.spec_energy() >= pre.spec_cost() && cluster_size >= 2 && !prob.is_usable()
        ==> !post.spec_in_game() && post.spec_prob_entering() == pre.spec_prob_entering())
    &&& (pre.spec_energy() >= pre.spec_cost() && cluster_size >= 2 && prob.is_usable()
        ==> post.spec_prob_entering() == prob.ppm())
    &&& (post.spec_in_game() ==> post.spec_energy() == pre.spec_paid())
    &&& (!post.spec_in_game() && any_other ==> post.spec_energy() == pre.spec_recharged())
    &&& (!post.spec_in_game() && !any_other ==> post.spec_energy() == pre.spec_energy())
}

/// Law of cluster exclusivity: in a well-formed, exclusive map an agent
/// stands in at most one cluster — heads are unique, no head is anyone's
/// member, and no agent is a member twice.
pub proof fn lemma_unique_cluster(map: ClusterMap, a: int, b: int, x: usize)
    requires
        map.wf(),
        map.exclusive(),
        0 <= a < map.spec_clusters().len(),
        0 <= b < map.spec_clusters().len(),
        map.spec_clusters()[a].spec_head() == x || map.spec_clusters()[a].spec_members().contains(
            x,
        ),
        map.spec_clusters()[b].spec_head() == x || map.spec_clusters()[b].spec_members().contains(
            x,
        ),
    ensures
        a == b,
{
    if a != b {
        let ca = map.spec_clusters()[a];
        let cb = map.spec_clusters()[b];
        if ca.spec_head() == x && cb.spec_head() == x {
            if a < b {
                assert(map.spec_clusters()[a].spec_head() != map.spec_clusters()[b].spec_head());
            } else {
                assert(map.spec_clusters()[b].spec_head() != map.spec_clusters()[a].spec_head());
            }
        } else if ca.spec_head() == x {
            let k = choose|k: int|
                0 <= k < cb.spec_members().len() && cb.spec_members()[k] == x;
            assert(map.spec_clusters()[b].spec_members()[k] != map.spec_clusters()[
                a
            ].spec_head());
        } else if cb.spec_head() == x {
            let k = choose|k: int|
                0 <= k < ca.spec_members().len() && ca.spec_members()[k] == x;
            assert(map.spec_clusters()[a].spec_members()[k] != map.spec_clusters()[
                b
            ].spec_head());
        } else {
            let j = choose|j: int|
                0 <= j < ca.spec_members().len() && ca.spec_members()[j] == x;
            let k = choose|k: int|
                0 <= k < cb.spec_members().len() && cb.spec_members()[k] == x;
            assert(map.spec_clusters()[a].spec_members()[j] != map.spec_clusters()[
                b
            ].spec_members()[k]);
        }
    }
}

/// Whether any flag other than the one at `t` is set.
pub open spec fn spec_flags_other(flags: Seq<bool>, t: int) -> bool {
    exists|u: int| 0 <= u < flags.len() && u != t && flags[u]
}

/// One game tick: the two-phase energy game, cluster by cluster.
///
/// For every cluster — lone heads included — each member first decides
/// whether to play (Phase A), all against the same pre-tick state; only
/// then does any member settle its energy (Phase B), reading the others'
/// decisions from a snapshot taken between the phases. Clusters are
/// independent within the tick, and agents outside every cluster are
/// untouched.
#[verifier::loop_isolation(false)]
#[verifier::rlimit(100)]
pub fn tick_game(energies: &mut Vec<SatelliteEnergy>, map: &ClusterMap, probs: &Vec<ProbEntering>)
    requires
        map.wf(),
        map.exclusive(),
        forall|a: int|
            0 <= a < map.spec_clusters().len() ==> (#[trigger] map.spec_clusters()[a]).spec_head()
                < old(energies).len(),
        forall|a: int, j: int|
            0 <= a < map.spec_clusters().len() && 0 <= j < map.spec_clusters()[
                a
            ].spec_members().len() ==> (#[trigger] map.spec_clusters()[a].spec_members()[j]) < old(energies).len(),
        probs.len() == old(energies).len(),
        forall|i: int| 0 <= i < old(energies).len() ==> (#[trigger] old(energies)@[i]).wf(),
    ensures
        final(energies).len() == old(energies).len(),
        forall|i: int| 0 <= i < old(energies).len() ==> (#[trigger] final(energies)@[i]).wf(),
        forall|i: int|
            0 <= i < old(energies).len() && !spec_participant(*map, i as usize) ==> final(energies)@[i] == old(energies)@[i],
        forall|i: int, b: int|
            0 <= i < old(energies).len() && 0 <= b < map.spec_clusters().len()
                && #[trigger] spec_in_cluster_at(*map, b, i as usize) ==> spec_settled(
                old(energies)@[i],
                map.spec_clusters()[b].spec_size() as int,
                probs@[i],
                spec_other_playing(*map, final(energies)@, i as usize),
                final(energies)@[i],
            ),
{
    let n = energies.len();
    let cls = map.clusters();
    let cn = cls.len();
    let mut a: usize = 0;
    while a < cn
        invariant
            a <= cn,
            energies@.len() == n,
            forall|i: int| 0 <= i < n ==> (#[trigger] energies@[i]).wf(),
            forall|i: int|
                0 <= i < n && !(exists|b: int| 0 <= b < a && #[trigger] spec_in_cluster_at(*map, b, i as usize))
                    ==> (#[trigger] energies@[i]) == old(energies)@[i],
            forall|i: int, b: int|
                0 <= i < n && 0 <= b < a && #[trigger] spec_in_cluster_at(*map, b, i as usize)
                    ==> spec_settled(
                    old(energies)@[i],
                    map.spec_clusters()[b].spec_size() as int,
                    probs@[i],
                    spec_other_playing(*map, energies@, i as usize),
                    energies@[i],
                ),
        decreases cn - a,
    {
        let cl = &cls[a];
        proof {
            assert(*cl == map.spec_clusters()[a as int]);
            assert(cl.wf());
        }
        {
            let ghost entry = energies@;
            // the cluster's agents: the head, then the members
            let mut ids: Vec<usize> = Vec::new();
            ids.push(cl.head());
            let mlen = cl.members().len();
            let mut j: usize = 0;
            proof {
                assert(ids@ =~= seq![cl.spec_head()] + cl.spec_members().take(0));
            }
            while j < mlen
                invariant
                    j <= mlen,
                    ids@ == seq![cl.spec_head()] + cl.spec_members().take(j as int),
                decreases mlen - j,
            {
                let m = cl.members()[j];
                ids.push(m);
                proof {
                    assert(ids@ =~= seq![cl.spec_head()] + cl.spec_members().take(j + 1));
                }
                j += 1;
            }
            proof {
                assert(cl.spec_members().take(mlen as int) =~= cl.spec_members());
            }
            let ghost part = ids@;
            proof {
                assert(part[0] == cl.spec_head());
                assert(forall|t: int| 1 <= t < part.len() ==> part[t] == cl.spec_members()[t - 1]);
                assert(part.len() == cl.spec_size());
                // the cluster's agents are exactly the entries of `part`,
                // each exactly once
                assert forall|t: int| 0 <= t < part.len() implies (#[trigger] part[t]) < n && (
                map.spec_clusters()[a as int].spec_head() == part[t] || map.spec_clusters()[
                    a as int
                ].spec_members().contains(part[t])) by {
                    if t >= 1 {
                        assert(map.spec_clusters()[a as int].spec_members()[t - 1] == part[t]);
                    }
                };
                assert forall|t1: int, t2: int| 0 <= t1 < t2 < part.len() implies (
                #[trigger] part[t1]) != (#[trigger] part[t2]) by {
                    if t1 == 0 {
                        assert(cl.spec_members()[t2 - 1] != cl.spec_head());
                    } else {
                        assert(cl.spec_members()[t1 - 1] < cl.spec_members()[t2 - 1]);
                    }
                };
                assert forall|x: usize|
                    (map.spec_clusters()[a as int].spec_head() == x || map.spec_clusters()[
                        a as int
                    ].spec_members().contains(x)) implies part.contains(x) by {
                    if map.spec_clusters()[a as int].spec_head() == x {
                        assert(part[0] == x);
                    } else {
                        let k = choose|k: int|
                            0 <= k < cl.spec_members().len() && cl.spec_members()[k] == x;
                        assert(part[k + 1] == x);
                    }
                };
            }

            // Phase A: every member decides, against the pre-tick state
            let pn = ids.len();
            let mut k: usize = 0;
            while k < pn
                invariant
                    k <= pn,
                    pn == part.len(),
                    ids@ == part,
                    energies@.len() == n,
                    forall|i: int| 0 <= i < n ==> (#[trigger] energies@[i]).wf(),
                    forall|t: int|
                        0 <= t < k ==> SatelliteEnergy::spec_phase_a(
                            entry[(#[trigger] part[t]) as int],
                            cl.spec_size() as int,
                            probs@[part[t] as int],
                            energies@[part[t] as int],
                        ),
                    forall|i: int|
                        0 <= i < n && !(exists|t: int| 0 <= t < k && (#[trigger] part[t]) == i
                            as usize) ==> (#[trigger] energies@[i]) == entry[i],
                decreases pn - k,
            {
                let id = ids[k];
                proof {
                    assert(part[k as int] == id);
                    assert(energies@[id as int] == entry[id as int]) by {
                        if exists|t: int| 0 <= t < k && (#[trigger] part[t]) == id {
                            let t = choose|t: int| 0 <= t < k && (#[trigger] part[t]) == id;
                            assert(part[t] != part[k as int]);
                        }
                    };
                }
                SatelliteEnergy::update_game_in(energies, id, cl.size(), probs[id]);
                proof {
                    assert forall|t: int|
                        0 <= t < k + 1 implies SatelliteEnergy::spec_phase_a(
                        entry[(#[trigger] part[t]) as int],
                        cl.spec_size() as int,
                        probs@[part[t] as int],
                        energies@[part[t] as int],
                    ) by {
                        if t < k {
                            assert(part[t] != part[k as int]);
                        }
                    };
                    assert forall|i: int|
                        0 <= i < n && !(exists|t: int| 0 <= t < k + 1 && (#[trigger] part[t]) == i
                            as usize) implies (#[trigger] energies@[i]) == entry[i] by {
                        assert(i != id as int) by {
                            if i == id as int {
                                assert(part[k as int] == i as usize);
                            }
                        };
                    };
                }
                k += 1;
            }

            // snapshot of the decisions
            let mut flags: Vec<bool> = Vec::new();
            let mut k2: usize = 0;
            while k2 < pn
                invariant
                    k2 <= pn,
                    pn == part.len(),
                    ids@ == part,
                    energies@.len() == n,
                    flags@.len() == k2,
                    forall|t: int|
                        0 <= t < k2 ==> flags@[t] == energies@[(#[trigger] part[t]) as int].spec_in_game(),
                decreases pn - k2,
            {
                let id = ids[k2];
                flags.push(energies[id].in_game());
                k2 += 1;
            }
            let ghost mid = energies@;

            // Phase B: every member settles, against the snapshot
            let mut k3: usize = 0;
            while k3 < pn
                invariant
                    k3 <= pn,
                    pn == part.len(),
                    ids@ == part,
                    flags@.len() == pn,
                    energies@.len() == n,
                    forall|i: int| 0 <= i < n ==> (#[trigger] energies@[i]).wf(),
                    forall|t: int|
                        0 <= t < pn ==> flags@[t] == mid[(#[trigger] part[t]) as int].spec_in_game(),
                    forall|t: int|
                        0 <= t < k3 ==> SatelliteEnergy::spec_phase_b(
                            mid[(#[trigger] part[t]) as int],
                            spec_flags_other(flags@, t),
                            energies@[part[t] as int],
                        ),
                    forall|i: int|
                        0 <= i < n && !(exists|t: int| 0 <= t < k3 && (#[trigger] part[t]) == i
                            as usize) ==> (#[trigger] energies@[i]) == mid[i],
                decreases pn - k3,
            {
                let id = ids[k3];
                // the other members' decisions
                let mut others: Vec<bool> = Vec::new();
                let mut t: usize = 0;
                while t < pn
                    invariant
                        t <= pn,
                        pn == flags@.len(),
                        k3 < pn,
                        (exists|u: int| 0 <= u < others@.len() && others@[u]) <==> (exists|u: int|
                            0 <= u < t && u != k3 && flags@[u]),
                    decreases pn - t,
                {
                    if t != k3 {
                        let ghost pre_others = others@;
                        let f = flags[t];
                        others.push(f);
                        proof {
                            if exists|u: int| 0 <= u < others@.len() && others@[u] {
                                let u = choose|u: int| 0 <= u < others@.len() && others@[u];
                                if u < pre_others.len() {
                                    assert(pre_others[u]);
                                } else {
                                    assert(flags@[t as int]);
                                }
                            }
                            if exists|u: int| 0 <= u < t + 1 && u != k3 && flags@[u] {
                                let u = choose|u: int| 0 <= u < t + 1 && u != k3 && flags@[u];
                                if u < t {
                                    let w = choose|w: int|
                                        0 <= w < pre_others.len() && pre_others[w];
                                    assert(others@[w]);
                                } else {
                                    assert(others@[pre_others.len() as int]);
                                }
                            }
                        }
                    }
                    t += 1;
                }
                proof {
                    assert(part[k3 as int] == id);
                    assert(energies@[id as int] == mid[id as int]) by {
                        if exists|t2: int| 0 <= t2 < k3 && (#[trigger] part[t2]) == id {
                            let t2 = choose|t2: int| 0 <= t2 < k3 && (#[trigger] part[t2]) == id;
                            assert(part[t2] != part[k3 as int]);
                        }
                    };
                    assert(mid[id as int].spec_any(others@) == spec_flags_other(flags@, k3 as int));
                }
                SatelliteEnergy::update_in(energies, id, &others);
                proof {
                    assert forall|t2: int|
                        0 <= t2 < k3 + 1 implies SatelliteEnergy::spec_phase_b(
                        mid[(#[trigger] part[t2]) as int],
                        spec_flags_other(flags@, t2),
                        energies@[part[t2] as int],
                    ) by {
                        if t2 < k3 {
                            assert(part[t2] != part[k3 as int]);
                        }
                    };
                    assert forall|i: int|
                        0 <= i < n && !(exists|t2: int| 0 <= t2 < k3 + 1 && (#[trigger] part[t2])
                            == i as usize) implies (#[trigger] energies@[i]) == mid[i] by {
                        assert(i != id as int) by {
                            if i == id as int {
                                assert(part[k3 as int] == i as usize);
                            }
                        };
                    };
                }
                k3 += 1;
            }

            // the cluster is settled; everything else is as it was
            proof {
                assert forall|i: int|
                    0 <= i < n && !(exists|b: int|
                        0 <= b < a + 1 && #[trigger] spec_in_cluster_at(*map, b, i as usize)) implies (
                #[trigger] energies@[i]) == old(energies)@[i] by {
                    assert(!part.contains(i as usize)) by {
                        if part.contains(i as usize) {
                            assert(spec_in_cluster_at(*map, a as int, i as usize));
                        }
                    };
                    assert(energies@[i] == mid[i]) by {
                        if exists|t2: int| 0 <= t2 < pn && (#[trigger] part[t2]) == i as usize {
                            let t2 = choose|t2: int|
                                0 <= t2 < pn && (#[trigger] part[t2]) == i as usize;
                            assert(part.contains(i as usize));
                        }
                    };
                    assert(mid[i] == entry[i]) by {
                        if exists|t2: int| 0 <= t2 < pn && (#[trigger] part[t2]) == i as usize {
                            let t2 = choose|t2: int|
                                0 <= t2 < pn && (#[trigger] part[t2]) == i as usize;
                            assert(part.contains(i as usize));
                        }
                    };
                };
                assert forall|i: int, b: int|
                    0 <= i < n && 0 <= b < a + 1 && #[trigger] spec_in_cluster_at(
                        *map,
                        b,
                        i as usize,
                    ) implies spec_settled(
                    old(energies)@[i],
                    map.spec_clusters()[b].spec_size() as int,
                    probs@[i],
                    spec_other_playing(*map, energies@, i as usize),
                    energies@[i],
                ) by {
                    if b < a {
                        // settled by an earlier cluster; untouched now
                        assert(spec_settled(
                            old(energies)@[i],
                            map.spec_clusters()[b].spec_size() as int,
                            probs@[i],
                            spec_other_playing(*map, entry, i as usize),
                            entry[i],
                        ));
                        assert(!part.contains(i as usize)) by {
                            if part.contains(i as usize) {
                                lemma_unique_cluster(*map, b, a as int, i as usize);
                            }
                        };
                        assert(energies@[i] == entry[i]) by {
                            assert(energies@[i] == mid[i]) by {
                                if exists|t2: int|
                                    0 <= t2 < pn && (#[trigger] part[t2]) == i as usize {
                                    let t2 = choose|t2: int|
                                        0 <= t2 < pn && (#[trigger] part[t2]) == i as usize;
                                    assert(part.contains(i as usize));
                                }
                            };
                            assert(mid[i] == entry[i]) by {
                                if exists|t2: int|
                                    0 <= t2 < pn && (#[trigger] part[t2]) == i as usize {
                                    let t2 = choose|t2: int|
                                        0 <= t2 < pn && (#[trigger] part[t2]) == i as usize;
                                    assert(part.contains(i as usize));
                                }
                            };
                        };
                        // whether some other member plays did not change:
                        // the other members belong to cluster `b` too
                        assert(spec_other_playing(*map, energies@, i as usize)
                            == spec_other_playing(*map, entry, i as usize)) by {
                            if spec_other_playing(*map, entry, i as usize) {
                                let (bb, x): (int, int) = choose|bb: int, x: int|
                                    #![trigger map.spec_clusters()[bb], entry[x]]
                                    0 <= bb < map.spec_clusters().len() && spec_in_cluster_at(
                                        *map,
                                        bb,
                                        i as usize,
                                    ) && 0 <= x < entry.len() && x != i && spec_in_cluster_at(
                                        *map,
                                        bb,
                                        x as usize,
                                    ) && entry[x].spec_in_game();
                                lemma_unique_cluster(*map, bb, b, i as usize);
                                assert(!part.contains(x as usize)) by {
                                    if part.contains(x as usize) {
                                        lemma_unique_cluster(*map, bb, a as int, x as usize);
                                    }
                                };
                                assert(energies@[x] == mid[x] && mid[x] == entry[x]) by {
                                    if exists|t2: int|
                                        0 <= t2 < pn && (#[trigger] part[t2]) == x as usize {
                                        let t2 = choose|t2: int|
                                            0 <= t2 < pn && (#[trigger] part[t2]) == x as usize;
                                        assert(part.contains(x as usize));
                                    }
                                };
                                assert(energies@[x].spec_in_game());
                            }
                            if spec_other_playing(*map, energies@, i as usize) {
                                let (bb, x): (int, int) = choose|bb: int, x: int|
                                    #![trigger map.spec_clusters()[bb], energies@[x]]
                                    0 <= bb < map.spec_clusters().len() && spec_in_cluster_at(
                                        *map,
                                        bb,
                                        i as usize,
                                    ) && 0 <= x < energies@.len() && x != i && spec_in_cluster_at(
                                        *map,
                                        bb,
                                        x as usize,
                                    ) && energies@[x].spec_in_game();
                                lemma_unique_cluster(*map, bb, b, i as usize);
                                assert(!part.contains(x as usize)) by {
                                    if part.contains(x as usize) {
                                        lemma_unique_cluster(*map, bb, a as int, x as usize);
                                    }
                                };
                                assert(energies@[x] == mid[x] && mid[x] == entry[x]) by {
                                    if exists|t2: int|
                                        0 <= t2 < pn && (#[trigger] part[t2]) == x as usize {
                                        let t2 = choose|t2: int|
                                            0 <= t2 < pn && (#[trigger] part[t2]) == x as usize;
                                        assert(part.contains(x as usize));
                                    }
                                };
                                assert(entry[x].spec_in_game());
                            }
                        };
                    } else {
                        // settled by this very cluster
                        assert(b == a as int);
                        assert(part.contains(i as usize));
                        let t = choose|t: int| 0 <= t < pn && (#[trigger] part[t]) == i as usize;
                        assert(entry[i] == old(energies)@[i]) by {
                            if exists|bb: int|
                                0 <= bb < a && #[trigger] spec_in_cluster_at(*map, bb, i as usize) {
                                let bb = choose|bb: int|
                                    0 <= bb < a && #[trigger] spec_in_cluster_at(*map, bb, i as usize);
                                lemma_unique_cluster(*map, bb, a as int, i as usize);
                            }
                        };
                        assert(SatelliteEnergy::spec_phase_a(
                            entry[i],
                            cl.spec_size() as int,
                            probs@[i],
                            mid[i],
                        ));
                        assert(SatelliteEnergy::spec_phase_b(
                            mid[i],
                            spec_flags_other(flags@, t),
                            energies@[i],
                        ));
                        // the snapshot's other flags say exactly that some
                        // other member of this cluster plays
                        assert(spec_flags_other(flags@, t) == spec_other_playing(
                            *map,
                            energies@,
                            i as usize,
                        )) by {
                            if spec_flags_other(flags@, t) {
                                let u = choose|u: int|
                                    0 <= u < flags@.len() && u != t && flags@[u];
                                let x = part[u];
                                assert(mid[x as int].spec_in_game());
                                assert(SatelliteEnergy::spec_phase_b(
                                    mid[x as int],
                                    spec_flags_other(flags@, u),
                                    energies@[x as int],
                                ));
                                assert(energies@[x as int].spec_in_game());
                                assert(x != i as usize) by {
                                    if u < t {
                                        assert(part[u] != part[t]);
                                    } else {
                                        assert(part[t] != part[u]);
                                    }
                                };
                                assert(spec_in_cluster_at(*map, a as int, x));
                                assert(spec_other_playing(*map, energies@, i as usize));
                            }
                            if spec_other_playing(*map, energies@, i as usize) {
                                let (bb, x): (int, int) = choose|bb: int, x: int|
                                    #![trigger map.spec_clusters()[bb], energies@[x]]
                                    0 <= bb < map.spec_clusters().len() && spec_in_cluster_at(
                                        *map,
                                        bb,
                                        i as usize,
                                    ) && 0 <= x < energies@.len() && x != i && spec_in_cluster_at(
                                        *map,
                                        bb,
                                        x as usize,
                                    ) && energies@[x].spec_in_game();
                                lemma_unique_cluster(*map, bb, a as int, i as usize);
                                assert(part.contains(x as usize));
                                let u = choose|u: int|
                                    0 <= u < pn && (#[trigger] part[u]) == x as usize;
                                assert(SatelliteEnergy::spec_phase_b(
                                    mid[x],
                                    spec_flags_other(flags@, u),
                                    energies@[x],
                                ));
                                assert(flags@[u] == mid[x].spec_in_game());
                                assert(flags@[u]);
                                assert(u != t) by {
                                    if u == t {
                                        assert(part[t] == i as usize);
                                    }
                                };
                                assert(spec_flags_other(flags@, t));
                            }
                        };
                    }
                };
            }
        }
        a += 1;
    }
    proof {
        assert forall|i: int|
            0 <= i < n && !spec_participant(*map, i as usize) implies (#[trigger] energies@[i])
            == old(energies)@[i] by {
            if exists|b: int| 0 <= b < cn && #[trigger] spec_in_cluster_at(*map, b, i as usize) {
                let b = choose|b: int| 0 <= b < cn && #[trigger] spec_in_cluster_at(*map, b, i as usize);
                assert(spec_participant(*map, i as usize));
            }
        };
    }
}

/// The simulation arena: the co-indexed facet tables of every satellite,
/// the cluster map of the last comms tick, the spatial index it built, the
/// selected satellite, and the configuration of this generation. The
/// driver owns the arena exclusively for the duration of a tick.
pub struct Simulation {
    entity_props: Vec<SatelliteProperties>,
    entity_comms: Vec<SatelliteComms>,
    entity_energy: Vec<SatelliteEnergy>,
    cluster_map: ClusterMap,
    qtree: Option<QuadTree<usize>>,
    selected_satellite_id: Option<usize>,
    settings: Settings,
}

impl Simulation {
    pub closed spec fn spec_props(self) -> Seq<SatelliteProperties> {
        self.entity_props@
    }

    pub closed spec fn spec_comms(self) -> Seq<SatelliteComms> {
        self.entity_comms@
    }

    pub closed spec fn spec_energies(self) -> Seq<SatelliteEnergy> {
        self.entity_energy@
    }

    pub closed spec fn spec_cluster_map(self) -> ClusterMap {
        self.cluster_map
    }

    pub closed spec fn spec_qtree(self) -> Option<QuadTree<usize>> {
        self.qtree
    }

    pub closed spec fn spec_selected(self) -> Option<usize> {
        self.selected_satellite_id
    }

    pub closed spec fn spec_settings(self) -> Settings {
        self.settings
    }

    /// The arena invariant: every agent has exactly one facet of each kind,
    /// co-indexed by its id; every facet is well formed; the cluster map is
    /// well formed and exclusive and speaks only of agents of the arena;
    /// the spatial index, if one was built, is well formed; and exactly the
    /// selected satellite carries the selection flag.
    pub open spec fn wf(self) -> bool {
        &&& self.spec_settings().wf()
        &&& self.spec_props().len() == self.spec_settings().boids
        &&& self.spec_comms().len() == self.spec_props().len()
        &&& self.spec_energies().len() == self.spec_props().len()
        &&& (forall|i: int|
            0 <= i < self.spec_props().len() ==> (#[trigger] self.spec_props()[i]).wf()
                && self.spec_props()[i].spec_id() == i)
        &&& (forall|i: int|
            0 <= i < self.spec_comms().len() ==> (#[trigger] self.spec_comms()[i]).wf()
                && self.spec_comms()[i].spec_id() == i)
        &&& (forall|i: int|
            0 <= i < self.spec_energies().len() ==> (#[trigger] self.spec_energies()[i]).wf()
                && self.spec_energies()[i].spec_id() == i)
        &&& self.spec_cluster_map().wf()
        &&& self.spec_cluster_map().exclusive()
        &&& (forall|a: int|
            0 <= a < self.spec_cluster_map().spec_clusters().len() ==> (
            #[trigger] self.spec_cluster_map().spec_clusters()[a]).spec_head()
                < self.spec_props().len())
        &&& (forall|a: int, j: int|
            0 <= a < self.spec_cluster_map().spec_clusters().len() && 0 <= j
                < self.spec_cluster_map().spec_clusters()[a].spec_members().len() ==> (
            #[trigger] self.spec_cluster_map().spec_clusters()[a].spec_members()[j])
                < self.spec_props().len())
        &&& (self.spec_qtree() matches Some(t) ==> t.wf())
        &&& (self.spec_selected() matches Some(s) ==> s < self.spec_props().len())
        &&& (forall|i: int|
            0 <= i < self.spec_props().len() ==> (#[trigger] self.spec_props()[i]).spec_selected()
                == (self.spec_selected() == Some(i as usize)))
    }

    /// A fresh arena for one simulation generation: one satellite per id,
    /// each with random orbit, hue and energy, no clusters yet, nothing
    /// selected.
    #[verifier::loop_isolation(false)]
    pub fn create(settings: Settings) -> (sim: Simulation)
        requires
            settings.wf(),
        ensures
            sim.wf(),
            sim.spec_settings() == settings,
            sim.spec_cluster_map().spec_clusters() == Seq::<Cluster>::empty(),
            sim.spec_selected() is None,
            sim.spec_qtree() is None,
    {
        let count = settings.boids;
        let mut entity_props: Vec<SatelliteProperties> = Vec::new();
        let mut entity_comms: Vec<SatelliteComms> = Vec::new();
        let mut entity_energy: Vec<SatelliteEnergy> = Vec::new();
        let mut id: usize = 0;
        while id < count
            invariant
                id <= count,
                entity_props@.len() == id,
                entity_comms@.len() == id,
                entity_energy@.len() == id,
                forall|i: int|
                    0 <= i < id ==> (#[trigger] entity_props@[i]).wf()
                        && entity_props@[i].spec_id() == i && !entity_props@[i].spec_selected(),
                forall|i: int|
                    0 <= i < id ==> (#[trigger] entity_comms@[i]).wf()
                        && entity_comms@[i].spec_id() == i,
                forall|i: int|
                    0 <= i < id ==> (#[trigger] entity_energy@[i]).wf()
                        && entity_energy@[i].spec_id() == i,
            decreases count - id,
        {
            entity_props.push(SatelliteProperties::new_random(id));
            entity_comms.push(SatelliteComms::new(id));
            entity_energy.push(SatelliteEnergy::new_random(id, &settings));
            id += 1;
        }
        Simulation {
            entity_props,
            entity_comms,
            entity_energy,
            cluster_map: ClusterMap::new(),
            qtree: None,
            selected_satellite_id: None,
            settings,
        }
    }

    /// Tear the arena down and rebuild it for a new configuration: the
    /// explicit reset a settings change triggers.
    pub fn changed(&mut self, settings: Settings)
        requires
            settings.wf(),
        ensures
            final(self).wf(),
            final(self).spec_settings() == settings,
            final(self).spec_selected() is None,
    {
        *self = Simulation::create(settings);
    }

    /// One comms tick: rebuild the spatial index from the given positions,
    /// re-elect the clusters against the previous map, and relay packets
    /// between the neighbours the index finds.
    #[verifier::loop_isolation(false)]
    #[verifier::rlimit(60)]
    pub fn tick_comms(&mut self, positions: &Vec<Point>)
        requires
            old(self).wf(),
            positions.len() == old(self).spec_props().len(),
            forall|i: int|
                0 <= i < positions@.len() ==> 0 <= (#[trigger] positions@[i]).x <= old(self).spec_settings().world_size && 0 <= positions@[i].y <= old(self).spec_settings().world_size,
        ensures
            final(self).wf(),
            final(self).spec_settings() == old(self).spec_settings(),
            final(self).spec_props().len() == old(self).spec_props().len(),
            final(self).spec_energies() == old(self).spec_energies(),
            final(self).spec_selected() == old(self).spec_selected(),
            final(self).spec_qtree() is Some,
            forall|i: int|
                0 <= i < final(self).spec_comms().len() ==> (
                #[trigger] final(self).spec_comms()[i]).spec_from_later(i),
            forall|i: int|
                0 <= i < final(self).spec_comms().len() ==> old(self).spec_comms()[
                    i
                ].spec_sequence() <= (#[trigger] final(self).spec_comms()[i]).spec_sequence()
                    <= old(self).spec_comms()[i].spec_sequence() + 1,
            final(self).spec_cluster_map().spec_heads() == spec_greedy_heads(
                spec_candidates(
                    old(self).spec_energies(),
                    old(self).spec_settings().energy_threshold,
                ),
                positions@,
                old(self).spec_settings().cluster_distance * old(self).spec_settings().cluster_distance,
                Seq::empty(),
            ),
            forall|a: int, b: int|
                0 <= a < final(self).spec_cluster_map().spec_clusters().len() && 0 <= b < final(self).spec_cluster_map().spec_clusters().len() && a != b ==> spec_sep(
                    positions@,
                    (#[trigger] final(self).spec_cluster_map().spec_clusters()[a]).spec_head(),
                    (#[trigger] final(self).spec_cluster_map().spec_clusters()[b]).spec_head(),
                    old(self).spec_settings().cluster_distance * old(self).spec_settings().cluster_distance,
                ),
            forall|a: int, j: int|
                0 <= a < final(self).spec_cluster_map().spec_clusters().len() && 0 <= j < final(self).spec_cluster_map().spec_clusters()[a].spec_members().len() ==> {
                    let m = (#[trigger] final(self).spec_cluster_map().spec_clusters()[
                        a
                    ].spec_members()[j]);
                    &&& m < old(self).spec_props().len()
                    &&& !final(self).spec_cluster_map().spec_heads().contains(m)
                    &&& spec_nearest_head(
                        final(self).spec_cluster_map().spec_heads(),
                        positions@,
                        positions@[m as int],
                    ) == Some(final(self).spec_cluster_map().spec_clusters()[a].spec_head())
                },
            forall|x: int|
                0 <= x < old(self).spec_props().len() && !final(self).spec_cluster_map().spec_heads().contains(x as usize) ==> ((
                #[trigger] spec_nearest_head(
                    final(self).spec_cluster_map().spec_heads(),
                    positions@,
                    positions@[x],
                )) matches Some(h) ==> exists|a: int|
                    0 <= a < final(self).spec_cluster_map().spec_clusters().len() && final(self).spec_cluster_map().spec_clusters()[a].spec_head() == h && final(self).spec_cluster_map().spec_clusters()[a].spec_members().contains(x as usize)),
            forall|a: int|
                0 <= a < final(self).spec_cluster_map().spec_clusters().len() ==> {
                    let c = (#[trigger] final(self).spec_cluster_map().spec_clusters()[a]);
                    let h = c.spec_head();
                    let base = spec_base_hue(
                        old(self).spec_cluster_map(),
                        old(self).spec_props(),
                        h,
                    );
                    &&& (c.spec_members().len() == 0 ==> c.spec_color() == base
                        && final(self).spec_props()[h as int].spec_hue() == base)
                    &&& (c.spec_members().len() > 0 ==> c.spec_color() as int == spec_blend(
                        base,
                        c.spec_members().map_values(
                            |m: usize| old(self).spec_props()[m as int].spec_hue(),
                        ),
                    ) && final(self).spec_props()[h as int].spec_hue() == c.spec_color() && (
                    forall|j: int|
                        0 <= j < c.spec_members().len() ==> final(self).spec_props()[(
                        #[trigger] c.spec_members()[j]) as int].spec_hue() == c.spec_color()))
                },
            forall|i: int|
                0 <= i < old(self).spec_props().len() && !spec_in_map(
                    final(self).spec_cluster_map(),
                    i as usize,
                ) ==> final(self).spec_props()[i].spec_hue() == old(self).spec_props()[
                    i
                ].spec_hue(),
    {
        let n = self.entity_props.len();
        let ws = self.settings.world_size;

        // build the spatial index over this tick's positions
        let world = Box2d::new(Point::new(0, ws), Point::new(ws, 0));
        let mut qtree: QuadTree<usize> = QuadTree::new(world, 4);
        let mut id: usize = 0;
        while id < n
            invariant
                id <= n,
                qtree.wf(),
                qtree.spec_boundary() == world,
                forall|k: int|
                    0 <= k < qtree.entries_seq().len() ==> (#[trigger] qtree.entries_seq()[k]).1
                        < n,
            decreases n - id,
        {
            let ghost pre = qtree.entries_seq();
            let inserted = qtree.insert(positions[id], id);
            proof {
                if inserted {
                    lemma_bag_grows_all(
                        pre,
                        qtree.entries_seq(),
                        (positions@[id as int], id),
                        |pr: (Point, usize)| pr.1 < n,
                    );
                }
            }
            id += 1;
        }

        // re-elect the clusters against the previous map
        let map = form_clusters(
            &mut self.entity_props,
            &self.entity_energy,
            positions,
            &self.cluster_map,
            self.settings.energy_threshold,
            self.settings.cluster_distance,
        );
        self.cluster_map = map;

        // relay packets between neighbours found through the index; each
        // agent's origination draw is one roll in ten
        let mut originate: Vec<bool> = Vec::new();
        let mut d: usize = 0;
        while d < n
            invariant
                d <= n,
                originate@.len() == d,
            decreases n - d,
        {
            originate.push(crate::entropy::rand_below(10) == 0);
            d += 1;
        }
        proof {
            qtree.lemma_entries_in_boundary();
            assert forall|k: int|
                0 <= k < qtree.entries_seq().len() implies (#[trigger] qtree.entries_seq()[k]).1
                < self.entity_props@.len() && qtree.entries_seq()[k].0.in_range() by {
                assert(qtree.spec_boundary().spec_contains(qtree.entries_seq()[k].0));
            };
        }
        SatelliteComms::update_all(
            &self.entity_props,
            positions,
            &mut self.entity_comms,
            &qtree,
            ws,
            &originate,
        );
        self.qtree = Some(qtree);
    }

    /// One game tick: the two-phase energy game over the current cluster
    /// map. The entering-probabilities are supplied per agent, computed by
    /// the driver from this arena's own energy facets.
    pub fn tick_game(&mut self, probs: &Vec<ProbEntering>)
        requires
            old(self).wf(),
            probs.len() == old(self).spec_energies().len(),
        ensures
            final(self).wf(),
            final(self).spec_settings() == old(self).spec_settings(),
            final(self).spec_props() == old(self).spec_props(),
            final(self).spec_comms() == old(self).spec_comms(),
            final(self).spec_cluster_map() == old(self).spec_cluster_map(),
            final(self).spec_selected() == old(self).spec_selected(),
            final(self).spec_energies().len() == old(self).spec_energies().len(),
            forall|i: int|
                0 <= i < old(self).spec_energies().len() && !spec_participant(
                    old(self).spec_cluster_map(),
                    i as usize,
                ) ==> final(self).spec_energies()[i] == old(self).spec_energies()[i],
            forall|i: int, b: int|
                0 <= i < old(self).spec_energies().len() && 0 <= b < old(self).spec_cluster_map().spec_clusters().len() && #[trigger] spec_in_cluster_at(
                    old(self).spec_cluster_map(),
                    b,
                    i as usize,
                ) ==> spec_settled(
                    old(self).spec_energies()[i],
                    old(self).spec_cluster_map().spec_clusters()[b].spec_size() as int,
                    probs@[i],
                    spec_other_playing(
                        old(self).spec_cluster_map(),
                        final(self).spec_energies(),
                        i as usize,
                    ),
                    final(self).spec_energies()[i],
                ),
    {
        tick_game(&mut self.entity_energy, &self.cluster_map, probs);
        proof {
            assert forall|i: int|
                0 <= i < self.entity_energy@.len() implies (
            #[trigger] self.entity_energy@[i]).wf() && self.entity_energy@[i].spec_id() == i by {
                if spec_participant(self.cluster_map, i as usize) {
                    let b = choose|b: int|
                        0 <= b < self.cluster_map.spec_clusters().len()
                            && #[trigger] spec_in_cluster_at(self.cluster_map, b, i as usize);
                    assert(self.entity_energy@[i].same_parameters(old(self).spec_energies()[i]));
                }
            };
        }
    }

    /// Toggle the selection: clicking the selected satellite clears the
    /// selection, clicking any other selects it alone.
    pub fn clicked_sat(&mut self, id: usize)
        requires
            old(self).wf(),
            id < old(self).spec_props().len(),
        ensures
            final(self).wf(),
            final(self).spec_settings() == old(self).spec_settings(),
            final(self).spec_comms() == old(self).spec_comms(),
            final(self).spec_energies() == old(self).spec_energies(),
            final(self).spec_cluster_map() == old(self).spec_cluster_map(),
            final(self).spec_selected() == (if old(self).spec_selected() == Some(id) {
                None::<usize>
            } else {
                Some(id)
            }),
            forall|i: int|
                0 <= i < old(self).spec_props().len() ==> (
                #[trigger] final(self).spec_props()[i]).spec_hue() == old(self).spec_props()[
                    i
                ].spec_hue(),
    {
        let same = match self.selected_satellite_id {
            Some(s) => s == id,
            None => false,
        };
        if same {
            self.selected_satellite_id = None;
            SatelliteProperties::set_selected_in(&mut self.entity_props, id, false);
        } else {
            if let Some(prev) = self.selected_satellite_id {
                SatelliteProperties::set_selected_in(&mut self.entity_props, prev, false);
            }
            self.selected_satellite_id = Some(id);
            SatelliteProperties::set_selected_in(&mut self.entity_props, id, true);
        }
    }

    pub fn props(&self) -> (r: &Vec<SatelliteProperties>)
        ensures
            r@ == self.spec_props(),
    {
        &self.entity_props
    }

    pub fn comms(&self) -> (r: &Vec<SatelliteComms>)
        ensures
            r@ == self.spec_comms(),
    {
        &self.entity_comms
    }

    pub fn energies(&self) -> (r: &Vec<SatelliteEnergy>)
        ensures
            r@ == self.spec_energies(),
    {
        &self.entity_energy
    }

    pub fn cluster_map(&self) -> (r: &ClusterMap)
        ensures
            *r == self.spec_cluster_map(),
    {
        &self.cluster_map
    }

    pub fn qtree(&self) -> (r: &Option<QuadTree<usize>>)
        ensures
            *r == self.spec_qtree(),
    {
        &self.qtree
    }

    pub fn selected_satellite(&self) -> (r: Option<usize>)
        ensures
            r == self.spec_selected(),
    {
        self.selected_satellite_id
    }

    pub fn settings(&self) -> (r: &Settings)
        ensures
            *r == self.spec_settings(),
    {
        &self.settings
    }
}

} // verus!
