//! Cluster formation: candidates, head election, membership, and hues.

use satsim::cluster::{
    blend_hue, elect_heads, form_clusters, nearest_head, select_candidates, Cluster, ClusterMap,
};
use satsim::quadtree::Point;
use satsim::satellite::{SatelliteEnergy, SatelliteProperties};
use satsim::settings::Settings;

fn props_with_hues(hues: &[u32]) -> Vec<SatelliteProperties> {
    hues.iter()
        .enumerate()
        .map(|(id, h)| SatelliteProperties::new(id, 36000, *h).unwrap())
        .collect()
}

fn energies_with(levels: &[u32], settings: &Settings) -> Vec<SatelliteEnergy> {
    levels
        .iter()
        .enumerate()
        .map(|(id, e)| SatelliteEnergy::new(id, *e, settings).unwrap())
        .collect()
}

#[test]
fn default_settings_values() {
    let s = Settings::default();
    assert_eq!(s.boids, 64);
    assert_eq!(s.tick_interval_ms, 50);
    assert_eq!(s.energy_threshold, 50);
    assert_eq!(s.cluster_distance, 100);
    assert_eq!(s.comms_cost, 2);
    assert_eq!(s.energy_gain, 3);
    assert_eq!(s.max_energy, 100);
    assert_eq!(s.world_size, 1200);
}

#[test]
fn candidates_need_strictly_more_energy() {
    let s = Settings::default();
    let energies = energies_with(&[60, 50, 51, 0], &s);
    let cands = select_candidates(&energies, 50);
    assert_eq!(cands, vec![0, 2]);
}

#[test]
fn election_is_greedy_with_inclusive_separation() {
    let positions = vec![Point::new(0, 0), Point::new(50, 0), Point::new(100, 0)];
    let candidates = vec![0usize, 1, 2];
    let heads = elect_heads(&candidates, &positions, 100);
    // 1 is within 100 of 0; 2 is exactly 100 away, which is enough
    assert_eq!(heads, vec![0, 2]);
}

#[test]
fn nearest_head_breaks_ties_toward_the_earlier_head() {
    let positions = vec![Point::new(0, 0), Point::new(20, 0), Point::new(10, 0)];
    let heads = vec![0usize, 1];
    // agent 2 sits exactly between the two heads
    assert_eq!(nearest_head(&heads, &positions, positions[2]), Some(0));
    assert_eq!(nearest_head(&Vec::new(), &positions, positions[2]), None);
}

#[test]
fn blend_mixes_cluster_hue_with_member_mean() {
    let props = props_with_hues(&[10_000, 20_000, 40_000]);
    let members = vec![1usize, 2];
    // member mean 30_000, blended half-and-half with 100_000
    assert_eq!(blend_hue(100_000, &props, &members), 65_000);
}

/// Three agents at distances 0, 50 and 200 from a head candidate, with a
/// separation of 100: the far agent becomes an independent second head and
/// the near ones join the first.
#[test]
fn two_heads_form_and_near_agents_join_the_first() {
    let s = Settings::default();
    let mut props = props_with_hues(&[10_000, 20_000, 40_000, 70_000]);
    let energies = energies_with(&[60, 10, 10, 60], &s);
    let positions = vec![
        Point::new(100, 100),
        Point::new(100, 100),
        Point::new(150, 100),
        Point::new(300, 100),
    ];
    let prev = ClusterMap::new();
    let map = form_clusters(&mut props, &energies, &positions, &prev, 50, 100);

    let clusters = map.clusters();
    assert_eq!(clusters.len(), 2);
    assert_eq!(clusters[0].head(), 0);
    assert_eq!(clusters[0].members(), &vec![1, 2]);
    assert_eq!(clusters[0].size(), 3);
    assert_eq!(clusters[1].head(), 3);
    assert_eq!(clusters[1].members().len(), 0);
    assert_eq!(clusters[1].size(), 1);

    // head separation: the two heads are at least 100 apart
    let d2 = positions[clusters[0].head()].dist_sq(&positions[clusters[1].head()]);
    assert!(d2 >= 100 * 100);

    // hue rule: the first cluster blends its head's hue with the member
    // mean ((20_000 + 40_000) / 2 = 30_000): (10_000 + 30_000) / 2
    assert_eq!(clusters[0].color(), 20_000);
    assert_eq!(props[0].color(), 20_000);
    assert_eq!(props[1].color(), 20_000);
    assert_eq!(props[2].color(), 20_000);
    // the lone second head keeps its own hue
    assert_eq!(clusters[1].color(), 70_000);
    assert_eq!(props[3].color(), 70_000);
}

/// Cluster exclusivity: no agent is a member of two clusters, and no head
/// appears in any member list.
#[test]
fn clusters_are_exclusive() {
    let s = Settings::default();
    let mut props = props_with_hues(&[0, 1, 2, 3, 4, 5]);
    let energies = energies_with(&[90, 10, 90, 10, 10, 10], &s);
    let positions = vec![
        Point::new(0, 0),
        Point::new(10, 0),
        Point::new(500, 0),
        Point::new(510, 0),
        Point::new(240, 0),
        Point::new(260, 0),
    ];
    let prev = ClusterMap::new();
    let map = form_clusters(&mut props, &energies, &positions, &prev, 50, 100);
    let clusters = map.clusters();

    let heads: Vec<usize> = clusters.iter().map(|c| c.head()).collect();
    let mut seen: Vec<usize> = Vec::new();
    for c in clusters.iter() {
        for m in c.members().iter() {
            assert!(!heads.contains(m), "a head appears as a member");
            assert!(!seen.contains(m), "an agent is in two clusters");
            seen.push(*m);
        }
    }
}

/// Hue continuity: a cluster whose head led a cluster on the previous tick
/// starts from that cluster's hue, not from the head's own.
#[test]
fn hue_carries_over_between_ticks() {
    let s = Settings::default();
    let mut props = props_with_hues(&[10_000, 20_000, 40_000]);
    let energies = energies_with(&[60, 10, 10], &s);
    let positions = vec![Point::new(0, 0), Point::new(10, 0), Point::new(20, 0)];

    let prev = ClusterMap::new();
    let map1 = form_clusters(&mut props, &energies, &positions, &prev, 50, 100);
    // first tick: base 10_000, member mean 30_000, blended to 20_000
    assert_eq!(map1.clusters()[0].color(), 20_000);
    // second tick: base is the carried 20_000; members were recoloured to
    // 20_000 too, so the blend stays there
    let map2 = form_clusters(&mut props, &energies, &positions, &map1, 50, 100);
    assert_eq!(map2.clusters()[0].color(), 20_000);
}

#[test]
fn no_candidates_mean_no_clusters() {
    let s = Settings::default();
    let mut props = props_with_hues(&[100, 200]);
    let energies = energies_with(&[10, 20], &s);
    let positions = vec![Point::new(0, 0), Point::new(10, 0)];
    let prev = ClusterMap::new();
    let map = form_clusters(&mut props, &energies, &positions, &prev, 50, 100);
    assert_eq!(map.clusters().len(), 0);
    // nobody was recoloured
    assert_eq!(props[0].color(), 100);
    assert_eq!(props[1].color(), 200);
}

#[test]
fn cluster_map_insert_get_remove() {
    let mut map = ClusterMap::new();
    let c = Cluster::new(7);
    assert_eq!(c.size(), 1);
    assert_eq!(c.members().len(), 0);
    map.insert(c);
    assert!(map.get(7).is_some());
    assert_eq!(map.get(7).unwrap().head(), 7);
    assert!(map.get(8).is_none());
    let removed = map.remove(7);
    assert!(removed.is_some());
    assert_eq!(removed.unwrap().head(), 7);
    assert!(map.get(7).is_none());
    assert!(map.remove(7).is_none());
    let empty = ClusterMap::default();
    assert_eq!(empty.clusters().len(), 0);
}

#[test]
fn rejected_constructions() {
    let s = Settings::default();
    // hue out of the circle, orbit out of its bands, energy past the bound
    assert!(SatelliteProperties::new(0, 36000, 360_000).is_none());
    assert!(SatelliteProperties::new(0, 400, 0).is_none());
    assert!(SatelliteProperties::new(0, 40_001, 0).is_none());
    assert!(SatelliteEnergy::new(0, 101, &s).is_none());
    assert!(SatelliteEnergy::new(0, 100, &s).is_some());
}
