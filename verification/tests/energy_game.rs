//! The two-phase energy game: decisions, settlement, and energy bounds.

use satsim::cluster::{Cluster, ClusterMap};
use satsim::satellite::{ProbEntering, SatelliteEnergy};
use satsim::settings::Settings;
use satsim::simulation::tick_game;

fn energies_with(levels: &[u32], settings: &Settings) -> Vec<SatelliteEnergy> {
    levels
        .iter()
        .enumerate()
        .map(|(id, e)| SatelliteEnergy::new(id, *e, settings).unwrap())
        .collect()
}

fn cluster_of(head: usize, members: &[usize]) -> ClusterMap {
    let mut map = ClusterMap::new();
    let mut c = Cluster::new(head);
    for m in members {
        c.add_member(*m);
    }
    map.insert(c);
    map
}

/// A single-member cluster with energy 10 and cost 2 enters the game,
/// since 10 exceeds 2.
#[test]
fn lone_agent_with_surplus_energy_plays() {
    let s = Settings::default();
    let mut e = SatelliteEnergy::new(7, 10, &s).unwrap();
    e.update_game(1, ProbEntering::Invalid);
    assert!(e.in_game());
    assert_eq!(e.energy(), 10);
}

#[test]
fn lone_agent_at_exact_cost_stays_out() {
    let s = Settings::default();
    let mut e = SatelliteEnergy::new(7, 2, &s).unwrap();
    e.update_game(1, ProbEntering::Valid(1_000_000));
    assert!(!e.in_game());
}

/// The decision boundary: an agent with energy below the cost never plays,
/// whatever the cluster size or the probability.
#[test]
fn poor_agent_never_plays() {
    let s = Settings::default();
    for size in [0usize, 1, 2, 5, 50] {
        for prob in [
            ProbEntering::Invalid,
            ProbEntering::Valid(0),
            ProbEntering::Valid(1_000_000),
        ] {
            let mut e = SatelliteEnergy::new(3, 1, &s).unwrap();
            e.update_game(size, prob);
            assert!(!e.in_game());
        }
    }
}

#[test]
fn degenerate_probability_forces_the_agent_out() {
    let s = Settings::default();
    let mut e = SatelliteEnergy::new(3, 50, &s).unwrap();
    e.update_game(4, ProbEntering::Invalid);
    assert!(!e.in_game());
    // a value past one whole is equally unusable
    let mut e2 = SatelliteEnergy::new(3, 50, &s).unwrap();
    e2.update_game(4, ProbEntering::Valid(1_000_001));
    assert!(!e2.in_game());
}

#[test]
fn certain_probability_caches_and_enters() {
    let s = Settings::default();
    let mut e = SatelliteEnergy::new(3, 50, &s).unwrap();
    e.update_game(4, ProbEntering::Valid(1_000_000));
    assert!(e.in_game());
    assert_eq!(e.prob_entering(), 1_000_000);
    let mut e2 = SatelliteEnergy::new(3, 50, &s).unwrap();
    e2.update_game(4, ProbEntering::Valid(0));
    assert!(!e2.in_game());
    assert_eq!(e2.prob_entering(), 0);
}

#[test]
fn settlement_pays_recharges_and_clamps() {
    let s = Settings::default();
    // a playing agent pays the cost
    let mut playing = SatelliteEnergy::new(0, 10, &s).unwrap();
    playing.update_game(1, ProbEntering::Invalid);
    assert!(playing.in_game());
    playing.update(&vec![false, false]);
    assert_eq!(playing.energy(), 8);
    // an idle agent beside a playing neighbour gains, clamped at the bound
    let mut idle = SatelliteEnergy::new(1, 99, &s).unwrap();
    idle.update(&vec![true]);
    assert_eq!(idle.energy(), 100);
    // an idle agent among idle neighbours keeps its energy
    let mut alone = SatelliteEnergy::new(2, 40, &s).unwrap();
    alone.update(&vec![false, false, false]);
    assert_eq!(alone.energy(), 40);
}

/// One full game tick over a cluster of three, with certain probabilities:
/// payers pay, the broke agent recharges beside them, and every energy
/// stays within the bounds.
#[test]
fn full_tick_settles_a_cluster() {
    let s = Settings::default();
    let mut energies = energies_with(&[10, 3, 0], &s);
    let map = cluster_of(0, &[1, 2]);
    let probs = vec![ProbEntering::Valid(1_000_000); 3];
    tick_game(&mut energies, &map, &probs);
    assert!(energies[0].in_game());
    assert_eq!(energies[0].energy(), 8);
    assert!(energies[1].in_game());
    assert_eq!(energies[1].energy(), 1);
    assert!(!energies[2].in_game());
    assert_eq!(energies[2].energy(), 3);
    for e in energies.iter() {
        assert!(e.energy() <= s.max_energy);
    }
}

/// A lone cluster still plays: its head enters whenever its energy
/// strictly exceeds the cost, pays each round, and stops at the cost
/// level. Agents outside every cluster are untouched.
#[test]
fn lone_cluster_plays_and_outsiders_are_untouched() {
    let s = Settings::default();
    let mut energies = energies_with(&[60, 70], &s);
    let map = cluster_of(0, &[]);
    let probs = vec![ProbEntering::Valid(1_000_000); 2];
    tick_game(&mut energies, &map, &probs);
    assert!(energies[0].in_game());
    assert_eq!(energies[0].energy(), 58);
    assert!(!energies[1].in_game());
    assert_eq!(energies[1].energy(), 70);
    // the head drains to its cost level, then stays out
    for _ in 0..40 {
        tick_game(&mut energies, &map, &probs);
    }
    assert!(!energies[0].in_game());
    assert_eq!(energies[0].energy(), 2);
    assert_eq!(energies[1].energy(), 70);
}

/// Energy bounds: across repeated ticks every energy stays in
/// `[0, max_energy]`.
#[test]
fn energy_stays_bounded_over_many_ticks() {
    let s = Settings::default();
    let mut energies = energies_with(&[100, 1, 55, 2, 0], &s);
    let map = {
        let mut map = ClusterMap::new();
        let mut c = Cluster::new(1);
        c.add_member(2);
        c.add_member(4);
        map.insert(c);
        let mut c2 = Cluster::new(0);
        c2.add_member(3);
        map.insert(c2);
        map
    };
    let probs = vec![ProbEntering::Valid(700_000); 5];
    for _ in 0..50 {
        tick_game(&mut energies, &map, &probs);
        for e in energies.iter() {
            assert!(e.energy() <= s.max_energy);
        }
    }
}

#[test]
fn random_energy_starts_in_bounds() {
    let s = Settings::default();
    for id in 0..20usize {
        let e = SatelliteEnergy::new_random(id, &s);
        assert!(e.energy() <= s.max_energy);
        assert!(e.energy() < 100);
        assert!(!e.in_game());
        assert_eq!(e.cost(), s.comms_cost);
        assert_eq!(e.gain(), s.energy_gain);
        assert_eq!(e.max_energy(), s.max_energy);
    }
}
