//! The packet relay: origination, acceptance rules, loop-freedom and the
//! hop budget; and a whole-arena run of the simulation.

use satsim::packet::{Packet, PacketSource, INITIAL_TTL};
use satsim::quadtree::Point;
use satsim::satellite::{ProbEntering, SatelliteComms, SatelliteProperties};
use satsim::settings::Settings;
use satsim::simulation::Simulation;

#[test]
fn source_counts_up_and_fills_packets() {
    let mut source = PacketSource::new(9);
    assert_eq!(source.id(), 9);
    assert_eq!(source.sequence_number(), 0);
    let p1 = source.next();
    let p2 = source.next();
    assert_eq!(p1.id(), 1);
    assert_eq!(p2.id(), 2);
    assert_eq!(source.sequence_number(), 2);
    assert_eq!(p1.source(), 9);
    assert_eq!(p1.ttl(), INITIAL_TTL);
    assert_eq!(p1.path().len(), 0);
}

#[test]
fn accepted_packet_pays_budget_and_records_the_hop() {
    let mut comms = SatelliteComms::new(1);
    assert_eq!(comms.id(), 1);
    comms.add_packet(Packet::new(5, 0, 3));
    assert_eq!(comms.packets().len(), 1);
    let got = &comms.packets()[0];
    assert_eq!(got.ttl(), 2);
    assert_eq!(got.path().len(), 1);
    assert_eq!(got.path()[0].from, 0);
    assert_eq!(got.path()[0].to, 1);
    assert!(got.in_path(0));
    assert!(got.in_path(1));
    assert!(!got.in_path(2));
}

/// A packet with one unit of budget is forwarded once, reaches zero, and
/// every further hop attempt is rejected.
#[test]
fn spent_budget_rejects_the_next_hop() {
    let mut first = SatelliteComms::new(1);
    first.add_packet(Packet::new(5, 0, 1));
    let forwarded = first.packets()[0].duplicate();
    assert_eq!(forwarded.ttl(), 0);
    let mut second = SatelliteComms::new(2);
    second.add_packet(forwarded);
    assert_eq!(second.packets().len(), 0);
}

#[test]
fn revisiting_agent_rejects_the_packet() {
    let mut a = SatelliteComms::new(1);
    a.add_packet(Packet::new(5, 0, 5));
    let p = a.packets()[0].duplicate();
    // back to its origin: rejected
    let mut origin = SatelliteComms::new(0);
    origin.add_packet(p.duplicate());
    assert_eq!(origin.packets().len(), 0);
    // to the agent it just visited: rejected
    let mut same = SatelliteComms::new(1);
    same.add_packet(p.duplicate());
    assert_eq!(same.packets().len(), 0);
}

/// Loop-freedom and the budget bound along a long relay chain: no agent id
/// repeats on the path, and the path never outgrows the initial budget.
#[test]
fn chain_stays_loop_free_and_bounded() {
    let mut packet = Packet::new(1, 0, INITIAL_TTL);
    let mut delivered = 0usize;
    for agent in 1..=12usize {
        let mut comms = SatelliteComms::new(agent);
        comms.add_packet(packet.duplicate());
        if comms.packets().len() == 1 {
            delivered += 1;
            packet = comms.packets()[0].duplicate();
        }
    }
    // the budget admits exactly INITIAL_TTL hops
    assert_eq!(delivered, INITIAL_TTL);
    assert_eq!(packet.ttl(), 0);
    assert_eq!(packet.path().len(), INITIAL_TTL);
    // no id occurs twice along the path
    let mut seen: Vec<usize> = vec![packet.source()];
    for hop in packet.path().iter() {
        assert!(!seen.contains(&hop.to));
        seen.push(hop.to);
    }
}

fn two_near_one_far() -> (Vec<SatelliteProperties>, Vec<Point>, satsim::quadtree::QuadTree<usize>) {
    // agents 0 and 1 sit 50 apart near the world's centre; agent 2 is far
    // beyond the 540-unit comms radius of the stationary belt
    let props: Vec<SatelliteProperties> = (0..3)
        .map(|id| SatelliteProperties::new(id, 36_000, 0).unwrap())
        .collect();
    let positions = vec![Point::new(600, 600), Point::new(650, 600), Point::new(30, 30)];
    let world = satsim::quadtree::Box2d::new(Point::new(0, 1200), Point::new(1200, 0));
    let mut qtree: satsim::quadtree::QuadTree<usize> = satsim::quadtree::QuadTree::new(world, 4);
    for (id, p) in positions.iter().enumerate() {
        assert!(qtree.insert(*p, id));
    }
    (props, positions, qtree)
}

/// One turn delivers the sender's whole inbox to every distinct in-range
/// neighbour and flushes the inbox; out-of-range agents receive nothing.
#[test]
fn a_turn_delivers_the_inbox_and_flushes() {
    let (props, positions, qtree) = two_near_one_far();
    let mut first = SatelliteComms::new(0);
    first.add_packet(Packet::new(9, 7, 5));
    assert_eq!(first.packets().len(), 1);
    let mut comms = vec![first, SatelliteComms::new(1), SatelliteComms::new(2)];
    SatelliteComms::update_one(&props, &positions, &mut comms, &qtree, 1200, 0, false);
    assert_eq!(comms[0].packets().len(), 0);
    assert_eq!(comms[0].sequence_number(), 0);
    assert_eq!(comms[1].packets().len(), 1);
    let got = &comms[1].packets()[0];
    assert_eq!(got.source(), 7);
    assert_eq!(got.ttl(), 3);
    assert_eq!(got.path().len(), 2);
    assert_eq!(got.path()[1].from, 0);
    assert_eq!(got.path()[1].to, 1);
    assert_eq!(comms[2].packets().len(), 0);
}

/// One turn originates exactly on the draw: the counter advances and the
/// fresh packet reaches the in-range neighbour.
#[test]
fn a_turn_originates_on_the_draw() {
    let (props, positions, qtree) = two_near_one_far();
    let mut comms = vec![SatelliteComms::new(0), SatelliteComms::new(1), SatelliteComms::new(2)];
    SatelliteComms::update_one(&props, &positions, &mut comms, &qtree, 1200, 0, false);
    assert_eq!(comms[0].sequence_number(), 0);
    assert_eq!(comms[1].packets().len(), 0);
    SatelliteComms::update_one(&props, &positions, &mut comms, &qtree, 1200, 0, true);
    assert_eq!(comms[0].sequence_number(), 1);
    assert_eq!(comms[1].packets().len(), 1);
    let got = &comms[1].packets()[0];
    assert_eq!(got.source(), 0);
    assert_eq!(got.id(), 1);
    assert_eq!(got.ttl(), INITIAL_TTL - 1);
    assert_eq!(comms[2].packets().len(), 0);
}

#[test]
fn properties_random_constructor_stays_in_its_bands() {
    for id in 0..20usize {
        let p = SatelliteProperties::new_random(id);
        assert_eq!(p.id(), id);
        assert!(!p.selected());
        assert!(p.distance() >= 500 && p.distance() <= 40_000);
        assert!(p.color() < 360_000);
    }
}

#[test]
fn orbit_distance_rejects_unknown_categories() {
    assert!(SatelliteProperties::orbit_distance(0).is_none());
    assert!(SatelliteProperties::orbit_distance(4).is_none());
    assert_eq!(SatelliteProperties::orbit_distance(3), Some(36_000));
    let low = SatelliteProperties::orbit_distance(1).unwrap();
    assert!((500..1200).contains(&low));
    let mid = SatelliteProperties::orbit_distance(2).unwrap();
    assert!((5000..20_000).contains(&mid));
}

#[test]
fn comms_distance_scales_with_the_orbit() {
    let near = SatelliteProperties::new(0, 36_000, 0).unwrap();
    assert_eq!(near.comms_distance(1200), 540);
    let far = SatelliteProperties::new(1, 40_000, 0).unwrap();
    assert_eq!(far.comms_distance(1200), 600);
}

/// A whole arena run: create, one comms tick, one game tick, selection.
#[test]
fn arena_runs_a_full_round() {
    let settings = Settings { boids: 16, ..Settings::default() };
    let mut sim = Simulation::create(settings.clone());
    assert_eq!(sim.props().len(), 16);
    assert_eq!(sim.comms().len(), 16);
    assert_eq!(sim.energies().len(), 16);
    assert_eq!(sim.cluster_map().clusters().len(), 0);
    assert!(sim.qtree().is_none());

    let positions: Vec<Point> = (0..16)
        .map(|i| Point::new((i as i64) * 70 % 1200, (i as i64) * 130 % 1200))
        .collect();
    sim.tick_comms(&positions);
    assert!(sim.qtree().is_some());

    // the index holds all sixteen in-bounds positions, each exactly once
    let world = satsim::quadtree::Box2d::new(
        Point::new(0, settings.world_size),
        Point::new(settings.world_size, 0),
    );
    let found = sim.qtree().as_ref().unwrap().query_range(world);
    assert_eq!(found.len(), 16);

    // the clusters never share an agent
    let heads: Vec<usize> = sim.cluster_map().clusters().iter().map(|c| c.head()).collect();
    let mut seen: Vec<usize> = Vec::new();
    for c in sim.cluster_map().clusters().iter() {
        assert_eq!(c.size(), c.members().len() + 1);
        for m in c.members().iter() {
            assert!(!heads.contains(m));
            assert!(!seen.contains(m));
            seen.push(*m);
        }
    }

    // every relayed packet obeys the loop and budget rules
    for comms in sim.comms().iter() {
        for p in comms.packets().iter() {
            assert!(p.path().len() <= INITIAL_TTL);
            let mut visited: Vec<usize> = vec![p.source()];
            for hop in p.path().iter() {
                assert!(!visited.contains(&hop.to));
                visited.push(hop.to);
            }
        }
    }

    let probs = vec![ProbEntering::Valid(500_000); 16];
    sim.tick_game(&probs);
    for e in sim.energies().iter() {
        assert!(e.energy() <= settings.max_energy);
    }

    sim.clicked_sat(3);
    assert_eq!(sim.selected_satellite(), Some(3));
    assert!(sim.props()[3].selected());
    sim.clicked_sat(5);
    assert_eq!(sim.selected_satellite(), Some(5));
    assert!(!sim.props()[3].selected());
    assert!(sim.props()[5].selected());
    sim.clicked_sat(5);
    assert_eq!(sim.selected_satellite(), None);
    assert!(!sim.props()[5].selected());

    sim.changed(settings);
    assert_eq!(sim.cluster_map().clusters().len(), 0);
    assert_eq!(sim.selected_satellite(), None);
}
