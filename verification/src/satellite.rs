//! Per-satellite state, split into facets: immutable orbital properties,
//! the packet mailbox, and the energy-game facet. The facets of one agent
//! share its integer id.

use vstd::prelude::*;

verus! {

use vstd::pervasive::VecAdditionalExecFns;

use crate::entropy::{now_timestamp, rand_below};
use crate::packet::{spec_accepts, spec_delivered, Hop, Packet, PacketSource, INITIAL_TTL};
use crate::quadtree::{Box2d, Entry, Point, QuadTree};
use crate::settings::{Settings, MAX_COORD};

/// Greatest orbital distance, in kilometres.
pub const MAX_DISTANCE: u64 = 40_000;

/// A full hue circle, in thousandths of a degree.
pub const HUE_FULL_TURN: u32 = 360_000;

/// One whole, in parts per million: probabilities are held in this scale.
pub const PPM_SCALE: u32 = 1_000_000;

/// Identity and orbit of one satellite. Only the hue (recoloured by
/// clustering) and the selection flag ever change.
pub struct SatelliteProperties {
    id: usize,
    distance: u64,
    selected: bool,
    hue: u32,
}

impl SatelliteProperties {
    pub closed spec fn spec_id(self) -> usize {
        self.id
    }

    pub closed spec fn spec_distance(self) -> u64 {
        self.distance
    }

    pub closed spec fn spec_selected(self) -> bool {
        self.selected
    }

    pub closed spec fn spec_hue(self) -> u32 {
        self.hue
    }

    /// The orbit lies between low orbit and the stationary belt, and the
    /// hue is a valid angle.
    pub open spec fn wf(self) -> bool {
        &&& 500 <= self.spec_distance() <= MAX_DISTANCE
        &&& self.spec_hue() < HUE_FULL_TURN
    }

    /// The orbital distance for a discrete orbit category, in kilometres:
    /// low orbits draw a random radius from their band, the highest is the
    /// stationary belt. An unknown category is rejected, never defaulted.
    pub fn orbit_distance(orbit: u64) -> (r: Option<u64>)
        ensures
            r is Some <==> 1 <= orbit <= 3,
            r is Some ==> 500 <= r.unwrap() <= MAX_DISTANCE,
            orbit == 1 ==> (r matches Some(d) && 500 <= d < 1200),
            orbit == 2 ==> (r matches Some(d) && 5000 <= d < 20000),
            orbit == 3 ==> r == Some(36000u64),
    {
        if orbit == 1 {
            Some(500 + rand_below(700))
        } else if orbit == 2 {
            Some(5000 + rand_below(15000))
        } else if orbit == 3 {
            Some(36000)
        } else {
            None
        }
    }

    /// A satellite with the given orbit and hue. Construction is rejected,
    /// never defaulted, when the orbital distance lies outside the orbit
    /// bands or the hue is no valid angle.
    pub fn new(id: usize, distance: u64, hue: u32) -> (r: Option<Self>)
        ensures
            r is Some <==> (500 <= distance <= MAX_DISTANCE && hue < HUE_FULL_TURN),
            r matches Some(s) ==> s.wf() && s.spec_id() == id && s.spec_distance() == distance
                && s.spec_hue() == hue && !s.spec_selected(),
    {
        if 500 <= distance && distance <= MAX_DISTANCE && hue < HUE_FULL_TURN {
            Some(SatelliteProperties { id, distance, selected: false, hue })
        } else {
            None
        }
    }

    /// A fresh satellite on a random orbit with a random hue. The orbit is
    /// drawn from the two upper categories, so the distance lies in the
    /// middle band or on the stationary belt.
    pub fn new_random(id: usize) -> (s: Self)
        ensures
            s.wf(),
            s.spec_id() == id,
            !s.spec_selected(),
            (5000 <= s.spec_distance() < 20000) || s.spec_distance() == 36000,
    {
        // choose a random category from the two upper bands to determine
        // the orbit
        let orbit = 2 + rand_below(2);
        let distance = match Self::orbit_distance(orbit) {
            Some(d) => d,
            None => {
                proof {
                    assert(false);
                }
                500
            },
        };
        let hue = rand_below(HUE_FULL_TURN as u64) as u32;
        SatelliteProperties { id, distance, selected: false, hue }
    }

    pub fn id(&self) -> (r: usize)
        ensures
            r == self.spec_id(),
    {
        self.id
    }

    pub fn distance(&self) -> (r: u64)
        ensures
            r == self.spec_distance(),
    {
        self.distance
    }

    pub fn selected(&self) -> (r: bool)
        ensures
            r == self.spec_selected(),
    {
        self.selected
    }

    pub fn set_selected(&mut self, selected: bool)
        ensures
            final(self).spec_selected() == selected,
            final(self).spec_id() == old(self).spec_id(),
            final(self).spec_distance() == old(self).spec_distance(),
            final(self).spec_hue() == old(self).spec_hue(),
            final(self).wf() == old(self).wf(),
    {
        self.selected = selected;
    }

    pub fn color(&self) -> (r: u32)
        ensures
            r == self.spec_hue(),
    {
        self.hue
    }

    pub fn set_color(&mut self, hue: u32)
        requires
            hue < HUE_FULL_TURN,
        ensures
            final(self).spec_hue() == hue,
            final(self).spec_id() == old(self).spec_id(),
            final(self).spec_distance() == old(self).spec_distance(),
            final(self).spec_selected() == old(self).spec_selected(),
            old(self).wf() ==> final(self).wf(),
    {
        self.hue = hue;
    }

    /// Set the selection flag of the satellite at `i` in an arena of
    /// properties, leaving everything else as it was.
    pub fn set_selected_in(props: &mut Vec<SatelliteProperties>, i: usize, selected: bool)
        requires
            i < old(props).len(),
        ensures
            final(props).len() == old(props).len(),
            forall|k: int|
                0 <= k < old(props).len() && k != i ==> final(props)@[k] == old(props)@[k],
            final(props)@[i as int].spec_selected() == selected,
            final(props)@[i as int].spec_id() == old(props)@[i as int].spec_id(),
            final(props)@[i as int].spec_distance() == old(props)@[i as int].spec_distance(),
            final(props)@[i as int].spec_hue() == old(props)@[i as int].spec_hue(),
            old(props)@[i as int].wf() ==> final(props)@[i as int].wf(),
    {
        let mut taken = SatelliteProperties { id: 0, distance: 500, selected: false, hue: 0 };
        props.set_and_swap(i, &mut taken);
        taken.set_selected(selected);
        props.set_and_swap(i, &mut taken);
    }

    /// Recolour the satellite at `i` in an arena of properties, leaving
    /// everything else as it was.
    pub fn set_color_in(props: &mut Vec<SatelliteProperties>, i: usize, hue: u32)
        requires
            i < old(props).len(),
            hue < HUE_FULL_TURN,
        ensures
            final(props).len() == old(props).len(),
            forall|k: int|
                0 <= k < old(props).len() && k != i ==> final(props)@[k] == old(props)@[k],
            final(props)@[i as int].spec_hue() == hue,
            final(props)@[i as int].spec_id() == old(props)@[i as int].spec_id(),
            final(props)@[i as int].spec_distance() == old(props)@[i as int].spec_distance(),
            final(props)@[i as int].spec_selected() == old(props)@[i as int].spec_selected(),
            old(props)@[i as int].wf() ==> final(props)@[i as int].wf(),
    {
        let mut taken = SatelliteProperties { id: 0, distance: 500, selected: false, hue: 0 };
        props.set_and_swap(i, &mut taken);
        taken.set_color(hue);
        props.set_and_swap(i, &mut taken);
    }

    /// How far this satellite's packets reach, in world units: the fraction
    /// of half the world that matches the fraction of its orbit.
    pub open spec fn spec_comms_distance(self, world_size: i64) -> int {
        (self.spec_distance() * (world_size / 2)) / (MAX_DISTANCE as int)
    }

    pub fn comms_distance(&self, world_size: i64) -> (r: i64)
        requires
            self.wf(),
            0 < world_size <= MAX_COORD,
        ensures
            r == self.spec_comms_distance(world_size),
            0 <= r <= world_size / 2,
    {
        let half: u64 = world_size as u64 / 2;
        proof {
            assert(half <= 500_000_000) by (nonlinear_arith)
                requires
                    half == world_size as u64 / 2,
                    world_size as u64 <= 1_000_000_000;
            assert(self.distance * half <= MAX_DISTANCE * 500_000_000) by (nonlinear_arith)
                requires
                    self.distance <= MAX_DISTANCE,
                    half <= 500_000_000;
        }
        let raw: u64 = self.distance * half;
        let reach: u64 = raw / MAX_DISTANCE;
        proof {
            assert(raw <= MAX_DISTANCE * half) by (nonlinear_arith)
                requires
                    raw == self.distance * half,
                    self.distance <= MAX_DISTANCE,
                    half >= 0;
            vstd::arithmetic::div_mod::lemma_div_is_ordered(
                raw as int,
                (MAX_DISTANCE * half) as int,
                MAX_DISTANCE as int,
            );
            vstd::arithmetic::div_mod::lemma_div_multiples_vanish(
                half as int,
                MAX_DISTANCE as int,
            );
        }
        reach as i64
    }
}

/// The entering-probability handed to Phase A of the energy game: a value
/// in parts per million, or the marker that the formula produced nothing
/// representable (a numeric degeneracy).
#[derive(Clone, Copy, Debug, PartialEq, Eq, Structural)]
pub enum ProbEntering {
    Invalid,
    Valid(u32),
}

impl ProbEntering {
    /// A probability that may be sampled: valid and at most one whole.
    pub open spec fn is_usable(self) -> bool {
        match self {
            ProbEntering::Invalid => false,
            ProbEntering::Valid(ppm) => ppm <= PPM_SCALE,
        }
    }

    pub open spec fn ppm(self) -> u32 {
        match self {
            ProbEntering::Invalid => 0,
            ProbEntering::Valid(ppm) => ppm,
        }
    }
}

/// The energy-game facet of one satellite.
pub struct SatelliteEnergy {
    id: usize,
    in_game: bool,
    cost: u32,
    gain: u32,
    energy: u32,
    max_energy: u32,
    prob_entering: u32,
}

impl SatelliteEnergy {
    pub closed spec fn spec_id(self) -> usize {
        self.id
    }

    pub closed spec fn spec_in_game(self) -> bool {
        self.in_game
    }

    pub closed spec fn spec_cost(self) -> u32 {
        self.cost
    }

    pub closed spec fn spec_gain(self) -> u32 {
        self.gain
    }

    pub closed spec fn spec_energy(self) -> u32 {
        self.energy
    }

    pub closed spec fn spec_max_energy(self) -> u32 {
        self.max_energy
    }

    pub closed spec fn spec_prob_entering(self) -> u32 {
        self.prob_entering
    }

    /// The energy bound: energy never leaves `[0, max_energy]` (the lower
    /// bound is carried by the type), and the cached probability is at most
    /// one whole.
    pub open spec fn wf(self) -> bool {
        &&& self.spec_energy() <= self.spec_max_energy()
        &&& self.spec_prob_entering() <= PPM_SCALE
    }

    /// The energy after paying for a played round, clamped at zero.
    pub open spec fn spec_paid(self) -> u32 {
        if self.spec_energy() >= self.spec_cost() {
            (self.spec_energy() - self.spec_cost()) as u32
        } else {
            0u32
        }
    }

    /// The energy after recharging beside a playing neighbour, clamped at
    /// the bound.
    pub open spec fn spec_recharged(self) -> u32 {
        if self.spec_energy() + self.spec_gain() > self.spec_max_energy() {
            self.spec_max_energy()
        } else {
            (self.spec_energy() + self.spec_gain()) as u32
        }
    }

    /// Whether any entry of a Phase-A snapshot decided to play.
    pub open spec fn spec_any(self, flags: Seq<bool>) -> bool {
        exists|i: int| 0 <= i < flags.len() && flags[i]
    }

    /// The round parameters never change after construction.
    pub open spec fn same_parameters(self, other: Self) -> bool {
        &&& self.spec_id() == other.spec_id()
        &&& self.spec_cost() == other.spec_cost()
        &&& self.spec_gain() == other.spec_gain()
        &&& self.spec_max_energy() == other.spec_max_energy()
    }

    /// An energy facet with the given starting energy. Construction is
    /// rejected, never defaulted, when the energy exceeds the configured
    /// bound.
    pub fn new(id: usize, energy: u32, settings: &Settings) -> (r: Option<Self>)
        ensures
            r is Some <==> energy <= settings.max_energy,
            r matches Some(s) ==> s.wf() && s.spec_id() == id && s.spec_energy() == energy
                && !s.spec_in_game() && s.spec_cost() == settings.comms_cost && s.spec_gain()
                == settings.energy_gain && s.spec_max_energy() == settings.max_energy,
    {
        if energy <= settings.max_energy {
            Some(
                SatelliteEnergy {
                    id,
                    in_game: false,
                    cost: settings.comms_cost,
                    gain: settings.energy_gain,
                    energy,
                    max_energy: settings.max_energy,
                    prob_entering: PPM_SCALE,
                },
            )
        } else {
            None
        }
    }

    /// A fresh facet: round parameters from the configuration, a random
    /// starting energy within bounds, out of the game.
    pub fn new_random(id: usize, settings: &Settings) -> (s: Self)
        ensures
            s.wf(),
            s.spec_id() == id,
            !s.spec_in_game(),
            s.spec_cost() == settings.comms_cost,
            s.spec_gain() == settings.energy_gain,
            s.spec_max_energy() == settings.max_energy,
            s.spec_energy() < 100 || s.spec_energy() == settings.max_energy,
    {
        let draw = rand_below(100) as u32;
        let energy = if draw > settings.max_energy {
            settings.max_energy
        } else {
            draw
        };
        SatelliteEnergy {
            id,
            in_game: false,
            cost: settings.comms_cost,
            gain: settings.energy_gain,
            energy,
            max_energy: settings.max_energy,
            prob_entering: PPM_SCALE,
        }
    }

    pub fn energy(&self) -> (r: u32)
        ensures
            r == self.spec_energy(),
    {
        self.energy
    }

    pub fn in_game(&self) -> (r: bool)
        ensures
            r == self.spec_in_game(),
    {
        self.in_game
    }

    pub fn cost(&self) -> (r: u32)
        ensures
            r == self.spec_cost(),
    {
        self.cost
    }

    pub fn gain(&self) -> (r: u32)
        ensures
            r == self.spec_gain(),
    {
        self.gain
    }

    pub fn max_energy(&self) -> (r: u32)
        ensures
            r == self.spec_max_energy(),
    {
        self.max_energy
    }

    pub fn prob_entering(&self) -> (r: u32)
        ensures
            r == self.spec_prob_entering(),
    {
        self.prob_entering
    }

    /// What Phase A establishes between an agent's facet before and after
    /// its decision. The draw itself is random, so in the sampled case the
    /// decision is constrained, not determined.
    pub open spec fn spec_phase_a(
        pre: SatelliteEnergy,
        cluster_size: int,
        prob: ProbEntering,
        post: SatelliteEnergy,
    ) -> bool {
        &&& post.same_parameters(pre)
        &&& post.spec_energy() == pre.spec_energy()
        &&& (pre.spec_energy() < pre.spec_cost() ==> !post.spec_in_game()
            && post.spec_prob_entering() == pre.spec_prob_entering())
        &&& (pre.spec_energy() >= pre.spec_cost() && cluster_size < 2 ==> post.spec_in_game() == (
        pre.spec_energy() > pre.spec_cost()) && post.spec_prob_entering()
            == pre.spec_prob_entering())
        &&& (pre.spec_energy() >= pre.spec_cost() && cluster_size >= 2 && !prob.is_usable()
            ==> !post.spec_in_game() && post.spec_prob_entering() == pre.spec_prob_entering())
        &&& (pre.spec_energy() >= pre.spec_cost() && cluster_size >= 2 && prob.is_usable()
            ==> post.spec_prob_entering() == prob.ppm())
        &&& (post.spec_in_game() ==> pre.spec_energy() >= pre.spec_cost())
    }

    /// What Phase B establishes, given whether any other cluster member
    /// decided to play.
    pub open spec fn spec_phase_b(pre: SatelliteEnergy, any_other: bool, post: SatelliteEnergy) -> bool {
        &&& post.same_parameters(pre)
        &&& post.spec_in_game() == pre.spec_in_game()
        &&& post.spec_prob_entering() == pre.spec_prob_entering()
        &&& (pre.spec_in_game() ==> post.spec_energy() == pre.spec_paid())
        &&& (!pre.spec_in_game() && any_other ==> post.spec_energy() == pre.spec_recharged())
        &&& (!pre.spec_in_game() && !any_other ==> post.spec_energy() == pre.spec_energy())
    }

    /// Law of the energy bounds: a well-formed energy facet's energy lies
    /// in `[0, max_energy]` — and every constructor and both game phases
    /// keep their facets well formed.
    pub proof fn lemma_energy_bounds(e: SatelliteEnergy)
        requires
            e.wf(),
        ensures
            0 <= e.spec_energy() <= e.spec_max_energy(),
    {
    }

    /// Law of the decision boundary: whatever the cluster size and the
    /// probability, Phase A leaves an agent out of the game when its
    /// energy cannot pay the cost.
    pub proof fn lemma_decision_boundary(
        pre: SatelliteEnergy,
        cluster_size: int,
        prob: ProbEntering,
        post: SatelliteEnergy,
    )
        requires
            SatelliteEnergy::spec_phase_a(pre, cluster_size, prob, post),
            pre.spec_energy() < pre.spec_cost(),
        ensures
            !post.spec_in_game(),
    {
    }

    /// Phase A of the energy game: decide whether to play this round.
    ///
    /// An agent that cannot pay the cost never plays, whatever the cluster
    /// or the probability. Alone (cluster size below two) it plays exactly
    /// when its energy strictly exceeds the cost. Otherwise, a usable
    /// entering-probability is cached and the decision is a draw with that
    /// probability; a degenerate probability forces the agent out.
    pub fn update_game(&mut self, cluster_size: usize, prob: ProbEntering)
        requires
            old(self).wf(),
        ensures
            final(self).wf(),
            Self::spec_phase_a(*old(self), cluster_size as int, prob, *final(self)),
    {
        if self.energy < self.cost {
            self.in_game = false;
            return;
        }
        if cluster_size < 2 {
            self.in_game = self.energy > self.cost;
            return;
        }
        match prob {
            ProbEntering::Invalid => {
                self.in_game = false;
            },
            ProbEntering::Valid(ppm) => {
                if ppm > PPM_SCALE {
                    self.in_game = false;
                } else {
                    // store the probability of entering the game, then draw
                    self.prob_entering = ppm;
                    let draw = rand_below(PPM_SCALE as u64) as u32;
                    self.in_game = draw < ppm;
                }
            },
        }
    }

    /// Phase B of the energy game: settle the round against the snapshot of
    /// the other cluster members' Phase-A decisions.
    ///
    /// A playing agent pays the cost (never below zero); an idle agent
    /// beside at least one playing neighbour gains (never above the bound);
    /// an idle agent among idle neighbours keeps its energy.
    pub fn update(&mut self, neighbors_in_game: &Vec<bool>)
        requires
            old(self).wf(),
        ensures
            final(self).wf(),
            Self::spec_phase_b(*old(self), old(self).spec_any(neighbors_in_game@), *final(self)),
    {
        if self.in_game {
            // pay for the played round, clamped at zero
            if self.energy >= self.cost {
                self.energy = self.energy - self.cost;
            } else {
                self.energy = 0;
            }
            return;
        }
        // count the neighbours that decided to play
        let n = neighbors_in_game.len();
        let mut any: bool = false;
        let mut i: usize = 0;
        while i < n
            invariant
                n == neighbors_in_game@.len(),
                i <= n,
                any == exists|k: int| 0 <= k < i && neighbors_in_game@[k],
            decreases n - i,
        {
            if neighbors_in_game[i] {
                any = true;
            }
            i += 1;
        }
        if any {
            // recharge from the played round, clamped at the bound
            let recharged: u64 = self.energy as u64 + self.gain as u64;
            if recharged > self.max_energy as u64 {
                self.energy = self.max_energy;
            } else {
                self.energy = recharged as u32;
            }
        }
        // with no playing neighbour there is no payoff
    }

    /// Phase A for the agent at `i` of an arena of energy facets; the rest
    /// of the arena is untouched.
    pub fn update_game_in(
        energies: &mut Vec<SatelliteEnergy>,
        i: usize,
        cluster_size: usize,
        prob: ProbEntering,
    )
        requires
            i < old(energies).len(),
            old(energies)@[i as int].wf(),
        ensures
            final(energies).len() == old(energies).len(),
            forall|k: int|
                0 <= k < old(energies).len() && k != i ==> final(energies)@[k] == old(
                    energies,
                )@[k],
            final(energies)@[i as int].wf(),
            Self::spec_phase_a(
                old(energies)@[i as int],
                cluster_size as int,
                prob,
                final(energies)@[i as int],
            ),
    {
        let mut taken = SatelliteEnergy {
            id: 0,
            in_game: false,
            cost: 0,
            gain: 0,
            energy: 0,
            max_energy: 0,
            prob_entering: 0,
        };
        energies.set_and_swap(i, &mut taken);
        taken.update_game(cluster_size, prob);
        energies.set_and_swap(i, &mut taken);
    }

    /// Phase B for the agent at `i` of an arena of energy facets; the rest
    /// of the arena is untouched.
    pub fn update_in(energies: &mut Vec<SatelliteEnergy>, i: usize, neighbors_in_game: &Vec<bool>)
        requires
            i < old(energies).len(),
            old(energies)@[i as int].wf(),
        ensures
            final(energies).len() == old(energies).len(),
            forall|k: int|
                0 <= k < old(energies).len() && k != i ==> final(energies)@[k] == old(
                    energies,
                )@[k],
            final(energies)@[i as int].wf(),
            Self::spec_phase_b(
                old(energies)@[i as int],
                old(energies)@[i as int].spec_any(neighbors_in_game@),
                final(energies)@[i as int],
            ),
    {
        let mut taken = SatelliteEnergy {
            id: 0,
            in_game: false,
            cost: 0,
            gain: 0,
            energy: 0,
            max_energy: 0,
            prob_entering: 0,
        };
        energies.set_and_swap(i, &mut taken);
        taken.update(neighbors_in_game);
        energies.set_and_swap(i, &mut taken);
    }
}

/// The packet mailbox of one satellite: the inbox and the source that
/// originates its packets.
pub struct SatelliteComms {
    packets: Vec<Packet>,
    source: PacketSource,
}

impl SatelliteComms {
    pub closed spec fn spec_id(self) -> usize {
        self.source.spec_id()
    }

    pub closed spec fn spec_sequence(self) -> usize {
        self.source.spec_sequence()
    }

    pub closed spec fn spec_packets(self) -> Seq<Packet> {
        self.packets@
    }

    /// Every packet of the inbox is well formed — loop-free, with its path
    /// inside the hop budget — and was last handed to this very agent.
    pub open spec fn wf(self) -> bool {
        forall|i: int|
            0 <= i < self.spec_packets().len() ==> (#[trigger] self.spec_packets()[i]).wf()
                && self.spec_packets()[i].spec_last_to() == self.spec_id()
                && self.spec_packets()[i].spec_path().len() > 0
    }

    /// Every packet of the inbox arrived on a hop handed over by an agent
    /// beyond `k` in the turn order. Agents up to `k` have taken their
    /// turn this tick, and a turn ends by clearing the inbox, so only
    /// later senders' deliveries remain.
    pub open spec fn spec_from_later(self, k: int) -> bool {
        forall|t: int|
            0 <= t < self.spec_packets().len() ==> (
            #[trigger] self.spec_packets()[t]).spec_path().len() > 0
                && self.spec_packets()[t].spec_path().last().from > k
    }

    /// Offering one packet to a receiver keeps the later-sender property
    /// when the packet's last holder comes after the receiver.
    proof fn lemma_deliver_keeps_from_later(
        pre: SatelliteComms,
        post: SatelliteComms,
        dp: Packet,
        k: int,
    )
        requires
            pre.spec_from_later(k),
            dp.spec_last_to() > k,
            !spec_accepts(dp, pre.spec_id()) ==> post.spec_packets() == pre.spec_packets(),
            spec_accepts(dp, pre.spec_id()) ==> {
                let q = post.spec_packets().last();
                &&& post.spec_packets() == pre.spec_packets().push(q)
                &&& spec_delivered(dp, pre.spec_id(), q)
            },
        ensures
            post.spec_from_later(k),
    {
        if !spec_accepts(dp, pre.spec_id()) {
            assert(post.spec_packets() == pre.spec_packets());
            assert forall|t2: int| 0 <= t2 < post.spec_packets().len() implies (
            #[trigger] post.spec_packets()[t2]).spec_path().len() > 0
                && post.spec_packets()[t2].spec_path().last().from > k by {
                assert(pre.spec_packets()[t2].spec_path().len() > 0);
            };
        } else {
            let q = post.spec_packets().last();
            let t = choose|t: u64|
                q.spec_path() == dp.spec_path().push(
                    (Hop { from: dp.spec_last_to(), to: pre.spec_id(), time: t }),
                );
            assert(q.spec_path().last() == (Hop {
                from: dp.spec_last_to(),
                to: pre.spec_id(),
                time: t,
            }));
            assert forall|t2: int| 0 <= t2 < post.spec_packets().len() implies (
            #[trigger] post.spec_packets()[t2]).spec_path().len() > 0
                && post.spec_packets()[t2].spec_path().last().from > k by {
                if t2 < pre.spec_packets().len() {
                    assert(post.spec_packets()[t2] == pre.spec_packets()[t2]);
                    assert(pre.spec_packets()[t2].spec_path().len() > 0);
                } else {
                    assert(post.spec_packets()[t2] == q);
                }
            };
        }
    }

    pub fn new(id: usize) -> (c: Self)
        ensures
            c.wf(),
            c.spec_id() == id,
            c.spec_sequence() == 0,
            c.spec_packets() == Seq::<Packet>::empty(),
    {
        let c = SatelliteComms { packets: Vec::new(), source: PacketSource::new(id) };
        proof {
            assert(c.spec_packets() =~= Seq::<Packet>::empty());
        }
        c
    }

    pub fn id(&self) -> (r: usize)
        ensures
            r == self.spec_id(),
    {
        self.source.id()
    }

    pub fn packets(&self) -> (r: &Vec<Packet>)
        ensures
            r@ == self.spec_packets(),
    {
        &self.packets
    }

    pub fn sequence_number(&self) -> (r: usize)
        ensures
            r == self.spec_sequence(),
    {
        self.source.sequence_number()
    }

    /// Accept a packet, or reject it silently: a packet whose path already
    /// visited this agent, or whose hop budget is spent, is dropped; an
    /// accepted packet pays one unit of budget and records the hop that
    /// brought it here, stamped with the wall clock.
    pub fn add_packet(&mut self, packet: Packet)
        requires
            old(self).wf(),
            packet.wf(),
        ensures
            final(self).wf(),
            final(self).spec_id() == old(self).spec_id(),
            final(self).spec_sequence() == old(self).spec_sequence(),
            !spec_accepts(packet, old(self).spec_id()) ==> final(self).spec_packets() == old(
                self,
            ).spec_packets(),
            spec_accepts(packet, old(self).spec_id()) ==> {
                let q = final(self).spec_packets().last();
                &&& final(self).spec_packets() == old(self).spec_packets().push(q)
                &&& q.wf()
                &&& spec_delivered(packet, old(self).spec_id(), q)
            },
    {
        if packet.in_path(self.source.id()) {
            return ;
        }
        if packet.ttl() == 0 {
            return ;
        }
        let mut accepted = packet;
        let ghost packet0 = accepted;
        accepted.decrement_ttl();
        let timestamp = now_timestamp();
        accepted.add_hop(self.source.id(), timestamp);
        proof {
            Packet::lemma_hop_keeps_wf(packet0, accepted, self.source.spec_id(), timestamp);
        }
        self.packets.push(accepted);
        proof {
            let pkts = self.spec_packets();
            let olds = old(self).spec_packets();
            assert(pkts == olds.push(accepted));
            assert(accepted.spec_path().last().to == self.spec_id());
            assert forall|i: int| 0 <= i < pkts.len() implies (#[trigger] pkts[i]).wf()
                && pkts[i].spec_last_to() == self.spec_id() && pkts[i].spec_path().len() > 0 by {
                if i < olds.len() {
                    assert(pkts[i] == olds[i]);
                    assert(olds[i].wf() && olds[i].spec_last_to() == old(self).spec_id()
                        && olds[i].spec_path().len() > 0);
                } else {
                    assert(pkts[i] == accepted);
                }
            };
            assert(accepted.spec_path() == packet0.spec_path().push(
                (Hop { from: packet0.spec_last_to(), to: old(self).spec_id(), time: timestamp }),
            ));
        }
    }


    /// The rectangle a sender at `pos` scans for neighbours: its position
    /// extended by its comms reach on every side.
    pub open spec fn spec_query_box(pos: Point, reach: int) -> Box2d {
        Box2d {
            top_left: Point { x: (pos.x - reach) as i64, y: (pos.y + reach) as i64 },
            btm_right: Point { x: (pos.x + reach) as i64, y: (pos.y - reach) as i64 },
        }
    }

    /// The index entries a sender's scan returns: every stored entry
    /// inside its query rectangle.
    pub open spec fn spec_scan(qtree: QuadTree<usize>, pos: Point, reach: int) -> Seq<
        (Point, usize),
    > {
        qtree.entries_seq().filter(
            |pr: (Point, usize)| SatelliteComms::spec_query_box(pos, reach).spec_contains(pr.0),
        )
    }

    /// What one agent's comms turn does to the arena of mailboxes: with
    /// `pos` its position, `reach` its comms radius and `scan` the index
    /// entries of its query rectangle, the turn may originate one packet
    /// (when `originate` holds and the counter has room), offers the
    /// originated packet and the whole pre-turn inbox to every distinct
    /// neighbour strictly within reach, and ends with the sender's inbox
    /// flushed. Receivers keep what they had, in place; agents the scan
    /// does not name as in-reach neighbours are untouched.
    pub open spec fn spec_turn(
        pre: Seq<SatelliteComms>,
        post: Seq<SatelliteComms>,
        i: usize,
        originate: bool,
        pos: Point,
        reach: int,
        scan: Seq<(Point, usize)>,
    ) -> bool {
        let fresh = originate && pre[i as int].spec_sequence() < usize::MAX;
        &&& post.len() == pre.len()
        &&& (forall|k: int|
            0 <= k < pre.len() ==> (#[trigger] post[k]).spec_id() == pre[k].spec_id())
        &&& post[i as int].spec_packets() == Seq::<Packet>::empty()
        &&& post[i as int].spec_sequence() == pre[i as int].spec_sequence() + (if fresh {
            1int
        } else {
            0int
        })
        &&& (forall|k: int|
            0 <= k < pre.len() && k != i ==> (#[trigger] post[k]).spec_sequence()
                == pre[k].spec_sequence())
        &&& (forall|k: int|
            0 <= k < pre.len() && k != i && !(exists|v: int|
                0 <= v < scan.len() && (#[trigger] scan[v]).1 == k as usize && pos.spec_dist_sq(
                    scan[v].0,
                ) < reach * reach) ==> (#[trigger] post[k]) == pre[k])
        &&& (forall|k: int, t: int|
            0 <= k < pre.len() && k != i && 0 <= t < pre[k].spec_packets().len() ==> (
            #[trigger] post[k].spec_packets()[t]) == pre[k].spec_packets()[t])
        &&& (forall|k: int|
            0 <= k < pre.len() && k != i ==> (#[trigger] post[k]).spec_packets().len()
                >= pre[k].spec_packets().len())
        &&& (forall|v: int, t: int|
            0 <= v < scan.len() && (#[trigger] scan[v]).1 != i && scan[v].1 < pre.len()
                && pos.spec_dist_sq(scan[v].0) < reach * reach && 0 <= t < pre[
                i as int
            ].spec_packets().len() && spec_accepts(
                #[trigger] pre[i as int].spec_packets()[t],
                scan[v].1,
            ) ==> (exists|u: int|
                0 <= u < post[scan[v].1 as int].spec_packets().len() && spec_delivered(
                    pre[i as int].spec_packets()[t],
                    scan[v].1,
                    post[scan[v].1 as int].spec_packets()[u],
                )))
        &&& (fresh ==> (exists|op: Packet|
            op.spec_id() == pre[i as int].spec_sequence() + 1 && op.spec_source() == pre[
                i as int
            ].spec_id() && op.spec_ttl() == INITIAL_TTL && op.spec_path() == Seq::<Hop>::empty()
                && (forall|v: int|
                0 <= v < scan.len() && (#[trigger] scan[v]).1 != i && scan[v].1 < pre.len()
                    && pos.spec_dist_sq(scan[v].0) < reach * reach ==> (exists|u: int|
                    0 <= u < post[scan[v].1 as int].spec_packets().len() && spec_delivered(
                        op,
                        scan[v].1,
                        post[scan[v].1 as int].spec_packets()[u],
                    )))))
    }

    /// One agent's comms turn: originate one packet on the given draw
    /// (counter permitting), offer the originated packet and the whole
    /// inbox to every distinct neighbour the spatial index finds strictly
    /// within this agent's comms radius, then flush the inbox.
    #[verifier::loop_isolation(false)]
    #[verifier::rlimit(100)]
    pub fn update_one(
        props: &Vec<SatelliteProperties>,
        positions: &Vec<Point>,
        comms: &mut Vec<SatelliteComms>,
        qtree: &QuadTree<usize>,
        world_size: i64,
        i: usize,
        originate: bool,
    )
        requires
            i < old(comms).len(),
            old(comms).len() == props.len(),
            positions.len() == props.len(),
            qtree.wf(),
            forall|k: int|
                0 <= k < qtree.entries_seq().len() ==> (#[trigger] qtree.entries_seq()[k]).1
                    < props.len() && qtree.entries_seq()[k].0.in_range(),
            forall|k: int| 0 <= k < positions.len() ==> (#[trigger] positions@[k]).in_range(),
            forall|k: int| 0 <= k < props.len() ==> (#[trigger] props@[k]).wf(),
            forall|k: int|
                0 <= k < old(comms).len() ==> (#[trigger] old(comms)@[k]).wf()
                    && old(comms)@[k].spec_id() == k,
            0 < world_size <= MAX_COORD,
        ensures
            final(comms).len() == old(comms).len(),
            forall|k: int|
                0 <= k < final(comms).len() ==> (#[trigger] final(comms)@[k]).wf()
                    && final(comms)@[k].spec_id() == k,
            forall|k: int|
                0 <= k < i && old(comms)@[k].spec_from_later(k) ==> (
                #[trigger] final(comms)@[k]).spec_from_later(k),
            final(comms)@[i as int].spec_from_later(i as int),
            Self::spec_turn(
                old(comms)@,
                final(comms)@,
                i,
                originate,
                positions@[i as int],
                props@[i as int].spec_comms_distance(world_size),
                Self::spec_scan(
                    *qtree,
                    positions@[i as int],
                    props@[i as int].spec_comms_distance(world_size),
                ),
            ),
    {
        let n = comms.len();
        let ghost entry = comms@;
        let ghost g_pos = positions@[i as int];
        let ghost g_reach = props@[i as int].spec_comms_distance(world_size);
        let ghost scan = Self::spec_scan(*qtree, g_pos, g_reach);

        // take the sender out of the arena for the duration of its turn
        proof {
            assert(comms@[i as int].wf() && comms@[i as int].spec_id() == i);
        }
        let mut current = SatelliteComms::new(0);
        comms.set_and_swap(i, &mut current);
        let ghost outbox = current.spec_packets();

        // originate a fresh packet, on the given draw
        let ghost fresh = originate && entry[i as int].spec_sequence() < usize::MAX;
        let mut originated: Option<Packet> = None;
        if originate && current.source.sequence_number() < usize::MAX {
            let ghost pre_current = current;
            let p = current.source.next();
            proof {
                assert(current.spec_packets() == pre_current.spec_packets());
                assert(current.spec_id() == pre_current.spec_id());
                assert(current.wf());
                assert(p.spec_last_to() == i);
            }
            originated = Some(p);
        }

        // neighbours are sought within the comms radius of this orbit
        let reach = props[i].comms_distance(world_size);
        proof {
            assert(world_size / 2 <= 500_000_000) by {
                vstd::arithmetic::div_mod::lemma_div_is_ordered(
                    world_size as int,
                    1_000_000_000,
                    2,
                );
            };
            assert(reach * reach <= 250_000_000_000_000_000) by (nonlinear_arith)
                requires
                    0 <= reach <= 500_000_000;
        }
        let pos = positions[i];
        let query = Box2d::new(
            Point::new(pos.x - reach, pos.y + reach),
            Point::new(pos.x + reach, pos.y - reach),
        );
        proof {
            assert(query == Self::spec_query_box(g_pos, g_reach));
        }
        let neighbors = qtree.query_range(query);
        proof {
            crate::quadtree::lemma_filter_keeps_all(
                qtree.entries_seq(),
                |pr: (Point, usize)| query.spec_contains(pr.0),
                |pr: (Point, usize)| pr.1 < n && pr.0.in_range(),
            );
            assert(neighbors@.map_values(|e: Entry<usize>| (e.point, e.value)) == scan);
            assert forall|v: int| 0 <= v < neighbors@.len() implies (#[trigger] scan[v]) == (
                neighbors@[v].point,
                neighbors@[v].value,
            ) by {
                assert((neighbors@.map_values(|e: Entry<usize>| (e.point, e.value)))[v] == (
                    neighbors@[v].point,
                    neighbors@[v].value,
                ));
            };
        }

        // offer the outbound set to every distinct neighbour in range
        let mut j: usize = 0;
        while j < neighbors.len()
            invariant
                j <= neighbors@.len(),
                neighbors@.len() == scan.len(),
                comms@.len() == n,
                i < n,
                current.wf(),
                current.spec_id() == i,
                current.spec_packets() == outbox,
                (originated matches Some(p) ==> p.wf() && p.spec_last_to() == i && p.spec_id()
                    == entry[i as int].spec_sequence() + 1 && p.spec_source() == i && p.spec_ttl()
                    == INITIAL_TTL && p.spec_path() == Seq::<Hop>::empty()),
                (originated is Some <==> fresh),
                current.spec_sequence() == entry[i as int].spec_sequence() + (if fresh {
                    1int
                } else {
                    0int
                }),
                forall|k: int|
                    0 <= k < n && k != i ==> (#[trigger] comms@[k]).wf() && comms@[k].spec_id()
                        == k && comms@[k].spec_sequence() == entry[k].spec_sequence(),
                forall|k: int|
                    0 <= k < i && entry[k].spec_from_later(k) ==> (
                    #[trigger] comms@[k]).spec_from_later(k),
                forall|k: int|
                    0 <= k < n && k != i && !(exists|v: int|
                        0 <= v < j && (#[trigger] scan[v]).1 == k as usize && g_pos.spec_dist_sq(
                            scan[v].0,
                        ) < g_reach * g_reach) ==> (#[trigger] comms@[k]) == entry[k],
                forall|k: int, t: int|
                    0 <= k < n && k != i && 0 <= t < entry[k].spec_packets().len() ==> (
                    #[trigger] comms@[k].spec_packets()[t]) == entry[k].spec_packets()[t],
                forall|k: int|
                    0 <= k < n && k != i ==> (#[trigger] comms@[k]).spec_packets().len()
                        >= entry[k].spec_packets().len(),
                forall|v: int, t: int|
                    0 <= v < j && (#[trigger] scan[v]).1 != i && scan[v].1 < n
                        && g_pos.spec_dist_sq(scan[v].0) < g_reach * g_reach && 0 <= t
                        < outbox.len() && spec_accepts(#[trigger] outbox[t], scan[v].1) ==> (
                    exists|u: int|
                        0 <= u < comms@[scan[v].1 as int].spec_packets().len() && spec_delivered(
                            outbox[t],
                            scan[v].1,
                            comms@[scan[v].1 as int].spec_packets()[u],
                        )),
                (originated matches Some(p) ==> (forall|v: int|
                    0 <= v < j && (#[trigger] scan[v]).1 != i && scan[v].1 < n
                        && g_pos.spec_dist_sq(scan[v].0) < g_reach * g_reach ==> (exists|u: int|
                        0 <= u < comms@[scan[v].1 as int].spec_packets().len() && spec_delivered(
                            p,
                            scan[v].1,
                            comms@[scan[v].1 as int].spec_packets()[u],
                        )))),
            decreases neighbors@.len() - j,
        {
            let neighbor_id = neighbors[j].value;
            proof {
                assert(scan[j as int] == (neighbors@[j as int].point, neighbors@[j as int].value));
            }
            if neighbor_id != i {
                let d2 = pos.dist_sq(&neighbors[j].point);
                if d2 < reach * reach {
                    // deliver to this neighbour
                    proof {
                        assert(comms@[neighbor_id as int].wf() && comms@[neighbor_id as int].spec_id()
                            == neighbor_id);
                    }
                    let ghost iter_entry = comms@;
                    let ghost slot_in = comms@[neighbor_id as int];
                    let mut receiver = SatelliteComms::new(0);
                    comms.set_and_swap(neighbor_id, &mut receiver);
                    if let Some(p) = &originated {
                        proof {
                            assert(p.wf());
                            assert(spec_accepts(*p, neighbor_id));
                        }
                        let dup = p.duplicate();
                        let ghost dp = dup;
                        let ghost pre_receiver = receiver;
                        receiver.add_packet(dup);
                        proof {
                            if neighbor_id < i && entry[neighbor_id as int].spec_from_later(
                                neighbor_id as int,
                            ) {
                                SatelliteComms::lemma_deliver_keeps_from_later(
                                    pre_receiver,
                                    receiver,
                                    dp,
                                    neighbor_id as int,
                                );
                            }
                            assert(spec_delivered(
                                *p,
                                neighbor_id,
                                receiver.spec_packets().last(),
                            ));
                        }
                    }
                    let mut k: usize = 0;
                    let kn = current.packets.len();
                    while k < kn
                        invariant
                            k <= kn,
                            kn == outbox.len(),
                            current.spec_packets() == outbox,
                            receiver.wf(),
                            receiver.spec_id() == neighbor_id,
                            receiver.spec_sequence() == slot_in.spec_sequence(),
                            neighbor_id < i && entry[neighbor_id as int].spec_from_later(
                                neighbor_id as int,
                            ) ==> receiver.spec_from_later(neighbor_id as int),
                            forall|t: int|
                                0 <= t < slot_in.spec_packets().len() ==> (
                                #[trigger] receiver.spec_packets()[t]) == slot_in.spec_packets()[t],
                            receiver.spec_packets().len() >= slot_in.spec_packets().len(),
                            forall|t: int|
                                0 <= t < k && spec_accepts(#[trigger] outbox[t], neighbor_id) ==> (
                                exists|u: int|
                                    0 <= u < receiver.spec_packets().len() && spec_delivered(
                                        outbox[t],
                                        neighbor_id,
                                        receiver.spec_packets()[u],
                                    )),
                            (originated matches Some(p) ==> (exists|u: int|
                                0 <= u < receiver.spec_packets().len() && spec_delivered(
                                    p,
                                    neighbor_id,
                                    receiver.spec_packets()[u],
                                ))),
                        decreases kn - k,
                    {
                        proof {
                            assert(current.spec_packets()[k as int].wf());
                        }
                        let p2 = &current.packets[k];
                        let dup = p2.duplicate();
                        let ghost dp = dup;
                        let ghost pre_receiver = receiver;
                        receiver.add_packet(dup);
                        proof {
                            if neighbor_id < i && entry[neighbor_id as int].spec_from_later(
                                neighbor_id as int,
                            ) {
                                assert(dp.spec_last_to() == i) by {
                                    assert(current.spec_packets()[k as int].spec_last_to() == i);
                                };
                                SatelliteComms::lemma_deliver_keeps_from_later(
                                    pre_receiver,
                                    receiver,
                                    dp,
                                    neighbor_id as int,
                                );
                            }
                            assert forall|t: int|
                                0 <= t < k + 1 && spec_accepts(
                                    #[trigger] outbox[t],
                                    neighbor_id,
                                ) implies (exists|u: int|
                                0 <= u < receiver.spec_packets().len() && spec_delivered(
                                    outbox[t],
                                    neighbor_id,
                                    receiver.spec_packets()[u],
                                )) by {
                                if t < k {
                                    let u = choose|u: int|
                                        0 <= u < pre_receiver.spec_packets().len()
                                            && spec_delivered(
                                            outbox[t],
                                            neighbor_id,
                                            pre_receiver.spec_packets()[u],
                                        );
                                    assert(receiver.spec_packets()[u]
                                        == pre_receiver.spec_packets()[u]);
                                } else {
                                    assert(outbox[t] == current.spec_packets()[k as int]);
                                    assert(spec_accepts(dp, pre_receiver.spec_id()));
                                    let u = receiver.spec_packets().len() - 1;
                                    assert(spec_delivered(
                                        dp,
                                        neighbor_id,
                                        receiver.spec_packets()[u],
                                    ));
                                    assert(spec_delivered(
                                        outbox[t],
                                        neighbor_id,
                                        receiver.spec_packets()[u],
                                    ));
                                }
                            };
                            if originated is Some {
                                let p = originated.unwrap();
                                let u = choose|u: int|
                                    0 <= u < pre_receiver.spec_packets().len() && spec_delivered(
                                        p,
                                        neighbor_id,
                                        pre_receiver.spec_packets()[u],
                                    );
                                assert(receiver.spec_packets()[u]
                                    == pre_receiver.spec_packets()[u]);
                            }
                        }
                        k += 1;
                    }
                    let ghost receiver_out = receiver;
                    comms.set_and_swap(neighbor_id, &mut receiver);
                    proof {
                        assert(comms@[neighbor_id as int] == receiver_out);
                        // deliveries recorded earlier keep their witnesses:
                        // this receiver only grew, others are untouched
                        assert forall|v: int, t: int|
                            0 <= v < j + 1 && (#[trigger] scan[v]).1 != i && scan[v].1 < n
                                && g_pos.spec_dist_sq(scan[v].0) < g_reach * g_reach && 0 <= t
                                < outbox.len() && spec_accepts(
                                #[trigger] outbox[t],
                                scan[v].1,
                            ) implies (exists|u: int|
                            0 <= u < comms@[scan[v].1 as int].spec_packets().len()
                                && spec_delivered(
                                outbox[t],
                                scan[v].1,
                                comms@[scan[v].1 as int].spec_packets()[u],
                            )) by {
                            if v < j {
                                let u = choose|u: int|
                                    0 <= u < iter_entry[scan[v].1 as int].spec_packets().len()
                                        && spec_delivered(
                                        outbox[t],
                                        scan[v].1,
                                        iter_entry[scan[v].1 as int].spec_packets()[u],
                                    );
                                if scan[v].1 == neighbor_id {
                                    assert(iter_entry[neighbor_id as int] == slot_in);
                                    assert(receiver_out.spec_packets()[u]
                                        == slot_in.spec_packets()[u]);
                                } else {
                                    assert(comms@[scan[v].1 as int] == iter_entry[scan[
                                        v
                                    ].1 as int]);
                                }
                            } else {
                                assert(scan[v].1 == neighbor_id);
                                let u = choose|u: int|
                                    0 <= u < receiver_out.spec_packets().len() && spec_delivered(
                                        outbox[t],
                                        neighbor_id,
                                        receiver_out.spec_packets()[u],
                                    );
                                assert(comms@[neighbor_id as int].spec_packets()[u]
                                    == receiver_out.spec_packets()[u]);
                            }
                        };
                        if originated is Some {
                            let p = originated.unwrap();
                            assert forall|v: int|
                                0 <= v < j + 1 && (#[trigger] scan[v]).1 != i && scan[v].1 < n
                                    && g_pos.spec_dist_sq(scan[v].0) < g_reach
                                    * g_reach implies (exists|u: int|
                                0 <= u < comms@[scan[v].1 as int].spec_packets().len()
                                    && spec_delivered(
                                    p,
                                    scan[v].1,
                                    comms@[scan[v].1 as int].spec_packets()[u],
                                )) by {
                                if v < j {
                                    let u = choose|u: int|
                                        0 <= u < iter_entry[scan[v].1 as int].spec_packets().len()
                                            && spec_delivered(
                                            p,
                                            scan[v].1,
                                            iter_entry[scan[v].1 as int].spec_packets()[u],
                                        );
                                    if scan[v].1 == neighbor_id {
                                        assert(iter_entry[neighbor_id as int] == slot_in);
                                        assert(receiver_out.spec_packets()[u]
                                            == slot_in.spec_packets()[u]);
                                    } else {
                                        assert(comms@[scan[v].1 as int] == iter_entry[scan[
                                            v
                                        ].1 as int]);
                                    }
                                } else {
                                    assert(scan[v].1 == neighbor_id);
                                    let u = choose|u: int|
                                        0 <= u < receiver_out.spec_packets().len()
                                            && spec_delivered(
                                            p,
                                            neighbor_id,
                                            receiver_out.spec_packets()[u],
                                        );
                                    assert(comms@[neighbor_id as int].spec_packets()[u]
                                        == receiver_out.spec_packets()[u]);
                                }
                            };
                        }
                        // the receiver's old packets are still in place
                        assert forall|k2: int, t: int|
                            0 <= k2 < n && k2 != i && 0 <= t
                                < entry[k2].spec_packets().len() implies (
                        #[trigger] comms@[k2].spec_packets()[t]) == entry[k2].spec_packets()[t]
                            by {
                            if k2 == neighbor_id {
                                assert(slot_in.spec_packets()[t] == entry[k2].spec_packets()[t]);
                                assert(receiver_out.spec_packets()[t]
                                    == slot_in.spec_packets()[t]);
                            }
                        };
                    }
                }
            }
            j += 1;
        }

        // the whole outbound set was offered; flush the inbox
        let ghost loopend = comms@;
        current.packets = Vec::new();
        proof {
            assert(current.spec_packets() =~= Seq::<Packet>::empty());
            assert(current.spec_from_later(i as int));
        }
        comms.set_and_swap(i, &mut current);
        proof {
            assert(comms@[i as int].spec_packets() =~= Seq::<Packet>::empty());
            assert(outbox == entry[i as int].spec_packets());
            assert forall|v: int, t: int|
                0 <= v < scan.len() && (#[trigger] scan[v]).1 != i && scan[v].1 < entry.len()
                    && g_pos.spec_dist_sq(scan[v].0) < g_reach * g_reach && 0 <= t < entry[
                i as int
            ].spec_packets().len() && spec_accepts(
                #[trigger] entry[i as int].spec_packets()[t],
                scan[v].1,
            ) implies (exists|u: int|
                0 <= u < comms@[scan[v].1 as int].spec_packets().len() && spec_delivered(
                    entry[i as int].spec_packets()[t],
                    scan[v].1,
                    comms@[scan[v].1 as int].spec_packets()[u],
                )) by {
                assert(spec_accepts(outbox[t], scan[v].1));
                let u = choose|u: int|
                    0 <= u < loopend[scan[v].1 as int].spec_packets().len() && spec_delivered(
                        outbox[t],
                        scan[v].1,
                        loopend[scan[v].1 as int].spec_packets()[u],
                    );
                assert(comms@[scan[v].1 as int] == loopend[scan[v].1 as int]);
            };
            if fresh {
                let p = originated.unwrap();
                assert(p.spec_id() == entry[i as int].spec_sequence() + 1 && p.spec_source()
                    == entry[i as int].spec_id() && p.spec_ttl() == INITIAL_TTL && p.spec_path()
                    == Seq::<Hop>::empty());
                assert forall|v: int|
                    0 <= v < scan.len() && (#[trigger] scan[v]).1 != i && scan[v].1 < entry.len()
                        && g_pos.spec_dist_sq(scan[v].0) < g_reach * g_reach implies (exists|
                    u: int|
                    0 <= u < comms@[scan[v].1 as int].spec_packets().len() && spec_delivered(
                        p,
                        scan[v].1,
                        comms@[scan[v].1 as int].spec_packets()[u],
                    )) by {
                    let u = choose|u: int|
                        0 <= u < loopend[scan[v].1 as int].spec_packets().len() && spec_delivered(
                            p,
                            scan[v].1,
                            loopend[scan[v].1 as int].spec_packets()[u],
                        );
                    assert(comms@[scan[v].1 as int] == loopend[scan[v].1 as int]);
                };
            }
            assert(Self::spec_turn(entry, comms@, i, originate, g_pos, g_reach, scan));
        }
    }

    /// One comms tick of the relay protocol, over the whole arena: the
    /// fold of every agent's turn (`update_one`), in ascending id order,
    /// with `originate[i]` agent i's origination draw for this tick.
    ///
    /// Receivers apply the acceptance rules of `add_packet`, so every
    /// delivered packet stays loop-free and inside the hop budget; and a
    /// turn ends by flushing the sender's inbox, so whatever an inbox
    /// holds after the tick came from senders later in the turn order.
    #[verifier::loop_isolation(false)]
    pub fn update_all(
        props: &Vec<SatelliteProperties>,
        positions: &Vec<Point>,
        comms: &mut Vec<SatelliteComms>,
        qtree: &QuadTree<usize>,
        world_size: i64,
        originate: &Vec<bool>,
    )
        requires
            old(comms).len() == props.len(),
            positions.len() == props.len(),
            originate.len() == props.len(),
            qtree.wf(),
            forall|k: int|
                0 <= k < qtree.entries_seq().len() ==> (#[trigger] qtree.entries_seq()[k]).1
                    < props.len() && qtree.entries_seq()[k].0.in_range(),
            forall|i: int| 0 <= i < positions.len() ==> (#[trigger] positions@[i]).in_range(),
            forall|i: int| 0 <= i < props.len() ==> (#[trigger] props@[i]).wf(),
            forall|i: int|
                0 <= i < old(comms).len() ==> (#[trigger] old(comms)@[i]).wf()
                    && old(comms)@[i].spec_id() == i,
            0 < world_size <= MAX_COORD,
        ensures
            final(comms).len() == old(comms).len(),
            forall|i: int|
                0 <= i < final(comms).len() ==> (#[trigger] final(comms)@[i]).wf()
                    && final(comms)@[i].spec_id() == i,
            forall|i: int|
                0 <= i < final(comms).len() ==> (#[trigger] final(comms)@[i]).spec_from_later(i),
            forall|i: int|
                0 <= i < old(comms).len() ==> (#[trigger] final(comms)@[i]).spec_sequence()
                    == old(comms)@[i].spec_sequence() + (if originate@[i] && old(
                    comms,
                )@[i].spec_sequence() < usize::MAX {
                    1int
                } else {
                    0int
                }),
            exists|chain: Seq<Seq<SatelliteComms>>|
                #![trigger chain.len()]
                chain.len() == old(comms).len() + 1 && chain[0] == old(comms)@ && chain[old(
                    comms,
                ).len() as int] == final(comms)@ && (forall|t: int|
                    0 <= t < old(comms).len() ==> Self::spec_turn(
                        #[trigger] chain[t],
                        chain[t + 1],
                        t as usize,
                        originate@[t],
                        positions@[t],
                        props@[t].spec_comms_distance(world_size),
                        Self::spec_scan(
                            *qtree,
                            positions@[t],
                            props@[t].spec_comms_distance(world_size),
                        ),
                    )),
    {
        let n = comms.len();
        let ghost mut chain: Seq<Seq<SatelliteComms>> = seq![old(comms)@];
        let mut i: usize = 0;
        while i < n
            invariant
                i <= n,
                comms@.len() == n,
                forall|k: int|
                    0 <= k < n ==> (#[trigger] comms@[k]).wf() && comms@[k].spec_id() == k,
                forall|k: int| 0 <= k < i ==> (#[trigger] comms@[k]).spec_from_later(k),
                forall|k: int|
                    0 <= k < i ==> (#[trigger] comms@[k]).spec_sequence() == old(
                        comms,
                    )@[k].spec_sequence() + (if originate@[k] && old(comms)@[k].spec_sequence()
                        < usize::MAX {
                        1int
                    } else {
                        0int
                    }),
                forall|k: int|
                    i <= k < n ==> (#[trigger] comms@[k]).spec_sequence() == old(
                        comms,
                    )@[k].spec_sequence(),
                chain.len() == i + 1,
                chain[0] == old(comms)@,
                chain[i as int] == comms@,
                forall|t: int|
                    0 <= t < i ==> Self::spec_turn(
                        #[trigger] chain[t],
                        chain[t + 1],
                        t as usize,
                        originate@[t],
                        positions@[t],
                        props@[t].spec_comms_distance(world_size),
                        Self::spec_scan(
                            *qtree,
                            positions@[t],
                            props@[t].spec_comms_distance(world_size),
                        ),
                    ),
            decreases n - i,
        {
            let ghost pre_state = comms@;
            let draw = originate[i];
            Self::update_one(props, positions, comms, qtree, world_size, i, draw);
            proof {
                chain = chain.push(comms@);
                assert(chain[i + 1] == comms@);
                assert forall|t: int| 0 <= t < i + 1 implies Self::spec_turn(
                    #[trigger] chain[t],
                    chain[t + 1],
                    t as usize,
                    originate@[t],
                    positions@[t],
                    props@[t].spec_comms_distance(world_size),
                    Self::spec_scan(
                        *qtree,
                        positions@[t],
                        props@[t].spec_comms_distance(world_size),
                    ),
                ) by {
                    if t == i {
                        assert(chain[t] == pre_state);
                    }
                };
            }
            i += 1;
        }
        proof {
            assert(chain.len() == n + 1 && chain[0] == old(comms)@ && chain[n as int] == comms@);
        }
    }

}

} // verus!
