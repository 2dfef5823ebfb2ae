//! The slot grid and the randomised assigner that fills it.
use vstd::prelude::*;
use vstd::multiset::{lemma_multiset_empty_len, Multiset};
use rand::rngs::StdRng;
use crate::model::{
    all_empty, distinct_in_order, empty_count, lemma_empty_count_fill, lemma_occupants_fill, occupants,
    left_over, placements_valid, run_outcome,
};
use crate::random::{random_below, shuffle_names};
use crate::report::{grid_text, report_text, station_header, station_lines, slot_line, unassigned_text};
use vstd::string::*;

verus! {

/// Largest number of failed claims an individual may have before it is
/// given up on; it thus gets at most `RETRY_CAP + 1` claim attempts.
pub const RETRY_CAP: usize = 1000;

/// Why a run was refused before anything was changed.
#[derive(Debug, Clone, Copy, PartialEq, Eq, Structural)]
pub enum ConfigError {
    /// The grid has no station.
    NoStations,
    /// The grid has stations but no timeslot.
    NoTimeslots,
}

/// How the attempts to place one individual ended.
#[derive(Debug, Clone, Copy, PartialEq, Eq, Structural)]
pub enum Placement {
    /// The individual claimed the slot at (`station`, `timeslot`) on claim
    /// attempt number `attempts`.
    Placed { station: usize, timeslot: usize, attempts: usize },
    /// Every one of `attempts` claims hit an occupied slot; the individual
    /// was appended to the unassigned list.
    Exhausted { attempts: usize },
}

/// A slot's occupant as a character sequence.
pub open spec fn occupant_view(o: Option<String>) -> Option<Seq<char>> {
    match o {
        Some(s) => Some(s@),
        None => None,
    }
}

/// A list of names as character sequences.
pub open spec fn names_view(v: Seq<String>) -> Seq<Seq<char>> {
    v.map_values(|s: String| s@)
}

/// A grid of station × timeslot slots, each empty or holding one individual,
/// together with the individuals that could not be placed.
pub struct Schedule {
    stations: Vec<String>,
    timeslots: Vec<String>,
    /// Row-major: the slot of (station `s`, timeslot `t`) is at
    /// `s * timeslots.len() + t`.
    slots: Vec<Option<String>>,
    unassigned: Vec<String>,
}

/// Position of a slot in the row-major layout.
pub open spec fn slot_pos(station: int, timeslot: int, timeslot_count: int) -> int {
    station * timeslot_count + timeslot
}

proof fn lemma_slot_pos_in_range(s: int, t: int, ns: int, nt: int)
    requires
        0 <= s < ns,
        0 <= t < nt,
    ensures
        0 <= s * nt <= slot_pos(s, t, nt) < ns * nt,
{
    assert(0 <= s * nt <= s * nt + t < ns * nt) by (nonlinear_arith)
        requires
            0 <= s < ns,
            0 <= t < nt,
    ;
}

impl Schedule {
    pub closed spec fn stations_view(&self) -> Seq<Seq<char>> {
        names_view(self.stations@)
    }

    pub closed spec fn timeslots_view(&self) -> Seq<Seq<char>> {
        names_view(self.timeslots@)
    }

    /// Occupancy of every slot, row-major.
    pub closed spec fn slots_view(&self) -> Seq<Option<Seq<char>>> {
        self.slots@.map_values(|o: Option<String>| occupant_view(o))
    }

    pub closed spec fn unassigned_view(&self) -> Seq<Seq<char>> {
        names_view(self.unassigned@)
    }

    pub closed spec fn wf(&self) -> bool {
        &&& self.slots@.len() == self.stations@.len() * self.timeslots@.len()
        &&& self.stations@.len() * self.timeslots@.len() <= usize::MAX
    }

    /// Occupancy of the slot of (`station`, `timeslot`).
    pub open spec fn occupant_at(&self, station: int, timeslot: int) -> Option<Seq<char>> {
        self.slots_view()[slot_pos(station, timeslot, self.timeslots_view().len() as int)]
    }

    /// Builds an empty grid with one row per distinct station name and one
    /// column per distinct timeslot name; a repeated name collapses into its
    /// first occurrence.
    pub fn new(stations: &[String], timeslots: &[String]) -> (r: Self)
        requires
            stations@.len() * timeslots@.len() <= usize::MAX,
        ensures
            r.wf(),
            r.stations_view() == distinct_in_order(names_view(stations@)),
            r.timeslots_view() == distinct_in_order(names_view(timeslots@)),
            r.stations_view().len() <= stations@.len(),
            r.timeslots_view().len() <= timeslots@.len(),
            (r.stations_view().len() == 0) == (stations@.len() == 0),
            (r.timeslots_view().len() == 0) == (timeslots@.len() == 0),
            r.slots_view().len() == r.stations_view().len() * r.timeslots_view().len(),
            forall|p: int| 0 <= p < r.slots_view().len() ==> #[trigger] r.slots_view()[p] is None,
            r.unassigned_view() == Seq::<Seq<char>>::empty(),
    {
        let station_names = distinct_names(stations);
        let timeslot_names = distinct_names(timeslots);
        proof {
            lemma_distinct_in_order_len(names_view(stations@));
            lemma_distinct_in_order_len(names_view(timeslots@));
            let a = station_names@.len() as int;
            let b = timeslot_names@.len() as int;
            let x = stations@.len() as int;
            let y = timeslots@.len() as int;
            assert(a * b <= x * y) by (nonlinear_arith)
                requires
                    0 <= a <= x,
                    0 <= b <= y,
            ;
        }
        let total = station_names.len() * timeslot_names.len();
        let mut slots: Vec<Option<String>> = Vec::new();
        while slots.len() < total
            invariant
                slots@.len() <= total,
                forall|p: int| 0 <= p < slots@.len() ==> #[trigger] slots@[p] is None,
            decreases total - slots@.len(),
        {
            slots.push(None);
        }
        let r = Schedule { stations: station_names, timeslots: timeslot_names, slots, unassigned: Vec::new() };
        proof {
            r.lemma_view_lens();
            lemma_distinct_in_order_empty(names_view(stations@));
            lemma_distinct_in_order_empty(names_view(timeslots@));
            assert(r.unassigned_view() =~= Seq::<Seq<char>>::empty());
        }
        r
    }

    pub fn station_count(&self) -> (r: usize)
        ensures
            r == self.stations_view().len(),
    {
        self.stations.len()
    }

    pub fn timeslot_count(&self) -> (r: usize)
        ensures
            r == self.timeslots_view().len(),
    {
        self.timeslots.len()
    }

    /// Claims the slot of (`station`, `timeslot`) for `individual`: succeeds
    /// and records the individual only if the slot was empty, and otherwise
    /// leaves everything as it was.
    pub fn claim(&mut self, station: usize, timeslot: usize, individual: &String) -> (r: bool)
        requires
            old(self).wf(),
            station < old(self).stations_view().len(),
            timeslot < old(self).timeslots_view().len(),
        ensures
            final(self).wf(),
            final(self).stations_view() == old(self).stations_view(),
            final(self).timeslots_view() == old(self).timeslots_view(),
            final(self).unassigned_view() == old(self).unassigned_view(),
            r == (old(self).occupant_at(station as int, timeslot as int) is None),
            final(self).slots_view() == if r {
                old(self).slots_view().update(
                    slot_pos(station as int, timeslot as int, old(self).timeslots_view().len() as int),
                    Some(individual@),
                )
            } else {
                old(self).slots_view()
            },
    {
        proof {
            self.lemma_view_lens();
            lemma_slot_pos_in_range(
                station as int,
                timeslot as int,
                self.stations@.len() as int,
                self.timeslots@.len() as int,
            );
        }
        let pos = station * self.timeslots.len() + timeslot;
        if self.slots[pos].is_none() {
            self.slots.set(pos, Some(individual.clone()));
            proof {
                assert(self.slots_view() =~= old(self).slots_view().update(pos as int, Some(individual@)));
            }
            true
        } else {
            false
        }
    }

    /// Places one individual using the given (station, timeslot) draws in
    /// order: it takes the slot of the first draw that finds an empty slot,
    /// after one claim attempt per draw up to that one; when every draw
    /// finds an occupied slot, it is appended to the unassigned list.
    pub fn place_with_draws(&mut self, draws: &[(usize, usize)], individual: &String) -> (r: Placement)
        requires
            old(self).wf(),
            forall|j: int|
                0 <= j < draws@.len() ==> (#[trigger] draws@[j]).0 < old(self).stations_view().len()
                    && draws@[j].1 < old(self).timeslots_view().len(),
        ensures
            final(self).wf(),
            final(self).stations_view() == old(self).stations_view(),
            final(self).timeslots_view() == old(self).timeslots_view(),
            match r {
                Placement::Placed { station, timeslot, attempts } => {
                    &&& 1 <= attempts <= draws@.len()
                    &&& draws@[attempts - 1] == (station, timeslot)
                    &&& forall|j: int|
                        0 <= j < attempts - 1 ==> old(self).occupant_at(
                            (#[trigger] draws@[j]).0 as int,
                            draws@[j].1 as int,
                        ) is Some
                    &&& old(self).occupant_at(station as int, timeslot as int) is None
                    &&& final(self).slots_view() == old(self).slots_view().update(
                        slot_pos(station as int, timeslot as int, old(self).timeslots_view().len() as int),
                        Some(individual@),
                    )
                    &&& final(self).unassigned_view() == old(self).unassigned_view()
                },
                Placement::Exhausted { attempts } => {
                    &&& attempts == draws@.len()
                    &&& forall|j: int|
                        0 <= j < draws@.len() ==> old(self).occupant_at(
                            (#[trigger] draws@[j]).0 as int,
                            draws@[j].1 as int,
                        ) is Some
                    &&& final(self).slots_view() == old(self).slots_view()
                    &&& final(self).unassigned_view() == old(self).unassigned_view().push(individual@)
                },
            },
    {
        let mut i: usize = 0;
        while i < draws.len()
            invariant
                self.wf(),
                self.stations_view() == old(self).stations_view(),
                self.timeslots_view() == old(self).timeslots_view(),
                self.slots_view() == old(self).slots_view(),
                self.unassigned_view() == old(self).unassigned_view(),
                i <= draws@.len(),
                forall|j: int|
                    0 <= j < draws@.len() ==> (#[trigger] draws@[j]).0 < old(self).stations_view().len()
                        && draws@[j].1 < old(self).timeslots_view().len(),
                forall|j: int|
                    0 <= j < i ==> old(self).occupant_at((#[trigger] draws@[j]).0 as int, draws@[j].1 as int)
                        is Some,
            decreases draws@.len() - i,
        {
            let (station, timeslot) = draws[i];
            if self.claim(station, timeslot, individual) {
                return Placement::Placed { station, timeslot, attempts: i + 1 };
            }
            i += 1;
        }
        self.unassigned.push(individual.clone());
        proof {
            assert(self.unassigned_view() =~= old(self).unassigned_view().push(individual@));
        }
        Placement::Exhausted { attempts: i }
    }

    /// Tries to place one individual: draws `retry_cap + 1` uniformly random
    /// slots and places the individual with [`Schedule::place_with_draws`],
    /// so that it gets a claim attempt per draw until one finds an empty
    /// slot; after `retry_cap` failed retries it goes to the unassigned list.
    pub fn place_individual(&mut self, rng: &mut StdRng, individual: &String, retry_cap: usize) -> (r: Placement)
        requires
            old(self).wf(),
            old(self).stations_view().len() > 0,
            old(self).timeslots_view().len() > 0,
            retry_cap < usize::MAX,
        ensures
            final(self).wf(),
            final(self).stations_view() == old(self).stations_view(),
            final(self).timeslots_view() == old(self).timeslots_view(),
            all_empty(old(self).slots_view()) ==> r is Placed,
            match r {
                Placement::Placed { station, timeslot, attempts } => {
                    &&& station < old(self).stations_view().len()
                    &&& timeslot < old(self).timeslots_view().len()
                    &&& 1 <= attempts <= retry_cap + 1
                    &&& old(self).occupant_at(station as int, timeslot as int) is None
                    &&& final(self).slots_view() == old(self).slots_view().update(
                        slot_pos(station as int, timeslot as int, old(self).timeslots_view().len() as int),
                        Some(individual@),
                    )
                    &&& final(self).unassigned_view() == old(self).unassigned_view()
                },
                Placement::Exhausted { attempts } => {
                    &&& attempts == retry_cap + 1
                    &&& final(self).slots_view() == old(self).slots_view()
                    &&& final(self).unassigned_view() == old(self).unassigned_view().push(individual@)
                },
            },
    {
        proof {
            self.lemma_view_lens();
        }
        let station_count = self.stations.len();
        let timeslot_count = self.timeslots.len();
        let mut draws: Vec<(usize, usize)> = Vec::new();
        while draws.len() <= retry_cap
            invariant
                draws@.len() <= retry_cap + 1,
                retry_cap < usize::MAX,
                station_count > 0,
                timeslot_count > 0,
                forall|j: int|
                    0 <= j < draws@.len() ==> (#[trigger] draws@[j]).0 < station_count && draws@[j].1
                        < timeslot_count,
            decreases retry_cap + 1 - draws@.len(),
        {
            let station = random_below(rng, station_count);
            let timeslot = random_below(rng, timeslot_count);
            draws.push((station, timeslot));
        }
        let r = self.place_with_draws(draws.as_slice(), individual);
        proof {
            if all_empty(old(self).slots_view()) {
                let d = draws@[0];
                lemma_slot_pos_in_range(d.0 as int, d.1 as int, station_count as int, timeslot_count as int);
                assert(old(self).occupant_at(d.0 as int, d.1 as int) is None);
            }
        }
        r
    }

    /// Places each individual in turn, in the given order, allowing each
    /// `retry_cap` failed claims before it goes to the unassigned list.
    /// Refuses to run, changing nothing, on a grid without stations or
    /// without timeslots.
    pub fn assign_with_retry_cap(
        &mut self,
        rng: &mut StdRng,
        individuals: &[String],
        retry_cap: usize,
    ) -> (r: Result<(), ConfigError>)
        requires
            old(self).wf(),
            retry_cap < usize::MAX,
        ensures
            final(self).wf(),
            final(self).stations_view() == old(self).stations_view(),
            final(self).timeslots_view() == old(self).timeslots_view(),
            r == Err::<(), ConfigError>(ConfigError::NoStations) <==> old(self).stations_view().len()
                == 0,
            r == Err::<(), ConfigError>(ConfigError::NoTimeslots) <==> (old(self).stations_view().len()
                > 0 && old(self).timeslots_view().len() == 0),
            r is Ok <==> (old(self).stations_view().len() > 0 && old(self).timeslots_view().len() > 0),
            r is Err ==> final(self).slots_view() == old(self).slots_view()
                && final(self).unassigned_view() == old(self).unassigned_view(),
            r is Ok ==> run_outcome(
                old(self).slots_view(),
                final(self).slots_view(),
                old(self).unassigned_view(),
                final(self).unassigned_view(),
                names_view(individuals@),
            ),
    {
        proof {
            self.lemma_view_lens();
        }
        if self.stations.len() == 0 {
            return Err(ConfigError::NoStations);
        }
        if self.timeslots.len() == 0 {
            return Err(ConfigError::NoTimeslots);
        }
        let ghost old_slots = self.slots_view();
        let ghost old_unassigned = self.unassigned_view();
        let ghost inds = names_view(individuals@);
        let ghost mut fate: Seq<Option<int>> = Seq::empty();
        proof {
            inds.take(0).to_multiset_ensures();
            left_over(inds.take(0), fate).to_multiset_ensures();
            lemma_multiset_empty_len(inds.take(0).to_multiset());
            lemma_multiset_empty_len(left_over(inds.take(0), fate).to_multiset());
            assert(inds.take(0).to_multiset() =~= Multiset::empty());
            assert(left_over(inds.take(0), fate).to_multiset() =~= Multiset::empty());
            assert(occupants(old_slots).add(Multiset::empty()) =~= occupants(old_slots));
            assert(self.unassigned_view() =~= old_unassigned + left_over(inds.take(0), fate));
        }
        let mut k: usize = 0;
        while k < individuals.len()
            invariant
                self.wf(),
                self.stations_view() == old(self).stations_view(),
                self.timeslots_view() == old(self).timeslots_view(),
                self.stations_view().len() > 0,
                self.timeslots_view().len() > 0,
                retry_cap < usize::MAX,
                k <= individuals@.len(),
                inds == names_view(individuals@),
                placements_valid(old_slots, self.slots_view(), inds.take(k as int), fate),
                self.unassigned_view() == old_unassigned + left_over(inds.take(k as int), fate),
                empty_count(self.slots_view()) + k == empty_count(old_slots) + left_over(
                    inds.take(k as int),
                    fate,
                ).len(),
                occupants(self.slots_view()).add(left_over(inds.take(k as int), fate).to_multiset())
                    == occupants(old_slots).add(inds.take(k as int).to_multiset()),
                k == 0 ==> self.slots_view() == old_slots,
                (k > 0 && all_empty(old_slots)) ==> fate[0] is Some,
            decreases individuals@.len() - k,
        {
            let ghost before = self.slots_view();
            let ghost fate_before = fate;
            let ghost nt = self.timeslots_view().len() as int;
            let placement = self.place_individual(rng, &individuals[k], retry_cap);
            let ghost taken = inds.take(k + 1);
            proof {
                assert(taken.drop_last() =~= inds.take(k as int));
                assert(taken.last() == inds[k as int]);
            }
            match placement {
                Placement::Placed { station, timeslot, attempts: _ } => {
                    proof {
                        let p = slot_pos(station as int, timeslot as int, nt);
                        lemma_slot_pos_in_range(
                            station as int,
                            timeslot as int,
                            self.stations_view().len() as int,
                            nt,
                        );
                        lemma_empty_count_fill(before, p, inds[k as int]);
                        lemma_occupants_fill(before, p, inds[k as int]);
                        fate = fate_before.push(Some(p));
                        assert(fate.drop_last() =~= fate_before);
                        assert(!fate_before.contains(Some(p))) by {
                            if fate_before.contains(Some(p)) {
                                let w = choose|w: int| 0 <= w < fate_before.len() && fate_before[w] == Some(p);
                                assert(fate_before[w] is Some);
                            }
                        }
                        assert forall|q: int|
                            0 <= q < old_slots.len() && !fate.contains(Some(q)) implies #[trigger] self.slots_view()[q]
                            == old_slots[q] by {
                            if fate_before.contains(Some(q)) {
                                let w = choose|w: int| 0 <= w < fate_before.len() && fate_before[w] == Some(q);
                                assert(fate[w] == Some(q));
                            }
                            assert(fate[fate.len() - 1] == Some(p));
                            assert(q != p);
                            assert(before[q] == old_slots[q]);
                        }
                        assert forall|j: int|
                            0 <= j < fate.len() && #[trigger] fate[j] is Some implies {
                                let q = fate[j]->0;
                                &&& 0 <= q < old_slots.len()
                                &&& old_slots[q] is None
                                &&& self.slots_view()[q] == Some(taken[j])
                            } by {
                            if j < fate_before.len() {
                                assert(fate_before[j] is Some);
                                assert(fate_before[j]->0 != p);
                            } else {
                                assert(!fate_before.contains(Some(p)));
                            }
                        }
                        assert forall|i: int, j: int|
                            0 <= i < j < fate.len() && #[trigger] fate[i] is Some && #[trigger] fate[j] is Some
                                implies fate[i] != fate[j] by {
                            if j < fate_before.len() {
                                assert(fate_before[i] is Some && fate_before[j] is Some);
                            } else {
                                assert(fate_before[i] is Some);
                                assert(fate[i]->0 != p);
                            }
                        }
                    }
                },
                Placement::Exhausted { attempts: _ } => {
                    proof {
                        fate = fate_before.push(None);
                        assert(fate.drop_last() =~= fate_before);
                        assert forall|q: int|
                            0 <= q < old_slots.len() && !fate.contains(Some(q)) implies #[trigger] self.slots_view()[q]
                            == old_slots[q] by {
                            if fate_before.contains(Some(q)) {
                                let w = choose|w: int| 0 <= w < fate_before.len() && fate_before[w] == Some(q);
                                assert(fate[w] == Some(q));
                            }
                            assert(before[q] == old_slots[q]);
                        }
                        assert forall|j: int|
                            0 <= j < fate.len() && #[trigger] fate[j] is Some implies {
                                let q = fate[j]->0;
                                &&& 0 <= q < old_slots.len()
                                &&& old_slots[q] is None
                                &&& self.slots_view()[q] == Some(taken[j])
                            } by {
                            assert(fate_before[j] is Some);
                        }
                        assert forall|i: int, j: int|
                            0 <= i < j < fate.len() && #[trigger] fate[i] is Some && #[trigger] fate[j] is Some
                                implies fate[i] != fate[j] by {
                            assert(fate_before[i] is Some && fate_before[j] is Some);
                        }
                        assert(self.unassigned_view() =~= old_unassigned + left_over(taken, fate));
                    }
                },
            }
            proof {
                if all_empty(old_slots) {
                    assert(fate[0] is Some);
                }
                broadcast use vstd::multiset::group_multiset_axioms;

                let v = inds[k as int];
                let prefix = inds.take(k as int);
                prefix.to_multiset_ensures();
                assert(taken =~= prefix.push(v));
                assert(taken.to_multiset() =~= prefix.to_multiset().insert(v));
                let lo_before = left_over(prefix, fate_before);
                lo_before.to_multiset_ensures();
                let occ_before = occupants(before);
                assert(occ_before.add(lo_before.to_multiset()) == occupants(old_slots).add(
                    prefix.to_multiset(),
                ));
                let lhs = occupants(self.slots_view()).add(left_over(taken, fate).to_multiset());
                let rhs = occupants(old_slots).add(taken.to_multiset());
                if fate.last() is Some {
                    assert(left_over(taken, fate) == lo_before);
                    assert(occupants(self.slots_view()) == occ_before.insert(v));
                    assert forall|x: Seq<char>| lhs.count(x) == rhs.count(x) by {
                        assert(occ_before.add(lo_before.to_multiset()).count(x) == occupants(
                            old_slots,
                        ).add(prefix.to_multiset()).count(x));
                    }
                } else {
                    assert(left_over(taken, fate) == lo_before.push(v));
                    assert(left_over(taken, fate).to_multiset() =~= lo_before.to_multiset().insert(v));
                    assert(occupants(self.slots_view()) == occ_before);
                    assert forall|x: Seq<char>| lhs.count(x) == rhs.count(x) by {
                        assert(occ_before.add(lo_before.to_multiset()).count(x) == occupants(
                            old_slots,
                        ).add(prefix.to_multiset()).count(x));
                    }
                }
                assert(occupants(self.slots_view()).add(left_over(taken, fate).to_multiset()) =~= occupants(
                    old_slots,
                ).add(taken.to_multiset()));
            }
            k += 1;
        }
        proof {
            assert(inds.take(k as int) =~= inds);
        }
        Ok(())
    }

    /// Places each individual in turn with the fixed retry cap [`RETRY_CAP`].
    pub fn assign_individuals(&mut self, rng: &mut StdRng, individuals: &[String]) -> (r: Result<(), ConfigError>)
        requires
            old(self).wf(),
        ensures
            final(self).wf(),
            final(self).stations_view() == old(self).stations_view(),
            final(self).timeslots_view() == old(self).timeslots_view(),
            r == Err::<(), ConfigError>(ConfigError::NoStations) <==> old(self).stations_view().len()
                == 0,
            r == Err::<(), ConfigError>(ConfigError::NoTimeslots) <==> (old(self).stations_view().len()
                > 0 && old(self).timeslots_view().len() == 0),
            r is Ok <==> (old(self).stations_view().len() > 0 && old(self).timeslots_view().len() > 0),
            r is Err ==> final(self).slots_view() == old(self).slots_view()
                && final(self).unassigned_view() == old(self).unassigned_view(),
            r is Ok ==> run_outcome(
                old(self).slots_view(),
                final(self).slots_view(),
                old(self).unassigned_view(),
                final(self).unassigned_view(),
                names_view(individuals@),
            ),
    {
        self.assign_with_retry_cap(rng, individuals, RETRY_CAP)
    }

    /// The report: for each station in grid order a `[Station: name]` line,
    /// one `timeslot: occupant` line per timeslot (`None` when empty) and a
    /// blank line; then `[Unassigned]` and the unassigned individuals, one
    /// per line.
    pub fn output(&self) -> (r: String)
        requires
            self.wf(),
        ensures
            r@ == report_text(
                self.stations_view(),
                self.timeslots_view(),
                self.slots_view(),
                self.unassigned_view(),
            ),
    {
        proof {
            self.lemma_view_lens();
        }
        let ghost sv = self.stations_view();
        let ghost tv = self.timeslots_view();
        let ghost slv = self.slots_view();
        let ghost uv = self.unassigned_view();
        let station_count = self.stations.len();
        let timeslot_count = self.timeslots.len();
        let mut out = String::new();
        let mut s: usize = 0;
        while s < station_count
            invariant
                self.wf(),
                station_count == sv.len(),
                timeslot_count == tv.len(),
                sv == self.stations_view(),
                tv == self.timeslots_view(),
                slv == self.slots_view(),
                s <= station_count,
                out@ == grid_text(sv, tv, slv, s as nat),
            decreases station_count - s,
        {
            let ghost done = out@;
            out.append("[Station: ");
            out.append(self.stations[s].as_str());
            out.append("]\n");
            proof {
                assert(out@ =~= done + station_header(sv[s as int]));
            }
            let mut t: usize = 0;
            while t < timeslot_count
                invariant
                    self.wf(),
                    station_count == sv.len(),
                    timeslot_count == tv.len(),
                    sv == self.stations_view(),
                    tv == self.timeslots_view(),
                    slv == self.slots_view(),
                    s < station_count,
                    t <= timeslot_count,
                    out@ == done + station_header(sv[s as int]) + station_lines(
                        tv,
                        slv,
                        s * tv.len(),
                        t as nat,
                    ),
                decreases timeslot_count - t,
            {
                proof {
                    lemma_slot_pos_in_range(s as int, t as int, station_count as int, timeslot_count as int);
                }
                let pos = s * timeslot_count + t;
                let ghost before = out@;
                out.append(self.timeslots[t].as_str());
                out.append(": ");
                match &self.slots[pos] {
                    Some(name) => out.append(name.as_str()),
                    None => out.append("None"),
                }
                out.append("\n");
                proof {
                    assert(slv[pos as int] == occupant_view(self.slots@[pos as int]));
                    assert(out@ =~= before + slot_line(tv[t as int], slv[s * tv.len() + t]));
                }
                t += 1;
            }
            out.append("\n");
            s += 1;
        }
        let ghost grid = out@;
        out.append("[Unassigned]\n");
        let mut u: usize = 0;
        while u < self.unassigned.len()
            invariant
                uv == self.unassigned_view(),
                uv.len() == self.unassigned@.len(),
                u <= uv.len(),
                out@ == grid + "[Unassigned]\n"@ + unassigned_text(uv, u as nat),
            decreases uv.len() - u,
        {
            out.append(self.unassigned[u].as_str());
            out.append("\n");
            u += 1;
        }
        out
    }

    /// The occupant of the slot of (`station`, `timeslot`).
    pub fn occupant(&self, station: usize, timeslot: usize) -> (r: Option<String>)
        requires
            self.wf(),
            station < self.stations_view().len(),
            timeslot < self.timeslots_view().len(),
        ensures
            occupant_view(r) == self.occupant_at(station as int, timeslot as int),
    {
        proof {
            self.lemma_view_lens();
            lemma_slot_pos_in_range(
                station as int,
                timeslot as int,
                self.stations@.len() as int,
                self.timeslots@.len() as int,
            );
        }
        let pos = station * self.timeslots.len() + timeslot;
        match &self.slots[pos] {
            Some(name) => Some(name.clone()),
            None => None,
        }
    }

    /// The station names, in grid order.
    pub fn stations(&self) -> (r: Vec<String>)
        ensures
            names_view(r@) == self.stations_view(),
    {
        copy_names(&self.stations)
    }

    /// The timeslot names, in grid order.
    pub fn timeslots(&self) -> (r: Vec<String>)
        ensures
            names_view(r@) == self.timeslots_view(),
    {
        copy_names(&self.timeslots)
    }

    /// The individuals that could not be placed, in processing order.
    pub fn unassigned(&self) -> (r: Vec<String>)
        ensures
            names_view(r@) == self.unassigned_view(),
    {
        copy_names(&self.unassigned)
    }

    /// A read-only copy of the grid: row `s`, column `t` is the occupant of
    /// the slot of station `s` and timeslot `t`.
    pub fn snapshot(&self) -> (r: Vec<Vec<Option<String>>>)
        requires
            self.wf(),
        ensures
            r@.len() == self.stations_view().len(),
            forall|s: int|
                0 <= s < r@.len() ==> (#[trigger] r@[s])@.len() == self.timeslots_view().len(),
            forall|s: int, t: int|
                0 <= s < r@.len() && 0 <= t < self.timeslots_view().len() ==> occupant_view(
                    #[trigger] r@[s]@[t],
                ) == self.occupant_at(s, t),
    {
        proof {
            self.lemma_view_lens();
        }
        let station_count = self.stations.len();
        let timeslot_count = self.timeslots.len();
        let mut rows: Vec<Vec<Option<String>>> = Vec::new();
        let mut s: usize = 0;
        while s < station_count
            invariant
                station_count == self.stations_view().len(),
                timeslot_count == self.timeslots_view().len(),
                self.wf(),
                s <= station_count,
                rows@.len() == s,
                forall|i: int| 0 <= i < s ==> (#[trigger] rows@[i])@.len() == timeslot_count,
                forall|i: int, t: int|
                    0 <= i < s && 0 <= t < timeslot_count ==> occupant_view(#[trigger] rows@[i]@[t])
                        == self.occupant_at(i, t),
            decreases station_count - s,
        {
            let mut row: Vec<Option<String>> = Vec::new();
            let mut t: usize = 0;
            while t < timeslot_count
                invariant
                    station_count == self.stations_view().len(),
                    timeslot_count == self.timeslots_view().len(),
                    self.wf(),
                    s < station_count,
                    t <= timeslot_count,
                    row@.len() == t,
                    forall|j: int| 0 <= j < t ==> occupant_view(#[trigger] row@[j]) == self.occupant_at(s as int, j),
                decreases timeslot_count - t,
            {
                row.push(self.occupant(s, t));
                t += 1;
            }
            rows.push(row);
            s += 1;
        }
        rows
    }

    /// A well-formed grid has one slot per (station, timeslot) pair.
    pub proof fn lemma_slot_count(&self)
        requires
            self.wf(),
        ensures
            self.slots_view().len() == self.stations_view().len() * self.timeslots_view().len(),
    {
        self.lemma_view_lens();
    }

    proof fn lemma_view_lens(&self)
        ensures
            self.stations_view().len() == self.stations@.len(),
            self.timeslots_view().len() == self.timeslots@.len(),
            self.slots_view().len() == self.slots@.len(),
            self.unassigned_view().len() == self.unassigned@.len(),
    {
    }
}

proof fn lemma_distinct_in_order_len(names: Seq<Seq<char>>)
    ensures
        distinct_in_order(names).len() <= names.len(),
    decreases names.len(),
{
    if names.len() > 0 {
        lemma_distinct_in_order_len(names.drop_last());
    }
}

/// Puts the individuals in a random order, as a caller may do before a run:
/// the same individuals, each as often as before.
pub fn shuffle_individuals(rng: &mut StdRng, individuals: &mut Vec<String>)
    ensures
        final(individuals)@.to_multiset() == old(individuals)@.to_multiset(),
        final(individuals)@.len() == old(individuals)@.len(),
{
    shuffle_names(rng, individuals);
    proof {
        old(individuals)@.to_multiset_ensures();
        individuals@.to_multiset_ensures();
    }
}

fn copy_names(names: &Vec<String>) -> (r: Vec<String>)
    ensures
        names_view(r@) == names_view(names@),
{
    let mut copy: Vec<String> = Vec::new();
    let mut i: usize = 0;
    while i < names.len()
        invariant
            i <= names@.len(),
            copy@.len() == i,
            forall|j: int| 0 <= j < i ==> #[trigger] copy@[j] == names@[j],
        decreases names@.len() - i,
    {
        copy.push(names[i].clone());
        i += 1;
    }
    proof {
        assert(names_view(copy@) =~= names_view(names@));
    }
    copy
}

proof fn lemma_distinct_in_order_empty(names: Seq<Seq<char>>)
    ensures
        (distinct_in_order(names).len() == 0) == (names.len() == 0),
    decreases names.len(),
{
    if names.len() > 0 {
        lemma_distinct_in_order_empty(names.drop_last());
    }
}

/// The names of `names` without repeats, first occurrences kept in order.
fn distinct_names(names: &[String]) -> (r: Vec<String>)
    ensures
        names_view(r@) == distinct_in_order(names_view(names@)),
{
    let mut kept: Vec<String> = Vec::new();
    let mut i: usize = 0;
    while i < names.len()
        invariant
            i <= names@.len(),
            names_view(kept@) == distinct_in_order(names_view(names@.take(i as int))),
        decreases names@.len() - i,
    {
        let mut seen = false;
        let mut j: usize = 0;
        while j < kept.len()
            invariant
                i < names@.len(),
                j <= kept@.len(),
                seen == names_view(kept@).take(j as int).contains(names@[i as int]@),
            decreases kept@.len() - j,
        {
            let ghost was_seen = seen;
            if kept[j] == names[i] {
                seen = true;
            }
            proof {
                let prefix = names_view(kept@).take(j as int);
                let longer = names_view(kept@).take(j + 1);
                assert(longer =~= prefix.push(kept@[j as int]@));
                if was_seen {
                    let w = choose|w: int| 0 <= w < prefix.len() && prefix[w] == names@[i as int]@;
                    assert(longer[w] == names@[i as int]@);
                }
                if seen && !was_seen {
                    assert(longer[j as int] == names@[i as int]@);
                }
                if !seen {
                    assert forall|w: int| 0 <= w < longer.len() implies longer[w] != names@[i as int]@ by {
                        if w < j {
                            assert(prefix[w] == longer[w]);
                        }
                    }
                }
            }
            j += 1;
        }
        proof {
            assert(names_view(kept@).take(j as int) =~= names_view(kept@));
            assert(names_view(names@.take(i + 1)).drop_last() =~= names_view(names@.take(i as int)));
        }
        let ghost before = kept@;
        if !seen {
            kept.push(names[i].clone());
            proof {
                assert(names_view(kept@) =~= names_view(before).push(names@[i as int]@));
            }
        }
        i += 1;
    }
    proof {
        assert(names@.take(names@.len() as int) =~= names@);
    }
    kept
}

} // verus!
