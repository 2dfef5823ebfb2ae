use rand::rngs::StdRng;
use rand::SeedableRng;
use schedule::{parse_sections, shuffle_individuals, ConfigError, Placement, Schedule, RETRY_CAP};

fn names(list: &[&str]) -> Vec<String> {
    list.iter().map(|s| s.to_string()).collect()
}

fn occupants(schedule: &Schedule) -> Vec<String> {
    schedule.snapshot().into_iter().flatten().flatten().collect()
}

#[test]
fn new_grid_is_empty() {
    let schedule = Schedule::new(&names(&["A", "B"]), &names(&["1", "2", "3"]));
    assert_eq!(schedule.station_count(), 2);
    assert_eq!(schedule.timeslot_count(), 3);
    assert_eq!(schedule.stations(), names(&["A", "B"]));
    assert_eq!(schedule.timeslots(), names(&["1", "2", "3"]));
    let snapshot = schedule.snapshot();
    assert_eq!(snapshot.len(), 2);
    for row in snapshot {
        assert_eq!(row, vec![None, None, None]);
    }
    assert!(schedule.unassigned().is_empty());
}

#[test]
fn duplicate_names_collapse() {
    let schedule = Schedule::new(&names(&["A", "B", "A"]), &names(&["1", "1"]));
    assert_eq!(schedule.stations(), names(&["A", "B"]));
    assert_eq!(schedule.timeslots(), names(&["1"]));
    assert_eq!(schedule.snapshot().len(), 2);
}

#[test]
fn claim_only_empty_slot() {
    let mut schedule = Schedule::new(&names(&["A", "B"]), &names(&["1", "2"]));
    assert!(schedule.claim(1, 0, &"x".to_string()));
    assert!(!schedule.claim(1, 0, &"y".to_string()));
    assert_eq!(schedule.occupant(1, 0), Some("x".to_string()));
    assert_eq!(schedule.occupant(0, 0), None);
    assert_eq!(schedule.occupant(1, 1), None);
    assert!(schedule.claim(0, 1, &"y".to_string()));
    assert_eq!(schedule.snapshot()[0], vec![None, Some("y".to_string())]);
}

#[test]
fn single_slot_placement_takes_one_attempt() {
    let mut rng = StdRng::seed_from_u64(1);
    let mut schedule = Schedule::new(&names(&["A"]), &names(&["1"]));
    let placement = schedule.place_individual(&mut rng, &"x".to_string(), RETRY_CAP);
    assert_eq!(placement, Placement::Placed { station: 0, timeslot: 0, attempts: 1 });
    assert_eq!(schedule.occupant(0, 0), Some("x".to_string()));
}

#[test]
fn full_grid_exhausts_retry_cap() {
    let mut rng = StdRng::seed_from_u64(2);
    let mut schedule = Schedule::new(&names(&["A"]), &names(&["1"]));
    assert!(schedule.claim(0, 0, &"x".to_string()));
    let placement = schedule.place_individual(&mut rng, &"y".to_string(), RETRY_CAP);
    assert_eq!(placement, Placement::Exhausted { attempts: RETRY_CAP + 1 });
    assert_eq!(RETRY_CAP + 1, 1001);
    assert_eq!(schedule.unassigned(), names(&["y"]));
    assert_eq!(schedule.occupant(0, 0), Some("x".to_string()));
}

#[test]
fn retry_cap_zero_gives_one_attempt() {
    let mut rng = StdRng::seed_from_u64(3);
    let mut schedule = Schedule::new(&names(&["A"]), &names(&["1"]));
    assert!(schedule.claim(0, 0, &"x".to_string()));
    assert_eq!(
        schedule.place_individual(&mut rng, &"y".to_string(), 0),
        Placement::Exhausted { attempts: 1 }
    );
    assert_eq!(schedule.assign_with_retry_cap(&mut rng, &names(&["p", "q"]), 0), Ok(()));
    assert_eq!(schedule.unassigned(), names(&["y", "p", "q"]));
}

#[test]
fn attempts_never_exceed_cap() {
    for seed in 0..50u64 {
        let mut rng = StdRng::seed_from_u64(seed);
        let mut schedule = Schedule::new(&names(&["A", "B"]), &names(&["1", "2"]));
        for i in 0..6 {
            match schedule.place_individual(&mut rng, &format!("p{}", i), 5) {
                Placement::Placed { attempts, .. } => assert!((1..=6).contains(&attempts)),
                Placement::Exhausted { attempts } => assert_eq!(attempts, 6),
            }
        }
    }
}

#[test]
fn four_individuals_fill_four_slots_deterministically() {
    let run = |seed: u64| {
        let mut rng = StdRng::seed_from_u64(seed);
        let mut schedule = Schedule::new(&names(&["A", "B"]), &names(&["1", "2"]));
        assert_eq!(schedule.assign_individuals(&mut rng, &names(&["w", "x", "y", "z"])), Ok(()));
        schedule.snapshot()
    };
    let first = run(42);
    assert_eq!(first, run(42));
    let mut placed: Vec<String> = first.into_iter().flatten().flatten().collect();
    placed.sort();
    assert_eq!(placed, names(&["w", "x", "y", "z"]));
}

#[test]
fn four_individuals_usually_all_placed() {
    let mut full = 0;
    for seed in 0..200u64 {
        let mut rng = StdRng::seed_from_u64(seed);
        let mut schedule = Schedule::new(&names(&["A", "B"]), &names(&["1", "2"]));
        schedule.assign_individuals(&mut rng, &names(&["w", "x", "y", "z"])).unwrap();
        if schedule.unassigned().is_empty() {
            full += 1;
        }
    }
    assert!(full >= 190);
}

#[test]
fn overflow_leaves_exactly_one_unassigned() {
    for seed in 0..50u64 {
        let mut rng = StdRng::seed_from_u64(seed);
        let mut schedule = Schedule::new(&names(&["A"]), &names(&["1", "2"]));
        let people = names(&["p", "q", "r"]);
        assert_eq!(schedule.assign_individuals(&mut rng, &people), Ok(()));
        let unassigned = schedule.unassigned();
        assert_eq!(unassigned.len(), 1);
        let mut all = occupants(&schedule);
        assert_eq!(all.len(), 2);
        all.extend(unassigned);
        all.sort();
        assert_eq!(all, people);
    }
}

#[test]
fn every_individual_placed_or_unassigned_once() {
    let mut rng = StdRng::seed_from_u64(9);
    let mut schedule = Schedule::new(&names(&["A", "B", "C"]), &names(&["1", "2"]));
    let people = names(&["a", "b", "a", "c", "d", "e", "f", "g"]);
    schedule.assign_individuals(&mut rng, &people).unwrap();
    let placed = occupants(&schedule);
    assert_eq!(placed.len(), 6);
    let mut all = placed;
    all.extend(schedule.unassigned());
    all.sort();
    let mut expected = people.clone();
    expected.sort();
    assert_eq!(all, expected);
}

#[test]
fn earlier_occupants_are_kept() {
    let mut rng = StdRng::seed_from_u64(5);
    let mut schedule = Schedule::new(&names(&["A"]), &names(&["1", "2", "3"]));
    assert!(schedule.claim(0, 1, &"first".to_string()));
    schedule.assign_individuals(&mut rng, &names(&["b", "c", "d"])).unwrap();
    assert_eq!(schedule.occupant(0, 1), Some("first".to_string()));
    assert_eq!(schedule.unassigned().len(), 1);
}

#[test]
fn no_individuals_change_nothing() {
    let mut rng = StdRng::seed_from_u64(4);
    let mut schedule = Schedule::new(&names(&["A", "B"]), &names(&["1", "2"]));
    assert_eq!(schedule.assign_individuals(&mut rng, &[]), Ok(()));
    assert!(occupants(&schedule).is_empty());
    assert!(schedule.unassigned().is_empty());
}

#[test]
fn zero_stations_rejected() {
    let mut rng = StdRng::seed_from_u64(6);
    let mut schedule = Schedule::new(&[], &names(&["1", "2"]));
    assert_eq!(
        schedule.assign_individuals(&mut rng, &names(&["p"])),
        Err(ConfigError::NoStations)
    );
    assert!(schedule.unassigned().is_empty());
    let mut neither = Schedule::new(&[], &[]);
    assert_eq!(
        neither.assign_individuals(&mut rng, &names(&["p"])),
        Err(ConfigError::NoStations)
    );
}

#[test]
fn zero_timeslots_rejected() {
    let mut rng = StdRng::seed_from_u64(7);
    let mut schedule = Schedule::new(&names(&["A"]), &[]);
    assert_eq!(
        schedule.assign_individuals(&mut rng, &names(&["p", "q"])),
        Err(ConfigError::NoTimeslots)
    );
    assert!(schedule.unassigned().is_empty());
}

#[test]
fn output_lists_slots_then_unassigned() {
    let mut schedule = Schedule::new(&names(&["A", "B"]), &names(&["9am", "10am"]));
    assert!(schedule.claim(0, 1, &"ann".to_string()));
    assert!(schedule.claim(1, 0, &"bob".to_string()));
    assert!(schedule.claim(0, 0, &"cy".to_string()));
    assert!(schedule.claim(1, 1, &"dee".to_string()));
    let mut rng = StdRng::seed_from_u64(8);
    schedule.assign_with_retry_cap(&mut rng, &names(&["eve"]), 0).unwrap();
    assert_eq!(
        schedule.output(),
        "[Station: A]\n9am: cy\n10am: ann\n\n[Station: B]\n9am: bob\n10am: dee\n\n[Unassigned]\neve\n"
    );
}

#[test]
fn output_of_empty_grid() {
    let schedule = Schedule::new(&names(&["A"]), &names(&["1"]));
    assert_eq!(schedule.output(), "[Station: A]\n1: None\n\n[Unassigned]\n");
    let nothing = Schedule::new(&[], &[]);
    assert_eq!(nothing.output(), "[Unassigned]\n");
}

#[test]
fn output_after_full_grid() {
    let mut schedule = Schedule::new(&names(&["S"]), &names(&["t"]));
    assert!(schedule.claim(0, 0, &"x".to_string()));
    let mut rng = StdRng::seed_from_u64(10);
    schedule.assign_with_retry_cap(&mut rng, &names(&["y", "z"]), 3).unwrap();
    assert_eq!(schedule.output(), "[Station: S]\nt: x\n\n[Unassigned]\ny\nz\n");
}

#[test]
fn parse_reads_sections() {
    let text = "ignored\n[Stations]\nA\nB\n\n[TIMES]\r\n9am\r\n[people]\nann\nbob\nann\n[timeslots]\n10am\n[Individuals]\ncy\n";
    let sections = parse_sections(text);
    assert_eq!(sections.stations, names(&["A", "B"]));
    assert_eq!(sections.timeslots, names(&["9am", "10am"]));
    assert_eq!(sections.individuals, names(&["ann", "bob", "ann", "cy"]));
}

#[test]
fn parse_without_headers_reads_nothing() {
    let sections = parse_sections("A\nB\n");
    assert!(sections.stations.is_empty());
    assert!(sections.timeslots.is_empty());
    assert!(sections.individuals.is_empty());
    let empty = parse_sections("");
    assert!(empty.individuals.is_empty());
}

#[test]
fn shuffle_keeps_individuals() {
    let original = names(&["a", "b", "c", "d", "e", "f", "g", "h", "a"]);
    let mut moved = false;
    for seed in 0..20u64 {
        let mut rng = StdRng::seed_from_u64(seed);
        let mut order = original.clone();
        shuffle_individuals(&mut rng, &mut order);
        if order != original {
            moved = true;
        }
        order.sort();
        let mut sorted = original.clone();
        sorted.sort();
        assert_eq!(order, sorted);
    }
    assert!(moved);
}

#[test]
fn fixed_draws_fill_slots_in_order() {
    let mut schedule = Schedule::new(&names(&["A", "B"]), &names(&["1", "2"]));
    let draws = [(0, 0), (0, 1), (1, 0), (1, 1)];
    for (draw, person) in draws.iter().zip(["w", "x", "y", "z"]) {
        let placement = schedule.place_with_draws(&[*draw], &person.to_string());
        assert_eq!(
            placement,
            Placement::Placed { station: draw.0, timeslot: draw.1, attempts: 1 }
        );
    }
    assert_eq!(schedule.occupant(0, 0), Some("w".to_string()));
    assert_eq!(schedule.occupant(0, 1), Some("x".to_string()));
    assert_eq!(schedule.occupant(1, 0), Some("y".to_string()));
    assert_eq!(schedule.occupant(1, 1), Some("z".to_string()));
    assert!(schedule.unassigned().is_empty());
}

#[test]
fn fixed_draws_skip_occupied_slots() {
    let mut schedule = Schedule::new(&names(&["A", "B"]), &names(&["1", "2"]));
    assert!(schedule.claim(0, 0, &"w".to_string()));
    let placement = schedule.place_with_draws(&[(0, 0), (0, 0), (1, 1), (0, 1)], &"x".to_string());
    assert_eq!(placement, Placement::Placed { station: 1, timeslot: 1, attempts: 3 });
    let missed = schedule.place_with_draws(&[(0, 0), (1, 1)], &"y".to_string());
    assert_eq!(missed, Placement::Exhausted { attempts: 2 });
    assert_eq!(schedule.unassigned(), names(&["y"]));
    assert_eq!(schedule.occupant(0, 1), None);
}

#[test]
fn single_slot_run_places_first() {
    let mut rng = StdRng::seed_from_u64(11);
    let mut schedule = Schedule::new(&names(&["A"]), &names(&["1"]));
    assert_eq!(schedule.assign_individuals(&mut rng, &names(&["x", "y"])), Ok(()));
    assert_eq!(schedule.occupant(0, 0), Some("x".to_string()));
    assert_eq!(schedule.unassigned(), names(&["y"]));
    assert_eq!(schedule.output(), "[Station: A]\n1: x\n\n[Unassigned]\ny\n");
}
