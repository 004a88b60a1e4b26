use aircraft_sim::policy::distance;
use aircraft_sim::{
    layout_from_records, passenger_from_record, random_back_first, run_batch, run_unit,
    Aircraft, Behaviour, Person, SeatData, SimError, Tile, Variant,
};

fn open_cabin_with_one(target: (u16, u16), baggage: bool) -> Aircraft {
    let mut aircraft = Aircraft::new(10, 10);
    aircraft.set_tile(2, 2, Variant::Entrance).unwrap();
    let mut p = Person::new("Dave");
    p.target_seat(target.0, target.1);
    p.set_baggage(baggage);
    aircraft.add_passenger(p).unwrap();
    aircraft
}

fn blocked_cabin() -> Aircraft {
    let mut aircraft = Aircraft::new(3, 3);
    aircraft.set_tile(0, 0, Variant::Entrance).unwrap();
    for (x, y) in [(0, 1), (1, 1), (1, 0)] {
        aircraft.set_tile(x, y, Variant::Blocked).unwrap();
    }
    let mut p = Person::new("Dave");
    p.target_seat(2, 2);
    aircraft.add_passenger(p).unwrap();
    aircraft
}

fn seat_cabin_with_one(baggage: bool) -> Aircraft {
    let mut aircraft = Aircraft::new(5, 5);
    for y in 0..5 {
        for x in [0u16, 1, 3, 4] {
            aircraft.set_tile(x, y, Variant::Seat).unwrap();
        }
    }
    aircraft.set_tile(2, 4, Variant::Entrance).unwrap();
    let mut p = Person::new("DEFAULT");
    p.target_seat(0, 0);
    p.set_baggage(baggage);
    aircraft.add_passenger(p).unwrap();
    aircraft
}

fn head_count(a: &Aircraft) -> usize {
    let (w, h) = a.get_size();
    let mut n = a.waiting_count();
    for x in 0..w {
        for y in 0..h {
            if a.check_if_occupied(x, y) {
                n += 1;
            }
            if a.check_if_allowing(x, y) {
                n += 1;
            }
        }
    }
    n
}

fn occupancy(a: &Aircraft) -> Vec<(bool, bool)> {
    let (w, h) = a.get_size();
    let mut v = Vec::new();
    for x in 0..w {
        for y in 0..h {
            v.push((a.check_if_occupied(x, y), a.check_if_allowing(x, y)));
        }
    }
    v
}

fn position(a: &Aircraft) -> Option<(u16, u16)> {
    let (w, h) = a.get_size();
    for x in 0..w {
        for y in 0..h {
            if a.check_if_occupied(x, y) {
                return Some((x, y));
            }
        }
    }
    None
}

#[test]
fn conservation_over_ticks() {
    let mut aircraft = seat_cabin_with_one(true);
    for (x, y) in [(1u16, 0u16), (3, 1), (4, 2), (0, 2)] {
        let mut p = Person::new("DEFAULT");
        p.target_seat(x, y);
        aircraft.add_passenger(p).unwrap();
    }
    assert_eq!(head_count(&aircraft), 5);
    for _ in 0..30 {
        aircraft.update();
        assert_eq!(head_count(&aircraft), 5);
    }
}

#[test]
fn at_most_one_cell_per_tick() {
    let mut aircraft = open_cabin_with_one((9, 0), false);
    aircraft.update();
    let mut last = position(&aircraft).unwrap();
    for _ in 0..20 {
        aircraft.update();
        let now = position(&aircraft).unwrap();
        let moved = (now.0 as i32 - last.0 as i32).abs() + (now.1 as i32 - last.1 as i32).abs();
        assert!(moved <= 1);
        last = now;
    }
    assert_eq!(last, (9, 0));
}

#[test]
fn identical_runs_match_tick_by_tick() {
    let mut a = seat_cabin_with_one(true);
    let mut b = seat_cabin_with_one(true);
    for _ in 0..15 {
        a.update();
        b.update();
        assert_eq!(occupancy(&a), occupancy(&b));
    }
}

#[test]
fn distance_never_grows_on_open_grid() {
    let mut aircraft = open_cabin_with_one((7, 9), false);
    aircraft.update();
    let mut last = distance(2, 2, (7, 9));
    for _ in 0..20 {
        aircraft.update();
        let (x, y) = position(&aircraft).unwrap();
        let d = distance(x as i32, y as i32, (7, 9));
        assert!(d <= last);
        last = d;
    }
    assert_eq!(last, 0);
}

#[test]
fn blocked_seat_is_never_reached() {
    let mut aircraft = blocked_cabin();
    for _ in 0..100 {
        aircraft.update();
    }
    assert!(!aircraft.is_complete());
    assert!(!aircraft.check_if_occupied(2, 2));
}

#[test]
fn basic_arrival_takes_three_ticks() {
    let mut aircraft = open_cabin_with_one((1, 1), false);
    for _ in 0..3 {
        aircraft.update();
    }
    assert!(aircraft.check_if_occupied(1, 1));
    assert!(!aircraft.check_if_occupied(2, 2));
    assert!(aircraft.is_complete());
    aircraft.update();
    assert!(aircraft.check_if_occupied(1, 1));
    assert_eq!(position(&aircraft), Some((1, 1)));
}

#[test]
fn basic_arrival_run_reports_three() {
    let mut aircraft = open_cabin_with_one((1, 1), false);
    assert_eq!(aircraft.run_to_completion(50), Ok(3));
}

#[test]
fn baggage_costs_one_tick() {
    let without = run_unit(seat_cabin_with_one(false), 50).unwrap();
    let with = run_unit(seat_cabin_with_one(true), 50).unwrap();
    assert_eq!(with, without + 1);
    assert_eq!(with, 8);
}

#[test]
fn baggage_costs_one_tick_on_open_grid() {
    let without = run_unit(open_cabin_with_one((5, 6), false), 50).unwrap();
    let with = run_unit(open_cabin_with_one((5, 6), true), 50).unwrap();
    assert_eq!(with, without + 1);
}

#[test]
fn batch_keeps_outcomes_apart() {
    let results = run_batch(vec![blocked_cabin(), open_cabin_with_one((1, 1), false)], 100);
    assert_eq!(results, vec![Err(SimError::NonTermination), Ok(3)]);
    let results = run_batch(vec![open_cabin_with_one((1, 1), false), blocked_cabin()], 100);
    assert_eq!(results, vec![Ok(3), Err(SimError::NonTermination)]);
}

#[test]
fn empty_batch() {
    assert!(run_batch(Vec::new(), 10).is_empty());
}

#[test]
fn run_reports_non_termination() {
    let mut aircraft = blocked_cabin();
    assert_eq!(aircraft.run_to_completion(100), Err(SimError::NonTermination));
    assert!(!aircraft.is_complete());
}

#[test]
fn run_with_zero_bound() {
    let mut aircraft = open_cabin_with_one((1, 1), false);
    assert_eq!(aircraft.run_to_completion(0), Err(SimError::NonTermination));
    let mut empty = Aircraft::new(4, 4);
    assert_eq!(empty.run_to_completion(0), Ok(0));
}

#[test]
fn passenger_without_seat_does_not_block_completion() {
    let mut aircraft = Aircraft::new(4, 4);
    aircraft.set_tile(0, 0, Variant::Entrance).unwrap();
    aircraft.add_passenger(Person::new("Eve")).unwrap();
    assert!(aircraft.is_complete());
    aircraft.update();
    assert!(aircraft.check_if_occupied(0, 0));
    aircraft.update();
    assert!(aircraft.check_if_occupied(0, 0));
}

#[test]
fn first_added_boards_first() {
    let mut aircraft = Aircraft::new(3, 3);
    aircraft.set_tile(0, 0, Variant::Entrance).unwrap();
    let mut a = Person::new("first");
    a.target_seat(2, 0);
    let mut b = Person::new("second");
    b.target_seat(0, 2);
    aircraft.add_passenger(a).unwrap();
    aircraft.add_passenger(b).unwrap();
    aircraft.update();
    assert_eq!(aircraft.waiting_count(), 1);
    assert_eq!(aircraft.get_waiting(0).unwrap().get_name(), "second");
    assert_eq!(aircraft.tile_at(0, 0).get_occupier().unwrap().get_name(), "first");
}

#[test]
fn pass_in_needs_primary_occupant() {
    let mut tile = Tile::aisle();
    assert_eq!(tile.pass_in(Person::new("a")), Err(SimError::OccupancyConflict));
    assert!(!tile.is_allowing());
    assert!(!tile.is_occupied());
}

#[test]
fn configuration_errors() {
    let mut aircraft = Aircraft::new(3, 4);
    assert_eq!(aircraft.set_tile(3, 0, Variant::Seat), Err(SimError::Configuration));
    assert_eq!(aircraft.set_tile(0, 4, Variant::Seat), Err(SimError::Configuration));
    assert_eq!(aircraft.str_set_tile(0, 0, "galley"), Err(SimError::Configuration));
    assert_eq!(aircraft.str_set_tile(0, 0, "none"), Err(SimError::Configuration));
    assert_eq!(aircraft.str_set_tile(9, 0, "seat"), Err(SimError::Configuration));
    assert_eq!(aircraft.str_set_tile(1, 1, "seat"), Ok(()));
    assert_eq!(aircraft.get_tile_variant(1, 1), Variant::Seat);
    assert_eq!(aircraft.str_set_tile(1, 2, "entrance"), Ok(()));
    assert_eq!(aircraft.get_tile_variant(1, 2), Variant::Entrance);
    let mut p = Person::new("Dave");
    p.target_seat(3, 0);
    assert_eq!(aircraft.add_passenger(p), Err(SimError::Configuration));
    assert_eq!(aircraft.waiting_count(), 0);
    let mut q = Person::new("Dave");
    q.target_seat(2, 3);
    assert_eq!(aircraft.add_passenger(q), Ok(()));
    aircraft.update();
    assert!(aircraft.check_if_occupied(1, 2));
    assert_eq!(aircraft.set_tile(1, 2, Variant::Aisle), Err(SimError::Configuration));
    // Once a tick has run, even an empty tile keeps its variant.
    assert_eq!(aircraft.set_tile(0, 0, Variant::Seat), Err(SimError::Configuration));
    assert_eq!(aircraft.str_set_tile(0, 0, "seat"), Err(SimError::Configuration));
    assert_eq!(aircraft.get_tile_variant(0, 0), Variant::Aisle);
}

#[test]
fn occupancy_conflicts() {
    let mut tile = Tile::aisle();
    assert_eq!(tile.occupy(Person::new("a")), Ok(()));
    assert!(tile.has_updated());
    assert_eq!(tile.occupy(Person::new("b")), Err(SimError::OccupancyConflict));
    assert_eq!(tile.get_occupier().unwrap().get_name(), "a");
    assert_eq!(tile.pass_in(Person::new("c")), Ok(()));
    assert_eq!(tile.pass_in(Person::new("d")), Err(SimError::OccupancyConflict));
    assert_eq!(tile.get_passer().unwrap().get_name(), "c");
}

#[test]
fn free_promotes_passer() {
    let mut tile = Tile::seat();
    let _ = tile.occupy(Person::new("a"));
    let _ = tile.pass_in(Person::new("b"));
    let left = tile.free().unwrap();
    assert_eq!(left.get_name(), "a");
    assert!(tile.is_occupied());
    assert!(!tile.is_allowing());
    assert_eq!(tile.get_occupier().unwrap().get_name(), "b");
    assert_eq!(tile.free().unwrap().get_name(), "b");
    assert!(tile.free().is_none());
}

#[test]
fn pass_wait_counts() {
    let mut tile = Tile::aisle();
    let _ = tile.occupy(Person::new("a"));
    let _ = tile.pass_in(Person::new("b"));
    assert!(!tile.pass_count());
    assert!(!tile.pass_count());
    assert!(tile.pass_count());
    assert!(!tile.pass_count());
}

#[test]
fn blocked_tile_refuses_entry() {
    assert!(!Tile::none().allows_entry());
    assert_eq!(Tile::none().get_variant(), Variant::Blocked);
    assert!(Tile::aisle().allows_entry());
}

#[test]
fn impossible_moves() {
    let aircraft = Aircraft::new(3, 3);
    assert_eq!(aircraft.destination(0, 0, Behaviour::Move_North), Err(SimError::ImpossibleMove));
    assert_eq!(aircraft.destination(0, 0, Behaviour::Move_West), Err(SimError::ImpossibleMove));
    assert_eq!(aircraft.destination(2, 2, Behaviour::Move_East), Err(SimError::ImpossibleMove));
    assert_eq!(aircraft.destination(2, 2, Behaviour::Move_South), Err(SimError::ImpossibleMove));
    assert_eq!(aircraft.destination(1, 1, Behaviour::Move_North), Ok((1, 0)));
    assert_eq!(aircraft.destination(1, 1, Behaviour::Move_East), Ok((2, 1)));
    assert_eq!(aircraft.destination(1, 1, Behaviour::Wait), Ok((1, 1)));
}

#[test]
fn policy_choices() {
    let mut aircraft = Aircraft::new(5, 5);
    aircraft.set_tile(0, 2, Variant::Seat).unwrap();
    // Level with the seat's row and carrying baggage: stow first.
    assert_eq!(aircraft.determine_move(2, 2, (0, 2), true), Behaviour::Stow);
    assert_eq!(aircraft.determine_move(2, 2, (0, 2), false), Behaviour::Move_West);
    // North and West tie; North comes first.
    assert_eq!(aircraft.determine_move(2, 2, (1, 1), false), Behaviour::Move_North);
    // Already there: wait, or stow baggage still carried.
    assert_eq!(aircraft.determine_move(1, 1, (1, 1), false), Behaviour::Wait);
    assert_eq!(aircraft.determine_move(1, 1, (1, 1), true), Behaviour::Stow);
    // From a seat only sideways moves are considered.
    assert_eq!(aircraft.determine_move(0, 2, (0, 0), false), Behaviour::Wait);
    assert_eq!(aircraft.determine_move(0, 2, (3, 0), false), Behaviour::Move_East);
    // A blocked neighbour is never chosen.
    aircraft.set_tile(2, 1, Variant::Blocked).unwrap();
    assert_eq!(aircraft.determine_move(2, 2, (2, 0), false), Behaviour::Wait);
}

#[test]
fn distance_values() {
    assert_eq!(distance(2, 2, (1, 1)), 2);
    assert_eq!(distance(-1, 0, (3, 4)), 8);
    assert_eq!(distance(7, 9, (7, 9)), 0);
}

#[test]
fn layout_from_records_sizes() {
    let recs = vec![
        SeatData::new(0, 0, "seat"),
        SeatData::new(4, 1, "entrance"),
        SeatData::new(2, 3, "bogus"),
        SeatData::new(0, 0, "aisle"),
    ];
    let aircraft = layout_from_records(&recs).unwrap();
    assert_eq!(aircraft.get_size(), (5, 4));
    assert_eq!(aircraft.get_tile_variant(0, 0), Variant::Aisle);
    assert_eq!(aircraft.get_tile_variant(4, 1), Variant::Entrance);
    assert_eq!(aircraft.get_tile_variant(2, 3), Variant::Blocked);
    assert_eq!(aircraft.get_tile_variant(1, 1), Variant::Aisle);
    assert_eq!(recs[1].get_x(), 4);
    assert_eq!(recs[1].get_y(), 1);
    assert_eq!(recs[1].get_variant(), Variant::Entrance);
    assert_eq!(layout_from_records(&Vec::new()).unwrap().get_size(), (1, 1));
    let too_big = vec![SeatData::new(u16::MAX, 0, "seat")];
    assert_eq!(layout_from_records(&too_big).err(), Some(SimError::Configuration));
}

#[test]
fn passenger_records() {
    let p = passenger_from_record("person0", 3, 4, "1").unwrap();
    assert_eq!(p.get_name(), "person0");
    assert_eq!(p.get_seat(), Some((3, 4)));
    assert!(p.has_baggage());
    let q = passenger_from_record("person1", 0, 1, "0").unwrap();
    assert!(!q.has_baggage());
    assert_eq!(passenger_from_record("x", 0, 0, "2").err(), Some(SimError::Configuration));
}

#[test]
fn person_mutators() {
    let mut p = Person::new("Dave");
    p.set_name("Bert");
    assert_eq!(p.get_name(), "Bert");
    p.set_baggage(true);
    assert!(p.has_baggage());
    p.remove_baggage();
    assert!(!p.has_baggage());
}

#[test]
fn back_first_order_is_shuffled() {
    let persons = random_back_first(21, 2).unwrap();
    assert_eq!(persons.len(), 40);
    let mut rows_sorted = 0;
    for row in 0..2u16 {
        let xs: Vec<u16> = persons
            .iter()
            .filter(|p| p.get_seat().unwrap().1 == row)
            .map(|p| p.get_seat().unwrap().0)
            .collect();
        assert_eq!(xs.len(), 20);
        let mut sorted = xs.clone();
        sorted.sort();
        let expected: Vec<u16> = (0..21).filter(|x| *x != 10).collect();
        assert_eq!(sorted, expected);
        if xs == expected {
            rows_sorted += 1;
        }
    }
    assert!(rows_sorted < 2);
    for p in &persons {
        assert!(p.has_baggage());
        assert_eq!(p.get_name(), "DEFAULT");
    }
}

#[test]
fn tick_count_advances() {
    let mut aircraft = open_cabin_with_one((1, 1), false);
    assert_eq!(aircraft.get_ticks(), 0);
    aircraft.update();
    aircraft.update();
    assert_eq!(aircraft.get_ticks(), 2);
    assert_eq!(aircraft.run_to_completion(10), Ok(1));
    assert_eq!(aircraft.get_ticks(), 3);
}

#[test]
fn baggage_stowed_on_seat_in_line_costs_nothing() {
    let without = run_unit(open_cabin_with_one((2, 6), false), 50).unwrap();
    let with = run_unit(open_cabin_with_one((2, 6), true), 50).unwrap();
    assert_eq!(without, 5);
    assert_eq!(with, 5);
}

#[test]
fn lone_boarding_to_seat_tile_takes_distance_plus_one() {
    let build = |baggage: bool| {
        let mut aircraft = Aircraft::new(6, 6);
        aircraft.set_tile(2, 2, Variant::Entrance).unwrap();
        aircraft.set_tile(4, 5, Variant::Seat).unwrap();
        let mut p = Person::new("Dave");
        p.target_seat(4, 5);
        p.set_baggage(baggage);
        aircraft.add_passenger(p).unwrap();
        aircraft
    };
    assert_eq!(run_unit(build(false), 50), Ok(6));
    assert_eq!(run_unit(build(true), 50), Ok(7));
}
