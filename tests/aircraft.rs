use aircraft_sim::{Aircraft, Person, Variant};

fn seat_grid_5x5() -> Aircraft {
    let mut aircraft = Aircraft::new(5, 5);
    for i in 0..5 {
        for j in [0u16, 1, 3, 4] {
            aircraft.set_tile(j, i, Variant::Seat).unwrap();
        }
    }
    aircraft.set_tile(2, 4, Variant::Entrance).unwrap();
    aircraft
}

#[test]
fn clear() {
    let aircraft = Aircraft::new(5, 5);
    let (w, h) = aircraft.get_size();
    for i in 0..w {
        for j in 0..h {
            assert_eq!(aircraft.get_tile_variant(i, j), Variant::Aisle);
        }
    }
}

#[test]
fn mod_constructor() {
    let aircraft = Aircraft::new(10, 10);
    assert_eq!(aircraft.get_size().0, 10);
    assert_eq!(aircraft.get_size(), (10, 10));
    for i in 0..10 {
        for j in 0..10 {
            println!("Testing aircraft[{}][{}]", i, j);
            assert_eq!(aircraft.get_tile_variant(i, j), Variant::Aisle);
        }
    }
}

#[test]
fn add_passenger() {
    println!("Testing add_passenger()");
    let mut aircraft = Aircraft::new(6, 9);
    let passenger = Person::new("Dave");
    aircraft.add_passenger(passenger).unwrap();
    assert_eq!(aircraft.get_waiting(0).unwrap().get_name(), "Dave");
    assert_eq!(aircraft.get_waiting(0).unwrap().get_seat(), None);
}

#[test]
fn get_size() {
    let aircraft = Aircraft::new(5, 6);
    assert_eq!(aircraft.get_size(), (5, 6));
}

#[test]
fn update() {
    let mut aircraft = Aircraft::new(10, 10);
    let mut passenger = Person::new("Dave");
    passenger.target_seat(1, 1);

    println!("Adding passenger");
    aircraft.add_passenger(passenger).unwrap();
    assert_eq!(aircraft.waiting_count(), 1, "Unwanted passenger at initialisation");

    println!("Adding entrance and updating");
    aircraft.set_tile(2, 2, Variant::Entrance).unwrap();
    aircraft.update();
    assert_eq!(aircraft.waiting_count(), 0, "Passenger was not removed from passengers array");
    assert!(aircraft.check_if_occupied(2, 2), "Passenger was not added to entrance tile");

    println!("Updating");
    aircraft.update();
    println!("Updating");
    aircraft.update();
    aircraft.update();
    aircraft.update();
    assert_eq!(aircraft.check_if_occupied(2, 2), false, "Passenger did not move from entrance");
    assert!(aircraft.check_if_occupied(1, 1), "Passenger did not make it to target seat");

    println!("Updating once too much");
    aircraft.update();
    assert!(aircraft.check_if_occupied(1, 1), "Passenger shouldn't have moved from their seat");
}

#[test]
fn impassable_terrain() {
    let mut aircraft = Aircraft::new(3, 3);
    let mut passenger = Person::new("Dave");
    passenger.target_seat(2, 2);
    aircraft.set_tile(0, 0, Variant::Entrance).unwrap();
    for coords in &[(0, 1), (1, 1), (1, 0)] {
        aircraft.set_tile(coords.0, coords.1, Variant::Blocked).unwrap();
    }
    aircraft.add_passenger(passenger).unwrap();

    for _ in 0..100 {
        aircraft.update();
    }

    assert_eq!(aircraft.check_if_occupied(2, 2), false, "Passenger made it to seat despite obstacles");
}

#[test]
fn aisle_ignoring() {
    let mut aircraft = Aircraft::new(5, 5);
    let mut passenger = Person::new("Dave");
    passenger.target_seat(4, 0);
    aircraft.set_tile(2, 4, Variant::Entrance).unwrap();
    for i in 0..5 {
        aircraft.set_tile(0, i, Variant::Seat).unwrap();
        aircraft.set_tile(1, i, Variant::Seat).unwrap();
        aircraft.set_tile(3, i, Variant::Seat).unwrap();
        aircraft.set_tile(4, i, Variant::Seat).unwrap();
    }
    aircraft.add_passenger(passenger).unwrap();

    for _ in 0..10 {
        println!("========================");
        aircraft.update();
    }
    assert!(aircraft.check_if_occupied(4, 0), "Passenger did not make it to seat");
}

#[test]
fn advanced_aisle_ignoring() {
    let mut aircraft = Aircraft::new(3, 3);
    aircraft.set_tile(1, 2, Variant::Entrance).unwrap();
    for i in 0..3 {
        for j in &[0, 2] {
            let mut passenger = Person::new("DEFAULT");
            passenger.target_seat(*j, i);
            aircraft.set_tile(*j, i, Variant::Seat).unwrap();
            aircraft.add_passenger(passenger).unwrap();
        }
    }

    for _ in 0..10 {
        println!("========================");
        aircraft.update();
    }

    for i in 0..3 {
        for j in &[0, 2] {
            assert!(aircraft.check_if_occupied(*j, i), "Seat {},{} was not occupied", *j, i);
        }
    }
}

#[test]
fn aisle_shifting() {
    let mut aircraft = Aircraft::new(5, 5);

    aircraft.set_tile(2, 4, Variant::Entrance).unwrap();
    for i in 0..5 {
        aircraft.set_tile(0, i, Variant::Seat).unwrap();
        aircraft.set_tile(1, i, Variant::Seat).unwrap();
        aircraft.set_tile(3, i, Variant::Seat).unwrap();
        aircraft.set_tile(4, i, Variant::Seat).unwrap();
    }

    let mut passenger = Person::new("DEFAULT");
    passenger.target_seat(0, 0);
    aircraft.add_passenger(passenger).unwrap();

    let mut passenger = Person::new("DEFAULT");
    passenger.target_seat(1, 0);
    aircraft.add_passenger(passenger).unwrap();

    for _ in 0..10 {
        println!("========================");
        aircraft.update();
    }

    assert!(aircraft.check_if_occupied(0, 0));
    assert!(aircraft.check_if_occupied(1, 0));
}

#[test]
fn bad_order() {
    let mut aircraft = seat_grid_5x5();

    for i in 0..3 {
        for j in &[0, 1, 4, 3] {
            let mut passenger = Person::new("DEFAULT");
            passenger.target_seat(*j, i);
            aircraft.add_passenger(passenger).unwrap();
        }
    }

    for _ in 0..20 {
        println!("==========");
        aircraft.update();
    }

    for i in 0..3 {
        for j in &[0, 1, 4, 3] {
            assert!(aircraft.check_if_occupied(*j, i));
        }
    }
}

#[test]
fn baggage() {
    let mut aircraft = seat_grid_5x5();

    let mut person = Person::new("DEFAULT");
    person.target_seat(0, 0);
    person.set_baggage(true);
    aircraft.add_passenger(person).unwrap();

    for _ in 0..7 {
        aircraft.update();
        println!("==========");
    }

    assert_eq!(aircraft.check_if_occupied(0, 0), false);

    aircraft.update();
    println!("==========");

    assert!(aircraft.check_if_occupied(0, 0));
}

#[test]
fn test_is_complete() {
    let mut aircraft = seat_grid_5x5();

    let mut passengers = Vec::<Person>::new();
    for i in &[0, 1, 3, 4] {
        let mut passenger = Person::new("DEFAULT");
        passenger.target_seat(*i, 0);
        passengers.push(passenger);

        let mut passenger = Person::new("DEFAULT");
        passenger.target_seat(*i, 0);
        aircraft.add_passenger(passenger).unwrap();
    }

    for _ in 0..15 {
        aircraft.update();
        println!("Status is: {}", aircraft.is_complete());
    }

    assert!(aircraft.is_complete(), "Not all passengers reached their seats(?)");
}

#[test]
fn advanced_stowing() {
    let mut aircraft = seat_grid_5x5();

    for i in &[(0, 0), (4, 4)] {
        let mut passenger = Person::new("DEFAULT");
        passenger.target_seat(i.0, i.1);
        passenger.set_baggage(true);
        aircraft.add_passenger(passenger).unwrap();
    }

    for _ in 0..15 {
        aircraft.update();
        println!("Status is: {}", aircraft.is_complete());
    }

    assert!(aircraft.is_complete(), "Not all passengers reached their seats(?)");
}

#[test]
fn main_imports() {
    let aircraft = Aircraft::new(5, 5);
    assert_eq!(aircraft.get_size(), (5, 5));
}

#[test]
fn lib_imports() {
    let aircraft = Aircraft::new(5, 5);
    assert_eq!(aircraft.get_size(), (5, 5));
}
