use aircraft_sim::{Person, Tile, Variant};

#[test]
fn constructors() {
    let mut tile = Tile::aisle();
    assert_eq!(tile.get_variant(), Variant::Aisle);
    tile = Tile::seat();
    assert_eq!(tile.get_variant(), Variant::Seat);
    tile = Tile::entrance();
    assert_eq!(tile.get_variant(), Variant::Entrance);
}

#[test]
#[should_panic]
fn occupier() {
    let tile = Tile::aisle();
    tile.get_occupier().unwrap();
}

#[test]
fn get_occupier() {
    let mut tile = Tile::aisle();
    let person = Person::new("Dave");
    let _ = tile.occupy(person);
    assert_eq!(tile.get_occupier().unwrap().get_name(), "Dave");
}

#[test]
fn allow_to_pass() {
    let mut tile0 = Tile::aisle();
    let mut tile1 = Tile::aisle();
    // A passer squeezes past someone: tile 1 has a primary occupant.
    let _ = tile1.occupy(Person::new("OCCUPANT"));
    let mut person = Person::new("DEFAULT");
    person.target_seat(0, 0);

    let _ = tile0.occupy(person);
    assert!(tile0.is_occupied(), "Tile 0 was not occupied at initialisation");

    let temp = tile0.free().expect("No passenger was present in tile 0");

    let _ = tile1.pass_in(temp);
    assert_eq!(tile0.is_occupied(), false, "Tile 0 was still occupied");
    assert!(tile1.is_allowing(), "Tile 1 was not allowing");

    let _ = tile0.occupy(tile1.pass_out());
    assert!(tile0.is_occupied(), "Tile 0 was not occupied post pass");
    assert_eq!(tile1.is_allowing(), false, "Tile 1 was still allowing");
}
