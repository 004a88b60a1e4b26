use aircraft_sim::{str_to_var, Variant};

#[test]
fn test_str_to_var() {
    assert_eq!(str_to_var("aisle"), Variant::Aisle);
    assert_eq!(str_to_var("seat"), Variant::Seat);
    assert_eq!(str_to_var("entrance"), Variant::Entrance);
    assert_eq!(str_to_var("none"), Variant::Blocked);
    assert_eq!(str_to_var("invalid"), Variant::Blocked);
}

