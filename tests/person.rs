use aircraft_sim::Person;

#[test]
fn person_constructor() {
    let person = Person::new("Dave");
    assert_eq!(person.get_name(), "Dave");
    assert_eq!(person.get_seat(), None);
}

#[test]
fn target_seat() {
    let mut person = Person::new("Dave");
    person.target_seat(6, 9);

    assert_eq!(person.get_seat().unwrap(), (6, 9));
}
