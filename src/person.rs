//! Passengers and the moves they can make during a tick.

use vstd::prelude::*;

verus! {

/// A move chosen for a passenger during one tick.
#[allow(non_camel_case_types)]
#[derive(PartialEq, Eq, Structural, Debug, Clone, Copy)]
pub enum Behaviour {
    Move_North,
    Move_South,
    Move_East,
    Move_West,
    /// Stow carry-on baggage; the passenger stays where it is.
    Stow,
    Wait,
}

/// What a passenger is, as a mathematical value.
pub struct PersonView {
    pub name: Seq<char>,
    pub seat: Option<(u16, u16)>,
    pub baggage: bool,
}

/// A single passenger.
///
/// `seat` is the passenger's assigned seat, if any, and `baggage` records
/// whether the passenger still carries luggage that must be stowed.
#[derive(Debug)]
pub struct Person {
    name: String,
    seat: Option<(u16, u16)>,
    baggage: bool,
}

impl View for Person {
    type V = PersonView;

    closed spec fn view(&self) -> PersonView {
        PersonView { name: self.name@, seat: self.seat, baggage: self.baggage }
    }
}

impl Person {
    /// A passenger with the given name, no assigned seat and no baggage.
    pub fn new(n: &str) -> (r: Person)
        ensures
            r@ == (PersonView { name: n@, seat: None, baggage: false }),
    {
        Person { name: n.to_owned(), seat: None, baggage: false }
    }

    /// Assigns the passenger's seat.
    pub fn target_seat(&mut self, x: u16, y: u16)
        ensures
            final(self)@ == (PersonView { seat: Some((x, y)), ..old(self)@ }),
    {
        self.seat = Some((x, y));
    }

    /// Clears the baggage flag (the passenger has stowed its luggage).
    pub fn remove_baggage(&mut self)
        ensures
            final(self)@ == (PersonView { baggage: false, ..old(self)@ }),
    {
        self.baggage = false;
    }

    pub fn has_baggage(&self) -> (r: bool)
        ensures
            r == self@.baggage,
    {
        self.baggage
    }

    pub fn get_name(&self) -> (r: String)
        ensures
            r@ == self@.name,
    {
        self.name.clone()
    }

    pub fn get_seat(&self) -> (r: Option<(u16, u16)>)
        ensures
            r == self@.seat,
    {
        self.seat
    }

    pub fn set_name(&mut self, n: &str)
        ensures
            final(self)@ == (PersonView { name: n@, ..old(self)@ }),
    {
        self.name = n.to_owned();
    }

    pub fn set_baggage(&mut self, t: bool)
        ensures
            final(self)@ == (PersonView { baggage: t, ..old(self)@ }),
    {
        self.baggage = t;
    }
}

} // verus!
