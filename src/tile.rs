//! Grid tiles and the occupancy state machine of a single tile.

use vstd::prelude::*;
use crate::error::SimError;
use crate::person::{Person, PersonView};

verus! {

/// Number of extra checks a passer waits before it may move on: stepping
/// aside to let someone through takes time.
pub const PASS_WAIT: u8 = 2;

/// The kinds of tile an aircraft layout is made of.
#[derive(PartialEq, Eq, Structural, Debug, Clone, Copy)]
pub enum Variant {
    Aisle,
    Seat,
    Entrance,
    /// A blocked cell: nobody ever stands on it.
    Blocked,
}

/// A tile as a mathematical value.
pub struct TileView {
    pub variant: Variant,
    /// The primary occupant.
    pub occupier: Option<PersonView>,
    /// A second passenger squeezing past the primary occupant.
    pub passer: Option<PersonView>,
    /// Checks the passer has waited so far.
    pub delay: u8,
    /// Whether a passenger arrived here during the current tick.
    pub updated: bool,
}

impl TileView {
    /// An empty tile of the given variant.
    pub open spec fn empty(v: Variant) -> TileView {
        TileView { variant: v, occupier: None, passer: None, delay: 0, updated: false }
    }

    /// No passenger on this tile, standing at `(x, y)`, is still on its
    /// way to a seat.
    pub open spec fn seated(self, x: int, y: int) -> bool {
        &&& self.passer matches Some(p) ==> p.seat is None
        &&& self.occupier matches Some(p) ==> (p.seat is None || p.seat == Some(
            (x as u16, y as u16),
        ))
    }

    /// How many passengers stand on this tile.
    pub open spec fn population(self) -> nat {
        (if self.occupier is Some { 1nat } else { 0nat }) + (if self.passer is Some {
            1nat
        } else {
            0nat
        })
    }

    /// A passer never stands on a tile without a primary occupant.
    pub open spec fn wf(self) -> bool {
        self.passer is Some ==> self.occupier is Some
    }
}

/// The view of an optional passenger.
pub open spec fn person_opt_view(o: Option<Person>) -> Option<PersonView> {
    match o {
        Some(p) => Some(p@),
        None => None,
    }
}

/// A single tile of the grid.
///
/// It has a fixed `variant` and holds up to two passengers: a primary
/// occupant and, while someone squeezes past, a passer.
#[derive(Debug)]
pub struct Tile {
    variant: Variant,
    occupier: Option<Person>,
    passer: Option<Person>,
    delay: u8,
    updated: bool,
}

impl View for Tile {
    type V = TileView;

    closed spec fn view(&self) -> TileView {
        TileView {
            variant: self.variant,
            occupier: person_opt_view(self.occupier),
            passer: person_opt_view(self.passer),
            delay: self.delay,
            updated: self.updated,
        }
    }
}

impl Tile {
    /// An empty tile of the given variant.
    pub fn of_variant(v: Variant) -> (r: Tile)
        ensures
            r@ == TileView::empty(v),
    {
        Tile { variant: v, occupier: None, passer: None, delay: 0, updated: false }
    }

    /// An empty `Aisle` tile.
    pub fn aisle() -> (r: Tile)
        ensures
            r@ == TileView::empty(Variant::Aisle),
    {
        Tile::of_variant(Variant::Aisle)
    }

    /// An empty `Seat` tile.
    pub fn seat() -> (r: Tile)
        ensures
            r@ == TileView::empty(Variant::Seat),
    {
        Tile::of_variant(Variant::Seat)
    }

    /// An empty `Entrance` tile.
    pub fn entrance() -> (r: Tile)
        ensures
            r@ == TileView::empty(Variant::Entrance),
    {
        Tile::of_variant(Variant::Entrance)
    }

    /// An empty blocked tile.
    pub fn none() -> (r: Tile)
        ensures
            r@ == TileView::empty(Variant::Blocked),
    {
        Tile::of_variant(Variant::Blocked)
    }

    /// Places a passenger as the primary occupant and marks the tile as
    /// updated this tick. A tile that already has a primary occupant is left
    /// unchanged and the call fails.
    pub fn occupy(&mut self, p: Person) -> (r: Result<(), SimError>)
        ensures
            r is Ok <==> old(self)@.occupier is None,
            r is Err ==> r == Err::<(), SimError>(SimError::OccupancyConflict),
            old(self)@.occupier is Some ==> final(self)@ == old(self)@,
            old(self)@.occupier is None ==> final(self)@ == (TileView {
                occupier: Some(p@),
                updated: true,
                ..old(self)@
            }),
    {
        if self.occupier.is_some() {
            Err(SimError::OccupancyConflict)
        } else {
            self.occupier = Some(p);
            self.updated = true;
            Ok(())
        }
    }

    /// Lets a second passenger squeeze past the primary occupant; its wait
    /// starts from zero. A tile without a primary occupant, or already
    /// holding a passer, is left unchanged and the call fails: a passer
    /// never stands alone, and none is ever displaced.
    pub fn pass_in(&mut self, p: Person) -> (r: Result<(), SimError>)
        ensures
            r is Ok <==> old(self)@.occupier is Some && old(self)@.passer is None,
            r is Err ==> r == Err::<(), SimError>(SimError::OccupancyConflict)
                && final(self)@ == old(self)@,
            r is Ok ==> final(self)@ == (TileView {
                passer: Some(p@),
                delay: 0,
                ..old(self)@
            }),
    {
        if self.occupier.is_none() || self.passer.is_some() {
            Err(SimError::OccupancyConflict)
        } else {
            self.passer = Some(p);
            self.delay = 0;
            Ok(())
        }
    }

    /// Removes and returns the passer.
    pub fn pass_out(&mut self) -> (r: Person)
        requires
            old(self)@.passer is Some,
        ensures
            Some(r@) == old(self)@.passer,
            final(self)@ == (TileView { passer: None, ..old(self)@ }),
    {
        let p = self.passer.take();
        p.unwrap()
    }

    pub fn is_occupied(&self) -> (r: bool)
        ensures
            r == self@.occupier is Some,
    {
        self.occupier.is_some()
    }

    /// Whether a passer is squeezing past on this tile.
    pub fn is_allowing(&self) -> (r: bool)
        ensures
            r == self@.passer is Some,
    {
        self.passer.is_some()
    }

    /// Whether a passenger may step onto this tile: it is not blocked, and
    /// it is either empty or has room for a passer.
    pub fn allows_entry(&self) -> (r: bool)
        ensures
            r == (self@.variant != Variant::Blocked && self@.passer is None),
    {
        self.variant != Variant::Blocked && self.passer.is_none()
    }

    /// Counts one check of the passer's wait. Returns true, and starts the
    /// count again, once the passer has waited `PASS_WAIT` checks.
    pub fn pass_count(&mut self) -> (r: bool)
        ensures
            r == (old(self)@.delay >= PASS_WAIT),
            final(self)@ == (TileView {
                delay: if r { 0 } else { (old(self)@.delay + 1) as u8 },
                ..old(self)@
            }),
    {
        if self.delay >= PASS_WAIT {
            self.delay = 0;
            true
        } else {
            self.delay = self.delay + 1;
            false
        }
    }

    pub fn get_variant(&self) -> (r: Variant)
        ensures
            r == self@.variant,
    {
        self.variant
    }

    pub fn get_occupier(&self) -> (r: Option<&Person>)
        ensures
            r is Some <==> self@.occupier is Some,
            r is Some ==> self@.occupier == Some(r->0@),
    {
        self.occupier.as_ref()
    }

    pub fn get_occupier_as_mut(&mut self) -> (r: Option<&mut Person>)
        ensures
            r is Some <==> old(self)@.occupier is Some,
            r is None ==> final(self)@ == old(self)@,
            r is Some ==> old(self)@.occupier == Some(r->0@) && final(self)@ == (TileView {
                occupier: Some(final(r.unwrap())@),
                ..old(self)@
            }),
    {
        self.occupier.as_mut()
    }

    pub fn get_passer(&self) -> (r: Option<&Person>)
        ensures
            r is Some <==> self@.passer is Some,
            r is Some ==> self@.passer == Some(r->0@),
    {
        self.passer.as_ref()
    }

    pub fn get_passer_as_mut(&mut self) -> (r: Option<&mut Person>)
        ensures
            r is Some <==> old(self)@.passer is Some,
            r is None ==> final(self)@ == old(self)@,
            r is Some ==> old(self)@.passer == Some(r->0@) && final(self)@ == (TileView {
                passer: Some(final(r.unwrap())@),
                ..old(self)@
            }),
    {
        self.passer.as_mut()
    }

    pub fn has_updated(&self) -> (r: bool)
        ensures
            r == self@.updated,
    {
        self.updated
    }

    pub fn set_updated(&mut self, t: bool)
        ensures
            final(self)@ == (TileView { updated: t, ..old(self)@ }),
    {
        self.updated = t;
    }

    /// Removes and returns the primary occupant. A waiting passer takes its
    /// place as primary occupant in the same step.
    pub fn free(&mut self) -> (r: Option<Person>)
        ensures
            person_opt_view(r) == old(self)@.occupier,
            old(self)@.occupier is Some ==> final(self)@ == (TileView {
                occupier: old(self)@.passer,
                passer: None,
                ..old(self)@
            }),
            old(self)@.occupier is None ==> final(self)@ == old(self)@,
    {
        if self.occupier.is_none() {
            return None;
        }
        let person = self.occupier.take();
        self.occupier = self.passer.take();
        person
    }
}

} // verus!
