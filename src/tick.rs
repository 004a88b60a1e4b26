//! The tick scheduler: one synchronous sweep over the grid in which every
//! passenger gets at most one chance to act.

use vstd::prelude::*;
use crate::aircraft::{Aircraft, AircraftView};
use crate::error::SimError;
use crate::person::{Behaviour, Person, PersonView};
use crate::policy::step;
use crate::tile::{TileView, Variant};

verus! {

impl AircraftView {
    /// `next` differs from `self` only in tile `(x, y)`, which became `t`;
    /// the grid stays well formed, keeps its layout, and the number of
    /// passengers changes by what the tile gained or lost.
    pub open spec fn tile_changed(self, next: AircraftView, x: int, y: int, t: TileView) -> bool {
        &&& next == self.with_tile(x, y, t)
        &&& next.tile(x, y) == t
        &&& forall|i: int, j: int|
            self.in_bounds(i, j) && !(i == x && j == y) ==> #[trigger] next.tile(i, j)
                == self.tile(i, j)
        &&& next.wf()
        &&& next.same_layout(self)
        &&& next.population() + self.tile(x, y).population() == self.population()
            + t.population()
    }
}

impl Aircraft {
    /// Removes the primary occupant of `(x, y)`; a passer there takes its
    /// place.
    fn release_occupier(&mut self, x: u16, y: u16) -> (p: Person)
        requires
            old(self)@.wf(),
            old(self)@.in_bounds(x as int, y as int),
            old(self)@.tile(x as int, y as int).occupier is Some,
        ensures
            Some(p@) == old(self)@.tile(x as int, y as int).occupier,
            old(self)@.tile_changed(
                final(self)@,
                x as int,
                y as int,
                TileView {
                    occupier: old(self)@.tile(x as int, y as int).passer,
                    passer: None,
                    ..old(self)@.tile(x as int, y as int)
                },
            ),
    {
        let ghost s0 = self@;
        let mut t = self.take_tile(x, y);
        let p = t.free();
        self.put_tile(x, y, t);
        proof {
            s0.lemma_set_twice(x as int, y as int, TileView::empty(s0.tile(x as int, y as int).variant), t@);
            s0.lemma_with_tile(x as int, y as int, t@);
        }
        p.unwrap()
    }

    /// Removes the passer of `(x, y)`.
    fn release_passer(&mut self, x: u16, y: u16) -> (p: Person)
        requires
            old(self)@.wf(),
            old(self)@.in_bounds(x as int, y as int),
            old(self)@.tile(x as int, y as int).passer is Some,
        ensures
            Some(p@) == old(self)@.tile(x as int, y as int).passer,
            old(self)@.tile_changed(
                final(self)@,
                x as int,
                y as int,
                TileView { passer: None, ..old(self)@.tile(x as int, y as int) },
            ),
    {
        let ghost s0 = self@;
        let mut t = self.take_tile(x, y);
        let p = t.pass_out();
        self.put_tile(x, y, t);
        proof {
            s0.lemma_set_twice(x as int, y as int, TileView::empty(s0.tile(x as int, y as int).variant), t@);
            s0.lemma_with_tile(x as int, y as int, t@);
        }
        p
    }

    /// Places `p` as primary occupant of the empty tile `(x, y)`.
    fn place_occupier(&mut self, x: u16, y: u16, p: Person)
        requires
            old(self)@.wf(),
            old(self)@.in_bounds(x as int, y as int),
            old(self)@.tile(x as int, y as int).occupier is None,
        ensures
            old(self)@.tile_changed(
                final(self)@,
                x as int,
                y as int,
                TileView {
                    occupier: Some(p@),
                    updated: true,
                    ..old(self)@.tile(x as int, y as int)
                },
            ),
    {
        let ghost s0 = self@;
        let mut t = self.take_tile(x, y);
        let _ = t.occupy(p);
        self.put_tile(x, y, t);
        proof {
            s0.lemma_set_twice(x as int, y as int, TileView::empty(s0.tile(x as int, y as int).variant), t@);
            s0.lemma_with_tile(x as int, y as int, t@);
        }
    }

    /// Lets `p` squeeze past the primary occupant of `(x, y)`.
    fn place_passer(&mut self, x: u16, y: u16, p: Person)
        requires
            old(self)@.wf(),
            old(self)@.in_bounds(x as int, y as int),
            old(self)@.tile(x as int, y as int).occupier is Some,
            old(self)@.tile(x as int, y as int).passer is None,
        ensures
            old(self)@.tile_changed(
                final(self)@,
                x as int,
                y as int,
                TileView { passer: Some(p@), delay: 0, ..old(self)@.tile(x as int, y as int) },
            ),
    {
        let ghost s0 = self@;
        let mut t = self.take_tile(x, y);
        let _ = t.pass_in(p);
        self.put_tile(x, y, t);
        proof {
            s0.lemma_set_twice(x as int, y as int, TileView::empty(s0.tile(x as int, y as int).variant), t@);
            s0.lemma_with_tile(x as int, y as int, t@);
        }
    }

    /// Counts one check of the wait of the passer at `(x, y)`; true once
    /// it may move on.
    fn count_pass(&mut self, x: u16, y: u16) -> (r: bool)
        requires
            old(self)@.wf(),
            old(self)@.in_bounds(x as int, y as int),
        ensures
            old(self)@.tile_changed(
                final(self)@,
                x as int,
                y as int,
                TileView {
                    delay: if r {
                        0
                    } else {
                        (old(self)@.tile(x as int, y as int).delay + 1) as u8
                    },
                    ..old(self)@.tile(x as int, y as int)
                },
            ),
            r == (old(self)@.tile(x as int, y as int).delay >= crate::tile::PASS_WAIT),
    {
        let ghost s0 = self@;
        let mut t = self.take_tile(x, y);
        let r = t.pass_count();
        self.put_tile(x, y, t);
        proof {
            s0.lemma_set_twice(x as int, y as int, TileView::empty(s0.tile(x as int, y as int).variant), t@);
            s0.lemma_with_tile(x as int, y as int, t@);
        }
        r
    }

    /// Clears the baggage flag of the primary occupant of `(x, y)`.
    fn stow_occupier(&mut self, x: u16, y: u16)
        requires
            old(self)@.wf(),
            old(self)@.in_bounds(x as int, y as int),
            old(self)@.tile(x as int, y as int).occupier is Some,
        ensures
            old(self)@.tile_changed(
                final(self)@,
                x as int,
                y as int,
                TileView {
                    occupier: Some(
                        PersonView {
                            baggage: false,
                            ..old(self)@.tile(x as int, y as int).occupier->0
                        },
                    ),
                    ..old(self)@.tile(x as int, y as int)
                },
            ),
    {
        let ghost s0 = self@;
        let mut t = self.take_tile(x, y);
        match t.get_occupier_as_mut() {
            Some(p) => p.remove_baggage(),
            None => {},
        }
        self.put_tile(x, y, t);
        proof {
            s0.lemma_set_twice(x as int, y as int, TileView::empty(s0.tile(x as int, y as int).variant), t@);
            s0.lemma_with_tile(x as int, y as int, t@);
        }
    }

    /// Clears the baggage flag of the passer at `(x, y)`.
    fn stow_passer(&mut self, x: u16, y: u16)
        requires
            old(self)@.wf(),
            old(self)@.in_bounds(x as int, y as int),
            old(self)@.tile(x as int, y as int).passer is Some,
        ensures
            old(self)@.tile_changed(
                final(self)@,
                x as int,
                y as int,
                TileView {
                    passer: Some(
                        PersonView {
                            baggage: false,
                            ..old(self)@.tile(x as int, y as int).passer->0
                        },
                    ),
                    ..old(self)@.tile(x as int, y as int)
                },
            ),
    {
        let ghost s0 = self@;
        let mut t = self.take_tile(x, y);
        match t.get_passer_as_mut() {
            Some(p) => p.remove_baggage(),
            None => {},
        }
        self.put_tile(x, y, t);
        proof {
            s0.lemma_set_twice(x as int, y as int, TileView::empty(s0.tile(x as int, y as int).variant), t@);
            s0.lemma_with_tile(x as int, y as int, t@);
        }
    }

    /// The primary occupant of `(x, y)` makes move `b`: onto the
    /// destination if it is empty, otherwise squeezing past whoever stands
    /// there.
    fn move_occupier(&mut self, x: u16, y: u16, b: Behaviour)
        requires
            old(self)@.wf(),
            old(self)@.in_bounds(x as int, y as int),
            old(self)@.tile(x as int, y as int).occupier is Some,
            b != Behaviour::Wait,
            b != Behaviour::Stow,
            old(self)@.can_take(x as int, y as int, b),
        ensures
            final(self)@ == old(self)@.with_tile(
                x as int,
                y as int,
                TileView {
                    occupier: old(self)@.tile(x as int, y as int).passer,
                    passer: None,
                    ..old(self)@.tile(x as int, y as int)
                },
            ).arrive(
                step(x as int, y as int, b),
                old(self)@.tile(x as int, y as int).occupier->0,
            ),
            final(self)@.wf(),
    {
        let ghost s0 = self@;
        let d = match self.destination(x, y, b) {
            Ok(d) => d,
            Err(_) => return ,
        };
        let empty = !self.tile_at(d.0, d.1).is_occupied();
        let p = self.release_occupier(x, y);
        let ghost s1 = self@;
        if empty {
            self.place_occupier(d.0, d.1, p);
        } else {
            self.place_passer(d.0, d.1, p);
        }
        proof {
            assert(s1.tile(d.0 as int, d.1 as int) == s0.tile(d.0 as int, d.1 as int));
        }
    }

    /// The passer at `(x, y)` makes move `b`, as `move_occupier` does.
    fn move_passer(&mut self, x: u16, y: u16, b: Behaviour)
        requires
            old(self)@.wf(),
            old(self)@.in_bounds(x as int, y as int),
            old(self)@.tile(x as int, y as int).passer is Some,
            b != Behaviour::Wait,
            b != Behaviour::Stow,
            old(self)@.can_take(x as int, y as int, b),
        ensures
            final(self)@ == old(self)@.with_tile(
                x as int,
                y as int,
                TileView { passer: None, ..old(self)@.tile(x as int, y as int) },
            ).arrive(step(x as int, y as int, b), old(self)@.tile(x as int, y as int).passer->0),
            final(self)@.wf(),
    {
        let ghost s0 = self@;
        let d = match self.destination(x, y, b) {
            Ok(d) => d,
            Err(_) => return ,
        };
        let empty = !self.tile_at(d.0, d.1).is_occupied();
        let p = self.release_passer(x, y);
        let ghost s1 = self@;
        if empty {
            self.place_occupier(d.0, d.1, p);
        } else {
            self.place_passer(d.0, d.1, p);
        }
        proof {
            assert(s1.tile(d.0 as int, d.1 as int) == s0.tile(d.0 as int, d.1 as int));
        }
    }

    /// The primary occupant of `(x, y)` acts: it stows, waits or moves as
    /// the policy says.
    fn occupant_step(&mut self, x: u16, y: u16)
        requires
            old(self)@.wf(),
            old(self)@.in_bounds(x as int, y as int),
        ensures
            final(self)@ == old(self)@.occupant_acts(x as int, y as int),
            final(self)@.wf(),
    {
        proof {
            old(self)@.lemma_occupant_acts(x as int, y as int);
        }
        let ghost s0 = self@;
        let occupant = match self.tile_at(x, y).get_occupier() {
            Some(p) => Some((p.get_seat(), p.has_baggage())),
            None => None,
        };
        match occupant {
            Some((Some(target), baggage)) => {
                let b = self.determine_move(x, y, target, baggage);
                proof {
                    s0.lemma_policy_is(x as int, y as int, target, baggage, b);
                }
                if b == Behaviour::Stow {
                    self.stow_occupier(x, y);
                } else if b != Behaviour::Wait {
                    self.move_occupier(x, y, b);
                }
            },
            _ => {},
        }
    }

    /// A passer on `(x, y)` counts one check of its wait; once the wait is
    /// over it stows, waits or moves as the policy says.
    fn passer_step(&mut self, x: u16, y: u16)
        requires
            old(self)@.wf(),
            old(self)@.in_bounds(x as int, y as int),
        ensures
            final(self)@ == old(self)@.passer_acts(x as int, y as int),
            final(self)@.wf(),
    {
        proof {
            old(self)@.lemma_passer_acts(x as int, y as int);
        }
        if !self.tile_at(x, y).is_allowing() {
            return ;
        }
        let ready = self.count_pass(x, y);
        if !ready {
            return ;
        }
        let ghost c1 = self@;
        let passer = match self.tile_at(x, y).get_passer() {
            Some(p) => Some((p.get_seat(), p.has_baggage())),
            None => None,
        };
        match passer {
            Some((Some(target), baggage)) => {
                let b = self.determine_move(x, y, target, baggage);
                proof {
                    c1.lemma_policy_is(x as int, y as int, target, baggage, b);
                }
                if b == Behaviour::Stow {
                    self.stow_passer(x, y);
                } else if b != Behaviour::Wait {
                    self.move_passer(x, y, b);
                }
            },
            _ => {},
        }
    }

    /// Lets the passengers on tile `(x, y)` act, as one step of the sweep.
    ///
    /// Nothing happens on a blocked tile or on one a passenger reached this
    /// tick. Otherwise the primary occupant acts first, then a passer whose
    /// wait is over. Last, an empty entrance lets the next waiting passenger
    /// board.
    fn advance_tile(&mut self, x: u16, y: u16)
        requires
            old(self)@.wf(),
            old(self)@.in_bounds(x as int, y as int),
        ensures
            final(self)@ == old(self)@.advance(x as int, y as int),
            final(self)@.wf(),
    {
        proof {
            old(self)@.lemma_advance(x as int, y as int);
        }
        let v = self.tile_at(x, y).get_variant();
        if self.tile_at(x, y).has_updated() || v == Variant::Blocked {
            return ;
        }
        self.occupant_step(x, y);
        self.passer_step(x, y);
        if v == Variant::Entrance && self.waiting_count() > 0 && !self.tile_at(x, y).is_occupied() {
            self.board_next(x, y);
        }
    }

    /// Advances the simulation by one tick.
    ///
    /// Tiles are swept column by column, `x` from 0 and, within a column,
    /// `y` from 0; this order decides who gets first claim on a contested
    /// tile. A passenger who arrives on a tile is not moved again when the
    /// sweep reaches that tile. After the sweep every tile's `updated` flag
    /// is cleared.
    pub fn update(&mut self)
        requires
            old(self)@.wf(),
        ensures
            final(self)@ == old(self)@.tick(),
            final(self)@.wf(),
            final(self)@.same_layout(old(self)@),
            final(self)@.population() == old(self)@.population(),
            final(self)@.at_rest(),
    {
        let ghost start = self@;
        proof {
            start.lemma_tick();
        }
        let (w, h) = self.get_size();
        let mut x: u16 = 0;
        while x < w
            invariant
                start.wf(),
                self@ == start.sweep(x as nat),
                self@.ticks == start.ticks,
                self@.wf(),
                self@.same_layout(start),
                w == start.width,
                h == start.height,
                x <= w,
            decreases w - x,
        {
            let mut y: u16 = 0;
            while y < h
                invariant
                    start.wf(),
                    self@ == start.sweep(x as nat).sweep_column(x as int, y as nat),
                    self@.ticks == start.ticks,
                    self@.wf(),
                    self@.same_layout(start),
                    w == start.width,
                    h == start.height,
                    x < w,
                    y <= h,
                decreases h - y,
            {
                let ghost before = self@;
                self.advance_tile(x, y);
                proof {
                    before.lemma_advance(x as int, y as int);
                    start.lemma_same_layout_trans(before, self@);
                }
                y = y + 1;
            }
            x = x + 1;
        }
        self.reset();
        let ghost rested = self@;
        self.count_tick();
        proof {
            rested.lemma_wf_grid(self@);
        }
    }

    /// Advances ticks until every passenger is seated or `max_ticks` ticks
    /// have passed. Returns the number of ticks taken, or `NonTermination`
    /// when the bound ran out first.
    pub fn run_to_completion(&mut self, max_ticks: u32) -> (r: Result<u32, SimError>)
        requires
            old(self)@.wf(),
        ensures
            (r, final(self)@) == old(self)@.run_from(max_ticks as nat, 0),
            final(self)@.wf(),
            final(self)@.same_layout(old(self)@),
            final(self)@.population() == old(self)@.population(),
            r is Ok <==> final(self)@.complete(),
            r matches Ok(n) ==> n <= max_ticks,
            r is Err ==> r == Err::<u32, SimError>(SimError::NonTermination),
    {
        let mut n: u32 = 0;
        while !self.is_complete()
            invariant
                self@.wf(),
                self@.same_layout(old(self)@),
                self@.population() == old(self)@.population(),
                n <= max_ticks,
                self@.run_from(max_ticks as nat, n as nat) == old(self)@.run_from(
                    max_ticks as nat,
                    0,
                ),
            decreases max_ticks - n,
        {
            if n >= max_ticks {
                return Err(SimError::NonTermination);
            }
            let ghost before = self@;
            self.update();
            proof {
                old(self)@.lemma_same_layout_trans(before, self@);
            }
            n = n + 1;
        }
        Ok(n)
    }
}

} // verus!
