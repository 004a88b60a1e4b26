//! The greedy movement policy: which move a passenger makes from where it
//! stands, given its seat and whether it still carries baggage.

use vstd::prelude::*;
use crate::aircraft::{Aircraft, AircraftView};
use crate::error::SimError;
use crate::person::Behaviour;
use crate::tile::Variant;

verus! {

/// Manhattan distance between two grid coordinates.
pub open spec fn manhattan(a: (int, int), b: (int, int)) -> nat {
    ((if a.0 >= b.0 { a.0 - b.0 } else { b.0 - a.0 }) + (if a.1 >= b.1 {
        a.1 - b.1
    } else {
        b.1 - a.1
    })) as nat
}

/// The step a move makes on the grid; north lowers `y`, east raises `x`.
pub open spec fn offset(b: Behaviour) -> (int, int) {
    match b {
        Behaviour::Move_North => (0, -1),
        Behaviour::Move_South => (0, 1),
        Behaviour::Move_East => (1, 0),
        Behaviour::Move_West => (-1, 0),
        _ => (0, 0),
    }
}

/// Where a passenger at `(x, y)` stands after move `b`.
pub open spec fn step(x: int, y: int, b: Behaviour) -> (int, int) {
    (x + offset(b).0, y + offset(b).1)
}

/// The moves considered on a tile of variant `v`, in order of preference
/// when they bring the passenger equally close. From a seat a passenger
/// only moves sideways along its row.
pub open spec fn move_candidates(v: Variant) -> Seq<Behaviour> {
    match v {
        Variant::Aisle | Variant::Entrance => seq![
            Behaviour::Wait,
            Behaviour::Move_North,
            Behaviour::Move_South,
            Behaviour::Move_East,
            Behaviour::Move_West,
        ],
        Variant::Seat => seq![Behaviour::Wait, Behaviour::Move_East, Behaviour::Move_West],
        Variant::Blocked => seq![Behaviour::Wait],
    }
}

/// Distance to `target` after making move `b` from `(x, y)`.
pub open spec fn distance_after(x: int, y: int, b: Behaviour, target: (u16, u16)) -> nat {
    manhattan(step(x, y, b), (target.0 as int, target.1 as int))
}

impl AircraftView {
    /// A passenger at `(x, y)` may make move `b`: it waits, or it steps
    /// onto a tile of the grid that is not blocked and has room for it.
    pub open spec fn can_take(self, x: int, y: int, b: Behaviour) -> bool {
        let d = step(x, y, b);
        b == Behaviour::Wait || (self.in_bounds(d.0, d.1) && self.tile(d.0, d.1).variant
            != Variant::Blocked && self.tile(d.0, d.1).passer is None)
    }

    /// A passenger on the aisle who has reached its seat's row stows its
    /// baggage first.
    pub open spec fn stows(self, x: int, y: int, target: (u16, u16), baggage: bool) -> bool {
        &&& self.tile(x, y).variant == Variant::Aisle || self.tile(x, y).variant
            == Variant::Entrance
        &&& target.1 == y
        &&& baggage
    }

    /// Candidate `i` is a move the passenger may make, no other such move
    /// brings it closer to `target`, and every such move listed before it
    /// leaves it farther away.
    pub open spec fn first_best(self, x: int, y: int, target: (u16, u16), i: int) -> bool {
        let c = move_candidates(self.tile(x, y).variant);
        &&& 0 <= i < c.len()
        &&& self.can_take(x, y, c[i])
        &&& forall|j: int|
            0 <= j < c.len() && self.can_take(x, y, #[trigger] c[j]) ==> distance_after(
                x,
                y,
                c[i],
                target,
            ) <= distance_after(x, y, c[j], target)
        &&& forall|j: int|
            0 <= j < i && self.can_take(x, y, #[trigger] c[j]) ==> distance_after(
                x,
                y,
                c[i],
                target,
            ) < distance_after(x, y, c[j], target)
    }

    /// `b` is the move the greedy policy picks for a passenger at `(x, y)`
    /// with seat `target`.
    pub open spec fn chosen_move(
        self,
        x: int,
        y: int,
        target: (u16, u16),
        baggage: bool,
        b: Behaviour,
    ) -> bool {
        if self.stows(x, y, target, baggage) {
            b == Behaviour::Stow
        } else {
            exists|i: int|
                self.first_best(x, y, target, i) && b == #[trigger] move_candidates(
                    self.tile(x, y).variant,
                )[i]
        }
    }
}

/// The moves considered on a tile of variant `v`, in order.
fn candidates(v: Variant) -> (r: Vec<Behaviour>)
    ensures
        r@ == move_candidates(v),
{
    match v {
        Variant::Aisle | Variant::Entrance => vec![
            Behaviour::Wait,
            Behaviour::Move_North,
            Behaviour::Move_South,
            Behaviour::Move_East,
            Behaviour::Move_West,
        ],
        Variant::Seat => vec![Behaviour::Wait, Behaviour::Move_East, Behaviour::Move_West],
        Variant::Blocked => vec![Behaviour::Wait],
    }
}

/// The step move `b` makes, as an executable value.
fn offset_of(b: Behaviour) -> (r: (i32, i32))
    ensures
        r.0 == offset(b).0,
        r.1 == offset(b).1,
{
    match b {
        Behaviour::Move_North => (0, -1),
        Behaviour::Move_South => (0, 1),
        Behaviour::Move_East => (1, 0),
        Behaviour::Move_West => (-1, 0),
        _ => (0, 0),
    }
}

/// Manhattan distance from `(x, y)` to `target`.
pub fn distance(x: i32, y: i32, target: (u16, u16)) -> (r: u32)
    requires
        -1 <= x <= u16::MAX + 1,
        -1 <= y <= u16::MAX + 1,
    ensures
        r == manhattan((x as int, y as int), (target.0 as int, target.1 as int)),
{
    let tx = target.0 as i32;
    let ty = target.1 as i32;
    let dx: u32 = if x >= tx { (x - tx) as u32 } else { (tx - x) as u32 };
    let dy: u32 = if y >= ty { (y - ty) as u32 } else { (ty - y) as u32 };
    dx + dy
}

impl Aircraft {
    /// The tile reached from `(x, y)` by move `b`; waiting and stowing stay
    /// in place. A step off the grid is an impossible move.
    pub fn destination(&self, x: u16, y: u16, b: Behaviour) -> (r: Result<(u16, u16), SimError>)
        ensures
            ({
                let d = step(x as int, y as int, b);
                &&& r is Ok <==> self@.in_bounds(d.0, d.1) || offset(b) == (0int, 0int)
                &&& r matches Ok(p) ==> p.0 == d.0 && p.1 == d.1
                &&& r is Err ==> r == Err::<(u16, u16), SimError>(SimError::ImpossibleMove)
            }),
    {
        let (w, h) = self.get_size();
        match b {
            Behaviour::Move_North => if y >= 1 && y - 1 < h && x < w {
                Ok((x, y - 1))
            } else {
                Err(SimError::ImpossibleMove)
            },
            Behaviour::Move_South => if y < h && y + 1 < h && x < w {
                Ok((x, y + 1))
            } else {
                Err(SimError::ImpossibleMove)
            },
            Behaviour::Move_East => if x < w && x + 1 < w && y < h {
                Ok((x + 1, y))
            } else {
                Err(SimError::ImpossibleMove)
            },
            Behaviour::Move_West => if x >= 1 && x - 1 < w && y < h {
                Ok((x - 1, y))
            } else {
                Err(SimError::ImpossibleMove)
            },
            _ => Ok((x, y)),
        }
    }

    /// Whether a passenger at `(x, y)` may make move `b`.
    pub fn can_take(&self, x: u16, y: u16, b: Behaviour) -> (r: bool)
        requires
            self@.wf(),
        ensures
            r == self@.can_take(x as int, y as int, b),
    {
        if b == Behaviour::Wait {
            return true;
        }
        let (w, h) = self.get_size();
        match self.destination(x, y, b) {
            Ok(d) => {
                if d.0 < w && d.1 < h {
                    self.tile_at(d.0, d.1).allows_entry()
                } else {
                    false
                }
            },
            Err(_) => false,
        }
    }

    /// The move the greedy policy picks for a passenger at `(x, y)` whose
    /// seat is `target`. On the aisle, a passenger level with its seat's row
    /// stows any baggage first. Otherwise each candidate move that is
    /// allowed is scored by the distance it leaves to the seat; a candidate
    /// replaces the best so far only when it is strictly closer, so waiting
    /// wins every tie and earlier candidates win over later ones.
    pub fn determine_move(&self, x: u16, y: u16, target: (u16, u16), baggage: bool) -> (r:
        Behaviour)
        requires
            self@.wf(),
            self@.in_bounds(x as int, y as int),
        ensures
            self@.chosen_move(x as int, y as int, target, baggage, r),
            r != Behaviour::Stow ==> self@.can_take(x as int, y as int, r),
            r != Behaviour::Stow ==> distance_after(x as int, y as int, r, target) <= manhattan(
                (x as int, y as int),
                (target.0 as int, target.1 as int),
            ),
    {
        let v = self.tile_at(x, y).get_variant();
        if (v == Variant::Aisle || v == Variant::Entrance) && target.1 == y && baggage {
            return Behaviour::Stow;
        }
        let c = candidates(v);
        let mut best: usize = 0;
        let mut best_d: u32 = distance(x as i32, y as i32, target);
        let mut k: usize = 1;
        while k < c.len()
            invariant
                self@.wf(),
                self@.in_bounds(x as int, y as int),
                c@ == move_candidates(v),
                v == self@.tile(x as int, y as int).variant,
                1 <= k <= c@.len(),
                best < k,
                self@.can_take(x as int, y as int, c@[best as int]),
                best_d == distance_after(x as int, y as int, c@[best as int], target),
                forall|j: int|
                    0 <= j < k && self@.can_take(x as int, y as int, #[trigger] c@[j]) ==> best_d
                        <= distance_after(x as int, y as int, c@[j], target),
                forall|j: int|
                    0 <= j < best && self@.can_take(x as int, y as int, #[trigger] c@[j])
                        ==> best_d < distance_after(x as int, y as int, c@[j], target),
            decreases c@.len() - k,
        {
            let b = c[k];
            if self.can_take(x, y, b) {
                let o = offset_of(b);
                let nd = distance(x as i32 + o.0, y as i32 + o.1, target);
                if nd < best_d {
                    best = k;
                    best_d = nd;
                }
            }
            k = k + 1;
        }
        proof {
            assert(self@.first_best(x as int, y as int, target, best as int));
        }
        c[best]
    }
}

} // verus!
