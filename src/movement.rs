//! How passengers move over ticks: within one tick no passenger travels
//! more than one cell, nor away from its seat; nobody vanishes; once
//! seated, a passenger stays put.
//!
//! Passengers carry no identity beyond their name and assigned seat, so a
//! passenger is followed here by that pair; its baggage flag may change
//! while it stows.

use vstd::prelude::*;
use crate::aircraft::AircraftView;
use crate::person::{Behaviour, PersonView};
use crate::policy::{distance_after, manhattan, offset, step};
use crate::tile::{TileView, Variant, PASS_WAIT};

verus! {

/// What tells two passengers apart: name and assigned seat.
pub type Traveller = (Seq<char>, Option<(u16, u16)>);

pub open spec fn traveller(p: PersonView) -> Traveller {
    (p.name, p.seat)
}

/// Tile `t` holds traveller `k`, as primary occupant or passer.
pub open spec fn tile_holds(t: TileView, k: Traveller) -> bool {
    ||| t.occupier matches Some(p) && traveller(p) == k
    ||| t.passer matches Some(p) && traveller(p) == k
}

/// How far `(x, y)` is from traveller `k`'s seat; zero without a seat.
pub open spec fn seat_distance(x: int, y: int, k: Traveller) -> nat {
    match k.1 {
        Some(s) => manhattan((x, y), (s.0 as int, s.1 as int)),
        None => 0,
    }
}

/// In `v`, traveller `k` stood within one cell of `(x, y)` and no closer
/// to its seat; or it was waiting to board and `(x, y)` is an entrance.
pub open spec fn came_from_near(v: AircraftView, x: int, y: int, k: Traveller) -> bool {
    ||| exists|i: int, j: int|
        v.in_bounds(i, j) && manhattan((i, j), (x, y)) <= 1 && seat_distance(i, j, k)
            >= seat_distance(x, y, k) && #[trigger] tile_holds(v.tile(i, j), k)
    ||| v.tile(x, y).variant == Variant::Entrance && exists|w: int|
        0 <= w < v.waiting.len() && traveller(#[trigger] v.waiting[w]) == k
}

/// Everyone on tile `t` at `(x, y)` came from within one cell of it in `v`.
pub open spec fn tile_near(v: AircraftView, t: TileView, x: int, y: int) -> bool {
    &&& t.occupier matches Some(p) ==> came_from_near(v, x, y, traveller(p))
    &&& t.passer matches Some(p) ==> came_from_near(v, x, y, traveller(p))
}

/// Tile `t` at `(x, y)`, not yet swept, holds what it held in `v`, but for
/// a passer that has just squeezed in; unless a passenger reached it this
/// tick, which freezes it for the rest of the sweep.
pub open spec fn tile_untouched(v: AircraftView, t: TileView, x: int, y: int) -> bool {
    let o = v.tile(x, y);
    ||| t.updated
    ||| {
        &&& t.occupier == o.occupier
        &&& (t.passer == o.passer && t.delay == o.delay) || (o.passer is None && t.delay
            < PASS_WAIT)
    }
}

/// Tile `(i, j)` comes before `(x, y)` in the sweep.
pub open spec fn swept(i: int, j: int, x: int, y: int) -> bool {
    i < x || (i == x && j < y)
}

/// The state `s` reached from `v` by sweeping every tile before `(x, y)`.
pub open spec fn sweep_inv(v: AircraftView, s: AircraftView, x: int, y: int) -> bool {
    &&& s.wf()
    &&& s.same_layout(v)
    &&& s.waiting.len() <= v.waiting.len()
    &&& s.waiting == v.waiting.subrange(v.waiting.len() - s.waiting.len(), v.waiting.len() as int)
    &&& forall|i: int, j: int|
        s.in_bounds(i, j) ==> {
            &&& tile_near(v, #[trigger] s.tile(i, j), i, j)
            &&& !swept(i, j, x, y) ==> tile_untouched(v, s.tile(i, j), i, j)
        }
}


/// Every tile but `(x, y)` satisfies the sweep invariant for position `(x, y)`.
pub open spec fn others_inv(v: AircraftView, s: AircraftView, x: int, y: int) -> bool {
    forall|i: int, j: int|
        s.in_bounds(i, j) && !(i == x && j == y) ==> {
            &&& tile_near(v, #[trigger] s.tile(i, j), i, j)
            &&& !swept(i, j, x, y) ==> tile_untouched(v, s.tile(i, j), i, j)
        }
}

/// The state before any tile is swept satisfies the invariant.
proof fn lemma_inv_start(v: AircraftView)
    requires
        v.wf(),
    ensures
        sweep_inv(v, v, 0, 0),
{
    v.lemma_wf_grid(v);
    assert(v.waiting == v.waiting.subrange(v.waiting.len() - v.waiting.len(), v.waiting.len() as int));
    assert forall|i: int, j: int| v.in_bounds(i, j) implies tile_near(v, #[trigger] v.tile(i, j), i, j) by {
        let t = v.tile(i, j);
        if let Some(p) = t.occupier {
            assert(tile_holds(v.tile(i, j), traveller(p)));
            assert(manhattan((i, j), (i, j)) == 0);
        }
        if let Some(p) = t.passer {
            assert(tile_holds(v.tile(i, j), traveller(p)));
            assert(manhattan((i, j), (i, j)) == 0);
        }
    }
}

/// Traveller `k`, which stood on `(x, y)` in `v` and whose seat is
/// `target`, comes from within one cell of the destination of a move that
/// does not take it farther from its seat.
proof fn lemma_neighbour_near(
    v: AircraftView,
    x: int,
    y: int,
    b: Behaviour,
    k: Traveller,
    target: (u16, u16),
)
    requires
        v.in_bounds(x, y),
        tile_holds(v.tile(x, y), k),
        b != Behaviour::Wait,
        b != Behaviour::Stow,
        k.1 == Some(target),
        distance_after(x, y, b, target) <= manhattan((x, y), (target.0 as int, target.1 as int)),
    ensures
        came_from_near(v, step(x, y, b).0, step(x, y, b).1, k),
{
    let d = step(x, y, b);
    assert(manhattan((x, y), (d.0, d.1)) <= 1);
    assert(seat_distance(x, y, k) >= seat_distance(d.0, d.1, k));
}

/// Passenger `p`, leaving `(x, y)` for the neighbour `d` by move `b`,
/// arrives without breaking the invariant at any tile but `(x, y)`.
proof fn lemma_arrive_inv(
    v: AircraftView,
    s: AircraftView,
    x: int,
    y: int,
    b: Behaviour,
    p: PersonView,
)
    requires
        s.wf(),
        v.wf(),
        s.same_layout(v),
        s.in_bounds(x, y),
        others_inv(v, s, x, y),
        b != Behaviour::Wait,
        b != Behaviour::Stow,
        s.can_take(x, y, b),
        tile_holds(v.tile(x, y), traveller(p)),
        p.seat matches Some(target) && distance_after(x, y, b, target) <= manhattan(
            (x, y),
            (target.0 as int, target.1 as int),
        ),
    ensures
        others_inv(v, s.arrive(step(x, y, b), p), x, y),
        s.arrive(step(x, y, b), p).tile(x, y) == s.tile(x, y),
{
    let d = step(x, y, b);
    let t = s.tile(d.0, d.1);
    assert(offset(b) != (0int, 0int));
    lemma_neighbour_near(v, x, y, b, traveller(p), p.seat->0);
    let nt = if t.occupier is None {
        TileView { occupier: Some(p), updated: true, ..t }
    } else {
        TileView { passer: Some(p), delay: 0, ..t }
    };
    s.lemma_with_tile(d.0, d.1, nt);
    let a = s.arrive(d, p);
    assert(a == s.with_tile(d.0, d.1, nt));
    assert forall|i: int, j: int| a.in_bounds(i, j) && !(i == x && j == y) implies {
        &&& tile_near(v, #[trigger] a.tile(i, j), i, j)
        &&& !swept(i, j, x, y) ==> tile_untouched(v, a.tile(i, j), i, j)
    } by {
        assert(s.in_bounds(i, j));
        if i == d.0 && j == d.1 {
            assert(a.tile(i, j) == nt);
            assert(tile_near(v, t, i, j));
            if !swept(i, j, x, y) && !t.updated {
                assert(tile_untouched(v, t, i, j));
            }
        } else {
            assert(a.tile(i, j) == s.tile(i, j));
        }
    }
}


/// The sweep invariant at `(x, y)` gives it for every other tile.
proof fn lemma_inv_others(v: AircraftView, s: AircraftView, x: int, y: int)
    requires
        sweep_inv(v, s, x, y),
    ensures
        others_inv(v, s, x, y),
{
}

/// Replacing tile `(x, y)` leaves the invariant of the other tiles.
proof fn lemma_others_with_tile(v: AircraftView, s: AircraftView, x: int, y: int, t: TileView)
    requires
        s.wf(),
        s.in_bounds(x, y),
        others_inv(v, s, x, y),
    ensures
        others_inv(v, s.with_tile(x, y, t), x, y),
{
    s.lemma_with_tile(x, y, t);
    let a = s.with_tile(x, y, t);
    assert forall|i: int, j: int| a.in_bounds(i, j) && !(i == x && j == y) implies {
        &&& tile_near(v, #[trigger] a.tile(i, j), i, j)
        &&& !swept(i, j, x, y) ==> tile_untouched(v, a.tile(i, j), i, j)
    } by {
        assert(a.tile(i, j) == s.tile(i, j));
    }
}

proof fn lemma_occupant_inv(v: AircraftView, s: AircraftView, x: int, y: int)
    requires
        v.wf(),
        sweep_inv(v, s, x, y),
        s.in_bounds(x, y),
        !s.tile(x, y).updated,
    ensures
        others_inv(v, s.occupant_acts(x, y), x, y),
        tile_near(v, s.occupant_acts(x, y).tile(x, y), x, y),
        s.occupant_acts(x, y).tile(x, y).passer is None || (s.occupant_acts(x, y).tile(x, y).passer
            == s.tile(x, y).passer && s.occupant_acts(x, y).tile(x, y).delay == s.tile(
            x,
            y,
        ).delay),
        s.occupant_acts(x, y).waiting == s.waiting,
        s.occupant_acts(x, y).wf(),
        s.occupant_acts(x, y).same_layout(v),
{
    let t = s.tile(x, y);
    s.lemma_occupant_acts(x, y);
    v.lemma_same_layout_trans(s, s.occupant_acts(x, y));
    assert(tile_near(v, s.tile(x, y), x, y));
    assert(tile_untouched(v, s.tile(x, y), x, y));
    lemma_inv_others(v, s, x, y);
    if let Some(p) = t.occupier {
        if let Some(target) = p.seat {
            let b = s.policy(x, y, target, p.baggage);
            if b == Behaviour::Stow {
                let nt = TileView { occupier: Some(PersonView { baggage: false, ..p }), ..t };
                s.lemma_with_tile(x, y, nt);
                lemma_others_with_tile(v, s, x, y, nt);
            } else if b != Behaviour::Wait && s.can_take(x, y, b) {
                let nt = TileView { occupier: t.passer, passer: None, ..t };
                let s1 = s.with_tile(x, y, nt);
                s.lemma_with_tile(x, y, nt);
                lemma_others_with_tile(v, s, x, y, nt);
                v.lemma_same_layout_trans(s, s1);
                let d = step(x, y, b);
                assert(offset(b) != (0int, 0int));
                assert(s1.tile(d.0, d.1) == s.tile(d.0, d.1));
                assert(s1.can_take(x, y, b));
                assert(tile_holds(v.tile(x, y), traveller(p)));
                s.lemma_chosen_exists(x, y, target, p.baggage);
                crate::laws::law_policy_never_moves_away(s, x, y, target, p.baggage, b);
                lemma_arrive_inv(v, s1, x, y, b, p);
            }
        }
    }
}


proof fn lemma_passer_inv(v: AircraftView, s: AircraftView, x: int, y: int)
    requires
        v.wf(),
        s.wf(),
        s.same_layout(v),
        s.in_bounds(x, y),
        others_inv(v, s, x, y),
        tile_near(v, s.tile(x, y), x, y),
        s.tile(x, y).passer is Some ==> ((s.tile(x, y).passer == v.tile(x, y).passer && s.tile(
            x,
            y,
        ).delay == v.tile(x, y).delay) || s.tile(x, y).delay < PASS_WAIT),
    ensures
        others_inv(v, s.passer_acts(x, y), x, y),
        tile_near(v, s.passer_acts(x, y).tile(x, y), x, y),
        s.passer_acts(x, y).waiting == s.waiting,
        s.passer_acts(x, y).wf(),
        s.passer_acts(x, y).same_layout(v),
{
    let t = s.tile(x, y);
    s.lemma_passer_acts(x, y);
    v.lemma_same_layout_trans(s, s.passer_acts(x, y));
    if let Some(p) = t.passer {
        let ready = t.delay >= PASS_WAIT;
        let t1 = TileView {
            delay: if ready {
                0
            } else {
                (t.delay + 1) as u8
            },
            ..t
        };
        let v1 = s.with_tile(x, y, t1);
        s.lemma_with_tile(x, y, t1);
        lemma_others_with_tile(v, s, x, y, t1);
        v.lemma_same_layout_trans(s, v1);
        if ready {
            if let Some(target) = p.seat {
                let b = v1.policy(x, y, target, p.baggage);
                if b == Behaviour::Stow {
                    let t2 = TileView { passer: Some(PersonView { baggage: false, ..p }), ..t1 };
                    v1.lemma_with_tile(x, y, t2);
                    lemma_others_with_tile(v, v1, x, y, t2);
                } else if b != Behaviour::Wait && v1.can_take(x, y, b) {
                    let t2 = TileView { passer: None, ..t1 };
                    let v2 = v1.with_tile(x, y, t2);
                    v1.lemma_with_tile(x, y, t2);
                    lemma_others_with_tile(v, v1, x, y, t2);
                    v.lemma_same_layout_trans(v1, v2);
                    let d = step(x, y, b);
                    assert(offset(b) != (0int, 0int));
                    assert(v2.tile(d.0, d.1) == v1.tile(d.0, d.1));
                    assert(v2.can_take(x, y, b));
                    assert(tile_holds(v.tile(x, y), traveller(p)));
                    v1.lemma_chosen_exists(x, y, target, p.baggage);
                    crate::laws::law_policy_never_moves_away(v1, x, y, target, p.baggage, b);
                    lemma_arrive_inv(v, v2, x, y, b, p);
                }
            }
        }
    }
}

proof fn lemma_boards_inv(v: AircraftView, s: AircraftView, x: int, y: int)
    requires
        v.wf(),
        s.wf(),
        s.same_layout(v),
        s.in_bounds(x, y),
        others_inv(v, s, x, y),
        tile_near(v, s.tile(x, y), x, y),
        s.waiting.len() <= v.waiting.len(),
        s.waiting == v.waiting.subrange(v.waiting.len() - s.waiting.len(), v.waiting.len() as int),
    ensures
        others_inv(v, s.boards(x, y), x, y),
        tile_near(v, s.boards(x, y).tile(x, y), x, y),
        s.boards(x, y).waiting.len() <= v.waiting.len(),
        s.boards(x, y).waiting == v.waiting.subrange(
            v.waiting.len() - s.boards(x, y).waiting.len(),
            v.waiting.len() as int,
        ),
        s.boards(x, y).wf(),
        s.boards(x, y).same_layout(v),
{
    let t = s.tile(x, y);
    s.lemma_boards(x, y);
    v.lemma_same_layout_trans(s, s.boards(x, y));
    if t.variant == Variant::Entrance && s.waiting.len() > 0 && t.occupier is None {
        let nt = TileView { occupier: Some(s.waiting.first()), updated: true, ..t };
        s.lemma_with_tile(x, y, nt);
        lemma_others_with_tile(v, s, x, y, nt);
        let b = s.boards(x, y);
        let w = v.waiting.len() - s.waiting.len();
        assert(v.waiting[w] == s.waiting.first());
        assert(v.tile(x, y).variant == Variant::Entrance);
        assert(came_from_near(v, x, y, traveller(s.waiting.first())));
        assert(b.waiting =~= v.waiting.subrange(v.waiting.len() - b.waiting.len(), v.waiting.len() as int));
        assert forall|i: int, j: int| b.in_bounds(i, j) && !(i == x && j == y) implies {
            &&& tile_near(v, #[trigger] b.tile(i, j), i, j)
            &&& !swept(i, j, x, y) ==> tile_untouched(v, b.tile(i, j), i, j)
        } by {
            assert(b.tile(i, j) == s.with_tile(x, y, nt).tile(i, j));
        }
    }
}

/// One step of the sweep keeps the invariant, one tile further on.
proof fn lemma_advance_inv(v: AircraftView, s: AircraftView, x: int, y: int)
    requires
        v.wf(),
        sweep_inv(v, s, x, y),
        s.in_bounds(x, y),
    ensures
        sweep_inv(v, s.advance(x, y), x, y + 1),
{
    let t = s.tile(x, y);
    if !(t.updated || t.variant == Variant::Blocked) {
        assert(tile_untouched(v, s.tile(x, y), x, y));
        lemma_occupant_inv(v, s, x, y);
        let s1 = s.occupant_acts(x, y);
        lemma_passer_inv(v, s1, x, y);
        let s2 = s1.passer_acts(x, y);
        lemma_boards_inv(v, s2, x, y);
        let s3 = s2.boards(x, y);
        assert forall|i: int, j: int| s3.in_bounds(i, j) implies {
            &&& tile_near(v, #[trigger] s3.tile(i, j), i, j)
            &&& !swept(i, j, x, y + 1) ==> tile_untouched(v, s3.tile(i, j), i, j)
        } by {
            if !(i == x && j == y) {
                assert(tile_near(v, s3.tile(i, j), i, j));
            }
        }
    }
}


proof fn lemma_column_inv(v: AircraftView, s: AircraftView, x: int, k: nat)
    requires
        v.wf(),
        sweep_inv(v, s, x, 0),
        0 <= x < s.width,
        k <= s.height,
    ensures
        sweep_inv(v, s.sweep_column(x, k), x, k as int),
    decreases k,
{
    if k > 0 {
        lemma_column_inv(v, s, x, (k - 1) as nat);
        let c = s.sweep_column(x, (k - 1) as nat);
        lemma_advance_inv(v, c, x, k - 1);
    }
}

proof fn lemma_sweep_inv(v: AircraftView, k: nat)
    requires
        v.wf(),
        k <= v.width,
    ensures
        sweep_inv(v, v.sweep(k), k as int, 0),
    decreases k,
{
    if k == 0 {
        lemma_inv_start(v);
    } else {
        lemma_sweep_inv(v, (k - 1) as nat);
        let s = v.sweep((k - 1) as nat);
        lemma_column_inv(v, s, k - 1, v.height);
        let c = s.sweep_column(k - 1, v.height);
        assert forall|i: int, j: int| c.in_bounds(i, j) implies {
            &&& tile_near(v, #[trigger] c.tile(i, j), i, j)
            &&& !swept(i, j, k as int, 0) ==> tile_untouched(v, c.tile(i, j), i, j)
        } by {
            assert(!swept(i, j, k as int, 0) ==> !swept(i, j, k - 1, v.height as int));
        }
    }
}

/// At most one move per tick, and never away from the seat: after a tick,
/// every passenger (told apart by name and seat) stands within one cell of
/// a tile where it stood before the tick and which was no closer to its
/// seat; or it has just boarded through the entrance it stands on.
pub proof fn law_at_most_one_cell(v: AircraftView)
    requires
        v.wf(),
    ensures
        forall|x: int, y: int| v.in_bounds(x, y) ==> tile_near(v, #[trigger] v.tick().tile(x, y), x, y),
{
    lemma_sweep_inv(v, v.width);
    let s = v.sweep(v.width);
    v.lemma_tick();
    s.lemma_rested();
    assert forall|x: int, y: int| v.in_bounds(x, y) implies tile_near(v, #[trigger] v.tick().tile(x, y), x, y) by {
        assert(v.tick().tile(x, y) == s.rested().tile(x, y));
        assert(s.rested().tile(x, y) == crate::model::rest_tile(s.tile(x, y)));
        assert(tile_near(v, s.tile(x, y), x, y));
    }
}


/// Tile `(x, y)` has a primary occupant that is traveller `k`.
pub open spec fn primary_is(s: AircraftView, x: int, y: int, k: Traveller) -> bool {
    s.tile(x, y).occupier matches Some(q) && traveller(q) == k
}

/// A passenger on its own seat never picks a move.
proof fn lemma_seated_policy(s: AircraftView, x: int, y: int, baggage: bool)
    requires
        0 <= x <= u16::MAX,
        0 <= y <= u16::MAX,
    ensures
        ({
            let b = s.policy(x, y, (x as u16, y as u16), baggage);
            b == Behaviour::Wait || b == Behaviour::Stow
        }),
{
    let t = (x as u16, y as u16);
    s.lemma_chosen_exists(x, y, t, baggage);
    let b = s.policy(x, y, t, baggage);
    if !s.stows(x, y, t, baggage) {
        let c = crate::policy::move_candidates(s.tile(x, y).variant);
        let i = choose|i: int| s.first_best(x, y, t, i) && b == c[i];
        assert(s.can_take(x, y, c[0]));
        assert(distance_after(x, y, c[i], t) == 0);
    }
}

/// A passenger reaching tile `d` from elsewhere leaves the primary
/// occupant of any other tile in place.
proof fn lemma_arrive_keeps_primary(
    s: AircraftView,
    d: (int, int),
    p: PersonView,
    x: int,
    y: int,
    k: Traveller,
)
    requires
        s.wf(),
        s.in_bounds(d.0, d.1),
        s.in_bounds(x, y),
        primary_is(s, x, y, k),
    ensures
        primary_is(s.arrive(d, p), x, y, k),
{
    let t = s.tile(d.0, d.1);
    if t.occupier is None {
        s.lemma_with_tile(d.0, d.1, TileView { occupier: Some(p), updated: true, ..t });
    } else {
        s.lemma_with_tile(d.0, d.1, TileView { passer: Some(p), delay: 0, ..t });
    }
}

/// One step of the sweep leaves a seated passenger where it sits.
proof fn lemma_advance_keeps_seated(s: AircraftView, i: int, j: int, x: int, y: int, k: Traveller)
    requires
        s.wf(),
        s.in_bounds(i, j),
        s.in_bounds(x, y),
        x <= u16::MAX,
        y <= u16::MAX,
        primary_is(s, x, y, k),
        k.1 == Some((x as u16, y as u16)),
    ensures
        primary_is(s.advance(i, j), x, y, k),
{
    let t = s.tile(i, j);
    if t.updated || t.variant == Variant::Blocked {
        return ;
    }
    s.lemma_advance(i, j);
    s.lemma_occupant_acts(i, j);
    let s1 = s.occupant_acts(i, j);
    if let Some(p) = t.occupier {
        if let Some(target) = p.seat {
            let b = s.policy(i, j, target, p.baggage);
            if i == x && j == y {
                lemma_seated_policy(s, x, y, p.baggage);
            }
            if b == Behaviour::Stow {
                s.lemma_with_tile(i, j, TileView { occupier: Some(PersonView { baggage: false, ..p }), ..t });
            } else if b != Behaviour::Wait && s.can_take(i, j, b) {
                let nt = TileView { occupier: t.passer, passer: None, ..t };
                s.lemma_with_tile(i, j, nt);
                let s0 = s.with_tile(i, j, nt);
                let d = step(i, j, b);
                lemma_arrive_keeps_primary(s0, d, p, x, y, k);
            }
        }
    }
    assert(primary_is(s1, x, y, k));
    s1.lemma_passer_acts(i, j);
    let t1 = s1.tile(i, j);
    if let Some(p) = t1.passer {
        let ready = t1.delay >= PASS_WAIT;
        let u1 = TileView {
            delay: if ready {
                0
            } else {
                (t1.delay + 1) as u8
            },
            ..t1
        };
        let v1 = s1.with_tile(i, j, u1);
        s1.lemma_with_tile(i, j, u1);
        if ready {
            if let Some(target) = p.seat {
                let b = v1.policy(i, j, target, p.baggage);
                if b == Behaviour::Stow {
                    v1.lemma_with_tile(i, j, TileView { passer: Some(PersonView { baggage: false, ..p }), ..u1 });
                } else if b != Behaviour::Wait && v1.can_take(i, j, b) {
                    let u2 = TileView { passer: None, ..u1 };
                    v1.lemma_with_tile(i, j, u2);
                    let v2 = v1.with_tile(i, j, u2);
                    lemma_arrive_keeps_primary(v2, step(i, j, b), p, x, y, k);
                }
            }
        }
    }
    let s2 = s1.passer_acts(i, j);
    assert(primary_is(s2, x, y, k));
    s2.lemma_boards(i, j);
    let t2 = s2.tile(i, j);
    if t2.variant == Variant::Entrance && s2.waiting.len() > 0 && t2.occupier is None {
        s2.lemma_with_tile(i, j, TileView { occupier: Some(s2.waiting.first()), updated: true, ..t2 });
    }
}


proof fn lemma_column_keeps_seated(s: AircraftView, c: int, m: nat, x: int, y: int, k: Traveller)
    requires
        s.wf(),
        0 <= c < s.width,
        m <= s.height,
        s.in_bounds(x, y),
        x <= u16::MAX,
        y <= u16::MAX,
        primary_is(s, x, y, k),
        k.1 == Some((x as u16, y as u16)),
    ensures
        primary_is(s.sweep_column(c, m), x, y, k),
        s.conserved_by(s.sweep_column(c, m)),
    decreases m,
{
    s.lemma_sweep_column(c, m);
    if m > 0 {
        lemma_column_keeps_seated(s, c, (m - 1) as nat, x, y, k);
        let a = s.sweep_column(c, (m - 1) as nat);
        lemma_advance_keeps_seated(a, c, m - 1, x, y, k);
    }
}

proof fn lemma_sweep_keeps_seated(s: AircraftView, m: nat, x: int, y: int, k: Traveller)
    requires
        s.wf(),
        m <= s.width,
        s.in_bounds(x, y),
        x <= u16::MAX,
        y <= u16::MAX,
        primary_is(s, x, y, k),
        k.1 == Some((x as u16, y as u16)),
    ensures
        primary_is(s.sweep(m), x, y, k),
    decreases m,
{
    s.lemma_sweep(m);
    if m > 0 {
        lemma_sweep_keeps_seated(s, (m - 1) as nat, x, y, k);
        let a = s.sweep((m - 1) as nat);
        s.lemma_sweep((m - 1) as nat);
        lemma_column_keeps_seated(a, m - 1, s.height, x, y, k);
    }
}

/// Once a passenger sits on its own seat as primary occupant, it stays
/// there, as primary occupant, for every later tick.
pub proof fn law_seated_stays(v: AircraftView, x: int, y: int, n: nat)
    requires
        v.wf(),
        v.in_bounds(x, y),
        x <= u16::MAX,
        y <= u16::MAX,
        v.tile(x, y).occupier matches Some(p) && p.seat == Some((x as u16, y as u16)),
    ensures
        v.after(n).tile(x, y).occupier matches Some(q) && traveller(q) == traveller(
            v.tile(x, y).occupier->0,
        ),
    decreases n,
{
    let k = traveller(v.tile(x, y).occupier->0);
    if n > 0 {
        law_seated_stays(v, x, y, (n - 1) as nat);
        let a = v.after((n - 1) as nat);
        crate::laws::law_conservation(v, (n - 1) as nat);
        lemma_sweep_keeps_seated(a, a.width, x, y, k);
        let s = a.sweep(a.width);
        a.lemma_sweep(a.width);
        s.lemma_rested();
        assert(a.tick().tile(x, y) == s.rested().tile(x, y));
    }
}


/// Traveller `k` stands somewhere on the grid of `s`, or waits to board.
pub open spec fn present(s: AircraftView, k: Traveller) -> bool {
    ||| exists|i: int, j: int| s.in_bounds(i, j) && #[trigger] tile_holds(s.tile(i, j), k)
    ||| exists|w: int| 0 <= w < s.waiting.len() && traveller(#[trigger] s.waiting[w]) == k
}

/// Replacing tile `(x, y)` by one holding everyone it held keeps `k`.
proof fn lemma_present_tile(s: AircraftView, x: int, y: int, t2: TileView, k: Traveller)
    requires
        s.wf(),
        s.in_bounds(x, y),
        present(s, k),
        tile_holds(s.tile(x, y), k) ==> tile_holds(t2, k),
    ensures
        present(s.with_tile(x, y, t2), k),
{
    s.lemma_with_tile(x, y, t2);
    let a = s.with_tile(x, y, t2);
    if exists|i: int, j: int| s.in_bounds(i, j) && #[trigger] tile_holds(s.tile(i, j), k) {
        let (i, j) = choose|i: int, j: int| s.in_bounds(i, j) && #[trigger] tile_holds(s.tile(i, j), k);
        if i == x && j == y {
            assert(tile_holds(a.tile(x, y), k));
        } else {
            assert(tile_holds(a.tile(i, j), k));
        }
    } else {
        let w = choose|w: int| 0 <= w < s.waiting.len() && traveller(#[trigger] s.waiting[w]) == k;
        assert(traveller(a.waiting[w]) == k);
    }
}

/// A passenger arriving somewhere keeps everyone present, itself included.
proof fn lemma_present_arrive(s: AircraftView, d: (int, int), p: PersonView, k: Traveller)
    requires
        s.wf(),
        s.in_bounds(d.0, d.1),
        s.tile(d.0, d.1).passer is None,
        present(s, k) || traveller(p) == k,
    ensures
        present(s.arrive(d, p), k),
        s.arrive(d, p).wf(),
{
    s.lemma_arrive_facts(d, p);
    let t = s.tile(d.0, d.1);
    let nt = if t.occupier is None {
        TileView { occupier: Some(p), updated: true, ..t }
    } else {
        TileView { passer: Some(p), delay: 0, ..t }
    };
    s.lemma_with_tile(d.0, d.1, nt);
    if traveller(p) == k {
        assert(tile_holds(s.arrive(d, p).tile(d.0, d.1), k));
    } else {
        lemma_present_tile(s, d.0, d.1, nt, k);
    }
}


proof fn lemma_present_occupant(s: AircraftView, x: int, y: int, k: Traveller)
    requires
        s.wf(),
        s.in_bounds(x, y),
        present(s, k),
    ensures
        present(s.occupant_acts(x, y), k),
{
    let t = s.tile(x, y);
    s.lemma_occupant_acts(x, y);
    if let Some(p) = t.occupier {
        if let Some(target) = p.seat {
            let b = s.policy(x, y, target, p.baggage);
            if b == Behaviour::Stow {
                let nt = TileView { occupier: Some(PersonView { baggage: false, ..p }), ..t };
                lemma_present_tile(s, x, y, nt, k);
            } else if b != Behaviour::Wait && s.can_take(x, y, b) {
                let nt = TileView { occupier: t.passer, passer: None, ..t };
                s.lemma_with_tile(x, y, nt);
                let s1 = s.with_tile(x, y, nt);
                let d = step(x, y, b);
                assert(offset(b) != (0int, 0int));
                assert(s1.tile(d.0, d.1) == s.tile(d.0, d.1));
                if traveller(p) != k {
                    lemma_present_tile(s, x, y, nt, k);
                }
                lemma_present_arrive(s1, d, p, k);
            }
        }
    }
}

proof fn lemma_present_passer(s: AircraftView, x: int, y: int, k: Traveller)
    requires
        s.wf(),
        s.in_bounds(x, y),
        present(s, k),
    ensures
        present(s.passer_acts(x, y), k),
{
    let t = s.tile(x, y);
    if let Some(p) = t.passer {
        let ready = t.delay >= PASS_WAIT;
        let t1 = TileView {
            delay: if ready {
                0
            } else {
                (t.delay + 1) as u8
            },
            ..t
        };
        let v1 = s.with_tile(x, y, t1);
        s.lemma_with_tile(x, y, t1);
        lemma_present_tile(s, x, y, t1, k);
        if ready {
            if let Some(target) = p.seat {
                let b = v1.policy(x, y, target, p.baggage);
                if b == Behaviour::Stow {
                    let t2 = TileView { passer: Some(PersonView { baggage: false, ..p }), ..t1 };
                    lemma_present_tile(v1, x, y, t2, k);
                } else if b != Behaviour::Wait && v1.can_take(x, y, b) {
                    let t2 = TileView { passer: None, ..t1 };
                    v1.lemma_with_tile(x, y, t2);
                    let v2 = v1.with_tile(x, y, t2);
                    let d = step(x, y, b);
                    assert(offset(b) != (0int, 0int));
                    assert(v2.tile(d.0, d.1) == v1.tile(d.0, d.1));
                    if traveller(p) != k {
                        lemma_present_tile(v1, x, y, t2, k);
                    }
                    lemma_present_arrive(v2, d, p, k);
                }
            }
        }
    }
}

proof fn lemma_present_boards(s: AircraftView, x: int, y: int, k: Traveller)
    requires
        s.wf(),
        s.in_bounds(x, y),
        present(s, k),
    ensures
        present(s.boards(x, y), k),
{
    let t = s.tile(x, y);
    if t.variant == Variant::Entrance && s.waiting.len() > 0 && t.occupier is None {
        let nt = TileView { occupier: Some(s.waiting.first()), updated: true, ..t };
        s.lemma_with_tile(x, y, nt);
        let b = s.boards(x, y);
        if exists|i: int, j: int| s.in_bounds(i, j) && #[trigger] tile_holds(s.tile(i, j), k) {
            let (i, j) = choose|i: int, j: int|
                s.in_bounds(i, j) && #[trigger] tile_holds(s.tile(i, j), k);
            assert(tile_holds(b.tile(i, j), k));
        } else {
            let w = choose|w: int| 0 <= w < s.waiting.len() && traveller(#[trigger] s.waiting[w]) == k;
            if w == 0 {
                assert(tile_holds(b.tile(x, y), k));
            } else {
                assert(b.waiting[w - 1] == s.waiting[w]);
            }
        }
    }
}

/// One step of the sweep keeps everyone present.
proof fn lemma_present_advance(s: AircraftView, x: int, y: int, k: Traveller)
    requires
        s.wf(),
        s.in_bounds(x, y),
        present(s, k),
    ensures
        present(s.advance(x, y), k),
{
    let t = s.tile(x, y);
    if !(t.updated || t.variant == Variant::Blocked) {
        lemma_present_occupant(s, x, y, k);
        s.lemma_occupant_acts(x, y);
        let s1 = s.occupant_acts(x, y);
        lemma_present_passer(s1, x, y, k);
        s1.lemma_passer_acts(x, y);
        lemma_present_boards(s1.passer_acts(x, y), x, y, k);
    }
}


proof fn lemma_present_column(s: AircraftView, x: int, m: nat, k: Traveller)
    requires
        s.wf(),
        0 <= x < s.width,
        m <= s.height,
        present(s, k),
    ensures
        present(s.sweep_column(x, m), k),
    decreases m,
{
    if m > 0 {
        lemma_present_column(s, x, (m - 1) as nat, k);
        s.lemma_sweep_column(x, (m - 1) as nat);
        lemma_present_advance(s.sweep_column(x, (m - 1) as nat), x, m - 1, k);
    }
}

proof fn lemma_present_sweep(s: AircraftView, m: nat, k: Traveller)
    requires
        s.wf(),
        m <= s.width,
        present(s, k),
    ensures
        present(s.sweep(m), k),
    decreases m,
{
    if m > 0 {
        lemma_present_sweep(s, (m - 1) as nat, k);
        s.lemma_sweep((m - 1) as nat);
        lemma_present_column(s.sweep((m - 1) as nat), m - 1, s.height, k);
    }
}

/// Nobody vanishes: a passenger (told apart by name and seat) waiting or on
/// the grid is still waiting or on the grid any number of ticks later.
/// With the passenger count kept (`law_conservation`), passengers with
/// distinct names and seats are thus kept one for one.
pub proof fn law_nobody_vanishes(v: AircraftView, k: Traveller, n: nat)
    requires
        v.wf(),
        present(v, k),
    ensures
        present(v.after(n), k),
    decreases n,
{
    if n > 0 {
        law_nobody_vanishes(v, k, (n - 1) as nat);
        let a = v.after((n - 1) as nat);
        crate::laws::law_conservation(v, (n - 1) as nat);
        lemma_present_sweep(a, a.width, k);
        let s = a.sweep(a.width);
        a.lemma_sweep(a.width);
        s.lemma_rested();
        let r = a.tick();
        if exists|i: int, j: int| s.in_bounds(i, j) && #[trigger] tile_holds(s.tile(i, j), k) {
            let (i, j) = choose|i: int, j: int|
                s.in_bounds(i, j) && #[trigger] tile_holds(s.tile(i, j), k);
            assert(r.tile(i, j) == s.rested().tile(i, j));
            assert(tile_holds(r.tile(i, j), k));
        } else {
            let w = choose|w: int| 0 <= w < s.waiting.len() && traveller(#[trigger] s.waiting[w]) == k;
            assert(traveller(r.waiting[w]) == k);
        }
    }
}


/// Traveller `k` stands on at most one tile of `v` and is not waiting.
pub open spec fn placed_once(v: AircraftView, k: Traveller) -> bool {
    &&& forall|i1: int, j1: int, i2: int, j2: int|
        v.in_bounds(i1, j1) && v.in_bounds(i2, j2) && #[trigger] tile_holds(v.tile(i1, j1), k)
            && #[trigger] tile_holds(v.tile(i2, j2), k) ==> i1 == i2 && j1 == j2
    &&& forall|w: int| 0 <= w < v.waiting.len() ==> traveller(#[trigger] v.waiting[w]) != k
}

/// At most one move per tick, forward: a passenger on the grid whose name
/// and seat no other passenger shares stands, one tick later, on a tile
/// within one cell of where it stood, and no farther from its seat.
pub proof fn law_one_cell_forward(v: AircraftView, x: int, y: int, k: Traveller)
    requires
        v.wf(),
        v.in_bounds(x, y),
        tile_holds(v.tile(x, y), k),
        placed_once(v, k),
    ensures
        exists|i: int, j: int|
            v.in_bounds(i, j) && #[trigger] tile_holds(v.tick().tile(i, j), k) && manhattan(
                (i, j),
                (x, y),
            ) <= 1 && seat_distance(i, j, k) <= seat_distance(x, y, k),
{
    let r = v.tick();
    assert(tile_holds(v.tile(x, y), k));
    assert(present(v, k));
    law_nobody_vanishes(v, k, 1);
    assert(v.after(1) == v.after(0).tick());
    assert(v.after(0) == v);
    lemma_sweep_inv(v, v.width);
    let s = v.sweep(v.width);
    v.lemma_tick();
    s.lemma_rested();
    law_at_most_one_cell(v);
    if exists|i: int, j: int| r.in_bounds(i, j) && #[trigger] tile_holds(r.tile(i, j), k) {
        let (i, j) = choose|i: int, j: int| r.in_bounds(i, j) && #[trigger] tile_holds(r.tile(i, j), k);
        assert(v.in_bounds(i, j));
        assert(tile_near(v, r.tile(i, j), i, j));
        assert(came_from_near(v, i, j, k));
        if exists|i2: int, j2: int|
            v.in_bounds(i2, j2) && manhattan((i2, j2), (i, j)) <= 1 && seat_distance(i2, j2, k)
                >= seat_distance(i, j, k) && #[trigger] tile_holds(v.tile(i2, j2), k) {
            let (i2, j2) = choose|i2: int, j2: int|
                v.in_bounds(i2, j2) && manhattan((i2, j2), (i, j)) <= 1 && seat_distance(i2, j2, k)
                    >= seat_distance(i, j, k) && #[trigger] tile_holds(v.tile(i2, j2), k);
            assert(i2 == x && j2 == y);
            assert(manhattan((i, j), (x, y)) <= 1);
        } else {
            let w = choose|w: int| 0 <= w < v.waiting.len() && traveller(#[trigger] v.waiting[w]) == k;
            assert(false);
        }
    } else {
        let w = choose|w: int| 0 <= w < r.waiting.len() && traveller(#[trigger] r.waiting[w]) == k;
        let off = v.waiting.len() - s.waiting.len();
        assert(r.waiting == s.waiting);
        assert(s.waiting[w] == v.waiting[off + w]);
        assert(traveller(v.waiting[off + w]) != k);
    }
}

} // verus!
