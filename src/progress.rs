//! A passenger alone in an open cabin walks straight to its seat.

use vstd::prelude::*;
use crate::aircraft::AircraftView;
use crate::person::{Behaviour, PersonView};
use crate::policy::{distance_after, manhattan, move_candidates, offset, step};
use crate::tile::{TileView, Variant};

verus! {

/// Tile variant `v` at `(i, j)` is open ground for a passenger whose seat
/// is `seat`: aisle or entrance, or that very seat.
pub open spec fn open_ground(v: Variant, i: int, j: int, seat: Option<(u16, u16)>) -> bool {
    ||| v == Variant::Aisle
    ||| v == Variant::Entrance
    ||| v == Variant::Seat && seat == Some((i as u16, j as u16))
}

/// `v` holds one passenger, `p`, standing on `(x, y)` as primary occupant;
/// nobody waits; every tile is aisle or entrance but for `p`'s own seat,
/// and none is marked as reached this tick.
pub open spec fn lone(v: AircraftView, x: int, y: int, p: PersonView) -> bool {
    &&& v.wf()
    &&& v.width <= u16::MAX + 1
    &&& v.height <= u16::MAX + 1
    &&& v.waiting.len() == 0
    &&& v.in_bounds(x, y)
    &&& forall|i: int, j: int|
        v.in_bounds(i, j) ==> {
            let t = #[trigger] v.tile(i, j);
            &&& open_ground(t.variant, i, j, p.seat)
            &&& t.passer is None
            &&& !t.updated
            &&& t.occupier == if i == x && j == y {
                Some(p)
            } else {
                None
            }
        }
}

/// Ticks a lone passenger at `(x, y)` still needs to reach its seat: one
/// per cell, and one to stow baggage, unless it walks straight down its
/// column onto the seat and stows there.
pub open spec fn remaining(x: int, y: int, p: PersonView) -> nat {
    let t = p.seat->0;
    let d = manhattan((x, y), (t.0 as int, t.1 as int));
    if d > 0 && p.baggage && (y == t.1 || x != t.0) {
        d + 1
    } else {
        d
    }
}

/// Nothing happens on a tile that was reached this tick, or on an empty
/// tile where nobody can board.
pub open spec fn quiet(s: AircraftView, i: int, j: int) -> bool {
    ||| s.tile(i, j).updated
    ||| s.tile(i, j).occupier is None && s.tile(i, j).passer is None && (s.waiting.len() == 0
        || s.tile(i, j).variant != Variant::Entrance)
}

proof fn lemma_quiet(s: AircraftView, i: int, j: int)
    requires
        quiet(s, i, j),
    ensures
        s.advance(i, j) == s,
{
}

/// Sweeping tiles `(x, m)` to `(x, k - 1)` of a column changes nothing when
/// they are all quiet.
proof fn lemma_column_quiet(s: AircraftView, x: int, m: nat, k: nat, w: AircraftView)
    requires
        m <= k,
        s.sweep_column(x, m) == w,
        forall|j: int| m <= j < k ==> #[trigger] quiet(w, x, j),
    ensures
        s.sweep_column(x, k) == w,
    decreases k - m,
{
    if k > m {
        lemma_column_quiet(s, x, m, (k - 1) as nat, w);
        lemma_quiet(w, x, k - 1);
    }
}


/// In a lone passenger's cabin nothing blocks a step, and off its seat the
/// passenger stands on aisle or entrance.
proof fn lemma_lone_ground(v: AircraftView, x: int, y: int, p: PersonView)
    requires
        lone(v, x, y, p),
        p.seat is Some,
    ensures
        forall|i: int, j: int|
            v.in_bounds(i, j) ==> (#[trigger] v.tile(i, j)).variant != Variant::Blocked && v.tile(
                i,
                j,
            ).passer is None,
        manhattan((x, y), ((p.seat->0).0 as int, (p.seat->0).1 as int)) > 0 ==> (v.tile(x, y).variant
            == Variant::Aisle || v.tile(x, y).variant == Variant::Entrance),
{
    assert(open_ground(v.tile(x, y).variant, x, y, p.seat));
}

/// Off its seat, with a move one cell closer open to it, the policy steps
/// one cell closer; and north or south first while its row differs.
proof fn lemma_closer_step(v: AircraftView, x: int, y: int, t: (u16, u16), baggage: bool, j: int)
    requires
        v.tile(x, y).variant == Variant::Aisle || v.tile(x, y).variant == Variant::Entrance,
        !v.stows(x, y, t, baggage),
        1 <= j <= 4,
        v.can_take(x, y, move_candidates(v.tile(x, y).variant)[j]),
        distance_after(x, y, move_candidates(v.tile(x, y).variant)[j], t) + 1 == manhattan(
            (x, y),
            (t.0 as int, t.1 as int),
        ),
        (t.1 as int) != y ==> (j == 1 || j == 2),
    ensures
        ({
            let b = v.policy(x, y, t, baggage);
            &&& b != Behaviour::Wait
            &&& b != Behaviour::Stow
            &&& v.can_take(x, y, b)
            &&& distance_after(x, y, b, t) + 1 == manhattan((x, y), (t.0 as int, t.1 as int))
            &&& (t.1 as int) != y ==> step(x, y, b).0 == x
        }),
{
    let b = v.policy(x, y, t, baggage);
    v.lemma_chosen_exists(x, y, t, baggage);
    let c = move_candidates(v.tile(x, y).variant);
    let i = choose|i: int| v.first_best(x, y, t, i) && b == c[i];
    assert(distance_after(x, y, c[i], t) <= distance_after(x, y, c[j], t));
    assert(c[i] != Behaviour::Wait);
    if (t.1 as int) != y && (i == 3 || i == 4) {
        assert(distance_after(x, y, c[i], t) < distance_after(x, y, c[j], t));
    }
}

/// What the policy does for a lone passenger: it stows when level with its
/// seat's row carrying baggage, waits on its seat, and otherwise steps onto
/// a free neighbour one cell closer to its seat.
proof fn lemma_lone_policy(v: AircraftView, x: int, y: int, p: PersonView)
    requires
        v.in_bounds(x, y),
        p.seat matches Some(t) && v.in_bounds(t.0 as int, t.1 as int),
        forall|i: int, j: int|
            v.in_bounds(i, j) ==> (#[trigger] v.tile(i, j)).variant != Variant::Blocked && v.tile(
                i,
                j,
            ).passer is None,
        manhattan((x, y), ((p.seat->0).0 as int, (p.seat->0).1 as int)) > 0 ==> (v.tile(x, y).variant
            == Variant::Aisle || v.tile(x, y).variant == Variant::Entrance),
    ensures
        ({
            let t = p.seat->0;
            let b = v.policy(x, y, t, p.baggage);
            let d = manhattan((x, y), (t.0 as int, t.1 as int));
            &&& v.stows(x, y, t, p.baggage) ==> b == Behaviour::Stow
            &&& !v.stows(x, y, t, p.baggage) && d == 0 ==> b == Behaviour::Wait
            &&& !v.stows(x, y, t, p.baggage) && d > 0 ==> {
                &&& b != Behaviour::Wait
                &&& b != Behaviour::Stow
                &&& v.can_take(x, y, b)
                &&& distance_after(x, y, b, t) + 1 == d
                &&& t.1 != y ==> step(x, y, b).0 == x
            }
        }),
{
    let t = p.seat->0;
    let b = v.policy(x, y, t, p.baggage);
    let d = manhattan((x, y), (t.0 as int, t.1 as int));
    v.lemma_chosen_exists(x, y, t, p.baggage);
    if !v.stows(x, y, t, p.baggage) {
        let c = move_candidates(v.tile(x, y).variant);
        if d == 0 {
            let i = choose|i: int| v.first_best(x, y, t, i) && b == c[i];
            assert(v.can_take(x, y, c[0]));
            assert(distance_after(x, y, c[i], t) == 0);
        } else {
            let j: int = if (t.1 as int) < y {
                1
            } else if (t.1 as int) > y {
                2
            } else if (t.0 as int) > x {
                3
            } else {
                4
            };
            let dj = step(x, y, c[j]);
            assert(v.in_bounds(dj.0, dj.1));
            lemma_closer_step(v, x, y, t, p.baggage, j);
        }
    }
}

/// Where the lone passenger stands after its turn, and how it then is.
pub open spec fn lone_next(v: AircraftView, x: int, y: int, p: PersonView) -> (int, int, PersonView) {
    let b = v.policy(x, y, p.seat->0, p.baggage);
    if b == Behaviour::Stow {
        (x, y, PersonView { baggage: false, ..p })
    } else if b != Behaviour::Wait && v.can_take(x, y, b) {
        (step(x, y, b).0, step(x, y, b).1, p)
    } else {
        (x, y, p)
    }
}

/// The lone passenger's turn in the sweep: it ends up as `lone_next` says,
/// with its new tile marked as reached if it moved.
proof fn lemma_lone_turn(v: AircraftView, x: int, y: int, p: PersonView)
    requires
        lone(v, x, y, p),
        p.seat is Some,
    ensures
        ({
            let w = v.advance(x, y);
            let n = lone_next(v, x, y, p);
            &&& w.wf()
            &&& w.waiting.len() == 0
            &&& w.same_layout(v)
            &&& w.in_bounds(n.0, n.1)
            &&& forall|i: int, j: int|
                v.in_bounds(i, j) ==> {
                    let t = #[trigger] w.tile(i, j);
                    &&& t.variant == v.tile(i, j).variant
                    &&& t.passer is None
                    &&& t.updated == (i == n.0 && j == n.1 && !(n.0 == x && n.1 == y))
                    &&& t.occupier == if i == n.0 && j == n.1 {
                        Some(n.2)
                    } else {
                        None
                    }
                }
        }),
{
    let t = v.tile(x, y);
    let b = v.policy(x, y, p.seat->0, p.baggage);
    v.lemma_advance(x, y);
    v.lemma_occupant_acts(x, y);
    let s1 = v.occupant_acts(x, y);
    assert(s1.passer_acts(x, y) == s1) by {
        if b == Behaviour::Stow {
            v.lemma_with_tile(x, y, TileView { occupier: Some(PersonView { baggage: false, ..p }), ..t });
        } else if b != Behaviour::Wait && v.can_take(x, y, b) {
            let nt = TileView { occupier: t.passer, passer: None, ..t };
            v.lemma_with_tile(x, y, nt);
            let d = step(x, y, b);
            assert(offset(b) != (0int, 0int));
            let s0 = v.with_tile(x, y, nt);
            let dt = s0.tile(d.0, d.1);
            s0.lemma_with_tile(d.0, d.1, TileView { occupier: Some(p), updated: true, ..dt });
        }
    }
    let w = v.advance(x, y);
    assert(w == s1);
    if b == Behaviour::Stow {
        v.lemma_with_tile(x, y, TileView { occupier: Some(PersonView { baggage: false, ..p }), ..t });
    } else if b != Behaviour::Wait && v.can_take(x, y, b) {
        let nt = TileView { occupier: t.passer, passer: None, ..t };
        v.lemma_with_tile(x, y, nt);
        let d = step(x, y, b);
        assert(offset(b) != (0int, 0int));
        let s0 = v.with_tile(x, y, nt);
        let dt = s0.tile(d.0, d.1);
        assert(dt == v.tile(d.0, d.1));
        s0.lemma_with_tile(d.0, d.1, TileView { occupier: Some(p), updated: true, ..dt });
    }
}


/// The whole sweep changes nothing but the lone passenger's turn.
proof fn lemma_lone_sweep(v: AircraftView, x: int, y: int, p: PersonView, k: nat)
    requires
        lone(v, x, y, p),
        p.seat is Some,
        k <= v.width,
    ensures
        v.sweep(k) == if k <= x {
            v
        } else {
            v.advance(x, y)
        },
    decreases k,
{
    if k > 0 {
        lemma_lone_sweep(v, x, y, p, (k - 1) as nat);
        let c = (k - 1) as int;
        let w = v.advance(x, y);
        lemma_lone_turn(v, x, y, p);
        let n = lone_next(v, x, y, p);
        if c < x {
            assert forall|j: int| 0 <= j < v.height implies #[trigger] quiet(v, c, j) by {
                assert(v.in_bounds(c, j));
            }
            lemma_column_quiet(v, c, 0, v.height, v);
        } else if c == x {
            assert forall|j: int| 0 <= j < y implies #[trigger] quiet(v, c, j) by {
                assert(v.in_bounds(c, j));
            }
            lemma_column_quiet(v, c, 0, y as nat, v);
            assert(v.sweep_column(c, (y + 1) as nat) == w);
            assert forall|j: int| y + 1 <= j < v.height implies #[trigger] quiet(w, c, j) by {
                assert(v.in_bounds(c, j));
            }
            lemma_column_quiet(v, c, (y + 1) as nat, v.height, w);
        } else {
            assert forall|j: int| 0 <= j < v.height implies #[trigger] quiet(w, c, j) by {
                assert(v.in_bounds(c, j));
            }
            lemma_column_quiet(w, c, 0, v.height, w);
        }
    }
}

/// After one tick the passenger is still alone, where `lone_next` says,
/// with one tick less to go (none, once seated).
proof fn lemma_lone_tick(v: AircraftView, x: int, y: int, p: PersonView)
    requires
        lone(v, x, y, p),
        p.seat matches Some(t) && v.in_bounds(t.0 as int, t.1 as int),
    ensures
        ({
            let n = lone_next(v, x, y, p);
            &&& lone(v.tick(), n.0, n.1, n.2)
            &&& n.2.seat == p.seat
            &&& n.2.name == p.name
            &&& remaining(n.0, n.1, n.2) == if remaining(x, y, p) > 0 {
                remaining(x, y, p) - 1
            } else {
                0
            }
        }),
{
    lemma_lone_sweep(v, x, y, p, v.width);
    lemma_lone_turn(v, x, y, p);
    lemma_lone_ground(v, x, y, p);
    lemma_lone_policy(v, x, y, p);
    let w = v.advance(x, y);
    let n = lone_next(v, x, y, p);
    v.lemma_tick();
    w.lemma_rested();
    let r = v.tick();
    assert forall|i: int, j: int| r.in_bounds(i, j) implies {
        let t = #[trigger] r.tile(i, j);
        &&& open_ground(t.variant, i, j, p.seat)
        &&& t.passer is None
        &&& !t.updated
        &&& t.occupier == if i == n.0 && j == n.1 {
            Some(n.2)
        } else {
            None
        }
    } by {
        assert(v.in_bounds(i, j));
        assert(r.tile(i, j) == w.rested().tile(i, j));
        assert(w.rested().tile(i, j) == crate::model::rest_tile(w.tile(i, j)));
    }
}


proof fn lemma_lone_after(v: AircraftView, x: int, y: int, p: PersonView, n: nat) -> (r: (
    int,
    int,
    PersonView,
))
    requires
        lone(v, x, y, p),
        p.seat matches Some(t) && v.in_bounds(t.0 as int, t.1 as int),
    ensures
        lone(v.after(n), r.0, r.1, r.2),
        r.2.seat == p.seat,
        r.2.name == p.name,
        remaining(r.0, r.1, r.2) == if remaining(x, y, p) > n {
            remaining(x, y, p) - n
        } else {
            0
        },
    decreases n,
{
    if n == 0 {
        (x, y, p)
    } else {
        let q = lemma_lone_after(v, x, y, p, (n - 1) as nat);
        let a = v.after((n - 1) as nat);
        crate::laws::law_conservation(v, (n - 1) as nat);
        lemma_lone_tick(a, q.0, q.1, q.2);
        lone_next(a, q.0, q.1, q.2)
    }
}

/// A passenger alone in a cabin of aisle and entrance tiles, with its seat
/// on the grid, is seated within `width + height` ticks: every tick brings
/// it one cell closer, but for the one it spends stowing baggage.
pub proof fn law_lone_passenger_arrives(v: AircraftView, x: int, y: int, p: PersonView, n: nat)
    requires
        lone(v, x, y, p),
        p.seat matches Some(t) && v.in_bounds(t.0 as int, t.1 as int),
        n >= v.width + v.height,
    ensures
        v.after(n).complete(),
        v.after(n).tile((p.seat->0).0 as int, (p.seat->0).1 as int).occupier matches Some(q)
            && q.name == p.name && q.seat == p.seat,
{
    let r = lemma_lone_after(v, x, y, p, n);
    let a = v.after(n);
    let t = p.seat->0;
    assert(remaining(x, y, p) < v.width + v.height);
    assert(remaining(r.0, r.1, r.2) == 0);
    assert(r.0 == t.0 && r.1 == t.1);
    assert(a.tile(t.0 as int, t.1 as int).occupier == Some(r.2));
    assert forall|i: int, j: int| a.in_bounds(i, j) implies #[trigger] a.tile(i, j).seated(i, j) by {
        if i == r.0 && j == r.1 {
        }
    }
}


/// A lone passenger's cabin is complete exactly when no ticks remain.
proof fn lemma_lone_complete(v: AircraftView, x: int, y: int, p: PersonView)
    requires
        lone(v, x, y, p),
        p.seat matches Some(t) && v.in_bounds(t.0 as int, t.1 as int),
    ensures
        v.complete() <==> remaining(x, y, p) == 0,
{
    let t = p.seat->0;
    if remaining(x, y, p) == 0 {
        assert forall|i: int, j: int| v.in_bounds(i, j) implies #[trigger] v.tile(i, j).seated(i, j) by {
        }
    } else {
        assert(!v.tile(x, y).seated(x, y));
    }
}

/// Running a lone passenger's cabin to completion takes exactly
/// `remaining` ticks.
pub proof fn law_lone_run(v: AircraftView, x: int, y: int, p: PersonView, max: nat)
    requires
        lone(v, x, y, p),
        p.seat matches Some(t) && v.in_bounds(t.0 as int, t.1 as int),
        remaining(x, y, p) <= max <= u32::MAX,
    ensures
        v.run_from(max, 0).0 == Ok::<u32, crate::error::SimError>(remaining(x, y, p) as u32),
{
    let k = remaining(x, y, p);
    crate::laws::law_run_outcome(v, max);
    let q = lemma_lone_after(v, x, y, p, k);
    crate::laws::law_conservation(v, k);
    lemma_lone_complete(v.after(k), q.0, q.1, q.2);
    match v.run_from(max, 0).0 {
        Ok(m) => {
            if (m as nat) < k {
                let r = lemma_lone_after(v, x, y, p, m as nat);
                crate::laws::law_conservation(v, m as nat);
                lemma_lone_complete(v.after(m as nat), r.0, r.1, r.2);
            } else if (m as nat) > k {
                assert(!v.after(k).complete());
            }
        },
        Err(_) => {
            assert(!v.after(k).complete());
        },
    }
}

/// Baggage costs one tick: a lone passenger carrying baggage is seated one
/// tick later than the same passenger without, unless its seat lies
/// straight along its own column (it then stows on the seat itself).
pub proof fn law_baggage_costs_one_tick(v: AircraftView, x: int, y: int, p: PersonView, max: nat)
    requires
        lone(v, x, y, p),
        !p.baggage,
        p.seat matches Some(t) && v.in_bounds(t.0 as int, t.1 as int) && (x != t.0 || y == t.1)
            && !(x == t.0 && y == t.1),
        v.width + v.height <= max <= u32::MAX,
    ensures
        ({
            let pb = PersonView { baggage: true, ..p };
            let vb = v.with_tile(x, y, TileView { occupier: Some(pb), ..v.tile(x, y) });
            let t = p.seat->0;
            let k = manhattan((x, y), (t.0 as int, t.1 as int));
            &&& v.run_from(max, 0).0 == Ok::<u32, crate::error::SimError>(k as u32)
            &&& vb.run_from(max, 0).0 == Ok::<u32, crate::error::SimError>((k + 1) as u32)
        }),
{
    let pb = PersonView { baggage: true, ..p };
    let nt = TileView { occupier: Some(pb), ..v.tile(x, y) };
    let vb = v.with_tile(x, y, nt);
    v.lemma_with_tile(x, y, nt);
    v.lemma_wf_grid(v);
    assert forall|i: int, j: int| vb.in_bounds(i, j) implies {
        let t = #[trigger] vb.tile(i, j);
        &&& open_ground(t.variant, i, j, p.seat)
        &&& t.passer is None
        &&& !t.updated
        &&& t.occupier == if i == x && j == y {
            Some(pb)
        } else {
            None
        }
    } by {
        assert(v.in_bounds(i, j));
    }
    assert(lone(vb, x, y, pb));
    law_lone_run(v, x, y, p, max);
    law_lone_run(vb, x, y, pb, max);
}


/// `v` is about to board a single passenger: `p` waits alone, every tile is
/// empty and unmarked, aisle or entrance but for `p`'s own seat, and
/// `(ex, ey)` is the only entrance.
pub open spec fn boarding_one(v: AircraftView, ex: int, ey: int, p: PersonView) -> bool {
    &&& v.wf()
    &&& v.width <= u16::MAX + 1
    &&& v.height <= u16::MAX + 1
    &&& v.waiting == seq![p]
    &&& v.in_bounds(ex, ey)
    &&& forall|i: int, j: int|
        v.in_bounds(i, j) ==> {
            let t = #[trigger] v.tile(i, j);
            &&& open_ground(t.variant, i, j, p.seat)
            &&& t.passer is None
            &&& !t.updated
            &&& t.occupier is None
            &&& (t.variant == Variant::Entrance <==> (i == ex && j == ey))
        }
}

proof fn lemma_boarding_sweep(v: AircraftView, ex: int, ey: int, p: PersonView, k: nat)
    requires
        boarding_one(v, ex, ey, p),
        k <= v.width,
    ensures
        v.sweep(k) == if k <= ex {
            v
        } else {
            v.advance(ex, ey)
        },
        v.advance(ex, ey) == (AircraftView {
            waiting: seq![],
            ..v.with_tile(
                ex,
                ey,
                TileView { occupier: Some(p), updated: true, ..v.tile(ex, ey) },
            )
        }),
    decreases k,
{
    let nt = TileView { occupier: Some(p), updated: true, ..v.tile(ex, ey) };
    v.lemma_with_tile(ex, ey, nt);
    let w = v.advance(ex, ey);
    assert(v.waiting.drop_first() =~= seq![]);
    assert(w == (AircraftView { waiting: seq![], ..v.with_tile(ex, ey, nt) }));
    if k > 0 {
        lemma_boarding_sweep(v, ex, ey, p, (k - 1) as nat);
        let c = (k - 1) as int;
        if c < ex {
            assert forall|j: int| 0 <= j < v.height implies #[trigger] quiet(v, c, j) by {
                assert(v.in_bounds(c, j));
            }
            lemma_column_quiet(v, c, 0, v.height, v);
        } else if c == ex {
            assert forall|j: int| 0 <= j < ey implies #[trigger] quiet(v, c, j) by {
                assert(v.in_bounds(c, j));
            }
            lemma_column_quiet(v, c, 0, ey as nat, v);
            assert(v.sweep_column(c, (ey + 1) as nat) == w);
            assert forall|j: int| ey + 1 <= j < v.height implies #[trigger] quiet(w, c, j) by {
                assert(v.in_bounds(c, j));
                assert(w.tile(c, j) == v.with_tile(ex, ey, nt).tile(c, j));
            }
            lemma_column_quiet(v, c, (ey + 1) as nat, v.height, w);
        } else {
            assert forall|j: int| 0 <= j < v.height implies #[trigger] quiet(w, c, j) by {
                assert(v.in_bounds(c, j));
                assert(w.tile(c, j) == v.with_tile(ex, ey, nt).tile(c, j));
            }
            lemma_column_quiet(w, c, 0, v.height, w);
        }
    }
}

/// After one tick the waiting passenger stands alone on the entrance.
proof fn lemma_boarding_tick(v: AircraftView, ex: int, ey: int, p: PersonView)
    requires
        boarding_one(v, ex, ey, p),
    ensures
        lone(v.tick(), ex, ey, p),
{
    lemma_boarding_sweep(v, ex, ey, p, v.width);
    let w = v.advance(ex, ey);
    v.lemma_tick();
    v.lemma_advance(ex, ey);
    w.lemma_rested();
    let r = v.tick();
    let nt = TileView { occupier: Some(p), updated: true, ..v.tile(ex, ey) };
    v.lemma_with_tile(ex, ey, nt);
    assert forall|i: int, j: int| r.in_bounds(i, j) implies {
        let t = #[trigger] r.tile(i, j);
        &&& open_ground(t.variant, i, j, p.seat)
        &&& t.passer is None
        &&& !t.updated
        &&& t.occupier == if i == ex && j == ey {
            Some(p)
        } else {
            None
        }
    } by {
        assert(v.in_bounds(i, j));
        assert(r.tile(i, j) == w.rested().tile(i, j));
        assert(w.rested().tile(i, j) == crate::model::rest_tile(w.tile(i, j)));
    }
}

/// Ticks after `n + 1` are ticks after `n` from one tick later.
proof fn lemma_after_shift(v: AircraftView, n: nat)
    ensures
        v.after(n + 1) == v.tick().after(n),
    decreases n,
{
    assert(v.after(0) == v);
    assert(v.tick().after(0) == v.tick());
    assert(v.after(n + 1) == v.after(n).tick());
    if n > 0 {
        lemma_after_shift(v, (n - 1) as nat);
        assert(v.tick().after(n) == v.tick().after((n - 1) as nat).tick());
    }
}

/// A passenger boarding alone through the only entrance `(ex, ey)` of a
/// cabin of aisle and entrance tiles (its own seat may be a seat tile) is
/// seated after exactly one tick to board and `remaining(ex, ey, p)` more:
/// at most `1 + manhattan((ex, ey), seat) + 1`, linear in the grid's size.
pub proof fn law_boarding_passenger_run(v: AircraftView, ex: int, ey: int, p: PersonView, max: nat)
    requires
        boarding_one(v, ex, ey, p),
        p.seat matches Some(t) && v.in_bounds(t.0 as int, t.1 as int),
        1 + remaining(ex, ey, p) <= max <= u32::MAX,
    ensures
        v.run_from(max, 0).0 == Ok::<u32, crate::error::SimError>((1 + remaining(ex, ey, p)) as u32),
        remaining(ex, ey, p) <= manhattan(
            (ex, ey),
            ((p.seat->0).0 as int, (p.seat->0).1 as int),
        ) + 1,
{
    let k = 1 + remaining(ex, ey, p);
    lemma_boarding_tick(v, ex, ey, p);
    v.lemma_tick();
    let u = v.tick();
    crate::laws::law_run_outcome(v, max);
    assert(!v.complete()) by {
        assert(v.waiting[0] == p);
    }
    assert(v.after(0) == v);
    lemma_after_shift(v, (k - 1) as nat);
    let q = lemma_lone_after(u, ex, ey, p, (k - 1) as nat);
    crate::laws::law_conservation(u, (k - 1) as nat);
    lemma_lone_complete(u.after((k - 1) as nat), q.0, q.1, q.2);
    match v.run_from(max, 0).0 {
        Ok(m) => {
            if (m as nat) < k {
                if m > 0 {
                    lemma_after_shift(v, (m - 1) as nat);
                    let r = lemma_lone_after(u, ex, ey, p, (m - 1) as nat);
                    crate::laws::law_conservation(u, (m - 1) as nat);
                    lemma_lone_complete(u.after((m - 1) as nat), r.0, r.1, r.2);
                }
            } else if (m as nat) > k {
                assert(!v.after(k).complete());
            }
        },
        Err(_) => {
            assert(!v.after(k).complete());
        },
    }
}

/// Baggage costs one tick for a passenger boarding alone: with baggage it
/// is seated one tick later than without, unless its seat lies straight
/// along the entrance's column (it then stows on the seat itself).
pub proof fn law_boarding_baggage_costs_one_tick(
    v: AircraftView,
    ex: int,
    ey: int,
    p: PersonView,
    max: nat,
)
    requires
        boarding_one(v, ex, ey, p),
        !p.baggage,
        p.seat matches Some(t) && v.in_bounds(t.0 as int, t.1 as int) && (ex != t.0 || ey == t.1)
            && !(ex == t.0 && ey == t.1),
        v.width + v.height + 1 <= max <= u32::MAX,
    ensures
        ({
            let vb = AircraftView { waiting: seq![PersonView { baggage: true, ..p }], ..v };
            let t = p.seat->0;
            let k = manhattan((ex, ey), (t.0 as int, t.1 as int));
            &&& v.run_from(max, 0).0 == Ok::<u32, crate::error::SimError>((k + 1) as u32)
            &&& vb.run_from(max, 0).0 == Ok::<u32, crate::error::SimError>((k + 2) as u32)
        }),
{
    let pb = PersonView { baggage: true, ..p };
    let vb = AircraftView { waiting: seq![pb], ..v };
    v.lemma_wf_grid(vb);
    assert forall|i: int, j: int| vb.in_bounds(i, j) implies {
        let t = #[trigger] vb.tile(i, j);
        &&& open_ground(t.variant, i, j, pb.seat)
        &&& t.passer is None
        &&& !t.updated
        &&& t.occupier is None
        &&& (t.variant == Variant::Entrance <==> (i == ex && j == ey))
    } by {
        assert(v.in_bounds(i, j));
    }
    assert(boarding_one(vb, ex, ey, pb));
    law_boarding_passenger_run(v, ex, ey, p, max);
    law_boarding_passenger_run(vb, ex, ey, pb, max);
}

} // verus!
