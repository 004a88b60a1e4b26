//! Properties of the simulation as a whole, proved over the tick model.

use vstd::prelude::*;
use crate::aircraft::AircraftView;
use crate::error::SimError;
use crate::person::Behaviour;
use crate::policy::{distance_after, manhattan, move_candidates};

verus! {

/// Conservation: however many ticks pass, the passengers waiting plus those
/// on the grid (seated or not, primary occupants or passers) stay exactly
/// as many as were added, and the layout does not change.
pub proof fn law_conservation(v: AircraftView, n: nat)
    requires
        v.wf(),
    ensures
        v.after(n).wf(),
        v.after(n).population() == v.population(),
        v.after(n).same_layout(v),
    decreases n,
{
    if n > 0 {
        law_conservation(v, (n - 1) as nat);
        let s = v.after((n - 1) as nat);
        s.lemma_tick();
        v.lemma_same_layout_trans(s, s.tick());
    }
}

/// Determinism: two runs from the same configuration pass through the same
/// states tick by tick and end with the same outcome.
pub proof fn law_determinism(a: AircraftView, b: AircraftView, n: nat, max: nat)
    requires
        a == b,
    ensures
        a.after(n) == b.after(n),
        a.run_from(max, 0) == b.run_from(max, 0),
{
}

proof fn lemma_run_from(v: AircraftView, max: nat, n: nat)
    requires
        n <= max,
        max <= u32::MAX,
    ensures
        ({
            let (r, last) = v.after(n).run_from(max, n);
            &&& r matches Ok(k) ==> {
                &&& n <= k <= max
                &&& last == v.after(k as nat)
                &&& v.after(k as nat).complete()
                &&& forall|j: nat| n <= j < k ==> !(#[trigger] v.after(j)).complete()
            }
            &&& r is Err ==> {
                &&& r == Err::<u32, SimError>(SimError::NonTermination)
                &&& last == v.after(max)
                &&& forall|j: nat| n <= j <= max ==> !(#[trigger] v.after(j)).complete()
            }
        }),
    decreases max - n,
{
    if !v.after(n).complete() && n < max {
        lemma_run_from(v, max, n + 1);
        assert(v.after(n + 1) == v.after(n).tick());
    }
}

/// Running to completion with a bound of `max` ticks reports the first
/// tick count at which every passenger is seated, and the state then; or
/// `NonTermination` when no tick count up to `max` has everyone seated.
pub proof fn law_run_outcome(v: AircraftView, max: nat)
    requires
        max <= u32::MAX,
    ensures
        ({
            let (r, last) = v.run_from(max, 0);
            &&& r matches Ok(k) ==> {
                &&& k <= max
                &&& last == v.after(k as nat)
                &&& v.after(k as nat).complete()
                &&& forall|j: nat| j < k ==> !(#[trigger] v.after(j)).complete()
            }
            &&& r is Err ==> {
                &&& r == Err::<u32, SimError>(SimError::NonTermination)
                &&& last == v.after(max)
                &&& forall|j: nat| j <= max ==> !(#[trigger] v.after(j)).complete()
            }
        }),
{
    lemma_run_from(v, max, 0);
}

/// The policy never takes a passenger farther from its seat.
pub proof fn law_policy_never_moves_away(
    v: AircraftView,
    x: int,
    y: int,
    target: (u16, u16),
    baggage: bool,
    b: Behaviour,
)
    requires
        v.chosen_move(x, y, target, baggage, b),
        b != Behaviour::Stow,
    ensures
        distance_after(x, y, b, target) <= manhattan((x, y), (target.0 as int, target.1 as int)),
{
    let c = move_candidates(v.tile(x, y).variant);
    let i = choose|i: int| v.first_best(x, y, target, i) && b == c[i];
    assert(v.can_take(x, y, c[0]));
}


/// Two states alike in everything but the tick count.
pub open spec fn alike(a: AircraftView, b: AircraftView) -> bool {
    &&& a.width == b.width
    &&& a.height == b.height
    &&& a.grid == b.grid
    &&& a.waiting == b.waiting
}

proof fn lemma_policy_alike(
    a: AircraftView,
    b: AircraftView,
    x: int,
    y: int,
    target: (u16, u16),
    baggage: bool,
)
    requires
        alike(a, b),
    ensures
        a.policy(x, y, target, baggage) == b.policy(x, y, target, baggage),
        forall|m: Behaviour| a.can_take(x, y, m) == b.can_take(x, y, m),
{
    let pa = a.policy(x, y, target, baggage);
    a.lemma_chosen_exists(x, y, target, baggage);
    assert(b.chosen_move(x, y, target, baggage, pa));
    b.lemma_policy_is(x, y, target, baggage, pa);
}

proof fn lemma_advance_alike(a: AircraftView, b: AircraftView, x: int, y: int)
    requires
        alike(a, b),
    ensures
        alike(a.advance(x, y), b.advance(x, y)),
{
    let t = a.tile(x, y);
    if let Some(p) = t.occupier {
        if let Some(target) = p.seat {
            lemma_policy_alike(a, b, x, y, target, p.baggage);
        }
    }
    let a1 = a.occupant_acts(x, y);
    let b1 = b.occupant_acts(x, y);
    assert(alike(a1, b1));
    let t1 = a1.tile(x, y);
    if let Some(p) = t1.passer {
        let ready = t1.delay >= crate::tile::PASS_WAIT;
        let u1 = crate::tile::TileView {
            delay: if ready {
                0
            } else {
                (t1.delay + 1) as u8
            },
            ..t1
        };
        if let Some(target) = p.seat {
            lemma_policy_alike(a1.with_tile(x, y, u1), b1.with_tile(x, y, u1), x, y, target, p.baggage);
        }
    }
    let a2 = a1.passer_acts(x, y);
    let b2 = b1.passer_acts(x, y);
    assert(alike(a2, b2));
}

proof fn lemma_sweep_alike(a: AircraftView, b: AircraftView, k: nat)
    requires
        alike(a, b),
    ensures
        alike(a.sweep(k), b.sweep(k)),
    decreases k,
{
    if k > 0 {
        lemma_sweep_alike(a, b, (k - 1) as nat);
        lemma_column_alike(a.sweep((k - 1) as nat), b.sweep((k - 1) as nat), k - 1, a.height);
    }
}

proof fn lemma_column_alike(a: AircraftView, b: AircraftView, x: int, k: nat)
    requires
        alike(a, b),
    ensures
        alike(a.sweep_column(x, k), b.sweep_column(x, k)),
    decreases k,
{
    if k > 0 {
        lemma_column_alike(a, b, x, (k - 1) as nat);
        lemma_advance_alike(a.sweep_column(x, (k - 1) as nat), b.sweep_column(x, (k - 1) as nat), x, k - 1);
    }
}

/// Determinism whatever the tick count: two states alike in layout,
/// occupants (names, seats, baggage, pass counters, arrival marks) and
/// waiting queue stay alike tick after tick.
pub proof fn law_determinism_any_count(a: AircraftView, b: AircraftView, n: nat)
    requires
        alike(a, b),
    ensures
        alike(a.after(n), b.after(n)),
    decreases n,
{
    if n > 0 {
        law_determinism_any_count(a, b, (n - 1) as nat);
        let a0 = a.after((n - 1) as nat);
        let b0 = b.after((n - 1) as nat);
        lemma_sweep_alike(a0, b0, a0.width);
        assert(alike(a0.tick(), b0.tick()));
    }
}

} // verus!
