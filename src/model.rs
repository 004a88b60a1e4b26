//! The tick as a mathematical function of the aircraft's state, and the
//! facts that hold of it.

use vstd::prelude::*;
use crate::aircraft::{column_population, grid_population, AircraftView};
use crate::error::SimError;
use crate::person::{Behaviour, PersonView};
use crate::policy::{offset, step};
use crate::tile::{TileView, Variant, PASS_WAIT};

verus! {

/// A tile with its `updated` flag cleared.
pub open spec fn rest_tile(t: TileView) -> TileView {
    TileView { updated: false, ..t }
}

impl AircraftView {
    /// The move the greedy policy picks (see `chosen_move`).
    pub open spec fn policy(self, x: int, y: int, target: (u16, u16), baggage: bool) -> Behaviour {
        choose|b: Behaviour| self.chosen_move(x, y, target, baggage, b)
    }

    /// Passenger `p` steps onto tile `d`: as primary occupant if the tile
    /// is empty, otherwise as a passer squeezing past.
    pub open spec fn arrive(self, d: (int, int), p: PersonView) -> AircraftView {
        let t = self.tile(d.0, d.1);
        if t.occupier is None {
            self.with_tile(d.0, d.1, TileView { occupier: Some(p), updated: true, ..t })
        } else {
            self.with_tile(d.0, d.1, TileView { passer: Some(p), delay: 0, ..t })
        }
    }

    /// The primary occupant of `(x, y)`, if it has a seat, stows, waits or
    /// moves as the policy says; a passer there takes its place when it
    /// leaves.
    pub open spec fn occupant_acts(self, x: int, y: int) -> AircraftView {
        let t = self.tile(x, y);
        match t.occupier {
            Some(p) => match p.seat {
                Some(target) => {
                    let b = self.policy(x, y, target, p.baggage);
                    if b == Behaviour::Stow {
                        self.with_tile(
                            x,
                            y,
                            TileView { occupier: Some(PersonView { baggage: false, ..p }), ..t },
                        )
                    } else if b != Behaviour::Wait && self.can_take(x, y, b) {
                        self.with_tile(
                            x,
                            y,
                            TileView { occupier: t.passer, passer: None, ..t },
                        ).arrive(step(x, y, b), p)
                    } else {
                        self
                    }
                },
                None => self,
            },
            None => self,
        }
    }

    /// A passer on `(x, y)` counts one check of its wait; once the wait is
    /// over it stows, waits or moves as the policy says.
    pub open spec fn passer_acts(self, x: int, y: int) -> AircraftView {
        let t = self.tile(x, y);
        match t.passer {
            Some(p) => {
                let ready = t.delay >= PASS_WAIT;
                let t1 = TileView {
                    delay: if ready {
                        0
                    } else {
                        (t.delay + 1) as u8
                    },
                    ..t
                };
                let v1 = self.with_tile(x, y, t1);
                if !ready {
                    v1
                } else {
                    match p.seat {
                        Some(target) => {
                            let b = v1.policy(x, y, target, p.baggage);
                            if b == Behaviour::Stow {
                                v1.with_tile(
                                    x,
                                    y,
                                    TileView {
                                        passer: Some(PersonView { baggage: false, ..p }),
                                        ..t1
                                    },
                                )
                            } else if b != Behaviour::Wait && v1.can_take(x, y, b) {
                                v1.with_tile(x, y, TileView { passer: None, ..t1 }).arrive(
                                    step(x, y, b),
                                    p,
                                )
                            } else {
                                v1
                            }
                        },
                        None => v1,
                    }
                }
            },
            None => self,
        }
    }

    /// An empty entrance at `(x, y)` lets the passenger at the front of the
    /// queue board.
    pub open spec fn boards(self, x: int, y: int) -> AircraftView {
        let t = self.tile(x, y);
        if t.variant == Variant::Entrance && self.waiting.len() > 0 && t.occupier is None {
            AircraftView {
                waiting: self.waiting.drop_first(),
                ..self.with_tile(
                    x,
                    y,
                    TileView { occupier: Some(self.waiting.first()), updated: true, ..t },
                )
            }
        } else {
            self
        }
    }

    /// One step of the sweep at `(x, y)`: nothing happens on a blocked tile
    /// or one a passenger reached this tick; otherwise the occupant acts,
    /// then the passer, then the entrance lets someone board.
    pub open spec fn advance(self, x: int, y: int) -> AircraftView {
        let t = self.tile(x, y);
        if t.updated || t.variant == Variant::Blocked {
            self
        } else {
            self.occupant_acts(x, y).passer_acts(x, y).boards(x, y)
        }
    }

    /// The sweep over tiles `(x, 0)` to `(x, k - 1)`.
    pub open spec fn sweep_column(self, x: int, k: nat) -> AircraftView
        decreases k,
    {
        if k == 0 {
            self
        } else {
            self.sweep_column(x, (k - 1) as nat).advance(x, k - 1)
        }
    }

    /// The sweep over columns `0` to `k - 1`, each from `y = 0` upwards.
    pub open spec fn sweep(self, k: nat) -> AircraftView
        decreases k,
    {
        if k == 0 {
            self
        } else {
            self.sweep((k - 1) as nat).sweep_column(k - 1, self.height)
        }
    }

    /// Every tile's `updated` flag cleared.
    pub open spec fn rested(self) -> AircraftView {
        AircraftView {
            grid: self.grid.map_values(|c: Seq<TileView>| c.map_values(|t: TileView| rest_tile(t))),
            ..self
        }
    }

    /// The state one tick later; the tick count stops at `u64::MAX`.
    pub open spec fn tick(self) -> AircraftView {
        AircraftView {
            ticks: if self.ticks < u64::MAX {
                self.ticks + 1
            } else {
                self.ticks
            },
            ..self.sweep(self.width).rested()
        }
    }

    /// The state `n` ticks later.
    pub open spec fn after(self, n: nat) -> AircraftView
        decreases n,
    {
        if n == 0 {
            self
        } else {
            self.after((n - 1) as nat).tick()
        }
    }

    /// The outcome of running to completion from this state, `n` ticks
    /// having passed already, with at most `max` ticks in all: the tick
    /// count and the final state.
    pub open spec fn run_from(self, max: nat, n: nat) -> (Result<u32, SimError>, AircraftView)
        decreases max - n,
    {
        if self.complete() {
            (Ok(n as u32), self)
        } else if n >= max {
            (Err(SimError::NonTermination), self)
        } else {
            self.tick().run_from(max, n + 1)
        }
    }
}


/// Clearing the flags keeps a column's population.
proof fn lemma_rest_column(c: Seq<TileView>)
    ensures
        column_population(c.map_values(|t: TileView| rest_tile(t))) == column_population(c),
    decreases c.len(),
{
    if c.len() > 0 {
        lemma_rest_column(c.drop_last());
        assert(c.map_values(|t: TileView| rest_tile(t)).drop_last() =~= c.drop_last().map_values(
            |t: TileView| rest_tile(t),
        ));
    }
}

/// Clearing the flags keeps a grid's population.
proof fn lemma_rest_grid(g: Seq<Seq<TileView>>)
    ensures
        grid_population(
            g.map_values(|c: Seq<TileView>| c.map_values(|t: TileView| rest_tile(t))),
        ) == grid_population(g),
    decreases g.len(),
{
    if g.len() > 0 {
        lemma_rest_grid(g.drop_last());
        lemma_rest_column(g.last());
        assert(g.map_values(|c: Seq<TileView>| c.map_values(|t: TileView| rest_tile(t))).drop_last()
            =~= g.drop_last().map_values(
            |c: Seq<TileView>| c.map_values(|t: TileView| rest_tile(t)),
        ));
    }
}

impl AircraftView {
    /// `next` is well formed, has this layout, and holds as many passengers.
    pub open spec fn conserved_by(self, next: AircraftView) -> bool {
        &&& next.wf()
        &&& next.same_layout(self)
        &&& next.population() == self.population()
    }

    pub proof fn lemma_same_layout_trans(self, b: AircraftView, c: AircraftView)
        requires
            b.same_layout(self),
            c.same_layout(b),
        ensures
            c.same_layout(self),
    {
        assert forall|x: int, y: int| c.in_bounds(x, y) implies (#[trigger] c.tile(x, y)).variant
            == self.tile(x, y).variant by {
            assert(b.tile(x, y).variant == self.tile(x, y).variant);
        }
    }

    /// At most one move satisfies `chosen_move`.
    pub proof fn lemma_chosen_unique(
        self,
        x: int,
        y: int,
        target: (u16, u16),
        baggage: bool,
        b1: Behaviour,
        b2: Behaviour,
    )
        requires
            self.chosen_move(x, y, target, baggage, b1),
            self.chosen_move(x, y, target, baggage, b2),
        ensures
            b1 == b2,
    {
        if !self.stows(x, y, target, baggage) {
            let c = crate::policy::move_candidates(self.tile(x, y).variant);
            let i1 = choose|i: int| self.first_best(x, y, target, i) && b1 == c[i];
            let i2 = choose|i: int| self.first_best(x, y, target, i) && b2 == c[i];
            if i1 < i2 {
                assert(self.can_take(x, y, c[i1]));
            } else if i2 < i1 {
                assert(self.can_take(x, y, c[i2]));
            }
        }
    }

    /// A move satisfying `chosen_move` is the policy's move.
    pub proof fn lemma_policy_is(
        self,
        x: int,
        y: int,
        target: (u16, u16),
        baggage: bool,
        b: Behaviour,
    )
        requires
            self.chosen_move(x, y, target, baggage, b),
        ensures
            self.policy(x, y, target, baggage) == b,
    {
        let p = self.policy(x, y, target, baggage);
        assert(self.chosen_move(x, y, target, baggage, p));
        self.lemma_chosen_unique(x, y, target, baggage, p, b);
    }

    pub(crate) proof fn lemma_arrive_facts(self, d: (int, int), p: PersonView)
        requires
            self.wf(),
            self.in_bounds(d.0, d.1),
            self.tile(d.0, d.1).passer is None,
        ensures
            self.arrive(d, p).wf(),
    {
        self.lemma_arrive(d, p);
    }

    proof fn lemma_arrive(self, d: (int, int), p: PersonView)
        requires
            self.wf(),
            self.in_bounds(d.0, d.1),
            self.tile(d.0, d.1).passer is None,
        ensures
            self.arrive(d, p).ticks == self.ticks,
            self.arrive(d, p).wf(),
            self.arrive(d, p).same_layout(self),
            self.arrive(d, p).population() == self.population() + 1,
            self.arrive(d, p).waiting == self.waiting,
    {
        let t = self.tile(d.0, d.1);
        if t.occupier is None {
            self.lemma_with_tile(d.0, d.1, TileView { occupier: Some(p), updated: true, ..t });
        } else {
            self.lemma_with_tile(d.0, d.1, TileView { passer: Some(p), delay: 0, ..t });
        }
    }

    /// The passenger leaving `(x, y)` by move `b` and arriving at its
    /// destination keeps the grid well formed, its layout and population.
    proof fn lemma_leave_and_arrive(self, x: int, y: int, b: Behaviour, t: TileView, p: PersonView)
        requires
            self.wf(),
            self.in_bounds(x, y),
            t.wf(),
            t.variant == self.tile(x, y).variant,
            t.population() + 1 == self.tile(x, y).population(),
            b != Behaviour::Wait,
            b != Behaviour::Stow,
            self.can_take(x, y, b),
        ensures
            self.with_tile(x, y, t).arrive(step(x, y, b), p).ticks == self.ticks,
            self.conserved_by(self.with_tile(x, y, t).arrive(step(x, y, b), p)),
            self.with_tile(x, y, t).arrive(step(x, y, b), p).waiting == self.waiting,
    {
        let v1 = self.with_tile(x, y, t);
        let d = step(x, y, b);
        self.lemma_with_tile(x, y, t);
        assert(offset(b) != (0int, 0int));
        assert(v1.tile(d.0, d.1) == self.tile(d.0, d.1));
        v1.lemma_arrive(d, p);
        self.lemma_same_layout_trans(v1, v1.arrive(d, p));
    }

    pub(crate) proof fn lemma_occupant_acts(self, x: int, y: int)
        requires
            self.wf(),
            self.in_bounds(x, y),
        ensures
            self.occupant_acts(x, y).ticks == self.ticks,
            self.conserved_by(self.occupant_acts(x, y)),
            self.occupant_acts(x, y).waiting == self.waiting,
    {
        let t = self.tile(x, y);
        self.lemma_wf_grid(self);
        if let Some(p) = t.occupier {
            if let Some(target) = p.seat {
                let b = self.policy(x, y, target, p.baggage);
                if b == Behaviour::Stow {
                    self.lemma_with_tile(
                        x,
                        y,
                        TileView { occupier: Some(PersonView { baggage: false, ..p }), ..t },
                    );
                } else if b != Behaviour::Wait && self.can_take(x, y, b) {
                    self.lemma_leave_and_arrive(
                        x,
                        y,
                        b,
                        TileView { occupier: t.passer, passer: None, ..t },
                        p,
                    );
                }
            }
        }
    }

    pub(crate) proof fn lemma_passer_acts(self, x: int, y: int)
        requires
            self.wf(),
            self.in_bounds(x, y),
        ensures
            self.passer_acts(x, y).ticks == self.ticks,
            self.conserved_by(self.passer_acts(x, y)),
            self.passer_acts(x, y).waiting == self.waiting,
    {
        let t = self.tile(x, y);
        self.lemma_wf_grid(self);
        if let Some(p) = t.passer {
            let ready = t.delay >= PASS_WAIT;
            let t1 = TileView {
                delay: if ready {
                    0
                } else {
                    (t.delay + 1) as u8
                },
                ..t
            };
            let v1 = self.with_tile(x, y, t1);
            self.lemma_with_tile(x, y, t1);
            if ready {
                if let Some(target) = p.seat {
                    let b = v1.policy(x, y, target, p.baggage);
                    if b == Behaviour::Stow {
                        let t2 = TileView { passer: Some(PersonView { baggage: false, ..p }), ..t1 };
                        v1.lemma_with_tile(x, y, t2);
                        self.lemma_same_layout_trans(v1, v1.with_tile(x, y, t2));
                    } else if b != Behaviour::Wait && v1.can_take(x, y, b) {
                        v1.lemma_leave_and_arrive(x, y, b, TileView { passer: None, ..t1 }, p);
                        self.lemma_same_layout_trans(
                            v1,
                            v1.with_tile(x, y, TileView { passer: None, ..t1 }).arrive(
                                step(x, y, b),
                                p,
                            ),
                        );
                    }
                }
            }
        }
    }

    pub(crate) proof fn lemma_boards(self, x: int, y: int)
        requires
            self.wf(),
            self.in_bounds(x, y),
        ensures
            self.boards(x, y).ticks == self.ticks,
            self.conserved_by(self.boards(x, y)),
    {
        let t = self.tile(x, y);
        self.lemma_wf_grid(self);
        if t.variant == Variant::Entrance && self.waiting.len() > 0 && t.occupier is None {
            let t1 = TileView { occupier: Some(self.waiting.first()), updated: true, ..t };
            self.lemma_with_tile(x, y, t1);
            self.with_tile(x, y, t1).lemma_wf_grid(self.boards(x, y));
        }
    }

    /// One step of the sweep keeps the grid well formed, its layout, and
    /// the number of passengers.
    pub proof fn lemma_advance(self, x: int, y: int)
        requires
            self.wf(),
            self.in_bounds(x, y),
        ensures
            self.advance(x, y).ticks == self.ticks,
            self.conserved_by(self.advance(x, y)),
    {
        self.lemma_wf_grid(self);
        let t = self.tile(x, y);
        if !(t.updated || t.variant == Variant::Blocked) {
            let v1 = self.occupant_acts(x, y);
            self.lemma_occupant_acts(x, y);
            let v2 = v1.passer_acts(x, y);
            v1.lemma_passer_acts(x, y);
            v2.lemma_boards(x, y);
            self.lemma_same_layout_trans(v1, v2);
            self.lemma_same_layout_trans(v2, v2.boards(x, y));
        }
    }

    pub proof fn lemma_sweep_column(self, x: int, k: nat)
        requires
            self.wf(),
            0 <= x < self.width,
            k <= self.height,
        ensures
            self.sweep_column(x, k).ticks == self.ticks,
            self.conserved_by(self.sweep_column(x, k)),
        decreases k,
    {
        self.lemma_wf_grid(self);
        if k > 0 {
            self.lemma_sweep_column(x, (k - 1) as nat);
            let s = self.sweep_column(x, (k - 1) as nat);
            s.lemma_advance(x, k - 1);
            self.lemma_same_layout_trans(s, s.advance(x, k - 1));
        }
    }

    pub proof fn lemma_sweep(self, k: nat)
        requires
            self.wf(),
            k <= self.width,
        ensures
            self.sweep(k).ticks == self.ticks,
            self.conserved_by(self.sweep(k)),
        decreases k,
    {
        self.lemma_wf_grid(self);
        if k > 0 {
            self.lemma_sweep((k - 1) as nat);
            let s = self.sweep((k - 1) as nat);
            s.lemma_sweep_column(k - 1, self.height);
            self.lemma_same_layout_trans(s, s.sweep_column(k - 1, self.height));
        }
    }

    pub proof fn lemma_rested(self)
        requires
            self.wf(),
        ensures
            self.conserved_by(self.rested()),
            self.rested().at_rest(),
            self.rested().waiting == self.waiting,
            forall|x: int, y: int|
                self.in_bounds(x, y) ==> #[trigger] self.rested().tile(x, y) == rest_tile(
                    self.tile(x, y),
                ),
    {
        let r = self.rested();
        lemma_rest_grid(self.grid);
        assert forall|x: int, y: int| self.in_bounds(x, y) implies #[trigger] r.tile(x, y)
            == rest_tile(self.tile(x, y)) by {
            assert(self.grid[x].len() == self.height);
        }
        assert forall|x: int| 0 <= x < r.width implies #[trigger] r.grid[x].len() == r.height by {
            assert(self.grid[x].len() == self.height);
        }
        assert forall|x: int, y: int| r.in_bounds(x, y) implies (#[trigger] r.tile(x, y)).wf() by {
            assert(self.tile(x, y).wf());
            assert(r.tile(x, y) == rest_tile(self.tile(x, y)));
        }
        assert forall|x: int, y: int| r.in_bounds(x, y) implies !(#[trigger] r.tile(x, y)).updated by {
            assert(r.tile(x, y) == rest_tile(self.tile(x, y)));
        }
        assert forall|x: int, y: int| r.in_bounds(x, y) implies (#[trigger] r.tile(x, y)).variant
            == self.tile(x, y).variant by {
            assert(r.tile(x, y) == rest_tile(self.tile(x, y)));
        }
    }

    /// A tick keeps the grid well formed, its layout, and the number of
    /// passengers.
    pub proof fn lemma_tick(self)
        requires
            self.wf(),
        ensures
            self.conserved_by(self.tick()),
            self.tick().at_rest(),
    {
        self.lemma_sweep(self.width);
        let s = self.sweep(self.width);
        s.lemma_rested();
        self.lemma_same_layout_trans(s, s.rested());
        s.rested().lemma_wf_grid(self.tick());
        self.lemma_same_layout_trans(s.rested(), self.tick());
    }
}


/// Index of the first `j < k` with `ok(j)` and least `d(j)`, given `ok(0)`.
pub open spec fn first_min(ok: spec_fn(int) -> bool, d: spec_fn(int) -> nat, k: int) -> int
    decreases k,
{
    if k <= 1 {
        0
    } else {
        let b = first_min(ok, d, k - 1);
        if ok(k - 1) && d(k - 1) < d(b) {
            k - 1
        } else {
            b
        }
    }
}

proof fn lemma_first_min(ok: spec_fn(int) -> bool, d: spec_fn(int) -> nat, k: int)
    requires
        k >= 1,
        ok(0),
    ensures
        0 <= first_min(ok, d, k) < k,
        ok(first_min(ok, d, k)),
        forall|j: int| 0 <= j < k && #[trigger] ok(j) ==> d(first_min(ok, d, k)) <= d(j),
        forall|j: int| 0 <= j < first_min(ok, d, k) && #[trigger] ok(j) ==> d(first_min(ok, d, k)) < d(j),
    decreases k,
{
    if k > 1 {
        lemma_first_min(ok, d, k - 1);
    }
}

impl AircraftView {
    /// The policy always has a move to pick.
    pub proof fn lemma_chosen_exists(self, x: int, y: int, target: (u16, u16), baggage: bool)
        ensures
            self.chosen_move(x, y, target, baggage, self.policy(x, y, target, baggage)),
    {
        if !self.stows(x, y, target, baggage) {
            let c = crate::policy::move_candidates(self.tile(x, y).variant);
            let ok = |j: int| self.can_take(x, y, c[j]);
            let d = |j: int| crate::policy::distance_after(x, y, c[j], target);
            assert(c[0] == Behaviour::Wait);
            lemma_first_min(ok, d, c.len() as int);
            let i = first_min(ok, d, c.len() as int);
            assert forall|j: int| 0 <= j < c.len() && self.can_take(x, y, #[trigger] c[j]) implies d(i) <= d(j) by {
                assert(ok(j));
            }
            assert forall|j: int| 0 <= j < i && self.can_take(x, y, #[trigger] c[j]) implies d(i) < d(j) by {
                assert(ok(j));
            }
            assert(self.first_best(x, y, target, i));
            assert(self.chosen_move(x, y, target, baggage, c[i]));
        } else {
            assert(self.chosen_move(x, y, target, baggage, Behaviour::Stow));
        }
    }
}

} // verus!
