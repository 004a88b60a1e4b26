//! The aircraft grid: layout, waiting passengers, and their bookkeeping.

use vstd::prelude::*;
use crate::error::SimError;
use crate::person::{Person, PersonView};
use crate::tile::{Tile, TileView, Variant};

verus! {

/// The aircraft as a mathematical value.
pub struct AircraftView {
    pub width: nat,
    pub height: nat,
    /// `grid[x][y]` is the tile at coordinate `(x, y)`.
    pub grid: Seq<Seq<TileView>>,
    /// Passengers not yet on board, in boarding order: the first boards
    /// next.
    pub waiting: Seq<PersonView>,
    /// Ticks run so far.
    pub ticks: nat,
}

/// Number of passengers standing in one column of tiles.
pub open spec fn column_population(col: Seq<TileView>) -> nat
    decreases col.len(),
{
    if col.len() == 0 {
        0
    } else {
        column_population(col.drop_last()) + col.last().population()
    }
}

/// Number of passengers standing anywhere on a grid.
pub open spec fn grid_population(g: Seq<Seq<TileView>>) -> nat
    decreases g.len(),
{
    if g.len() == 0 {
        0
    } else {
        grid_population(g.drop_last()) + column_population(g.last())
    }
}

impl AircraftView {
    pub open spec fn in_bounds(self, x: int, y: int) -> bool {
        0 <= x < self.width && 0 <= y < self.height
    }

    pub open spec fn tile(self, x: int, y: int) -> TileView {
        self.grid[x][y]
    }

    /// The grid has the declared dimensions and no tile holds a passer
    /// without a primary occupant.
    pub open spec fn wf(self) -> bool {
        &&& self.grid.len() == self.width
        &&& forall|x: int| 0 <= x < self.width ==> #[trigger] self.grid[x].len() == self.height
        &&& forall|x: int, y: int| self.in_bounds(x, y) ==> (#[trigger] self.tile(x, y)).wf()
    }

    /// Every passenger added so far: those waiting and those on the grid.
    pub open spec fn population(self) -> nat {
        self.waiting.len() + grid_population(self.grid)
    }

    /// Same dimensions and the same variant on every tile.
    pub open spec fn same_layout(self, other: AircraftView) -> bool {
        &&& self.width == other.width
        &&& self.height == other.height
        &&& forall|x: int, y: int|
            self.in_bounds(x, y) ==> (#[trigger] self.tile(x, y)).variant == other.tile(x, y).variant
    }

    /// Tile `(x, y)` can be reconfigured: no tick has run yet, the tile lies
    /// on the grid and nobody stands on it.
    pub open spec fn configurable(self, x: int, y: int) -> bool {
        self.ticks == 0 && self.in_bounds(x, y) && self.tile(x, y).population() == 0
    }

    /// A passenger can be added: its seat, if any, lies on the grid.
    pub open spec fn admits(self, p: PersonView) -> bool {
        p.seat matches Some(s) ==> self.in_bounds(s.0 as int, s.1 as int)
    }

    /// Well-formedness depends on the grid alone.
    pub proof fn lemma_wf_grid(self, other: AircraftView)
        requires
            self.wf(),
            self.grid == other.grid,
            self.width == other.width,
            self.height == other.height,
        ensures
            other.wf(),
            other.same_layout(self),
            self.waiting == other.waiting ==> other.population() == self.population(),
    {
        assert forall|i: int, j: int| other.in_bounds(i, j) implies (#[trigger] other.tile(
            i,
            j,
        )).wf() by {
            assert(self.tile(i, j).wf());
        }
        assert forall|i: int| 0 <= i < other.width implies #[trigger] other.grid[i].len()
            == other.height by {
            assert(self.grid[i].len() == self.height);
        }
    }

    /// Setting a tile twice keeps only the second value.
    pub proof fn lemma_set_twice(self, x: int, y: int, t1: TileView, t2: TileView)
        requires
            self.wf(),
            self.in_bounds(x, y),
        ensures
            self.with_tile(x, y, t1).with_tile(x, y, t2) == self.with_tile(x, y, t2),
    {
        let a = self.with_tile(x, y, t1).with_tile(x, y, t2);
        let b = self.with_tile(x, y, t2);
        assert(a.grid[x] =~= b.grid[x]);
        assert(a.grid =~= b.grid);
    }

    /// Between ticks: no tile is marked as reached this tick.
    pub open spec fn at_rest(self) -> bool {
        forall|x: int, y: int| self.in_bounds(x, y) ==> !(#[trigger] self.tile(x, y)).updated
    }

    /// Every passenger with an assigned seat sits on it as primary occupant.
    pub open spec fn complete(self) -> bool {
        &&& forall|k: int| 0 <= k < self.waiting.len() ==> (#[trigger] self.waiting[k]).seat is None
        &&& forall|x: int, y: int| self.in_bounds(x, y) ==> #[trigger] self.tile(x, y).seated(x, y)
    }
}

proof fn lemma_column_update(col: Seq<TileView>, i: int, t: TileView)
    requires
        0 <= i < col.len(),
    ensures
        column_population(col.update(i, t)) + col[i].population() == column_population(col)
            + t.population(),
    decreases col.len(),
{
    if i == col.len() - 1 {
        assert(col.update(i, t).drop_last() =~= col.drop_last());
    } else {
        lemma_column_update(col.drop_last(), i, t);
        assert(col.update(i, t).drop_last() =~= col.drop_last().update(i, t));
    }
}

proof fn lemma_grid_update(g: Seq<Seq<TileView>>, x: int, c: Seq<TileView>)
    requires
        0 <= x < g.len(),
    ensures
        grid_population(g.update(x, c)) + column_population(g[x]) == grid_population(g)
            + column_population(c),
    decreases g.len(),
{
    if x == g.len() - 1 {
        assert(g.update(x, c).drop_last() =~= g.drop_last());
    } else {
        lemma_grid_update(g.drop_last(), x, c);
        assert(g.update(x, c).drop_last() =~= g.drop_last().update(x, c));
    }
}

/// Replacing one tile changes the grid's population by the difference
/// between the new tile and the old one.
proof fn lemma_set_population(g: Seq<Seq<TileView>>, x: int, y: int, t: TileView)
    requires
        0 <= x < g.len(),
        0 <= y < g[x].len(),
    ensures
        grid_population(g.update(x, g[x].update(y, t))) + g[x][y].population()
            == grid_population(g) + t.population(),
{
    lemma_column_update(g[x], y, t);
    lemma_grid_update(g, x, g[x].update(y, t));
}

impl AircraftView {
    /// This aircraft with tile `(x, y)` replaced by `t`.
    pub open spec fn with_tile(self, x: int, y: int, t: TileView) -> AircraftView {
        AircraftView { grid: self.grid.update(x, self.grid[x].update(y, t)), ..self }
    }

    /// What replacing one tile does to the grid, its well-formedness, its
    /// population and its layout.
    pub proof fn lemma_with_tile(self, x: int, y: int, t: TileView)
        requires
            self.wf(),
            self.in_bounds(x, y),
        ensures
            forall|i: int, j: int|
                self.in_bounds(i, j) ==> #[trigger] self.with_tile(x, y, t).tile(i, j) == if i == x
                    && j == y {
                    t
                } else {
                    self.tile(i, j)
                },
            t.wf() ==> self.with_tile(x, y, t).wf(),
            self.with_tile(x, y, t).population() + self.tile(x, y).population()
                == self.population() + t.population(),
            t.variant == self.tile(x, y).variant ==> self.with_tile(x, y, t).same_layout(self),
    {
        lemma_set_population(self.grid, x, y, t);
        let w = self.with_tile(x, y, t);
        assert forall|i: int| 0 <= i < w.width implies #[trigger] w.grid[i].len() == w.height by {
            if i == x {
            } else {
            }
        }
        if t.wf() {
            assert forall|i: int, j: int| w.in_bounds(i, j) implies (#[trigger] w.tile(i, j)).wf() by {
                assert(self.in_bounds(i, j));
                if i == x && j == y {
                    assert(w.tile(i, j) == t);
                } else {
                    assert(w.tile(i, j) == self.tile(i, j));
                }
            }
        }
    }
}

/// The variant that a layout name stands for, if any.
pub open spec fn variant_named(s: Seq<char>) -> Option<Variant> {
    if s == "aisle"@ {
        Some(Variant::Aisle)
    } else if s == "seat"@ {
        Some(Variant::Seat)
    } else if s == "entrance"@ {
        Some(Variant::Entrance)
    } else {
        None
    }
}

/// Whether two strings hold the same characters.
pub fn same_text(a: &str, b: &str) -> (r: bool)
    ensures
        r == (a@ == b@),
{
    let a = a.to_owned();
    let b = b.to_owned();
    a == b
}

/// An aircraft cabin: a `width` by `height` grid of tiles and the queue of
/// passengers waiting to board.
pub struct Aircraft {
    size: (u16, u16),
    layout: Vec<Vec<Tile>>,
    passengers: Vec<Person>,
    ticks: u64,
}

/// The view of a column of tiles.
pub open spec fn column_view(col: Vec<Tile>) -> Seq<TileView> {
    col@.map_values(|t: Tile| t@)
}

impl View for Aircraft {
    type V = AircraftView;

    closed spec fn view(&self) -> AircraftView {
        AircraftView {
            width: self.size.0 as nat,
            height: self.size.1 as nat,
            grid: self.layout@.map_values(|c: Vec<Tile>| column_view(c)),
            waiting: self.passengers@.map_values(|p: Person| p@),
            ticks: self.ticks as nat,
        }
    }
}

impl Aircraft {
    /// An `x` by `y` aircraft of aisle tiles with nobody waiting.
    pub fn new(x: u16, y: u16) -> (r: Aircraft)
        ensures
            r@.wf(),
            r@.width == x,
            r@.height == y,
            r@.waiting.len() == 0,
            r@.ticks == 0,
            forall|i: int, j: int|
                r@.in_bounds(i, j) ==> #[trigger] r@.tile(i, j) == TileView::empty(Variant::Aisle),
    {
        let mut aircraft = Aircraft {
            size: (x, y),
            layout: Vec::new(),
            passengers: Vec::new(),
            ticks: 0,
        };
        aircraft.clear();
        aircraft
    }

    /// Replaces the layout with empty aisle tiles of the current size.
    fn clear(&mut self)
        ensures
            final(self)@.wf(),
            final(self)@.width == old(self)@.width,
            final(self)@.height == old(self)@.height,
            final(self)@.waiting == old(self)@.waiting,
            final(self)@.ticks == old(self)@.ticks,
            forall|i: int, j: int|
                final(self)@.in_bounds(i, j) ==> #[trigger] final(self)@.tile(i, j)
                    == TileView::empty(Variant::Aisle),
    {
        let mut layout: Vec<Vec<Tile>> = Vec::new();
        let mut i: u16 = 0;
        while i < self.size.0
            invariant
                i <= self.size.0,
                layout@.len() == i,
                forall|a: int| 0 <= a < i ==> (#[trigger] layout@[a])@.len() == self.size.1,
                forall|a: int, b: int|
                    0 <= a < i && 0 <= b < self.size.1 ==> (#[trigger] layout@[a]@[b])@
                        == TileView::empty(Variant::Aisle),
            decreases self.size.0 - i,
        {
            let mut column: Vec<Tile> = Vec::new();
            let mut j: u16 = 0;
            while j < self.size.1
                invariant
                    j <= self.size.1,
                    column@.len() == j,
                    forall|b: int| 0 <= b < j ==> (#[trigger] column@[b])@ == TileView::empty(
                        Variant::Aisle,
                    ),
                decreases self.size.1 - j,
            {
                column.push(Tile::aisle());
                j = j + 1;
            }
            layout.push(column);
            i = i + 1;
        }
        self.layout = layout;
    }

    /// Tile `(x, y)` of the view is the view of the stored tile.
    proof fn lemma_tile_view(&self, x: int, y: int)
        requires
            self@.wf(),
            self@.in_bounds(x, y),
        ensures
            x < self.layout@.len(),
            y < self.layout@[x]@.len(),
            self.layout@[x]@[y]@ == self@.tile(x, y),
    {
        assert(self@.grid[x] == column_view(self.layout@[x]));
    }

    /// Puts `t` at `(x, y)` and returns the tile that stood there.
    fn swap_tile(&mut self, x: usize, y: usize, t: Tile) -> (r: Tile)
        requires
            old(self)@.wf(),
            old(self)@.in_bounds(x as int, y as int),
        ensures
            r@ == old(self)@.tile(x as int, y as int),
            final(self)@ == old(self)@.with_tile(x as int, y as int, t@),
    {
        let mut t = t;
        proof {
            self.lemma_tile_view(x as int, y as int);
        }
        std::mem::swap(&mut self.layout[x][y], &mut t);
        proof {
            let v = self@;
            let o = old(self)@;
            assert(v.grid[x as int] =~= o.grid[x as int].update(y as int, self.layout@[x as int]@[y as int]@));
            assert(v.grid =~= o.grid.update(x as int, o.grid[x as int].update(y as int, self.layout@[x as int]@[y as int]@)));
        }
        t
    }

    /// The aircraft's dimensions.
    pub fn get_size(&self) -> (r: (u16, u16))
        ensures
            r.0 == self@.width,
            r.1 == self@.height,
    {
        self.size
    }

    /// Number of passengers still waiting to board.
    pub fn waiting_count(&self) -> (r: usize)
        ensures
            r == self@.waiting.len(),
    {
        self.passengers.len()
    }

    pub fn get_tile_variant(&self, x: u16, y: u16) -> (r: Variant)
        requires
            self@.wf(),
            self@.in_bounds(x as int, y as int),
        ensures
            r == self@.tile(x as int, y as int).variant,
    {
        proof {
            self.lemma_tile_view(x as int, y as int);
        }
        self.layout[x as usize][y as usize].get_variant()
    }

    /// Whether tile `(x, y)` has a primary occupant.
    pub fn check_if_occupied(&self, x: u16, y: u16) -> (r: bool)
        requires
            self@.wf(),
            self@.in_bounds(x as int, y as int),
        ensures
            r == self@.tile(x as int, y as int).occupier is Some,
    {
        proof {
            self.lemma_tile_view(x as int, y as int);
        }
        self.layout[x as usize][y as usize].is_occupied()
    }

    /// Whether a passer is squeezing past on tile `(x, y)`.
    pub fn check_if_allowing(&self, x: u16, y: u16) -> (r: bool)
        requires
            self@.wf(),
            self@.in_bounds(x as int, y as int),
        ensures
            r == self@.tile(x as int, y as int).passer is Some,
    {
        proof {
            self.lemma_tile_view(x as int, y as int);
        }
        self.layout[x as usize][y as usize].is_allowing()
    }

    /// Sets the variant of tile `(x, y)`. Layouts are configured before a
    /// run: no tick may have run yet, and the tile must lie on the grid and
    /// be empty.
    pub fn set_tile(&mut self, x: u16, y: u16, var: Variant) -> (r: Result<(), SimError>)
        requires
            old(self)@.wf(),
        ensures
            final(self)@.wf(),
            r is Ok <==> old(self)@.configurable(x as int, y as int),
            r is Err ==> r == Err::<(), SimError>(SimError::Configuration) && final(self)@ == old(
                self,
            )@,
            r is Ok ==> final(self)@ == old(self)@.with_tile(
                x as int,
                y as int,
                TileView::empty(var),
            ),
    {
        if self.ticks != 0 || x >= self.size.0 || y >= self.size.1 {
            return Err(SimError::Configuration);
        }
        proof {
            self.lemma_tile_view(x as int, y as int);
        }
        let t = &self.layout[x as usize][y as usize];
        if t.is_occupied() || t.is_allowing() {
            return Err(SimError::Configuration);
        }
        let _ = self.swap_tile(x as usize, y as usize, Tile::of_variant(var));
        proof {
            old(self)@.lemma_with_tile(x as int, y as int, TileView::empty(var));
        }
        Ok(())
    }

    /// Sets tile `(x, y)` to the variant named `var` ("aisle", "seat" or
    /// "entrance"). Any other name, or a tile that `set_tile` refuses, is a
    /// configuration error and leaves the aircraft unchanged.
    pub fn str_set_tile(&mut self, x: u16, y: u16, var: &str) -> (r: Result<(), SimError>)
        requires
            old(self)@.wf(),
        ensures
            final(self)@.wf(),
            r is Ok <==> variant_named(var@) is Some && old(self)@.configurable(x as int, y as int),
            r is Err ==> r == Err::<(), SimError>(SimError::Configuration) && final(self)@ == old(
                self,
            )@,
            r is Ok ==> final(self)@ == old(self)@.with_tile(
                x as int,
                y as int,
                TileView::empty(variant_named(var@)->0),
            ),
    {
        proof {
            reveal_strlit("aisle");
            reveal_strlit("seat");
            reveal_strlit("entrance");
        }
        if same_text(var, "aisle") {
            self.set_tile(x, y, Variant::Aisle)
        } else if same_text(var, "seat") {
            self.set_tile(x, y, Variant::Seat)
        } else if same_text(var, "entrance") {
            self.set_tile(x, y, Variant::Entrance)
        } else {
            Err(SimError::Configuration)
        }
    }

    /// Adds a passenger to the back of the waiting queue; passengers board in
    /// the order they were added. A seat off the grid is a configuration error and
    /// leaves the aircraft unchanged.
    pub fn add_passenger(&mut self, p: Person) -> (r: Result<(), SimError>)
        requires
            old(self)@.wf(),
        ensures
            final(self)@.wf(),
            r is Ok <==> old(self)@.admits(p@),
            r is Err ==> r == Err::<(), SimError>(SimError::Configuration) && final(self)@ == old(
                self,
            )@,
            r is Ok ==> final(self)@ == (AircraftView {
                waiting: old(self)@.waiting.push(p@),
                ..old(self)@
            }),
    {
        match p.get_seat() {
            Some(s) => {
                if s.0 >= self.size.0 || s.1 >= self.size.1 {
                    return Err(SimError::Configuration);
                }
            },
            None => {},
        }
        self.passengers.push(p);
        proof {
            assert(self@.waiting =~= old(self)@.waiting.push(p@));
            assert(self@.grid == old(self)@.grid);
            old(self)@.lemma_wf_grid(self@);
        }
        Ok(())
    }

    /// Whether every passenger with an assigned seat sits on it as primary
    /// occupant.
    pub fn is_complete(&self) -> (r: bool)
        requires
            self@.wf(),
        ensures
            r == self@.complete(),
    {
        let mut k: usize = 0;
        while k < self.passengers.len()
            invariant
                self@.wf(),
                k <= self@.waiting.len(),
                forall|i: int| 0 <= i < k ==> (#[trigger] self@.waiting[i]).seat is None,
            decreases self@.waiting.len() - k,
        {
            if self.passengers[k].get_seat().is_some() {
                assert(self@.waiting[k as int] == self.passengers@[k as int]@);
                return false;
            }
            assert(self@.waiting[k as int] == self.passengers@[k as int]@);
            k = k + 1;
        }
        let mut x: u16 = 0;
        while x < self.size.0
            invariant
                self@.wf(),
                x <= self@.width,
                forall|k: int| 0 <= k < self@.waiting.len() ==> (#[trigger] self@.waiting[k]).seat is None,
                forall|i: int, j: int|
                    0 <= i < x && 0 <= j < self@.height ==> #[trigger] self@.tile(i, j).seated(i, j),
            decreases self@.width - x,
        {
            let mut y: u16 = 0;
            while y < self.size.1
                invariant
                    self@.wf(),
                    x < self@.width,
                    y <= self@.height,
                    forall|k: int| 0 <= k < self@.waiting.len() ==> (#[trigger] self@.waiting[k]).seat is None,
                    forall|i: int, j: int|
                        0 <= i < x && 0 <= j < self@.height ==> #[trigger] self@.tile(i, j).seated(i, j),
                    forall|j: int| 0 <= j < y ==> #[trigger] self@.tile(x as int, j).seated(x as int, j),
                decreases self@.height - y,
            {
                proof {
                    self.lemma_tile_view(x as int, y as int);
                }
                let t = &self.layout[x as usize][y as usize];
                match t.get_passer() {
                    Some(p) => {
                        if p.get_seat().is_some() {
                            assert(!self@.tile(x as int, y as int).seated(x as int, y as int));
                            return false;
                        }
                    },
                    None => {},
                }
                match t.get_occupier() {
                    Some(p) => {
                        match p.get_seat() {
                            Some(s) => {
                                if s.0 != x || s.1 != y {
                                    assert(!self@.tile(x as int, y as int).seated(x as int, y as int));
                                    return false;
                                }
                            },
                            None => {},
                        }
                    },
                    None => {},
                }
                y = y + 1;
            }
            x = x + 1;
        }
        true
    }

    /// Clears every tile's `updated` flag, ready for the next tick.
    pub fn reset(&mut self)
        requires
            old(self)@.wf(),
        ensures
            final(self)@.wf(),
            final(self)@.same_layout(old(self)@),
            final(self)@.waiting == old(self)@.waiting,
            final(self)@.population() == old(self)@.population(),
            forall|i: int, j: int|
                old(self)@.in_bounds(i, j) ==> #[trigger] final(self)@.tile(i, j) == (TileView {
                    updated: false,
                    ..old(self)@.tile(i, j)
                }),
            final(self)@ == old(self)@.rested(),
    {
        let ghost start = self@;
        let mut x: u16 = 0;
        while x < self.size.0
            invariant
                self@.wf(),
                self@.same_layout(start),
                self@.waiting == start.waiting,
                self@.ticks == start.ticks,
                self@.population() == start.population(),
                x <= self@.width,
                forall|i: int, j: int|
                    start.in_bounds(i, j) ==> #[trigger] self@.tile(i, j) == if i < x {
                        TileView { updated: false, ..start.tile(i, j) }
                    } else {
                        start.tile(i, j)
                    },
            decreases self@.width - x,
        {
            let mut y: u16 = 0;
            while y < self.size.1
                invariant
                    self@.wf(),
                    self@.same_layout(start),
                    self@.waiting == start.waiting,
                    self@.ticks == start.ticks,
                    self@.population() == start.population(),
                    x < self@.width,
                    y <= self@.height,
                    forall|i: int, j: int|
                        start.in_bounds(i, j) ==> #[trigger] self@.tile(i, j) == if i < x || (i == x
                            && j < y) {
                            TileView { updated: false, ..start.tile(i, j) }
                        } else {
                            start.tile(i, j)
                        },
                decreases self@.height - y,
            {
                let ghost before = self@;
                let mut t = self.swap_tile(x as usize, y as usize, Tile::aisle());
                t.set_updated(false);
                proof {
                    before.lemma_with_tile(x as int, y as int, TileView::empty(Variant::Aisle));
                    before.lemma_set_twice(x as int, y as int, TileView::empty(Variant::Aisle), t@);
                    before.lemma_with_tile(x as int, y as int, t@);
                }
                let _ = self.swap_tile(x as usize, y as usize, t);
                y = y + 1;
            }
            x = x + 1;
        }
        proof {
            let r = start.rested();
            start.lemma_rested();
            assert forall|i: int| 0 <= i < r.grid.len() implies #[trigger] self@.grid[i] =~= r.grid[i] by {
                assert forall|j: int| 0 <= j < r.grid[i].len() implies #[trigger] self@.grid[i][j] == r.grid[i][j] by {
                    assert(self@.tile(i, j) == r.tile(i, j));
                }
            }
            assert(self@.grid =~= r.grid);
        }
    }

    /// The tile at `(x, y)`.
    pub fn tile_at(&self, x: u16, y: u16) -> (r: &Tile)
        requires
            self@.wf(),
            self@.in_bounds(x as int, y as int),
        ensures
            r@ == self@.tile(x as int, y as int),
    {
        proof {
            self.lemma_tile_view(x as int, y as int);
        }
        &self.layout[x as usize][y as usize]
    }

    /// Takes the tile at `(x, y)` out of the grid, leaving an empty tile of
    /// the same variant in its place.
    pub(crate) fn take_tile(&mut self, x: u16, y: u16) -> (t: Tile)
        requires
            old(self)@.wf(),
            old(self)@.in_bounds(x as int, y as int),
        ensures
            t@ == old(self)@.tile(x as int, y as int),
            final(self)@ == old(self)@.with_tile(
                x as int,
                y as int,
                TileView::empty(old(self)@.tile(x as int, y as int).variant),
            ),
            final(self)@.wf(),
    {
        let v = self.tile_at(x, y).get_variant();
        let t = self.swap_tile(x as usize, y as usize, Tile::of_variant(v));
        proof {
            old(self)@.lemma_with_tile(x as int, y as int, TileView::empty(v));
        }
        t
    }

    /// Puts `t` at `(x, y)`.
    pub(crate) fn put_tile(&mut self, x: u16, y: u16, t: Tile)
        requires
            old(self)@.wf(),
            old(self)@.in_bounds(x as int, y as int),
        ensures
            final(self)@ == old(self)@.with_tile(x as int, y as int, t@),
    {
        let _ = self.swap_tile(x as usize, y as usize, t);
    }

    /// The passenger at the front of the queue steps onto the empty tile
    /// `(x, y)`.
    pub(crate) fn board_next(&mut self, x: u16, y: u16)
        requires
            old(self)@.wf(),
            old(self)@.in_bounds(x as int, y as int),
            old(self)@.waiting.len() > 0,
            old(self)@.tile(x as int, y as int).occupier is None,
        ensures
            final(self)@ == (AircraftView {
                waiting: old(self)@.waiting.drop_first(),
                ..old(self)@.with_tile(
                    x as int,
                    y as int,
                    TileView {
                        occupier: Some(old(self)@.waiting.first()),
                        updated: true,
                        ..old(self)@.tile(x as int, y as int)
                    },
                )
            }),
            final(self)@.wf(),
            final(self)@.same_layout(old(self)@),
            final(self)@.population() == old(self)@.population(),
    {
        let ghost s0 = self@;
        let p = self.passengers.remove(0);
        proof {
            assert(self@.waiting =~= s0.waiting.drop_first());
            assert(self@.grid == s0.grid);
            assert(p@ == s0.waiting.first());
            s0.lemma_wf_grid(self@);
        }
        let mut t = self.take_tile(x, y);
        let _ = t.occupy(p);
        self.put_tile(x, y, t);
        proof {
            s0.lemma_set_twice(x as int, y as int, TileView::empty(s0.tile(x as int, y as int).variant), t@);
            s0.lemma_with_tile(x as int, y as int, t@);
            let s1 = s0.with_tile(x as int, y as int, t@);
            s1.lemma_wf_grid(self@);
        }
    }

    /// The waiting passenger at position `i` of the queue, if there is one.
    pub fn get_waiting(&self, i: usize) -> (r: Option<&Person>)
        ensures
            r is Some <==> i < self@.waiting.len(),
            r matches Some(p) ==> p@ == self@.waiting[i as int],
    {
        if i < self.passengers.len() {
            Some(&self.passengers[i])
        } else {
            None
        }
    }

    /// Ticks run so far.
    pub fn get_ticks(&self) -> (r: u64)
        ensures
            r == self@.ticks,
    {
        self.ticks
    }

    /// Counts one more tick; the count stops at `u64::MAX`.
    pub(crate) fn count_tick(&mut self)
        ensures
            final(self)@ == (AircraftView {
                ticks: if old(self)@.ticks < u64::MAX {
                    old(self)@.ticks + 1
                } else {
                    old(self)@.ticks
                },
                ..old(self)@
            }),
    {
        if self.ticks < u64::MAX {
            self.ticks = self.ticks + 1;
        }
    }
}

} // verus!
