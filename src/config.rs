//! Building aircraft and passenger lists from plain configuration values.

use vstd::prelude::*;
use rand::seq::SliceRandom;
use crate::aircraft::{same_text, variant_named, Aircraft};
use crate::error::SimError;
use crate::person::{Person, PersonView};
use crate::tile::{TileView, Variant};

verus! {

/// One row of a layout description: the variant of tile `(x, y)`.
#[derive(PartialEq, Eq, Structural, Debug, Clone, Copy)]
pub struct SeatData {
    pub x: u16,
    pub y: u16,
    pub variant: Variant,
}

impl SeatData {
    pub fn new(x: u16, y: u16, variant: &str) -> (r: SeatData)
        ensures
            r == (SeatData { x, y, variant: variant_or_blocked(variant@) }),
    {
        SeatData { x, y, variant: str_to_var(variant) }
    }

    pub fn get_x(&self) -> (r: u16)
        ensures
            r == self.x,
    {
        self.x
    }

    pub fn get_y(&self) -> (r: u16)
        ensures
            r == self.y,
    {
        self.y
    }

    pub fn get_variant(&self) -> (r: Variant)
        ensures
            r == self.variant,
    {
        self.variant
    }
}

/// The variant a layout name stands for; unknown names stand for a
/// blocked tile.
pub open spec fn variant_or_blocked(s: Seq<char>) -> Variant {
    match variant_named(s) {
        Some(v) => v,
        None => Variant::Blocked,
    }
}

/// The variant named by `var`: "aisle", "seat" or "entrance"; any other
/// name gives a blocked tile.
pub fn str_to_var(var: &str) -> (r: Variant)
    ensures
        r == variant_or_blocked(var@),
{
    proof {
        reveal_strlit("aisle");
        reveal_strlit("seat");
        reveal_strlit("entrance");
    }
    if same_text(var, "aisle") {
        Variant::Aisle
    } else if same_text(var, "seat") {
        Variant::Seat
    } else if same_text(var, "entrance") {
        Variant::Entrance
    } else {
        Variant::Blocked
    }
}

/// The largest `x` among the records, and likewise `y`.
pub open spec fn max_x(recs: Seq<SeatData>) -> nat
    decreases recs.len(),
{
    if recs.len() == 0 {
        0
    } else {
        let m = max_x(recs.drop_last());
        if recs.last().x > m {
            recs.last().x as nat
        } else {
            m
        }
    }
}

pub open spec fn max_y(recs: Seq<SeatData>) -> nat
    decreases recs.len(),
{
    if recs.len() == 0 {
        0
    } else {
        let m = max_y(recs.drop_last());
        if recs.last().y > m {
            recs.last().y as nat
        } else {
            m
        }
    }
}

/// The variant the records give tile `(x, y)`: that of the last record
/// naming it, or aisle when none does.
pub open spec fn layout_variant(recs: Seq<SeatData>, x: int, y: int) -> Variant
    decreases recs.len(),
{
    if recs.len() == 0 {
        Variant::Aisle
    } else if recs.last().x == x && recs.last().y == y {
        recs.last().variant
    } else {
        layout_variant(recs.drop_last(), x, y)
    }
}

/// The aircraft a layout description gives: just large enough to hold
/// every record's tile, aisle wherever no record says otherwise, and
/// nobody waiting. A coordinate of `u16::MAX` leaves no room for the size
/// and is a configuration error.
pub fn layout_from_records(recs: &Vec<SeatData>) -> (r: Result<Aircraft, SimError>)
    ensures
        r is Ok <==> max_x(recs@) < u16::MAX && max_y(recs@) < u16::MAX,
        r is Err ==> r == Err::<Aircraft, SimError>(SimError::Configuration),
        r matches Ok(a) ==> {
            &&& a@.wf()
            &&& a@.width == max_x(recs@) + 1
            &&& a@.height == max_y(recs@) + 1
            &&& a@.waiting.len() == 0
            &&& forall|i: int, j: int|
                a@.in_bounds(i, j) ==> #[trigger] a@.tile(i, j) == TileView::empty(
                    layout_variant(recs@, i, j),
                )
        },
{
    let mut size_x: u16 = 0;
    let mut size_y: u16 = 0;
    let mut k: usize = 0;
    while k < recs.len()
        invariant
            k <= recs@.len(),
            size_x == max_x(recs@.subrange(0, k as int)),
            size_y == max_y(recs@.subrange(0, k as int)),
        decreases recs@.len() - k,
    {
        assert(recs@.subrange(0, k + 1).drop_last() =~= recs@.subrange(0, k as int));
        if recs[k].x > size_x {
            size_x = recs[k].x;
        }
        if recs[k].y > size_y {
            size_y = recs[k].y;
        }
        k = k + 1;
    }
    assert(recs@.subrange(0, recs@.len() as int) =~= recs@);
    if size_x == u16::MAX || size_y == u16::MAX {
        return Err(SimError::Configuration);
    }
    let mut aircraft = Aircraft::new(size_x + 1, size_y + 1);
    let mut k: usize = 0;
    while k < recs.len()
        invariant
            k <= recs@.len(),
            aircraft@.wf(),
            aircraft@.width == size_x + 1,
            aircraft@.height == size_y + 1,
            size_x == max_x(recs@),
            size_y == max_y(recs@),
            aircraft@.waiting.len() == 0,
            aircraft@.ticks == 0,
            forall|i: int, j: int|
                aircraft@.in_bounds(i, j) ==> #[trigger] aircraft@.tile(i, j) == TileView::empty(
                    layout_variant(recs@.subrange(0, k as int), i, j),
                ),
        decreases recs@.len() - k,
    {
        let rec = recs[k];
        proof {
            lemma_record_within(recs@, k as int);
        }
        let ghost before = aircraft@;
        let _ = aircraft.set_tile(rec.x, rec.y, rec.variant);
        proof {
            before.lemma_with_tile(rec.x as int, rec.y as int, TileView::empty(rec.variant));
            assert(recs@.subrange(0, k + 1).drop_last() =~= recs@.subrange(0, k as int));
        }
        k = k + 1;
    }
    assert(recs@.subrange(0, recs@.len() as int) =~= recs@);
    Ok(aircraft)
}

/// Every record lies within the maxima.
proof fn lemma_record_within(recs: Seq<SeatData>, k: int)
    requires
        0 <= k < recs.len(),
    ensures
        recs[k].x <= max_x(recs),
        recs[k].y <= max_y(recs),
    decreases recs.len(),
{
    if k < recs.len() - 1 {
        lemma_record_within(recs.drop_last(), k);
    }
}

/// A passenger as a passenger list describes it: name, seat, and a
/// baggage flag written "0" or "1". Any other flag is a configuration
/// error.
pub fn passenger_from_record(name: &str, x: u16, y: u16, baggage: &str) -> (r: Result<
    Person,
    SimError,
>)
    ensures
        r is Ok <==> (baggage@ == "0"@ || baggage@ == "1"@),
        r is Err ==> r == Err::<Person, SimError>(SimError::Configuration),
        r matches Ok(p) ==> p@ == (PersonView {
            name: name@,
            seat: Some((x, y)),
            baggage: baggage@ == "1"@,
        }),
{
    proof {
        reveal_strlit("0");
        reveal_strlit("1");
        assert("0"@[0] != "1"@[0]);
    }
    let flag = if same_text(baggage, "0") {
        false
    } else if same_text(baggage, "1") {
        true
    } else {
        return Err(SimError::Configuration);
    };
    let mut p = Person::new(name);
    p.target_seat(x, y);
    p.set_baggage(flag);
    Ok(p)
}

/// Relies on rand's `SliceRandom::shuffle` with `thread_rng`: it only
/// swaps elements, so the result is a permutation of the input.
#[verifier::external_body]
fn shuffled(v: Vec<u16>) -> (r: Vec<u16>)
    ensures
        r@.to_multiset() == v@.to_multiset(),
        r@.len() == v@.len(),
{
    let mut v = v;
    v.shuffle(&mut rand::thread_rng());
    v
}

/// Dropping every copy of `a` from `s` leaves as many elements as `s` has
/// others.
proof fn lemma_filter_ne_len(s: Seq<u16>, a: u16)
    ensures
        s.filter(|x: u16| x != a).len() + s.to_multiset().count(a) == s.len(),
    decreases s.len(),
{
    reveal(Seq::filter);
    if s.len() > 0 {
        let init = s.drop_last();
        lemma_filter_ne_len(init, a);
        init.to_multiset_ensures();
        assert(init.push(s.last()) =~= s);
    } else {
        s.to_multiset_ensures();
    }
}

/// A sequence with an element at two places holds it at least twice.
proof fn lemma_repeat_counts_twice(s: Seq<u16>, i: int, j: int)
    requires
        0 <= i < j < s.len(),
        s[i] == s[j],
    ensures
        s.to_multiset().count(s[i]) >= 2,
{
    broadcast use vstd::multiset::group_multiset_axioms;

    s.to_multiset_ensures();
    let r = s.remove(j);
    r.to_multiset_ensures();
    assert(r[i] == s[i]);
    assert(r.contains(s[i]));
    assert(r.to_multiset() =~= s.to_multiset().remove(s[j]));
    assert(r.to_multiset().count(s[i]) > 0);
    assert(s.to_multiset().contains(s[i]));
}

/// No element of `s` appears twice.
pub open spec fn no_repeats(s: Seq<u16>) -> bool {
    forall|i: int, j: int| 0 <= i < j < s.len() ==> s[i] != s[j]
}

/// Dropping elements keeps a sequence free of repeats.
proof fn lemma_filter_no_dup(s: Seq<u16>, a: u16)
    requires
        no_repeats(s),
    ensures
        no_repeats(s.filter(|x: u16| x != a)),
    decreases s.len(),
{
    reveal(Seq::filter);
    if s.len() > 0 {
        let init = s.drop_last();
        lemma_filter_no_dup(init, a);
        let fi = init.filter(|x: u16| x != a);
        assert forall|k: int| 0 <= k < fi.len() implies fi[k] != s.last() by {
            assert(fi.contains(fi[k]));
            init.lemma_filter_contains_rev(|x: u16| x != a, fi[k]);
            let m = choose|m: int| 0 <= m < init.len() && init[m] == fi[k];
            assert(s[m] == init[m]);
        }
    }
}

/// Appends the passengers of row `y` to `out`: one for each column in `xs`
/// but the aisle column, in the order of `xs`, each carrying baggage.
pub fn append_row_passengers(aisle: u16, y: u16, xs: &Vec<u16>, out: &mut Vec<Person>)
    ensures
        final(out)@.len() == old(out)@.len() + xs@.filter(|x: u16| x != aisle).len(),
        forall|i: int| 0 <= i < old(out)@.len() ==> #[trigger] final(out)@[i] == old(out)@[i],
        forall|i: int|
            0 <= i < xs@.filter(|x: u16| x != aisle).len() ==> (#[trigger] final(out)@[old(
                out,
            )@.len() + i])@ == (PersonView {
                name: "DEFAULT"@,
                seat: Some((xs@.filter(|x: u16| x != aisle)[i], y)),
                baggage: true,
            }),
{
    let ghost start = out@;
    let mut k: usize = 0;
    while k < xs.len()
        invariant
            k <= xs@.len(),
            out@.len() == start.len() + xs@.subrange(0, k as int).filter(|x: u16| x != aisle).len(),
            forall|i: int| 0 <= i < start.len() ==> #[trigger] out@[i] == start[i],
            forall|i: int|
                0 <= i < xs@.subrange(0, k as int).filter(|x: u16| x != aisle).len() ==> (
                #[trigger] out@[start.len() + i])@ == (PersonView {
                    name: "DEFAULT"@,
                    seat: Some((xs@.subrange(0, k as int).filter(|x: u16| x != aisle)[i], y)),
                    baggage: true,
                }),
        decreases xs@.len() - k,
    {
        let ghost before = xs@.subrange(0, k as int);
        let ghost after = xs@.subrange(0, k + 1);
        proof {
            assert(after.drop_last() =~= before);
            reveal(Seq::filter);
        }
        let x = xs[k];
        if x != aisle {
            let mut p = Person::new("DEFAULT");
            p.target_seat(x, y);
            p.set_baggage(true);
            out.push(p);
        }
        k = k + 1;
    }
    assert(xs@.subrange(0, xs@.len() as int) =~= xs@);
}

/// What every passenger of a back-first boarding order for a `size_x` by
/// `size_y` cabin looks like: it carries baggage and has a seat off the
/// middle (aisle) column.
pub open spec fn back_first_passenger(p: PersonView, size_x: u16, size_y: u16) -> bool {
    &&& p.name == "DEFAULT"@
    &&& p.baggage
    &&& p.seat matches Some(s) && s.0 < size_x && s.1 < size_y && s.0 != size_x / 2
}

/// A boarding order for a `size_x` by `size_y` cabin with its aisle in the
/// middle column: rows in increasing `y`, each row's seats in random order,
/// everyone carrying baggage. Passengers board in the order added, so row 0
/// boards first.
/// No seat appears twice and, by the count, every seat off the aisle of
/// every row appears once.
pub fn random_back_first(size_x: u16, size_y: u16) -> (r: Result<Vec<Person>, &'static str>)
    ensures
        r matches Ok(v) && {
            &&& forall|i: int|
                0 <= i < v@.len() ==> back_first_passenger((#[trigger] v@[i])@, size_x, size_y)
            &&& v@.len() == size_y * (if size_x > 0 {
                size_x - 1
            } else {
                0
            })
            &&& forall|i: int, j: int|
                0 <= i <= j < v@.len() ==> ((#[trigger] v@[i])@.seat->0).1 <= ((#[trigger] v@[j])@.seat->0).1
            &&& forall|i: int, j: int|
                0 <= i < j < v@.len() ==> (#[trigger] v@[i])@.seat != (#[trigger] v@[j])@.seat
        },
{
    let aisle: u16 = size_x / 2;
    let mut persons: Vec<Person> = Vec::new();
    let mut y: u16 = 0;
    while y < size_y
        invariant
            y <= size_y,
            aisle == size_x / 2,
            persons@.len() == y * (if size_x > 0 {
                size_x - 1
            } else {
                0
            }),
            forall|i: int|
                0 <= i < persons@.len() ==> back_first_passenger(
                    (#[trigger] persons@[i])@,
                    size_x,
                    size_y,
                ),
            forall|i: int| 0 <= i < persons@.len() ==> ((#[trigger] persons@[i])@.seat->0).1 < y,
            forall|i: int, j: int|
                0 <= i <= j < persons@.len() ==> ((#[trigger] persons@[i])@.seat->0).1 <= ((#[trigger] persons@[j])@.seat->0).1,
            forall|i: int, j: int|
                0 <= i < j < persons@.len() ==> (#[trigger] persons@[i])@.seat != (
                #[trigger] persons@[j])@.seat,
        decreases size_y - y,
    {
        let mut xs: Vec<u16> = Vec::new();
        proof {
            xs@.to_multiset_ensures();
            assert forall|e: u16| #[trigger] xs@.to_multiset().count(e) == 0nat by {
                assert(!xs@.contains(e));
            }
        }
        let mut x: u16 = 0;
        while x < size_x
            invariant
                x <= size_x,
                aisle == size_x / 2,
                xs@.len() == x,
                forall|i: int| 0 <= i < xs@.len() ==> #[trigger] xs@[i] < size_x,
                forall|e: u16| #[trigger] xs@.to_multiset().count(e) == if e < x {
                    1nat
                } else {
                    0nat
                },
            decreases size_x - x,
        {
            proof {
                broadcast use vstd::multiset::group_multiset_axioms;

                xs@.to_multiset_ensures();
            }
            xs.push(x);
            x = x + 1;
        }
        let ghost ordered = xs@;
        let order = shuffled(xs);
        let ghost before = persons@;
        append_row_passengers(aisle, y, &order, &mut persons);
        proof {
            assert forall|i: int, j: int| 0 <= i < j < order@.len() implies order@[i] != order@[j] by {
                if order@[i] == order@[j] {
                    lemma_repeat_counts_twice(order@, i, j);
                }
            }
            lemma_filter_no_dup(order@, aisle);
            lemma_filter_ne_len(order@, aisle);
            let row = if size_x > 0 {
                size_x - 1
            } else {
                0
            };
            assert(persons@.len() == y * row + row);
            assert(y * row + row == (y + 1) * row) by (nonlinear_arith);
            let f = order@.filter(|x: u16| x != aisle);
            assert forall|i: int| 0 <= i < persons@.len() implies back_first_passenger(
                (#[trigger] persons@[i])@,
                size_x,
                size_y,
            ) by {
                if i < before.len() {
                    assert(persons@[i] == before[i]);
                } else {
                    let k = i - before.len();
                    let e = f[k];
                    order@.lemma_filter_pred(|x: u16| x != aisle, k);
                    assert(f.contains(e));
                    order@.lemma_filter_contains_rev(|x: u16| x != aisle, e);
                    order@.to_multiset_ensures();
                    ordered.to_multiset_ensures();
                    assert(order@.to_multiset().count(e) > 0);
                    assert(ordered.to_multiset().count(e) > 0);
                    assert(ordered.contains(e));
                    assert(e < size_x);
                    assert(persons@[before.len() + k]@.seat == Some((e, y)));
                }
            }
            assert forall|i: int| 0 <= i < persons@.len() implies ((#[trigger] persons@[i])@.seat->0).1
                == if i < before.len() {
                ((before[i])@.seat->0).1
            } else {
                y
            } by {
                if i < before.len() {
                    assert(persons@[i] == before[i]);
                } else {
                    assert(persons@[before.len() + (i - before.len())] == persons@[i]);
                }
            }
            assert forall|i: int, j: int| 0 <= i < j < persons@.len() implies (
            #[trigger] persons@[i])@.seat != (#[trigger] persons@[j])@.seat by {
                if j < before.len() {
                    assert(persons@[i] == before[i]);
                    assert(persons@[j] == before[j]);
                } else if i < before.len() {
                    assert(persons@[i] == before[i]);
                } else {
                    let ki = i - before.len();
                    let kj = j - before.len();
                    assert(persons@[before.len() + ki] == persons@[i]);
                    assert(persons@[before.len() + kj] == persons@[j]);
                    assert(f[ki] != f[kj]);
                }
            }
            assert forall|i: int, j: int| 0 <= i <= j < persons@.len() implies ((
            #[trigger] persons@[i])@.seat->0).1 <= ((#[trigger] persons@[j])@.seat->0).1 by {
                if j < before.len() {
                    assert(persons@[i] == before[i]);
                    assert(persons@[j] == before[j]);
                } else if i < before.len() {
                    assert(persons@[i] == before[i]);
                }
            }
        }
        y = y + 1;
    }
    Ok(persons)
}

} // verus!
