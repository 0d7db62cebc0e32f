//! Walks across a grid and what they cost.
//!
//! A walk goes from cell to cell, each next to the one before. It pays for
//! every cell that it enters, so the cell it starts in is free.

use crate::hexpath::grid::Grid;
use vstd::arithmetic::div_mod::{lemma_fundamental_div_mod, lemma_fundamental_div_mod_converse};
use vstd::prelude::*;

verus! {

/// Whether the cell `p` lies in `grid`.
pub open spec fn inside(grid: Grid, p: (usize, usize)) -> bool {
    p.0 < grid.w && p.1 < grid.h
}

/// Whether `a` and `b` are neighbours: one step apart in a row or in a column.
pub open spec fn next_to(a: (usize, usize), b: (usize, usize)) -> bool {
    ||| a.0 == b.0 && (a.1 + 1 == b.1 || b.1 + 1 == a.1)
    ||| a.1 == b.1 && (a.0 + 1 == b.0 || b.0 + 1 == a.0)
}

/// The place of cell `p` in the row-by-row order of a grid `w` wide.
pub open spec fn place(w: usize, p: (usize, usize)) -> int {
    p.1 * w + p.0
}

/// The cell at place `i` in a grid `w` wide.
pub open spec fn cell_at(w: usize, i: int) -> (usize, usize) {
    ((i % (w as int)) as usize, (i / (w as int)) as usize)
}

/// Whether `path` is a walk in `grid`: it has a cell, all its cells lie in
/// the grid, and each is next to the one before.
pub open spec fn is_walk(grid: Grid, path: Seq<(usize, usize)>) -> bool {
    &&& path.len() > 0
    &&& forall|i: int| 0 <= i < path.len() ==> inside(grid, #[trigger] path[i])
    &&& forall|i: int| 0 < i < path.len() ==> next_to(path[i - 1], #[trigger] path[i])
}

/// What a walk costs: the values of all its cells but the first. A cell
/// for which the grid stores nothing costs nothing.
pub open spec fn walk_cost(grid: Grid, path: Seq<(usize, usize)>) -> nat
    decreases path.len(),
{
    if path.len() <= 1 {
        0
    } else {
        walk_cost(grid, path.drop_last()) + grid.value_at(place(grid.w, path.last())) as nat
    }
}

/// Whether `path` is a walk from the top-left cell to the bottom-right one.
pub open spec fn crosses(grid: Grid, path: Seq<(usize, usize)>) -> bool {
    &&& is_walk(grid, path)
    &&& path[0] == (0usize, 0usize)
    &&& path.last() == ((grid.w - 1) as usize, (grid.h - 1) as usize)
}

/// Whether following `prev` from place `i` comes to an end within `fuel`
/// steps without leaving the table.
pub open spec fn ends_within(prev: Seq<Option<usize>>, i: usize, fuel: nat) -> bool
    decreases fuel,
{
    i < prev.len() && match prev[i as int] {
        None => true,
        Some(j) => fuel > 0 && ends_within(prev, j, (fuel - 1) as nat),
    }
}

/// The places that following `prev` from `i` passes, the last one first,
/// so that `i` comes last.
pub open spec fn trail(prev: Seq<Option<usize>>, i: usize, fuel: nat) -> Seq<usize>
    decreases fuel,
{
    if i < prev.len() && prev[i as int] is Some && fuel > 0 {
        trail(prev, prev[i as int]->0, (fuel - 1) as nat).push(i)
    } else {
        seq![i]
    }
}

/// The cells at the places `places` in a grid `w` wide.
pub open spec fn cells_at(w: usize, places: Seq<usize>) -> Seq<(usize, usize)> {
    Seq::new(places.len(), |k: int| cell_at(w, places[k] as int))
}

/// More fuel than needed changes nothing.
pub proof fn lemma_trail_fuel(prev: Seq<Option<usize>>, i: usize, fuel: nat, more: nat)
    requires
        ends_within(prev, i, fuel),
        fuel <= more,
    ensures
        ends_within(prev, i, more),
        trail(prev, i, more) == trail(prev, i, fuel),
    decreases fuel,
{
    if prev[i as int] is Some {
        lemma_trail_fuel(prev, prev[i as int]->0, (fuel - 1) as nat, (more - 1) as nat);
    }
}

/// The cells from the end of the `prev` chain to `goal`: the walk that the
/// chain records, in walking order.
///
/// The chain must come to an end. Any amount of fuel that suffices gives
/// the same walk.
pub fn reconstruct_path(prev: Vec<Option<usize>>, w: usize, goal: usize) -> (out: Vec<
    (usize, usize),
>)
    requires
        w > 0,
        exists|fuel: nat| ends_within(prev@, goal, fuel),
    ensures
        forall|fuel: nat|
            ends_within(prev@, goal, fuel) ==> out@ == cells_at(w, #[trigger] trail(
                prev@,
                goal,
                fuel,
            )),
{
    let ghost fuel = choose|fuel: nat| ends_within(prev@, goal, fuel);
    let mut out: Vec<(usize, usize)> = Vec::new();
    let mut i = goal;
    let ghost mut left = fuel;
    // The cells come out last one first.
    loop
        invariant_except_break
            w > 0,
            left <= fuel,
            ends_within(prev@, i, left),
            ends_within(prev@, goal, fuel),
            cells_at(w, trail(prev@, goal, fuel)) == cells_at(w, trail(prev@, i, left))
                + out@.reverse(),
        ensures
            ends_within(prev@, goal, fuel),
            cells_at(w, trail(prev@, goal, fuel)) == out@.reverse(),
        decreases left,
    {
        let ghost before = out@;
        out.push((i % w, i / w));
        assert(out@.reverse() =~= seq![cell_at(w, i as int)] + before.reverse());
        match prev[i] {
            Some(j) => {
                proof {
                    let rest = trail(prev@, j, (left - 1) as nat);
                    assert(cells_at(w, rest.push(i)) =~= cells_at(w, rest) + seq![
                        cell_at(w, i as int),
                    ]);
                    assert(cells_at(w, rest) + seq![cell_at(w, i as int)] + before.reverse()
                        =~= cells_at(w, rest) + out@.reverse());
                    left = (left - 1) as nat;
                }
                i = j;
            },
            None => {
                proof {
                    assert(cells_at(w, seq![i]) =~= seq![cell_at(w, i as int)]);
                    assert(seq![cell_at(w, i as int)] + before.reverse() =~= out@.reverse());
                }
                break;
            },
        }
    }
    reverse_cells(&mut out);
    proof {
        assert forall|f: nat| ends_within(prev@, goal, f) implies out@ == cells_at(
            w,
            #[trigger] trail(prev@, goal, f),
        ) by {
            if f <= fuel {
                lemma_trail_fuel(prev@, goal, f, fuel);
            } else {
                lemma_trail_fuel(prev@, goal, fuel, f);
            }
        }
    }
    out
}

/// Turns `v` round.
fn reverse_cells(v: &mut Vec<(usize, usize)>)
    ensures
        final(v)@ == old(v)@.reverse(),
{
    let n = v.len();
    let mut out: Vec<(usize, usize)> = Vec::with_capacity(n);
    let mut i = n;
    while i > 0
        invariant
            n == v@.len(),
            v@ == old(v)@,
            i <= n,
            out@ == v@.reverse().take(n - i),
        decreases i,
    {
        i -= 1;
        out.push(v[i]);
        assert(v@.reverse().take(n - i) =~= v@.reverse().take(n - i - 1).push(v@[i as int]));
    }
    assert(v@.reverse().take(n as int) =~= v@.reverse());
    *v = out;
}

/// A place inside a grid is the place of the cell at that place.
pub proof fn lemma_cell_at_place(w: usize, h: usize, i: int)
    requires
        w > 0,
        0 <= i < w * h,
    ensures
        cell_at(w, i).0 < w,
        cell_at(w, i).1 < h,
        place(w, cell_at(w, i)) == i,
        cell_at(w, i).0 == i % (w as int),
        cell_at(w, i).1 == i / (w as int),
{
    let wi = w as int;
    lemma_fundamental_div_mod(i, wi);
    let q = i / wi;
    let r = i % wi;
    assert(0 <= q) by (nonlinear_arith)
        requires
            wi * q + r == i,
            0 <= r < wi,
            0 <= i,
            0 < wi,
    ;
    assert(q < h) by (nonlinear_arith)
        requires
            wi * q + r == i,
            0 <= r < wi,
            i < wi * h,
            0 < wi,
    ;
    assert(q * wi == wi * q) by (nonlinear_arith);
}

/// The cell at the place of a cell is that cell.
pub proof fn lemma_place_cell_at(w: usize, p: (usize, usize))
    requires
        p.0 < w,
    ensures
        cell_at(w, place(w, p)) == p,
        0 <= place(w, p),
        place(w, p) % (w as int) == p.0,
        place(w, p) / (w as int) == p.1,
{
    let wi = w as int;
    assert(p.1 * wi == wi * p.1) by (nonlinear_arith);
    lemma_fundamental_div_mod_converse(place(w, p), wi, p.1 as int, p.0 as int);
    assert(0 <= p.1 * wi) by (nonlinear_arith)
        requires
            0 <= p.1,
            0 < wi,
    ;
}

} // verus!
