//! The dearest among the shortest walks across a grid.
//!
//! A walk across a grid is shortest when every step goes right or down.
//! The dearest of them is found cell by cell: the best way into a cell
//! comes from the cell above or from the cell to the left, whichever was
//! reached at the greater cost, and from above where both cost the same.

use crate::hexpath::cheapest::{capped_sum, UNREACHED};
use crate::hexpath::grid::{lemma_index_in_area, Grid};
use crate::hexpath::paths::{
    cell_at, cells_at, crosses, ends_within, inside, is_walk, lemma_cell_at_place,
    lemma_place_cell_at, lemma_trail_fuel, next_to, place, reconstruct_path, trail, walk_cost,
};
use vstd::prelude::*;

verus! {

/// The cost of the dearest shortest walk from the first place to place `i`,
/// or `u64::MAX` where that cost would not fit.
pub open spec fn best_to(grid: Grid, i: int) -> u64
    decreases i,
{
    let w = grid.w as int;
    if i <= 0 || w <= 0 {
        0
    } else if i >= w && (i % w == 0 || best_to(grid, i - w) >= best_to(grid, i - 1)) {
        capped_sum(best_to(grid, i - w), grid.value_at(i))
    } else {
        capped_sum(best_to(grid, i - 1), grid.value_at(i))
    }
}

/// The place from which the dearest shortest walk enters place `i`: the
/// place above, unless there is none or the place to the left was reached
/// at a greater cost.
pub open spec fn came_from(grid: Grid, i: int) -> int {
    let w = grid.w as int;
    if i >= w && w > 0 && (i % w == 0 || best_to(grid, i - w) >= best_to(grid, i - 1)) {
        i - w
    } else {
        i - 1
    }
}

/// The dearest shortest walk from the first place to place `i`.
pub open spec fn dearest_walk(grid: Grid, i: int) -> Seq<(usize, usize)>
    decreases i,
{
    let w = grid.w as int;
    if i <= 0 || w <= 0 {
        seq![(0usize, 0usize)]
    } else if i >= w && (i % w == 0 || best_to(grid, i - w) >= best_to(grid, i - 1)) {
        dearest_walk(grid, i - w).push(cell_at(grid.w, i))
    } else {
        dearest_walk(grid, i - 1).push(cell_at(grid.w, i))
    }
}

/// For every place the place from which it is entered, and nothing for the first.
spec fn links(grid: Grid) -> Seq<Option<usize>> {
    Seq::new(
        (grid.w * grid.h) as nat,
        |i: int|
            if i == 0 {
                None
            } else {
                Some(came_from(grid, i) as usize)
            },
    )
}

/// A place other than the first is entered from an earlier place.
proof fn lemma_came_from_earlier(grid: Grid, i: int)
    requires
        grid.w > 0,
        0 < i,
    ensures
        0 <= came_from(grid, i) < i,
{
}

/// Following the links from place `i` ends within `i` steps, and the cells
/// passed are the dearest shortest walk to `i`.
proof fn lemma_links_give_walk(grid: Grid, i: usize)
    requires
        grid.crossable(),
        i < grid.w * grid.h,
    ensures
        ends_within(links(grid), i, i as nat),
        cells_at(grid.w, trail(links(grid), i, i as nat)) == dearest_walk(grid, i as int),
    decreases i,
{
    let w = grid.w;
    if i == 0 {
        lemma_cell_at_place(w, grid.h, 0);
        assert(cells_at(w, seq![i]) =~= seq![(0usize, 0usize)]);
    } else {
        let u = came_from(grid, i as int) as usize;
        lemma_came_from_earlier(grid, i as int);
        lemma_links_give_walk(grid, u);
        lemma_trail_fuel(links(grid), u, u as nat, (i - 1) as nat);
        let rest = trail(links(grid), u, (i - 1) as nat);
        assert(cells_at(w, rest.push(i)) =~= cells_at(w, rest).push(cell_at(w, i as int)));
    }
}

/// The cells of a walk from the first cell lie no further from it, in steps
/// down and to the right, than the walk is long.
pub proof fn lemma_walk_reach(grid: Grid, path: Seq<(usize, usize)>)
    requires
        is_walk(grid, path),
        path[0] == (0usize, 0usize),
    ensures
        path.last().0 + path.last().1 <= path.len() - 1,
    decreases path.len(),
{
    if path.len() > 1 {
        lemma_walk_prefix(grid, path);
        lemma_walk_reach(grid, path.drop_last());
        assert(next_to(path[path.len() - 2], path[path.len() - 1]));
    }
}

/// A walk without its last cell is a walk.
proof fn lemma_walk_prefix(grid: Grid, path: Seq<(usize, usize)>)
    requires
        is_walk(grid, path),
        path.len() > 1,
    ensures
        is_walk(grid, path.drop_last()),
        path.drop_last()[0] == path[0],
        path.drop_last().last() == path[path.len() - 2],
{
    let shorter = path.drop_last();
    assert forall|i: int| 0 <= i < shorter.len() implies inside(grid, #[trigger] shorter[i]) by {
        assert(shorter[i] == path[i]);
    }
    assert forall|i: int| 0 < i < shorter.len() implies next_to(
        shorter[i - 1],
        #[trigger] shorter[i],
    ) by {
        assert(shorter[i] == path[i]);
        assert(shorter[i - 1] == path[i - 1]);
    }
}

/// No walk across a grid has fewer cells than the grid's width and height
/// together, less one.
pub proof fn lemma_shortest_crossing(grid: Grid, path: Seq<(usize, usize)>)
    requires
        grid.crossable(),
        crosses(grid, path),
    ensures
        path.len() >= grid.w + grid.h - 1,
{
    lemma_walk_reach(grid, path);
}

/// A place other than the first is entered from the cell above or from
/// the cell to the left.
proof fn lemma_entered_from_above_or_left(grid: Grid, i: int)
    requires
        grid.crossable(),
        0 < i < grid.w * grid.h,
    ensures
        0 <= came_from(grid, i) < i,
        next_to(cell_at(grid.w, came_from(grid, i)), cell_at(grid.w, i)),
        cell_at(grid.w, came_from(grid, i)).0 + cell_at(grid.w, came_from(grid, i)).1 + 1
            == cell_at(grid.w, i).0 + cell_at(grid.w, i).1,
{
    let w = grid.w;
    let wi = w as int;
    let u = came_from(grid, i);
    lemma_cell_at_place(w, grid.h, i);
    lemma_cell_at_place(w, grid.h, u);
    let b = cell_at(w, i);
    if u == i - wi {
        assert((b.1 - 1) * wi + b.0 == u) by (nonlinear_arith)
            requires
                b.1 * wi + b.0 == i,
                u == i - wi,
        ;
        assert(b.1 >= 1) by (nonlinear_arith)
            requires
                b.1 * wi + b.0 == i,
                i >= wi,
                b.0 < wi,
                b.1 >= 0,
        ;
        lemma_place_cell_at(w, (b.0, (b.1 - 1) as usize));
    } else {
        assert(b.0 >= 1) by {
            if b.0 == 0 {
                assert(i % wi == 0);
                assert(b.1 >= 1) by (nonlinear_arith)
                    requires
                        b.1 * wi + b.0 == i,
                        b.0 == 0,
                        i > 0,
                        b.1 >= 0,
                ;
                assert(i >= wi) by (nonlinear_arith)
                    requires
                        b.1 * wi == i,
                        b.1 >= 1,
                        wi > 0,
                ;
            }
        }
        lemma_place_cell_at(w, ((b.0 - 1) as usize, b.1));
    }
}

/// The dearest shortest walk to a place is a walk from the first cell to
/// the cell at that place, with one cell for every step down or right, and
/// it costs what `best_to` says unless that is the cap.
pub proof fn lemma_dearest_walk_is_walk(grid: Grid, i: int)
    requires
        grid.crossable(),
        0 <= i < grid.w * grid.h,
    ensures
        is_walk(grid, dearest_walk(grid, i)),
        dearest_walk(grid, i)[0] == (0usize, 0usize),
        dearest_walk(grid, i).last() == cell_at(grid.w, i),
        dearest_walk(grid, i).len() == cell_at(grid.w, i).0 + cell_at(grid.w, i).1 + 1,
        best_to(grid, i) < UNREACHED ==> walk_cost(grid, dearest_walk(grid, i)) == best_to(grid, i),
        best_to(grid, i) == UNREACHED ==> walk_cost(grid, dearest_walk(grid, i)) >= UNREACHED,
    decreases i,
{
    let w = grid.w;
    lemma_cell_at_place(w, grid.h, i);
    if i == 0 {
        assert(is_walk(grid, seq![(0usize, 0usize)]));
    } else {
        let u = came_from(grid, i);
        lemma_entered_from_above_or_left(grid, i);
        lemma_dearest_walk_is_walk(grid, u);
        lemma_cell_at_place(w, grid.h, u);
        let before = dearest_walk(grid, u);
        let whole = dearest_walk(grid, i);
        assert(whole == before.push(cell_at(w, i)));
        assert(whole.drop_last() =~= before);
        assert(is_walk(grid, whole)) by {
            assert forall|k: int| 0 <= k < whole.len() implies inside(grid, #[trigger] whole[k]) by {
                if k < before.len() {
                    assert(whole[k] == before[k]);
                }
            }
            assert forall|k: int| 0 < k < whole.len() implies next_to(
                whole[k - 1],
                #[trigger] whole[k],
            ) by {
                if k < before.len() {
                    assert(whole[k] == before[k]);
                    assert(whole[k - 1] == before[k - 1]);
                } else {
                    assert(whole[k - 1] == before.last());
                }
            }
        }
        assert(whole[0] == before[0]);
        assert(best_to(grid, i) == capped_sum(best_to(grid, u), grid.value_at(i)));
        assert(walk_cost(grid, whole) == walk_cost(grid, before) + grid.value_at(i) as nat);
    }
}

/// No walk from the first cell that only goes down and right costs more
/// than the dearest shortest walk to the cell in which it ends.
pub proof fn lemma_no_dearer_walk(grid: Grid, path: Seq<(usize, usize)>)
    requires
        grid.crossable(),
        is_walk(grid, path),
        path[0] == (0usize, 0usize),
        path.len() == path.last().0 + path.last().1 + 1,
    ensures
        best_to(grid, place(grid.w, path.last())) == UNREACHED || walk_cost(grid, path) <= best_to(
            grid,
            place(grid.w, path.last()),
        ),
    decreases path.len(),
{
    let w = grid.w;
    let wi = w as int;
    let b = path.last();
    assert(inside(grid, b));
    lemma_index_in_area(b.0 as int, b.1 as int, wi, grid.h as int);
    lemma_place_cell_at(w, b);
    let i = place(w, b);
    if path.len() == 1 {
        assert(i == 0) by (nonlinear_arith)
            requires
                i == b.1 * wi + b.0,
                b.0 == 0,
                b.1 == 0,
        ;
    } else {
        let shorter = path.drop_last();
        lemma_walk_prefix(grid, path);
        lemma_walk_reach(grid, shorter);
        let a = shorter.last();
        assert(next_to(a, b));
        assert(inside(grid, a));
        lemma_no_dearer_walk(grid, shorter);
        lemma_index_in_area(a.0 as int, a.1 as int, wi, grid.h as int);
        lemma_place_cell_at(w, a);
        let u = place(w, a);
        assert(i > 0) by (nonlinear_arith)
            requires
                i == b.1 * wi + b.0,
                b.0 + b.1 >= 1,
                b.0 >= 0,
                b.1 >= 0,
                wi > 0,
        ;
        // The last step goes down or right, so it enters from above or
        // from the left, and the better of the two is what `best_to` takes.
        if a.0 == b.0 {
            assert(a.1 + 1 == b.1);
            assert(u == i - wi) by (nonlinear_arith)
                requires
                    i == b.1 * wi + b.0,
                    u == a.1 * wi + a.0,
                    a.0 == b.0,
                    a.1 + 1 == b.1,
            ;
            assert(i >= wi);
        } else {
            assert(a.0 + 1 == b.0);
            assert(u == i - 1);
            assert(i % wi != 0);
        }
        assert(best_to(grid, u) <= best_to(grid, came_from(grid, i)));
    }
}

/// The dearest of the shortest walks from the top-left cell to the
/// bottom-right one, and what it costs.
///
/// The walk is `dearest_walk` of the last place. It crosses the grid in as
/// few cells as any walk can, and no walk of so few cells costs more. A
/// cost too large for 64 bits is given as `u64::MAX`.
pub fn max_cost_among_shortest_paths(grid: &Grid) -> (r: Option<(u64, Vec<(usize, usize)>)>)
    requires
        grid.crossable(),
    ensures
        match r {
            Some((cost, path)) => {
                &&& cost == best_to(*grid, grid.w * grid.h - 1)
                &&& path@ == dearest_walk(*grid, grid.w * grid.h - 1)
                &&& crosses(*grid, path@)
                &&& path@.len() == grid.w + grid.h - 1
                &&& cost < UNREACHED ==> walk_cost(*grid, path@) == cost
                &&& forall|other: Seq<(usize, usize)>| #[trigger]
                    crosses(*grid, other) ==> other.len() >= path@.len() && (other.len()
                        == path@.len() && cost < UNREACHED ==> walk_cost(*grid, other) <= cost)
            },
            None => false,
        },
{
    let w = grid.w;
    let n = grid.w * grid.h;
    proof {
        lemma_index_in_area(0, 0, w as int, grid.h as int);
    }
    let goal = n - 1;
    let mut best: Vec<u64> = Vec::with_capacity(n);
    let mut prev: Vec<Option<usize>> = Vec::with_capacity(n);
    best.push(0);
    prev.push(None);
    let mut i: usize = 1;
    while i < n
        invariant
            grid.crossable(),
            w == grid.w,
            n == grid.w * grid.h,
            1 <= i <= n,
            best@.len() == i,
            prev@.len() == i,
            forall|k: int| 0 <= k < i ==> best@[k] == best_to(*grid, k),
            forall|k: int| 0 <= k < i ==> prev@[k] == links(*grid)[k],
        decreases n - i,
    {
        assert(best@[i - 1] == best_to(*grid, i - 1));
        assert(i >= w ==> best@[i - w] == best_to(*grid, i - w));
        let from = if i >= w && (i % w == 0 || best[i - w] >= best[i - 1]) {
            i - w
        } else {
            i - 1
        };
        assert(from == came_from(*grid, i as int));
        let ghost before = best@;
        let ghost linked = prev@;
        let value = best[from].saturating_add(grid.value(i) as u64);
        assert(best@[from as int] == best_to(*grid, from as int));
        assert(value == capped_sum(best@[from as int], grid.value_at(i as int)));
        assert(value == best_to(*grid, i as int));
        best.push(value);
        prev.push(Some(from));
        proof {
            assert forall|k: int| 0 <= k < i + 1 implies best@[k] == best_to(*grid, k) by {
                if k < i {
                    assert(best@[k] == before[k]);
                }
            }
            assert forall|k: int| 0 <= k < i + 1 implies prev@[k] == links(*grid)[k] by {
                if k < i {
                    assert(prev@[k] == linked[k]);
                }
            }
        }
        i += 1;
    }
    let cost = best[goal];
    proof {
        let g = *grid;
        assert(prev@ =~= links(g));
        lemma_links_give_walk(g, goal);
        lemma_dearest_walk_is_walk(g, goal as int);
        lemma_index_in_area(w - 1, g.h - 1, w as int, g.h as int);
        lemma_place_cell_at(w, ((w - 1) as usize, (g.h - 1) as usize));
        assert forall|other: Seq<(usize, usize)>| #[trigger] crosses(g, other) implies other.len()
            >= g.w + g.h - 1 && (other.len() == g.w + g.h - 1 && cost < UNREACHED ==> walk_cost(
            g,
            other,
        ) <= cost) by {
            lemma_shortest_crossing(g, other);
            if other.len() == g.w + g.h - 1 {
                lemma_no_dearer_walk(g, other);
            }
        }
    }
    let path = reconstruct_path(prev, w, goal);
    Some((cost, path))
}

/// The dearest shortest walk to a place costs at most 255 for each of its
/// steps, of which there are as many as the cell lies down and to the right.
pub proof fn lemma_best_to_bound(grid: Grid, i: int)
    requires
        grid.crossable(),
        0 <= i < grid.w * grid.h,
    ensures
        best_to(grid, i) <= 255 * (cell_at(grid.w, i).0 + cell_at(grid.w, i).1),
    decreases i,
{
    if i > 0 {
        let u = came_from(grid, i);
        lemma_came_from_earlier(grid, i);
        lemma_best_to_bound(grid, u);
        lemma_dearest_walk_is_walk(grid, i);
        lemma_dearest_walk_is_walk(grid, u);
        assert(dearest_walk(grid, i).drop_last() =~= dearest_walk(grid, u));
    }
}

/// A grid that can be crossed and is not absurdly large has a walk across
/// it that costs less than `u64::MAX`, so that the search for the cheapest
/// walk succeeds on it.
pub proof fn lemma_a_walk_crosses(grid: Grid)
    requires
        grid.crossable(),
        255 * (grid.w + grid.h) < u64::MAX,
    ensures
        crosses(grid, dearest_walk(grid, grid.w * grid.h - 1)),
        walk_cost(grid, dearest_walk(grid, grid.w * grid.h - 1)) < UNREACHED,
{
    lemma_index_in_area(0, 0, grid.w as int, grid.h as int);
    let goal = grid.w * grid.h - 1;
    lemma_dearest_walk_is_walk(grid, goal);
    lemma_best_to_bound(grid, goal);
    lemma_cell_at_place(grid.w, grid.h, goal);
    lemma_index_in_area(grid.w - 1, grid.h - 1, grid.w as int, grid.h as int);
    lemma_place_cell_at(grid.w, ((grid.w - 1) as usize, (grid.h - 1) as usize));
}

} // verus!
