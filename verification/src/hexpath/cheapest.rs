//! The cheapest walk across a grid.
//!
//! The search keeps, for every cell, the least cost found so far and the
//! cell from which it was reached, and a queue of cells whose neighbours
//! still have to be looked at. It always takes the cheapest entry of the
//! queue, the one at the lowest place among equals, and goes on until the
//! queue is empty. By then no cell can be reached more cheaply through any
//! of its neighbours, and that is all the proof needs.

use crate::hexpath::grid::{lemma_index_in_area, neighbors4, neighbours, Grid};
use crate::hexpath::paths::{
    cell_at, cells_at, crosses, ends_within, inside, is_walk, lemma_cell_at_place,
    lemma_place_cell_at, next_to, place, reconstruct_path, trail, walk_cost,
};
use vstd::prelude::*;
use vstd::string::StringExecFns;

verus! {

/// The cost of a cell that no walk has reached yet.
pub const UNREACHED: u64 = u64::MAX;

/// `a + c`, or `UNREACHED` where the sum would not fit.
pub open spec fn capped_sum(a: u64, c: u8) -> u64 {
    if a + c > u64::MAX {
        u64::MAX
    } else {
        (a + c) as u64
    }
}

/// The sum of all entries of `s`.
spec fn total(s: Seq<u64>) -> nat
    decreases s.len(),
{
    if s.len() == 0 {
        0
    } else {
        total(s.drop_last()) + s.last() as nat
    }
}

/// Whether going from place `i` to place `j` would not make `j` cheaper.
spec fn settled(grid: Grid, dist: Seq<u64>, i: int, j: int) -> bool {
    dist[j] <= capped_sum(dist[i], grid.value_at(j))
}

/// Whether no neighbour of place `i` would become cheaper through `i`.
spec fn relaxed_at(grid: Grid, dist: Seq<u64>, i: int) -> bool {
    let w = grid.w as int;
    let x = i % w;
    let y = i / w;
    &&& y > 0 ==> settled(grid, dist, i, i - w)
    &&& y + 1 < grid.h ==> settled(grid, dist, i, i + w)
    &&& x > 0 ==> settled(grid, dist, i, i - 1)
    &&& x + 1 < w ==> settled(grid, dist, i, i + 1)
}

/// Whether the queue holds place `i` at its current cost.
spec fn pending(queue: Seq<(u64, usize)>, dist: Seq<u64>, i: int) -> bool {
    exists|k: int| 0 <= k < queue.len() && #[trigger] queue[k] == (dist[i], i as usize)
}

/// Whether place `i` still stands in the queue or has been dealt with.
spec fn covered(grid: Grid, dist: Seq<u64>, queue: Seq<(u64, usize)>, i: int) -> bool {
    dist[i] < UNREACHED ==> relaxed_at(grid, dist, i) || pending(queue, dist, i)
}

/// Whether what is recorded for place `i` hangs together: the start costs
/// nothing and comes from nowhere, an unreached cell comes from nowhere,
/// and any other cell comes from a reached neighbour through which it
/// costs no more than is recorded.
spec fn linked(grid: Grid, dist: Seq<u64>, prev: Seq<Option<usize>>, i: int) -> bool {
    if i == 0 {
        dist[0] == 0 && prev[0] is None
    } else if dist[i] == UNREACHED {
        prev[i] is None
    } else {
        &&& prev[i] is Some
        &&& prev[i]->0 < dist.len()
        &&& next_to(cell_at(grid.w, prev[i]->0 as int), cell_at(grid.w, i))
        &&& dist[prev[i]->0 as int] < UNREACHED
        &&& dist[prev[i]->0 as int] + grid.value_at(i) <= dist[i]
    }
}

/// Whether `stamp` grows along every link that is exact.
spec fn ordered(
    grid: Grid,
    dist: Seq<u64>,
    prev: Seq<Option<usize>>,
    stamp: Seq<nat>,
    i: int,
) -> bool {
    prev[i] is Some && dist[i] == dist[prev[i]->0 as int] + grid.value_at(i) ==> stamp[prev[i]->0 as int]
        < stamp[i]
}

/// Whether `stamp` grows along every exact link of the table.
spec fn ranked(grid: Grid, dist: Seq<u64>, prev: Seq<Option<usize>>, stamp: Seq<nat>) -> bool {
    &&& stamp.len() == dist.len()
    &&& forall|i: int| 0 <= i < dist.len() ==> #[trigger] ordered(grid, dist, prev, stamp, i)
}

/// What holds of the search between two steps. The place `busy` is the one
/// whose neighbours are being looked at, or -1.
spec fn search_inv(
    grid: Grid,
    dist: Seq<u64>,
    prev: Seq<Option<usize>>,
    queue: Seq<(u64, usize)>,
    busy: int,
) -> bool {
    &&& grid.crossable()
    &&& dist.len() == grid.w * grid.h
    &&& prev.len() == dist.len()
    &&& forall|i: int| 0 <= i < dist.len() ==> #[trigger] linked(grid, dist, prev, i)
    &&& forall|i: int| 0 <= i < dist.len() && i != busy ==> #[trigger] covered(grid, dist, queue, i)
    &&& forall|k: int|
        0 <= k < queue.len() ==> (#[trigger] queue[k]).1 < dist.len() && queue[k].0 < UNREACHED
    &&& exists|stamp: Seq<nat>| ranked(grid, dist, prev, stamp)
}

/// Lowering one entry lowers the sum by as much.
proof fn lemma_total_update(s: Seq<u64>, i: int, v: u64)
    requires
        0 <= i < s.len(),
    ensures
        total(s.update(i, v)) + s[i] == total(s) + v,
    decreases s.len(),
{
    if i == s.len() - 1 {
        assert(s.update(i, v).drop_last() =~= s.drop_last());
    } else {
        lemma_total_update(s.drop_last(), i, v);
        assert(s.update(i, v).drop_last() =~= s.drop_last().update(i, v));
    }
}

/// Neighbouring cells have neighbouring places, and a relaxed place has
/// all its neighbours settled.
proof fn lemma_settled_neighbour(grid: Grid, dist: Seq<u64>, a: (usize, usize), b: (usize, usize))
    requires
        grid.w > 0,
        inside(grid, a),
        inside(grid, b),
        next_to(a, b),
        relaxed_at(grid, dist, place(grid.w, a)),
    ensures
        settled(grid, dist, place(grid.w, a), place(grid.w, b)),
{
    lemma_place_cell_at(grid.w, a);
    lemma_place_cell_at(grid.w, b);
    let w = grid.w as int;
    let i = place(grid.w, a);
    let j = place(grid.w, b);
    assert((a.1 + 1) * w == a.1 * w + w) by (nonlinear_arith);
    assert((b.1 + 1) * w == b.1 * w + w) by (nonlinear_arith);
    if a.0 == b.0 {
        if a.1 + 1 == b.1 {
            assert(j == i + w);
        } else {
            assert(j == i - w);
        }
    } else {
        if a.0 + 1 == b.0 {
            assert(j == i + 1);
        } else {
            assert(j == i - 1);
        }
    }
}

/// Where every place is relaxed and the start costs nothing, no walk from
/// the start ends in a cell for less than is recorded for that cell.
proof fn lemma_no_cheaper_walk(grid: Grid, dist: Seq<u64>, path: Seq<(usize, usize)>)
    requires
        grid.crossable(),
        dist.len() == grid.w * grid.h,
        dist[0] == 0,
        forall|i: int| 0 <= i < dist.len() ==> #[trigger] relaxed_at(grid, dist, i),
        is_walk(grid, path),
        path[0] == (0usize, 0usize),
    ensures
        dist[place(grid.w, path.last())] <= walk_cost(grid, path),
    decreases path.len(),
{
    if path.len() == 1 {
        assert(place(grid.w, path.last()) == 0) by (nonlinear_arith)
            requires
                path.last() == (0usize, 0usize),
        ;
    } else {
        let shorter = path.drop_last();
        assert(is_walk(grid, shorter)) by {
            assert forall|i: int| 0 <= i < shorter.len() implies inside(
                grid,
                #[trigger] shorter[i],
            ) by {
                assert(shorter[i] == path[i]);
            }
            assert forall|i: int| 0 < i < shorter.len() implies next_to(
                shorter[i - 1],
                #[trigger] shorter[i],
            ) by {
                assert(shorter[i] == path[i]);
                assert(shorter[i - 1] == path[i - 1]);
            }
        }
        lemma_no_cheaper_walk(grid, dist, shorter);
        let a = shorter.last();
        let b = path.last();
        assert(a == path[path.len() - 2]);
        assert(b == path[path.len() - 1]);
        assert(inside(grid, a));
        assert(inside(grid, b));
        assert(next_to(a, b));
        lemma_index_in_area(a.0 as int, a.1 as int, grid.w as int, grid.h as int);
        lemma_index_in_area(b.0 as int, b.1 as int, grid.w as int, grid.h as int);
        lemma_settled_neighbour(grid, dist, a, b);
    }
}

/// Where every place is relaxed, every link is exact, so that the recorded
/// chain from a reached place is a walk from the start that costs what is
/// recorded for the place.
proof fn lemma_chain_is_walk(
    grid: Grid,
    dist: Seq<u64>,
    prev: Seq<Option<usize>>,
    stamp: Seq<nat>,
    i: usize,
    fuel: nat,
)
    requires
        grid.crossable(),
        dist.len() == grid.w * grid.h,
        prev.len() == dist.len(),
        forall|k: int| 0 <= k < dist.len() ==> #[trigger] linked(grid, dist, prev, k),
        forall|k: int| 0 <= k < dist.len() ==> #[trigger] relaxed_at(grid, dist, k),
        ranked(grid, dist, prev, stamp),
        i < dist.len(),
        dist[i as int] < UNREACHED,
        stamp[i as int] <= fuel,
    ensures
        ends_within(prev, i, fuel),
        is_walk(grid, cells_at(grid.w, trail(prev, i, fuel))),
        cells_at(grid.w, trail(prev, i, fuel))[0] == (0usize, 0usize),
        cells_at(grid.w, trail(prev, i, fuel)).last() == cell_at(grid.w, i as int),
        walk_cost(grid, cells_at(grid.w, trail(prev, i, fuel))) == dist[i as int],
    decreases fuel,
{
    let w = grid.w;
    lemma_cell_at_place(w, grid.h, i as int);
    assert(linked(grid, dist, prev, i as int));
    if i == 0 {
        assert(cells_at(w, seq![i]) =~= seq![cell_at(w, 0)]);
        assert(is_walk(grid, seq![cell_at(w, 0)]));
    } else {
        let u = prev[i as int]->0;
        lemma_cell_at_place(w, grid.h, u as int);
        assert(relaxed_at(grid, dist, u as int));
        lemma_settled_neighbour(grid, dist, cell_at(w, u as int), cell_at(w, i as int));
        assert(dist[i as int] == dist[u as int] + grid.value_at(i as int));
        assert(ordered(grid, dist, prev, stamp, i as int));
        lemma_chain_is_walk(grid, dist, prev, stamp, u, (fuel - 1) as nat);
        let before = cells_at(w, trail(prev, u, (fuel - 1) as nat));
        let whole = cells_at(w, trail(prev, i, fuel));
        assert(whole =~= before.push(cell_at(w, i as int)));
        assert(whole.drop_last() =~= before);
        assert(is_walk(grid, whole)) by {
            assert forall|k: int| 0 <= k < whole.len() implies inside(grid, #[trigger] whole[k]) by {
                if k < before.len() {
                    assert(whole[k] == before[k]);
                }
            }
            assert forall|k: int| 0 < k < whole.len() implies next_to(
                whole[k - 1],
                #[trigger] whole[k],
            ) by {
                if k < before.len() {
                    assert(whole[k] == before[k]);
                    assert(whole[k - 1] == before[k - 1]);
                } else {
                    assert(whole[k - 1] == before.last());
                }
            }
        }
        assert(whole[0] == before[0]);
    }
}

/// A relaxed place stays relaxed when it keeps its cost and no place
/// grows dearer.
proof fn lemma_relaxed_stays(grid: Grid, before: Seq<u64>, after: Seq<u64>, i: int)
    requires
        grid.w > 0,
        before.len() == grid.w * grid.h,
        after.len() == before.len(),
        0 <= i < before.len(),
        relaxed_at(grid, before, i),
        after[i] == before[i],
        forall|k: int| 0 <= k < before.len() ==> after[k] <= #[trigger] before[k],
    ensures
        relaxed_at(grid, after, i),
{
    let w = grid.w as int;
    lemma_cell_at_place(grid.w, grid.h, i);
    let x = i % w;
    let y = i / w;
    assert(y * w + x == i);
    if y > 0 {
        assert(0 <= i - w) by (nonlinear_arith)
            requires
                y * w + x == i,
                y >= 1,
                x >= 0,
                w > 0,
        ;
        assert(after[i - w] <= before[i - w]);
    }
    if y + 1 < grid.h {
        lemma_index_in_area(x, y + 1, w, grid.h as int);
        assert((y + 1) * w + x == i + w) by (nonlinear_arith)
            requires
                y * w + x == i,
        ;
        assert(after[i + w] <= before[i + w]);
    }
    if x > 0 {
        assert(after[i - 1] <= before[i - 1]);
    }
    if x + 1 < w {
        lemma_index_in_area(x + 1, y, w, grid.h as int);
        assert(after[i + 1] <= before[i + 1]);
    }
}

/// Whether the entry `a` is taken from the queue before `b`: the cheaper
/// one first, and of two that cost the same the one at the lower place.
spec fn comes_first(a: (u64, usize), b: (u64, usize)) -> bool {
    a.0 < b.0 || (a.0 == b.0 && a.1 <= b.1)
}

/// The position of the entry that is taken next.
fn next_entry(queue: &Vec<(u64, usize)>) -> (k: usize)
    requires
        queue@.len() > 0,
    ensures
        k < queue@.len(),
        forall|j: int| 0 <= j < queue@.len() ==> comes_first(queue@[k as int], #[trigger] queue@[j]),
{
    let mut k: usize = 0;
    let mut j: usize = 1;
    while j < queue.len()
        invariant
            k < j <= queue@.len(),
            forall|m: int| 0 <= m < j ==> comes_first(queue@[k as int], #[trigger] queue@[m]),
        decreases queue@.len() - j,
    {
        let a = queue[j];
        let b = queue[k];
        if a.0 < b.0 || (a.0 == b.0 && a.1 < b.1) {
            k = j;
        }
        j += 1;
    }
    k
}

/// Looks at the step from place `u` to its neighbour `v`, and records it
/// if it makes `v` cheaper.
fn relax(
    grid: &Grid,
    dist: &mut Vec<u64>,
    prev: &mut Vec<Option<usize>>,
    queue: &mut Vec<(u64, usize)>,
    u: usize,
    v: usize,
) -> (changed: bool)
    requires
        search_inv(*grid, old(dist)@, old(prev)@, old(queue)@, u as int),
        u < old(dist)@.len(),
        v < old(dist)@.len(),
        u != v,
        next_to(cell_at(grid.w, u as int), cell_at(grid.w, v as int)),
        old(dist)@[u as int] < UNREACHED,
    ensures
        search_inv(*grid, final(dist)@, final(prev)@, final(queue)@, u as int),
        settled(*grid, final(dist)@, u as int, v as int),
        final(dist)@[u as int] == old(dist)@[u as int],
        final(dist)@.len() == old(dist)@.len(),
        forall|i: int| 0 <= i < old(dist)@.len() ==> final(dist)@[i] <= #[trigger] old(dist)@[i],
        changed ==> total(final(dist)@) < total(old(dist)@),
        !changed ==> final(dist)@ == old(dist)@ && final(queue)@ == old(queue)@,
{
    let cost = dist[u];
    let next = cost.saturating_add(grid.value(v) as u64);
    if next < dist[v] {
        let ghost dist0 = dist@;
        let ghost prev0 = prev@;
        let ghost queue0 = queue@;
        dist[v] = next;
        prev[v] = Some(u);
        queue.push((next, v));
        proof {
            let g = *grid;
            let stamp0 = choose|stamp: Seq<nat>| ranked(g, dist0, prev0, stamp);
            let stamp = stamp0.update(v as int, stamp0[u as int] + 1);
            assert(linked(g, dist0, prev0, v as int));
            assert(linked(g, dist0, prev0, 0));
            assert(v != 0);
            assert forall|i: int| 0 <= i < dist@.len() implies #[trigger] linked(
                g,
                dist@,
                prev@,
                i,
            ) by {
                assert(linked(g, dist0, prev0, i));
            }
            assert forall|i: int| 0 <= i < dist@.len() && i != u implies #[trigger] covered(
                g,
                dist@,
                queue@,
                i,
            ) by {
                if i == v {
                    assert(queue@[queue@.len() - 1] == (dist@[i], i as usize));
                } else {
                    assert(covered(g, dist0, queue0, i));
                    assert(dist@[i] == dist0[i]);
                    if dist0[i] < UNREACHED {
                        if relaxed_at(g, dist0, i) {
                            lemma_cell_at_place(g.w, g.h, i);
                            lemma_relaxed_stays(g, dist0, dist@, i);
                        } else {
                            let k = choose|k: int|
                                0 <= k < queue0.len() && #[trigger] queue0[k] == (
                                    dist0[i],
                                    i as usize,
                                );
                            assert(queue@[k] == (dist@[i], i as usize));
                        }
                    }
                }
            }
            assert forall|k: int| 0 <= k < queue@.len() implies (#[trigger] queue@[k]).1
                < dist@.len() && queue@[k].0 < UNREACHED by {
                if k < queue0.len() {
                    assert(queue@[k] == queue0[k]);
                }
            }
            assert forall|i: int| 0 <= i < dist@.len() implies #[trigger] ordered(
                g,
                dist@,
                prev@,
                stamp,
                i,
            ) by {
                assert(ordered(g, dist0, prev0, stamp0, i));
                assert(linked(g, dist0, prev0, i));
            }
            assert(ranked(g, dist@, prev@, stamp));
            lemma_total_update(dist0, v as int, next);
        }
        true
    } else {
        false
    }
}

/// The cheapest walk from the top-left cell to the bottom-right one, and
/// what it costs.
///
/// Where several walks are cheapest, one of them is given. The search fails
/// only where every walk across costs `u64::MAX` or more.
pub fn dijkstra_min_cost(grid: &Grid) -> (r: Result<(u64, Vec<(usize, usize)>), String>)
    requires
        grid.crossable(),
    ensures
        match r {
            Ok((cost, path)) => {
                &&& crosses(*grid, path@)
                &&& walk_cost(*grid, path@) == cost
                &&& cost < UNREACHED
                &&& forall|other: Seq<(usize, usize)>| #[trigger]
                    crosses(*grid, other) ==> cost <= walk_cost(*grid, other)
            },
            Err(e) => {
                &&& e@ == "no path found"@
                &&& forall|other: Seq<(usize, usize)>| #[trigger]
                    crosses(*grid, other) ==> walk_cost(*grid, other) >= UNREACHED
            },
        },
{
    let w = grid.w;
    let h = grid.h;
    let n = grid.w * grid.h;
    proof {
        lemma_index_in_area(0, 0, w as int, h as int);
    }
    let goal = n - 1;
    let mut dist: Vec<u64> = Vec::new();
    let mut prev: Vec<Option<usize>> = Vec::new();
    let mut i: usize = 0;
    while i < n
        invariant
            i <= n,
            dist@.len() == i,
            prev@.len() == i,
            forall|k: int| 0 <= k < i ==> dist@[k] == if k == 0 {
                0
            } else {
                UNREACHED
            },
            forall|k: int| 0 <= k < i ==> prev@[k] is None,
        decreases n - i,
    {
        dist.push(if i == 0 {
            0
        } else {
            UNREACHED
        });
        prev.push(None);
        i += 1;
    }
    let mut queue: Vec<(u64, usize)> = Vec::new();
    queue.push((0, 0));
    proof {
        let g = *grid;
        let stamp = Seq::new(n as nat, |k: int| 0nat);
        assert forall|k: int| 0 <= k < dist@.len() implies #[trigger] ordered(
            g,
            dist@,
            prev@,
            stamp,
            k,
        ) by {}
        assert(ranked(g, dist@, prev@, stamp));
        assert forall|k: int| 0 <= k < dist@.len() implies #[trigger] covered(
            g,
            dist@,
            queue@,
            k,
        ) by {
            if k == 0 {
                assert(queue@[0] == (dist@[0], 0usize));
            }
        }
        assert forall|k: int| 0 <= k < dist@.len() implies #[trigger] linked(g, dist@, prev@, k) by {}
        assert forall|k: int| 0 <= k < queue@.len() implies (#[trigger] queue@[k]).1
            < dist@.len() && queue@[k].0 < UNREACHED by {}
    }
    while queue.len() > 0
        invariant
            search_inv(*grid, dist@, prev@, queue@, -1),
            w == grid.w,
            h == grid.h,
            n == dist@.len(),
        decreases total(dist@), queue@.len(),
    {
        let ghost dist0 = dist@;
        let ghost queue0 = queue@;
        let k = next_entry(&queue);
        let entry = queue.swap_remove(k);
        let cost = entry.0;
        let idx = entry.1;
        assert(idx < n);
        proof {
            // Whatever stood in the queue besides the entry taken stands
            // there still.
            let g = *grid;
            assert forall|i: int|
                0 <= i < dist@.len() && (i != idx || cost != dist@[idx as int])
                    implies #[trigger] covered(g, dist@, queue@, i) by {
                assert(covered(g, dist0, queue0, i));
                if dist0[i] < UNREACHED && !relaxed_at(g, dist0, i) {
                    let m = choose|m: int|
                        0 <= m < queue0.len() && #[trigger] queue0[m] == (dist0[i], i as usize);
                    assert(m != k);
                    if m == queue0.len() - 1 {
                        assert(queue@[k as int] == queue0[m]);
                    } else {
                        assert(queue@[m] == queue0[m]);
                    }
                }
            }
            assert forall|m: int| 0 <= m < queue@.len() implies (#[trigger] queue@[m]).1
                < dist@.len() && queue@[m].0 < UNREACHED by {
                if m == k {
                    assert(queue@[m] == queue0[queue0.len() - 1]);
                } else {
                    assert(queue@[m] == queue0[m]);
                }
            }
        }
        if cost == dist[idx] {
            let x = idx % w;
            let y = idx / w;
            proof {
                lemma_cell_at_place(w, h, idx as int);
            }
            let near = neighbors4(x, y, w, h);
            let ghost popped = queue@;
            let mut j: usize = 0;
            let mut any: bool = false;
            while j < near.len()
                invariant
                    j <= near@.len(),
                    near@ == neighbours(x, y, w, h),
                    search_inv(*grid, dist@, prev@, queue@, idx as int),
                    w == grid.w,
                    h == grid.h,
                    n == dist@.len(),
                    idx < n,
                    x == idx % w,
                    y == idx / w,
                    x < w,
                    y < h,
                    place(w, (x, y)) == idx,
                    dist@[idx as int] == cost,
                    cost < UNREACHED,
                    forall|m: int|
                        0 <= m < j ==> settled(
                            *grid,
                            dist@,
                            idx as int,
                            place(w, #[trigger] near@[m]),
                        ),
                    any ==> total(dist@) < total(dist0),
                    !any ==> dist@ == dist0 && queue@ == popped,
                    total(dist@) <= total(dist0),
                decreases near@.len() - j,
            {
                let nx = near[j].0;
                let ny = near[j].1;
                proof {
                    lemma_index_in_area(nx as int, ny as int, w as int, h as int);
                    lemma_place_cell_at(w, (nx, ny));
                    lemma_place_cell_at(w, (x, y));
                }
                let nidx = ny * w + nx;
                let ghost before = dist@;
                let changed = relax(grid, &mut dist, &mut prev, &mut queue, idx, nidx);
                if changed {
                    any = true;
                }
                proof {
                    assert forall|m: int| 0 <= m < j + 1 implies settled(
                        *grid,
                        dist@,
                        idx as int,
                        place(w, #[trigger] near@[m]),
                    ) by {
                        if m < j {
                            let q = place(w, near@[m]);
                            lemma_index_in_area(
                                near@[m].0 as int,
                                near@[m].1 as int,
                                w as int,
                                h as int,
                            );
                            assert(dist@[q] <= before[q]);
                        }
                    }
                }
                j += 1;
            }
            proof {
                let g = *grid;
                let wi = w as int;
                assert((y - 1) * wi + x == idx - wi) by (nonlinear_arith)
                    requires
                        y * wi + x == idx,
                ;
                assert((y + 1) * wi + x == idx + wi) by (nonlinear_arith)
                    requires
                        y * wi + x == idx,
                ;
                if y > 0 {
                    assert(near@[0] == (x, (y - 1) as usize));
                }
                if y + 1 < h {
                    let at = if y > 0 {
                        1int
                    } else {
                        0int
                    };
                    assert(near@[at] == (x, (y + 1) as usize));
                }
                if x > 0 {
                    let at = (if y > 0 {
                        1int
                    } else {
                        0int
                    }) + (if y + 1 < h {
                        1int
                    } else {
                        0int
                    });
                    assert(near@[at] == ((x - 1) as usize, y));
                }
                if x + 1 < w {
                    let at = (if y > 0 {
                        1int
                    } else {
                        0int
                    }) + (if y + 1 < h {
                        1int
                    } else {
                        0int
                    }) + (if x > 0 {
                        1int
                    } else {
                        0int
                    });
                    assert(near@[at] == ((x + 1) as usize, y));
                }
                assert(relaxed_at(g, dist@, idx as int));
                assert(covered(g, dist@, queue@, idx as int));
            }
        }
    }
    proof {
        let g = *grid;
        assert forall|i: int| 0 <= i < dist@.len() implies #[trigger] relaxed_at(g, dist@, i) by {
            assert(covered(g, dist@, queue@, i));
        }
        assert(linked(g, dist@, prev@, 0));
        lemma_index_in_area(w - 1, h - 1, w as int, h as int);
        lemma_place_cell_at(w, ((w - 1) as usize, (h - 1) as usize));
        assert forall|other: Seq<(usize, usize)>| #[trigger] crosses(g, other) implies dist@[goal as int]
            <= walk_cost(g, other) by {
            lemma_no_cheaper_walk(g, dist@, other);
        }
    }
    if dist[goal] == UNREACHED {
        return Err(String::from_str("no path found"));
    }
    let cost = dist[goal];
    proof {
        let g = *grid;
        let stamp = choose|stamp: Seq<nat>| ranked(g, dist@, prev@, stamp);
        lemma_chain_is_walk(g, dist@, prev@, stamp, goal, stamp[goal as int]);
    }
    let path = reconstruct_path(prev, w, goal);
    Ok((cost, path))
}

} // verus!
