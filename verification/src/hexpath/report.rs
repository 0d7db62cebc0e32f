//! What is shown of a grid and of the walks across it.

use crate::hexpath::cheapest::capped_sum;
use crate::hexpath::grid::{rainbow, rainbow_ansi256, Grid};
use crate::hexpath::paths::{inside, place};
use crate::text::{decimal, hex_number, hex_pair, push_decimal, push_hex_padded, push_hex_pair};
use vstd::prelude::*;
use vstd::string::StringExecFns;

verus! {

/// Number of steps of the search that are shown.
pub const SHOWN_STEPS: usize = 8;

/// A cell as it is written: `(x,y)`.
pub open spec fn cell_text(p: (usize, usize)) -> Seq<char> {
    "("@ + decimal(p.0 as nat) + ","@ + decimal(p.1 as nat) + ")"@
}

/// The cells of a walk with an arrow between neighbours.
pub open spec fn arrows(path: Seq<(usize, usize)>) -> Seq<char>
    decreases path.len(),
{
    if path.len() == 0 {
        Seq::empty()
    } else if path.len() == 1 {
        cell_text(path[0])
    } else {
        arrows(path.drop_last()) + "->"@ + cell_text(path.last())
    }
}

/// What the walk has paid once it has entered its cell number `k`, the
/// first cell being number zero and free. A cell that the grid does not
/// hold costs nothing, and a sum too large for 64 bits stays at `u64::MAX`.
pub open spec fn paid(grid: Grid, path: Seq<(usize, usize)>, k: nat) -> u64
    decreases k,
{
    if k == 0 {
        0
    } else {
        capped_sum(paid(grid, path, (k - 1) as nat), grid.cell_or_zero(path[k as int].0, path[k as int].1))
    }
}

/// The line for the step into cell number `k` of the walk.
pub open spec fn step_line(grid: Grid, path: Seq<(usize, usize)>, k: nat) -> Seq<char> {
    "+ 0x"@ + hex_pair(grid.cell_or_zero(path[k as int].0, path[k as int].1), true) + " "@
        + cell_text(path[k as int]) + " -> "@ + decimal(paid(grid, path, k) as nat) + "\n"@
}

/// The lines for the steps into the cells number one to `k` of the walk.
pub open spec fn step_lines(grid: Grid, path: Seq<(usize, usize)>, k: nat) -> Seq<char>
    decreases k,
{
    if k == 0 {
        Seq::empty()
    } else {
        step_lines(grid, path, (k - 1) as nat) + step_line(grid, path, k)
    }
}

/// A total as it is written at the head of a report.
pub open spec fn total_head(total: u64) -> Seq<char> {
    "Total cost: 0x"@ + hex_number(total as nat, true) + " ("@ + decimal(total as nat)
        + " decimal)\n"@
}

/// A total as it is written at the foot of a report.
pub open spec fn total_foot(total: u64) -> Seq<char> {
    "Total: 0x"@ + hex_number(total as nat, true) + " ("@ + decimal(total as nat) + ")\n"@
}

/// The report on a walk: its total, its length, its cells, and what each
/// step adds.
pub open spec fn report(grid: Grid, total: u64, path: Seq<(usize, usize)>) -> Seq<char> {
    total_head(total) + "Path length: "@ + decimal(path.len()) + " steps\n"@ + "Path: "@ + arrows(
        path,
    ) + "\n\nStep-by-step costs:\nStart 0x00 (0,0)\n"@ + step_lines(
        grid,
        path,
        if path.len() > 0 {
            (path.len() - 1) as nat
        } else {
            0
        },
    ) + total_foot(total)
}

/// Whether one of the cells of `path` lies in the grid at place `i`.
pub open spec fn on_path(grid: Grid, path: Seq<(usize, usize)>, i: int) -> bool {
    exists|k: int| 0 <= k < path.len() && inside(grid, #[trigger] path[k]) && place(grid.w, path[k]) == i
}

/// How the cell at place `i` is shown: its value in two hex digits, in
/// red on the dearest walk, in white on the cheapest, and else in the
/// colour of its value. Without colour only the digits are shown.
pub open spec fn shown_cell(
    grid: Grid,
    cheapest: Seq<(usize, usize)>,
    dearest: Seq<(usize, usize)>,
    color: bool,
    i: int,
) -> Seq<char> {
    let digits = hex_pair(grid.cells@[i], true);
    if !color {
        digits
    } else if on_path(grid, dearest, i) {
        "\x1b[31m"@ + digits + "\x1b[0m"@
    } else if on_path(grid, cheapest, i) {
        "\x1b[97m"@ + digits + "\x1b[0m"@
    } else {
        "\x1b[38;5;"@ + decimal(rainbow(grid.cells@[i]) as nat) + "m"@ + digits + "\x1b[0m"@
    }
}

/// The first `count` cells of the grid as they are shown, row by row, a
/// space between the cells of a row and a line feed behind each row.
pub open spec fn shown_cells(
    grid: Grid,
    cheapest: Seq<(usize, usize)>,
    dearest: Seq<(usize, usize)>,
    color: bool,
    count: nat,
) -> Seq<char>
    decreases count,
{
    if count == 0 || grid.w == 0 {
        Seq::empty()
    } else {
        let i = (count - 1) as int;
        shown_cells(grid, cheapest, dearest, color, (count - 1) as nat) + (if i % (grid.w as int)
            > 0 {
            " "@
        } else {
            Seq::empty()
        }) + shown_cell(grid, cheapest, dearest, color, i) + (if i % (grid.w as int) == grid.w
            - 1 {
            "\n"@
        } else {
            Seq::empty()
        })
    }
}

/// The picture of a grid with the walks marked in it.
pub open spec fn picture(
    grid: Grid,
    cheapest: Seq<(usize, usize)>,
    dearest: Seq<(usize, usize)>,
    color: bool,
) -> Seq<char> {
    "HEX GRID:\n"@ + shown_cells(grid, cheapest, dearest, color, (grid.w * grid.h) as nat)
}

/// The cell that the search looks at after `p` in a grid of `w` by `h`:
/// the next one to the right on the same diagonal, or the first of the
/// next diagonal.
pub open spec fn explored_after(p: (usize, usize), w: usize, h: usize) -> (usize, usize) {
    if p.1 > 0 && p.0 + 1 < w {
        ((p.0 + 1) as usize, (p.1 - 1) as usize)
    } else if p.0 + p.1 + 1 < h {
        (0usize, (p.0 + p.1 + 1) as usize)
    } else {
        ((p.0 + p.1 + 2 - h) as usize, (h - 1) as usize)
    }
}

/// The cell that the search looks at in its step number `k`, counted from
/// zero. The search spreads from the top-left cell: nearer cells come
/// first, and of cells equally far the ones further left.
pub open spec fn explored(k: nat, w: usize, h: usize) -> (usize, usize)
    decreases k,
{
    if k == 0 {
        (0usize, 0usize)
    } else {
        explored_after(explored((k - 1) as nat, w, h), w, h)
    }
}

/// The lines for the first `k` steps of the search.
pub open spec fn explored_lines(k: nat, w: usize, h: usize) -> Seq<char>
    decreases k,
{
    if k == 0 {
        Seq::empty()
    } else {
        explored_lines((k - 1) as nat, w, h) + "Step "@ + decimal(k) + ": Exploring "@ + cell_text(
            explored((k - 1) as nat, w, h),
        ) + "\n"@
    }
}

/// What is shown of the search: its first steps, and a note that it goes
/// on where it does.
pub open spec fn animation(w: usize, h: usize) -> Seq<char> {
    let cells = w * h;
    "Searching for minimum cost path...\n"@ + (if cells >= SHOWN_STEPS {
        explored_lines(SHOWN_STEPS as nat, w, h) + "[Animation continues...]\n"@
    } else {
        explored_lines(cells as nat, w, h)
    })
}

/// Appends a cell as `(x,y)`.
fn push_cell(out: &mut String, p: (usize, usize))
    ensures
        final(out)@ == old(out)@ + cell_text(p),
{
    out.append("(");
    push_decimal(out, p.0 as u64);
    out.append(",");
    push_decimal(out, p.1 as u64);
    out.append(")");
    assert(out@ =~= old(out)@ + cell_text(p));
}

/// Appends a total as hex and as decimal between `before`, `between` and `after`.
fn push_total(out: &mut String, before: &str, total: u64, between: &str, after: &str)
    ensures
        final(out)@ == old(out)@ + (before@ + hex_number(total as nat, true) + between@ + decimal(
            total as nat,
        ) + after@),
{
    out.append(before);
    let ghost head = out@;
    push_hex_padded(out, total, 0, true);
    assert(out@ =~= head + hex_number(total as nat, true));
    out.append(between);
    push_decimal(out, total);
    out.append(after);
    assert(out@ =~= old(out)@ + (before@ + hex_number(total as nat, true) + between@ + decimal(
        total as nat,
    ) + after@));
}

/// The report on a walk of the given total cost.
pub fn path_report(grid: &Grid, total: u64, path: &[(usize, usize)]) -> (out: String)
    requires
        grid.indexable(),
    ensures
        out@ == report(*grid, total, path@),
{
    let mut out = String::new();
    push_total(&mut out, "Total cost: 0x", total, " (", " decimal)\n");
    out.append("Path length: ");
    push_decimal(&mut out, path.len() as u64);
    out.append(" steps\n");
    out.append("Path: ");
    let ghost head = out@;
    assert(head =~= total_head(total) + "Path length: "@ + decimal(path@.len()) + " steps\n"@
        + "Path: "@);
    let mut i: usize = 0;
    while i < path.len()
        invariant
            i <= path@.len(),
            out@ == head + arrows(path@.take(i as int)),
        decreases path@.len() - i,
    {
        let ghost before = path@.take(i as int);
        let ghost after = path@.take(i + 1);
        assert(after.drop_last() =~= before);
        if i > 0 {
            out.append("->");
        }
        push_cell(&mut out, path[i]);
        proof {
            if i == 0 {
                assert(arrows(before) =~= Seq::<char>::empty());
                assert(out@ =~= head + arrows(after));
            } else {
                assert(out@ =~= head + (arrows(before) + "->"@ + cell_text(path@[i as int])));
            }
        }
        i += 1;
    }
    assert(path@.take(path@.len() as int) =~= path@);
    out.append("\n\nStep-by-step costs:\nStart 0x00 (0,0)\n");
    let ghost head2 = out@;
    let mut acc: u64 = 0;
    let mut k: usize = 1;
    while k < path.len()
        invariant
            grid.indexable(),
            1 <= k,
            k <= path@.len() || (path@.len() == 0 && k == 1),
            out@ == head2 + step_lines(*grid, path@, (k - 1) as nat),
            acc == paid(*grid, path@, (k - 1) as nat),
        decreases path@.len() - k,
    {
        let p = path[k];
        let v = match grid.at(p.0, p.1) {
            Some(v) => v,
            None => 0,
        };
        acc = acc.saturating_add(v as u64);
        let ghost before = out@;
        out.append("+ 0x");
        push_hex_pair(&mut out, v, true);
        out.append(" ");
        push_cell(&mut out, p);
        out.append(" -> ");
        push_decimal(&mut out, acc);
        out.append("\n");
        assert(out@ =~= before + step_line(*grid, path@, k as nat));
        assert(out@ =~= head2 + (step_lines(*grid, path@, (k - 1) as nat) + step_line(
            *grid,
            path@,
            k as nat,
        )));
        k += 1;
    }
    let ghost body = out@;
    let ghost steps: nat = if path@.len() > 0 {
        (path@.len() - 1) as nat
    } else {
        0
    };
    assert(body == head2 + step_lines(*grid, path@, steps));
    assert(head2 == head + arrows(path@) + "\n\nStep-by-step costs:\nStart 0x00 (0,0)\n"@);
    push_total(&mut out, "Total: 0x", total, " (", ")\n");
    assert(out@ == body + total_foot(total));
    assert(out@ =~= report(*grid, total, path@));
    out
}

/// For every place of the grid whether a cell of `path` lies there.
fn mark(grid: &Grid, path: &[(usize, usize)]) -> (mask: Vec<bool>)
    requires
        grid.indexable(),
    ensures
        mask@.len() == grid.w * grid.h,
        forall|i: int| 0 <= i < mask@.len() ==> mask@[i] == on_path(*grid, path@, i),
{
    let n = grid.w * grid.h;
    let mut mask: Vec<bool> = Vec::with_capacity(n);
    let mut i: usize = 0;
    while i < n
        invariant
            i <= n,
            mask@.len() == i,
            forall|j: int| 0 <= j < i ==> !mask@[j],
        decreases n - i,
    {
        mask.push(false);
        i += 1;
    }
    let mut k: usize = 0;
    while k < path.len()
        invariant
            grid.indexable(),
            n == grid.w * grid.h,
            k <= path@.len(),
            mask@.len() == n,
            forall|i: int| 0 <= i < n ==> mask@[i] == on_path(*grid, path@.take(k as int), i),
        decreases path@.len() - k,
    {
        let p = path[k];
        let ghost before = path@.take(k as int);
        let ghost after = path@.take(k + 1);
        if let Some(at) = grid.idx(p.0, p.1) {
            mask[at] = true;
        }
        proof {
            assert forall|i: int| 0 <= i < n implies mask@[i] == on_path(*grid, after, i) by {
                if on_path(*grid, before, i) {
                    let m = choose|m: int|
                        0 <= m < before.len() && inside(*grid, #[trigger] before[m]) && place(
                            grid.w,
                            before[m],
                        ) == i;
                    assert(after[m] == before[m]);
                } else if inside(*grid, p) && place(grid.w, p) == i {
                    assert(after[k as int] == p);
                } else if on_path(*grid, after, i) {
                    let m = choose|m: int|
                        0 <= m < after.len() && inside(*grid, #[trigger] after[m]) && place(
                            grid.w,
                            after[m],
                        ) == i;
                    if m < k {
                        assert(before[m] == after[m]);
                    }
                }
            }
        }
        k += 1;
    }
    assert(path@.take(path@.len() as int) =~= path@);
    mask
}

/// Appends the cell of value `v` as it is shown.
fn push_shown(out: &mut String, v: u8, on_dearest: bool, on_cheapest: bool, color: bool)
    ensures
        final(out)@ == old(out)@ + (if !color {
            hex_pair(v, true)
        } else if on_dearest {
            "\x1b[31m"@ + hex_pair(v, true) + "\x1b[0m"@
        } else if on_cheapest {
            "\x1b[97m"@ + hex_pair(v, true) + "\x1b[0m"@
        } else {
            "\x1b[38;5;"@ + decimal(rainbow(v) as nat) + "m"@ + hex_pair(v, true) + "\x1b[0m"@
        }),
{
    if !color {
        push_hex_pair(out, v, true);
    } else {
        if on_dearest {
            out.append("\x1b[31m");
        } else if on_cheapest {
            out.append("\x1b[97m");
        } else {
            out.append("\x1b[38;5;");
            push_decimal(out, rainbow_ansi256(v) as u64);
            out.append("m");
        }
        push_hex_pair(out, v, true);
        out.append("\x1b[0m");
        proof {
            if on_dearest {
                assert(out@ =~= old(out)@ + ("\x1b[31m"@ + hex_pair(v, true) + "\x1b[0m"@));
            } else if on_cheapest {
                assert(out@ =~= old(out)@ + ("\x1b[97m"@ + hex_pair(v, true) + "\x1b[0m"@));
            } else {
                assert(out@ =~= old(out)@ + ("\x1b[38;5;"@ + decimal(rainbow(v) as nat) + "m"@
                    + hex_pair(v, true) + "\x1b[0m"@));
            }
        }
    }
}

/// The picture of a grid with the cheapest walk and, if there is one, the
/// dearest walk marked in it. The grid must hold a value for each of its
/// cells.
pub fn visualization(
    grid: &Grid,
    min_path: &[(usize, usize)],
    max_path: Option<&[(usize, usize)]>,
    use_color: bool,
) -> (out: String)
    requires
        grid.indexable(),
        grid.cells@.len() >= grid.w * grid.h,
    ensures
        out@ == picture(
            *grid,
            min_path@,
            match max_path {
                Some(p) => p@,
                None => Seq::empty(),
            },
            use_color,
        ),
{
    let ghost dearest = match max_path {
        Some(p) => p@,
        None => Seq::empty(),
    };
    let min_mask = mark(grid, min_path);
    let max_mask = match max_path {
        Some(p) => mark(grid, p),
        None => {
            let empty: Vec<(usize, usize)> = Vec::new();
            mark(grid, empty.as_slice())
        },
    };
    let mut out = String::from_str("HEX GRID:\n");
    let n = grid.w * grid.h;
    let w = grid.w;
    let mut i: usize = 0;
    while i < n
        invariant
            i <= n,
            n <= grid.cells@.len(),
            n == grid.w * grid.h,
            w == grid.w,
            min_mask@.len() == n,
            max_mask@.len() == n,
            forall|j: int| 0 <= j < n ==> min_mask@[j] == on_path(*grid, min_path@, j),
            forall|j: int| 0 <= j < n ==> max_mask@[j] == on_path(*grid, dearest, j),
            out@ == "HEX GRID:\n"@ + shown_cells(*grid, min_path@, dearest, use_color, i as nat),
        decreases n - i,
    {
        assert(w > 0) by (nonlinear_arith)
            requires
                i < w * grid.h,
                w >= 0,
        ;
        let x = i % w;
        let ghost before = out@;
        if x > 0 {
            out.append(" ");
        }
        let ghost spaced = out@;
        push_shown(&mut out, grid.cells[i], max_mask[i], min_mask[i], use_color);
        let ghost shown = out@;
        if x == w - 1 {
            out.append("\n");
        }
        proof {
            let gap = if x > 0 {
                " "@
            } else {
                Seq::<char>::empty()
            };
            let end = if x == w - 1 {
                "\n"@
            } else {
                Seq::<char>::empty()
            };
            assert(spaced =~= before + gap);
            assert(shown == spaced + shown_cell(*grid, min_path@, dearest, use_color, i as int));
            assert(out@ =~= shown + end);
            assert(out@ =~= "HEX GRID:\n"@ + (shown_cells(
                *grid,
                min_path@,
                dearest,
                use_color,
                i as nat,
            ) + gap + shown_cell(*grid, min_path@, dearest, use_color, i as int) + end));
        }
        i += 1;
    }
    out
}

/// The cell that the search looks at after `p`.
fn next_explored(p: (usize, usize), w: usize, h: usize) -> (q: (usize, usize))
    requires
        h > 0,
        p.0 + p.1 < SHOWN_STEPS,
    ensures
        q == explored_after(p, w, h),
        q.0 + q.1 <= p.0 + p.1 + 1,
{
    if p.1 > 0 && w > 0 && p.0 < w - 1 {
        (p.0 + 1, p.1 - 1)
    } else if p.0 + p.1 + 1 < h {
        (0, p.0 + p.1 + 1)
    } else {
        (p.0 + p.1 + 2 - h, h - 1)
    }
}

/// What is shown of the search for the cheapest walk in a grid of `w` by
/// `h` cells, of which there must be at least one.
pub fn light_animation(w: usize, h: usize) -> (out: String)
    requires
        0 < w * h <= usize::MAX,
    ensures
        out@ == animation(w, h),
{
    assert(h > 0) by (nonlinear_arith)
        requires
            0 < w * h,
            w >= 0,
            h >= 0,
    ;
    let cells = w * h;
    let shown = if cells >= SHOWN_STEPS {
        SHOWN_STEPS
    } else {
        cells
    };
    let mut out = String::from_str("Searching for minimum cost path...\n");
    let ghost head = out@;
    let mut p: (usize, usize) = (0, 0);
    let mut k: usize = 0;
    assert(head + explored_lines(0, w, h) =~= head);
    while k < shown
        invariant
            h > 0,
            k <= shown <= SHOWN_STEPS,
            k < SHOWN_STEPS ==> p == explored(k as nat, w, h) && p.0 + p.1 <= k,
            out@ == head + explored_lines(k as nat, w, h),
        decreases shown - k,
    {
        out.append("Step ");
        push_decimal(&mut out, (k + 1) as u64);
        out.append(": Exploring ");
        push_cell(&mut out, p);
        out.append("\n");
        assert(out@ =~= head + (explored_lines(k as nat, w, h) + "Step "@ + decimal((k + 1) as nat)
            + ": Exploring "@ + cell_text(explored(k as nat, w, h)) + "\n"@));
        k += 1;
        if k < SHOWN_STEPS {
            p = next_explored(p, w, h);
        }
    }
    if cells >= SHOWN_STEPS {
        out.append("[Animation continues...]\n");
    }
    out
}

} // verus!
