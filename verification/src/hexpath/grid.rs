//! The grid itself: its cells, its neighbourhoods, and its text form.

use crate::text::{
    chars_of, parse_unsigned, parsed_unsigned, push_chars, push_spaced_hex, spaced_hex,
    trim_range, trimmed,
};
use rand::RngCore;
use vstd::prelude::*;
use vstd::string::StringExecFns;

verus! {

/// The largest width or height of a grid that is read or generated.
pub const MAX_SIDE: usize = 512;

/// The largest number of cells of a grid that is read or generated.
pub const MAX_CELLS: usize = 262_144;

/// A grid of `w` columns and `h` rows, stored row by row.
#[derive(Debug)]
pub struct Grid {
    /// Number of columns.
    pub w: usize,
    /// Number of rows.
    pub h: usize,
    /// The cells, row by row.
    pub cells: Vec<u8>,
}

impl Clone for Grid {
    fn clone(&self) -> (g: Grid)
        ensures
            g.w == self.w,
            g.h == self.h,
            g.cells@ == self.cells@,
    {
        Grid { w: self.w, h: self.h, cells: self.cells.clone() }
    }
}

impl Grid {
    /// Whether the grid can be indexed at all: its area fits the machine.
    pub open spec fn indexable(&self) -> bool {
        self.w * self.h <= usize::MAX
    }

    /// Whether the grid has a cell for each of its places and nothing more.
    pub open spec fn filled(&self) -> bool {
        self.cells@.len() == self.w * self.h
    }

    /// The place of cell `(x, y)` in the row-by-row order, if it is in the grid.
    pub open spec fn spec_idx(&self, x: usize, y: usize) -> Option<usize> {
        if x < self.w && y < self.h {
            Some((y * self.w + x) as usize)
        } else {
            None
        }
    }

    /// The value of cell `(x, y)`, if it is in the grid and stored.
    pub open spec fn spec_at(&self, x: usize, y: usize) -> Option<u8> {
        if x < self.w && y < self.h && y * self.w + x < self.cells@.len() {
            Some(self.cells@[y * self.w + x])
        } else {
            None
        }
    }

    /// The value of cell `(x, y)`, with zero for a cell that is not there.
    pub open spec fn cell_or_zero(&self, x: usize, y: usize) -> u8 {
        match self.spec_at(x, y) {
            Some(v) => v,
            None => 0,
        }
    }

    /// Row `y` of the grid, with zero for every cell that is not stored.
    pub open spec fn row(&self, y: usize) -> Seq<u8> {
        Seq::new(self.w as nat, |x: int| self.cell_or_zero(x as usize, y))
    }

    /// Whether the grid can be crossed: it has a cell to start in, and its
    /// area fits the machine.
    pub open spec fn crossable(&self) -> bool {
        self.w > 0 && self.h > 0 && self.indexable()
    }

    /// The value stored at place `i` of the row-by-row order, with zero for
    /// a place where nothing is stored.
    pub open spec fn value_at(&self, i: int) -> u8 {
        if 0 <= i < self.cells@.len() {
            self.cells@[i]
        } else {
            0
        }
    }

    /// Whether a path can be sought in the grid: it has cells, each is
    /// stored, the first is `00` and the last is `FF`.
    pub open spec fn valid(&self) -> bool {
        &&& self.w > 0
        &&& self.h > 0
        &&& self.filled()
        &&& self.cells@[0] == 0x00
        &&& self.cells@[self.w * self.h - 1] == 0xFF
    }

    /// The place of cell `(x, y)` in the row-by-row order.
    pub fn idx(&self, x: usize, y: usize) -> (r: Option<usize>)
        requires
            self.indexable(),
        ensures
            r == self.spec_idx(x, y),
            r is Some ==> r->0 == y * self.w + x && r->0 < self.w * self.h,
    {
        if x < self.w && y < self.h {
            proof {
                lemma_index_in_area(x as int, y as int, self.w as int, self.h as int);
            }
            Some(y * self.w + x)
        } else {
            None
        }
    }

    /// The value stored at place `i`, with zero where nothing is stored.
    pub fn value(&self, i: usize) -> (v: u8)
        ensures
            v == self.value_at(i as int),
    {
        if i < self.cells.len() {
            self.cells[i]
        } else {
            0
        }
    }

    /// The value of cell `(x, y)`.
    pub fn at(&self, x: usize, y: usize) -> (r: Option<u8>)
        requires
            self.indexable(),
        ensures
            r == self.spec_at(x, y),
    {
        match self.idx(x, y) {
            Some(i) => if i < self.cells.len() {
                Some(self.cells[i])
            } else {
                None
            },
            None => None,
        }
    }
}

/// A cell inside a grid has its place inside the grid's area.
pub proof fn lemma_index_in_area(x: int, y: int, w: int, h: int)
    requires
        0 <= x < w,
        0 <= y < h,
    ensures
        0 <= y * w + x < w * h,
        y * w + x <= (h - 1) * w + (w - 1),
        (h - 1) * w + (w - 1) == w * h - 1,
{
    assert(y * w <= (h - 1) * w) by (nonlinear_arith)
        requires
            0 <= y <= h - 1,
            0 < w,
    ;
    assert((h - 1) * w + w == w * h) by (nonlinear_arith);
    assert(0 <= y * w) by (nonlinear_arith)
        requires
            0 <= y,
            0 < w,
    ;
}

/// The cells next to `(x, y)` in a grid of `w` by `h`: the one above, the
/// one below, the one to the left and the one to the right, in that order,
/// each only where the grid has it.
pub open spec fn neighbours(x: usize, y: usize, w: usize, h: usize) -> Seq<(usize, usize)> {
    (if y > 0 {
        seq![(x, (y - 1) as usize)]
    } else {
        seq![]
    }) + (if y + 1 < h {
        seq![(x, (y + 1) as usize)]
    } else {
        seq![]
    }) + (if x > 0 {
        seq![((x - 1) as usize, y)]
    } else {
        seq![]
    }) + (if x + 1 < w {
        seq![((x + 1) as usize, y)]
    } else {
        seq![]
    })
}

/// The cells next to `(x, y)`: above, below, left, right.
pub fn neighbors4(x: usize, y: usize, w: usize, h: usize) -> (out: Vec<(usize, usize)>)
    ensures
        out@ == neighbours(x, y, w, h),
{
    let mut out: Vec<(usize, usize)> = Vec::with_capacity(4);
    if y > 0 {
        out.push((x, y - 1));
    }
    if h > 0 && y < h - 1 {
        out.push((x, y + 1));
    }
    if x > 0 {
        out.push((x - 1, y));
    }
    if w > 0 && x < w - 1 {
        out.push((x + 1, y));
    }
    assert(out@ =~= neighbours(x, y, w, h));
    out
}

/// The colour of the 6x6x6 cube that stands for the value `v`.
pub open spec fn rainbow(v: u8) -> int {
    let r = (v * 5) / 255;
    16 + 36 * r + 6 * ((r + 2) % 6) + (r + 4) % 6
}

/// The 256-colour code in which a cell of value `v` is shown.
pub fn rainbow_ansi256(v: u8) -> (c: u8)
    ensures
        c == rainbow(v),
{
    let t: u16 = v as u16;
    let r: u8 = ((t * 5) / 255) as u8;
    let g: u8 = (r + 2) % 6;
    let b: u8 = (r + 4) % 6;
    16 + 36 * r + 6 * g + b
}

/// What `validate_grid` finds wrong with a grid, if anything.
pub open spec fn grid_fault(grid: Grid) -> Option<Seq<char>> {
    if grid.w == 0 || grid.h == 0 {
        Some("invalid grid dimensions"@)
    } else if grid.cells@.len() != grid.w * grid.h {
        Some("invalid grid storage"@)
    } else if grid.cells@[0] != 0x00 {
        Some("start (top-left) must be 00"@)
    } else if grid.cells@[grid.w * grid.h - 1] != 0xFF {
        Some("end (bottom-right) must be FF"@)
    } else {
        None
    }
}

/// Checks that a path can be sought in `grid`.
pub fn validate_grid(grid: &Grid) -> (r: Result<(), String>)
    ensures
        match r {
            Ok(_) => grid_fault(*grid) is None && grid.valid(),
            Err(e) => grid_fault(*grid) == Some(e@),
        },
{
    if grid.w == 0 || grid.h == 0 {
        return Err(String::from_str("invalid grid dimensions"));
    }
    assert(grid.w * grid.h <= usize::MAX * usize::MAX) by (nonlinear_arith)
        requires
            grid.w <= usize::MAX,
            grid.h <= usize::MAX,
    ;
    let area: u128 = (grid.w as u128) * (grid.h as u128);
    if grid.cells.len() as u128 != area {
        return Err(String::from_str("invalid grid storage"));
    }
    proof {
        lemma_index_in_area(0, 0, grid.w as int, grid.h as int);
        lemma_index_in_area(grid.w - 1, grid.h - 1, grid.w as int, grid.h as int);
    }
    match grid.at(0, 0) {
        Some(0x00) => {},
        _ => {
            return Err(String::from_str("start (top-left) must be 00"));
        },
    }
    match grid.at(grid.w - 1, grid.h - 1) {
        Some(0xFF) => {},
        _ => {
            return Err(String::from_str("end (bottom-right) must be FF"));
        },
    }
    Ok(())
}

/// The number of characters of `s` before the first `c`, or the length of
/// `s` if it holds none.
pub open spec fn offset_of(s: Seq<char>, c: char) -> nat
    decreases s.len(),
{
    if s.len() > 0 && s[0] != c {
        1 + offset_of(s.skip(1), c)
    } else {
        0
    }
}

/// Where a size of the form `WxH` is split: at its first `x`, or at its
/// first `X` if it holds no `x`.
pub open spec fn size_split(s: Seq<char>) -> Option<nat> {
    if offset_of(s, 'x') < s.len() {
        Some(offset_of(s, 'x'))
    } else if offset_of(s, 'X') < s.len() {
        Some(offset_of(s, 'X'))
    } else {
        None
    }
}

/// What `raw` denotes as the size of a grid.
pub open spec fn size_of(raw: Seq<char>) -> Result<(usize, usize), Seq<char>> {
    let s = trimmed(raw);
    match size_split(s) {
        None => Err("invalid size '"@ + s + "' (expected WxH, e.g. 10x10)"@),
        Some(at) => match parsed_unsigned(trimmed(s.take(at as int)), 10, usize::MAX as nat) {
            None => Err("invalid width in '"@ + s + "'"@),
            Some(w) => match parsed_unsigned(
                trimmed(s.skip(at as int + 1)),
                10,
                usize::MAX as nat,
            ) {
                None => Err("invalid height in '"@ + s + "'"@),
                Some(h) => if w == 0 || h == 0 {
                    Err("width and height must be > 0"@)
                } else if w > MAX_SIDE || h > MAX_SIDE || w * h > MAX_CELLS {
                    Err("grid too large"@)
                } else {
                    Ok((w as usize, h as usize))
                },
            },
        },
    }
}

/// The first `rows` rows of `grid` as text: the cells of a row in upper-case
/// hex with single spaces between them, the rows on lines of their own.
pub open spec fn rows_text(grid: Grid, rows: nat) -> Seq<char>
    decreases rows,
{
    if rows == 0 {
        Seq::empty()
    } else if rows == 1 {
        spaced_hex(grid.row(0), true)
    } else {
        rows_text(grid, (rows - 1) as nat) + seq!['\n'] + spaced_hex(
            grid.row((rows - 1) as usize),
            true,
        )
    }
}

/// The first `rows` rows of `grid` as the lines of a file: each row as in
/// `rows_text`, each followed by a line feed.
pub open spec fn rows_lines(grid: Grid, rows: nat) -> Seq<char>
    decreases rows,
{
    if rows == 0 {
        Seq::empty()
    } else {
        rows_lines(grid, (rows - 1) as nat) + spaced_hex(grid.row((rows - 1) as usize), true)
            + seq!['\n']
    }
}

/// `cells` with the first cell set to `00` and then the last set to `FF`.
pub open spec fn sealed(cells: Seq<u8>) -> Seq<u8> {
    if cells.len() == 0 {
        cells
    } else {
        cells.update(0, 0x00u8).update(cells.len() - 1, 0xFFu8)
    }
}

/// The number of characters of `chars[from..to]` before the first `c`.
fn find_char(chars: &[char], from: usize, to: usize, c: char) -> (r: usize)
    requires
        from <= to <= chars@.len(),
    ensures
        from <= r <= to,
        r - from == offset_of(chars@.subrange(from as int, to as int), c),
{
    let mut i = from;
    while i < to && chars[i] != c
        invariant
            from <= i <= to <= chars@.len(),
            offset_of(chars@.subrange(from as int, to as int), c) == (i - from) + offset_of(
                chars@.subrange(i as int, to as int),
                c,
            ),
        decreases to - i,
    {
        assert(chars@.subrange(i as int, to as int).skip(1) =~= chars@.subrange(i + 1, to as int));
        i += 1;
    }
    i
}

fn size_message(before: &str, chars: &[char], from: usize, to: usize, after: &str) -> (e: String)
    requires
        from <= to <= chars@.len(),
    ensures
        e@ == before@ + chars@.subrange(from as int, to as int) + after@,
{
    let mut e = String::from_str(before);
    push_chars(&mut e, chars, from, to);
    e.append(after);
    e
}

/// Reads the size of a grid written as `WxH`.
pub fn parse_wh(s: &str) -> (r: Result<(usize, usize), String>)
    ensures
        match r {
            Ok(size) => size_of(s@) == Ok::<(usize, usize), Seq<char>>(size),
            Err(e) => size_of(s@) == Err::<(usize, usize), Seq<char>>(e@),
        },
{
    let chars = chars_of(s);
    let (a, b) = trim_range(&chars, 0, chars.len());
    assert(chars@.subrange(0, chars@.len() as int) =~= chars@);
    let ghost t = chars@.subrange(a as int, b as int);
    let lower = find_char(&chars, a, b, 'x');
    let at = if lower < b {
        lower
    } else {
        let upper = find_char(&chars, a, b, 'X');
        if upper < b {
            upper
        } else {
            return Err(size_message("invalid size '", &chars, a, b, "' (expected WxH, e.g. 10x10)"));
        }
    };
    assert(size_split(t) == Some((at - a) as nat));
    assert(t.take(at - a) =~= chars@.subrange(a as int, at as int));
    assert(t.skip(at - a + 1) =~= chars@.subrange(at + 1, b as int));
    let (wa, wb) = trim_range(&chars, a, at);
    let w = match parse_unsigned(&chars, wa, wb, 10, usize::MAX as u64) {
        Some(w) => w as usize,
        None => {
            return Err(size_message("invalid width in '", &chars, a, b, "'"));
        },
    };
    let (ha, hb) = trim_range(&chars, at + 1, b);
    let h = match parse_unsigned(&chars, ha, hb, 10, usize::MAX as u64) {
        Some(h) => h as usize,
        None => {
            return Err(size_message("invalid height in '", &chars, a, b, "'"));
        },
    };
    if w == 0 || h == 0 {
        return Err(String::from_str("width and height must be > 0"));
    }
    if w > MAX_SIDE || h > MAX_SIDE {
        return Err(String::from_str("grid too large"));
    }
    assert(w * h <= 512 * 512) by (nonlinear_arith)
        requires
            w <= 512,
            h <= 512,
    ;
    if w * h > MAX_CELLS {
        return Err(String::from_str("grid too large"));
    }
    Ok((w, h))
}

/// Row `y` of `grid` as bytes, with zero for every cell that is not stored.
fn row_bytes(grid: &Grid, y: usize) -> (out: Vec<u8>)
    requires
        grid.indexable(),
    ensures
        out@ == grid.row(y),
{
    let mut out: Vec<u8> = Vec::new();
    let mut x: usize = 0;
    while x < grid.w
        invariant
            grid.indexable(),
            x <= grid.w,
            out@ == grid.row(y).take(x as int),
        decreases grid.w - x,
    {
        let v = match grid.at(x, y) {
            Some(v) => v,
            None => 0,
        };
        out.push(v);
        assert(grid.row(y).take(x + 1) =~= grid.row(y).take(x as int).push(v));
        x += 1;
    }
    assert(grid.row(y).take(grid.w as int) =~= grid.row(y));
    out
}

/// The grid as text: one line per row, without a line feed after the last.
pub fn format_grid(grid: &Grid) -> (out: String)
    requires
        grid.indexable(),
    ensures
        out@ == rows_text(*grid, grid.h as nat),
{
    let mut out = String::new();
    let mut y: usize = 0;
    while y < grid.h
        invariant
            grid.indexable(),
            y <= grid.h,
            out@ == rows_text(*grid, y as nat),
        decreases grid.h - y,
    {
        if y > 0 {
            out.push('\n');
        }
        let row = row_bytes(grid, y);
        let ghost before = out@;
        push_spaced_hex(&mut out, &row, true);
        proof {
            if y == 0 {
                assert(before =~= Seq::<char>::empty());
                assert(out@ =~= rows_text(*grid, 1));
            } else {
                assert(out@ =~= rows_text(*grid, y as nat) + seq!['\n'] + spaced_hex(
                    grid.row(y),
                    true,
                ));
            }
        }
        y += 1;
    }
    out
}

/// The grid as the text of a file: one line per row, each ended by a line feed.
pub fn format_grid_file(grid: &Grid) -> (out: String)
    requires
        grid.indexable(),
    ensures
        out@ == rows_lines(*grid, grid.h as nat),
{
    let mut out = String::new();
    let mut y: usize = 0;
    while y < grid.h
        invariant
            grid.indexable(),
            y <= grid.h,
            out@ == rows_lines(*grid, y as nat),
        decreases grid.h - y,
    {
        let row = row_bytes(grid, y);
        push_spaced_hex(&mut out, &row, true);
        out.push('\n');
        assert(out@ =~= rows_lines(*grid, y as nat) + spaced_hex(grid.row(y), true) + seq!['\n']);
        y += 1;
    }
    out
}

/// Makes a grid of `w` by `h` out of `cells`, with the first cell set to
/// `00` and the last to `FF`.
pub fn seal_grid(w: usize, h: usize, cells: Vec<u8>) -> (grid: Grid)
    ensures
        grid.w == w,
        grid.h == h,
        grid.cells@ == sealed(cells@),
{
    let mut cells = cells;
    let n = cells.len();
    if n > 0 {
        cells[0] = 0x00;
        cells[n - 1] = 0xFF;
    }
    Grid { w, h, cells }
}

/// A grid of `w` by `h` with random cells between a first cell of `00`
/// and a last cell of `FF`. A grid of a single cell holds `FF`.
pub fn generate_grid(w: usize, h: usize) -> (grid: Grid)
    requires
        w * h <= usize::MAX,
    ensures
        grid.w == w,
        grid.h == h,
        grid.filled(),
        exists|noise: Seq<u8>| noise.len() == w * h && grid.cells@ == sealed(noise),
        w * h > 1 ==> grid.valid(),
{
    let n = w * h;
    let mut cells: Vec<u8> = Vec::with_capacity(n);
    let mut i: usize = 0;
    while i < n
        invariant
            i <= n,
            cells@.len() == i,
        decreases n - i,
    {
        let r = random_u32();
        let low = r & 0xFF;
        assert(low < 256) by (bit_vector)
            requires
                low == r & 0xFF,
        ;
        cells.push(low as u8);
        i += 1;
    }
    let ghost noise = cells@;
    let grid = seal_grid(w, h, cells);
    assert(noise.len() == w * h && grid.cells@ == sealed(noise));
    proof {
        if w * h > 1 {
            assert(w > 0 && h > 0) by (nonlinear_arith)
                requires
                    w * h > 1,
                    w >= 0,
                    h >= 0,
            ;
        }
    }
    grid
}

/// Draws 32 random bits with `rand::RngCore::next_u32` on the thread's
/// generator. Nothing is claimed of the result.
#[verifier::external_body]
fn random_u32() -> u32 {
    rand::thread_rng().next_u32()
}

} // verus!
