//! Reading a grid from text: one row per line, one cell per word, each
//! cell one or two hex digits.

use crate::hexpath::grid::{Grid, MAX_CELLS, MAX_SIDE};
use crate::text::{
    after_hex_prefix, chars_of, decimal, is_break, lemma_pieces_grow, next_break, parse_unsigned,
    parsed_unsigned, pieces, push_chars, push_decimal, skip_hex_prefix, Breaks,
};
use vstd::prelude::*;
use vstd::string::StringExecFns;

verus! {

/// `s` without the `c`s at its end.
pub open spec fn strip_trailing(s: Seq<char>, c: char) -> Seq<char>
    decreases s.len(),
{
    if s.len() > 0 && s.last() == c {
        strip_trailing(s.drop_last(), c)
    } else {
        s
    }
}

/// The digits of a word: the word without commas at its end, then without
/// semicolons at its end, then without `0x` at its start.
pub open spec fn cell_digits(word: Seq<char>) -> Seq<char> {
    let bare = strip_trailing(strip_trailing(word, ','), ';');
    match after_hex_prefix(bare) {
        Some(rest) => rest,
        None => bare,
    }
}

/// The message for a word that is no cell.
pub open spec fn invalid_token(word: Seq<char>) -> Seq<char> {
    "invalid hex token '"@ + word + "' (expected 00-FF)"@
}

/// The cell that `word` denotes.
pub open spec fn cell_of(word: Seq<char>) -> Result<u8, Seq<char>> {
    let digits = cell_digits(word);
    if digits.len() == 0 {
        Err("empty hex token"@)
    } else if digits.len() > 2 {
        Err(invalid_token(word))
    } else {
        match parsed_unsigned(digits, 16, 255) {
            Some(v) => Ok(v as u8),
            None => Err(invalid_token(word)),
        }
    }
}

/// The cells that the words denote, or what is wrong with the first word
/// that denotes none. Empty words are passed over.
pub open spec fn row_of(words: Seq<Seq<char>>) -> Result<Seq<u8>, Seq<char>>
    decreases words.len(),
{
    if words.len() == 0 {
        Ok(Seq::empty())
    } else {
        match row_of(words.drop_last()) {
            Err(e) => Err(e),
            Ok(row) => if words.last().len() == 0 {
                Ok(row)
            } else {
                match cell_of(words.last()) {
                    Ok(v) => Ok(row.push(v)),
                    Err(e) => Err(e),
                }
            },
        }
    }
}

/// The rows that the lines denote, or what is wrong with the first word
/// that denotes no cell. Lines without words are passed over.
pub open spec fn rows_of(lines: Seq<Seq<char>>) -> Result<Seq<Seq<u8>>, Seq<char>>
    decreases lines.len(),
{
    if lines.len() == 0 {
        Ok(Seq::empty())
    } else {
        match rows_of(lines.drop_last()) {
            Err(e) => Err(e),
            Ok(rows) => match row_of(pieces(lines.last(), Breaks::Spaces)) {
                Err(e) => Err(e),
                Ok(row) => if row.len() == 0 {
                    Ok(rows)
                } else {
                    Ok(rows.push(row))
                },
            },
        }
    }
}

/// The first row at or behind `from` that is not `w` cells long.
pub open spec fn first_ragged(rows: Seq<Seq<u8>>, w: nat, from: nat) -> Option<nat>
    decreases rows.len() - from,
{
    if from >= rows.len() {
        None
    } else if rows[from as int].len() != w {
        Some(from)
    } else {
        first_ragged(rows, w, from + 1)
    }
}

/// The rows of `rows` as sequences.
spec fn views(rows: &Vec<Vec<u8>>) -> Seq<Seq<u8>> {
    Seq::new(rows@.len(), |i: int| rows@[i]@)
}

/// The rows one behind the other.
pub open spec fn flattened(rows: Seq<Seq<u8>>) -> Seq<u8>
    decreases rows.len(),
{
    if rows.len() == 0 {
        Seq::empty()
    } else {
        flattened(rows.drop_last()) + rows.last()
    }
}

/// The width, the height and the cells of the grid that `content` denotes.
pub open spec fn grid_of(content: Seq<char>) -> Result<(nat, nat, Seq<u8>), Seq<char>> {
    match rows_of(pieces(content, Breaks::Lines)) {
        Err(e) => Err(e),
        Ok(rows) => if rows.len() == 0 {
            Err("empty map"@)
        } else if rows[0].len() > MAX_SIDE {
            Err("grid too wide"@)
        } else {
            match first_ragged(rows, rows[0].len(), 0) {
                Some(i) => Err("non-rectangular map at row "@ + decimal(i)),
                None => if rows.len() > MAX_SIDE || rows[0].len() * rows.len() > MAX_CELLS {
                    Err("grid too large"@)
                } else {
                    Ok((rows[0].len(), rows.len(), flattened(rows)))
                },
            }
        },
    }
}

/// Where `chars[from..to]` ends once the `c`s at its end are gone.
fn strip_trailing_range(chars: &[char], from: usize, to: usize, c: char) -> (r: usize)
    requires
        from <= to <= chars@.len(),
    ensures
        from <= r <= to,
        chars@.subrange(from as int, r as int) == strip_trailing(
            chars@.subrange(from as int, to as int),
            c,
        ),
{
    let mut e = to;
    while e > from && chars[e - 1] == c
        invariant
            from <= e <= to <= chars@.len(),
            strip_trailing(chars@.subrange(from as int, to as int), c) == strip_trailing(
                chars@.subrange(from as int, e as int),
                c,
            ),
        decreases e - from,
    {
        assert(chars@.subrange(from as int, e as int).drop_last() =~= chars@.subrange(
            from as int,
            e - 1,
        ));
        e -= 1;
    }
    e
}

fn refuse_token(chars: &[char], from: usize, to: usize) -> (e: String)
    requires
        from <= to <= chars@.len(),
    ensures
        e@ == invalid_token(chars@.subrange(from as int, to as int)),
{
    let mut e = String::from_str("invalid hex token '");
    push_chars(&mut e, chars, from, to);
    e.append("' (expected 00-FF)");
    e
}

/// Reads the word `chars[from..to]` as a cell.
fn read_cell(chars: &[char], from: usize, to: usize) -> (r: Result<u8, String>)
    requires
        from <= to <= chars@.len(),
    ensures
        match r {
            Ok(v) => cell_of(chars@.subrange(from as int, to as int)) == Ok::<u8, Seq<char>>(v),
            Err(e) => cell_of(chars@.subrange(from as int, to as int)) == Err::<u8, Seq<char>>(
                e@,
            ),
        },
{
    let e1 = strip_trailing_range(chars, from, to, ',');
    let e = strip_trailing_range(chars, from, e1, ';');
    let s = match skip_hex_prefix(chars, from, e) {
        Some(s) => s,
        None => from,
    };
    assert(chars@.subrange(s as int, e as int) == cell_digits(
        chars@.subrange(from as int, to as int),
    ));
    if s == e {
        return Err(String::from_str("empty hex token"));
    }
    if e - s > 2 {
        return Err(refuse_token(chars, from, to));
    }
    match parse_unsigned(chars, s, e, 16, 255) {
        Some(v) => Ok(v as u8),
        None => Err(refuse_token(chars, from, to)),
    }
}

/// Reads the words of the line `chars[from..to]` as a row of cells.
fn read_row(chars: &[char], from: usize, to: usize) -> (r: Result<Vec<u8>, String>)
    requires
        from <= to <= chars@.len(),
    ensures
        match r {
            Ok(row) => row_of(pieces(chars@.subrange(from as int, to as int), Breaks::Spaces)) == Ok::<
                Seq<u8>,
                Seq<char>,
            >(row@),
            Err(e) => row_of(pieces(chars@.subrange(from as int, to as int), Breaks::Spaces)) == Err::<
                Seq<u8>,
                Seq<char>,
            >(e@),
        },
{
    let ghost line = chars@.subrange(from as int, to as int);
    let mut row: Vec<u8> = Vec::new();
    let mut failure: Option<String> = None;
    let mut p = from;
    let ghost mut done: Seq<Seq<char>> = Seq::empty();
    proof {
        assert(line.take(0) =~= Seq::<char>::empty());
        assert(seq![Seq::<char>::empty()] =~= done.push(Seq::empty()));
    }
    loop
        invariant_except_break
            from <= p <= to <= chars@.len(),
            line == chars@.subrange(from as int, to as int),
            pieces(line.take(p - from), Breaks::Spaces) == done.push(Seq::empty()),
            match failure {
                None => row_of(done) == Ok::<Seq<u8>, Seq<char>>(row@),
                Some(e) => row_of(done) == Err::<Seq<u8>, Seq<char>>(e@),
            },
        ensures
            line == chars@.subrange(from as int, to as int),
            match failure {
                None => row_of(pieces(line, Breaks::Spaces)) == Ok::<Seq<u8>, Seq<char>>(row@),
                Some(e) => row_of(pieces(line, Breaks::Spaces)) == Err::<Seq<u8>, Seq<char>>(e@),
            },
        decreases to - p,
    {
        let q = next_break(chars, p, to, Breaks::Spaces);
        let ghost word = chars@.subrange(p as int, q as int);
        proof {
            assert forall|k: int| p - from <= k < q - from implies !is_break(line[k], Breaks::Spaces) by {
                assert(line[k] == chars@[k + from]);
            }
            lemma_pieces_grow(line, p - from, q - from, Breaks::Spaces);
            assert(line.subrange(p - from, q - from) =~= word);
            assert(Seq::<char>::empty() + word =~= word);
            assert(done.push(Seq::empty()).drop_last() =~= done);
            assert(pieces(line.take(q - from), Breaks::Spaces) =~= done.push(word));
            assert(done.push(word).drop_last() =~= done);
        }
        if q > p && failure.is_none() {
            match read_cell(chars, p, q) {
                Ok(v) => {
                    row.push(v);
                },
                Err(e) => {
                    failure = Some(e);
                },
            }
        }
        proof {
            done = done.push(word);
        }
        if q == to {
            assert(line.take(to - from) =~= line);
            break;
        }
        proof {
            assert(line.take(q + 1 - from).drop_last() =~= line.take(q - from));
            assert(line.take(q + 1 - from).last() == chars@[q as int]);
        }
        p = q + 1;
    }
    match failure {
        None => Ok(row),
        Some(e) => Err(e),
    }
}

/// Every row that `rows_of` gives has at least one cell.
proof fn lemma_rows_have_cells(lines: Seq<Seq<char>>)
    ensures
        rows_of(lines) is Ok ==> forall|i: int|
            0 <= i < rows_of(lines)->Ok_0.len() ==> (#[trigger] rows_of(lines)->Ok_0[i]).len() > 0,
    decreases lines.len(),
{
    if lines.len() > 0 {
        lemma_rows_have_cells(lines.drop_last());
    }
}

/// The rows one behind the other, as one vector.
fn flatten(rows: &Vec<Vec<u8>>) -> (cells: Vec<u8>)
    ensures
        cells@ == flattened(views(rows)),
{
    let mut cells: Vec<u8> = Vec::new();
    let mut i: usize = 0;
    assert(views(rows).take(0) =~= Seq::<Seq<u8>>::empty());
    while i < rows.len()
        invariant
            i <= rows@.len(),
            cells@ == flattened(views(rows).take(i as int)),
        decreases rows@.len() - i,
    {
        let row = &rows[i];
        let ghost before = cells@;
        let mut j: usize = 0;
        while j < row.len()
            invariant
                j <= row@.len(),
                cells@ == before + row@.take(j as int),
            decreases row@.len() - j,
        {
            cells.push(row[j]);
            assert(row@.take(j + 1) =~= row@.take(j as int).push(row@[j as int]));
            assert(before + row@.take(j + 1) =~= (before + row@.take(j as int)).push(
                row@[j as int],
            ));
            j += 1;
        }
        proof {
            assert(row@.take(row@.len() as int) =~= row@);
            assert(views(rows).take(i + 1).drop_last() =~= views(rows).take(i as int));
            assert(views(rows).take(i + 1).last() =~= row@);
        }
        i += 1;
    }
    assert(views(rows).take(rows@.len() as int) =~= views(rows));
    cells
}

/// Reads a grid from text. Every line that holds a word is a row, and every
/// word is a cell of one or two hex digits, with `0x` in front and commas
/// or semicolons behind it if one likes.
pub fn parse_grid_text(content: &str) -> (r: Result<Grid, String>)
    ensures
        match r {
            Ok(grid) => grid_of(content@) == Ok::<(nat, nat, Seq<u8>), Seq<char>>(
                (grid.w as nat, grid.h as nat, grid.cells@),
            ) && grid.filled(),
            Err(e) => grid_of(content@) == Err::<(nat, nat, Seq<u8>), Seq<char>>(e@),
        },
{
    let chars = chars_of(content);
    let mut rows: Vec<Vec<u8>> = Vec::new();
    let mut failure: Option<String> = None;
    let mut p: usize = 0;
    let ghost mut done: Seq<Seq<char>> = Seq::empty();
    proof {
        assert(chars@.take(0) =~= Seq::<char>::empty());
        assert(seq![Seq::<char>::empty()] =~= done.push(Seq::empty()));
        assert(views(&rows) =~= Seq::<Seq<u8>>::empty());
    }
    loop
        invariant_except_break
            p <= chars@.len(),
            pieces(chars@.take(p as int), Breaks::Lines) == done.push(Seq::empty()),
            match failure {
                None => rows_of(done) == Ok::<Seq<Seq<u8>>, Seq<char>>(views(&rows)),
                Some(e) => rows_of(done) == Err::<Seq<Seq<u8>>, Seq<char>>(e@),
            },
        ensures
            match failure {
                None => rows_of(pieces(chars@, Breaks::Lines)) == Ok::<Seq<Seq<u8>>, Seq<char>>(
                    views(&rows),
                ),
                Some(e) => rows_of(pieces(chars@, Breaks::Lines)) == Err::<Seq<Seq<u8>>, Seq<char>>(e@),
            },
        decreases chars@.len() - p,
    {
        let q = next_break(&chars, p, chars.len(), Breaks::Lines);
        let ghost line = chars@.subrange(p as int, q as int);
        proof {
            lemma_pieces_grow(chars@, p as int, q as int, Breaks::Lines);
            assert(Seq::<char>::empty() + line =~= line);
            assert(done.push(Seq::empty()).drop_last() =~= done);
            assert(pieces(chars@.take(q as int), Breaks::Lines) =~= done.push(line));
            assert(done.push(line).drop_last() =~= done);
        }
        if failure.is_none() {
            match read_row(&chars, p, q) {
                Ok(row) => {
                    if row.len() > 0 {
                        let ghost before = views(&rows);
                        rows.push(row);
                        assert(views(&rows) =~= before.push(row@));
                    }
                },
                Err(e) => {
                    failure = Some(e);
                },
            }
        }
        proof {
            done = done.push(line);
        }
        if q == chars.len() {
            assert(chars@.take(chars@.len() as int) =~= chars@);
            break;
        }
        proof {
            assert(chars@.take(q + 1).drop_last() =~= chars@.take(q as int));
            assert(chars@.take(q + 1).last() == chars@[q as int]);
        }
        p = q + 1;
    }
    if let Some(e) = failure {
        return Err(e);
    }
    let ghost all = views(&rows);
    proof {
        lemma_rows_have_cells(pieces(chars@, Breaks::Lines));
    }
    if rows.len() == 0 {
        return Err(String::from_str("empty map"));
    }
    assert(all[0] == rows@[0]@);
    let w = rows[0].len();
    if w > MAX_SIDE {
        return Err(String::from_str("grid too wide"));
    }
    let mut i: usize = 0;
    while i < rows.len()
        invariant
            i <= rows@.len(),
            all == views(&rows),
            chars@ == content@,
            rows_of(pieces(chars@, Breaks::Lines)) == Ok::<Seq<Seq<u8>>, Seq<char>>(all),
            all.len() > 0,
            all[0].len() == w,
            w <= MAX_SIDE,
            first_ragged(all, w as nat, 0) == first_ragged(all, w as nat, i as nat),
        decreases rows@.len() - i,
    {
        assert(all[i as int] == rows@[i as int]@);
        if rows[i].len() != w {
            let mut e = String::from_str("non-rectangular map at row ");
            push_decimal(&mut e, i as u64);
            return Err(e);
        }
        i += 1;
    }
    let h = rows.len();
    if h > MAX_SIDE {
        return Err(String::from_str("grid too large"));
    }
    assert(w * h <= 512 * 512) by (nonlinear_arith)
        requires
            w <= 512,
            h <= 512,
    ;
    if w * h > MAX_CELLS {
        return Err(String::from_str("grid too large"));
    }
    let cells = flatten(&rows);
    proof {
        lemma_flattened_len(all, w as nat);
    }
    Ok(Grid { w, h, cells })
}

/// Rows of one length, one behind the other, are as long as their number
/// times their length.
proof fn lemma_flattened_len(rows: Seq<Seq<u8>>, w: nat)
    requires
        first_ragged(rows, w, 0) is None,
    ensures
        flattened(rows).len() == w * rows.len(),
    decreases rows.len(),
{
    if rows.len() > 0 {
        lemma_no_ragged_row(rows, w, 0, rows.len() - 1);
        lemma_ragged_prefix(rows, w, 0);
        lemma_flattened_len(rows.drop_last(), w);
        assert(w * rows.len() == w * (rows.len() - 1) + w) by (nonlinear_arith);
    } else {
        assert(w * 0 == 0);
    }
}

/// Where no row is ragged from `from` on, each row there has the width.
proof fn lemma_no_ragged_row(rows: Seq<Seq<u8>>, w: nat, from: nat, i: int)
    requires
        first_ragged(rows, w, from) is None,
        from <= i < rows.len(),
    ensures
        rows[i].len() == w,
    decreases rows.len() - from,
{
    if from < i {
        lemma_no_ragged_row(rows, w, from + 1, i);
    }
}

/// Where no row is ragged, none is ragged once the last row is gone.
proof fn lemma_ragged_prefix(rows: Seq<Seq<u8>>, w: nat, from: nat)
    requires
        rows.len() > 0,
        first_ragged(rows, w, from) is None,
    ensures
        first_ragged(rows.drop_last(), w, from) is None,
    decreases rows.len() - from,
{
    if from < rows.len() - 1 {
        lemma_ragged_prefix(rows, w, from + 1);
    }
}

} // verus!
