//! Pieces of a word-frequency count: reading its numeric options and
//! writing its counts.

use crate::text::{
    chars_of, decimal, lemma_pieces_grow, next_break, parse_unsigned, parsed_unsigned, pieces,
    push_chars, push_decimal, zero_padded, Breaks,
};
use vstd::prelude::*;
use vstd::string::StringExecFns;

verus! {

/// `n` in decimal with a comma between each group of three digits,
/// counted from the right.
pub open spec fn with_commas(n: nat) -> Seq<char>
    decreases n,
{
    if n < 1000 {
        decimal(n)
    } else {
        with_commas(n / 1000) + seq![','] + zero_padded(decimal(n % 1000), 3)
    }
}

/// The message for an option whose value is no number.
pub open spec fn not_a_count(name: Seq<char>, raw: Seq<char>) -> Seq<char> {
    "Error: "@ + name + " expects a non-negative integer, got '"@ + raw + "'"@
}

/// What `raw` denotes as the value of the option `name`.
pub open spec fn count_of(name: Seq<char>, raw: Seq<char>) -> Result<usize, Seq<char>> {
    match parsed_unsigned(raw, 10, usize::MAX as nat) {
        Some(v) => Ok(v as usize),
        None => Err(not_a_count(name, raw)),
    }
}

/// Reads the value of a numeric option. Nothing but an optional plus sign
/// and digits is accepted, not even white space.
pub fn parse_usize_opt(name: &str, raw: &str) -> (r: Result<usize, String>)
    ensures
        match r {
            Ok(v) => count_of(name@, raw@) == Ok::<usize, Seq<char>>(v),
            Err(e) => count_of(name@, raw@) == Err::<usize, Seq<char>>(e@),
        },
{
    let chars = chars_of(raw);
    assert(chars@.subrange(0, chars@.len() as int) =~= chars@);
    match parse_unsigned(&chars, 0, chars.len(), 10, usize::MAX as u64) {
        Some(v) => Ok(v as usize),
        None => {
            let mut e = String::from_str("Error: ");
            e.append(name);
            e.append(" expects a non-negative integer, got '");
            e.append(raw);
            e.append("'");
            Err(e)
        },
    }
}

/// Appends `n` with a comma between each group of three digits.
fn push_with_commas(out: &mut String, n: u64)
    ensures
        final(out)@ == old(out)@ + with_commas(n as nat),
    decreases n,
{
    if n < 1000 {
        push_decimal(out, n);
    } else {
        push_with_commas(out, n / 1000);
        out.push(',');
        let low = n % 1000;
        let ghost before = out@;
        if low < 100 {
            out.push('0');
        }
        if low < 10 {
            out.push('0');
        }
        let ghost padded = out@;
        push_decimal(out, low);
        proof {
            lemma_decimal_len(low as nat);
            let zeros = Seq::new((3 - decimal(low as nat).len()) as nat, |i: int| '0');
            assert(padded =~= before + zeros);
            assert(out@ =~= old(out)@ + (with_commas((n / 1000) as nat) + seq![','] + zero_padded(
                decimal(low as nat),
                3,
            )));
        }
    }
}

/// A number below a thousand has as many digits as its size asks for.
proof fn lemma_decimal_len(n: nat)
    requires
        n < 1000,
    ensures
        decimal(n).len() == if n < 10 {
            1nat
        } else if n < 100 {
            2nat
        } else {
            3nat
        },
{
    reveal_with_fuel(decimal, 4);
}

/// `n` in decimal with a comma between each group of three digits.
pub fn format_with_commas(n: u64) -> (out: String)
    ensures
        out@ == with_commas(n as nat),
{
    let mut out = String::new();
    push_with_commas(&mut out, n);
    assert(Seq::<char>::empty() + with_commas(n as nat) =~= with_commas(n as nat));
    out
}

/// `text` in lower case, as `str::to_lowercase` gives it.
pub uninterp spec fn lowercased(text: Seq<char>) -> Seq<char>;

/// The pieces that count as words: those that are not empty and at least
/// `min_length` characters long, in the order in which they stand.
pub open spec fn long_enough(parts: Seq<Seq<char>>, min_length: nat) -> Seq<Seq<char>>
    decreases parts.len(),
{
    if parts.len() == 0 {
        Seq::empty()
    } else if parts.last().len() > 0 && parts.last().len() >= min_length {
        long_enough(parts.drop_last(), min_length).push(parts.last())
    } else {
        long_enough(parts.drop_last(), min_length)
    }
}

/// The words of `text`: its runs of letters and digits that are at least
/// `min_length` characters long.
pub open spec fn words_of(text: Seq<char>, min_length: nat) -> Seq<Seq<char>> {
    long_enough(pieces(text, Breaks::NonWords), min_length)
}

/// How often `word` stands in `words`.
pub open spec fn occurrences(words: Seq<Seq<char>>, word: Seq<char>) -> nat
    decreases words.len(),
{
    if words.len() == 0 {
        0
    } else {
        occurrences(words.drop_last(), word) + if words.last() == word {
            1nat
        } else {
            0nat
        }
    }
}

/// Whether `a` comes before `b` in the order of a dictionary that goes by
/// code points.
pub open spec fn lex_before(a: Seq<char>, b: Seq<char>) -> bool
    decreases a.len(),
{
    if b.len() == 0 {
        false
    } else if a.len() == 0 {
        true
    } else if a[0] != b[0] {
        (a[0] as int) < (b[0] as int)
    } else {
        lex_before(a.skip(1), b.skip(1))
    }
}

/// Whether the entry `a` stands above the entry `b` in a ranking: the more
/// frequent word first, and of two equally frequent ones the one that comes
/// first in the dictionary.
pub open spec fn ranks_before(a: (Seq<char>, u64), b: (Seq<char>, u64)) -> bool {
    a.1 > b.1 || (a.1 == b.1 && lex_before(a.0, b.0))
}

/// The entries of a ranking as contracts see them.
pub open spec fn entries(table: Seq<(String, u64)>) -> Seq<(Seq<char>, u64)> {
    Seq::new(table.len(), |i: int| (table[i].0@, table[i].1))
}

/// Whether `table` has an entry for `word`.
pub open spec fn has_entry(table: Seq<(Seq<char>, u64)>, word: Seq<char>) -> bool {
    exists|i: int| 0 <= i < table.len() && (#[trigger] table[i]).0 == word
}

/// Whether `table` is the ranking of `words`: every entry counts how often
/// its word occurs, every word has an entry, and each entry stands above
/// all that follow it.
pub open spec fn is_ranking(words: Seq<Seq<char>>, table: Seq<(Seq<char>, u64)>) -> bool {
    &&& forall|i: int|
        0 <= i < table.len() ==> (#[trigger] table[i]).1 == occurrences(words, table[i].0)
            && table[i].1 > 0
    &&& forall|k: int| 0 <= k < words.len() ==> has_entry(table, #[trigger] words[k])
    &&& forall|i: int, j: int|
        0 <= i < j < table.len() ==> ranks_before(#[trigger] table[i], #[trigger] table[j])
}

/// Of two different words one comes before the other.
pub proof fn lemma_lex_total(a: Seq<char>, b: Seq<char>)
    requires
        a != b,
    ensures
        lex_before(a, b) || lex_before(b, a),
    decreases a.len(),
{
    if a.len() == 0 || b.len() == 0 {
        if a.len() == 0 && b.len() == 0 {
            assert(a =~= b);
        }
    } else if a[0] == b[0] {
        if a.skip(1) == b.skip(1) {
            assert(a =~= seq![a[0]] + a.skip(1));
            assert(b =~= seq![b[0]] + b.skip(1));
        }
        lemma_lex_total(a.skip(1), b.skip(1));
    } else {
        let x: char = a[0];
        let y: char = b[0];
        assert(x as int != y as int);
    }
}

/// What comes before a word that comes before a third comes before the third.
pub proof fn lemma_lex_transitive(a: Seq<char>, b: Seq<char>, c: Seq<char>)
    requires
        lex_before(a, b),
        lex_before(b, c),
    ensures
        lex_before(a, c),
    decreases a.len(),
{
    if a.len() > 0 && a[0] == b[0] && b[0] == c[0] {
        lemma_lex_transitive(a.skip(1), b.skip(1), c.skip(1));
    }
}

/// The order of a ranking is transitive.
pub proof fn lemma_ranks_transitive(a: (Seq<char>, u64), b: (Seq<char>, u64), c: (Seq<char>, u64))
    requires
        ranks_before(a, b),
        ranks_before(b, c),
    ensures
        ranks_before(a, c),
{
    if a.1 == b.1 && b.1 == c.1 {
        lemma_lex_transitive(a.0, b.0, c.0);
    }
}

/// A word occurs no more often than there are words.
proof fn lemma_occurrences_bound(words: Seq<Seq<char>>, word: Seq<char>)
    ensures
        occurrences(words, word) <= words.len(),
    decreases words.len(),
{
    if words.len() > 0 {
        lemma_occurrences_bound(words.drop_last(), word);
    }
}

/// `text` in lower case, by `str::to_lowercase`. The contract gives the
/// result a name and claims no more of it.
#[verifier::external_body]
fn lowercase(text: &str) -> (out: String)
    ensures
        out@ == lowercased(text@),
{
    text.to_lowercase()
}

/// One word found in the text: where it stands, and how often it was seen.
struct Tally {
    from: usize,
    to: usize,
    count: u64,
}

/// Whether `chars[a0..a1]` and `chars[b0..b1]` are the same word.
fn same_word(chars: &[char], a0: usize, a1: usize, b0: usize, b1: usize) -> (r: bool)
    requires
        a0 <= a1 <= chars@.len(),
        b0 <= b1 <= chars@.len(),
    ensures
        r == (chars@.subrange(a0 as int, a1 as int) == chars@.subrange(b0 as int, b1 as int)),
{
    let ghost a = chars@.subrange(a0 as int, a1 as int);
    let ghost b = chars@.subrange(b0 as int, b1 as int);
    if a1 - a0 != b1 - b0 {
        assert(a.len() != b.len());
        return false;
    }
    let n = a1 - a0;
    let mut i: usize = 0;
    while i < n
        invariant
            i <= n,
            n == a1 - a0,
            n == b1 - b0,
            a0 <= a1 <= chars@.len(),
            b0 <= b1 <= chars@.len(),
            a == chars@.subrange(a0 as int, a1 as int),
            b == chars@.subrange(b0 as int, b1 as int),
            forall|k: int| 0 <= k < i ==> a[k] == b[k],
        decreases n - i,
    {
        if chars[a0 + i] != chars[b0 + i] {
            assert(a[i as int] != b[i as int]);
            return false;
        }
        i += 1;
    }
    assert(a =~= b);
    true
}

/// Whether `a` has the lower code point.
fn char_before(a: char, b: char) -> (r: bool)
    ensures
        r == ((a as int) < (b as int)),
{
    (a as u32) < (b as u32)
}

/// Whether `chars[a0..a1]` comes before `chars[b0..b1]` in the dictionary.
fn word_before(chars: &[char], a0: usize, a1: usize, b0: usize, b1: usize) -> (r: bool)
    requires
        a0 <= a1 <= chars@.len(),
        b0 <= b1 <= chars@.len(),
    ensures
        r == lex_before(chars@.subrange(a0 as int, a1 as int), chars@.subrange(b0 as int, b1 as int)),
{
    let ghost a = chars@.subrange(a0 as int, a1 as int);
    let ghost b = chars@.subrange(b0 as int, b1 as int);
    let mut i: usize = 0;
    loop
        invariant
            a0 + i <= a1 <= chars@.len(),
            b0 + i <= b1 <= chars@.len(),
            a == chars@.subrange(a0 as int, a1 as int),
            b == chars@.subrange(b0 as int, b1 as int),
            lex_before(a, b) == lex_before(
                chars@.subrange(a0 + i, a1 as int),
                chars@.subrange(b0 + i, b1 as int),
            ),
        decreases a1 - a0 - i,
    {
        let ghost ra = chars@.subrange(a0 + i, a1 as int);
        let ghost rb = chars@.subrange(b0 + i, b1 as int);
        if b0 + i == b1 {
            return false;
        }
        if a0 + i == a1 {
            return true;
        }
        let ca = chars[a0 + i];
        let cb = chars[b0 + i];
        assert(ra[0] == ca && rb[0] == cb);
        if ca != cb {
            return char_before(ca, cb);
        }
        assert(ra.skip(1) =~= chars@.subrange(a0 + i + 1, a1 as int));
        assert(rb.skip(1) =~= chars@.subrange(b0 + i + 1, b1 as int));
        i += 1;
    }
}

/// The words that the tallies stand for, with their counts.
spec fn tallied(chars: Seq<char>, tallies: Seq<Tally>) -> Seq<(Seq<char>, u64)> {
    Seq::new(
        tallies.len(),
        |i: int| (chars.subrange(tallies[i].from as int, tallies[i].to as int), tallies[i].count),
    )
}

/// Whether the tallies count the words `words`: each tally stands for a
/// word and counts its occurrences, no two stand for the same word, and
/// every word has its tally.
spec fn counts(chars: Seq<char>, tallies: Seq<Tally>, words: Seq<Seq<char>>) -> bool {
    let table = tallied(chars, tallies);
    &&& forall|i: int|
        0 <= i < tallies.len() ==> (#[trigger] tallies[i]).from <= tallies[i].to <= chars.len()
    &&& forall|i: int|
        0 <= i < table.len() ==> (#[trigger] table[i]).1 == occurrences(words, table[i].0)
            && table[i].1 > 0
    &&& forall|i: int, j: int|
        0 <= i < j < table.len() ==> (#[trigger] table[i]).0 != (#[trigger] table[j]).0
    &&& forall|k: int| 0 <= k < words.len() ==> has_entry(table, #[trigger] words[k])
}

/// Takes one more word, `chars[from..to]`, into the tallies.
#[verifier::loop_isolation(false)]
fn tally_word(
    chars: &[char],
    tallies: &mut Vec<Tally>,
    from: usize,
    to: usize,
    Ghost(words): Ghost<Seq<Seq<char>>>,
)
    requires
        from <= to <= chars@.len(),
        counts(chars@, old(tallies)@, words),
        words.len() < u64::MAX,
    ensures
        counts(chars@, final(tallies)@, words.push(chars@.subrange(from as int, to as int))),
{
    let ghost word = chars@.subrange(from as int, to as int);
    let ghost more = words.push(word);
    let ghost before = tallies@;
    let ghost table0 = tallied(chars@, before);
    assert(more.drop_last() =~= words);
    let mut i: usize = 0;
    while i < tallies.len()
        invariant
            i <= tallies@.len(),
            tallies@ == before,
            forall|k: int| 0 <= k < i ==> (#[trigger] table0[k]).0 != word,
        decreases tallies@.len() - i,
    {
        assert(table0[i as int].0 == chars@.subrange(
            before[i as int].from as int,
            before[i as int].to as int,
        ));
        if same_word(chars, tallies[i].from, tallies[i].to, from, to) {
            proof {
                lemma_occurrences_bound(words, word);
                assert(table0[i as int].1 == occurrences(words, word));
            }
            let updated = Tally {
                from: tallies[i].from,
                to: tallies[i].to,
                count: tallies[i].count + 1,
            };
            tallies[i] = updated;
            proof {
                let table = tallied(chars@, tallies@);
                assert forall|m: int| 0 <= m < table.len() implies (#[trigger] table[m]).1
                    == occurrences(more, table[m].0) && table[m].1 > 0 by {
                    assert(table0[m].1 == occurrences(words, table0[m].0));
                    if m != i {
                        assert(table[m] == table0[m]);
                        if m < i {
                            assert(table0[m].0 != table0[i as int].0);
                        } else {
                            assert(table0[i as int].0 != table0[m].0);
                        }
                    }
                }
                assert forall|m: int, n: int| 0 <= m < n < table.len() implies (#[trigger] table[m]).0
                    != (#[trigger] table[n]).0 by {
                    assert(table[m].0 == table0[m].0);
                    assert(table[n].0 == table0[n].0);
                }
                assert forall|k: int| 0 <= k < more.len() implies has_entry(
                    table,
                    #[trigger] more[k],
                ) by {
                    if k < words.len() {
                        assert(has_entry(table0, words[k]));
                        let m = choose|m: int|
                            0 <= m < table0.len() && (#[trigger] table0[m]).0 == words[k];
                        assert(table[m].0 == table0[m].0);
                    } else {
                        assert(table[i as int].0 == word);
                    }
                }
                assert forall|m: int| 0 <= m < tallies@.len() implies (#[trigger] tallies@[m]).from
                    <= tallies@[m].to <= chars@.len() by {
                    if m != i {
                        assert(tallies@[m] == before[m]);
                    }
                }
            }
            return ;
        }
        i += 1;
    }
    tallies.push(Tally { from, to, count: 1 });
    proof {
        let table = tallied(chars@, tallies@);
        lemma_absent_word(words, word, table0);
        assert forall|m: int| 0 <= m < table.len() implies (#[trigger] table[m]).1 == occurrences(
            more,
            table[m].0,
        ) && table[m].1 > 0 by {
            if m < table0.len() {
                assert(table[m] == table0[m]);
                assert(table0[m].1 == occurrences(words, table0[m].0));
            }
        }
        assert forall|m: int, n: int| 0 <= m < n < table.len() implies (#[trigger] table[m]).0 != (
        #[trigger] table[n]).0 by {
            assert(table[m] == table0[m]);
            if n < table0.len() {
                assert(table[n] == table0[n]);
            }
        }
        assert forall|k: int| 0 <= k < more.len() implies has_entry(table, #[trigger] more[k]) by {
            if k < words.len() {
                assert(has_entry(table0, words[k]));
                let m = choose|m: int| 0 <= m < table0.len() && (#[trigger] table0[m]).0 == words[k];
                assert(table[m] == table0[m]);
            } else {
                assert(table[table.len() - 1].0 == word);
            }
        }
        assert forall|m: int| 0 <= m < tallies@.len() implies (#[trigger] tallies@[m]).from
            <= tallies@[m].to <= chars@.len() by {
            if m < before.len() {
                assert(tallies@[m] == before[m]);
            }
        }
    }
}

/// A word that has no entry in a table with an entry for every word does
/// not occur.
proof fn lemma_absent_word(words: Seq<Seq<char>>, word: Seq<char>, table: Seq<(Seq<char>, u64)>)
    requires
        forall|k: int| 0 <= k < words.len() ==> has_entry(table, #[trigger] words[k]),
        forall|i: int| 0 <= i < table.len() ==> (#[trigger] table[i]).0 != word,
    ensures
        occurrences(words, word) == 0,
    decreases words.len(),
{
    if words.len() > 0 {
        let shorter = words.drop_last();
        assert forall|k: int| 0 <= k < shorter.len() implies has_entry(
            table,
            #[trigger] shorter[k],
        ) by {
            assert(shorter[k] == words[k]);
        }
        lemma_absent_word(shorter, word, table);
        assert(has_entry(table, words[words.len() - 1]));
    }
}

/// How many of the entries of `flags` are set.
spec fn count_set(flags: Seq<bool>) -> nat
    decreases flags.len(),
{
    if flags.len() == 0 {
        0
    } else {
        count_set(flags.drop_last()) + if flags.last() {
            1nat
        } else {
            0nat
        }
    }
}

/// Setting an entry that was not set makes one more.
proof fn lemma_count_set_grows(flags: Seq<bool>, i: int)
    requires
        0 <= i < flags.len(),
        !flags[i],
    ensures
        count_set(flags.update(i, true)) == count_set(flags) + 1,
    decreases flags.len(),
{
    if i == flags.len() - 1 {
        assert(flags.update(i, true).drop_last() =~= flags.drop_last());
    } else {
        lemma_count_set_grows(flags.drop_last(), i);
        assert(flags.update(i, true).drop_last() =~= flags.drop_last().update(i, true));
    }
}

/// Where fewer entries are set than there are, one is not set; where all
/// are counted as set, each is.
proof fn lemma_count_set_full(flags: Seq<bool>)
    ensures
        count_set(flags) <= flags.len(),
        count_set(flags) == flags.len() ==> forall|i: int| 0 <= i < flags.len() ==> flags[i],
    decreases flags.len(),
{
    if flags.len() > 0 {
        lemma_count_set_full(flags.drop_last());
        assert forall|i: int| count_set(flags) == flags.len() && 0 <= i < flags.len() implies flags[i] by {
            if i < flags.len() - 1 {
                assert(flags.drop_last()[i] == flags[i]);
            }
        }
    }
}

/// Whether the tally at `a` stands above the tally at `b` in the ranking.
fn tally_before(chars: &[char], tallies: &Vec<Tally>, a: usize, b: usize) -> (r: bool)
    requires
        a < tallies@.len(),
        b < tallies@.len(),
        forall|i: int|
            0 <= i < tallies@.len() ==> (#[trigger] tallies@[i]).from <= tallies@[i].to
                <= chars@.len(),
    ensures
        r == ranks_before(tallied(chars@, tallies@)[a as int], tallied(chars@, tallies@)[b as int]),
{
    let x = &tallies[a];
    let y = &tallies[b];
    x.count > y.count || (x.count == y.count && word_before(chars, x.from, x.to, y.from, y.to))
}

/// The position of the tally that stands above all others not yet taken.
#[verifier::loop_isolation(false)]
fn best_tally(chars: &[char], tallies: &Vec<Tally>, taken: &Vec<bool>) -> (best: usize)
    requires
        taken@.len() == tallies@.len(),
        count_set(taken@) < taken@.len(),
        forall|i: int|
            0 <= i < tallies@.len() ==> (#[trigger] tallies@[i]).from <= tallies@[i].to
                <= chars@.len(),
        forall|i: int, j: int|
            0 <= i < j < tallies@.len() ==> (#[trigger] tallied(chars@, tallies@)[i]).0 != (
            #[trigger] tallied(chars@, tallies@)[j]).0,
    ensures
        best < tallies@.len(),
        !taken@[best as int],
        forall|j: int|
            0 <= j < tallies@.len() && !taken@[j] && j != best ==> ranks_before(
                tallied(chars@, tallies@)[best as int],
                #[trigger] tallied(chars@, tallies@)[j],
            ),
{
    let ghost table = tallied(chars@, tallies@);
    let n = tallies.len();
    let mut first: usize = 0;
    proof {
        lemma_count_set_full(taken@);
    }
    while first < n && taken[first]
        invariant
            first <= n,
            forall|j: int| 0 <= j < first ==> taken@[j],
        decreases n - first,
    {
        first += 1;
    }
    if first == n {
        proof {
            lemma_all_set(taken@);
        }
        assert(false);
    }
    let mut best = first;
    let mut j = first + 1;
    while j < n
        invariant
            first < j <= n,
            best < j,
            !taken@[best as int],
            forall|k: int|
                0 <= k < j && !taken@[k] && k != best ==> ranks_before(
                    table[best as int],
                    #[trigger] table[k],
                ),
        decreases n - j,
    {
        if !taken[j] {
            if tally_before(chars, tallies, j, best) {
                proof {
                    assert forall|k: int| 0 <= k < j + 1 && !taken@[k] && k != j implies ranks_before(
                        table[j as int],
                        #[trigger] table[k],
                    ) by {
                        if k != best {
                            lemma_ranks_transitive(table[j as int], table[best as int], table[k]);
                        }
                    }
                }
                best = j;
            } else {
                proof {
                    assert(table[best as int].0 != table[j as int].0);
                    lemma_lex_total(table[best as int].0, table[j as int].0);
                }
            }
        }
        j += 1;
    }
    best
}

/// Where every entry is set, all are counted.
proof fn lemma_all_set(flags: Seq<bool>)
    requires
        forall|i: int| 0 <= i < flags.len() ==> flags[i],
    ensures
        count_set(flags) == flags.len(),
    decreases flags.len(),
{
    if flags.len() > 0 {
        assert forall|i: int| 0 <= i < flags.drop_last().len() implies flags.drop_last()[i] by {
            assert(flags.drop_last()[i] == flags[i]);
        }
        lemma_all_set(flags.drop_last());
    }
}

/// The words of `chars` that are at least `min_length` characters long,
/// each with the number of times it occurs.
fn tally_text(chars: &[char], min_length: usize) -> (tallies: Vec<Tally>)
    ensures
        counts(chars@, tallies@, words_of(chars@, min_length as nat)),
{
    let mut tallies: Vec<Tally> = Vec::new();
    let ghost mut done: Seq<Seq<char>> = Seq::empty();
    let ghost mut words: Seq<Seq<char>> = Seq::empty();
    let mut p: usize = 0;
    proof {
        assert(chars@.take(0) =~= Seq::<char>::empty());
        assert(seq![Seq::<char>::empty()] =~= done.push(Seq::empty()));
    }
    loop
        invariant_except_break
            p <= chars@.len(),
            pieces(chars@.take(p as int), Breaks::NonWords) == done.push(Seq::empty()),
            words == long_enough(done, min_length as nat),
            words.len() <= p,
            counts(chars@, tallies@, words),
        ensures
            words == words_of(chars@, min_length as nat),
            counts(chars@, tallies@, words),
        decreases chars@.len() - p,
    {
        let q = next_break(chars, p, chars.len(), Breaks::NonWords);
        let ghost piece = chars@.subrange(p as int, q as int);
        proof {
            lemma_pieces_grow(chars@, p as int, q as int, Breaks::NonWords);
            assert(Seq::<char>::empty() + piece =~= piece);
            assert(done.push(Seq::empty()).drop_last() =~= done);
            assert(pieces(chars@.take(q as int), Breaks::NonWords) =~= done.push(piece));
            assert(done.push(piece).drop_last() =~= done);
        }
        if q > p && q - p >= min_length {
            tally_word(chars, &mut tallies, p, q, Ghost(words));
            proof {
                words = words.push(piece);
            }
        }
        proof {
            done = done.push(piece);
        }
        if q == chars.len() {
            assert(chars@.take(chars@.len() as int) =~= chars@);
            break;
        }
        proof {
            assert(chars@.take(q + 1).drop_last() =~= chars@.take(q as int));
            assert(chars@.take(q + 1).last() == chars@[q as int]);
        }
        p = q + 1;
    }
    tallies
}

/// The ranking of the words of `text`: each word that is at least
/// `min_length` characters long with the number of times it occurs, the
/// most frequent first, and words equally frequent in dictionary order.
#[verifier::loop_isolation(false)]
pub fn rank_words(text: &str, min_length: usize) -> (ranking: Vec<(String, u64)>)
    ensures
        is_ranking(words_of(text@, min_length as nat), entries(ranking@)),
{
    let chars = chars_of(text);
    let tallies = tally_text(&chars, min_length);
    let ghost words = words_of(text@, min_length as nat);
    let ghost table = tallied(chars@, tallies@);
    let n = tallies.len();
    let mut taken: Vec<bool> = Vec::new();
    let mut i: usize = 0;
    while i < n
        invariant
            i <= n,
            taken@.len() == i,
            forall|j: int| 0 <= j < i ==> !taken@[j],
            count_set(taken@) == 0,
        decreases n - i,
    {
        let ghost before = taken@;
        taken.push(false);
        assert(taken@.drop_last() =~= before);
        i += 1;
    }
    let mut ranking: Vec<(String, u64)> = Vec::new();
    let ghost mut picked: Seq<int> = Seq::empty();
    let mut round: usize = 0;
    while round < n
        invariant
            round <= n,
            taken@.len() == n,
            count_set(taken@) == round,
            ranking@.len() == round,
            picked.len() == round,
            forall|r: int| 0 <= r < round ==> 0 <= #[trigger] picked[r] < n && taken@[picked[r]],
            forall|r: int| 0 <= r < round ==> #[trigger] entries(ranking@)[r] == table[picked[r]],
            forall|j: int| 0 <= j < n && #[trigger] taken@[j] ==> exists|r: int|
                0 <= r < round && #[trigger] picked[r] == j,
            forall|r: int, j: int|
                0 <= r < round && 0 <= j < n && !taken@[j] ==> ranks_before(
                    #[trigger] table[picked[r]],
                    #[trigger] table[j],
                ),
            forall|r: int, t: int|
                0 <= r < t < round ==> ranks_before(
                    #[trigger] entries(ranking@)[r],
                    #[trigger] entries(ranking@)[t],
                ),
        decreases n - round,
    {
        let best = best_tally(&chars, &tallies, &taken);
        let ghost taken0 = taken@;
        let ghost ranking0 = ranking@;
        let ghost picked0 = picked;
        let mut word = String::new();
        push_chars(&mut word, &chars, tallies[best].from, tallies[best].to);
        assert(word@ =~= table[best as int].0);
        ranking.push((word, tallies[best].count));
        taken[best] = true;
        proof {
            picked = picked.push(best as int);
            lemma_count_set_grows(taken0, best as int);
            assert forall|r: int| 0 <= r < round + 1 implies #[trigger] entries(ranking@)[r]
                == table[picked[r]] by {
                if r < round {
                    assert(entries(ranking@)[r] == entries(ranking0)[r]);
                    assert(picked[r] == picked0[r]);
                }
            }
            assert forall|r: int| 0 <= r < round + 1 implies 0 <= #[trigger] picked[r] < n
                && taken@[picked[r]] by {
                if r < round {
                    assert(picked[r] == picked0[r]);
                }
            }
            assert forall|j: int| 0 <= j < n && #[trigger] taken@[j] implies exists|r: int|
                0 <= r < round + 1 && #[trigger] picked[r] == j by {
                if j == best {
                    assert(picked[round as int] == j);
                } else {
                    assert(taken0[j]);
                    let r = choose|r: int| 0 <= r < round && #[trigger] picked0[r] == j;
                    assert(picked[r] == j);
                }
            }
            assert forall|r: int, j: int|
                0 <= r < round + 1 && 0 <= j < n && !taken@[j] implies ranks_before(
                #[trigger] table[picked[r]],
                #[trigger] table[j],
            ) by {
                if r < round {
                    assert(picked[r] == picked0[r]);
                    assert(!taken0[j]);
                }
            }
            assert forall|r: int, t: int| 0 <= r < t < round + 1 implies ranks_before(
                #[trigger] entries(ranking@)[r],
                #[trigger] entries(ranking@)[t],
            ) by {
                assert(entries(ranking@)[r] == table[picked[r]]);
                assert(entries(ranking@)[t] == table[picked[t]]);
                if t < round {
                    assert(entries(ranking@)[r] == entries(ranking0)[r]);
                    assert(entries(ranking@)[t] == entries(ranking0)[t]);
                } else {
                    assert(picked[r] == picked0[r]);
                    assert(!taken0[best as int]);
                }
            }
        }
        round += 1;
    }
    proof {
        let out = entries(ranking@);
        lemma_count_set_full(taken@);
        assert forall|i: int| 0 <= i < out.len() implies (#[trigger] out[i]).1 == occurrences(
            words,
            out[i].0,
        ) && out[i].1 > 0 by {
            assert(out[i] == table[picked[i]]);
        }
        assert forall|k: int| 0 <= k < words.len() implies has_entry(out, #[trigger] words[k]) by {
            assert(has_entry(table, words[k]));
            let j = choose|j: int| 0 <= j < table.len() && (#[trigger] table[j]).0 == words[k];
            assert(taken@[j]);
            let r = choose|r: int| 0 <= r < round && #[trigger] picked[r] == j;
            assert(out[r] == table[picked[r]]);
        }
    }
    ranking
}

/// The ranking of the words of `text`, counted without regard to case
/// where `ignore_case` is set: the text is then put in lower case first.
pub fn count_words(text: &str, min_length: usize, ignore_case: bool) -> (ranking: Vec<(String, u64)>)
    ensures
        is_ranking(
            words_of(
                if ignore_case {
                    lowercased(text@)
                } else {
                    text@
                },
                min_length as nat,
            ),
            entries(ranking@),
        ),
{
    if ignore_case {
        let lower = lowercase(text);
        rank_words(lower.as_str(), min_length)
    } else {
        rank_words(text, min_length)
    }
}

} // verus!
