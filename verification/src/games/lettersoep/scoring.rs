//! Validating and scoring a placement of new tiles against the fixed board.

use super::board::{lemma_lookup, lookup, Board, Tile};
use super::letters::{
    lemma_line_counts, BOARD_SIZE, lemma_multiplier_bound, letter_score, letter_value, line_count,
    line_square, multiplier_counts_ok, multiplier_of, premium, premium_at, Premium,
};
use crate::text::push_char;
use vstd::prelude::*;

verus! {

/// Points for using all seven rack tiles.
pub const BINGO_BONUS: u32 = 50;

/// Tiles on a rack.
pub const RACK_SIZE: usize = 7;

/// A word formed by a placement, with its score.
pub struct ScoredWord {
    pub word: String,
    pub score: u32,
}

/// A scored placement: every word it forms, whether it used the whole rack,
/// and the total.
pub struct Scored {
    pub words: Vec<ScoredWord>,
    pub bingo: bool,
    pub score: u32,
}

/// The letter at a square: a new tile there, or else a fixed one.
pub open spec fn cell(fixed: Seq<Tile>, placed: Seq<Tile>, r: int, c: int) -> Option<u8> {
    match lookup(placed, r, c) {
        Some(l) => Some(l),
        None => lookup(fixed, r, c),
    }
}

/// The letter at position `p` of line `k`.
pub open spec fn cell_on(fixed: Seq<Tile>, placed: Seq<Tile>, k: int, p: int, across: bool) -> Option<u8> {
    let (r, c) = line_square(k, p, across);
    cell(fixed, placed, r, c)
}

/// Where the run of letters through position `p` of line `k` begins.
pub open spec fn run_start(fixed: Seq<Tile>, placed: Seq<Tile>, k: int, p: int, across: bool) -> int
    decreases p - i32::MIN,
{
    if p <= i32::MIN || cell_on(fixed, placed, k, p - 1, across) is None {
        p
    } else {
        run_start(fixed, placed, k, p - 1, across)
    }
}

/// The first position at or after `p` of line `k` without a letter.
pub open spec fn run_end(fixed: Seq<Tile>, placed: Seq<Tile>, k: int, p: int, across: bool) -> int
    decreases i32::MAX - p,
{
    if p >= i32::MAX || cell_on(fixed, placed, k, p, across) is None {
        p
    } else {
        run_end(fixed, placed, k, p + 1, across)
    }
}

/// The letter sum and the word-doubling and word-tripling counts of the
/// first `n` squares of line `k` from position `s`. Letter and word
/// premiums count only under new tiles.
pub open spec fn word_tally(
    fixed: Seq<Tile>,
    placed: Seq<Tile>,
    k: int,
    s: int,
    n: int,
    across: bool,
) -> (nat, nat, nat)
    decreases n,
{
    if n <= 0 {
        (0, 0, 0)
    } else {
        let (sum, d, t) = word_tally(fixed, placed, k, s, n - 1, across);
        let (r, c) = line_square(k, s + n - 1, across);
        let v = match cell(fixed, placed, r, c) {
            Some(l) => letter_score(l),
            None => 0,
        };
        let prem = if lookup(placed, r, c) is Some {
            premium(r, c)
        } else {
            None
        };
        match prem {
            Some(Premium::Dl) => (sum + 2 * v, d, t),
            Some(Premium::Tl) => (sum + 3 * v, d, t),
            Some(Premium::Dw) => (sum + v, d + 1, t),
            Some(Premium::Tw) => (sum + v, d, t + 1),
            None => (sum + v, d, t),
        }
    }
}

/// The letters of `n` squares of line `k` from position `s`.
pub open spec fn word_letters(
    fixed: Seq<Tile>,
    placed: Seq<Tile>,
    k: int,
    s: int,
    n: int,
    across: bool,
) -> Seq<u8> {
    Seq::new(
        n as nat,
        |i: int|
            match cell_on(fixed, placed, k, s + i, across) {
                Some(l) => l,
                None => 0,
            },
    )
}

/// The line and the position of a tile along a direction.
pub open spec fn line_of(t: Tile, across: bool) -> int {
    if across {
        t.row as int
    } else {
        t.col as int
    }
}

pub open spec fn axis_of(t: Tile, across: bool) -> int {
    if across {
        t.col as int
    } else {
        t.row as int
    }
}

/// The text of some letters, one character per letter, takes fewer than
/// two bytes in UTF-8: no letter, or one below 0x80 (a letter from 0x80 up
/// takes two bytes).
pub open spec fn under_two_bytes(letters: Seq<u8>) -> bool {
    letters.len() == 0 || (letters.len() == 1 && letters[0] < 0x80)
}

/// The word through `seed` along a direction: the whole run of letters,
/// if its text takes at least two bytes; its score is the letter sum times
/// the word multiplier.
pub open spec fn word_at(fixed: Seq<Tile>, placed: Seq<Tile>, seed: Tile, across: bool) -> Option<
    (Seq<u8>, nat),
> {
    let k = line_of(seed, across);
    let s = run_start(fixed, placed, k, axis_of(seed, across), across);
    let n = run_end(fixed, placed, k, s, across) - s;
    if under_two_bytes(word_letters(fixed, placed, k, s, n, across)) {
        None
    } else {
        let (sum, d, t) = word_tally(fixed, placed, k, s, n, across);
        Some((word_letters(fixed, placed, k, s, n, across), sum * multiplier_of(d, t)))
    }
}

/// The words crossing the first `n` new tiles, in tile order.
pub open spec fn cross_words(fixed: Seq<Tile>, placed: Seq<Tile>, across: bool, n: int) -> Seq<
    (Seq<u8>, nat),
>
    decreases n,
{
    if n <= 0 {
        seq![]
    } else {
        cross_words(fixed, placed, across, n - 1) + match word_at(
            fixed,
            placed,
            placed[n - 1],
            across,
        ) {
            Some(w) => seq![w],
            None => seq![],
        }
    }
}

/// All new tiles share a row.
pub open spec fn same_row(placed: Seq<Tile>) -> bool {
    forall|i: int| 0 <= i < placed.len() ==> #[trigger] placed[i].row == placed[0].row
}

/// All new tiles share a column.
pub open spec fn same_col(placed: Seq<Tile>) -> bool {
    forall|i: int| 0 <= i < placed.len() ==> #[trigger] placed[i].col == placed[0].col
}

/// The smallest and largest position of the first `n` tiles along a direction.
pub open spec fn min_axis(placed: Seq<Tile>, across: bool, n: int) -> int
    decreases n,
{
    if n <= 1 {
        axis_of(placed[0], across)
    } else {
        let m = min_axis(placed, across, n - 1);
        let a = axis_of(placed[n - 1], across);
        if a < m {
            a
        } else {
            m
        }
    }
}

pub open spec fn max_axis(placed: Seq<Tile>, across: bool, n: int) -> int
    decreases n,
{
    if n <= 1 {
        axis_of(placed[0], across)
    } else {
        let m = max_axis(placed, across, n - 1);
        let a = axis_of(placed[n - 1], across);
        if a > m {
            a
        } else {
            m
        }
    }
}

/// Every square from the first to the last new tile holds a letter.
pub open spec fn gap_free(fixed: Seq<Tile>, placed: Seq<Tile>, across: bool) -> bool {
    let k = line_of(placed[0], across);
    forall|p: int|
        min_axis(placed, across, placed.len() as int) <= p <= max_axis(
            placed,
            across,
            placed.len() as int,
        ) ==> #[trigger] cell_on(fixed, placed, k, p, across) is Some
}

/// Some new tile stands on a fixed tile.
pub open spec fn overlaps_fixed(fixed: Seq<Tile>, placed: Seq<Tile>) -> bool {
    exists|i: int|
        0 <= i < placed.len() && #[trigger] lookup(fixed, placed[i].row as int, placed[i].col as int)
            is Some
}

/// A fixed tile is beside `t`.
pub open spec fn beside_fixed(fixed: Seq<Tile>, t: Tile) -> bool {
    ||| lookup(fixed, t.row as int, t.col - 1) is Some
    ||| lookup(fixed, t.row as int, t.col + 1) is Some
    ||| lookup(fixed, t.row - 1, t.col as int) is Some
    ||| lookup(fixed, t.row + 1, t.col as int) is Some
}

/// Some new tile is beside a fixed tile.
pub open spec fn touches_fixed(fixed: Seq<Tile>, placed: Seq<Tile>) -> bool {
    exists|i: int| 0 <= i < placed.len() && #[trigger] beside_fixed(fixed, placed[i])
}

/// The geometry of a placement: nonempty, in one row or column, without
/// gaps, on free squares, touching the fixed tiles.
pub open spec fn valid_placement(fixed: Seq<Tile>, placed: Seq<Tile>) -> bool {
    &&& placed.len() > 0
    &&& same_row(placed) || same_col(placed)
    &&& gap_free(fixed, placed, same_row(placed))
    &&& !overlaps_fixed(fixed, placed)
    &&& touches_fixed(fixed, placed)
}

/// The words a placement forms: the main word along its direction, then
/// the cross word of each new tile.
pub open spec fn placement_words(fixed: Seq<Tile>, placed: Seq<Tile>) -> Seq<(Seq<u8>, nat)> {
    let across = same_row(placed);
    let main = match word_at(fixed, placed, placed[0], across) {
        Some(w) => seq![w],
        None => seq![],
    };
    main + cross_words(fixed, placed, !across, placed.len() as int)
}

/// The sum of the word scores.
pub open spec fn words_total(ws: Seq<(Seq<u8>, nat)>) -> nat
    decreases ws.len(),
{
    if ws.len() == 0 {
        0
    } else {
        words_total(ws.drop_last()) + ws.last().1
    }
}

/// The score of a placement: `None` when it is invalid or forms no word,
/// otherwise its words, whether it is a bingo, and the total.
pub open spec fn scoring(fixed: Seq<Tile>, placed: Seq<Tile>) -> Option<
    (Seq<(Seq<u8>, nat)>, bool, nat),
> {
    if !valid_placement(fixed, placed) {
        None
    } else {
        let ws = placement_words(fixed, placed);
        if ws.len() == 0 {
            None
        } else {
            let bingo = placed.len() == RACK_SIZE;
            Some((ws, bingo, words_total(ws) + if bingo {
                BINGO_BONUS as nat
            } else {
                0
            }))
        }
    }
}

/// The letters of a word as characters.
pub open spec fn as_chars(bytes: Seq<u8>) -> Seq<char> {
    bytes.map_values(|b: u8| b as char)
}

/// `s` reports the words, bingo flag and total of a scoring.
pub open spec fn reports(s: Scored, ws: Seq<(Seq<u8>, nat)>, bingo: bool, total: nat) -> bool {
    &&& s.words@.len() == ws.len()
    &&& forall|i: int|
        0 <= i < ws.len() ==> #[trigger] s.words@[i].word@ == as_chars(ws[i].0)
            && s.words@[i].score == ws[i].1
    &&& s.bingo == bingo
    &&& s.score == total
}

/// A square whose neighbours have coordinates.
pub open spec fn square_ok(t: Tile) -> bool {
    i32::MIN < t.row < i32::MAX && i32::MIN < t.col < i32::MAX
}

pub open spec fn squares_ok(cells: Seq<Tile>) -> bool {
    forall|i: int| 0 <= i < cells.len() ==> #[trigger] square_ok(cells[i])
}

/// The total of a valid placement fits the `u32` score.
pub open spec fn score_fits(fixed: Seq<Tile>, placed: Seq<Tile>) -> bool {
    match scoring(fixed, placed) {
        Some((_, _, total)) => total <= u32::MAX,
        None => true,
    }
}


/// The letter of the last tile of a slice at a square.
fn lookup_slice(cells: &[Tile], row: i32, col: i32) -> (res: Option<u8>)
    ensures
        res == lookup(cells@, row as int, col as int),
{
    let n = cells.len();
    let mut i: usize = n;
    assert(cells@.take(n as int) == cells@);
    while i > 0
        invariant
            i <= n,
            n == cells@.len(),
            lookup(cells@, row as int, col as int) == lookup(
                cells@.take(i as int),
                row as int,
                col as int,
            ),
        decreases i,
    {
        let t = cells[i - 1];
        assert(cells@.take(i as int).drop_last() == cells@.take(i - 1));
        if t.row == row && t.col == col {
            return Some(t.letter);
        }
        i = i - 1;
    }
    None
}

/// The letter at a square: a new tile there, or else a fixed one.
fn letter_at(fixed: &Board, placed: &[Tile], row: i32, col: i32) -> (res: Option<u8>)
    ensures
        res == cell(fixed@, placed@, row as int, col as int),
{
    match lookup_slice(placed, row, col) {
        Some(l) => Some(l),
        None => fixed.get(row, col),
    }
}

fn letter_on(fixed: &Board, placed: &[Tile], k: i32, p: i32, across: bool) -> (res: Option<u8>)
    ensures
        res == cell_on(fixed@, placed@, k as int, p as int, across),
{
    if across {
        letter_at(fixed, placed, k, p)
    } else {
        letter_at(fixed, placed, p, k)
    }
}

proof fn lemma_tally_bounds(
    fixed: Seq<Tile>,
    placed: Seq<Tile>,
    k: int,
    s: int,
    n: int,
    across: bool,
)
    requires
        n >= 0,
    ensures
        word_tally(fixed, placed, k, s, n, across).0 <= 30 * n,
        word_tally(fixed, placed, k, s, n, across).1 <= line_count(k, s, s + n, across, false),
        word_tally(fixed, placed, k, s, n, across).2 <= line_count(k, s, s + n, across, true),
    decreases n,
{
    if n > 0 {
        lemma_tally_bounds(fixed, placed, k, s, n - 1, across);
        let (r, c) = line_square(k, s + n - 1, across);
        match cell(fixed, placed, r, c) {
            Some(l) => {
                assert(letter_score(l) <= 10);
            },
            None => {},
        }
    }
}

fn multiplier_value(d: u32, t: u32) -> (res: u64)
    requires
        multiplier_counts_ok(d as nat, t as nat),
    ensures
        res == multiplier_of(d as nat, t as nat),
{
    reveal_with_fuel(multiplier_of, 6);
    if d == 2 {
        4
    } else if d == 1 {
        if t == 0 {
            2
        } else if t == 1 {
            6
        } else {
            18
        }
    } else if t == 0 {
        1
    } else if t == 1 {
        3
    } else if t == 2 {
        9
    } else {
        27
    }
}

/// The word through `seed` along a direction, with its score.
fn score_word(fixed: &Board, placed: &[Tile], seed: Tile, across: bool) -> (res: Option<
    (String, u64),
>)
    ensures
        match word_at(fixed@, placed@, seed, across) {
            None => res is None,
            Some((letters, score)) => res matches Some((w, v)) && w@ == as_chars(letters) && v
                == score,
        },
{
    let ghost fx = fixed@;
    let ghost pl = placed@;
    let k: i32 = if across {
        seed.row
    } else {
        seed.col
    };
    let ghost p0: int = axis_of(seed, across);
    let mut p: i32 = if across {
        seed.col
    } else {
        seed.row
    };
    while p > i32::MIN && letter_on(fixed, placed, k, p - 1, across).is_some()
        invariant
            fx == fixed@,
            pl == placed@,
            run_start(fx, pl, k as int, p0, across) == run_start(fx, pl, k as int, p as int, across),
        decreases p - i32::MIN,
    {
        p = p - 1;
    }
    let s = p;
    assert(run_start(fx, pl, k as int, p0, across) == s);
    let mut q: i32 = s;
    let mut sum: u64 = 0;
    let mut d: u32 = 0;
    let mut t: u32 = 0;
    let mut word = String::new();
    loop
        invariant
            fx == fixed@,
            pl == placed@,
            s <= q,
            run_end(fx, pl, k as int, s as int, across) == run_end(
                fx,
                pl,
                k as int,
                q as int,
                across,
            ),
            (sum as nat, d as nat, t as nat) == word_tally(fx, pl, k as int, s as int, q - s, across),
            word@ == as_chars(word_letters(fx, pl, k as int, s as int, q - s, across)),
        ensures
            q == run_end(fx, pl, k as int, s as int, across),
            (sum as nat, d as nat, t as nat) == word_tally(fx, pl, k as int, s as int, q - s, across),
            word@ == as_chars(word_letters(fx, pl, k as int, s as int, q - s, across)),
        decreases i32::MAX - q,
    {
        if q >= i32::MAX {
            break;
        }
        let letter = match letter_on(fixed, placed, k, q, across) {
            Some(l) => l,
            None => break,
        };
        let (r, c) = if across {
            (k, q)
        } else {
            (q, k)
        };
        proof {
            lemma_tally_bounds(fx, pl, k as int, s as int, q - s, across);
            lemma_line_counts(k as int, s as int, q as int, across);
            lemma_line_counts(k as int, s as int, q + 1, across);
            lemma_tally_bounds(fx, pl, k as int, s as int, q + 1 - s, across);
        }
        let value = letter_value(letter) as u64;
        let prem = if lookup_slice(placed, r, c).is_some() {
            premium_at(r, c)
        } else {
            None
        };
        match prem {
            Some(Premium::Dl) => {
                sum = sum + 2 * value;
            },
            Some(Premium::Tl) => {
                sum = sum + 3 * value;
            },
            Some(Premium::Dw) => {
                sum = sum + value;
                d = d + 1;
            },
            Some(Premium::Tw) => {
                sum = sum + value;
                t = t + 1;
            },
            None => {
                sum = sum + value;
            },
        }
        let ghost before = word@;
        push_char(&mut word, letter as char);
        assert(word_letters(fx, pl, k as int, s as int, q + 1 - s, across) == word_letters(
            fx,
            pl,
            k as int,
            s as int,
            q - s,
            across,
        ).push(letter));
        q = q + 1;
    }
    let n: i64 = q as i64 - s as i64;
    if n < 2 {
        if n <= 0 {
            return None;
        }
        let first: u8 = match letter_on(fixed, placed, k, s, across) {
            Some(l) => l,
            None => 0,
        };
        assert(word_letters(fx, pl, k as int, s as int, n as int, across)[0] == first);
        if first < 0x80 {
            return None;
        }
    }
    proof {
        lemma_tally_bounds(fx, pl, k as int, s as int, n as int, across);
        lemma_line_counts(k as int, s as int, q as int, across);
        lemma_multiplier_bound(d as nat, t as nat);
    }
    let mult = multiplier_value(d, t);
    assert(sum * mult <= 30 * 0x1_0000_0000 * 27) by (nonlinear_arith)
        requires
            sum <= 30 * n,
            n <= 0x1_0000_0000,
            mult <= 27,
    ;
    Some((word, sum * mult))
}


/// The computed words stand for the specified ones, in order.
spec fn words_match(got: Seq<(String, u64)>, ws: Seq<(Seq<u8>, nat)>) -> bool {
    &&& got.len() == ws.len()
    &&& forall|i: int|
        #![trigger got[i]]
        0 <= i < ws.len() ==> got[i].0@ == as_chars(ws[i].0) && got[i].1 == ws[i].1
}

proof fn lemma_words_total_take(ws: Seq<(Seq<u8>, nat)>, i: int)
    requires
        0 <= i < ws.len(),
    ensures
        words_total(ws.take(i + 1)) == words_total(ws.take(i)) + ws[i].1,
{
    assert(ws.take(i + 1).drop_last() == ws.take(i));
}

proof fn lemma_words_total_bounds(ws: Seq<(Seq<u8>, nat)>)
    ensures
        forall|i: int| 0 <= i < ws.len() ==> #[trigger] ws[i].1 <= words_total(ws),
    decreases ws.len(),
{
    if ws.len() > 0 {
        lemma_words_total_bounds(ws.drop_last());
        assert forall|i: int| 0 <= i < ws.len() implies #[trigger] ws[i].1 <= words_total(ws) by {
            if i < ws.len() - 1 {
                assert(ws.drop_last()[i] == ws[i]);
            }
        }
    }
}

/// Validate a placement's geometry against the fixed board and score it:
/// premiums count only under new tiles, cross words count, and using all
/// seven tiles earns the bingo bonus.
pub fn score_placement(fixed: &Board, placed: &[Tile]) -> (res: Option<Scored>)
    requires
        squares_ok(placed@),
        score_fits(fixed@, placed@),
    ensures
        match scoring(fixed@, placed@) {
            None => res is None,
            Some((ws, bingo, total)) => res matches Some(sc) && reports(sc, ws, bingo, total),
        },
{
    let ghost fx = fixed@;
    let ghost pl = placed@;
    let n = placed.len();
    if n == 0 {
        return None;
    }
    let first = placed[0];
    let mut across = true;
    let mut down = true;
    let mut i: usize = 0;
    while i < n
        invariant
            n == pl.len(),
            pl == placed@,
            first == pl[0],
            i <= n,
            across == forall|j: int| 0 <= j < i ==> #[trigger] pl[j].row == first.row,
            down == forall|j: int| 0 <= j < i ==> #[trigger] pl[j].col == first.col,
        decreases n - i,
    {
        if placed[i].row != first.row {
            across = false;
        }
        if placed[i].col != first.col {
            down = false;
        }
        i = i + 1;
    }
    assert(across == same_row(pl));
    assert(down == same_col(pl));
    if !across && !down {
        return None;
    }
    let mut lo: i32 = if across {
        first.col
    } else {
        first.row
    };
    let mut hi: i32 = lo;
    let mut i: usize = 1;
    while i < n
        invariant
            n == pl.len(),
            pl == placed@,
            1 <= i <= n,
            lo == min_axis(pl, across, i as int),
            hi == max_axis(pl, across, i as int),
        decreases n - i,
    {
        let a = if across {
            placed[i].col
        } else {
            placed[i].row
        };
        if a < lo {
            lo = a;
        }
        if a > hi {
            hi = a;
        }
        i = i + 1;
    }
    let line = if across {
        first.row
    } else {
        first.col
    };
    let mut p: i64 = lo as i64;
    while p <= hi as i64
        invariant
            pl == placed@,
            fx == fixed@,
            lo <= p <= hi + 1,
            n == pl.len(),
            lo == min_axis(pl, across, n as int),
            hi == max_axis(pl, across, n as int),
            line == line_of(pl[0], across),
            across == same_row(pl),
            forall|q: int| lo <= q < p ==> #[trigger] cell_on(fx, pl, line as int, q, across) is Some,
        decreases hi + 1 - p,
    {
        if letter_on(fixed, placed, line, p as i32, across).is_none() {
            assert(!gap_free(fx, pl, across));
            return None;
        }
        p = p + 1;
    }
    assert(gap_free(fx, pl, across));
    let mut i: usize = 0;
    while i < n
        invariant
            n == pl.len(),
            pl == placed@,
            fx == fixed@,
            i <= n,
            forall|j: int| 0 <= j < i ==> #[trigger] lookup(fx, pl[j].row as int, pl[j].col as int) is None,
        decreases n - i,
    {
        if fixed.contains(placed[i].row, placed[i].col) {
            assert(overlaps_fixed(fx, pl));
            return None;
        }
        i = i + 1;
    }
    assert(!overlaps_fixed(fx, pl));
    let mut touches = false;
    let mut i: usize = 0;
    while i < n
        invariant
            n == pl.len(),
            pl == placed@,
            fx == fixed@,
            squares_ok(pl),
            i <= n,
            touches == exists|j: int| 0 <= j < i && #[trigger] beside_fixed(fx, pl[j]),
        decreases n - i,
    {
        let t = placed[i];
        assert(square_ok(pl[i as int]));
        let beside = fixed.contains(t.row, t.col - 1) || fixed.contains(t.row, t.col + 1)
            || fixed.contains(t.row - 1, t.col) || fixed.contains(t.row + 1, t.col);
        assert(beside == beside_fixed(fx, pl[i as int]));
        if beside {
            touches = true;
        }
        i = i + 1;
    }
    if !touches {
        return None;
    }
    assert(valid_placement(fx, pl));
    let mut words: Vec<(String, u64)> = Vec::new();
    let ghost main_part: Seq<(Seq<u8>, nat)> = match word_at(fx, pl, first, across) {
        Some(w) => seq![w],
        None => seq![],
    };
    match score_word(fixed, placed, first, across) {
        Some(w) => {
            words.push(w);
        },
        None => {},
    }
    assert(words_match(words@, main_part + cross_words(fx, pl, !across, 0)));
    let mut i: usize = 0;
    while i < n
        invariant
            n == pl.len(),
            pl == placed@,
            fx == fixed@,
            i <= n,
            words_match(words@, main_part + cross_words(fx, pl, !across, i as int)),
            words@.len() <= i + 1,
        decreases n - i,
    {
        let ghost before = words@;
        match score_word(fixed, placed, placed[i], !across) {
            Some(w) => {
                words.push(w);
            },
            None => {},
        }
        assert(main_part + cross_words(fx, pl, !across, i + 1) == (main_part + cross_words(
            fx,
            pl,
            !across,
            i as int,
        )) + match word_at(fx, pl, pl[i as int], !across) {
            Some(w) => seq![w],
            None => seq![],
        });
        i = i + 1;
    }
    let ghost ws = placement_words(fx, pl);
    assert(ws == main_part + cross_words(fx, pl, !across, n as int));
    if words.len() == 0 {
        return None;
    }
    let bingo = n == RACK_SIZE;
    proof {
        lemma_words_total_bounds(ws);
    }
    let mut total: u128 = 0;
    let mut out: Vec<ScoredWord> = Vec::new();
    let mut i: usize = 0;
    while i < words.len()
        invariant
            words_match(words@, ws),
            ws.len() > 0,
            i <= ws.len(),
            total == words_total(ws.take(i as int)),
            words_total(ws) <= u32::MAX,
            forall|j: int| 0 <= j < ws.len() ==> #[trigger] ws[j].1 <= words_total(ws),
            total <= i * 0x1_0000_0000,
            out@.len() == i,
            forall|j: int|
                0 <= j < i ==> #[trigger] out@[j].word@ == as_chars(ws[j].0) && out@[j].score
                    == ws[j].1,
        decreases ws.len() - i,
    {
        proof {
            lemma_words_total_take(ws, i as int);
        }
        let score = words[i].1;
        assert(words@[i as int].1 == ws[i as int].1);
        assert(score <= u32::MAX);
        total = total + score as u128;
        let word = words[i].0.clone();
        assert(word@ == as_chars(ws[i as int].0));
        let ghost prev = out@;
        out.push(ScoredWord { word, score: score as u32 });
        assert(forall|j: int| 0 <= j < i ==> out@[j] == prev[j]);
        assert(out@[i as int].word@ == as_chars(ws[i as int].0));
        assert(out@[i as int].score == ws[i as int].1);
        assert forall|j: int| 0 <= j < i + 1 implies #[trigger] out@[j].word@ == as_chars(ws[j].0)
            && out@[j].score == ws[j].1 by {
            if j < i {
                assert(out@[j] == prev[j]);
            }
        }
        i = i + 1;
    }
    assert(ws.take(ws.len() as int) == ws);
    let bonus: u32 = if bingo {
        BINGO_BONUS
    } else {
        0
    };
    assert(i == ws.len());
    assert(total == words_total(ws));
    let score = (total as u32) + bonus;
    assert(score == words_total(ws) + bonus as nat);
    let ghost outv = out@;
    let res = Scored { words: out, bingo, score };
    assert(res.words@ == outv);
    assert(outv.len() == ws.len());
    assert forall|j: int| 0 <= j < ws.len() implies #[trigger] res.words@[j].word@ == as_chars(ws[j].0)
        && res.words@[j].score == ws[j].1 by {
        assert(outv[j].word@ == as_chars(ws[j].0) && outv[j].score == ws[j].1);
    }
    assert(scoring(fx, pl) == Some((ws, bingo, words_total(ws) + bonus as nat)));
    assert(reports(res, ws, bingo, words_total(ws) + bonus as nat));
    Some(res)
}

/// A tile on one of the 15x15 squares.
pub open spec fn on_board(t: Tile) -> bool {
    0 <= t.row < BOARD_SIZE && 0 <= t.col < BOARD_SIZE
}

/// Every tile is on the board.
pub open spec fn on_grid(cells: Seq<Tile>) -> bool {
    forall|i: int| 0 <= i < cells.len() ==> #[trigger] on_board(cells[i])
}

proof fn lemma_off_grid_empty(fixed: Seq<Tile>, placed: Seq<Tile>, r: int, c: int)
    requires
        on_grid(fixed),
        on_grid(placed),
        !(0 <= r < 15 && 0 <= c < 15),
    ensures
        cell(fixed, placed, r, c) is None,
{
    lemma_lookup(fixed, r, c);
    lemma_lookup(placed, r, c);
    if lookup(placed, r, c) is Some {
        let i = choose|i: int| 0 <= i < placed.len() && #[trigger] placed[i].row == r && placed[i].col == c;
        assert(on_board(placed[i]));
    }
    if lookup(fixed, r, c) is Some {
        let i = choose|i: int| 0 <= i < fixed.len() && #[trigger] fixed[i].row == r && fixed[i].col == c;
        assert(on_board(fixed[i]));
    }
}

proof fn lemma_run_start_bound(fixed: Seq<Tile>, placed: Seq<Tile>, k: int, p: int, across: bool)
    requires
        on_grid(fixed),
        on_grid(placed),
        0 <= k < 15,
        0 <= p < 15,
    ensures
        0 <= run_start(fixed, placed, k, p, across) <= p,
    decreases p,
{
    if p == 0 {
        let (r, c) = line_square(k, p - 1, across);
        lemma_off_grid_empty(fixed, placed, r, c);
    } else {
        lemma_run_start_bound(fixed, placed, k, p - 1, across);
    }
}

proof fn lemma_run_end_bound(fixed: Seq<Tile>, placed: Seq<Tile>, k: int, p: int, across: bool)
    requires
        on_grid(fixed),
        on_grid(placed),
        0 <= k < 15,
        0 <= p <= 15,
    ensures
        p <= run_end(fixed, placed, k, p, across) <= 15,
    decreases 15 - p,
{
    if p == 15 {
        let (r, c) = line_square(k, p, across);
        lemma_off_grid_empty(fixed, placed, r, c);
    } else {
        lemma_run_end_bound(fixed, placed, k, p + 1, across);
    }
}

proof fn lemma_multiplier_counts_mono(d: nat, t: nat, d2: nat, t2: nat)
    requires
        multiplier_counts_ok(d2, t2),
        d <= d2,
        t <= t2,
    ensures
        multiplier_counts_ok(d, t),
{
}

/// A word through a tile on the board scores at most 15 squares of 30
/// points, times 27.
proof fn lemma_word_at_bound(fixed: Seq<Tile>, placed: Seq<Tile>, seed: Tile, across: bool)
    requires
        on_grid(fixed),
        on_grid(placed),
        on_board(seed),
    ensures
        word_at(fixed, placed, seed, across) matches Some(w) ==> w.1 <= 12150,
{
    let k = line_of(seed, across);
    let s = run_start(fixed, placed, k, axis_of(seed, across), across);
    lemma_run_start_bound(fixed, placed, k, axis_of(seed, across), across);
    lemma_run_end_bound(fixed, placed, k, s, across);
    let n = run_end(fixed, placed, k, s, across) - s;
    if n >= 1 {
        let (sum, d, t) = word_tally(fixed, placed, k, s, n, across);
        lemma_tally_bounds(fixed, placed, k, s, n, across);
        lemma_line_counts(k, s, s + n, across);
        lemma_multiplier_counts_mono(d, t, line_count(k, s, s + n, across, false), line_count(k, s, s + n, across, true));
        lemma_multiplier_bound(d, t);
        assert(sum * multiplier_of(d, t) <= 450 * 27) by (nonlinear_arith)
            requires
                sum <= 30 * n,
                n <= 15,
                multiplier_of(d, t) <= 27,
        ;
    }
}

proof fn lemma_cross_words_bound(fixed: Seq<Tile>, placed: Seq<Tile>, across: bool, n: int)
    requires
        on_grid(fixed),
        on_grid(placed),
        0 <= n <= placed.len(),
    ensures
        cross_words(fixed, placed, across, n).len() <= n,
        forall|i: int|
            0 <= i < cross_words(fixed, placed, across, n).len() ==> #[trigger] cross_words(
                fixed,
                placed,
                across,
                n,
            )[i].1 <= 12150,
    decreases n,
{
    if n > 0 {
        lemma_cross_words_bound(fixed, placed, across, n - 1);
        assert(on_board(placed[n - 1]));
        lemma_word_at_bound(fixed, placed, placed[n - 1], across);
    }
}

proof fn lemma_words_total_cap(ws: Seq<(Seq<u8>, nat)>)
    requires
        forall|i: int| 0 <= i < ws.len() ==> #[trigger] ws[i].1 <= 12150,
    ensures
        words_total(ws) <= 12150 * ws.len(),
    decreases ws.len(),
{
    if ws.len() > 0 {
        lemma_words_total_cap(ws.drop_last());
    }
}

/// A placement on the board of at most a thousand tiles, against fixed
/// tiles on the board, scores within `u32`.
pub proof fn lemma_score_fits(fixed: Seq<Tile>, placed: Seq<Tile>)
    requires
        on_grid(fixed),
        on_grid(placed),
        placed.len() <= 1000,
    ensures
        score_fits(fixed, placed),
{
    if valid_placement(fixed, placed) {
        let across = same_row(placed);
        assert(on_board(placed[0]));
        lemma_word_at_bound(fixed, placed, placed[0], across);
        lemma_cross_words_bound(fixed, placed, !across, placed.len() as int);
        let ws = placement_words(fixed, placed);
        let main = match word_at(fixed, placed, placed[0], across) {
            Some(w) => seq![w],
            None => seq![],
        };
        let cross = cross_words(fixed, placed, !across, placed.len() as int);
        assert(ws == main + cross);
        assert forall|i: int| 0 <= i < ws.len() implies #[trigger] ws[i].1 <= 12150 by {
            if i < main.len() {
                assert(ws[i] == main[i]);
            } else {
                assert(ws[i] == cross[i - main.len()]);
            }
        }
        lemma_words_total_cap(ws);
        assert(12150 * ws.len() <= 12150 * 1001) by (nonlinear_arith)
            requires
                ws.len() <= 1001,
        ;
    }
}

/// Using all seven rack tiles is a bingo, worth 50 points on top of the
/// words' scores.
pub proof fn lemma_bingo_bonus(fixed: Seq<Tile>, placed: Seq<Tile>)
    ensures
        scoring(fixed, placed) matches Some((ws, bingo, total)) ==> bingo == (placed.len() == 7)
            && total == words_total(ws) + if bingo {
            50nat
        } else {
            0nat
        },
{
}


/// Letter premiums count under new tiles only: each square of a word adds
/// its letter's value to the letter sum, three times over on a
/// triple-letter square and twice on a double-letter square when its tile
/// is new; a new tile on a word-premium square adds its value once and
/// counts the word premium; an old tile adds its value once.
pub proof fn lemma_letter_premiums(
    fixed: Seq<Tile>,
    placed: Seq<Tile>,
    k: int,
    s: int,
    n: int,
    across: bool,
    l: u8,
)
    requires
        n >= 1,
        cell_on(fixed, placed, k, s + n - 1, across) == Some(l),
    ensures
        ({
            let (sum0, d0, t0) = word_tally(fixed, placed, k, s, n - 1, across);
            let (sum, d, t) = word_tally(fixed, placed, k, s, n, across);
            let (r, c) = line_square(k, s + n - 1, across);
            let fresh = lookup(placed, r, c) is Some;
            let v = letter_score(l);
            &&& fresh && premium(r, c) == Some(Premium::Tl) ==> sum == sum0 + 3 * v && d == d0 && t == t0
            &&& fresh && premium(r, c) == Some(Premium::Dl) ==> sum == sum0 + 2 * v && d == d0 && t == t0
            &&& fresh && premium(r, c) == Some(Premium::Dw) ==> sum == sum0 + v && d == d0 + 1 && t == t0
            &&& fresh && premium(r, c) == Some(Premium::Tw) ==> sum == sum0 + v && d == d0 && t == t0 + 1
            &&& (!fresh || premium(r, c) is None) ==> sum == sum0 + v && d == d0 && t == t0
        }),
{
}


/// A placement of all seven rack tiles is a bingo and earns fifty points
/// on top of its words; any other placement earns its words' scores alone.
pub proof fn lemma_bingo(fixed: Seq<Tile>, placed: Seq<Tile>)
    ensures
        scoring(fixed, placed) matches Some((ws, bingo, total)) ==> bingo == (placed.len() == 7)
            && total == words_total(ws) + if placed.len() == 7 {
            50int
        } else {
            0int
        },
{
}

/// A word's multiplier doubles for each new tile on a double-word square
/// and triples for each on a triple-word square.
pub proof fn lemma_word_multiplier(d: nat, t: nat)
    ensures
        multiplier_of(d, t) == vstd::arithmetic::power::pow(2, d) * vstd::arithmetic::power::pow(3, t),
    decreases d + t,
{
    reveal(vstd::arithmetic::power::pow);
    if d > 0 {
        lemma_word_multiplier((d - 1) as nat, t);
        assert(vstd::arithmetic::power::pow(2, d) == 2 * vstd::arithmetic::power::pow(2, (d - 1) as nat));
        vstd::arithmetic::mul::lemma_mul_is_associative(
            2,
            vstd::arithmetic::power::pow(2, (d - 1) as nat),
            vstd::arithmetic::power::pow(3, t),
        );
    } else if t > 0 {
        lemma_word_multiplier(d, (t - 1) as nat);
        assert(vstd::arithmetic::power::pow(3, t) == 3 * vstd::arithmetic::power::pow(3, (t - 1) as nat));
        assert(vstd::arithmetic::power::pow(2, d) == 1);
    }
}

} // verus!
