//! Letter values, the letter bag and the premium squares of the board.

use vstd::prelude::*;

verus! {

/// Dutch Scrabble letter values; anything that is not a capital letter
/// scores nothing.
pub open spec fn letter_score(letter: u8) -> nat {
    if letter == 65 || letter == 69 || letter == 73 || letter == 78 || letter == 79 {
        1
    } else if letter == 68 || letter == 82 || letter == 83 || letter == 84 {
        2
    } else if letter == 66 || letter == 71 || letter == 75 || letter == 76 || letter == 77
        || letter == 80 {
        3
    } else if letter == 70 || letter == 72 || letter == 74 || letter == 85 || letter == 86
        || letter == 90 {
        4
    } else if letter == 67 || letter == 87 {
        5
    } else if letter == 88 || letter == 89 {
        8
    } else if letter == 81 {
        10
    } else {
        0
    }
}

/// Dutch Scrabble letter values.
pub fn letter_value(letter: u8) -> (res: u32)
    ensures
        res == letter_score(letter),
        res <= 10,
{
    match letter {
        65u8 | 69u8 | 73u8 | 78u8 | 79u8 => 1,
        68u8 | 82u8 | 83u8 | 84u8 => 2,
        66u8 | 71u8 | 75u8 | 76u8 | 77u8 | 80u8 => 3,
        70u8 | 72u8 | 74u8 | 85u8 | 86u8 | 90u8 => 4,
        67u8 | 87u8 => 5,
        88u8 | 89u8 => 8,
        81u8 => 10,
        _ => 0,
    }
}

pub open spec fn vowel(letter: u8) -> bool {
    letter == 65 || letter == 69 || letter == 73 || letter == 79 || letter == 85
}

pub fn is_vowel(letter: u8) -> (res: bool)
    ensures
        res == vowel(letter),
{
    letter == 65u8 || letter == 69u8 || letter == 73u8 || letter == 79u8 || letter == 85u8
}

/// How many tiles of each letter the official Dutch Scrabble bag holds
/// (blanks left out).
pub open spec fn bag_count(letter: u8) -> nat {
    if letter == 65 || letter == 79 {
        6
    } else if letter == 66 || letter == 67 || letter == 70 || letter == 72 || letter == 74
        || letter == 80 || letter == 86 || letter == 87 || letter == 90 {
        2
    } else if letter == 68 || letter == 82 || letter == 83 || letter == 84 {
        5
    } else if letter == 69 {
        18
    } else if letter == 71 || letter == 75 || letter == 76 || letter == 77 || letter == 85 {
        3
    } else if letter == 73 {
        4
    } else if letter == 78 {
        10
    } else if letter == 81 || letter == 88 || letter == 89 {
        1
    } else {
        0
    }
}

/// The bag count of a capital letter.
pub fn bag_count_of(letter: u8) -> (res: u8)
    ensures
        res == bag_count(letter),
{
    match letter {
        65u8 | 79u8 => 6,
        66u8 | 67u8 | 70u8 | 72u8 | 74u8 | 80u8 | 86u8 | 87u8 | 90u8 => 2,
        68u8 | 82u8 | 83u8 | 84u8 => 5,
        69u8 => 18,
        71u8 | 75u8 | 76u8 | 77u8 | 85u8 => 3,
        73u8 => 4,
        78u8 => 10,
        81u8 | 88u8 | 89u8 => 1,
        _ => 0,
    }
}

/// The side of the board.
pub const BOARD_SIZE: i32 = 15;

/// The centre row and column.
pub const CENTER: i32 = 7;

#[derive(Clone, Copy, PartialEq, Eq, Structural, Debug)]
pub enum Premium {
    Tw,
    Dw,
    Tl,
    Dl,
}

/// The premium of a square of the upper-left quadrant (rows and columns
/// 0 to 7) of the official layout.
pub open spec fn quadrant_premium(r: int, c: int) -> Option<Premium> {
    if (r == 0 && c == 0) || (r == 0 && c == 7) || (r == 7 && c == 0) {
        Some(Premium::Tw)
    } else if (r == c && 1 <= r <= 4) || (r == 7 && c == 7) {
        Some(Premium::Dw)
    } else if (r == 1 && c == 5) || (r == 5 && c == 1) || (r == 5 && c == 5) {
        Some(Premium::Tl)
    } else if (r == 0 && c == 3) || (r == 3 && c == 0) || (r == 2 && c == 6) || (r == 6 && c == 2)
        || (r == 3 && c == 7) || (r == 7 && c == 3) || (r == 6 && c == 6) {
        Some(Premium::Dl)
    } else {
        None
    }
}

/// Mirror a coordinate into the upper-left quadrant.
pub open spec fn mirror(i: int) -> int {
    if i <= 7 {
        i
    } else {
        14 - i
    }
}

/// The premium of a square: the layout is the upper-left quadrant
/// mirrored across the centre row and column; off the board there is none.
pub open spec fn premium(row: int, col: int) -> Option<Premium> {
    let r = mirror(row);
    let c = mirror(col);
    if 0 <= r < 8 && 0 <= c < 8 {
        quadrant_premium(r, c)
    } else {
        None
    }
}

fn quadrant_at(r: i32, c: i32) -> (res: Option<Premium>)
    requires
        0 <= r < 8,
        0 <= c < 8,
    ensures
        res == quadrant_premium(r as int, c as int),
{
    if (r == 0 && c == 0) || (r == 0 && c == 7) || (r == 7 && c == 0) {
        Some(Premium::Tw)
    } else if (r == c && 1 <= r && r <= 4) || (r == 7 && c == 7) {
        Some(Premium::Dw)
    } else if (r == 1 && c == 5) || (r == 5 && c == 1) || (r == 5 && c == 5) {
        Some(Premium::Tl)
    } else if (r == 0 && c == 3) || (r == 3 && c == 0) || (r == 2 && c == 6) || (r == 6 && c == 2)
        || (r == 3 && c == 7) || (r == 7 && c == 3) || (r == 6 && c == 6) {
        Some(Premium::Dl)
    } else {
        None
    }
}

/// Official Scrabble premium layout, upper-left quadrant, mirrored.
pub fn premium_at(row: i32, col: i32) -> (res: Option<Premium>)
    ensures
        res == premium(row as int, col as int),
{
    let r = if row <= CENTER {
        row
    } else {
        BOARD_SIZE - 1 - row
    };
    let c = if col <= CENTER {
        col
    } else {
        BOARD_SIZE - 1 - col
    };
    if 0 <= r && r < 8 && 0 <= c && c < 8 {
        quadrant_at(r, c)
    } else {
        None
    }
}

/// The square at position `p` of line `k`: row `k` across, column `k` down.
pub open spec fn line_square(k: int, p: int, across: bool) -> (int, int) {
    if across {
        (k, p)
    } else {
        (p, k)
    }
}

/// A square that doubles (`triple == false`) or triples the word.
pub open spec fn word_premium(row: int, col: int, triple: bool) -> bool {
    premium(row, col) == if triple {
        Some(Premium::Tw)
    } else {
        Some(Premium::Dw)
    }
}

/// How many word-doubling (or word-tripling) squares line `k` has at
/// positions `a..b`.
pub open spec fn line_count(k: int, a: int, b: int, across: bool, triple: bool) -> nat
    decreases b - a,
{
    if b <= a {
        0
    } else {
        let (r, c) = line_square(k, b - 1, across);
        line_count(k, a, b - 1, across, triple) + if word_premium(r, c, triple) {
            1nat
        } else {
            0nat
        }
    }
}

/// The word-multiplier counts a stretch of a line can have: at most two
/// doublings, or one doubling and two triplings, or three triplings.
pub open spec fn multiplier_counts_ok(d: nat, t: nat) -> bool {
    &&& d <= 2
    &&& t <= 3
    &&& d >= 1 ==> t <= 2
    &&& d == 2 ==> t == 0
}

proof fn lemma_premium_symmetric(r: int, c: int)
    ensures
        premium(r, c) == premium(c, r),
{
}

proof fn lemma_line_count_transpose(k: int, a: int, b: int, triple: bool)
    ensures
        line_count(k, a, b, false, triple) == line_count(k, a, b, true, triple),
    decreases b - a,
{
    if b > a {
        lemma_premium_symmetric(k, b - 1);
        lemma_line_count_transpose(k, a, b - 1, triple);
    }
}

proof fn lemma_line_count_split(k: int, a: int, m: int, b: int, across: bool, triple: bool)
    requires
        a <= m <= b,
    ensures
        line_count(k, a, b, across, triple) == line_count(k, a, m, across, triple) + line_count(
            k,
            m,
            b,
            across,
            triple,
        ),
    decreases b - m,
{
    if b > m {
        lemma_line_count_split(k, a, m, b - 1, across, triple);
    }
}

proof fn lemma_line_count_outside(k: int, a: int, b: int, across: bool, triple: bool)
    requires
        b <= 0 || a >= 15 || k < 0 || k >= 15,
    ensures
        line_count(k, a, b, across, triple) == 0,
    decreases b - a,
{
    if b > a {
        lemma_line_count_outside(k, a, b - 1, across, triple);
    }
}

proof fn lemma_full_row(k: int)
    requires
        0 <= k < 15,
    ensures
        multiplier_counts_ok(line_count(k, 0, 15, true, false), line_count(k, 0, 15, true, true)),
{
    reveal_with_fuel(line_count, 16);
    if k == 0 {
    } else if k == 1 {
    } else if k == 2 {
    } else if k == 3 {
    } else if k == 4 {
    } else if k == 5 {
    } else if k == 6 {
    } else if k == 7 {
    } else if k == 8 {
    } else if k == 9 {
    } else if k == 10 {
    } else if k == 11 {
    } else if k == 12 {
    } else if k == 13 {
    } else {
    }
}

/// Any stretch of any line crosses at most two word-doubling squares, or
/// one doubling and two tripling squares, or three tripling squares.
pub proof fn lemma_line_counts(k: int, a: int, b: int, across: bool)
    ensures
        multiplier_counts_ok(line_count(k, a, b, across, false), line_count(k, a, b, across, true)),
{
    lemma_line_count_transpose(k, a, b, false);
    lemma_line_count_transpose(k, a, b, true);
    if b <= a || b <= 0 || a >= 15 || k < 0 || k >= 15 {
        if b > a {
            lemma_line_count_outside(k, a, b, true, false);
            lemma_line_count_outside(k, a, b, true, true);
        }
    } else {
        lemma_full_row(k);
        let lo = if a < 0 {
            0
        } else {
            a
        };
        let hi = if b > 15 {
            15
        } else {
            b
        };
        lemma_line_count_split(k, a, lo, b, true, false);
        lemma_line_count_split(k, lo, hi, b, true, false);
        lemma_line_count_split(k, a, lo, b, true, true);
        lemma_line_count_split(k, lo, hi, b, true, true);
        if a < 0 {
            lemma_line_count_outside(k, a, lo, true, false);
            lemma_line_count_outside(k, a, lo, true, true);
        }
        if b > 15 {
            lemma_line_count_outside(k, hi, b, true, false);
            lemma_line_count_outside(k, hi, b, true, true);
        }
        lemma_line_count_split(k, 0, lo, 15, true, false);
        lemma_line_count_split(k, lo, hi, 15, true, false);
        lemma_line_count_split(k, 0, lo, 15, true, true);
        lemma_line_count_split(k, lo, hi, 15, true, true);
    }
}

/// The word multiplier of `d` doublings and `t` triplings.
pub open spec fn multiplier_of(d: nat, t: nat) -> nat
    decreases d + t,
{
    if d > 0 {
        2 * multiplier_of((d - 1) as nat, t)
    } else if t > 0 {
        3 * multiplier_of(d, (t - 1) as nat)
    } else {
        1
    }
}

/// A word multiplier never exceeds 27.
pub proof fn lemma_multiplier_bound(d: nat, t: nat)
    requires
        multiplier_counts_ok(d, t),
    ensures
        1 <= multiplier_of(d, t) <= 27,
{
    reveal_with_fuel(multiplier_of, 6);
}

} // verus!
