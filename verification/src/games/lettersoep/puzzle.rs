//! The daily puzzle: two crossing opening words, a rack drawn from the bag,
//! and a view of the board, retried until the puzzle has enough moves.

use super::board::{lemma_lookup, lookup, put, square_index, Board, Tile};
use super::bag::{bag_of, draw_rack, lemma_bag_of_capitals, lemma_bag_of_len, lemma_rack_draw, rack_draw};
use super::dict::{compare_bytes, lemma_lex_trichotomy, lemma_lex_transitive, lex_lt, strictly_sorted, LexOrder};
use super::moves::{
    best_score, board_letters, capitals, find_all_moves, good_move, legal, legal_set,
    lemma_moves_summary, lemma_on_grid_scores_fit, letters_of, longest, Move,
};
use super::scoring::{as_chars, on_board, scoring, square_ok};
use crate::text::push_decimal;
use super::dict::Dictionary;
use super::rng::{draws_for, fnv1a, fnv1a_of, mulberry, state_after, Rng};
use crate::clock::{date_text, format_day};
use crate::text::{pieces, split_on, str_eq, to_uppercase, trim, trimmed, uppercase};
use vstd::prelude::*;
use vstd::string::StringExecFns;
use vstd::string::StringSliceAdditionalSpecFns;
use vstd::utf8::encode_utf8;

verus! {

/// The generator's version, part of every seed.
pub const GENERATOR_VERSION: &'static str = "v1";

/// The day number (January 1 of year 1 being day 1) of launch day,
/// 2026-10-01: puzzle #1 appears then.
pub const EPOCH_DAY: i32 = 739890;

/// Launch day, as a day number.
pub fn epoch() -> (res: i32)
    ensures
        res == EPOCH_DAY,
{
    EPOCH_DAY
}

/// The text hashed into the seed of a date: `lettersoep:v1:YYYY-MM-DD`.
pub open spec fn seed_text(date: Seq<char>) -> Seq<char> {
    "lettersoep:"@ + GENERATOR_VERSION@ + ":"@ + date
}

/// The seed of a day's puzzle: FNV-1a of its seed text, or `None` for a day
/// chrono cannot represent.
pub fn seed_for_date(day: i32) -> (res: Option<u32>)
    ensures
        match date_text(day as int) {
            Some(t) => res == Some(fnv1a_of(encode_utf8(seed_text(t)))),
            None => res is None,
        },
{
    match format_day(day) {
        None => None,
        Some(date) => {
            let mut text = String::from_str("lettersoep:");
            text.append(GENERATOR_VERSION);
            text.append(":");
            text.append(date.as_str());
            let h = fnv1a(text.as_str());
            Some(h)
        },
    }
}

/// The number of a day's puzzle: launch day is #1.
pub fn puzzle_number(day: i32) -> (res: i64)
    ensures
        res == day - EPOCH_DAY + 1,
{
    day as i64 - EPOCH_DAY as i64 + 1
}

/// The opening word a line of the word list gives: trimmed and upper-cased.
pub open spec fn opening_of(line: Seq<char>) -> Seq<char> {
    uppercase(trimmed(line))
}

/// The opening words of some lines, in order: five bytes long and in the
/// dictionary.
pub open spec fn openings_from(lines: Seq<Seq<char>>, dict: Seq<Seq<u8>>) -> Seq<Seq<char>>
    decreases lines.len(),
{
    if lines.len() == 0 {
        seq![]
    } else {
        let rest = openings_from(lines.drop_last(), dict);
        let w = opening_of(lines.last());
        if encode_utf8(w).len() == 5 && dict.contains(encode_utf8(w)) {
            rest.push(w)
        } else {
            rest
        }
    }
}

/// The opening words of a word-list text (one word per line), kept in
/// file order: the generator indexes into this list.
pub fn opening_words(text: &str, dict: &Dictionary) -> (res: Vec<String>)
    ensures
        res@.map_values(|s: String| s@) == openings_from(pieces(text@, '\n'), dict@),
{
    let lines = split_on(text, '\n');
    let ghost ls = pieces(text@, '\n');
    proof {
        assert forall|k: int| 0 <= k < lines@.len() implies #[trigger] lines@[k]@ == ls[k] by {
            assert(lines@.map_values(|p: &str| p@)[k] == lines@[k]@);
        }
    }
    let mut res: Vec<String> = Vec::new();
    let mut i: usize = 0;
    while i < lines.len()
        invariant
            i <= lines@.len(),
            lines@.len() == ls.len(),
            forall|k: int| 0 <= k < lines@.len() ==> #[trigger] lines@[k]@ == ls[k],
            res@.map_values(|s: String| s@) == openings_from(ls.take(i as int), dict@),
        decreases lines@.len() - i,
    {
        let word = to_uppercase(trim(lines[i]));
        let ghost before = res@;
        assert(ls.take(i + 1).drop_last() == ls.take(i as int));
        let bytes = word.as_str().as_bytes();
        if bytes.len() == 5 && dict.contains(bytes) {
            res.push(word);
            assert(res@.map_values(|s: String| s@) == before.map_values(|s: String| s@).push(
                opening_of(ls[i as int]),
            ));
        }
        i = i + 1;
    }
    assert(ls.take(ls.len() as int) == ls);
    res
}

/// What `next_below(bound)` yields from state `s`: the value and the new
/// state.
pub open spec fn draw(s: u32, bound: u32) -> (u32, u32) {
    let st = state_after(s, draws_for(s, bound));
    ((mulberry(st) % bound) as u32, st)
}

/// A word laid on the board.
pub struct PlacedWord {
    pub row: i32,
    pub col: i32,
    pub dir: &'static str,
    pub word: String,
}

/// The positions `(i1, i2)` with `a[i1] == b[i2]`, for `i2` below `m`.
pub open spec fn row_crossings(a: Seq<u8>, b: Seq<u8>, i1: int, m: int) -> Seq<(int, int)>
    decreases m,
{
    if m <= 0 {
        seq![]
    } else {
        let rest = row_crossings(a, b, i1, m - 1);
        if a[i1] == b[m - 1] {
            rest.push((i1, m - 1))
        } else {
            rest
        }
    }
}

/// The positions `(i1, i2)` where the two words share a letter, for `i1`
/// below `n`, ordered by `i1` and then `i2`.
pub open spec fn crossings(a: Seq<u8>, b: Seq<u8>, n: int) -> Seq<(int, int)>
    decreases n,
{
    if n <= 0 {
        seq![]
    } else {
        crossings(a, b, n - 1) + row_crossings(a, b, n - 1, b.len() as int)
    }
}

pub open spec fn pairs_view(v: Seq<(i32, i32)>) -> Seq<(int, int)> {
    v.map_values(|p: (i32, i32)| (p.0 as int, p.1 as int))
}

proof fn lemma_row_crossings_len(a: Seq<u8>, b: Seq<u8>, i1: int, m: int)
    requires
        0 <= m,
    ensures
        row_crossings(a, b, i1, m).len() <= m,
        forall|k: int|
            0 <= k < row_crossings(a, b, i1, m).len() ==> #[trigger] row_crossings(a, b, i1, m)[k].0
                == i1 && 0 <= row_crossings(a, b, i1, m)[k].1 < m,
    decreases m,
{
    if m > 0 {
        lemma_row_crossings_len(a, b, i1, m - 1);
        let rest = row_crossings(a, b, i1, m - 1);
        let all = row_crossings(a, b, i1, m);
        assert forall|k: int| 0 <= k < all.len() implies #[trigger] all[k].0 == i1 && 0 <= all[k].1 < m by {
            if k < rest.len() {
                assert(all[k] == rest[k]);
            }
        }
    }
}

proof fn lemma_crossings_len(a: Seq<u8>, b: Seq<u8>, n: int)
    requires
        0 <= n,
    ensures
        crossings(a, b, n).len() <= n * b.len(),
        forall|k: int|
            0 <= k < crossings(a, b, n).len() ==> 0 <= #[trigger] crossings(a, b, n)[k].0 < n && 0
                <= crossings(a, b, n)[k].1 < b.len(),
    decreases n,
{
    if n > 0 {
        lemma_crossings_len(a, b, n - 1);
        lemma_row_crossings_len(a, b, n - 1, b.len() as int);
        let prev = crossings(a, b, n - 1);
        let row = row_crossings(a, b, n - 1, b.len() as int);
        assert forall|k: int| 0 <= k < crossings(a, b, n).len() implies 0 <= #[trigger] crossings(a, b, n)[k].0
            < n && 0 <= crossings(a, b, n)[k].1 < b.len() by {
            if k < prev.len() {
                assert(crossings(a, b, n)[k] == prev[k]);
            } else {
                assert(crossings(a, b, n)[k] == row[k - prev.len()]);
            }
        }
        assert((n - 1) * b.len() + b.len() == n * b.len()) by (nonlinear_arith);
    }
}

/// The positions where two words share a letter.
fn find_crossings(a: &[u8], b: &[u8]) -> (res: Vec<(i32, i32)>)
    requires
        a@.len() <= 15,
        b@.len() <= 15,
    ensures
        pairs_view(res@) == crossings(a@, b@, a@.len() as int),
{
    let mut res: Vec<(i32, i32)> = Vec::new();
    let mut i1: usize = 0;
    while i1 < a.len()
        invariant
            i1 <= a@.len(),
            a@.len() <= 15,
            b@.len() <= 15,
            pairs_view(res@) == crossings(a@, b@, i1 as int),
        decreases a@.len() - i1,
    {
        let ghost base = pairs_view(res@);
        let mut i2: usize = 0;
        while i2 < b.len()
            invariant
                i1 < a@.len(),
                i2 <= b@.len(),
                a@.len() <= 15,
                b@.len() <= 15,
                pairs_view(res@) == base + row_crossings(a@, b@, i1 as int, i2 as int),
            decreases b@.len() - i2,
        {
            if a[i1] == b[i2] {
                let ghost before = res@;
                res.push((i1 as i32, i2 as i32));
                assert(pairs_view(res@) == pairs_view(before).push((i1 as int, i2 as int)));
            }
            i2 = i2 + 1;
        }
        i1 = i1 + 1;
    }
    res
}

/// The tries for a second opening word crossing the first (word `fi`,
/// centred at its letter `ci`): each draws a word, and, if it differs from
/// the first and shares a letter with it, draws one crossing; the pair
/// must stay inside the board's border. The result is the chosen word and
/// crossing, if any, and the final state.
pub open spec fn second_try(op: Seq<Seq<char>>, fi: int, ci: int, s: u32, tries: nat) -> (
    Option<(int, int, int)>,
    u32,
)
    decreases tries,
{
    if tries == 0 {
        (None, s)
    } else {
        let (v, s1) = draw(s, op.len() as u32);
        let si = v as int;
        if op[si] == op[fi] {
            second_try(op, fi, ci, s1, (tries - 1) as nat)
        } else {
            let a = encode_utf8(op[fi]);
            let b = encode_utf8(op[si]);
            let cr = crossings(a, b, a.len() as int);
            if cr.len() == 0 {
                second_try(op, fi, ci, s1, (tries - 1) as nat)
            } else {
                let (c, s2) = draw(s1, cr.len() as u32);
                let (i1, i2) = cr[c as int];
                let second_row = 7 - i2;
                let first_col = 7 - ci;
                if second_row < 1 || second_row + b.len() > 14 || first_col < 1 || first_col + a.len()
                    > 14 {
                    second_try(op, fi, ci, s2, (tries - 1) as nat)
                } else {
                    (Some((si, i1, i2)), s2)
                }
            }
        }
    }
}

/// The opening: a first word drawn and centred on a drawn letter, then up
/// to twenty tries for a second word crossing it. The result is the first
/// word, its centred letter, the second word and the crossing, if any,
/// and the final state.
pub open spec fn opening_pick(op: Seq<Seq<char>>, s: u32) -> (Option<(int, int, int, int, int)>, u32) {
    let (v1, s1) = draw(s, op.len() as u32);
    let fi = v1 as int;
    let (v2, s2) = draw(s1, encode_utf8(op[fi]).len() as u32);
    let ci = v2 as int;
    match second_try(op, fi, ci, s2, 20) {
        (None, st) => (None, st),
        (Some((si, i1, i2)), st) => (Some((fi, ci, si, i1, i2)), st),
    }
}

/// The two placed words of an opening.
pub open spec fn placed_as(
    v: Seq<PlacedWord>,
    op: Seq<Seq<char>>,
    fi: int,
    ci: int,
    si: int,
    i1: int,
    i2: int,
) -> bool {
    &&& v.len() == 2
    &&& v[0].row == 7 && v[0].col == 7 - ci && v[0].dir@ == "across"@ && v[0].word@ == op[fi]
    &&& v[1].row == 7 - i2 && v[1].col == 7 - ci + i1 && v[1].dir@ == "down"@ && v[1].word@ == op[si]
}

/// Opening words usable by the generator: at least one, each of 1 to 15
/// bytes.
pub open spec fn openings_ok(op: Seq<Seq<char>>) -> bool {
    &&& 1 <= op.len() <= u32::MAX
    &&& forall|i: int| 0 <= i < op.len() ==> 1 <= #[trigger] encode_utf8(op[i]).len() <= 15
}

/// Up to twenty tries for the second opening word.
fn try_second(rng: &mut Rng, openings: &Vec<String>, fi: usize, ci: i32, Ghost(op): Ghost<Seq<Seq<char>>>) -> (res: Option<(usize, i32, i32)>)
    requires
        op == openings@.map_values(|s: String| s@),
        openings_ok(op),
        fi < op.len(),
        0 <= ci < 15,
    ensures
        match second_try(op, fi as int, ci as int, old(rng)@, 20) {
            (None, st) => res is None && final(rng)@ == st,
            (Some((si, i1, i2)), st) => (res matches Some((a, b, c)) && a == si && b == i1 && c == i2)
                && final(rng)@ == st,
        },
        res matches Some((a, b, c)) ==> a < op.len() && 0 <= b < 15 && 0 <= c < 15,
{
    let ghost s0 = rng@;
    let first = openings[fi].as_str();
    assert(first@ == op[fi as int]);
    let a = first.as_bytes();
    let first_col = 7 - ci;
    let mut t: usize = 0;
    while t < 20
        invariant
            op == openings@.map_values(|s: String| s@),
            openings_ok(op),
            fi < op.len(),
            0 <= ci < 15,
            first@ == op[fi as int],
            a@ == encode_utf8(op[fi as int]),
            first_col == 7 - ci,
            s0 == old(rng)@,
            t <= 20,
            second_try(op, fi as int, ci as int, s0, 20) == second_try(op, fi as int, ci as int, rng@, (20 - t) as nat),
        decreases 20 - t,
    {
        let ghost st = rng@;
        let ghost tries = (20 - t) as nat;
        assert(tries > 0);
        let si = rng.next_below(openings.len() as u32) as usize;
        let ghost s1 = rng@;
        assert(draw(st, op.len() as u32) == (si as u32, s1));
        let second = openings[si].as_str();
        assert(second@ == op[si as int]);
        assert(1 <= encode_utf8(op[si as int]).len() <= 15);
        if str_eq(second, first) {
            assert(second_try(op, fi as int, ci as int, st, tries) == second_try(op, fi as int, ci as int, s1, (tries - 1) as nat));
            t = t + 1;
            continue;
        }
        let b = second.as_bytes();
        let crossings = find_crossings(a, b);
        if crossings.len() == 0 {
            assert(second_try(op, fi as int, ci as int, st, tries) == second_try(op, fi as int, ci as int, s1, (tries - 1) as nat));
            t = t + 1;
            continue;
        }
        proof {
            lemma_crossings_len(a@, b@, a@.len() as int);
            assert(crossings@.len() <= 225) by (nonlinear_arith)
                requires
                    crossings@.len() <= a@.len() * b@.len(),
                    a@.len() <= 15,
                    b@.len() <= 15,
            ;
        }
        let c = rng.next_below(crossings.len() as u32) as usize;
        let ghost s2 = rng@;
        assert(draw(s1, crossings@.len() as u32) == (c as u32, s2));
        let (i1, i2) = crossings[c];
        assert(pairs_view(crossings@)[c as int] == (i1 as int, i2 as int));
        let second_row = 7 - i2;
        if second_row < 1 || second_row + b.len() as i32 > 14 {
            assert(second_try(op, fi as int, ci as int, st, tries) == second_try(op, fi as int, ci as int, s2, (tries - 1) as nat));
            t = t + 1;
            continue;
        }
        if first_col < 1 || first_col + a.len() as i32 > 14 {
            assert(second_try(op, fi as int, ci as int, st, tries) == second_try(op, fi as int, ci as int, s2, (tries - 1) as nat));
            t = t + 1;
            continue;
        }
        assert(second_try(op, fi as int, ci as int, st, tries) == (Some((si as int, i1 as int, i2 as int)), s2));
        assert(second_try(op, fi as int, ci as int, s0, 20) == (Some((si as int, i1 as int, i2 as int)), s2));
        assert(s0 == old(rng)@);
        assert(rng@ == s2);
        return Some((si, i1, i2));
    }
    None
}

/// Draw the two crossing opening words.
fn place_opening_words(rng: &mut Rng, openings: &Vec<String>) -> (res: Option<Vec<PlacedWord>>)
    requires
        openings_ok(openings@.map_values(|s: String| s@)),
    ensures
        match opening_pick(openings@.map_values(|s: String| s@), old(rng)@) {
            (None, st) => res is None && final(rng)@ == st,
            (Some((fi, ci, si, i1, i2)), st) => final(rng)@ == st && (res matches Some(v) && placed_as(
                v@,
                openings@.map_values(|s: String| s@),
                fi,
                ci,
                si,
                i1,
                i2,
            )),
        },
{
    let ghost op = openings@.map_values(|s: String| s@);
    let fi = rng.next_below(openings.len() as u32) as usize;
    assert(openings@[fi as int]@ == op[fi as int]);
    assert(1 <= encode_utf8(op[fi as int]).len() <= 15);
    let first_len = openings[fi].as_str().as_bytes().len();
    let ci = rng.next_below(first_len as u32) as i32;
    let second = try_second(rng, openings, fi, ci, Ghost(op));
    match second {
        None => None,
        Some((si, i1, i2)) => {
            let first_col = 7 - ci;
            let mut v: Vec<PlacedWord> = Vec::new();
            v.push(PlacedWord { row: 7, col: first_col, dir: "across", word: openings[fi].clone() });
            v.push(PlacedWord { row: 7 - i2, col: first_col + i1, dir: "down", word: openings[si].clone() });
            assert(openings@[si as int]@ == op[si as int]);
            Some(v)
        },
    }
}

/// The letter that the first `n` letters of a placed word put on a square.
pub open spec fn word_cover(p: PlacedWord, n: int, r: int, c: int) -> Option<u8> {
    let b = encode_utf8(p.word@);
    if p.dir@ == "down"@ {
        if c == p.col && p.row <= r < p.row + n {
            Some(b[r - p.row])
        } else {
            None
        }
    } else {
        if r == p.row && p.col <= c < p.col + n {
            Some(b[c - p.col])
        } else {
            None
        }
    }
}

/// The letter the placed words put on a square: later words win.
pub open spec fn cover(placed: Seq<PlacedWord>, r: int, c: int) -> Option<u8>
    decreases placed.len(),
{
    if placed.len() == 0 {
        None
    } else {
        match word_cover(placed.last(), encode_utf8(placed.last().word@).len() as int, r, c) {
            Some(x) => Some(x),
            None => cover(placed.drop_last(), r, c),
        }
    }
}

/// The tiles after laying the first `n` letters of `b` from `(row, col)`
/// onto `cells`, across or down.
pub open spec fn lay(cells: Seq<Tile>, b: Seq<u8>, row: int, col: int, down: bool, n: int) -> Seq<
    Tile,
>
    decreases n,
{
    if n <= 0 {
        cells
    } else {
        let r = if down {
            row + n - 1
        } else {
            row
        };
        let c = if down {
            col
        } else {
            col + n - 1
        };
        put(lay(cells, b, row, col, down, n - 1), Tile { row: r as i32, col: c as i32, letter: b[n - 1] })
    }
}

/// The tiles of the placed words, laid in order.
pub open spec fn lay_all(placed: Seq<PlacedWord>) -> Seq<Tile>
    decreases placed.len(),
{
    if placed.len() == 0 {
        seq![]
    } else {
        let p = placed.last();
        let b = encode_utf8(p.word@);
        lay(lay_all(placed.drop_last()), b, p.row as int, p.col as int, p.dir@ == "down"@, b.len() as int)
    }
}

/// The squares of a placed word have `i32` coordinates.
pub open spec fn placement_fits(p: PlacedWord) -> bool {
    let n = encode_utf8(p.word@).len();
    &&& n <= i32::MAX
    &&& p.row + n - 1 <= i32::MAX
    &&& p.col + n - 1 <= i32::MAX
}

/// The board holding the placed words' letters.
fn build_board(placed: &Vec<PlacedWord>) -> (res: Board)
    requires
        forall|j: int| 0 <= j < placed@.len() ==> #[trigger] placement_fits(placed@[j]),
    ensures
        forall|r: int, c: int| #[trigger] lookup(res@, r, c) == cover(placed@, r, c),
        res@ == lay_all(placed@),
{
    let mut board = Board::new();
    let mut j: usize = 0;
    while j < placed.len()
        invariant
            j <= placed@.len(),
            forall|k: int| 0 <= k < placed@.len() ==> #[trigger] placement_fits(placed@[k]),
            forall|r: int, c: int| #[trigger] lookup(board@, r, c) == cover(placed@.take(j as int), r, c),
            board@ == lay_all(placed@.take(j as int)),
        decreases placed@.len() - j,
    {
        let p = &placed[j];
        assert(placement_fits(placed@[j as int]));
        let down = str_eq(p.dir, "down");
        let bytes = p.word.as_str().as_bytes();
        let ghost base = placed@.take(j as int);
        let mut i: usize = 0;
        while i < bytes.len()
            invariant
                j < placed@.len(),
                *p == placed@[j as int],
                placement_fits(*p),
                down == (p.dir@ == "down"@),
                bytes@ == encode_utf8(p.word@),
                i <= bytes@.len(),
                forall|r: int, c: int| #[trigger] lookup(board@, r, c) == match word_cover(*p, i as int, r, c) {
                    Some(x) => Some(x),
                    None => cover(base, r, c),
                },
                board@ == lay(lay_all(base), bytes@, p.row as int, p.col as int, down, i as int),
            decreases bytes@.len() - i,
        {
            let (r, c) = if down {
                (p.row + i as i32, p.col)
            } else {
                (p.row, p.col + i as i32)
            };
            let ghost before = board@;
            board.insert(r, c, bytes[i]);
            proof {
                assert forall|rr: int, cc: int| #[trigger] lookup(board@, rr, cc) == match word_cover(*p, i + 1, rr, cc) {
                    Some(x) => Some(x),
                    None => cover(base, rr, cc),
                } by {
                    assert(lookup(board@, rr, cc) == if rr == r && cc == c {
                        Some(bytes@[i as int])
                    } else {
                        lookup(before, rr, cc)
                    });
                }
            }
            i = i + 1;
        }
        proof {
            assert(placed@.take(j + 1).drop_last() == base);
            assert(placed@.take(j + 1).last() == *p);
        }
        j = j + 1;
    }
    assert(placed@.take(placed@.len() as int) == placed@);
    board
}

/// The part of the board shown at first.
pub struct ViewRect {
    pub top: i32,
    pub left: i32,
    pub rows: i32,
    pub cols: i32,
}

/// The least and greatest row and column of the tiles, starting from 15,
/// 0, 15 and 0.
pub open spec fn extent(cells: Seq<Tile>) -> (int, int, int, int)
    decreases cells.len(),
{
    if cells.len() == 0 {
        (15, 0, 15, 0)
    } else {
        let (r0, r1, c0, c1) = extent(cells.drop_last());
        let t = cells.last();
        (
            if (t.row as int) < r0 { t.row as int } else { r0 },
            if (t.row as int) > r1 { t.row as int } else { r1 },
            if (t.col as int) < c0 { t.col as int } else { c0 },
            if (t.col as int) > c1 { t.col as int } else { c1 },
        )
    }
}

pub open spec fn clamp(x: int, lo: int, hi: int) -> int {
    if x < lo {
        lo
    } else if x > hi {
        hi
    } else {
        x
    }
}

pub open spec fn at_least(x: int, floor: int) -> int {
    if x < floor {
        floor
    } else {
        x
    }
}

/// The view of a board: at least 9 rows and 8 columns around the tiles
/// with a square to spare on each side, shifted up and left by a drawn
/// amount of the slack, and kept on the board. The result is top, left,
/// rows and columns, and the final state.
pub open spec fn view_of(cells: Seq<Tile>, s: u32) -> ((int, int, int, int), u32) {
    let (r0, r1, c0, c1) = extent(cells);
    let rows = at_least(r1 - r0 + 3, 9);
    let cols = at_least(c1 - c0 + 3, 8);
    let top_slack = rows - (r1 - r0 + 1);
    let left_slack = cols - (c1 - c0 + 1);
    let (dt, s1) = draw(s, at_least(top_slack - 1, 1) as u32);
    let (dl, s2) = draw(s1, at_least(left_slack - 1, 1) as u32);
    let top = clamp(r0 - 1 - dt, 0, 15 - rows);
    let left = clamp(c0 - 1 - dl, 0, 15 - cols);
    ((top, left, rows, cols), s2)
}

/// Every tile lies inside rows and columns `lo..=hi`.
pub open spec fn within(cells: Seq<Tile>, lo: int, hi: int) -> bool {
    forall|i: int| 0 <= i < cells.len() ==> lo <= #[trigger] cells[i].row <= hi && lo <= cells[i].col <= hi
}

proof fn lemma_extent_within(cells: Seq<Tile>)
    requires
        within(cells, 1, 13),
    ensures
        cells.len() > 0 ==> 1 <= extent(cells).0 <= extent(cells).1 <= 13 && 1 <= extent(cells).2
            <= extent(cells).3 <= 13,
        cells.len() == 0 ==> extent(cells) == (15int, 0int, 15int, 0int),
    decreases cells.len(),
{
    if cells.len() > 0 {
        let rest = cells.drop_last();
        assert(within(rest, 1, 13)) by {
            assert forall|i: int| 0 <= i < rest.len() implies 1 <= #[trigger] rest[i].row <= 13 && 1 <= rest[i].col <= 13 by {
                assert(rest[i] == cells[i]);
            }
        }
        lemma_extent_within(rest);
        let t = cells[cells.len() - 1];
        assert(1 <= t.row <= 13 && 1 <= t.col <= 13);
        assert(cells.last() == t);
    }
}

/// Pick the view of a board whose tiles lie inside the border squares.
fn pick_view(rng: &mut Rng, board: &Board) -> (res: ViewRect)
    requires
        within(board@, 1, 13),
    ensures
        view_of(board@, old(rng)@) == ((res.top as int, res.left as int, res.rows as int, res.cols as int), final(rng)@),
{
    let tiles = board.tiles();
    let mut min_row: i32 = 15;
    let mut max_row: i32 = 0;
    let mut min_col: i32 = 15;
    let mut max_col: i32 = 0;
    let mut i: usize = 0;
    proof {
        lemma_extent_within(tiles@);
    }
    while i < tiles.len()
        invariant
            tiles@ == board@,
            within(tiles@, 1, 13),
            i <= tiles@.len(),
            extent(tiles@.take(i as int)) == (min_row as int, max_row as int, min_col as int, max_col as int),
            0 <= max_row <= 15 && 0 <= min_row <= 15 && 0 <= max_col <= 15 && 0 <= min_col <= 15,
        decreases tiles@.len() - i,
    {
        let t = tiles[i];
        assert(tiles@.take(i + 1).drop_last() == tiles@.take(i as int));
        assert(1 <= t.row <= 13 && 1 <= t.col <= 13);
        if t.row < min_row {
            min_row = t.row;
        }
        if t.row > max_row {
            max_row = t.row;
        }
        if t.col < min_col {
            min_col = t.col;
        }
        if t.col > max_col {
            max_col = t.col;
        }
        i = i + 1;
    }
    assert(tiles@.take(tiles@.len() as int) == tiles@);
    let rows = if max_row - min_row + 3 < 9 {
        9
    } else {
        max_row - min_row + 3
    };
    let cols = if max_col - min_col + 3 < 8 {
        8
    } else {
        max_col - min_col + 3
    };
    let top_slack = rows - (max_row - min_row + 1);
    let left_slack = cols - (max_col - min_col + 1);
    let top_bound = if top_slack - 1 < 1 {
        1
    } else {
        top_slack - 1
    };
    let dt = rng.next_below(top_bound as u32) as i32;
    let mut top = min_row - 1 - dt;
    if top < 0 {
        top = 0;
    } else if top > 15 - rows {
        top = 15 - rows;
    }
    let left_bound = if left_slack - 1 < 1 {
        1
    } else {
        left_slack - 1
    };
    let dl = rng.next_below(left_bound as u32) as i32;
    let mut left = min_col - 1 - dl;
    if left < 0 {
        left = 0;
    } else if left > 15 - cols {
        left = 15 - cols;
    }
    ViewRect { top, left, rows, cols }
}

proof fn lemma_put(cells: Seq<Tile>, t: Tile)
    ensures
        put(cells, t).len() <= cells.len() + 1,
        within(cells, 1, 13) && 1 <= t.row <= 13 && 1 <= t.col <= 13 ==> within(put(cells, t), 1, 13),
        capitals(letters_of(cells)) && 65 <= t.letter <= 90 ==> capitals(letters_of(put(cells, t))),
{
    lemma_lookup(cells, t.row as int, t.col as int);
    let p = put(cells, t);
    let found = lookup(cells, t.row as int, t.col as int) is Some;
    let k = square_index(cells, t.row as int, t.col as int);
    if found {
        assert(0 <= k < cells.len());
    }
    assert forall|i: int| 0 <= i < p.len() implies #[trigger] p[i] == t || (0 <= i < cells.len() && p[i] == cells[i]) by {
    }
    if within(cells, 1, 13) && 1 <= t.row <= 13 && 1 <= t.col <= 13 {
        assert forall|i: int| 0 <= i < p.len() implies 1 <= #[trigger] p[i].row <= 13 && 1 <= p[i].col <= 13 by {
            if p[i] != t {
                assert(cells[i] == p[i]);
            }
        }
    }
    if capitals(letters_of(cells)) && 65 <= t.letter <= 90 {
        assert forall|i: int| 0 <= i < letters_of(p).len() implies 65 <= #[trigger] letters_of(p)[i] <= 90 by {
            if p[i] != t {
                assert(letters_of(cells)[i] == cells[i].letter);
            }
        }
    }
}

/// The squares of a word of `n` letters from `(row, col)` lie inside the
/// border squares.
pub open spec fn laid_within(row: int, col: int, down: bool, n: int) -> bool {
    if down {
        1 <= row && row + n - 1 <= 13 && 1 <= col <= 13
    } else {
        1 <= col && col + n - 1 <= 13 && 1 <= row <= 13
    }
}

proof fn lemma_lay(cells: Seq<Tile>, b: Seq<u8>, row: int, col: int, down: bool, n: int)
    requires
        0 <= n <= b.len(),
        laid_within(row, col, down, n),
        capitals(b),
        within(cells, 1, 13),
        capitals(letters_of(cells)),
    ensures
        lay(cells, b, row, col, down, n).len() <= cells.len() + n,
        within(lay(cells, b, row, col, down, n), 1, 13),
        capitals(letters_of(lay(cells, b, row, col, down, n))),
    decreases n,
{
    if n > 0 {
        lemma_lay(cells, b, row, col, down, n - 1);
        let r = if down {
            row + n - 1
        } else {
            row
        };
        let c = if down {
            col
        } else {
            col + n - 1
        };
        lemma_put(lay(cells, b, row, col, down, n - 1), Tile { row: r as i32, col: c as i32, letter: b[n - 1] });
    }
}

/// The board of an opening: the first word across the centre row, then the
/// second down through their shared letter.
pub open spec fn opening_board(op: Seq<Seq<char>>, fi: int, ci: int, si: int, i1: int, i2: int) -> Seq<
    Tile,
> {
    let a = encode_utf8(op[fi]);
    let b = encode_utf8(op[si]);
    lay(lay(seq![], a, 7, 7 - ci, false, a.len() as int), b, 7 - i2, 7 - ci + i1, true, b.len() as int)
}

/// The opening's words stay inside the border squares.
pub open spec fn opening_fits(op: Seq<Seq<char>>, fi: int, ci: int, si: int, i1: int, i2: int) -> bool {
    let a = encode_utf8(op[fi]);
    let b = encode_utf8(op[si]);
    &&& 0 <= fi < op.len()
    &&& 0 <= si < op.len()
    &&& 0 <= ci < a.len()
    &&& 0 <= i1 < a.len()
    &&& 0 <= i2 < b.len()
    &&& 1 <= 7 - i2 && 7 - i2 + b.len() <= 14
    &&& 1 <= 7 - ci && 7 - ci + a.len() <= 14
}

proof fn lemma_second_try(op: Seq<Seq<char>>, fi: int, ci: int, s: u32, tries: nat)
    requires
        openings_ok(op),
        0 <= fi < op.len(),
        0 <= ci < encode_utf8(op[fi]).len(),
    ensures
        second_try(op, fi, ci, s, tries).0 matches Some((si, i1, i2)) ==> opening_fits(op, fi, ci, si, i1, i2),
    decreases tries,
{
    if tries > 0 {
        let (v, s1) = draw(s, op.len() as u32);
        let si = v as int;
        let a = encode_utf8(op[fi]);
        let b = encode_utf8(op[si]);
        let cr = crossings(a, b, a.len() as int);
        let (c, s2) = draw(s1, cr.len() as u32);
        lemma_second_try(op, fi, ci, s1, (tries - 1) as nat);
        lemma_second_try(op, fi, ci, s2, (tries - 1) as nat);
        assert(si < op.len());
        if op[si] != op[fi] && cr.len() > 0 {
            assert(1 <= b.len() <= 15);
            lemma_crossings_len(a, b, a.len() as int);
            assert(cr.len() <= 225) by (nonlinear_arith)
                requires
                    cr.len() <= a.len() * b.len(),
                    a.len() <= 15,
                    b.len() <= 15,
            ;
            assert(c < cr.len());
            assert(0 <= cr[c as int].0 < a.len());
        }
    }
}

/// An opening drawn from usable words fits inside the border squares.
pub proof fn lemma_opening_pick(op: Seq<Seq<char>>, s: u32)
    requires
        openings_ok(op),
    ensures
        opening_pick(op, s).0 matches Some((fi, ci, si, i1, i2)) ==> opening_fits(op, fi, ci, si, i1, i2),
{
    let (v1, s1) = draw(s, op.len() as u32);
    let fi = v1 as int;
    assert(fi < op.len());
    assert(1 <= encode_utf8(op[fi]).len() <= 15);
    let (v2, s2) = draw(s1, encode_utf8(op[fi]).len() as u32);
    lemma_second_try(op, fi, v2 as int, s2, 20);
}

/// An opening board that fits lies inside the border squares, holds at most
/// thirty tiles, and holds capitals where its words do.
pub proof fn lemma_opening_board(op: Seq<Seq<char>>, fi: int, ci: int, si: int, i1: int, i2: int)
    requires
        opening_fits(op, fi, ci, si, i1, i2),
        capitals(encode_utf8(op[fi])),
        capitals(encode_utf8(op[si])),
        encode_utf8(op[fi]).len() <= 15,
        encode_utf8(op[si]).len() <= 15,
    ensures
        within(opening_board(op, fi, ci, si, i1, i2), 1, 13),
        capitals(letters_of(opening_board(op, fi, ci, si, i1, i2))),
        opening_board(op, fi, ci, si, i1, i2).len() <= 30,
{
    let a = encode_utf8(op[fi]);
    let b = encode_utf8(op[si]);
    let empty = Seq::<Tile>::empty();
    assert(within(empty, 1, 13));
    assert(letters_of(empty) == Seq::<u8>::empty());
    lemma_lay(empty, a, 7, 7 - ci, false, a.len() as int);
    lemma_lay(lay(empty, a, 7, 7 - ci, false, a.len() as int), b, 7 - i2, 7 - ci + i1, true, b.len() as int);
}

/// Some string of the list reads `w`.
pub open spec fn text_in(v: Seq<String>, w: Seq<char>) -> bool {
    exists|k: int| 0 <= k < v.len() && #[trigger] v[k]@ == w
}

/// Some move forms the word `w`.
pub open spec fn move_word(moves: Seq<Move>, w: Seq<char>) -> bool {
    exists|i: int, j: int|
        0 <= i < moves.len() && 0 <= j < moves[i].words@.len() && #[trigger] moves[i].words@[j].word@
            == w
}

/// Word `i` of a placement's scoring, as characters.
pub open spec fn formed_word(fixed: Seq<Tile>, t: Seq<Tile>, i: int) -> Option<Seq<char>> {
    match scoring(fixed, t) {
        Some((ws, _, _)) => if 0 <= i < ws.len() {
            Some(as_chars(ws[i].0))
        } else {
            None
        },
        None => None,
    }
}

/// The words the allowed placements form.
pub open spec fn formed_words(fixed: Seq<Tile>, rack: Seq<u8>, dict: Seq<Seq<u8>>) -> Set<Seq<char>> {
    Set::new(
        |w: Seq<char>|
            exists|t: Seq<Tile>, i: int|
                legal(fixed, rack, dict, t) && #[trigger] formed_word(fixed, t, i) == Some(w),
    )
}

/// Every word of every move.
fn collect_words(moves: &Vec<Move>) -> (res: Vec<String>)
    ensures
        forall|w: Seq<char>| #[trigger] text_in(res@, w) == move_word(moves@, w),
{
    let mut res: Vec<String> = Vec::new();
    let mut i: usize = 0;
    while i < moves.len()
        invariant
            i <= moves@.len(),
            forall|w: Seq<char>| #[trigger] text_in(res@, w) == move_word(moves@.take(i as int), w),
        decreases moves@.len() - i,
    {
        let ghost base = res@;
        let words = &moves[i].words;
        let mut j: usize = 0;
        while j < words.len()
            invariant
                i < moves@.len(),
                *words == moves@[i as int].words,
                j <= words@.len(),
                forall|w: Seq<char>| #[trigger] text_in(res@, w) == (move_word(moves@.take(i as int), w)
                    || exists|k: int| 0 <= k < j && #[trigger] words@[k].word@ == w),
            decreases words@.len() - j,
        {
            let ghost before = res@;
            res.push(words[j].word.clone());
            proof {
                assert forall|w: Seq<char>| #[trigger] text_in(res@, w) == (move_word(moves@.take(i as int), w)
                    || exists|k: int| 0 <= k < j + 1 && #[trigger] words@[k].word@ == w) by {
                    if text_in(res@, w) {
                        let k = choose|k: int| 0 <= k < res@.len() && #[trigger] res@[k]@ == w;
                        if k < before.len() {
                            assert(before[k] == res@[k]);
                            assert(text_in(before, w));
                        } else {
                            assert(words@[j as int].word@ == w);
                        }
                    }
                    if exists|k: int| 0 <= k < j + 1 && #[trigger] words@[k].word@ == w {
                        let k = choose|k: int| 0 <= k < j + 1 && #[trigger] words@[k].word@ == w;
                        if k == j {
                            assert(res@[res@.len() - 1]@ == w);
                        } else {
                            assert(text_in(before, w));
                            let k2 = choose|k2: int| 0 <= k2 < before.len() && #[trigger] before[k2]@ == w;
                            assert(res@[k2] == before[k2]);
                        }
                    }
                    if move_word(moves@.take(i as int), w) {
                        assert(text_in(before, w));
                        let k2 = choose|k2: int| 0 <= k2 < before.len() && #[trigger] before[k2]@ == w;
                        assert(res@[k2] == before[k2]);
                    }
                }
            }
            j = j + 1;
        }
        proof {
            let mt = moves@.take(i + 1);
            assert forall|w: Seq<char>| #[trigger] text_in(res@, w) == move_word(mt, w) by {
                if move_word(mt, w) {
                    let (a, b) = choose|a: int, b: int|
                        0 <= a < mt.len() && 0 <= b < mt[a].words@.len() && #[trigger] mt[a].words@[b].word@ == w;
                    if a < i {
                        assert(moves@.take(i as int)[a] == mt[a]);
                        assert(move_word(moves@.take(i as int), w));
                    } else {
                        assert(mt[a] == moves@[i as int]);
                        assert(words@[b].word@ == w);
                    }
                }
                if move_word(moves@.take(i as int), w) {
                    let (a, b) = choose|a: int, b: int|
                        0 <= a < i && 0 <= b < moves@.take(i as int)[a].words@.len()
                            && #[trigger] moves@.take(i as int)[a].words@[b].word@ == w;
                    assert(mt[a] == moves@.take(i as int)[a]);
                }
                if exists|k: int| 0 <= k < words@.len() && #[trigger] words@[k].word@ == w {
                    let k = choose|k: int| 0 <= k < words@.len() && #[trigger] words@[k].word@ == w;
                    assert(mt[i as int] == moves@[i as int]);
                    assert(mt[i as int].words@[k].word@ == w);
                }
            }
        }
        i = i + 1;
    }
    assert(moves@.take(moves@.len() as int) == moves@);
    res
}

/// `slice::sort_unstable` on strings. Trusted: the result is a permutation
/// of the input in non-decreasing order; `String` orders by its UTF-8
/// bytes.
#[verifier::external_body]
fn sort_texts(v: &mut Vec<String>)
    ensures
        final(v)@.to_multiset() == old(v)@.to_multiset(),
        forall|i: int, j: int|
            0 <= i < j < final(v)@.len() ==> !lex_lt(
                encode_utf8(#[trigger] final(v)@[j]@),
                encode_utf8(#[trigger] final(v)@[i]@),
            ),
{
    v.sort_unstable();
}

/// The UTF-8 texts of strings.
pub open spec fn texts_bytes(v: Seq<String>) -> Seq<Seq<u8>> {
    v.map_values(|s: String| encode_utf8(s@))
}

/// Keep one of each run of equal strings of a sorted list.
fn dedup_texts(v: &Vec<String>) -> (out: Vec<String>)
    requires
        forall|i: int, j: int|
            0 <= i < j < v@.len() ==> !lex_lt(encode_utf8(#[trigger] v@[j]@), encode_utf8(#[trigger] v@[i]@)),
    ensures
        strictly_sorted(texts_bytes(out@)),
        forall|w: Seq<char>| #[trigger] text_in(out@, w) == text_in(v@, w),
{
    let mut out: Vec<String> = Vec::new();
    let mut i: usize = 0;
    while i < v.len()
        invariant
            i <= v@.len(),
            forall|a: int, b: int|
                0 <= a < b < v@.len() ==> !lex_lt(encode_utf8(#[trigger] v@[b]@), encode_utf8(#[trigger] v@[a]@)),
            strictly_sorted(texts_bytes(out@)),
            forall|w: Seq<char>| #[trigger] text_in(out@, w) == text_in(v@.take(i as int), w),
            i == 0 <==> out@.len() == 0,
            i > 0 ==> out@[out@.len() - 1]@ == v@[i - 1]@,
        decreases v@.len() - i,
    {
        let ghost before = out@;
        let ghost bb = texts_bytes(before);
        let fresh = if out.len() == 0 {
            true
        } else {
            let last = out.len() - 1;
            compare_bytes(out[last].as_str().as_bytes(), v[i].as_str().as_bytes()) != LexOrder::Same
        };
        assert(v@.take(i + 1) == v@.take(i as int).push(v@[i as int]));
        if fresh {
            out.push(v[i].clone());
            proof {
                let x = encode_utf8(v@[i as int]@);
                assert(texts_bytes(out@) == bb.push(x));
                if i > 0 {
                    let last = bb[bb.len() - 1];
                    assert(last == encode_utf8(v@[i - 1]@));
                    assert(!lex_lt(x, last));
                    lemma_lex_trichotomy(last, x);
                    assert(lex_lt(last, x));
                    assert forall|a: int| 0 <= a < bb.len() implies lex_lt(#[trigger] bb[a], x) by {
                        if a < bb.len() - 1 {
                            lemma_lex_transitive(bb[a], last, x);
                        }
                    }
                }
                assert forall|w: Seq<char>| #[trigger] text_in(out@, w) == text_in(v@.take(i + 1), w) by {
                    if text_in(out@, w) {
                        let k = choose|k: int| 0 <= k < out@.len() && #[trigger] out@[k]@ == w;
                        if k < before.len() {
                            assert(out@[k] == before[k]);
                            assert(text_in(before, w));
                            let k2 = choose|k2: int| 0 <= k2 < i && #[trigger] v@.take(i as int)[k2]@ == w;
                            assert(v@.take(i + 1)[k2] == v@.take(i as int)[k2]);
                        } else {
                            assert(v@.take(i + 1)[i as int]@ == w);
                        }
                    }
                    if text_in(v@.take(i + 1), w) {
                        let k = choose|k: int| 0 <= k < i + 1 && #[trigger] v@.take(i + 1)[k]@ == w;
                        if k < i {
                            assert(v@.take(i as int)[k]@ == w);
                            assert(text_in(before, w));
                            let k2 = choose|k2: int| 0 <= k2 < before.len() && #[trigger] before[k2]@ == w;
                            assert(out@[k2] == before[k2]);
                        } else {
                            assert(out@[out@.len() - 1]@ == w);
                        }
                    }
                }
            }
        } else {
            proof {
                let last = before[before.len() - 1];
                vstd::utf8::encode_utf8_decode_utf8(last@);
                vstd::utf8::encode_utf8_decode_utf8(v@[i as int]@);
                assert(last@ == v@[i as int]@);
                assert forall|w: Seq<char>| #[trigger] text_in(out@, w) == text_in(v@.take(i + 1), w) by {
                    if text_in(v@.take(i + 1), w) {
                        let k = choose|k: int| 0 <= k < i + 1 && #[trigger] v@.take(i + 1)[k]@ == w;
                        if k < i {
                            assert(v@.take(i as int)[k]@ == w);
                        } else {
                            assert(out@[out@.len() - 1]@ == w);
                        }
                    }
                    if text_in(out@, w) {
                        let k2 = choose|k2: int| 0 <= k2 < i && #[trigger] v@.take(i as int)[k2]@ == w;
                        assert(v@.take(i + 1)[k2] == v@.take(i as int)[k2]);
                    }
                }
            }
        }
        i = i + 1;
    }
    assert(v@.take(v@.len() as int) == v@);
    out
}

proof fn lemma_move_words(fixed: Seq<Tile>, rack: Seq<u8>, dict: Seq<Seq<u8>>, moves: Seq<Move>)
    requires
        forall|i: int| 0 <= i < moves.len() ==> #[trigger] good_move(fixed, rack, dict, moves[i]),
        forall|t: Seq<Tile>| #[trigger] legal(fixed, rack, dict, t) ==> super::moves::found(moves, t),
    ensures
        forall|w: Seq<char>| #[trigger] move_word(moves, w) == formed_words(fixed, rack, dict).contains(w),
{
    assert forall|w: Seq<char>| #[trigger] move_word(moves, w) == formed_words(fixed, rack, dict).contains(w) by {
        if move_word(moves, w) {
            let (i, j) = choose|i: int, j: int|
                0 <= i < moves.len() && 0 <= j < moves[i].words@.len() && #[trigger] moves[i].words@[j].word@ == w;
            assert(good_move(fixed, rack, dict, moves[i]));
            assert(formed_word(fixed, moves[i].tiles@, j) == Some(w));
        }
        if formed_words(fixed, rack, dict).contains(w) {
            let (t, i) = choose|t: Seq<Tile>, i: int|
                legal(fixed, rack, dict, t) && #[trigger] formed_word(fixed, t, i) == Some(w);
            assert(super::moves::found(moves, t));
            let k = choose|k: int| 0 <= k < moves.len() && #[trigger] moves[k].tiles@ == t;
            assert(good_move(fixed, rack, dict, moves[k]));
            assert(moves[k].words@[i].word@ == w);
        }
    }
}

/// A day's puzzle.
pub struct DailyPuzzle {
    pub date: String,
    pub number: i64,
    pub seed: u32,
    pub view: ViewRect,
    pub placed: Vec<PlacedWord>,
    pub rack: Vec<char>,
    pub max_score: u32,
    pub move_count: usize,
    pub valid_words: Vec<String>,
}

/// Why no puzzle came out.
pub enum PuzzleError {
    /// chrono has no date with this day number.
    DateOutOfRange,
    /// A hundred attempts gave no puzzle with enough moves.
    NoPuzzle { seed: u32 },
}

impl PuzzleError {
    /// The error text.
    pub fn message(&self) -> (res: String)
        ensures
            match self {
                PuzzleError::DateOutOfRange => res@ == "date out of range"@,
                PuzzleError::NoPuzzle { seed } => res@ == "no acceptable puzzle found for seed "@
                    + crate::text::decimal_text(*seed as int) + " in 100 attempts"@,
            },
    {
        match self {
            PuzzleError::DateOutOfRange => String::from_str("date out of range"),
            PuzzleError::NoPuzzle { seed } => {
                let mut text = String::from_str("no acceptable puzzle found for seed ");
                push_decimal(&mut text, *seed as i64);
                text.append(" in 100 attempts");
                text
            },
        }
    }
}

/// One attempt from state `s`: draw an opening and a rack; it succeeds when
/// the rack allows at least 100 moves and the best scores at least 30. The
/// result is the opening and the rack on success, and the final state.
pub open spec fn attempt(op: Seq<Seq<char>>, dict: Seq<Seq<u8>>, s: u32) -> (
    Option<((int, int, int, int, int), Seq<u8>)>,
    u32,
) {
    match opening_pick(op, s) {
        (None, s1) => (None, s1),
        (Some((fi, ci, si, i1, i2)), s1) => {
            let fixed = opening_board(op, fi, ci, si, i1, i2);
            let (rack, s2) = rack_draw(bag_of(letters_of(fixed)), s1, 40);
            if legal_set(fixed, rack, dict).len() < 100 || best_score(fixed, rack, dict) < 30 {
                (None, s2)
            } else {
                (Some(((fi, ci, si, i1, i2), rack)), s2)
            }
        },
    }
}

/// Up to `n` attempts: the first that succeeds, and the final state.
pub open spec fn attempts(op: Seq<Seq<char>>, dict: Seq<Seq<u8>>, s: u32, n: nat) -> (
    Option<((int, int, int, int, int), Seq<u8>)>,
    u32,
)
    decreases n,
{
    if n == 0 {
        (None, s)
    } else {
        match attempt(op, dict, s) {
            (Some(x), s1) => (Some(x), s1),
            (None, s1) => attempts(op, dict, s1, (n - 1) as nat),
        }
    }
}

/// `p` is the puzzle of the day from this opening and rack, with its view
/// drawn from state `st`.
pub open spec fn puzzle_is(
    p: DailyPuzzle,
    day: int,
    date: Seq<char>,
    seed: u32,
    op: Seq<Seq<char>>,
    dict: Seq<Seq<u8>>,
    pick: (int, int, int, int, int),
    rack: Seq<u8>,
    st: u32,
) -> bool {
    let (fi, ci, si, i1, i2) = pick;
    let fixed = opening_board(op, fi, ci, si, i1, i2);
    &&& p.date@ == date
    &&& p.number == day - EPOCH_DAY + 1
    &&& p.seed == seed
    &&& placed_as(p.placed@, op, fi, ci, si, i1, i2)
    &&& p.rack@ == as_chars(rack)
    &&& p.move_count == legal_set(fixed, rack, dict).len()
    &&& p.max_score == best_score(fixed, rack, dict)
    &&& strictly_sorted(texts_bytes(p.valid_words@))
    &&& forall|w: Seq<char>| #[trigger] text_in(p.valid_words@, w) == formed_words(fixed, rack, dict).contains(w)
    &&& view_of(fixed, st).0 == (p.view.top as int, p.view.left as int, p.view.rows as int, p.view.cols as int)
}

/// Opening words and a dictionary the generator can use: the openings are
/// capital words of 1 to 15 letters, and every dictionary word of 2 to 15
/// bytes is in capitals.
pub open spec fn sources_ok(op: Seq<Seq<char>>, dict: Seq<Seq<u8>>) -> bool {
    &&& openings_ok(op)
    &&& forall|i: int| 0 <= i < op.len() ==> capitals(#[trigger] encode_utf8(op[i]))
    &&& forall|w: Seq<u8>| #![trigger dict.contains(w)] dict.contains(w) && 2 <= w.len() <= 15 ==> capitals(w)
}

/// The seed of a date's text.
fn seed_of_text(date: &str) -> (res: u32)
    ensures
        res == fnv1a_of(encode_utf8(seed_text(date@))),
{
    let mut text = String::from_str("lettersoep:");
    text.append(GENERATOR_VERSION);
    text.append(":");
    text.append(date);
    fnv1a(text.as_str())
}

/// The letters of a rack as characters.
fn rack_chars(rack: &Vec<u8>) -> (res: Vec<char>)
    ensures
        res@ == as_chars(rack@),
{
    let mut res: Vec<char> = Vec::new();
    let mut i: usize = 0;
    while i < rack.len()
        invariant
            i <= rack@.len(),
            res@ == as_chars(rack@.take(i as int)),
        decreases rack@.len() - i,
    {
        res.push(rack[i] as char);
        i = i + 1;
        assert(as_chars(rack@.take(i as int)) == as_chars(rack@.take(i - 1)).push(rack@[i - 1] as char));
    }
    assert(rack@.take(rack@.len() as int) == rack@);
    res
}

/// What a successful attempt hands on: its opening words, board, rack and
/// moves.
pub open spec fn attempt_data(
    placed: Seq<PlacedWord>,
    board: Seq<Tile>,
    rack: Seq<u8>,
    moves: Seq<Move>,
    op: Seq<Seq<char>>,
    dict: Seq<Seq<u8>>,
    pick: (int, int, int, int, int),
) -> bool {
    let (fi, ci, si, i1, i2) = pick;
    let fixed = opening_board(op, fi, ci, si, i1, i2);
    &&& placed_as(placed, op, fi, ci, si, i1, i2)
    &&& board == fixed
    &&& within(board, 1, 13)
    &&& moves.len() == legal_set(fixed, rack, dict).len()
    &&& moves.len() >= 100
    &&& moves[0].score == best_score(fixed, rack, dict)
    &&& forall|w: Seq<char>| #[trigger] move_word(moves, w) == formed_words(fixed, rack, dict).contains(w)
}

/// One attempt at a puzzle.
fn try_attempt(rng: &mut Rng, openings: &Vec<String>, dict: &Dictionary, Ghost(op): Ghost<Seq<Seq<char>>>) -> (res: Option<
    (Vec<PlacedWord>, Board, Vec<u8>, Vec<Move>),
>)
    requires
        op == openings@.map_values(|s: String| s@),
        sources_ok(op, dict@),
    ensures
        match attempt(op, dict@, old(rng)@) {
            (None, s1) => res is None && final(rng)@ == s1,
            (Some((pick, rack)), s1) => final(rng)@ == s1 && (res matches Some((placed, board, r, moves))
                && r@ == rack && attempt_data(placed@, board@, r@, moves@, op, dict@, pick)),
        },
{
    let ghost dv = dict@;
    let ghost s0 = rng@;
    proof {
        lemma_opening_pick(op, s0);
    }
    let placed = match place_opening_words(rng, openings) {
        None => {
            return None;
        },
        Some(p) => p,
    };
    let ghost s1 = rng@;
    let ghost pick = opening_pick(op, s0).0->Some_0;
    let ghost fi = pick.0;
    let ghost ci = pick.1;
    let ghost si = pick.2;
    let ghost i1 = pick.3;
    let ghost i2 = pick.4;
    let ghost fixed = opening_board(op, fi, ci, si, i1, i2);
    proof {
        assert(opening_fits(op, fi, ci, si, i1, i2));
        assert(placed_as(placed@, op, fi, ci, si, i1, i2));
        assert(placement_fits(placed@[0]));
        assert(placement_fits(placed@[1]));
        assert forall|j: int| 0 <= j < placed@.len() implies #[trigger] placement_fits(placed@[j]) by {}
    }
    let board = build_board(&placed);
    proof {
        reveal_strlit("across");
        reveal_strlit("down");
        let v = placed@;
        let a = encode_utf8(op[fi]);
        let b = encode_utf8(op[si]);
        assert(v.drop_last().drop_last() == Seq::<PlacedWord>::empty());
        assert(v.drop_last().last() == v[0]);
        assert(v.last() == v[1]);
        assert(lay_all(v.drop_last().drop_last()) == Seq::<Tile>::empty());
        assert("across"@.len() != "down"@.len());
        assert(v[0].dir@ != "down"@);
        assert(v[1].dir@ == "down"@);
        assert(encode_utf8(v[0].word@) == a);
        assert(encode_utf8(v[1].word@) == b);
        assert(lay_all(v.drop_last()) == lay(Seq::<Tile>::empty(), a, 7, 7 - ci, false, a.len() as int));
        assert(lay_all(v) == lay(lay_all(v.drop_last()), b, 7 - i2, 7 - ci + i1, true, b.len() as int));
        assert(board@ == fixed);
        lemma_opening_board(op, fi, ci, si, i1, i2);
    }
    let used = board_letters(&board);
    proof {
        lemma_bag_of_len(used@);
        lemma_bag_of_capitals(used@);
        lemma_rack_draw(bag_of(used@), s1, 40);
    }
    let rack = draw_rack(rng, used.as_slice());
    let ghost s2 = rng@;
    proof {
        assert forall|i: int| 0 <= i < board@.len() implies #[trigger] on_board(board@[i]) by {}
        assert forall|i: int| 0 <= i < board@.len() implies #[trigger] square_ok(board@[i]) by {
            assert(on_board(board@[i]));
        }
        lemma_on_grid_scores_fit(board@, rack@, dv);
        assert(longest(board@, rack@) <= 15);
        super::moves::lemma_counts_fit(rack@);
        super::moves::lemma_counts_fit(letters_of(board@));
    }
    let moves = find_all_moves(&board, rack.as_slice(), dict);
    proof {
        lemma_moves_summary(fixed, rack@, dv, moves@);
        lemma_move_words(fixed, rack@, dv, moves@);
    }
    if moves.len() < 100 {
        return None;
    }
    if moves[0].score < 30 {
        return None;
    }
    Some((placed, board, rack, moves))
}

/// The words of the moves, sorted by their bytes, each once.
fn valid_words_of(moves: &Vec<Move>) -> (res: Vec<String>)
    ensures
        strictly_sorted(texts_bytes(res@)),
        forall|w: Seq<char>| #[trigger] text_in(res@, w) == move_word(moves@, w),
{
    let mut words = collect_words(moves);
    let ghost collected = words@;
    sort_texts(&mut words);
    proof {
        collected.to_multiset_ensures();
        words@.to_multiset_ensures();
        assert forall|w: Seq<char>| #[trigger] text_in(words@, w) == text_in(collected, w) by {
            if text_in(words@, w) {
                let i = choose|i: int| 0 <= i < words@.len() && #[trigger] words@[i]@ == w;
                assert(words@.contains(words@[i]));
                assert(words@.to_multiset().count(words@[i]) > 0);
                assert(collected.to_multiset().count(words@[i]) > 0);
                assert(collected.contains(words@[i]));
                let j = choose|j: int| 0 <= j < collected.len() && collected[j] == words@[i];
                assert(collected[j]@ == w);
            }
            if text_in(collected, w) {
                let i = choose|i: int| 0 <= i < collected.len() && #[trigger] collected[i]@ == w;
                assert(collected.contains(collected[i]));
                assert(collected.to_multiset().count(collected[i]) > 0);
                assert(words@.to_multiset().count(collected[i]) > 0);
                assert(words@.contains(collected[i]));
                let j = choose|j: int| 0 <= j < words@.len() && words@[j] == collected[i];
                assert(words@[j]@ == w);
            }
        }
    }
    dedup_texts(&words)
}

/// Assemble the puzzle of a successful attempt.
fn finish(
    rng: &mut Rng,
    day: i32,
    date: String,
    seed: u32,
    placed: Vec<PlacedWord>,
    board: Board,
    rack: Vec<u8>,
    moves: Vec<Move>,
    Ghost(op): Ghost<Seq<Seq<char>>>,
    Ghost(dv): Ghost<Seq<Seq<u8>>>,
    Ghost(pick): Ghost<(int, int, int, int, int)>,
) -> (res: DailyPuzzle)
    requires
        attempt_data(placed@, board@, rack@, moves@, op, dv, pick),
    ensures
        puzzle_is(res, day as int, date@, seed, op, dv, pick, rack@, old(rng)@),
{
    let valid_words = valid_words_of(&moves);
    let view = pick_view(rng, &board);
    let rack_letters = rack_chars(&rack);
    let max_score = moves[0].score;
    DailyPuzzle {
        date,
        number: puzzle_number(day),
        seed,
        view,
        placed,
        rack: rack_letters,
        max_score,
        move_count: moves.len(),
        valid_words,
    }
}

/// What the puzzle of a day is, from these opening words and dictionary:
/// no date, no puzzle in a hundred attempts from the date's seed, or the
/// puzzle of the first attempt that succeeds.
pub open spec fn daily_result(
    day: int,
    op: Seq<Seq<char>>,
    dict: Seq<Seq<u8>>,
    res: Result<DailyPuzzle, PuzzleError>,
) -> bool {
    match date_text(day) {
        None => res matches Err(PuzzleError::DateOutOfRange),
        Some(date) => {
            let seed = fnv1a_of(encode_utf8(seed_text(date)));
            match attempts(op, dict, seed, 100) {
                (None, _) => res matches Err(PuzzleError::NoPuzzle { seed: s }) && s == seed,
                (Some((pick, rack)), st) => res matches Ok(p) && puzzle_is(
                    p,
                    day,
                    date,
                    seed,
                    op,
                    dict,
                    pick,
                    rack,
                    st,
                ),
            }
        },
    }
}

/// The puzzle of a day: seeded from its date, a hundred attempts at most
/// to find an opening and rack with at least 100 moves, the best scoring
/// at least 30.
pub fn daily_puzzle(day: i32, dict: &Dictionary, openings: &Vec<String>) -> (res: Result<
    DailyPuzzle,
    PuzzleError,
>)
    requires
        sources_ok(openings@.map_values(|s: String| s@), dict@),
    ensures
        daily_result(day as int, openings@.map_values(|s: String| s@), dict@, res),
{
    let ghost op = openings@.map_values(|s: String| s@);
    let ghost dv = dict@;
    let date = match format_day(day) {
        None => {
            return Err(PuzzleError::DateOutOfRange);
        },
        Some(d) => d,
    };
    let seed = seed_of_text(date.as_str());
    let mut rng = Rng::new(seed);
    let mut k: u32 = 0;
    while k < 100
        invariant
            op == openings@.map_values(|s: String| s@),
            dv == dict@,
            sources_ok(op, dv),
            date_text(day as int) == Some(date@),
            seed == fnv1a_of(encode_utf8(seed_text(date@))),
            k <= 100,
            attempts(op, dv, seed, 100) == attempts(op, dv, rng@, (100 - k) as nat),
        decreases 100 - k,
    {
        let ghost s0 = rng@;
        let found = try_attempt(&mut rng, openings, dict, Ghost(op));
        match found {
            None => {
                assert(attempts(op, dv, s0, (100 - k) as nat) == attempts(op, dv, rng@, (100 - k - 1) as nat));
                k = k + 1;
            },
            Some((placed, board, rack, moves)) => {
                let ghost st = rng@;
                let ghost pick = attempt(op, dv, s0).0->Some_0.0;
                assert(attempts(op, dv, s0, (100 - k) as nat) == (Some((pick, rack@)), st));
                let puzzle = finish(&mut rng, day, date, seed, placed, board, rack, moves, Ghost(op), Ghost(dv), Ghost(pick));
                return Ok(puzzle);
            },
        }
    }
    Err(PuzzleError::NoPuzzle { seed })
}

/// A puzzle comes only from an attempt whose opening fits inside the
/// border squares and whose rack allows at least 100 moves, the best
/// scoring at least 30.
pub proof fn lemma_served_puzzle(op: Seq<Seq<char>>, dict: Seq<Seq<u8>>, s: u32, n: nat)
    requires
        openings_ok(op),
    ensures
        attempts(op, dict, s, n).0 matches Some((pick, rack)) ==> ({
            let (fi, ci, si, i1, i2) = pick;
            let fixed = opening_board(op, fi, ci, si, i1, i2);
            &&& opening_fits(op, fi, ci, si, i1, i2)
            &&& legal_set(fixed, rack, dict).len() >= 100
            &&& best_score(fixed, rack, dict) >= 30
        }),
    decreases n,
{
    if n > 0 {
        lemma_opening_pick(op, s);
        let (r, s1) = attempt(op, dict, s);
        if r is None {
            lemma_served_puzzle(op, dict, s1, (n - 1) as nat);
        }
    }
}

/// Whether a day's puzzle is served: only within two days of the server's
/// own day, enough for every time zone.
pub fn servable(day: i32, today: i32) -> (res: bool)
    ensures
        res == (-2 <= day - today <= 2),
{
    let diff = day as i64 - today as i64;
    -2 <= diff && diff <= 2
}

/// Two puzzles agree on everything they show.
pub open spec fn same_puzzle(p1: DailyPuzzle, p2: DailyPuzzle) -> bool {
    &&& p1.date@ == p2.date@
    &&& p1.number == p2.number
    &&& p1.seed == p2.seed
    &&& p1.rack@ == p2.rack@
    &&& p1.max_score == p2.max_score
    &&& p1.move_count == p2.move_count
    &&& (p1.view.top, p1.view.left, p1.view.rows, p1.view.cols) == (
        p2.view.top,
        p2.view.left,
        p2.view.rows,
        p2.view.cols,
    )
    &&& p1.placed@.len() == p2.placed@.len()
    &&& forall|i: int|
        0 <= i < p1.placed@.len() ==> #[trigger] p1.placed@[i].row == p2.placed@[i].row
            && p1.placed@[i].col == p2.placed@[i].col && p1.placed@[i].dir@ == p2.placed@[i].dir@
            && p1.placed@[i].word@ == p2.placed@[i].word@
    &&& p1.valid_words@.len() == p2.valid_words@.len()
    &&& forall|k: int| 0 <= k < p1.valid_words@.len() ==> #[trigger] p1.valid_words@[k]@ == p2.valid_words@[k]@
}

/// A date maps to one puzzle: two puzzles of the same day, from the same
/// dictionary and opening words, agree on everything they show.
pub proof fn lemma_one_puzzle_per_day(
    p1: DailyPuzzle,
    p2: DailyPuzzle,
    day: int,
    date: Seq<char>,
    seed: u32,
    op: Seq<Seq<char>>,
    dict: Seq<Seq<u8>>,
    pick: (int, int, int, int, int),
    rack: Seq<u8>,
    st: u32,
)
    requires
        puzzle_is(p1, day, date, seed, op, dict, pick, rack, st),
        puzzle_is(p2, day, date, seed, op, dict, pick, rack, st),
    ensures
        same_puzzle(p1, p2),
{
    let b1 = texts_bytes(p1.valid_words@);
    let b2 = texts_bytes(p2.valid_words@);
    assert forall|x: Seq<u8>| b1.contains(x) <==> b2.contains(x) by {
        if b1.contains(x) {
            let k = choose|k: int| 0 <= k < b1.len() && b1[k] == x;
            let w = p1.valid_words@[k]@;
            assert(text_in(p1.valid_words@, w));
            assert(text_in(p2.valid_words@, w));
            let m = choose|m: int| 0 <= m < p2.valid_words@.len() && #[trigger] p2.valid_words@[m]@ == w;
            assert(b2[m] == x);
        }
        if b2.contains(x) {
            let k = choose|k: int| 0 <= k < b2.len() && b2[k] == x;
            let w = p2.valid_words@[k]@;
            assert(text_in(p2.valid_words@, w));
            assert(text_in(p1.valid_words@, w));
            let m = choose|m: int| 0 <= m < p1.valid_words@.len() && #[trigger] p1.valid_words@[m]@ == w;
            assert(b1[m] == x);
        }
    }
    super::dict::lemma_sorted_unique(b1, b2);
    assert(b1.len() == b2.len());
    assert forall|k: int| 0 <= k < p1.valid_words@.len() implies #[trigger] p1.valid_words@[k]@
        == p2.valid_words@[k]@ by {
        assert(b1[k] == b2[k]);
        vstd::utf8::encode_utf8_decode_utf8(p1.valid_words@[k]@);
        vstd::utf8::encode_utf8_decode_utf8(p2.valid_words@[k]@);
    }
}

/// A served puzzle has a rack of seven letters drawn from a bag of capitals.
proof fn lemma_served_rack(op: Seq<Seq<char>>, dict: Seq<Seq<u8>>, s: u32, n: nat)
    requires
        sources_ok(op, dict),
    ensures
        attempts(op, dict, s, n).0 matches Some((pick, rack)) ==> rack.len() == 7,
    decreases n,
{
    if n > 0 {
        lemma_opening_pick(op, s);
        match opening_pick(op, s) {
            (None, s1) => {
                lemma_served_rack(op, dict, s1, (n - 1) as nat);
            },
            (Some((fi, ci, si, i1, i2)), s1) => {
                assert(capitals(encode_utf8(op[fi])));
                assert(capitals(encode_utf8(op[si])));
                lemma_opening_board(op, fi, ci, si, i1, i2);
                let fixed = opening_board(op, fi, ci, si, i1, i2);
                let bag = bag_of(letters_of(fixed));
                lemma_bag_of_len(letters_of(fixed));
                lemma_bag_of_capitals(letters_of(fixed));
                lemma_rack_draw(bag, s1, 40);
                let (r, s2) = attempt(op, dict, s);
                if r is None {
                    lemma_served_rack(op, dict, s2, (n - 1) as nat);
                }
            },
        }
    }
}

/// A served puzzle has the shape of the game: the puzzle of its date and
/// number, two opening words on the board, a rack of seven letters, at
/// least 100 moves, a best move of at least 30 points, and its words in
/// strictly increasing order.
pub proof fn lemma_puzzle_shape(day: int, op: Seq<Seq<char>>, dict: Seq<Seq<u8>>, p: DailyPuzzle)
    requires
        sources_ok(op, dict),
        daily_result(day, op, dict, Ok(p)),
    ensures
        date_text(day) == Some(p.date@),
        p.seed == fnv1a_of(encode_utf8(seed_text(p.date@))),
        p.number == day - EPOCH_DAY + 1,
        p.placed@.len() == 2,
        p.rack@.len() == 7,
        p.move_count >= 100,
        p.max_score >= 30,
        strictly_sorted(texts_bytes(p.valid_words@)),
{
    let date = date_text(day)->Some_0;
    let seed = fnv1a_of(encode_utf8(seed_text(date)));
    lemma_served_puzzle(op, dict, seed, 100);
    lemma_served_rack(op, dict, seed, 100);
}

/// A date maps to one puzzle: two results for the same day, from the same
/// opening words and dictionary, are the same error or puzzles that agree
/// on everything they show.
pub proof fn lemma_daily_puzzle_stable(
    day: int,
    op: Seq<Seq<char>>,
    dict: Seq<Seq<u8>>,
    r1: Result<DailyPuzzle, PuzzleError>,
    r2: Result<DailyPuzzle, PuzzleError>,
)
    requires
        daily_result(day, op, dict, r1),
        daily_result(day, op, dict, r2),
    ensures
        r1 is Ok <==> r2 is Ok,
        r1 matches Err(e1) ==> r2 matches Err(e2) && e1 == e2,
        r1 matches Ok(p1) ==> r2 matches Ok(p2) && same_puzzle(p1, p2),
{
    if let Some(date) = date_text(day) {
        let seed = fnv1a_of(encode_utf8(seed_text(date)));
        if let (Some((pick, rack)), st) = attempts(op, dict, seed, 100) {
            let p1 = r1->Ok_0;
            let p2 = r2->Ok_0;
            lemma_one_puzzle_per_day(p1, p2, day, date, seed, op, dict, pick, rack, st);
        }
    }
}

/// Why a puzzle request is refused.
#[derive(PartialEq, Eq, Structural, Debug, Clone, Copy)]
pub enum RequestError {
    /// The text is no date.
    InvalidDate,
    /// The date is more than two days from the server's.
    OutOfRange,
}

impl RequestError {
    /// The error text.
    pub fn message(&self) -> (res: String)
        ensures
            match self {
                RequestError::InvalidDate => res@ == "invalid date"@,
                RequestError::OutOfRange => res@ == "date out of range"@,
            },
    {
        match self {
            RequestError::InvalidDate => String::from_str("invalid date"),
            RequestError::OutOfRange => String::from_str("date out of range"),
        }
    }
}

/// The day of a puzzle request: the date in the request's path, served
/// only within two days of the server's day `today`.
pub fn puzzle_request(text: &str, today: i32) -> (res: Result<i32, RequestError>)
    ensures
        match crate::clock::parsed_day(text@) {
            None => res == Err::<i32, RequestError>(RequestError::InvalidDate),
            Some(d) => if -2 <= d - today <= 2 {
                res == Ok::<i32, RequestError>(d as i32)
            } else {
                res == Err::<i32, RequestError>(RequestError::OutOfRange)
            },
        },
{
    match crate::clock::parse_day(text) {
        None => Err(RequestError::InvalidDate),
        Some(d) => if servable(d, today) {
            Ok(d)
        } else {
            Err(RequestError::OutOfRange)
        },
    }
}

} // verus!
