//! Every move a rack allows: each dictionary word, in each direction, at
//! each position where it fits the fixed tiles and the rack.

use super::board::{lookup, Board, Tile};
use super::dict::Dictionary;
use super::scoring::{
    as_chars, lemma_score_fits, on_board, on_grid, score_fits, score_placement, scoring, square_ok,
    squares_ok, ScoredWord,
};
use vstd::prelude::*;
use vstd::string::StringSliceAdditionalSpecFns;
use vstd::utf8::encode_utf8;

verus! {

/// How often `l` occurs in `s`.
pub open spec fn count_of(s: Seq<u8>, l: u8) -> nat
    decreases s.len(),
{
    if s.len() == 0 {
        0
    } else {
        count_of(s.drop_last(), l) + if s.last() == l {
            1nat
        } else {
            0nat
        }
    }
}

/// Every byte is a capital letter `A`..`Z`.
pub open spec fn capitals(s: Seq<u8>) -> bool {
    forall|i: int| 0 <= i < s.len() ==> 65 <= #[trigger] s[i] <= 90
}

/// The letters of some tiles.
pub open spec fn letters_of(tiles: Seq<Tile>) -> Seq<u8> {
    tiles.map_values(|t: Tile| t.letter)
}

/// The capital letter with index `k`, `A` being 0.
pub open spec fn capital(k: int) -> u8 {
    (65 + k) as u8
}

proof fn lemma_count_push(s: Seq<u8>, x: u8, l: u8)
    ensures
        count_of(s.push(x), l) == count_of(s, l) + if x == l {
            1nat
        } else {
            0nat
        },
{
    assert(s.push(x).drop_last() == s);
}

proof fn lemma_count_bound(s: Seq<u8>, l: u8)
    ensures
        count_of(s, l) <= s.len(),
    decreases s.len(),
{
    if s.len() > 0 {
        lemma_count_bound(s.drop_last(), l);
    }
}

proof fn lemma_count_prefix(s: Seq<u8>, i: int, l: u8)
    requires
        0 <= i <= s.len(),
    ensures
        count_of(s.take(i), l) <= count_of(s, l),
    decreases s.len(),
{
    if i < s.len() {
        assert(s.drop_last().take(i) == s.take(i));
        lemma_count_prefix(s.drop_last(), i, l);
    } else {
        assert(s.take(i) == s);
    }
}

/// Each capital letter occurs fewer than 65536 times: its count fits a
/// `u16`.
pub open spec fn counts_fit(letters: Seq<u8>) -> bool {
    forall|k: int| 0 <= k < 26 ==> #[trigger] count_of(letters, capital(k)) < 65536
}

/// Letters fewer than 65536 have counts that fit.
pub proof fn lemma_counts_fit(letters: Seq<u8>)
    requires
        letters.len() < 65536,
    ensures
        counts_fit(letters),
{
    assert forall|k: int| 0 <= k < 26 implies #[trigger] count_of(letters, capital(k)) < 65536 by {
        lemma_count_bound(letters, capital(k));
    }
}

/// The count of each capital letter, `A` first.
fn count_letters(letters: &[u8]) -> (counts: Vec<u16>)
    requires
        capitals(letters@),
        counts_fit(letters@),
    ensures
        counts@.len() == 26,
        forall|k: int| 0 <= k < 26 ==> #[trigger] counts@[k] == count_of(letters@, capital(k)),
{
    let mut counts: Vec<u16> = vec![0u16; 26];
    let mut i: usize = 0;
    while i < letters.len()
        invariant
            i <= letters@.len(),
            counts_fit(letters@),
            capitals(letters@),
            counts@.len() == 26,
            forall|k: int|
                0 <= k < 26 ==> #[trigger] counts@[k] == count_of(
                    letters@.take(i as int),
                    capital(k),
                ),
        decreases letters@.len() - i,
    {
        let idx = (letters[i] - 65) as usize;
        let ghost prev = letters@.take(i as int);
        proof {
            assert(letters@.take(i + 1) == prev.push(letters@[i as int]));
            assert forall|k: int| 0 <= k < 26 implies count_of(letters@.take(i + 1), capital(k))
                == count_of(prev, capital(k)) + if k == idx {
                1nat
            } else {
                0nat
            } by {
                lemma_count_push(prev, letters@[i as int], capital(k));
            }
            lemma_count_prefix(letters@, i + 1, capital(idx as int));
            assert(letters@[i as int] == capital(idx as int));
        }
        let c = counts[idx];
        counts.set(idx, c + 1);
        i = i + 1;
    }
    assert(letters@.take(letters@.len() as int) == letters@);
    counts
}

/// The letters on the board, tile by tile.
pub(crate) fn board_letters(fixed: &Board) -> (res: Vec<u8>)
    ensures
        res@ == letters_of(fixed@),
{
    let tiles = fixed.tiles();
    let mut res: Vec<u8> = Vec::new();
    let mut i: usize = 0;
    while i < tiles.len()
        invariant
            i <= tiles@.len(),
            tiles@ == fixed@,
            res@ == letters_of(tiles@.take(i as int)),
        decreases tiles@.len() - i,
    {
        res.push(tiles[i].letter);
        i = i + 1;
        assert(letters_of(tiles@.take(i as int)) == letters_of(tiles@.take(i - 1)).push(
            tiles@[i - 1].letter,
        ));
    }
    assert(tiles@.take(tiles@.len() as int) == tiles@);
    res
}

/// The longest word worth trying: the board is 15 squares wide, and a word
/// uses only rack and board letters.
pub open spec fn longest(fixed: Seq<Tile>, rack: Seq<u8>) -> int {
    if rack.len() + fixed.len() < 15 {
        (rack.len() + fixed.len()) as int
    } else {
        15
    }
}

/// A word worth trying: long enough, not too long, and made of letters
/// the rack and the board have between them.
pub open spec fn candidate(fixed: Seq<Tile>, rack: Seq<u8>, w: Seq<u8>) -> bool {
    &&& 2 <= w.len() <= longest(fixed, rack)
    &&& forall|k: int|
        0 <= k < 26 ==> #[trigger] count_of(w, capital(k)) <= count_of(rack, capital(k)) + count_of(
            letters_of(fixed),
            capital(k),
        )
}

/// The row and column of letter `i` of a word starting at `(row, col)`.
pub open spec fn sq_row(row: int, across: bool, i: int) -> int {
    if across {
        row
    } else {
        row + i
    }
}

pub open spec fn sq_col(col: int, across: bool, i: int) -> int {
    if across {
        col + i
    } else {
        col
    }
}

/// A fixed tile is on the square or next to it.
pub open spec fn near(fixed: Seq<Tile>, r: int, c: int) -> bool {
    ||| lookup(fixed, r, c) is Some
    ||| lookup(fixed, r, c - 1) is Some
    ||| lookup(fixed, r, c + 1) is Some
    ||| lookup(fixed, r - 1, c) is Some
    ||| lookup(fixed, r + 1, c) is Some
}

/// The new tiles the first `n` letters of a word need: one for each
/// letter on a free square, in word order.
pub open spec fn fresh_tiles(
    fixed: Seq<Tile>,
    w: Seq<u8>,
    row: int,
    col: int,
    across: bool,
    n: int,
) -> Seq<Tile>
    decreases n,
{
    if n <= 0 {
        seq![]
    } else {
        let prev = fresh_tiles(fixed, w, row, col, across, n - 1);
        let r = sq_row(row, across, n - 1);
        let c = sq_col(col, across, n - 1);
        if lookup(fixed, r, c) is None {
            prev.push(Tile { row: r as i32, col: c as i32, letter: w[n - 1] })
        } else {
            prev
        }
    }
}

/// Some letter of the word differs from the fixed tile on its square.
pub open spec fn clashes(fixed: Seq<Tile>, w: Seq<u8>, row: int, col: int, across: bool) -> bool {
    exists|i: int|
        0 <= i < w.len() && #[trigger] lookup(fixed, sq_row(row, across, i), sq_col(col, across, i))
            is Some && lookup(fixed, sq_row(row, across, i), sq_col(col, across, i))->0 != w[i]
}

/// The new tiles use some letter more often than the rack holds it.
pub open spec fn overdraws(tiles: Seq<Tile>, rack: Seq<u8>) -> bool {
    exists|k: int|
        0 <= k < 26 && #[trigger] count_of(letters_of(tiles), capital(k)) > count_of(
            rack,
            capital(k),
        )
}

/// Some square of the word is on or next to a fixed tile.
pub open spec fn touches(fixed: Seq<Tile>, row: int, col: int, across: bool, len: int) -> bool {
    exists|i: int|
        0 <= i < len && #[trigger] near(fixed, sq_row(row, across, i), sq_col(col, across, i))
}

/// A fixed tile stands just before or just after the word.
pub open spec fn extended(fixed: Seq<Tile>, row: int, col: int, across: bool, len: int) -> bool {
    ||| lookup(fixed, sq_row(row, across, -1), sq_col(col, across, -1)) is Some
    ||| lookup(fixed, sq_row(row, across, len), sq_col(col, across, len)) is Some
}

/// The new tiles that lay word `w` from `(row, col)`: the word must be the
/// whole run of letters there, agree with the fixed tiles it crosses, take
/// its other letters from the rack, add at least one tile, and touch the
/// fixed tiles.
pub open spec fn fit(
    fixed: Seq<Tile>,
    rack: Seq<u8>,
    w: Seq<u8>,
    row: int,
    col: int,
    across: bool,
) -> Option<Seq<Tile>> {
    let fresh = fresh_tiles(fixed, w, row, col, across, w.len() as int);
    if extended(fixed, row, col, across, w.len() as int) || clashes(fixed, w, row, col, across)
        || overdraws(fresh, rack) || fresh.len() == 0 || !touches(
        fixed,
        row,
        col,
        across,
        w.len() as int,
    ) {
        None
    } else {
        Some(fresh)
    }
}

/// The new tiles of a word laid inside the board are on the board, at most
/// one per letter.
proof fn lemma_fresh_on_grid(fixed: Seq<Tile>, w: Seq<u8>, row: int, col: int, across: bool, n: int)
    requires
        0 <= n,
        0 <= row < 15,
        0 <= col < 15,
        across ==> col + n <= 15,
        !across ==> row + n <= 15,
    ensures
        fresh_tiles(fixed, w, row, col, across, n).len() <= n,
        on_grid(fresh_tiles(fixed, w, row, col, across, n)),
    decreases n,
{
    if n > 0 {
        lemma_fresh_on_grid(fixed, w, row, col, across, n - 1);
        let prev = fresh_tiles(fixed, w, row, col, across, n - 1);
        let cur = fresh_tiles(fixed, w, row, col, across, n);
        assert forall|j: int| 0 <= j < cur.len() implies #[trigger] on_board(cur[j]) by {
            if j < prev.len() {
                assert(cur[j] == prev[j]);
            }
        }
    }
}

proof fn lemma_fresh_count_mono(
    fixed: Seq<Tile>,
    w: Seq<u8>,
    row: int,
    col: int,
    across: bool,
    n: int,
    m: int,
    l: u8,
)
    requires
        0 <= n <= m,
    ensures
        count_of(letters_of(fresh_tiles(fixed, w, row, col, across, n)), l) <= count_of(
            letters_of(fresh_tiles(fixed, w, row, col, across, m)),
            l,
        ),
    decreases m - n,
{
    if n < m {
        lemma_fresh_count_mono(fixed, w, row, col, across, n, m - 1, l);
        let prev = fresh_tiles(fixed, w, row, col, across, m - 1);
        let r = sq_row(row, across, m - 1);
        let c = sq_col(col, across, m - 1);
        if lookup(fixed, r, c) is None {
            let t = Tile { row: r as i32, col: c as i32, letter: w[m - 1] };
            assert(letters_of(prev.push(t)) == letters_of(prev).push(t.letter));
            lemma_count_push(letters_of(prev), t.letter, l);
        }
    }
}

/// The tiles laying a word on the board, if it fits there.
fn fit_word(
    fixed: &Board,
    rack_counts: &Vec<u16>,
    Ghost(rack): Ghost<Seq<u8>>,
    word: &[u8],
    row: i32,
    col: i32,
    across: bool,
) -> (res: Option<Vec<Tile>>)
    requires
        rack_counts@.len() == 26,
        forall|k: int| 0 <= k < 26 ==> #[trigger] rack_counts@[k] == count_of(rack, capital(k)),
        capitals(word@),
        0 <= row < 15,
        0 <= col < 15,
        word@.len() <= 15,
        across ==> col + word@.len() <= 15,
        !across ==> row + word@.len() <= 15,
    ensures
        match fit(fixed@, rack, word@, row as int, col as int, across) {
            Some(t) => res matches Some(v) && v@ == t,
            None => res is None,
        },
{
    let ghost fx = fixed@;
    let ghost w = word@;
    let len = word.len() as i32;
    let (dr, dc): (i32, i32) = if across {
        (0, 1)
    } else {
        (1, 0)
    };
    assert(sq_row(row as int, across, -1) == row - dr && sq_col(col as int, across, -1) == col - dc);
    assert(sq_row(row as int, across, len as int) == row + dr * len && sq_col(col as int, across, len as int)
        == col + dc * len);
    if fixed.contains(row - dr, col - dc) {
        return None;
    }
    if fixed.contains(row + dr * len, col + dc * len) {
        return None;
    }
    let mut tiles: Vec<Tile> = Vec::new();
    let mut rack_use: Vec<u16> = vec![0u16; 26];
    let mut touching = false;
    let mut i: i32 = 0;
    while i < len
        invariant
            fx == fixed@,
            w == word@,
            capitals(w),
            len == w.len(),
            0 <= i <= len,
            len <= 15,
            0 <= row < 15,
            0 <= col < 15,
            across ==> col + len <= 15,
            !across ==> row + len <= 15,
            dr == (if across { 0i32 } else { 1i32 }),
            dc == (if across { 1i32 } else { 0i32 }),
            rack_counts@.len() == 26,
            forall|k: int| 0 <= k < 26 ==> #[trigger] rack_counts@[k] == count_of(rack, capital(k)),
            tiles@ == fresh_tiles(fx, w, row as int, col as int, across, i as int),
            rack_use@.len() == 26,
            forall|k: int|
                0 <= k < 26 ==> #[trigger] rack_use@[k] == count_of(letters_of(tiles@), capital(k)),
            forall|k: int| 0 <= k < 26 ==> #[trigger] rack_use@[k] <= rack_counts@[k],
            !clashes(fx, w.take(i as int), row as int, col as int, across),
            touching == touches(fx, row as int, col as int, across, i as int),
        decreases len - i,
    {
        let r = row + dr * i;
        let c = col + dc * i;
        let ghost gi = i as int;
        assert(r == sq_row(row as int, across, gi) && c == sq_col(col as int, across, gi));
        let is_near = fixed.contains(r, c) || fixed.contains(r, c - 1) || fixed.contains(r, c + 1)
            || fixed.contains(r - 1, c) || fixed.contains(r + 1, c);
        assert(is_near == near(fx, r as int, c as int));
        if is_near {
            touching = true;
        }
        proof {
            assert forall|j: int| 0 <= j < gi + 1 && #[trigger] near(fx, sq_row(row as int, across, j), sq_col(col as int, across, j)) implies touching by {
                if j < gi {
                    assert(touches(fx, row as int, col as int, across, gi));
                }
            }
            if touching {
                if !is_near {
                    let j = choose|j: int| 0 <= j < gi && #[trigger] near(fx, sq_row(row as int, across, j), sq_col(col as int, across, j));
                    assert(near(fx, sq_row(row as int, across, j), sq_col(col as int, across, j)));
                } else {
                    assert(near(fx, sq_row(row as int, across, gi), sq_col(col as int, across, gi)));
                }
            }
        }
        let letter = word[i as usize];
        let ghost prev_tiles = tiles@;
        assert(w.take(gi + 1) == w.take(gi).push(letter));
        match fixed.get(r, c) {
            Some(existing) => {
                if existing != letter {
                    assert(w[gi] == letter);
                    assert(clashes(fx, w, row as int, col as int, across));
                    return None;
                }
                proof {
                    assert forall|j: int| 0 <= j < gi + 1 && #[trigger] lookup(fx, sq_row(row as int, across, j), sq_col(col as int, across, j)) is Some implies
                        lookup(fx, sq_row(row as int, across, j), sq_col(col as int, across, j))->0 == w.take(gi + 1)[j] by {
                        if j < gi {
                            assert(w.take(gi + 1)[j] == w.take(gi)[j]);
                        }
                    }
                }
            },
            None => {
                let idx = (letter - 65) as usize;
                let t = Tile { row: r, col: c, letter };
                proof {
                    assert(letters_of(prev_tiles.push(t)) == letters_of(prev_tiles).push(letter));
                    assert forall|k: int| 0 <= k < 26 implies count_of(letters_of(prev_tiles.push(t)), capital(k))
                        == count_of(letters_of(prev_tiles), capital(k)) + if k == idx {
                        1nat
                    } else {
                        0nat
                    } by {
                        lemma_count_push(letters_of(prev_tiles), letter, capital(k));
                    }
                }
                let have = rack_use[idx];
                if have >= rack_counts[idx] {
                    proof {
                        let ghost grown = fresh_tiles(fx, w, row as int, col as int, across, gi + 1);
                        assert(grown == prev_tiles.push(t));
                        lemma_fresh_count_mono(fx, w, row as int, col as int, across, gi + 1, len as int, capital(idx as int));
                        assert(count_of(letters_of(grown), capital(idx as int)) > count_of(rack, capital(idx as int)));
                        assert(overdraws(fresh_tiles(fx, w, row as int, col as int, across, len as int), rack));
                    }
                    return None;
                }
                rack_use.set(idx, have + 1);
                tiles.push(t);
                proof {
                    assert forall|j: int| 0 <= j < gi + 1 && #[trigger] lookup(fx, sq_row(row as int, across, j), sq_col(col as int, across, j)) is Some implies
                        lookup(fx, sq_row(row as int, across, j), sq_col(col as int, across, j))->0 == w.take(gi + 1)[j] by {
                        if j < gi {
                            assert(w.take(gi + 1)[j] == w.take(gi)[j]);
                        }
                    }
                }
            },
        }
        i = i + 1;
    }
    assert(w.take(len as int) == w);
    assert(!overdraws(tiles@, rack)) by {
        if overdraws(tiles@, rack) {
            let k = choose|k: int|
                0 <= k < 26 && #[trigger] count_of(letters_of(tiles@), capital(k)) > count_of(rack, capital(k));
            assert(rack_use@[k] <= rack_counts@[k]);
        }
    }
    if tiles.len() == 0 || !touching {
        return None;
    }
    Some(tiles)
}

/// A move: the new tiles, the words they form, the score, and whether it
/// uses all seven rack tiles.
pub struct Move {
    pub tiles: Vec<Tile>,
    pub words: Vec<ScoredWord>,
    pub score: u32,
    pub bingo: bool,
}

/// The squares where a word of `len` letters may start, inside the board.
pub open spec fn in_window(len: int, across: bool, row: int, col: int) -> bool {
    &&& 0 <= row
    &&& 0 <= col
    &&& across ==> row < 15 && col < 15 - len + 1
    &&& !across ==> row < 15 - len + 1 && col < 15
}

/// Every word formed is in the dictionary.
pub open spec fn all_listed(dict: Seq<Seq<u8>>, ws: Seq<(Seq<u8>, nat)>) -> bool {
    forall|i: int| 0 <= i < ws.len() ==> dict.contains(#[trigger] encode_utf8(as_chars(ws[i].0)))
}

/// Laying candidate `w` from `(row, col)` takes the new tiles `tiles`, and
/// they score, forming only listed words.
pub open spec fn legal_at(
    fixed: Seq<Tile>,
    rack: Seq<u8>,
    dict: Seq<Seq<u8>>,
    w: Seq<u8>,
    across: bool,
    row: int,
    col: int,
    tiles: Seq<Tile>,
) -> bool {
    &&& candidate(fixed, rack, w)
    &&& in_window(w.len() as int, across, row, col)
    &&& fit(fixed, rack, w, row, col, across) == Some(tiles)
    &&& match scoring(fixed, tiles) {
        Some((ws, _, _)) => all_listed(dict, ws),
        None => false,
    }
}

/// Some dictionary word, laid somewhere, takes exactly these new tiles.
pub open spec fn legal(fixed: Seq<Tile>, rack: Seq<u8>, dict: Seq<Seq<u8>>, tiles: Seq<Tile>) -> bool {
    exists|w: Seq<u8>, across: bool, row: int, col: int|
        dict.contains(w) && #[trigger] legal_at(fixed, rack, dict, w, across, row, col, tiles)
}

/// `m` reports the given words, bingo flag and total.
pub open spec fn move_reports(m: Move, ws: Seq<(Seq<u8>, nat)>, bingo: bool, total: nat) -> bool {
    &&& m.words@.len() == ws.len()
    &&& forall|i: int|
        0 <= i < ws.len() ==> #[trigger] m.words@[i].word@ == as_chars(ws[i].0)
            && m.words@[i].score == ws[i].1
    &&& m.bingo == bingo
    &&& m.score == total
}

/// A legal move, reported as its placement scores.
pub open spec fn good_move(fixed: Seq<Tile>, rack: Seq<u8>, dict: Seq<Seq<u8>>, m: Move) -> bool {
    &&& legal(fixed, rack, dict, m.tiles@)
    &&& match scoring(fixed, m.tiles@) {
        Some((ws, bingo, total)) => move_reports(m, ws, bingo, total),
        None => false,
    }
}

/// Some move of the list takes exactly these new tiles.
pub open spec fn found(moves: Seq<Move>, tiles: Seq<Tile>) -> bool {
    exists|i: int| 0 <= i < moves.len() && #[trigger] moves[i].tiles@ == tiles
}

/// Distinct placements, best score first.
pub open spec fn ranked(moves: Seq<Move>) -> bool {
    &&& forall|i: int, j: int|
        0 <= i < j < moves.len() ==> #[trigger] moves[i].tiles@ != #[trigger] moves[j].tiles@
    &&& forall|i: int, j: int|
        0 <= i < j < moves.len() ==> #[trigger] moves[i].score >= #[trigger] moves[j].score
}

/// Good moves, distinct, best first.
pub open spec fn moves_ok(fixed: Seq<Tile>, rack: Seq<u8>, dict: Seq<Seq<u8>>, moves: Seq<Move>) -> bool {
    &&& forall|i: int| 0 <= i < moves.len() ==> #[trigger] good_move(fixed, rack, dict, moves[i])
    &&& ranked(moves)
}

/// Every placement that might be scored scores within `u32`.
pub open spec fn scores_fit(fixed: Seq<Tile>, rack: Seq<u8>, dict: Seq<Seq<u8>>) -> bool {
    forall|w: Seq<u8>, across: bool, row: int, col: int|
        dict.contains(w) && candidate(fixed, rack, w) && in_window(w.len() as int, across, row, col)
            ==> match #[trigger] fit(fixed, rack, w, row, col, across) {
            Some(t) => score_fits(fixed, t),
            None => true,
        }
}

/// On a board whose tiles are all on the 15x15 squares, every placement
/// that might be scored scores within `u32`.
pub proof fn lemma_on_grid_scores_fit(fixed: Seq<Tile>, rack: Seq<u8>, dict: Seq<Seq<u8>>)
    requires
        on_grid(fixed),
    ensures
        scores_fit(fixed, rack, dict),
{
    assert forall|w: Seq<u8>, across: bool, row: int, col: int|
        dict.contains(w) && candidate(fixed, rack, w) && in_window(w.len() as int, across, row, col)
            implies match #[trigger] fit(fixed, rack, w, row, col, across) {
            Some(t) => score_fits(fixed, t),
            None => true,
        } by {
        lemma_fresh_on_grid(fixed, w, row, col, across, w.len() as int);
        lemma_score_fits(fixed, fresh_tiles(fixed, w, row, col, across, w.len() as int));
    }
}

/// Whether two tile lists are equal.
fn same_tiles(a: &Vec<Tile>, b: &Vec<Tile>) -> (res: bool)
    ensures
        res == (a@ == b@),
{
    if a.len() != b.len() {
        return false;
    }
    let mut i: usize = 0;
    while i < a.len()
        invariant
            a@.len() == b@.len(),
            i <= a@.len(),
            forall|k: int| 0 <= k < i ==> a@[k] == b@[k],
        decreases a@.len() - i,
    {
        if a[i] != b[i] {
            return false;
        }
        i = i + 1;
    }
    assert(a@ == b@);
    true
}

proof fn lemma_insert_distinct(before: Seq<Move>, pos: int, mv: Move)
    requires
        0 <= pos <= before.len(),
        forall|i: int, j: int|
            0 <= i < j < before.len() ==> #[trigger] before[i].tiles@ != #[trigger] before[j].tiles@,
        forall|x: int| 0 <= x < before.len() ==> #[trigger] before[x].tiles@ != mv.tiles@,
    ensures
        forall|i: int, j: int|
            0 <= i < j < before.insert(pos, mv).len() ==> #[trigger] before.insert(pos, mv)[i].tiles@
                != #[trigger] before.insert(pos, mv)[j].tiles@,
{
    let after = before.insert(pos, mv);
    assert forall|i: int, j: int| 0 <= i < j < after.len() implies #[trigger] after[i].tiles@
        != #[trigger] after[j].tiles@ by {
        let bi = if i < pos { i } else { i - 1 };
        let bj = if j < pos { j } else { j - 1 };
        if i == pos {
            assert(after[j] == before[bj]);
            assert(before[bj].tiles@ != mv.tiles@);
        } else if j == pos {
            assert(after[i] == before[bi]);
            assert(before[bi].tiles@ != mv.tiles@);
        } else {
            assert(after[i] == before[bi] && after[j] == before[bj]);
            assert(bi < bj);
            assert(before[bi].tiles@ != before[bj].tiles@);
        }
    }
}

/// Add a move unless one with the same tiles is there, keeping the best
/// score first and earlier moves first among equal scores.
fn add_move(moves: &mut Vec<Move>, m: Move)
    requires
        ranked(old(moves)@),
    ensures
        ranked(final(moves)@),
        forall|t: Seq<Tile>| #[trigger] found(final(moves)@, t) == (found(old(moves)@, t) || t == m.tiles@),
        forall|i: int|
            0 <= i < final(moves)@.len() ==> #[trigger] final(moves)@[i] == m || exists|j: int|
                0 <= j < old(moves)@.len() && final(moves)@[i] == old(moves)@[j],
{
    let ghost before = moves@;
    let mut k: usize = 0;
    while k < moves.len()
        invariant
            moves@ == before,
            ranked(before),
            k <= before.len(),
            forall|j: int| 0 <= j < k ==> #[trigger] before[j].tiles@ != m.tiles@,
        decreases before.len() - k,
    {
        if same_tiles(&moves[k].tiles, &m.tiles) {
            proof {
                assert(moves@ == before);
                assert(ranked(before));
                assert forall|t: Seq<Tile>| #[trigger] found(moves@, t) == (found(before, t) || t == m.tiles@) by {
                    if t == m.tiles@ {
                        assert(moves@[k as int].tiles@ == t);
                    }
                }
                assert forall|i: int| 0 <= i < moves@.len() implies #[trigger] moves@[i] == m || exists|j: int|
                    0 <= j < before.len() && moves@[i] == before[j] by {
                    assert(moves@[i] == before[i]);
                }
            }
            return;
        }
        k = k + 1;
    }
    let mut pos: usize = 0;
    while pos < moves.len() && moves[pos].score >= m.score
        invariant
            moves@ == before,
            pos <= before.len(),
            forall|j: int| 0 <= j < pos ==> #[trigger] before[j].score >= m.score,
        decreases before.len() - pos,
    {
        pos = pos + 1;
    }
    let ghost mt = m.tiles@;
    let ghost ms = m.score;
    let ghost mv = m;
    moves.insert(pos, m);
    proof {
        let after = moves@;
        assert(after == before.insert(pos as int, mv));
        assert forall|j: int| pos <= j < before.len() implies #[trigger] before[j].score < ms by {
            assert(before[pos as int].score < ms);
            if j > pos {
                assert(before[pos as int].score >= before[j].score);
            }
        }
        lemma_insert_distinct(before, pos as int, mv);
        assert forall|i: int, j: int| 0 <= i < j < after.len() implies #[trigger] after[i].score
            >= #[trigger] after[j].score by {
            if i < pos && j < pos {
                assert(after[i] == before[i] && after[j] == before[j]);
            } else if i < pos && j == pos {
                assert(after[i] == before[i]);
            } else if i < pos {
                assert(after[i] == before[i] && after[j] == before[j - 1]);
            } else if i == pos {
                assert(after[j] == before[j - 1]);
            } else {
                assert(after[i] == before[i - 1] && after[j] == before[j - 1]);
            }
        }
        assert forall|t: Seq<Tile>| #[trigger] found(after, t) == (found(before, t) || t == mt) by {
            if found(after, t) {
                let i = choose|i: int| 0 <= i < after.len() && #[trigger] after[i].tiles@ == t;
                if i < pos {
                    assert(after[i] == before[i]);
                } else if i > pos {
                    assert(after[i] == before[i - 1]);
                }
            }
            if found(before, t) {
                let i = choose|i: int| 0 <= i < before.len() && #[trigger] before[i].tiles@ == t;
                if i < pos {
                    assert(after[i] == before[i]);
                } else {
                    assert(after[i + 1] == before[i]);
                }
            }
            if t == mt {
                assert(after[pos as int].tiles@ == t);
            }
        }
        assert forall|i: int| 0 <= i < after.len() implies #[trigger] after[i] == mv || exists|j: int|
            0 <= j < before.len() && after[i] == before[j] by {
            if i < pos {
                assert(after[i] == before[i]);
            } else if i > pos {
                assert(after[i] == before[i - 1]);
            }
        }
    }
}

/// Whether every scored word is in the dictionary.
fn words_listed(dict: &Dictionary, words: &Vec<ScoredWord>, Ghost(ws): Ghost<Seq<(Seq<u8>, nat)>>) -> (res: bool)
    requires
        words@.len() == ws.len(),
        forall|i: int| 0 <= i < ws.len() ==> #[trigger] words@[i].word@ == as_chars(ws[i].0),
    ensures
        res == all_listed(dict@, ws),
{
    let mut i: usize = 0;
    while i < words.len()
        invariant
            i <= words@.len(),
            words@.len() == ws.len(),
            forall|k: int| 0 <= k < ws.len() ==> #[trigger] words@[k].word@ == as_chars(ws[k].0),
            forall|k: int| 0 <= k < i ==> dict@.contains(#[trigger] encode_utf8(as_chars(ws[k].0))),
        decreases words@.len() - i,
    {
        let bytes = words[i].word.as_str().as_bytes();
        assert(bytes@ == encode_utf8(as_chars(ws[i as int].0)));
        if !dict.contains(bytes) {
            return false;
        }
        i = i + 1;
    }
    true
}

/// Whether a word is worth trying with these rack and board counts.
fn is_candidate(
    word: &[u8],
    limit: usize,
    rack_counts: &Vec<u16>,
    board_counts: &Vec<u16>,
    Ghost(fixed): Ghost<Seq<Tile>>,
    Ghost(rack): Ghost<Seq<u8>>,
) -> (res: bool)
    requires
        limit == longest(fixed, rack),
        2 <= word@.len() <= limit ==> capitals(word@),
        rack_counts@.len() == 26,
        board_counts@.len() == 26,
        forall|k: int| 0 <= k < 26 ==> #[trigger] rack_counts@[k] == count_of(rack, capital(k)),
        forall|k: int|
            0 <= k < 26 ==> #[trigger] board_counts@[k] == count_of(letters_of(fixed), capital(k)),
    ensures
        res == candidate(fixed, rack, word@),
{
    if word.len() < 2 || word.len() > limit {
        return false;
    }
    proof {
        lemma_counts_fit(word@);
    }
    let counts = count_letters(word);
    let mut k: usize = 0;
    while k < 26
        invariant
            k <= 26,
            counts@.len() == 26,
            rack_counts@.len() == 26,
            board_counts@.len() == 26,
            forall|j: int| 0 <= j < 26 ==> #[trigger] counts@[j] == count_of(word@, capital(j)),
            forall|j: int| 0 <= j < 26 ==> #[trigger] rack_counts@[j] == count_of(rack, capital(j)),
            forall|j: int|
                0 <= j < 26 ==> #[trigger] board_counts@[j] == count_of(letters_of(fixed), capital(j)),
            forall|j: int|
                0 <= j < k ==> #[trigger] count_of(word@, capital(j)) <= count_of(rack, capital(j))
                    + count_of(letters_of(fixed), capital(j)),
        decreases 26 - k,
    {
        if (counts[k] as u32) > (rack_counts[k] as u32) + (board_counts[k] as u32) {
            return false;
        }
        k = k + 1;
    }
    true
}

/// Add the moves of one word in one direction, position by position.
fn add_word_moves(
    fixed: &Board,
    rack_counts: &Vec<u16>,
    Ghost(rack): Ghost<Seq<u8>>,
    dict: &Dictionary,
    word: &[u8],
    across: bool,
    moves: &mut Vec<Move>,
)
    requires
        rack_counts@.len() == 26,
        forall|k: int| 0 <= k < 26 ==> #[trigger] rack_counts@[k] == count_of(rack, capital(k)),
        capitals(word@),
        candidate(fixed@, rack, word@),
        dict@.contains(word@),
        scores_fit(fixed@, rack, dict@),
        moves_ok(fixed@, rack, dict@, old(moves)@),
    ensures
        moves_ok(fixed@, rack, dict@, final(moves)@),
        forall|t: Seq<Tile>| found(old(moves)@, t) ==> #[trigger] found(final(moves)@, t),
        forall|row: int, col: int, t: Seq<Tile>|
            #[trigger] legal_at(fixed@, rack, dict@, word@, across, row, col, t) ==> found(
                final(moves)@,
                t,
            ),
{
    let ghost fx = fixed@;
    let ghost w = word@;
    let ghost dv = dict@;
    let ghost start = moves@;
    let len = word.len() as i32;
    let row_max: i32 = if across {
        15
    } else {
        15 - len + 1
    };
    let col_max: i32 = if across {
        15 - len + 1
    } else {
        15
    };
    let mut row: i32 = 0;
    while row < row_max
        invariant
            fx == fixed@,
            w == word@,
            dv == dict@,
            2 <= len <= 15,
            len == w.len(),
            row_max == (if across { 15 } else { 15 - len + 1 }),
            col_max == (if across { 15 - len + 1 } else { 15 }),
            0 <= row <= row_max,
            rack_counts@.len() == 26,
            forall|k: int| 0 <= k < 26 ==> #[trigger] rack_counts@[k] == count_of(rack, capital(k)),
            capitals(w),
            candidate(fx, rack, w),
            dv.contains(w),
            scores_fit(fx, rack, dv),
            moves_ok(fx, rack, dv, moves@),
            forall|t: Seq<Tile>| found(start, t) ==> #[trigger] found(moves@, t),
            forall|r: int, c: int, t: Seq<Tile>|
                r < row && #[trigger] legal_at(fx, rack, dv, w, across, r, c, t) ==> found(moves@, t),
        decreases row_max - row,
    {
        let mut col: i32 = 0;
        while col < col_max
            invariant
                fx == fixed@,
                w == word@,
                dv == dict@,
                2 <= len <= 15,
                len == w.len(),
                row_max == (if across { 15 } else { 15 - len + 1 }),
                col_max == (if across { 15 - len + 1 } else { 15 }),
                0 <= row < row_max,
                0 <= col <= col_max,
                rack_counts@.len() == 26,
                forall|k: int| 0 <= k < 26 ==> #[trigger] rack_counts@[k] == count_of(rack, capital(k)),
                capitals(w),
                candidate(fx, rack, w),
                dv.contains(w),
                scores_fit(fx, rack, dv),
                moves_ok(fx, rack, dv, moves@),
                forall|t: Seq<Tile>| found(start, t) ==> #[trigger] found(moves@, t),
                forall|r: int, c: int, t: Seq<Tile>|
                    (r < row || (r == row && c < col)) && #[trigger] legal_at(fx, rack, dv, w, across, r, c, t)
                        ==> found(moves@, t),
            decreases col_max - col,
        {
            let ghost before = moves@;
            assert(in_window(len as int, across, row as int, col as int));
            let fitted = fit_word(fixed, rack_counts, Ghost(rack), word, row, col, across);
            match fitted {
                None => {},
                Some(tiles) => {
                    proof {
                        lemma_fresh_on_grid(fx, w, row as int, col as int, across, len as int);
                        assert forall|i: int| 0 <= i < tiles@.len() implies #[trigger] square_ok(tiles@[i]) by {
                            assert(on_board(tiles@[i]));
                        }
                        assert(match fit(fx, rack, w, row as int, col as int, across) {
                            Some(t) => score_fits(fx, t),
                            None => true,
                        });
                    }
                    let scored = score_placement(fixed, tiles.as_slice());
                    match scored {
                        None => {},
                        Some(sc) => {
                            let ghost ws = match scoring(fx, tiles@) {
                                Some((a, _, _)) => a,
                                None => Seq::empty(),
                            };
                            let ok = words_listed(dict, &sc.words, Ghost(ws));
                            if ok {
                                let m = Move { tiles, words: sc.words, score: sc.score, bingo: sc.bingo };
                                proof {
                                    assert(legal_at(fx, rack, dv, w, across, row as int, col as int, m.tiles@));
                                    assert(legal(fx, rack, dv, m.tiles@));
                                    assert(good_move(fx, rack, dv, m));
                                }
                                let ghost mv = m;
                                add_move(moves, m);
                                proof {
                                    assert forall|i: int| 0 <= i < moves@.len() implies #[trigger] good_move(fx, rack, dv, moves@[i]) by {
                                        if moves@[i] != mv {
                                            let j = choose|j: int| 0 <= j < before.len() && moves@[i] == before[j];
                                            assert(good_move(fx, rack, dv, before[j]));
                                        }
                                    }
                                    assert forall|t: Seq<Tile>| found(start, t) implies #[trigger] found(moves@, t) by {
                                        assert(found(before, t));
                                    }
                                    assert forall|r: int, c: int, t: Seq<Tile>|
                                        (r < row || (r == row && c < col + 1)) && #[trigger] legal_at(fx, rack, dv, w, across, r, c, t)
                                            implies found(moves@, t) by {
                                        if r < row || c < col {
                                            assert(found(before, t));
                                        } else {
                                            assert(t == mv.tiles@);
                                        }
                                    }
                                }
                            }
                        },
                    }
                },
            }
            col = col + 1;
        }
        row = row + 1;
    }
}

/// Every move the rack allows on the board: each dictionary word, in each
/// direction, at each position where it fits the fixed tiles and the rack
/// and forms only dictionary words. Each placement is listed once, the
/// best score first.
pub fn find_all_moves(fixed: &Board, rack: &[u8], dict: &Dictionary) -> (res: Vec<Move>)
    requires
        squares_ok(fixed@),
        capitals(rack@),
        capitals(letters_of(fixed@)),
        counts_fit(rack@),
        counts_fit(letters_of(fixed@)),
        rack@.len() + fixed@.len() <= usize::MAX,
        forall|w: Seq<u8>|
            #![trigger dict@.contains(w)]
            dict@.contains(w) && 2 <= w.len() <= longest(fixed@, rack@) ==> capitals(w),
        scores_fit(fixed@, rack@, dict@),
    ensures
        moves_ok(fixed@, rack@, dict@, res@),
        forall|t: Seq<Tile>| #[trigger] legal(fixed@, rack@, dict@, t) ==> found(res@, t),
{
    let ghost fx = fixed@;
    let ghost rk = rack@;
    let ghost dv = dict@;
    let rack_counts = count_letters(rack);
    let on_board = board_letters(fixed);
    let board_counts = count_letters(on_board.as_slice());
    let total = rack.len() + fixed.len();
    let limit: usize = if total < 15 {
        total
    } else {
        15
    };
    let words = dict.words();
    let mut moves: Vec<Move> = Vec::new();
    let mut wi: usize = 0;
    while wi < words.len()
        invariant
            fx == fixed@,
            rk == rack@,
            dv == dict@,
            words@.map_values(|v: Vec<u8>| v@) == dv,
            wi <= words@.len(),
            limit == longest(fx, rk),
            rack_counts@.len() == 26,
            board_counts@.len() == 26,
            forall|k: int| 0 <= k < 26 ==> #[trigger] rack_counts@[k] == count_of(rk, capital(k)),
            forall|k: int|
                0 <= k < 26 ==> #[trigger] board_counts@[k] == count_of(letters_of(fx), capital(k)),
            forall|w: Seq<u8>|
                #![trigger dv.contains(w)]
                dv.contains(w) && 2 <= w.len() <= longest(fx, rk) ==> capitals(w),
            scores_fit(fx, rk, dv),
            moves_ok(fx, rk, dv, moves@),
            forall|j: int, across: bool, r: int, c: int, t: Seq<Tile>|
                0 <= j < wi && #[trigger] legal_at(fx, rk, dv, dv[j], across, r, c, t) ==> found(moves@, t),
        decreases words@.len() - wi,
    {
        let word = words[wi].as_slice();
        assert(word@ == dv[wi as int]);
        assert(dv.contains(word@));
        let ghost before = moves@;
        if is_candidate(word, limit, &rack_counts, &board_counts, Ghost(fx), Ghost(rk)) {
            add_word_moves(fixed, &rack_counts, Ghost(rk), dict, word, true, &mut moves);
            let ghost middle = moves@;
            add_word_moves(fixed, &rack_counts, Ghost(rk), dict, word, false, &mut moves);
            proof {
                assert forall|j: int, across: bool, r: int, c: int, t: Seq<Tile>|
                    0 <= j < wi + 1 && #[trigger] legal_at(fx, rk, dv, dv[j], across, r, c, t) implies found(moves@, t) by {
                    if j < wi {
                        assert(found(before, t));
                        assert(found(middle, t));
                    } else if across {
                        assert(found(middle, t));
                    }
                }
            }
        } else {
            proof {
                assert forall|j: int, across: bool, r: int, c: int, t: Seq<Tile>|
                    0 <= j < wi + 1 && #[trigger] legal_at(fx, rk, dv, dv[j], across, r, c, t) implies found(moves@, t) by {
                    if j == wi {
                        assert(!candidate(fx, rk, dv[j]));
                    }
                }
            }
        }
        wi = wi + 1;
    }
    proof {
        assert forall|t: Seq<Tile>| #[trigger] legal(fx, rk, dv, t) implies found(moves@, t) by {
            let (w, across, r, c) = choose|w: Seq<u8>, across: bool, r: int, c: int|
                dv.contains(w) && #[trigger] legal_at(fx, rk, dv, w, across, r, c, t);
            let j = choose|j: int| 0 <= j < dv.len() && dv[j] == w;
            assert(legal_at(fx, rk, dv, dv[j], across, r, c, t));
        }
    }
    moves
}

/// The placements the rack allows, as sets of new tiles.
pub open spec fn legal_set(fixed: Seq<Tile>, rack: Seq<u8>, dict: Seq<Seq<u8>>) -> Set<Seq<Tile>> {
    Set::new(|t: Seq<Tile>| legal(fixed, rack, dict, t))
}

/// The total a placement scores (zero when it does not score).
pub open spec fn total_of(fixed: Seq<Tile>, t: Seq<Tile>) -> nat {
    match scoring(fixed, t) {
        Some((_, _, total)) => total,
        None => 0,
    }
}

/// `m` is the best total of the allowed placements.
pub open spec fn is_best(fixed: Seq<Tile>, rack: Seq<u8>, dict: Seq<Seq<u8>>, m: nat) -> bool {
    &&& exists|t: Seq<Tile>| #[trigger] legal(fixed, rack, dict, t) && total_of(fixed, t) == m
    &&& forall|t: Seq<Tile>| #[trigger] legal(fixed, rack, dict, t) ==> total_of(fixed, t) <= m
}

/// The best total of the allowed placements.
pub open spec fn best_score(fixed: Seq<Tile>, rack: Seq<u8>, dict: Seq<Seq<u8>>) -> nat {
    choose|m: nat| is_best(fixed, rack, dict, m)
}

/// The tiles of each move.
pub open spec fn tiles_of(moves: Seq<Move>) -> Seq<Seq<Tile>> {
    moves.map_values(|m: Move| m.tiles@)
}

/// A list of all allowed moves, each once, best first, has as many moves
/// as there are allowed placements, and its first move has the best score.
pub proof fn lemma_moves_summary(fixed: Seq<Tile>, rack: Seq<u8>, dict: Seq<Seq<u8>>, moves: Seq<Move>)
    requires
        moves_ok(fixed, rack, dict, moves),
        forall|t: Seq<Tile>| #[trigger] legal(fixed, rack, dict, t) ==> found(moves, t),
    ensures
        legal_set(fixed, rack, dict).finite(),
        moves.len() == legal_set(fixed, rack, dict).len(),
        moves.len() > 0 ==> moves[0].score == best_score(fixed, rack, dict),
{
    let ts = tiles_of(moves);
    assert forall|i: int, j: int| 0 <= i < ts.len() && 0 <= j < ts.len() && i != j implies ts[i] != ts[j] by {
        if i < j {
            assert(moves[i].tiles@ != moves[j].tiles@);
        } else {
            assert(moves[j].tiles@ != moves[i].tiles@);
        }
    }
    assert(ts.no_duplicates());
    assert forall|t: Seq<Tile>| #[trigger] ts.to_set().contains(t) == legal_set(fixed, rack, dict).contains(t) by {
        if ts.to_set().contains(t) {
            let i = choose|i: int| 0 <= i < ts.len() && ts[i] == t;
            assert(good_move(fixed, rack, dict, moves[i]));
        }
        if legal(fixed, rack, dict, t) {
            assert(found(moves, t));
            let i = choose|i: int| 0 <= i < moves.len() && #[trigger] moves[i].tiles@ == t;
            assert(ts[i] == t);
        }
    }
    assert(ts.to_set() =~= legal_set(fixed, rack, dict));
    ts.unique_seq_to_set();
    if moves.len() > 0 {
        let m0 = moves[0];
        assert(good_move(fixed, rack, dict, m0));
        let top = m0.score as nat;
        assert(total_of(fixed, m0.tiles@) == top);
        assert forall|t: Seq<Tile>| #[trigger] legal(fixed, rack, dict, t) implies total_of(fixed, t) <= top by {
            assert(found(moves, t));
            let i = choose|i: int| 0 <= i < moves.len() && #[trigger] moves[i].tiles@ == t;
            assert(good_move(fixed, rack, dict, moves[i]));
            if i > 0 {
                assert(moves[0].score >= moves[i].score);
            }
        }
        assert(is_best(fixed, rack, dict, top));
        let b = best_score(fixed, rack, dict);
        assert(is_best(fixed, rack, dict, b));
        let tb = choose|t: Seq<Tile>| #[trigger] legal(fixed, rack, dict, t) && total_of(fixed, t) == b;
        assert(total_of(fixed, tb) <= top);
        assert(total_of(fixed, m0.tiles@) <= b);
    }
}


/// A dictionary word of two to fifteen letters, no longer than the rack
/// and board letters together and within their counts of each letter, is a
/// legal move wherever its fresh tiles fit and every word it forms is
/// listed: two-letter words included.
pub proof fn lemma_listed_words_are_moves(
    fixed: Seq<Tile>,
    rack: Seq<u8>,
    dict: Seq<Seq<u8>>,
    w: Seq<u8>,
    across: bool,
    row: int,
    col: int,
    tiles: Seq<Tile>,
)
    requires
        dict.contains(w),
        2 <= w.len() <= 15,
        w.len() <= rack.len() + fixed.len(),
        forall|k: int|
            0 <= k < 26 ==> #[trigger] count_of(w, capital(k)) <= count_of(rack, capital(k)) + count_of(
                letters_of(fixed),
                capital(k),
            ),
        in_window(w.len() as int, across, row, col),
        fit(fixed, rack, w, row, col, across) == Some(tiles),
        scoring(fixed, tiles) matches Some((ws, _, _)) && all_listed(dict, ws),
    ensures
        legal(fixed, rack, dict, tiles),
{
    assert(legal_at(fixed, rack, dict, w, across, row, col, tiles));
}

} // verus!
