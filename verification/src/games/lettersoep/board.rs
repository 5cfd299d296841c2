//! Tiles and the board of fixed tiles.

use vstd::prelude::*;

verus! {

/// A letter at a square.
#[derive(Clone, Copy, PartialEq, Eq, Structural, Debug)]
pub struct Tile {
    pub row: i32,
    pub col: i32,
    pub letter: u8,
}

/// The letter of the last tile of `cells` at `(r, c)`, if any.
pub open spec fn lookup(cells: Seq<Tile>, r: int, c: int) -> Option<u8>
    decreases cells.len(),
{
    if cells.len() == 0 {
        None
    } else if cells.last().row == r && cells.last().col == c {
        Some(cells.last().letter)
    } else {
        lookup(cells.drop_last(), r, c)
    }
}

/// The position of the tile at `(r, c)`, where there is one.
pub open spec fn square_index(cells: Seq<Tile>, r: int, c: int) -> int {
    choose|i: int| 0 <= i < cells.len() && cells[i].row == r && cells[i].col == c
}

/// The tiles after putting `t` on its square: it replaces the tile there,
/// or else joins the end.
pub open spec fn put(cells: Seq<Tile>, t: Tile) -> Seq<Tile> {
    if lookup(cells, t.row as int, t.col as int) is Some {
        cells.update(square_index(cells, t.row as int, t.col as int), t)
    } else {
        cells.push(t)
    }
}

/// No two tiles share a square.
pub open spec fn distinct_squares(cells: Seq<Tile>) -> bool {
    forall|i: int, j: int|
        0 <= i < j < cells.len() ==> (#[trigger] cells[i].row != #[trigger] cells[j].row
            || cells[i].col != cells[j].col)
}

/// A tile is at `(r, c)` exactly when the lookup finds a letter there; the
/// letter found is that of the last such tile.
pub proof fn lemma_lookup(cells: Seq<Tile>, r: int, c: int)
    ensures
        lookup(cells, r, c) is Some <==> exists|i: int|
            0 <= i < cells.len() && #[trigger] cells[i].row == r && cells[i].col == c,
        forall|i: int|
            0 <= i < cells.len() && #[trigger] cells[i].row == r && cells[i].col == c
                && distinct_squares(cells) ==> lookup(cells, r, c) == Some(cells[i].letter),
    decreases cells.len(),
{
    if cells.len() > 0 {
        let rest = cells.drop_last();
        lemma_lookup(rest, r, c);
        assert forall|i: int|
            0 <= i < rest.len() && #[trigger] rest[i].row == r && rest[i].col == c implies cells[i].row
            == r && cells[i].col == c by {}
        if exists|i: int| 0 <= i < cells.len() && #[trigger] cells[i].row == r && cells[i].col == c {
            let i = choose|i: int| 0 <= i < cells.len() && #[trigger] cells[i].row == r && cells[i].col == c;
            if i < cells.len() - 1 {
                assert(rest[i].row == r);
            }
        }
        assert forall|i: int|
            0 <= i < cells.len() && #[trigger] cells[i].row == r && cells[i].col == c && distinct_squares(
                cells,
            ) implies lookup(cells, r, c) == Some(cells[i].letter) by {
            if i < cells.len() - 1 {
                assert(rest[i].row == r);
                assert(distinct_squares(rest)) by {
                    assert forall|a: int, b: int|
                        0 <= a < b < rest.len() implies (#[trigger] rest[a].row != #[trigger] rest[b].row
                        || rest[a].col != rest[b].col) by {
                        assert(cells[a] == rest[a] && cells[b] == rest[b]);
                    }
                }
                assert(cells[i].row != cells.last().row || cells[i].col != cells.last().col);
            }
        }
    }
}

/// The fixed tiles of a board: at most one per square.
pub struct Board {
    cells: Vec<Tile>,
}

impl Board {
    #[verifier::type_invariant]
    spec fn one_per_square(&self) -> bool {
        distinct_squares(self.cells@)
    }
}

impl View for Board {
    type V = Seq<Tile>;

    closed spec fn view(&self) -> Seq<Tile> {
        self.cells@
    }
}

impl Board {
    /// The empty board.
    pub fn new() -> (res: Self)
        ensures
            res@ == Seq::<Tile>::empty(),
    {
        Board { cells: Vec::new() }
    }

    /// The tiles, one per occupied square.
    pub fn tiles(&self) -> (res: &Vec<Tile>)
        ensures
            res@ == self@,
            distinct_squares(self@),
    {
        proof {
            use_type_invariant(self);
        }
        &self.cells
    }

    /// How many squares are occupied.
    pub fn len(&self) -> (res: usize)
        ensures
            res == self@.len(),
    {
        self.cells.len()
    }

    /// The letter at a square.
    pub fn get(&self, row: i32, col: i32) -> (res: Option<u8>)
        ensures
            res == lookup(self@, row as int, col as int),
    {
        let n = self.cells.len();
        let mut i: usize = n;
        assert(self.cells@.take(n as int) == self.cells@);
        while i > 0
            invariant
                i <= n,
                n == self.cells@.len(),
                lookup(self.cells@, row as int, col as int) == lookup(
                    self.cells@.take(i as int),
                    row as int,
                    col as int,
                ),
            decreases i,
        {
            let t = self.cells[i - 1];
            assert(self.cells@.take(i as int).drop_last() == self.cells@.take(i - 1));
            if t.row == row && t.col == col {
                return Some(t.letter);
            }
            i = i - 1;
        }
        None
    }

    /// Whether a square is occupied.
    pub fn contains(&self, row: i32, col: i32) -> (res: bool)
        ensures
            res == lookup(self@, row as int, col as int) is Some,
    {
        self.get(row, col).is_some()
    }

    /// Put a letter on a square, replacing what was there.
    pub fn insert(&mut self, row: i32, col: i32, letter: u8)
        ensures
            final(self)@ == put(old(self)@, Tile { row, col, letter }),
            forall|r: int, c: int|
                #[trigger] lookup(final(self)@, r, c) == if r == row && c == col {
                    Some(letter)
                } else {
                    lookup(old(self)@, r, c)
                },
            final(self)@.len() == old(self)@.len() + if lookup(old(self)@, row as int, col as int) is Some {
                0int
            } else {
                1int
            },
    {
        proof {
            use_type_invariant(&*self);
        }
        let ghost before = self.cells@;
        let n = self.cells.len();
        let mut i: usize = 0;
        let mut found = false;
        while i < n
            invariant_except_break
                !found,
            invariant
                n == self.cells@.len(),
                self.cells@ == before,
                distinct_squares(before),
                i <= n,
                forall|j: int| 0 <= j < i ==> #[trigger] before[j].row != row || before[j].col != col,
            ensures
                found ==> i < n && before[i as int].row == row && before[i as int].col == col,
                !found ==> forall|j: int|
                    0 <= j < n ==> #[trigger] before[j].row != row || before[j].col != col,
            decreases n - i,
        {
            if self.cells[i].row == row && self.cells[i].col == col {
                found = true;
                break;
            }
            i = i + 1;
        }
        let tile = Tile { row, col, letter };
        let mut cells: Vec<Tile> = Vec::new();
        std::mem::swap(&mut cells, &mut self.cells);
        if found {
            proof {
                lemma_lookup_update(before, i as int, tile);
                lemma_lookup(before, row as int, col as int);
                let k = square_index(before, row as int, col as int);
                assert(0 <= k < before.len() && before[k].row == row && before[k].col == col);
                if k != i {
                    if k < i {
                        assert(before[k].row != before[i as int].row || before[k].col != before[i as int].col);
                    } else {
                        assert(before[i as int].row != before[k].row || before[i as int].col != before[k].col);
                    }
                }
            }
            cells.set(i, tile);
        } else {
            proof {
                lemma_lookup(before, row as int, col as int);
                assert(distinct_squares(before.push(tile)));
                assert forall|r: int, c: int|
                    #[trigger] lookup(before.push(tile), r, c) == if r == row && c == col {
                        Some(letter)
                    } else {
                        lookup(before, r, c)
                    } by {
                    assert(before.push(tile).drop_last() == before);
                }
            }
            cells.push(tile);
        }
        self.cells = cells;
    }
}

/// Replacing a tile by one on the same square keeps the squares distinct
/// and changes the lookup only at that square.
pub proof fn lemma_lookup_update(s: Seq<Tile>, i: int, t: Tile)
    requires
        distinct_squares(s),
        0 <= i < s.len(),
        s[i].row == t.row,
        s[i].col == t.col,
    ensures
        distinct_squares(s.update(i, t)),
        forall|r: int, c: int|
            #[trigger] lookup(s.update(i, t), r, c) == if r == t.row && c == t.col {
                Some(t.letter)
            } else {
                lookup(s, r, c)
            },
{
    let u = s.update(i, t);
    assert forall|a: int, b: int| 0 <= a < b < u.len() implies (#[trigger] u[a].row
        != #[trigger] u[b].row || u[a].col != u[b].col) by {
        assert(s[a].row != s[b].row || s[a].col != s[b].col);
    }
    assert forall|r: int, c: int|
        #[trigger] lookup(u, r, c) == if r == t.row && c == t.col {
            Some(t.letter)
        } else {
            lookup(s, r, c)
        } by {
        lemma_lookup(u, r, c);
        lemma_lookup(s, r, c);
        if r == t.row && c == t.col {
            assert(u[i].row == r && u[i].col == c);
        } else {
            if exists|j: int| 0 <= j < s.len() && #[trigger] s[j].row == r && s[j].col == c {
                let j = choose|j: int| 0 <= j < s.len() && #[trigger] s[j].row == r && s[j].col == c;
                assert(u[j] == s[j]);
            }
            if exists|j: int| 0 <= j < u.len() && #[trigger] u[j].row == r && u[j].col == c {
                let j = choose|j: int| 0 <= j < u.len() && #[trigger] u[j].row == r && u[j].col == c;
                assert(u[j] == s[j]);
            }
        }
    }
}

} // verus!
