//! The games known to the API.

pub mod lettersoep;
pub mod sudokudo;
pub mod woordle;

use crate::text::str_eq;
use vstd::prelude::*;

verus! {

/// The game ids the API accepts: `woordle*` are the four woordle.nl variants.
pub open spec fn known_game(game: Seq<char>) -> bool {
    ||| game == "sudokudo"@
    ||| game == "woordle"@
    ||| game == "woordle6"@
    ||| game == "wordle"@
    ||| game == "wordle6"@
}

/// The known game ids, in the order the profile lists them.
pub fn games() -> (res: Vec<&'static str>)
    ensures
        res@.len() == 5,
        res@[0]@ == "sudokudo"@,
        res@[1]@ == "woordle"@,
        res@[2]@ == "woordle6"@,
        res@[3]@ == "wordle"@,
        res@[4]@ == "wordle6"@,
{
    let mut v: Vec<&'static str> = Vec::new();
    v.push("sudokudo");
    v.push("woordle");
    v.push("woordle6");
    v.push("wordle");
    v.push("wordle6");
    v
}

/// Whether `game` is one of the known game ids.
pub fn is_known_game(game: &str) -> (res: bool)
    ensures
        res == known_game(game@),
{
    str_eq(game, "sudokudo") || str_eq(game, "woordle") || str_eq(game, "woordle6")
        || str_eq(game, "wordle") || str_eq(game, "wordle6")
}

/// The puzzle-table mode of a sudoku game id (`sudokudo` is the normal
/// game).
pub fn sudoku_mode(game: &str) -> (res: Option<&'static str>)
    ensures
        game@ == "sudokudo"@ ==> (res matches Some(m) && m@ == "normal"@),
        game@ == "sudokudo-expert"@ ==> (res matches Some(m) && m@ == "expert"@),
        game@ != "sudokudo"@ && game@ != "sudokudo-expert"@ ==> res is None,
{
    proof {
        reveal_strlit("sudokudo");
        reveal_strlit("sudokudo-expert");
        assert("sudokudo"@.len() != "sudokudo-expert"@.len());
    }
    if str_eq(game, "sudokudo") {
        Some("normal")
    } else if str_eq(game, "sudokudo-expert") {
        Some("expert")
    } else {
        None
    }
}

} // verus!
