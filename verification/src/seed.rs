//! Seeding sudoku puzzles: existing rows are never modified, and a row whose
//! content differs from what is stored is an error, which guards against
//! silent drift of the generator.

use crate::text::{decimal_text, push_decimal, str_eq, trim, trimmed};
use vstd::prelude::*;
use vstd::string::StringExecFns;
use vstd::string::StringSliceAdditionalSpecFns;
use vstd::utf8::encode_utf8;

verus! {

/// One puzzle row to seed.
pub struct SeedRow {
    pub puzzle_number: i64,
    pub date: String,
    pub generator_version: String,
    pub difficulty: String,
    pub givens: String,
    pub solution: String,
}

/// The content already stored for a puzzle number.
pub struct StoredPuzzle {
    pub date: String,
    pub generator_version: String,
    pub difficulty: String,
    pub givens: String,
    pub solution: String,
}

/// What to do with a row.
#[derive(PartialEq, Eq, Structural, Debug, Clone, Copy)]
pub enum SeedAction {
    /// Not stored yet: insert it.
    Insert,
    /// Stored with the same content: nothing to do.
    Unchanged,
}

/// Why a row is refused.
#[derive(PartialEq, Eq, Structural, Debug, Clone, Copy)]
pub enum SeedError {
    /// The givens are not 81 bytes long.
    BadGivens { puzzle_number: i64 },
    /// The solution is not 81 bytes long.
    BadSolution { puzzle_number: i64 },
    /// The puzzle is stored with other content.
    Conflict { puzzle_number: i64 },
}

impl SeedError {
    /// The error text.
    pub fn message(&self) -> (res: String)
        ensures
            match self {
                SeedError::BadGivens { puzzle_number } => res@ == "puzzle "@ + decimal_text(
                    *puzzle_number as int,
                ) + ": givens must be 81 chars"@,
                SeedError::BadSolution { puzzle_number } => res@ == "puzzle "@ + decimal_text(
                    *puzzle_number as int,
                ) + ": solution must be 81 chars"@,
                SeedError::Conflict { puzzle_number } => res@ == "puzzle "@ + decimal_text(
                    *puzzle_number as int,
                )
                    + " already seeded with DIFFERENT content \u{2014} refusing to overwrite. If this is an intentional new generator era, wipe and reseed explicitly."@,
            },
    {
        let mut text = String::from_str("puzzle ");
        match self {
            SeedError::BadGivens { puzzle_number } => {
                push_decimal(&mut text, *puzzle_number);
                text.append(": givens must be 81 chars");
            },
            SeedError::BadSolution { puzzle_number } => {
                push_decimal(&mut text, *puzzle_number);
                text.append(": solution must be 81 chars");
            },
            SeedError::Conflict { puzzle_number } => {
                push_decimal(&mut text, *puzzle_number);
                text.append(
                    " already seeded with DIFFERENT content \u{2014} refusing to overwrite. If this is an intentional new generator era, wipe and reseed explicitly.",
                );
            },
        }
        text
    }
}

/// The row's content equals the stored one.
pub open spec fn same_content(row: SeedRow, s: StoredPuzzle) -> bool {
    &&& s.date@ == row.date@
    &&& s.generator_version@ == row.generator_version@
    &&& s.difficulty@ == row.difficulty@
    &&& s.givens@ == row.givens@
    &&& s.solution@ == row.solution@
}

/// What seeding does with a row, given what is stored for its number:
/// givens and solution must be 81 bytes, and stored content must match.
pub open spec fn seed_outcome(row: SeedRow, existing: Option<StoredPuzzle>) -> Result<
    SeedAction,
    SeedError,
> {
    if encode_utf8(row.givens@).len() != 81 {
        Err(SeedError::BadGivens { puzzle_number: row.puzzle_number })
    } else if encode_utf8(row.solution@).len() != 81 {
        Err(SeedError::BadSolution { puzzle_number: row.puzzle_number })
    } else {
        match existing {
            None => Ok(SeedAction::Insert),
            Some(s) => if same_content(row, s) {
                Ok(SeedAction::Unchanged)
            } else {
                Err(SeedError::Conflict { puzzle_number: row.puzzle_number })
            },
        }
    }
}

/// Check a row's lengths before the store is asked.
pub fn check_row(row: &SeedRow) -> (res: Result<(), SeedError>)
    ensures
        res matches Ok(_) <==> seed_outcome(*row, None) is Ok,
        res matches Err(e) ==> seed_outcome(*row, None) == Err::<SeedAction, SeedError>(e),
{
    if row.givens.as_str().as_bytes().len() != 81 {
        return Err(SeedError::BadGivens { puzzle_number: row.puzzle_number });
    }
    if row.solution.as_str().as_bytes().len() != 81 {
        return Err(SeedError::BadSolution { puzzle_number: row.puzzle_number });
    }
    Ok(())
}

/// Decide what to do with a row, given what is stored for its number.
pub fn seed_action(row: &SeedRow, existing: Option<&StoredPuzzle>) -> (res: Result<SeedAction, SeedError>)
    ensures
        res == seed_outcome(
            *row,
            match existing {
                Some(s) => Some(*s),
                None => None,
            },
        ),
{
    match check_row(row) {
        Err(e) => {
            return Err(e);
        },
        Ok(_) => {},
    }
    match existing {
        None => Ok(SeedAction::Insert),
        Some(s) => {
            if str_eq(s.date.as_str(), row.date.as_str()) && str_eq(
                s.generator_version.as_str(),
                row.generator_version.as_str(),
            ) && str_eq(s.difficulty.as_str(), row.difficulty.as_str()) && str_eq(
                s.givens.as_str(),
                row.givens.as_str(),
            ) && str_eq(s.solution.as_str(), row.solution.as_str()) {
                Ok(SeedAction::Unchanged)
            } else {
                Err(SeedError::Conflict { puzzle_number: row.puzzle_number })
            }
        },
    }
}

/// The text of an input line to parse, trimmed; `None` for a blank line,
/// which is skipped.
pub fn seed_line(line: &str) -> (res: Option<&str>)
    ensures
        match res {
            Some(t) => t@ == trimmed(line@) && t@.len() > 0,
            None => trimmed(line@).len() == 0,
        },
{
    let t = trim(line);
    if t.is_empty() {
        None
    } else {
        Some(t)
    }
}

/// The closing report of a seeding run.
pub fn seed_summary(inserted: u32, unchanged: u32) -> (res: String)
    ensures
        res@ == "seeded "@ + decimal_text(inserted as int) + " new puzzles ("@ + decimal_text(
            unchanged as int,
        ) + " already present, unchanged)"@,
{
    let mut text = String::from_str("seeded ");
    push_decimal(&mut text, inserted as i64);
    text.append(" new puzzles (");
    push_decimal(&mut text, unchanged as i64);
    text.append(" already present, unchanged)");
    text
}

/// Seeding never overwrites: a stored puzzle is either left unchanged or
/// the row is refused.
pub proof fn lemma_never_overwrites(row: SeedRow, stored: StoredPuzzle)
    ensures
        seed_outcome(row, Some(stored)) != Ok::<SeedAction, SeedError>(SeedAction::Insert),
{
}

/// Seeding the same content again changes nothing.
pub proof fn lemma_reseed_unchanged(row: SeedRow, stored: StoredPuzzle)
    requires
        same_content(row, stored),
        seed_outcome(row, None) is Ok,
    ensures
        seed_outcome(row, Some(stored)) == Ok::<SeedAction, SeedError>(SeedAction::Unchanged),
{
}

} // verus!
