//! Verification for sudokudo results against the pre-seeded puzzles table.
//! The server never generates sudokus; the seeded rows are the single source
//! of truth.

use crate::text::StringExecFns;
use vstd::prelude::*;

verus! {

/// A submitted sudokudo game.
pub struct SudokuSubmission {
    /// 81 digit characters, the player's completed grid.
    pub solution: String,
    pub started_at_ms: i64,
    pub finished_at_ms: i64,
    pub generator_version: String,
}

/// The seeded puzzle for a day.
pub struct SeededPuzzle {
    pub generator_version: String,
    pub difficulty: String,
    pub solution: String,
}

/// What is stored for a verified game.
pub struct SudokuPayload {
    pub elapsed_ms: i64,
    pub difficulty: String,
    pub generator_version: String,
    /// Implausibly fast solves are stored but flagged.
    pub suspect: bool,
}

pub enum VerifyError {
    NotSeeded,
    DayInFuture,
    VersionMismatch,
    WrongSolution,
    BadTimes,
}

impl VerifyError {
    /// The message shown to the player.
    pub fn message(&self) -> (res: String)
        ensures
            res@ == error_text(self),
    {
        match self {
            VerifyError::NotSeeded => String::from_str("puzzle not seeded on the server yet"),
            VerifyError::DayInFuture => String::from_str("puzzle day is in the future"),
            VerifyError::VersionMismatch => String::from_str("generator version mismatch"),
            VerifyError::WrongSolution => String::from_str(
                "solution does not match the daily puzzle",
            ),
            VerifyError::BadTimes => String::from_str("invalid start/finish timestamps"),
        }
    }
}

/// The text of each error.
pub open spec fn error_text(e: &VerifyError) -> Seq<char> {
    match e {
        VerifyError::NotSeeded => "puzzle not seeded on the server yet"@,
        VerifyError::DayInFuture => "puzzle day is in the future"@,
        VerifyError::VersionMismatch => "generator version mismatch"@,
        VerifyError::WrongSolution => "solution does not match the daily puzzle"@,
        VerifyError::BadTimes => "invalid start/finish timestamps"@,
    }
}

/// Solves faster than this many milliseconds are flagged as suspect.
pub const SUSPECT_BELOW_MS: i64 = 5000;

/// The checks before the solve time is computed all pass.
pub open spec fn reaches_timing(
    seeded: Option<&SeededPuzzle>,
    today_puzzle_number: i64,
    day: i64,
    submission: &SudokuSubmission,
) -> bool {
    &&& seeded is Some
    &&& day <= today_puzzle_number
    &&& submission.generator_version@ == seeded->0.generator_version@
    &&& submission.solution@ == seeded->0.solution@
}

/// Verify a submission against the seeded puzzle: seeded, not in the
/// future, same generator version, same grid, sane timestamps, in that
/// order; on success the normalized payload.
pub fn verify(
    seeded: Option<&SeededPuzzle>,
    today_puzzle_number: i64,
    day: i64,
    submission: &SudokuSubmission,
) -> (res: Result<SudokuPayload, VerifyError>)
    requires
        reaches_timing(seeded, today_puzzle_number, day, submission) ==> i64::MIN
            <= submission.finished_at_ms - submission.started_at_ms <= i64::MAX,
    ensures
        ({
            let elapsed = submission.finished_at_ms - submission.started_at_ms;
            if seeded is None {
                res matches Err(VerifyError::NotSeeded)
            } else if day > today_puzzle_number {
                res matches Err(VerifyError::DayInFuture)
            } else if submission.generator_version@ != seeded->0.generator_version@ {
                res matches Err(VerifyError::VersionMismatch)
            } else if submission.solution@ != seeded->0.solution@ {
                res matches Err(VerifyError::WrongSolution)
            } else if elapsed <= 0 || submission.started_at_ms <= 0 {
                res matches Err(VerifyError::BadTimes)
            } else {
                res matches Ok(p) && p.elapsed_ms == elapsed && p.difficulty@
                    == seeded->0.difficulty@ && p.generator_version@
                    == seeded->0.generator_version@ && p.suspect == (elapsed < SUSPECT_BELOW_MS)
            }
        }),
{
    let seeded = match seeded {
        Some(s) => s,
        None => return Err(VerifyError::NotSeeded),
    };
    if day > today_puzzle_number {
        return Err(VerifyError::DayInFuture);
    }
    if submission.generator_version != seeded.generator_version {
        return Err(VerifyError::VersionMismatch);
    }
    if submission.solution != seeded.solution {
        return Err(VerifyError::WrongSolution);
    }
    let elapsed_ms = submission.finished_at_ms - submission.started_at_ms;
    if elapsed_ms <= 0 || submission.started_at_ms <= 0 {
        return Err(VerifyError::BadTimes);
    }
    let suspect = elapsed_ms < SUSPECT_BELOW_MS;
    Ok(
        SudokuPayload {
            elapsed_ms,
            difficulty: seeded.difficulty.clone(),
            generator_version: seeded.generator_version.clone(),
            suspect,
        },
    )
}

} // verus!
