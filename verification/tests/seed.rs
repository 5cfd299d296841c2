use jellespelletjes_api::seed::{
    check_row, seed_action, seed_line, seed_summary, SeedAction, SeedError, SeedRow, StoredPuzzle,
};

fn row() -> SeedRow {
    SeedRow {
        puzzle_number: 7,
        date: "2026-09-06".into(),
        generator_version: "v2".into(),
        difficulty: "easy".into(),
        givens: "0".repeat(81),
        solution: "1".repeat(81),
    }
}

fn stored(solution: &str) -> StoredPuzzle {
    StoredPuzzle {
        date: "2026-09-06".into(),
        generator_version: "v2".into(),
        difficulty: "easy".into(),
        givens: "0".repeat(81),
        solution: solution.into(),
    }
}

#[test]
fn new_rows_are_inserted() {
    assert_eq!(seed_action(&row(), None), Ok(SeedAction::Insert));
    assert_eq!(check_row(&row()), Ok(()));
}

#[test]
fn identical_rows_are_unchanged() {
    assert_eq!(seed_action(&row(), Some(&stored(&"1".repeat(81)))), Ok(SeedAction::Unchanged));
}

#[test]
fn different_content_is_refused() {
    assert_eq!(
        seed_action(&row(), Some(&stored(&"2".repeat(81)))),
        Err(SeedError::Conflict { puzzle_number: 7 })
    );
    assert_eq!(
        SeedError::Conflict { puzzle_number: 7 }.message(),
        "puzzle 7 already seeded with DIFFERENT content \u{2014} refusing to overwrite. If this is an intentional new generator era, wipe and reseed explicitly."
    );
}

#[test]
fn lengths_are_checked_first() {
    let mut r = row();
    r.givens = "0".repeat(80);
    assert_eq!(seed_action(&r, Some(&stored(&"1".repeat(81)))), Err(SeedError::BadGivens { puzzle_number: 7 }));
    assert_eq!(SeedError::BadGivens { puzzle_number: 7 }.message(), "puzzle 7: givens must be 81 chars");
    let mut r = row();
    r.solution = "1".repeat(82);
    assert_eq!(check_row(&r), Err(SeedError::BadSolution { puzzle_number: 7 }));
    assert_eq!(SeedError::BadSolution { puzzle_number: -3 }.message(), "puzzle -3: solution must be 81 chars");
}

#[test]
fn lines_and_summary() {
    assert_eq!(seed_line("  {\"a\":1} \n"), Some("{\"a\":1}"));
    assert_eq!(seed_line("   "), None);
    assert_eq!(seed_summary(3, 2), "seeded 3 new puzzles (2 already present, unchanged)");
}
