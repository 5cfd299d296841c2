use jellespelletjes_api::games::sudokudo::{verify, SeededPuzzle, SudokuSubmission, VerifyError};

fn seeded() -> SeededPuzzle {
    SeededPuzzle {
        generator_version: "v2".into(),
        difficulty: "easy".into(),
        solution: "1".repeat(81),
    }
}

fn submission() -> SudokuSubmission {
    SudokuSubmission {
        solution: "1".repeat(81),
        started_at_ms: 1_000_000,
        finished_at_ms: 1_300_000,
        generator_version: "v2".into(),
    }
}

#[test]
fn accepts_correct_solution() {
    let payload = verify(Some(&seeded()), 10, 10, &submission()).ok().unwrap();
    assert_eq!(payload.elapsed_ms, 300_000);
    assert_eq!(payload.suspect, false);
}

#[test]
fn rejects_wrong_solution() {
    let mut sub = submission();
    sub.solution = "2".repeat(81);
    assert!(matches!(verify(Some(&seeded()), 10, 10, &sub), Err(VerifyError::WrongSolution)));
}

#[test]
fn rejects_future_day() {
    assert!(matches!(verify(Some(&seeded()), 9, 10, &submission()), Err(VerifyError::DayInFuture)));
}

#[test]
fn flags_suspect_times() {
    let mut sub = submission();
    sub.finished_at_ms = sub.started_at_ms + 800;
    let payload = verify(Some(&seeded()), 10, 10, &sub).ok().unwrap();
    assert_eq!(payload.suspect, true);
}

#[test]
fn rejects_unseeded_other_version_and_bad_times() {
    assert!(matches!(verify(None, 10, 10, &submission()), Err(VerifyError::NotSeeded)));
    let mut sub = submission();
    sub.generator_version = "v1".into();
    assert!(matches!(verify(Some(&seeded()), 10, 10, &sub), Err(VerifyError::VersionMismatch)));
    let mut sub = submission();
    sub.finished_at_ms = sub.started_at_ms - 1;
    assert!(matches!(verify(Some(&seeded()), 10, 10, &sub), Err(VerifyError::BadTimes)));
}

#[test]
fn payload_keeps_difficulty_and_version() {
    let payload = verify(Some(&seeded()), 12, 10, &submission()).ok().unwrap();
    assert_eq!(payload.difficulty, "easy");
    assert_eq!(payload.generator_version, "v2");
}
