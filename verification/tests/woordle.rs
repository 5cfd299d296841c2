use jellespelletjes_api::games::woordle::{variant_from, variant_specs, word_list};
use chrono::Datelike;
use jellespelletjes_api::games::woordle::{
    evaluate, solution_for_day, utc_day, verify, Mark, Variant, VerifyError, WoordleSubmission,
};

fn marks(s: &str) -> Vec<Mark> {
    s.chars()
        .map(|c| match c {
            'c' => Mark::Correct,
            'p' => Mark::Present,
            _ => Mark::Absent,
        })
        .collect()
}

fn day_number(y: i32, m: u32, d: u32) -> i32 {
    chrono::NaiveDate::from_ymd_opt(y, m, d).unwrap().num_days_from_ce()
}

/// A woordle variant with 844 distinct five-letter answers (the real list is
/// not part of this crate), all of them allowed.
fn woordle() -> Variant {
    let letters: Vec<char> = "abcdefghijklmnopqrstuvwxyz".chars().collect();
    let mut answers = Vec::new();
    'outer: for a in &letters {
        for b in &letters {
            for c in &letters {
                answers.push(format!("{a}{b}{c}aa"));
                if answers.len() == 844 {
                    break 'outer;
                }
            }
        }
    }
    Variant {
        game: "woordle".to_string(),
        start_day: day_number(2022, 1, 7),
        allowed: answers.clone(),
        answers,
        display_offset: 202,
    }
}

#[test]
fn evaluation_basic() {
    assert_eq!(evaluate("water", "water"), marks("ccccc"));
    assert_eq!(evaluate("nadir", "water"), marks(".c..c"));
    assert_eq!(evaluate("water", "kader"), marks(".c.cc"));
}

#[test]
fn evaluation_duplicates() {
    assert_eq!(evaluate("lolly", "world"), marks(".c.c."));
    assert_eq!(evaluate("geese", "elees"), marks(".pcpp"));
    assert_eq!(evaluate("sassy", "grass"), marks("pp.c."));
}

#[test]
fn wraparound_day_uses_modulo() {
    let v = woordle();
    assert_eq!(solution_for_day(&v, 0), solution_for_day(&v, 844));
}

#[test]
fn verify_rejects_wrong_day() {
    let variants = vec![woordle()];
    let v = &variants[0];
    let day = utc_day(v);
    let sub = WoordleSubmission { guesses: vec![solution_for_day(v, day - 5).clone()], won: true };
    assert!(matches!(
        verify(&variants, "woordle", day - 5, &sub),
        Err(VerifyError::DayOutOfRange { .. })
    ));
}

#[test]
fn verify_accepts_valid_win() {
    let variants = vec![woordle()];
    let v = &variants[0];
    let day = utc_day(v);
    let solution = solution_for_day(v, day).clone();
    let sub = WoordleSubmission { guesses: vec![solution.clone()], won: true };
    let payload = verify(&variants, "woordle", day, &sub).ok().unwrap();
    assert_eq!(payload.evaluations[0], vec![Mark::Correct; 5]);
    assert_eq!(
        payload.evaluations[0].iter().map(|m| m.as_str()).collect::<Vec<_>>(),
        vec!["correct", "correct", "correct", "correct", "correct"]
    );
    assert_eq!(payload.display_number, day + 202);
}

#[test]
fn verify_rejects_outcome_mismatch() {
    let variants = vec![woordle()];
    let v = &variants[0];
    let day = utc_day(v);
    let solution = solution_for_day(v, day).clone();
    let other = v.answers.iter().find(|w| **w != solution).unwrap();
    let sub = WoordleSubmission { guesses: vec![other.to_string()], won: true };
    assert!(matches!(verify(&variants, "woordle", day, &sub), Err(VerifyError::OutcomeMismatch)));
}

#[test]
fn verify_rejects_short_loss() {
    let variants = vec![woordle()];
    let v = &variants[0];
    let day = utc_day(v);
    let solution = solution_for_day(v, day).clone();
    let other = v.answers.iter().find(|w| **w != solution).unwrap();
    let sub = WoordleSubmission { guesses: vec![other.to_string()], won: false };
    assert!(matches!(verify(&variants, "woordle", day, &sub), Err(VerifyError::BadGuessCount)));
}

#[test]
fn verify_rejects_unknown_game_and_word() {
    let variants = vec![woordle()];
    let v = &variants[0];
    let day = utc_day(v);
    let sub = WoordleSubmission { guesses: vec!["zzzzz".to_string()], won: false };
    assert!(matches!(verify(&variants, "wordle9", day, &sub), Err(VerifyError::UnknownGame)));
    let sub = WoordleSubmission {
        guesses: vec!["zzzzz".to_string(); 6],
        won: false,
    };
    match verify(&variants, "woordle", day, &sub) {
        Err(VerifyError::UnknownWord(w)) => assert_eq!(w, "zzzzz"),
        _ => panic!("expected an unknown word"),
    }
}

#[test]
fn verify_lowercases_guesses_and_accepts_a_day_off() {
    let variants = vec![woordle()];
    let v = &variants[0];
    let day = utc_day(v) + 1;
    let solution = solution_for_day(v, day).clone();
    let sub = WoordleSubmission { guesses: vec![solution.to_uppercase()], won: true };
    let payload = verify(&variants, "woordle", day, &sub).ok().unwrap();
    assert_eq!(payload.guesses, vec![solution]);
    assert!(payload.won);
}

#[test]
fn solution_for_negative_day_wraps_backwards() {
    let v = woordle();
    assert_eq!(solution_for_day(&v, -1), &v.answers[843]);
    assert_eq!(solution_for_day(&v, -845), &v.answers[843]);
}

#[test]
fn mark_names() {
    assert_eq!(Mark::Correct.as_str(), "correct");
    assert_eq!(Mark::Present.as_str(), "present");
    assert_eq!(Mark::Absent.as_str(), "absent");
}

#[test]
fn error_messages() {
    assert_eq!(VerifyError::UnknownGame.message(), "unknown game");
    assert_eq!(
        VerifyError::DayOutOfRange { server_day: 1500 }.message(),
        "day out of range (server day is 1500, \u{b1}1 accepted)"
    );
    assert_eq!(
        VerifyError::BadGuessCount.message(),
        "must have 1-6 guesses; a loss requires exactly 6"
    );
    assert_eq!(
        VerifyError::UnknownWord("qqqqq".to_string()).message(),
        "guess not in the word list: qqqqq"
    );
    assert_eq!(
        VerifyError::OutcomeMismatch.message(),
        "reported outcome does not match the guesses"
    );
}

#[test]
fn variant_table_and_word_lists() {
    let specs = variant_specs();
    let games: Vec<&str> = specs.iter().map(|s| s.game).collect();
    assert_eq!(games, vec!["woordle", "woordle6", "wordle", "wordle6"]);
    assert_eq!(specs[0].display_offset, 202);
    assert_eq!(specs[2].start_date, (2021, 6, 19));
    assert_eq!(word_list("appel\nbanaan\n"), vec!["appel".to_string(), "banaan".to_string()]);
    let v = variant_from(&specs[0], vec!["appel".to_string()], Vec::new()).unwrap();
    assert_eq!(v.game, "woordle");
    assert_eq!(v.start_day, 738162);
    assert_eq!(v.display_offset, 202);
}
