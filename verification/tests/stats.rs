use jellespelletjes_api::games::woordle::Variant;
use jellespelletjes_api::stats::stats_today_at;
use jellespelletjes_api::stats::stats_today;
use jellespelletjes_api::stats::{
    baseline_from_import, game_stats, Baseline, DistributionKind, ImportedStats, ResultRow,
};

fn row(day: i64, won: bool) -> ResultRow {
    ResultRow { day, won, guess_count: 3, elapsed_ms: None }
}

fn no_import() -> ImportedStats {
    ImportedStats {
        current_streak: None,
        max_streak: None,
        games_played: None,
        games_won: None,
        guesses: [None; 7],
        buckets: Vec::new(),
    }
}

#[test]
fn streaks_break_on_gaps() {
    let rows = vec![row(10, true), row(11, true), row(13, true)];
    let s = game_stats("woordle", &rows, Some(13), None);
    assert_eq!(s.current_streak, 1);
    assert_eq!(s.max_streak, 2);
}

#[test]
fn current_streak_survives_unplayed_today() {
    let rows = vec![row(11, true), row(12, true)];
    assert_eq!(game_stats("woordle", &rows, Some(13), None).current_streak, 2);
    assert_eq!(game_stats("woordle", &rows, Some(14), None).current_streak, 0);
}

#[test]
fn loss_breaks_streak() {
    let rows = vec![row(10, true), row(11, false), row(12, true)];
    let s = game_stats("woordle", &rows, Some(12), None);
    assert_eq!(s.current_streak, 1);
    assert_eq!(s.max_streak, 1);
    assert_eq!(s.won, 2);
    assert_eq!(s.played, 3);
}

#[test]
fn baseline_chains_into_unbroken_verified_run() {
    let base = Some(Baseline { current_streak: 40, max_streak: 50, ..Default::default() });
    let rows = vec![row(11, true), row(12, true)];
    let s = game_stats("woordle", &rows, Some(12), base);
    assert_eq!(s.current_streak, 42);
    assert_eq!(s.max_streak, 50);
}

#[test]
fn baseline_stands_alone_without_verified_results() {
    let s = game_stats(
        "woordle",
        &[],
        Some(12),
        Some(Baseline { current_streak: 7, max_streak: 9, ..Default::default() }),
    );
    assert_eq!(s.current_streak, 7);
    assert_eq!(s.max_streak, 9);
}

#[test]
fn baseline_dropped_after_verified_loss_or_gap() {
    let base = Some(Baseline { current_streak: 40, max_streak: 41, ..Default::default() });
    let rows = vec![row(10, false), row(11, true), row(12, true)];
    let s = game_stats("woordle", &rows, Some(12), base);
    assert_eq!(s.current_streak, 2);
    assert_eq!(s.max_streak, 41);
    let rows = vec![row(9, true), row(11, true), row(12, true)];
    let s = game_stats("woordle", &rows, Some(12), base);
    assert_eq!(s.current_streak, 2);
    let rows = vec![row(5, true)];
    let s = game_stats("woordle", &rows, Some(12), base);
    assert_eq!(s.current_streak, 0);
}

#[test]
fn baseline_counts_and_distribution_merge() {
    let import = ImportedStats {
        current_streak: Some(2),
        max_streak: Some(5),
        games_played: Some(10),
        games_won: Some(8),
        guesses: [Some(1), Some(0), Some(4), Some(2), Some(1), Some(0), Some(2)],
        buckets: Vec::new(),
    };
    let base = baseline_from_import(&import);
    let rows = vec![row(12, true)];
    let s = game_stats("woordle", &rows, Some(12), Some(base));
    assert_eq!(s.played, 11);
    assert_eq!(s.won, 9);
    assert_eq!(s.distribution.counts, vec![1, 0, 5, 2, 1, 0, 2]);
    assert_eq!(s.current_streak, 3);
}

#[test]
fn baseline_parses_camel_case_import() {
    let mut import = no_import();
    import.current_streak = Some(3);
    import.max_streak = Some(8);
    import.games_played = Some(10);
    let b = baseline_from_import(&import);
    assert_eq!(b.current_streak, 3);
    assert_eq!(b.max_streak, 8);
    let mut import = no_import();
    import.current_streak = Some(-2);
    let b = baseline_from_import(&import);
    assert_eq!(b.current_streak, 0);
}

#[test]
fn sudoku_time_distribution() {
    let rows = vec![ResultRow { day: 1, won: false, guess_count: 0, elapsed_ms: Some(240000) }];
    let s = game_stats("sudokudo", &rows, Some(1), None);
    assert_eq!(s.distribution.counts, vec![0, 1, 0, 0, 0, 0]);
    assert!(matches!(s.distribution.kind, DistributionKind::Time));
}

#[test]
fn guess_distribution_counts_failures_and_odd_counts() {
    let rows = vec![
        ResultRow { day: 1, won: true, guess_count: 1, elapsed_ms: None },
        ResultRow { day: 2, won: false, guess_count: 6, elapsed_ms: None },
        ResultRow { day: 3, won: true, guess_count: 9, elapsed_ms: None },
    ];
    let s = game_stats("woordle", &rows, Some(3), None);
    assert!(matches!(s.distribution.kind, DistributionKind::Guesses));
    assert_eq!(s.distribution.counts, vec![1, 0, 0, 0, 0, 0, 2]);
}

#[test]
fn max_streak_never_below_current() {
    let rows = vec![row(1, true), row(2, true), row(3, true)];
    let s = game_stats("woordle", &rows, Some(3), Some(Baseline { current_streak: 5, max_streak: 1, ..Default::default() }));
    assert!(s.max_streak >= s.current_streak);
    assert_eq!(s.current_streak, 8);
    assert_eq!(s.max_streak, 8);
}

#[test]
fn default_baseline_is_zero() {
    let b = Baseline::default();
    assert_eq!(b.games_played, 0);
    assert_eq!(b.guesses, [0; 7]);
    assert_eq!(b.buckets, [0; 6]);
}

#[test]
fn today_per_game() {
    assert_eq!(stats_today("sudokudo", Some(5), Some(6), &[]), Some(5));
    assert_eq!(stats_today("sudokudo-expert", Some(5), Some(6), &[]), Some(6));
    assert_eq!(stats_today("woordle", Some(5), Some(6), &[]), None);
}

#[test]
fn rows_in_any_order() {
    let rows = vec![row(13, true), row(10, true), row(11, true)];
    let s = game_stats("woordle", &rows, Some(13), None);
    assert_eq!(s.current_streak, 1);
    assert_eq!(s.max_streak, 2);
    assert_eq!(s.played, 3);
}

#[test]
fn reordered_rows_give_the_same_stats() {
    let a = vec![row(13, true), row(10, true), row(11, false), row(12, true)];
    let b = vec![row(10, true), row(13, true), row(11, false), row(12, true)];
    let s = game_stats("woordle", &a, Some(13), None);
    let t = game_stats("woordle", &b, Some(13), None);
    assert_eq!(s.played, t.played);
    assert_eq!(s.won, t.won);
    assert_eq!(s.won, 3);
    assert_eq!(s.current_streak, t.current_streak);
    assert_eq!(s.current_streak, 2);
    assert_eq!(s.max_streak, t.max_streak);
    assert_eq!(s.distribution.counts, t.distribution.counts);
    assert_eq!(s.distribution.counts, vec![0, 0, 3, 0, 0, 0, 1]);
}

#[test]
fn today_of_a_woordle_variant() {
    let v = |game: &str, start_day: i32| Variant {
        game: game.to_string(),
        start_day,
        answers: vec!["appel".to_string()],
        allowed: Vec::new(),
        display_offset: 0,
    };
    let variants = vec![v("woordle", 738162), v("wordle", 737960)];
    assert_eq!(stats_today_at("woordle", None, None, &variants, 738200), Some(38));
    assert_eq!(stats_today_at("wordle", None, None, &variants, 738200), Some(240));
    assert_eq!(stats_today_at("wordle6", None, None, &variants, 738200), None);
    assert_eq!(stats_today_at("sudokudo", Some(4), None, &variants, 738200), Some(4));
    assert_eq!(stats_today("woordle", None, None, &variants).is_some(), true);
}
