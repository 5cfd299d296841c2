//! Canonical per-game statistics computed from verified results.
//! Streaks are based on consecutive `day` values: a skipped day breaks the
//! streak.

use crate::text::str_eq;
use vstd::prelude::*;
use vstd::relations::{sorted_by, total_ordering};

verus! {

/// One stored result, as far as the statistics read it.
pub struct ResultRow {
    pub day: i64,
    /// The payload's `won` flag (false when absent).
    pub won: bool,
    /// How many guesses the payload lists (0 when absent).
    pub guess_count: usize,
    /// The payload's solve time in milliseconds, when present.
    pub elapsed_ms: Option<i64>,
}

/// Pre-account local stats carried over from the one-time import.
#[derive(Clone, Copy)]
pub struct Baseline {
    pub current_streak: i64,
    pub max_streak: i64,
    pub games_played: i64,
    pub games_won: i64,
    /// Woordle guess distribution: 1..6 guesses + fail.
    pub guesses: [i64; 7],
    /// Sudokudo solve-time distribution buckets.
    pub buckets: [i64; 6],
}

/// Every count of the baseline is zero.
pub open spec fn is_zero(b: Baseline) -> bool {
    &&& b.current_streak == 0
    &&& b.max_streak == 0
    &&& b.games_played == 0
    &&& b.games_won == 0
    &&& forall|k: int| 0 <= k < 7 ==> b.guesses@[k] == 0
    &&& forall|k: int| 0 <= k < 6 ==> b.buckets@[k] == 0
}

/// The optional baseline's fields, zero when there is none.
pub open spec fn base_current(b: Option<Baseline>) -> int {
    match b {
        Some(b) => b.current_streak as int,
        None => 0,
    }
}

pub open spec fn base_max(b: Option<Baseline>) -> int {
    match b {
        Some(b) => b.max_streak as int,
        None => 0,
    }
}

pub open spec fn base_played(b: Option<Baseline>) -> int {
    match b {
        Some(b) => b.games_played as int,
        None => 0,
    }
}

pub open spec fn base_won(b: Option<Baseline>) -> int {
    match b {
        Some(b) => b.games_won as int,
        None => 0,
    }
}

pub open spec fn base_guesses(b: Option<Baseline>, k: int) -> int {
    match b {
        Some(b) => b.guesses@[k] as int,
        None => 0,
    }
}

pub open spec fn base_buckets(b: Option<Baseline>, k: int) -> int {
    match b {
        Some(b) => b.buckets@[k] as int,
        None => 0,
    }
}

impl Default for Baseline {
    fn default() -> (res: Self)
        ensures
            is_zero(res),
    {
        Baseline {
            current_streak: 0,
            max_streak: 0,
            games_played: 0,
            games_won: 0,
            guesses: [0i64; 7],
            buckets: [0i64; 6],
        }
    }
}

/// Whether `game` is a sudokudo game (its id starts with `sudokudo`).
pub open spec fn is_sudoku_game(game: Seq<char>) -> bool {
    game.len() >= 8 && game.subrange(0, 8) == "sudokudo"@
}

fn is_sudoku(game: &str) -> (res: bool)
    ensures
        res == is_sudoku_game(game@),
{
    if game.unicode_len() < 8 {
        return false;
    }
    let prefix = game.substring_char(0, 8);
    str_eq(prefix, "sudokudo")
}

/// The order `sort_unstable` puts `(day, won)` pairs in: by day, a loss
/// before a win on the same day.
pub open spec fn pair_le(a: (i64, bool), b: (i64, bool)) -> bool {
    a.0 < b.0 || (a.0 == b.0 && (!a.1 || b.1))
}

pub open spec fn pair_leq() -> spec_fn((i64, bool), (i64, bool)) -> bool {
    |a: (i64, bool), b: (i64, bool)| pair_le(a, b)
}

proof fn lemma_pair_leq_total()
    ensures
        total_ordering(pair_leq()),
{
}

/// `slice::sort_unstable` on `(i64, bool)` pairs. Trusted: the result is a
/// permutation of the input in ascending order of the tuple order, which
/// compares the day first and then the flag (`false` before `true`).
#[verifier::external_body]
fn sort_pairs(v: &mut Vec<(i64, bool)>)
    ensures
        sorted_by(final(v)@, pair_leq()),
        final(v)@.to_multiset() == old(v)@.to_multiset(),
{
    v.sort_unstable();
}

/// The `(day, won)` pair of a row; sudokudo stores only wins.
pub open spec fn row_pair(r: ResultRow, sudoku: bool) -> (i64, bool) {
    (r.day, sudoku || r.won)
}

/// The rows' `(day, won)` pairs in ascending order.
pub open spec fn sorted_days(rows: Seq<ResultRow>, sudoku: bool) -> Seq<(i64, bool)> {
    rows.map_values(|r: ResultRow| row_pair(r, sudoku)).sort_by(pair_leq())
}

/// How many of the first `n` pairs are wins.
pub open spec fn wins(d: Seq<(i64, bool)>, n: int) -> int
    decreases n,
{
    if n <= 0 {
        0
    } else {
        wins(d, n - 1) + if d[n - 1].1 {
            1int
        } else {
            0int
        }
    }
}

/// The run of won, consecutive days ending at position `n - 1` and at day
/// `expected`, walking backwards.
pub open spec fn suffix_run(d: Seq<(i64, bool)>, n: int, expected: int) -> int
    decreases n,
{
    if n <= 0 {
        0
    } else if d[n - 1].0 == expected && d[n - 1].1 {
        1 + suffix_run(d, n - 1, expected - 1)
    } else {
        0
    }
}

/// The verified current streak: the run of consecutive won days ending at
/// the latest result, which must reach today or yesterday.
pub open spec fn verified_current(d: Seq<(i64, bool)>, today: Option<i64>) -> int {
    if d.len() == 0 {
        0
    } else {
        let last = d[d.len() - 1].0;
        match today {
            Some(t) if last < t - 1 => 0,
            _ => suffix_run(d, d.len() as int, last as int),
        }
    }
}

/// The streak including the imported one, which chains on only while the
/// verified history is one unbroken winning run (or empty).
pub open spec fn current_streak(d: Seq<(i64, bool)>, today: Option<i64>, base: Option<Baseline>) -> int {
    let v = verified_current(d, today);
    if d.len() == 0 || v == d.len() {
        v + base_current(base)
    } else {
        v
    }
}

/// Scanning the first `n` pairs: the longest run so far, the current run,
/// and the day of the last win of the current run.
pub open spec fn run_state(d: Seq<(i64, bool)>, n: int) -> (int, int, Option<int>)
    decreases n,
{
    if n <= 0 {
        (0, 0, None)
    } else {
        let (best, run, prev) = run_state(d, n - 1);
        let (day, won) = d[n - 1];
        if won {
            let r = match prev {
                Some(p) if day == p + 1 => run + 1,
                _ => 1,
            };
            (if best < r {
                r
            } else {
                best
            }, r, Some(day as int))
        } else {
            (best, 0, None)
        }
    }
}

pub open spec fn max3(a: int, b: int, c: int) -> int {
    let m = if a < b {
        b
    } else {
        a
    };
    if m < c {
        c
    } else {
        m
    }
}

/// The solve-time bucket of a sudokudo result: under 3, 5, 10, 15, 30
/// minutes, or longer.
pub open spec fn time_bucket(ms: i64) -> int {
    if ms < 180000 {
        0
    } else if ms < 300000 {
        1
    } else if ms < 600000 {
        2
    } else if ms < 900000 {
        3
    } else if ms < 1800000 {
        4
    } else {
        5
    }
}

/// The guess-count bucket of a woordle result: 1..6 guesses for a win,
/// otherwise the fail bucket.
pub open spec fn guess_bucket(r: ResultRow) -> int {
    if r.won && 1 <= r.guess_count <= 6 {
        r.guess_count - 1
    } else {
        6
    }
}

/// The distribution bucket a row counts in, if any.
pub open spec fn row_bucket(r: ResultRow, sudoku: bool) -> Option<int> {
    if sudoku {
        match r.elapsed_ms {
            Some(ms) => Some(time_bucket(ms)),
            None => None,
        }
    } else {
        Some(guess_bucket(r))
    }
}

/// How many of the first `n` rows count in bucket `k`.
pub open spec fn bucket_count(rows: Seq<ResultRow>, sudoku: bool, k: int, n: int) -> int
    decreases n,
{
    if n <= 0 {
        0
    } else {
        bucket_count(rows, sudoku, k, n - 1) + if row_bucket(rows[n - 1], sudoku) == Some(k) {
            1int
        } else {
            0int
        }
    }
}

#[derive(Clone, Copy, PartialEq, Eq, Structural, Debug)]
pub enum DistributionKind {
    /// Sudokudo solve times, labelled `<3`, `3-5`, `5-10`, `10-15`, `15-30`, `>30`.
    Time,
    /// Woordle guess counts, labelled `1` to `6` and `X`.
    Guesses,
}

pub struct Distribution {
    pub kind: DistributionKind,
    pub counts: Vec<i128>,
}

/// Statistics of one game.
pub struct GameStats {
    pub played: i128,
    pub won: i128,
    pub current_streak: i128,
    pub max_streak: i128,
    pub distribution: Distribution,
}

/// The statistics of one game, as a function of its rows.
pub open spec fn stats_spec(
    game: Seq<char>,
    rows: Seq<ResultRow>,
    today: Option<i64>,
    baseline: Option<Baseline>,
    s: GameStats,
) -> bool {
    let sudoku = is_sudoku_game(game);
    let d = sorted_days(rows, sudoku);
    let cur = current_streak(d, today, baseline);
    &&& s.played == rows.len() + base_played(baseline)
    &&& s.won == wins(d, d.len() as int) + base_won(baseline)
    &&& s.current_streak == cur
    &&& s.max_streak == max3(run_state(d, d.len() as int).0, cur, base_max(baseline))
    &&& if sudoku {
        &&& s.distribution.kind == DistributionKind::Time
        &&& s.distribution.counts@.len() == 6
        &&& forall|k: int|
            0 <= k < 6 ==> #[trigger] s.distribution.counts@[k] == base_buckets(baseline, k) + bucket_count(
                rows,
                true,
                k,
                rows.len() as int,
            )
    } else {
        &&& s.distribution.kind == DistributionKind::Guesses
        &&& s.distribution.counts@.len() == 7
        &&& forall|k: int|
            0 <= k < 7 ==> #[trigger] s.distribution.counts@[k] == base_guesses(baseline, k) + bucket_count(
                rows,
                false,
                k,
                rows.len() as int,
            )
    }
}


fn row_pairs(rows: &[ResultRow], sudoku: bool) -> (res: Vec<(i64, bool)>)
    ensures
        res@ == rows@.map_values(|r: ResultRow| row_pair(r, sudoku)),
{
    let mut out: Vec<(i64, bool)> = Vec::new();
    let mut i: usize = 0;
    while i < rows.len()
        invariant
            i <= rows@.len(),
            out@ == rows@.take(i as int).map_values(|r: ResultRow| row_pair(r, sudoku)),
        decreases rows@.len() - i,
    {
        out.push((rows[i].day, sudoku || rows[i].won));
        assert(rows@.take(i + 1).drop_last() == rows@.take(i as int));
        i = i + 1;
    }
    assert(rows@.take(rows@.len() as int) == rows@);
    out
}

fn time_bucket_of(ms: i64) -> (k: usize)
    ensures
        k == time_bucket(ms),
{
    if ms < 180000 {
        0
    } else if ms < 300000 {
        1
    } else if ms < 600000 {
        2
    } else if ms < 900000 {
        3
    } else if ms < 1800000 {
        4
    } else {
        5
    }
}

fn max_i128(a: i128, b: i128) -> (m: i128)
    ensures
        m == if a < b {
            b
        } else {
            a
        },
{
    if a < b {
        b
    } else {
        a
    }
}

/// Compute stats for one game from its result rows (any order).
pub fn game_stats(
    game: &str,
    rows: &[ResultRow],
    today_day: Option<i64>,
    baseline: Option<Baseline>,
) -> (res: GameStats)
    ensures
        stats_spec(game@, rows@, today_day, baseline, res),
{
    let sudoku = is_sudoku(game);
    let mut days = row_pairs(rows, sudoku);
    let ghost unsorted = days@;
    sort_pairs(&mut days);
    proof {
        lemma_pair_leq_total();
        unsorted.lemma_sort_by_ensures(pair_leq());
        vstd::seq_lib::lemma_sorted_unique(days@, unsorted.sort_by(pair_leq()), pair_leq());
    }
    let ghost d = days@;
    assert(d == sorted_days(rows@, sudoku));
    proof {
        d.to_multiset_ensures();
        unsorted.to_multiset_ensures();
    }
    assert(d.len() == rows@.len());
    let n = days.len();

    let mut won: i128 = 0;
    let mut i: usize = 0;
    while i < n
        invariant
            n == d.len(),
            days@ == d,
            i <= n,
            won == wins(d, i as int),
            0 <= won <= i,
        decreases n - i,
    {
        if days[i].1 {
            won = won + 1;
        }
        i = i + 1;
    }

    let mut current: i128 = 0;
    if n > 0 {
        let last = days[n - 1].0;
        let reaches = match today_day {
            None => true,
            Some(t) => (last as i128) >= (t as i128) - 1,
        };
        if reaches {
            let mut expected: i128 = last as i128;
            let mut m: usize = n;
            while m > 0
                invariant
                    n == d.len(),
                    days@ == d,
                    m <= n,
                    current + suffix_run(d, m as int, expected as int) == suffix_run(
                        d,
                        n as int,
                        last as int,
                    ),
                    current == n - m,
                    expected == last - current,
                ensures
                    current == suffix_run(d, n as int, last as int),
                decreases m,
            {
                if (days[m - 1].0 as i128) == expected && days[m - 1].1 {
                    current = current + 1;
                    expected = expected - 1;
                    m = m - 1;
                } else {
                    assert(suffix_run(d, m as int, expected as int) == 0);
                    break;
                }
            }
        }
    }
    assert(current == verified_current(d, today_day));
    let (base_cur, base_max_v, base_pl, base_wn) = match baseline {
        Some(b) => (b.current_streak, b.max_streak, b.games_played, b.games_won),
        None => (0i64, 0i64, 0i64, 0i64),
    };
    if n == 0 || current == n as i128 {
        current = current + base_cur as i128;
    }

    let mut best: i128 = 0;
    let mut run: i128 = 0;
    let mut prev: Option<i64> = None;
    let mut i: usize = 0;
    while i < n
        invariant
            n == d.len(),
            days@ == d,
            i <= n,
            run_state(d, i as int) == (best as int, run as int, match prev {
                Some(p) => Some(p as int),
                None => None,
            }),
            0 <= run <= best <= i,
        decreases n - i,
    {
        let (day, day_won) = days[i];
        if day_won {
            run = match prev {
                Some(p) if (day as i128) == (p as i128) + 1 => run + 1,
                _ => 1,
            };
            best = max_i128(best, run);
            prev = Some(day);
        } else {
            run = 0;
            prev = None;
        }
        i = i + 1;
    }
    let max_streak = max_i128(max_i128(best, current), base_max_v as i128);

    let distribution = if sudoku {
        let mut counts: Vec<i128> = Vec::new();
        let mut k: usize = 0;
        while k < 6
            invariant
                k <= 6,
                counts@.len() == k,
                forall|j: int| 0 <= j < k ==> #[trigger] counts@[j] == base_buckets(baseline, j),
            decreases 6 - k,
        {
            let v: i64 = match baseline {
                Some(b) => b.buckets[k],
                None => 0,
            };
            counts.push(v as i128);
            k = k + 1;
        }
        let mut i: usize = 0;
        while i < rows.len()
            invariant
                i <= rows@.len(),
                counts@.len() == 6,
                forall|j: int|
                    0 <= j < 6 ==> #[trigger] counts@[j] == base_buckets(baseline, j) + bucket_count(
                        rows@,
                        true,
                        j,
                        i as int,
                    ),
                forall|j: int| 0 <= j < 6 ==> 0 <= #[trigger] bucket_count(rows@, true, j, i as int) <= i,
                forall|j: int| 0 <= j < 6 ==> i64::MIN <= #[trigger] base_buckets(baseline, j) <= i64::MAX,
            decreases rows@.len() - i,
        {
            proof {
                assert forall|j: int| 0 <= j < 6 implies #[trigger] bucket_count(rows@, true, j, i + 1)
                    == bucket_count(rows@, true, j, i as int) + if row_bucket(rows@[i as int], true)
                    == Some(j) {
                    1int
                } else {
                    0int
                } by {}
            }
            match rows[i].elapsed_ms {
                Some(ms) => {
                    let k = time_bucket_of(ms);
                    let c = counts[k];
                    counts.set(k, c + 1);
                },
                None => {},
            }
            i = i + 1;
        }
        Distribution { kind: DistributionKind::Time, counts }
    } else {
        let mut counts: Vec<i128> = Vec::new();
        let mut k: usize = 0;
        while k < 7
            invariant
                k <= 7,
                counts@.len() == k,
                forall|j: int| 0 <= j < k ==> #[trigger] counts@[j] == base_guesses(baseline, j),
            decreases 7 - k,
        {
            let v: i64 = match baseline {
                Some(b) => b.guesses[k],
                None => 0,
            };
            counts.push(v as i128);
            k = k + 1;
        }
        let mut i: usize = 0;
        while i < rows.len()
            invariant
                i <= rows@.len(),
                counts@.len() == 7,
                forall|j: int|
                    0 <= j < 7 ==> #[trigger] counts@[j] == base_guesses(baseline, j) + bucket_count(
                        rows@,
                        false,
                        j,
                        i as int,
                    ),
                forall|j: int| 0 <= j < 7 ==> 0 <= #[trigger] bucket_count(rows@, false, j, i as int) <= i,
                forall|j: int| 0 <= j < 7 ==> i64::MIN <= #[trigger] base_guesses(baseline, j) <= i64::MAX,
            decreases rows@.len() - i,
        {
            proof {
                assert forall|j: int| 0 <= j < 7 implies #[trigger] bucket_count(rows@, false, j, i + 1)
                    == bucket_count(rows@, false, j, i as int) + if row_bucket(rows@[i as int], false)
                    == Some(j) {
                    1int
                } else {
                    0int
                } by {}
            }
            let g = rows[i].guess_count;
            let k: usize = if rows[i].won && 1 <= g && g <= 6 {
                g - 1
            } else {
                6
            };
            let c = counts[k];
            counts.set(k, c + 1);
            i = i + 1;
        }
        Distribution { kind: DistributionKind::Guesses, counts }
    };

    GameStats {
        played: n as i128 + base_pl as i128,
        won: won + base_wn as i128,
        current_streak: current,
        max_streak,
        distribution,
    }
}


/// The imported local statistics, as far as the baseline reads them: each
/// field is the integer stored under its camelCase key, `None` when the key
/// is absent or holds no integer.
pub struct ImportedStats {
    pub current_streak: Option<i64>,
    pub max_streak: Option<i64>,
    pub games_played: Option<i64>,
    pub games_won: Option<i64>,
    /// The `guesses` object's entries `1` to `6` and `fail`.
    pub guesses: [Option<i64>; 7],
    /// The `buckets` array's entries (empty when there is no array).
    pub buckets: Vec<Option<i64>>,
}

/// An imported count: the integer when positive, otherwise zero.
pub open spec fn clamped(v: Option<i64>) -> i64 {
    match v {
        Some(x) => if x > 0 {
            x
        } else {
            0
        },
        None => 0,
    }
}

fn clamp(v: Option<i64>) -> (res: i64)
    ensures
        res == clamped(v),
{
    match v {
        Some(x) => if x > 0 {
            x
        } else {
            0
        },
        None => 0,
    }
}

fn bucket_entry(buckets: &Vec<Option<i64>>, k: usize) -> (res: i64)
    ensures
        res == if k < buckets@.len() {
            clamped(buckets@[k as int])
        } else {
            0
        },
{
    if k < buckets.len() {
        clamp(buckets[k])
    } else {
        0
    }
}

/// The baseline of an import: every count clamped at zero, the first six
/// solve-time buckets, missing entries zero.
pub fn baseline_from_import(payload: &ImportedStats) -> (res: Baseline)
    ensures
        res.current_streak == clamped(payload.current_streak),
        res.max_streak == clamped(payload.max_streak),
        res.games_played == clamped(payload.games_played),
        res.games_won == clamped(payload.games_won),
        forall|k: int| 0 <= k < 7 ==> #[trigger] res.guesses@[k] == clamped(payload.guesses@[k]),
        forall|k: int|
            0 <= k < 6 ==> #[trigger] res.buckets@[k] == if k < payload.buckets@.len() {
                clamped(payload.buckets@[k])
            } else {
                0
            },
{
    let g = &payload.guesses;
    let guesses = [
        clamp(g[0]),
        clamp(g[1]),
        clamp(g[2]),
        clamp(g[3]),
        clamp(g[4]),
        clamp(g[5]),
        clamp(g[6]),
    ];
    let b = &payload.buckets;
    let buckets = [
        bucket_entry(b, 0),
        bucket_entry(b, 1),
        bucket_entry(b, 2),
        bucket_entry(b, 3),
        bucket_entry(b, 4),
        bucket_entry(b, 5),
    ];
    let res = Baseline {
        current_streak: clamp(payload.current_streak),
        max_streak: clamp(payload.max_streak),
        games_played: clamp(payload.games_played),
        games_won: clamp(payload.games_won),
        guesses,
        buckets,
    };
    assert(res.guesses@ =~= seq![
        clamped(g@[0]),
        clamped(g@[1]),
        clamped(g@[2]),
        clamped(g@[3]),
        clamped(g@[4]),
        clamped(g@[5]),
        clamped(g@[6]),
    ]);
    res
}

/// The longest streak is never shorter than the current one.
pub proof fn lemma_max_streak_covers_current(
    game: Seq<char>,
    rows: Seq<ResultRow>,
    today: Option<i64>,
    baseline: Option<Baseline>,
    s: GameStats,
)
    requires
        stats_spec(game, rows, today, baseline, s),
    ensures
        s.max_streak >= s.current_streak,
{
}

/// The day the statistics of `game` count as today, when today's day
/// number is `today`: the latest seeded normal or expert sudoku number for
/// the sudoku games, otherwise the day index of the woordle variant (none
/// for an unknown game).
pub open spec fn today_of(
    game: Seq<char>,
    normal: Option<i64>,
    expert: Option<i64>,
    variants: Seq<crate::games::woordle::Variant>,
    today: int,
) -> Option<i64> {
    if game == "sudokudo"@ {
        normal
    } else if game == "sudokudo-expert"@ {
        expert
    } else {
        match crate::games::woordle::first_variant(variants, game) {
            Some(i) => Some(crate::games::woordle::day_index_of(&variants[i], today) as i64),
            None => None,
        }
    }
}

/// The day the statistics of `game` count as today, for the day numbered
/// `today`.
pub fn stats_today_at(
    game: &str,
    normal: Option<i64>,
    expert: Option<i64>,
    variants: &[crate::games::woordle::Variant],
    today: i32,
) -> (res: Option<i64>)
    ensures
        res == today_of(game@, normal, expert, variants@, today as int),
{
    proof {
        reveal_strlit("sudokudo");
        reveal_strlit("sudokudo-expert");
        assert("sudokudo"@.len() != "sudokudo-expert"@.len());
    }
    if crate::text::str_eq(game, "sudokudo") {
        normal
    } else if crate::text::str_eq(game, "sudokudo-expert") {
        expert
    } else {
        match crate::games::woordle::variant(variants, game) {
            Some(v) => Some(crate::games::woordle::day_index(v, today)),
            None => None,
        }
    }
}

/// The day the statistics of `game` count as today, by the clock: the
/// statistics of today's UTC date, whatever date the clock gives.
pub fn stats_today(
    game: &str,
    normal: Option<i64>,
    expert: Option<i64>,
    variants: &[crate::games::woordle::Variant],
) -> (res: Option<i64>)
    ensures
        exists|today: i32| res == #[trigger] today_of(game@, normal, expert, variants@, today as int),
{
    let today = crate::clock::today_day_number();
    stats_today_at(game, normal, expert, variants, today)
}

/// How many of the rows count as won: every sudokudo row, and the woordle
/// rows marked won.
pub open spec fn won_rows(rows: Seq<ResultRow>, sudoku: bool) -> nat {
    rows.filter(|r: ResultRow| sudoku || r.won).len()
}

spec fn bucket_step(sudoku: bool, k: int) -> spec_fn(int, ResultRow) -> int {
    |acc: int, r: ResultRow|
        acc + if row_bucket(r, sudoku) == Some(k) {
            1int
        } else {
            0int
        }
}

spec fn pair_step(sudoku: bool) -> spec_fn(vstd::multiset::Multiset<(i64, bool)>, ResultRow) -> vstd::multiset::Multiset<(i64, bool)> {
    |acc: vstd::multiset::Multiset<(i64, bool)>, r: ResultRow| acc.insert(row_pair(r, sudoku))
}

spec fn win_step() -> spec_fn(int, (i64, bool)) -> int {
    |acc: int, p: (i64, bool)|
        acc + if p.1 {
            1int
        } else {
            0int
        }
}

proof fn lemma_bucket_fold(rows: Seq<ResultRow>, sudoku: bool, k: int, n: int)
    requires
        0 <= n <= rows.len(),
    ensures
        bucket_count(rows, sudoku, k, n) == rows.take(n).fold_left(0int, bucket_step(sudoku, k)),
    decreases n,
{
    if n > 0 {
        lemma_bucket_fold(rows, sudoku, k, n - 1);
        assert(rows.take(n).drop_last() == rows.take(n - 1));
    }
}

proof fn lemma_wins_fold(d: Seq<(i64, bool)>, n: int)
    requires
        0 <= n <= d.len(),
    ensures
        wins(d, n) == d.take(n).fold_left(0int, win_step()),
    decreases n,
{
    if n > 0 {
        lemma_wins_fold(d, n - 1);
        assert(d.take(n).drop_last() == d.take(n - 1));
    }
}

proof fn lemma_pairs_fold(rows: Seq<ResultRow>, sudoku: bool)
    ensures
        rows.map_values(|r: ResultRow| row_pair(r, sudoku)).to_multiset() == rows.fold_left(
            vstd::multiset::Multiset::empty(),
            pair_step(sudoku),
        ),
    decreases rows.len(),
{
    let m = rows.map_values(|r: ResultRow| row_pair(r, sudoku));
    if rows.len() == 0 {
        m.to_multiset_ensures();
        assert(m.to_multiset() =~= vstd::multiset::Multiset::empty());
    } else {
        let rest = rows.drop_last();
        lemma_pairs_fold(rest, sudoku);
        let mr = rest.map_values(|r: ResultRow| row_pair(r, sudoku));
        assert(m == mr.push(row_pair(rows.last(), sudoku)));
        mr.to_multiset_ensures();
    }
}

proof fn lemma_wins_filter(rows: Seq<ResultRow>, sudoku: bool)
    ensures
        rows.map_values(|r: ResultRow| row_pair(r, sudoku)).fold_left(0int, win_step()) == won_rows(
            rows,
            sudoku,
        ),
    decreases rows.len(),
{
    if rows.len() > 0 {
        let rest = rows.drop_last();
        lemma_wins_filter(rest, sudoku);
        let m = rows.map_values(|r: ResultRow| row_pair(r, sudoku));
        assert(m.drop_last() == rest.map_values(|r: ResultRow| row_pair(r, sudoku)));
        assert(rest.push(rows.last()) == rows);
        rest.lemma_filter_len_push(|r: ResultRow| sudoku || r.won, rows.last());
    }
}

proof fn lemma_sorted_days_facts(rows: Seq<ResultRow>, sudoku: bool)
    ensures
        sorted_days(rows, sudoku).to_multiset() == rows.map_values(|r: ResultRow| row_pair(r, sudoku)).to_multiset(),
        sorted_days(rows, sudoku).len() == rows.len(),
{
    let m = rows.map_values(|r: ResultRow| row_pair(r, sudoku));
    lemma_pair_leq_total();
    m.lemma_sort_by_ensures(pair_leq());
    m.to_multiset_ensures();
    sorted_days(rows, sudoku).to_multiset_ensures();
}

/// The counts of the statistics: every row is played and every winning
/// row (each sudokudo row) is won, on top of the imported baseline.
pub proof fn lemma_stats_counts(
    game: Seq<char>,
    rows: Seq<ResultRow>,
    today: Option<i64>,
    baseline: Option<Baseline>,
    s: GameStats,
)
    requires
        stats_spec(game, rows, today, baseline, s),
    ensures
        s.played == rows.len() + base_played(baseline),
        s.won == won_rows(rows, is_sudoku_game(game)) + base_won(baseline),
{
    let sudoku = is_sudoku_game(game);
    let d = sorted_days(rows, sudoku);
    let m = rows.map_values(|r: ResultRow| row_pair(r, sudoku));
    lemma_sorted_days_facts(rows, sudoku);
    lemma_wins_fold(d, d.len() as int);
    assert(d.take(d.len() as int) == d);
    assert(vstd::seq_lib::commutative_foldl(win_step()));
    vstd::seq_lib::lemma_fold_left_permutation(d, m, win_step(), 0int);
    lemma_wins_filter(rows, sudoku);
}

/// The statistics do not depend on the order of the rows: statistics of
/// some rows are the statistics of any reordering of them.
pub proof fn lemma_stats_order_free(
    game: Seq<char>,
    rows: Seq<ResultRow>,
    rows2: Seq<ResultRow>,
    today: Option<i64>,
    baseline: Option<Baseline>,
    s: GameStats,
)
    requires
        rows2.to_multiset() == rows.to_multiset(),
        stats_spec(game, rows, today, baseline, s),
    ensures
        stats_spec(game, rows2, today, baseline, s),
{
    let sudoku = is_sudoku_game(game);
    rows.to_multiset_ensures();
    rows2.to_multiset_ensures();
    assert(rows2.len() == rows.len());
    assert(sorted_days(rows2, sudoku) == sorted_days(rows, sudoku)) by {
        let f = pair_step(sudoku);
        assert forall|v: vstd::multiset::Multiset<(i64, bool)>, x: ResultRow, y: ResultRow|
            #[trigger] f(f(v, x), y) == f(f(v, y), x) by {
            assert(v.insert(row_pair(x, sudoku)).insert(row_pair(y, sudoku)) =~= v.insert(
                row_pair(y, sudoku),
            ).insert(row_pair(x, sudoku)));
        }
        vstd::seq_lib::lemma_fold_left_permutation(rows, rows2, f, vstd::multiset::Multiset::empty());
        lemma_pairs_fold(rows, sudoku);
        lemma_pairs_fold(rows2, sudoku);
        lemma_sorted_days_facts(rows, sudoku);
        lemma_sorted_days_facts(rows2, sudoku);
        lemma_pair_leq_total();
        rows.map_values(|r: ResultRow| row_pair(r, sudoku)).lemma_sort_by_ensures(pair_leq());
        rows2.map_values(|r: ResultRow| row_pair(r, sudoku)).lemma_sort_by_ensures(pair_leq());
        vstd::seq_lib::lemma_sorted_unique(sorted_days(rows, sudoku), sorted_days(rows2, sudoku), pair_leq());
    }
    assert forall|k: int| #[trigger] bucket_count(rows2, sudoku, k, rows2.len() as int) == bucket_count(
        rows,
        sudoku,
        k,
        rows.len() as int,
    ) by {
        lemma_bucket_fold(rows, sudoku, k, rows.len() as int);
        lemma_bucket_fold(rows2, sudoku, k, rows2.len() as int);
        assert(rows.take(rows.len() as int) == rows);
        assert(rows2.take(rows2.len() as int) == rows2);
        assert(vstd::seq_lib::commutative_foldl(bucket_step(sudoku, k)));
        vstd::seq_lib::lemma_fold_left_permutation(rows, rows2, bucket_step(sudoku, k), 0int);
    }
}

/// The pairs from position `i` up to `j` are won results on consecutive
/// days.
pub open spec fn won_run(d: Seq<(i64, bool)>, i: int, j: int) -> bool {
    &&& 0 <= i < j <= d.len()
    &&& forall|k: int| i <= k < j ==> #[trigger] d[k].1
    &&& forall|k: int| i < k < j ==> #[trigger] d[k].0 == d[k - 1].0 + 1
}

/// `best` is the length of the longest run of won results on consecutive
/// days; 0 when nothing is won.
pub open spec fn longest_run(d: Seq<(i64, bool)>, best: int) -> bool {
    &&& 0 <= best
    &&& forall|i: int, j: int| #[trigger] won_run(d, i, j) ==> j - i <= best
    &&& best == 0 || exists|i: int, j: int| #[trigger] won_run(d, i, j) && j - i == best
}

proof fn lemma_run_state(d: Seq<(i64, bool)>, n: int)
    requires
        0 <= n <= d.len(),
    ensures
        ({
            let (best, run, prev) = run_state(d, n);
            &&& 0 <= run <= n
            &&& (run > 0) == (prev is Some)
            &&& run > 0 ==> prev == Some(d[n - 1].0 as int) && won_run(d, n - run, n)
            &&& forall|i: int| #[trigger] won_run(d, i, n) ==> n - i <= run
            &&& 0 <= best
            &&& forall|i: int, j: int| j <= n && #[trigger] won_run(d, i, j) ==> j - i <= best
            &&& best == 0 || exists|i: int, j: int| j <= n && #[trigger] won_run(d, i, j) && j - i == best
        }),
    decreases n,
{
    if n > 0 {
        let k = n - 1;
        lemma_run_state(d, k);
        let (b0, r0, p0) = run_state(d, k);
        let (best, run, prev) = run_state(d, n);
        if !d[k].1 {
            assert forall|i: int| #[trigger] won_run(d, i, n) implies n - i <= run by {
                assert(d[k].1);
            }
            assert forall|i: int, j: int| j <= n && #[trigger] won_run(d, i, j) implies j - i <= best by {
                if j == n {
                    assert(d[k].1);
                }
            }
        } else {
            let extends = p0 is Some && d[k].0 == p0->Some_0 + 1;
            if extends {
                assert(run == r0 + 1);
                assert(won_run(d, k - r0, k));
                assert(won_run(d, n - run, n)) by {
                    assert forall|m: int| n - run <= m < n implies #[trigger] d[m].1 by {
                        if m < k {
                            assert(won_run(d, k - r0, k));
                        }
                    }
                    assert forall|m: int| n - run < m < n implies #[trigger] d[m].0 == d[m - 1].0 + 1 by {
                        if m < k {
                            assert(won_run(d, k - r0, k));
                        }
                    }
                }
                assert forall|i: int| #[trigger] won_run(d, i, n) implies n - i <= run by {
                    if i < k {
                        assert(won_run(d, i, k));
                    }
                }
            } else {
                assert(run == 1);
                assert(won_run(d, k, n));
                assert forall|i: int| #[trigger] won_run(d, i, n) implies n - i <= run by {
                    if i < k {
                        assert(won_run(d, i, k));
                        assert(d[k].0 == d[k - 1].0 + 1);
                    }
                }
            }
            assert forall|i: int, j: int| j <= n && #[trigger] won_run(d, i, j) implies j - i <= best by {
                if j <= k {
                    assert(j - i <= b0);
                }
            }
            if best != 0 && best == run {
                assert(won_run(d, n - run, n));
            }
        }
    }
}

/// The longest streak is the longest run of won results on consecutive
/// days, in day order, unless the current or the imported longest streak
/// is longer.
pub proof fn lemma_max_streak_longest_run(
    game: Seq<char>,
    rows: Seq<ResultRow>,
    today: Option<i64>,
    baseline: Option<Baseline>,
    s: GameStats,
)
    requires
        stats_spec(game, rows, today, baseline, s),
    ensures
        exists|best: int|
            #[trigger] longest_run(sorted_days(rows, is_sudoku_game(game)), best) && s.max_streak
                == max3(best, s.current_streak as int, base_max(baseline)),
{
    let d = sorted_days(rows, is_sudoku_game(game));
    lemma_run_state(d, d.len() as int);
    let best = run_state(d, d.len() as int).0;
    assert(longest_run(d, best));
}


proof fn lemma_bucket_count_prefix(rows: Seq<ResultRow>, r: ResultRow, sudoku: bool, k: int, m: int)
    requires
        0 <= m <= rows.len(),
    ensures
        bucket_count(rows.push(r), sudoku, k, m) == bucket_count(rows, sudoku, k, m),
    decreases m,
{
    if m > 0 {
        lemma_bucket_count_prefix(rows, r, sudoku, k, m - 1);
        assert(rows.push(r)[m - 1] == rows[m - 1]);
    }
}

/// One more woordle result moves one count of the guess distribution: a
/// win in `g` guesses, `g` from 1 to 6, adds one to bucket `g - 1`; any
/// other result adds one to the fail bucket; no other bucket changes.
pub proof fn lemma_guess_distribution_step(
    game: Seq<char>,
    rows: Seq<ResultRow>,
    r: ResultRow,
    today: Option<i64>,
    baseline: Option<Baseline>,
    s0: GameStats,
    s1: GameStats,
)
    requires
        !is_sudoku_game(game),
        stats_spec(game, rows, today, baseline, s0),
        stats_spec(game, rows.push(r), today, baseline, s1),
    ensures
        forall|k: int|
            0 <= k < 7 ==> #[trigger] s1.distribution.counts@[k] == s0.distribution.counts@[k] + if (r.won
                && 1 <= r.guess_count <= 6 && k == r.guess_count - 1) || (!(r.won && 1
                <= r.guess_count <= 6) && k == 6) {
                1int
            } else {
                0int
            },
{
    assert forall|k: int| 0 <= k < 7 implies #[trigger] s1.distribution.counts@[k]
        == s0.distribution.counts@[k] + if (r.won && 1 <= r.guess_count <= 6 && k == r.guess_count
        - 1) || (!(r.won && 1 <= r.guess_count <= 6) && k == 6) {
        1int
    } else {
        0int
    } by {
        lemma_bucket_count_prefix(rows, r, false, k, rows.len() as int);
        assert(rows.push(r)[rows.len() as int] == r);
    }
}


/// One more sudokudo result with a solve time moves one count of the time
/// distribution: the bucket of how many of the marks 3, 5, 10, 15 and 30
/// minutes the time reaches gains one; no other bucket changes, and a
/// result without a time changes none.
pub proof fn lemma_time_distribution_step(
    game: Seq<char>,
    rows: Seq<ResultRow>,
    r: ResultRow,
    today: Option<i64>,
    baseline: Option<Baseline>,
    s0: GameStats,
    s1: GameStats,
)
    requires
        is_sudoku_game(game),
        stats_spec(game, rows, today, baseline, s0),
        stats_spec(game, rows.push(r), today, baseline, s1),
    ensures
        forall|k: int|
            0 <= k < 6 ==> #[trigger] s1.distribution.counts@[k] == s0.distribution.counts@[k] + match r.elapsed_ms {
                Some(ms) => if k == (if ms >= 180000 { 1int } else { 0int }) + (if ms >= 300000 {
                    1int
                } else {
                    0int
                }) + (if ms >= 600000 { 1int } else { 0int }) + (if ms >= 900000 { 1int } else { 0int })
                    + (if ms >= 1800000 { 1int } else { 0int }) {
                    1int
                } else {
                    0int
                },
                None => 0int,
            },
{
    assert forall|k: int| 0 <= k < 6 implies #[trigger] s1.distribution.counts@[k]
        == s0.distribution.counts@[k] + match r.elapsed_ms {
        Some(ms) => if k == (if ms >= 180000 { 1int } else { 0int }) + (if ms >= 300000 {
            1int
        } else {
            0int
        }) + (if ms >= 600000 { 1int } else { 0int }) + (if ms >= 900000 { 1int } else { 0int }) + (
        if ms >= 1800000 { 1int } else { 0int }) {
            1int
        } else {
            0int
        },
        None => 0int,
    } by {
        lemma_bucket_count_prefix(rows, r, true, k, rows.len() as int);
        assert(rows.push(r)[rows.len() as int] == r);
    }
}

} // verus!
