//! Verification for the four woordle.nl variants.

use crate::clock::today_day_number;
use crate::text::{
    decimal_text, listed, list_contains, lowercase, pieces, push_decimal, split_on, str_eq, to_lowercase, trim, trimmed,
    StringExecFns,
};
use vstd::prelude::*;

verus! {

/// The colour of one letter of a guess.
#[derive(Debug, PartialEq, Eq, Structural, Clone, Copy)]
pub enum Mark {
    Correct,
    Present,
    Absent,
}

impl Mark {
    /// The name the stored payload uses for the mark.
    pub fn as_str(&self) -> (res: &'static str)
        ensures
            res@ == mark_name(*self),
    {
        match self {
            Mark::Correct => "correct",
            Mark::Present => "present",
            Mark::Absent => "absent",
        }
    }
}

pub open spec fn mark_name(m: Mark) -> Seq<char> {
    match m {
        Mark::Correct => "correct"@,
        Mark::Present => "present"@,
        Mark::Absent => "absent"@,
    }
}


/// Position `i` of the guess holds the solution's letter at the same position.
pub open spec fn exact_at(g: Seq<char>, s: Seq<char>, i: int) -> bool {
    0 <= i < g.len() && i < s.len() && g[i] == s[i]
}

/// How many of the first `n` solution letters equal `c` and are not claimed
/// by an exact match.
pub open spec fn unclaimed(g: Seq<char>, s: Seq<char>, c: char, n: int) -> nat
    decreases n,
{
    if n <= 0 {
        0
    } else {
        unclaimed(g, s, c, n - 1) + if s[n - 1] == c && !exact_at(g, s, n - 1) {
            1nat
        } else {
            0nat
        }
    }
}

/// How many of the first `n` guess letters equal `c` without being exact.
pub open spec fn inexact_guesses(g: Seq<char>, s: Seq<char>, c: char, n: int) -> nat
    decreases n,
{
    if n <= 0 {
        0
    } else {
        inexact_guesses(g, s, c, n - 1) + if g[n - 1] == c && !exact_at(g, s, n - 1) {
            1nat
        } else {
            0nat
        }
    }
}

/// The mark of guess position `i`: exact matches are correct; any other
/// letter is present while an unclaimed instance of it is left for it, the
/// earlier guess positions taking theirs first; otherwise it is absent.
pub open spec fn mark_at(g: Seq<char>, s: Seq<char>, i: int) -> Mark {
    if exact_at(g, s, i) {
        Mark::Correct
    } else if inexact_guesses(g, s, g[i], i) < unclaimed(g, s, g[i], s.len() as int) {
        Mark::Present
    } else {
        Mark::Absent
    }
}

/// The marks of a whole guess against a solution.
pub open spec fn evaluation(g: Seq<char>, s: Seq<char>) -> Seq<Mark> {
    Seq::new(g.len(), |i: int| mark_at(g, s, i))
}

proof fn lemma_unclaimed_step(g: Seq<char>, s: Seq<char>, n: int)
    requires
        0 <= n,
    ensures
        forall|c: char| #[trigger] unclaimed(g, s, c, n + 1) == unclaimed(g, s, c, n) + if s[n] == c
            && !exact_at(g, s, n) {
            1nat
        } else {
            0nat
        },
{
}

proof fn lemma_inexact_step(g: Seq<char>, s: Seq<char>, n: int)
    requires
        0 <= n,
    ensures
        forall|c: char| #[trigger] inexact_guesses(g, s, c, n + 1) == inexact_guesses(g, s, c, n) + if g[n]
            == c && !exact_at(g, s, n) {
            1nat
        } else {
            0nat
        },
{
}

fn chars_of(text: &str) -> (res: Vec<char>)
    ensures
        res@ == text@,
{
    let n = text.unicode_len();
    let mut out: Vec<char> = Vec::new();
    let mut i: usize = 0;
    while i < n
        invariant
            n == text@.len(),
            i <= n,
            out@ == text@.subrange(0, i as int),
        decreases n - i,
    {
        out.push(text.get_char(i));
        i = i + 1;
    }
    assert(out@ =~= text@);
    out
}

/// Two-pass Wordle evaluation with duplicate-letter accounting: the first
/// pass marks exact matches and sets the other solution letters aside; the
/// second marks a letter present only while an instance of it is left.
pub fn evaluate(guess: &str, solution: &str) -> (res: Vec<Mark>)
    ensures
        res@ == evaluation(guess@, solution@),
{
    broadcast use vstd::seq_lib::group_to_multiset_ensures, vstd::multiset::group_multiset_axioms;

    let g = chars_of(guess);
    let s = chars_of(solution);
    let ghost gs = g@;
    let ghost ss = s@;
    let mut marks: Vec<Mark> = Vec::new();
    let mut k: usize = 0;
    while k < g.len()
        invariant
            k <= g@.len(),
            marks@.len() == k,
            forall|j: int| 0 <= j < k ==> marks@[j] == Mark::Absent,
        decreases g@.len() - k,
    {
        marks.push(Mark::Absent);
        k = k + 1;
    }
    let mut left: Vec<char> = Vec::new();
    let mut i: usize = 0;
    while i < s.len()
        invariant
            g@ == gs,
            s@ == ss,
            i <= ss.len(),
            marks@.len() == gs.len(),
            forall|j: int| 0 <= j < gs.len() ==> (#[trigger] marks@[j] == Mark::Correct) == (j < i
                && exact_at(gs, ss, j)),
            forall|j: int| 0 <= j < gs.len() ==> #[trigger] marks@[j] != Mark::Present,
            forall|c: char| #[trigger] left@.to_multiset().count(c) == unclaimed(gs, ss, c, i as int),
        decreases ss.len() - i,
    {
        proof {
            lemma_unclaimed_step(gs, ss, i as int);
        }
        if i < g.len() && g[i] == s[i] {
            marks.set(i, Mark::Correct);
            assert(exact_at(gs, ss, i as int));
            assert forall|c: char| #[trigger] left@.to_multiset().count(c) == unclaimed(
                gs,
                ss,
                c,
                i + 1,
            ) by {
                assert(unclaimed(gs, ss, c, i + 1) == unclaimed(gs, ss, c, i as int));
            }
        } else {
            let ghost before = left@;
            left.push(s[i]);
            proof {
                vstd::seq_lib::to_multiset_build(before, ss[i as int]);
            }
            assert(left@ == before.push(ss[i as int]));
            assert(!exact_at(gs, ss, i as int));
            assert forall|c: char| #[trigger] left@.to_multiset().count(c) == unclaimed(
                gs,
                ss,
                c,
                i + 1,
            ) by {
                assert(unclaimed(gs, ss, c, i + 1) == unclaimed(gs, ss, c, i as int) + if ss[i as int]
                    == c {
                    1nat
                } else {
                    0nat
                });
                assert(before.to_multiset().count(c) == unclaimed(gs, ss, c, i as int));
                assert(left@.to_multiset() == before.to_multiset().insert(ss[i as int]));
                assert(before.to_multiset().insert(ss[i as int]).count(c) == before.to_multiset().count(
                    c,
                ) + if ss[i as int] == c {
                    1nat
                } else {
                    0nat
                });
            }
        }
        i = i + 1;
    }
    let mut i: usize = 0;
    while i < g.len()
        invariant
            g@ == gs,
            s@ == ss,
            i <= gs.len(),
            marks@.len() == gs.len(),
            forall|j: int| 0 <= j < i ==> #[trigger] marks@[j] == mark_at(gs, ss, j),
            forall|j: int| i <= j < gs.len() ==> (#[trigger] marks@[j] == Mark::Correct) == exact_at(
                gs,
                ss,
                j,
            ),
            forall|j: int| i <= j < gs.len() ==> #[trigger] marks@[j] != Mark::Present,
            forall|c: char| #[trigger]
                left@.to_multiset().count(c) == if inexact_guesses(gs, ss, c, i as int) < unclaimed(
                    gs,
                    ss,
                    c,
                    ss.len() as int,
                ) {
                    (unclaimed(gs, ss, c, ss.len() as int) - inexact_guesses(gs, ss, c, i as int)) as nat
                } else {
                    0nat
                },
        decreases gs.len() - i,
    {
        proof {
            lemma_inexact_step(gs, ss, i as int);
        }
        let ghost before = left@;
        let ghost ii = i as int;
        let ghost u = |c: char| unclaimed(gs, ss, c, ss.len() as int);
        if marks[i] != Mark::Correct {
            let c = g[i];
            assert(!exact_at(gs, ss, ii));
            let mut p: usize = 0;
            let mut found = false;
            while p < left.len()
                invariant_except_break
                    !found,
                invariant
                    p <= left@.len(),
                    forall|q: int| 0 <= q < p ==> left@[q] != c,
                ensures
                    found ==> p < left@.len() && left@[p as int] == c,
                    !found ==> forall|q: int| 0 <= q < left@.len() ==> left@[q] != c,
                decreases left@.len() - p,
            {
                if left[p] == c {
                    found = true;
                    break;
                }
                p = p + 1;
            }
            if found {
                proof {
                    assert(before.contains(c));
                    vstd::seq_lib::to_multiset_remove(before, p as int);
                }
                left.remove(p);
                assert(left@ == before.remove(p as int));
                marks.set(i, Mark::Present);
                proof {
                    before.to_multiset_ensures();
                }
                assert(before.to_multiset().count(c) > 0);
                assert(inexact_guesses(gs, ss, c, ii) < u(c));
                assert(mark_at(gs, ss, ii) == Mark::Present);
                assert forall|d: char| #[trigger]
                    left@.to_multiset().count(d) == if inexact_guesses(gs, ss, d, ii + 1) < u(d) {
                        (u(d) - inexact_guesses(gs, ss, d, ii + 1)) as nat
                    } else {
                        0nat
                    } by {
                    assert(left@.to_multiset().count(d) == before.to_multiset().remove(c).count(d));
                    if d == c {
                        assert(inexact_guesses(gs, ss, d, ii + 1) == inexact_guesses(gs, ss, d, ii) + 1);
                    } else {
                        assert(inexact_guesses(gs, ss, d, ii + 1) == inexact_guesses(gs, ss, d, ii));
                    }
                }
            } else {
                assert(!before.contains(c)) by {
                    if before.contains(c) {
                        let q = choose|q: int| 0 <= q < before.len() && before[q] == c;
                    }
                }
                proof {
                    before.to_multiset_ensures();
                }
                assert(before.to_multiset().count(c) == 0);
                assert(mark_at(gs, ss, ii) == Mark::Absent);
                assert forall|d: char| #[trigger]
                    left@.to_multiset().count(d) == if inexact_guesses(gs, ss, d, ii + 1) < u(d) {
                        (u(d) - inexact_guesses(gs, ss, d, ii + 1)) as nat
                    } else {
                        0nat
                    } by {
                    if d == c {
                        assert(inexact_guesses(gs, ss, d, ii + 1) == inexact_guesses(gs, ss, d, ii) + 1);
                    } else {
                        assert(inexact_guesses(gs, ss, d, ii + 1) == inexact_guesses(gs, ss, d, ii));
                    }
                }
            }
        } else {
            assert(exact_at(gs, ss, ii));
            assert(mark_at(gs, ss, ii) == Mark::Correct);
            assert forall|d: char| #[trigger]
                left@.to_multiset().count(d) == if inexact_guesses(gs, ss, d, ii + 1) < u(d) {
                    (u(d) - inexact_guesses(gs, ss, d, ii + 1)) as nat
                } else {
                    0nat
                } by {
                assert(inexact_guesses(gs, ss, d, ii + 1) == inexact_guesses(gs, ss, d, ii));
            }
        }
        i = i + 1;
    }
    assert(marks@ =~= evaluation(guess@, solution@));
    marks
}


/// One woordle.nl variant. The daily word is `answers[day % answers.len()]`
/// where `day` counts calendar days since `start_day`.
pub struct Variant {
    pub game: String,
    /// The start date as a day number (days since 0001-01-01, that day being 1).
    pub start_day: i32,
    pub answers: Vec<String>,
    pub allowed: Vec<String>,
    /// Offset added to `day` for the puzzle number shown to players.
    pub display_offset: i64,
}

/// A variant as the game defines it: its id, its start date (year, month,
/// day), the word lists of its answers and of its allowed guesses, and the
/// offset of the puzzle number shown to players.
pub struct VariantSpec {
    pub game: &'static str,
    pub start_date: (i32, u32, u32),
    pub answers_file: &'static str,
    pub allowed_file: &'static str,
    pub display_offset: i64,
}

/// The four variants of the game.
pub fn variant_specs() -> (res: Vec<VariantSpec>)
    ensures
        res@.len() == 4,
        res@[0].game@ == "woordle"@ && res@[0].start_date == (2022i32, 1u32, 7u32)
            && res@[0].answers_file@ == "puzzle-words"@ && res@[0].allowed_file@ == "all-words"@
            && res@[0].display_offset == 202,
        res@[1].game@ == "woordle6"@ && res@[1].start_date == (2022i32, 1u32, 10u32)
            && res@[1].answers_file@ == "puzzle-words6"@ && res@[1].allowed_file@ == "all-words6"@
            && res@[1].display_offset == 1,
        res@[2].game@ == "wordle"@ && res@[2].start_date == (2021i32, 6u32, 19u32)
            && res@[2].answers_file@ == "puzzle-words-en"@ && res@[2].allowed_file@ == "all-words-en"@
            && res@[2].display_offset == 0,
        res@[3].game@ == "wordle6"@ && res@[3].start_date == (2022i32, 1u32, 11u32)
            && res@[3].answers_file@ == "puzzle-words6-en"@ && res@[3].allowed_file@
            == "all-words6-en"@ && res@[3].display_offset == 1,
{
    vec![
        VariantSpec {
            game: "woordle",
            start_date: (2022, 1, 7),
            answers_file: "puzzle-words",
            allowed_file: "all-words",
            display_offset: 202,
        },
        VariantSpec {
            game: "woordle6",
            start_date: (2022, 1, 10),
            answers_file: "puzzle-words6",
            allowed_file: "all-words6",
            display_offset: 1,
        },
        VariantSpec {
            game: "wordle",
            start_date: (2021, 6, 19),
            answers_file: "puzzle-words-en",
            allowed_file: "all-words-en",
            display_offset: 0,
        },
        VariantSpec {
            game: "wordle6",
            start_date: (2022, 1, 11),
            answers_file: "puzzle-words6-en",
            allowed_file: "all-words6-en",
            display_offset: 1,
        },
    ]
}

/// A variant from its definition and its word lists; `None` where the
/// start date is no date.
pub fn variant_from(spec: &VariantSpec, answers: Vec<String>, allowed: Vec<String>) -> (res: Option<
    Variant,
>)
    ensures
        match crate::clock::calendar_day(
            spec.start_date.0 as int,
            spec.start_date.1 as int,
            spec.start_date.2 as int,
        ) {
            None => res is None,
            Some(d) => res matches Some(v) && v.game@ == spec.game@ && v.start_day == d
                && v.answers@ == answers@ && v.allowed@ == allowed@ && v.display_offset
                == spec.display_offset,
        },
{
    let (y, m, d) = spec.start_date;
    match crate::clock::day_of_date(y, m, d) {
        None => None,
        Some(start_day) => Some(
            Variant {
                game: String::from_str(spec.game),
                start_day,
                answers,
                allowed,
                display_offset: spec.display_offset,
            },
        ),
    }
}

/// The words of a word list: its text trimmed, one word per line.
pub fn word_list(text: &str) -> (res: Vec<String>)
    ensures
        res@.map_values(|w: String| w@) == pieces(trimmed(text@), '\n'),
{
    let lines = split_on(trim(text), '\n');
    let mut words: Vec<String> = Vec::new();
    let mut i: usize = 0;
    while i < lines.len()
        invariant
            i <= lines@.len(),
            lines@.map_values(|p: &str| p@) == pieces(trimmed(text@), '\n'),
            words@.len() == i,
            forall|j: int| 0 <= j < i ==> #[trigger] words@[j]@ == lines@[j]@,
        decreases lines@.len() - i,
    {
        words.push(String::from_str(lines[i]));
        i = i + 1;
    }
    assert(words@.map_values(|w: String| w@) == lines@.map_values(|p: &str| p@));
    words
}

/// A submitted game: the guesses in order and the claimed outcome.
pub struct WoordleSubmission {
    pub guesses: Vec<String>,
    pub won: bool,
}

/// What is stored for a verified game.
pub struct WoordlePayload {
    /// The guesses, lower-cased.
    pub guesses: Vec<String>,
    /// The server's evaluation of each guess.
    pub evaluations: Vec<Vec<Mark>>,
    pub won: bool,
    /// `day` plus the variant's display offset.
    pub display_number: i64,
}

pub enum VerifyError {
    UnknownGame,
    DayOutOfRange { server_day: i64 },
    BadGuessCount,
    UnknownWord(String),
    OutcomeMismatch,
}

impl VerifyError {
    /// The message shown to the player.
    pub fn message(&self) -> (res: String)
        ensures
            res@ == error_text(self),
    {
        match self {
            VerifyError::UnknownGame => String::from_str("unknown game"),
            VerifyError::DayOutOfRange { server_day } => {
                let mut s = String::from_str("day out of range (server day is ");
                push_decimal(&mut s, *server_day);
                s.append(", \u{b1}1 accepted)");
                s
            },
            VerifyError::BadGuessCount => String::from_str(
                "must have 1-6 guesses; a loss requires exactly 6",
            ),
            VerifyError::UnknownWord(w) => {
                let mut s = String::from_str("guess not in the word list: ");
                s.append(w.as_str());
                s
            },
            VerifyError::OutcomeMismatch => String::from_str(
                "reported outcome does not match the guesses",
            ),
        }
    }
}

/// The text of each error.
pub open spec fn error_text(e: &VerifyError) -> Seq<char> {
    match e {
        VerifyError::UnknownGame => "unknown game"@,
        VerifyError::DayOutOfRange { server_day } => "day out of range (server day is "@
            + decimal_text(*server_day as int) + ", \u{b1}1 accepted)"@,
        VerifyError::BadGuessCount => "must have 1-6 guesses; a loss requires exactly 6"@,
        VerifyError::UnknownWord(w) => "guess not in the word list: "@ + w@,
        VerifyError::OutcomeMismatch => "reported outcome does not match the guesses"@,
    }
}

/// The index of the first variant named `game`, if any.
pub open spec fn first_variant(vs: Seq<Variant>, game: Seq<char>) -> Option<int> {
    if exists|i: int| 0 <= i < vs.len() && #[trigger] vs[i].game@ == game {
        Some(
            choose|i: int|
                0 <= i < vs.len() && #[trigger] vs[i].game@ == game && forall|j: int|
                    0 <= j < i ==> #[trigger] vs[j].game@ != game,
        )
    } else {
        None
    }
}

proof fn lemma_first_variant_found(vs: Seq<Variant>, game: Seq<char>)
    ensures
        first_variant(vs, game) matches Some(i) ==> 0 <= i < vs.len() && vs[i].game@ == game,
{
    if exists|i: int| 0 <= i < vs.len() && #[trigger] vs[i].game@ == game {
        let k = choose|k: int| 0 <= k < vs.len() && #[trigger] vs[k].game@ == game;
        lemma_least_match(vs, game, k);
    }
}

proof fn lemma_least_match(vs: Seq<Variant>, game: Seq<char>, k: int)
    requires
        0 <= k < vs.len(),
        vs[k].game@ == game,
    ensures
        exists|i: int|
            0 <= i < vs.len() && #[trigger] vs[i].game@ == game && forall|j: int|
                0 <= j < i ==> #[trigger] vs[j].game@ != game,
    decreases k,
{
    if exists|j: int| 0 <= j < k && #[trigger] vs[j].game@ == game {
        let j = choose|j: int| 0 <= j < k && #[trigger] vs[j].game@ == game;
        lemma_least_match(vs, game, j);
    } else {
        assert(forall|j: int| 0 <= j < k ==> #[trigger] vs[j].game@ != game);
    }
}

proof fn lemma_first_variant(vs: Seq<Variant>, game: Seq<char>, i: int)
    requires
        0 <= i < vs.len(),
        vs[i].game@ == game,
        forall|j: int| 0 <= j < i ==> #[trigger] vs[j].game@ != game,
    ensures
        first_variant(vs, game) == Some(i),
{
    let k = choose|k: int|
        0 <= k < vs.len() && #[trigger] vs[k].game@ == game && forall|j: int|
            0 <= j < k ==> #[trigger] vs[j].game@ != game;
    if k < i {
        assert(vs[k].game@ != game);
    } else if k > i {
        assert(vs[i].game@ != game);
    }
}

/// The first variant whose id is `game`.
pub fn variant<'a>(variants: &'a [Variant], game: &str) -> (res: Option<&'a Variant>)
    ensures
        match first_variant(variants@, game@) {
            Some(i) => res == Some(&variants@[i]),
            None => res is None,
        },
{
    let mut i: usize = 0;
    while i < variants.len()
        invariant
            i <= variants@.len(),
            forall|j: int| 0 <= j < i ==> #[trigger] variants@[j].game@ != game@,
        decreases variants@.len() - i,
    {
        if str_eq(variants[i].game.as_str(), game) {
            proof {
                lemma_first_variant(variants@, game@, i as int);
            }
            return Some(&variants[i]);
        }
        i = i + 1;
    }
    None
}

/// `day` reduced into `[0, len)`, counting backwards for negative days.
pub open spec fn wrap_day(day: int, len: int) -> int {
    day % len
}

/// The answer for a (pre-modulo) day: the list wraps around.
pub fn solution_for_day(v: &Variant, day: i64) -> (res: &String)
    requires
        v.answers@.len() > 0,
    ensures
        res == v.answers@[wrap_day(day as int, v.answers@.len() as int)],
{
    let len = v.answers.len() as u64;
    let idx: u64 = if day >= 0 {
        (day as u64) % len
    } else {
        let k = (-(day + 1)) as u64;
        let m = k % len;
        assert(((-(k + 1)) as int) % (len as int) == (len - 1 - m) as int) by (nonlinear_arith)
            requires
                m == k % len,
                len > 0,
        {
            vstd::arithmetic::div_mod::lemma_fundamental_div_mod(k as int, len as int);
            let q = (k as int) / (len as int);
            assert(-(k + 1) == (len as int) * (-q - 1) + (len - 1 - m));
            vstd::arithmetic::div_mod::lemma_fundamental_div_mod_converse(
                -(k + 1),
                len as int,
                -q - 1,
                (len - 1 - m) as int,
            );
        }
        len - 1 - m
    };
    &v.answers[idx as usize]
}

/// The guess at position `i`, lower-cased.
pub open spec fn lowered(sub: &WoordleSubmission, i: int) -> Seq<char> {
    lowercase(sub.guesses@[i]@)
}

/// The day is more than a day away from the server's day, or negative.
pub open spec fn day_out_of_range(day: int, server_day: int) -> bool {
    day - server_day > 1 || server_day - day > 1 || day < 0
}

/// A game has one to six guesses, and a lost one exactly six.
pub open spec fn bad_guess_count(sub: &WoordleSubmission) -> bool {
    let n = sub.guesses@.len();
    n == 0 || n > 6 || (!sub.won && n != 6)
}

/// Guess `i`, lower-cased, has the answer's length and is an allowed word.
pub open spec fn word_ok(v: &Variant, sol: Seq<char>, sub: &WoordleSubmission, i: int) -> bool {
    lowered(sub, i).len() == sol.len() && listed(v.allowed@, lowered(sub, i))
}

/// The outcome disagrees with the guesses: the last guess solves the game
/// exactly when the game is claimed won, and no earlier guess solves it.
pub open spec fn outcome_mismatch(sol: Seq<char>, sub: &WoordleSubmission) -> bool {
    let n = sub.guesses@.len() as int;
    ||| (lowered(sub, n - 1) == sol) != sub.won
    ||| exists|i: int| 0 <= i < n - 1 && #[trigger] lowered(sub, i) == sol
}

/// The stored payload of an accepted game: the guesses lower-cased, each
/// with its evaluation against the answer, the outcome and the shown number.
pub open spec fn normalized_payload(
    p: WoordlePayload,
    v: &Variant,
    sol: Seq<char>,
    day: int,
    sub: &WoordleSubmission,
) -> bool {
    let n = sub.guesses@.len() as int;
    &&& p.won == sub.won
    &&& p.display_number == day + v.display_offset
    &&& p.guesses@.len() == n
    &&& p.evaluations@.len() == n
    &&& forall|i: int|
        0 <= i < n ==> #[trigger] p.guesses@[i]@ == lowered(sub, i) && p.evaluations@[i]@
            == evaluation(lowered(sub, i), sol)
}

/// The result of verifying `submission` for `day` when the server's own day
/// is `server_day`: each rule in turn, the first that fails deciding the
/// error; otherwise the normalized payload.
pub open spec fn verdict(
    v: &Variant,
    server_day: int,
    day: int,
    submission: &WoordleSubmission,
    res: Result<WoordlePayload, VerifyError>,
) -> bool {
    let sol = v.answers@[wrap_day(day, v.answers@.len() as int)]@;
    let n = submission.guesses@.len() as int;
    if day_out_of_range(day, server_day) {
        res matches Err(VerifyError::DayOutOfRange { server_day: d }) && d == server_day
    } else if bad_guess_count(submission) {
        res matches Err(VerifyError::BadGuessCount)
    } else if exists|i: int| 0 <= i < n && !#[trigger] word_ok(v, sol, submission, i) {
        res matches Err(VerifyError::UnknownWord(w)) && exists|i: int|
            0 <= i < n && !#[trigger] word_ok(v, sol, submission, i) && (forall|j: int|
                0 <= j < i ==> word_ok(v, sol, submission, j)) && w@ == submission.guesses@[i]@
    } else if outcome_mismatch(sol, submission) {
        res matches Err(VerifyError::OutcomeMismatch)
    } else {
        res matches Ok(p) && normalized_payload(p, v, sol, day, submission)
    }
}

/// Verification for a given server day: each rule in turn, the first that
/// fails deciding the error; on success the normalized payload.
#[verifier::loop_isolation(false)]
pub fn verify_for_day(v: &Variant, server_day: i64, day: i64, submission: &WoordleSubmission) -> (res:
    Result<WoordlePayload, VerifyError>)
    requires
        v.answers@.len() > 0,
        i64::MIN < day - server_day <= i64::MAX,
        !day_out_of_range(day as int, server_day as int) ==> i64::MIN <= day + v.display_offset
            <= i64::MAX,
    ensures
        verdict(v, server_day as int, day as int, submission, res),
{
    let diff = day - server_day;
    if diff > 1 || diff < -1 || day < 0 {
        return Err(VerifyError::DayOutOfRange { server_day });
    }
    let count = submission.guesses.len();
    if count == 0 || count > 6 || (!submission.won && count != 6) {
        return Err(VerifyError::BadGuessCount);
    }
    let solution = solution_for_day(v, day);
    let ghost sol = solution@;
    let word_len = solution.as_str().unicode_len();
    let mut i: usize = 0;
    while i < count
        invariant
            count == submission.guesses@.len(),
            sol == v.answers@[wrap_day(day as int, v.answers@.len() as int)]@,
            word_len == sol.len(),
            i <= count,
            forall|j: int| 0 <= j < i ==> #[trigger] word_ok(v, sol, submission, j),
        decreases count - i,
    {
        let normalized = to_lowercase(submission.guesses[i].as_str());
        if normalized.as_str().unicode_len() != word_len || !list_contains(
            &v.allowed,
            normalized.as_str(),
        ) {
            assert(!word_ok(v, sol, submission, i as int));
            assert(exists|k: int| 0 <= k < count && !#[trigger] word_ok(v, sol, submission, k));
            return Err(VerifyError::UnknownWord(submission.guesses[i].clone()));
        }
        i = i + 1;
    }
    assert(forall|k: int| 0 <= k < count ==> #[trigger] word_ok(v, sol, submission, k));
    let last = to_lowercase(submission.guesses[count - 1].as_str());
    let solved = str_eq(last.as_str(), solution.as_str());
    if solved != submission.won {
        return Err(VerifyError::OutcomeMismatch);
    }
    let mut i: usize = 0;
    while i < count - 1
        invariant
            count == submission.guesses@.len(),
            count > 0,
            sol == solution@,
            i <= count - 1,
            forall|j: int| 0 <= j < i ==> #[trigger] lowered(submission, j) != sol,
        decreases count - 1 - i,
    {
        let lowered_guess = to_lowercase(submission.guesses[i].as_str());
        if str_eq(lowered_guess.as_str(), solution.as_str()) {
            assert(lowered(submission, i as int) == sol);
            return Err(VerifyError::OutcomeMismatch);
        }
        i = i + 1;
    }
    let mut guesses: Vec<String> = Vec::new();
    let mut evaluations: Vec<Vec<Mark>> = Vec::new();
    let mut i: usize = 0;
    while i < count
        invariant
            count == submission.guesses@.len(),
            sol == solution@,
            i <= count,
            guesses@.len() == i,
            evaluations@.len() == i,
            forall|j: int| 0 <= j < i ==> #[trigger] guesses@[j]@ == lowered(submission, j),
            forall|j: int|
                0 <= j < i ==> #[trigger] evaluations@[j]@ == evaluation(lowered(submission, j), sol),
        decreases count - i,
    {
        let lowered_guess = to_lowercase(submission.guesses[i].as_str());
        let marks = evaluate(lowered_guess.as_str(), solution.as_str());
        let ghost gprev = guesses@;
        let ghost eprev = evaluations@;
        guesses.push(lowered_guess);
        evaluations.push(marks);
        assert(forall|j: int| 0 <= j < i ==> guesses@[j] == gprev[j]);
        assert(forall|j: int| 0 <= j < i ==> evaluations@[j] == eprev[j]);
        i = i + 1;
    }
    assert(!outcome_mismatch(sol, submission));
    let ghost gfinal = guesses@;
    let ghost efinal = evaluations@;
    let payload = WoordlePayload {
        guesses,
        evaluations,
        won: submission.won,
        display_number: day + v.display_offset,
    };
    assert forall|j: int| 0 <= j < count implies #[trigger] payload.guesses@[j]@ == lowered(
        submission,
        j,
    ) && payload.evaluations@[j]@ == evaluation(lowered(submission, j), sol) by {
        assert(gfinal[j]@ == lowered(submission, j));
        assert(efinal[j]@ == evaluation(lowered(submission, j), sol));
    }
    assert(payload.guesses@.len() == count && payload.evaluations@.len() == count);
    assert(normalized_payload(payload, v, sol, day as int, submission));
    Ok(payload)
}


/// A variant the verification can use: a nonempty answer list, and a
/// display offset that the shown number of any day the clock can accept
/// (at most one past the last day index) does not overflow.
pub open spec fn variant_ok(v: &Variant) -> bool {
    &&& v.answers@.len() > 0
    &&& v.display_offset + (i32::MAX - v.start_day + 1) <= i64::MAX
}

/// The server's own day index for a variant: today's UTC date minus the
/// variant's start date, in days.
pub fn utc_day(v: &Variant) -> (res: i64)
    ensures
        exists|today: i32| res == #[trigger] day_index_of(v, today as int),
        i32::MIN - v.start_day <= res <= i32::MAX - v.start_day,
{
    let today = today_day_number();
    day_index(v, today)
}

/// A variant's day index on the day numbered `today`: the days since its
/// start date.
pub open spec fn day_index_of(v: &Variant, today: int) -> int {
    today - v.start_day
}

/// A variant's day index on the day numbered `today`.
pub fn day_index(v: &Variant, today: i32) -> (res: i64)
    ensures
        res == day_index_of(v, today as int),
{
    today as i64 - v.start_day as i64
}

/// Verify a submission for `game` and `day` against today's answer; on
/// success returns the normalized payload to store.
pub fn verify(variants: &[Variant], game: &str, day: i64, submission: &WoordleSubmission) -> (res:
    Result<WoordlePayload, VerifyError>)
    requires
        forall|i: int| 0 <= i < variants@.len() ==> variant_ok(#[trigger] &variants@[i]),
    ensures
        match first_variant(variants@, game@) {
            None => res matches Err(VerifyError::UnknownGame),
            Some(i) => exists|server_day: i64|
                i32::MIN - variants@[i].start_day <= server_day <= i32::MAX - variants@[i].start_day
                    && #[trigger] verdict(&variants@[i], server_day as int, day as int, submission, res),
        },
{
    let v = match variant(variants, game) {
        Some(v) => v,
        None => return Err(VerifyError::UnknownGame),
    };
    proof {
        lemma_first_variant_found(variants@, game@);
        let i = first_variant(variants@, game@)->0;
        assert(variant_ok(&variants@[i]));
    }
    let server_day = utc_day(v);
    if day < -0x100_0000_0000 || day > 0x100_0000_0000 {
        let res = Err(VerifyError::DayOutOfRange { server_day });
        assert(verdict(v, server_day as int, day as int, submission, res));
        return res;
    }
    let res = verify_for_day(v, server_day, day, submission);
    res
}

/// A guess of the solution's length is all correct exactly when it is the
/// solution.
pub proof fn lemma_all_correct_iff_solved(g: Seq<char>, s: Seq<char>)
    requires
        g.len() == s.len(),
    ensures
        (forall|i: int| 0 <= i < g.len() ==> #[trigger] evaluation(g, s)[i] == Mark::Correct) <==> g
            == s,
{
    if forall|i: int| 0 <= i < g.len() ==> #[trigger] evaluation(g, s)[i] == Mark::Correct {
        assert forall|i: int| 0 <= i < g.len() implies g[i] == s[i] by {
            assert(evaluation(g, s)[i] == Mark::Correct);
        }
        assert(g =~= s);
    }
}

/// The answers repeat: a day and the day one list length later have the
/// same answer.
pub proof fn lemma_solution_wraps(day: int, len: int)
    requires
        len > 0,
    ensures
        wrap_day(day + len, len) == wrap_day(day, len),
        0 <= wrap_day(day, len) < len,
{
    vstd::arithmetic::div_mod::lemma_mod_add_multiples_vanish(day, len);
    assert(len + day == day + len);
}

/// An accepted game is for a day within one of the server's day, has one
/// to six guesses, and is won exactly when its last guess is the answer.
pub proof fn lemma_accepted_game(
    v: &Variant,
    server_day: int,
    day: int,
    submission: &WoordleSubmission,
    p: WoordlePayload,
)
    requires
        verdict(v, server_day, day, submission, Ok(p)),
    ensures
        0 <= day,
        server_day - 1 <= day <= server_day + 1,
        1 <= submission.guesses@.len() <= 6,
        p.won == (lowered(submission, submission.guesses@.len() - 1) == v.answers@[wrap_day(
            day,
            v.answers@.len() as int,
        )]@),
{
}


/// Days are accepted within one of the server's own day, on either side
/// for the time zones: a verdict reports the day out of range exactly when
/// the day is negative or more than one day from the server's.
pub proof fn lemma_day_window(
    v: &Variant,
    server_day: int,
    day: int,
    submission: &WoordleSubmission,
    res: Result<WoordlePayload, VerifyError>,
)
    requires
        verdict(v, server_day, day, submission, res),
    ensures
        (res matches Err(VerifyError::DayOutOfRange { .. })) <==> (day < 0 || day < server_day - 1
            || day > server_day + 1),
{
}


/// When a submission is accepted: the day is at most one from the server's
/// and not negative; one to six guesses, six unless won; every guess,
/// lower-cased, has the answer's length and is an allowed word; the last
/// guess is the answer exactly when the game is claimed won, and no earlier
/// guess is. An accepted game stores its outcome, and its shown number is
/// the day plus the variant's offset.
pub proof fn lemma_accepted(
    v: &Variant,
    server_day: int,
    day: int,
    sub: &WoordleSubmission,
    res: Result<WoordlePayload, VerifyError>,
)
    requires
        verdict(v, server_day, day, sub, res),
    ensures
        ({
            let sol = v.answers@[day % (v.answers@.len() as int)]@;
            let n = sub.guesses@.len() as int;
            &&& (res is Ok) <==> {
                &&& 0 <= day
                &&& server_day - 1 <= day <= server_day + 1
                &&& 1 <= n <= 6
                &&& sub.won || n == 6
                &&& forall|i: int|
                    0 <= i < n ==> #[trigger] lowered(sub, i).len() == sol.len() && listed(
                        v.allowed@,
                        lowered(sub, i),
                    )
                &&& (lowered(sub, n - 1) == sol) == sub.won
                &&& forall|i: int| 0 <= i < n - 1 ==> #[trigger] lowered(sub, i) != sol
            }
            &&& res matches Ok(p) ==> p.won == sub.won && p.display_number == day + v.display_offset
                && p.guesses@.len() == n
        }),
{
    let sol = v.answers@[day % (v.answers@.len() as int)]@;
    let n = sub.guesses@.len() as int;
    let words_ok = forall|i: int|
        0 <= i < n ==> #[trigger] lowered(sub, i).len() == sol.len() && listed(v.allowed@, lowered(sub, i));
    let fresh = forall|i: int| 0 <= i < n - 1 ==> #[trigger] lowered(sub, i) != sol;
    if !day_out_of_range(day, server_day) && !bad_guess_count(sub) {
        if exists|i: int| 0 <= i < n && !#[trigger] word_ok(v, sol, sub, i) {
            let i = choose|i: int| 0 <= i < n && !#[trigger] word_ok(v, sol, sub, i);
            assert(!words_ok) by {
                assert(!(lowered(sub, i).len() == sol.len() && listed(v.allowed@, lowered(sub, i))));
            }
        } else {
            assert(words_ok) by {
                assert forall|i: int| 0 <= i < n implies #[trigger] lowered(sub, i).len() == sol.len()
                    && listed(v.allowed@, lowered(sub, i)) by {
                    assert(word_ok(v, sol, sub, i));
                }
            }
            if exists|i: int| 0 <= i < n - 1 && #[trigger] lowered(sub, i) == sol {
                let i = choose|i: int| 0 <= i < n - 1 && #[trigger] lowered(sub, i) == sol;
                assert(!fresh);
            }
        }
    }
}

} // verus!
