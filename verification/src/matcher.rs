use fuzzy_matcher::skim::{SkimMatcherV2, SkimScoreConfig};
use fuzzy_matcher::FuzzyMatcher;
use vstd::prelude::*;

verus! {

/// The weights of the skim fuzzy-matching algorithm.
#[derive(Clone, Copy, Debug, PartialEq, Eq, Structural)]
pub struct ScoreConfig {
    pub score_match: i32,
    pub gap_start: i32,
    pub gap_extension: i32,
    pub bonus_first_char_multiplier: i32,
    pub bonus_head: i32,
    pub bonus_break: i32,
    pub bonus_camel: i32,
    pub bonus_consecutive: i32,
    pub penalty_case_mismatch: i32,
}

/// The score that the case-insensitive skim matcher, set up with `config`,
/// gives to `pattern` inside `choice`; `None` when it does not match.
pub uninterp spec fn skim_score(config: ScoreConfig, choice: Seq<char>, pattern: Seq<char>) -> Option<i64>;

/// ASCII upper-case letters folded to lower case; every other character as is.
pub open spec fn ascii_fold(c: char) -> int {
    let n = c as u32 as int;
    if 0x41 <= n <= 0x5a {
        n + 0x20
    } else {
        n
    }
}

/// `pattern` can be read in `choice` from left to right, letter case of
/// ASCII letters ignored.
pub open spec fn folded_subsequence(pattern: Seq<char>, choice: Seq<char>) -> bool {
    exists|pos: Seq<int>|
        #![trigger pos.len()]
        pos.len() == pattern.len()
        && (forall|i: int| 0 <= i < pos.len() ==> 0 <= #[trigger] pos[i] < choice.len())
        && (forall|i: int, j: int| 0 <= i < j < pos.len() ==> pos[i] < pos[j])
        && (forall|i: int| 0 <= i < pos.len() ==> ascii_fold(#[trigger] choice[pos[i]]) == ascii_fold(pattern[i]))
}

/// The absolute value of a weight.
pub open spec fn magnitude(w: i32) -> int {
    if w < 0 {
        -w
    } else {
        w as int
    }
}

/// The larger of two numbers.
pub open spec fn larger(a: int, b: int) -> int {
    if a < b {
        b
    } else {
        a
    }
}

/// The largest absolute value among the weights.
pub open spec fn max_weight(c: ScoreConfig) -> int {
    larger(
        larger(
            larger(magnitude(c.score_match), magnitude(c.gap_start)),
            larger(magnitude(c.gap_extension), magnitude(c.bonus_first_char_multiplier)),
        ),
        larger(
            larger(magnitude(c.bonus_head), magnitude(c.bonus_break)),
            larger(
                larger(magnitude(c.bonus_camel), magnitude(c.bonus_consecutive)),
                magnitude(c.penalty_case_mismatch),
            ),
        ),
    )
}

/// The matcher's `i32` arithmetic cannot overflow on a choice of `len`
/// characters: its score matrix starts at `-32768` and at most the weight
/// bound `w`, and each column moves a cell by at most `w * w + 2 * w`.
pub open spec fn matcher_fits(c: ScoreConfig, len: int) -> bool {
    let w = max_weight(c);
    32768 + w + (len + 1) * (w * w + 2 * w) <= i32::MAX
}

fn magnitude_of(w: i32) -> (m: u128)
    ensures
        m == magnitude(w),
{
    if w < 0 {
        (-(w as i64)) as u128
    } else {
        w as u128
    }
}

fn larger_of(a: u128, b: u128) -> (m: u128)
    ensures
        m == larger(a as int, b as int),
{
    if a < b {
        b
    } else {
        a
    }
}

/// Whether the matcher's arithmetic stays within `i32` on a choice of `len`
/// characters.
pub fn matcher_fits_len(c: &ScoreConfig, len: usize) -> (r: bool)
    ensures
        r == matcher_fits(*c, len as int),
{
    let w = larger_of(
        larger_of(
            larger_of(magnitude_of(c.score_match), magnitude_of(c.gap_start)),
            larger_of(magnitude_of(c.gap_extension), magnitude_of(c.bonus_first_char_multiplier)),
        ),
        larger_of(
            larger_of(magnitude_of(c.bonus_head), magnitude_of(c.bonus_break)),
            larger_of(
                larger_of(magnitude_of(c.bonus_camel), magnitude_of(c.bonus_consecutive)),
                magnitude_of(c.penalty_case_mismatch),
            ),
        ),
    );
    assert(w == max_weight(*c));
    assert(w <= 0x8000_0000);
    assert(w * w <= 0x4000_0000_0000_0000) by (nonlinear_arith)
        requires
            w <= 0x8000_0000,
    ;
    let d: u128 = w * w + 2 * w;
    let l: u128 = len as u128 + 1;
    assert(l * d <= 0x1_0000_0000_0000_0000 * 0x4000_0001_0000_0000) by (nonlinear_arith)
        requires
            l <= 0x1_0000_0000_0000_0000,
            d <= 0x4000_0001_0000_0000,
    ;
    let total: u128 = 32768 + w + l * d;
    total <= 0x7fff_ffff
}

/// Calls `SkimScoreConfig::default()`, whose source fixes these numbers.
#[verifier::external_body]
pub(crate) fn skim_default_config() -> (c: ScoreConfig)
    ensures
        c == (ScoreConfig {
            score_match: 16,
            gap_start: -3i32,
            gap_extension: -1i32,
            bonus_first_char_multiplier: 2,
            bonus_head: 8,
            bonus_break: 7,
            bonus_camel: 6,
            bonus_consecutive: 4,
            penalty_case_mismatch: -2i32,
        }),
{
    let d = SkimScoreConfig::default();
    ScoreConfig {
        score_match: d.score_match,
        gap_start: d.gap_start,
        gap_extension: d.gap_extension,
        bonus_first_char_multiplier: d.bonus_first_char_multiplier,
        bonus_head: d.bonus_head,
        bonus_break: d.bonus_break,
        bonus_camel: d.bonus_camel,
        bonus_consecutive: d.bonus_consecutive,
        penalty_case_mismatch: d.penalty_case_mismatch,
    }
}

/// Calls `FuzzyMatcher::fuzzy_match` of `SkimMatcherV2::default().ignore_case()`
/// set up with `config`. The result is named by `skim_score`; the crate's source
/// shows that an empty pattern scores `Some(0)`, that a score exists exactly
/// when the pattern is an ASCII-case-folded subsequence of the choice, and that
/// scores are computed in `i32`. The crate adds and multiplies weights in `i32`
/// and overflows outside `matcher_fits`: its first-character bonus is a weight
/// times a weight, and each cell of its score matrix comes from cells of the
/// column before by adding at most a weight squared plus twice a weight, from
/// a start of `-32768` or a weight.
#[verifier::external_body]
pub(crate) fn skim_match(config: &ScoreConfig, choice: &str, pattern: &str) -> (r: Option<i64>)
    requires
        matcher_fits(*config, choice@.len() as int),
    ensures
        r == skim_score(*config, choice@, pattern@),
        pattern@.len() == 0 ==> r == Some(0i64),
        r is Some <==> folded_subsequence(pattern@, choice@),
        r matches Some(s) ==> i32::MIN <= s <= i32::MAX,
{
    let weights = SkimScoreConfig {
        score_match: config.score_match,
        gap_start: config.gap_start,
        gap_extension: config.gap_extension,
        bonus_first_char_multiplier: config.bonus_first_char_multiplier,
        bonus_head: config.bonus_head,
        bonus_break: config.bonus_break,
        bonus_camel: config.bonus_camel,
        bonus_consecutive: config.bonus_consecutive,
        penalty_case_mismatch: config.penalty_case_mismatch,
    };
    SkimMatcherV2::default().ignore_case().score_config(weights).fuzzy_match(choice, pattern)
}

/// A match that counts: the matcher scores `pattern` in `choice` above zero.
pub open spec fn good_match(config: ScoreConfig, choice: Seq<char>, pattern: Seq<char>) -> bool {
    match skim_score(config, choice, pattern) {
        Some(s) => s > 0,
        None => false,
    }
}

/// Whether `pattern` matches `choice` with a positive score.
pub fn matches_well(config: &ScoreConfig, choice: &str, pattern: &str) -> (r: bool)
    requires
        matcher_fits(*config, choice@.len() as int),
    ensures
        r == good_match(*config, choice@, pattern@),
{
    match skim_match(config, choice, pattern) {
        Some(s) => s > 0,
        None => false,
    }
}

} // verus!
