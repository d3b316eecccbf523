use fuzzy_matcher::skim::{SkimMatcherV2, SkimScoreConfig};
use fuzzy_matcher::FuzzyMatcher;
use recipe_search::text::words_of;

/// The characters with the Unicode `White_Space` property, as the library states them.
fn listed_white_space(c: char) -> bool {
    let n = c as u32;
    (0x09..=0x0d).contains(&n)
        || n == 0x20
        || n == 0x85
        || n == 0xa0
        || n == 0x1680
        || (0x2000..=0x200a).contains(&n)
        || n == 0x2028
        || n == 0x2029
        || n == 0x202f
        || n == 0x205f
        || n == 0x3000
}

#[test]
fn is_whitespace_is_the_listed_set() {
    for n in 0u32..=0x10ffff {
        if let Some(c) = char::from_u32(n) {
            assert_eq!(c.is_whitespace(), listed_white_space(c), "U+{:04X}", n);
        }
    }
}

#[test]
fn single_characters_split_as_listed() {
    for c in ['a', ' ', '\u{3000}', '\u{180e}', '\u{200b}', '\u{85}', 'é'].iter() {
        let text = c.to_string();
        assert_eq!(words_of(&text).is_empty(), listed_white_space(*c));
    }
}

#[test]
fn default_score_config_numbers() {
    let d = SkimScoreConfig::default();
    assert_eq!(
        [
            d.score_match,
            d.gap_start,
            d.gap_extension,
            d.bonus_first_char_multiplier,
            d.bonus_head,
            d.bonus_break,
            d.bonus_camel,
            d.bonus_consecutive,
            d.penalty_case_mismatch
        ],
        [16, -3, -1, 2, 8, 7, 6, 4, -2]
    );
}

#[test]
fn skim_scores_exist_for_folded_subsequences() {
    let m = SkimMatcherV2::default().ignore_case();
    assert_eq!(m.fuzzy_match("anything", ""), Some(0));
    assert_eq!(m.fuzzy_match("", ""), Some(0));
    assert!(m.fuzzy_match("axbycz", "abc").is_some());
    assert!(m.fuzzy_match("AXBYCZ", "abc").is_some());
    assert!(m.fuzzy_match("abc", "ABC").is_some());
    assert!(m.fuzzy_match("abc", "abx").is_none());
    assert!(m.fuzzy_match("abc", "cba").is_none());
    assert!(m.fuzzy_match("", "a").is_none());
    // Only ASCII letters are folded.
    assert!(m.fuzzy_match("é", "É").is_none());
    assert!(m.fuzzy_match("é", "é").is_some());
}

#[test]
fn words_keep_every_other_character() {
    for q in ["  a b\tc ", "", "x", "\u{3000}ü\u{a0}ß  "].iter() {
        let joined: String = words_of(q).concat();
        let expected: String = q.chars().filter(|c| !c.is_whitespace()).collect();
        assert_eq!(joined, expected);
        assert!(words_of(q).iter().all(|w| !w.is_empty() && !w.chars().any(char::is_whitespace)));
    }
}

#[test]
fn weights_within_the_bound_do_not_overflow() {
    // 32768 + 1000 + (1000 + 1) * (1000 * 1000 + 2 * 1000) stays below i32::MAX.
    let choice: String = "aB-c d_Ef/gH1 ".repeat(72).chars().take(1000).collect();
    for &w in [1000, -1000].iter() {
        for &m in [1000, -1000].iter() {
            let weights = SkimScoreConfig {
                score_match: w,
                gap_start: -w,
                gap_extension: w,
                bonus_first_char_multiplier: m,
                bonus_head: w,
                bonus_break: -w,
                bonus_camel: w,
                bonus_consecutive: w,
                penalty_case_mismatch: -w,
            };
            let matcher = SkimMatcherV2::default().ignore_case().score_config(weights);
            for pattern in ["a", "abc", "ABCDEFGH", "a1 a1 a1", "bcdefgh"].iter() {
                if let Some(s) = matcher.fuzzy_match(&choice, pattern) {
                    assert!(s >= i32::MIN as i64 && s <= i32::MAX as i64);
                }
            }
        }
    }
}
