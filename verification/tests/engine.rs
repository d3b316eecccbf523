use fuzzy_matcher::skim::SkimMatcherV2;
use fuzzy_matcher::FuzzyMatcher;
use recipe_search::keyed::{StrMap, TermSet};
use recipe_search::matcher::{matcher_fits_len, matches_well, ScoreConfig};
use recipe_search::search::{
    resolve_weights, Article, Config, Filters, Items, Pages, Search, SearchEngin, SkimConfig, Taxonomies,
    TaxonomyCategory, TermEntries, TermEntry,
};
use recipe_search::text::words_of;

fn category(name: &str, terms: &[&str]) -> TaxonomyCategory {
    TaxonomyCategory {
        name: name.to_string(),
        terms: TermEntries {
            item: terms
                .iter()
                .map(|t| TermEntry { name: t.to_string(), link: format!("/{}/{}", name, t) })
                .collect(),
        },
    }
}

fn article(title: &str, summary: &str, taxonomies: &[(&str, &[&str])]) -> Article {
    let mut tax = StrMap::new();
    for (name, items) in taxonomies {
        tax.insert(name.to_string(), Items { item: items.iter().map(|s| s.to_string()).collect() });
    }
    let mut fields = StrMap::new();
    fields.insert("title".to_string(), title.to_string());
    fields.insert("summary".to_string(), summary.to_string());
    Article { taxonomies: tax, fields }
}

fn title(a: &Article) -> String {
    a.fields.get("title").unwrap().clone()
}

fn feed() -> Search {
    Search {
        taxonomies: Taxonomies {
            item: vec![category("season", &["summer", "winter"]), category("tool", &["oven", "blender"])],
        },
        pages: Pages {
            item: vec![
                article("Tomato soup", "A blended red soup", &[("season", &["summer"]), ("tool", &["blender"])]),
                article("Winter stew", "Beans baked for hours", &[("season", &["winter"]), ("tool", &["oven"])]),
                article("Summer salad", "Crisp greens", &[("season", &["summer"])]),
            ],
        },
    }
}

fn config(fields: &[&str]) -> Config {
    Config {
        feed_url: "search.xml".to_string(),
        match_fields: fields.iter().map(|s| s.to_string()).collect(),
        skim: SkimConfig::default(),
    }
}

fn engine() -> SearchEngin {
    SearchEngin::new(&config(&["title", "summary"]), feed())
}

fn default_weights() -> ScoreConfig {
    ScoreConfig {
        score_match: 16,
        gap_start: -3,
        gap_extension: -1,
        bonus_first_char_multiplier: 2,
        bonus_head: 8,
        bonus_break: 7,
        bonus_camel: 6,
        bonus_consecutive: 4,
        penalty_case_mismatch: -2,
    }
}

fn filters(pairs: &[(&str, &str)]) -> Filters {
    let mut f: Filters = StrMap::new();
    for (k, t) in pairs {
        f.add_term(k.to_string(), t.to_string());
    }
    f
}

#[test]
fn unset_weights_take_matcher_defaults() {
    assert_eq!(resolve_weights(&SkimConfig::default()), default_weights());
    assert_eq!(engine().matcher, default_weights());
}

#[test]
fn set_weights_override_defaults() {
    let mut skim = SkimConfig::default();
    skim.score_match = Some(20);
    skim.penalty_case_mismatch = Some(0);
    let w = resolve_weights(&skim);
    assert_eq!(w.score_match, 20);
    assert_eq!(w.penalty_case_mismatch, 0);
    assert_eq!(w.gap_start, -3);
    assert_eq!(w.bonus_consecutive, 4);
}

#[test]
fn tokenize_splits_on_any_white_space() {
    let e = engine();
    assert_eq!(e.tokenize("  summer\tsoup \n quick  "), vec!["summer", "soup", "quick"]);
    assert_eq!(e.tokenize("one\u{3000}two\u{a0}three"), vec!["one", "two", "three"]);
    assert!(e.tokenize("").is_empty());
    assert!(e.tokenize(" \t\n").is_empty());
    assert_eq!(words_of("ab"), vec!["ab"]);
}

#[test]
fn tokenize_agrees_with_split_whitespace() {
    let queries = ["a b", "  x", "y  ", "tab\tbed", "ünïcode wörds", "\u{2003}em\u{2003}space", "no-space"];
    for q in queries.iter() {
        let expected: Vec<String> = q.split_whitespace().map(String::from).collect();
        assert_eq!(words_of(q), expected);
    }
}

#[test]
fn well_matched_needs_positive_score() {
    let w = default_weights();
    assert!(matches_well(&w, "Tomato soup", "soup"));
    assert!(matches_well(&w, "Tomato soup", "SOUP"));
    assert!(!matches_well(&w, "Tomato soup", "stew"));
    assert!(!matches_well(&w, "Tomato soup", ""));
}

#[test]
fn fuzzy_search_keeps_matching_terms() {
    let e = engine();
    let mut terms = TermSet::new();
    assert!(terms.insert("summer".to_string()));
    assert!(terms.insert("winter".to_string()));
    assert!(!terms.insert("summer".to_string()));
    let found = e.fuzzy_search("sum", &terms);
    assert_eq!(found, vec!["summer"]);
    let none = e.fuzzy_search("xyz", &terms);
    assert!(none.is_empty());
}

#[test]
fn detect_filters_moves_term_words_to_filters() {
    let e = engine();
    let tokens = e.tokenize("summer soup");
    let (f, rest) = e.detect_filters(&tokens);
    assert_eq!(rest, vec!["soup"]);
    let season = f.get("season").unwrap();
    assert!(season.contains("summer"));
    assert!(!season.contains("winter"));
    assert!(f.get("tool").is_none());
}

#[test]
fn detect_filters_without_term_words() {
    let e = engine();
    let tokens = e.tokenize("soup");
    let (f, rest) = e.detect_filters(&tokens);
    assert!(f.entries.is_empty());
    assert_eq!(rest, vec!["soup"]);
    let (f2, rest2) = e.detect_filters(&[]);
    assert!(f2.entries.is_empty());
    assert!(rest2.is_empty());
}

#[test]
fn later_taxonomy_of_same_name_wins() {
    let mut index = feed();
    index.taxonomies.item.push(category("season", &["autumn"]));
    let e = SearchEngin::new(&config(&["title"]), index);
    let known = e.known_filters();
    let season = known.get("season").unwrap();
    assert!(season.contains("autumn"));
    assert!(!season.contains("summer"));
}

#[test]
fn rank_weights_title_ten_times() {
    let e = SearchEngin::new(&config(&["title", "summary"]), feed());
    let m = SkimMatcherV2::default().ignore_case();
    let a = article("Tomato soup", "nothing here", &[]);
    let s = m.fuzzy_match("Tomato soup", "soup").unwrap();
    assert!(s > 0);
    assert!(m.fuzzy_match("nothing here", "soup").is_none());
    assert_eq!(e.rank(&a, &["soup".to_string()]), ((s + 1) * 10) as u32);

    let b = article("nothing here", "Tomato soup", &[]);
    assert_eq!(e.rank(&b, &["soup".to_string()]), (s + 1) as u32);
    assert_eq!(e.rank(&b, &[]), 0);
}

#[test]
fn rank_adds_up_over_words_and_fields() {
    let e = engine();
    let m = SkimMatcherV2::default().ignore_case();
    let a = article("Tomato soup", "A blended red soup", &[]);
    let mut expected: i64 = 0;
    for w in ["soup", "red"].iter() {
        for (field, weight) in [("Tomato soup", 10), ("A blended red soup", 1)].iter() {
            if let Some(s) = m.fuzzy_match(field, w) {
                if s > 0 {
                    expected += (s + 1) * weight;
                }
            }
        }
    }
    assert_eq!(e.rank(&a, &["soup".to_string(), "red".to_string()]) as i64, expected);
}

#[test]
fn article_filters_and_has_all_filters() {
    let a = article("Tomato soup", "", &[("season", &["summer", "summer"]), ("tool", &["blender"])]);
    let f = a.filters();
    assert!(f.get("season").unwrap().contains("summer"));
    assert_eq!(f.get("season").unwrap().terms.len(), 1);
    assert!(a.has_all_filters(&filters(&[])));
    assert!(a.has_all_filters(&filters(&[("season", "summer")])));
    assert!(a.has_all_filters(&filters(&[("season", "winter"), ("season", "summer")])));
    assert!(!a.has_all_filters(&filters(&[("season", "winter")])));
    assert!(!a.has_all_filters(&filters(&[("season", "summer"), ("diet", "vegan")])));
    assert!(!a.has_all_filters(&filters(&[("tool", "oven")])));
}

#[test]
fn search_ranks_and_filters() {
    let e = engine();
    let found = e.search(&["soup".to_string()], &filters(&[("season", "summer")]));
    let titles: Vec<String> = found.iter().map(title).collect();
    assert_eq!(titles, vec!["Tomato soup"]);

    let oven = e.search(&[], &filters(&[("tool", "oven")]));
    assert_eq!(oven.iter().map(title).collect::<Vec<_>>(), vec!["Winter stew"]);

    let nothing = e.search(&["zzzz".to_string()], &filters(&[]));
    assert!(nothing.is_empty());
}

#[test]
fn empty_query_lists_whole_feed_in_order() {
    let e = engine();
    let found = e.search_articles("");
    assert_eq!(
        found.iter().map(title).collect::<Vec<_>>(),
        vec!["Tomato soup", "Winter stew", "Summer salad"]
    );
    let again = e.search(&[], &filters(&[]));
    assert_eq!(again.len(), 3);
}

#[test]
fn search_articles_uses_detected_filters() {
    let e = engine();
    let found = e.search_articles("summer soup");
    assert_eq!(found.iter().map(title).collect::<Vec<_>>(), vec!["Tomato soup"]);
    let summer = e.search_articles("summer");
    assert_eq!(summer.iter().map(title).collect::<Vec<_>>(), vec!["Tomato soup", "Summer salad"]);
}

#[test]
fn search_with_filters_keeps_every_word_for_ranking() {
    let e = engine();
    let found = e.search_with_filters("summer", &filters(&[]));
    // "summer" is ranked here, not turned into a filter.
    assert!(found.iter().any(|a| title(a) == "Summer salad"));
    assert!(found.iter().all(|a| title(a) != "Winter stew"));
}

#[test]
fn higher_rank_comes_first_and_ties_keep_feed_order() {
    let index = Search {
        taxonomies: Taxonomies { item: vec![] },
        pages: Pages {
            item: vec![
                article("plain", "soup", &[]),
                article("soup", "plain", &[]),
                article("other", "soup", &[]),
            ],
        },
    };
    let e = SearchEngin::new(&config(&["title", "summary"]), index);
    let found = e.search(&["soup".to_string()], &filters(&[]));
    assert_eq!(found.iter().map(title).collect::<Vec<_>>(), vec!["soup", "plain", "other"]);
}

#[test]
fn duplicate_copies_article() {
    let a = article("Tomato soup", "red", &[("season", &["summer"])]);
    let b = a.duplicate();
    assert_eq!(title(&b), "Tomato soup");
    assert_eq!(b.fields.get("summary").unwrap(), "red");
    assert_eq!(b.taxonomies.get("season").unwrap().item, vec!["summer"]);
}

#[test]
fn str_map_insert_replaces() {
    let mut m: StrMap<u32> = StrMap::new();
    m.insert("a".to_string(), 1);
    m.insert("b".to_string(), 2);
    m.insert("a".to_string(), 3);
    assert_eq!(m.get("a"), Some(&3));
    assert_eq!(m.get("b"), Some(&2));
    assert_eq!(m.get("c"), None);
    assert_eq!(m.entries.len(), 2);
    assert_eq!(m.position("b"), Some(1));
}

#[test]
fn shadowed_entries_are_overridden() {
    let m = StrMap { entries: vec![("a".to_string(), 1u32), ("b".to_string(), 2), ("a".to_string(), 5)] };
    assert!(m.is_shadowed(0));
    assert!(!m.is_shadowed(1));
    assert!(!m.is_shadowed(2));
    assert_eq!(m.get("a"), Some(&5));
}

#[test]
fn dropping_a_filter_keeps_an_article() {
    let a = article("Tomato soup", "", &[("season", &["summer"]), ("tool", &["blender"])]);
    assert!(a.has_all_filters(&filters(&[("season", "summer"), ("tool", "blender")])));
    assert!(a.has_all_filters(&filters(&[("season", "summer")])));
    assert!(a.has_all_filters(&filters(&[("tool", "blender")])));
}

#[test]
fn same_query_same_results() {
    let e = engine();
    let first: Vec<String> = e.search_articles("soup").iter().map(title).collect();
    let second: Vec<String> = e.search_articles("soup").iter().map(title).collect();
    assert_eq!(first, second);
    assert!(!first.is_empty());
}

#[test]
fn ranks_never_increase_along_results() {
    let e = engine();
    let words = vec!["s".to_string()];
    let found = e.search(&words, &filters(&[]));
    let ranks: Vec<u32> = found.iter().map(|a| e.rank(a, &words)).collect();
    assert!(ranks.windows(2).all(|w| w[0] >= w[1]));
    assert!(ranks.iter().all(|r| *r > 0));
}

/// The bound under which the matcher's arithmetic stays within `i32`,
/// computed in wide integers.
fn expected_fit(c: &ScoreConfig, len: usize) -> bool {
    let w = [
        c.score_match,
        c.gap_start,
        c.gap_extension,
        c.bonus_first_char_multiplier,
        c.bonus_head,
        c.bonus_break,
        c.bonus_camel,
        c.bonus_consecutive,
        c.penalty_case_mismatch,
    ]
    .iter()
    .map(|x| (*x as i128).abs())
    .max()
    .unwrap();
    32768 + w + (len as i128 + 1) * (w * w + 2 * w) <= i32::MAX as i128
}

#[test]
fn limits_of_the_matcher() {
    let d = default_weights();
    assert!(matcher_fits_len(&d, 0));
    assert!(matcher_fits_len(&d, 200_000));
    let mut heavy = d;
    heavy.score_match = 100;
    assert!(matcher_fits_len(&heavy, 6));
    assert!(matcher_fits_len(&heavy, 200_000));
    let mut huge = d;
    huge.bonus_first_char_multiplier = i32::MAX;
    assert!(!matcher_fits_len(&huge, 0));
    huge.bonus_first_char_multiplier = i32::MIN;
    assert!(!matcher_fits_len(&huge, 1));
    assert!(!matcher_fits_len(&d, usize::MAX));
    for &w in [0, 1, 16, 100, 1000, 46_000, -46_341, i32::MIN].iter() {
        for &len in [0usize, 1, 5, 1000, 100_000, 7_400_000, 7_500_000, usize::MAX].iter() {
            let mut c = d;
            c.gap_start = w;
            assert_eq!(matcher_fits_len(&c, len), expected_fit(&c, len), "weight {} length {}", w, len);
        }
    }
    assert!(matches_well(&heavy, "tomato", "tom"));
}

#[test]
fn heavy_weights_search_like_any_other() {
    let mut skim = SkimConfig::default();
    skim.score_match = Some(100);
    let e = SearchEngin::new(&Config { skim, ..config(&["title", "summary"]) }, feed());
    assert!(e.terms_fit());
    let found: Vec<String> = e.try_search_articles("soup").unwrap().iter().map(title).collect();
    assert_eq!(found, vec!["Tomato soup"]);
}

#[test]
fn overflowing_weights_give_no_results() {
    let mut skim = SkimConfig::default();
    skim.bonus_first_char_multiplier = Some(i32::MAX);
    let e = SearchEngin::new(&Config { skim, ..config(&["title", "summary"]) }, feed());
    assert!(!e.terms_fit());
    assert!(e.try_search_articles("soup").is_none());
    assert!(e.try_search_with_filters("soup", &filters(&[])).is_none());
    // Without words nothing is matched, so nothing overflows.
    assert_eq!(e.try_search_articles("").unwrap().len(), 3);
    assert_eq!(e.try_search_with_filters("", &filters(&[])).unwrap().len(), 3);
}

#[test]
fn points_beyond_u32_give_no_results() {
    let mut skim = SkimConfig::default();
    for w in [
        &mut skim.score_match,
        &mut skim.bonus_first_char_multiplier,
        &mut skim.bonus_head,
        &mut skim.bonus_consecutive,
    ] {
        *w = Some(23168);
    }
    // The first letter's bonus alone is 23168 * 23168, so ten times the
    // score passes the largest u32, while the matcher stays within i32.
    let long = "aaa".to_string();
    let index = Search {
        taxonomies: Taxonomies { item: vec![] },
        pages: Pages { item: vec![article("ab", "", &[("season", &["summer"])]), article(&long, "", &[])] },
    };
    let e = SearchEngin::new(&Config { skim, ..config(&["title"]) }, index);
    let s = SkimMatcherV2::default()
        .ignore_case()
        .score_config(fuzzy_matcher::skim::SkimScoreConfig {
            score_match: 23168,
            gap_start: -3,
            gap_extension: -1,
            bonus_first_char_multiplier: 23168,
            bonus_head: 23168,
            bonus_break: 7,
            bonus_camel: 6,
            bonus_consecutive: 23168,
            penalty_case_mismatch: -2,
        })
        .fuzzy_match(&long, &long)
        .unwrap();
    assert!((s + 1) * 10 > u32::MAX as i64);
    assert!(matcher_fits_len(&e.matcher, 3));
    assert!(e.terms_fit());
    assert!(!e.rank_fits_for(&e.index.pages.item[1], &[long.clone()]));
    assert!(e.rank_fits_for(&e.index.pages.item[0], &[long.clone()]));
    assert!(e.try_search_articles(&long).is_none());
    assert!(e.try_search_with_filters(&long, &filters(&[])).is_none());
    // An article that the filters turn away is not ranked.
    assert!(e.try_search_with_filters(&long, &filters(&[("season", "summer")])).is_some());
}

#[test]
fn fuzzy_search_returns_each_term_once() {
    let e = engine();
    let mut terms = TermSet::new();
    for t in ["summer", "summit", "winter", "summer"].iter() {
        terms.insert(t.to_string());
    }
    assert_eq!(terms.terms.len(), 3);
    let mut found = e.fuzzy_search("sum", &terms);
    found.sort();
    assert_eq!(found, vec!["summer", "summit"]);
}

fn untitled_feed() -> Search {
    let mut feed = feed();
    let mut fields = StrMap::new();
    fields.insert("summary".to_string(), "A quick oven bake".to_string());
    let mut tax = StrMap::new();
    tax.insert("tool".to_string(), Items { item: vec!["oven".to_string()] });
    feed.pages.item.push(Article { taxonomies: tax, fields });
    feed
}

#[test]
fn titled_under_finds_filtered_articles_without_title() {
    let e = SearchEngin::new(&config(&["title", "summary"]), untitled_feed());
    assert!(!e.titled_under(&filters(&[])));
    assert!(!e.titled_under(&filters(&[("tool", "oven")])));
    assert!(e.titled_under(&filters(&[("season", "summer")])));
    assert!(engine().titled_under(&filters(&[])));
}

#[test]
fn try_search_articles_refuses_only_where_an_untitled_article_passes() {
    let e = SearchEngin::new(&config(&["title", "summary"]), untitled_feed());
    assert!(e.try_search_articles("soup").is_none());
    assert!(e.try_search_articles("oven").is_none());
    let summer: Vec<String> = e.try_search_articles("summer").unwrap().iter().map(title).collect();
    assert_eq!(summer, vec!["Tomato soup", "Summer salad"]);
    let plain = engine();
    let a: Vec<String> = plain.try_search_articles("soup").unwrap().iter().map(title).collect();
    let b: Vec<String> = plain.search_articles("soup").iter().map(title).collect();
    assert_eq!(a, b);
}

/// The filters as sorted sets of terms per taxonomy.
fn as_sets(f: &Filters) -> std::collections::BTreeMap<String, std::collections::BTreeSet<String>> {
    let mut m = std::collections::BTreeMap::new();
    for (k, _) in f.entries.iter() {
        let terms = f.get(k).unwrap();
        m.insert(k.clone(), terms.terms.iter().cloned().collect());
    }
    m
}

#[test]
fn detection_of_joined_words_puts_the_parts_together() {
    let e = engine();
    let a = e.tokenize("summer soup");
    let b = e.tokenize("oven winter stew");
    let (fa, ra) = e.detect_filters(&a);
    let (fb, rb) = e.detect_filters(&b);
    let both: Vec<String> = a.iter().chain(b.iter()).cloned().collect();
    let (f, r) = e.detect_filters(&both);
    let mut expected = as_sets(&fa);
    for (k, ts) in as_sets(&fb) {
        expected.entry(k).or_default().extend(ts);
    }
    assert_eq!(as_sets(&f), expected);
    assert_eq!(r, [ra, rb].concat());
    assert_eq!(r, vec!["soup", "stew"]);
}

#[test]
fn words_joined_by_spaces_split_back() {
    let ws = vec!["tomato".to_string(), "soupé".to_string(), "x".to_string()];
    assert_eq!(words_of(&ws.join(" ")), ws);
    assert!(words_of(&Vec::<String>::new().join(" ")).is_empty());
    assert_eq!(words_of("one"), vec!["one"]);
}

#[test]
fn weaker_filters_keep_an_article() {
    let a = article("Tomato soup", "", &[("season", &["summer"]), ("tool", &["blender"])]);
    let strong = filters(&[("season", "summer"), ("tool", "blender")]);
    let weak = filters(&[("season", "summer"), ("season", "winter")]);
    assert!(a.has_all_filters(&strong));
    assert!(a.has_all_filters(&weak));
    assert!(a.has_all_filters(&filters(&[])));
    assert!(!a.has_all_filters(&filters(&[("season", "winter")])));
}
