use vstd::prelude::*;
use crate::search::{SearchEngin, Article, SkimConfig, passes, article_sets, total_points, texts, capped, lemma_total_points_nonneg, resolved_weights, default_weights, unmatched, hits};
use crate::search::{detected, picked, has_pair};
use crate::ui::{selectors_of, colon_split, checkbox_selector_text};
use crate::matcher::{ScoreConfig, good_match};
use crate::text::{is_white_space, split_state, words};

verus! {

/// Two sequences that hold the same elements, each ordered by the same
/// asymmetric relation, are equal.
pub proof fn lemma_sorted_unique(o1: Seq<int>, o2: Seq<int>, before: spec_fn(int, int) -> bool)
    requires
        forall|a: int, b: int| #[trigger] before(a, b) ==> !before(b, a),
        forall|x: int| o1.contains(x) <==> o2.contains(x),
        forall|a: int, b: int| 0 <= a < b < o1.len() ==> before(#[trigger] o1[a], #[trigger] o1[b]),
        forall|a: int, b: int| 0 <= a < b < o2.len() ==> before(#[trigger] o2[a], #[trigger] o2[b]),
    ensures
        o1 == o2,
    decreases o1.len(),
{
    if o1.len() == 0 {
        if o2.len() > 0 {
            assert(o2.contains(o2[0]));
            assert(o1.contains(o2[0]));
            assert(false);
        }
        assert(o1 =~= o2);
    } else {
        assert(o1.contains(o1[0]));
        assert(o2.contains(o1[0]));
        assert(o2.contains(o2[0]));
        assert(o1.contains(o2[0]));
        let i = choose|i: int| 0 <= i < o2.len() && o2[i] == o1[0];
        let j = choose|j: int| 0 <= j < o1.len() && o1[j] == o2[0];
        if i > 0 && j > 0 {
            assert(before(o2[0], o2[i]));
            assert(before(o1[0], o1[j]));
        }
        if i > 0 && j == 0 {
            assert(before(o2[0], o2[i]));
        }
        assert(o1[0] == o2[0]);
        let r1 = o1.drop_first();
        let r2 = o2.drop_first();
        assert forall|x: int| r1.contains(x) <==> r2.contains(x) by {
            if r1.contains(x) {
                let a = choose|a: int| 0 <= a < r1.len() && r1[a] == x;
                assert(o1[a + 1] == x);
                assert(before(o1[0], o1[a + 1]));
                assert(o2.contains(x));
                let b = choose|b: int| 0 <= b < o2.len() && o2[b] == x;
                assert(b != 0);
                assert(r2[b - 1] == x);
            }
            if r2.contains(x) {
                let a = choose|a: int| 0 <= a < r2.len() && r2[a] == x;
                assert(o2[a + 1] == x);
                assert(before(o2[0], o2[a + 1]));
                assert(o1.contains(x));
                let b = choose|b: int| 0 <= b < o1.len() && o1[b] == x;
                assert(b != 0);
                assert(r1[b - 1] == x);
            }
        }
        assert forall|a: int, b: int| 0 <= a < b < r1.len() implies before(#[trigger] r1[a], #[trigger] r1[b]) by {
            assert(before(o1[a + 1], o1[b + 1]));
        }
        assert forall|a: int, b: int| 0 <= a < b < r2.len() implies before(#[trigger] r2[a], #[trigger] r2[b]) by {
            assert(before(o2[a + 1], o2[b + 1]));
        }
        lemma_sorted_unique(r1, r2, before);
        assert(o1.len() == o2.len());
        assert forall|k: int| 0 <= k < o1.len() implies o1[k] == o2[k] by {
            if k > 0 {
                assert(o1[k] == r1[k - 1]);
                assert(o2[k] == r2[k - 1]);
            }
        }
        assert(o1 =~= o2);
    }
}

/// The order of the results is determined: two rankings for the same words
/// and filters are the same sequence.
pub proof fn law_ranking_is_unique(
    engine: SearchEngin,
    words: Seq<Seq<char>>,
    filters: Map<Seq<char>, Set<Seq<char>>>,
    o1: Seq<int>,
    o2: Seq<int>,
)
    requires
        engine.is_ranking(words, filters, o1),
        engine.is_ranking(words, filters, o2),
    ensures
        o1 == o2,
{
    let before = |a: int, b: int| engine.comes_before(words, a, b);
    assert forall|x: int| o1.contains(x) <==> o2.contains(x) by {
        if o1.contains(x) {
            let k = choose|k: int| 0 <= k < o1.len() && o1[k] == x;
            assert(engine.kept(words, filters, o1[k]));
        }
        if o2.contains(x) {
            let k = choose|k: int| 0 <= k < o2.len() && o2[k] == x;
            assert(engine.kept(words, filters, o2[k]));
        }
    }
    assert forall|a: int, b: int| 0 <= a < b < o1.len() implies before(#[trigger] o1[a], #[trigger] o1[b]) by {
        assert(engine.comes_before(words, o1[a], o1[b]));
    }
    assert forall|a: int, b: int| 0 <= a < b < o2.len() implies before(#[trigger] o2[a], #[trigger] o2[b]) by {
        assert(engine.comes_before(words, o2[a], o2[b]));
    }
    lemma_sorted_unique(o1, o2, before);
}

/// Along a ranking, ranks never increase.
pub proof fn law_ranks_never_increase(
    engine: SearchEngin,
    words: Seq<Seq<char>>,
    filters: Map<Seq<char>, Set<Seq<char>>>,
    order: Seq<int>,
    a: int,
    b: int,
)
    requires
        engine.is_ranking(words, filters, order),
        0 <= a < b < order.len(),
    ensures
        engine.rank_of(engine.index.pages.item@[order[a]], words) >= engine.rank_of(engine.index.pages.item@[order[b]], words),
{
    assert(engine.comes_before(words, order[a], order[b]));
}

/// A query with no words under no filters lists the whole feed, in feed order.
pub proof fn law_empty_query_lists_feed(engine: SearchEngin, order: Seq<int>)
    requires
        engine.is_ranking(Seq::empty(), Map::empty(), order),
    ensures
        order == Seq::new(engine.index.pages.item@.len(), |i: int| i),
{
    let n = engine.index.pages.item@.len();
    let ws = Seq::<Seq<char>>::empty();
    let fs = Map::<Seq<char>, Set<Seq<char>>>::empty();
    let all = Seq::new(n, |i: int| i);
    assert forall|i: int| 0 <= i < n implies #[trigger] engine.kept(ws, fs, i) by {
        assert(passes(article_sets(engine.index.pages.item@[i]), fs));
    }
    assert forall|i: int, j: int| 0 <= i < n && 0 <= j < n implies
        (#[trigger] engine.comes_before(ws, i, j) <==> i < j) by {
        assert(total_points(engine.matcher, engine.index.pages.item@[i].fields@, texts(engine.match_fields@), ws) == 0);
        assert(total_points(engine.matcher, engine.index.pages.item@[j].fields@, texts(engine.match_fields@), ws) == 0);
    }
    assert(engine.is_ranking(ws, fs, all)) by {
        assert forall|i: int| 0 <= i < n && #[trigger] engine.kept(ws, fs, i) implies all.contains(i) by {
            assert(all[i] == i);
        }
        assert forall|a: int, b: int| 0 <= a < b < all.len() implies engine.comes_before(ws, #[trigger] all[a], #[trigger] all[b]) by {
        }
    }
    law_ranking_is_unique(engine, ws, fs, order, all);
}

/// Dropping a filter never turns an article away.
pub proof fn law_fewer_filters_keep_article(
    sets: Map<Seq<char>, Set<Seq<char>>>,
    filters: Map<Seq<char>, Set<Seq<char>>>,
    k: Seq<char>,
)
    requires
        passes(sets, filters),
    ensures
        passes(sets, filters.remove(k)),
{
    assert forall|key: Seq<char>| #[trigger] filters.remove(k).contains_key(key) implies sets.contains_key(key)
        && exists|t: Seq<char>| sets[key].contains(t) && #[trigger] filters.remove(k)[key].contains(t) by {
        assert(filters.contains_key(key));
        let t = choose|t: Seq<char>| sets[key].contains(t) && #[trigger] filters[key].contains(t);
        assert(filters.remove(k)[key].contains(t));
    }
}

/// An article that passes some filters passes weaker ones: filters on fewer
/// taxonomies, each allowing at least the terms it allowed before.
pub proof fn law_weaker_filters_keep_article(
    sets: Map<Seq<char>, Set<Seq<char>>>,
    strong: Map<Seq<char>, Set<Seq<char>>>,
    weak: Map<Seq<char>, Set<Seq<char>>>,
)
    requires
        passes(sets, strong),
        forall|k: Seq<char>| #[trigger] weak.contains_key(k) ==> strong.contains_key(k) && strong[k].subset_of(weak[k]),
    ensures
        passes(sets, weak),
{
    assert forall|k: Seq<char>| #[trigger] weak.contains_key(k) implies sets.contains_key(k)
        && exists|t: Seq<char>| sets[k].contains(t) && #[trigger] weak[k].contains(t) by {
        assert(strong.contains_key(k));
        let t = choose|t: Seq<char>| sets[k].contains(t) && #[trigger] strong[k].contains(t);
        assert(weak[k].contains(t));
    }
}

/// Every article passes when nothing is filtered.
pub proof fn law_no_filters_pass(sets: Map<Seq<char>, Set<Seq<char>>>)
    ensures
        passes(sets, Map::empty()),
{
}

/// The points of words one after another add up.
pub proof fn law_points_add_up(
    config: crate::matcher::ScoreConfig,
    fields: Map<Seq<char>, String>,
    match_fields: Seq<Seq<char>>,
    first: Seq<Seq<char>>,
    second: Seq<Seq<char>>,
)
    ensures
        total_points(config, fields, match_fields, first + second) == total_points(config, fields, match_fields, first)
            + total_points(config, fields, match_fields, second),
    decreases second.len(),
{
    if second.len() == 0 {
        assert(first + second =~= first);
    } else {
        law_points_add_up(config, fields, match_fields, first, second.drop_last());
        assert((first + second).drop_last() =~= first + second.drop_last());
        assert((first + second).last() == second.last());
    }
}

/// The rank of words one after another is the sum of their ranks, capped at
/// the largest `u32`.
pub proof fn law_rank_of_joined_words(engine: SearchEngin, a: Article, first: Seq<Seq<char>>, second: Seq<Seq<char>>)
    ensures
        engine.rank_of(a, first + second) == capped(engine.rank_of(a, first) + engine.rank_of(a, second)),
{
    let mf = texts(engine.match_fields@);
    law_points_add_up(engine.matcher, a.fields@, mf, first, second);
    lemma_total_points_nonneg(engine.matcher, a.fields@, mf, first);
    lemma_total_points_nonneg(engine.matcher, a.fields@, mf, second);
}

/// Unset weights keep the matcher's defaults.
pub proof fn law_unset_weights_are_defaults(skim: SkimConfig)
    requires
        skim.score_match is None && skim.gap_start is None && skim.gap_extension is None
            && skim.bonus_first_char_multiplier is None && skim.bonus_head is None && skim.bonus_break is None
            && skim.bonus_camel is None && skim.bonus_consecutive is None && skim.penalty_case_mismatch is None,
    ensures
        resolved_weights(skim) == default_weights(),
{
}

/// A word is left to rank by exactly when it matches no taxonomy term well.
pub proof fn law_words_split(
    config: crate::matcher::ScoreConfig,
    known: Map<Seq<char>, Set<Seq<char>>>,
    ws: Seq<Seq<char>>,
    w: Seq<char>,
)
    requires
        ws.contains(w),
    ensures
        unmatched(config, known, ws).contains(w) <==> !hits(config, known, w),
{
    let p = |x: Seq<char>| !hits(config, known, x);
    broadcast use vstd::seq_lib::group_filter_ensures;
    if !hits(config, known, w) {
        let i = choose|i: int| 0 <= i < ws.len() && ws[i] == w;
        ws.lemma_filter_contains(p, i);
    }
}

/// Filter maps put together: each taxonomy of either, with the terms of both.
pub open spec fn merged(a: Map<Seq<char>, Set<Seq<char>>>, b: Map<Seq<char>, Set<Seq<char>>>) -> Map<Seq<char>, Set<Seq<char>>> {
    Map::new(
        |k: Seq<char>| a.contains_key(k) || b.contains_key(k),
        |k: Seq<char>| {
            let x = if a.contains_key(k) { a[k] } else { Set::empty() };
            let y = if b.contains_key(k) { b[k] } else { Set::empty() };
            x.union(y)
        },
    )
}

/// Words one after another ask for the filters that each part asks for,
/// put together, and leave to rank the words that each part leaves, one
/// after another.
pub proof fn law_detection_of_joined_words(
    config: ScoreConfig,
    known: Map<Seq<char>, Set<Seq<char>>>,
    first: Seq<Seq<char>>,
    second: Seq<Seq<char>>,
)
    ensures
        detected(config, known, first + second) == merged(detected(config, known, first), detected(config, known, second)),
        unmatched(config, known, first + second) == unmatched(config, known, first) + unmatched(config, known, second),
{
    let ab = first + second;
    let p = |w: Seq<char>| !hits(config, known, w);
    Seq::filter_distributes_over_add(first, second, p);
    assert forall|k: Seq<char>, t: Seq<char>| #[trigger] picked(config, known, ab, k, t)
        <==> picked(config, known, first, k, t) || picked(config, known, second, k, t) by {
        if picked(config, known, ab, k, t) {
            let i = choose|i: int| 0 <= i < ab.len() && good_match(config, t, #[trigger] ab[i]);
            if i < first.len() {
                assert(first[i] == ab[i]);
            } else {
                assert(second[i - first.len()] == ab[i]);
            }
        }
        if picked(config, known, first, k, t) {
            let i = choose|i: int| 0 <= i < first.len() && good_match(config, t, #[trigger] first[i]);
            assert(ab[i] == first[i]);
        }
        if picked(config, known, second, k, t) {
            let i = choose|i: int| 0 <= i < second.len() && good_match(config, t, #[trigger] second[i]);
            assert(ab[i + first.len()] == second[i]);
        }
    }
    let d = detected(config, known, ab);
    let m = merged(detected(config, known, first), detected(config, known, second));
    assert forall|k: Seq<char>| #[trigger] d.contains_key(k) <==> m.contains_key(k) by {
        if d.contains_key(k) {
            let t = choose|t: Seq<char>| picked(config, known, ab, k, t);
        }
        if detected(config, known, first).contains_key(k) {
            let t = choose|t: Seq<char>| picked(config, known, first, k, t);
            assert(picked(config, known, ab, k, t));
        }
        if detected(config, known, second).contains_key(k) {
            let t = choose|t: Seq<char>| picked(config, known, second, k, t);
            assert(picked(config, known, ab, k, t));
        }
    }
    assert forall|k: Seq<char>| #[trigger] d.contains_key(k) implies d[k] == m[k] by {
        assert(d[k] =~= m[k]);
    }
    assert(d =~= m);
}

/// Words joined by single spaces.
pub open spec fn joined(ws: Seq<Seq<char>>) -> Seq<char>
    decreases ws.len(),
{
    if ws.len() == 0 {
        seq![]
    } else if ws.len() == 1 {
        ws[0]
    } else {
        joined(ws.drop_last()) + seq![' '] + ws.last()
    }
}

/// Splitting words joined by single spaces gives them back, when each is
/// non-empty and free of white space.
pub proof fn law_words_of_joined(ws: Seq<Seq<char>>)
    requires
        forall|i: int| 0 <= i < ws.len() ==> (#[trigger] ws[i]).len() > 0
            && forall|j: int| 0 <= j < ws[i].len() ==> !is_white_space(#[trigger] ws[i][j]),
    ensures
        words(joined(ws)) == ws,
    decreases ws.len(),
{
    if ws.len() == 0 {
        assert(words(joined(ws)) =~= ws);
    } else if ws.len() == 1 {
        lemma_split_state_append(seq![], ws[0]);
        assert(seq![] + ws[0] =~= ws[0]);
        assert(words(joined(ws)) =~= ws);
    } else {
        let rest = ws.drop_last();
        assert forall|i: int| 0 <= i < rest.len() implies (#[trigger] rest[i]).len() > 0
            && forall|j: int| 0 <= j < rest[i].len() ==> !is_white_space(#[trigger] rest[i][j]) by {
            assert(rest[i] == ws[i]);
        }
        law_words_of_joined(rest);
        let spaced = joined(rest) + seq![' '];
        lemma_split_state_space(joined(rest));
        lemma_split_state_append(spaced, ws.last());
        assert(seq![] + ws.last() =~= ws.last());
        assert(words(joined(ws)) =~= ws);
    }
}

proof fn lemma_split_state_append(p: Seq<char>, w: Seq<char>)
    requires
        forall|j: int| 0 <= j < w.len() ==> !is_white_space(#[trigger] w[j]),
    ensures
        split_state(p + w) == (split_state(p).0, split_state(p).1 + w),
    decreases w.len(),
{
    if w.len() == 0 {
        assert(p + w =~= p);
        assert(split_state(p).1 + w =~= split_state(p).1);
    } else {
        lemma_split_state_append(p, w.drop_last());
        assert((p + w).drop_last() =~= p + w.drop_last());
        assert((p + w).last() == w.last());
        assert(!is_white_space(w[w.len() - 1]));
        assert(split_state(p).1 + w =~= (split_state(p).1 + w.drop_last()).push(w.last()));
    }
}

proof fn lemma_split_state_space(s: Seq<char>)
    ensures
        split_state(s + seq![' ']) == (words(s), Seq::<char>::empty()),
{
    let t = s + seq![' '];
    assert(t.drop_last() =~= s);
    assert(t.last() == ' ');
    assert(is_white_space(' '));
    assert(split_state(t).1 =~= Seq::<char>::empty());
}

/// Every word of a query is non-empty and free of white space.
pub proof fn law_words_are_clean(s: Seq<char>)
    ensures
        forall|i: int| 0 <= i < words(s).len() ==> (#[trigger] words(s)[i]).len() > 0
            && forall|j: int| 0 <= j < words(s)[i].len() ==> !is_white_space(#[trigger] words(s)[i][j]),
{
    lemma_split_state_clean(s);
    let (done, open) = split_state(s);
    if open.len() > 0 {
        assert forall|i: int| 0 <= i < words(s).len() implies (#[trigger] words(s)[i]).len() > 0
            && forall|j: int| 0 <= j < words(s)[i].len() ==> !is_white_space(#[trigger] words(s)[i][j]) by {
            if i < done.len() {
                assert(words(s)[i] == done[i]);
            } else {
                assert(words(s)[i] == open);
            }
        }
    }
}

/// Read one after another, the words of a query are its characters without
/// the white space.
pub proof fn law_words_keep_every_other_character(s: Seq<char>)
    ensures
        words(s).flatten() == s.filter(|c: char| !is_white_space(c)),
{
    lemma_split_state_chars(s);
    words(s).lemma_flatten_and_flatten_alt_are_equivalent();
    let (done, open) = split_state(s);
    if open.len() > 0 {
        assert(done.push(open).drop_last() == done);
        assert(words(s).flatten_alt() == done.flatten_alt() + open);
    } else {
        assert(done.flatten_alt() + open =~= done.flatten_alt());
    }
}

proof fn lemma_split_state_chars(s: Seq<char>)
    ensures
        split_state(s).0.flatten_alt() + split_state(s).1 == s.filter(|c: char| !is_white_space(c)),
    decreases s.len(),
{
    reveal_with_fuel(Seq::filter, 1);
    let p = |c: char| !is_white_space(c);
    if s.len() == 0 {
        assert(split_state(s).0.flatten_alt() + split_state(s).1 =~= s.filter(p));
    } else {
        lemma_split_state_chars(s.drop_last());
        let (done, open) = split_state(s.drop_last());
        let c = s.last();
        assert(s.filter(p) == if p(c) { s.drop_last().filter(p).push(c) } else { s.drop_last().filter(p) });
        if is_white_space(c) {
            if open.len() > 0 {
                assert(done.push(open).drop_last() == done);
                assert(done.push(open).flatten_alt() == done.flatten_alt() + open);
                assert(split_state(s).0.flatten_alt() + split_state(s).1 =~= done.flatten_alt() + open);
            } else {
                assert(split_state(s).0.flatten_alt() + split_state(s).1 =~= done.flatten_alt() + open);
            }
        } else {
            assert(split_state(s).0.flatten_alt() + split_state(s).1 =~= (done.flatten_alt() + open).push(c));
        }
    }
}

proof fn lemma_split_state_clean(s: Seq<char>)
    ensures
        forall|i: int| 0 <= i < split_state(s).0.len() ==> (#[trigger] split_state(s).0[i]).len() > 0
            && forall|j: int| 0 <= j < split_state(s).0[i].len() ==> !is_white_space(#[trigger] split_state(s).0[i][j]),
        forall|j: int| 0 <= j < split_state(s).1.len() ==> !is_white_space(#[trigger] split_state(s).1[j]),
    decreases s.len(),
{
    if s.len() > 0 {
        lemma_split_state_clean(s.drop_last());
        let (done, open) = split_state(s.drop_last());
        let c = s.last();
        if is_white_space(c) {
            if open.len() > 0 {
                assert(split_state(s).0 == done.push(open));
                assert forall|i: int| 0 <= i < split_state(s).0.len() implies (#[trigger] split_state(s).0[i]).len() > 0
                    && forall|j: int| 0 <= j < split_state(s).0[i].len() ==> !is_white_space(#[trigger] split_state(s).0[i][j]) by {
                    if i < done.len() {
                        assert(split_state(s).0[i] == done[i]);
                    } else {
                        assert(split_state(s).0[i] == open);
                    }
                }
            } else {
                assert(split_state(s).0 == done);
            }
            assert(split_state(s).1.len() == 0);
        } else {
            assert(split_state(s) == (done, open.push(c)));
            assert forall|j: int| 0 <= j < split_state(s).1.len() implies !is_white_space(#[trigger] split_state(s).1[j]) by {
                if j < open.len() {
                    assert(split_state(s).1[j] == open[j]);
                }
            }
        }
    }
}

/// An article passes a filter that asks one taxonomy for one term exactly
/// when the article lists that term, wherever in its list, for that taxonomy.
pub proof fn law_article_passes_for_any_listed_term(a: Article, k: Seq<char>, t: Seq<char>)
    ensures
        passes(article_sets(a), Map::empty().insert(k, Set::empty().insert(t))) <==> (a.taxonomies@.contains_key(k)
            && exists|i: int| 0 <= i < a.taxonomies@[k].item@.len() && #[trigger] a.taxonomies@[k].item@[i]@ == t),
{
    let f = Map::<Seq<char>, Set<Seq<char>>>::empty().insert(k, Set::empty().insert(t));
    let sets = article_sets(a);
    assert(f.contains_key(k));
    if passes(sets, f) {
        let u = choose|u: Seq<char>| sets[k].contains(u) && #[trigger] f[k].contains(u);
        assert(u == t);
    }
    if a.taxonomies@.contains_key(k)
        && exists|i: int| 0 <= i < a.taxonomies@[k].item@.len() && #[trigger] a.taxonomies@[k].item@[i]@ == t {
        assert(sets[k].contains(t));
        assert forall|key: Seq<char>| #[trigger] f.contains_key(key) implies sets.contains_key(key)
            && exists|u: Seq<char>| sets[key].contains(u) && #[trigger] f[key].contains(u) by {
            assert(key == k);
            assert(f[key].contains(t));
        }
    }
}

/// Every weight that the configuration sets is the weight the matcher uses;
/// every weight it leaves unset is the matcher's default.
pub proof fn law_set_weights_are_used(skim: SkimConfig)
    ensures
        skim.score_match matches Some(x) ==> resolved_weights(skim).score_match == x,
        skim.gap_start matches Some(x) ==> resolved_weights(skim).gap_start == x,
        skim.gap_extension matches Some(x) ==> resolved_weights(skim).gap_extension == x,
        skim.bonus_first_char_multiplier matches Some(x) ==> resolved_weights(skim).bonus_first_char_multiplier == x,
        skim.bonus_head matches Some(x) ==> resolved_weights(skim).bonus_head == x,
        skim.bonus_break matches Some(x) ==> resolved_weights(skim).bonus_break == x,
        skim.bonus_camel matches Some(x) ==> resolved_weights(skim).bonus_camel == x,
        skim.bonus_consecutive matches Some(x) ==> resolved_weights(skim).bonus_consecutive == x,
        skim.penalty_case_mismatch matches Some(x) ==> resolved_weights(skim).penalty_case_mismatch == x,
        skim.score_match is None ==> resolved_weights(skim).score_match == 16,
        skim.gap_start is None ==> resolved_weights(skim).gap_start == -3,
        skim.gap_extension is None ==> resolved_weights(skim).gap_extension == -1,
        skim.bonus_first_char_multiplier is None ==> resolved_weights(skim).bonus_first_char_multiplier == 2,
        skim.bonus_head is None ==> resolved_weights(skim).bonus_head == 8,
        skim.bonus_break is None ==> resolved_weights(skim).bonus_break == 7,
        skim.bonus_camel is None ==> resolved_weights(skim).bonus_camel == 6,
        skim.bonus_consecutive is None ==> resolved_weights(skim).bonus_consecutive == 4,
        skim.penalty_case_mismatch is None ==> resolved_weights(skim).penalty_case_mismatch == -2,
{
}

/// A word hits the taxonomies exactly when some term of some taxonomy
/// matches it well, whether or not the word spells the term.
pub proof fn law_word_hits_when_a_term_matches_well(
    config: ScoreConfig,
    known: Map<Seq<char>, Set<Seq<char>>>,
    w: Seq<char>,
    k: Seq<char>,
    t: Seq<char>,
)
    requires
        has_pair(known, k, t),
        good_match(config, t, w),
    ensures
        hits(config, known, w),
{
}

/// A term that some word of the query matches well is among the filters
/// the query asks for, under its taxonomy.
pub proof fn law_well_matched_term_is_detected(
    config: ScoreConfig,
    known: Map<Seq<char>, Set<Seq<char>>>,
    ws: Seq<Seq<char>>,
    i: int,
    k: Seq<char>,
    t: Seq<char>,
)
    requires
        0 <= i < ws.len(),
        has_pair(known, k, t),
        good_match(config, t, ws[i]),
    ensures
        detected(config, known, ws).contains_key(k),
        detected(config, known, ws)[k].contains(t),
{
    assert(picked(config, known, ws, k, t));
}

/// A word of a query is left to rank by exactly when, on its own, it asks
/// for no filter: a word that picks some term never also ranks.
pub proof fn law_word_ranks_iff_it_asks_for_no_filter(
    config: ScoreConfig,
    known: Map<Seq<char>, Set<Seq<char>>>,
    ws: Seq<Seq<char>>,
    w: Seq<char>,
)
    requires
        ws.contains(w),
    ensures
        unmatched(config, known, ws).contains(w) <==> forall|k: Seq<char>| !#[trigger] detected(config, known, seq![w]).contains_key(k),
{
    law_words_split(config, known, ws, w);
    let one = seq![w];
    if hits(config, known, w) {
        let (k, t) = choose|k: Seq<char>, t: Seq<char>| #[trigger] has_pair(known, k, t) && good_match(config, t, w);
        assert(one[0] == w);
        assert(picked(config, known, one, k, t));
        assert(detected(config, known, one).contains_key(k));
    } else {
        assert forall|k: Seq<char>| !#[trigger] detected(config, known, one).contains_key(k) by {
            if detected(config, known, one).contains_key(k) {
                let t = choose|t: Seq<char>| picked(config, known, one, k, t);
                let i = choose|i: int| 0 <= i < one.len() && good_match(config, t, #[trigger] one[i]);
                assert(one[i] == w);
                assert(has_pair(known, k, t) && good_match(config, t, w));
            }
        }
    }
}

/// The white-space characters of ASCII are exactly tab, line feed, line
/// tabulation, form feed, carriage return and space.
pub proof fn law_ascii_white_space(c: char)
    requires
        (c as u32) < 0x80,
    ensures
        is_white_space(c) <==> (c == '\t' || c == '\n' || c == '\u{0b}' || c == '\u{0c}' || c == '\r' || c == ' '),
{
}

/// Beyond ASCII, the white-space characters are exactly next line,
/// no-break space, ogham space mark, the spaces from en quad to hair space,
/// line separator, paragraph separator, narrow no-break space, medium
/// mathematical space and ideographic space.
pub proof fn law_non_ascii_white_space(c: char)
    requires
        (c as u32) >= 0x80,
    ensures
        is_white_space(c) <==> (c == '\u{85}' || c == '\u{a0}' || c == '\u{1680}'
            || ('\u{2000}' <= c && c <= '\u{200a}') || c == '\u{2028}' || c == '\u{2029}'
            || c == '\u{202f}' || c == '\u{205f}' || c == '\u{3000}'),
{
}

/// No printable ASCII character (letters, digits, punctuation) is white
/// space, so a non-empty text of them is one word.
pub proof fn law_printable_ascii_text_is_one_word(s: Seq<char>)
    requires
        s.len() > 0,
        forall|i: int| 0 <= i < s.len() ==> 0x21 <= (#[trigger] s[i]) as u32 <= 0x7e,
    ensures
        words(s) == seq![s],
{
    assert forall|j: int| 0 <= j < s.len() implies !is_white_space(#[trigger] s[j]) by {
        assert(0x21 <= s[j] as u32 <= 0x7e);
    }
    lemma_split_state_append(seq![], s);
    assert(Seq::<char>::empty() + s =~= s);
    assert(words(s) =~= seq![s]);
}

/// The selectors of filter texts one after another are the selectors of
/// each part, one after another.
pub proof fn law_selectors_of_joined_filters(a: Seq<Seq<char>>, b: Seq<Seq<char>>)
    ensures
        selectors_of(a + b) == selectors_of(a) + selectors_of(b),
    decreases b.len(),
{
    if b.len() == 0 {
        assert(a + b =~= a);
        assert(selectors_of(a) + selectors_of(b) =~= selectors_of(a));
    } else {
        law_selectors_of_joined_filters(a, b.drop_last());
        assert((a + b).drop_last() =~= a + b.drop_last());
        assert((a + b).last() == b.last());
        let x = selectors_of(a);
        let y = selectors_of(b.drop_last());
        match colon_split(b.last()) {
            Some((taxonomy, term)) => {
                assert((x + y).push(checkbox_selector_text(taxonomy, term)) =~= x + y.push(checkbox_selector_text(taxonomy, term)));
            },
            None => {},
        }
    }
}

/// A single filter text that holds a colon gives exactly its own selector;
/// one without a colon gives none.
pub proof fn law_selector_of_one_filter(f: Seq<char>)
    ensures
        selectors_of(seq![f]) == match colon_split(f) {
            Some((taxonomy, term)) => seq![checkbox_selector_text(taxonomy, term)],
            None => Seq::<Seq<char>>::empty(),
        },
{
    assert(seq![f].drop_last() =~= Seq::<Seq<char>>::empty());
    assert(seq![f].last() == f);
    assert(selectors_of(Seq::<Seq<char>>::empty()) =~= Seq::<Seq<char>>::empty());
    match colon_split(f) {
        Some((taxonomy, term)) => {
            assert(Seq::<Seq<char>>::empty().push(checkbox_selector_text(taxonomy, term)) =~= seq![checkbox_selector_text(taxonomy, term)]);
        },
        None => {},
    }
}

} // verus!
