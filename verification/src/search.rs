use vstd::prelude::*;
use crate::keyed::{StrMap, TermSet, text_set, assoc, shadowed, same_text, distinct_texts};
use crate::keyed::{lemma_assoc_entry, lemma_assoc_key, lemma_assoc_agree};
use crate::matcher::{ScoreConfig, skim_default_config, skim_score, skim_match, good_match, matches_well};
use crate::matcher::{matcher_fits, matcher_fits_len};
use crate::text::{words, words_of};

verus! {

/// What the engine is set up with: where the feed lives, which article
/// fields a query is matched against, and optional matcher weights.
pub struct Config {
    pub feed_url: String,
    pub match_fields: Vec<String>,
    pub skim: SkimConfig,
}

/// Matcher weights; an absent weight keeps the matcher's default.
#[derive(Clone, Copy, Debug, PartialEq, Eq, Structural)]
pub struct SkimConfig {
    pub score_match: Option<i32>,
    pub gap_start: Option<i32>,
    pub gap_extension: Option<i32>,
    pub bonus_first_char_multiplier: Option<i32>,
    pub bonus_head: Option<i32>,
    pub bonus_break: Option<i32>,
    pub bonus_camel: Option<i32>,
    pub bonus_consecutive: Option<i32>,
    pub penalty_case_mismatch: Option<i32>,
}

impl Default for SkimConfig {
    fn default() -> (s: Self)
        ensures
            s == (SkimConfig {
                score_match: None,
                gap_start: None,
                gap_extension: None,
                bonus_first_char_multiplier: None,
                bonus_head: None,
                bonus_break: None,
                bonus_camel: None,
                bonus_consecutive: None,
                penalty_case_mismatch: None,
            }),
    {
        SkimConfig {
            score_match: None,
            gap_start: None,
            gap_extension: None,
            bonus_first_char_multiplier: None,
            bonus_head: None,
            bonus_break: None,
            bonus_camel: None,
            bonus_consecutive: None,
            penalty_case_mismatch: None,
        }
    }
}

/// The value that is set, or else the fallback.
pub open spec fn or_else(v: Option<i32>, fallback: i32) -> i32 {
    match v {
        Some(x) => x,
        None => fallback,
    }
}

/// The matcher's default weights.
pub open spec fn default_weights() -> ScoreConfig {
    ScoreConfig {
        score_match: 16,
        gap_start: -3i32,
        gap_extension: -1i32,
        bonus_first_char_multiplier: 2,
        bonus_head: 8,
        bonus_break: 7,
        bonus_camel: 6,
        bonus_consecutive: 4,
        penalty_case_mismatch: -2i32,
    }
}

/// Every weight that `skim` sets, the default for every other.
pub open spec fn resolved_weights(skim: SkimConfig) -> ScoreConfig {
    let d = default_weights();
    ScoreConfig {
        score_match: or_else(skim.score_match, d.score_match),
        gap_start: or_else(skim.gap_start, d.gap_start),
        gap_extension: or_else(skim.gap_extension, d.gap_extension),
        bonus_first_char_multiplier: or_else(skim.bonus_first_char_multiplier, d.bonus_first_char_multiplier),
        bonus_head: or_else(skim.bonus_head, d.bonus_head),
        bonus_break: or_else(skim.bonus_break, d.bonus_break),
        bonus_camel: or_else(skim.bonus_camel, d.bonus_camel),
        bonus_consecutive: or_else(skim.bonus_consecutive, d.bonus_consecutive),
        penalty_case_mismatch: or_else(skim.penalty_case_mismatch, d.penalty_case_mismatch),
    }
}

fn pick(v: Option<i32>, fallback: i32) -> (r: i32)
    ensures
        r == or_else(v, fallback),
{
    match v {
        Some(x) => x,
        None => fallback,
    }
}

/// The weights the engine matches with.
pub fn resolve_weights(skim: &SkimConfig) -> (w: ScoreConfig)
    ensures
        w == resolved_weights(*skim),
{
    let d = skim_default_config();
    ScoreConfig {
        score_match: pick(skim.score_match, d.score_match),
        gap_start: pick(skim.gap_start, d.gap_start),
        gap_extension: pick(skim.gap_extension, d.gap_extension),
        bonus_first_char_multiplier: pick(skim.bonus_first_char_multiplier, d.bonus_first_char_multiplier),
        bonus_head: pick(skim.bonus_head, d.bonus_head),
        bonus_break: pick(skim.bonus_break, d.bonus_break),
        bonus_camel: pick(skim.bonus_camel, d.bonus_camel),
        bonus_consecutive: pick(skim.bonus_consecutive, d.bonus_consecutive),
        penalty_case_mismatch: pick(skim.penalty_case_mismatch, d.penalty_case_mismatch),
    }
}

/// The feed: the taxonomies with their terms, and the articles.
pub struct Search {
    pub taxonomies: Taxonomies,
    pub pages: Pages,
}

pub struct Taxonomies {
    pub item: Vec<TaxonomyCategory>,
}

/// One taxonomy (such as a season or a tool) and its terms.
pub struct TaxonomyCategory {
    pub name: String,
    pub terms: TermEntries,
}

pub struct TermEntries {
    pub item: Vec<TermEntry>,
}

pub struct TermEntry {
    pub name: String,
    pub link: String,
}

pub struct Pages {
    pub item: Vec<Article>,
}

/// One recipe: the terms it has in each taxonomy, and its text fields.
pub struct Article {
    pub taxonomies: StrMap<Items>,
    pub fields: StrMap<String>,
}

/// The terms an article has in one taxonomy.
pub struct Items {
    pub item: Vec<String>,
}

/// Filters: for each taxonomy, the terms that are asked for.
pub type Filters = StrMap<TermSet>;

/// No term occurs twice in any set of `f`.
pub open spec fn sets_wf(f: Filters) -> bool {
    forall|i: int| 0 <= i < f.entries@.len() ==> (#[trigger] f.entries@[i]).1.wf()
}

/// Every term of every taxonomy of `known` is short enough for the matcher
/// set up with `config`.
pub open spec fn known_fit(config: ScoreConfig, known: Map<Seq<char>, Set<Seq<char>>>) -> bool {
    forall|k: Seq<char>, t: Seq<char>| #[trigger] has_pair(known, k, t) ==> matcher_fits(config, t.len() as int)
}

/// A map of term sets, as sets.
pub open spec fn filter_sets(f: Map<Seq<char>, TermSet>) -> Map<Seq<char>, Set<Seq<char>>> {
    f.map_values(|t: TermSet| t@)
}

/// The strings of a list.
pub open spec fn texts(v: Seq<String>) -> Seq<Seq<char>> {
    v.map_values(|s: String| s@)
}

/// What an article holds: its taxonomy terms and its fields, as plain text.
pub open spec fn article_view(a: Article) -> (Map<Seq<char>, Seq<Seq<char>>>, Map<Seq<char>, Seq<char>>) {
    (a.taxonomies@.map_values(|it: Items| texts(it.item@)), a.fields@.map_values(|s: String| s@))
}

/// The terms of an article, per taxonomy, as sets.
pub open spec fn article_sets(a: Article) -> Map<Seq<char>, Set<Seq<char>>> {
    a.taxonomies@.map_values(|it: Items| text_set(it.item@))
}

/// An article passes the filters when, for every filtered taxonomy, it has
/// at least one of the asked-for terms.
pub open spec fn passes(sets: Map<Seq<char>, Set<Seq<char>>>, filters: Map<Seq<char>, Set<Seq<char>>>) -> bool {
    forall|k: Seq<char>|
        #[trigger] filters.contains_key(k) ==> sets.contains_key(k) && exists|t: Seq<char>|
            sets[k].contains(t) && #[trigger] filters[k].contains(t)
}

/// A copy of a list of strings.
pub fn copy_texts(v: &Vec<String>) -> (r: Vec<String>)
    ensures
        r@ == v@,
{
    let mut r: Vec<String> = Vec::new();
    for i in 0..v.len()
        invariant
            r@ == v@.take(i as int),
    {
        r.push(v[i].clone());
        assert(r@ == v@.take(i + 1));
    }
    assert(v@.take(v@.len() as int) == v@);
    r
}

/// The terms of a list, as a set.
pub fn term_set_of(v: &Vec<String>) -> (s: TermSet)
    ensures
        s@ == text_set(v@),
        s.wf(),
{
    let mut s = TermSet::new();
    for i in 0..v.len()
        invariant
            s@ == text_set(v@.take(i as int)),
            s.wf(),
    {
        s.insert(v[i].clone());
        assert(text_set(v@.take(i + 1)) =~= text_set(v@.take(i as int)).insert(v@[i as int]@)) by {
            assert(v@.take(i + 1)[i as int] == v@[i as int]);
            assert forall|x: Seq<char>| text_set(v@.take(i + 1)).contains(x) implies
                text_set(v@.take(i as int)).insert(v@[i as int]@).contains(x) by {
                let j = choose|j: int| 0 <= j < v@.take(i + 1).len() && #[trigger] v@.take(i + 1)[j]@ == x;
                if j < i {
                    assert(v@.take(i as int)[j]@ == x);
                }
            }
            assert forall|x: Seq<char>| text_set(v@.take(i as int)).insert(v@[i as int]@).contains(x) implies
                text_set(v@.take(i + 1)).contains(x) by {
                if x != v@[i as int]@ {
                    let j = choose|j: int| 0 <= j < v@.take(i as int).len() && #[trigger] v@.take(i as int)[j]@ == x;
                    assert(v@.take(i + 1)[j]@ == x);
                }
            }
        }
    }
    assert(v@.take(v@.len() as int) == v@);
    s
}

/// Whether two term sets share a term.
pub fn share_term(a: &TermSet, b: &TermSet) -> (r: bool)
    ensures
        r == exists|t: Seq<char>| a@.contains(t) && b@.contains(t),
{
    let n = a.terms.len();
    for i in 0..n
        invariant
            n == a.terms@.len(),
            forall|l: int| 0 <= l < i ==> !b@.contains(#[trigger] a.terms@[l]@),
    {
        if b.contains(a.terms[i].as_str()) {
            assert(a@.contains(a.terms@[i as int]@));
            return true;
        }
    }
    assert forall|t: Seq<char>| a@.contains(t) implies !b@.contains(t) by {
        let j = choose|j: int| 0 <= j < a.terms@.len() && #[trigger] a.terms@[j]@ == t;
    }
    false
}

impl Items {
    /// A copy of the list.
    pub fn duplicate(&self) -> (r: Items)
        ensures
            r.item@ == self.item@,
    {
        Items { item: copy_texts(&self.item) }
    }
}

impl Article {
    /// A copy of the article.
    pub fn duplicate(&self) -> (r: Article)
        ensures
            article_view(r) == article_view(*self),
    {
        let mut tax: Vec<(String, Items)> = Vec::new();
        let n = self.taxonomies.entries.len();
        let mut i: usize = 0;
        while i < n
            invariant
                n == self.taxonomies.entries@.len(),
                i <= n,
                tax@.len() == i,
                forall|l: int| 0 <= l < i ==> (#[trigger] tax@[l]).0@ == self.taxonomies.entries@[l].0@,
                forall|l: int| 0 <= l < i ==> (#[trigger] tax@[l]).1.item@ == self.taxonomies.entries@[l].1.item@,
            decreases n - i,
        {
            let e = &self.taxonomies.entries[i];
            tax.push((e.0.clone(), e.1.duplicate()));
            i += 1;
        }
        let mut fields: Vec<(String, String)> = Vec::new();
        let m = self.fields.entries.len();
        for i in 0..m
            invariant
                m == self.fields.entries@.len(),
                fields@ == self.fields.entries@.take(i as int),
        {
            let e = &self.fields.entries[i];
            fields.push((e.0.clone(), e.1.clone()));
            assert(fields@ == self.fields.entries@.take(i + 1));
        }
        assert(self.fields.entries@.take(m as int) == self.fields.entries@);
        let r = Article { taxonomies: StrMap { entries: tax }, fields: StrMap { entries: fields } };
        proof {
            lemma_assoc_agree(r.taxonomies.entries@, self.taxonomies.entries@, |it: Items| texts(it.item@));
        }
        r
    }

    /// The article's terms per taxonomy, as sets.
    pub fn filters(&self) -> (f: Filters)
        ensures
            filter_sets(f@) == article_sets(*self),
            sets_wf(f),
    {
        let mut f: Filters = StrMap::new();
        let n = self.taxonomies.entries.len();
        for i in 0..n
            invariant
                n == self.taxonomies.entries@.len(),
                sets_wf(f),
                filter_sets(f@) == assoc(self.taxonomies.entries@.take(i as int)).map_values(
                    |it: Items| text_set(it.item@),
                ),
        {
            let ghost prefix = self.taxonomies.entries@.take(i + 1);
            assert(prefix.drop_last() == self.taxonomies.entries@.take(i as int));
            let key = self.taxonomies.entries[i].0.clone();
            let terms = term_set_of(&self.taxonomies.entries[i].1.item);
            let ghost before = f@;
            let ghost before_entries = f.entries@;
            let ghost new_terms = terms;
            f.insert(key, terms);
            proof {
                assert forall|l: int| 0 <= l < f.entries@.len() implies (#[trigger] f.entries@[l]).1.wf() by {
                    if f.entries@[l].1 != new_terms {
                        let q = choose|q: int| 0 <= q < before_entries.len() && before_entries[q] == f.entries@[l];
                        assert(before_entries[q].1.wf());
                    }
                }
                let e = self.taxonomies.entries@[i as int];
                assert(prefix.last() == e);
                assert(assoc(prefix) == assoc(prefix.drop_last()).insert(e.0@, e.1));
                assert(filter_sets(f@) =~= filter_sets(before).insert(e.0@, text_set(e.1.item@)));
                assert(filter_sets(f@) =~= assoc(prefix).map_values(|it: Items| text_set(it.item@)));
            }
        }
        assert(self.taxonomies.entries@.take(n as int) == self.taxonomies.entries@);
        f
    }

    /// Whether the article passes `filters`.
    pub fn has_all_filters(&self, filters: &Filters) -> (r: bool)
        ensures
            r == passes(article_sets(*self), filter_sets(filters@)),
    {
        let own = self.filters();
        let n = filters.entries.len();
        let ghost fs = filter_sets(filters@);
        let ghost ours = article_sets(*self);
        for i in 0..n
            invariant
                n == filters.entries@.len(),
                fs == filter_sets(filters@),
                ours == article_sets(*self),
                filter_sets(own@) == ours,
                forall|l: int|
                    0 <= l < i && !shadowed(filters.entries@, l) ==> {
                        let k = #[trigger] filters.entries@[l].0@;
                        ours.contains_key(k) && exists|t: Seq<char>|
                            ours[k].contains(t) && filters.entries@[l].1@.contains(t)
                    },
        {
            if !filters.is_shadowed(i) {
                proof {
                    lemma_assoc_entry(filters.entries@, i as int);
                }
                let key = filters.entries[i].0.as_str();
                match own.get(key) {
                    None => {
                        assert(fs.contains_key(key@));
                        return false;
                    },
                    Some(terms) => {
                        if !share_term(terms, &filters.entries[i].1) {
                            assert(fs.contains_key(key@));
                            assert(!(exists|t: Seq<char>| ours[key@].contains(t) && fs[key@].contains(t)));
                            return false;
                        }
                        proof {
                            assert(ours[key@] == terms@);
                            let t = choose|t: Seq<char>| terms@.contains(t) && filters.entries@[i as int].1@.contains(t);
                            assert(ours[key@].contains(t));
                        }
                    },
                }
            }
        }
        assert forall|k: Seq<char>| #[trigger] fs.contains_key(k) implies ours.contains_key(k) && exists|t: Seq<char>|
            ours[k].contains(t) && #[trigger] fs[k].contains(t) by {
            lemma_assoc_key(filters.entries@, k);
            let l = choose|l: int| 0 <= l < filters.entries@.len() && filters.entries@[l].0@ == k && !shadowed(filters.entries@, l);
            lemma_assoc_entry(filters.entries@, l);
            let t = choose|t: Seq<char>| ours[k].contains(t) && filters.entries@[l].1@.contains(t);
            assert(fs[k].contains(t));
        }
        true
    }
}


/// `t` is among the terms that `m` holds for `k`.
pub open spec fn has_pair(m: Map<Seq<char>, Set<Seq<char>>>, k: Seq<char>, t: Seq<char>) -> bool {
    m.contains_key(k) && m[k].contains(t)
}

/// No taxonomy of `m` holds an empty set of terms.
pub open spec fn no_empty_sets(m: Map<Seq<char>, Set<Seq<char>>>) -> bool {
    forall|k: Seq<char>| #[trigger] m.contains_key(k) ==> exists|t: Seq<char>| m[k].contains(t)
}

impl StrMap<TermSet> {
    /// Adds `term` to the terms held for `key`.
    pub fn add_term(&mut self, key: String, term: String)
        ensures
            filter_sets(final(self)@) == filter_sets(old(self)@).insert(
                key@,
                if old(self)@.contains_key(key@) { old(self)@[key@]@ } else { Set::empty() }.insert(term@),
            ),
            sets_wf(*old(self)) ==> sets_wf(*final(self)),
    {
        let ghost before_entries = self.entries@;
        let terms = match self.position(key.as_str()) {
            Some(i) => {
                proof {
                    lemma_assoc_entry(self.entries@, i as int);
                }
                let mut terms = TermSet { terms: copy_texts(&self.entries[i].1.terms) };
                assert(sets_wf(*old(self)) ==> self.entries@[i as int].1.wf());
                terms.insert(term);
                terms
            },
            None => {
                let mut terms = TermSet::new();
                terms.insert(term);
                terms
            },
        };
        let ghost new_terms = terms;
        self.insert(key, terms);
        proof {
            if sets_wf(*old(self)) {
                assert forall|l: int| 0 <= l < self.entries@.len() implies (#[trigger] self.entries@[l]).1.wf() by {
                    if self.entries@[l].1 != new_terms {
                        let q = choose|q: int| 0 <= q < before_entries.len() && before_entries[q] == self.entries@[l];
                        assert(before_entries[q].1.wf());
                    }
                }
            }
        }
        assert(filter_sets(self@) =~= filter_sets(old(self)@).insert(
            key@,
            if old(self)@.contains_key(key@) { old(self)@[key@]@ } else { Set::empty() }.insert(term@),
        ));
    }
}

/// The terms of a taxonomy, as a set.
pub open spec fn term_names(c: TaxonomyCategory) -> Set<Seq<char>> {
    Set::new(|t: Seq<char>| exists|i: int| 0 <= i < c.terms.item@.len() && #[trigger] c.terms.item@[i].name@ == t)
}

/// The taxonomies of the feed with their terms; a later taxonomy of the same
/// name replaces an earlier one.
pub open spec fn known_terms(cats: Seq<TaxonomyCategory>) -> Map<Seq<char>, Set<Seq<char>>>
    decreases cats.len(),
{
    if cats.len() == 0 {
        Map::empty()
    } else {
        known_terms(cats.drop_last()).insert(cats.last().name@, term_names(cats.last()))
    }
}

/// Some term of some taxonomy matches the word well.
pub open spec fn hits(config: ScoreConfig, known: Map<Seq<char>, Set<Seq<char>>>, word: Seq<char>) -> bool {
    exists|k: Seq<char>, t: Seq<char>| #[trigger] has_pair(known, k, t) && good_match(config, t, word)
}

/// Term `t` of taxonomy `k` matches one of the words well.
pub open spec fn picked(
    config: ScoreConfig,
    known: Map<Seq<char>, Set<Seq<char>>>,
    words: Seq<Seq<char>>,
    k: Seq<char>,
    t: Seq<char>,
) -> bool {
    has_pair(known, k, t) && exists|i: int| 0 <= i < words.len() && good_match(config, t, #[trigger] words[i])
}

/// The filters that the words ask for: per taxonomy, the terms that some
/// word matches well; taxonomies without such a term are left out.
pub open spec fn detected(
    config: ScoreConfig,
    known: Map<Seq<char>, Set<Seq<char>>>,
    words: Seq<Seq<char>>,
) -> Map<Seq<char>, Set<Seq<char>>> {
    Map::new(
        |k: Seq<char>| exists|t: Seq<char>| picked(config, known, words, k, t),
        |k: Seq<char>| Set::new(|t: Seq<char>| picked(config, known, words, k, t)),
    )
}

/// The words that match no term of any taxonomy well, in order.
pub open spec fn unmatched(config: ScoreConfig, known: Map<Seq<char>, Set<Seq<char>>>, words: Seq<Seq<char>>) -> Seq<Seq<char>> {
    words.filter(|w: Seq<char>| !hits(config, known, w))
}

/// How much a match in `field` counts: ten times for the title.
pub open spec fn weight(field: Seq<char>) -> int {
    if field == "title"@ {
        10
    } else {
        1
    }
}

/// The points that `word` earns in `field` of an article: the match score
/// plus one, times the field's weight; nothing when the field is absent or
/// the score is not positive.
pub open spec fn field_points(config: ScoreConfig, fields: Map<Seq<char>, String>, field: Seq<char>, word: Seq<char>) -> int {
    if fields.contains_key(field) {
        match skim_score(config, fields[field]@, word) {
            Some(s) => if s > 0 {
                (s + 1) * weight(field)
            } else {
                0
            },
            None => 0,
        }
    } else {
        0
    }
}

/// The points that `word` earns over the matched fields.
pub open spec fn word_points(
    config: ScoreConfig,
    fields: Map<Seq<char>, String>,
    match_fields: Seq<Seq<char>>,
    word: Seq<char>,
) -> int
    decreases match_fields.len(),
{
    if match_fields.len() == 0 {
        0
    } else {
        word_points(config, fields, match_fields.drop_last(), word) + field_points(config, fields, match_fields.last(), word)
    }
}

/// The points that all `words` earn over the matched fields.
pub open spec fn total_points(
    config: ScoreConfig,
    fields: Map<Seq<char>, String>,
    match_fields: Seq<Seq<char>>,
    words: Seq<Seq<char>>,
) -> int
    decreases words.len(),
{
    if words.len() == 0 {
        0
    } else {
        total_points(config, fields, match_fields, words.drop_last()) + word_points(config, fields, match_fields, words.last())
    }
}

/// `x`, but no more than the largest `u32`.
pub open spec fn capped(x: int) -> int {
    if x > u32::MAX {
        u32::MAX as int
    } else {
        x
    }
}

/// The matcher's arithmetic stays within `i32` on `field` of an article,
/// and the points that `word` earns there fit in a `u32`.
pub open spec fn pair_fits(config: ScoreConfig, fields: Map<Seq<char>, String>, field: Seq<char>, word: Seq<char>) -> bool {
    fields.contains_key(field) ==> {
        &&& matcher_fits(config, fields[field]@.len() as int)
        &&& match skim_score(config, fields[field]@, word) {
            Some(s) => s > 0 ==> (s + 1) * weight(field) <= u32::MAX,
            None => true,
        }
    }
}

/// Ranking an article with `fields` for `words` neither overflows the
/// matcher nor the points of a single match.
pub open spec fn rank_fits(
    config: ScoreConfig,
    fields: Map<Seq<char>, String>,
    match_fields: Seq<Seq<char>>,
    words: Seq<Seq<char>>,
) -> bool {
    forall|i: int, j: int| 0 <= i < words.len() && 0 <= j < match_fields.len()
        ==> #[trigger] pair_fits(config, fields, match_fields[j], words[i])
}

pub proof fn lemma_word_points_nonneg(
    config: ScoreConfig,
    fields: Map<Seq<char>, String>,
    match_fields: Seq<Seq<char>>,
    word: Seq<char>,
)
    ensures
        word_points(config, fields, match_fields, word) >= 0,
    decreases match_fields.len(),
{
    if match_fields.len() > 0 {
        lemma_word_points_nonneg(config, fields, match_fields.drop_last(), word);
    }
}

pub proof fn lemma_total_points_nonneg(
    config: ScoreConfig,
    fields: Map<Seq<char>, String>,
    match_fields: Seq<Seq<char>>,
    words: Seq<Seq<char>>,
)
    ensures
        total_points(config, fields, match_fields, words) >= 0,
    decreases words.len(),
{
    if words.len() > 0 {
        lemma_total_points_nonneg(config, fields, match_fields, words.drop_last());
        lemma_word_points_nonneg(config, fields, match_fields, words.last());
    }
}

/// Entry `a` comes before entry `b` in a ranking: a higher rank first, and
/// of equal ranks the earlier article first.
pub open spec fn outranks(a: (u32, usize), b: (u32, usize)) -> bool {
    a.0 > b.0 || (a.0 == b.0 && a.1 < b.1)
}

/// Every entry of `s` comes before all entries after it.
pub open spec fn ranked(s: Seq<(u32, usize)>) -> bool {
    forall|i: int, j: int| 0 <= i < j < s.len() ==> outranks(#[trigger] s[i], #[trigger] s[j])
}

impl SearchEngin {
    /// Every article of the feed that passes `filters` can be ranked for
    /// `words` without overflow.
    pub open spec fn ranks_fit(&self, words: Seq<Seq<char>>, filters: Map<Seq<char>, Set<Seq<char>>>) -> bool {
        forall|i: int| 0 <= i < self.index.pages.item@.len() && passes(article_sets(#[trigger] self.index.pages.item@[i]), filters)
            ==> rank_fits(self.matcher, self.index.pages.item@[i].fields@, texts(self.match_fields@), words)
    }

    /// What a query needs to be answered without overflow or a missing title:
    /// the terms fit the matcher if there are words, and the articles that
    /// pass the detected filters have titles and can be ranked.
    pub open spec fn answerable(&self, query: Seq<char>) -> bool {
        let known = known_terms(self.index.taxonomies.item@);
        let ws = words(query);
        &&& ws.len() > 0 ==> known_fit(self.matcher, known)
        &&& self.titled(detected(self.matcher, known, ws))
        &&& self.ranks_fit(unmatched(self.matcher, known, ws), detected(self.matcher, known, ws))
    }

    /// Every article of the feed that passes `filters` has a title field.
    pub open spec fn titled(&self, filters: Map<Seq<char>, Set<Seq<char>>>) -> bool {
        forall|i: int| 0 <= i < self.index.pages.item@.len() && passes(article_sets(#[trigger] self.index.pages.item@[i]), filters)
            ==> self.index.pages.item@[i].fields@.contains_key("title"@)
    }

    /// The rank of an article for `words`.
    pub open spec fn rank_of(&self, a: Article, words: Seq<Seq<char>>) -> int {
        capped(total_points(self.matcher, a.fields@, texts(self.match_fields@), words))
    }

    /// Article `i` of the feed is a result: it passes the filters and, when
    /// there are words, ranks above zero.
    pub open spec fn kept(&self, words: Seq<Seq<char>>, filters: Map<Seq<char>, Set<Seq<char>>>, i: int) -> bool {
        let a = self.index.pages.item@[i];
        passes(article_sets(a), filters) && (words.len() == 0 || self.rank_of(a, words) > 0)
    }

    /// Article `i` is listed before article `j`: it ranks higher, or ranks
    /// the same and comes earlier in the feed.
    pub open spec fn comes_before(&self, words: Seq<Seq<char>>, i: int, j: int) -> bool {
        let ri = self.rank_of(self.index.pages.item@[i], words);
        let rj = self.rank_of(self.index.pages.item@[j], words);
        ri > rj || (ri == rj && i < j)
    }

    /// `order` lists the results for `words` and `filters`, best first.
    pub open spec fn is_ranking(
        &self,
        words: Seq<Seq<char>>,
        filters: Map<Seq<char>, Set<Seq<char>>>,
        order: Seq<int>,
    ) -> bool {
        &&& forall|k: int| 0 <= k < order.len() ==> 0 <= #[trigger] order[k] < self.index.pages.item@.len()
            && self.kept(words, filters, order[k])
        &&& forall|i: int| 0 <= i < self.index.pages.item@.len() && #[trigger] self.kept(words, filters, i)
            ==> order.contains(i)
        &&& forall|a: int, b: int| 0 <= a < b < order.len() ==> self.comes_before(words, #[trigger] order[a], #[trigger] order[b])
    }

    /// `found` lists the results for `words` and `filters`, best first.
    pub open spec fn answers(&self, words: Seq<Seq<char>>, filters: Map<Seq<char>, Set<Seq<char>>>, found: Seq<Article>) -> bool {
        exists|order: Seq<int>| self.is_ranking(words, filters, order) && self.lists(found, order)
    }

    /// `found` holds the feed's articles in the order `order`.
    pub open spec fn lists(&self, found: Seq<Article>, order: Seq<int>) -> bool {
        &&& found.len() == order.len()
        &&& forall|k: int| 0 <= k < order.len() ==> article_view(#[trigger] found[k]) == article_view(self.index.pages.item@[order[k]])
    }
}

/// Orders (rank, article) entries, given with article numbers that increase,
/// by rank from high to low, keeping article order among equal ranks.
fn order_by_rank(cands: &Vec<(u32, usize)>) -> (out: Vec<(u32, usize)>)
    requires
        forall|i: int, j: int| 0 <= i < j < cands@.len() ==> (#[trigger] cands@[i]).1 < (#[trigger] cands@[j]).1,
    ensures
        out@.len() == cands@.len(),
        forall|x: (u32, usize)| out@.contains(x) <==> cands@.contains(x),
        ranked(out@),
{
    let mut out: Vec<(u32, usize)> = Vec::new();
    let n = cands.len();
    for k in 0..n
        invariant
            n == cands@.len(),
            forall|i: int, j: int| 0 <= i < j < cands@.len() ==> (#[trigger] cands@[i]).1 < (#[trigger] cands@[j]).1,
            out@.len() == k,
            forall|x: (u32, usize)| out@.contains(x) <==> cands@.take(k as int).contains(x),
            ranked(out@),
    {
        let e = cands[k];
        let mut p: usize = 0;
        while p < out.len() && out[p].0 >= e.0
            invariant
                p <= out@.len(),
                forall|q: int| 0 <= q < p ==> (#[trigger] out@[q]).0 >= e.0,
            decreases out@.len() - p,
        {
            p += 1;
        }
        let ghost old_out = out@;
        proof {
            assert forall|q: int| 0 <= q < old_out.len() implies (#[trigger] old_out[q]).1 < e.1 by {
                assert(old_out.contains(old_out[q]));
                assert(cands@.take(k as int).contains(old_out[q]));
                let l = choose|l: int| 0 <= l < cands@.take(k as int).len() && #[trigger] cands@.take(k as int)[l] == old_out[q];
                assert(cands@[l] == old_out[q]);
            }
            assert forall|q: int| p <= q < old_out.len() implies (#[trigger] old_out[q]).0 < e.0 by {
                if q > p {
                    assert(outranks(old_out[p as int], old_out[q]));
                }
            }
        }
        out.insert(p, e);
        proof {
            let nw = out@;
            assert(nw == old_out.insert(p as int, e));
            assert forall|i: int, j: int| 0 <= i < j < nw.len() implies outranks(#[trigger] nw[i], #[trigger] nw[j]) by {
                if j < p {
                    assert(nw[i] == old_out[i] && nw[j] == old_out[j]);
                } else if j == p {
                    assert(nw[i] == old_out[i]);
                } else if i < p {
                    assert(nw[i] == old_out[i] && nw[j] == old_out[j - 1]);
                } else if i == p {
                    assert(nw[j] == old_out[j - 1]);
                } else {
                    assert(nw[i] == old_out[i - 1] && nw[j] == old_out[j - 1]);
                }
            }
            assert(cands@.take(k + 1) == cands@.take(k as int).push(e));
            assert forall|x: (u32, usize)| nw.contains(x) <==> cands@.take(k + 1).contains(x) by {
                assert(nw[p as int] == e);
                assert(cands@.take(k + 1)[k as int] == e);
                if cands@.take(k + 1).contains(x) && x != e {
                    let l = choose|l: int| 0 <= l < cands@.take(k + 1).len() && #[trigger] cands@.take(k + 1)[l] == x;
                    assert(cands@.take(k as int)[l] == x);
                    assert(cands@.take(k as int).contains(x));
                }
                if old_out.contains(x) {
                    let q = choose|q: int| 0 <= q < old_out.len() && #[trigger] old_out[q] == x;
                    if q < p {
                        assert(nw[q] == x);
                    } else {
                        assert(nw[q + 1] == x);
                    }
                }
                if nw.contains(x) && x != e {
                    let q = choose|q: int| 0 <= q < nw.len() && #[trigger] nw[q] == x;
                    if q < p {
                        assert(old_out[q] == x);
                    } else {
                        assert(old_out[q - 1] == x);
                    }
                    assert(old_out.contains(x));
                    assert(cands@.take(k as int).contains(x));
                    let l = choose|l: int| 0 <= l < cands@.take(k as int).len() && #[trigger] cands@.take(k as int)[l] == x;
                    assert(cands@.take(k + 1)[l] == x);
                }
            }
        }
    }
    assert(cands@.take(n as int) == cands@);
    out
}

/// The search engine: the feed, the fields that queries are matched
/// against, and the matcher weights.
pub struct SearchEngin {
    pub index: Search,
    pub match_fields: Vec<String>,
    pub matcher: ScoreConfig,
}

fn add_found(filters: &mut Filters, key: &String, found: &Vec<String>)
    requires
        no_empty_sets(filter_sets(old(filters)@)),
    ensures
        no_empty_sets(filter_sets(final(filters)@)),
        forall|k: Seq<char>, t: Seq<char>|
            #[trigger] has_pair(filter_sets(final(filters)@), k, t) <==> has_pair(filter_sets(old(filters)@), k, t)
                || (k == key@ && text_set(found@).contains(t)),
{
    let n = found.len();
    for j in 0..n
        invariant
            n == found@.len(),
            no_empty_sets(filter_sets(filters@)),
            forall|k: Seq<char>, t: Seq<char>|
                #[trigger] has_pair(filter_sets(filters@), k, t) <==> has_pair(filter_sets(old(filters)@), k, t)
                    || (k == key@ && text_set(found@.take(j as int)).contains(t)),
    {
        let ghost before = filter_sets(filters@);
        filters.add_term(key.clone(), found[j].clone());
        proof {
            let now = filter_sets(filters@);
            assert forall|k: Seq<char>, t: Seq<char>|
                #[trigger] has_pair(now, k, t) <==> has_pair(filter_sets(old(filters)@), k, t)
                    || (k == key@ && text_set(found@.take(j + 1)).contains(t)) by {
                assert(found@.take(j + 1)[j as int] == found@[j as int]);
                if text_set(found@.take(j as int)).contains(t) {
                    let l = choose|l: int| 0 <= l < found@.take(j as int).len() && #[trigger] found@.take(j as int)[l]@ == t;
                    assert(found@.take(j + 1)[l]@ == t);
                }
                if text_set(found@.take(j + 1)).contains(t) && t != found@[j as int]@ {
                    let l = choose|l: int| 0 <= l < found@.take(j + 1).len() && #[trigger] found@.take(j + 1)[l]@ == t;
                    assert(found@.take(j as int)[l]@ == t);
                }
                assert(has_pair(now, k, t) <==> has_pair(before, k, t) || (k == key@ && t == found@[j as int]@));
            }
            assert forall|k: Seq<char>| #[trigger] now.contains_key(k) implies exists|t: Seq<char>| now[k].contains(t) by {
                if k == key@ {
                    assert(now[k].contains(found@[j as int]@));
                } else {
                    assert(before.contains_key(k));
                    let t = choose|t: Seq<char>| before[k].contains(t);
                    assert(now[k].contains(t));
                }
            }
        }
    }
    assert(found@.take(n as int) == found@);
}

impl SearchEngin {
    /// An engine over the feed `index`, set up by `config`.
    pub fn new(config: &Config, index: Search) -> (e: SearchEngin)
        ensures
            e.index == index,
            e.match_fields@ == config.match_fields@,
            e.matcher == resolved_weights(config.skim),
    {
        SearchEngin {
            index,
            match_fields: copy_texts(&config.match_fields),
            matcher: resolve_weights(&config.skim),
        }
    }

    /// Splits a query into its white-space separated words.
    pub fn tokenize(&self, query: &str) -> (tokens: Vec<String>)
        ensures
            texts(tokens@) == words(query@),
    {
        words_of(query)
    }

    /// The terms of `keywords` that `keyword` matches well.
    pub fn fuzzy_search(&self, keyword: &str, keywords: &TermSet) -> (found: Vec<String>)
        requires
            keywords.wf(),
            forall|t: Seq<char>| keywords@.contains(t) ==> matcher_fits(self.matcher, t.len() as int),
        ensures
            text_set(found@) == keywords@.filter(|t: Seq<char>| good_match(self.matcher, t, keyword@)),
            distinct_texts(found@),
            found@.len() <= keywords.terms@.len(),
    {
        let mut found: Vec<String> = Vec::new();
        let n = keywords.terms.len();
        for i in 0..n
            invariant
                n == keywords.terms@.len(),
                keywords.wf(),
                forall|t: Seq<char>| keywords@.contains(t) ==> matcher_fits(self.matcher, t.len() as int),
                text_set(found@) == text_set(keywords.terms@.take(i as int)).filter(
                    |t: Seq<char>| good_match(self.matcher, t, keyword@),
                ),
                distinct_texts(found@),
                found@.len() <= i,
        {
            let ghost before = found@;
            let choice = &keywords.terms[i];
            proof {
                assert(keywords@.contains(keywords.terms@[i as int]@));
                let pre = keywords.terms@.take(i as int);
                assert(!text_set(pre).contains(choice@)) by {
                    if text_set(pre).contains(choice@) {
                        let l = choose|l: int| 0 <= l < pre.len() && #[trigger] pre[l]@ == choice@;
                        assert(keywords.terms@[l]@ == choice@);
                    }
                }
                assert(!text_set(before).contains(choice@));
            }
            if matches_well(&self.matcher, choice.as_str(), keyword) {
                found.push(choice.clone());
            }
            proof {
                let pre = keywords.terms@.take(i as int);
                let post = keywords.terms@.take(i + 1);
                assert(post[i as int] == keywords.terms@[i as int]);
                assert forall|t: Seq<char>| text_set(post).contains(t) <==> text_set(pre).contains(t) || t == keywords.terms@[i as int]@ by {
                    if text_set(pre).contains(t) {
                        let l = choose|l: int| 0 <= l < pre.len() && #[trigger] pre[l]@ == t;
                        assert(post[l]@ == t);
                    }
                    if text_set(post).contains(t) && t != keywords.terms@[i as int]@ {
                        let l = choose|l: int| 0 <= l < post.len() && #[trigger] post[l]@ == t;
                        assert(pre[l]@ == t);
                    }
                }
                assert forall|t: Seq<char>| text_set(found@).contains(t) <==> text_set(before).contains(t)
                    || (t == keywords.terms@[i as int]@ && good_match(self.matcher, t, keyword@)) by {
                    if text_set(before).contains(t) {
                        let l = choose|l: int| 0 <= l < before.len() && #[trigger] before[l]@ == t;
                        assert(found@[l]@ == t);
                    }
                    if text_set(found@).contains(t) && !text_set(before).contains(t) {
                        let l = choose|l: int| 0 <= l < found@.len() && #[trigger] found@[l]@ == t;
                        if l < before.len() {
                            assert(before[l]@ == t);
                        }
                    }
                    if t == keywords.terms@[i as int]@ && good_match(self.matcher, t, keyword@) {
                        assert(found@[found@.len() - 1]@ == t);
                    }
                }
                assert forall|t: Seq<char>| text_set(found@).contains(t) <==>
                    text_set(post).contains(t) && good_match(self.matcher, t, keyword@) by {
                    assert(text_set(before).contains(t) <==> text_set(pre).contains(t) && good_match(self.matcher, t, keyword@));
                }
                assert(text_set(found@) =~= text_set(post).filter(|t: Seq<char>| good_match(self.matcher, t, keyword@)));
                assert forall|a: int, b: int| 0 <= a < b < found@.len() implies (#[trigger] found@[a])@ != (#[trigger] found@[b])@ by {
                    if b == before.len() {
                        assert(before[a] == found@[a]);
                        assert(text_set(before).contains(before[a]@));
                    } else {
                        assert(before[a] == found@[a] && before[b] == found@[b]);
                    }
                }
            }
        }
        assert(keywords.terms@.take(n as int) == keywords.terms@);
        found
    }

    /// The feed's taxonomies with their terms.
    pub fn known_filters(&self) -> (known: Filters)
        ensures
            filter_sets(known@) == known_terms(self.index.taxonomies.item@),
            sets_wf(known),
    {
        let cats = &self.index.taxonomies.item;
        let mut known: Filters = StrMap::new();
        let n = cats.len();
        for i in 0..n
            invariant
                n == cats@.len(),
                filter_sets(known@) == known_terms(cats@.take(i as int)),
                sets_wf(known),
        {
            let c = &cats[i];
            let mut terms = TermSet::new();
            let m = c.terms.item.len();
            for j in 0..m
                invariant
                    m == c.terms.item@.len(),
                    terms.wf(),
                    terms@ == Set::new(|t: Seq<char>| exists|l: int| 0 <= l < j && #[trigger] c.terms.item@[l].name@ == t),
            {
                terms.insert(c.terms.item[j].name.clone());
                assert(terms@ =~= Set::new(|t: Seq<char>| exists|l: int| 0 <= l < j + 1 && #[trigger] c.terms.item@[l].name@ == t));
            }
            assert(terms@ =~= term_names(*c));
            let ghost before = known@;
            let ghost before_entries = known.entries@;
            let ghost new_terms = terms;
            known.insert(c.name.clone(), terms);
            proof {
                assert(cats@.take(i + 1).drop_last() == cats@.take(i as int));
                assert(cats@.take(i + 1).last() == *c);
                assert(filter_sets(known@) =~= filter_sets(before).insert(c.name@, term_names(*c)));
                assert forall|l: int| 0 <= l < known.entries@.len() implies (#[trigger] known.entries@[l]).1.wf() by {
                    if known.entries@[l].1 != new_terms {
                        let q = choose|q: int| 0 <= q < before_entries.len() && before_entries[q] == known.entries@[l];
                        assert(before_entries[q].1.wf());
                    }
                }
            }
        }
        assert(cats@.take(n as int) == cats@);
        known
    }

    fn hits_for(&self, known: &Filters, word: &String, filters: &mut Filters) -> (matched: bool)
        requires
            no_empty_sets(filter_sets(old(filters)@)),
            sets_wf(*known),
            known_fit(self.matcher, filter_sets(known@)),
        ensures
            no_empty_sets(filter_sets(final(filters)@)),
            forall|k: Seq<char>, t: Seq<char>|
                #[trigger] has_pair(filter_sets(final(filters)@), k, t) <==> has_pair(filter_sets(old(filters)@), k, t)
                    || (has_pair(filter_sets(known@), k, t) && good_match(self.matcher, t, word@)),
            matched == hits(self.matcher, filter_sets(known@), word@),
    {
        let ghost ks = filter_sets(known@);
        let mut matched = false;
        let n = known.entries.len();
        for i in 0..n
            invariant
                n == known.entries@.len(),
                ks == filter_sets(known@),
                sets_wf(*known),
                known_fit(self.matcher, ks),
                no_empty_sets(filter_sets(filters@)),
                forall|k: Seq<char>, t: Seq<char>|
                    #[trigger] has_pair(filter_sets(filters@), k, t) <==> has_pair(filter_sets(old(filters)@), k, t)
                        || (exists|l: int| 0 <= l < i && !shadowed(known.entries@, l) && #[trigger] known.entries@[l].0@ == k
                            && known.entries@[l].1@.contains(t) && good_match(self.matcher, t, word@)),
                matched == exists|l: int, t: Seq<char>| 0 <= l < i && !shadowed(known.entries@, l)
                    && #[trigger] known.entries@[l].1@.contains(t) && good_match(self.matcher, t, word@),
        {
            if !known.is_shadowed(i) {
                let key = &known.entries[i].0;
                assert(known.entries@[i as int].1.wf());
                proof {
                    lemma_assoc_entry(known.entries@, i as int);
                    assert forall|t: Seq<char>| known.entries@[i as int].1@.contains(t)
                        implies matcher_fits(self.matcher, t.len() as int) by {
                        assert(has_pair(ks, key@, t));
                    }
                }
                let found = self.fuzzy_search(word.as_str(), &known.entries[i].1);
                let ghost before = filter_sets(filters@);
                add_found(filters, key, &found);
                if found.len() > 0 {
                    proof {
                        assert(text_set(found@).contains(found@[0]@));
                    }
                    matched = true;
                }
                proof {
                    assert forall|t: Seq<char>| text_set(found@).contains(t) <==>
                        known.entries@[i as int].1@.contains(t) && good_match(self.matcher, t, word@) by {
                    }
                    if !matched {
                        assert forall|t: Seq<char>| !(known.entries@[i as int].1@.contains(t) && good_match(self.matcher, t, word@)) by {
                            if known.entries@[i as int].1@.contains(t) && good_match(self.matcher, t, word@) {
                                assert(text_set(found@).contains(t));
                                let l = choose|l: int| 0 <= l < found@.len() && #[trigger] found@[l]@ == t;
                            }
                        }
                    }
                }
            }
        }
        proof {
            assert forall|k: Seq<char>, t: Seq<char>|
                (exists|l: int| 0 <= l < n && !shadowed(known.entries@, l) && #[trigger] known.entries@[l].0@ == k
                    && known.entries@[l].1@.contains(t) && good_match(self.matcher, t, word@))
                <==> (#[trigger] has_pair(ks, k, t) && good_match(self.matcher, t, word@)) by {
                if has_pair(ks, k, t) && good_match(self.matcher, t, word@) {
                    lemma_assoc_key(known.entries@, k);
                    let l = choose|l: int| 0 <= l < known.entries@.len() && known.entries@[l].0@ == k && !shadowed(known.entries@, l);
                    lemma_assoc_entry(known.entries@, l);
                }
                if exists|l: int| 0 <= l < n && !shadowed(known.entries@, l) && #[trigger] known.entries@[l].0@ == k
                    && known.entries@[l].1@.contains(t) && good_match(self.matcher, t, word@) {
                    let l = choose|l: int| 0 <= l < n && !shadowed(known.entries@, l) && #[trigger] known.entries@[l].0@ == k
                        && known.entries@[l].1@.contains(t) && good_match(self.matcher, t, word@);
                    lemma_assoc_entry(known.entries@, l);
                }
            }
            if matched {
                let (l, t) = choose|l: int, t: Seq<char>| 0 <= l < n && !shadowed(known.entries@, l)
                    && #[trigger] known.entries@[l].1@.contains(t) && good_match(self.matcher, t, word@);
                lemma_assoc_entry(known.entries@, l);
                assert(has_pair(ks, known.entries@[l].0@, t));
            }
            if hits(self.matcher, ks, word@) {
                let (k, t) = choose|k: Seq<char>, t: Seq<char>| #[trigger] has_pair(ks, k, t) && good_match(self.matcher, t, word@);
                lemma_assoc_key(known.entries@, k);
                let l = choose|l: int| 0 <= l < known.entries@.len() && known.entries@[l].0@ == k && !shadowed(known.entries@, l);
                lemma_assoc_entry(known.entries@, l);
                assert(known.entries@[l].1@.contains(t));
            }
        }
        matched
    }

    /// Splits the words of a query into the filters they ask for and the
    /// words that are left to rank by.
    pub fn detect_filters(&self, tokens: &[String]) -> (r: (Filters, Vec<String>))
        requires
            tokens@.len() > 0 ==> known_fit(self.matcher, known_terms(self.index.taxonomies.item@)),
        ensures
            filter_sets(r.0@) == detected(self.matcher, known_terms(self.index.taxonomies.item@), texts(tokens@)),
            texts(r.1@) == unmatched(self.matcher, known_terms(self.index.taxonomies.item@), texts(tokens@)),
    {
        let known = self.known_filters();
        let ghost ks = filter_sets(known@);
        let ghost ws = texts(tokens@);
        let mut filters: Filters = StrMap::new();
        let mut remaining: Vec<String> = Vec::new();
        assert(filter_sets(filters@) =~= Map::<Seq<char>, Set<Seq<char>>>::empty());
        proof {
            reveal_with_fuel(Seq::filter, 1);
        }
        let n = tokens.len();
        for i in 0..n
            invariant
                n == tokens@.len(),
                ks == filter_sets(known@),
                ks == known_terms(self.index.taxonomies.item@),
                ws == texts(tokens@),
                n > 0 ==> known_fit(self.matcher, ks),
                sets_wf(known),
                no_empty_sets(filter_sets(filters@)),
                forall|k: Seq<char>, t: Seq<char>|
                    #[trigger] has_pair(filter_sets(filters@), k, t) <==> picked(self.matcher, ks, ws.take(i as int), k, t),
                texts(remaining@) == unmatched(self.matcher, ks, ws.take(i as int)),
        {
            let word = &tokens[i];
            let ghost before = remaining@;
            let matched = self.hits_for(&known, word, &mut filters);
            if !matched {
                remaining.push(word.clone());
            }
            proof {
                let pre = ws.take(i as int);
                let post = ws.take(i + 1);
                assert(post[i as int] == word@);
                assert(post.drop_last() == pre);
                assert forall|k: Seq<char>, t: Seq<char>|
                    #[trigger] has_pair(filter_sets(filters@), k, t) <==> picked(self.matcher, ks, post, k, t) by {
                    if picked(self.matcher, ks, post, k, t) {
                        let l = choose|l: int| 0 <= l < post.len() && good_match(self.matcher, t, #[trigger] post[l]);
                        if l < i {
                            assert(pre[l] == post[l]);
                        }
                    }
                    if picked(self.matcher, ks, pre, k, t) {
                        let l = choose|l: int| 0 <= l < pre.len() && good_match(self.matcher, t, #[trigger] pre[l]);
                        assert(post[l] == pre[l]);
                    }
                }
                reveal_with_fuel(Seq::filter, 1);
                assert(unmatched(self.matcher, ks, post) == {
                    let rest = unmatched(self.matcher, ks, pre);
                    if !hits(self.matcher, ks, word@) { rest.push(word@) } else { rest }
                });
                assert(texts(remaining@) =~= unmatched(self.matcher, ks, post));
            }
        }
        assert(ws.take(n as int) == ws);
        assert(filter_sets(filters@) =~= detected(self.matcher, ks, ws)) by {
            assert forall|k: Seq<char>| #[trigger] filter_sets(filters@).contains_key(k) <==>
                detected(self.matcher, ks, ws).contains_key(k) by {
                if filter_sets(filters@).contains_key(k) {
                    let t = choose|t: Seq<char>| filter_sets(filters@)[k].contains(t);
                    assert(has_pair(filter_sets(filters@), k, t));
                }
                if detected(self.matcher, ks, ws).contains_key(k) {
                    let t = choose|t: Seq<char>| picked(self.matcher, ks, ws, k, t);
                    assert(has_pair(filter_sets(filters@), k, t));
                }
            }
            assert forall|k: Seq<char>| #[trigger] filter_sets(filters@).contains_key(k) implies
                filter_sets(filters@)[k] =~= detected(self.matcher, ks, ws)[k] by {
                assert forall|t: Seq<char>| filter_sets(filters@)[k].contains(t) <==> detected(self.matcher, ks, ws)[k].contains(t) by {
                    assert(has_pair(filter_sets(filters@), k, t) <==> picked(self.matcher, ks, ws, k, t));
                }
            }
        }
        (filters, remaining)
    }

    /// The rank of `article` for the words `tokens`.
    pub fn rank(&self, article: &Article, tokens: &[String]) -> (score: u32)
        requires
            rank_fits(self.matcher, article.fields@, texts(self.match_fields@), texts(tokens@)),
        ensures
            score == capped(total_points(self.matcher, article.fields@, texts(self.match_fields@), texts(tokens@))),
    {
        let ghost ws = texts(tokens@);
        let ghost mf = texts(self.match_fields@);
        let ghost fields = article.fields@;
        let mut score: u32 = 0;
        let n = tokens.len();
        let m = self.match_fields.len();
        for i in 0..n
            invariant
                n == tokens@.len(),
                m == self.match_fields@.len(),
                ws == texts(tokens@),
                mf == texts(self.match_fields@),
                fields == article.fields@,
                rank_fits(self.matcher, fields, mf, ws),
                score == capped(total_points(self.matcher, fields, mf, ws.take(i as int))),
        {
            let token = &tokens[i];
            let ghost done = total_points(self.matcher, fields, mf, ws.take(i as int));
            proof {
                lemma_total_points_nonneg(self.matcher, fields, mf, ws.take(i as int));
            }
            for j in 0..m
                invariant
                    m == self.match_fields@.len(),
                    mf == texts(self.match_fields@),
                    fields == article.fields@,
                    rank_fits(self.matcher, fields, mf, ws),
                    i < ws.len(),
                    ws[i as int] == token@,
                    done >= 0,
                    score == capped(done + word_points(self.matcher, fields, mf.take(j as int), token@)),
            {
                let field = &self.match_fields[j];
                let ghost so_far = word_points(self.matcher, fields, mf.take(j as int), token@);
                proof {
                    assert(mf[j as int] == field@);
                    assert(pair_fits(self.matcher, fields, mf[j as int], ws[i as int]));
                    lemma_word_points_nonneg(self.matcher, fields, mf.take(j as int), token@);
                    assert(mf.take(j + 1).drop_last() == mf.take(j as int));
                    assert(mf.take(j + 1).last() == field@);
                }
                match article.fields.get(field.as_str()) {
                    Some(value) => {
                        match skim_match(&self.matcher, value.as_str(), token.as_str()) {
                            Some(s) => {
                                if s > 0 {
                                    let w: u32 = if same_text(field.as_str(), "title") { 10 } else { 1 };
                                    assert(w == weight(field@));
                                    let points: u32 = ((s as u32) + 1) * w;
                                    assert(points == field_points(self.matcher, fields, field@, token@));
                                    score = score.saturating_add(points);
                                } else {
                                    assert(field_points(self.matcher, fields, field@, token@) == 0);
                                }
                            },
                            None => {
                                assert(field_points(self.matcher, fields, field@, token@) == 0);
                            },
                        }
                    },
                    None => {
                        assert(field_points(self.matcher, fields, field@, token@) == 0);
                    },
                }
            }
            proof {
                assert(mf.take(m as int) == mf);
                assert(ws.take(i + 1).drop_last() == ws.take(i as int));
                assert(ws.take(i + 1).last() == token@);
            }
        }
        assert(ws.take(n as int) == ws);
        score
    }

    /// The articles that pass `filters` and, when there are words, rank
    /// above zero for `tokens`; best rank first, feed order among equals.
    pub fn search(&self, tokens: &[String], filters: &Filters) -> (found: Vec<Article>)
        requires
            self.ranks_fit(texts(tokens@), filter_sets(filters@)),
            self.titled(filter_sets(filters@)),
        ensures
            exists|order: Seq<int>|
                self.is_ranking(texts(tokens@), filter_sets(filters@), order) && self.lists(found@, order),
    {
        let ghost ws = texts(tokens@);
        let ghost fs = filter_sets(filters@);
        let pages = &self.index.pages.item;
        let n = pages.len();
        let mut cands: Vec<(u32, usize)> = Vec::new();
        for i in 0..n
            invariant
                n == self.index.pages.item@.len(),
                pages == &self.index.pages.item,
                ws == texts(tokens@),
                fs == filter_sets(filters@),
                self.ranks_fit(ws, fs),
                forall|x: (u32, usize)| cands@.contains(x) <==> (x.1 < i && self.kept(ws, fs, x.1 as int)
                    && x.0 == self.rank_of(self.index.pages.item@[x.1 as int], ws)),
                forall|a: int, b: int| 0 <= a < b < cands@.len() ==> (#[trigger] cands@[a]).1 < (#[trigger] cands@[b]).1,
                forall|a: int| 0 <= a < cands@.len() ==> (#[trigger] cands@[a]).1 < i,
        {
            let a = &pages[i];
            let ghost before = cands@;
            if a.has_all_filters(filters) {
                let r = self.rank(a, tokens);
                if tokens.len() == 0 || r > 0 {
                    cands.push((r, i));
                }
            }
            proof {
                assert forall|x: (u32, usize)| cands@.contains(x) <==> (x.1 < i + 1 && self.kept(ws, fs, x.1 as int)
                    && x.0 == self.rank_of(self.index.pages.item@[x.1 as int], ws)) by {
                    if before.contains(x) {
                        let q = choose|q: int| 0 <= q < before.len() && #[trigger] before[q] == x;
                        assert(cands@[q] == x);
                    }
                    if cands@.contains(x) && !before.contains(x) {
                        let q = choose|q: int| 0 <= q < cands@.len() && #[trigger] cands@[q] == x;
                        if q < before.len() {
                            assert(before[q] == x);
                        }
                    }
                    if x.1 == i && self.kept(ws, fs, x.1 as int) && x.0 == self.rank_of(self.index.pages.item@[x.1 as int], ws) {
                        assert(cands@[cands@.len() - 1] == x);
                    }
                }
            }
        }
        let order = order_by_rank(&cands);
        let mut found: Vec<Article> = Vec::new();
        let m = order.len();
        for k in 0..m
            invariant
                m == order@.len(),
                n == self.index.pages.item@.len(),
                pages == &self.index.pages.item,
                forall|x: (u32, usize)| order@.contains(x) <==> cands@.contains(x),
                forall|x: (u32, usize)| cands@.contains(x) <==> (x.1 < n && self.kept(ws, fs, x.1 as int)
                    && x.0 == self.rank_of(self.index.pages.item@[x.1 as int], ws)),
                found@.len() == k,
                forall|q: int| 0 <= q < k ==> article_view(#[trigger] found@[q]) == article_view(
                    self.index.pages.item@[order@[q].1 as int],
                ),
        {
            assert(order@.contains(order@[k as int]));
            found.push(pages[order[k].1].duplicate());
        }
        let ghost ord = order@.map_values(|x: (u32, usize)| x.1 as int);
        proof {
            assert forall|k: int| 0 <= k < ord.len() implies 0 <= #[trigger] ord[k] < self.index.pages.item@.len()
                && self.kept(ws, fs, ord[k]) by {
                assert(order@.contains(order@[k]));
            }
            assert forall|i: int| 0 <= i < self.index.pages.item@.len() && #[trigger] self.kept(ws, fs, i)
                implies ord.contains(i) by {
                let x = (self.rank_of(self.index.pages.item@[i], ws) as u32, i as usize);
                assert(self.rank_of(self.index.pages.item@[i], ws) <= u32::MAX) by {
                    lemma_total_points_nonneg(self.matcher, self.index.pages.item@[i].fields@, texts(self.match_fields@), ws);
                }
                assert(cands@.contains(x));
                assert(order@.contains(x));
                let q = choose|q: int| 0 <= q < order@.len() && #[trigger] order@[q] == x;
                assert(ord[q] == i);
            }
            assert forall|a: int, b: int| 0 <= a < b < ord.len() implies self.comes_before(ws, #[trigger] ord[a], #[trigger] ord[b]) by {
                assert(outranks(order@[a], order@[b]));
                assert(order@.contains(order@[a]));
                assert(order@.contains(order@[b]));
            }
            assert(self.lists(found@, ord));
        }
        found
    }

    /// The results for a query: its words that name taxonomy terms become
    /// filters, and the other words rank the articles.
    pub fn search_articles(&self, query: &str) -> (found: Vec<Article>)
        requires
            self.answerable(query@),
        ensures
            self.answers(
                unmatched(self.matcher, known_terms(self.index.taxonomies.item@), words(query@)),
                detected(self.matcher, known_terms(self.index.taxonomies.item@), words(query@)),
                found@,
            ),
    {
        let tokens = self.tokenize(query);
        let (filters, rank_tokens) = self.detect_filters(tokens.as_slice());
        self.search(rank_tokens.as_slice(), &filters)
    }

    /// The results for a query under filters chosen by the user.
    pub fn search_with_filters(&self, query: &str, filters: &Filters) -> (found: Vec<Article>)
        requires
            self.ranks_fit(words(query@), filter_sets(filters@)),
            self.titled(filter_sets(filters@)),
        ensures
            self.answers(words(query@), filter_sets(filters@), found@),
    {
        let tokens = self.tokenize(query);
        self.search(tokens.as_slice(), filters)
    }

    /// The results for a query, as `search_articles` gives them, where the
    /// query can be answered without overflow or a missing title; `None`
    /// where it cannot.
    pub fn try_search_articles(&self, query: &str) -> (r: Option<Vec<Article>>)
        ensures
            r is None <==> !self.answerable(query@),
            match r {
                Some(v) => self.answers(
                    unmatched(self.matcher, known_terms(self.index.taxonomies.item@), words(query@)),
                    detected(self.matcher, known_terms(self.index.taxonomies.item@), words(query@)),
                    v@,
                ),
                None => true,
            },
    {
        let tokens = self.tokenize(query);
        if tokens.len() > 0 && !self.terms_fit() {
            return None;
        }
        let (filters, rank_tokens) = self.detect_filters(tokens.as_slice());
        if !self.titled_under(&filters) || !self.ranks_fit_under(rank_tokens.as_slice(), &filters) {
            return None;
        }
        Some(self.search_articles(query))
    }

    /// The results for a query under filters chosen by the user, as
    /// `search_with_filters` gives them, where they can be found without
    /// overflow or a missing title; `None` where they cannot.
    pub fn try_search_with_filters(&self, query: &str, filters: &Filters) -> (r: Option<Vec<Article>>)
        ensures
            r is None <==> !(self.ranks_fit(words(query@), filter_sets(filters@)) && self.titled(filter_sets(filters@))),
            match r {
                Some(v) => self.answers(words(query@), filter_sets(filters@), v@),
                None => true,
            },
    {
        let tokens = self.tokenize(query);
        if !self.titled_under(filters) || !self.ranks_fit_under(tokens.as_slice(), filters) {
            return None;
        }
        Some(self.search_with_filters(query, filters))
    }

    /// Whether every article of the feed that passes `filters` has a title
    /// field.
    pub fn titled_under(&self, filters: &Filters) -> (r: bool)
        ensures
            r == self.titled(filter_sets(filters@)),
    {
        let pages = &self.index.pages.item;
        let n = pages.len();
        for i in 0..n
            invariant
                n == pages@.len(),
                pages == &self.index.pages.item,
                forall|a: int| 0 <= a < i && passes(article_sets(#[trigger] pages@[a]), filter_sets(filters@))
                    ==> pages@[a].fields@.contains_key("title"@),
        {
            if pages[i].has_all_filters(filters) && pages[i].fields.get("title").is_none() {
                return false;
            }
        }
        true
    }

    /// Whether every term of every taxonomy of the feed is short enough for
    /// the matcher.
    pub fn terms_fit(&self) -> (r: bool)
        ensures
            r == known_fit(self.matcher, known_terms(self.index.taxonomies.item@)),
    {
        let known = self.known_filters();
        let ghost ks = filter_sets(known@);
        let n = known.entries.len();
        for i in 0..n
            invariant
                n == known.entries@.len(),
                ks == filter_sets(known@),
                ks == known_terms(self.index.taxonomies.item@),
                forall|a: int, b: int| 0 <= a < i && !shadowed(known.entries@, a) && 0 <= b < known.entries@[a].1.terms@.len()
                    ==> matcher_fits(self.matcher, (#[trigger] known.entries@[a].1.terms@[b])@.len() as int),
        {
            if !known.is_shadowed(i) {
                let terms = &known.entries[i].1.terms;
                let m = terms.len();
                for j in 0..m
                    invariant
                        m == terms@.len(),
                        i < n,
                        n == known.entries@.len(),
                        !shadowed(known.entries@, i as int),
                        ks == filter_sets(known@),
                        ks == known_terms(self.index.taxonomies.item@),
                        terms == &known.entries@[i as int].1.terms,
                        forall|a: int, b: int| 0 <= a < i && !shadowed(known.entries@, a) && 0 <= b < known.entries@[a].1.terms@.len()
                            ==> matcher_fits(self.matcher, (#[trigger] known.entries@[a].1.terms@[b])@.len() as int),
                        forall|b: int| 0 <= b < j ==> matcher_fits(self.matcher, (#[trigger] terms@[b])@.len() as int),
                {
                    if !matcher_fits_len(&self.matcher, terms[j].as_str().unicode_len()) {
                        proof {
                            lemma_assoc_entry(known.entries@, i as int);
                            let t = terms@[j as int]@;
                            assert(known.entries@[i as int].1@.contains(t));
                            assert(has_pair(ks, known.entries@[i as int].0@, t));
                            assert(!matcher_fits(self.matcher, t.len() as int));
                        }
                        return false;
                    }
                }
            }
        }
        proof {
            assert forall|k: Seq<char>, t: Seq<char>| #[trigger] has_pair(ks, k, t)
                implies matcher_fits(self.matcher, t.len() as int) by {
                lemma_assoc_key(known.entries@, k);
                let a = choose|a: int| 0 <= a < known.entries@.len() && known.entries@[a].0@ == k && !shadowed(known.entries@, a);
                lemma_assoc_entry(known.entries@, a);
                let b = choose|b: int| 0 <= b < known.entries@[a].1.terms@.len() && #[trigger] known.entries@[a].1.terms@[b]@ == t;
            }
        }
        true
    }

    /// Whether ranking `article` for `tokens` neither overflows the matcher
    /// nor the points of a single match.
    pub fn rank_fits_for(&self, article: &Article, tokens: &[String]) -> (r: bool)
        ensures
            r == rank_fits(self.matcher, article.fields@, texts(self.match_fields@), texts(tokens@)),
    {
        let ghost ws = texts(tokens@);
        let ghost mf = texts(self.match_fields@);
        let ghost fields = article.fields@;
        let n = tokens.len();
        let m = self.match_fields.len();
        for i in 0..n
            invariant
                n == tokens@.len(),
                m == self.match_fields@.len(),
                ws == texts(tokens@),
                mf == texts(self.match_fields@),
                fields == article.fields@,
                forall|a: int, b: int| 0 <= a < i && 0 <= b < m ==> #[trigger] pair_fits(self.matcher, fields, mf[b], ws[a]),
        {
            let token = &tokens[i];
            for j in 0..m
                invariant
                    n == tokens@.len(),
                    m == self.match_fields@.len(),
                    ws == texts(tokens@),
                    mf == texts(self.match_fields@),
                    fields == article.fields@,
                    i < n,
                    token == &tokens@[i as int],
                    forall|a: int, b: int| 0 <= a < i && 0 <= b < m ==> #[trigger] pair_fits(self.matcher, fields, mf[b], ws[a]),
                    forall|b: int| 0 <= b < j ==> #[trigger] pair_fits(self.matcher, fields, mf[b], ws[i as int]),
            {
                let field = &self.match_fields[j];
                assert(mf[j as int] == field@ && ws[i as int] == token@);
                match article.fields.get(field.as_str()) {
                    Some(value) => {
                        if !matcher_fits_len(&self.matcher, value.as_str().unicode_len()) {
                            assert(!pair_fits(self.matcher, fields, mf[j as int], ws[i as int]));
                            return false;
                        }
                        match skim_match(&self.matcher, value.as_str(), token.as_str()) {
                            Some(s) => {
                                if s > 0 {
                                    let w: u64 = if same_text(field.as_str(), "title") { 10 } else { 1 };
                                    assert(w == weight(field@));
                                    if ((s as u64) + 1) * w > 0xffff_ffff {
                                        assert(!pair_fits(self.matcher, fields, mf[j as int], ws[i as int]));
                                        return false;
                                    }
                                }
                            },
                            None => {},
                        }
                    },
                    None => {},
                }
                assert(pair_fits(self.matcher, fields, mf[j as int], ws[i as int]));
            }
        }
        true
    }

    /// Whether every article of the feed that passes `filters` can be ranked
    /// for `tokens` without overflow.
    pub fn ranks_fit_under(&self, tokens: &[String], filters: &Filters) -> (r: bool)
        ensures
            r == self.ranks_fit(texts(tokens@), filter_sets(filters@)),
    {
        let pages = &self.index.pages.item;
        let n = pages.len();
        for i in 0..n
            invariant
                n == pages@.len(),
                pages == &self.index.pages.item,
                forall|a: int| 0 <= a < i && passes(article_sets(#[trigger] pages@[a]), filter_sets(filters@))
                    ==> rank_fits(self.matcher, pages@[a].fields@, texts(self.match_fields@), texts(tokens@)),
        {
            if pages[i].has_all_filters(filters) && !self.rank_fits_for(&pages[i], tokens) {
                return false;
            }
        }
        true
    }
}

} // verus!
