use vstd::prelude::*;
use crate::keyed::{StrMap, TermSet, shadowed, text_set, lemma_assoc_entry, lemma_assoc_key};
use crate::search::{Article, Filters, filter_sets, has_pair, no_empty_sets, texts};
use crate::text::push_char;

verus! {

/// Where an edit puts a value in the page: an attribute, or the inner HTML.
pub enum Field {
    Attribute(String),
    InnerHTML,
}

impl Field {
    /// A copy of the field.
    pub fn duplicate(&self) -> (r: Field)
        ensures
            r == *self,
    {
        match self {
            Field::Attribute(a) => Field::Attribute(a.clone()),
            Field::InnerHTML => Field::InnerHTML,
        }
    }
}

/// One edit of a result card: the element `id` gets the article's field
/// `article_field` in `html_field`.
pub struct EditConfig {
    pub id: String,
    pub html_field: Field,
    pub article_field: String,
}

pub struct Config {
    pub page: PageConfig,
}

/// The page's card template, the list that receives the cards, and the
/// edits that fill a card.
pub struct PageConfig {
    pub template_id: String,
    pub list_id: String,
    pub inner: Option<Box<PageConfig>>,
    pub edit: Vec<EditConfig>,
}

/// One edit to perform on a card: select `selector`, write `value` into `field`.
pub struct EditStep {
    pub selector: String,
    pub field: Field,
    pub value: String,
}

/// The CSS selector of the element with id `id`.
pub open spec fn id_selector_text(id: Seq<char>) -> Seq<char> {
    seq!['#'] + id
}

/// The CSS selector of the element with the given id.
pub fn id_selector(id: &str) -> (r: String)
    ensures
        r@ == id_selector_text(id@),
{
    let mut r = String::new();
    push_char(&mut r, '#');
    r.append(id);
    r
}

/// The CSS selector of the checkbox for `term` of `taxonomy`.
pub open spec fn checkbox_selector_text(taxonomy: Seq<char>, term: Seq<char>) -> Seq<char> {
    "input[type=\"checkbox\"][name=\""@ + taxonomy + "\"][value=\""@ + term + "\"]"@
}

/// The CSS selector of the checkbox for `term` of `taxonomy`.
pub fn checkbox_selector(taxonomy: &str, term: &str) -> (r: String)
    ensures
        r@ == checkbox_selector_text(taxonomy@, term@),
{
    let mut r = String::from_str("input[type=\"checkbox\"][name=\"");
    r.append(taxonomy);
    r.append("\"][value=\"");
    r.append(term);
    r.append("\"]");
    r
}

/// A filter written as text: the taxonomy, a colon, the term.
pub open spec fn filter_text(taxonomy: Seq<char>, term: Seq<char>) -> Seq<char> {
    taxonomy + seq![':'] + term
}

/// The filter `taxonomy:term` as text.
pub fn format_filter(taxonomy: &str, term: &str) -> (r: String)
    ensures
        r@ == filter_text(taxonomy@, term@),
{
    let mut r = String::from_str(taxonomy);
    push_char(&mut r, ':');
    r.append(term);
    r
}

/// The text before the first colon of `s` and the text after it; `None`
/// when `s` holds no colon.
pub open spec fn colon_split(s: Seq<char>) -> Option<(Seq<char>, Seq<char>)> {
    if s.contains(':') {
        let i = choose|i: int| 0 <= i < s.len() && s[i] == ':' && !s.take(i).contains(':');
        Some((s.take(i), s.skip(i + 1)))
    } else {
        None
    }
}

/// Writing a filter as text and splitting the text at its first colon gives
/// back the taxonomy and the term, when the taxonomy holds no colon.
pub proof fn lemma_colon_split(taxonomy: Seq<char>, term: Seq<char>)
    requires
        !taxonomy.contains(':'),
    ensures
        colon_split(filter_text(taxonomy, term)) == Some((taxonomy, term)),
{
    let s = filter_text(taxonomy, term);
    let n = taxonomy.len() as int;
    assert(s[n] == ':');
    assert(s.take(n) =~= taxonomy);
    assert(s.contains(':'));
    let i = choose|i: int| 0 <= i < s.len() && s[i] == ':' && !s.take(i).contains(':');
    if i < n {
        assert(taxonomy[i] == ':');
    }
    if i > n {
        assert(s.take(i)[n] == ':');
    }
    assert(i == n);
    assert(s.skip(n + 1) =~= term);
}

/// Splits `s` at its first colon.
pub fn parse_filter(s: &str) -> (r: Option<(String, String)>)
    ensures
        match r {
            Some((taxonomy, term)) => s@ == filter_text(taxonomy@, term@) && !taxonomy@.contains(':')
                && colon_split(s@) == Some((taxonomy@, term@)),
            None => !s@.contains(':') && colon_split(s@).is_none(),
        },
{
    broadcast use vstd::string::group_string_axioms;
    let mut taxonomy = String::new();
    let mut term = String::new();
    let mut found = false;
    let ghost mut seen: Seq<char> = seq![];
    for c in it: s.chars()
        invariant
            it.seq() == s@,
            seen == s@.take(it.index() as int),
            !taxonomy@.contains(':'),
            found ==> seen == filter_text(taxonomy@, term@),
            !found ==> seen == taxonomy@ && term@.len() == 0,
    {
        assert(seen.push(c) == s@.take(it.index() + 1));
        if found {
            push_char(&mut term, c);
        } else if c == ':' {
            found = true;
        } else {
            push_char(&mut taxonomy, c);
        }
        proof {
            seen = seen.push(c);
            if found {
                assert(seen =~= filter_text(taxonomy@, term@));
            }
        }
    }
    assert(seen == s@);
    if found {
        proof {
            lemma_colon_split(taxonomy@, term@);
        }
        Some((taxonomy, term))
    } else {
        None
    }
}

/// The selectors of the checkboxes that `filters` (texts of the form
/// `taxonomy:term`) name, in order; texts without a colon name none.
pub open spec fn selectors_of(filters: Seq<Seq<char>>) -> Seq<Seq<char>>
    decreases filters.len(),
{
    if filters.len() == 0 {
        seq![]
    } else {
        let rest = selectors_of(filters.drop_last());
        match colon_split(filters.last()) {
            Some((taxonomy, term)) => rest.push(checkbox_selector_text(taxonomy, term)),
            None => rest,
        }
    }
}

/// The selectors of the checkboxes that `filters` name.
pub fn checkbox_selectors(filters: &[String]) -> (out: Vec<String>)
    ensures
        texts(out@) == selectors_of(texts(filters@)),
{
    let ghost fs = texts(filters@);
    let mut out: Vec<String> = Vec::new();
    let n = filters.len();
    for i in 0..n
        invariant
            n == filters@.len(),
            fs == texts(filters@),
            texts(out@) == selectors_of(fs.take(i as int)),
    {
        let ghost before = out@;
        match parse_filter(filters[i].as_str()) {
            Some((taxonomy, term)) => {
                out.push(checkbox_selector(taxonomy.as_str(), term.as_str()));
            },
            None => {},
        }
        proof {
            assert(fs.take(i + 1).drop_last() == fs.take(i as int));
            assert(fs.take(i + 1).last() == filters@[i as int]@);
            assert(texts(out@) =~= selectors_of(fs.take(i + 1)));
        }
    }
    assert(fs.take(n as int) == fs);
    out
}

/// A checked box, given by its taxonomy name and its term (either may be
/// missing), stands for term `t` of taxonomy `k`.
pub open spec fn box_says(b: (Option<String>, Option<String>), k: Seq<char>, t: Seq<char>) -> bool {
    match b {
        (Some(a), Some(c)) => a@ == k && c@ == t,
        _ => false,
    }
}

/// Some checked box stands for term `t` of taxonomy `k`.
pub open spec fn checked_pair(boxes: Seq<(Option<String>, Option<String>)>, k: Seq<char>, t: Seq<char>) -> bool {
    exists|i: int| 0 <= i < boxes.len() && box_says(#[trigger] boxes[i], k, t)
}

/// The filters that the checked boxes stand for.
pub fn filters_from_checked(boxes: &Vec<(Option<String>, Option<String>)>) -> (f: Filters)
    ensures
        no_empty_sets(filter_sets(f@)),
        forall|k: Seq<char>, t: Seq<char>| #[trigger] has_pair(filter_sets(f@), k, t) <==> checked_pair(boxes@, k, t),
{
    let mut f: Filters = StrMap::new();
    assert(filter_sets(f@) =~= Map::<Seq<char>, Set<Seq<char>>>::empty());
    let n = boxes.len();
    for i in 0..n
        invariant
            n == boxes@.len(),
            no_empty_sets(filter_sets(f@)),
            forall|k: Seq<char>, t: Seq<char>| #[trigger] has_pair(filter_sets(f@), k, t) <==> checked_pair(boxes@.take(i as int), k, t),
    {
        let ghost before = filter_sets(f@);
        let pre = &boxes[i];
        match (&pre.0, &pre.1) {
            (Some(taxonomy), Some(term)) => {
                f.add_term(taxonomy.clone(), term.clone());
            },
            _ => {},
        }
        proof {
            let now = filter_sets(f@);
            let post = boxes@.take(i + 1);
            assert(post[i as int] == boxes@[i as int]);
            assert forall|k: Seq<char>, t: Seq<char>| #[trigger] has_pair(now, k, t) <==> checked_pair(post, k, t) by {
                assert(has_pair(now, k, t) <==> has_pair(before, k, t) || box_says(boxes@[i as int], k, t));
                if box_says(boxes@[i as int], k, t) {
                    assert(box_says(post[i as int], k, t));
                }
                if checked_pair(boxes@.take(i as int), k, t) {
                    let l = choose|l: int| 0 <= l < boxes@.take(i as int).len()
                        && box_says(#[trigger] boxes@.take(i as int)[l], k, t);
                    assert(post[l] == boxes@.take(i as int)[l]);
                }
                if checked_pair(post, k, t) {
                    let l = choose|l: int| 0 <= l < post.len() && box_says(#[trigger] post[l], k, t);
                    if l < i {
                        assert(boxes@.take(i as int)[l] == post[l]);
                    }
                }
            }
            assert forall|k: Seq<char>| #[trigger] now.contains_key(k) implies exists|t: Seq<char>| now[k].contains(t) by {
                if before.contains_key(k) {
                    let t = choose|t: Seq<char>| before[k].contains(t);
                    assert(has_pair(before, k, t));
                    assert(has_pair(now, k, t));
                } else {
                    match (boxes@[i as int].0, boxes@[i as int].1) {
                        (Some(a), Some(b)) => {
                            assert(has_pair(now, a@, b@));
                        },
                        _ => {},
                    }
                }
            }
        }
    }
    assert(boxes@.take(n as int) == boxes@);
    f
}

/// The edits that fill a card for `article`.
pub open spec fn steps_for(page: PageConfig, article: Article, steps: Seq<EditStep>) -> bool {
    &&& steps.len() == page.edit@.len()
    &&& forall|k: int| 0 <= k < steps.len() ==> {
        let e = page.edit@[k];
        &&& (#[trigger] steps[k]).selector@ == id_selector_text(e.id@)
        &&& steps[k].field == e.html_field
        &&& steps[k].value@ == article.fields@[e.article_field@]@
    }
}

/// The edits that fill a card for `article`, one per edit of the page, in order.
pub fn edit_steps(page: &PageConfig, article: &Article) -> (steps: Vec<EditStep>)
    requires
        forall|k: int| 0 <= k < page.edit@.len() ==> article.fields@.contains_key(#[trigger] page.edit@[k].article_field@),
    ensures
        steps_for(*page, *article, steps@),
{
    let mut steps: Vec<EditStep> = Vec::new();
    let n = page.edit.len();
    for k in 0..n
        invariant
            n == page.edit@.len(),
            forall|k: int| 0 <= k < page.edit@.len() ==> article.fields@.contains_key(#[trigger] page.edit@[k].article_field@),
            steps@.len() == k,
            forall|q: int| 0 <= q < k ==> {
                let e = page.edit@[q];
                &&& (#[trigger] steps@[q]).selector@ == id_selector_text(e.id@)
                &&& steps@[q].field == e.html_field
                &&& steps@[q].value@ == article.fields@[e.article_field@]@
            },
    {
        let e = &page.edit[k];
        assert(article.fields@.contains_key(page.edit@[k as int].article_field@));
        let value = match article.fields.get(e.article_field.as_str()) {
            Some(v) => v.clone(),
            None => String::new(),
        };
        steps.push(EditStep { selector: id_selector(e.id.as_str()), field: e.html_field.duplicate(), value });
    }
    steps
}

/// The `taxonomy:term` texts of a map of term sets.
pub open spec fn filter_text_set(m: Map<Seq<char>, Set<Seq<char>>>) -> Set<Seq<char>> {
    Set::new(|x: Seq<char>| exists|k: Seq<char>, t: Seq<char>| #[trigger] has_pair(m, k, t) && x == filter_text(k, t))
}

/// The `taxonomy:term` texts of the first `i` entries that no later entry overrides.
pub open spec fn entry_texts(s: Seq<(String, TermSet)>, i: int) -> Set<Seq<char>> {
    Set::new(|x: Seq<char>| exists|l: int, t: Seq<char>| 0 <= l < i && !shadowed(s, l)
        && #[trigger] s[l].1@.contains(t) && x == filter_text(s[l].0@, t))
}

/// The filters as `taxonomy:term` texts.
pub fn filter_texts(filters: &Filters) -> (out: Vec<String>)
    ensures
        text_set(out@) == filter_text_set(filter_sets(filters@)),
{
    let ghost fs = filter_sets(filters@);
    let mut out: Vec<String> = Vec::new();
    let n = filters.entries.len();
    assert(text_set(out@) =~= entry_texts(filters.entries@, 0));
    for i in 0..n
        invariant
            n == filters.entries@.len(),
            fs == filter_sets(filters@),
            text_set(out@) == entry_texts(filters.entries@, i as int),
    {
        if !filters.is_shadowed(i) {
            let key = &filters.entries[i].0;
            let terms = &filters.entries[i].1;
            let m = terms.terms.len();
            let ghost start = out@;
            for j in 0..m
                invariant
                    m == terms.terms@.len(),
                    out@.len() == start.len() + j,
                    forall|q: int| 0 <= q < start.len() ==> #[trigger] out@[q] == start[q],
                    forall|q: int| 0 <= q < j ==> (#[trigger] out@[start.len() + q])@ == filter_text(key@, terms.terms@[q]@),
            {
                out.push(format_filter(key.as_str(), terms.terms[j].as_str()));
            }
            proof {
                let es = filters.entries@;
                assert forall|x: Seq<char>| text_set(out@).contains(x) <==> entry_texts(es, i + 1).contains(x) by {
                    if text_set(out@).contains(x) {
                        let q = choose|q: int| 0 <= q < out@.len() && #[trigger] out@[q]@ == x;
                        if q < start.len() {
                            assert(start[q]@ == x);
                            assert(text_set(start).contains(x));
                        } else {
                            let j = q - start.len();
                            assert(out@[start.len() + j]@ == x);
                            assert(terms@.contains(terms.terms@[j]@));
                            assert(es[i as int].1@.contains(terms.terms@[j]@));
                        }
                    }
                    if entry_texts(es, i + 1).contains(x) {
                        let (l, t) = choose|l: int, t: Seq<char>| 0 <= l < i + 1 && !shadowed(es, l)
                            && #[trigger] es[l].1@.contains(t) && x == filter_text(es[l].0@, t);
                        if l < i {
                            assert(entry_texts(es, i as int).contains(x));
                            let q = choose|q: int| 0 <= q < start.len() && #[trigger] start[q]@ == x;
                            assert(out@[q]@ == x);
                        } else {
                            let j = choose|j: int| 0 <= j < terms.terms@.len() && #[trigger] terms.terms@[j]@ == t;
                            assert(out@[start.len() + j]@ == x);
                        }
                    }
                }
                assert(text_set(out@) =~= entry_texts(es, i + 1));
            }
        } else {
            assert(entry_texts(filters.entries@, i as int) =~= entry_texts(filters.entries@, i + 1));
        }
    }
    proof {
        let es = filters.entries@;
        assert forall|x: Seq<char>| entry_texts(es, n as int).contains(x) <==> filter_text_set(fs).contains(x) by {
            if entry_texts(es, n as int).contains(x) {
                let (l, t) = choose|l: int, t: Seq<char>| 0 <= l < n && !shadowed(es, l)
                    && #[trigger] es[l].1@.contains(t) && x == filter_text(es[l].0@, t);
                lemma_assoc_entry(es, l);
                assert(has_pair(fs, es[l].0@, t));
            }
            if filter_text_set(fs).contains(x) {
                let (k, t) = choose|k: Seq<char>, t: Seq<char>| #[trigger] has_pair(fs, k, t) && x == filter_text(k, t);
                lemma_assoc_key(es, k);
                let l = choose|l: int| 0 <= l < es.len() && es[l].0@ == k && !shadowed(es, l);
                lemma_assoc_entry(es, l);
                assert(es[l].1@.contains(t));
            }
        }
        assert(entry_texts(es, n as int) =~= filter_text_set(fs));
    }
    out
}

} // verus!
