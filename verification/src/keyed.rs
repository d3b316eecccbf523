use vstd::prelude::*;

verus! {

/// Whether two texts hold the same characters.
pub(crate) fn same_text(a: &str, b: &str) -> (r: bool)
    ensures
        r == (a@ == b@),
{
    let n = a.unicode_len();
    if n != b.unicode_len() {
        return false;
    }
    let mut i: usize = 0;
    while i < n
        invariant
            n == a@.len(),
            n == b@.len(),
            i <= n,
            forall|j: int| 0 <= j < i ==> a@[j] == b@[j],
        decreases n - i,
    {
        if a.get_char(i) != b.get_char(i) {
            return false;
        }
        i += 1;
    }
    assert(a@ =~= b@);
    true
}

/// The map that an association list stands for: a later entry for a key
/// overrides an earlier one.
pub open spec fn assoc<V>(s: Seq<(String, V)>) -> Map<Seq<char>, V>
    decreases s.len(),
{
    if s.len() == 0 {
        Map::empty()
    } else {
        assoc(s.drop_last()).insert(s.last().0@, s.last().1)
    }
}

/// Entry `i` of `s` is overridden by a later entry with the same key.
pub open spec fn shadowed<V>(s: Seq<(String, V)>, i: int) -> bool {
    exists|j: int| i < j < s.len() && #[trigger] s[j].0@ == s[i].0@
}

pub proof fn lemma_assoc_dom<V>(s: Seq<(String, V)>, k: Seq<char>)
    ensures
        assoc(s).contains_key(k) <==> exists|i: int| 0 <= i < s.len() && #[trigger] s[i].0@ == k,
    decreases s.len(),
{
    if s.len() > 0 {
        lemma_assoc_dom(s.drop_last(), k);
        if assoc(s.drop_last()).contains_key(k) {
            let i = choose|i: int| 0 <= i < s.drop_last().len() && #[trigger] s.drop_last()[i].0@ == k;
            assert(s[i].0@ == k);
        }
        if exists|i: int| 0 <= i < s.len() && #[trigger] s[i].0@ == k {
            let i = choose|i: int| 0 <= i < s.len() && #[trigger] s[i].0@ == k;
            if i < s.len() - 1 {
                assert(s.drop_last()[i].0@ == k);
            }
        }
    }
}

pub proof fn lemma_assoc_entry<V>(s: Seq<(String, V)>, i: int)
    requires
        0 <= i < s.len(),
        !shadowed(s, i),
    ensures
        assoc(s).contains_key(s[i].0@),
        assoc(s)[s[i].0@] == s[i].1,
    decreases s.len(),
{
    if i < s.len() - 1 {
        assert(s.last().0@ != s[i].0@) by {
            assert(s[s.len() - 1].0@ != s[i].0@);
        }
        assert(!shadowed(s.drop_last(), i)) by {
            if shadowed(s.drop_last(), i) {
                let j = choose|j: int| i < j < s.drop_last().len() && #[trigger] s.drop_last()[j].0@ == s.drop_last()[i].0@;
                assert(s[j].0@ == s[i].0@);
            }
        }
        lemma_assoc_entry(s.drop_last(), i);
    }
}

/// Every key of the map is held by exactly one entry that no later entry
/// overrides.
pub proof fn lemma_assoc_key<V>(s: Seq<(String, V)>, k: Seq<char>)
    requires
        assoc(s).contains_key(k),
    ensures
        exists|i: int| 0 <= i < s.len() && s[i].0@ == k && !shadowed(s, i),
    decreases s.len(),
{
    if s.last().0@ == k {
        assert(!shadowed(s, s.len() - 1));
    } else {
        lemma_assoc_key(s.drop_last(), k);
        let i = choose|i: int| 0 <= i < s.drop_last().len() && s.drop_last()[i].0@ == k && !shadowed(s.drop_last(), i);
        assert(!shadowed(s, i)) by {
            if shadowed(s, i) {
                let j = choose|j: int| i < j < s.len() && #[trigger] s[j].0@ == s[i].0@;
                if j < s.len() - 1 {
                    assert(s.drop_last()[j].0@ == s.drop_last()[i].0@);
                }
            }
        }
        assert(s[i].0@ == k);
    }
}

pub proof fn lemma_assoc_update<V>(s: Seq<(String, V)>, i: int, e: (String, V))
    requires
        0 <= i < s.len(),
        !shadowed(s, i),
        e.0@ == s[i].0@,
    ensures
        assoc(s.update(i, e)) == assoc(s).insert(e.0@, e.1),
    decreases s.len(),
{
    if i == s.len() - 1 {
        assert(s.update(i, e).drop_last() == s.drop_last());
    } else {
        assert(!shadowed(s.drop_last(), i)) by {
            if shadowed(s.drop_last(), i) {
                let j = choose|j: int| i < j < s.drop_last().len() && #[trigger] s.drop_last()[j].0@ == s.drop_last()[i].0@;
                assert(s[j].0@ == s[i].0@);
            }
        }
        assert(s[s.len() - 1].0@ != s[i].0@);
        lemma_assoc_update(s.drop_last(), i, e);
        assert(s.update(i, e).drop_last() == s.drop_last().update(i, e));
        assert(assoc(s.update(i, e)) =~= assoc(s).insert(e.0@, e.1));
    }
}

/// Two association lists with the same keys, in the same order, whose
/// values agree under `f`, stand for maps that agree under `f`.
pub proof fn lemma_assoc_agree<V, W>(s1: Seq<(String, V)>, s2: Seq<(String, V)>, f: spec_fn(V) -> W)
    requires
        s1.len() == s2.len(),
        forall|i: int| 0 <= i < s1.len() ==> #[trigger] s1[i].0@ == s2[i].0@ && f(s1[i].1) == f(s2[i].1),
    ensures
        assoc(s1).map_values(f) == assoc(s2).map_values(f),
    decreases s1.len(),
{
    if s1.len() > 0 {
        lemma_assoc_agree(s1.drop_last(), s2.drop_last(), f);
        let n = s1.len() - 1;
        assert(s1[n].0@ == s2[n].0@);
        assert(assoc(s1).map_values(f) =~= assoc(s1.drop_last()).map_values(f).insert(s1.last().0@, f(s1.last().1)));
        assert(assoc(s2).map_values(f) =~= assoc(s2.drop_last()).map_values(f).insert(s2.last().0@, f(s2.last().1)));
    }
}

/// A map with string keys, kept as a list of entries in insertion order.
pub struct StrMap<V> {
    pub entries: Vec<(String, V)>,
}

impl<V> View for StrMap<V> {
    type V = Map<Seq<char>, V>;

    open spec fn view(&self) -> Map<Seq<char>, V> {
        assoc(self.entries@)
    }
}

impl<V> StrMap<V> {
    /// The empty map.
    pub fn new() -> (m: Self)
        ensures
            m@ == Map::<Seq<char>, V>::empty(),
            m.entries@.len() == 0,
    {
        StrMap { entries: Vec::new() }
    }

    /// Whether entry `i` is overridden by a later entry with the same key.
    pub fn is_shadowed(&self, i: usize) -> (r: bool)
        requires
            i < self.entries@.len(),
        ensures
            r == shadowed(self.entries@, i as int),
    {
        let n = self.entries.len();
        let mut j = i + 1;
        while j < n
            invariant
                n == self.entries@.len(),
                i < j <= n,
                forall|l: int| i < l < j ==> #[trigger] self.entries@[l].0@ != self.entries@[i as int].0@,
            decreases n - j,
        {
            if same_text(self.entries[j].0.as_str(), self.entries[i].0.as_str()) {
                return true;
            }
            j += 1;
        }
        false
    }

    /// The position of the entry that holds `key`, if any.
    pub fn position(&self, key: &str) -> (r: Option<usize>)
        ensures
            match r {
                Some(i) => i < self.entries@.len() && self.entries@[i as int].0@ == key@
                    && !shadowed(self.entries@, i as int),
                None => !self@.contains_key(key@),
            },
    {
        let n = self.entries.len();
        let mut j = n;
        while j > 0
            invariant
                n == self.entries@.len(),
                j <= n,
                forall|l: int| j <= l < n ==> #[trigger] self.entries@[l].0@ != key@,
            decreases j,
        {
            j -= 1;
            if same_text(self.entries[j].0.as_str(), key) {
                return Some(j);
            }
        }
        proof {
            lemma_assoc_dom(self.entries@, key@);
        }
        None
    }

    /// The value held for `key`, if any.
    pub fn get(&self, key: &str) -> (r: Option<&V>)
        ensures
            match r {
                Some(v) => self@.contains_key(key@) && *v == self@[key@],
                None => !self@.contains_key(key@),
            },
    {
        match self.position(key) {
            Some(i) => {
                proof {
                    lemma_assoc_entry(self.entries@, i as int);
                }
                Some(&self.entries[i].1)
            },
            None => None,
        }
    }

    /// Sets the value held for `key`.
    pub fn insert(&mut self, key: String, value: V)
        ensures
            final(self)@ == old(self)@.insert(key@, value),
            forall|j: int| 0 <= j < final(self).entries@.len() ==> (#[trigger] final(self).entries@[j]).1 == value
                || old(self).entries@.contains(final(self).entries@[j]),
    {
        match self.position(key.as_str()) {
            Some(i) => {
                proof {
                    lemma_assoc_update(self.entries@, i as int, (key, value));
                }
                let ghost before = self.entries@;
                self.entries.set(i, (key, value));
                assert forall|j: int| 0 <= j < self.entries@.len() && j != i implies before.contains(
                    #[trigger] self.entries@[j],
                ) by {
                    assert(before[j] == self.entries@[j]);
                }
            },
            None => {
                let ghost before = self.entries@;
                self.entries.push((key, value));
                assert(self.entries@.drop_last() == before);
                assert forall|j: int| 0 <= j < before.len() implies before.contains(#[trigger] self.entries@[j]) by {
                    assert(before[j] == self.entries@[j]);
                }
            },
        }
    }
}

/// No string occurs twice in the list.
pub open spec fn distinct_texts(v: Seq<String>) -> bool {
    forall|i: int, j: int| 0 <= i < j < v.len() ==> (#[trigger] v[i])@ != (#[trigger] v[j])@
}

/// A set of strings, kept as a list in which no string occurs twice.
pub struct TermSet {
    pub terms: Vec<String>,
}

/// The strings that a list holds, as a set.
pub open spec fn text_set(v: Seq<String>) -> Set<Seq<char>> {
    Set::new(|t: Seq<char>| exists|i: int| 0 <= i < v.len() && #[trigger] v[i]@ == t)
}

impl View for TermSet {
    type V = Set<Seq<char>>;

    open spec fn view(&self) -> Set<Seq<char>> {
        text_set(self.terms@)
    }
}

impl TermSet {
    /// No term occurs twice in the list.
    pub open spec fn wf(&self) -> bool {
        distinct_texts(self.terms@)
    }

    /// The empty set.
    pub fn new() -> (s: Self)
        ensures
            s@ == Set::<Seq<char>>::empty(),
            s.wf(),
    {
        let s = TermSet { terms: Vec::new() };
        assert(s@ =~= Set::<Seq<char>>::empty());
        s
    }

    /// Whether `term` belongs to the set.
    pub fn contains(&self, term: &str) -> (r: bool)
        ensures
            r == self@.contains(term@),
    {
        let n = self.terms.len();
        for i in 0..n
            invariant
                n == self.terms@.len(),
                forall|l: int| 0 <= l < i ==> #[trigger] self.terms@[l]@ != term@,
        {
            if same_text(self.terms[i].as_str(), term) {
                return true;
            }
        }
        false
    }

    /// Adds `term`; returns whether it was new.
    pub fn insert(&mut self, term: String) -> (added: bool)
        ensures
            final(self)@ == old(self)@.insert(term@),
            added == !old(self)@.contains(term@),
            old(self).wf() ==> final(self).wf(),
    {
        if self.contains(term.as_str()) {
            assert(self@.insert(term@) =~= self@);
            false
        } else {
            let ghost before = self.terms@;
            let ghost t = term@;
            self.terms.push(term);
            assert forall|i: int, j: int| 0 <= i < j < self.terms@.len() && distinct_texts(before) implies
                (#[trigger] self.terms@[i])@ != (#[trigger] self.terms@[j])@ by {
                if j == before.len() {
                    assert(before[i] == self.terms@[i]);
                    assert(text_set(before).contains(before[i]@));
                } else {
                    assert(before[i] == self.terms@[i] && before[j] == self.terms@[j]);
                }
            }
            assert(self@ =~= text_set(before).insert(t)) by {
                assert(self.terms@[before.len() as int]@ == t);
                assert forall|x: Seq<char>| self@.contains(x) implies text_set(before).insert(t).contains(x) by {
                    let i = choose|i: int| 0 <= i < self.terms@.len() && #[trigger] self.terms@[i]@ == x;
                    if i < before.len() {
                        assert(before[i]@ == x);
                    }
                }
                assert forall|x: Seq<char>| text_set(before).insert(t).contains(x) implies self@.contains(x) by {
                    if x != t {
                        let i = choose|i: int| 0 <= i < before.len() && #[trigger] before[i]@ == x;
                        assert(self.terms@[i]@ == x);
                    }
                }
            }
            true
        }
    }
}

} // verus!
