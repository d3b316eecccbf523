use vstd::prelude::*;

verus! {

/// The characters with the Unicode `White_Space` property.
pub open spec fn is_white_space(c: char) -> bool {
    let n = c as u32;
    ||| 0x09 <= n <= 0x0d
    ||| n == 0x20
    ||| n == 0x85
    ||| n == 0xa0
    ||| n == 0x1680
    ||| 0x2000 <= n <= 0x200a
    ||| n == 0x2028
    ||| n == 0x2029
    ||| n == 0x202f
    ||| n == 0x205f
    ||| n == 0x3000
}

/// Whether `c` carries the Unicode `White_Space` property, as
/// `char::is_whitespace` tells.
fn char_is_whitespace(c: char) -> (b: bool)
    ensures
        b == is_white_space(c),
{
    let n = c as u32;
    (0x09 <= n && n <= 0x0d) || n == 0x20 || n == 0x85 || n == 0xa0 || n == 0x1680
        || (0x2000 <= n && n <= 0x200a) || n == 0x2028 || n == 0x2029 || n == 0x202f
        || n == 0x205f || n == 0x3000
}

/// Calls `String::push`, which appends one character.
#[verifier::external_body]
pub(crate) fn push_char(s: &mut String, c: char)
    ensures
        final(s)@ == old(s)@.push(c),
{
    s.push(c)
}

/// Words of `s` read so far (left to right), together with the word that is
/// still open at the end of `s`.
pub open spec fn split_state(s: Seq<char>) -> (Seq<Seq<char>>, Seq<char>)
    decreases s.len(),
{
    if s.len() == 0 {
        (seq![], seq![])
    } else {
        let (done, open) = split_state(s.drop_last());
        if is_white_space(s.last()) {
            if open.len() > 0 {
                (done.push(open), seq![])
            } else {
                (done, seq![])
            }
        } else {
            (done, open.push(s.last()))
        }
    }
}

/// The maximal runs of non-white-space characters of `s`, in order.
pub open spec fn words(s: Seq<char>) -> Seq<Seq<char>> {
    let (done, open) = split_state(s);
    if open.len() > 0 {
        done.push(open)
    } else {
        done
    }
}

/// Splits a query into its white-space separated words.
pub fn words_of(query: &str) -> (tokens: Vec<String>)
    ensures
        tokens@.map_values(|t: String| t@) == words(query@),
{
    broadcast use vstd::string::group_string_axioms;
    let mut done: Vec<String> = Vec::new();
    let mut open = String::new();
    let ghost mut seen: Seq<char> = seq![];
    for c in it: query.chars()
        invariant
            it.seq() == query@,
            seen == query@.take(it.index() as int),
            done@.map_values(|t: String| t@) == split_state(seen).0,
            open@ == split_state(seen).1,
    {
        assert(seen.push(c) == query@.take(it.index() + 1));
        assert(seen.push(c).drop_last() == seen);
        if char_is_whitespace(c) {
            if !open.as_str().is_empty() {
                let w = open;
                done.push(w);
                open = String::new();
            }
        } else {
            push_char(&mut open, c);
        }
        proof { seen = seen.push(c); }
    }
    assert(seen == query@);
    if !open.as_str().is_empty() {
        done.push(open);
    }
    done
}

} // verus!
