//! Regular-expression matching, done by the `regex` crate.

use vstd::prelude::*;
use vstd::string::*;

verus! {

/// Whether `regex` compiles the pattern `pattern`.
pub uninterp spec fn regex_compiles(pattern: Seq<char>) -> bool;

/// What `regex` finds when the compiled pattern `pattern` is run over `text`:
/// the successive matches that do not overlap, from left to right, each with
/// the text of every group of the pattern, the whole match first, and `None`
/// for a group that took no part.
pub uninterp spec fn regex_finds(pattern: Seq<char>, text: Seq<char>) -> Seq<Seq<Option<Seq<char>>>>;

/// `regex::Regex::new` and `Regex::captures_iter`: compiles `pattern` once
/// and collects, for each of `texts` and each match in it, the text of each
/// group. `None` where the pattern does not compile. What is found in a text
/// is a function of the pattern and that text alone.
#[verifier::external_body]
fn run_regex(pattern: &str, texts: &Vec<String>) -> (r: Option<Vec<Vec<Vec<Option<String>>>>>)
    ensures
        r.is_some() == regex_compiles(pattern@),
        r.is_some() ==> r.unwrap().len() == texts.len(),
        r.is_some() ==> forall|i: int|
            0 <= i < texts.len() ==> (#[trigger] r.unwrap()[i]).deep_view() == regex_finds(
                pattern@,
                texts[i]@,
            ),
{
    match regex::Regex::new(pattern) {
        Ok(re) => Some(
            texts.iter().map(
                |t| re.captures_iter(t).map(
                    |caps| caps.iter().map(|g| g.map(|m| m.as_str().to_string())).collect(),
                ).collect(),
            ).collect(),
        ),
        Err(_) => None,
    }
}

/// The matches of `pattern` in `text`; none where the pattern does not
/// compile.
pub open spec fn matches_of(pattern: Seq<char>, text: Seq<char>) -> Seq<Seq<Option<Seq<char>>>> {
    if regex_compiles(pattern) {
        regex_finds(pattern, text)
    } else {
        Seq::empty()
    }
}

/// The text of group `g` of the match `m`, where that group took part.
pub open spec fn group(m: Seq<Option<Seq<char>>>, g: int) -> Option<Seq<char>> {
    if 0 <= g < m.len() {
        m[g]
    } else {
        None
    }
}

/// The text of group `g` of the match `m`; empty where it took no part.
pub open spec fn group_or_empty(m: Seq<Option<Seq<char>>>, g: int) -> Seq<char> {
    match group(m, g) {
        Some(s) => s,
        None => Seq::empty(),
    }
}

/// The texts of group `g` of those of the matches `ms` in which it took part.
pub open spec fn group_texts(ms: Seq<Seq<Option<Seq<char>>>>, g: int) -> Seq<Seq<char>>
    decreases ms.len(),
{
    if ms.len() == 0 {
        Seq::empty()
    } else {
        let rest = group_texts(ms.drop_last(), g);
        match group(ms.last(), g) {
            Some(s) => rest.push(s),
            None => rest,
        }
    }
}

/// Runs `pattern` over each of `texts`.
pub fn find_matches_in(pattern: &str, texts: &Vec<String>) -> (found: Vec<Vec<Vec<Option<String>>>>)
    ensures
        found.len() == texts.len(),
        forall|i: int|
            0 <= i < texts.len() ==> (#[trigger] found[i]).deep_view() == matches_of(
                pattern@,
                texts[i]@,
            ),
{
    match run_regex(pattern, texts) {
        Some(found) => found,
        None => {
            let mut found: Vec<Vec<Vec<Option<String>>>> = Vec::new();
            let mut i: usize = 0;
            while i < texts.len()
                invariant
                    i <= texts.len(),
                    found.len() == i,
                    !regex_compiles(pattern@),
                    forall|k: int| 0 <= k < i ==> (#[trigger] found[k]).deep_view() =~= Seq::empty(),
                decreases texts.len() - i,
            {
                let none: Vec<Vec<Option<String>>> = Vec::new();
                assert(none.deep_view() =~= Seq::empty());
                found.push(none);
                i += 1;
            }
            found
        },
    }
}

/// Runs `pattern` over `text`.
pub fn find_matches(pattern: &str, text: &str) -> (ms: Vec<Vec<Option<String>>>)
    ensures
        ms.deep_view() == matches_of(pattern@, text@),
{
    let mut texts: Vec<String> = Vec::new();
    texts.push(String::from_str(text));
    let mut found = find_matches_in(pattern, &texts);
    assert(found[0].deep_view() == matches_of(pattern@, texts[0]@));
    match found.pop() {
        Some(ms) => ms,
        None => Vec::new(),
    }
}

/// The text of group `g` of the match `m`, where that group took part.
pub fn group_of(m: &Vec<Option<String>>, g: usize) -> (r: Option<String>)
    ensures
        r.deep_view() == group(m.deep_view(), g as int),
{
    if g < m.len() {
        match &m[g] {
            Some(s) => Some(s.clone()),
            None => None,
        }
    } else {
        None
    }
}

/// The text of group `g` of the match `m`; empty where it took no part.
pub fn group_text_of(m: &Vec<Option<String>>, g: usize) -> (r: String)
    ensures
        r@ == group_or_empty(m.deep_view(), g as int),
{
    match group_of(m, g) {
        Some(s) => s,
        None => String::new(),
    }
}

/// The texts of group `g` of those of the matches `ms` in which it took part.
pub fn group_texts_of(ms: &Vec<Vec<Option<String>>>, g: usize) -> (r: Vec<String>)
    ensures
        r.deep_view() == group_texts(ms.deep_view(), g as int),
{
    let ghost mv = ms.deep_view();
    let mut r: Vec<String> = Vec::new();
    let mut i: usize = 0;
    assert(mv.take(0) =~= Seq::empty());
    assert(r.deep_view() =~= Seq::empty());
    while i < ms.len()
        invariant
            i <= ms.len(),
            mv == ms.deep_view(),
            r.deep_view() == group_texts(mv.take(i as int), g as int),
        decreases ms.len() - i,
    {
        proof {
            assert(mv.take(i + 1).drop_last() =~= mv.take(i as int));
            assert(mv.take(i + 1).last() == mv[i as int]);
            assert(mv[i as int] == ms[i as int].deep_view());
        }
        let ghost before = r.deep_view();
        match group_of(&ms[i], g) {
            Some(s) => {
                r.push(s);
                assert(r.deep_view() =~= before.push(s@));
            },
            None => {},
        }
        i += 1;
    }
    assert(mv.take(ms.len() as int) =~= mv);
    r
}

} // verus!
