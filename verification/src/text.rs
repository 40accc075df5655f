//! String helpers shared by the parser, the indexer and the graph builder.
//!
//! All contracts speak of a string through its view, a `Seq<char>`.

use vstd::prelude::*;
use vstd::string::*;
use vstd::std_specs::iter::IteratorSpec;

verus! {

/// The characters `.md`.
pub open spec fn md_suffix() -> Seq<char> {
    seq!['.', 'm', 'd']
}

/// `s` ends with `suf`.
pub open spec fn has_suffix(s: Seq<char>, suf: Seq<char>) -> bool {
    s.len() >= suf.len() && s.skip(s.len() - suf.len()) =~= suf
}

/// `s` begins with `pre`.
pub open spec fn has_prefix(s: Seq<char>, pre: Seq<char>) -> bool {
    s.len() >= pre.len() && s.take(pre.len() as int) =~= pre
}

/// `s` with one trailing `.md` removed, if it has one.
pub open spec fn strip_md(s: Seq<char>) -> Seq<char> {
    if has_suffix(s, md_suffix()) {
        s.take(s.len() - 3)
    } else {
        s
    }
}

/// `s` followed by `.md`.
pub open spec fn with_md(s: Seq<char>) -> Seq<char> {
    s + md_suffix()
}

/// Lexicographic order on strings by code point.
pub open spec fn lex_lt(a: Seq<char>, b: Seq<char>) -> bool
    decreases a.len(),
{
    if b.len() == 0 {
        false
    } else if a.len() == 0 {
        true
    } else if a[0] != b[0] {
        (a[0] as int) < (b[0] as int)
    } else {
        lex_lt(a.skip(1), b.skip(1))
    }
}

/// Every earlier element is strictly below every later one.
pub open spec fn strictly_sorted(s: Seq<Seq<char>>) -> bool {
    forall|i: int, j: int| 0 <= i < j < s.len() ==> lex_lt(#[trigger] s[i], #[trigger] s[j])
}

/// The views of the elements of `s`, in order.
pub open spec fn view_all<T: View>(s: Seq<T>) -> Seq<T::V> {
    Seq::new(s.len(), |i: int| s[i]@)
}

/// What follows the last `/` of `s`; all of `s` where it has none.
pub open spec fn last_segment(s: Seq<char>) -> Seq<char>
    decreases s.len(),
{
    if s.len() == 0 {
        s
    } else if s.last() == '/' {
        Seq::empty()
    } else {
        last_segment(s.drop_last()).push(s.last())
    }
}

/// The label of the note at `path`: its file name without `.md`.
pub open spec fn label_of(path: Seq<char>) -> Seq<char> {
    last_segment(strip_md(path))
}

/// `str`'s `<`: std orders strings lexicographically by their bytes, which
/// for UTF-8 is the order of their code points.
#[verifier::external_body]
pub(crate) fn str_lt(a: &str, b: &str) -> (r: bool)
    ensures
        r == lex_lt(a@, b@),
{
    a < b
}

/// Collects the characters of `s`.
pub fn chars_of(s: &str) -> (v: Vec<char>)
    ensures
        v@ == s@,
{
    broadcast use {axiom_spec_iter, next_postcondition};
    let mut it = s.chars();
    let mut v: Vec<char> = Vec::new();
    loop
        invariant
            it.obeys_prophetic_iter_laws(),
            v@ + it.remaining() =~= s@,
        ensures
            v@ =~= s@,
        decreases s@.len() - v@.len(),
    {
        match it.next() {
            Some(c) => {
                v.push(c);
            },
            None => {
                break;
            },
        }
    }
    v
}

/// `String::push`: appends the character `c` to `s`.
#[verifier::external_body]
fn push_char(s: &mut String, c: char)
    ensures
        final(s)@ == old(s)@.push(c),
{
    s.push(c)
}

/// The string made of the characters of `v`.
pub fn string_of(v: &Vec<char>) -> (s: String)
    ensures
        s@ == v@,
{
    let mut s = String::new();
    let mut i: usize = 0;
    while i < v.len()
        invariant
            i <= v.len(),
            s@ == v@.take(i as int),
        decreases v.len() - i,
    {
        push_char(&mut s, v[i]);
        assert(v@.take(i + 1) =~= v@.take(i as int).push(v[i as int]));
        i += 1;
    }
    assert(v@.take(v.len() as int) =~= v@);
    s
}

/// Appends `.md` to `s`.
pub fn with_md_suffix(s: &str) -> (r: String)
    ensures
        r@ == with_md(s@),
{
    proof {
        reveal_strlit(".md");
    }
    let r = String::from_str(s).concat(".md");
    assert(".md"@ =~= md_suffix());
    r
}

/// Removes one trailing `.md` from `s`, if it has one.
pub fn strip_md_suffix(s: &str) -> (r: String)
    ensures
        r@ == strip_md(s@),
{
    let n = s.unicode_len();
    if n >= 3 && s.get_char(n - 3) == '.' && s.get_char(n - 2) == 'm' && s.get_char(n - 1) == 'd' {
        assert(s@.skip(n - 3) =~= md_suffix());
        s.substring_char(0, n - 3).to_owned()
    } else {
        assert(!has_suffix(s@, md_suffix())) by {
            if has_suffix(s@, md_suffix()) {
                let t = s@.skip(s@.len() - 3);
                assert(t[0] == '.' && t[1] == 'm' && t[2] == 'd');
            }
        }
        s.to_owned()
    }
}

/// Where no `/` stands at or after `i`, and one stands just before `i` unless
/// `i` is 0, the last segment of `s` starts at `i`.
pub proof fn lemma_last_segment(s: Seq<char>, i: int)
    requires
        0 <= i <= s.len(),
        forall|j: int| i <= j < s.len() ==> s[j] != '/',
        i == 0 || s[i - 1] == '/',
    ensures
        last_segment(s) =~= s.skip(i),
    decreases s.len(),
{
    if s.len() > i {
        lemma_last_segment(s.drop_last(), i);
        assert(s.drop_last().skip(i).push(s.last()) =~= s.skip(i));
    }
}

/// The last segment of `s`.
pub fn last_segment_of(s: &str) -> (r: String)
    ensures
        r@ == last_segment(s@),
{
    let chars = chars_of(s);
    let mut i: usize = chars.len();
    while i > 0 && chars[i - 1] != '/'
        invariant
            i <= chars.len(),
            chars@ == s@,
            forall|j: int| i <= j < chars.len() ==> chars[j] != '/',
        decreases i,
    {
        i -= 1;
    }
    proof {
        lemma_last_segment(s@, i as int);
    }
    s.substring_char(i, chars.len()).to_owned()
}

/// The label of the note at `path`.
pub fn label_of_path(path: &str) -> (r: String)
    ensures
        r@ == label_of(path@),
{
    let stripped = strip_md_suffix(path);
    last_segment_of(stripped.as_str())
}

/// `lex_lt` is irreflexive.
pub proof fn lemma_lex_irreflexive(a: Seq<char>)
    ensures
        !lex_lt(a, a),
    decreases a.len(),
{
    if a.len() > 0 {
        lemma_lex_irreflexive(a.skip(1));
    }
}

/// Of two different strings one is below the other.
pub proof fn lemma_lex_total(a: Seq<char>, b: Seq<char>)
    ensures
        a == b || lex_lt(a, b) || lex_lt(b, a),
    decreases a.len(),
{
    if a.len() == 0 || b.len() == 0 {
        if a.len() == 0 && b.len() == 0 {
            assert(a =~= b);
        }
    } else if a[0] == b[0] {
        lemma_lex_total(a.skip(1), b.skip(1));
        if a.skip(1) == b.skip(1) {
            assert(a =~= seq![a[0]] + a.skip(1));
            assert(b =~= seq![b[0]] + b.skip(1));
        }
    } else {
        assert(a[0] as int != b[0] as int);
    }
}

/// `lex_lt` is transitive.
pub proof fn lemma_lex_transitive(a: Seq<char>, b: Seq<char>, c: Seq<char>)
    requires
        lex_lt(a, b),
        lex_lt(b, c),
    ensures
        lex_lt(a, c),
    decreases a.len(),
{
    if a.len() > 0 && a[0] == b[0] && b[0] == c[0] {
        lemma_lex_transitive(a.skip(1), b.skip(1), c.skip(1));
    }
}

/// Whether `c` is white space: one of the characters with the Unicode
/// property White_Space.
pub open spec fn white_space(c: char) -> bool {
    let n = c as int;
    ||| 0x09 <= n <= 0x0d
    ||| n == 0x20
    ||| n == 0x85
    ||| n == 0xa0
    ||| n == 0x1680
    ||| 0x2000 <= n <= 0x200a
    ||| n == 0x2028
    ||| n == 0x2029
    ||| n == 0x202f
    ||| n == 0x205f
    ||| n == 0x3000
}

/// `char::is_whitespace`: whether `c` has the Unicode property White_Space,
/// which the characters listed in `white_space` have and no others.
#[verifier::external_body]
pub(crate) fn is_whitespace(c: char) -> (r: bool)
    ensures
        r == white_space(c),
{
    c.is_whitespace()
}

/// The number of characters equal to `c` at the start of `s`.
pub open spec fn leading_run(s: Seq<char>, c: char) -> nat
    decreases s.len(),
{
    if s.len() > 0 && s[0] == c {
        1 + leading_run(s.skip(1), c)
    } else {
        0
    }
}

/// The number of white-space characters at the start of `s`.
pub open spec fn leading_ws(s: Seq<char>) -> nat
    decreases s.len(),
{
    if s.len() > 0 && white_space(s[0]) {
        1 + leading_ws(s.skip(1))
    } else {
        0
    }
}

/// The number of white-space characters at the end of `s`.
pub open spec fn trailing_ws(s: Seq<char>) -> nat
    decreases s.len(),
{
    if s.len() > 0 && white_space(s.last()) {
        1 + trailing_ws(s.drop_last())
    } else {
        0
    }
}

/// `s` without the white space at its start.
pub open spec fn trim_start(s: Seq<char>) -> Seq<char> {
    s.skip(leading_ws(s) as int)
}

/// `s` without the white space at its start and at its end.
pub open spec fn trim(s: Seq<char>) -> Seq<char> {
    let t = trim_start(s);
    t.take(t.len() - trailing_ws(t))
}

/// `s` without the characters equal to `c` at its start.
pub open spec fn strip_leading(s: Seq<char>, c: char) -> Seq<char> {
    s.skip(leading_run(s, c) as int)
}

/// The index of the first `c` in `s`; the length of `s` where it has none.
pub open spec fn first_index(s: Seq<char>, c: char) -> nat
    decreases s.len(),
{
    if s.len() == 0 || s[0] == c {
        0
    } else {
        1 + first_index(s.skip(1), c)
    }
}

/// `s` without one carriage return at its end, if it has one.
pub open spec fn strip_cr(s: Seq<char>) -> Seq<char> {
    if s.len() > 0 && s.last() == '\r' {
        s.drop_last()
    } else {
        s
    }
}

/// The lines of `s`: it is cut after each line feed, and a line loses its
/// line feed and a carriage return before it. What follows the last line
/// feed is a line unless it is empty.
pub open spec fn lines_of(s: Seq<char>) -> Seq<Seq<char>>
    decreases s.len(),
{
    if s.len() == 0 {
        Seq::empty()
    } else {
        let n = first_index(s, '\n');
        if n >= s.len() {
            seq![s]
        } else {
            seq![strip_cr(s.take(n as int))] + lines_of(s.skip(n as int + 1))
        }
    }
}

/// The pieces of `s` between the occurrences of `c`.
pub open spec fn split_on(s: Seq<char>, c: char) -> Seq<Seq<char>>
    decreases s.len(),
{
    let n = first_index(s, c);
    if n >= s.len() {
        seq![s]
    } else {
        seq![s.take(n as int)] + split_on(s.skip(n as int + 1), c)
    }
}

/// A line opens or closes a fenced block when three backticks follow its
/// leading white space.
pub open spec fn is_fence(line: Seq<char>) -> bool {
    let t = trim_start(line);
    t.len() >= 3 && t[0] == '`' && t[1] == '`' && t[2] == '`'
}

/// Where `c` stands at `k` and nowhere before, `k` is its first index.
pub proof fn lemma_first_index(s: Seq<char>, c: char, k: int)
    requires
        0 <= k <= s.len(),
        forall|j: int| 0 <= j < k ==> s[j] != c,
        k == s.len() || s[k] == c,
    ensures
        first_index(s, c) == k,
    decreases k,
{
    if k > 0 {
        lemma_first_index(s.skip(1), c, k - 1);
    }
}

/// Where the first `k` characters are white space and the next one is not,
/// `k` is the white space at the start.
pub proof fn lemma_leading_ws(s: Seq<char>, k: int)
    requires
        0 <= k <= s.len(),
        forall|j: int| 0 <= j < k ==> white_space(s[j]),
        k == s.len() || !white_space(s[k]),
    ensures
        leading_ws(s) == k,
    decreases k,
{
    if k > 0 {
        lemma_leading_ws(s.skip(1), k - 1);
    }
}

/// Where the last `k` characters are white space and the one before is not,
/// `k` is the white space at the end.
pub proof fn lemma_trailing_ws(s: Seq<char>, k: int)
    requires
        0 <= k <= s.len(),
        forall|j: int| s.len() - k <= j < s.len() ==> white_space(s[j]),
        k == s.len() || !white_space(s[s.len() - k - 1]),
    ensures
        trailing_ws(s) == k,
    decreases k,
{
    if k > 0 {
        lemma_trailing_ws(s.drop_last(), k - 1);
    }
}

/// Where the first `k` characters are `c` and the next one is not, `k` is the
/// run of `c` at the start.
pub proof fn lemma_leading_run(s: Seq<char>, c: char, k: int)
    requires
        0 <= k <= s.len(),
        forall|j: int| 0 <= j < k ==> s[j] == c,
        k == s.len() || s[k] != c,
    ensures
        leading_run(s, c) == k,
    decreases k,
{
    if k > 0 {
        lemma_leading_run(s.skip(1), c, k - 1);
    }
}

/// The characters of `v` from `from` up to `to`.
fn slice_chars(v: &Vec<char>, from: usize, to: usize) -> (r: Vec<char>)
    requires
        from <= to <= v.len(),
    ensures
        r@ == v@.subrange(from as int, to as int),
{
    let mut r: Vec<char> = Vec::new();
    let mut i: usize = from;
    while i < to
        invariant
            from <= i <= to <= v.len(),
            r@ == v@.subrange(from as int, i as int),
        decreases to - i,
    {
        r.push(v[i]);
        assert(r@ =~= v@.subrange(from as int, i + 1));
        i += 1;
    }
    assert(r@ =~= v@.subrange(from as int, to as int));
    r
}

/// The number of white-space characters at the start of `v`.
pub fn count_leading_ws(v: &Vec<char>) -> (k: usize)
    ensures
        k == leading_ws(v@),
        k <= v.len(),
{
    let mut k: usize = 0;
    while k < v.len() && is_whitespace(v[k])
        invariant
            k <= v.len(),
            forall|j: int| 0 <= j < k ==> white_space(v[j]),
        decreases v.len() - k,
    {
        k += 1;
    }
    proof {
        lemma_leading_ws(v@, k as int);
    }
    k
}

/// `v` without the white space at its start and at its end.
pub fn trim_chars(v: &Vec<char>) -> (r: Vec<char>)
    ensures
        r@ == trim(v@),
{
    let start = count_leading_ws(v);
    let mut end: usize = v.len();
    while end > start && is_whitespace(v[end - 1])
        invariant
            start <= end <= v.len(),
            forall|j: int| end <= j < v.len() ==> white_space(v[j]),
        decreases end,
    {
        end -= 1;
    }
    proof {
        let t = v@.skip(start as int);
        assert forall|j: int| t.len() - (v.len() - end) <= j < t.len() implies white_space(t[j]) by {
            assert(t[j] == v[j + start]);
        }
        if end > start {
            assert(t[end - start - 1] == v[end - 1]);
        }
        lemma_trailing_ws(t, v.len() - end);
        assert(t.take(t.len() - (v.len() - end)) =~= v@.subrange(start as int, end as int));
    }
    slice_chars(v, start, end)
}

/// `v` without the characters equal to `c` at its start.
pub fn strip_leading_chars(v: &Vec<char>, c: char) -> (r: Vec<char>)
    ensures
        r@ == strip_leading(v@, c),
{
    let mut k: usize = 0;
    while k < v.len() && v[k] == c
        invariant
            k <= v.len(),
            forall|j: int| 0 <= j < k ==> v[j] == c,
        decreases v.len() - k,
    {
        k += 1;
    }
    proof {
        lemma_leading_run(v@, c, k as int);
        assert(v@.skip(k as int) =~= v@.subrange(k as int, v.len() as int));
    }
    slice_chars(v, k, v.len())
}

/// Whether `line` opens or closes a fenced block.
pub fn is_fence_line(line: &Vec<char>) -> (r: bool)
    ensures
        r == is_fence(line@),
{
    let k = count_leading_ws(line);
    let n = line.len();
    if n - k >= 3 {
        assert(trim_start(line@)[0] == line[k as int]);
        assert(trim_start(line@)[1] == line[k + 1]);
        assert(trim_start(line@)[2] == line[k + 2]);
        line[k] == '`' && line[k + 1] == '`' && line[k + 2] == '`'
    } else {
        false
    }
}

/// The index of the first `c` at or after `from`; the length of `v` where
/// there is none.
fn find_char(v: &Vec<char>, from: usize, c: char) -> (e: usize)
    requires
        from <= v.len(),
    ensures
        from <= e <= v.len(),
        e - from == first_index(v@.skip(from as int), c),
{
    let mut e: usize = from;
    while e < v.len() && v[e] != c
        invariant
            from <= e <= v.len(),
            forall|j: int| from <= j < e ==> v[j] != c,
        decreases v.len() - e,
    {
        e += 1;
    }
    proof {
        let t = v@.skip(from as int);
        assert forall|j: int| 0 <= j < e - from implies t[j] != c by {
            assert(t[j] == v[j + from]);
        }
        lemma_first_index(t, c, e - from);
    }
    e
}

/// The lines of `v`.
pub fn split_lines(v: &Vec<char>) -> (lines: Vec<Vec<char>>)
    ensures
        view_all(lines@) == lines_of(v@),
{
    let mut lines: Vec<Vec<char>> = Vec::new();
    let mut start: usize = 0;
    let n = v.len();
    assert(v@.skip(0) =~= v@);
    assert(view_all(lines@) + lines_of(v@) =~= lines_of(v@));
    while start < n
        invariant
            start <= n,
            n == v.len(),
            view_all(lines@) + lines_of(v@.skip(start as int)) == lines_of(v@),
        decreases n - start,
    {
        let e = find_char(v, start, '\n');
        let ghost rest = v@.skip(start as int);
        let ghost before = view_all(lines@);
        if e >= n {
            let line = slice_chars(v, start, n);
            assert(line@ =~= rest);
            lines.push(line);
            assert(view_all(lines@) =~= before.push(rest));
            assert(lines_of(v@.skip(n as int)) =~= Seq::empty());
            assert(before + seq![rest] =~= before.push(rest));
            start = n;
        } else {
            let end = if e > start && v[e - 1] == '\r' {
                e - 1
            } else {
                e
            };
            let line = slice_chars(v, start, end);
            assert(rest.take(e - start) =~= v@.subrange(start as int, e as int));
            assert(line@ =~= strip_cr(rest.take(e - start)));
            lines.push(line);
            assert(view_all(lines@) =~= before.push(line@));
            assert(rest.skip(e - start + 1) =~= v@.skip(e + 1));
            assert(before.push(line@) + lines_of(v@.skip(e + 1)) =~= before + (seq![line@] + lines_of(
                v@.skip(e + 1),
            )));
            start = e + 1;
        }
    }
    assert(lines_of(v@.skip(n as int)) =~= Seq::empty());
    assert(view_all(lines@) + Seq::<Seq<char>>::empty() =~= view_all(lines@));
    lines
}

/// The pieces of `v` between the occurrences of `c`.
pub fn split_chars(v: &Vec<char>, c: char) -> (parts: Vec<Vec<char>>)
    ensures
        view_all(parts@) == split_on(v@, c),
{
    let mut parts: Vec<Vec<char>> = Vec::new();
    let mut start: usize = 0;
    let n = v.len();
    assert(v@.skip(0) =~= v@);
    assert(view_all(parts@) + split_on(v@, c) =~= split_on(v@, c));
    loop
        invariant_except_break
            start <= n,
            n == v.len(),
            view_all(parts@) + split_on(v@.skip(start as int), c) == split_on(v@, c),
        ensures
            view_all(parts@) == split_on(v@, c),
        decreases n - start,
    {
        let e = find_char(v, start, c);
        let ghost rest = v@.skip(start as int);
        let ghost before = view_all(parts@);
        let piece = slice_chars(v, start, e);
        assert(rest.take(e - start) =~= v@.subrange(start as int, e as int));
        parts.push(piece);
        assert(view_all(parts@) =~= before.push(piece@));
        if e >= n {
            assert(piece@ =~= rest);
            assert(before + seq![rest] =~= before.push(rest));
            break;
        }
        assert(rest.skip(e - start + 1) =~= v@.skip(e + 1));
        assert(before.push(piece@) + split_on(v@.skip(e + 1), c) =~= before + (seq![piece@] + split_on(
            v@.skip(e + 1),
            c,
        )));
        start = e + 1;
    }
    parts
}

} // verus!
