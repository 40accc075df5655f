//! The markdown parser: from the text of a note to its frontmatter, body,
//! wikilinks, tags, headings and title.

use vstd::prelude::*;
use vstd::string::*;
use crate::matcher::{
    find_matches, find_matches_in, group, group_of, group_or_empty, group_text_of, group_texts,
    group_texts_of, matches_of,
};
use crate::text::{
    chars_of, is_fence, leading_run, is_fence_line, lines_of, split_chars, split_lines, split_on, string_of,
    strip_leading, strip_leading_chars, trim, trim_chars, view_all,
};
use crate::yaml::{yaml_field, yaml_lookup, YamlField, YamlFieldModel};

verus! {

/// A link `[[target]]` or `[[target|display]]`.
#[derive(Debug, Clone)]
pub struct WikiLink {
    /// The note that the link names.
    pub target: String,
    /// The text shown in place of the target.
    pub display: Option<String>,
    /// The line of the body on which the link stands, counted from 1.
    pub line: usize,
}

/// A heading of the body.
#[derive(Debug, Clone)]
pub struct Heading {
    /// The number of `#`, from 1 to 6.
    pub level: i32,
    /// The heading's text.
    pub text: String,
    /// The line of the body on which the heading stands, counted from 1.
    pub line: usize,
}

/// What the parser reads in a frontmatter block.
#[derive(Debug, Clone)]
pub struct Frontmatter {
    /// What the block holds under `title`.
    pub title: YamlField,
    /// What the block holds under `tags`.
    pub tags: YamlField,
}

/// A parsed note.
#[derive(Debug, Clone)]
pub struct ParsedNote {
    /// The title: from the frontmatter, else the first heading, else empty.
    pub title: String,
    /// The text after the frontmatter block.
    pub content: String,
    /// The text before the body: the frontmatter block with its fences and
    /// the line end that follows them; empty where the note has no block.
    pub preamble: String,
    /// The frontmatter, where the block is a YAML mapping.
    pub frontmatter: Option<Frontmatter>,
    /// The text between the frontmatter fences, where the note has them.
    pub frontmatter_raw: Option<String>,
    /// The wikilinks of the body.
    pub wikilinks: Vec<WikiLink>,
    /// The tags of the frontmatter and of the body, each once.
    pub tags: Vec<String>,
    /// The headings of the body.
    pub headings: Vec<Heading>,
}

/// What a `WikiLink` holds.
pub struct WikiLinkModel {
    pub target: Seq<char>,
    pub display: Option<Seq<char>>,
    pub line: nat,
}

/// What a `Heading` holds.
pub struct HeadingModel {
    pub level: int,
    pub text: Seq<char>,
    pub line: nat,
}

/// What a `Frontmatter` holds.
pub struct FrontmatterModel {
    pub title: YamlFieldModel,
    pub tags: YamlFieldModel,
}

/// What a `ParsedNote` holds.
pub struct ParsedNoteModel {
    pub title: Seq<char>,
    pub content: Seq<char>,
    pub preamble: Seq<char>,
    pub frontmatter: Option<FrontmatterModel>,
    pub frontmatter_raw: Option<Seq<char>>,
    pub wikilinks: Seq<WikiLinkModel>,
    pub tags: Seq<Seq<char>>,
    pub headings: Seq<HeadingModel>,
}

impl View for WikiLink {
    type V = WikiLinkModel;

    open spec fn view(&self) -> WikiLinkModel {
        WikiLinkModel {
            target: self.target@,
            display: match self.display {
                Some(d) => Some(d@),
                None => None,
            },
            line: self.line as nat,
        }
    }
}

impl View for Heading {
    type V = HeadingModel;

    open spec fn view(&self) -> HeadingModel {
        HeadingModel { level: self.level as int, text: self.text@, line: self.line as nat }
    }
}

impl View for Frontmatter {
    type V = FrontmatterModel;

    open spec fn view(&self) -> FrontmatterModel {
        FrontmatterModel { title: self.title@, tags: self.tags@ }
    }
}

impl View for ParsedNote {
    type V = ParsedNoteModel;

    open spec fn view(&self) -> ParsedNoteModel {
        ParsedNoteModel {
            title: self.title@,
            content: self.content@,
            preamble: self.preamble@,
            frontmatter: match self.frontmatter {
                Some(f) => Some(f@),
                None => None,
            },
            frontmatter_raw: match self.frontmatter_raw {
                Some(r) => Some(r@),
                None => None,
            },
            wikilinks: view_all(self.wikilinks@),
            tags: view_all(self.tags@),
            headings: view_all(self.headings@),
        }
    }
}

/// What an optional `Frontmatter` holds.
pub open spec fn frontmatter_view(f: Option<Frontmatter>) -> Option<FrontmatterModel> {
    match f {
        Some(x) => Some(x@),
        None => None,
    }
}

/// The pattern of a wikilink: a target without `]` or `|`, and after a `|` an
/// optional display text without `]`.
pub open spec fn wikilink_pattern() -> Seq<char> {
    "\\[\\[([^\\]|]+)(?:\\|([^\\]]+))?\\]\\]"@
}

/// The pattern of an inline tag: `#` at the start of the line or after white
/// space or `[`, then a letter, then letters, digits, `_`, `/` and `-`.
pub open spec fn tag_pattern() -> Seq<char> {
    "(?:^|[\\s\\[])#([a-zA-Z][a-zA-Z0-9_/-]*)"@
}

/// The pattern of a heading line: one to six `#`, white space, the text.
pub open spec fn heading_pattern() -> Seq<char> {
    "^(#{1,6})\\s+(.+)$"@
}

/// The pattern of a frontmatter block at the start of a note.
pub open spec fn frontmatter_pattern() -> Seq<char> {
    "(?s)^---\\r?\\n(.+?)\\r?\\n---\\r?\\n?"@
}

/// The frontmatter key of the title.
pub open spec fn title_key() -> Seq<char> {
    "title"@
}

/// The frontmatter key of the tags.
pub open spec fn tags_key() -> Seq<char> {
    "tags"@
}

/// The wikilink of one match on line `line`; none where its target is empty.
pub open spec fn link_of(m: Seq<Option<Seq<char>>>, line: nat) -> Option<WikiLinkModel> {
    let target = trim(group_or_empty(m, 1));
    if target.len() == 0 {
        None
    } else {
        Some(
            WikiLinkModel {
                target,
                display: match group(m, 2) {
                    Some(d) => Some(trim(d)),
                    None => None,
                },
                line,
            },
        )
    }
}

/// The wikilinks of the matches `ms` on line `line`.
pub open spec fn links_of(ms: Seq<Seq<Option<Seq<char>>>>, line: nat) -> Seq<WikiLinkModel>
    decreases ms.len(),
{
    if ms.len() == 0 {
        Seq::empty()
    } else {
        let rest = links_of(ms.drop_last(), line);
        match link_of(ms.last(), line) {
            Some(l) => rest.push(l),
            None => rest,
        }
    }
}

/// The wikilinks of the first `n` lines: those of every line that is not a
/// fence line.
pub open spec fn wikilinks_upto(lines: Seq<Seq<char>>, n: int) -> Seq<WikiLinkModel>
    decreases n,
{
    if n <= 0 {
        Seq::empty()
    } else {
        wikilinks_upto(lines, n - 1) + (if is_fence(lines[n - 1]) {
            Seq::empty()
        } else {
            links_of(matches_of(wikilink_pattern(), lines[n - 1]), n as nat)
        })
    }
}

/// Whether a fenced block is open after the first `k` lines: every fence line
/// opens a block or closes the open one.
pub open spec fn in_block(lines: Seq<Seq<char>>, k: int) -> bool
    decreases k,
{
    if k <= 0 {
        false
    } else if is_fence(lines[k - 1]) {
        !in_block(lines, k - 1)
    } else {
        in_block(lines, k - 1)
    }
}

/// Line `k` is read for tags and headings: it is no fence line and no block
/// is open before it.
pub open spec fn scanned(lines: Seq<Seq<char>>, k: int) -> bool {
    !is_fence(lines[k]) && !in_block(lines, k)
}

/// `c` is one of the letters `A` to `Z` and `a` to `z`.
pub open spec fn is_letter(c: char) -> bool {
    65 <= c as int <= 90 || 97 <= c as int <= 122
}

/// `c` may stand in a tag: a letter, a digit, `_`, `/` or `-`.
pub open spec fn is_name_char(c: char) -> bool {
    is_letter(c) || 48 <= c as int <= 57 || c == '_' || c == '/' || c == '-'
}

/// `t` has the form of a tag: a letter, then letters, digits, `_`, `/` and
/// `-`.
pub open spec fn is_tag_name(t: Seq<char>) -> bool {
    &&& t.len() > 0
    &&& is_letter(t[0])
    &&& forall|i: int| 0 <= i < t.len() ==> is_name_char(#[trigger] t[i])
}

/// The elements of `ts` that have the form of a tag, in order.
pub open spec fn names_among(ts: Seq<Seq<char>>) -> Seq<Seq<char>>
    decreases ts.len(),
{
    if ts.len() == 0 {
        Seq::empty()
    } else {
        let rest = names_among(ts.drop_last());
        if is_tag_name(ts.last()) {
            rest.push(ts.last())
        } else {
            rest
        }
    }
}

/// The inline tags of one line that is read: none where the line holds no
/// `#`; else what the tag pattern finds, as far as it has the form of a tag.
pub open spec fn line_tags(line: Seq<char>) -> Seq<Seq<char>> {
    if line.contains('#') {
        names_among(group_texts(matches_of(tag_pattern(), line), 1))
    } else {
        Seq::empty()
    }
}

/// The inline tags of the first `n` lines, in order, repeats included.
pub open spec fn inline_tags_upto(lines: Seq<Seq<char>>, n: int) -> Seq<Seq<char>>
    decreases n,
{
    if n <= 0 {
        Seq::empty()
    } else {
        inline_tags_upto(lines, n - 1) + (if scanned(lines, n - 1) {
            line_tags(lines[n - 1])
        } else {
            Seq::empty()
        })
    }
}

/// The tags of a frontmatter sequence: each string item without its leading
/// `#`.
pub open spec fn list_tags(items: Seq<Option<Seq<char>>>) -> Seq<Seq<char>>
    decreases items.len(),
{
    if items.len() == 0 {
        Seq::empty()
    } else {
        let rest = list_tags(items.drop_last());
        match items.last() {
            Some(s) => rest.push(strip_leading(s, '#')),
            None => rest,
        }
    }
}

/// The tags of the pieces of a comma-separated frontmatter string: each piece
/// trimmed and without its leading `#`, unless that leaves nothing.
pub open spec fn text_tags(parts: Seq<Seq<char>>) -> Seq<Seq<char>>
    decreases parts.len(),
{
    if parts.len() == 0 {
        Seq::empty()
    } else {
        let rest = text_tags(parts.drop_last());
        let t = strip_leading(trim(parts.last()), '#');
        if t.len() == 0 {
            rest
        } else {
            rest.push(t)
        }
    }
}

/// The tags that the frontmatter field `tags` gives, repeats included.
pub open spec fn frontmatter_tags(field: YamlFieldModel) -> Seq<Seq<char>> {
    match field {
        YamlFieldModel::List(items) => list_tags(items),
        YamlFieldModel::Text(s) => text_tags(split_on(s, ',')),
        _ => Seq::empty(),
    }
}

/// The elements of `s`, each once, in the order in which they first occur.
pub open spec fn distinct(s: Seq<Seq<char>>) -> Seq<Seq<char>>
    decreases s.len(),
{
    if s.len() == 0 {
        Seq::empty()
    } else {
        let rest = distinct(s.drop_last());
        if rest.contains(s.last()) {
            rest
        } else {
            rest.push(s.last())
        }
    }
}

/// The level of a heading with `n` characters `#`.
pub open spec fn level_of(n: nat) -> int {
    if n > 6 {
        6
    } else {
        n as int
    }
}

/// The heading that the matches `ms` of the heading pattern on line `line`
/// give: none without a match or with an empty text.
pub open spec fn heading_of(ms: Seq<Seq<Option<Seq<char>>>>, line: nat) -> Option<HeadingModel> {
    if ms.len() == 0 {
        None
    } else {
        let text = trim(group_or_empty(ms[0], 2));
        if text.len() == 0 {
            None
        } else {
            Some(HeadingModel { level: level_of(group_or_empty(ms[0], 1).len()), text, line })
        }
    }
}

/// The headings of the first `n` lines.
pub open spec fn headings_upto(lines: Seq<Seq<char>>, n: int) -> Seq<HeadingModel>
    decreases n,
{
    if n <= 0 {
        Seq::empty()
    } else {
        let rest = headings_upto(lines, n - 1);
        if scanned(lines, n - 1) {
            match heading_of(matches_of(heading_pattern(), lines[n - 1]), n as nat) {
                Some(h) => rest.push(h),
                None => rest,
            }
        } else {
            rest
        }
    }
}

/// The length of the line end at the start of `s`: of a line feed, or of a
/// carriage return and a line feed; 0 where `s` starts with neither.
pub open spec fn line_end_len(s: Seq<char>) -> int {
    if s.len() >= 1 && s[0] == '\n' {
        1
    } else if s.len() >= 2 && s[0] == '\r' && s[1] == '\n' {
        2
    } else {
        0
    }
}

/// Where the body of `content` starts: behind the frontmatter block that the
/// matches `ms` of the frontmatter pattern show, and behind one line end after
/// it; at 0 without a block.
pub open spec fn body_start(ms: Seq<Seq<Option<Seq<char>>>>, content: Seq<char>) -> int {
    if ms.len() == 0 {
        0
    } else {
        let full = group_or_empty(ms[0], 0);
        let cut = if full.len() <= content.len() {
            full.len() as int
        } else {
            content.len() as int
        };
        cut + line_end_len(content.skip(cut))
    }
}

/// The text between the frontmatter fences, where the matches `ms` of the
/// frontmatter pattern show a block; the body; and what stands before the
/// body.
pub open spec fn split_by(ms: Seq<Seq<Option<Seq<char>>>>, content: Seq<char>) -> (
    Option<Seq<char>>,
    Seq<char>,
    Seq<char>,
) {
    let from = body_start(ms, content);
    (
        if ms.len() == 0 {
            None
        } else {
            Some(group_or_empty(ms[0], 1))
        },
        content.skip(from),
        content.take(from),
    )
}

/// The frontmatter of the block `raw`: none without a block, or where the
/// block is no YAML mapping.
pub open spec fn frontmatter_of(raw: Option<Seq<char>>) -> Option<FrontmatterModel> {
    match raw {
        Some(y) => if yaml_field(y, title_key()) == YamlFieldModel::Invalid {
            None
        } else {
            Some(
                FrontmatterModel {
                    title: yaml_field(y, title_key()),
                    tags: yaml_field(y, tags_key()),
                },
            )
        },
        None => None,
    }
}

/// The title: the frontmatter's, where it is a string; else the text of the
/// first heading; else empty.
pub open spec fn title_of(fm: Option<FrontmatterModel>, headings: Seq<HeadingModel>) -> Seq<char> {
    match fm {
        Some(FrontmatterModel { title: YamlFieldModel::Text(t), .. }) => t,
        _ => if headings.len() > 0 {
            headings[0].text
        } else {
            Seq::empty()
        },
    }
}

/// The field `tags` of the frontmatter.
pub open spec fn tags_field(fm: Option<FrontmatterModel>) -> YamlFieldModel {
    match fm {
        Some(f) => f.tags,
        None => YamlFieldModel::Missing,
    }
}

/// The tags of a note with the frontmatter `fm` and the body lines `lines`:
/// those of the frontmatter, then those of the lines, each once.
pub open spec fn tags_of(fm: Option<FrontmatterModel>, lines: Seq<Seq<char>>) -> Seq<Seq<char>> {
    distinct(frontmatter_tags(tags_field(fm)) + inline_tags_upto(lines, lines.len() as int))
}

/// The note that the frontmatter block `raw`, the body `body` and the text
/// `preamble` before the body make.
pub open spec fn note_of(raw: Option<Seq<char>>, body: Seq<char>, preamble: Seq<char>) -> ParsedNoteModel {
    let fm = frontmatter_of(raw);
    let lines = lines_of(body);
    let headings = headings_upto(lines, lines.len() as int);
    ParsedNoteModel {
        title: title_of(fm, headings),
        content: body,
        preamble,
        frontmatter: fm,
        frontmatter_raw: raw,
        wikilinks: wikilinks_upto(lines, lines.len() as int),
        tags: tags_of(fm, lines),
        headings,
    }
}

/// What parsing `content` gives.
pub open spec fn parse_spec(content: Seq<char>) -> ParsedNoteModel {
    let parts = split_by(matches_of(frontmatter_pattern(), content), content);
    note_of(parts.0, parts.1, parts.2)
}

/// The markdown of a note: what stood before its body, then its body.
pub open spec fn markdown_of(note: ParsedNoteModel) -> Seq<char> {
    note.preamble + note.content
}

/// `s` without the white space at its start and at its end.
pub fn trim_string(s: &String) -> (r: String)
    ensures
        r@ == trim(s@),
{
    let chars = chars_of(s.as_str());
    let t = trim_chars(&chars);
    string_of(&t)
}

/// The wikilinks of the matches `ms` of the wikilink pattern on line `line`.
pub fn links_in_matches(ms: &Vec<Vec<Option<String>>>, line: usize) -> (r: Vec<WikiLink>)
    ensures
        view_all(r@) == links_of(ms.deep_view(), line as nat),
{
    let ghost mv = ms.deep_view();
    let mut r: Vec<WikiLink> = Vec::new();
    let mut i: usize = 0;
    assert(mv.take(0) =~= Seq::empty());
    assert(view_all(r@) =~= Seq::empty());
    while i < ms.len()
        invariant
            i <= ms.len(),
            mv == ms.deep_view(),
            view_all(r@) == links_of(mv.take(i as int), line as nat),
        decreases ms.len() - i,
    {
        proof {
            assert(mv.take(i + 1).drop_last() =~= mv.take(i as int));
            assert(mv.take(i + 1).last() == mv[i as int]);
            assert(mv[i as int] == ms[i as int].deep_view());
        }
        let ghost before = view_all(r@);
        let raw_target = group_text_of(&ms[i], 1);
        let target = trim_string(&raw_target);
        if target.as_str().unicode_len() > 0 {
            let display = match group_of(&ms[i], 2) {
                Some(d) => Some(trim_string(&d)),
                None => None,
            };
            let link = WikiLink { target, display, line };
            assert(Some(link@) == link_of(mv[i as int], line as nat));
            r.push(link);
            assert(view_all(r@) =~= before.push(link@));
        }
        i += 1;
    }
    assert(mv.take(ms.len() as int) =~= mv);
    r
}

/// The heading that the matches `ms` of the heading pattern on line `line`
/// give.
pub fn heading_in_matches(ms: &Vec<Vec<Option<String>>>, line: usize) -> (r: Option<Heading>)
    ensures
        match r {
            Some(h) => heading_of(ms.deep_view(), line as nat) == Some(h@),
            None => heading_of(ms.deep_view(), line as nat) is None,
        },
{
    if ms.len() == 0 {
        return None;
    }
    assert(ms.deep_view()[0] == ms[0].deep_view());
    let hashes = group_text_of(&ms[0], 1);
    let raw_text = group_text_of(&ms[0], 2);
    let text = trim_string(&raw_text);
    if text.as_str().unicode_len() == 0 {
        return None;
    }
    let n = hashes.as_str().unicode_len();
    let level: i32 = if n > 6 {
        6
    } else {
        n as i32
    };
    Some(Heading { level, text, line })
}

/// The tags that the frontmatter field `field` gives, repeats included.
pub fn frontmatter_tags_of(field: &YamlField) -> (r: Vec<String>)
    ensures
        view_all(r@) == frontmatter_tags(field@),
{
    let mut r: Vec<String> = Vec::new();
    assert(view_all(r@) =~= Seq::empty());
    match field {
        YamlField::List(items) => {
            let ghost iv = items.deep_view();
            let mut i: usize = 0;
            assert(iv.take(0) =~= Seq::empty());
            while i < items.len()
                invariant
                    i <= items.len(),
                    iv == items.deep_view(),
                    view_all(r@) == list_tags(iv.take(i as int)),
                decreases items.len() - i,
            {
                proof {
                    assert(iv.take(i + 1).drop_last() =~= iv.take(i as int));
                    assert(iv.take(i + 1).last() == iv[i as int]);
                    assert(iv[i as int] == items[i as int].deep_view());
                }
                let ghost before = view_all(r@);
                match &items[i] {
                    Some(s) => {
                        let chars = chars_of(s.as_str());
                        let t = string_of(&strip_leading_chars(&chars, '#'));
                        r.push(t);
                        assert(view_all(r@) =~= before.push(t@));
                    },
                    None => {},
                }
                i += 1;
            }
            assert(iv.take(items.len() as int) =~= iv);
        },
        YamlField::Text(s) => {
            let chars = chars_of(s.as_str());
            let parts = split_chars(&chars, ',');
            let ghost pv = view_all(parts@);
            let mut i: usize = 0;
            assert(pv.take(0) =~= Seq::empty());
            while i < parts.len()
                invariant
                    i <= parts.len(),
                    pv == view_all(parts@),
                    view_all(r@) == text_tags(pv.take(i as int)),
                decreases parts.len() - i,
            {
                proof {
                    assert(pv.take(i + 1).drop_last() =~= pv.take(i as int));
                    assert(pv.take(i + 1).last() == pv[i as int]);
                }
                let ghost before = view_all(r@);
                let t = strip_leading_chars(&trim_chars(&parts[i]), '#');
                if t.len() > 0 {
                    let tag = string_of(&t);
                    r.push(tag);
                    assert(view_all(r@) =~= before.push(tag@));
                }
                i += 1;
            }
            assert(pv.take(parts.len() as int) =~= pv);
        },
        _ => {},
    }
    r
}

/// The elements of `v`, each once, in the order in which they first occur.
pub fn distinct_of(v: &Vec<String>) -> (r: Vec<String>)
    ensures
        view_all(r@) == distinct(view_all(v@)),
{
    let ghost vv = view_all(v@);
    let mut r: Vec<String> = Vec::new();
    let mut i: usize = 0;
    assert(vv.take(0) =~= Seq::empty());
    assert(view_all(r@) =~= Seq::empty());
    while i < v.len()
        invariant
            i <= v.len(),
            vv == view_all(v@),
            view_all(r@) == distinct(vv.take(i as int)),
        decreases v.len() - i,
    {
        proof {
            assert(vv.take(i + 1).drop_last() =~= vv.take(i as int));
            assert(vv.take(i + 1).last() == vv[i as int]);
        }
        let ghost before = view_all(r@);
        if !crate::graph::contains_string(&r, &v[i]) {
            r.push(v[i].clone());
            assert(view_all(r@) =~= before.push(vv[i as int]));
        }
        i += 1;
    }
    assert(vv.take(v.len() as int) =~= vv);
    r
}

/// Whether `t` has the form of a tag.
pub fn is_tag_name_of(t: &String) -> (r: bool)
    ensures
        r == is_tag_name(t@),
{
    let chars = chars_of(t.as_str());
    if chars.len() == 0 {
        return false;
    }
    let first = chars[0];
    if !((first >= 'A' && first <= 'Z') || (first >= 'a' && first <= 'z')) {
        return false;
    }
    let mut i: usize = 0;
    while i < chars.len()
        invariant
            i <= chars.len(),
            chars@ == t@,
            forall|j: int| 0 <= j < i ==> is_name_char(#[trigger] chars[j]),
        decreases chars.len() - i,
    {
        let c = chars[i];
        let fits = (c >= 'A' && c <= 'Z') || (c >= 'a' && c <= 'z') || (c >= '0' && c <= '9') || c
            == '_' || c == '/' || c == '-';
        if !fits {
            assert(!is_name_char(chars[i as int]));
            return false;
        }
        i += 1;
    }
    true
}

/// The elements of `ts` that have the form of a tag.
pub fn tag_names_of(ts: &Vec<String>) -> (r: Vec<String>)
    ensures
        view_all(r@) == names_among(view_all(ts@)),
{
    let ghost tv = view_all(ts@);
    let mut r: Vec<String> = Vec::new();
    let mut i: usize = 0;
    assert(tv.take(0) =~= Seq::empty());
    assert(view_all(r@) =~= Seq::empty());
    while i < ts.len()
        invariant
            i <= ts.len(),
            tv == view_all(ts@),
            view_all(r@) == names_among(tv.take(i as int)),
        decreases ts.len() - i,
    {
        proof {
            assert(tv.take(i + 1).drop_last() =~= tv.take(i as int));
            assert(tv.take(i + 1).last() == tv[i as int]);
        }
        let ghost before = view_all(r@);
        if is_tag_name_of(&ts[i]) {
            r.push(ts[i].clone());
            assert(view_all(r@) =~= before.push(tv[i as int]));
        }
        i += 1;
    }
    assert(tv.take(ts.len() as int) =~= tv);
    r
}

/// Whether `c` stands in `line`.
pub fn holds_char(line: &Vec<char>, c: char) -> (r: bool)
    ensures
        r == line@.contains(c),
{
    let mut i: usize = 0;
    while i < line.len()
        invariant
            i <= line.len(),
            forall|j: int| 0 <= j < i ==> line[j] != c,
        decreases line.len() - i,
    {
        if line[i] == c {
            return true;
        }
        i += 1;
    }
    false
}

/// The lines as strings.
pub fn strings_of(lines: &Vec<Vec<char>>) -> (texts: Vec<String>)
    ensures
        texts.len() == lines.len(),
        forall|k: int| 0 <= k < lines.len() ==> (#[trigger] texts[k])@ == lines[k]@,
{
    let mut texts: Vec<String> = Vec::new();
    let mut i: usize = 0;
    while i < lines.len()
        invariant
            i <= lines.len(),
            texts.len() == i,
            forall|k: int| 0 <= k < i ==> texts[k]@ == lines[k]@,
        decreases lines.len() - i,
    {
        texts.push(string_of(&lines[i]));
        i += 1;
    }
    texts
}

/// The parser of markdown notes.
#[derive(Debug, Clone, Copy)]
pub struct MarkdownParser {}

impl Default for MarkdownParser {
    fn default() -> (p: Self) {
        MarkdownParser {  }
    }
}

impl MarkdownParser {
    /// A parser.
    pub fn new() -> (p: Self) {
        MarkdownParser {  }
    }

    /// The pattern of a wikilink.
    pub fn wikilink_regex(&self) -> (p: &'static str)
        ensures
            p@ == wikilink_pattern(),
    {
        "\\[\\[([^\\]|]+)(?:\\|([^\\]]+))?\\]\\]"
    }

    /// The pattern of an inline tag.
    pub fn tag_regex(&self) -> (p: &'static str)
        ensures
            p@ == tag_pattern(),
    {
        "(?:^|[\\s\\[])#([a-zA-Z][a-zA-Z0-9_/-]*)"
    }

    /// The pattern of a heading line.
    pub fn heading_regex(&self) -> (p: &'static str)
        ensures
            p@ == heading_pattern(),
    {
        "^(#{1,6})\\s+(.+)$"
    }

    /// The pattern of a frontmatter block.
    pub fn frontmatter_regex(&self) -> (p: &'static str)
        ensures
            p@ == frontmatter_pattern(),
    {
        "(?s)^---\\r?\\n(.+?)\\r?\\n---\\r?\\n?"
    }

    /// Cuts `content` into the text between its frontmatter fences, where
    /// the matches `ms` of the frontmatter pattern show a block, and the
    /// body.
    pub fn split_frontmatter(&self, ms: &Vec<Vec<Option<String>>>, content: &str) -> (r: (
        Option<String>,
        String,
        String,
    ))
        ensures
            r.deep_view() == split_by(ms.deep_view(), content@),
    {
        if ms.len() == 0 {
            assert(content@.skip(0) =~= content@);
            assert(content@.take(0) =~= Seq::empty());
            (None, String::from_str(content), String::new())
        } else {
            assert(ms.deep_view()[0] == ms[0].deep_view());
            let full = group_text_of(&ms[0], 0);
            let yaml = group_text_of(&ms[0], 1);
            let n = content.unicode_len();
            let g = full.as_str().unicode_len();
            let cut = if g <= n {
                g
            } else {
                n
            };
            let ghost rest = content@.skip(cut as int);
            let from = if cut < n && content.get_char(cut) == '\n' {
                cut + 1
            } else if cut < n && n - cut >= 2 && content.get_char(cut) == '\r' && content.get_char(
                cut + 1,
            ) == '\n' {
                cut + 2
            } else {
                cut
            };
            proof {
                if cut < n {
                    assert(rest[0] == content@[cut as int]);
                }
                if cut < n && n - cut >= 2 {
                    assert(rest[1] == content@[cut + 1]);
                }
                assert(from == body_start(ms.deep_view(), content@));
            }
            let body = content.substring_char(from, n).to_owned();
            let preamble = content.substring_char(0, from).to_owned();
            assert(body@ =~= content@.skip(from as int));
            assert(preamble@ =~= content@.take(from as int));
            (Some(yaml), body, preamble)
        }
    }

    /// Reads the frontmatter block `raw` as a YAML mapping.
    pub fn read_frontmatter(&self, raw: &Option<String>) -> (fm: Option<Frontmatter>)
        ensures
            fm.is_some() == frontmatter_of(raw.deep_view()).is_some(),
            fm.is_some() ==> fm.unwrap()@ == frontmatter_of(raw.deep_view()).unwrap(),
    {
        match raw {
            Some(y) => {
                let title = yaml_lookup(y.as_str(), "title");
                match title {
                    YamlField::Invalid => None,
                    _ => {
                        let tags = yaml_lookup(y.as_str(), "tags");
                        Some(Frontmatter { title, tags })
                    },
                }
            },
            None => None,
        }
    }

    /// The wikilinks of the body lines `lines`.
    pub fn extract_wikilinks(&self, lines: &Vec<Vec<char>>) -> (r: Vec<WikiLink>)
        ensures
            view_all(r@) == wikilinks_upto(view_all(lines@), lines.len() as int),
    {
        let ghost lv = view_all(lines@);
        let texts = strings_of(lines);
        let all = find_matches_in(self.wikilink_regex(), &texts);
        let mut r: Vec<WikiLink> = Vec::new();
        let mut i: usize = 0;
        assert(view_all(r@) =~= Seq::empty());
        while i < lines.len()
            invariant
                i <= lines.len(),
                lv == view_all(lines@),
                all.len() == lines.len(),
                forall|k: int|
                    0 <= k < lines.len() ==> (#[trigger] all[k]).deep_view() == matches_of(
                        wikilink_pattern(),
                        lv[k],
                    ),
                view_all(r@) == wikilinks_upto(lv, i as int),
            decreases lines.len() - i,
        {
            let ghost before = view_all(r@);
            if !is_fence_line(&lines[i]) {
                let mut found = links_in_matches(&all[i], i + 1);
                let ghost fv = view_all(found@);
                r.append(&mut found);
                assert(view_all(r@) =~= before + fv);
            } else {
                assert(before + Seq::<WikiLinkModel>::empty() =~= before);
            }
            i += 1;
        }
        r
    }

    /// The inline tags of the body lines `lines`, repeats included.
    pub fn extract_inline_tags(&self, lines: &Vec<Vec<char>>) -> (r: Vec<String>)
        ensures
            view_all(r@) == inline_tags_upto(view_all(lines@), lines.len() as int),
    {
        let ghost lv = view_all(lines@);
        let texts = strings_of(lines);
        let all = find_matches_in(self.tag_regex(), &texts);
        let mut r: Vec<String> = Vec::new();
        let mut in_code = false;
        let mut i: usize = 0;
        assert(view_all(r@) =~= Seq::empty());
        while i < lines.len()
            invariant
                i <= lines.len(),
                lv == view_all(lines@),
                all.len() == lines.len(),
                forall|k: int|
                    0 <= k < lines.len() ==> (#[trigger] all[k]).deep_view() == matches_of(
                        tag_pattern(),
                        lv[k],
                    ),
                in_code == in_block(lv, i as int),
                view_all(r@) == inline_tags_upto(lv, i as int),
            decreases lines.len() - i,
        {
            let ghost before = view_all(r@);
            if is_fence_line(&lines[i]) {
                in_code = !in_code;
                assert(before + Seq::<Seq<char>>::empty() =~= before);
            } else if in_code || !holds_char(&lines[i], '#') {
                assert(before + Seq::<Seq<char>>::empty() =~= before);
            } else {
                let texts = group_texts_of(&all[i], 1);
                assert(view_all(texts@) =~= texts.deep_view());
                let mut found = tag_names_of(&texts);
                let ghost fv = view_all(found@);
                r.append(&mut found);
                assert(view_all(r@) =~= before + fv);
            }
            i += 1;
        }
        r
    }

    /// The tags of a note with the frontmatter `frontmatter` and the body
    /// lines `lines`.
    pub fn extract_tags(&self, lines: &Vec<Vec<char>>, frontmatter: &Option<Frontmatter>) -> (r: Vec<
        String,
    >)
        ensures
            view_all(r@) == tags_of(frontmatter_view(*frontmatter), view_all(lines@)),
    {
        let mut all = match frontmatter {
            Some(f) => frontmatter_tags_of(&f.tags),
            None => Vec::new(),
        };
        let ghost fv = view_all(all@);
        assert(fv =~= frontmatter_tags(tags_field(frontmatter_view(*frontmatter))));
        let mut inline = self.extract_inline_tags(lines);
        let ghost iv = view_all(inline@);
        all.append(&mut inline);
        assert(view_all(all@) =~= fv + iv);
        distinct_of(&all)
    }

    /// The headings of the body lines `lines`.
    pub fn extract_headings(&self, lines: &Vec<Vec<char>>) -> (r: Vec<Heading>)
        ensures
            view_all(r@) == headings_upto(view_all(lines@), lines.len() as int),
    {
        let ghost lv = view_all(lines@);
        let texts = strings_of(lines);
        let all = find_matches_in(self.heading_regex(), &texts);
        let mut r: Vec<Heading> = Vec::new();
        let mut in_code = false;
        let mut i: usize = 0;
        assert(view_all(r@) =~= Seq::empty());
        while i < lines.len()
            invariant
                i <= lines.len(),
                lv == view_all(lines@),
                all.len() == lines.len(),
                forall|k: int|
                    0 <= k < lines.len() ==> (#[trigger] all[k]).deep_view() == matches_of(
                        heading_pattern(),
                        lv[k],
                    ),
                in_code == in_block(lv, i as int),
                view_all(r@) == headings_upto(lv, i as int),
            decreases lines.len() - i,
        {
            let ghost before = view_all(r@);
            if is_fence_line(&lines[i]) {
                in_code = !in_code;
            } else if !in_code {
                match heading_in_matches(&all[i], i + 1) {
                    Some(h) => {
                        r.push(h);
                        assert(view_all(r@) =~= before.push(h@));
                    },
                    None => {},
                }
            }
            i += 1;
        }
        r
    }

    /// The title of a note with the frontmatter `frontmatter` and the
    /// headings `headings`.
    pub fn determine_title(&self, frontmatter: &Option<Frontmatter>, headings: &Vec<Heading>) -> (r:
        String)
        ensures
            r@ == title_of(frontmatter_view(*frontmatter), view_all(headings@)),
    {
        match frontmatter {
            Some(Frontmatter { title: YamlField::Text(t), .. }) => {
                return t.clone();
            },
            _ => {},
        }
        if headings.len() > 0 {
            headings[0].text.clone()
        } else {
            String::new()
        }
    }

    /// Builds the note of the frontmatter block `raw`, the body `body` and the
    /// text `preamble` before the body.
    pub fn assemble(&self, raw: Option<String>, body: String, preamble: String) -> (note:
        ParsedNote)
        ensures
            note@ == note_of(raw.deep_view(), body@, preamble@),
    {
        let frontmatter = self.read_frontmatter(&raw);
        let chars = chars_of(body.as_str());
        let lines = split_lines(&chars);
        let wikilinks = self.extract_wikilinks(&lines);
        let tags = self.extract_tags(&lines, &frontmatter);
        let headings = self.extract_headings(&lines);
        let title = self.determine_title(&frontmatter, &headings);
        assert(frontmatter_view(frontmatter) == frontmatter_of(raw.deep_view()));
        ParsedNote {
            title,
            content: body,
            preamble,
            frontmatter,
            frontmatter_raw: raw,
            wikilinks,
            tags,
            headings,
        }
    }

    /// Writes a note back as markdown: what stood before its body, then its
    /// body.
    pub fn to_markdown(&self, note: &ParsedNote) -> (r: String)
        ensures
            r@ == markdown_of(note@),
    {
        note.preamble.clone().concat(note.content.as_str())
    }

    /// Parses the text of a note.
    pub fn parse(&self, content: &str) -> (note: ParsedNote)
        ensures
            note@ == parse_spec(content@),
    {
        let ms = find_matches(self.frontmatter_regex(), content);
        let parts = self.split_frontmatter(&ms, content);
        self.assemble(parts.0, parts.1, parts.2)
    }
}

/// `distinct(s)` holds exactly the elements of `s`.
pub proof fn lemma_distinct_elements(s: Seq<Seq<char>>, x: Seq<char>)
    ensures
        distinct(s).contains(x) <==> s.contains(x),
    decreases s.len(),
{
    if s.len() > 0 {
        let rest = distinct(s.drop_last());
        let all = distinct(s);
        lemma_distinct_elements(s.drop_last(), x);
        if s.contains(x) {
            let i = choose|i: int| 0 <= i < s.len() && s[i] == x;
            if i < s.len() - 1 {
                assert(s.drop_last()[i] == x);
                let k = choose|k: int| 0 <= k < rest.len() && rest[k] == x;
                assert(all[k] == x);
            } else if !rest.contains(x) {
                assert(all[rest.len() as int] == x);
            }
        }
        if all.contains(x) {
            let k = choose|k: int| 0 <= k < all.len() && all[k] == x;
            if k < rest.len() {
                assert(rest[k] == x);
                let i = choose|i: int| 0 <= i < s.drop_last().len() && s.drop_last()[i] == x;
                assert(s[i] == x);
            } else {
                assert(s[s.len() - 1] == x);
            }
        }
    }
}

/// `distinct(s)` holds nothing twice.
pub proof fn lemma_distinct_no_duplicates(s: Seq<Seq<char>>)
    ensures
        distinct(s).no_duplicates(),
    decreases s.len(),
{
    if s.len() > 0 {
        lemma_distinct_no_duplicates(s.drop_last());
        let rest = distinct(s.drop_last());
        let all = distinct(s);
        assert forall|i: int, j: int| 0 <= i < all.len() && 0 <= j < all.len() && i != j implies all[i]
            != all[j] by {
            if i < rest.len() && j < rest.len() {
                assert(rest[i] != rest[j]);
            } else if i < rest.len() {
                assert(rest.contains(rest[i]));
            } else if j < rest.len() {
                assert(rest.contains(rest[j]));
            }
        }
    }
}

/// Elements that `a` holds already add nothing: `distinct(a + b)` is
/// `distinct(a)` where every element of `b` is in `a`.
pub proof fn lemma_distinct_absorbs(a: Seq<Seq<char>>, b: Seq<Seq<char>>)
    requires
        forall|i: int| 0 <= i < b.len() ==> a.contains(#[trigger] b[i]),
    ensures
        distinct(a + b) == distinct(a),
    decreases b.len(),
{
    if b.len() == 0 {
        assert(a + b =~= a);
    } else {
        assert((a + b).drop_last() =~= a + b.drop_last());
        assert((a + b).last() == b.last());
        assert forall|i: int| 0 <= i < b.drop_last().len() implies a.contains(
            #[trigger] b.drop_last()[i],
        ) by {
            assert(b.drop_last()[i] == b[i]);
        }
        lemma_distinct_absorbs(a, b.drop_last());
        assert(a.contains(b[b.len() - 1]));
        lemma_distinct_elements(a, b.last());
    }
}

/// A sequence that holds nothing twice is its own `distinct`.
pub proof fn lemma_distinct_fixed(t: Seq<Seq<char>>)
    requires
        t.no_duplicates(),
    ensures
        distinct(t) == t,
    decreases t.len(),
{
    if t.len() > 0 {
        lemma_distinct_fixed(t.drop_last());
        if t.drop_last().contains(t.last()) {
            let i = choose|i: int| 0 <= i < t.drop_last().len() && t.drop_last()[i] == t.last();
            assert(t[i] == t[t.len() - 1]);
        }
        assert(t.drop_last().push(t.last()) =~= t);
    }
}

/// The tags of a parsed note hold nothing twice; a string is among them
/// exactly if the frontmatter or a line outside the fenced blocks gives it;
/// and adding the tags to themselves changes nothing.
pub proof fn lemma_tags_duplicate_free(content: Seq<char>, x: Seq<char>)
    ensures
        parse_spec(content).tags.no_duplicates(),
        distinct(parse_spec(content).tags + parse_spec(content).tags) == parse_spec(content).tags,
        ({
            let parts = split_by(matches_of(frontmatter_pattern(), content), content);
            let lines = lines_of(parts.1);
            parse_spec(content).tags.contains(x) <==> (frontmatter_tags(
                tags_field(frontmatter_of(parts.0)),
            ) + inline_tags_upto(lines, lines.len() as int)).contains(x)
        }),
{
    let parts = split_by(matches_of(frontmatter_pattern(), content), content);
    let lines = lines_of(parts.1);
    let given = frontmatter_tags(tags_field(frontmatter_of(parts.0))) + inline_tags_upto(
        lines,
        lines.len() as int,
    );
    let tags = parse_spec(content).tags;
    assert(tags == distinct(given));
    lemma_distinct_no_duplicates(given);
    lemma_distinct_elements(given, x);
    assert forall|i: int| 0 <= i < tags.len() implies tags.contains(#[trigger] tags[i]) by {}
    lemma_distinct_absorbs(tags, tags);
    lemma_distinct_fixed(tags);
}

/// Where none of the first `n` lines that are read holds a `#`, these lines
/// give no tags.
pub proof fn lemma_no_inline_tags(lines: Seq<Seq<char>>, n: int)
    requires
        0 <= n <= lines.len(),
        forall|k: int| 0 <= k < n && (#[trigger] lines[k]).contains('#') ==> !scanned(lines, k),
    ensures
        inline_tags_upto(lines, n).len() == 0,
    decreases n,
{
    if n > 0 {
        lemma_no_inline_tags(lines, n - 1);
        if scanned(lines, n - 1) {
            assert(!lines[n - 1].contains('#'));
        }
    }
}

/// Tags inside fenced blocks are not read: a note whose frontmatter gives no
/// tags, and in whose body every `#` stands on a fence line or on a line
/// inside a fenced block, has no tags.
pub proof fn lemma_fenced_tags_ignored(content: Seq<char>)
    requires
        ({
            let parts = split_by(matches_of(frontmatter_pattern(), content), content);
            let lines = lines_of(parts.1);
            &&& frontmatter_tags(tags_field(frontmatter_of(parts.0))).len() == 0
            &&& forall|k: int|
                0 <= k < lines.len() && (#[trigger] lines[k]).contains('#') ==> is_fence(lines[k])
                    || in_block(lines, k)
        }),
    ensures
        parse_spec(content).tags.len() == 0,
{
    let parts = split_by(matches_of(frontmatter_pattern(), content), content);
    let lines = lines_of(parts.1);
    lemma_no_inline_tags(lines, lines.len() as int);
    let given = frontmatter_tags(tags_field(frontmatter_of(parts.0))) + inline_tags_upto(
        lines,
        lines.len() as int,
    );
    assert(given =~= Seq::empty());
}

/// Writing a parsed note back gives the text that was parsed.
pub proof fn lemma_round_trip(content: Seq<char>)
    ensures
        markdown_of(parse_spec(content)) == content,
{
    let ms = matches_of(frontmatter_pattern(), content);
    let from = body_start(ms, content);
    assert(0 <= from <= content.len());
    assert(content.take(from) + content.skip(from) =~= content);
}

/// What is kept as the names among `ts` has the form of a tag.
pub proof fn lemma_names_among(ts: Seq<Seq<char>>, t: Seq<char>)
    requires
        names_among(ts).contains(t),
    ensures
        is_tag_name(t),
    decreases ts.len(),
{
    if ts.len() > 0 {
        let rest = names_among(ts.drop_last());
        let all = names_among(ts);
        let k = choose|k: int| 0 <= k < all.len() && all[k] == t;
        if k < rest.len() {
            assert(rest[k] == t);
            lemma_names_among(ts.drop_last(), t);
        }
    }
}

/// Every inline tag has the form of a tag.
pub proof fn lemma_inline_tags_are_names(lines: Seq<Seq<char>>, n: int, t: Seq<char>)
    requires
        0 <= n <= lines.len(),
        inline_tags_upto(lines, n).contains(t),
    ensures
        is_tag_name(t),
    decreases n,
{
    if n > 0 {
        let rest = inline_tags_upto(lines, n - 1);
        let all = inline_tags_upto(lines, n);
        let k = choose|k: int| 0 <= k < all.len() && all[k] == t;
        if k < rest.len() {
            assert(rest[k] == t);
            lemma_inline_tags_are_names(lines, n - 1, t);
        } else {
            let here = line_tags(lines[n - 1]);
            assert(here[k - rest.len()] == t);
            assert(here.contains(t));
            lemma_names_among(group_texts(matches_of(tag_pattern(), lines[n - 1]), 1), t);
        }
    }
}

/// What is left of `s` without the `c` at its start does not start with `c`.
pub proof fn lemma_strip_leading(s: Seq<char>, c: char)
    ensures
        leading_run(s, c) <= s.len(),
        strip_leading(s, c).len() == 0 || strip_leading(s, c)[0] != c,
    decreases s.len(),
{
    if s.len() > 0 && s[0] == c {
        lemma_strip_leading(s.skip(1), c);
        assert(s.skip(1).skip(leading_run(s.skip(1), c) as int) =~= s.skip(leading_run(s, c) as int));
    }
}

/// No tag of the frontmatter starts with `#`.
pub proof fn lemma_frontmatter_tags_stripped(field: YamlFieldModel, t: Seq<char>)
    requires
        frontmatter_tags(field).contains(t),
    ensures
        t.len() == 0 || t[0] != '#',
{
    match field {
        YamlFieldModel::List(items) => {
            lemma_list_tags_stripped(items, t);
        },
        YamlFieldModel::Text(s) => {
            lemma_text_tags_stripped(split_on(s, ','), t);
        },
        _ => {},
    }
}

/// No tag of a frontmatter sequence starts with `#`.
pub proof fn lemma_list_tags_stripped(items: Seq<Option<Seq<char>>>, t: Seq<char>)
    requires
        list_tags(items).contains(t),
    ensures
        t.len() == 0 || t[0] != '#',
    decreases items.len(),
{
    if items.len() > 0 {
        let rest = list_tags(items.drop_last());
        let all = list_tags(items);
        let k = choose|k: int| 0 <= k < all.len() && all[k] == t;
        if k < rest.len() {
            assert(rest[k] == t);
            lemma_list_tags_stripped(items.drop_last(), t);
        } else {
            lemma_strip_leading(items.last().unwrap(), '#');
        }
    }
}

/// No tag of a comma-separated frontmatter string starts with `#`.
pub proof fn lemma_text_tags_stripped(parts: Seq<Seq<char>>, t: Seq<char>)
    requires
        text_tags(parts).contains(t),
    ensures
        t.len() == 0 || t[0] != '#',
    decreases parts.len(),
{
    if parts.len() > 0 {
        let rest = text_tags(parts.drop_last());
        let all = text_tags(parts);
        let k = choose|k: int| 0 <= k < all.len() && all[k] == t;
        if k < rest.len() {
            assert(rest[k] == t);
            lemma_text_tags_stripped(parts.drop_last(), t);
        } else {
            lemma_strip_leading(trim(parts.last()), '#');
        }
    }
}

/// Every tag of a parsed note is a tag of its frontmatter or has the form of
/// a tag, and none starts with `#`.
pub proof fn lemma_tags_are_normal(content: Seq<char>, t: Seq<char>)
    requires
        parse_spec(content).tags.contains(t),
    ensures
        ({
            let parts = split_by(matches_of(frontmatter_pattern(), content), content);
            frontmatter_tags(tags_field(frontmatter_of(parts.0))).contains(t) || is_tag_name(t)
        }),
        t.len() == 0 || t[0] != '#',
{
    let parts = split_by(matches_of(frontmatter_pattern(), content), content);
    let lines = lines_of(parts.1);
    let first = frontmatter_tags(tags_field(frontmatter_of(parts.0)));
    let second = inline_tags_upto(lines, lines.len() as int);
    lemma_distinct_elements(first + second, t);
    let k = choose|k: int| 0 <= k < (first + second).len() && (first + second)[k] == t;
    if k < first.len() {
        assert(first[k] == t);
        assert(first.contains(t));
        lemma_frontmatter_tags_stripped(tags_field(frontmatter_of(parts.0)), t);
    } else {
        assert(second[k - first.len()] == t);
        assert(second.contains(t));
        lemma_inline_tags_are_names(lines, lines.len() as int, t);
    }
}

} // verus!
