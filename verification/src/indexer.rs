//! The indexer: what a file's text becomes in the index store, which files
//! of a walk are indexed, and which stored notes have lost their file.

use vstd::prelude::*;
use vstd::string::*;
use crate::parser::{
    parse_spec, HeadingModel, MarkdownParser, ParsedNote, ParsedNoteModel, WikiLinkModel,
};
use crate::paths::{
    file_stem_of, is_separator, path_behind, path_file_stem, path_separator, strip_path_prefix,
};
use crate::text::{chars_of, split_chars, split_on, string_of, view_all};
use crate::vault::{hidden, is_markdown, markdown};

verus! {

/// The indexer.
#[derive(Debug, Clone, Copy)]
pub struct Indexer {
    parser: MarkdownParser,
}

/// How a walk over the vault went.
#[derive(Debug, Clone, Copy)]
pub struct IndexStats {
    /// The files that were indexed.
    pub files_indexed: usize,
    /// The files that could not be indexed.
    pub errors: usize,
}

/// What the store is told of one note: the note row, then its links, its tags
/// and its headings.
#[derive(Debug, Clone)]
pub struct IndexedNote {
    pub path: String,
    pub title: String,
    pub content: String,
    pub frontmatter: Option<String>,
    pub created_at: String,
    pub modified_at: String,
    /// Each link's target and display text.
    pub links: Vec<(String, Option<String>)>,
    pub tags: Vec<String>,
    /// Each heading's level, text and line.
    pub headings: Vec<(i32, String, i32)>,
}

/// What an `IndexedNote` holds.
pub struct IndexedNoteModel {
    pub path: Seq<char>,
    pub title: Seq<char>,
    pub content: Seq<char>,
    pub frontmatter: Option<Seq<char>>,
    pub created_at: Seq<char>,
    pub modified_at: Seq<char>,
    pub links: Seq<(Seq<char>, Option<Seq<char>>)>,
    pub tags: Seq<Seq<char>>,
    pub headings: Seq<(i32, Seq<char>, i32)>,
}

impl View for IndexedNote {
    type V = IndexedNoteModel;

    open spec fn view(&self) -> IndexedNoteModel {
        IndexedNoteModel {
            path: self.path@,
            title: self.title@,
            content: self.content@,
            frontmatter: self.frontmatter.deep_view(),
            created_at: self.created_at@,
            modified_at: self.modified_at@,
            links: self.links.deep_view(),
            tags: view_all(self.tags@),
            headings: self.headings.deep_view(),
        }
    }
}

/// A line number as the store holds it: at most the largest `i32`.
pub open spec fn stored_line(line: nat) -> i32 {
    if line > i32::MAX {
        i32::MAX
    } else {
        line as i32
    }
}

/// The link rows of the wikilinks `links`.
pub open spec fn link_rows(links: Seq<WikiLinkModel>) -> Seq<(Seq<char>, Option<Seq<char>>)> {
    Seq::new(links.len(), |i: int| (links[i].target, links[i].display))
}

/// The heading rows of the headings `headings`.
pub open spec fn heading_rows(headings: Seq<HeadingModel>) -> Seq<(i32, Seq<char>, i32)> {
    Seq::new(
        headings.len(),
        |i: int| (headings[i].level as i32, headings[i].text, stored_line(headings[i].line)),
    )
}

/// The title of a note: the parser's, or the file's stem where that is empty.
pub open spec fn title_or_stem(title: Seq<char>, stem: Option<Seq<char>>) -> Seq<char> {
    if title.len() > 0 {
        title
    } else {
        match stem {
            Some(s) => s,
            None => Seq::empty(),
        }
    }
}

/// What the store is told of the note `parsed` at `path`.
pub open spec fn planned(
    path: Seq<char>,
    stem: Option<Seq<char>>,
    parsed: ParsedNoteModel,
    created: Seq<char>,
    modified: Seq<char>,
) -> IndexedNoteModel {
    IndexedNoteModel {
        path,
        title: title_or_stem(parsed.title, stem),
        content: parsed.content,
        frontmatter: parsed.frontmatter_raw,
        created_at: created,
        modified_at: modified,
        links: link_rows(parsed.wikilinks),
        tags: parsed.tags,
        headings: heading_rows(parsed.headings),
    }
}

/// `path` with `/` in place of every character that separates components.
pub open spec fn slashed(path: Seq<char>) -> Seq<char> {
    Seq::new(
        path.len(),
        |i: int|
            if path_separator(path[i]) {
                '/'
            } else {
                path[i]
            },
    )
}

/// The path of `file` below `root`, or `file` itself where it is not below
/// it, with `/` between its components.
pub open spec fn relative_to(file: Seq<char>, root: Seq<char>) -> Seq<char> {
    slashed(
        match path_behind(file, root) {
            Some(p) => p,
            None => file,
        },
    )
}

/// The time of the last change, or the present where the file gives none; and
/// the time of creation, or that of the last change where the file gives
/// none.
pub open spec fn stamps(modified: Option<Seq<char>>, created: Option<Seq<char>>, now: Seq<char>) -> (
    Seq<char>,
    Seq<char>,
) {
    let m = match modified {
        Some(t) => t,
        None => now,
    };
    (
        m,
        match created {
            Some(t) => t,
            None => m,
        },
    )
}

/// One of the pieces is hidden.
pub open spec fn any_hidden(parts: Seq<Seq<char>>) -> bool {
    exists|i: int| 0 <= i < parts.len() && hidden(#[trigger] parts[i])
}

/// A file of a walk is indexed when no component of its path is hidden and
/// it is a markdown file.
pub open spec fn indexable(path: Seq<char>) -> bool {
    !any_hidden(split_on(path, '/')) && markdown(path)
}

/// The views of stored paths, each with the word whether its file exists.
pub open spec fn probe_views(s: Seq<(String, bool)>) -> Seq<(Seq<char>, bool)> {
    Seq::new(s.len(), |i: int| (s[i].0@, s[i].1))
}

/// The paths of `indexed` whose file does not exist, in order.
pub open spec fn missing(indexed: Seq<(Seq<char>, bool)>) -> Seq<Seq<char>>
    decreases indexed.len(),
{
    if indexed.len() == 0 {
        Seq::empty()
    } else {
        let rest = missing(indexed.drop_last());
        if indexed.last().1 {
            rest
        } else {
            rest.push(indexed.last().0)
        }
    }
}

impl Default for IndexStats {
    fn default() -> (s: Self)
        ensures
            s.files_indexed == 0,
            s.errors == 0,
    {
        IndexStats { files_indexed: 0, errors: 0 }
    }
}

impl Default for Indexer {
    fn default() -> (r: Self) {
        Indexer { parser: MarkdownParser::new() }
    }
}

impl IndexStats {
    /// No file seen yet.
    pub fn new() -> (s: Self)
        ensures
            s.files_indexed == 0,
            s.errors == 0,
    {
        IndexStats { files_indexed: 0, errors: 0 }
    }

    /// Counts one file: as indexed, or as an error.
    pub fn record(&mut self, indexed: bool)
        requires
            indexed ==> old(self).files_indexed < usize::MAX,
            !indexed ==> old(self).errors < usize::MAX,
        ensures
            indexed ==> final(self).files_indexed == old(self).files_indexed + 1 && final(self).errors
                == old(self).errors,
            !indexed ==> final(self).errors == old(self).errors + 1 && final(self).files_indexed
                == old(self).files_indexed,
    {
        if indexed {
            self.files_indexed = self.files_indexed + 1;
        } else {
            self.errors = self.errors + 1;
        }
    }
}

impl Indexer {
    /// An indexer.
    pub fn new() -> (r: Self) {
        Indexer { parser: MarkdownParser::new() }
    }

    /// The path of `file_path` below the vault's root, with `/` between its
    /// components.
    pub fn get_relative_path(&self, file_path: &str, vault_path: &str) -> (r: String)
        ensures
            r@ == relative_to(file_path@, vault_path@),
            forall|i: int| 0 <= i < r@.len() && path_separator(#[trigger] r@[i]) ==> r@[i] == '/',
    {
        let below = match strip_path_prefix(file_path, vault_path) {
            Some(p) => p,
            None => String::from_str(file_path),
        };
        let chars = chars_of(below.as_str());
        let mut out: Vec<char> = Vec::new();
        let mut i: usize = 0;
        while i < chars.len()
            invariant
                i <= chars.len(),
                out.len() == i,
                forall|k: int| 0 <= k < i ==> out[k] == slashed(chars@)[k],
            decreases chars.len() - i,
        {
            if is_separator(chars[i]) {
                out.push('/');
            } else {
                out.push(chars[i]);
            }
            i += 1;
        }
        assert(out@ =~= slashed(chars@));
        string_of(&out)
    }

    /// The times stored with a note, from what the file reports.
    pub fn timestamps(&self, modified: Option<String>, created: Option<String>, now: String) -> (r: (
        String,
        String,
    ))
        ensures
            (r.0@, r.1@) == stamps(modified.deep_view(), created.deep_view(), now@),
    {
        let m = match modified {
            Some(t) => t,
            None => now,
        };
        let c = match created {
            Some(t) => t,
            None => m.clone(),
        };
        (m, c)
    }

    /// Whether a file that a walk of the vault meets is indexed.
    pub fn should_index(&self, path: &str) -> (r: bool)
        ensures
            r == indexable(path@),
    {
        let chars = chars_of(path);
        let parts = split_chars(&chars, '/');
        let mut i: usize = 0;
        while i < parts.len()
            invariant
                i <= parts.len(),
                view_all(parts@) == split_on(path@, '/'),
                forall|j: int| 0 <= j < i ==> !hidden(#[trigger] view_all(parts@)[j]),
            decreases parts.len() - i,
        {
            if parts[i].len() > 0 && parts[i][0] == '.' {
                assert(hidden(view_all(parts@)[i as int]));
                return false;
            }
            assert(!hidden(view_all(parts@)[i as int]));
            i += 1;
        }
        is_markdown(path)
    }

    /// What the store is told of the parsed note `parsed` of the file at
    /// `path`, whose name without extension is `stem`.
    pub fn plan_note(
        &self,
        path: String,
        stem: Option<String>,
        parsed: ParsedNote,
        created: String,
        modified: String,
    ) -> (note: IndexedNote)
        ensures
            note@ == planned(path@, stem.deep_view(), parsed@, created@, modified@),
    {
        let ghost pv = parsed@;
        let title = if parsed.title.as_str().unicode_len() > 0 {
            parsed.title
        } else {
            match stem {
                Some(s) => s,
                None => String::new(),
            }
        };
        let mut links: Vec<(String, Option<String>)> = Vec::new();
        let mut i: usize = 0;
        assert(links.deep_view() =~= link_rows(pv.wikilinks).take(0));
        while i < parsed.wikilinks.len()
            invariant
                i <= parsed.wikilinks.len(),
                links.len() == i,
                view_all(parsed.wikilinks@) == pv.wikilinks,
                links.deep_view() == link_rows(pv.wikilinks).take(i as int),
            decreases parsed.wikilinks.len() - i,
        {
            let w = &parsed.wikilinks[i];
            let display = match &w.display {
                Some(d) => Some(d.clone()),
                None => None,
            };
            assert(view_all(parsed.wikilinks@)[i as int] == w@);
            let ghost before = links.deep_view();
            let row = (w.target.clone(), display);
            assert(row.deep_view() == link_rows(pv.wikilinks)[i as int]);
            links.push(row);
            assert(links.deep_view() =~= before.push(row.deep_view()));
            assert(link_rows(pv.wikilinks).take(i + 1) =~= before.push(row.deep_view()));
            i += 1;
        }
        assert(links.deep_view() =~= link_rows(pv.wikilinks));
        let mut headings: Vec<(i32, String, i32)> = Vec::new();
        let mut k: usize = 0;
        assert(headings.deep_view() =~= heading_rows(pv.headings).take(0));
        while k < parsed.headings.len()
            invariant
                k <= parsed.headings.len(),
                headings.len() == k,
                view_all(parsed.headings@) == pv.headings,
                headings.deep_view() == heading_rows(pv.headings).take(k as int),
            decreases parsed.headings.len() - k,
        {
            let h = &parsed.headings[k];
            let line: i32 = if h.line > 0x7fff_ffff {
                0x7fff_ffff
            } else {
                h.line as i32
            };
            assert(view_all(parsed.headings@)[k as int] == h@);
            let ghost before = headings.deep_view();
            let row = (h.level, h.text.clone(), line);
            assert(row.deep_view() == heading_rows(pv.headings)[k as int]);
            headings.push(row);
            assert(headings.deep_view() =~= before.push(row.deep_view()));
            assert(heading_rows(pv.headings).take(k + 1) =~= before.push(row.deep_view()));
            k += 1;
        }
        assert(headings.deep_view() =~= heading_rows(pv.headings));
        IndexedNote {
            path,
            title,
            content: parsed.content,
            frontmatter: parsed.frontmatter_raw,
            created_at: created,
            modified_at: modified,
            links,
            tags: parsed.tags,
            headings,
        }
    }

    /// What the store is told of the file at `file_path` in the vault at
    /// `vault_path`, whose text is `content` and whose times are `created`
    /// and `modified`.
    pub fn index_file(
        &self,
        file_path: &str,
        vault_path: &str,
        content: &str,
        created: String,
        modified: String,
    ) -> (note: IndexedNote)
        ensures
            note@ == planned(
                relative_to(file_path@, vault_path@),
                path_file_stem(file_path@),
                parse_spec(content@),
                created@,
                modified@,
            ),
    {
        let relative = self.get_relative_path(file_path, vault_path);
        let parsed = self.parser.parse(content);
        let stem = file_stem_of(file_path);
        self.plan_note(relative, stem, parsed, created, modified)
    }

    /// The stored notes whose file is gone: each of `indexed` is a stored
    /// path with the word whether its file exists.
    pub fn orphans(&self, indexed: &Vec<(String, bool)>) -> (r: Vec<String>)
        ensures
            view_all(r@) == missing(probe_views(indexed@)),
    {
        let ghost iv = probe_views(indexed@);
        let mut r: Vec<String> = Vec::new();
        let mut i: usize = 0;
        assert(iv.take(0) =~= Seq::empty());
        assert(view_all(r@) =~= Seq::empty());
        while i < indexed.len()
            invariant
                i <= indexed.len(),
                iv == probe_views(indexed@),
                view_all(r@) == missing(iv.take(i as int)),
            decreases indexed.len() - i,
        {
            proof {
                assert(iv.take(i + 1).drop_last() =~= iv.take(i as int));
                assert(iv.take(i + 1).last() == iv[i as int]);
            }
            let ghost before = view_all(r@);
            if !indexed[i].1 {
                r.push(indexed[i].0.clone());
                assert(view_all(r@) =~= before.push(iv[i as int].0));
            }
            i += 1;
        }
        assert(iv.take(indexed.len() as int) =~= iv);
        r
    }
}

/// Indexing a file again tells the store the same of it: with the same path,
/// text and time of creation, two plans differ in the time of the last change
/// at most.
pub proof fn lemma_reindex_same_note(
    path: Seq<char>,
    stem: Option<Seq<char>>,
    parsed: ParsedNoteModel,
    created: Seq<char>,
    first: Seq<char>,
    second: Seq<char>,
)
    ensures
        planned(path, stem, parsed, created, second) == (IndexedNoteModel {
            modified_at: second,
            ..planned(path, stem, parsed, created, first)
        }),
{
}

} // verus!
