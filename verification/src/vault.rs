//! The vault's view of the filesystem: which paths it accepts, what it
//! reports of a file, and in which order a directory is listed. The reading
//! and writing itself is the caller's.

use vstd::prelude::*;
use vstd::string::*;
use vstd::seq_lib::*;
use crate::error::{AppError, ErrorModel};
use crate::paths::{
    extension_of, file_name_of, join_path, joined_path, path_extension, path_file_name,
    path_within, starts_with_path,
};
use crate::text::{
    chars_of, is_whitespace, lemma_lex_irreflexive, lemma_lex_total, lemma_lex_transitive, lex_lt,
    str_lt, string_of, strip_leading, strip_leading_chars, view_all, white_space,
};

verus! {

/// A file or a directory of the vault.
#[derive(Debug)]
pub struct FileEntry {
    pub name: String,
    pub path: String,
    pub is_directory: bool,
    pub extension: Option<String>,
    pub size: u64,
    pub created: Option<String>,
    pub modified: Option<String>,
    pub children: Option<Vec<FileEntry>>,
}

/// What the vault reports of one file.
#[derive(Debug, Clone)]
pub struct FileInfo {
    pub name: String,
    pub path: String,
    pub size: u64,
    pub created: Option<String>,
    pub modified: Option<String>,
    pub is_markdown: bool,
    pub word_count: Option<usize>,
    pub character_count: Option<usize>,
}

/// The vault, rooted at a directory.
pub struct VaultFs {
    vault_path: String,
}

impl View for VaultFs {
    type V = Seq<char>;

    closed spec fn view(&self) -> Seq<char> {
        self.vault_path@
    }
}

/// The lower-case form of `s`, as `str::to_lowercase` gives it.
pub uninterp spec fn lowercase(s: Seq<char>) -> Seq<char>;

/// `str::to_lowercase`: the lower-case form of `s`.
#[verifier::external_body]
fn to_lowercase(s: &str) -> (r: String)
    ensures
        r@ == lowercase(s@),
{
    s.to_lowercase()
}

/// The message of a path that leaves the vault.
pub open spec fn outside_message() -> Seq<char> {
    "Path is outside vault"@
}

/// The name of a vault whose path has no final component.
pub open spec fn untitled() -> Seq<char> {
    "Untitled Vault"@
}

/// An entry is hidden when its name begins with a dot.
pub open spec fn hidden(name: Seq<char>) -> bool {
    name.len() > 0 && name[0] == '.'
}

/// A path is a markdown file's when its extension is `md`.
pub open spec fn markdown(path: Seq<char>) -> bool {
    path_extension(path) == Some("md"@)
}

/// One of the components is `..`, a step back to the parent.
pub open spec fn steps_back(parts: Seq<Seq<char>>) -> bool {
    exists|i: int| 0 <= i < parts.len() && #[trigger] parts[i] == ".."@
}

/// `base` with the components `parts` adjoined one after the other.
pub open spec fn appended(base: Seq<char>, parts: Seq<Seq<char>>) -> Seq<char>
    decreases parts.len(),
{
    if parts.len() == 0 {
        base
    } else {
        joined_path(appended(base, parts.drop_last()), parts.last())
    }
}

/// The canonical path that a path is checked by: the canonical form of its
/// nearest ancestor that exists, with the components below that ancestor
/// adjoined. None where one of these components is `..`: below a directory
/// that does not exist nothing says where such a step leads.
pub open spec fn candidate(ancestor: Seq<char>, remaining: Seq<Seq<char>>) -> Option<Seq<char>> {
    if steps_back(remaining) {
        None
    } else {
        Some(appended(ancestor, remaining))
    }
}

/// A path is accepted where it has a canonical path to be checked by, and
/// that path lies under the canonical root.
pub open spec fn contained(ancestor: Seq<char>, remaining: Seq<Seq<char>>, root: Seq<char>) -> bool {
    match candidate(ancestor, remaining) {
        Some(c) => path_within(c, root),
        None => false,
    }
}

/// The number of words of `s`: the runs of characters that are not white
/// space.
pub open spec fn word_count(s: Seq<char>) -> nat
    decreases s.len(),
{
    if s.len() == 0 {
        0
    } else {
        word_count(s.drop_last()) + (if !white_space(s.last()) && (s.len() == 1 || white_space(
            s[s.len() - 2],
        )) {
            1nat
        } else {
            0nat
        })
    }
}

/// Directories come before files.
pub open spec fn rank(e: FileEntry) -> int {
    if e.is_directory {
        0
    } else {
        1
    }
}

/// `a` is listed before `b`: a directory before a file, and among two of a
/// kind the one whose lower-case name is below the other's.
pub open spec fn listed_before(a: FileEntry, b: FileEntry) -> bool {
    rank(a) < rank(b) || (rank(a) == rank(b) && lex_lt(lowercase(a.name@), lowercase(b.name@)))
}

/// No entry of `s` is listed before an earlier one.
pub open spec fn in_listing_order(s: Seq<FileEntry>) -> bool {
    forall|i: int, j: int| 0 <= i < j < s.len() ==> !listed_before(#[trigger] s[j], #[trigger] s[i])
}

/// Where `a` is not before `b` and `b` not before `c`, `a` is not before `c`.
pub proof fn lemma_not_before_chain(a: FileEntry, b: FileEntry, c: FileEntry)
    requires
        !listed_before(a, b),
        !listed_before(b, c),
    ensures
        !listed_before(a, c),
{
    let ka = lowercase(a.name@);
    let kb = lowercase(b.name@);
    let kc = lowercase(c.name@);
    lemma_lex_total(kb, kc);
    if lex_lt(ka, kc) && lex_lt(kc, kb) {
        lemma_lex_transitive(ka, kc, kb);
    }
    lemma_lex_total(ka, kb);
    if lex_lt(kb, ka) && lex_lt(ka, kc) {
        lemma_lex_transitive(kb, ka, kc);
    }
}

/// Of two entries at most one is before the other.
pub proof fn lemma_before_one_way(a: FileEntry, b: FileEntry)
    requires
        listed_before(a, b),
    ensures
        !listed_before(b, a),
{
    let ka = lowercase(a.name@);
    let kb = lowercase(b.name@);
    if lex_lt(ka, kb) && lex_lt(kb, ka) {
        lemma_lex_transitive(ka, kb, ka);
        lemma_lex_irreflexive(ka);
    }
}

/// Whether `a` is listed before `b`.
pub fn is_listed_before(a: &FileEntry, b: &FileEntry) -> (r: bool)
    ensures
        r == listed_before(*a, *b),
{
    if a.is_directory != b.is_directory {
        a.is_directory
    } else {
        let ka = to_lowercase(a.name.as_str());
        let kb = to_lowercase(b.name.as_str());
        str_lt(ka.as_str(), kb.as_str())
    }
}

/// Puts the entries of a directory in listing order: directories first, then
/// by lower-case name.
pub fn sort_entries(entries: Vec<FileEntry>) -> (sorted: Vec<FileEntry>)
    ensures
        in_listing_order(sorted@),
        sorted@.to_multiset() == entries@.to_multiset(),
{
    let ghost all = entries@;
    let mut rest = entries;
    let mut sorted: Vec<FileEntry> = Vec::new();
    assert(rest@ + sorted@ =~= all);
    while rest.len() > 0
        invariant
            in_listing_order(sorted@),
            (rest@ + sorted@).to_multiset() == all.to_multiset(),
        decreases rest.len(),
    {
        let ghost before_rest = rest@;
        let ghost before = sorted@;
        let x = rest.pop().unwrap();
        assert(before_rest =~= rest@.push(x));
        let mut p: usize = 0;
        while p < sorted.len() && is_listed_before(&sorted[p], &x)
            invariant
                p <= sorted.len(),
                sorted@ == before,
                forall|i: int| 0 <= i < p ==> listed_before(sorted[i], x),
            decreases sorted.len() - p,
        {
            p += 1;
        }
        sorted.insert(p, x);
        assert(sorted@ =~= before.insert(p as int, x));
        proof {
            let joined = rest@ + before;
            assert(rest@ + sorted@ =~= joined.insert(rest@.len() + p, x));
            assert(before_rest + before =~= joined.insert(rest@.len() as int, x));
            to_multiset_insert(joined, rest@.len() + p, x);
            to_multiset_insert(joined, rest@.len() as int, x);
        }
        assert forall|i: int, j: int| 0 <= i < j < sorted.len() implies !listed_before(
            #[trigger] sorted[j],
            #[trigger] sorted[i],
        ) by {
            if j == p {
                lemma_before_one_way(before[i], x);
            } else if i == p {
                if j - 1 > p {
                    assert(!listed_before(before[j - 1], before[p as int]));
                    lemma_not_before_chain(before[j - 1], before[p as int], x);
                }
            } else if i < p && j < p {
                assert(!listed_before(before[j], before[i]));
            } else if i < p {
                assert(!listed_before(before[j - 1], before[i]));
            } else {
                assert(!listed_before(before[j - 1], before[i - 1]));
            }
        }
    }
    assert(rest@ + sorted@ =~= sorted@);
    sorted
}

/// Whether an entry of this name is hidden.
pub fn is_hidden(name: &str) -> (r: bool)
    ensures
        r == hidden(name@),
{
    name.unicode_len() > 0 && name.get_char(0) == '.'
}

/// Whether `path` is a markdown file's.
pub fn is_markdown(path: &str) -> (r: bool)
    ensures
        r == markdown(path@),
{
    match extension_of(path) {
        Some(e) => {
            let md = String::from_str("md");
            e == md
        },
        None => false,
    }
}

/// The number of words of `content`.
pub fn count_words(content: &str) -> (n: usize)
    ensures
        n == word_count(content@),
{
    let chars = chars_of(content);
    let mut n: usize = 0;
    let mut previous_ws = true;
    let mut i: usize = 0;
    assert(chars@.take(0) =~= Seq::empty());
    while i < chars.len()
        invariant
            i <= chars.len(),
            chars@ == content@,
            n <= i,
            n == word_count(chars@.take(i as int)),
            previous_ws == (i == 0 || white_space(chars[i - 1])),
        decreases chars.len() - i,
    {
        proof {
            let t = chars@.take(i + 1);
            assert(t.drop_last() =~= chars@.take(i as int));
            assert(t.last() == chars[i as int]);
            if i > 0 {
                assert(t[t.len() - 2] == chars[i - 1]);
            }
        }
        let ws = is_whitespace(chars[i]);
        if !ws && previous_ws {
            n += 1;
        }
        previous_ws = ws;
        i += 1;
    }
    assert(chars@.take(chars.len() as int) =~= chars@);
    n
}

/// What the vault reports of a file: for a markdown file, whose text is
/// `content`, also the number of its words and of its characters.
pub fn describe_file(
    name: String,
    path: String,
    size: u64,
    created: Option<String>,
    modified: Option<String>,
    content: Option<String>,
) -> (info: FileInfo)
    ensures
        info.name == name,
        info.path == path,
        info.size == size,
        info.created == created,
        info.modified == modified,
        info.is_markdown == content.is_some(),
        match content {
            Some(text) => info.word_count == Some(word_count(text@) as usize)
                && info.character_count == Some(text@.len() as usize),
            None => info.word_count.is_none() && info.character_count.is_none(),
        },
{
    let (word_count, character_count) = match &content {
        Some(text) => (Some(count_words(text.as_str())), Some(text.as_str().unicode_len())),
        None => (None, None),
    };
    FileInfo {
        name,
        path,
        size,
        created,
        modified,
        is_markdown: content.is_some(),
        word_count,
        character_count,
    }
}

/// The name of the vault at `path`: its final component.
pub fn get_vault_name(path: &str) -> (name: String)
    ensures
        name@ == match path_file_name(path@) {
            Some(n) => n,
            None => untitled(),
        },
{
    match file_name_of(path) {
        Some(n) => n,
        None => String::from_str("Untitled Vault"),
    }
}

/// Fails with `FileNotFound` unless the path exists.
pub fn require_present(relative_path: &str, exists: bool) -> (r: Result<(), AppError>)
    ensures
        exists ==> r is Ok,
        !exists ==> r is Err && r.unwrap_err()@ == ErrorModel::FileNotFound(relative_path@),
{
    if exists {
        Ok(())
    } else {
        Err(AppError::FileNotFound(String::from_str(relative_path)))
    }
}

/// Fails with `AlreadyExists` if the path exists.
pub fn require_absent(relative_path: &str, exists: bool) -> (r: Result<(), AppError>)
    ensures
        !exists ==> r is Ok,
        exists ==> r is Err && r.unwrap_err()@ == ErrorModel::AlreadyExists(relative_path@),
{
    if exists {
        Err(AppError::AlreadyExists(String::from_str(relative_path)))
    } else {
        Ok(())
    }
}

/// The message of a directory handed to the deletion of a file.
pub open spec fn not_a_file_message() -> Seq<char> {
    "Cannot delete directory with delete_file"@
}

/// The message of a file handed to the deletion of a folder.
pub open spec fn not_a_folder_message() -> Seq<char> {
    "Cannot delete file with delete_folder"@
}

/// Whether a file may be deleted: the path must exist and be no directory.
pub fn require_file(relative_path: &str, exists: bool, is_directory: bool) -> (r: Result<
    (),
    AppError,
>)
    ensures
        exists && !is_directory ==> r is Ok,
        !exists ==> r is Err && r.unwrap_err()@ == ErrorModel::FileNotFound(relative_path@),
        exists && is_directory ==> r is Err && r.unwrap_err()@ == ErrorModel::InvalidPath(
            not_a_file_message(),
        ),
{
    if !exists {
        Err(AppError::FileNotFound(String::from_str(relative_path)))
    } else if is_directory {
        Err(AppError::InvalidPath(String::from_str("Cannot delete directory with delete_file")))
    } else {
        Ok(())
    }
}

/// Whether a folder may be deleted: the path must exist and be a directory.
pub fn require_folder(relative_path: &str, exists: bool, is_directory: bool) -> (r: Result<
    (),
    AppError,
>)
    ensures
        exists && is_directory ==> r is Ok,
        !exists ==> r is Err && r.unwrap_err()@ == ErrorModel::FileNotFound(relative_path@),
        exists && !is_directory ==> r is Err && r.unwrap_err()@ == ErrorModel::InvalidPath(
            not_a_folder_message(),
        ),
{
    if !exists {
        Err(AppError::FileNotFound(String::from_str(relative_path)))
    } else if !is_directory {
        Err(AppError::InvalidPath(String::from_str("Cannot delete file with delete_folder")))
    } else {
        Ok(())
    }
}

/// Whether `old_path` may be renamed to `new_path`: the first must exist and
/// the second must not.
pub fn require_movable(old_path: &str, new_path: &str, old_exists: bool, new_exists: bool) -> (r:
    Result<(), AppError>)
    ensures
        old_exists && !new_exists ==> r is Ok,
        !old_exists ==> r is Err && r.unwrap_err()@ == ErrorModel::FileNotFound(old_path@),
        old_exists && new_exists ==> r is Err && r.unwrap_err()@ == ErrorModel::AlreadyExists(
            new_path@,
        ),
{
    if !old_exists {
        Err(AppError::FileNotFound(String::from_str(old_path)))
    } else if new_exists {
        Err(AppError::AlreadyExists(String::from_str(new_path)))
    } else {
        Ok(())
    }
}

impl VaultFs {
    /// The vault rooted at `vault_path`.
    pub fn new(vault_path: String) -> (fs: Self)
        ensures
            fs@ == vault_path@,
    {
        VaultFs { vault_path }
    }

    /// The vault's root.
    pub fn vault_path(&self) -> (p: &String)
        ensures
            p@ == self@,
    {
        &self.vault_path
    }

    /// The path in the vault that `relative_path` names: the root joined with
    /// the relative path, less the slashes at its start.
    pub fn full_path(&self, relative_path: &str) -> (p: String)
        ensures
            p@ == joined_path(self@, strip_leading(relative_path@, '/')),
    {
        let chars = chars_of(relative_path);
        let clean = string_of(&strip_leading_chars(&chars, '/'));
        join_path(self.vault_path.as_str(), clean.as_str())
    }

    /// The canonical path by which a path is checked. `ancestor` is the
    /// canonical form of the nearest ancestor of the path that exists (of the
    /// path itself where it exists) and `remaining` the components of the
    /// path below that ancestor. A `..` among them is refused with
    /// `InvalidPath`.
    pub fn candidate_path(&self, ancestor: &str, remaining: &Vec<String>) -> (r: Result<
        String,
        AppError,
    >)
        ensures
            match candidate(ancestor@, view_all(remaining@)) {
                Some(c) => r is Ok && r.unwrap()@ == c,
                None => r is Err && r.unwrap_err()@ == ErrorModel::InvalidPath(outside_message()),
            },
    {
        let ghost parts = view_all(remaining@);
        let back = String::from_str("..");
        let mut path = String::from_str(ancestor);
        let mut i: usize = 0;
        assert(parts.take(0) =~= Seq::empty());
        while i < remaining.len()
            invariant
                i <= remaining.len(),
                parts == view_all(remaining@),
                back@ == ".."@,
                forall|k: int| 0 <= k < i ==> parts[k] != ".."@,
                path@ == appended(ancestor@, parts.take(i as int)),
            decreases remaining.len() - i,
        {
            if remaining[i] == back {
                assert(parts[i as int] == ".."@);
                return Err(AppError::InvalidPath(String::from_str("Path is outside vault")));
            }
            proof {
                assert(parts.take(i + 1).drop_last() =~= parts.take(i as int));
                assert(parts.take(i + 1).last() == parts[i as int]);
            }
            path = join_path(path.as_str(), remaining[i].as_str());
            i += 1;
        }
        assert(parts.take(remaining.len() as int) =~= parts);
        Ok(path)
    }

    /// Resolves `relative_path` inside the vault. `ancestor` is the canonical
    /// form of the nearest ancestor of the resolved path that exists,
    /// `remaining` the components of the path below that ancestor, and
    /// `vault_canonical` the canonical root. The result is the path in the
    /// vault where the ancestor with the remaining components, none of them
    /// `..`, lies under the root, and `InvalidPath` otherwise.
    pub fn resolve_path(
        &self,
        relative_path: &str,
        ancestor: &str,
        remaining: &Vec<String>,
        vault_canonical: &str,
    ) -> (r: Result<String, AppError>)
        ensures
            contained(ancestor@, view_all(remaining@), vault_canonical@) ==> r is Ok && r.unwrap()@
                == joined_path(self@, strip_leading(relative_path@, '/')),
            !contained(ancestor@, view_all(remaining@), vault_canonical@) ==> r is Err
                && r.unwrap_err()@ == ErrorModel::InvalidPath(outside_message()),
    {
        match self.candidate_path(ancestor, remaining) {
            Ok(canonical) => {
                if starts_with_path(canonical.as_str(), vault_canonical) {
                    Ok(self.full_path(relative_path))
                } else {
                    Err(AppError::InvalidPath(String::from_str("Path is outside vault")))
                }
            },
            Err(e) => Err(e),
        }
    }
}

} // verus!
