//! What the commands answer, and the rules they apply before and after they
//! touch the vault or the store.

use vstd::prelude::*;
use vstd::string::*;
use vstd::seq_lib::*;
use crate::clock::{format_time, formatted_time, normalize_date, normalized_date};
use crate::error::{AppError, ErrorModel};
use crate::paths::{file_stem_of, path_file_stem};
use crate::records::{LinkInfo, RecentVault, SearchResult, TagInfo};
use crate::template::{processed, replace_text, replaced, TemplateProcessor};
use crate::text::{
    chars_of, has_prefix, lemma_lex_irreflexive, lemma_lex_total, lemma_lex_transitive, lex_lt,
    md_suffix, str_lt, strip_md, strip_md_suffix, view_all,
};
use crate::vault::{FileEntry, FileInfo};

verus! {

/// A daily note.
#[derive(Debug, Clone)]
pub struct DailyNote {
    pub path: String,
    pub date: String,
    pub exists: bool,
    pub content: Option<String>,
}

/// The daily notes of a vault.
#[derive(Debug, Clone)]
pub struct DailyNotesList {
    pub notes: Vec<DailyNote>,
}

/// The text of a file.
#[derive(Debug, Clone)]
pub struct FileContent {
    pub path: String,
    pub content: String,
    pub modified: Option<String>,
}

/// The links into or out of a note.
#[derive(Debug, Clone)]
pub struct LinksResponse {
    pub path: String,
    pub links: Vec<LinkInfo>,
}

/// The hits of a search.
#[derive(Debug, Clone)]
pub struct SearchResponse {
    pub results: Vec<SearchResult>,
    pub query: String,
    pub total: usize,
}

/// The settings of the application.
#[derive(Debug, Clone)]
pub struct AppSettings {
    pub theme: Option<String>,
    pub font_size: Option<u32>,
    pub font_family: Option<String>,
    pub vim_mode: Option<bool>,
    pub spell_check: Option<bool>,
    pub auto_save_interval: Option<u32>,
    pub line_numbers: Option<bool>,
    pub word_wrap: Option<bool>,
}

/// The settings of a vault.
#[derive(Debug, Clone)]
pub struct VaultSettings {
    pub default_note_folder: Option<String>,
    pub daily_notes_folder: Option<String>,
    pub templates_folder: Option<String>,
    pub attachments_folder: Option<String>,
    pub daily_note_format: Option<String>,
    pub default_template: Option<String>,
    pub excluded_folders: Option<Vec<String>>,
}

/// The tags of a vault.
#[derive(Debug, Clone)]
pub struct TagListResponse {
    pub tags: Vec<TagInfo>,
    pub total: usize,
}

/// The notes that carry a tag.
#[derive(Debug, Clone)]
pub struct NotesByTagResponse {
    pub tag: String,
    pub paths: Vec<String>,
    pub count: usize,
}

/// A template of the vault.
#[derive(Debug, Clone)]
pub struct TemplateInfo {
    pub name: String,
    pub path: String,
}

/// The templates of a vault.
#[derive(Debug, Clone)]
pub struct TemplatesResponse {
    pub templates: Vec<TemplateInfo>,
}

/// A template with its variables filled in.
#[derive(Debug, Clone)]
pub struct AppliedTemplate {
    pub content: String,
    pub template_name: String,
}

/// The open vault.
#[derive(Debug, Clone)]
pub struct VaultInfo {
    pub name: String,
    pub path: String,
    pub note_count: usize,
    pub is_open: bool,
}

/// A vault that was opened before.
#[derive(Debug, Clone)]
pub struct RecentVaultInfo {
    pub name: String,
    pub path: String,
    pub last_opened: String,
}

/// The value of a setting as the caller hands it in.
#[derive(Debug, Clone)]
pub enum SettingValue {
    /// A string.
    Text(String),
    /// A number, as it is written.
    Number(String),
    /// A truth value.
    Flag(bool),
    /// No value.
    Null,
    /// A list or an object, as JSON.
    Composite(String),
}

/// The text that the store keeps of a setting's value.
pub open spec fn stored_text(value: SettingValue) -> Seq<char> {
    match value {
        SettingValue::Text(s) => s@,
        SettingValue::Number(s) => s@,
        SettingValue::Flag(b) => if b {
            "true"@
        } else {
            "false"@
        },
        SettingValue::Null => Seq::empty(),
        SettingValue::Composite(s) => s@,
    }
}

/// The message of a setting key without the prefix `prefix`, for the kind of
/// settings `kind`.
pub open spec fn bad_key_message(key: Seq<char>, kind: Seq<char>, prefix: Seq<char>) -> Seq<char> {
    "Invalid setting key: "@ + key + ". "@ + kind + " settings must start with '"@ + prefix + "'"@
}

/// The truth value that `s` spells: `true` or `false`, nothing else.
pub open spec fn flag_of(s: Seq<char>) -> Option<bool> {
    if s == "true"@ {
        Some(true)
    } else if s == "false"@ {
        Some(false)
    } else {
        None
    }
}

/// `c` is one of the digits `0` to `9`.
pub open spec fn is_digit(c: char) -> bool {
    48 <= c as int <= 57
}

/// The number that the digits `s` spell.
pub open spec fn decimal_value(s: Seq<char>) -> nat
    decreases s.len(),
{
    if s.len() == 0 {
        0
    } else {
        decimal_value(s.drop_last()) * 10 + (s.last() as int - 48) as nat
    }
}

/// The digits of `s`: what follows its `+`, if it begins with one.
pub open spec fn unsigned_part(s: Seq<char>) -> Seq<char> {
    if s.len() > 0 && s[0] == '+' {
        s.skip(1)
    } else {
        s
    }
}

/// The number that `s` spells: digits, after an optional `+`, whose value
/// fits in 32 bits.
pub open spec fn number_of(s: Seq<char>) -> Option<u32> {
    let d = unsigned_part(s);
    if d.len() > 0 && (forall|i: int| 0 <= i < d.len() ==> is_digit(#[trigger] d[i]))
        && decimal_value(d) <= u32::MAX {
        Some(decimal_value(d) as u32)
    } else {
        None
    }
}

/// The query handed to the full-text index: the user's, with every `"`
/// doubled, and a `*` behind it.
pub open spec fn fts_query_of(query: Seq<char>) -> Seq<char> {
    replaced(query, "\""@, "\"\""@) + "*"@
}

/// The path of the daily note of the day `date`.
pub open spec fn daily_path(date: Seq<char>) -> Seq<char> {
    "Daily Notes/"@ + date + md_suffix()
}

/// The daily note of the day `date`, made at `created`, where the vault has no
/// template for it.
pub open spec fn default_daily(date: Seq<char>, created: Seq<char>) -> Seq<char> {
    "---\ntitle: \""@ + date + "\"\ncreated: "@ + created + "\ntags: [daily-note]\n---\n\n# "@ + date
        + "\n\n## Notes\n\n"@
}

/// The text of `value`, or nothing.
pub open spec fn text_or_empty(value: Option<Seq<char>>) -> Seq<char> {
    match value {
        Some(v) => v,
        None => Seq::empty(),
    }
}

/// The text of a new daily note for `date`: the vault's template with the
/// date as its title, or the default.
pub open spec fn new_daily(date: Seq<char>, template: Option<Seq<char>>, secs: i64, offset: i32) -> Seq<
    char,
> {
    match template {
        Some(t) => processed(t, seq![("title"@, date)], secs, offset),
        None => default_daily(
            date,
            text_or_empty(formatted_time(secs, offset, "%Y-%m-%d %H:%M"@)),
        ),
    }
}

/// An entry is a markdown file: no directory, with the extension `md`.
pub open spec fn markdown_file(e: FileEntry) -> bool {
    !e.is_directory && e.extension.deep_view() == Some("md"@)
}

/// An entry is a daily note: a markdown file whose name without `.md` is a
/// date.
pub open spec fn daily_file(e: FileEntry) -> bool {
    markdown_file(e) && normalized_date(strip_md(e.name@), "%Y-%m-%d"@) is Ok
}

/// The paths and dates of the daily notes among `entries`, in order.
pub open spec fn daily_rows(entries: Seq<FileEntry>) -> Seq<(Seq<char>, Seq<char>)>
    decreases entries.len(),
{
    if entries.len() == 0 {
        Seq::empty()
    } else {
        let rest = daily_rows(entries.drop_last());
        let e = entries.last();
        if daily_file(e) {
            rest.push((e.path@, strip_md(e.name@)))
        } else {
            rest
        }
    }
}

/// The names and paths of the templates among `entries`, in order.
pub open spec fn template_rows(entries: Seq<FileEntry>) -> Seq<(Seq<char>, Seq<char>)>
    decreases entries.len(),
{
    if entries.len() == 0 {
        Seq::empty()
    } else {
        let rest = template_rows(entries.drop_last());
        let e = entries.last();
        if markdown_file(e) {
            rest.push((strip_md(e.name@), e.path@))
        } else {
            rest
        }
    }
}

/// The path and date of each of `notes`.
pub open spec fn note_rows(notes: Seq<DailyNote>) -> Seq<(Seq<char>, Seq<char>)> {
    Seq::new(notes.len(), |i: int| (notes[i].path@, notes[i].date@))
}

/// The name and path of each of `templates`.
pub open spec fn info_rows(templates: Seq<TemplateInfo>) -> Seq<(Seq<char>, Seq<char>)> {
    Seq::new(templates.len(), |i: int| (templates[i].name@, templates[i].path@))
}

/// No note of `s` is of a later day than an earlier one.
pub open spec fn latest_first(s: Seq<DailyNote>) -> bool {
    forall|i: int, j: int| 0 <= i < j < s.len() ==> !lex_lt(#[trigger] s[i].date@, #[trigger] s[j].date@)
}

/// The first `limit` elements of `s`; all of `s` without a limit, or where it
/// has no more.
pub open spec fn first_of(s: Seq<DailyNote>, limit: Option<usize>) -> Seq<DailyNote> {
    match limit {
        Some(n) => if n < s.len() {
            s.take(n as int)
        } else {
            s
        },
        None => s,
    }
}

/// `list` holds the daily notes among `entries`, the latest day first, cut
/// off at `limit`.
pub open spec fn is_daily_list(list: Seq<DailyNote>, entries: Seq<FileEntry>, limit: Option<usize>) -> bool {
    exists|found: Seq<DailyNote>, sorted: Seq<DailyNote>|
        {
            &&& note_rows(found) == daily_rows(entries)
            &&& latest_first(sorted)
            &&& #[trigger] sorted.to_multiset() == #[trigger] found.to_multiset()
            &&& list == first_of(sorted, limit)
        }
}

/// Whether `s` begins with `prefix`.
pub fn starts_with_text(s: &str, prefix: &str) -> (r: bool)
    ensures
        r == has_prefix(s@, prefix@),
{
    let a = chars_of(s);
    let b = chars_of(prefix);
    if a.len() < b.len() {
        return false;
    }
    let mut i: usize = 0;
    while i < b.len()
        invariant
            i <= b.len() <= a.len(),
            a@ == s@,
            b@ == prefix@,
            forall|j: int| 0 <= j < i ==> a[j] == b[j],
        decreases b.len() - i,
    {
        if a[i] != b[i] {
            assert(a@.take(b.len() as int)[i as int] != b@[i as int]);
            return false;
        }
        i += 1;
    }
    assert(a@.take(b.len() as int) =~= b@);
    true
}

/// Whether `key` may name a setting of the application: it must begin with
/// `app.`.
pub fn check_app_key(key: &str) -> (r: Result<(), AppError>)
    ensures
        has_prefix(key@, "app."@) ==> r is Ok,
        !has_prefix(key@, "app."@) ==> r is Err && r.unwrap_err()@ == ErrorModel::Custom(
            bad_key_message(key@, "App"@, "app."@),
        ),
{
    if starts_with_text(key, "app.") {
        Ok(())
    } else {
        let m = String::from_str("Invalid setting key: ").concat(key).concat(". ").concat(
            "App",
        ).concat(" settings must start with '").concat("app.").concat("'");
        Err(AppError::Custom(m))
    }
}

/// Whether `key` may name a setting of a vault: it must begin with `vault.`.
pub fn check_vault_key(key: &str) -> (r: Result<(), AppError>)
    ensures
        has_prefix(key@, "vault."@) ==> r is Ok,
        !has_prefix(key@, "vault."@) ==> r is Err && r.unwrap_err()@ == ErrorModel::Custom(
            bad_key_message(key@, "Vault"@, "vault."@),
        ),
{
    if starts_with_text(key, "vault.") {
        Ok(())
    } else {
        let m = String::from_str("Invalid setting key: ").concat(key).concat(". ").concat(
            "Vault",
        ).concat(" settings must start with '").concat("vault.").concat("'");
        Err(AppError::Custom(m))
    }
}

/// The text that the store keeps of a setting's value.
pub fn setting_text(value: SettingValue) -> (r: String)
    ensures
        r@ == stored_text(value),
{
    match value {
        SettingValue::Text(s) => s,
        SettingValue::Number(s) => s,
        SettingValue::Flag(b) => if b {
            String::from_str("true")
        } else {
            String::from_str("false")
        },
        SettingValue::Null => String::new(),
        SettingValue::Composite(s) => s,
    }
}

/// The truth value that `s` spells.
pub fn parse_flag(s: &String) -> (r: Option<bool>)
    ensures
        r == flag_of(s@),
{
    if *s == String::from_str("true") {
        Some(true)
    } else if *s == String::from_str("false") {
        Some(false)
    } else {
        None
    }
}

/// The digits before position `i` spell no more than all of them.
pub proof fn lemma_decimal_grows(s: Seq<char>, i: int)
    requires
        0 <= i <= s.len(),
        forall|k: int| 0 <= k < s.len() ==> is_digit(#[trigger] s[k]),
    ensures
        decimal_value(s.take(i)) <= decimal_value(s),
    decreases s.len() - i,
{
    if i < s.len() {
        lemma_decimal_grows(s, i + 1);
        assert(s.take(i + 1).drop_last() =~= s.take(i));
    } else {
        assert(s.take(i) =~= s);
    }
}

/// The number that `s` spells.
pub fn parse_number(s: &str) -> (r: Option<u32>)
    ensures
        r == number_of(s@),
{
    let chars = chars_of(s);
    let start: usize = if chars.len() > 0 && chars[0] == '+' {
        1
    } else {
        0
    };
    let ghost d = unsigned_part(s@);
    assert(d =~= chars@.skip(start as int));
    if chars.len() == start {
        return None;
    }
    let mut value: u64 = 0;
    let mut i: usize = start;
    assert(d.take(0) =~= Seq::empty());
    while i < chars.len()
        invariant
            start <= i <= chars.len(),
            d == chars@.skip(start as int),
            d == unsigned_part(s@),
            forall|k: int| 0 <= k < i - start ==> is_digit(#[trigger] d[k]),
            value == decimal_value(d.take(i - start)),
            value <= u32::MAX,
        decreases chars.len() - i,
    {
        let c = chars[i];
        assert(d[i - start] == c);
        if c < '0' || c > '9' {
            assert(!is_digit(d[i - start]));
            return None;
        }
        assert(is_digit(d[i - start]));
        let digit: u64 = (c as u32 - 48) as u64;
        let next: u64 = value * 10 + digit;
        proof {
            assert(d.take(i - start + 1).drop_last() =~= d.take(i - start));
            assert(d.take(i - start + 1).last() == c);
        }
        if next > 0xffff_ffff {
            proof {
                if forall|k: int| 0 <= k < d.len() ==> is_digit(#[trigger] d[k]) {
                    lemma_decimal_grows(d, i - start + 1);
                }
            }
            return None;
        }
        value = next;
        i += 1;
    }
    assert(d.take(d.len() as int) =~= d);
    Some(value as u32)
}

/// The query handed to the full-text index for the user's `query`.
pub fn fts_query(query: &str) -> (r: String)
    ensures
        r@ == fts_query_of(query@),
{
    proof {
        reveal_strlit("\"");
    }
    replace_text(query, "\"", "\"\"").concat("*")
}

/// The hits of a search for `query`.
pub fn search_response(results: Vec<SearchResult>, query: String) -> (r: SearchResponse)
    ensures
        r.results == results,
        r.query == query,
        r.total == results.len(),
{
    let total = results.len();
    SearchResponse { results, query, total }
}

/// The hits of a search for the tag `tag`; its query is the tag behind `#`.
pub fn tag_search_response(results: Vec<SearchResult>, tag: &str) -> (r: SearchResponse)
    ensures
        r.results == results,
        r.query@ == "#"@ + tag@,
        r.total == results.len(),
{
    let total = results.len();
    SearchResponse { results, query: String::from_str("#").concat(tag), total }
}

/// The tags of a vault.
pub fn tag_list_response(tags: Vec<TagInfo>) -> (r: TagListResponse)
    ensures
        r.tags == tags,
        r.total == tags.len(),
{
    let total = tags.len();
    TagListResponse { tags, total }
}

/// The notes that carry `tag`.
pub fn notes_by_tag_response(tag: String, paths: Vec<String>) -> (r: NotesByTagResponse)
    ensures
        r.tag == tag,
        r.paths == paths,
        r.count == paths.len(),
{
    let count = paths.len();
    NotesByTagResponse { tag, paths, count }
}

/// The path of the daily note of the day `date`.
pub fn daily_note_path(date: &str) -> (r: String)
    ensures
        r@ == daily_path(date@),
{
    proof {
        reveal_strlit(".md");
    }
    assert(".md"@ =~= md_suffix());
    String::from_str("Daily Notes/").concat(date).concat(".md")
}

/// Reads the day that a daily note is asked for: a date as year, month and
/// day, which is handed back in that form.
pub fn read_date(text: &str) -> (r: Result<String, AppError>)
    ensures
        match normalized_date(text@, "%Y-%m-%d"@) {
            Ok(d) => r is Ok && r.unwrap()@ == d,
            Err(e) => r is Err && r.unwrap_err()@ == ErrorModel::Custom(
                "Invalid date format: "@ + e,
            ),
        },
{
    match normalize_date(text, "%Y-%m-%d") {
        Ok(d) => Ok(d),
        Err(e) => Err(AppError::Custom(String::from_str("Invalid date format: ").concat(e.as_str()))),
    }
}

/// The text of a new daily note for `date` at the given moment: the vault's
/// template `template` with the date as its title, or the default.
pub fn new_daily_note(date: &str, template: &Option<String>, secs: i64, offset: i32) -> (r: String)
    ensures
        r@ == new_daily(date@, template.deep_view(), secs, offset),
{
    match template {
        Some(t) => {
            let mut vars: Vec<(String, String)> = Vec::new();
            vars.push((String::from_str("title"), String::from_str(date)));
            assert(crate::template::var_views(vars@) =~= seq![("title"@, date@)]);
            TemplateProcessor::process(t.as_str(), &vars, secs, offset)
        },
        None => {
            let created = match format_time(secs, offset, "%Y-%m-%d %H:%M") {
                Some(c) => c,
                None => String::new(),
            };
            String::from_str("---\ntitle: \"").concat(date).concat("\"\ncreated: ").concat(
                created.as_str(),
            ).concat("\ntags: [daily-note]\n---\n\n# ").concat(date).concat("\n\n## Notes\n\n")
        },
    }
}

/// Whether `e` is a markdown file.
pub fn is_markdown_file(e: &FileEntry) -> (r: bool)
    ensures
        r == markdown_file(*e),
{
    if e.is_directory {
        false
    } else {
        match &e.extension {
            Some(x) => *x == String::from_str("md"),
            None => false,
        }
    }
}

/// The daily notes among `entries`, in order: the markdown files whose name
/// is a date.
pub fn collect_daily_notes(entries: &Vec<FileEntry>) -> (notes: Vec<DailyNote>)
    ensures
        note_rows(notes@) == daily_rows(entries@),
        forall|i: int| 0 <= i < notes.len() ==> notes[i].exists && notes[i].content.is_none(),
{
    let mut notes: Vec<DailyNote> = Vec::new();
    let mut i: usize = 0;
    assert(entries@.take(0) =~= Seq::empty());
    assert(note_rows(notes@) =~= Seq::empty());
    while i < entries.len()
        invariant
            i <= entries.len(),
            note_rows(notes@) == daily_rows(entries@.take(i as int)),
            forall|k: int| 0 <= k < notes.len() ==> notes[k].exists && notes[k].content.is_none(),
        decreases entries.len() - i,
    {
        proof {
            assert(entries@.take(i + 1).drop_last() =~= entries@.take(i as int));
            assert(entries@.take(i + 1).last() == entries[i as int]);
        }
        let ghost before = note_rows(notes@);
        let e = &entries[i];
        if is_markdown_file(e) {
            let date = strip_md_suffix(e.name.as_str());
            if normalize_date(date.as_str(), "%Y-%m-%d").is_ok() {
                let note = DailyNote { path: e.path.clone(), date, exists: true, content: None };
                notes.push(note);
                assert(note_rows(notes@) =~= before.push((e.path@, strip_md(e.name@))));
            }
        }
        i += 1;
    }
    assert(entries@.take(entries.len() as int) =~= entries@);
    notes
}

/// Puts daily notes in order, the latest day first.
pub fn sort_daily_notes(notes: Vec<DailyNote>) -> (sorted: Vec<DailyNote>)
    ensures
        latest_first(sorted@),
        sorted@.to_multiset() == notes@.to_multiset(),
{
    let ghost all = notes@;
    let mut rest = notes;
    let mut sorted: Vec<DailyNote> = Vec::new();
    assert(rest@ + sorted@ =~= all);
    while rest.len() > 0
        invariant
            latest_first(sorted@),
            (rest@ + sorted@).to_multiset() == all.to_multiset(),
        decreases rest.len(),
    {
        let ghost before_rest = rest@;
        let ghost before = sorted@;
        let x = rest.pop().unwrap();
        assert(before_rest =~= rest@.push(x));
        let mut p: usize = 0;
        while p < sorted.len() && str_lt(x.date.as_str(), sorted[p].date.as_str())
            invariant
                p <= sorted.len(),
                sorted@ == before,
                forall|i: int| 0 <= i < p ==> lex_lt(x.date@, sorted[i].date@),
            decreases sorted.len() - p,
        {
            p += 1;
        }
        sorted.insert(p, x);
        assert(sorted@ =~= before.insert(p as int, x));
        proof {
            let joined = rest@ + before;
            assert(rest@ + sorted@ =~= joined.insert(rest@.len() + p, x));
            assert(before_rest + before =~= joined.insert(rest@.len() as int, x));
            to_multiset_insert(joined, rest@.len() + p, x);
            to_multiset_insert(joined, rest@.len() as int, x);
        }
        assert forall|i: int, j: int| 0 <= i < j < sorted.len() implies !lex_lt(
            #[trigger] sorted[i].date@,
            #[trigger] sorted[j].date@,
        ) by {
            if j == p {
                if lex_lt(before[i].date@, x.date@) {
                    lemma_lex_transitive(before[i].date@, x.date@, before[i].date@);
                    lemma_lex_irreflexive(before[i].date@);
                }
            } else if i == p {
                if j - 1 > p {
                    assert(!lex_lt(before[p as int].date@, before[j - 1].date@));
                }
                if lex_lt(x.date@, before[j - 1].date@) {
                    lemma_lex_total(before[p as int].date@, before[j - 1].date@);
                    if lex_lt(before[j - 1].date@, before[p as int].date@) {
                        lemma_lex_transitive(x.date@, before[j - 1].date@, before[p as int].date@);
                    }
                }
            } else if i < p && j < p {
                assert(!lex_lt(before[i].date@, before[j].date@));
            } else if i < p {
                assert(!lex_lt(before[i].date@, before[j - 1].date@));
            } else {
                assert(!lex_lt(before[i - 1].date@, before[j - 1].date@));
            }
        }
    }
    assert(rest@ + sorted@ =~= sorted@);
    sorted
}

/// The daily notes among the entries of the daily-notes folder, the latest
/// day first, and no more than `limit` of them where a limit is given.
pub fn daily_notes_list(entries: &Vec<FileEntry>, limit: Option<usize>) -> (list: DailyNotesList)
    ensures
        is_daily_list(list.notes@, entries@, limit),
        forall|i: int| 0 <= i < list.notes.len() ==> list.notes[i].exists
            && list.notes[i].content.is_none(),
{
    let found = collect_daily_notes(entries);
    let ghost fv = found@;
    let mut notes = sort_daily_notes(found);
    let ghost sv = notes@;
    match limit {
        Some(n) => {
            if n < notes.len() {
                notes.truncate(n);
                assert(notes@ =~= sv.take(n as int));
            }
        },
        None => {},
    }
    assert(first_of(sv, limit) == notes@);
    assert(is_daily_list(notes@, entries@, limit)) by {
        assert(note_rows(fv) == daily_rows(entries@) && latest_first(sv) && sv.to_multiset()
            == fv.to_multiset() && notes@ == first_of(sv, limit));
    }
    assert forall|i: int| 0 <= i < notes.len() implies notes[i].exists
        && notes[i].content.is_none() by {
        assert(notes[i] == sv[i]);
        assert(sv.to_multiset().count(sv[i]) > 0) by {
            sv.to_multiset_ensures();
            assert(sv.contains(sv[i]));
        }
        fv.to_multiset_ensures();
        assert(fv.contains(sv[i]));
    }
    DailyNotesList { notes }
}

/// The templates among the entries of the templates folder: its markdown
/// files, each named without `.md`.
pub fn templates_response(entries: &Vec<FileEntry>) -> (r: TemplatesResponse)
    ensures
        info_rows(r.templates@) == template_rows(entries@),
{
    let mut templates: Vec<TemplateInfo> = Vec::new();
    let mut i: usize = 0;
    assert(entries@.take(0) =~= Seq::empty());
    assert(info_rows(templates@) =~= Seq::empty());
    while i < entries.len()
        invariant
            i <= entries.len(),
            info_rows(templates@) == template_rows(entries@.take(i as int)),
        decreases entries.len() - i,
    {
        proof {
            assert(entries@.take(i + 1).drop_last() =~= entries@.take(i as int));
            assert(entries@.take(i + 1).last() == entries[i as int]);
        }
        let ghost before = info_rows(templates@);
        let e = &entries[i];
        if is_markdown_file(e) {
            let info = TemplateInfo { name: strip_md_suffix(e.name.as_str()), path: e.path.clone() };
            templates.push(info);
            assert(info_rows(templates@) =~= before.push((strip_md(e.name@), e.path@)));
        }
        i += 1;
    }
    assert(entries@.take(entries.len() as int) =~= entries@);
    TemplatesResponse { templates }
}

/// The value of a stored setting, or `fallback` where none is stored.
pub open spec fn or_default(stored: Option<Seq<char>>, fallback: Seq<char>) -> Option<Seq<char>> {
    match stored {
        Some(v) => Some(v),
        None => Some(fallback),
    }
}

/// The number that an optional text spells.
pub open spec fn number_in(stored: Option<Seq<char>>) -> Option<u32> {
    match stored {
        Some(v) => number_of(v),
        None => None,
    }
}

/// The truth value that an optional text spells.
pub open spec fn flag_in(stored: Option<Seq<char>>) -> Option<bool> {
    match stored {
        Some(v) => flag_of(v),
        None => None,
    }
}

/// The number that the stored text spells, if any.
pub fn stored_number(stored: &Option<String>) -> (r: Option<u32>)
    ensures
        r == number_in(stored.deep_view()),
{
    match stored {
        Some(v) => parse_number(v.as_str()),
        None => None,
    }
}

/// The truth value that the stored text spells, if any.
pub fn stored_flag(stored: &Option<String>) -> (r: Option<bool>)
    ensures
        r == flag_in(stored.deep_view()),
{
    match stored {
        Some(v) => parse_flag(v),
        None => None,
    }
}

/// The stored value, or `fallback` where none is stored.
pub fn stored_or(stored: Option<String>, fallback: &str) -> (r: Option<String>)
    ensures
        r.deep_view() == or_default(stored.deep_view(), fallback@),
{
    match stored {
        Some(v) => Some(v),
        None => Some(String::from_str(fallback)),
    }
}

impl AppSettings {
    /// The settings of the application before a vault is open: none is set.
    pub fn unset() -> (r: Self)
        ensures
            r.theme.is_none(),
            r.font_size.is_none(),
            r.font_family.is_none(),
            r.vim_mode.is_none(),
            r.spell_check.is_none(),
            r.auto_save_interval.is_none(),
            r.line_numbers.is_none(),
            r.word_wrap.is_none(),
    {
        AppSettings {
            theme: None,
            font_size: None,
            font_family: None,
            vim_mode: None,
            spell_check: None,
            auto_save_interval: None,
            line_numbers: None,
            word_wrap: None,
        }
    }

    /// The settings of the application from what the store holds under the
    /// keys `app.theme`, `app.font_size`, `app.font_family`, `app.vim_mode`,
    /// `app.spell_check`, `app.auto_save_interval`, `app.line_numbers` and
    /// `app.word_wrap`. A number or a truth value that is not spelled as one
    /// counts as not set.
    pub fn from_stored(
        theme: Option<String>,
        font_size: Option<String>,
        font_family: Option<String>,
        vim_mode: Option<String>,
        spell_check: Option<String>,
        auto_save_interval: Option<String>,
        line_numbers: Option<String>,
        word_wrap: Option<String>,
    ) -> (r: Self)
        ensures
            r.theme == theme,
            r.font_size == number_in(font_size.deep_view()),
            r.font_family == font_family,
            r.vim_mode == flag_in(vim_mode.deep_view()),
            r.spell_check == flag_in(spell_check.deep_view()),
            r.auto_save_interval == number_in(auto_save_interval.deep_view()),
            r.line_numbers == flag_in(line_numbers.deep_view()),
            r.word_wrap == flag_in(word_wrap.deep_view()),
    {
        AppSettings {
            theme,
            font_size: stored_number(&font_size),
            font_family,
            vim_mode: stored_flag(&vim_mode),
            spell_check: stored_flag(&spell_check),
            auto_save_interval: stored_number(&auto_save_interval),
            line_numbers: stored_flag(&line_numbers),
            word_wrap: stored_flag(&word_wrap),
        }
    }
}

impl VaultSettings {
    /// The settings of a vault from what the store holds. The folders of the
    /// daily notes, the templates and the attachments and the format of the
    /// daily notes have defaults.
    pub fn from_stored(
        default_note_folder: Option<String>,
        daily_notes_folder: Option<String>,
        templates_folder: Option<String>,
        attachments_folder: Option<String>,
        daily_note_format: Option<String>,
        default_template: Option<String>,
        excluded_folders: Option<Vec<String>>,
    ) -> (r: Self)
        ensures
            r.default_note_folder == default_note_folder,
            r.daily_notes_folder.deep_view() == or_default(
                daily_notes_folder.deep_view(),
                "Daily Notes"@,
            ),
            r.templates_folder.deep_view() == or_default(templates_folder.deep_view(), "Templates"@),
            r.attachments_folder.deep_view() == or_default(
                attachments_folder.deep_view(),
                "Attachments"@,
            ),
            r.daily_note_format.deep_view() == or_default(daily_note_format.deep_view(), "%Y-%m-%d"@),
            r.default_template == default_template,
            r.excluded_folders == excluded_folders,
    {
        VaultSettings {
            default_note_folder,
            daily_notes_folder: stored_or(daily_notes_folder, "Daily Notes"),
            templates_folder: stored_or(templates_folder, "Templates"),
            attachments_folder: stored_or(attachments_folder, "Attachments"),
            daily_note_format: stored_or(daily_note_format, "%Y-%m-%d"),
            default_template,
            excluded_folders,
        }
    }
}

/// The name, path and time of those of `recent` whose directory exists, in
/// order.
pub open spec fn present_rows(recent: Seq<(RecentVault, bool)>) -> Seq<
    (Seq<char>, Seq<char>, Seq<char>),
>
    decreases recent.len(),
{
    if recent.len() == 0 {
        Seq::empty()
    } else {
        let rest = present_rows(recent.drop_last());
        let v = recent.last().0;
        if recent.last().1 {
            rest.push((v.name@, v.path@, v.last_opened@))
        } else {
            rest
        }
    }
}

/// The name, path and time of each of `vaults`.
pub open spec fn vault_rows(vaults: Seq<RecentVaultInfo>) -> Seq<(Seq<char>, Seq<char>, Seq<char>)> {
    Seq::new(vaults.len(), |i: int| (vaults[i].name@, vaults[i].path@, vaults[i].last_opened@))
}

/// The recent vaults that are still there: each of `recent` comes with the
/// word whether its directory exists.
pub fn recent_vaults_response(recent: &Vec<(RecentVault, bool)>) -> (r: Vec<RecentVaultInfo>)
    ensures
        vault_rows(r@) == present_rows(recent@),
{
    let mut r: Vec<RecentVaultInfo> = Vec::new();
    let mut i: usize = 0;
    assert(recent@.take(0) =~= Seq::empty());
    assert(vault_rows(r@) =~= Seq::empty());
    while i < recent.len()
        invariant
            i <= recent.len(),
            vault_rows(r@) == present_rows(recent@.take(i as int)),
        decreases recent.len() - i,
    {
        proof {
            assert(recent@.take(i + 1).drop_last() =~= recent@.take(i as int));
            assert(recent@.take(i + 1).last() == recent[i as int]);
        }
        let ghost before = vault_rows(r@);
        if recent[i].1 {
            let v = &recent[i].0;
            r.push(
                RecentVaultInfo {
                    name: v.name.clone(),
                    path: v.path.clone(),
                    last_opened: v.last_opened.clone(),
                },
            );
            assert(vault_rows(r@) =~= before.push((v.name@, v.path@, v.last_opened@)));
        }
        i += 1;
    }
    assert(recent@.take(recent.len() as int) =~= recent@);
    r
}

/// The template of a daily note that a new vault is given.
pub fn daily_note_template() -> (t: &'static str)
    ensures
        t@ == "---\ntitle: \"{{title}}\"\ncreated: {{datetime}}\ntags: [daily-note]\n---\n\n# {{title}}\n\n## Tasks\n\n- [ ]\n\n## Notes\n\n"@,
{
    "---\ntitle: \"{{title}}\"\ncreated: {{datetime}}\ntags: [daily-note]\n---\n\n# {{title}}\n\n## Tasks\n\n- [ ]\n\n## Notes\n\n"
}

/// The path of a folder as a prefix of the paths below it: with one `/` at
/// its end.
pub open spec fn folder_prefix(folder: Seq<char>) -> Seq<char> {
    if folder.len() > 0 && folder.last() == '/' {
        folder
    } else {
        folder + "/"@
    }
}

/// A file lies in a folder when its path begins with the folder's prefix, or
/// is the folder's path.
pub open spec fn lies_in(file: Seq<char>, folder: Seq<char>) -> bool {
    has_prefix(file, folder_prefix(folder)) || file == folder
}

/// The files among `files` that lie in `folder`, in order.
pub open spec fn files_in(files: Seq<Seq<char>>, folder: Seq<char>) -> Seq<Seq<char>>
    decreases files.len(),
{
    if files.len() == 0 {
        Seq::empty()
    } else {
        let rest = files_in(files.drop_last(), folder);
        if lies_in(files.last(), folder) {
            rest.push(files.last())
        } else {
            rest
        }
    }
}

/// The files among `files` that lie in `folder`: those that leave the index
/// when the folder is deleted.
pub fn files_in_folder(files: &Vec<String>, folder: &String) -> (r: Vec<String>)
    ensures
        view_all(r@) == files_in(view_all(files@), folder@),
{
    let n = folder.as_str().unicode_len();
    let prefix = if n > 0 && folder.as_str().get_char(n - 1) == '/' {
        folder.clone()
    } else {
        folder.clone().concat("/")
    };
    assert(prefix@ == folder_prefix(folder@));
    let ghost fv = view_all(files@);
    let mut r: Vec<String> = Vec::new();
    let mut i: usize = 0;
    assert(fv.take(0) =~= Seq::empty());
    assert(view_all(r@) =~= Seq::empty());
    while i < files.len()
        invariant
            i <= files.len(),
            fv == view_all(files@),
            prefix@ == folder_prefix(folder@),
            view_all(r@) == files_in(fv.take(i as int), folder@),
        decreases files.len() - i,
    {
        proof {
            assert(fv.take(i + 1).drop_last() =~= fv.take(i as int));
            assert(fv.take(i + 1).last() == fv[i as int]);
        }
        let ghost before = view_all(r@);
        if starts_with_text(files[i].as_str(), prefix.as_str()) || files[i] == *folder {
            r.push(files[i].clone());
            assert(view_all(r@) =~= before.push(fv[i as int]));
        }
        i += 1;
    }
    assert(fv.take(files.len() as int) =~= fv);
    r
}

/// The most hits that a search gives: the caller's limit, or 50.
pub fn search_limit(limit: Option<usize>) -> (n: usize)
    ensures
        n == match limit {
            Some(l) => l,
            None => 50,
        },
{
    match limit {
        Some(l) => l,
        None => 50,
    }
}

/// How far the graph around a note goes: the caller's depth, or one link.
pub fn graph_depth(depth: Option<usize>) -> (d: usize)
    ensures
        d == match depth {
            Some(n) => n,
            None => 1,
        },
{
    match depth {
        Some(n) => n,
        None => 1,
    }
}

/// The name of the template at `path`: the file's name without its
/// extension.
pub open spec fn template_name(path: Seq<char>) -> Seq<char> {
    match path_file_stem(path) {
        Some(n) => n,
        None => "Untitled"@,
    }
}

/// The open vault `name` at `path` with `note_count` notes.
pub fn vault_info(name: String, path: String, note_count: usize) -> (r: VaultInfo)
    ensures
        r.name == name,
        r.path == path,
        r.note_count == note_count,
        r.is_open,
{
    VaultInfo { name, path, note_count, is_open: true }
}

/// The text of the file at `path`, with the time of its last change as the
/// vault reports it.
pub fn file_content(path: String, content: String, info: FileInfo) -> (r: FileContent)
    ensures
        r.path == path,
        r.content == content,
        r.modified == info.modified,
{
    FileContent { path, content, modified: info.modified }
}

/// The links into or out of the note at `path`.
pub fn links_response(path: String, links: Vec<LinkInfo>) -> (r: LinksResponse)
    ensures
        r.path == path,
        r.links == links,
{
    LinksResponse { path, links }
}

/// The filled-in text of the template at `template_path`, under the
/// template's name.
pub fn applied_template(template_path: &str, content: String) -> (r: AppliedTemplate)
    ensures
        r.content == content,
        r.template_name@ == template_name(template_path@),
{
    let template_name = match file_stem_of(template_path) {
        Some(n) => n,
        None => String::from_str("Untitled"),
    };
    AppliedTemplate { content, template_name }
}

/// Whether the vault at `path` may be opened: it must be a directory.
pub fn require_vault_directory(path: &str, is_directory: bool) -> (r: Result<(), AppError>)
    ensures
        is_directory ==> r is Ok,
        !is_directory ==> r is Err && r.unwrap_err()@ == ErrorModel::InvalidPath(
            "Not a valid vault directory: "@ + path@,
        ),
{
    if is_directory {
        Ok(())
    } else {
        Err(AppError::InvalidPath(String::from_str("Not a valid vault directory: ").concat(path)))
    }
}

/// Whether a vault may be created at `path`: nothing may be there yet.
pub fn require_new_vault(path: &str, exists: bool) -> (r: Result<(), AppError>)
    ensures
        !exists ==> r is Ok,
        exists ==> r is Err && r.unwrap_err()@ == ErrorModel::AlreadyExists(
            "Vault already exists at: "@ + path@,
        ),
{
    if exists {
        Err(AppError::AlreadyExists(String::from_str("Vault already exists at: ").concat(path)))
    } else {
        Ok(())
    }
}

} // verus!
