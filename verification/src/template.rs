//! Templates: text in which `{{name}}` stands for a value.

use vstd::prelude::*;
use vstd::string::*;
use crate::clock::{format_time, formatted_time};

verus! {

/// `s` with every occurrence of `from` replaced by `to`: the occurrences are
/// taken from left to right and do not overlap. With an empty `from` nothing
/// is replaced.
pub open spec fn replaced(s: Seq<char>, from: Seq<char>, to: Seq<char>) -> Seq<char>
    decreases s.len(),
{
    if from.len() == 0 || s.len() < from.len() {
        s
    } else if s.take(from.len() as int) =~= from {
        to + replaced(s.skip(from.len() as int), from, to)
    } else {
        seq![s[0]] + replaced(s.skip(1), from, to)
    }
}

/// `str::replace` with a pattern that is not empty: `s` with every match of
/// `from`, found from left to right without overlap, replaced by `to`.
#[verifier::external_body]
pub(crate) fn replace_text(s: &str, from: &str, to: &str) -> (r: String)
    requires
        from@.len() > 0,
    ensures
        r@ == replaced(s@, from@, to@),
{
    s.replace(from, to)
}

/// What `regex` gives when each match of the pattern `pattern` in `text` is
/// replaced by the date that `date_token` makes of the match, for the moment
/// `secs` seconds after the epoch at `offset` seconds east of UTC; `None`
/// where the pattern does not compile.
pub uninterp spec fn dates_replaced(pattern: Seq<char>, text: Seq<char>, secs: i64, offset: i32) -> Option<
    Seq<char>,
>;

/// `regex::Regex::new` and `Regex::replace_all`: `text` with each match of
/// `pattern` replaced by what `date_token` makes of the whole match and of
/// its first group. The result is a function of the four values alone.
#[verifier::external_body]
fn replace_dates(pattern: &str, text: &str, secs: i64, offset: i32) -> (r: Option<String>)
    ensures
        r.deep_view() == dates_replaced(pattern@, text@, secs, offset),
{
    match regex::Regex::new(pattern) {
        Ok(re) => Some(
            re.replace_all(
                text,
                |caps: &regex::Captures| date_token(&caps[0], caps.get(1).map(|m| m.as_str()), secs, offset),
            ).to_string(),
        ),
        Err(_) => None,
    }
}

/// The format of a date token: the one it names, or year, month and day.
pub open spec fn token_format(format: Option<Seq<char>>) -> Seq<char> {
    match format {
        Some(f) => f,
        None => "%Y-%m-%d"@,
    }
}

/// What stands in place of a date token: the moment in the token's format,
/// or the token itself where the format is none that can be written.
pub open spec fn token_text(whole: Seq<char>, format: Option<Seq<char>>, secs: i64, offset: i32) -> Seq<
    char,
> {
    match formatted_time(secs, offset, token_format(format)) {
        Some(v) => v,
        None => whole,
    }
}

/// What stands in place of the date token `whole` with the format `format`.
pub fn date_token(whole: &str, format: Option<&str>, secs: i64, offset: i32) -> (r: String)
    ensures
        r@ == token_text(
            whole@,
            match format {
                Some(f) => Some(f@),
                None => None,
            },
            secs,
            offset,
        ),
{
    let wanted = match format {
        Some(f) => f,
        None => "%Y-%m-%d",
    };
    match format_time(secs, offset, wanted) {
        Some(v) => v,
        None => String::from_str(whole),
    }
}

/// The processor of templates.
#[derive(Debug, Clone, Copy)]
pub struct TemplateProcessor {}

/// The pattern of a date in a format of the template's choice.
pub open spec fn date_format_pattern() -> Seq<char> {
    "\\{\\{date:([^}]+)\\}\\}"@
}

/// `s` with `token` replaced by `value`, where there is a value.
pub open spec fn fill(s: Seq<char>, token: Seq<char>, value: Option<Seq<char>>) -> Seq<char> {
    match value {
        Some(v) => replaced(s, token, v),
        None => s,
    }
}

/// The value of the first of `vars` named `key`.
pub open spec fn lookup(vars: Seq<(Seq<char>, Seq<char>)>, key: Seq<char>) -> Option<Seq<char>>
    decreases vars.len(),
{
    if vars.len() == 0 {
        None
    } else if vars[0].0 == key {
        Some(vars[0].1)
    } else {
        lookup(vars.skip(1), key)
    }
}

/// `t` with `{{date}}`, `{{time}}` and `{{datetime}}` filled in.
pub open spec fn with_dates(t: Seq<char>, secs: i64, offset: i32) -> Seq<char> {
    let a = fill(t, "{{date}}"@, formatted_time(secs, offset, "%Y-%m-%d"@));
    let b = fill(a, "{{time}}"@, formatted_time(secs, offset, "%H:%M"@));
    fill(b, "{{datetime}}"@, formatted_time(secs, offset, "%Y-%m-%d %H:%M"@))
}

/// `s` with each `{{date:FORMAT}}` filled in.
pub open spec fn with_formats(s: Seq<char>, secs: i64, offset: i32) -> Seq<char> {
    match dates_replaced(date_format_pattern(), s, secs, offset) {
        Some(t) => t,
        None => s,
    }
}

/// The token of the variable `name`: the name in double braces.
pub open spec fn token_of(name: Seq<char>) -> Seq<char> {
    "{{"@ + name + "}}"@
}

/// `s` with the token of each of `vars` replaced by its value, one variable
/// after the other.
pub open spec fn with_variables(s: Seq<char>, vars: Seq<(Seq<char>, Seq<char>)>) -> Seq<char>
    decreases vars.len(),
{
    if vars.len() == 0 {
        s
    } else {
        let prev = with_variables(s, vars.drop_last());
        replaced(prev, token_of(vars.last().0), vars.last().1)
    }
}

/// The template `t` with the dates of the given moment, the title and the
/// variables `vars` filled in.
pub open spec fn processed(
    t: Seq<char>,
    vars: Seq<(Seq<char>, Seq<char>)>,
    secs: i64,
    offset: i32,
) -> Seq<char> {
    let a = with_dates(t, secs, offset);
    let b = fill(a, "{{title}}"@, lookup(vars, "title"@));
    let c = with_formats(b, secs, offset);
    with_variables(c, vars)
}

/// The views of a list of variables.
pub open spec fn var_views(vars: Seq<(String, String)>) -> Seq<(Seq<char>, Seq<char>)> {
    Seq::new(vars.len(), |i: int| (vars[i].0@, vars[i].1@))
}

/// `s` with `token` replaced by `value`, where there is a value.
pub fn fill_in(s: String, token: &str, value: &Option<String>) -> (r: String)
    ensures
        r@ == fill(s@, token@, value.deep_view()),
{
    match value {
        Some(v) => {
            if token.unicode_len() == 0 {
                s
            } else {
                replace_text(s.as_str(), token, v.as_str())
            }
        },
        None => s,
    }
}

/// The value of the first of `vars` named `key`.
pub fn lookup_variable(vars: &Vec<(String, String)>, key: &String) -> (r: Option<String>)
    ensures
        r.deep_view() == lookup(var_views(vars@), key@),
{
    let ghost vv = var_views(vars@);
    let mut i: usize = 0;
    assert(vv.skip(0) =~= vv);
    while i < vars.len()
        invariant
            i <= vars.len(),
            vv == var_views(vars@),
            lookup(vv, key@) == lookup(vv.skip(i as int), key@),
        decreases vars.len() - i,
    {
        assert(vv.skip(i as int)[0] == vv[i as int]);
        assert(vv.skip(i as int).skip(1) =~= vv.skip(i + 1));
        if vars[i].0 == *key {
            return Some(vars[i].1.clone());
        }
        i += 1;
    }
    None
}

impl TemplateProcessor {
    /// Fills each `{{date:FORMAT}}` of `s` with the date in that format.
    pub fn fill_formats(s: String, secs: i64, offset: i32) -> (r: String)
        ensures
            r@ == with_formats(s@, secs, offset),
    {
        match replace_dates("\\{\\{date:([^}]+)\\}\\}", s.as_str(), secs, offset) {
            Some(t) => t,
            None => s,
        }
    }

    /// Replaces the token of each of `vars` by its value.
    pub fn fill_variables(s: String, vars: &Vec<(String, String)>) -> (r: String)
        ensures
            r@ == with_variables(s@, var_views(vars@)),
    {
        let ghost vv = var_views(vars@);
        let ghost start = s@;
        let mut r = s;
        let mut i: usize = 0;
        assert(vv.take(0) =~= Seq::empty());
        while i < vars.len()
            invariant
                i <= vars.len(),
                vv == var_views(vars@),
                r@ == with_variables(start, vv.take(i as int)),
            decreases vars.len() - i,
        {
            proof {
                assert(vv.take(i + 1).drop_last() =~= vv.take(i as int));
                assert(vv.take(i + 1).last() == vv[i as int]);
            }
            let token = String::from_str("{{").concat(vars[i].0.as_str()).concat("}}");
            proof {
                reveal_strlit("{{");
            }
            r = replace_text(r.as_str(), token.as_str(), vars[i].1.as_str());
            i += 1;
        }
        assert(vv.take(vars.len() as int) =~= vv);
        r
    }

    /// Fills in a template: `{{date}}`, `{{time}}` and `{{datetime}}` with
    /// the moment `secs` seconds after the epoch at `offset` seconds east of
    /// UTC, `{{title}}` with the variable of that name, each
    /// `{{date:FORMAT}}` with the date in that format, and the token of each
    /// variable with its value.
    pub fn process(template: &str, variables: &Vec<(String, String)>, secs: i64, offset: i32) -> (r:
        String)
        ensures
            r@ == processed(template@, var_views(variables@), secs, offset),
    {
        let date = format_time(secs, offset, "%Y-%m-%d");
        let time = format_time(secs, offset, "%H:%M");
        let datetime = format_time(secs, offset, "%Y-%m-%d %H:%M");
        let a = fill_in(String::from_str(template), "{{date}}", &date);
        let b = fill_in(a, "{{time}}", &time);
        let c = fill_in(b, "{{datetime}}", &datetime);
        let title = lookup_variable(variables, &String::from_str("title"));
        let d = fill_in(c, "{{title}}", &title);
        let e = Self::fill_formats(d, secs, offset);
        Self::fill_variables(e, variables)
    }
}

} // verus!
