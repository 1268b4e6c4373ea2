//! `.luaurc` files: JSON with comments and trailing commas, read into settings.
use crate::fs::{ResolverError, ResolverFault};
use crate::json::{
    member, member_models, member_text, models, parse_json, parsed, text_of, Json, JsonModel,
};
use crate::text::{
    chars_of, debug_quoted, debug_text, is_white, lemma_white_end, lists_text, same_text, string_of,
    texts, white, white_end,
};
use vstd::prelude::*;
use vstd::string::*;

verus! {

/// How strictly a module is checked.
#[derive(Clone, Copy, Debug, PartialEq, Eq, Structural)]
pub enum AnalysisMode {
    NoCheck,
    Nonstrict,
    Strict,
}

/// An alias for module requests, with the file that names it.
#[derive(Debug)]
pub struct Alias {
    pub name: String,
    pub target: String,
    pub origin: String,
}

/// What one configuration file sets.
#[derive(Debug)]
pub struct AnalysisSettings {
    pub mode: Option<AnalysisMode>,
    pub lint_errors: Option<bool>,
    pub type_errors: Option<bool>,
    pub globals: Option<Vec<String>>,
    pub aliases: Vec<Alias>,
}

/// Model of an [`Alias`].
pub struct AliasModel {
    pub name: Seq<char>,
    pub target: Seq<char>,
    pub origin: Seq<char>,
}

/// Model of [`AnalysisSettings`].
#[verifier::ext_equal]
pub struct SettingsModel {
    pub mode: Option<AnalysisMode>,
    pub lint_errors: Option<bool>,
    pub type_errors: Option<bool>,
    pub globals: Option<Seq<Seq<char>>>,
    pub aliases: Seq<AliasModel>,
}

impl Alias {
    pub open spec fn view(&self) -> AliasModel {
        AliasModel { name: self.name@, target: self.target@, origin: self.origin@ }
    }
}

/// The models of a list of aliases.
pub open spec fn alias_models(v: Seq<Alias>) -> Seq<AliasModel> {
    v.map_values(|a: Alias| a@)
}

impl AnalysisSettings {
    pub open spec fn view(&self) -> SettingsModel {
        SettingsModel {
            mode: self.mode,
            lint_errors: self.lint_errors,
            type_errors: self.type_errors,
            globals: match self.globals {
                Some(v) => Some(texts(v@)),
                None => None,
            },
            aliases: alias_models(self.aliases@),
        }
    }

    /// Settings that set nothing.
    pub fn new() -> (r: Self)
        ensures
            r@ == no_settings(),
    {
        let r = AnalysisSettings {
            mode: None,
            lint_errors: None,
            type_errors: None,
            globals: None,
            aliases: Vec::new(),
        };
        assert(r@ =~= no_settings());
        r
    }
}

/// Settings that set nothing.
pub open spec fn no_settings() -> SettingsModel {
    SettingsModel {
        mode: None,
        lint_errors: None,
        type_errors: None,
        globals: None,
        aliases: Seq::empty(),
    }
}

/// Position behind the closing quote of the string literal whose content goes
/// on at `i`: the first quote that no backslash escapes. An open literal ends
/// with the text.
pub open spec fn literal_end(s: Seq<char>, i: int) -> int
    decreases s.len() + 1 - i,
{
    if i < 0 || i >= s.len() {
        s.len() as int
    } else if s[i] == '"' {
        i + 1
    } else if s[i] == '\\' {
        literal_end(s, i + 2)
    } else {
        literal_end(s, i + 1)
    }
}

/// Position of the first newline at or after `i`, or the end of the text.
pub open spec fn newline_at(s: Seq<char>, i: int) -> int
    decreases s.len() - i,
{
    if i < 0 || i >= s.len() {
        s.len() as int
    } else if s[i] == '\n' {
        i
    } else {
        newline_at(s, i + 1)
    }
}

/// A literal ends in the text, not before its content goes on.
pub proof fn lemma_literal_end(s: Seq<char>, i: int)
    requires
        0 <= i,
    ensures
        literal_end(s, i) <= s.len(),
        i < s.len() ==> i < literal_end(s, i),
        i <= s.len() ==> i <= literal_end(s, i),
    decreases s.len() + 1 - i,
{
    if i < s.len() && s[i] != '"' {
        if s[i] == '\\' {
            lemma_literal_end(s, i + 2);
        } else {
            lemma_literal_end(s, i + 1);
        }
    }
}

/// A newline found lies in the text.
pub proof fn lemma_newline_at(s: Seq<char>, i: int)
    requires
        0 <= i <= s.len(),
    ensures
        i <= newline_at(s, i) <= s.len(),
    decreases s.len() - i,
{
    if i < s.len() && s[i] != '\n' {
        lemma_newline_at(s, i + 1);
    }
}

/// The text from `i` on without its line comments: a comment starts with two
/// slashes outside a string literal and ends before the next newline.
pub open spec fn without_comments(s: Seq<char>, i: int) -> Seq<char>
    decreases s.len() - i,
{
    if i < 0 || i >= s.len() {
        Seq::empty()
    } else if s[i] == '"' {
        proof {
            lemma_literal_end(s, i + 1);
        }
        s.subrange(i, literal_end(s, i + 1)) + without_comments(s, literal_end(s, i + 1))
    } else if s[i] == '/' && i + 1 < s.len() && s[i + 1] == '/' {
        proof {
            lemma_newline_at(s, i + 2);
        }
        without_comments(s, newline_at(s, i + 2))
    } else {
        seq![s[i]] + without_comments(s, i + 1)
    }
}

/// Whether a comma at `i` has nothing but white space between it and a
/// closing bracket.
pub open spec fn trailing_comma(s: Seq<char>, i: int) -> bool {
    s[i] == ',' && white_end(s, i + 1) < s.len() && (s[white_end(s, i + 1)] == '}' || s[white_end(
        s,
        i + 1,
    )] == ']')
}

/// The text from `i` on without the trailing commas that stand outside string
/// literals.
pub open spec fn without_trailing_commas(s: Seq<char>, i: int) -> Seq<char>
    decreases s.len() - i,
{
    if i < 0 || i >= s.len() {
        Seq::empty()
    } else if s[i] == '"' {
        proof {
            lemma_literal_end(s, i + 1);
        }
        s.subrange(i, literal_end(s, i + 1)) + without_trailing_commas(s, literal_end(s, i + 1))
    } else if trailing_comma(s, i) {
        without_trailing_commas(s, i + 1)
    } else {
        seq![s[i]] + without_trailing_commas(s, i + 1)
    }
}

/// The strict JSON text of a `.luaurc` text.
pub open spec fn strict_json(s: Seq<char>) -> Seq<char> {
    without_trailing_commas(without_comments(s, 0), 0)
}

/// Finds the end of a string literal.
fn find_literal_end(s: &[char], from: usize) -> (r: usize)
    requires
        from <= s.len(),
    ensures
        r == literal_end(s@, from as int),
        from < s.len() ==> from < r,
        r <= s.len(),
{
    proof {
        lemma_literal_end(s@, from as int);
    }
    let mut i: usize = from;
    while i < s.len()
        invariant
            from <= i <= s.len(),
            literal_end(s@, i as int) == literal_end(s@, from as int),
            from < s.len() ==> from < literal_end(s@, from as int),
            literal_end(s@, from as int) <= s.len(),
        decreases s.len() - i,
    {
        if s[i] == '"' {
            return i + 1;
        }
        if s[i] == '\\' {
            if i + 1 >= s.len() {
                assert(literal_end(s@, i + 2) == s@.len());
                return s.len();
            }
            i += 2;
        } else {
            i += 1;
        }
    }
    s.len()
}

/// Copies a range of characters behind others.
fn push_range(out: &mut Vec<char>, s: &[char], from: usize, to: usize)
    requires
        from <= to <= s.len(),
    ensures
        final(out)@ == old(out)@ + s@.subrange(from as int, to as int),
{
    let mut i: usize = from;
    let ghost start = out@;
    while i < to
        invariant
            from <= i <= to <= s.len(),
            out@ == start + s@.subrange(from as int, i as int),
        decreases to - i,
    {
        out.push(s[i]);
        assert(s@.subrange(from as int, i + 1) =~= s@.subrange(from as int, i as int).push(
            s@[i as int],
        ));
        i += 1;
    }
}

/// Removes the line comments of a text.
pub fn strip_json_comments(contents: &str) -> (r: String)
    ensures
        r@ == without_comments(contents@, 0),
{
    let s: Vec<char> = chars_of(contents);
    let mut out: Vec<char> = Vec::new();
    let mut i: usize = 0;
    while i < s.len()
        invariant
            i <= s.len(),
            s@ == contents@,
            out@ + without_comments(s@, i as int) == without_comments(s@, 0),
        decreases s.len() - i,
    {
        let ghost rest = without_comments(s@, i as int);
        let ghost before = out@;
        if s[i] == '"' {
            let end: usize = find_literal_end(s.as_slice(), i + 1);
            proof {
                lemma_literal_end(s@, i + 1);
            }
            push_range(&mut out, s.as_slice(), i, end);
            assert(out@ + without_comments(s@, end as int) =~= before + rest);
            i = end;
        } else if s[i] == '/' && i + 1 < s.len() && s[i + 1] == '/' {
            proof {
                lemma_newline_at(s@, i + 2);
            }
            let mut end: usize = i + 2;
            while end < s.len() && s[end] != '\n'
                invariant
                    i + 2 <= end <= s.len(),
                    newline_at(s@, end as int) == newline_at(s@, i + 2),
                decreases s.len() - end,
            {
                end += 1;
            }
            i = end;
        } else {
            out.push(s[i]);
            assert(out@ + without_comments(s@, i + 1) =~= before + rest);
            i += 1;
        }
    }
    assert(out@ + without_comments(s@, i as int) =~= out@);
    string_of(out.as_slice())
}

/// Removes the trailing commas of a text.
pub fn remove_trailing_json_commas(contents: &str) -> (r: String)
    ensures
        r@ == without_trailing_commas(contents@, 0),
{
    let s: Vec<char> = chars_of(contents);
    let mut out: Vec<char> = Vec::new();
    let mut i: usize = 0;
    while i < s.len()
        invariant
            i <= s.len(),
            s@ == contents@,
            out@ + without_trailing_commas(s@, i as int) == without_trailing_commas(s@, 0),
        decreases s.len() - i,
    {
        let ghost rest = without_trailing_commas(s@, i as int);
        let ghost before = out@;
        if s[i] == '"' {
            let end: usize = find_literal_end(s.as_slice(), i + 1);
            proof {
                lemma_literal_end(s@, i + 1);
            }
            push_range(&mut out, s.as_slice(), i, end);
            assert(out@ + without_trailing_commas(s@, end as int) =~= before + rest);
            i = end;
        } else {
            let mut next: usize = i + 1;
            while next < s.len() && is_white(s[next])
                invariant
                    i + 1 <= next <= s.len(),
                    white_end(s@, next as int) == white_end(s@, i + 1),
                decreases s.len() - next,
            {
                next += 1;
            }
            let trailing = s[i] == ',' && next < s.len() && (s[next] == '}' || s[next] == ']');
            assert(trailing == trailing_comma(s@, i as int));
            if !trailing {
                out.push(s[i]);
            }
            assert(out@ + without_trailing_commas(s@, i + 1) =~= before + rest);
            i += 1;
        }
    }
    assert(out@ + without_trailing_commas(s@, i as int) =~= out@);
    string_of(out.as_slice())
}

/// Turns a `.luaurc` text into strict JSON.
pub fn normalize_luaurc_json(contents: &str) -> (r: String)
    ensures
        r@ == strict_json(contents@),
{
    remove_trailing_json_commas(strip_json_comments(contents).as_str())
}

/// The mode that a name stands for. The older name `noinfer` counts only where
/// it is asked for.
pub open spec fn mode_of(mode: Seq<char>, compat: bool) -> Option<AnalysisMode> {
    if mode == "nocheck"@ {
        Some(AnalysisMode::NoCheck)
    } else if mode == "nonstrict"@ {
        Some(AnalysisMode::Nonstrict)
    } else if mode == "strict"@ {
        Some(AnalysisMode::Strict)
    } else if mode == "noinfer"@ && compat {
        Some(AnalysisMode::NoCheck)
    } else {
        None
    }
}

/// A fault of the configuration file at `path`.
pub open spec fn config_fault(path: Seq<char>, detail: Seq<char>) -> ResolverFault {
    ResolverFault::ConfigError { path, detail }
}

/// What a named mode sets, or its fault.
pub open spec fn mode_setting(mode: Seq<char>, compat: bool, path: Seq<char>) -> Result<
    AnalysisMode,
    ResolverFault,
> {
    match mode_of(mode, compat) {
        Some(m) => Ok(m),
        None => Err(config_fault(path, "bad language mode "@ + debug_text(mode))),
    }
}

/// Builds the error of a configuration file.
pub fn config_parse_error(path: &str, detail: String) -> (r: ResolverError)
    ensures
        r@ == config_fault(path@, detail@),
{
    ResolverError::ConfigError { path: path.to_owned(), detail }
}

/// Reads the name of a mode.
pub fn parse_config_mode(mode: &str, compat: bool, path: &str) -> (r: Result<
    AnalysisMode,
    ResolverError,
>)
    ensures
        match r {
            Ok(m) => mode_setting(mode@, compat, path@) == Ok::<_, ResolverFault>(m),
            Err(e) => mode_setting(mode@, compat, path@) == Err::<AnalysisMode, _>(e@),
        },
{
    if same_text(mode, "nocheck") {
        Ok(AnalysisMode::NoCheck)
    } else if same_text(mode, "nonstrict") {
        Ok(AnalysisMode::Nonstrict)
    } else if same_text(mode, "strict") {
        Ok(AnalysisMode::Strict)
    } else if same_text(mode, "noinfer") && compat {
        Ok(AnalysisMode::NoCheck)
    } else {
        let detail = "bad language mode ".to_owned().concat(debug_quoted(mode).as_str());
        Err(config_parse_error(path, detail))
    }
}

/// A name with a text behind it, as a detail of a fault.
pub open spec fn field_fault(path: Seq<char>, field: Seq<char>, what: Seq<char>) -> ResolverFault {
    config_fault(path, field + what)
}

/// Builds the error of one field.
pub(crate) fn field_error(path: &str, field: &str, what: &str) -> (r: ResolverError)
    ensures
        r@ == field_fault(path@, field@, what@),
{
    config_parse_error(path, field.to_owned().concat(what))
}

/// What the mode of a `.luaurc` tree sets: `languageMode`, and over it the
/// `mode` of `language`.
pub open spec fn luaurc_mode(j: JsonModel, path: Seq<char>) -> Result<
    Option<AnalysisMode>,
    ResolverFault,
> {
    let plain = match member_text(j, "languageMode"@) {
        Some(m) => match mode_setting(m, false, path) {
            Ok(mode) => Ok(Some(mode)),
            Err(e) => Err(e),
        },
        None => Ok(None),
    };
    let inner = match member(j, "language"@) {
        Some(language) => member_text(language, "mode"@),
        None => None,
    };
    match (plain, inner) {
        (Ok(_), Some(m)) => match mode_setting(m, true, path) {
            Ok(mode) => Ok(Some(mode)),
            Err(e) => Err(e),
        },
        _ => plain,
    }
}

/// What a field that must be a boolean sets.
pub open spec fn bool_setting(j: JsonModel, field: Seq<char>, path: Seq<char>) -> Result<
    Option<bool>,
    ResolverFault,
> {
    match member(j, field) {
        None => Ok(None),
        Some(JsonModel::Bool(b)) => Ok(Some(b)),
        Some(_) => Err(field_fault(path, field, " must be a boolean"@)),
    }
}

/// What a field that must be a list of strings sets.
pub open spec fn strings_setting(j: JsonModel, field: Seq<char>, path: Seq<char>) -> Result<
    Option<Seq<Seq<char>>>,
    ResolverFault,
> {
    match member(j, field) {
        None => Ok(None),
        Some(JsonModel::Array(items)) => if forall|i: int|
            0 <= i < items.len() ==> text_of(#[trigger] items[i]) is Some {
            Ok(Some(items.map_values(|item: JsonModel| text_of(item)->0)))
        } else {
            Err(field_fault(path, field, " entries must be strings"@))
        },
        Some(_) => Err(field_fault(path, field, " must be an array"@)),
    }
}

/// The alias that one entry sets, or its fault: the target must be a string,
/// and the name none of the refused ones.
pub open spec fn alias_setting(
    name: Seq<char>,
    target: Option<Seq<char>>,
    path: Seq<char>,
    refused: Seq<Seq<char>>,
) -> Result<AliasModel, ResolverFault> {
    match target {
        None => Err(config_fault(path, "alias "@ + name + " target must be a string"@)),
        Some(target) => if refused.contains(name) {
            Err(ResolverFault::InvalidAlias { alias: name, source: path })
        } else {
            Ok(AliasModel { name, target, origin: path })
        },
    }
}

/// The aliases that the first `n` members set, or the first fault among them.
pub open spec fn alias_settings(
    m: Seq<(Seq<char>, JsonModel)>,
    path: Seq<char>,
    refused: Seq<Seq<char>>,
    n: int,
) -> Result<Seq<AliasModel>, ResolverFault>
    decreases n,
{
    if n <= 0 {
        Ok(Seq::empty())
    } else {
        match alias_settings(m, path, refused, n - 1) {
            Err(e) => Err(e),
            Ok(list) => match alias_setting(m[n - 1].0, text_of(m[n - 1].1), path, refused) {
                Err(e) => Err(e),
                Ok(alias) => Ok(list.push(alias)),
            },
        }
    }
}

/// The aliases of a `.luaurc` tree.
pub open spec fn luaurc_aliases(
    j: JsonModel,
    path: Seq<char>,
    refused: Seq<Seq<char>>,
) -> Result<Seq<AliasModel>, ResolverFault> {
    match member(j, "aliases"@) {
        Some(JsonModel::Object(m)) => alias_settings(m, path, refused, m.len() as int),
        _ => Ok(Seq::empty()),
    }
}

/// The settings of a `.luaurc` tree. A fault of an earlier field comes before
/// one of a later field.
pub open spec fn luaurc_settings(
    j: JsonModel,
    path: Seq<char>,
    refused: Seq<Seq<char>>,
) -> Result<SettingsModel, ResolverFault> {
    match luaurc_mode(j, path) {
        Err(e) => Err(e),
        Ok(mode) => match bool_setting(j, "lintErrors"@, path) {
            Err(e) => Err(e),
            Ok(lint_errors) => match bool_setting(j, "typeErrors"@, path) {
                Err(e) => Err(e),
                Ok(type_errors) => match strings_setting(j, "globals"@, path) {
                    Err(e) => Err(e),
                    Ok(globals) => match luaurc_aliases(j, path, refused) {
                        Err(e) => Err(e),
                        Ok(aliases) => Ok(
                            SettingsModel { mode, lint_errors, type_errors, globals, aliases },
                        ),
                    },
                },
            },
        },
    }
}

/// Reads a field that must be a boolean.
fn bool_config_value(value: &Json, field: &str, path: &str) -> (r: Result<
    Option<bool>,
    ResolverError,
>)
    ensures
        match r {
            Ok(b) => bool_setting(value@, field@, path@) == Ok::<_, ResolverFault>(b),
            Err(e) => bool_setting(value@, field@, path@) == Err::<Option<bool>, _>(e@),
        },
{
    match value.get(field) {
        None => Ok(None),
        Some(Json::Bool(b)) => Ok(Some(*b)),
        Some(_) => Err(field_error(path, field, " must be a boolean")),
    }
}

/// Reads a field that must be a list of strings.
fn json_string_array(value: &Json, field: &str, path: &str) -> (r: Result<
    Option<Vec<String>>,
    ResolverError,
>)
    ensures
        match r {
            Ok(Some(v)) => strings_setting(value@, field@, path@) == Ok::<_, ResolverFault>(
                Some(texts(v@)),
            ),
            Ok(None) => strings_setting(value@, field@, path@) == Ok::<_, ResolverFault>(
                None::<Seq<Seq<char>>>,
            ),
            Err(e) => strings_setting(value@, field@, path@) == Err::<Option<Seq<Seq<char>>>, _>(
                e@,
            ),
        },
{
    let found = match value.get(field) {
        None => {
            return Ok(None);
        },
        Some(found) => found,
    };
    let items = match found.as_array() {
        None => {
            return Err(field_error(path, field, " must be an array"));
        },
        Some(items) => items,
    };
    let ghost all = models(items@);
    let mut out: Vec<String> = Vec::new();
    let mut i: usize = 0;
    while i < items.len()
        invariant
            i <= items.len(),
            all == models(items@),
            member(value@, field@) == Some(JsonModel::Array(all)),
            out@.len() == i,
            forall|k: int|
                0 <= k < i ==> text_of(all[k]) == Some((#[trigger] out@[k])@),
        decreases items.len() - i,
    {
        match items[i].as_str() {
            Some(s) => {
                out.push(s.to_owned());
            },
            None => {
                assert(text_of(all[i as int]) is None);
                return Err(field_error(path, field, " entries must be strings"));
            },
        }
        i += 1;
    }
    assert forall|k: int| 0 <= k < all.len() implies text_of(#[trigger] all[k]) is Some by {
        assert(text_of(all[k]) == Some(out@[k]@));
    }
    assert(texts(out@) =~= all.map_values(|item: JsonModel| text_of(item)->0));
    Ok(Some(out))
}

/// Reads one alias.
pub(crate) fn materialized_alias(
    name: &str,
    target: Option<&str>,
    path: &str,
    refused: &Vec<String>,
) -> (r: Result<Alias, ResolverError>)
    ensures
        ({
            let view = match target {
                Some(t) => Some(t@),
                None => None,
            };
            match r {
                Ok(a) => alias_setting(name@, view, path@, texts(refused@)) == Ok::<
                    _,
                    ResolverFault,
                >(a@),
                Err(e) => alias_setting(name@, view, path@, texts(refused@)) == Err::<
                    AliasModel,
                    _,
                >(e@),
            }
        }),
{
    match target {
        None => {
            let detail = "alias ".to_owned().concat(name).concat(" target must be a string");
            Err(config_parse_error(path, detail))
        },
        Some(target) => {
            if lists_text(refused, name) {
                Err(ResolverError::InvalidAlias { alias: name.to_owned(), source: path.to_owned() })
            } else {
                Ok(
                    Alias {
                        name: name.to_owned(),
                        target: target.to_owned(),
                        origin: path.to_owned(),
                    },
                )
            }
        },
    }
}

/// A fault among the first `n` members is the fault of all of them.
proof fn lemma_alias_fault(
    m: Seq<(Seq<char>, JsonModel)>,
    path: Seq<char>,
    refused: Seq<Seq<char>>,
    n: int,
    all: int,
)
    requires
        n <= all,
        alias_settings(m, path, refused, n) is Err,
    ensures
        alias_settings(m, path, refused, all) == alias_settings(m, path, refused, n),
    decreases all,
{
    if n < all && all > 0 {
        lemma_alias_fault(m, path, refused, n, all - 1);
    }
}

/// Reads the aliases of a `.luaurc` tree.
fn read_luaurc_aliases(value: &Json, path: &str, refused: &Vec<String>) -> (r: Result<
    Vec<Alias>,
    ResolverError,
>)
    ensures
        match r {
            Ok(v) => luaurc_aliases(value@, path@, texts(refused@)) == Ok::<_, ResolverFault>(
                alias_models(v@),
            ),
            Err(e) => luaurc_aliases(value@, path@, texts(refused@)) == Err::<Seq<AliasModel>, _>(
                e@,
            ),
        },
{
    let mut out: Vec<Alias> = Vec::new();
    let members = match value.get("aliases") {
        None => {
            assert(alias_models(out@) =~= Seq::empty());
            return Ok(out);
        },
        Some(found) => match found.as_object() {
            None => {
                assert(alias_models(out@) =~= Seq::empty());
                return Ok(out);
            },
            Some(members) => members,
        },
    };
    let ghost m = member_models(members@);
    let ghost bad = texts(refused@);
    let mut i: usize = 0;
    assert(alias_models(out@) =~= Seq::empty());
    while i < members.len()
        invariant
            i <= members.len(),
            m == member_models(members@),
            bad == texts(refused@),
            member(value@, "aliases"@) == Some(JsonModel::Object(m)),
            alias_settings(m, path@, bad, i as int) == Ok::<_, ResolverFault>(alias_models(out@)),
        decreases members.len() - i,
    {
        match materialized_alias(members[i].0.as_str(), members[i].1.as_str(), path, refused) {
            Ok(alias) => {
                let ghost before = out@;
                out.push(alias);
                assert(alias_models(out@) =~= alias_models(before).push(alias@));
            },
            Err(e) => {
                proof {
                    lemma_alias_fault(m, path@, bad, i + 1, m.len() as int);
                }
                return Err(e);
            },
        }
        i += 1;
    }
    Ok(out)
}

/// Reads the mode of a `.luaurc` tree.
fn read_luaurc_mode(value: &Json, path: &str) -> (r: Result<Option<AnalysisMode>, ResolverError>)
    ensures
        match r {
            Ok(m) => luaurc_mode(value@, path@) == Ok::<_, ResolverFault>(m),
            Err(e) => luaurc_mode(value@, path@) == Err::<Option<AnalysisMode>, _>(e@),
        },
{
    let plain = match value.get_str("languageMode") {
        Some(m) => match parse_config_mode(m, false, path) {
            Ok(mode) => Some(mode),
            Err(e) => {
                return Err(e);
            },
        },
        None => None,
    };
    let inner = match value.get("language") {
        Some(language) => language.get_str("mode"),
        None => None,
    };
    match inner {
        Some(m) => match parse_config_mode(m, true, path) {
            Ok(mode) => Ok(Some(mode)),
            Err(e) => Err(e),
        },
        None => Ok(plain),
    }
}

/// Reads the settings of a `.luaurc` tree. `refused` lists the names that are
/// no valid aliases.
pub fn apply_luaurc_config(value: &Json, path: &str, refused: &Vec<String>) -> (r: Result<
    AnalysisSettings,
    ResolverError,
>)
    ensures
        match r {
            Ok(s) => luaurc_settings(value@, path@, texts(refused@)) == Ok::<_, ResolverFault>(s@),
            Err(e) => luaurc_settings(value@, path@, texts(refused@)) == Err::<SettingsModel, _>(
                e@,
            ),
        },
{
    let mode = match read_luaurc_mode(value, path) {
        Ok(mode) => mode,
        Err(e) => {
            return Err(e);
        },
    };
    let lint_errors = match bool_config_value(value, "lintErrors", path) {
        Ok(b) => b,
        Err(e) => {
            return Err(e);
        },
    };
    let type_errors = match bool_config_value(value, "typeErrors", path) {
        Ok(b) => b,
        Err(e) => {
            return Err(e);
        },
    };
    let globals = match json_string_array(value, "globals", path) {
        Ok(v) => v,
        Err(e) => {
            return Err(e);
        },
    };
    let aliases = match read_luaurc_aliases(value, path, refused) {
        Ok(v) => v,
        Err(e) => {
            return Err(e);
        },
    };
    Ok(AnalysisSettings { mode, lint_errors, type_errors, globals, aliases })
}

/// What a `.luaurc` text sets.
pub open spec fn luaurc_of(
    contents: Seq<char>,
    path: Seq<char>,
    refused: Seq<Seq<char>>,
) -> Result<SettingsModel, ResolverFault> {
    match parsed(strict_json(contents)) {
        Ok(j) => luaurc_settings(j, path, refused),
        Err(e) => Err(config_fault(path, e)),
    }
}

/// Reads the settings of a `.luaurc` text.
pub fn parse_luaurc(contents: &str, path: &str, refused: &Vec<String>) -> (r: Result<
    AnalysisSettings,
    ResolverError,
>)
    ensures
        match r {
            Ok(s) => luaurc_of(contents@, path@, texts(refused@)) == Ok::<_, ResolverFault>(s@),
            Err(e) => luaurc_of(contents@, path@, texts(refused@)) == Err::<SettingsModel, _>(e@),
        },
{
    match parse_json(normalize_luaurc_json(contents).as_str()) {
        Ok(value) => apply_luaurc_config(&value, path, refused),
        Err(e) => Err(config_parse_error(path, e)),
    }
}

/// The names of the aliases of a `.luaurc` tree.
pub open spec fn alias_names_of(j: JsonModel) -> Seq<Seq<char>> {
    match member(j, "aliases"@) {
        Some(JsonModel::Object(m)) => m.map_values(|e: (Seq<char>, JsonModel)| e.0),
        _ => Seq::empty(),
    }
}

/// Lists the names of the aliases of a `.luaurc` tree, so that a caller can
/// say which of them are to be refused.
pub fn luaurc_alias_names(value: &Json) -> (r: Vec<String>)
    ensures
        texts(r@) == alias_names_of(value@),
{
    let mut out: Vec<String> = Vec::new();
    assert(texts(out@) =~= Seq::empty());
    let members = match value.get("aliases") {
        None => {
            return out;
        },
        Some(found) => match found.as_object() {
            None => {
                return out;
            },
            Some(members) => members,
        },
    };
    let mut i: usize = 0;
    while i < members.len()
        invariant
            i <= members.len(),
            out@.len() == i,
            member(value@, "aliases"@) == Some(JsonModel::Object(member_models(members@))),
            forall|k: int| 0 <= k < i ==> (#[trigger] out@[k])@ == members@[k].0@,
        decreases members.len() - i,
    {
        out.push(members[i].0.clone());
        i += 1;
    }
    assert(texts(out@) =~= alias_names_of(value@));
    out
}

/// A closed literal in front of a text ends where it ended before.
proof fn lemma_literal_in_front(s: Seq<char>, i: int, end: int, t: Seq<char>, j: int)
    requires
        0 <= i < j <= end <= s.len(),
        end == literal_end(s, j),
        end == s.len() ==> t.len() == 0,
    ensures
        literal_end(s.subrange(i, end) + t, j - i) == end - i,
    decreases end - j,
{
    let u = s.subrange(i, end) + t;
    lemma_literal_end(s, j);
    if j < end {
        assert(u[j - i] == s[j]);
        if s[j] == '"' {
        } else if s[j] == '\\' {
            lemma_literal_end(s, j + 2);
            if j + 2 <= end {
                lemma_literal_in_front(s, i, end, t, j + 2);
            } else {
                assert(literal_end(s, j + 2) == s.len());
                assert(u.len() == end - i);
                assert(literal_end(u, j - i + 2) == u.len());
            }
        } else {
            lemma_literal_in_front(s, i, end, t, j + 1);
        }
    } else {
        assert(j == s.len());
    }
}

/// What a text starts with once its comments are gone.
proof fn lemma_front(s: Seq<char>, i: int)
    requires
        0 <= i < s.len(),
        s[i] != '/',
    ensures
        without_comments(s, i).len() > 0,
        without_comments(s, i)[0] == s[i],
{
    lemma_literal_end(s, i + 1);
}

/// The characters of a text behind a front, without comments.
proof fn lemma_shift_comments(a: Seq<char>, t: Seq<char>, i: int)
    requires
        a.len() <= i <= a.len() + t.len(),
    ensures
        without_comments(a + t, i) == without_comments(t, i - a.len()),
    decreases a.len() + t.len() - i,
{
    let u = a + t;
    let k = i - a.len();
    if i < u.len() {
        assert(u[i] == t[k]);
        if t[k] == '"' {
            lemma_shift_literal(a, t, i + 1);
            lemma_literal_end(u, i + 1);
            let end = literal_end(u, i + 1);
            assert(u.subrange(i, end) =~= t.subrange(k, end - a.len()));
            lemma_shift_comments(a, t, end);
        } else if t[k] == '/' && k + 1 < t.len() && t[k + 1] == '/' {
            assert(u[i + 1] == t[k + 1]);
            lemma_shift_newline(a, t, i + 2);
            lemma_newline_at(u, i + 2);
            lemma_shift_comments(a, t, newline_at(u, i + 2));
        } else {
            if i + 1 < u.len() {
                assert(u[i + 1] == t[k + 1]);
            }
            lemma_shift_comments(a, t, i + 1);
        }
    }
}

proof fn lemma_shift_literal(a: Seq<char>, t: Seq<char>, i: int)
    requires
        a.len() <= i,
    ensures
        literal_end(a + t, i) == literal_end(t, i - a.len()) + a.len(),
    decreases a.len() + t.len() + 1 - i,
{
    let u = a + t;
    if i < u.len() {
        assert(u[i] == t[i - a.len()]);
        if u[i] == '\\' {
            lemma_shift_literal(a, t, i + 2);
        } else if u[i] != '"' {
            lemma_shift_literal(a, t, i + 1);
        }
    }
}

proof fn lemma_shift_newline(a: Seq<char>, t: Seq<char>, i: int)
    requires
        a.len() <= i,
    ensures
        newline_at(a + t, i) == newline_at(t, i - a.len()) + a.len(),
    decreases a.len() + t.len() - i,
{
    let u = a + t;
    if i < u.len() {
        assert(u[i] == t[i - a.len()]);
        if u[i] != '\n' {
            lemma_shift_newline(a, t, i + 1);
        }
    }
}

/// Once the comments of a text are gone there is none left to remove.
pub proof fn law_comments_are_gone(s: Seq<char>, i: int)
    requires
        0 <= i <= s.len(),
    ensures
        without_comments(without_comments(s, i), 0) == without_comments(s, i),
    decreases s.len() - i,
{
    let w = without_comments(s, i);
    if i < s.len() {
        if s[i] == '"' {
            let end = literal_end(s, i + 1);
            lemma_literal_end(s, i + 1);
            let a = s.subrange(i, end);
            let t = without_comments(s, end);
            law_comments_are_gone(s, end);
            lemma_literal_in_front(s, i, end, t, i + 1);
            assert((a + t)[0] == '"');
            lemma_shift_comments(a, t, a.len() as int);
            assert((a + t).subrange(0, a.len() as int) =~= a);
        } else if s[i] == '/' && i + 1 < s.len() && s[i + 1] == '/' {
            lemma_newline_at(s, i + 2);
            law_comments_are_gone(s, newline_at(s, i + 2));
        } else {
            let a = seq![s[i]];
            let t = without_comments(s, i + 1);
            law_comments_are_gone(s, i + 1);
            lemma_shift_comments(a, t, 1);
            assert((a + t)[0] == s[i]);
            if i + 1 < s.len() && s[i] == '/' {
                lemma_front(s, i + 1);
                assert((a + t)[1] == t[0]);
            }
        }
    }
}

/// A text in which no two slashes stand side by side is kept as it is.
pub proof fn law_text_without_comments_is_kept(s: Seq<char>, i: int)
    requires
        0 <= i <= s.len(),
        forall|k: int| 0 <= k < s.len() - 1 && #[trigger] s[k] == '/' ==> s[k + 1] != '/',
    ensures
        without_comments(s, i) == s.skip(i),
    decreases s.len() - i,
{
    if i < s.len() {
        if s[i] == '"' {
            let end = literal_end(s, i + 1);
            lemma_literal_end(s, i + 1);
            law_text_without_comments_is_kept(s, end);
            assert(s.subrange(i, end) + s.skip(end) =~= s.skip(i));
        } else {
            law_text_without_comments_is_kept(s, i + 1);
            assert(seq![s[i]] + s.skip(i + 1) =~= s.skip(i));
        }
    } else {
        assert(s.skip(i) =~= Seq::empty());
    }
}

proof fn lemma_newline_behind(s: Seq<char>, i: int, end: int)
    requires
        0 <= i <= end < s.len(),
        s[end] == '\n',
        forall|k: int| i <= k < end ==> #[trigger] s[k] != '\n',
    ensures
        newline_at(s, i) == end,
    decreases end - i,
{
    if i < end {
        lemma_newline_behind(s, i + 1, end);
    }
}

proof fn lemma_comments_in_front(a: Seq<char>, t: Seq<char>, i: int)
    requires
        0 <= i <= a.len(),
        forall|k: int| 0 <= k < a.len() ==> #[trigger] a[k] != '"' && a[k] != '/',
    ensures
        without_comments(a + t, i) == a.skip(i) + without_comments(t, 0),
    decreases a.len() - i,
{
    let u = a + t;
    if i < a.len() {
        assert(u[i] == a[i]);
        lemma_comments_in_front(a, t, i + 1);
        assert(seq![a[i]] + (a.skip(i + 1) + without_comments(t, 0)) =~= a.skip(i)
            + without_comments(t, 0));
    } else {
        lemma_shift_comments(a, t, i);
        assert(a.skip(i) + without_comments(t, 0) =~= without_comments(t, 0));
    }
}

/// A comment is what stands from two slashes to the end of the line; what is
/// in front of it and what follows the line are read as before.
pub proof fn law_line_comment_is_removed(a: Seq<char>, comment: Seq<char>, t: Seq<char>)
    requires
        forall|k: int| 0 <= k < a.len() ==> #[trigger] a[k] != '"' && a[k] != '/',
        forall|k: int| 0 <= k < comment.len() ==> #[trigger] comment[k] != '\n',
    ensures
        without_comments(a + "//"@ + comment + "\n"@ + t, 0) == a + "\n"@ + without_comments(t, 0),
{
    reveal_strlit("//");
    reveal_strlit("\n");
    let rest = "//"@ + comment + "\n"@ + t;
    assert(a + "//"@ + comment + "\n"@ + t =~= a + rest);
    lemma_comments_in_front(a, rest, 0);
    let front = "//"@ + comment;
    let end = front.len() as int;
    let tail = "\n"@ + t;
    assert(rest =~= front + tail);
    assert forall|k: int| 2 <= k < end implies #[trigger] rest[k] != '\n' by {
        assert(rest[k] == comment[k - 2]);
    }
    assert(rest[end] == '\n');
    lemma_newline_behind(rest, 2, end);
    assert(rest[0] == '/' && rest[1] == '/');
    lemma_shift_comments(front, tail, end);
    assert(tail[0] == '\n');
    lemma_shift_comments("\n"@, t, 1);
    assert(seq!['\n'] =~= "\n"@);
    assert(a.skip(0) =~= a);
    assert(a + ("\n"@ + without_comments(t, 0)) =~= a + "\n"@ + without_comments(t, 0));
}

proof fn lemma_literal_behind(s: Seq<char>, i: int, end: int)
    requires
        0 <= i <= end < s.len(),
        s[end] == '"',
        forall|k: int| i <= k < end ==> #[trigger] s[k] != '"' && s[k] != '\\',
    ensures
        literal_end(s, i) == end + 1,
    decreases end - i,
{
    if i < end {
        lemma_literal_behind(s, i + 1, end);
    }
}

/// A string literal is kept with all that stands in it, slashes and commas
/// too.
pub proof fn law_literals_are_kept(a: Seq<char>, text: Seq<char>, t: Seq<char>)
    requires
        forall|k: int| 0 <= k < a.len() ==> #[trigger] a[k] != '"' && a[k] != '/' && a[k] != ',',
        forall|k: int| 0 <= k < text.len() ==> #[trigger] text[k] != '"' && text[k] != '\\',
    ensures
        without_comments(a + "\""@ + text + "\""@ + t, 0) == a + "\""@ + text + "\""@
            + without_comments(t, 0),
        without_trailing_commas(a + "\""@ + text + "\""@ + t, 0) == a + "\""@ + text + "\""@
            + without_trailing_commas(t, 0),
{
    reveal_strlit("\"");
    let literal = "\""@ + text + "\""@;
    let end: int = text.len() as int + 1;
    let rest = literal + t;
    let whole = a + "\""@ + text + "\""@ + t;
    assert(whole =~= a + rest);
    assert forall|k: int| 1 <= k < end implies #[trigger] rest[k] != '"' && rest[k] != '\\' by {
        assert(rest[k] == text[k - 1]);
    }
    assert(rest[0] == '"');
    assert(rest[end] == '"');
    lemma_literal_behind(rest, 1, end);
    assert(rest.subrange(0, end + 1) =~= literal);
    assert(literal.len() == end + 1);
    lemma_comments_in_front(a, rest, 0);
    lemma_shift_comments(literal, t, end + 1);
    assert(a.skip(0) =~= a);
    assert(a + (literal + without_comments(t, 0)) =~= a + "\""@ + text + "\""@
        + without_comments(t, 0));
    lemma_commas_in_front(a, rest, 0);
    lemma_shift_commas(literal, t, end + 1);
    assert(a + (literal + without_trailing_commas(t, 0)) =~= a + "\""@ + text + "\""@
        + without_trailing_commas(t, 0));
}

proof fn lemma_shift_white(a: Seq<char>, t: Seq<char>, i: int)
    requires
        a.len() <= i <= a.len() + t.len(),
    ensures
        white_end(a + t, i) == white_end(t, i - a.len()) + a.len(),
    decreases a.len() + t.len() - i,
{
    let u = a + t;
    if i < u.len() {
        assert(u[i] == t[i - a.len()]);
        lemma_shift_white(a, t, i + 1);
    }
}

proof fn lemma_shift_commas(a: Seq<char>, t: Seq<char>, i: int)
    requires
        a.len() <= i <= a.len() + t.len(),
    ensures
        without_trailing_commas(a + t, i) == without_trailing_commas(t, i - a.len()),
    decreases a.len() + t.len() - i,
{
    let u = a + t;
    let k = i - a.len();
    if i < u.len() {
        assert(u[i] == t[k]);
        if t[k] == '"' {
            lemma_shift_literal(a, t, i + 1);
            lemma_literal_end(u, i + 1);
            let end = literal_end(u, i + 1);
            assert(u.subrange(i, end) =~= t.subrange(k, end - a.len()));
            lemma_shift_commas(a, t, end);
        } else {
            lemma_shift_white(a, t, i + 1);
            lemma_white_end(t, k + 1);
            let at = white_end(t, k + 1);
            if at < t.len() {
                assert(u[a.len() + at] == t[at]);
            }
            assert(trailing_comma(u, i) == trailing_comma(t, k));
            lemma_shift_commas(a, t, i + 1);
        }
    }
}

proof fn lemma_commas_in_front(a: Seq<char>, t: Seq<char>, i: int)
    requires
        0 <= i <= a.len(),
        forall|k: int| 0 <= k < a.len() ==> #[trigger] a[k] != '"' && a[k] != ',',
    ensures
        without_trailing_commas(a + t, i) == a.skip(i) + without_trailing_commas(t, 0),
    decreases a.len() - i,
{
    let u = a + t;
    if i < a.len() {
        assert(u[i] == a[i]);
        lemma_commas_in_front(a, t, i + 1);
        assert(seq![a[i]] + (a.skip(i + 1) + without_trailing_commas(t, 0)) =~= a.skip(i)
            + without_trailing_commas(t, 0));
    } else {
        lemma_shift_commas(a, t, i);
        assert(a.skip(i) + without_trailing_commas(t, 0) =~= without_trailing_commas(t, 0));
    }
}

proof fn lemma_white_run(s: Seq<char>, i: int, end: int)
    requires
        0 <= i <= end < s.len(),
        forall|k: int| i <= k < end ==> white(#[trigger] s[k]),
        !white(s[end]),
    ensures
        white_end(s, i) == end,
    decreases end - i,
{
    if i < end {
        lemma_white_run(s, i + 1, end);
    }
}

/// A comma in front of a closing bracket is left out, with white space between
/// them or without; one in front of anything else is kept.
pub proof fn law_only_trailing_commas_are_removed(
    a: Seq<char>,
    gap: Seq<char>,
    c: char,
    t: Seq<char>,
)
    requires
        forall|k: int| 0 <= k < a.len() ==> #[trigger] a[k] != '"' && a[k] != ',',
        forall|k: int| 0 <= k < gap.len() ==> white(#[trigger] gap[k]),
        !white(c),
    ensures
        c == '}' || c == ']' ==> without_trailing_commas(a + ","@ + gap + seq![c] + t, 0) == a
            + without_trailing_commas(gap + seq![c] + t, 0),
        c != '}' && c != ']' ==> without_trailing_commas(a + ","@ + gap + seq![c] + t, 0) == a
            + ","@ + without_trailing_commas(gap + seq![c] + t, 0),
{
    reveal_strlit(",");
    let tail = gap + seq![c] + t;
    let rest = ","@ + tail;
    let end = gap.len() + 1;
    assert(a + ","@ + gap + seq![c] + t =~= a + rest);
    lemma_commas_in_front(a, rest, 0);
    assert(a.skip(0) =~= a);
    assert(rest[0] == ',');
    assert(rest[end as int] == c);
    assert forall|k: int| 1 <= k < end implies white(#[trigger] rest[k]) by {
        assert(rest[k] == gap[k - 1]);
    }
    lemma_white_run(rest, 1, end as int);
    lemma_shift_commas(","@, tail, 1);
    assert(seq![','] =~= ","@);
    assert(a + (","@ + without_trailing_commas(tail, 0)) =~= a + ","@ + without_trailing_commas(
        tail,
        0,
    ));
}

proof fn lemma_alias_settings(
    m: Seq<(Seq<char>, JsonModel)>,
    path: Seq<char>,
    refused: Seq<Seq<char>>,
    n: int,
)
    requires
        0 <= n <= m.len(),
    ensures
        alias_settings(m, path, refused, n) is Ok <==> forall|i: int|
            0 <= i < n ==> (#[trigger] m[i]).1 is String && !refused.contains(m[i].0),
        alias_settings(m, path, refused, n) matches Ok(list) ==> list.len() == n && forall|i: int|
            0 <= i < n ==> (#[trigger] list[i]).name == m[i].0 && list[i].target
                == m[i].1->String_0 && list[i].origin == path,
    decreases n,
{
    if n > 0 {
        lemma_alias_settings(m, path, refused, n - 1);
        let e = m[n - 1];
        assert(alias_settings(m, path, refused, n) is Ok <==> alias_settings(
            m,
            path,
            refused,
            n - 1,
        ) is Ok && e.1 is String && !refused.contains(e.0));
        if let Ok(list) = alias_settings(m, path, refused, n) {
            let before = alias_settings(m, path, refused, n - 1)->Ok_0;
            assert forall|i: int| 0 <= i < n implies (#[trigger] list[i]).name == m[i].0
                && list[i].target == m[i].1->String_0 && list[i].origin == path by {
                if i < n - 1 {
                    assert(list[i] == before[i]);
                }
            }
        }
    }
}

/// The `aliases` object of a `.luaurc` tree sets one alias for each of its
/// members, in their order, with the name and the string of the member. It is
/// refused only for a member that is no string or whose name is refused.
pub proof fn law_members_are_aliases(
    j: JsonModel,
    m: Seq<(Seq<char>, JsonModel)>,
    path: Seq<char>,
    refused: Seq<Seq<char>>,
)
    requires
        member(j, "aliases"@) == Some(JsonModel::Object(m)),
    ensures
        luaurc_aliases(j, path, refused) is Ok <==> forall|i: int|
            0 <= i < m.len() ==> (#[trigger] m[i]).1 is String && !refused.contains(m[i].0),
        luaurc_aliases(j, path, refused) matches Ok(list) ==> list.len() == m.len() && forall|
            i: int,
        |
            0 <= i < m.len() ==> (#[trigger] list[i]).name == m[i].0 && list[i].target
                == m[i].1->String_0 && list[i].origin == path,
        luaurc_settings(j, path, refused) matches Ok(s) ==> luaurc_aliases(j, path, refused)
            == Ok::<_, ResolverFault>(s.aliases),
{
    lemma_alias_settings(m, path, refused, m.len() as int);
}

/// Each setting of a `.luaurc` tree comes from its own member: a switch is the
/// boolean that is written, the globals are the strings of their list in their
/// order, the mode is the one that is named, by `language` before
/// `languageMode`, and what is not written is not set.
pub proof fn law_settings_come_from_their_members(
    j: JsonModel,
    path: Seq<char>,
    refused: Seq<Seq<char>>,
    s: SettingsModel,
)
    requires
        luaurc_settings(j, path, refused) == Ok::<_, ResolverFault>(s),
    ensures
        match member(j, "lintErrors"@) {
            None => s.lint_errors is None,
            Some(e) => e matches JsonModel::Bool(b) && s.lint_errors == Some(b),
        },
        match member(j, "typeErrors"@) {
            None => s.type_errors is None,
            Some(e) => e matches JsonModel::Bool(b) && s.type_errors == Some(b),
        },
        match member(j, "globals"@) {
            None => s.globals is None,
            Some(e) => e matches JsonModel::Array(items) && s.globals matches Some(list)
                && list.len() == items.len() && forall|i: int|
                0 <= i < list.len() ==> items[i] == JsonModel::String(#[trigger] list[i]),
        },
        match member(j, "aliases"@) {
            Some(JsonModel::Object(_)) => true,
            _ => s.aliases.len() == 0,
        },
        member(j, "language"@) is None ==> match member(j, "languageMode"@) {
            Some(JsonModel::String(m)) => match s.mode {
                Some(AnalysisMode::Strict) => m == "strict"@,
                Some(AnalysisMode::Nonstrict) => m == "nonstrict"@,
                Some(AnalysisMode::NoCheck) => m == "nocheck"@,
                None => false,
            },
            _ => s.mode is None,
        },
        match member(j, "language"@) {
            Some(language) => match member(language, "mode"@) {
                Some(JsonModel::String(m)) => match s.mode {
                    Some(AnalysisMode::Strict) => m == "strict"@,
                    Some(AnalysisMode::Nonstrict) => m == "nonstrict"@,
                    Some(AnalysisMode::NoCheck) => m == "nocheck"@ || m == "noinfer"@,
                    None => false,
                },
                _ => true,
            },
            None => true,
        },
{
    if let Some(JsonModel::Array(items)) = member(j, "globals"@) {
        let list = s.globals->0;
        assert forall|i: int| 0 <= i < list.len() implies items[i] == JsonModel::String(
            #[trigger] list[i],
        ) by {
            assert(text_of(items[i]) is Some);
        }
    }
}

/// An alias whose target is no string is reported by its name, and one whose
/// name is refused as an invalid alias of its file; any other is set.
pub proof fn law_bad_aliases_are_named(
    name: Seq<char>,
    target: Seq<char>,
    path: Seq<char>,
    refused: Seq<Seq<char>>,
)
    ensures
        alias_setting(name, None, path, refused) == Err::<AliasModel, _>(
            (ResolverFault::ConfigError {
                path,
                detail: "alias "@ + name + " target must be a string"@,
            }),
        ),
        refused.contains(name) ==> alias_setting(name, Some(target), path, refused) == Err::<
            AliasModel,
            _,
        >((ResolverFault::InvalidAlias { alias: name, source: path })),
        !refused.contains(name) ==> (alias_setting(
            name,
            Some(target),
            path,
            refused,
        ) matches Ok(a) && a.name == name && a.target == target && a.origin == path),
{
}

/// The names of modes: three of them are known everywhere, one more only where
/// old names are accepted, and any other is refused.
pub proof fn law_modes_are_named(mode: Seq<char>, compat: bool, path: Seq<char>)
    ensures
        mode_setting("strict"@, compat, path) == Ok::<_, ResolverFault>(AnalysisMode::Strict),
        mode_setting("nonstrict"@, compat, path) == Ok::<_, ResolverFault>(AnalysisMode::Nonstrict),
        mode_setting("nocheck"@, compat, path) == Ok::<_, ResolverFault>(AnalysisMode::NoCheck),
        mode_setting("noinfer"@, true, path) == Ok::<_, ResolverFault>(AnalysisMode::NoCheck),
        mode_setting(mode, compat, path) is Ok <==> mode == "strict"@ || mode == "nonstrict"@
            || mode == "nocheck"@ || (mode == "noinfer"@ && compat),
{
    reveal_strlit("strict");
    reveal_strlit("nonstrict");
    reveal_strlit("nocheck");
    reveal_strlit("noinfer");
    assert("strict"@.len() == 6 && "nonstrict"@.len() == 9);
    assert("nocheck"@.len() == 7 && "noinfer"@.len() == 7);
    assert("nocheck"@[2] == 'c' && "noinfer"@[2] == 'i');
}

} // verus!
