//! `.config.luau` files: settings in a returned table, or in assignments to a
//! returned local.
use crate::fs::config::{
    alias_models, alias_setting, config_fault, config_parse_error, field_error,
    field_fault, materialized_alias, mode_setting, no_settings, parse_config_mode, Alias,
    AliasModel, AnalysisMode, AnalysisSettings, SettingsModel,
};
use crate::fs::{ResolverError, ResolverFault};
use crate::text::{decimal, decimal_text, same_text, texts};
use vstd::prelude::*;
use vstd::string::*;

verus! {

/// An expression, as far as configuration files use it.
#[derive(Debug)]
pub enum Expr {
    String(String),
    Bool(bool),
    Table(Vec<TableItem>),
    Local(String),
    Global(String),
    IndexName { expr: Box<Expr>, index: String },
    IndexExpr { expr: Box<Expr>, index: Box<Expr> },
    Group(Box<Expr>),
    /// Anything else.
    Other,
}

/// An item of a table constructor.
#[derive(Debug)]
pub struct TableItem {
    pub key: Option<Expr>,
    pub value: Expr,
}

/// A statement, as far as configuration files use it.
#[derive(Debug)]
pub enum Stat {
    Return(Vec<Expr>),
    Assign { vars: Vec<Expr>, values: Vec<Expr> },
    Local { vars: Vec<String>, values: Vec<Expr> },
    /// Anything else.
    Other,
}

/// The items of a table constructor.
pub open spec fn table_items(e: Expr) -> Option<Seq<TableItem>> {
    match e {
        Expr::Table(items) => Some(items@),
        _ => None,
    }
}

/// The name that the key of a table item gives it.
pub open spec fn item_name(item: TableItem) -> Option<Seq<char>> {
    match item.key {
        Some(Expr::String(s)) => Some(s@),
        _ => None,
    }
}

/// The value of the first item named `field` at or after `i`.
pub open spec fn item_from(items: Seq<TableItem>, field: Seq<char>, i: int) -> Option<Expr>
    decreases items.len() - i,
{
    if i < 0 || i >= items.len() {
        None
    } else if item_name(items[i]) == Some(field) {
        Some(items[i].value)
    } else {
        item_from(items, field, i + 1)
    }
}

/// A field of the `luau` table in a table.
pub open spec fn luau_item(items: Seq<TableItem>, field: Seq<char>) -> Option<Expr> {
    match item_from(items, "luau"@, 0) {
        Some(e) => match table_items(e) {
            Some(inner) => item_from(inner, field, 0),
            None => None,
        },
        None => None,
    }
}

/// Whether an expression names a path: a variable, then the fields by which it
/// is indexed.
pub open spec fn names_path(e: Expr, path: Seq<Seq<char>>) -> bool
    decreases e,
{
    path.len() > 0 && match e {
        Expr::Local(name) => path.len() == 1 && name@ == path.last(),
        Expr::Global(name) => path.len() == 1 && name@ == path.last(),
        Expr::IndexName { expr, index } => index@ == path.last() && names_path(
            *expr,
            path.drop_last(),
        ),
        Expr::IndexExpr { expr, index } => match *index {
            Expr::String(s) => s@ == path.last() && names_path(*expr, path.drop_last()),
            _ => false,
        },
        Expr::Group(inner) => names_path(*inner, path),
        _ => false,
    }
}

/// The value of the first variable at or after `i` that names the path.
pub open spec fn assigned_from(
    vars: Seq<Expr>,
    values: Seq<Expr>,
    path: Seq<Seq<char>>,
    i: int,
) -> Option<Expr>
    decreases vars.len() - i,
{
    if i < 0 || i >= vars.len() || i >= values.len() {
        None
    } else if names_path(vars[i], path) {
        Some(values[i])
    } else {
        assigned_from(vars, values, path, i + 1)
    }
}

/// What one statement assigns to a path.
pub open spec fn assigned_by(stat: Stat, path: Seq<Seq<char>>) -> Option<Expr> {
    match stat {
        Stat::Assign { vars, values } => assigned_from(vars@, values@, path, 0),
        _ => None,
    }
}

/// What the latest assignment among the first `n` statements gives a path.
pub open spec fn assigned(body: Seq<Stat>, path: Seq<Seq<char>>, n: int) -> Option<Expr>
    decreases n,
{
    if n <= 0 {
        None
    } else if assigned_by(body[n - 1], path) is Some {
        assigned_by(body[n - 1], path)
    } else {
        assigned(body, path, n - 1)
    }
}

/// What the latest return statement among the first `n` that returns anything
/// returns first.
pub open spec fn returned(body: Seq<Stat>, n: int) -> Option<Expr>
    decreases n,
{
    if n <= 0 {
        None
    } else {
        match body[n - 1] {
            Stat::Return(list) => if list@.len() > 0 {
                Some(list@[0])
            } else {
                returned(body, n - 1)
            },
            _ => returned(body, n - 1),
        }
    }
}

/// The table that the first binding of `name` at or after `i` to a table gives
/// it.
pub open spec fn bound_from(vars: Seq<Seq<char>>, values: Seq<Expr>, name: Seq<char>, i: int) -> Option<
    Seq<TableItem>,
>
    decreases vars.len() - i,
{
    if i < 0 || i >= vars.len() || i >= values.len() {
        None
    } else if vars[i] == name && table_items(values[i]) is Some {
        table_items(values[i])
    } else {
        bound_from(vars, values, name, i + 1)
    }
}

/// The table that a local statement gives a name.
pub open spec fn bound_by(stat: Stat, name: Seq<char>) -> Option<Seq<TableItem>> {
    match stat {
        Stat::Local { vars, values } => bound_from(texts(vars@), values@, name, 0),
        _ => None,
    }
}

/// The table of the first local statement at or after `i` that gives a name
/// one.
pub open spec fn initializer(body: Seq<Stat>, name: Seq<char>, i: int) -> Option<Seq<TableItem>>
    decreases body.len() - i,
{
    if i < 0 || i >= body.len() {
        None
    } else if bound_by(body[i], name) is Some {
        bound_by(body[i], name)
    } else {
        initializer(body, name, i + 1)
    }
}

/// A field of the `luau` table of a returned local: assigned by itself, else
/// in an assigned `luau` table, else in the table that the local starts with.
pub open spec fn local_field(body: Seq<Stat>, local: Seq<char>, field: Seq<char>) -> Option<Expr> {
    let n = body.len() as int;
    let own = assigned(body, seq![local, "luau"@, field], n);
    let table = match assigned(body, seq![local, "luau"@], n) {
        Some(e) => match table_items(e) {
            Some(items) => item_from(items, field, 0),
            None => None,
        },
        None => None,
    };
    if own is Some {
        own
    } else if table is Some {
        table
    } else {
        match initializer(body, local, 0) {
            Some(items) => luau_item(items, field),
            None => None,
        }
    }
}

/// A field of the configuration that a file returns.
pub open spec fn config_field(body: Seq<Stat>, field: Seq<char>) -> Option<Expr> {
    match returned(body, body.len() as int) {
        Some(Expr::Table(items)) => luau_item(items@, field),
        Some(Expr::Local(name)) => local_field(body, name@, field),
        _ => None,
    }
}

/// The name that the key of a table item gives it.
fn table_key_name(item: &TableItem) -> (r: Option<&str>)
    ensures
        match r {
            Some(s) => item_name(*item) == Some(s@),
            None => item_name(*item) is None,
        },
{
    match &item.key {
        Some(Expr::String(s)) => Some(s.as_str()),
        _ => None,
    }
}

/// Finds a named field in a table constructor.
fn table_field<'a>(items: &'a Vec<TableItem>, field: &str) -> (r: Option<&'a Expr>)
    ensures
        match r {
            Some(e) => item_from(items@, field@, 0) == Some(*e),
            None => item_from(items@, field@, 0) is None,
        },
{
    let mut i: usize = 0;
    while i < items.len()
        invariant
            i <= items.len(),
            item_from(items@, field@, i as int) == item_from(items@, field@, 0),
        decreases items.len() - i,
    {
        match table_key_name(&items[i]) {
            Some(name) => {
                if same_text(name, field) {
                    return Some(&items[i].value);
                }
            },
            None => {},
        }
        i += 1;
    }
    None
}

/// Finds a field in the `luau` table inside a literal config table.
fn field_from_config_table<'a>(items: &'a Vec<TableItem>, field: &str) -> (r: Option<&'a Expr>)
    ensures
        match r {
            Some(e) => luau_item(items@, field@) == Some(*e),
            None => luau_item(items@, field@) is None,
        },
{
    match table_field(items, "luau") {
        Some(Expr::Table(inner)) => table_field(inner, field),
        _ => None,
    }
}

/// Tests whether an expression names the first `n` parts of a path.
fn expr_path_matches(expr: &Expr, path: &Vec<String>, n: usize) -> (r: bool)
    requires
        n <= path.len(),
    ensures
        r == names_path(*expr, texts(path@).take(n as int)),
    decreases expr,
{
    let ghost part = texts(path@).take(n as int);
    if n == 0 {
        return false;
    }
    let last = path[n - 1].as_str();
    assert(part.last() == last@);
    assert(part.drop_last() =~= texts(path@).take(n - 1));
    match expr {
        Expr::Local(name) => n == 1 && same_text(name.as_str(), last),
        Expr::Global(name) => n == 1 && same_text(name.as_str(), last),
        Expr::IndexName { expr, index } => same_text(index.as_str(), last) && expr_path_matches(
            expr,
            path,
            n - 1,
        ),
        Expr::IndexExpr { expr, index } => match &**index {
            Expr::String(s) => same_text(s.as_str(), last) && expr_path_matches(expr, path, n - 1),
            _ => false,
        },
        Expr::Group(inner) => expr_path_matches(inner, path, n),
        _ => false,
    }
}

/// Finds what one assignment gives a path.
fn assigned_in<'a>(vars: &'a Vec<Expr>, values: &'a Vec<Expr>, path: &Vec<String>) -> (r: Option<
    &'a Expr,
>)
    ensures
        match r {
            Some(e) => assigned_from(vars@, values@, texts(path@), 0) == Some(*e),
            None => assigned_from(vars@, values@, texts(path@), 0) is None,
        },
{
    let n: usize = path.len();
    assert(texts(path@).take(n as int) =~= texts(path@));
    let mut i: usize = 0;
    while i < vars.len() && i < values.len()
        invariant
            i <= vars.len(),
            i <= values.len(),
            n == path.len(),
            texts(path@).take(n as int) == texts(path@),
            assigned_from(vars@, values@, texts(path@), i as int) == assigned_from(
                vars@,
                values@,
                texts(path@),
                0,
            ),
        decreases vars.len() - i,
    {
        if expr_path_matches(&vars[i], path, n) {
            return Some(&values[i]);
        }
        i += 1;
    }
    None
}

/// Finds the latest expression assigned to a path.
fn assigned_expr<'a>(body: &'a Vec<Stat>, path: &Vec<String>) -> (r: Option<&'a Expr>)
    ensures
        match r {
            Some(e) => assigned(body@, texts(path@), body@.len() as int) == Some(*e),
            None => assigned(body@, texts(path@), body@.len() as int) is None,
        },
{
    let mut n: usize = body.len();
    while n > 0
        invariant
            n <= body.len(),
            assigned(body@, texts(path@), n as int) == assigned(
                body@,
                texts(path@),
                body@.len() as int,
            ),
        decreases n,
    {
        match &body[n - 1] {
            Stat::Assign { vars, values } => match assigned_in(vars, values, path) {
                Some(e) => {
                    return Some(e);
                },
                None => {},
            },
            _ => {},
        }
        n -= 1;
    }
    None
}

/// Finds the table that one local statement gives a name.
fn bound_table<'a>(vars: &Vec<String>, values: &'a Vec<Expr>, name: &str) -> (r: Option<
    &'a Vec<TableItem>,
>)
    ensures
        match r {
            Some(v) => bound_from(texts(vars@), values@, name@, 0) == Some(v@),
            None => bound_from(texts(vars@), values@, name@, 0) is None,
        },
{
    let mut i: usize = 0;
    while i < vars.len() && i < values.len()
        invariant
            i <= vars.len(),
            i <= values.len(),
            bound_from(texts(vars@), values@, name@, i as int) == bound_from(
                texts(vars@),
                values@,
                name@,
                0,
            ),
        decreases vars.len() - i,
    {
        if same_text(vars[i].as_str(), name) {
            match &values[i] {
                Expr::Table(items) => {
                    return Some(items);
                },
                _ => {},
            }
        }
        i += 1;
    }
    None
}

/// Finds a local table initializer by binding name.
fn local_table_initializer<'a>(body: &'a Vec<Stat>, name: &str) -> (r: Option<&'a Vec<TableItem>>)
    ensures
        match r {
            Some(v) => initializer(body@, name@, 0) == Some(v@),
            None => initializer(body@, name@, 0) is None,
        },
{
    let mut i: usize = 0;
    while i < body.len()
        invariant
            i <= body.len(),
            initializer(body@, name@, i as int) == initializer(body@, name@, 0),
        decreases body.len() - i,
    {
        match &body[i] {
            Stat::Local { vars, values } => match bound_table(vars, values, name) {
                Some(v) => {
                    return Some(v);
                },
                None => {},
            },
            _ => {},
        }
        i += 1;
    }
    None
}

/// Finds a `luau` field assigned to the returned config local.
fn field_from_returned_local<'a>(body: &'a Vec<Stat>, local: &str, field: &str) -> (r: Option<
    &'a Expr,
>)
    ensures
        match r {
            Some(e) => local_field(body@, local@, field@) == Some(*e),
            None => local_field(body@, local@, field@) is None,
        },
{
    let mut path: Vec<String> = Vec::new();
    path.push(local.to_owned());
    path.push("luau".to_owned());
    assert(texts(path@) =~= seq![local@, "luau"@]);
    let table = assigned_expr(body, &path);
    path.push(field.to_owned());
    assert(texts(path@) =~= seq![local@, "luau"@, field@]);
    match assigned_expr(body, &path) {
        Some(e) => {
            return Some(e);
        },
        None => {},
    }
    match table {
        Some(Expr::Table(items)) => match table_field(items, field) {
            Some(e) => {
                return Some(e);
            },
            None => {},
        },
        _ => {},
    }
    match local_table_initializer(body, local) {
        Some(items) => field_from_config_table(items, field),
        None => None,
    }
}

/// Finds what a file returns first.
fn returned_expr<'a>(body: &'a Vec<Stat>) -> (r: Option<&'a Expr>)
    ensures
        match r {
            Some(e) => returned(body@, body@.len() as int) == Some(*e),
            None => returned(body@, body@.len() as int) is None,
        },
{
    let mut n: usize = body.len();
    while n > 0
        invariant
            n <= body.len(),
            returned(body@, n as int) == returned(body@, body@.len() as int),
        decreases n,
    {
        match &body[n - 1] {
            Stat::Return(list) => {
                if list.len() > 0 {
                    return Some(&list[0]);
                }
            },
            _ => {},
        }
        n -= 1;
    }
    None
}

/// Finds a field of the configuration that a file returns.
pub fn config_luau_field<'a>(body: &'a Vec<Stat>, field: &str) -> (r: Option<&'a Expr>)
    ensures
        match r {
            Some(e) => config_field(body@, field@) == Some(*e),
            None => config_field(body@, field@) is None,
        },
{
    match returned_expr(body) {
        Some(Expr::Table(items)) => field_from_config_table(items, field),
        Some(Expr::Local(name)) => field_from_returned_local(body, name.as_str(), field),
        _ => None,
    }
}

/// What the mode of a configuration sets.
pub open spec fn luau_mode(body: Seq<Stat>, path: Seq<char>) -> Result<
    Option<AnalysisMode>,
    ResolverFault,
> {
    match config_field(body, "languagemode"@) {
        None => Ok(None),
        Some(Expr::String(s)) => match mode_setting(s@, false, path) {
            Ok(mode) => Ok(Some(mode)),
            Err(e) => Err(e),
        },
        Some(_) => Err(field_fault(path, "languagemode"@, " must be a string"@)),
    }
}

/// What a field that must be a boolean sets.
pub open spec fn luau_bool(body: Seq<Stat>, field: Seq<char>, path: Seq<char>) -> Result<
    Option<bool>,
    ResolverFault,
> {
    match config_field(body, field) {
        None => Ok(None),
        Some(Expr::Bool(b)) => Ok(Some(b)),
        Some(_) => Err(field_fault(path, field, " must be a boolean"@)),
    }
}

/// The text of a string expression.
pub open spec fn expr_text(e: Expr) -> Option<Seq<char>> {
    match e {
        Expr::String(s) => Some(s@),
        _ => None,
    }
}

/// What a field that must be a list of strings sets.
pub open spec fn luau_strings(body: Seq<Stat>, field: Seq<char>, path: Seq<char>) -> Result<
    Option<Seq<Seq<char>>>,
    ResolverFault,
> {
    match config_field(body, field) {
        None => Ok(None),
        Some(Expr::Table(items)) => if forall|i: int|
            0 <= i < items@.len() ==> expr_text((#[trigger] items@[i]).value) is Some {
            Ok(Some(items@.map_values(|item: TableItem| expr_text(item.value)->0)))
        } else {
            Err(field_fault(path, field, " entries must be strings"@))
        },
        Some(_) => Err(field_fault(path, field, " must be an array of strings"@)),
    }
}

/// The aliases that the first `n` items set, or the first fault among them.
/// Items without a name are passed over.
pub open spec fn item_aliases(
    items: Seq<TableItem>,
    path: Seq<char>,
    refused: Seq<Seq<char>>,
    n: int,
) -> Result<Seq<AliasModel>, ResolverFault>
    decreases n,
{
    if n <= 0 {
        Ok(Seq::empty())
    } else {
        match (item_aliases(items, path, refused, n - 1), item_name(items[n - 1])) {
            (Err(e), _) => Err(e),
            (Ok(list), None) => Ok(list),
            (Ok(list), Some(name)) => match alias_setting(
                name,
                expr_text(items[n - 1].value),
                path,
                refused,
            ) {
                Err(e) => Err(e),
                Ok(alias) => Ok(list.push(alias)),
            },
        }
    }
}

/// The aliases of a configuration.
pub open spec fn luau_aliases(body: Seq<Stat>, path: Seq<char>, refused: Seq<Seq<char>>) -> Result<
    Seq<AliasModel>,
    ResolverFault,
> {
    match config_field(body, "aliases"@) {
        Some(Expr::Table(items)) => item_aliases(items@, path, refused, items@.len() as int),
        _ => Ok(Seq::empty()),
    }
}

/// The settings of a configuration. A fault of an earlier field comes before
/// one of a later field.
pub open spec fn luau_settings(
    body: Seq<Stat>,
    path: Seq<char>,
    refused: Seq<Seq<char>>,
) -> Result<SettingsModel, ResolverFault> {
    match luau_mode(body, path) {
        Err(e) => Err(e),
        Ok(mode) => match luau_bool(body, "linterrors"@, path) {
            Err(e) => Err(e),
            Ok(lint_errors) => match luau_bool(body, "typeerrors"@, path) {
                Err(e) => Err(e),
                Ok(type_errors) => match luau_strings(body, "globals"@, path) {
                    Err(e) => Err(e),
                    Ok(globals) => match luau_aliases(body, path, refused) {
                        Err(e) => Err(e),
                        Ok(aliases) => Ok(
                            SettingsModel { mode, lint_errors, type_errors, globals, aliases },
                        ),
                    },
                },
            },
        },
    }
}

/// Reads a field that must be a boolean.
fn bool_expr_value(body: &Vec<Stat>, field: &str, path: &str) -> (r: Result<
    Option<bool>,
    ResolverError,
>)
    ensures
        match r {
            Ok(b) => luau_bool(body@, field@, path@) == Ok::<_, ResolverFault>(b),
            Err(e) => luau_bool(body@, field@, path@) == Err::<Option<bool>, _>(e@),
        },
{
    match config_luau_field(body, field) {
        None => Ok(None),
        Some(Expr::Bool(b)) => Ok(Some(*b)),
        Some(_) => Err(field_error(path, field, " must be a boolean")),
    }
}

/// Reads a field that must be a list of strings.
fn string_array_expr_value(body: &Vec<Stat>, field: &str, path: &str) -> (r: Result<
    Option<Vec<String>>,
    ResolverError,
>)
    ensures
        match r {
            Ok(Some(v)) => luau_strings(body@, field@, path@) == Ok::<_, ResolverFault>(
                Some(texts(v@)),
            ),
            Ok(None) => luau_strings(body@, field@, path@) == Ok::<_, ResolverFault>(
                None::<Seq<Seq<char>>>,
            ),
            Err(e) => luau_strings(body@, field@, path@) == Err::<Option<Seq<Seq<char>>>, _>(e@),
        },
{
    let items = match config_luau_field(body, field) {
        None => {
            return Ok(None);
        },
        Some(Expr::Table(items)) => items,
        Some(_) => {
            return Err(field_error(path, field, " must be an array of strings"));
        },
    };
    let mut out: Vec<String> = Vec::new();
    let mut i: usize = 0;
    while i < items.len()
        invariant
            i <= items.len(),
            config_field(body@, field@) == Some(Expr::Table(*items)),
            out@.len() == i,
            forall|k: int|
                0 <= k < i ==> expr_text(items@[k].value) == Some((#[trigger] out@[k])@),
        decreases items.len() - i,
    {
        match &items[i].value {
            Expr::String(s) => {
                out.push(s.clone());
            },
            _ => {
                assert(expr_text(items@[i as int].value) is None);
                return Err(field_error(path, field, " entries must be strings"));
            },
        }
        i += 1;
    }
    assert forall|k: int| 0 <= k < items@.len() implies expr_text((#[trigger] items@[k]).value)
        is Some by {
        assert(expr_text(items@[k].value) == Some(out@[k]@));
    }
    assert(texts(out@) =~= items@.map_values(|item: TableItem| expr_text(item.value)->0));
    Ok(Some(out))
}

/// Reads the mode of a configuration.
fn mode_expr_value(body: &Vec<Stat>, path: &str) -> (r: Result<Option<AnalysisMode>, ResolverError>)
    ensures
        match r {
            Ok(m) => luau_mode(body@, path@) == Ok::<_, ResolverFault>(m),
            Err(e) => luau_mode(body@, path@) == Err::<Option<AnalysisMode>, _>(e@),
        },
{
    match config_luau_field(body, "languagemode") {
        None => Ok(None),
        Some(Expr::String(s)) => match parse_config_mode(s.as_str(), false, path) {
            Ok(mode) => Ok(Some(mode)),
            Err(e) => Err(e),
        },
        Some(_) => Err(field_error(path, "languagemode", " must be a string")),
    }
}

/// A fault among the first `n` items is the fault of all of them.
proof fn lemma_item_fault(
    items: Seq<TableItem>,
    path: Seq<char>,
    refused: Seq<Seq<char>>,
    n: int,
    all: int,
)
    requires
        n <= all,
        item_aliases(items, path, refused, n) is Err,
    ensures
        item_aliases(items, path, refused, all) == item_aliases(items, path, refused, n),
    decreases all,
{
    if n < all && all > 0 {
        lemma_item_fault(items, path, refused, n, all - 1);
    }
}

/// Reads the aliases of a configuration.
fn config_luau_aliases(body: &Vec<Stat>, path: &str, refused: &Vec<String>) -> (r: Result<
    Vec<Alias>,
    ResolverError,
>)
    ensures
        match r {
            Ok(v) => luau_aliases(body@, path@, texts(refused@)) == Ok::<_, ResolverFault>(
                alias_models(v@),
            ),
            Err(e) => luau_aliases(body@, path@, texts(refused@)) == Err::<Seq<AliasModel>, _>(e@),
        },
{
    let mut out: Vec<Alias> = Vec::new();
    assert(alias_models(out@) =~= Seq::empty());
    let items = match config_luau_field(body, "aliases") {
        Some(Expr::Table(items)) => items,
        _ => {
            return Ok(out);
        },
    };
    let ghost bad = texts(refused@);
    let mut i: usize = 0;
    while i < items.len()
        invariant
            i <= items.len(),
            bad == texts(refused@),
            config_field(body@, "aliases"@) == Some(Expr::Table(*items)),
            item_aliases(items@, path@, bad, i as int) == Ok::<_, ResolverFault>(
                alias_models(out@),
            ),
        decreases items.len() - i,
    {
        match table_key_name(&items[i]) {
            None => {},
            Some(name) => {
                let target = match &items[i].value {
                    Expr::String(s) => Some(s.as_str()),
                    _ => None,
                };
                match materialized_alias(name, target, path, refused) {
                    Ok(alias) => {
                        let ghost before = out@;
                        out.push(alias);
                        assert(alias_models(out@) =~= alias_models(before).push(alias@));
                    },
                    Err(e) => {
                        proof {
                            lemma_item_fault(items@, path@, bad, i + 1, items@.len() as int);
                        }
                        return Err(e);
                    },
                }
            },
        }
        i += 1;
    }
    Ok(out)
}

/// Reads the settings of a configuration. `refused` lists the names that are
/// no valid aliases.
pub fn apply_config_luau_fields(body: &Vec<Stat>, path: &str, refused: &Vec<String>) -> (r: Result<
    AnalysisSettings,
    ResolverError,
>)
    ensures
        match r {
            Ok(s) => luau_settings(body@, path@, texts(refused@)) == Ok::<_, ResolverFault>(s@),
            Err(e) => luau_settings(body@, path@, texts(refused@)) == Err::<SettingsModel, _>(e@),
        },
{
    let mode = match mode_expr_value(body, path) {
        Ok(mode) => mode,
        Err(e) => {
            return Err(e);
        },
    };
    let lint_errors = match bool_expr_value(body, "linterrors", path) {
        Ok(b) => b,
        Err(e) => {
            return Err(e);
        },
    };
    let type_errors = match bool_expr_value(body, "typeerrors", path) {
        Ok(b) => b,
        Err(e) => {
            return Err(e);
        },
    };
    let globals = match string_array_expr_value(body, "globals", path) {
        Ok(v) => v,
        Err(e) => {
            return Err(e);
        },
    };
    let aliases = match config_luau_aliases(body, path, refused) {
        Ok(v) => v,
        Err(e) => {
            return Err(e);
        },
    };
    Ok(AnalysisSettings { mode, lint_errors, type_errors, globals, aliases })
}

/// A syntax error of a configuration file, with its place counted from zero.
#[derive(Debug)]
pub struct ParseFault {
    pub message: String,
    pub line: u32,
    pub column: u32,
}

/// What parsing a configuration file gave: its first error, and the statements
/// of its root block.
#[derive(Debug)]
pub struct ParsedFile {
    pub fault: Option<ParseFault>,
    pub body: Option<Vec<Stat>>,
}

/// A syntax error in words; lines and columns are counted from one.
pub open spec fn parse_fault_text(fault: ParseFault) -> Seq<char> {
    fault.message@ + " (at line "@ + decimal(fault.line as nat + 1) + ", column "@ + decimal(
        fault.column as nat + 1,
    ) + ")"@
}

/// The settings of a parsed configuration file.
pub open spec fn parsed_settings(
    file: ParsedFile,
    path: Seq<char>,
    refused: Seq<Seq<char>>,
) -> Result<SettingsModel, ResolverFault> {
    match (file.fault, file.body) {
        (Some(fault), _) => Err(config_fault(path, parse_fault_text(fault))),
        (None, None) => Ok(no_settings()),
        (None, Some(body)) => luau_settings(body@, path, refused),
    }
}

/// Reads the settings of a parsed configuration file.
pub fn parse_config_luau(file: &ParsedFile, path: &str, refused: &Vec<String>) -> (r: Result<
    AnalysisSettings,
    ResolverError,
>)
    ensures
        match r {
            Ok(s) => parsed_settings(*file, path@, texts(refused@)) == Ok::<_, ResolverFault>(s@),
            Err(e) => parsed_settings(*file, path@, texts(refused@)) == Err::<SettingsModel, _>(e@),
        },
{
    match &file.fault {
        Some(fault) => {
            let line: u64 = fault.line as u64 + 1;
            let column: u64 = fault.column as u64 + 1;
            let detail = fault.message.clone().concat(" (at line ").concat(
                decimal_text(line).as_str(),
            ).concat(", column ").concat(decimal_text(column).as_str()).concat(")");
            return Err(config_parse_error(path, detail));
        },
        None => {},
    }
    match &file.body {
        Some(body) => apply_config_luau_fields(body, path, refused),
        None => Ok(AnalysisSettings::new()),
    }
}

/// An assignment to a field behind everything else of a file decides the field
/// of a returned local.
pub proof fn law_latest_assignment_wins(
    body: Seq<Stat>,
    stat: Stat,
    local: Seq<char>,
    field: Seq<char>,
    value: Expr,
)
    requires
        assigned_by(stat, seq![local, "luau"@, field]) == Some(value),
    ensures
        local_field(body.push(stat), local, field) == Some(value),
{
    let all = body.push(stat);
    assert(all[all.len() - 1] == stat);
}

/// Whether a table item is named by a string.
pub open spec fn is_named(item: TableItem) -> bool {
    item.key matches Some(Expr::String(_))
}

/// The alias that a named item with a string value writes.
pub open spec fn written_alias(item: TableItem, path: Seq<char>) -> AliasModel {
    AliasModel {
        name: item.key->0->String_0@,
        target: item.value->String_0@,
        origin: path,
    }
}

proof fn lemma_item_aliases(
    items: Seq<TableItem>,
    path: Seq<char>,
    refused: Seq<Seq<char>>,
    n: int,
)
    requires
        0 <= n <= items.len(),
    ensures
        item_aliases(items, path, refused, n) is Ok <==> forall|i: int|
            0 <= i < n && is_named(#[trigger] items[i]) ==> items[i].value is String
                && !refused.contains(items[i].key->0->String_0@),
        item_aliases(items, path, refused, n) matches Ok(list) ==> list == items.take(n).filter(
            |item: TableItem| is_named(item),
        ).map_values(|item: TableItem| written_alias(item, path)),
    decreases n,
{
    let pred = |item: TableItem| is_named(item);
    let write = |item: TableItem| written_alias(item, path);
    reveal(Seq::filter);
    if n == 0 {
        assert(items.take(0) =~= Seq::empty());
        assert(items.take(0).filter(pred).map_values(write) =~= Seq::empty());
    } else {
        lemma_item_aliases(items, path, refused, n - 1);
        let item = items[n - 1];
        assert(items.take(n).drop_last() =~= items.take(n - 1));
        assert(items.take(n).last() == item);
        let before = items.take(n - 1).filter(pred);
        assert(is_named(item) <==> item_name(item) is Some);
        if is_named(item) {
            assert(items.take(n).filter(pred) == before.push(item));
            assert(before.push(item).map_values(write) =~= before.map_values(write).push(
                written_alias(item, path),
            ));
        }
        assert(item_aliases(items, path, refused, n) is Ok <==> item_aliases(
            items,
            path,
            refused,
            n - 1,
        ) is Ok && (is_named(item) ==> item.value is String && !refused.contains(
            item.key->0->String_0@,
        )));
    }
}

/// A table of aliases sets one alias for each item that has a name, in their
/// order, with the name and the string that are written there. It is refused
/// only for an item whose value is no string or whose name is refused.
pub proof fn law_named_items_are_aliases(
    body: Seq<Stat>,
    items: Seq<TableItem>,
    path: Seq<char>,
    refused: Seq<Seq<char>>,
)
    requires
        config_field(body, "aliases"@) matches Some(Expr::Table(v)) && v@ == items,
    ensures
        luau_aliases(body, path, refused) is Ok <==> forall|i: int|
            0 <= i < items.len() && is_named(#[trigger] items[i]) ==> items[i].value is String
                && !refused.contains(items[i].key->0->String_0@),
        luau_aliases(body, path, refused) matches Ok(list) ==> list == items.filter(
            |item: TableItem| is_named(item),
        ).map_values(|item: TableItem| written_alias(item, path)),
        luau_aliases(body, path, refused) matches Ok(list) ==> list.len() == items.filter(
            |item: TableItem| is_named(item),
        ).len(),
        luau_settings(body, path, refused) matches Ok(s) ==> luau_aliases(body, path, refused)
            == Ok::<_, ResolverFault>(s.aliases),
{
    lemma_item_aliases(items, path, refused, items.len() as int);
    assert(items.take(items.len() as int) =~= items);
}

/// The settings of a file hold the alias that any one named item of its table
/// of aliases writes. Returns its place.
pub proof fn law_each_alias_is_set(
    body: Seq<Stat>,
    items: Seq<TableItem>,
    path: Seq<char>,
    refused: Seq<Seq<char>>,
    i: int,
    name: String,
    target: String,
) -> (at: int)
    requires
        config_field(body, "aliases"@) matches Some(Expr::Table(v)) && v@ == items,
        0 <= i < items.len(),
        items[i].key == Some(Expr::String(name)),
        items[i].value == Expr::String(target),
    ensures
        luau_settings(body, path, refused) matches Ok(s) ==> 0 <= at < s.aliases.len()
            && s.aliases[at].name == name@ && s.aliases[at].target == target@
            && s.aliases[at].origin == path,
{
    law_named_items_are_aliases(body, items, path, refused);
    let pred = |item: TableItem| is_named(item);
    let kept = items.filter(pred);
    items.lemma_filter_contains(pred, i);
    let at = choose|k: int| 0 <= k < kept.len() && kept[k] == items[i];
    assert(kept[at] == items[i]);
    at
}

/// When every item of a table of aliases is named, item number `i` is alias
/// number `i`, and there are as many aliases as items.
pub proof fn law_aliases_keep_their_order(
    body: Seq<Stat>,
    items: Seq<TableItem>,
    path: Seq<char>,
    refused: Seq<Seq<char>>,
)
    requires
        config_field(body, "aliases"@) matches Some(Expr::Table(v)) && v@ == items,
        forall|i: int| 0 <= i < items.len() ==> is_named(#[trigger] items[i]),
        forall|i: int| 0 <= i < items.len() ==> (#[trigger] items[i]).value is String,
        forall|i: int|
            0 <= i < items.len() ==> !refused.contains(
                (#[trigger] items[i]).key->0->String_0@,
            ),
    ensures
        luau_aliases(body, path, refused) matches Ok(list) && list.len() == items.len() && forall|
            i: int,
        |
            0 <= i < items.len() ==> (#[trigger] list[i]).name == items[i].key->0->String_0@
                && list[i].target == items[i].value->String_0@ && list[i].origin == path,
{
    law_named_items_are_aliases(body, items, path, refused);
    lemma_all_named(items, items.len() as int);
    assert(items.take(items.len() as int) =~= items);
}

proof fn lemma_all_named(items: Seq<TableItem>, n: int)
    requires
        0 <= n <= items.len(),
        forall|i: int| 0 <= i < items.len() ==> is_named(#[trigger] items[i]),
    ensures
        items.take(n).filter(|item: TableItem| is_named(item)) == items.take(n),
    decreases n,
{
    reveal(Seq::filter);
    if n > 0 {
        lemma_all_named(items, n - 1);
        assert(items.take(n).drop_last() =~= items.take(n - 1));
        assert(items.take(n - 1).push(items[n - 1]) =~= items.take(n));
    }
}

/// Each setting comes from its own field: a mode is the one that is named, a
/// switch is the boolean that is written, the globals are the strings of their
/// list in their order, and what is not written is not set.
pub proof fn law_settings_come_from_their_fields(
    body: Seq<Stat>,
    path: Seq<char>,
    refused: Seq<Seq<char>>,
    s: SettingsModel,
)
    requires
        luau_settings(body, path, refused) == Ok::<_, ResolverFault>(s),
    ensures
        match config_field(body, "languagemode"@) {
            None => s.mode is None,
            Some(e) => e matches Expr::String(m) && match s.mode {
                Some(AnalysisMode::Strict) => m@ == "strict"@,
                Some(AnalysisMode::Nonstrict) => m@ == "nonstrict"@,
                Some(AnalysisMode::NoCheck) => m@ == "nocheck"@,
                None => false,
            },
        },
        match config_field(body, "linterrors"@) {
            None => s.lint_errors is None,
            Some(e) => e matches Expr::Bool(b) && s.lint_errors == Some(b),
        },
        match config_field(body, "typeerrors"@) {
            None => s.type_errors is None,
            Some(e) => e matches Expr::Bool(b) && s.type_errors == Some(b),
        },
        match config_field(body, "globals"@) {
            None => s.globals is None,
            Some(e) => e matches Expr::Table(items) && s.globals matches Some(list) && list.len()
                == items@.len() && forall|i: int|
                0 <= i < list.len() ==> (items@[i].value matches Expr::String(g) && #[trigger] list[i]
                    == g@),
        },
        match config_field(body, "aliases"@) {
            Some(Expr::Table(_)) => true,
            _ => s.aliases.len() == 0,
        },
{
    if let Some(Expr::Table(items)) = config_field(body, "globals"@) {
        let list = s.globals->0;
        assert forall|i: int| 0 <= i < list.len() implies (items@[i].value matches Expr::String(g)
            && #[trigger] list[i] == g@) by {
            assert(expr_text(items@[i].value) is Some);
        }
    }
}

/// The configuration that a file returns as a table is the one in its `luau`
/// item: a field is the first item of its name there.
pub proof fn law_returned_table_is_read(
    body: Seq<Stat>,
    list: Vec<Expr>,
    items: Vec<TableItem>,
    inner: Vec<TableItem>,
    k: int,
    l: int,
    field: Seq<char>,
)
    requires
        body.len() > 0,
        body.last() == Stat::Return(list),
        list@.len() > 0,
        list@[0] == Expr::Table(items),
        0 <= k < items@.len(),
        items@[k].key matches Some(Expr::String(name)) && name@ == "luau"@,
        items@[k].value == Expr::Table(inner),
        forall|j: int| 0 <= j < k ==> item_name(#[trigger] items@[j]) != Some("luau"@),
        0 <= l < inner@.len(),
        inner@[l].key matches Some(Expr::String(name)) && name@ == field,
        forall|j: int| 0 <= j < l ==> item_name(#[trigger] inner@[j]) != Some(field),
    ensures
        config_field(body, field) == Some(inner@[l].value),
{
    lemma_first_item(items@, "luau"@, 0, k);
    lemma_first_item(inner@, field, 0, l);
}

proof fn lemma_first_item(items: Seq<TableItem>, field: Seq<char>, i: int, k: int)
    requires
        0 <= i <= k < items.len(),
        item_name(items[k]) == Some(field),
        forall|j: int| i <= j < k ==> item_name(#[trigger] items[j]) != Some(field),
    ensures
        item_from(items, field, i) == Some(items[k].value),
    decreases k - i,
{
    if i < k {
        lemma_first_item(items, field, i + 1, k);
    }
}

/// How expressions name paths: a variable names itself, a field behind an
/// expression goes on with the path of the expression, written with a dot or
/// as a string in brackets, and a group names what it holds.
pub proof fn law_indexing_names_fields(
    expr: Box<Expr>,
    path: Seq<Seq<char>>,
    name: String,
    key: Box<Expr>,
)
    ensures
        names_path(Expr::Local(name), seq![name@]),
        names_path(Expr::Global(name), seq![name@]),
        path.len() > 0 ==> (names_path(
            (Expr::IndexName { expr, index: name }),
            path.push(name@),
        ) <==> names_path(*expr, path)),
        path.len() > 0 && *key == Expr::String(name) ==> (names_path(
            (Expr::IndexExpr { expr, index: key }),
            path.push(name@),
        ) <==> names_path(*expr, path)),
        path.len() > 0 ==> (names_path(Expr::Group(expr), path) <==> names_path(*expr, path)),
{
    assert(path.push(name@).drop_last() =~= path);
    assert(path.push(name@).last() == name@);
    reveal_with_fuel(names_path, 2);
}

proof fn lemma_unassigned(body: Seq<Stat>, path: Seq<Seq<char>>, n: int)
    requires
        0 <= n <= body.len(),
        forall|j: int| 0 <= j < n ==> assigned_by(#[trigger] body[j], path) is None,
    ensures
        assigned(body, path, n) is None,
    decreases n,
{
    if n > 0 {
        lemma_unassigned(body, path, n - 1);
    }
}

proof fn lemma_first_binding(body: Seq<Stat>, name: Seq<char>, i: int, k: int)
    requires
        0 <= i <= k < body.len(),
        bound_by(body[k], name) is Some,
        forall|j: int| i <= j < k ==> bound_by(#[trigger] body[j], name) is None,
    ensures
        initializer(body, name, i) == bound_by(body[k], name),
    decreases k - i,
{
    if i < k {
        lemma_first_binding(body, name, i + 1, k);
    }
}

/// The configuration of a file that returns a local is the table that the
/// local starts with, where nothing is assigned to it: a field is the first
/// item of its name in the `luau` item of that table.
pub proof fn law_returned_local_is_read(
    body: Seq<Stat>,
    list: Vec<Expr>,
    name: String,
    k: int,
    vars: Vec<String>,
    values: Vec<Expr>,
    items: Vec<TableItem>,
    field: Seq<char>,
)
    requires
        body.len() > 0,
        body.last() == Stat::Return(list),
        list@.len() > 0,
        list@[0] == Expr::Local(name),
        0 <= k < body.len(),
        body[k] == (Stat::Local { vars, values }),
        vars@.len() > 0,
        values@.len() > 0,
        vars@[0]@ == name@,
        values@[0] == Expr::Table(items),
        forall|j: int| 0 <= j < k ==> bound_by(#[trigger] body[j], name@) is None,
        forall|j: int|
            0 <= j < body.len() ==> assigned_by(
                #[trigger] body[j],
                seq![name@, "luau"@, field],
            ) is None,
        forall|j: int|
            0 <= j < body.len() ==> assigned_by(#[trigger] body[j], seq![name@, "luau"@]) is None,
    ensures
        config_field(body, field) == luau_item(items@, field),
{
    let n = body.len() as int;
    lemma_unassigned(body, seq![name@, "luau"@, field], n);
    lemma_unassigned(body, seq![name@, "luau"@], n);
    assert(texts(vars@)[0] == name@);
    lemma_first_binding(body, name@, 0, k);
}

} // verus!
