//! Declaration schemas read from the syntax tree of a source.
//!
//! The tree comes as JSON from the Luau parser; this module maps its shape to
//! a [`ModuleSchema`] and keeps slices, spans and doc comments of the text.
use super::docs::{
    description_of, docs_before_span, docs_of, span_text, top_module_description, SourceMap,
};
use super::{
    bare_schema, callable_models, AliasModel, AnalysisError, AnalysisFault, ArgumentModel,
    ArgumentSchema, CallableModel, CallableSchema, ClassModel, ClassSchema, FieldModel, FieldSchema,
    ModuleRoot, ModuleSchema, NamespaceModel, NamespaceSchema, RootModel, SchemaModel,
    TypeAliasSchema, TypeModel, TypeSlice,
};
use crate::json::{
    items_of, member, member_from, member_text, models, parse_json, parsed, Json, JsonModel,
};
use crate::resolver::SourceSpan;
use crate::sorted::{
    holds, lemma_mapped, lemma_put, lemma_put_all, lookup, mapped, ordered, put, SortedMap,
};
use crate::text::{
    chars_of, decimal, ends, find, find_text, has_prefix, has_suffix, law_decimal_reads_back,
    law_find_is_first, parse_unsigned, same_text, starts, string_of, texts, trim, trim_start, trimmed, trimmed_start, unsigned_of,
};
use vstd::prelude::*;
use vstd::slice::slice_subrange;
use vstd::string::*;

verus! {

/// A schema error with the given message.
fn module_schema_error(message: String) -> (r: AnalysisError)
    ensures
        r@ == AnalysisFault::ModuleSchema(message@),
{
    AnalysisError::ModuleSchema(message)
}

/// A schema error with a quoted name between two texts.
fn quoted_error(before: &str, name: &str, after: &str) -> (r: AnalysisError)
    ensures
        r@ == AnalysisFault::ModuleSchema(before@ + name@ + after@),
{
    module_schema_error(before.to_owned().concat(name).concat(after))
}

/// The kind of a syntax node.
pub open spec fn node_type(j: JsonModel) -> Option<Seq<char>> {
    member_text(j, "type"@)
}

/// Whether a node is of the given kind.
pub open spec fn is_node(j: JsonModel, kind: Seq<char>) -> bool {
    node_type(j) == Some(kind)
}

/// A field of a node, or the message that it is missing.
pub open spec fn need(j: JsonModel, key: Seq<char>) -> Result<JsonModel, Seq<char>> {
    match member(j, key) {
        Some(v) => Ok(v),
        None => Err("Luau AST node is missing field `"@ + key + "`"@),
    }
}

/// A string field of a node, or the message that it is missing.
pub open spec fn need_text(j: JsonModel, key: Seq<char>) -> Result<Seq<char>, Seq<char>> {
    match member_text(j, key) {
        Some(v) => Ok(v),
        None => Err("Luau AST node is missing string field `"@ + key + "`"@),
    }
}

/// An array field of a node, or a message: `what` where it is no array.
pub open spec fn need_items(j: JsonModel, key: Seq<char>, what: Seq<char>) -> Result<
    Seq<JsonModel>,
    Seq<char>,
> {
    match need(j, key) {
        Err(e) => Err(e),
        Ok(v) => match items_of(v) {
            Some(items) => Ok(items),
            None => Err(what),
        },
    }
}

/// The declared type of a global declaration.
pub open spec fn global_type(j: JsonModel) -> Option<JsonModel> {
    match member(j, "type"@) {
        Some(ty) => if ty is Object && member(j, "nameLocation"@) is Some {
            Some(ty)
        } else {
            None
        },
        None => None,
    }
}

/// Whether a member is the boolean `true`.
pub open spec fn flag(j: JsonModel, key: Seq<char>) -> bool {
    member(j, key) == Some(JsonModel::Bool(true))
}

/// Line and column written as `line,column`.
pub open spec fn position_of(s: Seq<char>) -> Result<(u32, u32), Seq<char>> {
    let comma = find(s, ","@);
    if comma < 0 {
        Err("invalid Luau AST position `"@ + s + "`"@)
    } else {
        let line = s.take(comma);
        let column = s.skip(comma + 1);
        match unsigned_of(line, u32::MAX as int) {
            None => Err("invalid Luau AST line `"@ + line + "`"@),
            Some(l) => match unsigned_of(column, u32::MAX as int) {
                None => Err("invalid Luau AST column `"@ + column + "`"@),
                Some(c) => Ok((l as u32, c as u32)),
            },
        }
    }
}

/// A span written as `line,column - line,column`.
pub open spec fn location_of(s: Seq<char>) -> Result<SourceSpan, Seq<char>> {
    let dash = find(s, " - "@);
    if dash < 0 {
        Err("invalid Luau AST location `"@ + s + "`"@)
    } else {
        match position_of(s.take(dash)) {
            Err(e) => Err(e),
            Ok(begin) => match position_of(s.skip(dash + 3)) {
                Err(e) => Err(e),
                Ok(end) => Ok(
                    SourceSpan {
                        line: begin.0,
                        column: begin.1,
                        end_line: end.0,
                        end_column: end.1,
                    },
                ),
            },
        }
    }
}

/// The span of a node, where it has a readable one.
pub open spec fn span_of(j: JsonModel) -> Option<SourceSpan> {
    match need_text(j, "location"@) {
        Err(_) => None,
        Ok(s) => match location_of(s) {
            Ok(span) => Some(span),
            Err(_) => None,
        },
    }
}

/// The text of a span; empty where the span or its text is missing.
pub open spec fn slice_text(source: Seq<char>, span: Option<SourceSpan>) -> Seq<char> {
    match span {
        Some(s) => match span_text(source, s) {
            Some(t) => t,
            None => Seq::empty(),
        },
        None => Seq::empty(),
    }
}

/// A span that starts with one and ends with another.
pub open spec fn merged(start: SourceSpan, end: SourceSpan) -> SourceSpan {
    SourceSpan {
        line: start.line,
        column: start.column,
        end_line: end.end_line,
        end_column: end.end_column,
    }
}

/// Reads the kind of a node.
fn is_kind(node: &Json, kind: &str) -> (r: bool)
    ensures
        r == is_node(node@, kind@),
{
    match node.get_str("type") {
        Some(t) => same_text(t, kind),
        None => false,
    }
}

/// Reads a field of a node.
fn field<'a>(node: &'a Json, key: &str) -> (r: Result<&'a Json, AnalysisError>)
    ensures
        match r {
            Ok(v) => need(node@, key@) == Ok::<JsonModel, Seq<char>>(v@),
            Err(e) => e@ is ModuleSchema && need(node@, key@) == Err::<JsonModel, Seq<char>>(
                e@->ModuleSchema_0,
            ),
        },
{
    match node.get(key) {
        Some(v) => Ok(v),
        None => Err(quoted_error("Luau AST node is missing field `", key, "`")),
    }
}

/// Reads a string field of a node.
fn str_field<'a>(node: &'a Json, key: &str) -> (r: Result<&'a str, AnalysisError>)
    ensures
        match r {
            Ok(v) => need_text(node@, key@) == Ok::<Seq<char>, Seq<char>>(v@),
            Err(e) => e@ is ModuleSchema && need_text(node@, key@) == Err::<Seq<char>, Seq<char>>(
                e@->ModuleSchema_0,
            ),
        },
{
    match node.get_str(key) {
        Some(v) => Ok(v),
        None => Err(quoted_error("Luau AST node is missing string field `", key, "`")),
    }
}

/// Reads an array field of a node.
fn items_field<'a>(node: &'a Json, key: &str, what: &str) -> (r: Result<
    &'a Vec<Json>,
    AnalysisError,
>)
    ensures
        match r {
            Ok(v) => need_items(node@, key@, what@) == Ok::<Seq<JsonModel>, Seq<char>>(models(v@)),
            Err(e) => e@ is ModuleSchema && need_items(node@, key@, what@) == Err::<
                Seq<JsonModel>,
                Seq<char>,
            >(e@->ModuleSchema_0),
        },
{
    match field(node, key) {
        Err(e) => Err(e),
        Ok(v) => match v.as_array() {
            Some(items) => Ok(items),
            None => Err(module_schema_error(what.to_owned())),
        },
    }
}

/// Reads the declared type of a global declaration.
fn declare_global_type<'a>(node: &'a Json) -> (r: Option<&'a Json>)
    ensures
        match r {
            Some(ty) => global_type(node@) == Some(ty@),
            None => global_type(node@) is None,
        },
{
    match node.get("type") {
        Some(ty) => {
            if ty.as_object().is_some() && node.get("nameLocation").is_some() {
                Some(ty)
            } else {
                None
            }
        },
        None => None,
    }
}

/// Reads a flag of a node; a missing flag is off.
fn bool_field(node: &Json, key: &str) -> (r: bool)
    ensures
        r == flag(node@, key@),
{
    match node.get(key) {
        Some(Json::Bool(b)) => *b,
        _ => false,
    }
}

/// Reads a `line,column` pair.
fn parse_position(position: &[char]) -> (r: Result<(u32, u32), AnalysisError>)
    ensures
        match r {
            Ok(p) => position_of(position@) == Ok::<(u32, u32), Seq<char>>(p),
            Err(e) => e@ is ModuleSchema && position_of(position@) == Err::<(u32, u32), Seq<char>>(
                e@->ModuleSchema_0,
            ),
        },
{
    proof {
        reveal_strlit(",");
    }
    match find_text(position, ",") {
        None => Err(
            quoted_error("invalid Luau AST position `", string_of(position).as_str(), "`"),
        ),
        Some(comma) => {
            let total: usize = position.len();
            let line = slice_subrange(position, 0, comma);
            let column = slice_subrange(position, comma + 1, total);
            assert(line@ =~= position@.take(comma as int));
            assert(column@ =~= position@.skip(comma + 1));
            match parse_unsigned(line, 0xffff_ffff) {
                None => Err(
                    quoted_error("invalid Luau AST line `", string_of(line).as_str(), "`"),
                ),
                Some(l) => match parse_unsigned(column, 0xffff_ffff) {
                    None => Err(
                        quoted_error("invalid Luau AST column `", string_of(column).as_str(), "`"),
                    ),
                    Some(c) => Ok((l as u32, c as u32)),
                },
            }
        },
    }
}

/// Reads a span.
pub fn parse_location(location: &str) -> (r: Result<SourceSpan, AnalysisError>)
    ensures
        match r {
            Ok(s) => location_of(location@) == Ok::<SourceSpan, Seq<char>>(s),
            Err(e) => e@ is ModuleSchema && location_of(location@) == Err::<SourceSpan, Seq<char>>(
                e@->ModuleSchema_0,
            ),
        },
{
    proof {
        reveal_strlit(" - ");
    }
    let chars: Vec<char> = chars_of(location);
    match find_text(chars.as_slice(), " - ") {
        None => Err(quoted_error("invalid Luau AST location `", location, "`")),
        Some(dash) => {
            let total: usize = chars.len();
            let begin = slice_subrange(chars.as_slice(), 0, dash);
            let end = slice_subrange(chars.as_slice(), dash + 3, total);
            assert(begin@ =~= location@.take(dash as int));
            assert(end@ =~= location@.skip(dash + 3));
            match parse_position(begin) {
                Err(e) => Err(e),
                Ok((line, column)) => match parse_position(end) {
                    Err(e) => Err(e),
                    Ok((end_line, end_column)) => Ok(
                        SourceSpan { line, column, end_line, end_column },
                    ),
                },
            }
        },
    }
}

/// Reads the span of a node.
fn location_field(node: &Json) -> (r: Option<SourceSpan>)
    ensures
        r == span_of(node@),
{
    match str_field(node, "location") {
        Err(_) => None,
        Ok(s) => match parse_location(s) {
            Ok(span) => Some(span),
            Err(_) => None,
        },
    }
}

/// Merges two spans.
fn merge_span(start: &SourceSpan, end: &SourceSpan) -> (r: SourceSpan)
    ensures
        r == merged(*start, *end),
{
    SourceSpan {
        line: start.line,
        column: start.column,
        end_line: end.end_line,
        end_column: end.end_column,
    }
}

/// Cuts the text of a span out of the source.
fn span_chars(source: &str, source_map: &SourceMap, span: Option<SourceSpan>) -> (r: Vec<char>)
    requires
        source_map.maps(source@),
    ensures
        r@ == slice_text(source@, span),
{
    match span {
        Some(s) => match source_map.slice(source, &s) {
            Some(t) => chars_of(t),
            None => Vec::new(),
        },
        None => Vec::new(),
    }
}

/// The type expression of a node: its trimmed text, `()` for an empty
/// explicit pack, and its span.
pub open spec fn type_of(j: JsonModel, source: Seq<char>) -> Result<TypeModel, Seq<char>> {
    let span = span_of(j);
    let text = trim(slice_text(source, span));
    if text.len() == 0 && is_node(j, "AstTypePackExplicit"@) {
        match need(j, "typeList"@) {
            Err(e) => Err(e),
            Ok(list) => match need(list, "types"@) {
                Err(e) => Err(e),
                Ok(types) => Ok(
                    TypeModel {
                        source: if items_of(types) matches Some(items) && items.len() == 0 {
                            "()"@
                        } else {
                            text
                        },
                        span,
                    },
                ),
            },
        }
    } else {
        Ok(TypeModel { source: text, span })
    }
}

/// Reads the type expression of a node.
fn type_slice(node: &Json, source: &str, source_map: &SourceMap) -> (r: Result<
    TypeSlice,
    AnalysisError,
>)
    requires
        source_map.maps(source@),
    ensures
        match r {
            Ok(t) => type_of(node@, source@) == Ok::<TypeModel, Seq<char>>(t@),
            Err(e) => e@ is ModuleSchema && type_of(node@, source@) == Err::<TypeModel, Seq<char>>(
                e@->ModuleSchema_0,
            ),
        },
{
    let span = location_field(node);
    let chars: Vec<char> = span_chars(source, source_map, span);
    let text = trimmed(chars.as_slice());
    if text.len() == 0 && is_kind(node, "AstTypePackExplicit") {
        let list = match field(node, "typeList") {
            Ok(list) => list,
            Err(e) => {
                return Err(e);
            },
        };
        let types = match field(list, "types") {
            Ok(types) => types,
            Err(e) => {
                return Err(e);
            },
        };
        if let Some(items) = types.as_array() {
            if items.len() == 0 {
                return Ok(TypeSlice { source: "()".to_owned(), span });
            }
        }
    }
    Ok(TypeSlice { source: string_of(text), span })
}

/// Where a callable stands: in a module table or in a class.
#[derive(Clone, Copy, PartialEq, Eq, Structural)]
pub enum NamespaceContext {
    Module,
    Class,
}

/// Name of the `i`-th argument: `Err` where it has none, `Ok(None)` for the
/// receiver of a method, which is no argument.
pub open spec fn argument_name(
    names: Seq<JsonModel>,
    i: int,
    context: NamespaceContext,
) -> Result<Option<Seq<char>>, Seq<char>> {
    let receiver = context == NamespaceContext::Class && i == 0;
    let unnamed = i >= names.len() || names[i] is Null;
    if receiver && unnamed {
        Ok(None)
    } else if unnamed {
        Err("callable arguments must be named"@)
    } else {
        match member_text(names[i], "name"@) {
            None => Err("callable arguments must be named"@),
            Some(name) => if receiver && name == "self"@ {
                Ok(None)
            } else {
                Ok(Some(name))
            },
        }
    }
}

/// The arguments among the first `n` types of a callable.
pub open spec fn arguments_of(
    types: Seq<JsonModel>,
    names: Seq<JsonModel>,
    n: int,
    source: Seq<char>,
    context: NamespaceContext,
) -> Result<Seq<ArgumentModel>, Seq<char>>
    decreases n,
{
    if n <= 0 {
        Ok(Seq::empty())
    } else {
        let i = n - 1;
        match arguments_of(types, names, i, source, context) {
            Err(e) => Err(e),
            Ok(before) => match argument_name(names, i, context) {
                Err(e) => Err(e),
                Ok(None) => Ok(before),
                Ok(Some(name)) => match type_of(types[i], source) {
                    Err(e) => Err(e),
                    Ok(ty) => Ok(
                        before.push(
                            ArgumentModel {
                                name,
                                ty,
                                optional: ends(name, "?"@) || ends(ty.source, "?"@),
                                span: match (span_of(names[i]), ty.span) {
                                    (Some(a), Some(b)) => Some(merged(a, b)),
                                    _ => ty.span,
                                },
                            },
                        ),
                    ),
                },
            },
        }
    }
}

/// A callable type: its arguments and its return type.
pub open spec fn callable_of(
    j: JsonModel,
    source: Seq<char>,
    context: NamespaceContext,
) -> Result<CallableModel, Seq<char>> {
    match need(j, "argTypes"@) {
        Err(e) => Err(e),
        Ok(pack) => match need_items(
            pack,
            "types"@,
            "callable argTypes.types must be an array"@,
        ) {
            Err(e) => Err(e),
            Ok(types) => match need_items(j, "argNames"@, "callable argNames must be an array"@) {
                Err(e) => Err(e),
                Ok(names) => match arguments_of(
                    types,
                    names,
                    types.len() as int,
                    source,
                    context,
                ) {
                    Err(e) => Err(e),
                    Ok(args) => match need(j, "returnTypes"@) {
                        Err(e) => Err(e),
                        Ok(result) => match type_of(result, source) {
                            Err(e) => Err(e),
                            Ok(ty) => Ok(
                                CallableModel {
                                    args,
                                    returns: ty,
                                    method: context == NamespaceContext::Class,
                                    span: None,
                                    docs: None,
                                },
                            ),
                        },
                    },
                },
            },
        },
    }
}

/// A failed prefix of the arguments fails the whole list in the same way.
proof fn lemma_arguments_fail(
    types: Seq<JsonModel>,
    names: Seq<JsonModel>,
    i: int,
    n: int,
    source: Seq<char>,
    context: NamespaceContext,
)
    requires
        0 <= i <= n,
        arguments_of(types, names, i, source, context) is Err,
    ensures
        arguments_of(types, names, n, source, context) == arguments_of(
            types,
            names,
            i,
            source,
            context,
        ),
    decreases n - i,
{
    if i < n {
        lemma_arguments_fail(types, names, i, n - 1, source, context);
    }
}

/// Reads the name of an argument.
fn parse_argument_name<'a>(names: &'a Vec<Json>, i: usize, context: NamespaceContext) -> (r: Result<
    Option<&'a str>,
    AnalysisError,
>)
    ensures
        match r {
            Ok(Some(name)) => argument_name(models(names@), i as int, context) == Ok::<
                Option<Seq<char>>,
                Seq<char>,
            >(Some(name@)) && i < names@.len(),
            Ok(None) => argument_name(models(names@), i as int, context) == Ok::<
                Option<Seq<char>>,
                Seq<char>,
            >(None),
            Err(e) => e@ is ModuleSchema && argument_name(models(names@), i as int, context)
                == Err::<Option<Seq<char>>, Seq<char>>(e@->ModuleSchema_0),
        },
{
    let receiver = context == NamespaceContext::Class && i == 0;
    if i >= names.len() || names[i].is_null() {
        if receiver {
            return Ok(None);
        }
        return Err(module_schema_error("callable arguments must be named".to_owned()));
    }
    match names[i].get_str("name") {
        None => Err(module_schema_error("callable arguments must be named".to_owned())),
        Some(name) => {
            if receiver && same_text(name, "self") {
                Ok(None)
            } else {
                Ok(Some(name))
            }
        },
    }
}

/// Tests whether a string ends with `?`.
fn ends_optional(s: &str) -> (r: bool)
    ensures
        r == ends(s@, "?"@),
{
    let chars: Vec<char> = chars_of(s);
    has_suffix(chars.as_slice(), "?")
}

/// Reads a callable type.
fn parse_callable(
    node: &Json,
    source: &str,
    source_map: &SourceMap,
    context: NamespaceContext,
) -> (r: Result<CallableSchema, AnalysisError>)
    requires
        source_map.maps(source@),
    ensures
        match r {
            Ok(c) => callable_of(node@, source@, context) == Ok::<CallableModel, Seq<char>>(c@),
            Err(e) => e@ is ModuleSchema && callable_of(node@, source@, context) == Err::<
                CallableModel,
                Seq<char>,
            >(e@->ModuleSchema_0),
        },
{
    let pack = match field(node, "argTypes") {
        Ok(pack) => pack,
        Err(e) => {
            return Err(e);
        },
    };
    let arg_types = match items_field(pack, "types", "callable argTypes.types must be an array") {
        Ok(items) => items,
        Err(e) => {
            return Err(e);
        },
    };
    let arg_names = match items_field(node, "argNames", "callable argNames must be an array") {
        Ok(items) => items,
        Err(e) => {
            return Err(e);
        },
    };
    let ghost types = models(arg_types@);
    let ghost names = models(arg_names@);
    let ghost total = types.len() as int;
    let ghost goal = callable_of(node@, source@, context);
    let mut args: Vec<ArgumentSchema> = Vec::new();
    let mut i: usize = 0;
    assert(args@.map_values(|a: ArgumentSchema| a@) =~= Seq::empty());
    while i < arg_types.len()
        invariant
            source_map.maps(source@),
            i <= arg_types.len(),
            types == models(arg_types@),
            names == models(arg_names@),
            total == types.len(),
            goal == callable_of(node@, source@, context),
            arguments_of(types, names, total, source@, context) matches Err(e) ==> goal == Err::<
                CallableModel,
                Seq<char>,
            >(e),
            arguments_of(types, names, i as int, source@, context) == Ok::<
                Seq<ArgumentModel>,
                Seq<char>,
            >(args@.map_values(|a: ArgumentSchema| a@)),
        decreases arg_types.len() - i,
    {
        let ghost before = args@;
        let ghost next = arguments_of(types, names, i + 1, source@, context);
        proof {
            if next is Err {
                lemma_arguments_fail(types, names, i + 1, total, source@, context);
            }
        }
        let name = match parse_argument_name(arg_names, i, context) {
            Ok(name) => name,
            Err(e) => {
                return Err(e);
            },
        };
        if let Some(name) = name {
            let ty = match type_slice(&arg_types[i], source, source_map) {
                Ok(ty) => ty,
                Err(e) => {
                    return Err(e);
                },
            };
            let name_span = location_field(&arg_names[i]);
            let span = match (&name_span, &ty.span) {
                (Some(a), Some(b)) => Some(merge_span(a, b)),
                _ => ty.span,
            };
            let optional = ends_optional(name) || ends_optional(ty.source.as_str());
            args.push(ArgumentSchema { name: name.to_owned(), ty, optional, span });
            assert(args@.map_values(|a: ArgumentSchema| a@) =~= before.map_values(
                |a: ArgumentSchema| a@,
            ).push(args@[before.len() as int]@));
        }
        i += 1;
    }
    let result = match field(node, "returnTypes") {
        Ok(result) => result,
        Err(e) => {
            return Err(e);
        },
    };
    match type_slice(result, source, source_map) {
        Err(e) => Err(e),
        Ok(ty) => Ok(
            CallableSchema {
                args,
                returns: ty,
                method: context == NamespaceContext::Class,
                span: None,
                docs: None,
            },
        ),
    }
}

/// The properties of a node; empty where it has none.
pub open spec fn props_of(j: JsonModel) -> Seq<JsonModel> {
    match member(j, "props"@) {
        Some(v) => match items_of(v) {
            Some(items) => items,
            None => Seq::empty(),
        },
        None => Seq::empty(),
    }
}

/// A member is a smaller tree than the object that holds it.
pub proof fn lemma_member_from_smaller(m: Seq<(Seq<char>, JsonModel)>, key: Seq<char>, i: int)
    requires
        0 <= i,
    ensures
        member_from(m, key, i) matches Some(v) ==> exists|k: int|
            0 <= k < m.len() && (#[trigger] m[k]).1 == v,
    decreases m.len() - i,
{
    if i < m.len() && m[i].0 != key {
        lemma_member_from_smaller(m, key, i + 1);
    }
}

/// A member is a smaller tree than the object that holds it.
pub proof fn lemma_member_smaller(j: JsonModel, key: Seq<char>)
    ensures
        member(j, key) matches Some(v) ==> decreases_to!(j => v),
{
    if let JsonModel::Object(m) = j {
        lemma_member_from_smaller(m, key, 0);
        if let Some(v) = member(j, key) {
            let k = choose|k: int| 0 <= k < m.len() && (#[trigger] m[k]).1 == v;
            assert(decreases_to!(j => m));
            assert(decreases_to!(m => m[k]));
            assert(decreases_to!(m[k] => m[k].1));
        }
    }
}

/// The type of a property is a smaller tree than the node that has it.
pub proof fn lemma_prop_smaller(j: JsonModel, i: int, key: Seq<char>)
    ensures
        0 <= i < props_of(j).len() ==> (member(props_of(j)[i], key) matches Some(v)
            ==> decreases_to!(j => v)),
{
    lemma_member_smaller(j, "props"@);
    if 0 <= i < props_of(j).len() {
        let list = member(j, "props"@).unwrap();
        let items = props_of(j);
        assert(decreases_to!(list => items));
        assert(decreases_to!(items => items[i]));
        lemma_member_smaller(items[i], key);
    }
}

/// Why the indexer of a table is refused; `None` where the table has none, or
/// one that writes a plain `name: Type` entry.
pub open spec fn indexer_fault(j: JsonModel, source: Seq<char>) -> Option<Seq<char>> {
    match member(j, "indexer"@) {
        None => None,
        Some(JsonModel::Null) => None,
        Some(indexer) => {
            let text = slice_text(source, span_of(indexer));
            let bracket = starts(trim_start(text), "["@);
            if !bracket && find(text, ":"@) >= 0 {
                None
            } else {
                match member(indexer, "resultType"@) {
                    Some(result) => match member_text(result, "name"@) {
                        Some(name) => if bracket {
                            Some("namespace indexers are not supported"@)
                        } else {
                            Some("missing `:` after `"@ + name + "`"@)
                        },
                        None => Some("namespace indexers are not supported"@),
                    },
                    None => Some("namespace indexers are not supported"@),
                }
            }
        },
    }
}

/// Checks the indexer of a table.
fn check_indexer(node: &Json, source: &str, source_map: &SourceMap) -> (r: Option<AnalysisError>)
    requires
        source_map.maps(source@),
    ensures
        match r {
            Some(e) => e@ is ModuleSchema && indexer_fault(node@, source@) == Some(
                e@->ModuleSchema_0,
            ),
            None => indexer_fault(node@, source@) is None,
        },
{
    let indexer = match node.get("indexer") {
        Some(indexer) => indexer,
        None => {
            return None;
        },
    };
    if indexer.is_null() {
        return None;
    }
    let text: Vec<char> = span_chars(source, source_map, location_field(indexer));
    let bracket = has_prefix(trimmed_start(text.as_slice()), "[");
    if !bracket {
        if find_text(text.as_slice(), ":").is_some() {
            return None;
        }
        if let Some(result) = indexer.get("resultType") {
            if let Some(name) = result.get_str("name") {
                return Some(quoted_error("missing `:` after `", name, "`"));
            }
        }
    }
    Some(module_schema_error("namespace indexers are not supported".to_owned()))
}

/// A namespace with nothing in it.
pub open spec fn empty_namespace() -> NamespaceModel {
    NamespaceModel { functions: Seq::empty(), callables: Seq::empty(), children: Seq::empty() }
}

/// The callable of a property, with the span and the docs of the property.
pub open spec fn placed(c: CallableModel, prop: JsonModel, source: Seq<char>) -> CallableModel {
    CallableModel { span: span_of(prop), docs: docs_of(source, span_of(prop)), ..c }
}

/// A table type as a namespace.
pub open spec fn table_of(j: JsonModel, source: Seq<char>, context: NamespaceContext) -> Result<
    NamespaceModel,
    Seq<char>,
>
    decreases j, 1int, 0int,
{
    if !is_node(j, "AstTypeTable"@) {
        Err("expected module schema to be a table type"@)
    } else {
        match need_items(j, "props"@, "namespace props must be an array"@) {
            Err(e) => Err(e),
            Ok(props) => match indexer_fault(j, source) {
                Some(e) => Err(e),
                None => table_props(j, props.len() as int, source, context),
            },
        }
    }
}

/// The namespace that the first `n` properties of a table make: a function is
/// a callable member, a table is a child, and anything else is left out.
pub open spec fn table_props(
    j: JsonModel,
    n: int,
    source: Seq<char>,
    context: NamespaceContext,
) -> Result<NamespaceModel, Seq<char>>
    decreases j, 0int, n,
{
    if n <= 0 || n > props_of(j).len() {
        Ok(empty_namespace())
    } else {
        let prop = props_of(j)[n - 1];
        proof {
            lemma_prop_smaller(j, n - 1, "propType"@);
        }
        match table_props(j, n - 1, source, context) {
            Err(e) => Err(e),
            Ok(before) => match need_text(prop, "name"@) {
                Err(e) => Err(e),
                Ok(name) => match need(prop, "propType"@) {
                    Err(e) => Err(e),
                    Ok(ty) => if is_node(ty, "AstTypeFunction"@) {
                        match callable_of(ty, source, context) {
                            Err(e) => Err(e),
                            Ok(c) => Ok(
                                NamespaceModel {
                                    functions: before.functions.push(name),
                                    callables: put(before.callables, name, placed(c, prop, source)),
                                    ..before
                                },
                            ),
                        }
                    } else if is_node(ty, "AstTypeTable"@) {
                        match table_of(ty, source, context) {
                            Err(e) => Err(e),
                            Ok(child) => Ok(
                                NamespaceModel {
                                    children: put(before.children, name, child),
                                    ..before
                                },
                            ),
                        }
                    } else {
                        Ok(before)
                    },
                },
            },
        }
    }
}

/// A failed prefix of the properties fails the whole table in the same way.
proof fn lemma_table_props_fail(
    j: JsonModel,
    i: int,
    n: int,
    source: Seq<char>,
    context: NamespaceContext,
)
    requires
        0 <= i <= n <= props_of(j).len(),
        table_props(j, i, source, context) is Err,
    ensures
        table_props(j, n, source, context) == table_props(j, i, source, context),
    decreases n - i,
{
    if i < n {
        lemma_table_props_fail(j, i, n - 1, source, context);
    }
}

/// Reads a table type as a namespace.
fn table_namespace(
    node: &Json,
    source: &str,
    source_map: &SourceMap,
    context: NamespaceContext,
) -> (r: Result<NamespaceSchema, AnalysisError>)
    requires
        source_map.maps(source@),
    ensures
        match r {
            Ok(ns) => ns.wf() && table_of(node@, source@, context) == Ok::<
                NamespaceModel,
                Seq<char>,
            >(ns@),
            Err(e) => e@ is ModuleSchema && table_of(node@, source@, context) == Err::<
                NamespaceModel,
                Seq<char>,
            >(e@->ModuleSchema_0),
        },
    decreases node@,
{
    if !is_kind(node, "AstTypeTable") {
        return Err(
            module_schema_error("expected module schema to be a table type".to_owned()),
        );
    }
    let props = match items_field(node, "props", "namespace props must be an array") {
        Ok(props) => props,
        Err(e) => {
            return Err(e);
        },
    };
    if let Some(e) = check_indexer(node, source, source_map) {
        return Err(e);
    }
    let ghost all = props_of(node@);
    let ghost total = all.len() as int;
    let ghost goal = table_props(node@, total, source@, context);
    assert(all == models(props@));
    let mut functions: Vec<String> = Vec::new();
    let mut callables: SortedMap<CallableSchema> = SortedMap::new();
    let mut children: SortedMap<NamespaceSchema> = SortedMap::new();
    let mut i: usize = 0;
    proof {
        assert(texts(functions@) =~= Seq::empty());
        assert(callable_models(callables@) =~= Seq::empty());
        assert(mapped(children@, |c: NamespaceSchema| c@) =~= Seq::empty());
    }
    while i < props.len()
        invariant
            source_map.maps(source@),
            i <= props.len(),
            all == props_of(node@),
            all == models(props@),
            total == all.len(),
            goal == table_props(node@, total, source@, context),
            table_of(node@, source@, context) == goal,
            callables.wf(),
            children.wf(),
            forall|k: int|
                0 <= k < children.entries@.len() ==> (#[trigger] children.entries@[k]).1.wf(),
            table_props(node@, i as int, source@, context) == Ok::<NamespaceModel, Seq<char>>(
                NamespaceModel {
                    functions: texts(functions@),
                    callables: callable_models(callables@),
                    children: mapped(children@, |c: NamespaceSchema| c@),
                },
            ),
        decreases props.len() - i,
    {
        let prop = &props[i];
        let ghost next = table_props(node@, i + 1, source@, context);
        proof {
            assert(all[i as int] == prop@);
            lemma_prop_smaller(node@, i as int, "propType"@);
            if next is Err {
                lemma_table_props_fail(node@, i + 1, total, source@, context);
            }
        }
        let name = match str_field(prop, "name") {
            Ok(name) => name,
            Err(e) => {
                return Err(e);
            },
        };
        let ty = match field(prop, "propType") {
            Ok(ty) => ty,
            Err(e) => {
                return Err(e);
            },
        };
        if is_kind(ty, "AstTypeFunction") {
            let mut callable = match parse_callable(ty, source, source_map, context) {
                Ok(callable) => callable,
                Err(e) => {
                    return Err(e);
                },
            };
            let span = location_field(prop);
            callable.docs = docs_before_span(source, source_map, span);
            callable.span = span;
            let ghost before = functions@;
            proof {
                lemma_mapped(callables@, |c: CallableSchema| c@, name@, callable);
            }
            functions.push(name.to_owned());
            callables.insert(name.to_owned(), callable);
            assert(texts(functions@) =~= texts(before).push(name@));
        } else if is_kind(ty, "AstTypeTable") {
            let child = match table_namespace(ty, source, source_map, context) {
                Ok(child) => child,
                Err(e) => {
                    return Err(e);
                },
            };
            let ghost before = children.entries@;
            proof {
                lemma_mapped(children@, |c: NamespaceSchema| c@, name@, child);
            }
            children.insert(name.to_owned(), child);
            proof {
                lemma_put_all(
                    before,
                    children.entries@,
                    name@,
                    child,
                    |c: NamespaceSchema| c.wf(),
                );
            }
        }
        i += 1;
    }
    let ns = NamespaceSchema { functions, callables, children: children.entries };
    assert(ns@.children =~= mapped(children@, |c: NamespaceSchema| c@));
    Ok(ns)
}

/// A class without members.
pub open spec fn empty_class(span: Option<SourceSpan>) -> ClassModel {
    ClassModel {
        methods: Seq::empty(),
        method_signatures: Seq::empty(),
        fields: Seq::empty(),
        span,
    }
}

/// The class that the first `n` properties make: a function is a method, and
/// anything else a field.
pub open spec fn class_props(
    props: Seq<JsonModel>,
    n: int,
    source: Seq<char>,
    span: Option<SourceSpan>,
) -> Result<ClassModel, Seq<char>>
    decreases n,
{
    if n <= 0 {
        Ok(empty_class(span))
    } else {
        let prop = props[n - 1];
        match class_props(props, n - 1, source, span) {
            Err(e) => Err(e),
            Ok(before) => match need_text(prop, "name"@) {
                Err(e) => Err(e),
                Ok(name) => match need(prop, "luauType"@) {
                    Err(e) => Err(e),
                    Ok(ty) => if is_node(ty, "AstTypeFunction"@) {
                        match callable_of(ty, source, NamespaceContext::Class) {
                            Err(e) => Err(e),
                            Ok(c) => Ok(
                                ClassModel {
                                    methods: before.methods.push(name),
                                    method_signatures: put(
                                        before.method_signatures,
                                        name,
                                        placed(c, prop, source),
                                    ),
                                    ..before
                                },
                            ),
                        }
                    } else {
                        match type_of(ty, source) {
                            Err(e) => Err(e),
                            Ok(t) => Ok(
                                ClassModel {
                                    fields: put(
                                        before.fields,
                                        name,
                                        FieldModel {
                                            name,
                                            ty: t,
                                            span: span_of(prop),
                                            docs: docs_of(source, span_of(prop)),
                                        },
                                    ),
                                    ..before
                                },
                            ),
                        }
                    },
                },
            },
        }
    }
}

/// A class declaration.
pub open spec fn class_of(j: JsonModel, source: Seq<char>) -> Result<ClassModel, Seq<char>> {
    match need_items(j, "props"@, "declared class props must be an array"@) {
        Err(e) => Err(e),
        Ok(props) => class_props(props, props.len() as int, source, span_of(j)),
    }
}

proof fn lemma_class_props_fail(
    props: Seq<JsonModel>,
    i: int,
    n: int,
    source: Seq<char>,
    span: Option<SourceSpan>,
)
    requires
        0 <= i <= n,
        class_props(props, i, source, span) is Err,
    ensures
        class_props(props, n, source, span) == class_props(props, i, source, span),
    decreases n - i,
{
    if i < n {
        lemma_class_props_fail(props, i, n - 1, source, span);
    }
}

/// Reads a class declaration.
fn parse_class(node: &Json, source: &str, source_map: &SourceMap) -> (r: Result<
    ClassSchema,
    AnalysisError,
>)
    requires
        source_map.maps(source@),
    ensures
        match r {
            Ok(c) => c.wf() && class_of(node@, source@) == Ok::<ClassModel, Seq<char>>(c@),
            Err(e) => e@ is ModuleSchema && class_of(node@, source@) == Err::<
                ClassModel,
                Seq<char>,
            >(e@->ModuleSchema_0),
        },
{
    let span = location_field(node);
    let props = match items_field(node, "props", "declared class props must be an array") {
        Ok(props) => props,
        Err(e) => {
            return Err(e);
        },
    };
    let ghost all = models(props@);
    let ghost total = all.len() as int;
    let ghost goal = class_props(all, total, source@, span);
    let mut class = ClassSchema {
        methods: Vec::new(),
        method_signatures: SortedMap::new(),
        fields: SortedMap::new(),
        span,
    };
    assert(class@ =~= empty_class(span));
    let mut i: usize = 0;
    while i < props.len()
        invariant
            source_map.maps(source@),
            i <= props.len(),
            all == models(props@),
            total == all.len(),
            goal == class_props(all, total, source@, span),
            class_of(node@, source@) == goal,
            class.wf(),
            class_props(all, i as int, source@, span) == Ok::<ClassModel, Seq<char>>(class@),
        decreases props.len() - i,
    {
        let prop = &props[i];
        let ghost next = class_props(all, i + 1, source@, span);
        let ghost before = class;
        proof {
            assert(all[i as int] == prop@);
            if next is Err {
                lemma_class_props_fail(all, i + 1, total, source@, span);
            }
        }
        let name = match str_field(prop, "name") {
            Ok(name) => name,
            Err(e) => {
                return Err(e);
            },
        };
        let ty = match field(prop, "luauType") {
            Ok(ty) => ty,
            Err(e) => {
                return Err(e);
            },
        };
        let prop_span = location_field(prop);
        let docs = docs_before_span(source, source_map, prop_span);
        if is_kind(ty, "AstTypeFunction") {
            let mut callable = match parse_callable(
                ty,
                source,
                source_map,
                NamespaceContext::Class,
            ) {
                Ok(callable) => callable,
                Err(e) => {
                    return Err(e);
                },
            };
            callable.span = prop_span;
            callable.docs = docs;
            proof {
                lemma_mapped(
                    class.method_signatures@,
                    |c: CallableSchema| c@,
                    name@,
                    callable,
                );
            }
            class.methods.push(name.to_owned());
            class.method_signatures.insert(name.to_owned(), callable);
            assert(texts(class.methods@) =~= texts(before.methods@).push(name@));
        } else {
            let slice = match type_slice(ty, source, source_map) {
                Ok(slice) => slice,
                Err(e) => {
                    return Err(e);
                },
            };
            let entry = FieldSchema { name: name.to_owned(), ty: slice, span: prop_span, docs };
            proof {
                lemma_mapped(class.fields@, |f: FieldSchema| f@, name@, entry);
            }
            class.fields.insert(name.to_owned(), entry);
        }
        i += 1;
    }
    Ok(class)
}

/// An exported type alias.
pub open spec fn alias_of(j: JsonModel, source: Seq<char>) -> Result<AliasModel, Seq<char>> {
    match need_text(j, "name"@) {
        Err(e) => Err(e),
        Ok(name) => match need(j, "value"@) {
            Err(e) => Err(e),
            Ok(value) => match type_of(value, source) {
                Err(e) => Err(e),
                Ok(ty) => Ok(
                    AliasModel {
                        name,
                        ty,
                        source: slice_text(source, span_of(j)),
                        span: span_of(j),
                        docs: docs_of(source, span_of(j)),
                    },
                ),
            },
        },
    }
}

/// Reads an exported type alias.
fn parse_type_alias(node: &Json, source: &str, source_map: &SourceMap) -> (r: Result<
    TypeAliasSchema,
    AnalysisError,
>)
    requires
        source_map.maps(source@),
    ensures
        match r {
            Ok(a) => alias_of(node@, source@) == Ok::<AliasModel, Seq<char>>(a@),
            Err(e) => e@ is ModuleSchema && alias_of(node@, source@) == Err::<
                AliasModel,
                Seq<char>,
            >(e@->ModuleSchema_0),
        },
{
    let name = match str_field(node, "name") {
        Ok(name) => name,
        Err(e) => {
            return Err(e);
        },
    };
    let span = location_field(node);
    let value = match field(node, "value") {
        Ok(value) => value,
        Err(e) => {
            return Err(e);
        },
    };
    let ty = match type_slice(value, source, source_map) {
        Ok(ty) => ty,
        Err(e) => {
            return Err(e);
        },
    };
    let text: Vec<char> = span_chars(source, source_map, span);
    let docs = docs_before_span(source, source_map, span);
    Ok(
        TypeAliasSchema {
            name: name.to_owned(),
            ty,
            source: string_of(text.as_slice()),
            span,
            docs,
        },
    )
}

/// What one top-level statement adds to a schema.
///
/// An exported alias is kept, and one named `Module` is the module root. A
/// declared global is the root where no `Module` alias is, and a second one
/// is refused.
pub open spec fn with_statement(acc: SchemaModel, st: JsonModel, source: Seq<char>) -> Result<
    SchemaModel,
    Seq<char>,
> {
    if is_node(st, "AstStatTypeAlias"@) && flag(st, "exported"@) {
        match alias_of(st, source) {
            Err(e) => Err(e),
            Ok(alias) => {
                let kept = SchemaModel {
                    type_aliases: put(acc.type_aliases, alias.name, alias),
                    ..acc
                };
                if alias.name == "Module"@ {
                    match need(st, "value"@) {
                        Err(e) => Err(e),
                        Ok(value) => match table_of(value, source, NamespaceContext::Module) {
                            Err(e) => Err(e),
                            Ok(namespace) => Ok(
                                SchemaModel {
                                    root: Some(
                                        RootModel {
                                            name: "Module"@,
                                            namespace,
                                            span: alias.span,
                                        },
                                    ),
                                    ..kept
                                },
                            ),
                        },
                    }
                } else {
                    Ok(kept)
                }
            },
        }
    } else if is_node(st, "AstStatDeclareClass"@) {
        match need_text(st, "name"@) {
            Err(e) => Err(e),
            Ok(name) => match class_of(st, source) {
                Err(e) => Err(e),
                Ok(class) => Ok(SchemaModel { classes: put(acc.classes, name, class), ..acc }),
            },
        }
    } else {
        match global_type(st) {
            None => Ok(acc),
            Some(ty) => if acc.root matches Some(root) && root.name == "Module"@ {
                Ok(acc)
            } else {
                match need_text(st, "name"@) {
                    Err(e) => Err(e),
                    Ok(name) => match table_of(ty, source, NamespaceContext::Module) {
                        Err(e) => Err(e),
                        Ok(namespace) => match acc.root {
                            Some(first) => Err(
                                "multiple module-root declarations: `"@ + first.name + "` and `"@
                                    + name + "`"@,
                            ),
                            None => Ok(
                                SchemaModel {
                                    root: Some(RootModel { name, namespace, span: span_of(st) }),
                                    ..acc
                                },
                            ),
                        },
                    },
                }
            },
        }
    }
}

/// The schema that the first `n` statements make.
pub open spec fn with_statements(
    body: Seq<JsonModel>,
    n: int,
    source: Seq<char>,
) -> Result<SchemaModel, Seq<char>>
    decreases n,
{
    if n <= 0 {
        Ok(bare_schema(description_of(source)))
    } else {
        match with_statements(body, n - 1, source) {
            Err(e) => Err(e),
            Ok(acc) => with_statement(acc, body[n - 1], source),
        }
    }
}

/// The schema of a source whose syntax tree is `ast`, or why it has none.
pub open spec fn schema_of_ast(ast: JsonModel, source: Seq<char>) -> Result<
    SchemaModel,
    Seq<char>,
> {
    match member(ast, "body"@) {
        None => Err("Luau AST root is missing a statement body"@),
        Some(body) => match items_of(body) {
            None => Err("Luau AST root is missing a statement body"@),
            Some(items) => with_statements(items, items.len() as int, source),
        },
    }
}

/// The schema of a source whose syntax tree is written as JSON.
pub open spec fn schema_of_json(ast_json: Seq<char>, source: Seq<char>) -> Result<
    SchemaModel,
    Seq<char>,
> {
    match parsed(ast_json) {
        Err(e) => Err("invalid Luau AST JSON: "@ + e),
        Ok(ast) => schema_of_ast(ast, source),
    }
}

proof fn lemma_with_statements_fail(body: Seq<JsonModel>, i: int, n: int, source: Seq<char>)
    requires
        0 <= i <= n,
        with_statements(body, i, source) is Err,
    ensures
        with_statements(body, n, source) == with_statements(body, i, source),
    decreases n - i,
{
    if i < n {
        lemma_with_statements_fail(body, i, n - 1, source);
    }
}

/// Adds one top-level statement to a schema.
fn add_statement(
    schema: &mut ModuleSchema,
    statement: &Json,
    source: &str,
    source_map: &SourceMap,
) -> (r: Result<(), AnalysisError>)
    requires
        source_map.maps(source@),
        old(schema).wf(),
    ensures
        match r {
            Ok(()) => final(schema).wf() && with_statement(old(schema)@, statement@, source@)
                == Ok::<SchemaModel, Seq<char>>(final(schema)@),
            Err(e) => e@ is ModuleSchema && with_statement(old(schema)@, statement@, source@)
                == Err::<SchemaModel, Seq<char>>(e@->ModuleSchema_0),
        },
{
    if is_kind(statement, "AstStatTypeAlias") && bool_field(statement, "exported") {
        let alias = match parse_type_alias(statement, source, source_map) {
            Ok(alias) => alias,
            Err(e) => {
                return Err(e);
            },
        };
        if same_text(alias.name.as_str(), "Module") {
            let value = match field(statement, "value") {
                Ok(value) => value,
                Err(e) => {
                    return Err(e);
                },
            };
            let namespace = match table_namespace(
                value,
                source,
                source_map,
                NamespaceContext::Module,
            ) {
                Ok(namespace) => namespace,
                Err(e) => {
                    return Err(e);
                },
            };
            schema.root =
            Some(ModuleRoot { name: "Module".to_owned(), namespace, span: alias.span });
        }
        proof {
            lemma_mapped(schema.type_aliases@, |a: TypeAliasSchema| a@, alias.name@, alias);
        }
        schema.type_aliases.insert(alias.name.clone(), alias);
        return Ok(());
    }
    if is_kind(statement, "AstStatDeclareClass") {
        let name = match str_field(statement, "name") {
            Ok(name) => name,
            Err(e) => {
                return Err(e);
            },
        };
        let class = match parse_class(statement, source, source_map) {
            Ok(class) => class,
            Err(e) => {
                return Err(e);
            },
        };
        let ghost before = schema.classes.entries@;
        proof {
            lemma_mapped(schema.classes@, |c: ClassSchema| c@, name@, class);
            assert forall|k: int| 0 <= k < before.len() implies (#[trigger] before[k]).1.wf() by {
                assert(schema.classes@[k].1 == before[k].1);
            }
        }
        schema.classes.insert(name.to_owned(), class);
        proof {
            lemma_put_all(
                before,
                schema.classes.entries@,
                name@,
                class,
                |c: ClassSchema| c.wf(),
            );
            assert forall|k: int| 0 <= k < schema.classes@.len() implies (
            #[trigger] schema.classes@[k]).1.wf() by {
                assert(schema.classes@[k].1 == schema.classes.entries@[k].1);
            }
        }
        return Ok(());
    }
    let ty = match declare_global_type(statement) {
        Some(ty) => ty,
        None => {
            return Ok(());
        },
    };
    if let Some(root) = &schema.root {
        if same_text(root.name.as_str(), "Module") {
            return Ok(());
        }
    }
    let name = match str_field(statement, "name") {
        Ok(name) => name,
        Err(e) => {
            return Err(e);
        },
    };
    let namespace = match table_namespace(ty, source, source_map, NamespaceContext::Module) {
        Ok(namespace) => namespace,
        Err(e) => {
            return Err(e);
        },
    };
    if let Some(first) = &schema.root {
        let message = "multiple module-root declarations: `".to_owned().concat(
            first.name.as_str(),
        ).concat("` and `").concat(name).concat("`");
        return Err(module_schema_error(message));
    }
    schema.root = Some(ModuleRoot { name: name.to_owned(), namespace, span: location_field(statement) });
    Ok(())
}

/// Maps the syntax tree of a declaration source to its schema.
pub fn schema_from_ast(ast: &Json, source: &str) -> (r: Result<ModuleSchema, AnalysisError>)
    ensures
        match r {
            Ok(schema) => schema.wf() && schema_of_ast(ast@, source@) == Ok::<
                SchemaModel,
                Seq<char>,
            >(schema@),
            Err(e) => e@ is ModuleSchema && schema_of_ast(ast@, source@) == Err::<
                SchemaModel,
                Seq<char>,
            >(e@->ModuleSchema_0),
        },
{
    let body = match ast.get("body") {
        Some(body) => body,
        None => {
            return Err(
                module_schema_error("Luau AST root is missing a statement body".to_owned()),
            );
        },
    };
    let body = match body.as_array() {
        Some(body) => body,
        None => {
            return Err(
                module_schema_error("Luau AST root is missing a statement body".to_owned()),
            );
        },
    };
    let source_map = SourceMap::new(source);
    let mut schema = ModuleSchema::default();
    schema.module_description = top_module_description(source);
    assert(schema@ =~= bare_schema(description_of(source@)));
    let ghost all = models(body@);
    let ghost total = all.len() as int;
    let mut i: usize = 0;
    while i < body.len()
        invariant
            source_map.maps(source@),
            i <= body.len(),
            all == models(body@),
            total == all.len(),
            schema_of_ast(ast@, source@) == with_statements(all, total, source@),
            schema.wf(),
            with_statements(all, i as int, source@) == Ok::<SchemaModel, Seq<char>>(schema@),
        decreases body.len() - i,
    {
        proof {
            assert(all[i as int] == body@[i as int]@);
            if with_statements(all, i + 1, source@) is Err {
                lemma_with_statements_fail(all, i + 1, total, source@);
            }
        }
        match add_statement(&mut schema, &body[i], source, &source_map) {
            Ok(()) => {},
            Err(e) => {
                return Err(e);
            },
        }
        i += 1;
    }
    Ok(schema)
}

/// Extracts the schema of a declaration source from its syntax tree, which
/// the Luau parser writes as JSON.
pub fn extract_module_schema(source: &str, ast_json: &str) -> (r: Result<
    ModuleSchema,
    AnalysisError,
>)
    ensures
        match r {
            Ok(schema) => schema.wf() && schema_of_json(ast_json@, source@) == Ok::<
                SchemaModel,
                Seq<char>,
            >(schema@),
            Err(e) => e@ is ModuleSchema && schema_of_json(ast_json@, source@) == Err::<
                SchemaModel,
                Seq<char>,
            >(e@->ModuleSchema_0),
        },
{
    match parse_json(ast_json) {
        Err(e) => Err(
            module_schema_error("invalid Luau AST JSON: ".to_owned().concat(e.as_str())),
        ),
        Ok(ast) => schema_from_ast(&ast, source),
    }
}

/// Whether the first type of a callable is the receiver of a method and no
/// argument: in a class, where it has no name or is named `self`.
pub open spec fn has_receiver(names: Seq<JsonModel>, context: NamespaceContext) -> bool {
    context == NamespaceContext::Class && (names.len() == 0 || names[0] is Null || member_text(
        names[0],
        "name"@,
    ) == Some("self"@))
}

proof fn lemma_arguments(
    types: Seq<JsonModel>,
    names: Seq<JsonModel>,
    n: int,
    source: Seq<char>,
    context: NamespaceContext,
)
    requires
        0 <= n <= types.len(),
    ensures
        arguments_of(types, names, n, source, context) matches Ok(args) ==> {
            let skipped: int = if has_receiver(names, context) && n > 0 {
                1
            } else {
                0
            };
            &&& args.len() == n - skipped
            &&& forall|i: int|
                0 <= i < args.len() ==> {
                    &&& member_text(names[i + skipped], "name"@) == Some((#[trigger] args[i]).name)
                    &&& type_of(types[i + skipped], source) == Ok::<_, Seq<char>>(args[i].ty)
                    &&& args[i].optional == (ends(args[i].name, "?"@) || ends(
                        args[i].ty.source,
                        "?"@,
                    ))
                }
        },
    decreases n,
{
    if n > 0 {
        lemma_arguments(types, names, n - 1, source, context);
        if let Ok(args) = arguments_of(types, names, n, source, context) {
            let before = arguments_of(types, names, n - 1, source, context)->Ok_0;
            assert forall|i: int| 0 <= i < before.len() implies #[trigger] args[i] == before[i] by {}
        }
    }
}

/// The arguments of a function type are its named types in their order: the
/// name and the type of each stand at the same place in the syntax tree. In a
/// class the receiver comes in front of them and is left out. What it returns
/// is its return type.
pub proof fn law_arguments_follow_syntax(
    j: JsonModel,
    source: Seq<char>,
    context: NamespaceContext,
    c: CallableModel,
    pack: JsonModel,
    types: Seq<JsonModel>,
    names: Seq<JsonModel>,
    result: JsonModel,
)
    requires
        callable_of(j, source, context) == Ok::<_, Seq<char>>(c),
        member(j, "argTypes"@) == Some(pack),
        member(pack, "types"@) == Some(JsonModel::Array(types)),
        member(j, "argNames"@) == Some(JsonModel::Array(names)),
        member(j, "returnTypes"@) == Some(result),
    ensures
        !has_receiver(names, context) || types.len() == 0 ==> c.args.len() == types.len()
            && forall|i: int|
            0 <= i < types.len() ==> member_text(names[i], "name"@) == Some(
                (#[trigger] c.args[i]).name,
            ) && type_of(types[i], source) == Ok::<_, Seq<char>>(c.args[i].ty),
        has_receiver(names, context) && types.len() > 0 ==> c.args.len() == types.len() - 1
            && forall|i: int|
            0 <= i < types.len() - 1 ==> member_text(names[i + 1], "name"@) == Some(
                (#[trigger] c.args[i]).name,
            ) && type_of(types[i + 1], source) == Ok::<_, Seq<char>>(c.args[i].ty),
        forall|i: int|
            0 <= i < c.args.len() ==> (#[trigger] c.args[i]).optional == (ends(
                c.args[i].name,
                "?"@,
            ) || ends(c.args[i].ty.source, "?"@)),
        type_of(result, source) == Ok::<_, Seq<char>>(c.returns),
        c.method <==> context == NamespaceContext::Class,
{
    lemma_arguments(types, names, types.len() as int, source, context);
}

/// A type is written as it stands in the source: its text is that of its span
/// without white space around it.
pub proof fn law_types_are_source_text(j: JsonModel, source: Seq<char>, text: Seq<char>)
    requires
        span_of(j) matches Some(span) && span_text(source, span) == Some(text),
        trim(text).len() > 0,
    ensures
        type_of(j, source) == Ok::<_, Seq<char>>(
            (TypeModel { source: trim(text), span: span_of(j) }),
        ),
{
}

/// Whether a property has a function type, under the key that holds its type.
pub open spec fn is_function_prop(prop: JsonModel, key: Seq<char>) -> bool {
    member(prop, key) matches Some(ty) && is_node(ty, "AstTypeFunction"@)
}

/// Whether a property has a table type.
pub open spec fn is_table_prop(prop: JsonModel) -> bool {
    member(prop, "propType"@) matches Some(ty) && is_node(ty, "AstTypeTable"@)
}

/// The name of a property.
pub open spec fn prop_name(prop: JsonModel) -> Seq<char> {
    member_text(prop, "name"@)->0
}

/// The names of the properties with a function type, in their order.
pub open spec fn function_names(props: Seq<JsonModel>, key: Seq<char>) -> Seq<Seq<char>> {
    props.filter(|p: JsonModel| is_function_prop(p, key)).map_values(|p: JsonModel| prop_name(p))
}

proof fn lemma_function_names(props: Seq<JsonModel>, n: int, key: Seq<char>)
    requires
        0 < n <= props.len(),
    ensures
        function_names(props.take(n), key) == (if is_function_prop(props[n - 1], key) {
            function_names(props.take(n - 1), key).push(prop_name(props[n - 1]))
        } else {
            function_names(props.take(n - 1), key)
        }),
{
    let pred = |p: JsonModel| is_function_prop(p, key);
    let name = |p: JsonModel| prop_name(p);
    reveal(Seq::filter);
    assert(props.take(n).drop_last() =~= props.take(n - 1));
    assert(props.take(n).last() == props[n - 1]);
    let before = props.take(n - 1).filter(pred);
    assert(before.push(props[n - 1]).map_values(name) =~= before.map_values(name).push(
        prop_name(props[n - 1]),
    ));
}

/// Whether property `k` is the last with its name and a function type among
/// the first `n`.
pub open spec fn last_function(props: Seq<JsonModel>, n: int, k: int, key: Seq<char>) -> bool {
    0 <= k < n && is_function_prop(props[k], key) && forall|l: int|
        k < l < n ==> !(is_function_prop(#[trigger] props[l], key) && prop_name(props[l])
            == prop_name(props[k]))
}

/// Whether property `k` is the last with its name and a table type among the
/// first `n`.
pub open spec fn last_table(props: Seq<JsonModel>, n: int, k: int) -> bool {
    0 <= k < n && is_table_prop(props[k]) && forall|l: int|
        k < l < n ==> !(is_table_prop(#[trigger] props[l]) && prop_name(props[l]) == prop_name(
            props[k],
        ))
}

/// Whether property `k` of a class is the last with its name that is no method
/// among the first `n`.
pub open spec fn last_field(props: Seq<JsonModel>, n: int, k: int) -> bool {
    0 <= k < n && !is_function_prop(props[k], "luauType"@) && forall|l: int|
        k < l < n ==> is_function_prop(#[trigger] props[l], "luauType"@) || prop_name(props[l])
            != prop_name(props[k])
}

/// What one more property does to a namespace.
proof fn lemma_table_step(j: JsonModel, n: int, source: Seq<char>, context: NamespaceContext)
    requires
        0 < n <= props_of(j).len(),
        table_props(j, n, source, context) is Ok,
    ensures
        table_props(j, n - 1, source, context) is Ok,
        ({
            let before = table_props(j, n - 1, source, context)->Ok_0;
            let ns = table_props(j, n, source, context)->Ok_0;
            let prop = props_of(j)[n - 1];
            let ty = member(prop, "propType"@)->0;
            let name = prop_name(prop);
            if is_function_prop(prop, "propType"@) {
                callable_of(ty, source, context) matches Ok(c) && ns.functions
                    == before.functions.push(name) && ns.children == before.children
                    && ns.callables == put(before.callables, name, placed(c, prop, source))
            } else if is_table_prop(prop) {
                table_of(ty, source, context) matches Ok(child) && ns.functions
                    == before.functions && ns.callables == before.callables && ns.children == put(
                    before.children,
                    name,
                    child,
                )
            } else {
                ns == before
            }
        }),
{
}

proof fn lemma_table_functions(j: JsonModel, n: int, source: Seq<char>, context: NamespaceContext)
    requires
        0 <= n <= props_of(j).len(),
        table_props(j, n, source, context) is Ok,
    ensures
        ({
            let ns = table_props(j, n, source, context)->Ok_0;
            &&& ns.functions == function_names(props_of(j).take(n), "propType"@)
            &&& ordered(ns.callables)
            &&& ordered(ns.children)
        }),
    decreases n,
{
    let props = props_of(j);
    if n == 0 {
        reveal(Seq::filter);
        assert(props.take(0) =~= Seq::empty());
        assert(function_names(props.take(0), "propType"@) =~= Seq::empty());
    } else {
        lemma_table_step(j, n, source, context);
        lemma_table_functions(j, n - 1, source, context);
        lemma_function_names(props, n, "propType"@);
        let before = table_props(j, n - 1, source, context)->Ok_0;
        let prop = props[n - 1];
        let ty = member(prop, "propType"@)->0;
        if is_function_prop(prop, "propType"@) {
            lemma_put(
                before.callables,
                prop_name(prop),
                placed(callable_of(ty, source, context)->Ok_0, prop, source),
            );
        } else if is_table_prop(prop) {
            lemma_put(before.children, prop_name(prop), table_of(ty, source, context)->Ok_0);
        }
    }
}

proof fn lemma_table_callable(
    j: JsonModel,
    n: int,
    source: Seq<char>,
    context: NamespaceContext,
    k: int,
)
    requires
        0 <= n <= props_of(j).len(),
        table_props(j, n, source, context) is Ok,
        last_function(props_of(j), n, k, "propType"@),
    ensures
        callable_of(member(props_of(j)[k], "propType"@)->0, source, context) matches Ok(c)
            && lookup(
            table_props(j, n, source, context)->Ok_0.callables,
            prop_name(props_of(j)[k]),
        ) == Some(placed(c, props_of(j)[k], source)),
    decreases n,
{
    let props = props_of(j);
    lemma_table_step(j, n, source, context);
    lemma_table_functions(j, n - 1, source, context);
    let before = table_props(j, n - 1, source, context)->Ok_0;
    let prop = props[n - 1];
    let ty = member(prop, "propType"@)->0;
    if is_function_prop(prop, "propType"@) {
        lemma_put(
            before.callables,
            prop_name(prop),
            placed(callable_of(ty, source, context)->Ok_0, prop, source),
        );
    }
    if k < n - 1 {
        lemma_table_callable(j, n - 1, source, context, k);
        assert(!(is_function_prop(props[n - 1], "propType"@) && prop_name(props[n - 1])
            == prop_name(props[k])));
    }
}

proof fn lemma_table_child(
    j: JsonModel,
    n: int,
    source: Seq<char>,
    context: NamespaceContext,
    k: int,
)
    requires
        0 <= n <= props_of(j).len(),
        table_props(j, n, source, context) is Ok,
        last_table(props_of(j), n, k),
    ensures
        table_of(member(props_of(j)[k], "propType"@)->0, source, context) matches Ok(child)
            && lookup(
            table_props(j, n, source, context)->Ok_0.children,
            prop_name(props_of(j)[k]),
        ) == Some(child),
    decreases n,
{
    let props = props_of(j);
    lemma_node_kinds();
    lemma_table_step(j, n, source, context);
    lemma_table_functions(j, n - 1, source, context);
    let before = table_props(j, n - 1, source, context)->Ok_0;
    let prop = props[n - 1];
    let ty = member(prop, "propType"@)->0;
    if !is_function_prop(prop, "propType"@) && is_table_prop(prop) {
        lemma_put(before.children, prop_name(prop), table_of(ty, source, context)->Ok_0);
    }
    if k < n - 1 {
        lemma_table_child(j, n - 1, source, context, k);
        assert(!(is_table_prop(props[n - 1]) && prop_name(props[n - 1]) == prop_name(props[k])));
    }
}

/// The kinds of syntax nodes differ.
proof fn lemma_node_kinds()
    ensures
        "AstTypeFunction"@ != "AstTypeTable"@,
        "AstStatTypeAlias"@ != "AstStatDeclareClass"@,
{
    reveal_strlit("AstTypeFunction");
    reveal_strlit("AstTypeTable");
    reveal_strlit("AstStatTypeAlias");
    reveal_strlit("AstStatDeclareClass");
    assert("AstTypeFunction"@.len() != "AstTypeTable"@.len());
    assert("AstStatTypeAlias"@.len() != "AstStatDeclareClass"@.len());
}

/// A table type lists its functions: they are the names of the properties with
/// a function type, in their order. Each has its signature, with the docs and
/// the place of the property, and each property with a table type is a child;
/// of several with one name the last counts.
pub proof fn law_table_members_are_its_properties(
    j: JsonModel,
    source: Seq<char>,
    context: NamespaceContext,
    ns: NamespaceModel,
    k: int,
)
    requires
        table_of(j, source, context) == Ok::<_, Seq<char>>(ns),
    ensures
        ns.functions == props_of(j).filter(
            |p: JsonModel| is_function_prop(p, "propType"@),
        ).map_values(|p: JsonModel| prop_name(p)),
        last_function(props_of(j), props_of(j).len() as int, k, "propType"@) ==> {
            &&& callable_of(member(props_of(j)[k], "propType"@)->0, source, context) matches Ok(c)
            &&& lookup(ns.callables, prop_name(props_of(j)[k])) matches Some(d)
            &&& d.args == c.args
            &&& d.returns == c.returns
            &&& d.method == c.method
            &&& d.span == span_of(props_of(j)[k])
            &&& d.docs == docs_of(source, span_of(props_of(j)[k]))
        },
        last_table(props_of(j), props_of(j).len() as int, k) ==> {
            &&& table_of(member(props_of(j)[k], "propType"@)->0, source, context) matches Ok(child)
            &&& lookup(ns.children, prop_name(props_of(j)[k])) == Some(child)
        },
{
    let props = props_of(j);
    let n = props.len() as int;
    lemma_table_functions(j, n, source, context);
    assert(props.take(n) =~= props);
    if last_function(props, n, k, "propType"@) {
        lemma_table_callable(j, n, source, context, k);
    }
    if last_table(props, n, k) {
        lemma_table_child(j, n, source, context, k);
    }
}

/// What one more property does to a class.
proof fn lemma_class_step(
    props: Seq<JsonModel>,
    n: int,
    source: Seq<char>,
    span: Option<SourceSpan>,
)
    requires
        0 < n <= props.len(),
        class_props(props, n, source, span) is Ok,
    ensures
        class_props(props, n - 1, source, span) is Ok,
        ({
            let before = class_props(props, n - 1, source, span)->Ok_0;
            let c = class_props(props, n, source, span)->Ok_0;
            let prop = props[n - 1];
            let ty = member(prop, "luauType"@)->0;
            let name = prop_name(prop);
            c.span == before.span && if is_function_prop(prop, "luauType"@) {
                callable_of(ty, source, NamespaceContext::Class) matches Ok(m) && c.methods
                    == before.methods.push(name) && c.fields == before.fields
                    && c.method_signatures == put(
                    before.method_signatures,
                    name,
                    placed(m, prop, source),
                )
            } else {
                type_of(ty, source) matches Ok(t) && c.methods == before.methods
                    && c.method_signatures == before.method_signatures && c.fields == put(
                    before.fields,
                    name,
                    (FieldModel {
                        name,
                        ty: t,
                        span: span_of(prop),
                        docs: docs_of(source, span_of(prop)),
                    }),
                )
            }
        }),
{
}

proof fn lemma_class_functions(
    props: Seq<JsonModel>,
    n: int,
    source: Seq<char>,
    span: Option<SourceSpan>,
)
    requires
        0 <= n <= props.len(),
        class_props(props, n, source, span) is Ok,
    ensures
        ({
            let c = class_props(props, n, source, span)->Ok_0;
            &&& c.methods == function_names(props.take(n), "luauType"@)
            &&& c.span == span
            &&& ordered(c.method_signatures)
            &&& ordered(c.fields)
        }),
    decreases n,
{
    if n == 0 {
        reveal(Seq::filter);
        assert(props.take(0) =~= Seq::empty());
        assert(function_names(props.take(0), "luauType"@) =~= Seq::empty());
    } else {
        lemma_class_step(props, n, source, span);
        lemma_class_functions(props, n - 1, source, span);
        lemma_function_names(props, n, "luauType"@);
        let before = class_props(props, n - 1, source, span)->Ok_0;
        let prop = props[n - 1];
        let ty = member(prop, "luauType"@)->0;
        if is_function_prop(prop, "luauType"@) {
            lemma_put(
                before.method_signatures,
                prop_name(prop),
                placed(callable_of(ty, source, NamespaceContext::Class)->Ok_0, prop, source),
            );
        } else {
            lemma_put(
                before.fields,
                prop_name(prop),
                FieldModel {
                    name: prop_name(prop),
                    ty: type_of(ty, source)->Ok_0,
                    span: span_of(prop),
                    docs: docs_of(source, span_of(prop)),
                },
            );
        }
    }
}

proof fn lemma_class_method(
    props: Seq<JsonModel>,
    n: int,
    source: Seq<char>,
    span: Option<SourceSpan>,
    k: int,
)
    requires
        0 <= n <= props.len(),
        class_props(props, n, source, span) is Ok,
        last_function(props, n, k, "luauType"@),
    ensures
        callable_of(
            member(props[k], "luauType"@)->0,
            source,
            NamespaceContext::Class,
        ) matches Ok(m) && lookup(
            class_props(props, n, source, span)->Ok_0.method_signatures,
            prop_name(props[k]),
        ) == Some(placed(m, props[k], source)),
    decreases n,
{
    lemma_class_step(props, n, source, span);
    lemma_class_functions(props, n - 1, source, span);
    let before = class_props(props, n - 1, source, span)->Ok_0;
    let prop = props[n - 1];
    let ty = member(prop, "luauType"@)->0;
    if is_function_prop(prop, "luauType"@) {
        lemma_put(
            before.method_signatures,
            prop_name(prop),
            placed(callable_of(ty, source, NamespaceContext::Class)->Ok_0, prop, source),
        );
    }
    if k < n - 1 {
        lemma_class_method(props, n - 1, source, span, k);
        assert(!(is_function_prop(props[n - 1], "luauType"@) && prop_name(props[n - 1])
            == prop_name(props[k])));
    }
}

proof fn lemma_class_field(
    props: Seq<JsonModel>,
    n: int,
    source: Seq<char>,
    span: Option<SourceSpan>,
    k: int,
)
    requires
        0 <= n <= props.len(),
        class_props(props, n, source, span) is Ok,
        last_field(props, n, k),
    ensures
        ({
            &&& type_of(member(props[k], "luauType"@)->0, source) matches Ok(t)
            &&& lookup(
                class_props(props, n, source, span)->Ok_0.fields,
                prop_name(props[k]),
            ) matches Some(f)
            &&& f.name == prop_name(props[k])
            &&& f.ty == t
            &&& f.span == span_of(props[k])
            &&& f.docs == docs_of(source, span_of(props[k]))
        }),
    decreases n,
{
    lemma_class_step(props, n, source, span);
    lemma_class_functions(props, n - 1, source, span);
    let before = class_props(props, n - 1, source, span)->Ok_0;
    let prop = props[n - 1];
    let ty = member(prop, "luauType"@)->0;
    if !is_function_prop(prop, "luauType"@) {
        lemma_put(
            before.fields,
            prop_name(prop),
            FieldModel {
                name: prop_name(prop),
                ty: type_of(ty, source)->Ok_0,
                span: span_of(prop),
                docs: docs_of(source, span_of(prop)),
            },
        );
    }
    if k < n - 1 {
        lemma_class_field(props, n - 1, source, span, k);
        assert(is_function_prop(props[n - 1], "luauType"@) || prop_name(props[n - 1])
            != prop_name(props[k]));
    }
}

/// A class lists its methods: they are the names of the properties with a
/// function type, in their order, each with its signature. Every other
/// property is a field with its type; of several with one name the last
/// counts.
pub proof fn law_class_members_are_its_properties(
    j: JsonModel,
    props: Seq<JsonModel>,
    source: Seq<char>,
    c: ClassModel,
    k: int,
)
    requires
        class_of(j, source) == Ok::<_, Seq<char>>(c),
        member(j, "props"@) == Some(JsonModel::Array(props)),
    ensures
        c.methods == props.filter(|p: JsonModel| is_function_prop(p, "luauType"@)).map_values(
            |p: JsonModel| prop_name(p),
        ),
        c.span == span_of(j),
        last_function(props, props.len() as int, k, "luauType"@) ==> {
            &&& callable_of(
                member(props[k], "luauType"@)->0,
                source,
                NamespaceContext::Class,
            ) matches Ok(m)
            &&& lookup(c.method_signatures, prop_name(props[k])) matches Some(d)
            &&& d.args == m.args
            &&& d.returns == m.returns
            &&& d.method == m.method
            &&& d.span == span_of(props[k])
            &&& d.docs == docs_of(source, span_of(props[k]))
        },
        last_field(props, props.len() as int, k) ==> {
            &&& type_of(member(props[k], "luauType"@)->0, source) matches Ok(t)
            &&& lookup(c.fields, prop_name(props[k])) matches Some(f)
            &&& f.name == prop_name(props[k])
            &&& f.ty == t
            &&& f.span == span_of(props[k])
            &&& f.docs == docs_of(source, span_of(props[k]))
        },
{
    let n = props.len() as int;
    lemma_class_functions(props, n, source, span_of(j));
    assert(props.take(n) =~= props);
    if last_function(props, n, k, "luauType"@) {
        lemma_class_method(props, n, source, span_of(j), k);
    }
    if last_field(props, n, k) {
        lemma_class_field(props, n, source, span_of(j), k);
    }
}

/// What one more statement does to a schema: an exported alias is added under
/// its name, a declared class under its own, a declared table becomes the root
/// where there is none, and nothing that was there under another name is lost.
pub proof fn law_statement_adds_its_declaration(
    acc: SchemaModel,
    st: JsonModel,
    source: Seq<char>,
    key: Seq<char>,
)
    requires
        ordered(acc.classes),
        ordered(acc.type_aliases),
    ensures
        with_statement(acc, st, source) matches Ok(s) ==> {
            &&& ordered(s.classes)
            &&& ordered(s.type_aliases)
            &&& s.module_description == acc.module_description
            &&& is_node(st, "AstStatDeclareClass"@) ==> (class_of(st, source) matches Ok(c)
                && lookup(s.classes, prop_name(st)) == Some(c))
            &&& !is_node(st, "AstStatDeclareClass"@) || key != prop_name(st) ==> lookup(
                s.classes,
                key,
            ) == lookup(acc.classes, key)
            &&& is_node(st, "AstStatTypeAlias"@) && flag(st, "exported"@) ==> (alias_of(
                st,
                source,
            ) matches Ok(a) && a.name == prop_name(st) && lookup(s.type_aliases, prop_name(st))
                == Some(a))
            &&& !(is_node(st, "AstStatTypeAlias"@) && flag(st, "exported"@)) || key != prop_name(
                st,
            ) ==> lookup(s.type_aliases, key) == lookup(acc.type_aliases, key)
            &&& acc.root is Some ==> s.root is Some
            &&& acc.root is Some && !(is_node(st, "AstStatTypeAlias"@) && flag(st, "exported"@)
                && prop_name(st) == "Module"@) ==> s.root == acc.root
        },
        !is_node(st, "AstStatTypeAlias"@) && !is_node(st, "AstStatDeclareClass"@)
            && acc.root is None ==> (global_type(st) matches Some(ty) ==> (with_statement(
            acc,
            st,
            source,
        ) matches Ok(s) ==> (s.root matches Some(root) && root.name == prop_name(st) && table_of(
            ty,
            source,
            NamespaceContext::Module,
        ) == Ok::<_, Seq<char>>(root.namespace)))),
{
    let name = prop_name(st);
    if is_node(st, "AstStatTypeAlias"@) && flag(st, "exported"@) {
        if let Ok(alias) = alias_of(st, source) {
            assert(alias.name == name);
            lemma_put(acc.type_aliases, name, alias);
            assert(key != name ==> lookup(put(acc.type_aliases, name, alias), key) == lookup(
                acc.type_aliases,
                key,
            ));
        }
        lemma_node_kinds();
    } else if is_node(st, "AstStatDeclareClass"@) {
        if let Ok(class) = class_of(st, source) {
            lemma_put(acc.classes, name, class);
            assert(key != name ==> lookup(put(acc.classes, name, class), key) == lookup(
                acc.classes,
                key,
            ));
        }
    }
}

/// A class that a file declares is in its schema, and so is an alias that it
/// exports: whatever follows, unless it has the same name.
pub proof fn law_declarations_are_kept(body: Seq<JsonModel>, k: int, n: int, source: Seq<char>)
    requires
        0 <= k < n <= body.len(),
    ensures
        with_statements(body, n, source) matches Ok(s) ==> {
            &&& ordered(s.classes)
            &&& ordered(s.type_aliases)
            &&& is_node(body[k], "AstStatDeclareClass"@) && (forall|l: int|
                k < l < n ==> !(is_node(#[trigger] body[l], "AstStatDeclareClass"@) && prop_name(
                    body[l],
                ) == prop_name(body[k]))) ==> (class_of(body[k], source) matches Ok(c) && lookup(
                s.classes,
                prop_name(body[k]),
            ) == Some(c))
            &&& is_node(body[k], "AstStatTypeAlias"@) && flag(body[k], "exported"@) && (forall|
                l: int,
            |
                k < l < n ==> !(is_node(#[trigger] body[l], "AstStatTypeAlias"@) && flag(
                    body[l],
                    "exported"@,
                ) && prop_name(body[l]) == prop_name(body[k]))) ==> (alias_of(
                body[k],
                source,
            ) matches Ok(a) && lookup(s.type_aliases, prop_name(body[k])) == Some(a))
        },
    decreases n,
{
    lemma_statements_ordered(body, n - 1, source);
    if let Ok(before) = with_statements(body, n - 1, source) {
        law_statement_adds_its_declaration(before, body[n - 1], source, prop_name(body[k]));
        if k < n - 1 {
            law_declarations_are_kept(body, k, n - 1, source);
            assert(is_node(body[n - 1], "AstStatDeclareClass"@) || !is_node(
                body[n - 1],
                "AstStatDeclareClass"@,
            ));
        }
    }
}

proof fn lemma_statements_ordered(body: Seq<JsonModel>, n: int, source: Seq<char>)
    requires
        0 <= n <= body.len(),
    ensures
        with_statements(body, n, source) matches Ok(s) ==> ordered(s.classes) && ordered(
            s.type_aliases,
        ),
    decreases n,
{
    if n > 0 {
        lemma_statements_ordered(body, n - 1, source);
        if let Ok(before) = with_statements(body, n - 1, source) {
            law_statement_adds_its_declaration(before, body[n - 1], source, Seq::empty());
        }
    }
}

proof fn lemma_position_reads_back(line: u32, column: u32)
    ensures
        position_of(decimal(line as nat) + ","@ + decimal(column as nat)) == Ok::<_, Seq<char>>(
            (line, column),
        ),
{
    reveal_strlit(",");
    let a = decimal(line as nat);
    let b = decimal(column as nat);
    law_decimal_reads_back(line as nat);
    law_decimal_reads_back(column as nat);
    let s = a + ","@ + b;
    law_find_is_first(s, ","@);
    let at = a.len() as int;
    assert(s.skip(at).take(1) =~= ","@);
    assert(starts(s.skip(at), ","@));
    let found = find(s, ","@);
    assert(found == at) by {
        if found < at {
            assert(s.skip(found).take(1)[0] == s[found]);
            assert(s[found] == a[found]);
        }
    }
    assert(s.take(at) =~= a);
    assert(s.skip(at + 1) =~= b);
}

/// A location that is written as `line,column - line,column` reads back as
/// these four numbers, the first two as where the span begins.
pub proof fn law_location_reads_back(span: SourceSpan)
    ensures
        location_of(
            decimal(span.line as nat) + ","@ + decimal(span.column as nat) + " - "@ + decimal(
                span.end_line as nat,
            ) + ","@ + decimal(span.end_column as nat),
        ) == Ok::<_, Seq<char>>(span),
{
    reveal_strlit(",");
    reveal_strlit(" - ");
    let l = decimal(span.line as nat);
    let c = decimal(span.column as nat);
    law_decimal_reads_back(span.line as nat);
    law_decimal_reads_back(span.column as nat);
    let begin = l + ","@ + c;
    let end = decimal(span.end_line as nat) + ","@ + decimal(span.end_column as nat);
    let s = begin + " - "@ + end;
    assert(l + ","@ + c + " - "@ + decimal(span.end_line as nat) + ","@ + decimal(
        span.end_column as nat,
    ) =~= s);
    law_find_is_first(s, " - "@);
    let at = begin.len() as int;
    assert(s.skip(at).take(3) =~= " - "@);
    assert(starts(s.skip(at), " - "@));
    let found = find(s, " - "@);
    assert(found == at) by {
        if found < at {
            assert(s.skip(found).take(3)[0] == s[found]);
            assert(s[found] == begin[found]);
            if found < l.len() {
                assert(begin[found] == l[found]);
            } else if found > l.len() {
                assert(begin[found] == c[found - l.len() - 1]);
            }
        }
    }
    assert(s.take(at) =~= begin);
    assert(s.skip(at + 3) =~= end);
    lemma_position_reads_back(span.line, span.column);
    lemma_position_reads_back(span.end_line, span.end_column);
}

} // verus!
