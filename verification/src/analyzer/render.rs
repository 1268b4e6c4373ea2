//! Checker-facing Luau source generated from a declaration schema.
use super::{
    callable_models, AliasModel, ArgumentModel, CallableModel, CallableSchema, ClassModel,
    ClassSchema, FieldModel, ModuleSchema, NamespaceModel, NamespaceSchema, RootModel, SchemaModel,
    TypeAliasSchema,
};
use crate::sorted::{lemma_mapped, lookup, SortedMap};
use crate::text::{
    chars_of, ends, join, join_texts, same_text, starts, string_of, texts, trim_end, trimmed_end,
};
use vstd::prelude::*;
use vstd::string::*;

verus! {

/// One parameter: `name: type`.
pub open spec fn parameter_text(a: ArgumentModel) -> Seq<char> {
    a.name + ": "@ + a.ty.source
}

/// The parameters of a callable, with its receiver first where it has one.
pub open spec fn parameter_texts(c: CallableModel, self_type: Option<Seq<char>>) -> Seq<Seq<char>> {
    (match self_type {
        Some(t) => seq!["self: "@ + t],
        None => Seq::empty(),
    }) + c.args.map_values(|a: ArgumentModel| parameter_text(a))
}

/// A callable as a Luau function type.
pub open spec fn callable_text(c: CallableModel, self_type: Option<Seq<char>>) -> Seq<char> {
    "("@ + join(parameter_texts(c, self_type), ", "@) + ") -> "@ + c.returns.source
}

/// A table entry: `indent name: type,` and a newline.
pub open spec fn entry_text(indent: Seq<char>, name: Seq<char>, ty: Seq<char>) -> Seq<char> {
    indent + name + ": "@ + ty + ",\n"@
}

/// The first `n` callables as table entries.
pub open spec fn callables_text(
    e: Seq<(Seq<char>, CallableModel)>,
    n: int,
    indent: Seq<char>,
    self_type: Option<Seq<char>>,
) -> Seq<char>
    decreases n,
{
    if n <= 0 {
        Seq::empty()
    } else {
        callables_text(e, n - 1, indent, self_type) + entry_text(
            indent,
            e[n - 1].0,
            callable_text(e[n - 1].1, self_type),
        )
    }
}

/// The first `n` children of a namespace as table entries.
pub open spec fn children_text(ns: NamespaceModel, n: int, indent: Seq<char>) -> Seq<char>
    decreases ns, 0int, n,
{
    if n <= 0 || n > ns.children.len() {
        Seq::empty()
    } else {
        let child = ns.children[n - 1];
        proof {
            assert(decreases_to!(ns => ns.children));
            assert(decreases_to!(ns.children => child));
            assert(decreases_to!(child => child.1));
        }
        children_text(ns, n - 1, indent) + entry_text(
            indent,
            child.0,
            namespace_text(child.1, indent),
        )
    }
}

/// A namespace as a Luau table type: callables first, then children, each in
/// name order and indented one step deeper than the closing brace.
pub open spec fn namespace_text(ns: NamespaceModel, indent: Seq<char>) -> Seq<char>
    decreases ns, 1int, 0int,
{
    "{\n"@ + callables_text(ns.callables, ns.callables.len() as int, indent + "    "@, None)
        + children_text(ns, ns.children.len() as int, indent + "    "@) + indent + "}"@
}

/// The first `n` fields of a class as table entries.
pub open spec fn fields_text(e: Seq<(Seq<char>, FieldModel)>, n: int) -> Seq<char>
    decreases n,
{
    if n <= 0 {
        Seq::empty()
    } else {
        fields_text(e, n - 1) + entry_text("    "@, e[n - 1].0, e[n - 1].1.ty.source)
    }
}

/// A class as an exported table type.
pub open spec fn class_text(name: Seq<char>, c: ClassModel) -> Seq<char> {
    "export type "@ + name + " = {\n"@ + fields_text(c.fields, c.fields.len() as int)
        + callables_text(
        c.method_signatures,
        c.method_signatures.len() as int,
        "    "@,
        Some(name),
    ) + "}\n\n"@
}

/// The first `n` classes.
pub open spec fn classes_text(e: Seq<(Seq<char>, ClassModel)>, n: int) -> Seq<char>
    decreases n,
{
    if n <= 0 {
        Seq::empty()
    } else {
        classes_text(e, n - 1) + class_text(e[n - 1].0, e[n - 1].1)
    }
}

/// The first `n` aliases, without the one named `Module`.
pub open spec fn aliases_text(e: Seq<(Seq<char>, AliasModel)>, n: int) -> Seq<char>
    decreases n,
{
    if n <= 0 {
        Seq::empty()
    } else if e[n - 1].1.name == "Module"@ {
        aliases_text(e, n - 1)
    } else {
        aliases_text(e, n - 1) + trim_end(e[n - 1].1.source) + "\n\n"@
    }
}

/// The declaration of the `Module` type, where the schema has one.
pub open spec fn module_type_text(schema: SchemaModel) -> Seq<char> {
    match lookup(schema.type_aliases, "Module"@) {
        Some(alias) => trim_end(alias.source) + "\n\n"@,
        None => match schema.root {
            Some(root) => "export type Module = "@ + namespace_text(root.namespace, ""@) + "\n\n"@,
            None => Seq::empty(),
        },
    }
}

/// The declarations of a schema as Luau types.
pub open spec fn types_text(schema: SchemaModel) -> Seq<char> {
    aliases_text(schema.type_aliases, schema.type_aliases.len() as int) + classes_text(
        schema.classes,
        schema.classes.len() as int,
    ) + module_type_text(schema)
}

/// The source that the checker sees for an interface: the declared types, and
/// a value of type `Module` where there is a root. A schema with neither keeps
/// its own source.
pub open spec fn checker_text(schema: SchemaModel, source: Seq<char>) -> Seq<char> {
    if schema.root is Some {
        types_text(schema) + "return (nil :: any) :: Module\n"@
    } else if types_text(schema).len() == 0 {
        source
    } else {
        types_text(schema)
    }
}

/// Appends a table entry.
fn write_entry(output: &mut String, indent: &str, name: &str, ty: &str)
    ensures
        final(output)@ == old(output)@ + entry_text(indent@, name@, ty@),
{
    output.append(indent);
    output.append(name);
    output.append(": ");
    output.append(ty);
    output.append(",\n");
    assert(output@ =~= old(output)@ + entry_text(indent@, name@, ty@));
}

/// Writes a callable as a function type.
fn callable_type(callable: &CallableSchema, self_type: Option<&str>) -> (r: String)
    ensures
        r@ == callable_text(
            callable@,
            match self_type {
                Some(t) => Some(t@),
                None => None,
            },
        ),
{
    let ghost receiver = match self_type {
        Some(t) => Some(t@),
        None => None::<Seq<char>>,
    };
    let ghost all = parameter_texts(callable@, receiver);
    let mut params: Vec<String> = Vec::new();
    if let Some(t) = self_type {
        params.push("self: ".to_owned().concat(t));
    }
    let ghost offset = params@.len() as int;
    let mut i: usize = 0;
    assert(texts(params@) =~= all.take(offset));
    while i < callable.args.len()
        invariant
            i <= callable.args.len(),
            all == parameter_texts(callable@, receiver),
            offset == (if receiver is Some {
                1int
            } else {
                0int
            }),
            all.len() == offset + callable.args@.len(),
            texts(params@) == all.take(offset + i),
        decreases callable.args.len() - i,
    {
        let arg = &callable.args[i];
        let ghost before = params@;
        params.push(arg.name.clone().concat(": ").concat(arg.ty.source.as_str()));
        assert(all[offset + i] == parameter_text(arg@)) by {
            assert(callable@.args[i as int] == arg@);
        }
        assert(texts(params@) =~= texts(before).push(parameter_text(arg@)));
        assert(texts(params@) =~= all.take(offset + i + 1));
        i += 1;
    }
    assert(all.take(offset + i) =~= all);
    "(".to_owned().concat(join_texts(&params, ", ").as_str()).concat(") -> ").concat(
        callable.returns.source.as_str(),
    )
}

/// Appends callables as table entries.
fn write_callables(
    output: &mut String,
    callables: &SortedMap<CallableSchema>,
    indent: &str,
    self_type: Option<&str>,
)
    ensures
        final(output)@ == old(output)@ + callables_text(
            callable_models(callables@),
            callables@.len() as int,
            indent@,
            match self_type {
                Some(t) => Some(t@),
                None => None,
            },
        ),
{
    let ghost receiver = match self_type {
        Some(t) => Some(t@),
        None => None::<Seq<char>>,
    };
    let ghost all = callable_models(callables@);
    let mut i: usize = 0;
    assert(output@ =~= old(output)@ + callables_text(all, 0, indent@, receiver));
    while i < callables.entries.len()
        invariant
            i <= callables.entries.len(),
            all == callable_models(callables@),
            receiver == (match self_type {
                Some(t) => Some(t@),
                None => None::<Seq<char>>,
            }),
            output@ == old(output)@ + callables_text(all, i as int, indent@, receiver),
        decreases callables.entries.len() - i,
    {
        let entry = &callables.entries[i];
        let ty = callable_type(&entry.1, self_type);
        assert(all[i as int] == (entry.0@, entry.1@));
        let ghost before = output@;
        write_entry(output, indent, entry.0.as_str(), ty.as_str());
        assert(output@ =~= old(output)@ + callables_text(all, i + 1, indent@, receiver));
        i += 1;
    }
}

/// Appends a namespace as a table type.
fn write_namespace_type(output: &mut String, namespace: &NamespaceSchema, indent: &str)
    ensures
        final(output)@ == old(output)@ + namespace_text(namespace@, indent@),
    decreases namespace,
{
    let inner = indent.to_owned().concat("    ");
    output.append("{\n");
    let ghost opened = output@;
    write_callables(output, &namespace.callables, inner.as_str(), None);
    let ghost called = output@;
    let ghost ns = namespace@;
    assert(callable_models(namespace.callables@) == ns.callables);
    let mut i: usize = 0;
    assert(output@ =~= called + children_text(ns, 0, inner@));
    while i < namespace.children.len()
        invariant
            i <= namespace.children.len(),
            ns == namespace@,
            output@ == called + children_text(ns, i as int, inner@),
        decreases namespace.children.len() - i,
    {
        let entry = &namespace.children[i];
        assert(ns.children[i as int] == (entry.0@, entry.1@));
        let mut ty = String::new();
        write_namespace_type(&mut ty, &entry.1, inner.as_str());
        assert(ty@ =~= namespace_text(entry.1@, inner@));
        write_entry(output, inner.as_str(), entry.0.as_str(), ty.as_str());
        assert(output@ =~= called + children_text(ns, i + 1, inner@));
        i += 1;
    }
    output.append(indent);
    output.append("}");
    assert(output@ =~= old(output)@ + namespace_text(namespace@, indent@));
}

/// Appends a class as an exported type.
fn write_class(output: &mut String, name: &str, class: &ClassSchema)
    ensures
        final(output)@ == old(output)@ + class_text(name@, class@),
{
    output.append("export type ");
    output.append(name);
    output.append(" = {\n");
    let ghost head = output@;
    let ghost all = class@.fields;
    let mut i: usize = 0;
    assert(output@ =~= head + fields_text(all, 0));
    while i < class.fields.entries.len()
        invariant
            i <= class.fields.entries.len(),
            all == class@.fields,
            output@ == head + fields_text(all, i as int),
        decreases class.fields.entries.len() - i,
    {
        let entry = &class.fields.entries[i];
        assert(all[i as int] == (entry.0@, entry.1@));
        write_entry(output, "    ", entry.0.as_str(), entry.1.ty.source.as_str());
        assert(output@ =~= head + fields_text(all, i + 1));
        i += 1;
    }
    write_callables(output, &class.method_signatures, "    ", Some(name));
    output.append("}\n\n");
    assert(output@ =~= old(output)@ + class_text(name@, class@));
}

/// Generates the source that the checker sees for an interface.
pub fn checker_source_for_interface(schema: &ModuleSchema, source: &str) -> (r: String)
    requires
        schema.wf(),
    ensures
        r@ == checker_text(schema@, source@),
{
    let mut output = String::new();
    let ghost aliases = schema@.type_aliases;
    let mut i: usize = 0;
    while i < schema.type_aliases.entries.len()
        invariant
            i <= schema.type_aliases.entries.len(),
            aliases == schema@.type_aliases,
            output@ == aliases_text(aliases, i as int),
        decreases schema.type_aliases.entries.len() - i,
    {
        let alias = &schema.type_aliases.entries[i].1;
        assert(aliases[i as int].1 == alias@);
        if !same_text(alias.name.as_str(), "Module") {
            let chars: Vec<char> = chars_of(alias.source.as_str());
            output.append(string_of(trimmed_end(chars.as_slice())).as_str());
            output.append("\n\n");
        }
        i += 1;
    }
    let ghost head = output@;
    let ghost classes = schema@.classes;
    let mut k: usize = 0;
    assert(output@ =~= head + classes_text(classes, 0));
    while k < schema.classes.entries.len()
        invariant
            k <= schema.classes.entries.len(),
            classes == schema@.classes,
            output@ == head + classes_text(classes, k as int),
        decreases schema.classes.entries.len() - k,
    {
        let entry = &schema.classes.entries[k];
        assert(classes[k as int] == (entry.0@, entry.1@));
        write_class(&mut output, entry.0.as_str(), &entry.1);
        assert(output@ =~= head + classes_text(classes, k + 1));
        k += 1;
    }
    proof {
        if schema.type_aliases@.len() > 0 {
            lemma_mapped(
                schema.type_aliases@,
                |a: TypeAliasSchema| a@,
                "Module"@,
                schema.type_aliases@[0].1,
            );
        }
    }
    let ghost before = output@;
    if let Some(alias) = schema.type_aliases.get("Module") {
        let chars: Vec<char> = chars_of(alias.source.as_str());
        output.append(string_of(trimmed_end(chars.as_slice())).as_str());
        output.append("\n\n");
    } else if let Some(root) = &schema.root {
        output.append("export type Module = ");
        write_namespace_type(&mut output, &root.namespace, "");
        output.append("\n\n");
    }
    assert(output@ =~= types_text(schema@));
    if schema.root.is_some() {
        output.append("return (nil :: any) :: Module\n");
    } else if output.as_str().is_empty() {
        output.append(source);
        assert(output@ =~= source@);
    }
    output
}

/// Whether `part` stands in `s` at position `at`.
pub open spec fn stands_at(s: Seq<char>, at: int, part: Seq<char>) -> bool {
    0 <= at && at + part.len() <= s.len() && s.subrange(at, at + part.len()) == part
}

/// What stands in a text stands in a longer one, moved by what is in front.
proof fn lemma_stands_inside(before: Seq<char>, s: Seq<char>, after: Seq<char>, at: int, part: Seq<char>)
    requires
        stands_at(s, at, part),
    ensures
        stands_at(before + s + after, before.len() + at, part),
{
    let whole = before + s + after;
    let from = before.len() + at;
    assert(whole.subrange(from, from + part.len()) =~= s.subrange(at, at + part.len()));
}

/// Where part `i` begins in joined parts.
spec fn join_offset(parts: Seq<Seq<char>>, sep: Seq<char>, i: int) -> int {
    if i <= 0 {
        0
    } else {
        (join(parts.take(i), sep).len() + sep.len()) as int
    }
}

/// Each of some joined parts stands behind those in front of it.
proof fn lemma_join_at(parts: Seq<Seq<char>>, sep: Seq<char>, i: int)
    requires
        0 <= i < parts.len(),
    ensures
        stands_at(join(parts, sep), join_offset(parts, sep, i), parts[i]),
    decreases parts.len(),
{
    let whole = join(parts, sep);
    if parts.len() == 1 {
        assert(whole.subrange(0, whole.len() as int) =~= whole);
    } else {
        let front = parts.drop_last();
        let head = join(front, sep);
        assert(front =~= parts.take(parts.len() - 1));
        if i == parts.len() - 1 {
            let at = join_offset(parts, sep, i);
            assert(whole.subrange(at, at + parts[i].len()) =~= parts[i]);
        } else {
            lemma_join_at(front, sep, i);
            assert(front.take(i) =~= parts.take(i));
            assert(whole =~= Seq::<char>::empty() + head + (sep + parts.last()));
            lemma_stands_inside(
                Seq::empty(),
                head,
                sep + parts.last(),
                join_offset(front, sep, i),
                parts[i],
            );
        }
    }
}

/// A later one of joined parts begins behind the end of an earlier one.
proof fn lemma_join_order(parts: Seq<Seq<char>>, sep: Seq<char>, i: int, j: int)
    requires
        0 <= i < j < parts.len(),
    ensures
        join_offset(parts, sep, i) + parts[i].len() + sep.len() <= join_offset(parts, sep, j),
{
    lemma_join_at(parts.take(j), sep, i);
    assert(parts.take(j).take(i) =~= parts.take(i));
}

/// The arguments of a callable are written in their order: the text `name:
/// type` of an argument ends in front of the text of any later one, with `, `
/// between them at least, and both stand between the brackets. Returns the
/// places where the two begin.
pub proof fn law_arguments_keep_their_order(
    c: CallableModel,
    self_type: Option<Seq<char>>,
    i: int,
    j: int,
) -> (at: (int, int))
    requires
        0 <= i < j < c.args.len(),
    ensures
        1 <= at.0,
        stands_at(
            callable_text(c, self_type),
            at.0,
            c.args[i].name + ": "@ + c.args[i].ty.source,
        ),
        stands_at(
            callable_text(c, self_type),
            at.1,
            c.args[j].name + ": "@ + c.args[j].ty.source,
        ),
        at.0 + (c.args[i].name + ": "@ + c.args[i].ty.source).len() + 2 <= at.1,
        at.1 + (c.args[j].name + ": "@ + c.args[j].ty.source).len() + (") -> "@
            + c.returns.source).len() <= callable_text(c, self_type).len(),
        self_type matches Some(t) ==> at.0 >= 1 + ("self: "@ + t).len() + 2,
{
    reveal_strlit("(");
    reveal_strlit(", ");
    let parts = parameter_texts(c, self_type);
    let offset: int = if self_type is Some {
        1
    } else {
        0
    };
    let sep = ", "@;
    let inner = join(parts, sep);
    let after = ") -> "@ + c.returns.source;
    let p = c.args[i].name + ": "@ + c.args[i].ty.source;
    let q = c.args[j].name + ": "@ + c.args[j].ty.source;
    assert(parts[offset + i] == p);
    assert(parts[offset + j] == q);
    lemma_join_at(parts, sep, offset + i);
    lemma_join_at(parts, sep, offset + j);
    lemma_join_order(parts, sep, offset + i, offset + j);
    if self_type is Some {
        lemma_join_order(parts, sep, 0, offset + i);
    }
    assert(callable_text(c, self_type) =~= "("@ + inner + after);
    let a = join_offset(parts, sep, offset + i);
    let b = join_offset(parts, sep, offset + j);
    lemma_stands_inside("("@, inner, after, a, p);
    lemma_stands_inside("("@, inner, after, b, q);
    (1 + a, 1 + b)
}

/// One more argument is written behind all others: the text of the callable
/// stays as it was up to the closing bracket, where `, name: type` comes in.
/// Returns what stands in front of that bracket.
pub proof fn law_argument_is_appended(
    c: CallableModel,
    a: ArgumentModel,
    self_type: Option<Seq<char>>,
) -> (head: Seq<char>)
    requires
        c.args.len() > 0 || self_type is Some,
    ensures
        callable_text(c, self_type) == head + ") -> "@ + c.returns.source,
        callable_text((CallableModel { args: c.args.push(a), ..c }), self_type) == head + ", "@
            + a.name + ": "@ + a.ty.source + ") -> "@ + c.returns.source,
{
    let parts = parameter_texts(c, self_type);
    let longer = (CallableModel { args: c.args.push(a), ..c });
    let more = parameter_texts(longer, self_type);
    let head = "("@ + join(parts, ", "@);
    assert(more =~= parts.push(a.name + ": "@ + a.ty.source));
    assert(more.drop_last() =~= parts);
    assert(callable_text(longer, self_type) =~= head + ", "@ + a.name + ": "@ + a.ty.source
        + ") -> "@ + c.returns.source);
    head
}

/// How callables with few arguments are written: without arguments `() -> R`,
/// with one `(a: A) -> R`, with two `(a: A, b: B) -> R`, and a method has its
/// receiver in front of them.
pub proof fn law_callables_are_written_in_order(c: CallableModel, receiver: Seq<char>)
    ensures
        c.args.len() == 0 ==> callable_text(c, None) == "("@ + ") -> "@ + c.returns.source,
        c.args.len() == 0 ==> callable_text(c, Some(receiver)) == "(self: "@ + receiver + ") -> "@
            + c.returns.source,
        c.args.len() == 1 ==> callable_text(c, None) == "("@ + c.args[0].name + ": "@
            + c.args[0].ty.source + ") -> "@ + c.returns.source,
        c.args.len() == 1 ==> callable_text(c, Some(receiver)) == "(self: "@ + receiver + ", "@
            + c.args[0].name + ": "@ + c.args[0].ty.source + ") -> "@ + c.returns.source,
        c.args.len() == 2 ==> callable_text(c, None) == "("@ + c.args[0].name + ": "@
            + c.args[0].ty.source + ", "@ + c.args[1].name + ": "@ + c.args[1].ty.source
            + ") -> "@ + c.returns.source,
        c.args.len() == 2 ==> callable_text(c, Some(receiver)) == "(self: "@ + receiver + ", "@
            + c.args[0].name + ": "@ + c.args[0].ty.source + ", "@ + c.args[1].name + ": "@
            + c.args[1].ty.source + ") -> "@ + c.returns.source,
{
    reveal_strlit("(");
    reveal_strlit("(self: ");
    reveal_strlit("self: ");
    reveal_strlit(") -> ");
    assert("("@ + "self: "@ =~= "(self: "@);
    let bare = parameter_texts(c, None);
    let method = parameter_texts(c, Some(receiver));
    reveal_with_fuel(join, 4);
    if c.args.len() == 0 {
        assert(bare =~= Seq::empty());
        assert(method =~= seq!["self: "@ + receiver]);
    } else if c.args.len() == 1 {
        assert(bare =~= seq![parameter_text(c.args[0])]);
        assert(method =~= seq!["self: "@ + receiver, parameter_text(c.args[0])]);
        assert(method.drop_last() =~= seq!["self: "@ + receiver]);
    } else if c.args.len() == 2 {
        assert(bare =~= seq![parameter_text(c.args[0]), parameter_text(c.args[1])]);
        assert(bare.drop_last() =~= seq![parameter_text(c.args[0])]);
        assert(method =~= seq![
            "self: "@ + receiver,
            parameter_text(c.args[0]),
            parameter_text(c.args[1]),
        ]);
        assert(method.drop_last() =~= seq!["self: "@ + receiver, parameter_text(c.args[0])]);
        assert(method.drop_last().drop_last() =~= seq!["self: "@ + receiver]);
    }
}

proof fn lemma_callable_at(
    e: Seq<(Seq<char>, CallableModel)>,
    n: int,
    indent: Seq<char>,
    self_type: Option<Seq<char>>,
    i: int,
) -> (at: int)
    requires
        0 <= i < n,
    ensures
        stands_at(
            callables_text(e, n, indent, self_type),
            at,
            indent + e[i].0 + ": "@ + callable_text(e[i].1, self_type) + ",\n"@,
        ),
    decreases n,
{
    let part = indent + e[i].0 + ": "@ + callable_text(e[i].1, self_type) + ",\n"@;
    let head = callables_text(e, n - 1, indent, self_type);
    let whole = callables_text(e, n, indent, self_type);
    if i == n - 1 {
        let at = head.len() as int;
        assert(whole.subrange(at, at + part.len()) =~= part);
        at
    } else {
        let at = lemma_callable_at(e, n - 1, indent, self_type, i);
        let tail = whole.skip(head.len() as int);
        assert(whole =~= Seq::<char>::empty() + head + tail);
        lemma_stands_inside(Seq::empty(), head, tail, at, part);
        at
    }
}

proof fn lemma_child_at(ns: NamespaceModel, n: int, indent: Seq<char>, i: int) -> (at: int)
    requires
        0 <= i < n <= ns.children.len(),
    ensures
        stands_at(
            children_text(ns, n, indent),
            at,
            indent + ns.children[i].0 + ": "@ + namespace_text(ns.children[i].1, indent) + ",\n"@,
        ),
    decreases n,
{
    let part = indent + ns.children[i].0 + ": "@ + namespace_text(ns.children[i].1, indent)
        + ",\n"@;
    let head = children_text(ns, n - 1, indent);
    let whole = children_text(ns, n, indent);
    assert(whole == head + entry_text(
        indent,
        ns.children[n - 1].0,
        namespace_text(ns.children[n - 1].1, indent),
    ));
    if i == n - 1 {
        let at = head.len() as int;
        assert(whole.subrange(at, at + part.len()) =~= part);
        at
    } else {
        let at = lemma_child_at(ns, n - 1, indent, i);
        let tail = whole.skip(head.len() as int);
        assert(whole =~= Seq::<char>::empty() + head + tail);
        lemma_stands_inside(Seq::empty(), head, tail, at, part);
        at
    }
}

proof fn lemma_field_at(e: Seq<(Seq<char>, FieldModel)>, n: int, i: int) -> (at: int)
    requires
        0 <= i < n,
    ensures
        stands_at(fields_text(e, n), at, "    "@ + e[i].0 + ": "@ + e[i].1.ty.source + ",\n"@),
    decreases n,
{
    let part = "    "@ + e[i].0 + ": "@ + e[i].1.ty.source + ",\n"@;
    let head = fields_text(e, n - 1);
    let whole = fields_text(e, n);
    if i == n - 1 {
        let at = head.len() as int;
        assert(whole.subrange(at, at + part.len()) =~= part);
        at
    } else {
        let at = lemma_field_at(e, n - 1, i);
        let tail = whole.skip(head.len() as int);
        assert(whole =~= Seq::<char>::empty() + head + tail);
        lemma_stands_inside(Seq::empty(), head, tail, at, part);
        at
    }
}

proof fn lemma_class_at(e: Seq<(Seq<char>, ClassModel)>, n: int, i: int) -> (at: int)
    requires
        0 <= i < n,
    ensures
        stands_at(classes_text(e, n), at, class_text(e[i].0, e[i].1)),
    decreases n,
{
    let part = class_text(e[i].0, e[i].1);
    let head = classes_text(e, n - 1);
    let whole = classes_text(e, n);
    if i == n - 1 {
        let at = head.len() as int;
        assert(whole.subrange(at, at + part.len()) =~= part);
        at
    } else {
        let at = lemma_class_at(e, n - 1, i);
        let tail = whole.skip(head.len() as int);
        assert(whole =~= Seq::<char>::empty() + head + tail);
        lemma_stands_inside(Seq::empty(), head, tail, at, part);
        at
    }
}

proof fn lemma_alias_at(e: Seq<(Seq<char>, AliasModel)>, n: int, i: int) -> (at: int)
    requires
        0 <= i < n,
        e[i].1.name != "Module"@,
    ensures
        stands_at(aliases_text(e, n), at, trim_end(e[i].1.source) + "\n\n"@),
    decreases n,
{
    let part = trim_end(e[i].1.source) + "\n\n"@;
    let head = aliases_text(e, n - 1);
    let whole = aliases_text(e, n);
    if i == n - 1 {
        let at = head.len() as int;
        assert(whole.subrange(at, at + part.len()) =~= part);
        at
    } else {
        let at = lemma_alias_at(e, n - 1, i);
        let tail = whole.skip(head.len() as int);
        assert(whole =~= Seq::<char>::empty() + head + tail);
        lemma_stands_inside(Seq::empty(), head, tail, at, part);
        at
    }
}

/// Every function of a namespace has its entry `name: type,` in the table
/// type, one step deeper than the closing brace. Returns its place.
pub proof fn law_function_is_written(ns: NamespaceModel, indent: Seq<char>, i: int) -> (at: int)
    requires
        0 <= i < ns.callables.len(),
    ensures
        stands_at(
            namespace_text(ns, indent),
            at,
            indent + "    "@ + ns.callables[i].0 + ": "@ + callable_text(ns.callables[i].1, None)
                + ",\n"@,
        ),
{
    let inner = indent + "    "@;
    let n = ns.callables.len() as int;
    let at = lemma_callable_at(ns.callables, n, inner, None, i);
    let after = children_text(ns, ns.children.len() as int, inner) + indent + "}"@;
    let list = callables_text(ns.callables, n, inner, None);
    assert(namespace_text(ns, indent) =~= "{\n"@ + list + after);
    let part = inner + ns.callables[i].0 + ": "@ + callable_text(ns.callables[i].1, None) + ",\n"@;
    lemma_stands_inside("{\n"@, list, after, at, part);
    "{\n"@.len() + at
}

/// Every nested namespace has its entry in the table type of the one around
/// it, behind all functions, and its own type is written one step deeper.
/// Returns its place.
pub proof fn law_child_is_written(ns: NamespaceModel, indent: Seq<char>, i: int) -> (at: int)
    requires
        0 <= i < ns.children.len(),
    ensures
        stands_at(
            namespace_text(ns, indent),
            at,
            indent + "    "@ + ns.children[i].0 + ": "@ + namespace_text(
                ns.children[i].1,
                indent + "    "@,
            ) + ",\n"@,
        ),
{
    let inner = indent + "    "@;
    let n = ns.children.len() as int;
    let at = lemma_child_at(ns, n, inner, i);
    let before = "{\n"@ + callables_text(ns.callables, ns.callables.len() as int, inner, None);
    let list = children_text(ns, n, inner);
    let after = indent + "}"@;
    assert(namespace_text(ns, indent) =~= before + list + after);
    let part = inner + ns.children[i].0 + ": "@ + namespace_text(ns.children[i].1, inner) + ",\n"@;
    lemma_stands_inside(before, list, after, at, part);
    before.len() + at
}

/// One more function is written behind the other functions and in front of
/// the nested namespaces; nothing else changes. Returns what stands in front
/// of it and behind it.
pub proof fn law_function_is_appended(
    ns: NamespaceModel,
    name: Seq<char>,
    c: CallableModel,
    indent: Seq<char>,
) -> (parts: (Seq<char>, Seq<char>))
    ensures
        namespace_text(ns, indent) == parts.0 + parts.1,
        namespace_text(
            (NamespaceModel { callables: ns.callables.push((name, c)), ..ns }),
            indent,
        ) == parts.0 + indent + "    "@ + name + ": "@ + callable_text(c, None) + ",\n"@
            + parts.1,
        ns.children.len() == 0 ==> parts.1 == indent + "}"@,
        ns.callables.len() == 0 ==> parts.0 == "{\n"@,
{
    let inner = indent + "    "@;
    let n = ns.callables.len() as int;
    let longer = (NamespaceModel { callables: ns.callables.push((name, c)), ..ns });
    lemma_callables_prefix(ns.callables, (name, c), n, inner, None);
    lemma_same_children(ns, longer, ns.children.len() as int, inner);
    let before = "{\n"@ + callables_text(ns.callables, n, inner, None);
    let after = children_text(ns, ns.children.len() as int, inner) + indent + "}"@;
    assert(namespace_text(ns, indent) =~= before + after);
    assert(callables_text(longer.callables, n + 1, inner, None) == callables_text(
        longer.callables,
        n,
        inner,
        None,
    ) + entry_text(inner, name, callable_text(c, None)));
    assert(namespace_text(longer, indent) =~= before + indent + "    "@ + name + ": "@
        + callable_text(c, None) + ",\n"@ + after);
    if n == 0 {
        assert(before =~= "{\n"@);
    }
    if ns.children.len() == 0 {
        assert(after =~= indent + "}"@);
    }
    (before, after)
}

proof fn lemma_callables_prefix(
    e: Seq<(Seq<char>, CallableModel)>,
    x: (Seq<char>, CallableModel),
    n: int,
    indent: Seq<char>,
    self_type: Option<Seq<char>>,
)
    requires
        n <= e.len(),
    ensures
        callables_text(e.push(x), n, indent, self_type) == callables_text(e, n, indent, self_type),
    decreases n,
{
    if n > 0 {
        lemma_callables_prefix(e, x, n - 1, indent, self_type);
    }
}

proof fn lemma_same_children(a: NamespaceModel, b: NamespaceModel, n: int, indent: Seq<char>)
    requires
        a.children == b.children,
    ensures
        children_text(a, n, indent) == children_text(b, n, indent),
    decreases n,
{
    if 0 < n <= a.children.len() {
        lemma_same_children(a, b, n - 1, indent);
    }
}

/// Every field of a class and every method has its entry in the type of the
/// class; a method has the class as its receiver. Returns the place of field
/// `i`, where there is one, and of method `j`.
pub proof fn law_class_members_are_written(name: Seq<char>, c: ClassModel, i: int, j: int) -> (at: (
    int,
    int,
))
    ensures
        0 <= i < c.fields.len() ==> stands_at(
            class_text(name, c),
            at.0,
            "    "@ + c.fields[i].0 + ": "@ + c.fields[i].1.ty.source + ",\n"@,
        ),
        0 <= j < c.method_signatures.len() ==> stands_at(
            class_text(name, c),
            at.1,
            "    "@ + c.method_signatures[j].0 + ": "@ + callable_text(
                c.method_signatures[j].1,
                Some(name),
            ) + ",\n"@,
        ),
        starts(class_text(name, c), "export type "@ + name + " = {\n"@),
{
    let head = "export type "@ + name + " = {\n"@;
    let n = c.fields.len() as int;
    let m = c.method_signatures.len() as int;
    let fields = fields_text(c.fields, n);
    let methods = callables_text(c.method_signatures, m, "    "@, Some(name));
    let whole = class_text(name, c);
    assert(whole =~= head + fields + (methods + "}\n\n"@));
    assert(whole =~= (head + fields) + methods + "}\n\n"@);
    assert(whole.subrange(0, head.len() as int) =~= head);
    assert(whole.take(head.len() as int) =~= head);
    let mut first: int = 0;
    let mut second: int = 0;
    if 0 <= i < n {
        let at = lemma_field_at(c.fields, n, i);
        let part = "    "@ + c.fields[i].0 + ": "@ + c.fields[i].1.ty.source + ",\n"@;
        lemma_stands_inside(head, fields, methods + "}\n\n"@, at, part);
        first = head.len() + at;
    }
    if 0 <= j < m {
        let at = lemma_callable_at(c.method_signatures, m, "    "@, Some(name), j);
        let part = "    "@ + c.method_signatures[j].0 + ": "@ + callable_text(
            c.method_signatures[j].1,
            Some(name),
        ) + ",\n"@;
        lemma_stands_inside(head + fields, methods, "}\n\n"@, at, part);
        second = (head + fields).len() + at;
    }
    (first, second)
}

/// The checker sees every declaration of a schema: each alias that is not
/// named `Module`, each class, and the type of the root in front of the value
/// that a module returns. Returns the places of alias `i` and class `j`.
pub proof fn law_declarations_are_written(schema: SchemaModel, source: Seq<char>, i: int, j: int) -> (at: (
    int,
    int,
))
    ensures
        0 <= i < schema.type_aliases.len() && schema.type_aliases[i].1.name != "Module"@
            ==> stands_at(
            checker_text(schema, source),
            at.0,
            trim_end(schema.type_aliases[i].1.source) + "\n\n"@,
        ),
        0 <= j < schema.classes.len() ==> stands_at(
            checker_text(schema, source),
            at.1,
            class_text(schema.classes[j].0, schema.classes[j].1),
        ),
        schema.root is Some && lookup(schema.type_aliases, "Module"@) is None ==> ends(
            checker_text(schema, source),
            "export type Module = "@ + namespace_text(schema.root->0.namespace, ""@)
                + "\n\nreturn (nil :: any) :: Module\n"@,
        ),
        lookup(schema.type_aliases, "Module"@) matches Some(alias) ==> ends(
            checker_text(schema, source),
            trim_end(alias.source) + "\n\n"@ + (if schema.root is Some {
                "return (nil :: any) :: Module\n"@
            } else {
                Seq::empty()
            }),
        ),
        schema.root is None && schema.type_aliases.len() == 0 && schema.classes.len() == 0
            ==> checker_text(schema, source) == source,
{
    reveal_strlit("\n\n");
    reveal_strlit("return (nil :: any) :: Module\n");
    reveal_strlit("\n\nreturn (nil :: any) :: Module\n");
    reveal_strlit("}\n\n");
    assert("\n\n"@ + "return (nil :: any) :: Module\n"@
        =~= "\n\nreturn (nil :: any) :: Module\n"@);
    let tail: Seq<char> = if schema.root is Some {
        "return (nil :: any) :: Module\n"@
    } else {
        Seq::empty()
    };
    let n = schema.type_aliases.len() as int;
    let m = schema.classes.len() as int;
    let aliases = aliases_text(schema.type_aliases, n);
    let classes = classes_text(schema.classes, m);
    let module = module_type_text(schema);
    let whole = checker_text(schema, source);
    let mut first: int = 0;
    let mut second: int = 0;
    if 0 <= i < n && schema.type_aliases[i].1.name != "Module"@ {
        let at = lemma_alias_at(schema.type_aliases, n, i);
        let part = trim_end(schema.type_aliases[i].1.source) + "\n\n"@;
        assert(aliases.len() > 0);
        assert(whole =~= Seq::<char>::empty() + aliases + (classes + module + tail));
        lemma_stands_inside(Seq::empty(), aliases, classes + module + tail, at, part);
        first = at;
    }
    if 0 <= j < m {
        let at = lemma_class_at(schema.classes, m, j);
        let part = class_text(schema.classes[j].0, schema.classes[j].1);
        assert(classes.len() > 0);
        assert(whole =~= aliases + classes + (module + tail));
        lemma_stands_inside(aliases, classes, module + tail, at, part);
        second = aliases.len() + at;
    }
    if lookup(schema.type_aliases, "Module"@) is Some || schema.root is Some {
        assert(module.len() > 0);
        assert(whole =~= aliases + classes + (module + tail));
        let front = (aliases + classes).len() as int;
        assert(whole.skip(front) =~= module + tail);
        if lookup(schema.type_aliases, "Module"@) is None {
            let root = schema.root->0;
            assert(module + tail =~= "export type Module = "@ + namespace_text(
                root.namespace,
                ""@,
            ) + "\n\nreturn (nil :: any) :: Module\n"@);
        }
    }
    (first, second)
}

/// A module that declares one function is written as a `Module` type with
/// that function alone, and a value of the type.
pub proof fn law_one_function_module(
    schema: SchemaModel,
    root: RootModel,
    name: Seq<char>,
    c: CallableModel,
    source: Seq<char>,
)
    requires
        schema.root == Some(root),
        schema.classes.len() == 0,
        schema.type_aliases.len() == 0,
        root.namespace.callables == seq![(name, c)],
        root.namespace.children.len() == 0,
        c.args.len() == 2,
    ensures
        checker_text(schema, source) == "export type Module = {\n    "@ + name + ": ("@
            + c.args[0].name + ": "@ + c.args[0].ty.source + ", "@ + c.args[1].name + ": "@
            + c.args[1].ty.source + ") -> "@ + c.returns.source
            + ",\n}\n\nreturn (nil :: any) :: Module\n"@,
{
    law_callables_are_written_in_order(c, Seq::empty());
    reveal_strlit("");
    reveal_strlit("{\n");
    reveal_strlit("}");
    reveal_strlit(": ");
    reveal_strlit("(");
    reveal_strlit(": (");
    reveal_strlit("    ");
    reveal_strlit(",\n");
    reveal_strlit("\n\n");
    reveal_strlit("export type Module = ");
    reveal_strlit("export type Module = {\n    ");
    reveal_strlit("return (nil :: any) :: Module\n");
    reveal_strlit(",\n}\n\nreturn (nil :: any) :: Module\n");
    reveal_with_fuel(callables_text, 2);
    let ns = root.namespace;
    let params = c.args[0].name + ": "@ + c.args[0].ty.source + ", "@ + c.args[1].name + ": "@
        + c.args[1].ty.source + ") -> "@ + c.returns.source;
    assert(callable_text(c, None) =~= "("@ + params);
    assert(callables_text(ns.callables, 1, ""@ + "    "@, None) =~= "    "@ + name + ": "@
        + callable_text(c, None) + ",\n"@);
    assert(namespace_text(ns, ""@) =~= "{\n    "@ + name + ": "@ + callable_text(c, None)
        + ",\n}"@) by {
        reveal_strlit("{\n    ");
        reveal_strlit(",\n}");
        assert("{\n"@ + "    "@ =~= "{\n    "@);
        assert(",\n"@ + "}"@ =~= ",\n}"@);
    }
    assert("export type Module = "@ + "{\n    "@ =~= "export type Module = {\n    "@) by {
        reveal_strlit("{\n    ");
    }
    assert(": "@ + "("@ =~= ": ("@);
    assert(",\n}"@ + "\n\n"@ + "return (nil :: any) :: Module\n"@
        =~= ",\n}\n\nreturn (nil :: any) :: Module\n"@) by {
        reveal_strlit(",\n}");
    }
    assert(checker_text(schema, source) =~= ("export type Module = "@ + "{\n    "@) + name + (": "@
        + "("@) + params + (",\n}"@ + "\n\n"@ + "return (nil :: any) :: Module\n"@));
}

} // verus!
